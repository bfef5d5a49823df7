//! The set of addresses that the gateway listens on.

use vstd::prelude::*;
use crate::args::MAX_LISTENERS;
use crate::error::Error;

verus! {

/// The addresses to bind, at most `MAX_LISTENERS` of them, in the order in
/// which they were given.
pub struct TcpVectorListener {
    listeners: Vec<String>,
}

impl TcpVectorListener {
    /// The addresses.
    pub closed spec fn addresses(&self) -> Seq<Seq<char>> {
        self.listeners@.map_values(|s: String| s@)
    }

    /// The set's invariant: it is not over the limit.
    pub closed spec fn wf(&self) -> bool {
        self.listeners@.len() <= MAX_LISTENERS
    }

    /// An empty set.
    pub fn new() -> (set: Self)
        ensures
            set.wf(),
            set.addresses() == Seq::<Seq<char>>::empty(),
    {
        let set = TcpVectorListener { listeners: Vec::new() };
        proof {
            assert(set.addresses() =~= Seq::<Seq<char>>::empty());
        }
        set
    }

    /// Adds an address; fails with `TooManyListeners`, and adds nothing,
    /// where the set is full.
    pub fn push(&mut self, listener: String) -> (r: Result<(), Error>)
        requires
            old(self).wf(),
        ensures
            final(self).wf(),
            match r {
                Ok(_) => old(self).addresses().len() < MAX_LISTENERS && final(self).addresses()
                    == old(self).addresses().push(listener@),
                Err(e) => e == Error::TooManyListeners && old(self).addresses().len()
                    == MAX_LISTENERS && final(self).addresses() == old(self).addresses(),
            },
    {
        if self.listeners.len() >= MAX_LISTENERS {
            return Err(Error::TooManyListeners);
        }
        self.listeners.push(listener);
        proof {
            assert(self.addresses() =~= old(self).addresses().push(listener@));
        }
        Ok(())
    }

    /// How many addresses the set holds.
    pub fn len(&self) -> (n: usize)
        requires
            self.wf(),
        ensures
            n == self.addresses().len(),
            n <= MAX_LISTENERS,
    {
        self.listeners.len()
    }

    /// The address at index `i`.
    pub fn address(&self, i: usize) -> (a: &String)
        requires
            i < self.addresses().len(),
        ensures
            a@ == self.addresses()[i as int],
    {
        &self.listeners[i]
    }
}

} // verus!
