//! A value held together with the function that is to receive a clone of
//! it, until `run` hands the clone over.

use vstd::prelude::*;

verus! {

/// Holds a value and the function that is to receive a clone of it. The
/// function is called by `run`, once; dropping the guard calls nothing.
pub struct GenericCleanup<T, F> where T: Clone, F: FnMut(T) {
    data: T,
    function: F,
}

impl<T, F> GenericCleanup<T, F> where T: Clone, F: FnMut(T) {
    /// The value that the function will receive.
    pub closed spec fn data(&self) -> T {
        self.data
    }

    /// The function that will receive the value.
    pub closed spec fn function(&self) -> F {
        self.function
    }

    /// A guard over `data` and `function`.
    pub fn new(data: T, function: F) -> (guard: Self)
        ensures
            guard.data() == data,
            guard.function() == function,
    {
        Self { data, function }
    }

    /// Hands a clone of the value to the function, once, and gives the
    /// guard's parts back: the value, and the function as the call left it.
    pub fn run(self) -> (parts: (T, F))
        requires
            forall|copy: T|
                cloned(self.data(), copy) ==> #[trigger] self.function().requires((copy,)),
        ensures
            parts.0 == self.data(),
            exists|copy: T|
                cloned(self.data(), copy) && #[trigger] self.function().ensures((copy,), ()),
    {
        let GenericCleanup { data, mut function } = self;
        let copy = data.clone();
        proof {
            assert(function == self.function());
            assert(function.requires((copy,)));
        }
        let ghost handed = copy;
        function(copy);
        proof {
            assert(cloned(self.data(), handed) && self.function().ensures((handed,), ()));
        }
        (data, function)
    }
}

} // verus!
