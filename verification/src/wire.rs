//! The wire form of a challenge integer: its decimal digits as four-bit
//! nibbles behind one zero nibble, packed six bits to a character of the
//! standard base64 alphabet, most significant bit first. A last group that
//! the nibbles do not fill is completed with one-bits, which a reader drops:
//! a nibble above nine is no digit.

use vstd::prelude::*;
use crate::decimal::{is_canonical, le_value};

verus! {

/// The decimal digits of `n`, most significant first; one digit for zero.
pub open spec fn digits_of(n: nat) -> Seq<u8>
    decreases n,
{
    if n < 10 {
        seq![n as u8]
    } else {
        digits_of(n / 10).push((n % 10) as u8)
    }
}

/// The nibbles that carry `n`: a zero nibble, then the digits of `n`.
pub open spec fn nibbles_of(n: nat) -> Seq<u8> {
    seq![0u8] + digits_of(n)
}

/// Every element of `s` fits four bits.
pub open spec fn all_nibbles(s: Seq<u8>) -> bool {
    forall|i: int| 0 <= i < s.len() ==> #[trigger] s[i] < 16
}

/// Packs nibbles into six-bit groups, three nibbles to two groups. One or
/// two nibbles left over are followed by one-bits up to the group's end.
pub open spec fn pack(n: Seq<u8>) -> Seq<u8>
    decreases n.len(),
{
    if n.len() == 0 {
        Seq::<u8>::empty()
    } else if n.len() == 1 {
        seq![(n[0] * 4 + 3) as u8]
    } else if n.len() == 2 {
        seq![(n[0] * 4 + n[1] / 4) as u8, ((n[1] % 4) * 16 + 15) as u8]
    } else {
        seq![(n[0] * 4 + n[1] / 4) as u8, ((n[1] % 4) * 16 + n[2]) as u8] + pack(n.skip(3))
    }
}

/// Reads six-bit groups back as nibbles, two groups to three nibbles; of a
/// single last group only the upper four bits are a nibble.
pub open spec fn unpack(s: Seq<u8>) -> Seq<u8>
    decreases s.len(),
{
    if s.len() == 0 {
        Seq::<u8>::empty()
    } else if s.len() == 1 {
        seq![s[0] / 4]
    } else {
        seq![s[0] / 4, ((s[0] % 4) * 4 + s[1] / 16) as u8, s[1] % 16] + unpack(s.skip(2))
    }
}

/// The number that a nibble stream spells in decimal, most significant digit
/// first; nibbles above nine are skipped.
pub open spec fn nibbles_value(s: Seq<u8>) -> nat
    decreases s.len(),
{
    if s.len() == 0 {
        0
    } else if s.last() < 10 {
        nibbles_value(s.drop_last()) * 10 + s.last() as nat
    } else {
        nibbles_value(s.drop_last())
    }
}

/// The character of the standard base64 alphabet for a six-bit group.
pub open spec fn sextet_char(v: u8) -> char {
    if v < 26 {
        (v + 65) as char
    } else if v < 52 {
        (v + 71) as char
    } else if v < 62 {
        ((v - 4) as u8) as char
    } else if v == 62 {
        '+'
    } else {
        '/'
    }
}

/// A character of the standard base64 alphabet.
pub open spec fn is_wire_char(c: char) -> bool {
    ||| 'A' <= c <= 'Z'
    ||| 'a' <= c <= 'z'
    ||| '0' <= c <= '9'
    ||| c == '+'
    ||| c == '/'
}

/// The six-bit group that a character of the alphabet stands for.
pub open spec fn char_sextet(c: char) -> u8 {
    if 'A' <= c <= 'Z' {
        (c as u32 - 65) as u8
    } else if 'a' <= c <= 'z' {
        (c as u32 - 71) as u8
    } else if '0' <= c <= '9' {
        (c as u32 + 4) as u8
    } else if c == '+' {
        62
    } else {
        63
    }
}

/// The characters for a sequence of six-bit groups.
pub open spec fn wire_text(s: Seq<u8>) -> Seq<char> {
    s.map_values(|v: u8| sextet_char(v))
}

/// The wire form of `n`.
pub open spec fn encode_number(n: nat) -> Seq<char> {
    wire_text(pack(nibbles_of(n)))
}

/// The number that a wire text carries: every character is of the alphabet,
/// the two bits that a single last group leaves over are one-bits, and the
/// nibbles spell the number.
pub open spec fn decode_text(t: Seq<char>) -> Option<nat> {
    if (forall|i: int| 0 <= i < t.len() ==> is_wire_char(#[trigger] t[i])) && (t.len() % 2 == 1
        ==> char_sextet(t.last()) % 4 == 3) {
        Some(nibbles_value(unpack(t.map_values(|c: char| char_sextet(c)))))
    } else {
        None
    }
}

/// How many characters the wire form of a number of `digits` digits has.
pub open spec fn wire_len(digits: nat) -> nat {
    ((digits + 1) / 3) * 2 + (digits + 1) % 3
}

/// A number has at least one decimal digit, and each is below ten.
pub proof fn lemma_digits_of_range(n: nat)
    ensures
        digits_of(n).len() >= 1,
        forall|i: int| 0 <= i < digits_of(n).len() ==> #[trigger] digits_of(n)[i] < 10,
    decreases n,
{
    if n >= 10 {
        lemma_digits_of_range(n / 10);
    }
}

/// The digits of a number held least significant first are its decimal
/// digits, in reverse.
pub proof fn lemma_reverse_is_digits_of(d: Seq<u8>)
    requires
        is_canonical(d),
    ensures
        d.reverse() == digits_of(le_value(d)),
    decreases d.len(),
{
    let rest = d.drop_first();
    if rest.len() == 0 {
        assert(le_value(rest) == 0);
        assert(d[0] < 10);
        assert(d.reverse() =~= seq![d[0]]);
    } else {
        assert(is_canonical(rest)) by {
            assert forall|i: int| 0 <= i < rest.len() implies #[trigger] rest[i] < 10 by {
                assert(rest[i] == d[i + 1]);
            }
            assert(rest.last() == d.last());
        }
        lemma_reverse_is_digits_of(rest);
        crate::decimal::lemma_le_value_lower(rest);
        crate::decimal::lemma_pow10_step((rest.len() - 1) as nat);
        assert(d[0] < 10);
        let n = le_value(d);
        assert(n == d[0] as nat + 10 * le_value(rest));
        assert(le_value(rest) >= 1);
        assert(n / 10 == le_value(rest));
        assert(n % 10 == d[0] as nat);
        assert(d.reverse() =~= rest.reverse().push(d[0]));
    }
}

/// Three nibbles make two groups; a nibble left over makes one more, two
/// make two more.
pub proof fn lemma_pack_len(n: Seq<u8>)
    ensures
        pack(n).len() == (n.len() / 3) * 2 + n.len() % 3,
    decreases n.len(),
{
    if n.len() >= 3 {
        lemma_pack_len(n.skip(3));
    }
}

/// Packed nibbles are groups of six bits.
pub proof fn lemma_pack_range(n: Seq<u8>)
    requires
        all_nibbles(n),
    ensures
        forall|i: int| 0 <= i < pack(n).len() ==> #[trigger] pack(n)[i] < 64,
    decreases n.len(),
{
    if n.len() == 0 {
    } else if n.len() == 1 {
        assert(n[0] < 16);
    } else if n.len() == 2 {
        assert(n[0] < 16 && n[1] < 16);
    } else {
        assert(n[0] < 16 && n[1] < 16 && n[2] < 16);
        let r = n.skip(3);
        assert(all_nibbles(r)) by {
            assert forall|i: int| 0 <= i < r.len() implies #[trigger] r[i] < 16 by {
                assert(r[i] == n[i + 3]);
            }
        }
        lemma_pack_range(r);
        let head = seq![(n[0] * 4 + n[1] / 4) as u8, ((n[1] % 4) * 16 + n[2]) as u8];
        assert forall|i: int| 0 <= i < pack(n).len() implies #[trigger] pack(n)[i] < 64 by {
            if i >= 2 {
                assert(pack(n)[i] == pack(r)[i - 2]);
            } else {
                assert(pack(n)[i] == head[i]);
            }
        }
    }
}

/// Unpacking what was packed gives the nibbles back, followed by one
/// filler nibble of one-bits where two nibbles were left over.
pub proof fn lemma_unpack_pack(n: Seq<u8>)
    requires
        all_nibbles(n),
    ensures
        unpack(pack(n)) == if n.len() % 3 == 2 {
            n.push(15u8)
        } else {
            n
        },
    decreases n.len(),
{
    if n.len() == 0 {
        assert(unpack(pack(n)) =~= n);
    } else if n.len() == 1 {
        assert(n[0] < 16);
        assert(unpack(pack(n)) =~= n);
    } else if n.len() == 2 {
        assert(n[0] < 16 && n[1] < 16);
        let p = pack(n);
        assert(p.len() == 2);
        assert(p.skip(2) =~= Seq::<u8>::empty());
        assert(unpack(p.skip(2)) =~= Seq::<u8>::empty());
        let a = p[0];
        let b = p[1];
        assert(a == n[0] * 4 + n[1] / 4);
        assert(b == (n[1] % 4) * 16 + 15);
        assert(a / 4 == n[0]);
        assert((a % 4) * 4 + b / 16 == n[1]);
        assert(b % 16 == 15);
        assert(unpack(p) =~= seq![n[0], n[1], 15u8]);
        assert(unpack(p) =~= n.push(15u8));
    } else {
        assert(n[0] < 16 && n[1] < 16 && n[2] < 16);
        let r = n.skip(3);
        assert(all_nibbles(r)) by {
            assert forall|i: int| 0 <= i < r.len() implies #[trigger] r[i] < 16 by {
                assert(r[i] == n[i + 3]);
            }
        }
        lemma_unpack_pack(r);
        let p = pack(n);
        assert(p.skip(2) =~= pack(r));
        let a = p[0];
        let b = p[1];
        assert(a / 4 == n[0]);
        assert((a % 4) * 4 + b / 16 == n[1]);
        assert(b % 16 == n[2]);
        let head = seq![n[0], n[1], n[2]];
        assert(unpack(p) =~= head + unpack(pack(r)));
        if n.len() % 3 == 2 {
            assert(head + r.push(15u8) =~= n.push(15u8));
        } else {
            assert(head + r =~= n);
        }
    }
}

/// The nibbles of a number spell that number.
pub proof fn lemma_nibbles_value_of(n: nat)
    ensures
        nibbles_value(nibbles_of(n)) == n,
        nibbles_value(nibbles_of(n).push(15u8)) == n,
        all_nibbles(nibbles_of(n)),
    decreases n,
{
    lemma_digits_of_range(n);
    let s = nibbles_of(n);
    if n < 10 {
        assert(s =~= seq![0u8].push(n as u8));
        assert(s.drop_last() =~= seq![0u8]);
        let z = seq![0u8];
        assert(z.drop_last() =~= Seq::<u8>::empty());
        assert(nibbles_value(z.drop_last()) == 0);
        assert(z.last() == 0);
        assert(nibbles_value(z) == 0);
        assert(s.last() == n as u8);
    } else {
        lemma_nibbles_value_of(n / 10);
        assert(s =~= nibbles_of(n / 10).push((n % 10) as u8));
        assert(s.drop_last() =~= nibbles_of(n / 10));
        assert(s.last() == (n % 10) as u8);
    }
    assert(nibbles_value(s) == n);
    assert(s.push(15u8).drop_last() =~= s);
    assert(s.push(15u8).last() == 15u8);
    assert forall|i: int| 0 <= i < s.len() implies #[trigger] s[i] < 16 by {
        if i > 0 {
            assert(s[i] == digits_of(n)[i - 1]);
        }
    }
}

/// The character for a group of six bits is of the alphabet and stands
/// for that group.
pub proof fn lemma_char_sextet_inverse(v: u8)
    requires
        v < 64,
    ensures
        is_wire_char(sextet_char(v)),
        char_sextet(sextet_char(v)) == v,
{
}

/// Reading the wire form of a number gives that number back.
pub proof fn lemma_decode_encode(n: nat)
    ensures
        decode_text(encode_number(n)) == Some(n),
{
    let nib = nibbles_of(n);
    lemma_nibbles_value_of(n);
    lemma_pack_range(nib);
    lemma_pack_len(nib);
    lemma_unpack_pack(nib);
    let p = pack(nib);
    let t = encode_number(n);
    assert forall|i: int| 0 <= i < t.len() implies is_wire_char(#[trigger] t[i]) by {
        lemma_char_sextet_inverse(p[i]);
    }
    assert(t.map_values(|c: char| char_sextet(c)) =~= p) by {
        assert forall|i: int| 0 <= i < p.len() implies t.map_values(|c: char| char_sextet(c))[i]
            == p[i] by {
            lemma_char_sextet_inverse(p[i]);
        }
    }
    if t.len() % 2 == 1 {
        lemma_last_of_odd_pack(nib);
        lemma_char_sextet_inverse(p.last());
        assert(t.last() == sextet_char(p.last()));
    }
}

/// A packing of odd length ends in a group whose two low bits are one-bits.
pub proof fn lemma_last_of_odd_pack(n: Seq<u8>)
    requires
        all_nibbles(n),
        pack(n).len() % 2 == 1,
    ensures
        pack(n).last() % 4 == 3,
    decreases n.len(),
{
    if n.len() == 1 {
        assert(n[0] < 16);
    } else if n.len() >= 3 {
        let r = n.skip(3);
        assert(all_nibbles(r)) by {
            assert forall|i: int| 0 <= i < r.len() implies #[trigger] r[i] < 16 by {
                assert(r[i] == n[i + 3]);
            }
        }
        lemma_pack_len(r);
        lemma_pack_len(n);
        lemma_last_of_odd_pack(r);
        assert(pack(n).last() == pack(r).last());
    }
}

/// The character of the alphabet for a six-bit group.
pub fn sextet_to_char(v: u8) -> (c: char)
    requires
        v < 64,
    ensures
        c == sextet_char(v),
{
    if v < 26 {
        (v + 65) as char
    } else if v < 52 {
        (v + 71) as char
    } else if v < 62 {
        (v - 4) as char
    } else if v == 62 {
        '+'
    } else {
        '/'
    }
}

/// Packs a nibble stream and writes it in the alphabet.
pub fn pack_text(nib: &Vec<u8>) -> (out: String)
    requires
        all_nibbles(nib@),
    ensures
        out@ == wire_text(pack(nib@)),
{
    let n = nib.len();
    let mut out = String::new();
    let mut i: usize = 0;
    proof {
        assert(nib@.skip(0) =~= nib@);
        assert(out@ + wire_text(pack(nib@)) =~= wire_text(pack(nib@)));
    }
    while n - i >= 3
        invariant
            n == nib.len(),
            i <= n,
            all_nibbles(nib@),
            out@ + wire_text(pack(nib@.skip(i as int))) == wire_text(pack(nib@)),
        decreases n - i,
    {
        let a = nib[i];
        let b = nib[i + 1];
        let c = nib[i + 2];
        let ghost rest = nib@.skip(i as int);
        let ghost before = out@;
        proof {
            assert(a < 16 && b < 16 && c < 16);
            assert(rest[0] == a && rest[1] == b && rest[2] == c);
            assert(rest.skip(3) =~= nib@.skip(i + 3));
            let head = seq![(a * 4 + b / 4) as u8, ((b % 4) * 16 + c) as u8];
            assert(pack(rest) =~= head + pack(rest.skip(3)));
            assert(wire_text(head + pack(rest.skip(3))) =~= wire_text(head) + wire_text(
                pack(rest.skip(3)),
            ));
            assert(wire_text(head) =~= seq![sextet_char(head[0]), sextet_char(head[1])]);
        }
        out.push(sextet_to_char(a * 4 + b / 4));
        out.push(sextet_to_char((b % 4) * 16 + c));
        proof {
            assert(out@ =~= before + seq![
                sextet_char((a * 4 + b / 4) as u8),
                sextet_char(((b % 4) * 16 + c) as u8),
            ]);
            assert(out@ + wire_text(pack(nib@.skip(i + 3))) =~= before + wire_text(pack(rest)));
        }
        i = i + 3;
    }
    let ghost rest = nib@.skip(i as int);
    let ghost before = out@;
    if n - i == 1 {
        let a = nib[i];
        proof {
            assert(a < 16);
            assert(rest[0] == a);
            assert(wire_text(pack(rest)) =~= seq![sextet_char((a * 4 + 3) as u8)]);
        }
        out.push(sextet_to_char(a * 4 + 3));
        proof {
            assert(out@ =~= before + wire_text(pack(rest)));
        }
    } else if n - i == 2 {
        let a = nib[i];
        let b = nib[i + 1];
        proof {
            assert(a < 16 && b < 16);
            assert(rest[0] == a && rest[1] == b);
            assert(wire_text(pack(rest)) =~= seq![
                sextet_char((a * 4 + b / 4) as u8),
                sextet_char(((b % 4) * 16 + 15) as u8),
            ]);
        }
        out.push(sextet_to_char(a * 4 + b / 4));
        out.push(sextet_to_char((b % 4) * 16 + 15));
        proof {
            assert(out@ =~= before + wire_text(pack(rest)));
        }
    } else {
        proof {
            assert(wire_text(pack(rest)) =~= Seq::<char>::empty());
            assert(out@ =~= before + wire_text(pack(rest)));
        }
    }
    out
}

/// Writes the wire form of the number whose digits are `d`, least
/// significant first.
pub fn encode_digits(d: &Vec<u8>) -> (out: String)
    requires
        is_canonical(d@),
    ensures
        out@ == encode_number(le_value(d@)),
{
    let n = d.len();
    let mut nib: Vec<u8> = Vec::new();
    nib.push(0u8);
    let mut i: usize = 0;
    proof {
        assert(nib@ =~= seq![0u8] + d@.reverse().take(0));
    }
    while i < n
        invariant
            n == d.len(),
            i <= n,
            nib@ == seq![0u8] + d@.reverse().take(i as int),
        decreases n - i,
    {
        let ghost before = nib@;
        nib.push(d[n - 1 - i]);
        proof {
            assert(d@.reverse()[i as int] == d@[n - 1 - i]);
            assert(nib@ =~= seq![0u8] + d@.reverse().take(i + 1));
        }
        i = i + 1;
    }
    proof {
        assert(d@.reverse().take(n as int) =~= d@.reverse());
        lemma_reverse_is_digits_of(d@);
        lemma_nibbles_value_of(le_value(d@));
    }
    pack_text(&nib)
}

} // verus!
