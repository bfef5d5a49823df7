//! Character-level helpers shared by the parsers and renderers.

use vstd::prelude::*;
use vstd::string::*;

verus! {

broadcast use vstd::string::group_string_axioms;

/// An ASCII decimal digit.
pub open spec fn is_digit(c: char) -> bool {
    '0' <= c && c <= '9'
}

/// The number a decimal digit stands for.
pub open spec fn digit_value(c: char) -> nat
    recommends
        is_digit(c),
{
    (c as u32 - '0' as u32) as nat
}

/// A character with the Unicode `White_Space` property.
pub open spec fn is_space(c: char) -> bool {
    let u = c as u32;
    ||| 0x09 <= u <= 0x0D
    ||| u == 0x20
    ||| u == 0x85
    ||| u == 0xA0
    ||| u == 0x1680
    ||| 0x2000 <= u <= 0x200A
    ||| u == 0x2028
    ||| u == 0x2029
    ||| u == 0x202F
    ||| u == 0x205F
    ||| u == 0x3000
}

/// Every character of `s` is a decimal digit.
pub open spec fn all_digits(s: Seq<char>) -> bool {
    forall|i: int| 0 <= i < s.len() ==> is_digit(#[trigger] s[i])
}

/// The natural number that the digit string `s` denotes, most significant
/// digit first; the empty string denotes zero.
pub open spec fn decimal_value(s: Seq<char>) -> nat
    decreases s.len(),
{
    if s.len() == 0 {
        0
    } else {
        decimal_value(s.drop_last()) * 10 + digit_value(s.last())
    }
}

/// How many digits `s` starts with.
pub open spec fn digit_len(s: Seq<char>) -> nat
    decreases s.len(),
{
    if s.len() == 0 || !is_digit(s[0]) {
        0
    } else {
        1 + digit_len(s.drop_first())
    }
}

/// How many whitespace characters `s` starts with.
pub open spec fn space_len(s: Seq<char>) -> nat
    decreases s.len(),
{
    if s.len() == 0 || !is_space(s[0]) {
        0
    } else {
        1 + space_len(s.drop_first())
    }
}

/// The leading digits of a text are digits, are no more than the text, and
/// end before a character that is no digit.
pub proof fn lemma_digit_len_bounds(s: Seq<char>)
    ensures
        digit_len(s) <= s.len(),
        all_digits(s.take(digit_len(s) as int)),
        digit_len(s) < s.len() ==> !is_digit(s[digit_len(s) as int]),
    decreases s.len(),
{
    if s.len() == 0 || !is_digit(s[0]) {
    } else {
        let t = s.drop_first();
        lemma_digit_len_bounds(t);
        let k = digit_len(s) as int;
        assert forall|i: int| 0 <= i < k implies is_digit(#[trigger] s.take(k)[i]) by {
            if i > 0 {
                assert(s.take(k)[i] == t.take(k - 1)[i - 1]);
            }
        }
        if k < s.len() {
            assert(s[k] == t[k - 1]);
        }
    }
}

/// The leading whitespace of a text is whitespace, is no more than the
/// text, and ends before a character that is none.
pub proof fn lemma_space_len_bounds(s: Seq<char>)
    ensures
        space_len(s) <= s.len(),
        forall|i: int| 0 <= i < space_len(s) ==> is_space(#[trigger] s[i]),
        space_len(s) < s.len() ==> !is_space(s[space_len(s) as int]),
    decreases s.len(),
{
    if s.len() == 0 || !is_space(s[0]) {
    } else {
        let t = s.drop_first();
        lemma_space_len_bounds(t);
        let k = space_len(s) as int;
        assert forall|i: int| 0 <= i < k implies is_space(#[trigger] s[i]) by {
            if i > 0 {
                assert(s[i] == t[i - 1]);
            }
        }
        if k < s.len() {
            assert(s[k] == t[k - 1]);
        }
    }
}

/// A leading zero does not change what a digit string denotes.
pub proof fn lemma_leading_zero(s: Seq<char>)
    requires
        s.len() > 0,
        s[0] == '0',
    ensures
        decimal_value(s) == decimal_value(s.drop_first()),
    decreases s.len(),
{
    if s.len() == 1 {
        assert(s.drop_last() =~= Seq::<char>::empty());
        assert(s.drop_first() =~= Seq::<char>::empty());
    } else {
        lemma_leading_zero(s.drop_last());
        assert(s.drop_last().drop_first() =~= s.drop_first().drop_last());
    }
}

/// A digit string that starts with a non-zero digit denotes a positive number.
pub proof fn lemma_leading_nonzero_positive(s: Seq<char>)
    requires
        s.len() > 0,
        all_digits(s),
        s[0] != '0',
    ensures
        decimal_value(s) >= 1,
    decreases s.len(),
{
    if s.len() == 1 {
        assert(s.drop_last() =~= Seq::<char>::empty());
        assert(is_digit(s[0]));
    } else {
        let t = s.drop_last();
        assert(all_digits(t)) by {
            assert forall|i: int| 0 <= i < t.len() implies is_digit(#[trigger] t[i]) by {
                assert(t[i] == s[i]);
            }
        }
        lemma_leading_nonzero_positive(t);
    }
}

/// Of two digit strings, the longer one denotes the greater number, provided
/// it has no leading zero.
pub proof fn lemma_longer_is_greater(a: Seq<char>, b: Seq<char>)
    requires
        all_digits(a),
        all_digits(b),
        a.len() < b.len(),
        b[0] != '0',
    ensures
        decimal_value(a) < decimal_value(b),
    decreases a.len(),
{
    if a.len() == 0 {
        lemma_leading_nonzero_positive(b);
    } else {
        let a1 = a.drop_last();
        let b1 = b.drop_last();
        assert(all_digits(a1)) by {
            assert forall|i: int| 0 <= i < a1.len() implies is_digit(#[trigger] a1[i]) by {
                assert(a1[i] == a[i]);
            }
        }
        assert(all_digits(b1)) by {
            assert forall|i: int| 0 <= i < b1.len() implies is_digit(#[trigger] b1[i]) by {
                assert(b1[i] == b[i]);
            }
        }
        lemma_longer_is_greater(a1, b1);
        assert(is_digit(a.last()));
        assert(is_digit(b.last()));
    }
}

/// `String::push` appends the one character to the string and changes
/// nothing else of it.
pub assume_specification[ String::push ](s: &mut String, c: char)
    ensures
        final(s)@ == old(s)@.push(c),
;

/// Collects the characters of `s` into a vector, in order.
pub fn chars_of(s: &str) -> (out: Vec<char>)
    ensures
        out@ == s@,
{
    let mut out: Vec<char> = Vec::new();
    let mut it = s.chars();
    let ghost mut done: int = 0;
    loop
        invariant
            0 <= done <= s@.len(),
            out@ == s@.take(done),
            vstd::std_specs::iter::IteratorSpec::remaining(&it) == s@.skip(done),
        decreases s@.len() - done,
    {
        match it.next() {
            Some(c) => {
                proof {
                    assert(s@.skip(done)[0] == s@[done]);
                    assert(s@.take(done).push(c) =~= s@.take(done + 1));
                    assert(s@.skip(done).drop_first() =~= s@.skip(done + 1));
                    done = done + 1;
                }
                out.push(c);
            },
            None => {
                proof {
                    assert(s@.skip(done).len() == 0);
                    assert(s@.take(done) =~= s@);
                }
                return out;
            },
        }
    }
}

/// The characters of `v` from `from` to `to` as a string.
pub fn string_of_range(v: &Vec<char>, from: usize, to: usize) -> (out: String)
    requires
        from <= to <= v.len(),
    ensures
        out@ == v@.subrange(from as int, to as int),
{
    let mut out = String::new();
    let mut i: usize = from;
    proof {
        assert(out@ =~= v@.subrange(from as int, from as int));
    }
    while i < to
        invariant
            from <= i <= to <= v.len(),
            out@ == v@.subrange(from as int, i as int),
        decreases to - i,
    {
        out.push(v[i]);
        proof {
            assert(out@ =~= v@.subrange(from as int, i + 1));
        }
        i = i + 1;
    }
    out
}

/// Appends the characters of `s` to `out`.
pub fn push_str(out: &mut String, s: &str)
    ensures
        final(out)@ == old(out)@ + s@,
{
    let v = chars_of(s);
    let mut i: usize = 0;
    proof {
        assert(out@ =~= old(out)@ + v@.take(0));
    }
    while i < v.len()
        invariant
            i <= v.len(),
            v@ == s@,
            out@ == old(out)@ + v@.take(i as int),
        decreases v.len() - i,
    {
        out.push(v[i]);
        proof {
            assert(out@ =~= old(out)@ + v@.take(i + 1));
        }
        i = i + 1;
    }
    proof {
        assert(v@.take(v.len() as int) =~= v@);
    }
}

/// Tells whether `c` is an ASCII decimal digit.
pub fn char_is_digit(c: char) -> (r: bool)
    ensures
        r == is_digit(c),
{
    '0' <= c && c <= '9'
}

/// Tells whether `c` is Unicode whitespace.
pub fn char_is_space(c: char) -> (r: bool)
    ensures
        r == is_space(c),
{
    let u: u32 = c as u32;
    (0x09 <= u && u <= 0x0D) || u == 0x20 || u == 0x85 || u == 0xA0 || u == 0x1680 || (0x2000 <= u
        && u <= 0x200A) || u == 0x2028 || u == 0x2029 || u == 0x202F || u == 0x205F || u == 0x3000
}

/// The index just past the run of digits that starts at `from`.
pub fn digit_run(v: &Vec<char>, from: usize) -> (end: usize)
    requires
        from <= v.len(),
    ensures
        end == from + digit_len(v@.skip(from as int)),
        from <= end <= v.len(),
{
    let mut i: usize = from;
    while i < v.len() && char_is_digit(v[i])
        invariant
            from <= i <= v.len(),
            digit_len(v@.skip(from as int)) == (i - from) + digit_len(v@.skip(i as int)),
        decreases v.len() - i,
    {
        proof {
            assert(v@.skip(i as int)[0] == v@[i as int]);
            assert(v@.skip(i as int).drop_first() =~= v@.skip(i + 1));
        }
        i = i + 1;
    }
    proof {
        if i < v.len() {
            assert(v@.skip(i as int)[0] == v@[i as int]);
        }
    }
    i
}

/// The index just past the run of whitespace that starts at `from`.
pub fn space_run(v: &Vec<char>, from: usize) -> (end: usize)
    requires
        from <= v.len(),
    ensures
        end == from + space_len(v@.skip(from as int)),
        from <= end <= v.len(),
{
    let mut i: usize = from;
    while i < v.len() && char_is_space(v[i])
        invariant
            from <= i <= v.len(),
            space_len(v@.skip(from as int)) == (i - from) + space_len(v@.skip(i as int)),
        decreases v.len() - i,
    {
        proof {
            assert(v@.skip(i as int)[0] == v@[i as int]);
            assert(v@.skip(i as int).drop_first() =~= v@.skip(i + 1));
        }
        i = i + 1;
    }
    proof {
        if i < v.len() {
            assert(v@.skip(i as int)[0] == v@[i as int]);
        }
    }
    i
}

/// The index of the first character at or after `from`, and before `end`,
/// that is not `'0'`; `end` if there is none.
fn skip_zeros(v: &Vec<char>, from: usize, end: usize) -> (at: usize)
    requires
        from <= end <= v.len(),
    ensures
        from <= at <= end,
        at < end ==> v@[at as int] != '0',
        decimal_value(v@.subrange(at as int, end as int)) == decimal_value(
            v@.subrange(from as int, end as int),
        ),
{
    let mut i: usize = from;
    while i < end && v[i] == '0'
        invariant
            from <= i <= end <= v.len(),
            decimal_value(v@.subrange(i as int, end as int)) == decimal_value(
                v@.subrange(from as int, end as int),
            ),
        decreases end - i,
    {
        proof {
            let s = v@.subrange(i as int, end as int);
            lemma_leading_zero(s);
            assert(s.drop_first() =~= v@.subrange(i + 1, end as int));
        }
        i = i + 1;
    }
    i
}

/// Compares the numbers written in two digit ranges of `v`, of any length.
pub fn number_exceeds(v: &Vec<char>, a0: usize, a1: usize, b0: usize, b1: usize) -> (r: bool)
    requires
        a0 <= a1 <= v.len(),
        b0 <= b1 <= v.len(),
        all_digits(v@.subrange(a0 as int, a1 as int)),
        all_digits(v@.subrange(b0 as int, b1 as int)),
    ensures
        r == (decimal_value(v@.subrange(a0 as int, a1 as int)) > decimal_value(
            v@.subrange(b0 as int, b1 as int),
        )),
{
    let a = skip_zeros(v, a0, a1);
    let b = skip_zeros(v, b0, b1);
    let ghost sa = v@.subrange(a as int, a1 as int);
    let ghost sb = v@.subrange(b as int, b1 as int);
    proof {
        assert(all_digits(sa)) by {
            assert forall|i: int| 0 <= i < sa.len() implies is_digit(#[trigger] sa[i]) by {
                assert(sa[i] == v@.subrange(a0 as int, a1 as int)[i + a - a0]);
            }
        }
        assert(all_digits(sb)) by {
            assert forall|i: int| 0 <= i < sb.len() implies is_digit(#[trigger] sb[i]) by {
                assert(sb[i] == v@.subrange(b0 as int, b1 as int)[i + b - b0]);
            }
        }
    }
    let la: usize = a1 - a;
    let lb: usize = b1 - b;
    if la > lb {
        proof {
            lemma_longer_is_greater(sb, sa);
        }
        return true;
    }
    if la < lb {
        proof {
            lemma_longer_is_greater(sa, sb);
        }
        return false;
    }
    let mut greater: bool = false;
    let mut less: bool = false;
    let mut i: usize = 0;
    while i < la
        invariant
            0 <= i <= la,
            la == lb,
            la == a1 - a,
            lb == b1 - b,
            a1 <= v.len(),
            b1 <= v.len(),
            sa == v@.subrange(a as int, a1 as int),
            sb == v@.subrange(b as int, b1 as int),
            all_digits(sa),
            all_digits(sb),
            !(greater && less),
            greater == (decimal_value(sa.take(i as int)) > decimal_value(sb.take(i as int))),
            less == (decimal_value(sa.take(i as int)) < decimal_value(sb.take(i as int))),
        decreases la - i,
    {
        let ca: char = v[a + i];
        let cb: char = v[b + i];
        proof {
            assert(sa.take(i + 1).drop_last() =~= sa.take(i as int));
            assert(sb.take(i + 1).drop_last() =~= sb.take(i as int));
            assert(sa.take(i + 1).last() == ca);
            assert(sb.take(i + 1).last() == cb);
            assert(is_digit(sa[i as int]));
            assert(is_digit(sb[i as int]));
        }
        if !greater && !less {
            if ca > cb {
                greater = true;
            } else if ca < cb {
                less = true;
            }
        }
        i = i + 1;
    }
    proof {
        assert(sa.take(la as int) =~= sa);
        assert(sb.take(lb as int) =~= sb);
    }
    greater
}

} // verus!
