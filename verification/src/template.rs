//! Filling the placeholders of the page and of the worker script.

use vstd::prelude::*;
use crate::text::{chars_of, string_of_range};

verus! {

/// `needle` stands in `hay` at index `i`.
pub open spec fn occurs_at(hay: Seq<char>, needle: Seq<char>, i: int) -> bool {
    0 <= i && i + needle.len() <= hay.len() && hay.subrange(i, i + needle.len()) == needle
}

/// The first index at or after `from` at which `needle` stands in `hay`.
pub open spec fn first_occurrence(hay: Seq<char>, needle: Seq<char>, from: int) -> Option<int>
    decreases hay.len() + 1 - from,
{
    if from < 0 || from + needle.len() > hay.len() {
        None
    } else if occurs_at(hay, needle, from) {
        Some(from)
    } else {
        first_occurrence(hay, needle, from + 1)
    }
}

/// `hay` with the first occurrence of `needle` replaced by `with`; `hay`
/// itself where `needle` does not occur.
pub open spec fn replace_first(hay: Seq<char>, needle: Seq<char>, with: Seq<char>) -> Seq<char> {
    match first_occurrence(hay, needle, 0) {
        Some(i) => hay.take(i) + with + hay.skip(i + needle.len()),
        None => hay,
    }
}

/// The page: the template with `{JS_FACTORS_URL}` replaced by the worker's
/// address, `?id=` and the pending identifier.
pub open spec fn html_page(template: Seq<char>, js_factors_url: Seq<char>, id: Seq<char>) -> Seq<
    char,
> {
    replace_first(template, "{JS_FACTORS_URL}"@, js_factors_url + "?id="@ + id)
}

/// The worker script: the template with `{API_URL}`, then `{LARGE_NUMBER}`,
/// then `{UUID}` replaced, in this order.
pub open spec fn worker_script(
    template: Seq<char>,
    api_url: Seq<char>,
    value: Seq<char>,
    uuid: Seq<char>,
) -> Seq<char> {
    replace_first(
        replace_first(replace_first(template, "{API_URL}"@, api_url), "{LARGE_NUMBER}"@, value),
        "{UUID}"@,
        uuid,
    )
}

/// What the first occurrence is: `needle` stands there, and nowhere
/// before it from `from` on.
pub proof fn lemma_first_occurrence(hay: Seq<char>, needle: Seq<char>, from: int)
    requires
        0 <= from,
    ensures
        match first_occurrence(hay, needle, from) {
            Some(i) => from <= i && occurs_at(hay, needle, i) && forall|j: int|
                from <= j < i ==> !occurs_at(hay, needle, j),
            None => forall|j: int| from <= j ==> !occurs_at(hay, needle, j),
        },
    decreases hay.len() + 1 - from,
{
    if from + needle.len() > hay.len() {
    } else if occurs_at(hay, needle, from) {
    } else {
        lemma_first_occurrence(hay, needle, from + 1);
    }
}

/// Tells whether `needle` stands in `hay` at index `at`.
fn matches_at(hay: &Vec<char>, needle: &Vec<char>, at: usize) -> (r: bool)
    requires
        at + needle.len() <= hay.len(),
    ensures
        r == occurs_at(hay@, needle@, at as int),
{
    let mut k: usize = 0;
    while k < needle.len()
        invariant
            k <= needle.len(),
            at + needle.len() <= hay.len(),
            forall|j: int| 0 <= j < k ==> hay@[at + j] == needle@[j],
        decreases needle.len() - k,
    {
        if hay[at + k] != needle[k] {
            proof {
                assert(hay@.subrange(at as int, at + needle.len())[k as int] != needle@[k as int]);
            }
            return false;
        }
        k = k + 1;
    }
    proof {
        assert(hay@.subrange(at as int, at + needle.len()) =~= needle@);
    }
    true
}

/// Finds the first occurrence of `needle` in `hay`.
pub fn find_first(hay: &Vec<char>, needle: &Vec<char>) -> (r: Option<usize>)
    ensures
        match r {
            Some(i) => first_occurrence(hay@, needle@, 0) == Some(i as int) && i + needle@.len()
                <= hay@.len(),
            None => first_occurrence(hay@, needle@, 0) is None,
        },
{
    if needle.len() > hay.len() {
        return None;
    }
    let last: usize = hay.len() - needle.len();
    let mut i: usize = 0;
    loop
        invariant
            i <= last,
            last == hay.len() - needle.len(),
            needle.len() <= hay.len(),
            first_occurrence(hay@, needle@, 0) == first_occurrence(hay@, needle@, i as int),
        decreases last - i,
    {
        if matches_at(hay, needle, i) {
            return Some(i);
        }
        if i == last {
            proof {
                assert(first_occurrence(hay@, needle@, i + 1) is None);
            }
            return None;
        }
        i = i + 1;
    }
}

/// Replaces the first occurrence of `needle` in `hay` by `with`.
pub fn replace_once(hay: &str, needle: &str, with: &str) -> (out: String)
    ensures
        out@ == replace_first(hay@, needle@, with@),
{
    let h = chars_of(hay);
    let n = chars_of(needle);
    match find_first(&h, &n) {
        Some(i) => {
            let mut out = string_of_range(&h, 0, i);
            let w = chars_of(with);
            let mut k: usize = 0;
            let ghost head = out@;
            proof {
                assert(head =~= h@.take(i as int));
                assert(out@ =~= head + w@.take(0));
            }
            while k < w.len()
                invariant
                    k <= w.len(),
                    out@ == head + w@.take(k as int),
                decreases w.len() - k,
            {
                out.push(w[k]);
                proof {
                    assert(out@ =~= head + w@.take(k + 1));
                }
                k = k + 1;
            }
            let mut j: usize = i + n.len();
            let ghost mid = out@;
            proof {
                lemma_first_occurrence(h@, n@, 0);
                assert(w@.take(w.len() as int) =~= w@);
                assert(out@ =~= mid + h@.subrange(i + n.len(), j as int));
            }
            while j < h.len()
                invariant
                    i + n.len() <= j <= h.len(),
                    out@ == mid + h@.subrange(i + n.len(), j as int),
                decreases h.len() - j,
            {
                out.push(h[j]);
                proof {
                    assert(out@ =~= mid + h@.subrange(i + n.len(), j + 1));
                }
                j = j + 1;
            }
            proof {
                assert(h@.subrange(i + n.len(), h.len() as int) =~= h@.skip(i + n.len()));
            }
            out
        },
        None => hay.to_owned(),
    }
}

/// Writes the page for the pending identifier `id`.
pub fn render_html(template: &str, js_factors_url: &str, id: &str) -> (out: String)
    ensures
        out@ == html_page(template@, js_factors_url@, id@),
{
    let mut address = js_factors_url.to_owned();
    crate::text::push_str(&mut address, "?id=");
    crate::text::push_str(&mut address, id);
    replace_once(template, "{JS_FACTORS_URL}", address.as_str())
}

/// Writes the worker script for a challenge.
pub fn render_worker(template: &str, api_url: &str, value: &str, uuid: &str) -> (out: String)
    ensures
        out@ == worker_script(template@, api_url@, value@, uuid@),
{
    let first = replace_once(template, "{API_URL}", api_url);
    let second = replace_once(first.as_str(), "{LARGE_NUMBER}", value);
    replace_once(second.as_str(), "{UUID}", uuid)
}

} // verus!
