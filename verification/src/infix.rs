//! One sequence standing inside another as an unbroken run, and the search
//! for a text inside a text.

use vstd::prelude::*;
use crate::utf8::{lemma_occurs_in_bytes, lemma_occurs_in_chars};

verus! {

/// `pat` stands in `text` at offset `at`.
pub open spec fn occurs_at<T>(text: Seq<T>, pat: Seq<T>, at: int) -> bool {
    &&& 0 <= at
    &&& at + pat.len() <= text.len()
    &&& text.subrange(at, at + pat.len()) == pat
}

/// `pat` stands somewhere in `text` as an unbroken run.
pub open spec fn occurs_in<T>(text: Seq<T>, pat: Seq<T>) -> bool {
    exists|at: int| occurs_at(text, pat, at)
}

/// What stands in a run of `text` stands in `text`.
pub proof fn lemma_occurs_in_run<T>(text: Seq<T>, run: Seq<T>, pat: Seq<T>)
    requires
        occurs_in(text, run),
        occurs_in(run, pat),
    ensures
        occurs_in(text, pat),
{
    let outer = choose|at: int| occurs_at(text, run, at);
    let inner = choose|at: int| occurs_at(run, pat, at);
    let at = outer + inner;
    assert(text.subrange(at, at + pat.len()) =~= run.subrange(inner, inner + pat.len()));
    assert(occurs_at(text, pat, at));
}

/// Whether `pat` stands in `text` at the byte offset `at`.
fn bytes_occur_at(text: &[u8], pat: &[u8], at: usize) -> (hit: bool)
    requires
        at + pat.len() <= text.len(),
    ensures
        hit == occurs_at(text@, pat@, at as int),
{
    let mut k: usize = 0;
    while k < pat.len()
        invariant
            k <= pat.len(),
            at + pat.len() <= text.len(),
            forall|j: int| 0 <= j < k ==> text@[at + j] == pat@[j],
        decreases pat.len() - k,
    {
        if text[at + k] != pat[k] {
            assert(text@.subrange(at as int, at + pat@.len())[k as int] == text@[at + k]);
            return false;
        }
        k += 1;
    }
    assert(text@.subrange(at as int, at + pat@.len()) =~= pat@);
    true
}

/// Whether the bytes `pat` stand anywhere in `text`, tried offset by offset.
fn bytes_occur_in(text: &[u8], pat: &[u8]) -> (hit: bool)
    ensures
        hit == occurs_in(text@, pat@),
{
    if pat.len() == 0 {
        assert(occurs_at(text@, pat@, 0)) by {
            assert(text@.subrange(0, 0) =~= pat@);
        }
        return true;
    }
    if pat.len() > text.len() {
        return false;
    }
    let last: usize = text.len() - pat.len();
    let mut at: usize = 0;
    while at <= last
        invariant
            0 < pat.len() <= text.len(),
            last == text.len() - pat.len(),
            at <= last + 1,
            forall|k: int| 0 <= k < at ==> !occurs_at(text@, pat@, k),
        decreases last + 1 - at,
    {
        if bytes_occur_at(text, pat, at) {
            return true;
        }
        at += 1;
    }
    false
}

/// Whether `pat` stands in `text`, character for character. The empty text
/// stands in every text.
pub fn contains(text: &str, pat: &str) -> (hit: bool)
    ensures
        hit == occurs_in(text@, pat@),
{
    let hit = bytes_occur_in(text.as_bytes(), pat.as_bytes());
    proof {
        if hit {
            lemma_occurs_in_chars(text@, pat@);
        } else if occurs_in(text@, pat@) {
            lemma_occurs_in_bytes(text@, pat@);
        }
    }
    hit
}

} // verus!
