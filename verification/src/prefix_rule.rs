//! The derived-prefix rule: split a key at runs of separator characters
//! and keep the part ending just before the chosen run.
//!
//! A *separator run* is a maximal group of consecutive separator
//! characters. The derived prefix of a key at depth `d` is the part of
//! the key before the `(d+1)`-th separator run, or the whole key when
//! fewer runs exist. Each recursion level of the analysis therefore
//! inspects one more separator-delimited segment than its parent.

use vstd::prelude::*;

verus! {

/// Whether `c` is one of the separator characters.
pub open spec fn is_sep(c: char, seps: Seq<char>) -> bool {
    seps.contains(c)
}

/// Index where the scan that starts at `i` stops: the start of the
/// `(remaining+1)`-th separator run at or after `i`, or the key's length
/// when fewer runs remain. `prev_sep` says whether the character before
/// index `i` is a separator, so that a run in progress is not counted
/// again.
pub open spec fn cut_from(
    key: Seq<char>,
    seps: Seq<char>,
    i: int,
    prev_sep: bool,
    remaining: int,
) -> int
    decreases key.len() - i,
{
    if i < 0 || i >= key.len() {
        key.len() as int
    } else if is_sep(key[i], seps) && !prev_sep {
        if remaining <= 0 {
            i
        } else {
            cut_from(key, seps, i + 1, true, remaining - 1)
        }
    } else {
        cut_from(key, seps, i + 1, is_sep(key[i], seps), remaining)
    }
}

/// Length of the derived prefix of `key` at `depth`.
pub open spec fn derived_len(key: Seq<char>, seps: Seq<char>, depth: int) -> int {
    cut_from(key, seps, 0, false, depth)
}

/// The derived prefix of `key` at `depth`: the part of the key ending
/// just before the `(depth+1)`-th separator run, or the whole key when
/// fewer runs exist.
pub open spec fn derived(key: Seq<char>, seps: Seq<char>, depth: int) -> Seq<char> {
    key.subrange(0, derived_len(key, seps, depth))
}

/// The scan never stops before its start nor after the key's end.
pub proof fn lemma_cut_from_bounds(
    key: Seq<char>,
    seps: Seq<char>,
    i: int,
    prev_sep: bool,
    remaining: int,
)
    requires
        0 <= i <= key.len(),
    ensures
        i <= cut_from(key, seps, i, prev_sep, remaining) <= key.len(),
    decreases key.len() - i,
{
    if i < key.len() {
        if is_sep(key[i], seps) && !prev_sep {
            if remaining > 0 {
                lemma_cut_from_bounds(key, seps, i + 1, true, remaining - 1);
            }
        } else {
            lemma_cut_from_bounds(key, seps, i + 1, is_sep(key[i], seps), remaining);
        }
    }
}

/// The derived prefix is a prefix of the key.
pub proof fn lemma_derived_len_bounds(key: Seq<char>, seps: Seq<char>, depth: int)
    ensures
        0 <= derived_len(key, seps, depth) <= key.len(),
{
    lemma_cut_from_bounds(key, seps, 0, false, depth);
}

/// Allowing more separator runs never moves the cut earlier.
pub proof fn lemma_cut_from_monotone(
    key: Seq<char>,
    seps: Seq<char>,
    i: int,
    prev_sep: bool,
    r1: int,
    r2: int,
)
    requires
        0 <= i <= key.len(),
        r1 <= r2,
    ensures
        cut_from(key, seps, i, prev_sep, r1) <= cut_from(key, seps, i, prev_sep, r2),
    decreases key.len() - i,
{
    if i < key.len() {
        if is_sep(key[i], seps) && !prev_sep {
            if r1 <= 0 {
                lemma_cut_from_bounds(key, seps, i, prev_sep, r2);
            } else {
                lemma_cut_from_monotone(key, seps, i + 1, true, r1 - 1, r2 - 1);
            }
        } else {
            lemma_cut_from_monotone(key, seps, i + 1, is_sep(key[i], seps), r1, r2);
        }
    }
}

/// Scanning a cut-off key stops where the whole key's scan stopped, or
/// at the cut, whichever comes first.
pub proof fn lemma_cut_from_truncated(
    key: Seq<char>,
    seps: Seq<char>,
    p: int,
    i: int,
    prev_sep: bool,
    remaining: int,
)
    requires
        0 <= i <= p <= key.len(),
    ensures
        cut_from(key.subrange(0, p), seps, i, prev_sep, remaining) == (if cut_from(
            key,
            seps,
            i,
            prev_sep,
            remaining,
        ) < p {
            cut_from(key, seps, i, prev_sep, remaining)
        } else {
            p
        }),
    decreases p - i,
{
    let trunc = key.subrange(0, p);
    if i == p {
        lemma_cut_from_bounds(key, seps, i, prev_sep, remaining);
    } else {
        assert(trunc[i] == key[i]);
        if is_sep(key[i], seps) && !prev_sep {
            if remaining <= 0 {
            } else {
                lemma_cut_from_truncated(key, seps, p, i + 1, true, remaining - 1);
            }
        } else {
            lemma_cut_from_truncated(key, seps, p, i + 1, is_sep(key[i], seps), remaining);
        }
    }
}

/// Cutting at a shallower depth after cutting at a deeper one is the
/// same as cutting at the shallower depth directly: the derived
/// prefixes of one key nest.
pub proof fn lemma_derived_compose(key: Seq<char>, seps: Seq<char>, e: int, d: int)
    requires
        0 <= e <= d,
    ensures
        derived(derived(key, seps, d), seps, e) == derived(key, seps, e),
{
    let p = derived_len(key, seps, d);
    let q = derived_len(key, seps, e);
    lemma_derived_len_bounds(key, seps, d);
    lemma_derived_len_bounds(key, seps, e);
    lemma_cut_from_monotone(key, seps, 0, false, e, d);
    let trunc = key.subrange(0, p);
    lemma_cut_from_truncated(key, seps, p, 0, false, e);
    assert(derived_len(trunc, seps, e) == q);
    assert(trunc.subrange(0, q) =~= key.subrange(0, q));
}

/// Whether `c` is one of the characters of `separators`.
fn is_separator(c: char, separators: &str) -> (r: bool)
    ensures
        r == is_sep(c, separators@),
{
    let n = separators.unicode_len();
    let mut j: usize = 0;
    while j < n
        invariant
            j <= n,
            n == separators@.len(),
            forall|t: int| 0 <= t < j ==> separators@[t] != c,
        decreases n - j,
    {
        if separators.get_char(j) == c {
            assert(separators@[j as int] == c);
            return true;
        }
        j = j + 1;
    }
    false
}

/// Index of the start of the `(depth+1)`-th separator run of `key`, or
/// the key's length when fewer runs exist.
fn find_cut(key: &str, separators: &str, depth: usize) -> (pos: usize)
    ensures
        pos as int == derived_len(key@, separators@, depth as int),
        pos <= key@.len(),
{
    let n = key.unicode_len();
    let mut i: usize = 0;
    let mut prev_sep = false;
    let mut remaining = depth;
    while i < n
        invariant
            i <= n,
            n == key@.len(),
            remaining <= depth,
            cut_from(key@, separators@, 0, false, depth as int) == cut_from(
                key@,
                separators@,
                i as int,
                prev_sep,
                remaining as int,
            ),
        decreases n - i,
    {
        let c = key.get_char(i);
        let c_is_sep = is_separator(c, separators);
        if c_is_sep && !prev_sep {
            if remaining == 0 {
                return i;
            }
            remaining = remaining - 1;
            prev_sep = true;
        } else {
            prev_sep = c_is_sep;
        }
        i = i + 1;
    }
    n
}

/// The derived prefix of `key` at `depth`: the part of the key before the
/// `(depth+1)`-th run of separator characters, or the whole key when fewer
/// runs exist.
pub fn derive_prefix(key: &str, separators: &str, depth: usize) -> (r: String)
    ensures
        r@ == derived(key@, separators@, depth as int),
{
    let pos = find_cut(key, separators, depth);
    let part = key.substring_char(0, pos);
    part.to_owned()
}

} // verus!
