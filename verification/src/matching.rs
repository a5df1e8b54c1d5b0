//! What it means for a pattern to occur in a text with a few errors.
//!
//! An occurrence lines the pattern's bytes up, in order, with bytes of the
//! text. It has one error for each pattern byte that differs (up to ASCII case)
//! from the text byte it is lined up with, and one for each text byte that is
//! skipped. No pattern byte is left out, so an occurrence spans at least as many
//! text bytes as the pattern has.

use vstd::prelude::*;
use crate::bloom::{folded_eq, same_folded};
use crate::types::{SearchMatch, MAX_ERRORS};

verus! {

/// The first `i` bytes of the pattern `p` occur in the text `t`, ending just
/// before offset `j`, with at most `d` errors.
pub open spec fn prefix_matches(p: Seq<u8>, t: Seq<u8>, i: nat, j: nat, d: nat) -> bool
    decreases j,
{
    if i == 0 {
        true
    } else if j == 0 {
        false
    } else {
        ||| (folded_eq(p[i - 1], t[j - 1]) && prefix_matches(
            p,
            t,
            (i - 1) as nat,
            (j - 1) as nat,
            d,
        ))
        ||| (d >= 1 && prefix_matches(p, t, (i - 1) as nat, (j - 1) as nat, (d - 1) as nat))
        ||| (d >= 1 && prefix_matches(p, t, i, (j - 1) as nat, (d - 1) as nat))
    }
}

/// The whole of the non-empty pattern `p` occurs in `t`, ending just before
/// offset `j`, with at most `d` errors.
pub open spec fn occurs_at(p: Seq<u8>, t: Seq<u8>, j: nat, d: nat) -> bool {
    &&& p.len() > 0
    &&& 1 <= j <= t.len()
    &&& prefix_matches(p, t, p.len(), j, d)
}

/// The first error count from `d` up, and below `k`, with which `p` occurs
/// at `j`; `k` where there is none (or `d`, where `d` is above `k` already).
pub open spec fn least_errors(p: Seq<u8>, t: Seq<u8>, j: nat, d: nat, k: nat) -> nat
    decreases k - d,
{
    if d >= k || occurs_at(p, t, j, d) {
        d
    } else {
        least_errors(p, t, j, d + 1, k)
    }
}

/// The first end offset from `j` on at which `p` occurs in `t` with at most
/// `k` errors, with the least error count at that offset.
pub open spec fn first_match_from(p: Seq<u8>, t: Seq<u8>, k: nat, j: nat) -> Option<SearchMatch>
    decreases t.len() + 1 - j,
{
    if j > t.len() {
        None
    } else if occurs_at(p, t, j, k) {
        Some(SearchMatch { errors: least_errors(p, t, j, 0, k) as u32, end_pos: j as usize })
    } else {
        first_match_from(p, t, k, j + 1)
    }
}

/// The error budget that a search is run with, given the one it was asked for.
pub open spec fn clamp_errors(max_errors: u32) -> nat {
    if max_errors > MAX_ERRORS {
        MAX_ERRORS as nat
    } else {
        max_errors as nat
    }
}

/// What a search for `p` in `t` reports: the occurrence with the smallest end
/// offset among those with at most `max_errors` errors (at most `MAX_ERRORS`),
/// and the least error count at that offset; `None` where there is no such
/// occurrence, as for an empty pattern or an empty text.
pub open spec fn first_match(p: Seq<u8>, t: Seq<u8>, max_errors: u32) -> Option<SearchMatch> {
    first_match_from(p, t, clamp_errors(max_errors), 1)
}

/// The `len` bytes of `t` that end just before offset `j` equal `p`, up to
/// ASCII case.
pub open spec fn equals_at(p: Seq<u8>, t: Seq<u8>, j: nat) -> bool {
    &&& p.len() <= j <= t.len()
    &&& forall|x: int| 0 <= x < p.len() ==> folded_eq(#[trigger] p[x], t[j - p.len() + x])
}

/// A larger budget allows what a smaller one allows.
pub proof fn lemma_budget_monotone(p: Seq<u8>, t: Seq<u8>, i: nat, j: nat, d: nat, e: nat)
    requires
        prefix_matches(p, t, i, j, d),
        d <= e,
    ensures
        prefix_matches(p, t, i, j, e),
    decreases j,
{
    if i != 0 && j != 0 {
        let i1 = (i - 1) as nat;
        let j1 = (j - 1) as nat;
        if folded_eq(p[i - 1], t[j - 1]) && prefix_matches(p, t, i1, j1, d) {
            lemma_budget_monotone(p, t, i1, j1, d, e);
        } else if d >= 1 && prefix_matches(p, t, i1, j1, (d - 1) as nat) {
            lemma_budget_monotone(p, t, i1, j1, (d - 1) as nat, (e - 1) as nat);
        } else {
            lemma_budget_monotone(p, t, i, j1, (d - 1) as nat, (e - 1) as nat);
        }
    }
}

/// An occurrence of `i` pattern bytes spans at least `i` text bytes.
pub proof fn lemma_occurrence_needs_room(p: Seq<u8>, t: Seq<u8>, i: nat, j: nat, d: nat)
    requires
        prefix_matches(p, t, i, j, d),
    ensures
        i <= j,
    decreases j,
{
    if i != 0 && j != 0 {
        let i1 = (i - 1) as nat;
        let j1 = (j - 1) as nat;
        if folded_eq(p[i - 1], t[j - 1]) && prefix_matches(p, t, i1, j1, d) {
            lemma_occurrence_needs_room(p, t, i1, j1, d);
        } else if d >= 1 && prefix_matches(p, t, i1, j1, (d - 1) as nat) {
            lemma_occurrence_needs_room(p, t, i1, j1, (d - 1) as nat);
        } else {
            lemma_occurrence_needs_room(p, t, i, j1, (d - 1) as nat);
        }
    }
}

/// With no error allowed, the first `i` pattern bytes occur before `j` exactly
/// when they equal, byte for byte and up to ASCII case, the `i` text bytes
/// before `j`.
pub proof fn lemma_exact_prefix(p: Seq<u8>, t: Seq<u8>, i: nat, j: nat)
    ensures
        prefix_matches(p, t, i, j, 0) <==> (i <= j && forall|x: int|
            0 <= x < i ==> folded_eq(#[trigger] p[x], t[j - i + x])),
    decreases j,
{
    if i != 0 && j != 0 {
        let i1 = (i - 1) as nat;
        let j1 = (j - 1) as nat;
        lemma_exact_prefix(p, t, i1, j1);
        if prefix_matches(p, t, i, j, 0) {
            assert forall|x: int| 0 <= x < i implies folded_eq(#[trigger] p[x], t[j - i + x]) by {
                if x < i1 {
                    assert(folded_eq(p[x], t[j1 - i1 + x]));
                }
            }
        }
        if i <= j && (forall|x: int| 0 <= x < i ==> folded_eq(#[trigger] p[x], t[j - i + x])) {
            assert(folded_eq(p[i - 1], t[j - i + (i - 1)]));
            assert forall|x: int| 0 <= x < i1 implies folded_eq(#[trigger] p[x], t[j1 - i1 + x]) by {
                assert(folded_eq(p[x], t[j - i + x]));
            }
        }
    }
}

/// With no error allowed, the pattern occurs at `j` exactly when the text
/// bytes before `j` spell it.
pub proof fn lemma_exact_occurrence(p: Seq<u8>, t: Seq<u8>, j: nat)
    requires
        p.len() > 0,
    ensures
        occurs_at(p, t, j, 0) <==> equals_at(p, t, j),
{
    lemma_exact_prefix(p, t, p.len(), j);
}

/// Whether a prefix occurs does not depend on the case of any ASCII letter,
/// in the pattern or in the text.
pub proof fn lemma_prefix_ignores_case(
    pa: Seq<u8>,
    ta: Seq<u8>,
    pb: Seq<u8>,
    tb: Seq<u8>,
    i: nat,
    j: nat,
    d: nat,
)
    requires
        same_folded(pa, pb),
        same_folded(ta, tb),
        i <= pa.len(),
        j <= ta.len(),
    ensures
        prefix_matches(pa, ta, i, j, d) == prefix_matches(pb, tb, i, j, d),
    decreases j,
{
    if i != 0 && j != 0 {
        let i1 = (i - 1) as nat;
        let j1 = (j - 1) as nat;
        assert(folded_eq(pa[i - 1], pb[i - 1]));
        assert(folded_eq(ta[j - 1], tb[j - 1]));
        lemma_prefix_ignores_case(pa, ta, pb, tb, i1, j1, d);
        if d >= 1 {
            lemma_prefix_ignores_case(pa, ta, pb, tb, i1, j1, (d - 1) as nat);
            lemma_prefix_ignores_case(pa, ta, pb, tb, i, j1, (d - 1) as nat);
        }
    }
}

/// Whether, and with how many errors, a pattern occurs at an offset does not
/// depend on the case of any ASCII letter.
pub proof fn lemma_least_errors_ignores_case(
    pa: Seq<u8>,
    ta: Seq<u8>,
    pb: Seq<u8>,
    tb: Seq<u8>,
    j: nat,
    d: nat,
    k: nat,
)
    requires
        same_folded(pa, pb),
        same_folded(ta, tb),
    ensures
        least_errors(pa, ta, j, d, k) == least_errors(pb, tb, j, d, k),
    decreases k - d,
{
    if j <= ta.len() {
        lemma_prefix_ignores_case(pa, ta, pb, tb, pa.len(), j, d);
    }
    if d < k {
        lemma_least_errors_ignores_case(pa, ta, pb, tb, j, d + 1, k);
    }
}

/// What a search reports does not depend on the case of any ASCII letter, in
/// the pattern or in the text.
pub proof fn lemma_first_match_from_ignores_case(
    pa: Seq<u8>,
    ta: Seq<u8>,
    pb: Seq<u8>,
    tb: Seq<u8>,
    k: nat,
    j: nat,
)
    requires
        same_folded(pa, pb),
        same_folded(ta, tb),
    ensures
        first_match_from(pa, ta, k, j) == first_match_from(pb, tb, k, j),
    decreases ta.len() + 1 - j,
{
    if j <= ta.len() {
        lemma_prefix_ignores_case(pa, ta, pb, tb, pa.len(), j, k);
        lemma_least_errors_ignores_case(pa, ta, pb, tb, j, 0, k);
        lemma_first_match_from_ignores_case(pa, ta, pb, tb, k, j + 1);
    }
}

/// `least_errors` is the least error count with which the pattern occurs.
pub proof fn lemma_least_errors(p: Seq<u8>, t: Seq<u8>, j: nat, d: nat, k: nat)
    requires
        d <= k,
        occurs_at(p, t, j, k),
        forall|e: nat| e < d ==> !occurs_at(p, t, j, e),
    ensures
        d <= least_errors(p, t, j, d, k) <= k,
        occurs_at(p, t, j, least_errors(p, t, j, d, k)),
        forall|e: nat| e < least_errors(p, t, j, d, k) ==> !occurs_at(p, t, j, e),
    decreases k - d,
{
    if d < k && !occurs_at(p, t, j, d) {
        assert forall|e: nat| e < d + 1 implies !occurs_at(p, t, j, e) by {
            if e == d {
            }
        }
        lemma_least_errors(p, t, j, d + 1, k);
    }
}

/// A reported match is an occurrence within the budget; no occurrence within
/// the budget ends earlier (from `j` on), and none at the same offset has
/// fewer errors.
pub proof fn lemma_first_match_from_some(
    p: Seq<u8>,
    t: Seq<u8>,
    k: nat,
    j: nat,
    m: SearchMatch,
)
    requires
        first_match_from(p, t, k, j) == Some(m),
        t.len() <= usize::MAX,
        k <= u32::MAX,
        j >= 1,
    ensures
        j <= m.end_pos <= t.len(),
        m.errors <= k,
        occurs_at(p, t, m.end_pos as nat, m.errors as nat),
        forall|e: nat| e < m.errors ==> !occurs_at(p, t, m.end_pos as nat, e),
        forall|x: nat| j <= x < m.end_pos ==> !occurs_at(p, t, x, k),
    decreases t.len() + 1 - j,
{
    if j <= t.len() {
        if occurs_at(p, t, j, k) {
            lemma_least_errors(p, t, j, 0, k);
        } else {
            lemma_first_match_from_some(p, t, k, j + 1, m);
            assert forall|x: nat| j <= x < m.end_pos implies !occurs_at(p, t, x, k) by {
                if x == j {
                }
            }
        }
    }
}

/// Where nothing is reported, the pattern occurs nowhere (from `j` on) within
/// the budget.
pub proof fn lemma_first_match_from_none(p: Seq<u8>, t: Seq<u8>, k: nat, j: nat)
    requires
        first_match_from(p, t, k, j) is None,
        j >= 1,
    ensures
        forall|x: nat| j <= x ==> !occurs_at(p, t, x, k),
    decreases t.len() + 1 - j,
{
    if j <= t.len() {
        lemma_first_match_from_none(p, t, k, j + 1);
        assert forall|x: nat| j <= x implies !occurs_at(p, t, x, k) by {
            if x == j {
            }
        }
    }
}

/// A search from `j` reports what a search from `target` reports, where the
/// pattern does not occur in between.
pub proof fn lemma_first_match_from_jump(p: Seq<u8>, t: Seq<u8>, k: nat, j: nat, target: nat)
    requires
        j <= target <= t.len() + 1,
        forall|x: nat| j <= x < target ==> !occurs_at(p, t, x, k),
    ensures
        first_match_from(p, t, k, j) == first_match_from(p, t, k, target),
    decreases target - j,
{
    if j < target {
        lemma_first_match_from_jump(p, t, k, j + 1, target);
    }
}

/// A pattern is found in a text that equals it up to ASCII case, whatever the
/// error budget: without errors, and ending where the text ends.
pub proof fn lemma_match_of_equal_text(p: Seq<u8>, t: Seq<u8>, max_errors: u32)
    requires
        p.len() >= 1,
        same_folded(p, t),
    ensures
        first_match(p, t, max_errors) == Some(
            SearchMatch { errors: 0, end_pos: p.len() as usize },
        ),
{
    let k = clamp_errors(max_errors);
    let m = p.len();
    assert forall|x: nat| 1 <= x < m implies !occurs_at(p, t, x, k) by {
        if prefix_matches(p, t, m, x, k) {
            lemma_occurrence_needs_room(p, t, m, x, k);
        }
    }
    lemma_first_match_from_jump(p, t, k, 1, m);
    lemma_exact_occurrence(p, t, m);
    assert(equals_at(p, t, m)) by {
        assert forall|x: int| 0 <= x < p.len() implies folded_eq(#[trigger] p[x], t[m - p.len() + x]) by {
            assert(folded_eq(p[x], t[x]));
        }
    }
    lemma_budget_monotone(p, t, m, m, 0, k);
}

/// An empty pattern occurs nowhere.
pub proof fn lemma_no_match_for_empty(p: Seq<u8>, t: Seq<u8>, k: nat, j: nat)
    requires
        p.len() == 0,
    ensures
        first_match_from(p, t, k, j) is None,
    decreases t.len() + 1 - j,
{
    if j <= t.len() {
        lemma_no_match_for_empty(p, t, k, j + 1);
    }
}

} // verus!
