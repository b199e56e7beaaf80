//! Reciprocal-rank fusion of a keyword ranking and a semantic ranking.
//!
//! Each entry of an input list contributes `1 / (RRF_K + rank)` to its
//! document, where `rank` is its 1-based position in that list; a document
//! sums the contributions of all its entries in both lists. Raw scores of the
//! two lists are never combined. Scores are fixed-point numbers in units of
//! `1 / SCORE_ONE`: each contribution is `SCORE_ONE / (RRF_K + rank)`, rounded
//! down, so equal sets of ranks give equal scores. Ties go to the smaller id.
use vstd::prelude::*;

verus! {

broadcast use vstd::seq_lib::group_to_multiset_ensures;

/// The fusion constant `k` of reciprocal-rank fusion.
pub const RRF_K: usize = 60;

/// The fixed-point unit of fused scores: `2^96` stands for `1`.
pub const SCORE_ONE: u128 = 0x1_0000_0000_0000_0000_0000_0000;

/// The largest input list length for which fused scores fit in `u128`.
pub const MAX_FUSED_LIST_LEN: usize = 0xFFFF_FFFF;

/// A fused candidate: a document id and its fused score in units of
/// `1 / SCORE_ONE`.
#[derive(Clone, Copy, Debug, PartialEq, Eq)]
pub struct FusedHit {
    pub id: usize,
    pub score: u128,
}

/// The contribution of an entry at 1-based rank `rank`.
pub open spec fn contribution(rank: int) -> int {
    SCORE_ONE as int / (RRF_K + rank)
}

/// The sum of the contributions of the entries of `s` that are `id`.
pub open spec fn list_score(s: Seq<usize>, id: usize) -> int
    decreases s.len(),
{
    if s.len() == 0 {
        0
    } else {
        list_score(s.drop_last(), id) + if s.last() == id {
            contribution(s.len() as int)
        } else {
            0
        }
    }
}

/// The fused score of `id`: its contributions from both lists.
pub open spec fn fused_score(keyword: Seq<usize>, semantic: Seq<usize>, id: usize) -> int {
    list_score(keyword, id) + list_score(semantic, id)
}

/// `a` comes strictly before `b` in the fused ranking.
pub open spec fn fused_before(a: FusedHit, b: FusedHit) -> bool {
    a.score > b.score || (a.score == b.score && a.id < b.id)
}

/// No entry of `s` comes strictly before an entry that precedes it.
pub open spec fn is_fused_ranked(s: Seq<FusedHit>) -> bool {
    forall|i: int, j: int|
        0 <= i < j < s.len() ==> !fused_before(#[trigger] s[j], #[trigger] s[i])
}

/// No two entries of `s` share a document id.
pub open spec fn ids_distinct(s: Seq<FusedHit>) -> bool {
    forall|i: int, j: int| 0 <= i < j < s.len() ==> #[trigger] s[i].id != #[trigger] s[j].id
}

/// Some entry of `s` has document id `id`.
pub open spec fn holds_id(s: Seq<FusedHit>, id: usize) -> bool {
    exists|k: int| 0 <= k < s.len() && #[trigger] s[k].id == id
}

/// `h` is a document of either list with its fused score.
pub open spec fn is_fused_hit(h: FusedHit, keyword: Seq<usize>, semantic: Seq<usize>) -> bool {
    &&& keyword.contains(h.id) || semantic.contains(h.id)
    &&& h.score == fused_score(keyword, semantic, h.id)
}

/// The largest single contribution, at rank 1.
pub open spec fn top_contribution() -> int {
    SCORE_ONE as int / 61
}

/// Contributions are positive and at most the one of rank 1.
pub proof fn lemma_contribution_bounds(rank: int)
    requires
        1 <= rank <= MAX_FUSED_LIST_LEN,
    ensures
        0 < contribution(rank) <= top_contribution(),
{
    vstd::arithmetic::div_mod::lemma_div_is_ordered_by_denominator(
        SCORE_ONE as int,
        61,
        RRF_K + rank,
    );
    vstd::arithmetic::div_mod::lemma_div_is_ordered_by_denominator(
        SCORE_ONE as int,
        RRF_K + rank,
        SCORE_ONE as int,
    );
}

/// A list's score for an id is at most one top contribution per entry, and
/// positive exactly when the list holds the id.
pub proof fn lemma_list_score_bounds(s: Seq<usize>, id: usize)
    requires
        s.len() <= MAX_FUSED_LIST_LEN,
    ensures
        0 <= list_score(s, id) <= s.len() * top_contribution(),
        list_score(s, id) > 0 <==> s.contains(id),
    decreases s.len(),
{
    if s.len() > 0 {
        let t = s.drop_last();
        lemma_list_score_bounds(t, id);
        lemma_contribution_bounds(s.len() as int);
        assert(s.len() * top_contribution() == t.len() * top_contribution() + top_contribution())
            by (nonlinear_arith)
            requires
                s.len() == t.len() + 1,
        ;
        if t.contains(id) {
            let i = choose|i: int| 0 <= i < t.len() && t[i] == id;
            assert(s[i] == id);
        }
        if s.contains(id) && s.last() != id {
            let i = choose|i: int| 0 <= i < s.len() && s[i] == id;
            assert(t[i] == id);
        }
    }
}

/// An id that both lists hold scores strictly more than either list alone
/// gives it.
pub proof fn lemma_both_lists_outrank_one(keyword: Seq<usize>, semantic: Seq<usize>, id: usize)
    requires
        keyword.len() <= MAX_FUSED_LIST_LEN,
        semantic.len() <= MAX_FUSED_LIST_LEN,
        keyword.contains(id),
        semantic.contains(id),
    ensures
        fused_score(keyword, semantic, id) > list_score(keyword, id),
        fused_score(keyword, semantic, id) > list_score(semantic, id),
{
    lemma_list_score_bounds(keyword, id);
    lemma_list_score_bounds(semantic, id);
}

/// Every fused score of a document of the lists is positive.
pub proof fn lemma_fused_score_positive(keyword: Seq<usize>, semantic: Seq<usize>, id: usize)
    requires
        keyword.len() <= MAX_FUSED_LIST_LEN,
        semantic.len() <= MAX_FUSED_LIST_LEN,
        keyword.contains(id) || semantic.contains(id),
    ensures
        fused_score(keyword, semantic, id) > 0,
{
    lemma_list_score_bounds(keyword, id);
    lemma_list_score_bounds(semantic, id);
}

/// In a fused ranking, fused scores never increase.
pub proof fn lemma_fused_scores_descend(s: Seq<FusedHit>)
    requires
        is_fused_ranked(s),
    ensures
        forall|i: int, j: int| 0 <= i < j < s.len() ==> (#[trigger] s[i]).score >= (#[trigger] s[j]).score,
{
    assert forall|i: int, j: int| 0 <= i < j < s.len() implies (#[trigger] s[i]).score >= (
    #[trigger] s[j]).score by {
        assert(!fused_before(s[j], s[i]));
    }
}

/// The contribution of 1-based rank `rank`.
pub fn rank_contribution(rank: usize) -> (c: u128)
    requires
        1 <= rank <= MAX_FUSED_LIST_LEN,
    ensures
        c == contribution(rank as int),
{
    SCORE_ONE / (RRF_K as u128 + rank as u128)
}

/// Inserts `x` into a fused ranking at its place.
fn insert_fused(out: &mut Vec<FusedHit>, x: FusedHit)
    requires
        is_fused_ranked(old(out)@),
        ids_distinct(old(out)@),
        !holds_id(old(out)@, x.id),
    ensures
        is_fused_ranked(final(out)@),
        ids_distinct(final(out)@),
        final(out)@.to_multiset() == old(out)@.to_multiset().insert(x),
        final(out)@.len() == old(out)@.len() + 1,
{
    let mut p: usize = 0;
    while p < out.len()
        invariant
            p <= out@.len(),
            forall|k: int| 0 <= k < p ==> !fused_before(x, #[trigger] out@[k]),
        ensures
            p <= out@.len(),
            forall|k: int| 0 <= k < p ==> !fused_before(x, #[trigger] out@[k]),
            p < out@.len() ==> fused_before(x, out@[p as int]),
        decreases out@.len() - p,
    {
        if x.score > out[p].score || (x.score == out[p].score && x.id < out[p].id) {
            break;
        }
        p = p + 1;
    }
    let ghost before = out@;
    proof {
        vstd::seq_lib::to_multiset_insert(before, p as int, x);
    }
    out.insert(p, x);
    assert(out@ == before.insert(p as int, x));
    assert forall|i: int, j: int| 0 <= i < j < out@.len() implies !fused_before(
        #[trigger] out@[j],
        #[trigger] out@[i],
    ) by {
        if i == p && j > p {
            assert(fused_before(x, before[p as int]));
            assert(!fused_before(before[j - 1], before[p as int]) || j - 1 == p);
        }
    }
    assert forall|i: int, j: int| 0 <= i < j < out@.len() implies #[trigger] out@[i].id
        != #[trigger] out@[j].id by {
        if i == p {
            assert(before[j - 1] == out@[j]);
        } else if j == p {
            assert(before[i] == out@[i]);
        } else if i < p && j > p {
            assert(before[j - 1] == out@[j]);
            assert(before[i] == out@[i]);
        } else if i > p {
            assert(before[j - 1] == out@[j]);
            assert(before[i - 1] == out@[i]);
        }
    }
}

/// Adds the contributions of the entries of `list` to the candidates, which
/// so far hold the ids of `other` with their scores in `other`.
fn add_list(c: &mut Vec<FusedHit>, list: &Vec<usize>, Ghost(other): Ghost<Seq<usize>>)
    requires
        list@.len() <= MAX_FUSED_LIST_LEN,
        other.len() <= MAX_FUSED_LIST_LEN,
        ids_distinct(old(c)@),
        forall|k: int|
            0 <= k < old(c)@.len() ==> other.contains(#[trigger] old(c)@[k].id) && old(c)@[k].score
                == list_score(other, old(c)@[k].id),
        forall|id: usize| other.contains(id) ==> holds_id(old(c)@, id),
    ensures
        ids_distinct(final(c)@),
        forall|k: int|
            0 <= k < final(c)@.len() ==> (other.contains(#[trigger] final(c)@[k].id) || list@.contains(
                final(c)@[k].id,
            )) && final(c)@[k].score == list_score(other, final(c)@[k].id) + list_score(
                list@,
                final(c)@[k].id,
            ),
        forall|id: usize|
            #![trigger other.contains(id)]
            #![trigger list@.contains(id)]
            other.contains(id) || list@.contains(id) ==> holds_id(final(c)@, id),
{
    assert(list@.take(0).len() == 0);
    let mut j: usize = 0;
    while j < list.len()
        invariant
            list@.len() <= MAX_FUSED_LIST_LEN,
            other.len() <= MAX_FUSED_LIST_LEN,
            j <= list@.len(),
            ids_distinct(c@),
            forall|k: int|
                0 <= k < c@.len() ==> (other.contains(#[trigger] c@[k].id) || list@.take(
                    j as int,
                ).contains(c@[k].id)) && c@[k].score == list_score(other, c@[k].id) + list_score(
                    list@.take(j as int),
                    c@[k].id,
                ),
            forall|id: usize|
                #![trigger other.contains(id)]
                #![trigger list@.take(j as int).contains(id)]
                other.contains(id) || list@.take(j as int).contains(id) ==> holds_id(c@, id),
        decreases list@.len() - j,
    {
        let x = list[j];
        let ghost prev = list@.take(j as int);
        let ghost next = list@.take(j as int + 1);
        assert(next == prev.push(x));
        assert(next.drop_last() == prev);
        let add = rank_contribution(j + 1);
        let mut q: usize = 0;
        while q < c.len()
            invariant
                0 <= q <= c@.len(),
                forall|m: int| 0 <= m < q ==> (#[trigger] c@[m]).id != x,
            ensures
                q <= c@.len(),
                forall|m: int| 0 <= m < q ==> (#[trigger] c@[m]).id != x,
                q < c@.len() ==> c@[q as int].id == x,
            decreases c@.len() - q,
        {
            if c[q].id == x {
                break;
            }
            q = q + 1;
        }
        let ghost old_c = c@;
        proof {
            lemma_list_score_bounds(other, x);
            lemma_list_score_bounds(prev, x);
            lemma_contribution_bounds(j + 1);
            assert(other.len() * top_contribution() + prev.len() * top_contribution()
                + top_contribution() < 0x1_0000_0000_0000_0000_0000_0000_0000_0000) by (nonlinear_arith)
                requires
                    other.len() <= 0xFFFF_FFFF,
                    prev.len() <= 0xFFFF_FFFF,
                    top_contribution() == 0x1_0000_0000_0000_0000_0000_0000int / 61,
            ;
            assert forall|k: int| 0 <= k < old_c.len() && old_c[k].id != x implies list_score(
                next,
                #[trigger] old_c[k].id,
            ) == list_score(prev, old_c[k].id) && (prev.contains(old_c[k].id) ==> next.contains(
                old_c[k].id,
            )) by {
                if prev.contains(old_c[k].id) {
                    let w = choose|w: int| 0 <= w < prev.len() && prev[w] == old_c[k].id;
                    assert(next[w] == old_c[k].id);
                }
            }
            assert(next[j as int] == x);
        }
        if q < c.len() {
            let h = FusedHit { id: x, score: c[q].score + add };
            c.set(q, h);
            assert forall|k: int| 0 <= k < c@.len() implies (other.contains(#[trigger] c@[k].id)
                || next.contains(c@[k].id)) && c@[k].score == list_score(other, c@[k].id)
                + list_score(next, c@[k].id) by {
                if k != q {
                    assert(c@[k] == old_c[k]);
                }
            }
            assert forall|id: usize|
                #![trigger other.contains(id)]
                #![trigger next.contains(id)]
                other.contains(id) || next.contains(id) implies holds_id(c@, id) by {
                if id == x {
                    assert(c@[q as int].id == id);
                } else {
                    if next.contains(id) {
                        let w = choose|w: int| 0 <= w < next.len() && next[w] == id;
                        assert(prev[w] == id);
                        assert(list@.take(j as int).contains(id));
                    }
                    assert(holds_id(old_c, id));
                    let k = choose|k: int| 0 <= k < old_c.len() && #[trigger] old_c[k].id == id;
                    assert(old_c[q as int].id == x);
                    assert(k != q);
                    assert(c@[k] == old_c[k]);
                    assert(c@[k].id == id);
                }
            }
        } else {
            proof {
                if other.contains(x) {
                    assert(holds_id(old_c, x));
                }
                if prev.contains(x) {
                    assert(holds_id(old_c, x));
                }
            }
            c.push(FusedHit { id: x, score: add });
            assert forall|k: int| 0 <= k < c@.len() implies (other.contains(#[trigger] c@[k].id)
                || next.contains(c@[k].id)) && c@[k].score == list_score(other, c@[k].id)
                + list_score(next, c@[k].id) by {
                if k < old_c.len() {
                    assert(c@[k] == old_c[k]);
                }
            }
            assert forall|id: usize|
                #![trigger other.contains(id)]
                #![trigger next.contains(id)]
                other.contains(id) || next.contains(id) implies holds_id(c@, id) by {
                if id == x {
                    assert(c@[old_c.len() as int].id == id);
                } else {
                    if next.contains(id) {
                        let w = choose|w: int| 0 <= w < next.len() && next[w] == id;
                        assert(prev[w] == id);
                        assert(list@.take(j as int).contains(id));
                    }
                    assert(holds_id(old_c, id));
                    let k = choose|k: int| 0 <= k < old_c.len() && #[trigger] old_c[k].id == id;
                    assert(c@[k].id == id);
                }
            }
        }
        j = j + 1;
    }
    assert(list@.take(j as int) == list@);
}

/// Every document id of either list, once, with its fused score: the
/// keyword list's ids first, in order of first appearance, then the ids that
/// only the semantic list holds.
pub fn fuse_candidates(keyword: &Vec<usize>, semantic: &Vec<usize>) -> (c: Vec<FusedHit>)
    requires
        keyword@.len() <= MAX_FUSED_LIST_LEN,
        semantic@.len() <= MAX_FUSED_LIST_LEN,
    ensures
        forall|k: int| 0 <= k < c@.len() ==> is_fused_hit(#[trigger] c@[k], keyword@, semantic@),
        ids_distinct(c@),
        forall|id: usize|
            (keyword@.contains(id) || semantic@.contains(id)) <==> holds_id(c@, id),
{
    let mut c: Vec<FusedHit> = Vec::new();
    let ghost empty: Seq<usize> = Seq::empty();
    add_list(&mut c, keyword, Ghost(empty));
    assert forall|k: int| 0 <= k < c@.len() implies keyword@.contains(#[trigger] c@[k].id)
        && c@[k].score == list_score(keyword@, c@[k].id) by {
        assert(!empty.contains(c@[k].id));
    }
    add_list(&mut c, semantic, Ghost(keyword@));
    assert forall|id: usize| holds_id(c@, id) implies keyword@.contains(id) || semantic@.contains(
        id,
    ) by {
        let k = choose|k: int| 0 <= k < c@.len() && #[trigger] c@[k].id == id;
    }
    c
}

/// Reciprocal-rank fusion of two ranked id lists: every id of either list
/// with its fused score, in fused ranking order, at most `limit` of them.
pub fn hybrid_search(keyword: &Vec<usize>, semantic: &Vec<usize>, limit: usize) -> (r: Vec<
    FusedHit,
>)
    requires
        keyword@.len() <= MAX_FUSED_LIST_LEN,
        semantic@.len() <= MAX_FUSED_LIST_LEN,
    ensures
        r@.len() <= limit,
        is_fused_ranked(r@),
        ids_distinct(r@),
        forall|k: int| 0 <= k < r@.len() ==> keyword@.contains(#[trigger] r@[k].id) || semantic@.contains(r@[k].id),
        forall|k: int| 0 <= k < r@.len() ==> is_fused_hit(#[trigger] r@[k], keyword@, semantic@),
        forall|id: usize|
            #![trigger keyword@.contains(id)]
            #![trigger semantic@.contains(id)]
            (keyword@.contains(id) || semantic@.contains(id)) && !holds_id(r@, id) ==> r@.len()
                == limit && forall|k: int|
                0 <= k < r@.len() ==> fused_before(
                    #[trigger] r@[k],
                    FusedHit { id, score: fused_score(keyword@, semantic@, id) as u128 },
                ),
{
    let c = fuse_candidates(keyword, semantic);
    let mut out: Vec<FusedHit> = Vec::new();
    let mut i: usize = 0;
    while i < c.len()
        invariant
            i <= c@.len(),
            out@.len() == i,
            is_fused_ranked(out@),
            ids_distinct(out@),
            ids_distinct(c@),
            out@.to_multiset() == c@.take(i as int).to_multiset(),
        decreases c@.len() - i,
    {
        let x = c[i];
        assert(c@.take(i as int + 1) == c@.take(i as int).push(x));
        assert(!holds_id(out@, x.id)) by {
            if holds_id(out@, x.id) {
                let m = choose|m: int| 0 <= m < out@.len() && #[trigger] out@[m].id == x.id;
                assert(out@.contains(out@[m]));
                assert(c@.take(i as int).to_multiset().count(out@[m]) > 0);
                assert(c@.take(i as int).contains(out@[m]));
                let q = choose|q: int| 0 <= q < i && c@.take(i as int)[q] == out@[m];
                assert(c@[q].id == c@[i as int].id);
            }
        }
        insert_fused(&mut out, x);
        i = i + 1;
    }
    assert(c@.take(i as int) == c@);
    let ghost t = out@;
    out.truncate(limit);
    proof {
        assert(t.to_multiset().len() == t.len());
        assert forall|k: int| 0 <= k < t.len() implies is_fused_hit(#[trigger] t[k], keyword@, semantic@) by {
            assert(t.contains(t[k]));
            assert(c@.to_multiset().count(t[k]) > 0);
            assert(c@.contains(t[k]));
        }
        assert forall|k: int| 0 <= k < out@.len() implies is_fused_hit(#[trigger] out@[k], keyword@, semantic@) by {
            assert(out@[k] == t[k]);
        }
        assert forall|a: int, b: int| 0 <= a < b < out@.len() implies !fused_before(#[trigger] out@[b], #[trigger] out@[a]) by {
            assert(out@[a] == t[a] && out@[b] == t[b]);
        }
        assert forall|a: int, b: int| 0 <= a < b < out@.len() implies #[trigger] out@[a].id != #[trigger] out@[b].id by {
            assert(out@[a] == t[a] && out@[b] == t[b]);
        }
        assert forall|id: usize|
            #![trigger keyword@.contains(id)]
            #![trigger semantic@.contains(id)]
            (keyword@.contains(id) || semantic@.contains(id)) && !holds_id(out@, id) implies out@.len()
                == limit && forall|k: int|
                0 <= k < out@.len() ==> fused_before(
                    #[trigger] out@[k],
                    FusedHit { id, score: fused_score(keyword@, semantic@, id) as u128 },
                ) by {
            let q = choose|q: int| 0 <= q < c@.len() && #[trigger] c@[q].id == id;
            let h = c@[q];
            assert(is_fused_hit(h, keyword@, semantic@));
            assert(h == FusedHit { id, score: fused_score(keyword@, semantic@, id) as u128 });
            assert(c@.contains(h));
            assert(t.to_multiset().count(h) > 0);
            assert(t.contains(h));
            let p = choose|p: int| 0 <= p < t.len() && t[p] == h;
            if p < out@.len() {
                assert(out@[p] == h);
            }
            assert forall|k: int| 0 <= k < out@.len() implies fused_before(#[trigger] out@[k], h) by {
                assert(out@[k] == t[k]);
                assert(!fused_before(t[p], t[k]));
                assert(t[k].id != t[p].id);
            }
        }
    }
    out
}

} // verus!
