//! Ordering of scored candidates.
//!
//! A score is an `f32` carried as its IEEE-754 bit pattern (`f32::to_bits`).
//! `score_key` maps the bit pattern to an integer whose order is the order of
//! the scores: negative values below zero, zero (of either sign) in the middle,
//! positive values and infinity above. NaN patterns sort beyond the infinities
//! of their sign. Candidates are ranked by key, highest first, and among equal
//! keys by ascending document id, so every ranking is deterministic.
use vstd::prelude::*;

verus! {

broadcast use vstd::seq_lib::group_to_multiset_ensures;

/// A document id with the bit pattern of its score.
pub type Scored = (usize, u32);

/// Integer key of a score bit pattern, monotone in the value of the score.
pub open spec fn score_key(bits: u32) -> int {
    if bits == 0x8000_0000u32 {
        0x8000_0000
    } else if bits > 0x8000_0000u32 {
        0xFFFF_FFFF - bits
    } else {
        bits + 0x8000_0000
    }
}

/// The score is a number strictly greater than zero (infinity included).
pub open spec fn is_positive_score(bits: u32) -> bool {
    0 < bits <= 0x7F80_0000u32
}

/// `a` is ranked strictly before `b`.
pub open spec fn ranks_before(a: Scored, b: Scored) -> bool {
    score_key(a.1) > score_key(b.1) || (score_key(a.1) == score_key(b.1) && a.0 < b.0)
}

/// No entry of `s` is ranked strictly before an entry that precedes it.
pub open spec fn is_ranked(s: Seq<Scored>) -> bool {
    forall|i: int, j: int| 0 <= i < j < s.len() ==> !ranks_before(#[trigger] s[j], #[trigger] s[i])
}

/// `r` is the first `limit` entries of `s` in ranking order.
pub open spec fn is_top(r: Seq<Scored>, s: Seq<Scored>, limit: nat) -> bool {
    exists|t: Seq<Scored>|
        #![trigger t.to_multiset()]
        t.to_multiset() == s.to_multiset() && is_ranked(t) && r == t.take(
            if limit < s.len() { limit as int } else { s.len() as int },
        )
}

/// The entries of `s` with a positive score, in their order.
pub open spec fn positive_entries(s: Seq<Scored>) -> Seq<Scored>
    decreases s.len(),
{
    if s.len() == 0 {
        s
    } else {
        let rest = positive_entries(s.drop_last());
        if is_positive_score(s.last().1) {
            rest.push(s.last())
        } else {
            rest
        }
    }
}

/// Pairs every score with its position: `(i, scores[i])`.
pub open spec fn indexed(scores: Seq<u32>) -> Seq<Scored> {
    Seq::new(scores.len(), |i: int| (i as usize, scores[i]))
}

/// Order key of a score bit pattern.
pub fn score_order_key(bits: u32) -> (k: u32)
    ensures
        k == score_key(bits),
{
    if bits == 0x8000_0000u32 {
        0x8000_0000u32
    } else if bits > 0x8000_0000u32 {
        0xFFFF_FFFFu32 - bits
    } else {
        bits + 0x8000_0000u32
    }
}

/// The place of `x` in a ranked sequence: the first position holding an
/// entry that `x` ranks before, or the end.
pub open spec fn place(t: Seq<Scored>, x: Scored) -> nat
    decreases t.len(),
{
    if t.len() == 0 {
        0
    } else if ranks_before(x, t[0]) {
        0
    } else {
        1 + place(t.drop_first(), x)
    }
}

proof fn lemma_place(t: Seq<Scored>, x: Scored)
    ensures
        place(t, x) <= t.len(),
        forall|k: int| 0 <= k < place(t, x) ==> !ranks_before(x, #[trigger] t[k]),
        place(t, x) < t.len() ==> ranks_before(x, t[place(t, x) as int]),
    decreases t.len(),
{
    if t.len() > 0 && !ranks_before(x, t[0]) {
        lemma_place(t.drop_first(), x);
        assert forall|k: int| 0 <= k < place(t, x) implies !ranks_before(x, #[trigger] t[k]) by {
            if k > 0 {
                assert(t[k] == t.drop_first()[k - 1]);
            }
        }
    }
}

/// Inserting `x` at its place keeps a sequence ranked.
proof fn lemma_insert_at_place(t: Seq<Scored>, x: Scored)
    requires
        is_ranked(t),
    ensures
        is_ranked(t.insert(place(t, x) as int, x)),
        t.insert(place(t, x) as int, x).to_multiset() == t.to_multiset().insert(x),
{
    lemma_place(t, x);
    let p = place(t, x) as int;
    let u = t.insert(p, x);
    vstd::seq_lib::to_multiset_insert(t, p, x);
    assert forall|i: int, j: int| 0 <= i < j < u.len() implies !ranks_before(
        #[trigger] u[j],
        #[trigger] u[i],
    ) by {
        if i == p && j > p {
            assert(ranks_before(x, t[p]));
            assert(!ranks_before(t[j - 1], t[p]) || j - 1 == p);
        }
    }
}

/// Sorts the entries into ranking order and keeps the first `limit`. Only
/// the best `limit` entries seen so far are held while scanning.
pub fn rank_by_score(scored: &Vec<Scored>, limit: usize) -> (r: Vec<Scored>)
    ensures
        r@.len() == (if limit < scored@.len() { limit as int } else { scored@.len() as int }),
        is_ranked(r@),
        is_top(r@, scored@, limit as nat),
{
    let mut out: Vec<Scored> = Vec::new();
    let ghost mut full: Seq<Scored> = Seq::empty();
    let mut i: usize = 0;
    while i < scored.len()
        invariant
            i <= scored@.len(),
            is_ranked(full),
            full.to_multiset() == scored@.take(i as int).to_multiset(),
            full.len() == i,
            out@ == full.take(if limit < i { limit as int } else { i as int }),
        decreases scored@.len() - i,
    {
        let x = scored[i];
        assert(scored@.take(i as int + 1) == scored@.take(i as int).push(x));
        let xk = score_order_key(x.1);
        let mut p: usize = 0;
        while p < out.len()
            invariant
                p <= out@.len(),
                xk == score_key(x.1),
                forall|k: int| 0 <= k < p ==> !ranks_before(x, #[trigger] out@[k]),
            ensures
                p <= out@.len(),
                forall|k: int| 0 <= k < p ==> !ranks_before(x, #[trigger] out@[k]),
                p < out@.len() ==> ranks_before(x, out@[p as int]),
            decreases out@.len() - p,
        {
            let yk = score_order_key(out[p].1);
            if xk > yk || (xk == yk && x.0 < out[p].0) {
                break;
            }
            p = p + 1;
        }
        proof {
            lemma_place(full, x);
            lemma_insert_at_place(full, x);
            if p < out@.len() {
                assert(place(full, x) <= p) by {
                    if place(full, x) > p {
                        assert(out@[p as int] == full[p as int]);
                    }
                }
                assert(place(full, x) >= p) by {
                    if place(full, x) < p {
                        assert(out@[place(full, x) as int] == full[place(full, x) as int]);
                    }
                }
            } else {
                assert(place(full, x) >= p) by {
                    if place(full, x) < p {
                        assert(out@[place(full, x) as int] == full[place(full, x) as int]);
                    }
                }
            }
        }
        let ghost new_full = full.insert(place(full, x) as int, x);
        let ghost m = if limit < i + 1 { limit as int } else { i + 1 };
        if p < limit {
            out.insert(p, x);
            out.truncate(limit);
            assert(out@ =~= new_full.take(m));
        } else {
            assert(out@ =~= new_full.take(m));
        }
        proof {
            full = new_full;
        }
        i = i + 1;
    }
    assert(scored@.take(i as int) == scored@);
    assert(is_ranked(out@)) by {
        assert forall|a: int, b: int| 0 <= a < b < out@.len() implies !ranks_before(
            #[trigger] out@[b],
            #[trigger] out@[a],
        ) by {
            assert(out@[a] == full[a] && out@[b] == full[b]);
        }
    }
    assert(full.to_multiset() == scored@.to_multiset());
    out
}

/// All entries of `s` that share an id are the same entry.
pub open spec fn ids_determine_entries(s: Seq<Scored>) -> bool {
    forall|i: int, j: int| 0 <= i < s.len() && 0 <= j < s.len() && #[trigger] s[i].0 == #[trigger] s[j].0 ==> s[i] == s[j]
}

/// In a ranked sequence, scores never increase.
pub proof fn lemma_ranked_scores_descend(s: Seq<Scored>)
    requires
        is_ranked(s),
    ensures
        forall|i: int, j: int| 0 <= i < j < s.len() ==> score_key(#[trigger] s[i].1) >= score_key(#[trigger] s[j].1),
{
    assert forall|i: int, j: int| 0 <= i < j < s.len() implies score_key(#[trigger] s[i].1) >= score_key(#[trigger] s[j].1) by {
        assert(!ranks_before(s[j], s[i]));
    }
}

/// Two ranked orderings of the same entries, where ids determine entries, are equal.
proof fn lemma_ranked_unique(t1: Seq<Scored>, t2: Seq<Scored>, s: Seq<Scored>)
    requires
        is_ranked(t1),
        is_ranked(t2),
        t1.to_multiset() == s.to_multiset(),
        t2.to_multiset() == s.to_multiset(),
        ids_determine_entries(s),
    ensures
        t1 == t2,
    decreases t1.len(),
{
    assert(t1.to_multiset().len() == t1.len());
    assert(t2.to_multiset().len() == t2.len());
    assert(s.to_multiset().len() == s.len());
    if t1.len() > 0 {
        let a = t1[0];
        let b = t2[0];
        assert(t1.contains(a) && t2.contains(b));
        assert(s.to_multiset().count(a) > 0 && s.to_multiset().count(b) > 0);
        assert(t1.to_multiset().count(b) > 0 && t2.to_multiset().count(a) > 0);
        if a != b {
            let p = choose|p: int| 0 <= p < t1.len() && t1[p] == b;
            let q = choose|q: int| 0 <= q < t2.len() && t2[q] == a;
            assert(s.contains(a) && s.contains(b));
            let ia = choose|i: int| 0 <= i < s.len() && s[i] == a;
            let ib = choose|i: int| 0 <= i < s.len() && s[i] == b;
            assert(a.0 != b.0);
            assert(!ranks_before(t1[p], t1[0]));
            assert(!ranks_before(t2[q], t2[0]));
        }
        let s2 = s.remove(s.index_of(a));
        vstd::seq_lib::to_multiset_remove(s, s.index_of(a));
        vstd::seq_lib::to_multiset_remove(t1, 0);
        vstd::seq_lib::to_multiset_remove(t2, 0);
        assert(t1.remove(0) == t1.drop_first());
        assert(t2.remove(0) == t2.drop_first());
        assert(ids_determine_entries(s2)) by {
            assert forall|i: int, j: int| 0 <= i < s2.len() && 0 <= j < s2.len() && #[trigger] s2[i].0 == #[trigger] s2[j].0 implies s2[i] == s2[j] by {
                let ii = if i < s.index_of(a) { i } else { i + 1 };
                let jj = if j < s.index_of(a) { j } else { j + 1 };
                assert(s2[i] == s[ii] && s2[j] == s[jj]);
            }
        }
        assert(is_ranked(t1.drop_first())) by {
            assert forall|i: int, j: int| 0 <= i < j < t1.drop_first().len() implies !ranks_before(#[trigger] t1.drop_first()[j], #[trigger] t1.drop_first()[i]) by {
                assert(t1.drop_first()[j] == t1[j + 1] && t1.drop_first()[i] == t1[i + 1]);
            }
        }
        assert(is_ranked(t2.drop_first())) by {
            assert forall|i: int, j: int| 0 <= i < j < t2.drop_first().len() implies !ranks_before(#[trigger] t2.drop_first()[j], #[trigger] t2.drop_first()[i]) by {
                assert(t2.drop_first()[j] == t2[j + 1] && t2.drop_first()[i] == t2[i + 1]);
            }
        }
        lemma_ranked_unique(t1.drop_first(), t2.drop_first(), s2);
        assert(t1 == seq![a].add(t1.drop_first()));
        assert(t2 == seq![b].add(t2.drop_first()));
    }
}

/// Ranking is deterministic: where ids determine entries, the first `limit`
/// entries in ranking order are one sequence.
pub proof fn lemma_top_deterministic(r1: Seq<Scored>, r2: Seq<Scored>, s: Seq<Scored>, limit: nat)
    requires
        ids_determine_entries(s),
        is_top(r1, s, limit),
        is_top(r2, s, limit),
    ensures
        r1 == r2,
{
    let n = if limit < s.len() { limit as int } else { s.len() as int };
    let t1 = choose|t: Seq<Scored>| #![trigger t.to_multiset()] t.to_multiset() == s.to_multiset() && is_ranked(t) && r1 == t.take(n);
    let t2 = choose|t: Seq<Scored>| #![trigger t.to_multiset()] t.to_multiset() == s.to_multiset() && is_ranked(t) && r2 == t.take(n);
    lemma_ranked_unique(t1, t2, s);
}

/// The entries with a strictly positive score, in their order.
pub fn keep_positive(scored: &Vec<Scored>) -> (r: Vec<Scored>)
    ensures
        r@ == positive_entries(scored@),
{
    let mut out: Vec<Scored> = Vec::new();
    let mut i: usize = 0;
    while i < scored.len()
        invariant
            i <= scored@.len(),
            out@ == positive_entries(scored@.take(i as int)),
        decreases scored@.len() - i,
    {
        assert(scored@.take(i as int + 1).drop_last() == scored@.take(i as int));
        let e = scored[i];
        if 0 < e.1 && e.1 <= 0x7F80_0000u32 {
            out.push(e);
        }
        i = i + 1;
    }
    assert(scored@.take(i as int) == scored@);
    out
}

/// Every entry of `positive_entries(s)` has a positive score and occurs in `s`.
pub proof fn lemma_positive_entries(s: Seq<Scored>)
    ensures
        forall|i: int| 0 <= i < positive_entries(s).len() ==> is_positive_score(
            #[trigger] positive_entries(s)[i].1,
        ),
        positive_entries(s).len() <= s.len(),
        forall|i: int| 0 <= i < positive_entries(s).len() ==> s.contains(
            #[trigger] positive_entries(s)[i],
        ),
    decreases s.len(),
{
    if s.len() > 0 {
        lemma_positive_entries(s.drop_last());
        assert forall|i: int| 0 <= i < positive_entries(s).len() implies s.contains(
            #[trigger] positive_entries(s)[i],
        ) by {
            let p = positive_entries(s.drop_last());
            if i < p.len() {
                assert(positive_entries(s)[i] == p[i]);
                let k = choose|k: int| 0 <= k < s.drop_last().len() && s.drop_last()[k] == p[i];
                assert(s[k] == p[i]);
            } else {
                assert(s[s.len() - 1] == positive_entries(s)[i]);
            }
        }
    }
}

proof fn lemma_indexed_ids(scores: Seq<u32>)
    requires
        scores.len() <= usize::MAX,
    ensures
        ids_determine_entries(indexed(scores)),
{
    let s = indexed(scores);
    assert forall|i: int, j: int|
        0 <= i < s.len() && 0 <= j < s.len() && #[trigger] s[i].0 == #[trigger] s[j].0 implies s[i]
        == s[j] by {
        assert(s[i].0 == i as usize && s[j].0 == j as usize);
    }
}

/// Ranking by similarity is deterministic: one sequence meets the contract
/// for given scores and limit.
pub proof fn lemma_similarity_ranking_deterministic(
    scores: Seq<u32>,
    limit: nat,
    r1: Seq<Scored>,
    r2: Seq<Scored>,
)
    requires
        scores.len() <= usize::MAX,
        is_top(r1, indexed(scores), limit),
        is_top(r2, indexed(scores), limit),
    ensures
        r1 == r2,
{
    lemma_indexed_ids(scores);
    lemma_top_deterministic(r1, r2, indexed(scores), limit);
}

/// Keyword ranking is deterministic: one sequence meets the contract for
/// given scores and limit.
pub proof fn lemma_keyword_ranking_deterministic(
    scores: Seq<u32>,
    limit: nat,
    r1: Seq<Scored>,
    r2: Seq<Scored>,
)
    requires
        scores.len() <= usize::MAX,
        is_top(r1, positive_entries(indexed(scores)), limit),
        is_top(r2, positive_entries(indexed(scores)), limit),
    ensures
        r1 == r2,
{
    let s = indexed(scores);
    let p = positive_entries(s);
    lemma_positive_entries(s);
    lemma_indexed_ids(scores);
    assert forall|i: int, j: int|
        0 <= i < p.len() && 0 <= j < p.len() && #[trigger] p[i].0 == #[trigger] p[j].0 implies p[i]
        == p[j] by {
        let a = choose|a: int| 0 <= a < s.len() && s[a] == p[i];
        let b = choose|b: int| 0 <= b < s.len() && s[b] == p[j];
        assert(s[a].0 == s[b].0);
    }
    lemma_top_deterministic(r1, r2, p, limit);
}

/// Keeps the candidates with a positive score, ranks them and keeps the first `limit`.
pub fn rank_positive(scored: &Vec<Scored>, limit: usize) -> (r: Vec<Scored>)
    ensures
        r@.len() <= limit,
        is_ranked(r@),
        is_top(r@, positive_entries(scored@), limit as nat),
        forall|i: int| 0 <= i < r@.len() ==> is_positive_score(#[trigger] r@[i].1),
{
    let positive = keep_positive(scored);
    let r = rank_by_score(&positive, limit);
    proof {
        lemma_positive_entries(scored@);
        let t = choose|t: Seq<Scored>|
            #![trigger t.to_multiset()]
            t.to_multiset() == positive@.to_multiset() && is_ranked(t) && r@ == t.take(
                if limit < positive@.len() { limit as int } else { positive@.len() as int },
            );
        assert forall|i: int| 0 <= i < r@.len() implies is_positive_score(#[trigger] r@[i].1) by {
            assert(t.to_multiset().len() == t.len());
            assert(positive@.to_multiset().len() == positive@.len());
            assert(r@[i] == t[i]);
            assert(t.contains(t[i]));
            assert(positive@.to_multiset().count(t[i]) > 0);
            assert(positive@.contains(t[i]));
        }
    }
    r
}

/// Pairs every score with its position.
pub fn indexed_scores(scores: &Vec<u32>) -> (r: Vec<Scored>)
    ensures
        r@ == indexed(scores@),
{
    let mut out: Vec<Scored> = Vec::new();
    let mut i: usize = 0;
    while i < scores.len()
        invariant
            i <= scores@.len(),
            out@ == indexed(scores@).take(i as int),
        decreases scores@.len() - i,
    {
        out.push((i, scores[i]));
        i = i + 1;
        assert(out@ =~= indexed(scores@).take(i as int));
    }
    assert(out@ =~= indexed(scores@));
    out
}

} // verus!
