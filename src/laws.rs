//! Properties of top-N voting that relate several inputs or several calls,
//! stated over the model that `TopNVoting::winners` is specified with.
use vstd::prelude::*;
use crate::distance::{is_nan_spec, le_spec};
use crate::topn::{ObservationMetricResult, TopNVoting, TopNVotingElt};

verus! {

/// The track identities of a ranking, in order.
pub open spec fn track_ids(r: Seq<TopNVotingElt>) -> Seq<u64> {
    r.map_values(|e: TopNVotingElt| e.track_id)
}

/// The track identities of a sequence of candidates, in order.
pub open spec fn candidate_ids(cands: Seq<ObservationMetricResult>) -> Seq<u64> {
    cands.map_values(|c: ObservationMetricResult| c.0)
}

/// The tracks that would be winners with no bound on their number.
pub open spec fn surviving(v: TopNVoting, cands: Seq<ObservationMetricResult>) -> Set<u64> {
    Set::new(|id: u64| v.votes(cands, id) >= 1 && v.votes(cands, id) >= v.spec_min_votes())
}

/// Votes of a concatenation add up.
pub proof fn lemma_votes_append(
    v: TopNVoting,
    a: Seq<ObservationMetricResult>,
    b: Seq<ObservationMetricResult>,
    id: u64,
)
    ensures
        v.votes(a + b, id) == v.votes(a, id) + v.votes(b, id),
    decreases b.len(),
{
    if b.len() > 0 {
        assert((a + b).drop_last() == a + b.drop_last());
        assert((a + b).last() == b.last());
        lemma_votes_append(v, a, b.drop_last(), id);
    } else {
        assert(a + b == a);
    }
}

/// The votes of a track are the candidates that carry its identity and
/// whose feature distance is within the limit.
pub proof fn lemma_votes_count_filtered(
    v: TopNVoting,
    cands: Seq<ObservationMetricResult>,
    id: u64,
)
    ensures
        v.votes(cands, id) == cands.filter(
            |c: ObservationMetricResult| c.0 == id && v.casts_vote(c),
        ).len(),
    decreases cands.len(),
{
    let pred = |c: ObservationMetricResult| c.0 == id && v.casts_vote(c);
    if cands.len() == 0 {
        assert(cands.filter(pred) == Seq::<ObservationMetricResult>::empty()) by {
            reveal(Seq::filter);
        }
    } else {
        lemma_votes_count_filtered(v, cands.drop_last(), id);
        cands.drop_last().lemma_filter_push(cands.last(), pred);
        assert(cands.drop_last().push(cands.last()) == cands);
    }
}

/// A track with a vote has a candidate.
proof fn lemma_voted_has_candidate(
    v: TopNVoting,
    cands: Seq<ObservationMetricResult>,
    id: u64,
)
    requires
        v.votes(cands, id) >= 1,
    ensures
        candidate_ids(cands).contains(id),
    decreases cands.len(),
{
    if cands.last().0 == id {
        assert(candidate_ids(cands)[cands.len() - 1] == id);
    } else {
        lemma_voted_has_candidate(v, cands.drop_last(), id);
        let k = choose|k: int|
            0 <= k < candidate_ids(cands.drop_last()).len() && candidate_ids(cands.drop_last())[k]
                == id;
        assert(candidate_ids(cands)[k] == id);
    }
}

/// A single candidate votes for its own track when its distance is within the limit.
proof fn lemma_votes_single(v: TopNVoting, c: ObservationMetricResult, id: u64)
    ensures
        v.votes(seq![c], id) == if c.0 == id && v.casts_vote(c) {
            1nat
        } else {
            0nat
        },
{
    assert(seq![c].drop_last() == Seq::<ObservationMetricResult>::empty());
    assert(v.votes(Seq::<ObservationMetricResult>::empty(), id) == 0);
    assert(seq![c].last() == c);
}

/// Distinct identities all found in `s2` are no more than `s2` holds.
proof fn lemma_distinct_within(s1: Seq<u64>, s2: Seq<u64>)
    requires
        s1.no_duplicates(),
        forall|i: int| 0 <= i < s1.len() ==> s2.contains(#[trigger] s1[i]),
    ensures
        s1.len() <= s2.len(),
{
    s1.unique_seq_to_set();
    s2.lemma_cardinality_of_set();
    assert(s1.to_set().subset_of(s2.to_set())) by {
        assert forall|x: u64| s1.to_set().contains(x) implies s2.to_set().contains(x) by {
            let i = choose|i: int| 0 <= i < s1.len() && s1[i] == x;
            assert(s2.contains(s1[i]));
        }
    }
    vstd::set_lib::lemma_len_subset(s1.to_set(), s2.to_set());
}

/// A candidate without a feature distance casts no vote, wherever it stands.
pub proof fn lemma_absent_distance_no_vote(
    v: TopNVoting,
    before: Seq<ObservationMetricResult>,
    c: ObservationMetricResult,
    after: Seq<ObservationMetricResult>,
    id: u64,
)
    requires
        c.2 is None,
    ensures
        v.votes(before + seq![c] + after, id) == v.votes(before + after, id),
{
    lemma_votes_append(v, before + seq![c], after, id);
    lemma_votes_append(v, before, seq![c], id);
    lemma_votes_append(v, before, after, id);
    lemma_votes_single(v, c, id);
}

/// A candidate whose feature distance is not at most `max_distance` casts
/// no vote; one whose distance is at most that, in particular one equal to it,
/// casts exactly one vote for its own track.
pub proof fn lemma_distance_limit(
    v: TopNVoting,
    before: Seq<ObservationMetricResult>,
    c: ObservationMetricResult,
    after: Seq<ObservationMetricResult>,
    id: u64,
)
    requires
        c.2 is Some,
    ensures
        !le_spec(c.2->0, v.spec_max_distance()) ==> v.votes(before + seq![c] + after, id)
            == v.votes(before + after, id),
        le_spec(c.2->0, v.spec_max_distance()) ==> v.votes(before + seq![c] + after, c.0)
            == v.votes(before + after, c.0) + 1,
        c.2->0 == v.spec_max_distance() && !is_nan_spec(c.2->0) ==> v.votes(
            before + seq![c] + after,
            c.0,
        ) == v.votes(before + after, c.0) + 1,
{
    lemma_votes_append(v, before + seq![c], after, id);
    lemma_votes_append(v, before, seq![c], id);
    lemma_votes_append(v, before, after, id);
    lemma_votes_append(v, before + seq![c], after, c.0);
    lemma_votes_append(v, before, seq![c], c.0);
    lemma_votes_append(v, before, after, c.0);
    lemma_votes_single(v, c, id);
    lemma_votes_single(v, c, c.0);
}

/// A track with fewer than `min_votes` votes is never a winner; one with
/// exactly `min_votes` votes, at least one, is a winner unless `topn` cut
/// the answer.
pub proof fn lemma_min_votes(
    v: TopNVoting,
    cands: Seq<ObservationMetricResult>,
    r: Seq<TopNVotingElt>,
    id: u64,
)
    requires
        v.is_ranking(cands, r),
    ensures
        v.votes(cands, id) < v.spec_min_votes() ==> !track_ids(r).contains(id),
        v.votes(cands, id) == v.spec_min_votes() && v.votes(cands, id) >= 1 && r.len()
            < v.spec_topn() ==> track_ids(r).contains(id),
{
    let tally = |x: u64| v.votes(cands, x);
    if track_ids(r).contains(id) {
        let i = choose|i: int| 0 <= i < track_ids(r).len() && track_ids(r)[i] == id;
        assert(r[i].track_id == id);
    }
    if v.votes(cands, id) == v.spec_min_votes() && v.votes(cands, id) >= 1 && r.len()
        < v.spec_topn() {
        assert(v.ranks(tally, r));
        assert(tally(id) >= 1 && tally(id) >= v.spec_min_votes());
        if exists|i: int| 0 <= i < r.len() && r[i].track_id == id {
            let i = choose|i: int| 0 <= i < r.len() && r[i].track_id == id;
            assert(track_ids(r)[i] == id);
        }
    }
}

/// The number of winners is at most `topn` and at most the number of
/// tracks within the distance limit that reach the vote threshold.
pub proof fn lemma_winners_len(
    v: TopNVoting,
    cands: Seq<ObservationMetricResult>,
    r: Seq<TopNVotingElt>,
)
    requires
        v.is_ranking(cands, r),
    ensures
        surviving(v, cands).finite(),
        r.len() <= v.spec_topn(),
        r.len() <= surviving(v, cands).len(),
{
    let all = candidate_ids(cands).to_set();
    let s = surviving(v, cands);
    assert(s.subset_of(all)) by {
        assert forall|id: u64| s.contains(id) implies all.contains(id) by {
            lemma_voted_has_candidate(v, cands, id);
        }
    }
    vstd::set_lib::lemma_len_subset(s, all);
    let ids = track_ids(r);
    assert(ids.no_duplicates()) by {
        assert forall|i: int, j: int| 0 <= i < ids.len() && 0 <= j < ids.len() && i != j implies ids[i]
            != ids[j] by {
            if i < j {
                assert(r[i].track_id != r[j].track_id);
            } else {
                assert(r[j].track_id != r[i].track_id);
            }
        }
    }
    ids.unique_seq_to_set();
    assert(ids.to_set().subset_of(s)) by {
        assert forall|id: u64| ids.to_set().contains(id) implies s.contains(id) by {
            let i = choose|i: int| 0 <= i < ids.len() && ids[i] == id;
            assert(r[i].votes == v.votes(cands, r[i].track_id));
        }
    }
    vstd::set_lib::lemma_len_subset(ids.to_set(), s);
}

/// A valid answer is at least as long as any other valid answer.
proof fn lemma_ranking_len_le(
    v: TopNVoting,
    cands: Seq<ObservationMetricResult>,
    r1: Seq<TopNVotingElt>,
    r2: Seq<TopNVotingElt>,
)
    requires
        v.is_ranking(cands, r1),
        v.is_ranking(cands, r2),
    ensures
        r2.len() <= r1.len(),
{
    let tally = |x: u64| v.votes(cands, x);
    assert(v.ranks(tally, r1));
    assert(v.ranks(tally, r2));
    if r1.len() < v.spec_topn() {
        let ids1 = track_ids(r1);
        let ids2 = track_ids(r2);
        assert forall|p: int| 0 <= p < ids2.len() implies ids1.contains(#[trigger] ids2[p]) by {
            let x = r2[p].track_id;
            assert(tally(x) >= 1 && tally(x) >= v.spec_min_votes());
            if !(exists|i: int| 0 <= i < r1.len() && r1[i].track_id == x) {
                assert(r1.len() == v.spec_topn());
            }
            let i = choose|i: int| 0 <= i < r1.len() && r1[i].track_id == x;
            assert(ids1[i] == x);
        }
        assert forall|a: int, b: int| 0 <= a < b < ids2.len() implies ids2[a] != ids2[b] by {
            assert(r2[a].track_id != r2[b].track_id);
        }
        lemma_distinct_within(ids2, ids1);
    }
}

/// Two valid answers of the same length hold at each place no more votes
/// in the first than in the second.
proof fn lemma_ranking_votes_le(
    v: TopNVoting,
    cands: Seq<ObservationMetricResult>,
    r1: Seq<TopNVotingElt>,
    r2: Seq<TopNVotingElt>,
    i: int,
)
    requires
        v.is_ranking(cands, r1),
        v.is_ranking(cands, r2),
        r1.len() == r2.len(),
        0 <= i < r1.len(),
    ensures
        r1[i].votes <= r2[i].votes,
{
    let tally = |x: u64| v.votes(cands, x);
    assert(v.ranks(tally, r1));
    assert(v.ranks(tally, r2));
    if r1[i].votes > r2[i].votes {
        let above = track_ids(r1.take(i + 1));
        let below = track_ids(r2.take(i));
        assert forall|j: int| 0 <= j < above.len() implies below.contains(#[trigger] above[j]) by {
            let x = r1[j].track_id;
            assert(above[j] == x);
            if j < i {
                assert(r1[j].votes >= r1[i].votes);
            }
            assert(tally(x) >= 1 && tally(x) >= v.spec_min_votes());
            if !(exists|p: int| 0 <= p < r2.len() && r2[p].track_id == x) {
                assert(r2[i].votes >= tally(x));
            }
            let p = choose|p: int| 0 <= p < r2.len() && r2[p].track_id == x;
            if p > i {
                assert(r2[i].votes >= r2[p].votes);
            }
            assert(p < i);
            assert(below[p] == x);
        }
        assert forall|a: int, b: int| 0 <= a < b < above.len() implies above[a] != above[b] by {
            assert(r1[a].track_id != r1[b].track_id);
        }
        lemma_distinct_within(above, below);
    }
}

/// A winner of one valid answer is in another of the same length and votes
/// unless it ties with the last winner at a cut made by `topn`.
proof fn lemma_winner_kept(
    v: TopNVoting,
    cands: Seq<ObservationMetricResult>,
    r1: Seq<TopNVotingElt>,
    r2: Seq<TopNVotingElt>,
    i: int,
)
    requires
        v.is_ranking(cands, r1),
        v.is_ranking(cands, r2),
        r1.len() == r2.len(),
        forall|k: int| 0 <= k < r1.len() ==> (#[trigger] r1[k]).votes == r2[k].votes,
        0 <= i < r1.len(),
        r1.len() < v.spec_topn() || r1[i].votes > r1[r1.len() - 1].votes,
    ensures
        r2.contains(r1[i]),
{
    let tally = |x: u64| v.votes(cands, x);
    assert(v.ranks(tally, r1));
    assert(v.ranks(tally, r2));
    let x = r1[i].track_id;
    assert(tally(x) >= 1 && tally(x) >= v.spec_min_votes());
    if !(exists|j: int| 0 <= j < r2.len() && r2[j].track_id == x) {
        assert(r2[r2.len() - 1].votes >= tally(x));
        assert(r1[r1.len() - 1].votes == r2[r2.len() - 1].votes);
    }
    let j = choose|j: int| 0 <= j < r2.len() && r2[j].track_id == x;
    assert(r2[j] == r1[i]);
    assert(r2.contains(r1[i]));
}

/// Calling `winners` twice on the same candidates gives answers that differ
/// at most in which of the tracks with equal votes stand where: the same
/// length, the same vote count at each place, and the same tracks wherever
/// `topn` did not cut the answer or a track has more votes than the last
/// winner.
pub proof fn lemma_winners_agree(
    v: TopNVoting,
    cands: Seq<ObservationMetricResult>,
    r1: Seq<TopNVotingElt>,
    r2: Seq<TopNVotingElt>,
)
    requires
        v.is_ranking(cands, r1),
        v.is_ranking(cands, r2),
    ensures
        r1.len() == r2.len(),
        forall|i: int| 0 <= i < r1.len() ==> (#[trigger] r1[i]).votes == r2[i].votes,
        forall|i: int|
            0 <= i < r1.len() && (r1.len() < v.spec_topn() || r1[i].votes > r1[r1.len() - 1].votes)
                ==> #[trigger] r2.contains(r1[i]),
{
    lemma_ranking_len_le(v, cands, r1, r2);
    lemma_ranking_len_le(v, cands, r2, r1);
    assert forall|i: int| 0 <= i < r1.len() implies (#[trigger] r1[i]).votes == r2[i].votes by {
        lemma_ranking_votes_le(v, cands, r1, r2, i);
        lemma_ranking_votes_le(v, cands, r2, r1, i);
    }
    assert forall|i: int|
        0 <= i < r1.len() && (r1.len() < v.spec_topn() || r1[i].votes > r1[r1.len() - 1].votes)
            implies #[trigger] r2.contains(r1[i]) by {
        lemma_winner_kept(v, cands, r1, r2, i);
    }
}

} // verus!
