//! Top-N majority voting: candidates whose feature distance is within the limit
//! vote for their track, tracks with too few votes drop out, and the best
//! `topn` tracks by vote count are returned.
use vstd::prelude::*;
use itertools::Itertools;
use crate::distance::{f32_bits_le, le_spec};

verus! {

/// A distance measured between a query observation and a known track:
/// the track's identity, the attribute distance and the feature distance.
/// Distances are `f32` bit patterns; `None` means "not comparable".
#[derive(Clone, Copy, Debug, PartialEq, Eq)]
pub struct ObservationMetricResult(pub u64, pub Option<u32>, pub Option<u32>);

/// Voting engine that selects the `topn` tracks with the most close distances.
///
/// It calculates winners as:
/// 1. drops the candidates whose feature distance is absent or above `max_distance`
/// 2. counts the remaining candidates by track identity
/// 3. drops the tracks with fewer than `min_votes` votes
/// 4. orders the tracks by vote count, most votes first
/// 5. keeps the first `topn`
pub struct TopNVoting {
    topn: usize,
    max_distance: u32,
    min_votes: usize,
}

/// One winner: a track and the number of votes it gathered.
#[derive(Clone, Copy, Default, Debug, PartialEq, Eq, Structural)]
pub struct TopNVotingElt {
    /// winning track
    pub track_id: u64,
    /// number of votes it gathered
    pub votes: usize,
}

impl TopNVotingElt {
    pub fn new(track_id: u64, votes: usize) -> (r: Self)
        ensures
            r.track_id == track_id,
            r.votes == votes,
    {
        Self { track_id, votes }
    }
}

/// A voting strategy: picks the winning tracks among candidate distances.
pub trait Voting<R> {
    fn winners(&self, distances: &[ObservationMetricResult]) -> Vec<R>;
}

impl Voting<TopNVotingElt> for TopNVoting {
    fn winners(&self, distances: &[ObservationMetricResult]) -> Vec<TopNVotingElt> {
        TopNVoting::winners(self, distances)
    }
}

/// How many times `id` occurs in `ids`.
pub open spec fn occurrences(ids: Seq<u64>, id: u64) -> nat
    decreases ids.len(),
{
    if ids.len() == 0 {
        0
    } else {
        occurrences(ids.drop_last(), id) + if ids.last() == id { 1nat } else { 0nat }
    }
}

/// Relies on itertools::Itertools::counts, which collects each distinct item
/// with the number of times it occurs. The map is walked in the order of its
/// hasher, which each process seeds, so nothing is said of the order.
#[verifier::external_body]
fn count_ids(ids: &Vec<u64>) -> (r: Vec<(u64, usize)>)
    ensures
        forall|i: int|
            0 <= i < r@.len() ==> ids@.contains(#[trigger] r@[i].0) && r@[i].1 == occurrences(
                ids@,
                r@[i].0,
            ),
        forall|i: int, j: int| 0 <= i < j < r@.len() ==> r@[i].0 != r@[j].0,
        forall|k: int|
            0 <= k < ids@.len() ==> exists|i: int| 0 <= i < r@.len() && r@[i].0 == #[trigger] ids@[k],
{
    ids.iter().copied().counts().into_iter().collect()
}

/// An id occurs in a sequence exactly when it is counted there.
proof fn lemma_occurrences_contains(ids: Seq<u64>, id: u64)
    ensures
        occurrences(ids, id) > 0 <==> ids.contains(id),
    decreases ids.len(),
{
    if ids.len() > 0 {
        lemma_occurrences_contains(ids.drop_last(), id);
        if ids.drop_last().contains(id) {
            let k = choose|k: int| 0 <= k < ids.drop_last().len() && ids.drop_last()[k] == id;
            assert(ids[k] == id);
        }
        if ids.contains(id) && ids.last() != id {
            let k = choose|k: int| 0 <= k < ids.len() && ids[k] == id;
            assert(ids.drop_last()[k] == id);
        }
    }
}

impl TopNVoting {
    /// Constructs a new engine.
    ///
    /// * `topn` - how many winners at most
    /// * `max_distance` - bit pattern of the largest `f32` feature distance that votes
    /// * `min_votes` - how many votes a track needs to be a winner
    pub fn new(topn: usize, max_distance: u32, min_votes: usize) -> (r: Self)
        ensures
            r.spec_topn() == topn,
            r.spec_max_distance() == max_distance,
            r.spec_min_votes() == min_votes,
    {
        Self { topn, max_distance, min_votes }
    }

    pub closed spec fn spec_topn(self) -> usize {
        self.topn
    }

    pub closed spec fn spec_max_distance(self) -> u32 {
        self.max_distance
    }

    pub closed spec fn spec_min_votes(self) -> usize {
        self.min_votes
    }

    /// The candidate's feature distance is present and at most `max_distance`.
    pub open spec fn casts_vote(self, c: ObservationMetricResult) -> bool {
        match c.2 {
            Some(d) => le_spec(d, self.spec_max_distance()),
            None => false,
        }
    }

    /// The number of candidates that cast a vote for `id`.
    pub open spec fn votes(self, cands: Seq<ObservationMetricResult>, id: u64) -> nat
        decreases cands.len(),
    {
        if cands.len() == 0 {
            0
        } else {
            self.votes(cands.drop_last(), id) + if cands.last().0 == id && self.casts_vote(
                cands.last(),
            ) {
                1nat
            } else {
                0nat
            }
        }
    }

    /// `r` is a valid answer when track `id` has `tally(id)` votes: at most
    /// `topn` distinct tracks, each with its tally, which is at least one and
    /// at least `min_votes`; most votes first; and any such track left out
    /// was cut by `topn` and has no more votes than any winner.
    pub open spec fn ranks(self, tally: spec_fn(u64) -> nat, r: Seq<TopNVotingElt>) -> bool {
        &&& r.len() <= self.spec_topn()
        &&& forall|i: int|
            0 <= i < r.len() ==> (#[trigger] r[i]).votes == tally(r[i].track_id) && tally(
                r[i].track_id,
            ) >= 1 && tally(r[i].track_id) >= self.spec_min_votes()
        &&& forall|i: int, j: int|
            0 <= i < j < r.len() ==> (#[trigger] r[i]).track_id != (#[trigger] r[j]).track_id
                && r[i].votes >= r[j].votes
        &&& forall|id: u64|
            #![trigger tally(id)]
            tally(id) >= 1 && tally(id) >= self.spec_min_votes() && (forall|i: int|
                0 <= i < r.len() ==> r[i].track_id != id) ==> r.len() == self.spec_topn()
                && forall|i: int| 0 <= i < r.len() ==> (#[trigger] r[i]).votes >= tally(id)
    }

    /// `r` is a valid answer for the candidates `cands`.
    pub open spec fn is_ranking(
        self,
        cands: Seq<ObservationMetricResult>,
        r: Seq<TopNVotingElt>,
    ) -> bool {
        self.ranks(|id: u64| self.votes(cands, id), r)
    }

    /// The winners among `distances`: the tracks whose candidates pass the
    /// distance limit often enough, most votes first, at most `topn` of them.
    /// Which of several tracks with equal votes come first, or are kept at the
    /// cut, is not fixed.
    pub fn winners(&self, distances: &[ObservationMetricResult]) -> (r: Vec<TopNVotingElt>)
        ensures
            self.is_ranking(distances@, r@),
            distances@.len() == 0 ==> r@.len() == 0,
    {
        let mut ids: Vec<u64> = Vec::new();
        let mut i: usize = 0;
        while i < distances.len()
            invariant
                i <= distances@.len(),
                forall|id: u64|
                    occurrences(ids@, id) == #[trigger] self.votes(distances@.take(i as int), id),
            decreases distances.len() - i,
        {
            let c = distances[i];
            let pass = match c.2 {
                Some(d) => f32_bits_le(d, self.max_distance),
                None => false,
            };
            let ghost prev = ids@;
            if pass {
                ids.push(c.0);
            }
            proof {
                assert(distances@.take(i + 1).drop_last() == distances@.take(i as int));
                assert(distances@.take(i + 1).last() == c);
                if pass {
                    assert(ids@.drop_last() == prev);
                }
                assert forall|id: u64|
                    occurrences(ids@, id) == #[trigger] self.votes(
                        distances@.take(i + 1),
                        id,
                    ) by {
                    assert(occurrences(prev, id) == self.votes(distances@.take(i as int), id));
                }
            }
            i += 1;
        }
        assert(distances@.take(distances@.len() as int) == distances@);
        let counts = count_ids(&ids);
        proof {
            assert forall|id: u64| count_of(counts@, id) == self.votes(distances@, id) by {
                if exists|b: int| 0 <= b < counts@.len() && counts@[b].0 == id {
                    let b = choose|b: int| 0 <= b < counts@.len() && counts@[b].0 == id;
                    lemma_count_of(counts@, b);
                } else {
                    if count_of(counts@, id) > 0 {
                        lemma_count_of_present(counts@, id);
                    }
                    if occurrences(ids@, id) > 0 {
                        lemma_occurrences_contains(ids@, id);
                        let k = choose|k: int| 0 <= k < ids@.len() && ids@[k] == id;
                        assert(ids@[k] == id);
                    }
                }
            }
            assert((|id: u64| count_of(counts@, id)) == (|id: u64| self.votes(distances@, id)));
        }
        let r = self.rank_counts(&counts);
        proof {
            if distances@.len() == 0 && r@.len() > 0 {
                assert(r@[0].votes == self.votes(distances@, r@[0].track_id));
            }
        }
        r
    }

    /// Ranks a table of vote counts, one entry per track: keeps the tracks
    /// with at least one vote and at least `min_votes`, orders them by votes,
    /// most first, and keeps the first `topn`.
    pub fn rank_counts(&self, counts: &Vec<(u64, usize)>) -> (r: Vec<TopNVotingElt>)
        requires
            keys_distinct(counts@),
        ensures
            self.ranks(|id: u64| count_of(counts@, id), r@),
    {
        let ghost tally = |id: u64| count_of(counts@, id);
        let mut sorted: Vec<TopNVotingElt> = Vec::new();
        let mut j: usize = 0;
        while j < counts.len()
            invariant
                j <= counts@.len(),
                keys_distinct(counts@),
                tally == (|id: u64| count_of(counts@, id)),
                forall|a: int|
                    0 <= a < sorted@.len() ==> (#[trigger] sorted@[a]).votes == tally(
                        sorted@[a].track_id,
                    ) && tally(sorted@[a].track_id) >= 1 && tally(sorted@[a].track_id)
                        >= self.spec_min_votes() && exists|b: int|
                        0 <= b < j && counts@[b].0 == sorted@[a].track_id,
                forall|b: int|
                    0 <= b < j && (#[trigger] counts@[b]).1 >= 1 && counts@[b].1
                        >= self.spec_min_votes() ==> exists|a: int|
                        0 <= a < sorted@.len() && sorted@[a].track_id == counts@[b].0,
                forall|a: int, c: int|
                    0 <= a < c < sorted@.len() ==> (#[trigger] sorted@[a]).track_id != (
                    #[trigger] sorted@[c]).track_id && sorted@[a].votes >= sorted@[c].votes,
            decreases counts.len() - j,
        {
            let (id, n) = counts[j];
            proof {
                lemma_count_of(counts@, j as int);
            }
            if n >= 1 && n >= self.min_votes {
                let mut pos: usize = 0;
                while pos < sorted.len() && sorted[pos].votes >= n
                    invariant
                        pos <= sorted@.len(),
                        forall|a: int| 0 <= a < pos ==> (#[trigger] sorted@[a]).votes >= n,
                    decreases sorted.len() - pos,
                {
                    pos += 1;
                }
                let ghost prev = sorted@;
                let e = TopNVotingElt { track_id: id, votes: n };
                sorted.insert(pos, e);
                proof {
                    assert forall|a: int| 0 <= a < prev.len() implies prev[a].track_id != id by {
                        let b = choose|b: int| 0 <= b < j && counts@[b].0 == prev[a].track_id;
                        assert(counts@[b].0 != counts@[j as int].0);
                    }
                    assert forall|a: int| 0 <= a < sorted@.len() implies exists|b: int|
                        0 <= b < j + 1 && counts@[b].0 == (#[trigger] sorted@[a]).track_id by {
                        if a < pos {
                            assert(sorted@[a] == prev[a]);
                        } else if a == pos {
                            assert(counts@[j as int].0 == sorted@[a].track_id);
                        } else {
                            assert(sorted@[a] == prev[a - 1]);
                        }
                    }
                    assert forall|b: int|
                        0 <= b < j + 1 && (#[trigger] counts@[b]).1 >= 1 && counts@[b].1
                            >= self.spec_min_votes() implies exists|a: int|
                        0 <= a < sorted@.len() && sorted@[a].track_id == counts@[b].0 by {
                        if b == j {
                            assert(sorted@[pos as int].track_id == counts@[b].0);
                        } else {
                            let a = choose|a: int|
                                0 <= a < prev.len() && prev[a].track_id == counts@[b].0;
                            if a < pos {
                                assert(sorted@[a] == prev[a]);
                            } else {
                                assert(sorted@[a + 1] == prev[a]);
                            }
                        }
                    }
                    assert forall|a: int, c: int| 0 <= a < c < sorted@.len() implies (
                    #[trigger] sorted@[a]).track_id != (#[trigger] sorted@[c]).track_id
                        && sorted@[a].votes >= sorted@[c].votes by {
                        if c < pos {
                            assert(sorted@[a] == prev[a] && sorted@[c] == prev[c]);
                        } else if c == pos {
                            assert(sorted@[a] == prev[a]);
                        } else if a < pos {
                            assert(sorted@[a] == prev[a] && sorted@[c] == prev[c - 1]);
                        } else if a == pos {
                            assert(sorted@[c] == prev[c - 1]);
                            if pos < prev.len() {
                                assert(prev[pos as int].votes < n);
                            }
                        } else {
                            assert(sorted@[a] == prev[a - 1] && sorted@[c] == prev[c - 1]);
                        }
                    }
                    assert forall|a: int| 0 <= a < sorted@.len() implies (#[trigger] sorted@[
                        a]).votes == tally(sorted@[a].track_id) && tally(sorted@[a].track_id)
                        >= 1 && tally(sorted@[a].track_id) >= self.spec_min_votes() by {
                        if a < pos {
                            assert(sorted@[a] == prev[a]);
                        } else if a > pos {
                            assert(sorted@[a] == prev[a - 1]);
                        }
                    }
                }
            }
            j += 1;
        }
        let ghost full = sorted@;
        sorted.truncate(self.topn);
        proof {
            assert forall|id: u64|
                #![trigger tally(id)]
                tally(id) >= 1 && tally(id) >= self.spec_min_votes() && (forall|i: int|
                    0 <= i < sorted@.len() ==> sorted@[i].track_id != id) implies sorted@.len()
                == self.spec_topn() && forall|i: int|
                0 <= i < sorted@.len() ==> (#[trigger] sorted@[i]).votes >= tally(id) by {
                lemma_count_of_present(counts@, id);
                let b = choose|b: int| 0 <= b < counts@.len() && counts@[b].0 == id;
                lemma_count_of(counts@, b);
                let a = choose|a: int| 0 <= a < full.len() && full[a].track_id == counts@[b].0;
                if a < self.topn {
                    assert(sorted@[a] == full[a]);
                }
                assert forall|i: int| 0 <= i < sorted@.len() implies (#[trigger] sorted@[
                    i]).votes >= tally(id) by {
                    assert(sorted@[i] == full[i]);
                    assert(full[i].votes >= full[a].votes);
                }
            }
        }
        sorted
    }
}

/// The count that `counts` gives `id`: that of the last entry for `id`, or
/// zero where there is none.
pub open spec fn count_of(counts: Seq<(u64, usize)>, id: u64) -> nat
    decreases counts.len(),
{
    if counts.len() == 0 {
        0
    } else if counts.last().0 == id {
        counts.last().1 as nat
    } else {
        count_of(counts.drop_last(), id)
    }
}

/// No two entries of `counts` are for the same track.
pub open spec fn keys_distinct(counts: Seq<(u64, usize)>) -> bool {
    forall|i: int, j: int| 0 <= i < j < counts.len() ==> counts[i].0 != counts[j].0
}

/// With distinct keys, each entry gives its track's count.
proof fn lemma_count_of(counts: Seq<(u64, usize)>, i: int)
    requires
        keys_distinct(counts),
        0 <= i < counts.len(),
    ensures
        count_of(counts, counts[i].0) == counts[i].1,
    decreases counts.len(),
{
    if i < counts.len() - 1 {
        assert(counts.drop_last()[i] == counts[i]);
        lemma_count_of(counts.drop_last(), i);
    }
}

/// A track with a non-zero count has an entry.
proof fn lemma_count_of_present(counts: Seq<(u64, usize)>, id: u64)
    requires
        count_of(counts, id) > 0,
    ensures
        exists|b: int| 0 <= b < counts.len() && counts[b].0 == id,
    decreases counts.len(),
{
    if counts.last().0 != id {
        lemma_count_of_present(counts.drop_last(), id);
        let b = choose|b: int| 0 <= b < counts.len() - 1 && counts.drop_last()[b].0 == id;
        assert(counts[b].0 == id);
    } else {
        assert(counts[counts.len() - 1].0 == id);
    }
}

} // verus!
