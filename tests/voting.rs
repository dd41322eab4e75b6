use topn_voting::{f32_bits_le, is_nan_bits};
use topn_voting::{ObservationMetricResult, TopNVoting, TopNVotingElt, Voting};

fn obs(track: u64, attr: Option<f32>, feat: Option<f32>) -> ObservationMetricResult {
    ObservationMetricResult(track, attr.map(f32::to_bits), feat.map(f32::to_bits))
}

fn engine(topn: usize, max_distance: f32, min_votes: usize) -> TopNVoting {
    TopNVoting::new(topn, max_distance.to_bits(), min_votes)
}

fn by_track(mut v: Vec<TopNVotingElt>) -> Vec<TopNVotingElt> {
    v.sort_by(|l, r| l.track_id.partial_cmp(&r.track_id).unwrap());
    v
}

#[test]
fn default_voting() {
    let v = engine(5, 0.32, 1);

    let candidates = v.winners(&vec![obs(1, Some(0.0), Some(0.2))]);
    assert_eq!(candidates, vec![TopNVotingElt::new(1, 1)]);

    let candidates = v.winners(&vec![
        obs(1, Some(0.0), Some(0.2)),
        obs(1, Some(0.0), Some(0.3)),
    ]);
    assert_eq!(candidates, vec![TopNVotingElt::new(1, 2)]);

    let candidates = v.winners(&vec![
        obs(1, Some(0.0), Some(0.2)),
        obs(1, Some(0.0), Some(0.4)),
    ]);
    assert_eq!(candidates, vec![TopNVotingElt::new(1, 1)]);

    let candidates = by_track(v.winners(&vec![
        obs(1, Some(0.0), Some(0.2)),
        obs(2, Some(0.0), Some(0.2)),
    ]));
    assert_eq!(
        candidates,
        vec![TopNVotingElt::new(1, 1), TopNVotingElt::new(2, 1)]
    );

    let candidates = by_track(v.winners(&vec![
        obs(1, Some(0.0), Some(0.2)),
        obs(1, Some(0.0), Some(0.22)),
        obs(2, Some(0.0), Some(0.21)),
        obs(2, Some(0.0), Some(0.2)),
        obs(3, Some(0.0), Some(0.22)),
        obs(3, Some(0.0), Some(0.2)),
        obs(4, Some(0.0), Some(0.23)),
        obs(4, Some(0.0), Some(0.3)),
        obs(5, Some(0.0), Some(0.24)),
        obs(5, Some(0.0), Some(0.3)),
        obs(6, Some(0.0), Some(0.25)),
        obs(6, Some(0.0), Some(0.5)),
    ]));
    assert_eq!(
        candidates,
        vec![
            TopNVotingElt::new(1, 2),
            TopNVotingElt::new(2, 2),
            TopNVotingElt::new(3, 2),
            TopNVotingElt::new(4, 2),
            TopNVotingElt::new(5, 2)
        ]
    );
}

#[test]
fn empty_input_gives_no_winners() {
    assert_eq!(engine(5, 0.32, 1).winners(&[]), vec![]);
    assert_eq!(engine(0, 1.0, 0).winners(&[]), vec![]);
    assert_eq!(engine(usize::MAX, f32::INFINITY, 0).winners(&[]), vec![]);
}

#[test]
fn absent_feature_distance_casts_no_vote() {
    let v = engine(5, 0.32, 1);
    let r = v.winners(&[
        obs(1, Some(0.0), None),
        obs(1, Some(0.1), Some(0.1)),
        obs(2, Some(0.0), None),
    ]);
    assert_eq!(r, vec![TopNVotingElt::new(1, 1)]);
}

#[test]
fn distance_equal_to_limit_votes() {
    let v = engine(5, 0.32, 1);
    let r = v.winners(&[obs(7, None, Some(0.32))]);
    assert_eq!(r, vec![TopNVotingElt::new(7, 1)]);
    let r = v.winners(&[obs(7, None, Some(0.320_001))]);
    assert_eq!(r, vec![]);
}

#[test]
fn nan_distances_are_excluded() {
    let v = engine(5, 0.32, 1);
    assert_eq!(v.winners(&[obs(1, None, Some(f32::NAN))]), vec![]);
    let nan_limit = engine(5, f32::NAN, 0);
    assert_eq!(nan_limit.winners(&[obs(1, None, Some(0.0))]), vec![]);
}

#[test]
fn negative_limit_excludes_positive_distances() {
    let v = engine(5, -0.1, 1);
    assert_eq!(v.winners(&[obs(1, None, Some(0.0)), obs(2, None, Some(0.05))]), vec![]);
    assert_eq!(
        v.winners(&[obs(3, None, Some(-0.5))]),
        vec![TopNVotingElt::new(3, 1)]
    );
}

#[test]
fn negative_zero_equals_zero() {
    let v = engine(5, 0.0, 1);
    assert_eq!(
        v.winners(&[obs(1, None, Some(-0.0))]),
        vec![TopNVotingElt::new(1, 1)]
    );
    let v = engine(5, -0.0, 1);
    assert_eq!(
        v.winners(&[obs(2, None, Some(0.0))]),
        vec![TopNVotingElt::new(2, 1)]
    );
}

#[test]
fn min_votes_threshold_is_inclusive() {
    let v = engine(5, 1.0, 2);
    let r = v.winners(&[
        obs(1, None, Some(0.1)),
        obs(1, None, Some(0.2)),
        obs(2, None, Some(0.1)),
        obs(3, None, Some(0.1)),
        obs(3, None, Some(0.1)),
        obs(3, None, Some(0.1)),
    ]);
    assert_eq!(r, vec![TopNVotingElt::new(3, 3), TopNVotingElt::new(1, 2)]);
}

#[test]
fn zero_min_votes_needs_a_vote() {
    let v = engine(5, 0.5, 0);
    let r = v.winners(&[obs(1, None, Some(0.9)), obs(2, None, Some(0.1))]);
    assert_eq!(r, vec![TopNVotingElt::new(2, 1)]);
}

#[test]
fn topn_keeps_the_most_voted_in_order() {
    let v = engine(2, 1.0, 1);
    let r = v.winners(&[
        obs(1, None, Some(0.1)),
        obs(2, None, Some(0.1)),
        obs(2, None, Some(0.1)),
        obs(3, None, Some(0.1)),
        obs(3, None, Some(0.1)),
        obs(3, None, Some(0.1)),
        obs(4, None, Some(0.1)),
    ]);
    assert_eq!(r, vec![TopNVotingElt::new(3, 3), TopNVotingElt::new(2, 2)]);
    assert!(engine(0, 1.0, 1).winners(&[obs(1, None, Some(0.1))]).is_empty());
}

#[test]
fn winners_are_sorted_and_bounded() {
    let v = engine(4, 0.5, 1);
    let mut input = Vec::new();
    for id in 0..10u64 {
        for k in 0..(id % 4 + 1) {
            input.push(obs(id, None, Some(0.1 * k as f32)));
        }
    }
    let r = v.winners(&input);
    assert!(r.len() <= 4);
    for w in r.windows(2) {
        assert!(w[0].votes >= w[1].votes);
    }
    let votes: Vec<usize> = r.iter().map(|e| e.votes).collect();
    assert_eq!(votes, vec![4, 4, 3, 3]);
}

#[test]
fn repeated_calls_agree_up_to_ties() {
    let v = engine(3, 0.5, 1);
    let input = vec![
        obs(1, None, Some(0.1)),
        obs(2, None, Some(0.1)),
        obs(2, None, Some(0.2)),
        obs(3, None, Some(0.3)),
        obs(4, None, Some(0.4)),
    ];
    let a = v.winners(&input);
    let b = v.winners(&input);
    assert_eq!(a.len(), b.len());
    for (x, y) in a.iter().zip(b.iter()) {
        assert_eq!(x.votes, y.votes);
    }
    assert_eq!(a[0], TopNVotingElt::new(2, 2));
    assert_eq!(b[0], TopNVotingElt::new(2, 2));
}

#[test]
fn voting_trait_gives_the_same_winners() {
    let v = engine(5, 0.32, 1);
    let input = [obs(1, None, Some(0.2)), obs(1, None, Some(0.3))];
    let r = <TopNVoting as Voting<TopNVotingElt>>::winners(&v, &input);
    assert_eq!(r, vec![TopNVotingElt::new(1, 2)]);
}

#[test]
fn rank_counts_orders_and_filters_a_table() {
    let v = engine(2, 0.0, 2);
    let r = v.rank_counts(&vec![(10, 1), (11, 5), (12, 0), (13, 2), (14, 3)]);
    assert_eq!(r, vec![TopNVotingElt::new(11, 5), TopNVotingElt::new(14, 3)]);
    let all = engine(9, 0.0, 0).rank_counts(&vec![(10, 1), (12, 0), (13, 2)]);
    assert_eq!(all, vec![TopNVotingElt::new(13, 2), TopNVotingElt::new(10, 1)]);
}

#[test]
fn bit_pattern_order_matches_f32() {
    let values = [
        f32::NEG_INFINITY,
        -2.5,
        -0.0,
        0.0,
        1e-40,
        0.32,
        1.0,
        f32::MAX,
        f32::INFINITY,
        f32::NAN,
    ];
    for a in values {
        for b in values {
            assert_eq!(f32_bits_le(a.to_bits(), b.to_bits()), a <= b, "{} <= {}", a, b);
        }
        assert_eq!(is_nan_bits(a.to_bits()), a.is_nan());
    }
    assert!(f32_bits_le(0x8000_0000, 0));
    assert!(!f32_bits_le(0x7fc0_0000, 0x7fc0_0000));
}

#[test]
fn elt_new_keeps_fields() {
    let e = TopNVotingElt::new(42, 7);
    assert_eq!(e.track_id, 42);
    assert_eq!(e.votes, 7);
    assert_eq!(TopNVotingElt::default(), TopNVotingElt::new(0, 0));
}
