use whisper_stream::score::score_add;
use whisper_stream::score::NEG_INFINITY;

#[test]
fn finite_scores_add() {
    assert_eq!(score_add(-3, -4), -7);
    assert_eq!(score_add(5, -4), 1);
    assert_eq!(score_add(0, 0), 0);
}

#[test]
fn negative_infinity_absorbs() {
    assert_eq!(score_add(NEG_INFINITY, 0), NEG_INFINITY);
    assert_eq!(score_add(NEG_INFINITY, 1_000), NEG_INFINITY);
    assert_eq!(score_add(17, NEG_INFINITY), NEG_INFINITY);
    assert_eq!(score_add(NEG_INFINITY, NEG_INFINITY), NEG_INFINITY);
}

#[test]
fn sums_stop_at_the_ends_of_the_range() {
    assert_eq!(score_add(i64::MIN + 1, -1), NEG_INFINITY);
    assert_eq!(score_add(i64::MIN + 5, -100), NEG_INFINITY);
    assert_eq!(score_add(i64::MAX, 1), i64::MAX);
    assert_eq!(score_add(i64::MAX - 1, 1), i64::MAX);
}

#[test]
fn adding_a_score_of_at_most_zero_never_raises() {
    for a in [NEG_INFINITY, i64::MIN + 1, -5, 0, 5, i64::MAX] {
        for d in [NEG_INFINITY, -9, -1, 0] {
            assert!(score_add(a, d) <= a);
        }
    }
}
