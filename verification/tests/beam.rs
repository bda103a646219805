use whisper_stream::beam::beam_search;
use whisper_stream::beam::beam_search_step;
use whisper_stream::beam::select_beams;
use whisper_stream::beam::BeamNode;
use whisper_stream::score::NEG_INFINITY;

fn node(seq: &[usize], log_prob: i64) -> BeamNode<usize> {
    BeamNode { seq: seq.to_vec(), log_prob }
}

fn pairs(beams: &[BeamNode<usize>]) -> Vec<(Vec<usize>, i64)> {
    beams.iter().map(|b| (b.seq.clone(), b.log_prob)).collect()
}

const END: usize = 9;

fn ends(tokens: &[usize]) -> bool {
    tokens.last() == Some(&END)
}

#[test]
fn children_add_the_incremental_score() {
    let active = [node(&[1], -10)];
    let offered = [vec![(2usize, -1i64), (3, -5)]];
    let kept = select_beams(&[], &active, &offered, 5);
    assert_eq!(pairs(&kept), vec![(vec![1, 2], -11), (vec![1, 3], -15)]);
}

#[test]
fn the_best_are_kept_in_descending_order() {
    let active = [node(&[1], 0), node(&[2], -3)];
    let offered = [vec![(4usize, -4i64), (5, -1)], vec![(6, 0), (7, -9)]];
    let kept = select_beams(&[], &active, &offered, 3);
    assert_eq!(pairs(&kept), vec![(vec![1, 5], -1), (vec![2, 6], -3), (vec![1, 4], -4)]);
}

#[test]
fn a_tie_goes_to_the_earlier_candidate() {
    let frozen = [node(&[8, END], -2)];
    let active = [node(&[1], 0), node(&[2], 0)];
    let offered = [vec![(3usize, -2i64), (4, -2)], vec![(5, -2)]];
    // Five candidates score -2: the finished beam first, then the children
    // in the order in which they were offered.
    let kept = select_beams(&frozen, &active, &offered, 3);
    assert_eq!(pairs(&kept), vec![(vec![8, END], -2), (vec![1, 3], -2), (vec![1, 4], -2)]);
    let kept = select_beams(&frozen, &active, &offered, 1);
    assert_eq!(pairs(&kept), vec![(vec![8, END], -2)]);
}

#[test]
fn a_width_of_zero_keeps_nothing() {
    let active = [node(&[1], 0)];
    let offered = [vec![(2usize, -1i64)]];
    assert!(select_beams(&[], &active, &offered, 0).is_empty());
}

#[test]
fn a_beam_without_a_list_has_no_children() {
    let active = [node(&[1], 0), node(&[2], 0)];
    let offered = [vec![(3usize, -1i64)]];
    let kept = select_beams(&[], &active, &offered, 5);
    assert_eq!(pairs(&kept), vec![(vec![1, 3], -1)]);
}

#[test]
fn negative_infinity_stays_negative_infinity() {
    let active = [node(&[1], NEG_INFINITY)];
    let offered = [vec![(2usize, 100i64)]];
    let kept = select_beams(&[], &active, &offered, 5);
    assert_eq!(pairs(&kept), vec![(vec![1, 2], NEG_INFINITY)]);
}

#[test]
fn a_step_freezes_finished_beams_and_batches_the_rest() {
    let beams = [node(&[1, END], -5), node(&[2], -1), node(&[3], -2)];
    let calls = std::cell::Cell::new(0usize);
    let next = |active: &[BeamNode<usize>]| -> Result<Vec<Vec<(usize, i64)>>, ()> {
        calls.set(calls.get() + 1);
        // The finished beam is not handed over.
        assert_eq!(pairs(active), vec![(vec![2], -1), (vec![3], -2)]);
        Ok(active.iter().map(|_| vec![(4usize, -1i64), (END, -10)]).collect())
    };
    let kept = beam_search_step(&beams, &next, &ends, 3).unwrap();
    assert_eq!(calls.get(), 1);
    assert_eq!(pairs(&kept), vec![(vec![2, 4], -2), (vec![3, 4], -3), (vec![1, END], -5)]);
}

#[test]
fn a_step_over_finished_beams_does_not_call_the_step_function() {
    let beams = [node(&[1, END], -5), node(&[2, END], -1)];
    let next = |_: &[BeamNode<usize>]| -> Result<Vec<Vec<(usize, i64)>>, ()> { panic!("called") };
    let kept = beam_search_step(&beams, &next, &ends, 5).unwrap();
    assert_eq!(pairs(&kept), vec![(vec![2, END], -1), (vec![1, END], -5)]);
}

/// Offers the tokens 1, 2 and the end token, scored by a table indexed by
/// the length of the sequence.
fn table_next(beams: &[BeamNode<usize>]) -> Result<Vec<Vec<(usize, i64)>>, String> {
    let table: [[i64; 3]; 4] = [[-1, -2, -50], [-7, -3, -50], [-4, -4, -1], [-9, -9, 0]];
    Ok(beams
        .iter()
        .map(|b| {
            let row = table[b.seq.len().min(3)];
            vec![(1usize, row[0]), (2, row[1]), (END, row[2])]
        })
        .collect())
}

#[test]
fn with_a_width_of_one_the_search_is_greedy() {
    // Greedy: 1 (-1), then 2 (-3), then the end token (-1).
    let found = beam_search(vec![node(&[], 0)], table_next, ends, 1, 10).unwrap();
    assert_eq!(found, vec![1, 2, END]);
}

#[test]
fn a_wider_search_returns_the_best_of_the_last_frontier() {
    let found = beam_search(vec![node(&[], 0)], table_next, ends, 3, 10).unwrap();
    assert_eq!(found, vec![1, 2, END]);
}

#[test]
fn an_unfinished_beam_wins_when_the_depth_runs_out() {
    let found = beam_search(vec![node(&[], 0)], table_next, ends, 1, 2).unwrap();
    assert_eq!(found, vec![1, 2]);
}

#[test]
fn no_depth_returns_the_best_initial_beam() {
    let initial = vec![node(&[4], -3), node(&[5], -1), node(&[6], -1)];
    let found = beam_search(initial, table_next, ends, 5, 0).unwrap();
    assert_eq!(found, vec![5]);
}

#[test]
fn an_empty_frontier_gives_an_empty_sequence() {
    let found = beam_search(Vec::new(), table_next, ends, 5, 10).unwrap();
    assert!(found.is_empty());
    let found = beam_search(vec![node(&[1], 0)], table_next, ends, 0, 10).unwrap();
    assert!(found.is_empty());
}

#[test]
fn a_failure_of_the_step_function_ends_the_search() {
    let next = |beams: &[BeamNode<usize>]| -> Result<Vec<Vec<(usize, i64)>>, String> {
        if beams[0].seq.len() >= 2 {
            Err("model".to_string())
        } else {
            table_next(beams)
        }
    };
    let r = beam_search(vec![node(&[], 0)], next, ends, 2, 10);
    assert_eq!(r, Err("model".to_string()));
}

#[test]
fn scores_never_rise_along_the_search() {
    let mut frontier = vec![node(&[], 0)];
    let mut best = 0i64;
    for _ in 0..4 {
        frontier = beam_search_step(&frontier, &table_next, &ends, 3).unwrap();
        assert!(frontier.len() <= 3);
        for pair in frontier.windows(2) {
            assert!(pair[0].log_prob >= pair[1].log_prob);
        }
        assert!(frontier[0].log_prob <= best);
        best = frontier[0].log_prob;
    }
}

#[test]
fn the_search_stops_when_every_beam_is_finished() {
    let calls = std::cell::Cell::new(0usize);
    let next = |beams: &[BeamNode<usize>]| -> Result<Vec<Vec<(usize, i64)>>, ()> {
        calls.set(calls.get() + 1);
        Ok(beams.iter().map(|_| vec![(END, 0i64)]).collect())
    };
    let found = beam_search(vec![node(&[3], 0)], next, ends, 4, 30).unwrap();
    assert_eq!(found, vec![3, END]);
    assert_eq!(calls.get(), 1);
}

#[test]
fn the_tokens_may_be_of_any_copyable_type() {
    let initial = vec![BeamNode { seq: vec!['a'], log_prob: 0 }];
    let next = |beams: &[BeamNode<char>]| -> Result<Vec<Vec<(char, i64)>>, ()> {
        Ok(beams.iter().map(|_| vec![('x', -3), ('y', -1), ('.', -2)]).collect())
    };
    let is_finished = |seq: &[char]| seq.last() == Some(&'.');
    assert_eq!(beam_search(initial, next, is_finished, 2, 3), Ok(vec!['a', '.']));
}

#[test]
fn greedy_decoding_passes_over_tokens_that_are_ruled_out() {
    // The first and the last offer are ruled out; of the others the best
    // comes first at every step.
    let next = |beams: &[BeamNode<usize>]| -> Result<Vec<Vec<(usize, i64)>>, ()> {
        Ok(beams
            .iter()
            .map(|b| {
                if b.seq.len() < 2 {
                    vec![(1, NEG_INFINITY), (2, -5), (3, -4), (END, NEG_INFINITY)]
                } else {
                    vec![(1, NEG_INFINITY), (2, -5), (3, -6), (END, -1)]
                }
            })
            .collect())
    };
    let found = beam_search(vec![node(&[], 0)], next, ends, 1, 10).unwrap();
    assert_eq!(found, vec![3, 3, END]);
}

#[test]
fn a_search_over_finished_beams_cannot_fail() {
    let next = |_: &[BeamNode<usize>]| -> Result<Vec<Vec<(usize, i64)>>, String> {
        Err("the step function was called".to_string())
    };
    let initial = vec![node(&[1, END], -4), node(&[2, END], -2), node(&[END], -2)];
    assert_eq!(beam_search(initial, next, ends, 2, 10), Ok(vec![2, END]));
    let frontier = [node(&[1, END], -4), node(&[2, END], -2)];
    let kept = beam_search_step(&frontier, &next, &ends, 5).unwrap();
    assert_eq!(pairs(&kept), vec![(vec![2, END], -2), (vec![1, END], -4)]);
}

#[test]
fn a_failure_comes_from_the_unfinished_beams() {
    let next = |beams: &[BeamNode<usize>]| -> Result<Vec<Vec<(usize, i64)>>, usize> {
        Err(beams.len())
    };
    let initial = vec![node(&[1, END], -4), node(&[2], -2), node(&[3], -1)];
    assert_eq!(beam_search(initial, next, ends, 2, 10), Err(2));
}

#[test]
fn greedy_decoding_does_not_mind_sums_that_leave_the_range() {
    let next = |beams: &[BeamNode<usize>]| -> Result<Vec<Vec<(usize, i64)>>, ()> {
        Ok(beams
            .iter()
            .map(|b| {
                let end = if b.seq.is_empty() { -8 } else { -6 };
                vec![(1, i64::MIN + 3), (2, -7), (END, end), (3, i64::MIN + 1)]
            })
            .collect())
    };
    let found = beam_search(vec![node(&[], -10)], next, ends, 1, 5).unwrap();
    assert_eq!(found, vec![2, END]);
}
