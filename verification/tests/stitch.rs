use whisper_stream::stitch::find_chunk_overlap;
use whisper_stream::stitch::stitch;

fn stitched(prev: &[usize], curr: &[usize], max_n_offsets: usize, min_n_overlaps: usize) -> Vec<usize> {
    let mut tokens = prev.to_vec();
    stitch(&mut tokens, curr, max_n_offsets, min_n_overlaps);
    tokens
}

#[test]
fn overlap_is_found_and_the_shared_tokens_appear_once() {
    let prev = vec![10usize, 11, 12, 13, 14];
    let curr = vec![12usize, 13, 14, 15, 16];
    assert_eq!(find_chunk_overlap(&prev, &curr, 40, 3), Some((2, 0)));
    assert_eq!(stitched(&prev, &curr, 40, 3), vec![10, 11, 12, 13, 14, 15, 16]);
}

#[test]
fn no_overlap_appends_in_full() {
    let prev = vec![1usize, 2, 3];
    let curr = vec![9usize, 8, 7];
    assert_eq!(find_chunk_overlap(&prev, &curr, 40, 3), None);
    assert_eq!(stitched(&prev, &curr, 40, 3), vec![1, 2, 3, 9, 8, 7]);
}

#[test]
fn overlap_below_the_threshold_is_none() {
    // The best offset has two agreeing positions, one short of three.
    let prev = vec![1usize, 2, 3, 4];
    let curr = vec![3usize, 4, 9, 9];
    assert_eq!(find_chunk_overlap(&prev, &curr, 40, 3), None);
    assert_eq!(stitched(&prev, &curr, 40, 3), vec![1, 2, 3, 4, 3, 4, 9, 9]);
    // With a threshold of two the same overlap is taken.
    assert_eq!(find_chunk_overlap(&prev, &curr, 40, 2), Some((2, 0)));
    assert_eq!(stitched(&prev, &curr, 40, 2), vec![1, 2, 3, 4, 9, 9]);
}

#[test]
fn the_first_offset_with_the_highest_count_wins() {
    // Offsets 2 and 5 both have three agreeing positions.
    let prev = vec![7usize, 8, 9, 7, 8, 9];
    let curr = vec![7usize, 8, 9, 0, 0, 0];
    assert_eq!(find_chunk_overlap(&prev, &curr, 40, 3), Some((3, 0)));
    assert_eq!(stitched(&prev, &curr, 40, 3), vec![7, 8, 9, 7, 8, 9, 0, 0, 0]);
}

#[test]
fn the_first_agreeing_position_names_the_cut() {
    // At offset 4 the positions 1, 2 and 3 agree, position 0 does not.
    let prev = vec![5usize, 1, 2, 3, 4, 6];
    let curr = vec![9usize, 2, 3, 4, 8, 8];
    assert_eq!(find_chunk_overlap(&prev, &curr, 40, 3), Some((2, 1)));
    assert_eq!(stitched(&prev, &curr, 40, 3), vec![5, 1, 2, 3, 4, 8, 8]);
}

#[test]
fn only_the_first_offsets_are_searched() {
    let prev = vec![10usize, 11, 12, 13, 14];
    let curr = vec![12usize, 13, 14, 15, 16];
    // The overlap lies at offset 2, the third offset.
    assert_eq!(find_chunk_overlap(&prev, &curr, 2, 3), None);
    assert_eq!(find_chunk_overlap(&prev, &curr, 3, 3), Some((2, 0)));
    assert_eq!(find_chunk_overlap(&prev, &curr, 0, 3), None);
}

#[test]
fn empty_sequences_do_not_overlap() {
    let some = vec![1usize, 2, 3];
    let none: Vec<usize> = Vec::new();
    assert_eq!(find_chunk_overlap(&none, &some, 40, 3), None);
    assert_eq!(find_chunk_overlap(&some, &none, 40, 3), None);
    assert_eq!(stitched(&none, &some, 40, 3), vec![1, 2, 3]);
    assert_eq!(stitched(&some, &none, 40, 3), vec![1, 2, 3]);
}

#[test]
fn a_threshold_of_zero_without_agreement_gives_the_pair_zero_zero() {
    let prev = vec![1usize, 2, 3];
    let curr = vec![9usize, 8, 7];
    assert_eq!(find_chunk_overlap(&prev, &curr, 40, 0), Some((0, 0)));
    assert_eq!(stitched(&prev, &curr, 40, 0), vec![9, 8, 7]);
}
