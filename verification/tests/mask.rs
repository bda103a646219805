use whisper_stream::mask::SpecialTokenMask;
use whisper_stream::mask::MASKED_LENGTH;
use whisper_stream::score::NEG_INFINITY;

#[test]
fn the_mask_blocks_the_special_tokens() {
    let mask = SpecialTokenMask::from_flags(&[false, true, false, true]);
    assert_eq!(mask.len(), 4);
    assert!(!mask.blocks(0));
    assert!(mask.blocks(1));
    assert!(!mask.blocks(2));
    assert!(mask.blocks(3));
}

#[test]
fn short_sequences_are_masked() {
    let mask = SpecialTokenMask::from_flags(&[false, true, false, true]);
    let scores = [10, 20, -30, 40];
    for seq_len in 0..=5usize {
        assert_eq!(mask.apply(&scores, seq_len), vec![10, NEG_INFINITY, -30, NEG_INFINITY]);
    }
}

#[test]
fn longer_sequences_are_not_masked() {
    let mask = SpecialTokenMask::from_flags(&[false, true, false, true]);
    let scores = [10, 20, -30, 40];
    assert_eq!(mask.apply(&scores, 6), vec![10, 20, -30, 40]);
    assert_eq!(mask.apply(&scores, 34), vec![10, 20, -30, 40]);
}

#[test]
fn the_mask_applies_up_to_five_tokens() {
    assert_eq!(MASKED_LENGTH, 5);
    assert!(SpecialTokenMask::applies(4));
    assert!(SpecialTokenMask::applies(5));
    assert!(!SpecialTokenMask::applies(6));
}

#[test]
fn an_empty_vocabulary_has_an_empty_mask() {
    let mask = SpecialTokenMask::from_flags(&[]);
    assert_eq!(mask.len(), 0);
    assert_eq!(mask.apply(&[], 1), Vec::<i64>::new());
}
