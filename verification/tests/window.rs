use whisper_stream::window::AudioWindower;

fn all_windows(len: usize, sample_rate: usize, window_len: usize) -> Vec<Vec<usize>> {
    let waveform: Vec<usize> = (0..len).collect();
    let mut windows = AudioWindower::new(waveform, sample_rate, window_len);
    let mut out = Vec::new();
    while let Some(window) = windows.next_window() {
        out.push(window);
    }
    assert_eq!(windows.remaining(), 0);
    assert!(windows.next_window().is_none());
    out
}

#[test]
fn windows_begin_a_shift_apart_and_the_last_is_clipped() {
    // Overlap 3, shift 10 - 3 = 7, ceil(20 / 7) = 3 windows.
    let windows = all_windows(20, 1, 10);
    assert_eq!(windows.len(), 3);
    assert_eq!(windows[0], (0..10).collect::<Vec<usize>>());
    assert_eq!(windows[1], (7..17).collect::<Vec<usize>>());
    assert_eq!(windows[2], (14..20).collect::<Vec<usize>>());
}

#[test]
fn full_windows_share_the_overlap_with_the_next() {
    let windows = all_windows(20, 1, 10);
    assert_eq!(windows[0][7..], windows[1][..3]);
    assert_eq!(windows[1][7..], windows[2][..3]);
}

#[test]
fn every_sample_is_covered_and_the_last_window_ends_at_the_end() {
    for len in 1..40usize {
        for window_len in 1..12usize {
            let windows = all_windows(len, 1, window_len);
            let shift = if window_len > 3 { window_len - 3 } else { 1 };
            assert_eq!(windows.len(), (len + shift - 1) / shift);
            let mut covered = vec![false; len];
            for window in &windows {
                for &sample in window {
                    covered[sample] = true;
                }
            }
            assert!(covered.iter().all(|&c| c));
            assert_eq!(*windows.last().unwrap().last().unwrap(), len - 1);
        }
    }
}

#[test]
fn a_window_no_longer_than_the_overlap_shifts_by_one() {
    // Window 2, overlap 3: shift 1, one window for every sample.
    let windows = all_windows(4, 1, 2);
    assert_eq!(windows, vec![vec![0, 1], vec![1, 2], vec![2, 3], vec![3]]);
}

#[test]
fn a_waveform_without_samples_has_no_window() {
    assert!(all_windows(0, 16000, 1000).is_empty());
}

#[test]
fn the_count_is_known_before_any_window_is_taken() {
    let waveform: Vec<u8> = vec![0; 100];
    let mut windows = AudioWindower::new(waveform, 10, 50);
    // Overlap 30, shift 20, ceil(100 / 20) = 5.
    assert_eq!(windows.count(), 5);
    assert_eq!(windows.remaining(), 5);
    assert_eq!(windows.next_window().unwrap().len(), 50);
    assert_eq!(windows.remaining(), 4);
}

#[test]
fn a_sample_rate_beyond_the_machine_word_shifts_by_one() {
    let waveform: Vec<u8> = vec![0; 3];
    let mut windows = AudioWindower::new(waveform, usize::MAX, 2);
    assert_eq!(windows.count(), 3);
    assert_eq!(windows.next_window().unwrap().len(), 2);
}
