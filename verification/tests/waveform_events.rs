use numass::events::{
    argmax, find_reset, range_sums_fit, sum_range, try_waveform_event, waveform_event, Algorithm,
    WaveformEvent, WindowSum,
};
use numass::point::{bytes_to_waveform, frame_to_waveform, waveform_to_bytes, Frame};

#[test]
fn frame_samples_are_little_endian_signed() {
    let frame = Frame { time: 10, data: vec![0x01, 0x00, 0xff, 0xff, 0x00, 0x80, 0xff, 0x7f, 0x05] };
    assert_eq!(frame_to_waveform(&frame), vec![1, -1, i16::MIN, i16::MAX]);
    assert_eq!(bytes_to_waveform(&[]), Vec::<i16>::new());
    assert_eq!(bytes_to_waveform(&[7]), Vec::<i16>::new());
}

#[test]
fn waveform_bytes_roundtrip() {
    let w = vec![0i16, 1, -1, 300, -300, i16::MIN, i16::MAX];
    let bytes = waveform_to_bytes(&w);
    assert_eq!(bytes.len(), 14);
    assert_eq!(&bytes[..6], &[0, 0, 1, 0, 0xff, 0xff]);
    assert_eq!(bytes_to_waveform(&bytes), w);
    let mut expected = Vec::new();
    for s in &w {
        expected.extend_from_slice(&s.to_le_bytes());
    }
    assert_eq!(bytes, expected);
}

#[test]
fn argmax_takes_the_last_of_equal_peaks() {
    assert_eq!(argmax(&[1, 5, 3, 5, 2]), 3);
    assert_eq!(argmax(&[-4]), 0);
    assert_eq!(argmax(&[2, 1, 0]), 0);
}

#[test]
fn sums_over_ranges() {
    assert_eq!(sum_range(&[1, 2, 3, 4], 1, 3), 5);
    assert_eq!(sum_range(&[1, 2, 3, 4], 2, 2), 0);
    assert_eq!(sum_range(&[-7, 2], 0, 2), -5);
}

#[test]
fn max_event_of_a_pulse() {
    let mut w = vec![10i16; 20];
    w[17] = 110;
    let e = waveform_event(&w, &Algorithm::Max);
    assert_eq!(e, WaveformEvent { time: 136, peak: 110, baseline_sum: 160, window: None });
}

#[test]
fn likhovid_window_is_clipped_at_both_ends() {
    let w = vec![1i16, 2, 9, 3, 4];
    let e = waveform_event(&w, &Algorithm::Likhovid { left: 6, right: 36 });
    assert_eq!(e.time, 16);
    assert_eq!(e.peak, 9);
    assert_eq!(e.baseline_sum, 19);
    assert_eq!(e.window, Some(WindowSum { sum: 19, len: 5 }));
    let e = waveform_event(&w, &Algorithm::Likhovid { left: 1, right: 2 });
    assert_eq!(e.window, Some(WindowSum { sum: 14, len: 3 }));
}

#[test]
fn resets_are_found_by_their_jump() {
    let mut w = vec![0i16; 40];
    assert_eq!(find_reset(&w), None);
    w[35] = 5001;
    assert_eq!(find_reset(&w), Some(6));
    w[35] = 5000;
    assert_eq!(find_reset(&w), None);
    assert_eq!(find_reset(&[0i16, 9000, 0]), None);
    let mut w = vec![6000i16; 30];
    w[29] = 0;
    assert_eq!(find_reset(&w), Some(0));
}

#[test]
fn overflowing_sums_are_detected() {
    assert!(range_sums_fit(&[i16::MAX, -1, 1], 0, 3));
    assert!(!range_sums_fit(&[i16::MAX, 1, -1], 0, 3));
    assert!(range_sums_fit(&[i16::MAX, 1, -1], 1, 3));
    assert!(!range_sums_fit(&[i16::MIN, -1], 0, 2));
    assert!(range_sums_fit(&[], 0, 0));
}

#[test]
fn events_only_where_defined() {
    assert_eq!(try_waveform_event(&[], &Algorithm::Max), None);
    let mut w = vec![10i16; 20];
    w[17] = 110;
    assert_eq!(
        try_waveform_event(&w, &Algorithm::Max),
        Some(WaveformEvent { time: 136, peak: 110, baseline_sum: 160, window: None })
    );
    let loud = vec![5000i16; 16];
    assert_eq!(try_waveform_event(&loud, &Algorithm::Max), None);
    let mut w = vec![0i16; 20];
    w[18] = 20000;
    w[19] = 20000;
    assert_eq!(try_waveform_event(&w, &Algorithm::Max).map(|e| e.time), Some(152));
    assert_eq!(try_waveform_event(&w, &Algorithm::Likhovid { left: 2, right: 2 }), None);
    assert_eq!(
        try_waveform_event(&w, &Algorithm::Likhovid { left: 0, right: 1 }).and_then(|e| e.window),
        Some(WindowSum { sum: 20000, len: 1 })
    );
}
