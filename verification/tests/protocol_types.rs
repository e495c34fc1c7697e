use numass::numass::{copy_frame_channels, frames_for_subscriber, ErrorType, FrameChannel, WS};

#[test]
fn error_codes_roundtrip() {
    for code in 0u32..14 {
        let e = ErrorType::from_code(code).unwrap();
        assert_eq!(e.code(), code);
    }
    assert_eq!(ErrorType::from_code(14), None);
    assert_eq!(ErrorType::AlgoritmError.code(), 6);
    assert_eq!(ErrorType::from_code(13), Some(ErrorType::Agilent34401aError));
}

#[test]
fn subscribers_get_a_copy_of_the_frames() {
    let msg = WS::GraphFrame(vec![FrameChannel { id: 3, bins: vec![1, -2] }, FrameChannel { id: 0, bins: vec![] }]);
    let copy = frames_for_subscriber(&msg);
    assert_eq!(copy.len(), 2);
    assert_eq!((copy[0].id, copy[0].bins.clone()), (3, vec![1, -2]));
    assert_eq!((copy[1].id, copy[1].bins.len()), (0, 0));
    let again = copy_frame_channels(&copy);
    assert_eq!(again[0].bins, vec![1, -2]);
}
