use numass::acquisition::{AdcBlock, AdcEvent};
use numass::numass::{ErrorType, ReplyStatus};
use numass::server::{
    acquisition_point, acquisition_reply, server_action, AcquisitionError, Reply, Request, ServerAction,
};

#[test]
fn commands_are_answered() {
    assert_eq!(
        server_action(Request::Init),
        ServerAction::Answer(Reply::Init { status: ReplyStatus::Success, reseted: false })
    );
    assert_eq!(server_action(Request::AcquirePoint), ServerAction::Acquire);
    assert_eq!(
        server_action(Request::Other),
        ServerAction::Answer(Reply::Error { error_code: ErrorType::UnknownMessageError })
    );
    assert_eq!(acquisition_reply(true), Reply::AcquirePoint { status: ReplyStatus::Success });
    assert_eq!(acquisition_reply(false), Reply::Error { error_code: ErrorType::AlgoritmError });
}

#[test]
fn an_empty_run_gives_no_point() {
    assert!(matches!(acquisition_point(&[], &[]), Err(AcquisitionError::NoFrames)));
    let events = vec![AdcEvent {
        tai_sec: 2,
        tai_nano_sec: 0,
        adc_blocks: vec![AdcBlock { ch_num: 3, waveform: vec![40, -40] }],
    }];
    let point = acquisition_point(&events, &[vec![true]]).unwrap();
    assert_eq!(point.channels.len(), 1);
    assert_eq!(point.channels[0].id, 3);
    assert_eq!(point.channels[0].blocks[0].time, 1_999_000_000);
    assert_eq!(point.channels[0].blocks[0].frames[0].time, 1_000_000);
    assert_eq!(point.channels[0].blocks[0].frames[0].data, vec![10, 0, 0xf6, 0xff]);
    let suppressed = acquisition_point(&events, &[vec![false]]).unwrap();
    assert!(suppressed.channels.is_empty());
}
