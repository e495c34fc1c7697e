use std::collections::BTreeMap;
use numass::acquisition::{
    event_time_ns, events_to_point, scaled_frame_bytes, try_events_to_point, AdcBlock, AdcEvent,
    POINT_START_OFFSET_NS,
};
use numass::board::{handle_ctrl_request, CtrlError, CtrlReg};

fn block(ch_num: u8, waveform: Vec<i16>) -> AdcBlock {
    AdcBlock { ch_num, waveform }
}

#[test]
fn event_time_counts_quarter_nanoseconds() {
    assert_eq!(event_time_ns(1, 400), 1_000_000_100);
    assert_eq!(event_time_ns(0, 7), 1);
    assert_eq!(event_time_ns(u64::MAX, u64::MAX), (u64::MAX as u128) * 1_000_000_000 + (u64::MAX as u128) / 4);
}

#[test]
fn samples_are_quartered_toward_zero() {
    assert_eq!(scaled_frame_bytes(&[8, -9, 3, -3, i16::MIN]), vec![2, 0, 0xfe, 0xff, 0, 0, 0, 0, 0x00, 0xe0]);
    assert!(scaled_frame_bytes(&[]).is_empty());
}

#[test]
fn point_of_events_gathers_kept_blocks_per_channel() {
    let events = vec![
        AdcEvent { tai_sec: 1, tai_nano_sec: 400, adc_blocks: vec![block(2, vec![8, -9, 3]), block(0, vec![4])] },
        AdcEvent { tai_sec: 1, tai_nano_sec: 4000, adc_blocks: vec![block(2, vec![-4]), block(0, vec![100])] },
    ];
    let keep = vec![vec![true, true], vec![false, true]];
    let point = events_to_point(&events, &keep);
    let begin = 1_000_000_100u128 - POINT_START_OFFSET_NS;
    assert_eq!(point.channels.len(), 2);

    let ch0 = &point.channels[0];
    assert_eq!(ch0.id, 0);
    assert_eq!(ch0.blocks.len(), 1);
    assert_eq!(ch0.blocks[0].time, begin as u64);
    assert_eq!(ch0.blocks[0].length, 0);
    assert_eq!(ch0.blocks[0].bin_size, 8);
    let frames0: Vec<(u64, Vec<u8>)> = ch0.blocks[0].frames.iter().map(|f| (f.time, f.data.clone())).collect();
    assert_eq!(frames0, vec![(1_000_000, vec![1, 0]), (1_000_900, vec![25, 0])]);

    let ch2 = &point.channels[1];
    assert_eq!(ch2.id, 2);
    let frames2: Vec<(u64, Vec<u8>)> = ch2.blocks[0].frames.iter().map(|f| (f.time, f.data.clone())).collect();
    assert_eq!(frames2, vec![(1_000_000, vec![2, 0, 0xfe, 0xff, 0, 0])]);
}

#[test]
fn nothing_kept_gives_an_empty_point() {
    let events = vec![AdcEvent { tai_sec: 3, tai_nano_sec: 0, adc_blocks: vec![block(1, vec![1, 2])] }];
    assert!(events_to_point(&events, &[vec![false]]).channels.is_empty());
    assert!(events_to_point(&[], &[]).channels.is_empty());
}

#[test]
fn control_requests_read_and_write_registers() {
    let mut regs16 = BTreeMap::from([(0x10u16, 5u16)]);
    let mut regs32 = BTreeMap::new();
    let request = [
        CtrlReg::Read16 { address: 0x10, value: 0 },
        CtrlReg::Write16 { address: 0x20, value: 7 },
        CtrlReg::Write32 { address: 0x30, value: 99 },
        CtrlReg::Read16 { address: 0x20, value: 0 },
    ];
    let answer = handle_ctrl_request(&mut regs16, &mut regs32, &request, 0x20, 7).unwrap();
    assert_eq!(
        answer.acks,
        vec![
            CtrlReg::Read16 { address: 0x10, value: 5 },
            CtrlReg::Write16 { address: 0x20, value: 7 },
            CtrlReg::Write32 { address: 0x30, value: 99 },
            CtrlReg::Read16 { address: 0x20, value: 7 },
        ]
    );
    assert_eq!(answer.runs, 1);
    assert_eq!(regs16[&0x20], 7);
    assert_eq!(regs32[&0x30], 99);

    let quiet = handle_ctrl_request(&mut regs16, &mut regs32, &[CtrlReg::Write16 { address: 0x20, value: 6 }], 0x20, 7)
        .unwrap();
    assert_eq!(quiet.runs, 0);
    assert_eq!(regs16[&0x20], 6);
}

#[test]
fn every_run_write_is_signalled() {
    let mut regs16 = BTreeMap::new();
    let mut regs32 = BTreeMap::new();
    let run = CtrlReg::Write16 { address: 0x20, value: 7 };
    let request = [run, CtrlReg::Write16 { address: 0x21, value: 7 }, run];
    let answer = handle_ctrl_request(&mut regs16, &mut regs32, &request, 0x20, 7).unwrap();
    assert_eq!(answer.runs, 2);
    assert_eq!(answer.acks.len(), 3);
}

#[test]
fn failed_requests_keep_earlier_writes() {
    let mut regs16 = BTreeMap::new();
    let mut regs32 = BTreeMap::new();
    let request = [
        CtrlReg::Write16 { address: 1, value: 2 },
        CtrlReg::Read16 { address: 0x99, value: 0 },
        CtrlReg::Write16 { address: 3, value: 4 },
    ];
    let r = handle_ctrl_request(&mut regs16, &mut regs32, &request, 0, 0);
    assert!(matches!(r, Err(CtrlError::UnknownRegister(0x99))));
    assert_eq!(regs16.get(&1), Some(&2));
    assert_eq!(regs16.get(&3), None);

    let read32 = CtrlReg::Read32 { address: 5, value: 0 };
    let r = handle_ctrl_request(&mut regs16, &mut regs32, &[read32], 0, 0);
    assert!(matches!(r, Err(CtrlError::Unsupported(reg)) if reg == read32));
}

#[test]
fn points_need_the_start_offset_before_the_first_kept_block() {
    let early = vec![AdcEvent { tai_sec: 0, tai_nano_sec: 400, adc_blocks: vec![block(1, vec![4])] }];
    assert!(try_events_to_point(&early, &[vec![true]]).is_none());
    assert!(try_events_to_point(&early, &[vec![false]]).unwrap().channels.is_empty());
    let late = vec![AdcEvent { tai_sec: 0, tai_nano_sec: 4_000_000, adc_blocks: vec![block(1, vec![4])] }];
    let point = try_events_to_point(&late, &[vec![true]]).unwrap();
    assert_eq!(point.channels[0].blocks[0].time, 0);
    assert_eq!(point.channels[0].blocks[0].frames[0].time, 1_000_000);
}

#[test]
fn built_frames_decode_to_quartered_samples() {
    let events = vec![AdcEvent {
        tai_sec: 3,
        tai_nano_sec: 0,
        adc_blocks: vec![block(0, vec![7, -7, 400, -401, i16::MAX]), block(5, vec![-1, 1])],
    }];
    let point = events_to_point(&events, &[vec![true, true]]);
    let w0 = numass::point::frame_to_waveform(&point.channels[0].blocks[0].frames[0]);
    assert_eq!(w0, vec![1, -1, 100, -100, 8191]);
    let w5 = numass::point::frame_to_waveform(&point.channels[1].blocks[0].frames[0]);
    assert_eq!(w5, vec![0, 0]);
}

#[test]
fn suppression_drops_whole_frames() {
    let events = vec![
        AdcEvent { tai_sec: 1, tai_nano_sec: 0, adc_blocks: vec![block(2, vec![4]), block(3, vec![8])] },
        AdcEvent { tai_sec: 1, tai_nano_sec: 40, adc_blocks: vec![block(2, vec![12]), block(3, vec![16])] },
        AdcEvent { tai_sec: 1, tai_nano_sec: 80, adc_blocks: vec![block(2, vec![20])] },
    ];
    let all = events_to_point(&events, &[vec![true, true], vec![true, true], vec![true]]);
    let some = events_to_point(&events, &[vec![false, true], vec![true, false], vec![true]]);
    let datas = |p: &numass::point::Point, k: usize| -> Vec<Vec<u8>> {
        p.channels[k].blocks[0].frames.iter().map(|f| f.data.clone()).collect()
    };
    assert_eq!(datas(&all, 0), vec![vec![1, 0], vec![3, 0], vec![5, 0]]);
    assert_eq!(datas(&some, 0), vec![vec![3, 0], vec![5, 0]]);
    assert_eq!(datas(&all, 1), vec![vec![2, 0], vec![4, 0]]);
    assert_eq!(datas(&some, 1), vec![vec![2, 0]]);
}
