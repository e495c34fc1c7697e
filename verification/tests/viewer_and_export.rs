use numass::converter::{binary_record, export_order, output_path, text_header, text_row};
use numass::point::{Block, Channel, Frame, Point};
use numass::viewer::{modified_since, process_decision, set_merge, ProcessDecision};

#[test]
fn files_to_process() {
    assert_eq!(process_decision(false, true, None), ProcessDecision::Skip);
    assert_eq!(process_decision(true, true, Some(5)), ProcessDecision::Process);
    assert_eq!(process_decision(true, false, None), ProcessDecision::Process);
    assert_eq!(process_decision(true, false, Some(5)), ProcessDecision::CheckModified(5));
    assert!(modified_since(5, 6));
    assert!(!modified_since(5, 5));
}

#[test]
fn merge_checkboxes_stay_one_way() {
    let mut m = [[false; 7]; 7];
    set_merge(&mut m, 1, 2, true);
    assert!(m[1][2]);
    set_merge(&mut m, 2, 1, true);
    assert!(m[2][1]);
    assert!(!m[1][2]);
    set_merge(&mut m, 2, 1, false);
    assert!(!m[2][1]);
    set_merge(&mut m, 3, 3, true);
    assert!(!m[3][3]);
}

#[test]
fn output_path_defaults_to_the_format_suffix() {
    assert_eq!(output_path("data/p1", None, true), "data/p1.tsv");
    assert_eq!(output_path("data/p1", None, false), "data/p1.bin");
    assert_eq!(output_path("data/p1", Some("out.x"), true), "out.x");
}

#[test]
fn binary_records_are_little_endian() {
    assert_eq!(binary_record(0x0102, 3, &[9, 8]), vec![2, 1, 0, 0, 0, 0, 0, 0, 3, 9, 8]);
    assert_eq!(binary_record(u64::MAX, 0, &[]), vec![255, 255, 255, 255, 255, 255, 255, 255, 0]);
}

#[test]
fn text_rows_and_header() {
    assert_eq!(text_row(12, 3, &[-5, 0, 17]), b"12\t3\t-5\t0\t17\t\n".to_vec());
    assert_eq!(text_row(0, 255, &[i16::MIN]), b"0\t255\t-32768\t\n".to_vec());
    let mut expected = String::from("time\tchannel\t");
    for idx in 0..75 {
        expected.push_str(&format!("{idx}\t"));
    }
    expected.push('\n');
    assert_eq!(text_header(), expected.into_bytes());
}

#[test]
fn export_orders_by_time_then_channel_byte() {
    let frame = |time: u64, b: u8| Frame { time, data: vec![b, 0] };
    let point = Point {
        channels: vec![
            Channel { id: 258, blocks: vec![Block { time: 0, length: 0, bin_size: 8, frames: vec![frame(7, 1)] }] },
            Channel { id: 1, blocks: vec![Block { time: 0, length: 0, bin_size: 8, frames: vec![frame(3, 2), frame(7, 3)] }] },
            Channel { id: 0, blocks: vec![Block { time: 0, length: 0, bin_size: 8, frames: vec![frame(7, 4)] }] },
        ],
    };
    let (frames, order) = export_order(&point);
    assert_eq!(frames.len(), 4);
    let rows: Vec<(u64, usize, u8)> = order
        .iter()
        .flat_map(|(t, chans)| chans.iter().map(move |(c, pos)| (*t, *c, *pos as u8)))
        .collect();
    // Channel 258 is written as byte 2; at time 7 the channels come as 0, 1, 2.
    assert_eq!(rows, vec![(3, 1, 1), (7, 0, 3), (7, 1, 2), (7, 2, 0)]);
    assert_eq!(frames[3].1.data[0], 4);
}
