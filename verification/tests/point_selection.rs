use numass::analysis::{
    contains_bytes, deadtime_stats, is_excluded, parse_u16, points_by_setpoint, setpoint_from_filename,
    DeadtimeStats,
};

#[test]
fn setpoints_from_file_names() {
    assert_eq!(setpoint_from_filename(b"p0(30s)(HV1=14000)"), Some(14000));
    assert_eq!(setpoint_from_filename(b"p52(30s)(HV1=+9000)"), Some(9000));
    assert_eq!(setpoint_from_filename(b"p1(20s).df"), None);
    assert_eq!(setpoint_from_filename(b"x(HV1=99999)"), None);
    assert_eq!(setpoint_from_filename(b"short"), None);
}

#[test]
fn u16_parsing_follows_from_str() {
    assert_eq!(parse_u16(b"65535"), Some(65535));
    assert_eq!(parse_u16(b"65536"), None);
    assert_eq!(parse_u16(b"+12"), Some(12));
    assert_eq!(parse_u16(b"+"), None);
    assert_eq!(parse_u16(b""), None);
    assert_eq!(parse_u16(b"-1"), None);
    assert_eq!(parse_u16(b"007"), Some(7));
    for s in ["0", "42", "+42", "1a", "99999", "00000065535"] {
        assert_eq!(parse_u16(s.as_bytes()), s.parse::<u16>().ok(), "{s}");
    }
}

#[test]
fn exclusion_by_substring() {
    assert!(contains_bytes(b"/a/Tritium_1/set_10/p1", b"Tritium_1/set_10"));
    assert!(!contains_bytes(b"/a/Tritium_1/set_1/p1", b"Tritium_1/set_10"));
    assert!(contains_bytes(b"abc", b""));
    let exclude = vec![b"set_2/p55".to_vec(), b"set_1/p43".to_vec()];
    assert!(is_excluded(b"/d/Background_1/set_1/p43(30s)(HV1=14000)", &exclude));
    assert!(!is_excluded(b"/d/Background_1/set_1/p44(30s)(HV1=14000)", &exclude));
    assert!(!is_excluded(b"/d/anything", &[]));
}

#[test]
fn points_grouped_by_setpoint() {
    let names = vec![
        b"p0(30s)(HV1=14000)".to_vec(),
        b"p1(30s)(HV1=12000)".to_vec(),
        b"p2(30s)(HV1=14000)".to_vec(),
        b"p3(30s)(HV1=12000)".to_vec(),
    ];
    let paths = names.iter().map(|n| [b"/s/".to_vec(), n.clone()].concat()).collect::<Vec<_>>();
    let groups = points_by_setpoint(&names, &paths, &[b"p3".to_vec()]).unwrap();
    assert_eq!(groups.len(), 2);
    assert_eq!(groups[&14000], vec![0, 2]);
    assert_eq!(groups[&12000], vec![1]);
    let bad = vec![b"p1(20s).df".to_vec()];
    assert_eq!(points_by_setpoint(&bad, &bad, &[]), None);
    assert!(points_by_setpoint(&bad, &bad, &[b"20s".to_vec()]).unwrap().is_empty());
}

#[test]
fn deadtime_statistics_of_event_windows() {
    let stats = deadtime_stats(&[0, 1000, 2000, 10000, 11000]);
    assert_eq!(
        stats,
        DeadtimeStats { total_deadtime: 2400, close_count: 1, normal_count: 1, triple_close_count: 1 }
    );
    assert_eq!(
        deadtime_stats(&[0, 5]),
        DeadtimeStats { total_deadtime: 0, close_count: 0, normal_count: 0, triple_close_count: 0 }
    );
}
