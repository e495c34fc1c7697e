use numass::coincidence::{
    channel_counts, channels_by_time, channels_enabled, cross_pair, cross_times, double_cross_counts,
    enabled_crosses, is_border_double, is_cross, neighbors, step_current, Step,
};
use numass::events::window_bounds;

#[test]
fn cursor_stops_at_both_ends() {
    assert_eq!(step_current(0, 3, Step::Next), 1);
    assert_eq!(step_current(2, 3, Step::Next), 2);
    assert_eq!(step_current(0, 3, Step::Previous), 0);
    assert_eq!(step_current(2, 3, Step::Previous), 1);
    assert_eq!(step_current(0, 0, Step::Previous), 0);
    assert_eq!(step_current(0, 1, Step::Next), 0);
}

#[test]
fn crosses_need_distinct_channels() {
    assert!(is_cross(&[(1u8, ()), (3, ())]));
    assert!(is_cross(&[(1u8, 'a'), (3, 'b'), (0, 'c')]));
    assert!(!is_cross(&[(1u8, ()), (3, ()), (1, ())]));
    assert!(!is_cross(&[(1u8, ())]));
    assert!(!is_cross::<()>(&[]));
}

#[test]
fn channel_filter_needs_every_channel() {
    let mut enabled = [false; 7];
    enabled[1] = true;
    enabled[4] = true;
    assert!(channels_enabled(&[(1u8, ()), (4, ())], &enabled));
    assert!(!channels_enabled(&[(1u8, ()), (5, ())], &enabled));
    assert!(channels_enabled::<()>(&[], &enabled));
}

#[test]
fn double_cross_pairs_are_one_based_and_ordered() {
    assert_eq!(cross_pair(&[(4u8, ()), (1, ())]), Some((2, 5)));
    assert_eq!(cross_pair(&[(0u8, ()), (6, ())]), Some((1, 7)));
    assert_eq!(cross_pair(&[(2u8, ()), (2, ())]), None);
    assert_eq!(cross_pair(&[(0u8, ()), (1, ()), (2, ())]), None);
}

#[test]
fn crosses_gathered_by_time() {
    let entries = [(7u64, 1u8, 0usize), (3, 1, 1), (7, 0, 2), (9, 2, 3), (9, 2, 4), (5, 4, 5)];
    let groups = channels_by_time(&entries);
    assert_eq!(groups[&7], vec![(1, 0), (0, 2)]);
    assert_eq!(groups[&9], vec![(2, 3), (2, 4)]);
    assert_eq!(groups.len(), 4);
    assert_eq!(cross_times(&groups), vec![7]);
}

#[test]
fn double_crosses_counted_by_pair() {
    let crosses = vec![
        vec![(0u8, 10usize), (1, 11)],
        vec![(1u8, 12usize), (0, 13)],
        vec![(2u8, 14usize), (5, 15)],
        vec![(2u8, 16usize), (5, 17), (6, 18)],
    ];
    let counts = double_cross_counts(&crosses);
    assert_eq!(counts.len(), 2);
    assert_eq!(counts[&(1, 2)], 2);
    assert_eq!(counts[&(3, 6)], 1);
}

#[test]
fn neighbours_stop_at_the_first_event_outside() {
    let times = [100u64, 960, 1000, 1040, 1500, 1990, 2100];
    assert_eq!(neighbors(&times, 2, 100), vec![1, 3]);
    assert_eq!(neighbors(&times, 2, 1000), vec![1, 0, 3, 4, 5]);
    assert_eq!(neighbors(&times, 0, 50), Vec::<usize>::new());
    assert_eq!(neighbors(&times, 6, 110), vec![5]);
}

#[test]
fn averaging_window_is_clipped() {
    let mut w = vec![0i16; 50];
    w[3] = 9;
    w[40] = 9;
    assert_eq!(window_bounds(&w, 6, 36), (34, 50));
    w[40] = 0;
    assert_eq!(window_bounds(&w, 6, 36), (0, 39));
}

#[test]
fn frames_counted_per_channel() {
    assert_eq!(channel_counts(&[0, 3, 3, 6, 0, 3]), [2, 0, 0, 3, 0, 0, 1]);
    assert_eq!(channel_counts(&[]), [0; 7]);
}

#[test]
fn filter_keeps_crosses_of_enabled_channels_in_order() {
    let mut enabled = [false; 7];
    enabled[0] = true;
    enabled[2] = true;
    let crosses = vec![vec![(0u8, ()), (2, ())], vec![(0u8, ()), (1, ())], vec![(2u8, ()), (0, ())], vec![]];
    assert_eq!(enabled_crosses(&crosses, &enabled), vec![0, 2, 3]);
}

#[test]
fn border_doubles_are_neighbouring_pairs() {
    assert!(is_border_double(&[(0u8, ()), (2, ())]));
    assert!(is_border_double(&[(4u8, ()), (1, ())]));
    assert!(is_border_double(&[(6u8, ()), (0, ())]));
    assert!(!is_border_double(&[(0u8, ()), (1, ())]));
    assert!(!is_border_double(&[(5u8, ()), (6, ())]));
    assert!(!is_border_double(&[(0u8, ()), (2, ()), (3, ())]));
    assert!(!is_border_double(&[(2u8, ()), (2, ())]));
}
