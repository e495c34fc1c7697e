use std::collections::BTreeMap;

use numass::processing::{
    dead_time_filter, frames_of_point, group_by_time, merge_plan, sorted_keys, sorted_u8_keys,
};
use numass::point::{Block, Channel, Frame, Point};

fn point() -> Point {
    let frame = |time: u64, b: u8| Frame { time, data: vec![b, 0] };
    Point {
        channels: vec![
            Channel {
                id: 3,
                blocks: vec![
                    Block { time: 0, length: 0, bin_size: 8, frames: vec![frame(5, 1), frame(9, 2)] },
                    Block { time: 0, length: 0, bin_size: 8, frames: vec![frame(7, 3)] },
                ],
            },
            Channel { id: 1, blocks: vec![Block { time: 0, length: 0, bin_size: 8, frames: vec![frame(5, 4)] }] },
        ],
    }
}

#[test]
fn frames_in_stored_order() {
    let p = point();
    let frames = frames_of_point(&p);
    let summary: Vec<(u64, u64, u8)> = frames.iter().map(|(id, f)| (*id, f.time, f.data[0])).collect();
    assert_eq!(summary, vec![(3, 5, 1), (3, 9, 2), (3, 7, 3), (1, 5, 4)]);
}

#[test]
fn grouping_by_time_keeps_the_later_entry() {
    let groups = group_by_time(&[(5u64, 3usize, 1.0f32), (9, 3, 2.0), (5, 1, 4.0), (5, 3, 6.0)]);
    assert_eq!(groups.len(), 2);
    let at5: Vec<(usize, f32)> = groups[&5].iter().map(|(c, a)| (*c, *a)).collect();
    assert_eq!(at5, vec![(1, 4.0), (3, 6.0)]);
    assert_eq!(sorted_keys(&groups), vec![5, 9]);
}

#[test]
fn sorted_keys_are_increasing() {
    let mut m = BTreeMap::new();
    m.insert(30u64, ());
    m.insert(2, ());
    m.insert(17, ());
    assert_eq!(sorted_keys(&m), vec![2, 17, 30]);
    let mut m = BTreeMap::new();
    m.insert(200u8, 1);
    m.insert(4, 2);
    assert_eq!(sorted_u8_keys(&m), vec![4, 200]);
}

#[test]
fn dead_time_drops_events_too_close_to_the_last_kept() {
    assert_eq!(dead_time_filter(&[100, 150, 220, 400], true, 100), vec![true, false, true, true]);
    assert_eq!(dead_time_filter(&[50, 300], true, 100), vec![false, true]);
    assert_eq!(dead_time_filter(&[50, 60], false, 100), vec![true, true]);
    assert_eq!(dead_time_filter(&[], true, 100), Vec::<bool>::new());
}

#[test]
fn merges_follow_the_map_in_order() {
    let mut map = [[false; 7]; 7];
    map[0][1] = true;
    map[1][2] = true;
    map[5][5] = true;
    let mut channels = BTreeMap::new();
    channels.insert(0usize, 1.0f32);
    channels.insert(1, 2.0);
    channels.insert(2, 3.0);
    channels.insert(5, 4.0);
    channels.insert(9, 5.0);
    assert_eq!(merge_plan(&map, &channels), vec![(0, 1), (5, 5)]);
    let mut only_two = BTreeMap::new();
    only_two.insert(1usize, 1.0f32);
    only_two.insert(2, 2.0);
    assert_eq!(merge_plan(&map, &only_two), vec![(1, 2)]);
    assert_eq!(merge_plan(&[[false; 7]; 7], &channels), vec![]);
}

#[test]
fn kept_events_are_spaced_by_the_dead_time() {
    let times = [5u64, 20, 22, 29, 31, 45, 100];
    let keep = dead_time_filter(&times, true, 10);
    assert_eq!(keep, vec![false, true, false, false, true, true, true]);
    let mut last = 0u64;
    for (t, k) in times.iter().zip(&keep) {
        if *k {
            assert!(t.abs_diff(last) >= 10);
            last = *t;
        }
    }
}
