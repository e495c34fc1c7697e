use numass::cache::{cache_file_name, raw_cache_key};
use numass::files::{sort_by_filename, sort_children, FSRepr};

fn file(p: &str) -> FSRepr {
    FSRepr::File { path: p.to_string() }
}

fn names(entries: &[FSRepr]) -> Vec<String> {
    entries.iter().map(|e| e.to_filename()).collect()
}

#[test]
fn file_names_are_the_last_component() {
    assert_eq!(file("/data/set_1/p10(30s)(HV1=14000)").to_filename(), "p10(30s)(HV1=14000)");
    let dir = FSRepr::Directory { path: "/data/set_2/".to_string(), children: vec![] };
    assert_eq!(dir.file_name(), Some("set_2".to_string()));
    assert_eq!(file("/data/..").file_name(), None);
    assert_eq!(file("/").file_name(), None);
}

#[test]
fn children_sort_in_natural_order() {
    let entries = vec![file("/d/p10"), file("/d/p2"), file("/d/p1"), file("/d/set_10"), file("/d/set_9")];
    let sorted = sort_by_filename(entries);
    assert_eq!(names(&sorted), vec!["p1", "p2", "p10", "set_9", "set_10"]);
}

#[test]
fn unnamed_children_are_refused() {
    let entries = vec![file("/d/p2"), file("/d/..")];
    match sort_children(entries) {
        Err(unchanged) => assert_eq!(unchanged.len(), 2),
        Ok(_) => panic!("an entry without a name was sorted"),
    }
    let ok = sort_children(vec![file("/d/rfc822.txt"), file("/d/rfc1.txt")]).ok().unwrap();
    assert_eq!(names(&ok), vec!["rfc1.txt", "rfc822.txt"]);
}

#[test]
fn cache_key_and_file_name() {
    assert_eq!(raw_cache_key("/data/p1", "\"Max\"", true), "process_file-/data/p1-\"Max\"-true");
    assert_eq!(cache_file_name("/data/p1", "\"Max\"", true), "f35fe9c89d8acd5b18d2b1fb181ddbdf");
    assert_eq!(
        cache_file_name("/data/p1", "{\"Likhovid\":{\"left\":6,\"right\":36}}", false),
        "79268880ed5f372aeb4bca810ffccc1e"
    );
}

#[test]
fn names_comparing_equal_keep_their_order() {
    // natord skips whitespace, so "a b" and "ab" compare equal.
    let sorted = sort_by_filename(vec![file("/d/x"), file("/d/a b"), file("/d/ab")]);
    assert_eq!(names(&sorted), vec!["a b", "ab", "x"]);
    let sorted = sort_by_filename(vec![file("/d/x"), file("/d/ab"), file("/d/a b")]);
    assert_eq!(names(&sorted), vec!["ab", "a b", "x"]);
}
