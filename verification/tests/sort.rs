use niv::directory::{Comparison, FileEntry, FileStat, Order};
use niv::sort::{entry_precedes, stable_sort};

fn file(path: &str, modified: Option<u64>, size: Option<u64>) -> FileEntry {
    FileEntry { path: path.to_string(), stat: FileStat { is_file: true, modified, size } }
}

fn paths(files: &Vec<FileEntry>) -> Vec<&str> {
    files.iter().map(|f| f.path.as_str()).collect()
}

#[test]
fn entry_precedes_by_name() {
    let a = file("a", Some(9), Some(9));
    let b = file("b", Some(1), Some(1));
    assert!(entry_precedes(&a, &b, Order::Name, Comparison::Ascending));
    assert!(!entry_precedes(&b, &a, Order::Name, Comparison::Ascending));
    assert!(!entry_precedes(&a, &b, Order::Name, Comparison::Descending));
    assert!(entry_precedes(&b, &a, Order::Name, Comparison::Descending));
    assert!(entry_precedes(&a, &a, Order::Name, Comparison::Ascending));
    assert!(entry_precedes(&a, &a, Order::Name, Comparison::Descending));
}

#[test]
fn entry_precedes_by_date_and_size() {
    let old_big = file("x", Some(1), Some(900));
    let new_small = file("y", Some(2), Some(100));
    assert!(entry_precedes(&old_big, &new_small, Order::UpdatedDate, Comparison::Ascending));
    assert!(!entry_precedes(&new_small, &old_big, Order::UpdatedDate, Comparison::Ascending));
    assert!(entry_precedes(&new_small, &old_big, Order::UpdatedDate, Comparison::Descending));
    assert!(entry_precedes(&new_small, &old_big, Order::FileSize, Comparison::Ascending));
    assert!(!entry_precedes(&old_big, &new_small, Order::FileSize, Comparison::Ascending));
    assert!(entry_precedes(&old_big, &new_small, Order::FileSize, Comparison::Descending));
}

#[test]
fn entry_precedes_treats_unknown_as_largest() {
    let unknown = file("u", None, None);
    let huge = file("h", Some(u64::MAX - 1), Some(u64::MAX - 1));
    let max = file("m", Some(u64::MAX), Some(u64::MAX));
    assert!(entry_precedes(&huge, &unknown, Order::UpdatedDate, Comparison::Ascending));
    assert!(!entry_precedes(&unknown, &huge, Order::UpdatedDate, Comparison::Ascending));
    assert!(entry_precedes(&huge, &unknown, Order::FileSize, Comparison::Ascending));
    assert!(!entry_precedes(&unknown, &huge, Order::FileSize, Comparison::Ascending));
    // Unknown ties with the largest value there is.
    assert!(entry_precedes(&unknown, &max, Order::FileSize, Comparison::Ascending));
    assert!(entry_precedes(&max, &unknown, Order::FileSize, Comparison::Ascending));
}

#[test]
fn stable_sort_of_nothing_and_of_one() {
    assert!(stable_sort(Vec::new(), Order::Name, Comparison::Ascending).is_empty());
    let one = stable_sort(vec![file("a", None, None)], Order::FileSize, Comparison::Descending);
    assert_eq!(paths(&one), vec!["a"]);
}

#[test]
fn stable_sort_orders_and_keeps_every_file() {
    let files = vec![
        file("d", Some(4), Some(1)),
        file("b", Some(2), Some(3)),
        file("e", Some(5), Some(0)),
        file("a", Some(1), Some(4)),
        file("c", Some(3), Some(2)),
    ];
    let sorted = stable_sort(files, Order::Name, Comparison::Ascending);
    assert_eq!(paths(&sorted), vec!["a", "b", "c", "d", "e"]);
    let sorted = stable_sort(sorted, Order::FileSize, Comparison::Ascending);
    assert_eq!(paths(&sorted), vec!["e", "d", "c", "b", "a"]);
    let sorted = stable_sort(sorted, Order::UpdatedDate, Comparison::Descending);
    assert_eq!(paths(&sorted), vec!["e", "d", "c", "b", "a"]);
    // The stats travel with their paths.
    assert_eq!(sorted[0].stat.modified, Some(5));
    assert_eq!(sorted[4].stat.size, Some(4));
}

#[test]
fn stable_sort_leaves_ties_as_they_came() {
    let files = vec![
        file("p", Some(2), None),
        file("q", Some(1), None),
        file("r", Some(2), None),
        file("s", Some(1), None),
        file("t", Some(2), None),
    ];
    let up = stable_sort(files, Order::UpdatedDate, Comparison::Ascending);
    assert_eq!(paths(&up), vec!["q", "s", "p", "r", "t"]);
    let down = stable_sort(up, Order::UpdatedDate, Comparison::Descending);
    assert_eq!(paths(&down), vec!["p", "r", "t", "q", "s"]);
    let same = stable_sort(down, Order::FileSize, Comparison::Ascending);
    assert_eq!(paths(&same), vec!["p", "r", "t", "q", "s"]);
}

#[test]
fn stable_sort_keeps_files_with_the_same_path_apart() {
    let files = vec![
        file("same", Some(3), None),
        file("other", Some(0), None),
        file("same", Some(1), None),
        file("same", Some(2), None),
    ];
    let sorted = stable_sort(files, Order::Name, Comparison::Descending);
    assert_eq!(paths(&sorted), vec!["same", "same", "same", "other"]);
    let dates: Vec<Option<u64>> = sorted.iter().map(|f| f.stat.modified).collect();
    assert_eq!(dates, vec![Some(3), Some(1), Some(2), Some(0)]);
}

#[test]
fn stable_sort_handles_a_long_listing() {
    let n = 5000u64;
    let files: Vec<FileEntry> =
        (0..n).map(|i| file(&format!("{:05}", (i * 7919) % n), Some(i % 10), None)).collect();
    let by_name = stable_sort(files, Order::Name, Comparison::Ascending);
    for (i, f) in by_name.iter().enumerate() {
        assert_eq!(f.path, format!("{:05}", i));
    }
    let by_date = stable_sort(by_name, Order::UpdatedDate, Comparison::Descending);
    assert_eq!(by_date.len(), n as usize);
    for pair in by_date.windows(2) {
        let (a, b) = (&pair[0], &pair[1]);
        assert!(a.stat.modified >= b.stat.modified);
        if a.stat.modified == b.stat.modified {
            assert!(a.path < b.path);
        }
    }
}
