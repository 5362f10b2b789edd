use parser::entry::Entry;
use parser::segment::Segment;

#[test]
fn new_no_size_and_address() {
    let segment_name = "fixtureSegmentName01";

    let segment = Segment::new(segment_name);

    assert_eq!(segment.get_name(), segment_name);
    assert_eq!(segment.get_address(), None);
    assert_eq!(segment.get_size(), None);
    assert!(segment.get_entries().is_empty());
    assert_eq!(segment.get_entries_total_size(), 0);
}

#[test]
fn new_with_size_and_address() {
    let segment_name = "fixtureSegmentName02";
    let segment_address: u64 = 0x00000000DEADBEEF;
    let segment_size: u64 = 0x4321;

    let mut segment = Segment::new(segment_name);
    segment.set_size_and_address(segment_size, segment_address);

    assert_eq!(segment.get_name(), segment_name);
    assert_eq!(segment.get_address(), Some(segment_address));
    assert_eq!(segment.get_size(), Some(segment_size));
    assert!(segment.get_entries().is_empty());
    assert_eq!(segment.get_entries_total_size(), 0);
}

#[test]
fn entries_test() {
    let segment_name = "fixtureSegmentName03";

    let mut segment = Segment::new(segment_name);

    assert!(segment.get_entries().is_empty());

    let mut test_entries: Vec<Entry> = vec![];
    for i in 0..10u64 {
        let entry_name = format!("fixtureEntry{:04}", i);
        let entry_data = format!("fixture raw span {:04}", i);
        // distinct addresses, so no two records coalesce
        let entry_address: u64 = 0x1000 + 0x100 * i;
        let entry_size: u64 = 3 + 7 * i;

        let entry = Entry::new(&entry_name, entry_address, entry_size, &entry_data);

        segment.add_entry(entry.clone());

        test_entries.push(entry);
    }

    let entries = segment.get_entries();

    assert_eq!(entries.len(), 10);
    assert_eq!(entries, test_entries);

    let test_entries_sum = test_entries.iter().fold(0, |acc, e| acc + e.get_size());

    assert_eq!(segment.get_entries_total_size(), test_entries_sum);
}
