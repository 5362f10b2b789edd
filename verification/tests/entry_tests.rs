use parser::entry::Entry;

#[test]
fn entry_tests_new() {
    let entry_name = "fixtureEntryName0042";
    let entry_data = "fixture raw span text for one decoded entry record 0042";
    let entry_address: u64 = 0x00000000DEADBEEF;
    let entry_size: u64 = 0x1234;

    let entry = Entry::new(entry_name, entry_address, entry_size, entry_data);

    assert_eq!(entry.get_name(), entry_name);
    assert_eq!(entry.get_address(), entry_address);
    assert_eq!(entry.get_size(), entry_size);
    assert_eq!(entry.get_data(), entry_data);

    assert_eq!(entry.get_library_name(), None);
    assert_eq!(entry.get_object_name(), None);
}

#[test]
fn entry_tests_new_size_non_overlaping() {
    let entry_name = "fixtureEntryName0043";
    let entry_data = "fixture raw span text for one decoded entry record 0043";
    let entry_address: u64 = 0x00000000DEADBEEF;
    let entry_size: u64 = 0x1234;
    let fill_address = entry_address + 1 + 37;
    let fill_size: u64 = 0x56;

    assert_ne!(entry_address, fill_address);

    let mut entry = Entry::new(entry_name, entry_address, entry_size, entry_data);
    entry.set_fill(fill_address, fill_size);

    assert_eq!(entry.get_name(), entry_name);
    assert_eq!(entry.get_address(), entry_address);
    assert_eq!(entry.get_size(), entry_size + fill_size);
    assert_eq!(entry.get_data(), entry_data);

    assert_eq!(entry.get_library_name(), None);
    assert_eq!(entry.get_object_name(), None);
}

#[test]
fn entry_tests_new_size_overlaping() {
    let entry_name = "fixtureEntryName0044";
    let entry_data = "fixture raw span text for one decoded entry record 0044";
    let entry_address: u64 = 0x00000000DEADBEEF;
    let entry_size: u64 = 0x1234;
    let fill_address = entry_address;
    let fill_size: u64 = 0x56;

    assert_eq!(entry_address, fill_address);

    let mut entry = Entry::new(entry_name, entry_address, entry_size, entry_data);
    entry.set_fill(fill_address, fill_size);

    assert_eq!(entry.get_name(), entry_name);
    assert_eq!(entry.get_address(), entry_address);
    assert_eq!(entry.get_size(), fill_size);
    assert_eq!(entry.get_data(), entry_data);

    assert_eq!(entry.get_library_name(), None);
    assert_eq!(entry.get_object_name(), None);
}

#[test]
fn new_object_name() {
    let entry_name = "fixtureEntryName0045";
    let entry_data = "fixture raw span text for one decoded entry record 0045";
    let object_name = "fixtureObjectName001";
    let entry_address: u64 = 0x00000000DEADBEEF;
    let entry_size: u64 = 0x1234;

    let mut entry = Entry::new(entry_name, entry_address, entry_size, entry_data);

    assert_eq!(entry.get_name(), entry_name);
    assert_eq!(entry.get_address(), entry_address);
    assert_eq!(entry.get_size(), entry_size);
    assert_eq!(entry.get_data(), entry_data);

    assert_eq!(entry.get_library_name(), None);
    assert_eq!(entry.get_object_name(), None);

    entry.set_object_name(object_name);

    assert_eq!(entry.get_object_name(), Some(object_name));
    assert_eq!(entry.get_library_name(), None);
}

#[test]
fn new_library_name() {
    let entry_name = "fixtureEntryName0046";
    let entry_data = "fixture raw span text for one decoded entry record 0046";
    let library_name = "fixtureLibrary000001";
    let entry_address: u64 = 0x00000000DEADBEEF;
    let entry_size: u64 = 0x1234;

    let mut entry = Entry::new(entry_name, entry_address, entry_size, entry_data);

    assert_eq!(entry.get_name(), entry_name);
    assert_eq!(entry.get_address(), entry_address);
    assert_eq!(entry.get_size(), entry_size);
    assert_eq!(entry.get_data(), entry_data);

    assert_eq!(entry.get_library_name(), None);
    assert_eq!(entry.get_object_name(), None);

    entry.set_library_name(library_name);

    assert_eq!(entry.get_library_name(), Some(library_name));
    assert_eq!(entry.get_object_name(), None);
}
