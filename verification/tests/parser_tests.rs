use parser::entry::Entry;
use parser::segment::Segment;
use parser::{Parser, Section};

#[test]
fn parse_section_fn() {
    // A line that is no section title
    let line = "zxqwvutsrq";
    assert_eq!(Parser::parse_section(line), None);

    let archive_members_line = "Archive member included to satisfy reference by file (symbol)";
    assert_eq!(
        Parser::parse_section(archive_members_line),
        Some(Section::ArchiveMembers)
    );

    let common_symbols_line = "Allocating common symbols";
    assert_eq!(
        Parser::parse_section(common_symbols_line),
        Some(Section::CommonSymbols)
    );

    let discarded_input_line = "Discarded input sections";
    assert_eq!(
        Parser::parse_section(discarded_input_line),
        Some(Section::DiscardedInput)
    );

    let memory_configuration_line = "Memory Configuration";
    assert_eq!(
        Parser::parse_section(memory_configuration_line),
        Some(Section::MemoryConfiguration)
    );

    let memory_map_line = "Linker script and memory map";
    assert_eq!(
        Parser::parse_section(memory_map_line),
        Some(Section::MemoryMap)
    );
}

fn entry_sub_test(single_line: bool, with_lib: bool, with_fill: bool, fill_overlaps: bool) {
    let entry_name = if single_line {
        "fixtureName123".to_string()
    } else {
        "fixtureLongerName0".to_string()
    };

    let entry_address: u64 = 0x00000000DEADBEEF;
    let entry_size: u64 = 0x1234;
    let entry_lib = "fixturelib";
    let entry_object = "fixtureobj";
    let entry_fill_size: u64 = if with_fill { 0x56 } else { 0 };
    let entry_fill_overlaps = if with_fill { fill_overlaps } else { false };
    let entry_fill_address: u64 = if fill_overlaps {
        entry_address
    } else {
        0x00000000FEEDF00D
    };

    let entry_address_str = format!("{:#016x}", entry_address);
    let entry_size_str = format!("{:#x}", entry_size);
    let mut entry_str = if single_line {
        format!(
            " {:14} {} {:>10}",
            &entry_name, entry_address_str, entry_size_str
        )
    } else {
        format!(
            " {:14}\n                {} {:>10}",
            &entry_name, entry_address_str, entry_size_str
        )
    };
    if with_lib {
        entry_str += &format!(" {}({})", entry_lib, entry_object);
    } else {
        entry_str += &format!(" {}", entry_object);
    }

    if with_fill {
        let entry_fill_size_str = format!("{:#x}", entry_fill_size);
        let entry_fill_address_str = format!("{:#016x}", entry_fill_address);
        entry_str += &format!(
            "\n *fill*         {} {:>10}",
            entry_fill_address_str, entry_fill_size_str
        );
    }

    let entry = Parser::parse_entry_info(&entry_str).unwrap();
    assert_eq!(entry.get_name(), &entry_name);
    assert_eq!(entry.get_original_size(), entry_size);
    assert_eq!(entry.get_address(), entry_address);
    if with_lib {
        assert_eq!(entry.get_library_name(), Some(entry_lib));
    } else {
        assert_eq!(entry.get_library_name(), None);
    }

    assert_eq!(entry.get_object_name(), Some(entry_object));
    if with_fill {
        if fill_overlaps {
            assert_eq!(entry.get_size(), entry_fill_size);
        } else {
            assert_eq!(entry.get_size(), entry_fill_size + entry_size);
        }
    } else {
        assert_eq!(entry.get_size(), entry_size);
    }
    assert_eq!(entry.get_data(), &entry_str);
    assert_eq!(entry.get_fill_overlaps(), entry_fill_overlaps);
    assert_eq!(entry.get_fill_size(), entry_fill_size);
}

#[test]
fn parse_entry_info_fn() {
    // Empty string
    let empty = "";
    assert!(Parser::parse_entry_info(empty).is_none());

    // no fill
    entry_sub_test(true, true, false, false);
    entry_sub_test(true, false, false, false);
    entry_sub_test(false, true, false, false);
    entry_sub_test(false, false, false, false);

    // with fill, no overlap
    entry_sub_test(true, true, true, false);
    entry_sub_test(true, false, true, false);
    entry_sub_test(false, true, true, false);
    entry_sub_test(false, false, true, false);

    // with fill, with overlap
    entry_sub_test(true, true, true, true);
    entry_sub_test(true, false, true, true);
    entry_sub_test(false, true, true, true);
    entry_sub_test(false, false, true, true);
}

fn segment_sub_test(single_line: bool, with_addr_size: bool) {
    let segment_name = if single_line {
        "fixtureSeg1234".to_string()
    } else {
        "fixtureLongSegment".to_string()
    };

    let segment_address: u64 = 0x00000000DEADBEEF;
    let segment_size: u64 = 0x4321;

    let segment_address_str = format!("{:#016x}", segment_address);
    let segment_size_str = format!("{:#x}", segment_size);
    let segment_str = if with_addr_size {
        if single_line {
            format!(
                "{:15} {} {:>10}",
                &segment_name, segment_address_str, segment_size_str
            )
        } else {
            format!(
                "{}\n                {} {:>10}",
                &segment_name, segment_address_str, segment_size_str
            )
        }
    } else {
        segment_name.clone()
    };

    let segment = Parser::parse_segment_info(&segment_str).unwrap();
    assert_eq!(segment.get_name(), &segment_name);
    assert_eq!(segment.get_entries_total_size(), 0);
    assert_eq!(segment.get_entries().len(), 0);
    if with_addr_size {
        assert_eq!(segment.get_address(), Some(segment_address));
        assert_eq!(segment.get_size(), Some(segment_size));
    } else {
        assert_eq!(segment.get_address(), None);
        assert_eq!(segment.get_size(), None);
    }
}

#[test]
fn parse_segment_info_fn() {
    let empty = "";
    assert!(Parser::parse_segment_info(empty).is_none());

    // The first line contains the linker directive marker
    let load_directive = "    LOAD fixtureobject";
    assert!(Parser::parse_segment_info(load_directive).is_none());

    // The name must not have spaces before it
    let space_before_name = " fixturename";
    assert!(Parser::parse_segment_info(space_before_name).is_none());

    segment_sub_test(false, false);
    segment_sub_test(false, true);
    segment_sub_test(true, false);
    segment_sub_test(true, true);
}

#[test]
fn split_segment_fn() {
    let mut pos: usize;
    let mut split_vec = vec![];
    let mut test_str = String::new();

    let address_str = format!("{:#016x}", 0x00000000DEADBEEFu64);
    let size_str = format!("{:#x}", 0x1234);
    test_str += &format!("{:15} {} {:>10}\n", "fixtureSegment9", address_str, size_str);

    test_str += &format!(" *(SORT_BY_ALIGNMENT({}))\n", "fixtureSectors9");

    split_vec.push((0, test_str.len() - 1));
    pos = test_str.len();

    test_str += &format!(
        " {:14} {} {:>10} {}({})\n",
        "fixtureName001", address_str, size_str, "fixturelib0001", "fixtureobj0001"
    );

    test_str += &format!(
        "                {}                {}\n",
        address_str, "fixturesymbol1"
    );

    test_str += &format!(" *fill*         {} {:>10}\n", address_str, size_str);

    split_vec.push((pos, test_str.len() - 1));
    pos = test_str.len();

    test_str += &format!(
        " {:14} {} {:>10} {}({})\n",
        "fixtureName002", address_str, size_str, "fixturelib0002", "fixtureobj0002"
    );

    test_str += &format!(
        "                {}                {}\n",
        address_str, "fixturesymbol2"
    );

    test_str += " FILL mask 0x00\n";

    split_vec.push((pos, test_str.len() - 1));
    pos = test_str.len();

    test_str += &format!(
        " {:14} {} {:>10} {}({})\n",
        "fixtureName003", address_str, size_str, "fixturelib0003", "fixtureobj0003"
    );

    test_str += &format!(
        "                {}                {}\n",
        address_str, "fixturesymbol3"
    );

    test_str += &format!(" *(SORT_BY_ALIGNMENT({}))\n", "fixtureSectors8");

    split_vec.push((pos, test_str.len() - 1));

    assert_eq!(Parser::split_segment(&test_str), split_vec);
}

#[test]
fn add_segment_fn() {
    let mut parser = Parser::new();

    assert!(parser.get_memory_map_segments().is_empty());
    assert!(parser.get_memory_map_objects().is_empty());

    let name = "fixtureSegA";
    let address: u64 = 0x2000;
    let size: u64 = 0x400;

    let mut segment = Segment::new(name);
    segment.set_size_and_address(size, address);

    for i in 0..10u64 {
        let entry_name = format!("fixtureEnt{:03}", i);
        let data = format!("fixture span {:03}", i);
        let entry_address: u64 = 0x2000 + 0x40 * i;
        let entry_size: u64 = 5 + 3 * i;

        let entry = Entry::new(&entry_name, entry_address, entry_size, &data);

        segment.add_entry(entry.clone());
    }

    parser.add_segment(segment.clone());

    assert_eq!(parser.get_memory_map_segments(), &[segment]);
    assert!(parser.get_memory_map_objects().is_empty());

    parser.clear();

    assert!(parser.get_memory_map_segments().is_empty());
    assert!(parser.get_memory_map_objects().is_empty());

    let mut segment = Segment::new(name);
    segment.set_size_and_address(size, address);

    let object = "fixtureObjB";
    let mut sum: u64 = 0;
    for i in 0..10u64 {
        let entry_name = format!("fixtureEnt{:03}", i);
        let data = format!("fixture span {:03}", i);
        let entry_address: u64 = 0x3000 + 0x40 * i;
        let entry_size: u64 = 5 + 3 * i;
        sum += entry_size;

        let mut entry = Entry::new(&entry_name, entry_address, entry_size, &data);
        entry.set_object_name(object);

        segment.add_entry(entry.clone());
    }

    parser.add_segment(segment.clone());

    assert_eq!(parser.get_memory_map_segments(), &[segment]);
    assert_eq!(parser.get_memory_map_objects().len(), 1);
    let stored = &parser.get_memory_map_objects()[0];
    assert_eq!(stored.get_name(), object);
    assert_eq!(stored.get_total_size(), sum);
}
