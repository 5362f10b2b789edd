use parser::entry::Entry;
use parser::object::Object;
use parser::section::Section as MapSection;
use parser::segment::Segment;
use parser::subsection::SubSection;
use parser::{Parser, ParserError};

#[test]
fn canonical_single_line_record() {
    let entry =
        Parser::parse_entry_info(" name  0x0000000000000010       0x20 libfoo.a(bar.o)").unwrap();
    assert_eq!(entry.get_name(), "name");
    assert_eq!(entry.get_address(), 0x10);
    assert_eq!(entry.get_original_size(), 0x20);
    assert_eq!(entry.get_library_name(), Some("libfoo.a"));
    assert_eq!(entry.get_object_name(), Some("bar.o"));
    assert_eq!(entry.get_fill_size(), 0);
    assert!(!entry.get_fill_overlaps());
    assert_eq!(entry.get_size(), 0x20);
}

#[test]
fn whole_document_scenario() {
    let data = "Linker script and memory map\n\n.text 0x0000000000001000 0x10\n .text.main 0x0000000000001000 0x10 a.o(main.o)\n\n";
    let parsed = Parser::parse(data);

    let segments = parsed.get_memory_map_segments();
    assert_eq!(segments.len(), 1);
    let seg = &segments[0];
    assert_eq!(seg.get_name(), ".text");
    assert_eq!(seg.get_address(), Some(0x1000));
    assert_eq!(seg.get_size(), Some(0x10));

    let entries = seg.get_entries();
    assert_eq!(entries.len(), 1);
    assert_eq!(entries[0].get_name(), ".text.main");
    assert_eq!(entries[0].get_address(), 0x1000);
    assert_eq!(entries[0].get_size(), 0x10);
    assert_eq!(entries[0].get_object_name(), Some("main.o"));
    assert_eq!(entries[0].get_library_name(), Some("a.o"));

    // the declared size and the coalesced record total agree
    assert_eq!(seg.get_entries_total_size(), 0x10);

    let objects = parsed.get_memory_map_objects();
    assert_eq!(objects.len(), 1);
    assert_eq!(objects[0].get_name(), "main.o");
    assert_eq!(objects[0].get_segment_size(".text"), Some(16));
    assert_eq!(objects[0].get_total_size(), 16);
    assert_eq!(objects[0].get_all_segments(), vec![".text"]);
}

#[test]
fn classifier_five_sections() {
    let t0 = "Archive member included to satisfy reference by file (symbol)";
    let t1 = "Allocating common symbols";
    let t2 = "Discarded input sections";
    let t3 = "Memory Configuration";
    let t4 = "Linker script and memory map";
    let data = format!(
        "{t0}\nalpha body\n{t1}\nbeta body\n{t2}\ngamma body\n{t3}\ndelta body\n{t4}\nepsilon body\n"
    );

    let ranges = Parser::get_sections_pos(&data);

    let start_of = |title: &str| data.find(title).unwrap();
    let after = |title: &str| start_of(title) + title.len() + 1;

    let archive = ranges.archive_members.unwrap();
    let common = ranges.common_symbols.unwrap();
    let discarded = ranges.discarded_input.unwrap();
    let memcfg = ranges.memory_configuration.unwrap();
    let memmap = ranges.memory_map.unwrap();

    // each section's content runs from just after its title line to the next
    // title line, and the last runs to the end of the document
    assert_eq!(archive, (after(t0), start_of(t1)));
    assert_eq!(common, (after(t1), start_of(t2)));
    assert_eq!(discarded, (after(t2), start_of(t3)));
    assert_eq!(memcfg, (after(t3), start_of(t4)));
    assert_eq!(memmap, (after(t4), data.len()));

    // appearance-ordered and disjoint; together with the five title lines the
    // ranges cover the whole document
    assert!(archive.1 <= common.0 && common.1 <= discarded.0);
    assert!(discarded.1 <= memcfg.0 && memcfg.1 <= memmap.0);
    assert_eq!(archive.0, t0.len() + 1);
    assert_eq!(common.0, archive.1 + t1.len() + 1);
    assert_eq!(discarded.0, common.1 + t2.len() + 1);
    assert_eq!(memcfg.0, discarded.1 + t3.len() + 1);
    assert_eq!(memmap.0, memcfg.1 + t4.len() + 1);
    assert_eq!(memmap.1, data.len());
}

#[test]
fn classifier_last_occurrence_wins() {
    let data = "Memory Configuration\nfirst\nLinker script and memory map\nmiddle\nMemory Configuration\nsecond\n";
    let ranges = Parser::get_sections_pos(data);
    let memcfg = ranges.memory_configuration.unwrap();
    // the later occurrence overwrote the earlier range
    assert_eq!(&data[memcfg.0..memcfg.1], "second\n");
}

#[test]
fn empty_document() {
    let parsed = Parser::parse("");
    assert!(parsed.get_memory_map_segments().is_empty());
    assert!(parsed.get_memory_map_objects().is_empty());

    let no_map = Parser::parse("Memory Configuration\n\nName Origin\n\n");
    assert!(no_map.get_memory_map_segments().is_empty());
}

#[test]
fn header_directive_rejected() {
    assert!(Parser::parse_segment_info("    LOAD /usr/lib/crt0.o").is_none());
    assert!(Parser::parse_segment_info("LOAD something 0x10 0x20").is_none());
    assert!(MapSection::parse_section_data("LOAD /usr/lib/crt0.o").is_err());
    assert!(MapSection::parser("LOAD /usr/lib/crt0.o 0x10 0x20").is_err());
}

#[test]
fn error_messages() {
    assert_eq!(
        ParserError::InvalidMemoryMapSection.message(),
        "Invalid memory map section"
    );
    assert_eq!(
        ParserError::InvalidMemoryMapSubSection.message(),
        "Invalid memory map sub-section"
    );
    assert_eq!(
        SubSection::parse(""),
        Err(ParserError::InvalidMemoryMapSubSection)
    );
    assert_eq!(
        MapSection::parse_section_data(""),
        Err(ParserError::InvalidMemoryMapSection)
    );
}

#[test]
fn hex_value_bounds() {
    // the largest representable address is accepted
    let entry = Parser::parse_entry_info(" n 0xffffffffffffffff 0x1 obj.o").unwrap();
    assert_eq!(entry.get_address(), u64::MAX);

    // a value one digit wider is not a valid address field
    assert!(Parser::parse_entry_info(" n 0x10000000000000000 0x1 obj.o").is_none());

    // upper-case digits decode like lower-case ones
    let upper = Parser::parse_entry_info(" n 0xDEADBEEF 0xFF obj.o").unwrap();
    assert_eq!(upper.get_address(), 0xdeadbeef);
    assert_eq!(upper.get_original_size(), 0xff);
}

#[test]
fn fill_rule_examples() {
    // an overlapping fill replaces the record's footprint
    let mut overlapped = Entry::new("a", 0, 1, "");
    overlapped.set_fill(0, 2);
    assert_eq!(overlapped.get_size(), 2);
    assert!(overlapped.get_fill_overlaps());
    assert_eq!(overlapped.get_fill_address(), Some(0));

    // a following fill extends it
    let mut extended = Entry::new("b", 0, 1, "");
    extended.set_fill(1, 2);
    assert_eq!(extended.get_size(), 3);
    assert!(!extended.get_fill_overlaps());
    assert_eq!(extended.get_fill_address(), Some(1));

    // no fill line: the effective size is the original size
    let untouched = Entry::new("c", 0, 7, "");
    assert_eq!(untouched.get_size(), 7);
    assert_eq!(untouched.get_fill_size(), 0);
    assert!(!untouched.get_fill_overlaps());
    assert_eq!(untouched.get_fill_address(), None);

    // a fill that is neither at the record's address nor right after it is
    // still merged; the condition is only diagnosable, never fatal, and the
    // fill address is retained for the diagnosis
    let spans = " gap 0x0000000000000000 0x4 o.o\n *fill* 0x0000000000000100 0x2";
    let gappy = Parser::parse_entry_info(spans).unwrap();
    assert_eq!(gappy.get_fill_size(), 2);
    assert_eq!(gappy.get_size(), 6);
    assert_eq!(gappy.get_fill_address(), Some(0x100));
}

#[test]
fn fill_contiguity_rule() {
    let mut at_address = Entry::new("a", 0x10, 4, "");
    at_address.set_fill(0x10, 2);
    assert!(at_address.fill_contiguous());

    let mut right_after = Entry::new("b", 0x10, 4, "");
    right_after.set_fill(0x14, 2);
    assert!(right_after.fill_contiguous());

    let mut gapped = Entry::new("c", 0x10, 4, "");
    gapped.set_fill(0x100, 2);
    assert!(!gapped.fill_contiguous());

    let no_fill = Entry::new("d", 0x10, 4, "");
    assert!(no_fill.fill_contiguous());

    // the record's footprint ends past the largest address, so only a fill
    // at the record's own address could be contiguous
    let mut wrapped = Entry::new("e", u64::MAX, 4, "");
    wrapped.set_fill(3, 1);
    assert!(!wrapped.fill_contiguous());

    let mut sub = SubSection::new("s".to_string(), 0x10, 4);
    sub.set_fill(0x14, 2);
    assert!(sub.fill_contiguous());
}

#[test]
fn splitter_sort_marker() {
    // only the full directive opening is splitter noise; a record whose name
    // merely contains those letters starts its own range
    let data = ".text 0x0000000000001000 0x8\n .SORT_BY_name 0x0000000000001000 0x8 a.o\n";
    let ranges = Parser::split_segment(data);
    assert_eq!(ranges.len(), 2);
    let seg = Parser::parse_segment(data).unwrap();
    assert_eq!(seg.get_entries().len(), 1);
    assert_eq!(seg.get_entries()[0].get_name(), ".SORT_BY_name");

    // a sort directive line never starts a range
    let noisy = ".text 0x0000000000001000 0x8\n *(SORT_BY_ALIGNMENT(.x))\n .a 0x0000000000001000 0x8 a.o\n";
    assert_eq!(Parser::split_segment(noisy).len(), 2);
}

#[test]
fn same_address_coalescing_example() {
    let mut segment = Segment::new("seg");
    segment.add_entry(Entry::new("r1", 0xa0, 5, ""));
    segment.add_entry(Entry::new("r2", 0xa0, 8, ""));
    // consecutive records at one address count only the later record's size
    assert_eq!(segment.get_entries_total_size(), 8);

    segment.add_entry(Entry::new("r3", 0xb0, 3, ""));
    assert_eq!(segment.get_entries_total_size(), 11);
}

#[test]
fn rollup_accumulates_per_segment() {
    let mut object = Object::new("main.o");
    object.update_segment_size(".text", 10);
    object.update_segment_size(".text", 15);
    assert_eq!(object.get_segment_size(".text"), Some(25));
    assert_eq!(object.get_total_size(), 25);
    assert_eq!(object.get_segment_size(".data"), None);

    object.update_segment_size(".data", 5);
    assert_eq!(object.get_total_size(), 30);
    assert_eq!(object.get_all_segments(), vec![".text", ".data"]);
}

#[test]
fn section_granularity_two_line_header() {
    let data = ".bss\n 0x0000000000002000 0x40\n .bss.one\n                0x0000000000002000 0x40 lib.a(one.o)\n";
    let section = MapSection::parse_section_data(data).unwrap();
    assert_eq!(section.name, ".bss");
    assert_eq!(section.address, Some(0x2000));
    assert_eq!(section.size, 0x40);
    assert_eq!(section.sub_sections.len(), 1);
    assert_eq!(section.sub_sections[0].name(), ".bss.one");
    assert_eq!(section.sub_sections[0].address(), 0x2000);
    assert_eq!(section.sub_sections[0].size(), 0x40);
    assert_eq!(section.get_sub_sections_total_size(), 0x40);
}

#[test]
fn section_granularity_fill_merge() {
    let data = ".data 0x0000000000003000 0x8\n .data.a 0x0000000000003000 0x6 lib.a(a.o)\n *fill* 0x0000000000003006 0x2\n";
    let section = MapSection::parse_section_data(data).unwrap();
    assert_eq!(section.sub_sections.len(), 1);
    assert_eq!(section.sub_sections[0].size(), 0x8);
    assert_eq!(section.get_sub_sections_total_size(), 0x8);
}

#[test]
fn section_parser_by_ranges() {
    let data =
        ".text 0x0000000000001000 0x10\n .text.main 0x0000000000001000 0x10 a.o(main.o)\n";
    let section = MapSection::parser(data).unwrap();
    assert_eq!(section.name, ".text");
    assert_eq!(section.address, Some(0x1000));
    assert_eq!(section.size, 0x10);
    assert_eq!(section.sub_sections.len(), 1);
    assert_eq!(section.sub_sections[0].name(), ".text.main");
    assert_eq!(section.get_sub_sections_total_size(), 0x10);
}

#[test]
fn memory_map_by_sections() {
    let data = ".text 0x0000000000001000 0x10\n .text.main 0x0000000000001000 0x10 a.o(main.o)\n\n.data 0x0000000000002000 0x8\n .data.x 0x0000000000002000 0x8 a.o(x.o)\n";
    let sections = Parser::parse_memory_map(data);
    assert_eq!(sections.len(), 2);
    assert_eq!(sections[0].name, ".text");
    assert_eq!(sections[1].name, ".data");
    assert_eq!(sections[1].sub_sections.len(), 1);
    assert_eq!(sections[1].sub_sections[0].name(), ".data.x");
}

#[test]
fn parse_fill_data_line() {
    assert_eq!(
        MapSection::parse_fill_data(" *fill* 0x0000000000003006 0x2"),
        Some((0x3006, 0x2))
    );
    assert_eq!(MapSection::parse_fill_data("no fill here"), None);
    assert_eq!(MapSection::parse_fill_data(" *fill* 3006 0x2"), None);
}

#[test]
fn failed_record_fails_segment() {
    // the second record's info line is decimal, so the whole span fails,
    // at entry granularity and at section granularity alike
    let data = ".text 0x0000000000001000 0x20\n .text.a 0x0000000000001000 0x10 a.o\n .text.b 1000 16 b.o\n";
    assert!(Parser::parse_segment(data).is_none());
    assert_eq!(
        MapSection::parser(data),
        Err(ParserError::InvalidMemoryMapSubSection)
    );
    assert_eq!(
        MapSection::parse_section_data(data),
        Err(ParserError::InvalidMemoryMapSubSection)
    );
}

#[test]
fn record_without_provenance_fails_section() {
    // a sub-section description must name its object; without one the
    // record, and with it the whole section, fails
    let data = ".text 0x0000000000001000 0x10\n .text.a 0x0000000000001000 0x10\n";
    assert_eq!(
        MapSection::parse_section_data(data),
        Err(ParserError::InvalidMemoryMapSubSection)
    );
    let good = ".text 0x0000000000001000 0x10\n .text.a 0x0000000000001000 0x10 a.o\n";
    let sec = MapSection::parse_section_data(good).unwrap();
    assert_eq!(sec.sub_sections.len(), 1);
}

#[test]
fn driver_skips_undecodable_chunks() {
    let data = "Linker script and memory map\n\n  LOAD /usr/lib/crt0.o\n\n.data 0x0000000000002000 0x8\n .data.x 0x0000000000002000 0x8 a.o(x.o)\n\n";
    let parsed = Parser::parse(data);
    assert_eq!(parsed.get_memory_map_segments().len(), 1);
    assert_eq!(parsed.get_memory_map_segments()[0].get_name(), ".data");
}

#[test]
fn two_line_matches_single_line() {
    let one = Parser::parse_entry_info(" rec 0x0000000000000040 0x8 lib.a(obj.o)").unwrap();
    let two =
        Parser::parse_entry_info(" rec\n                0x0000000000000040 0x8 lib.a(obj.o)")
            .unwrap();
    assert_eq!(one.get_name(), two.get_name());
    assert_eq!(one.get_address(), two.get_address());
    assert_eq!(one.get_original_size(), two.get_original_size());
    assert_eq!(one.get_object_name(), two.get_object_name());
    assert_eq!(one.get_library_name(), two.get_library_name());
}
