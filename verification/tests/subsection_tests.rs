use parser::subsection::SubSection;

#[test]
fn single_line() {
    // valid
    const DATA_0: &str =
        " .bss.test  0x00000000DEADBEEF       0xFF /path/to/lib/libtest.a(test.cc.obj)\n";
    let subsection = match SubSection::parse(DATA_0) {
        Ok(ss) => ss,
        Err(_) => panic!(),
    };
    assert_eq!(subsection.name(), ".bss.test");
    assert_eq!(subsection.address(), 0x00000000DEADBEEF);
    assert_eq!(subsection.size(), 0xFF);

    // missing space before subsection name
    const DATA_1: &str =
        ".bss.test  0x00000000DEADBEEF       0xFF /path/to/lib/libtest.a(test.cc.obj)\n";
    assert!(SubSection::parse(DATA_1).is_err());

    // missing lib/obj
    const DATA_2: &str = " .bss.test  0x00000000DEADBEEF       0xFF\n";
    assert!(SubSection::parse(DATA_2).is_err());

    // missing size
    const DATA_3: &str =
        " .bss.test  0x00000000DEADBEEF        /path/to/lib/libtest.a(test.cc.obj)\n";
    assert!(SubSection::parse(DATA_3).is_err());

    // missing address
    const DATA_4: &str = " .bss.test         0xFF /path/to/lib/libtest.a(test.cc.obj)\n";
    assert!(SubSection::parse(DATA_4).is_err());

    // missing name
    const DATA_5: &str = "          0xFF /path/to/lib/libtest.a(test.cc.obj)\n";
    assert!(SubSection::parse(DATA_5).is_err());

    // invalid address format
    const DATA_6: &str =
        " .bss.test  00000000DEADBEEF       0xFF /path/to/lib/libtest.a(test.cc.obj)\n";
    assert!(SubSection::parse(DATA_6).is_err());

    // invalid size format
    const DATA_7: &str =
        " .bss.test  0x00000000DEADBEEF       FF /path/to/lib/libtest.a(test.cc.obj)\n";
    assert!(SubSection::parse(DATA_7).is_err());
}

#[test]
fn single_line_overlapping_fill() {
    // valid
    const DATA_0: &str = " .bss.test      0x000000000002261e       0x4 /path/to/lib/libtest.a(test.cc.obj)\n *fill*         0x000000000002261e       0x2\n";
    let subsection = match SubSection::parse(DATA_0) {
        Ok(ss) => ss,
        Err(_) => panic!(),
    };
    assert_eq!(subsection.name(), ".bss.test");
    assert_eq!(subsection.address(), 0x000000000002261e);
    assert_eq!(subsection.size(), 0x2);
}

#[test]
fn two_line() {
    const DATA_0: &str = " .bss.test                0x00000000DEADBEEF       0xFF /path/to/lib/libtest.a(test.cc.obj)\n";
    let subsection = match SubSection::parse(DATA_0) {
        Ok(ss) => ss,
        Err(_) => panic!(),
    };
    assert_eq!(subsection.name(), ".bss.test");
    assert_eq!(subsection.address(), 0x00000000DEADBEEF);
    assert_eq!(subsection.size(), 0xFF);

    // missing space before subsection name
    const DATA_1: &str = ".bss.test                0x00000000DEADBEEF       0xFF /path/to/lib/libtest.a(test.cc.obj)\n";
    assert!(SubSection::parse(DATA_1).is_err());

    // missing lib/obj
    const DATA_2: &str = " .bss.test                0x00000000DEADBEEF       0xFF \n";
    assert!(SubSection::parse(DATA_2).is_err());

    // missing size
    const DATA_3: &str = " .bss.test                0x00000000DEADBEEF        /path/to/lib/libtest.a(test.cc.obj)\n";
    assert!(SubSection::parse(DATA_3).is_err());

    // missing address
    const DATA_4: &str = " .bss.test                       0xFF /path/to/lib/libtest.a(test.cc.obj)\n";
    assert!(SubSection::parse(DATA_4).is_err());

    // missing name
    const DATA_5: &str = "                0x00000000DEADBEEF       0xFF /path/to/lib/libtest.a(test.cc.obj)\n";
    assert!(SubSection::parse(DATA_5).is_err());

    // invalid address format
    const DATA_6: &str = " .bss.test                00000000DEADBEEF       0xFF /path/to/lib/libtest.a(test.cc.obj)\n";
    assert!(SubSection::parse(DATA_6).is_err());

    // invalid size format
    const DATA_7: &str = " .bss.test                0x00000000DEADBEEF       FF /path/to/lib/libtest.a(test.cc.obj)\n";
    assert!(SubSection::parse(DATA_7).is_err());
}

#[test]
fn two_line_w_overlapping_fill() {
    const DATA_0: &str = " .bss.test                0x00000000DEADBEEF       0xFF /path/to/lib/libtest.a(test.cc.obj)\n *fill*         0x00000000DEADBEEF       0x01\n";

    assert!(SubSection::parse(DATA_0).is_ok());

    const DATA_1: &str = " .bss.test                0x00000000DEADBEEF       0xFF /path/to/lib/libtest.a(test.cc.obj)\n                                         0x70 (size before relaxing) *fill*         0x00000000DEADBEEF       0x01\n";

    assert!(SubSection::parse(DATA_1).is_ok());
}

#[test]
fn subsection_tests_new() {
    let name = "test".to_string();
    let address = 0;
    let size = 0;

    let section = SubSection::new(name.clone(), address, size);

    assert_eq!(section.name(), name);
    assert_eq!(section.address(), address);
    assert_eq!(section.size(), size);
}

#[test]
fn subsection_tests_new_size_non_overlaping() {
    let address = 0;
    let size = 1;
    let fill_address = 1;
    let fill_size = 2;

    let mut section = SubSection::new("test".to_string(), address, size);
    section.set_fill(fill_address, fill_size);

    assert_eq!(section.size(), size + fill_size)
}

#[test]
fn subsection_tests_new_size_overlaping() {
    let address = 0;
    let size = 1;
    let fill_address = 0;
    let fill_size = 2;

    let mut section = SubSection::new("test".to_string(), address, size);
    section.set_fill(fill_address, fill_size);

    assert_eq!(section.size(), fill_size)
}
