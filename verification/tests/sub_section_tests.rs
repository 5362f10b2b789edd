use parser::subsection::SubSection;
use parser::ParserError;

#[test]
fn basic_new() {
    let name = "test".to_string();
    let address = 0;
    let size = 0;

    let section = SubSection::new(name.clone(), address, size);

    assert_eq!(section.get_name(), name);
    assert_eq!(section.get_address(), address);
    assert_eq!(section.get_size(), size);
}

#[test]
fn test_size_non_overlaping() {
    let address = 0;
    let size = 1;
    let fill_address = 1;
    let fill_size = 2;

    let mut section = SubSection::new("test".to_string(), address, size);
    section.set_fill(fill_address, fill_size);

    assert_eq!(section.get_size(), size + fill_size)
}

#[test]
fn test_size_overlaping() {
    let address = 0;
    let size = 1;
    let fill_address = 0;
    let fill_size = 2;

    let mut section = SubSection::new("test".to_string(), address, size);
    section.set_fill(fill_address, fill_size);

    assert_eq!(section.get_size(), fill_size)
}

#[test]
fn from_str() {
    let name = "test";
    let address = 0;
    let size = 0;
    let valid_str = format!("{name} 0x{address} 0x{size} TEST").to_string();

    let str_section = SubSection::from_str(&valid_str);
    let new_section = SubSection::new(name.to_string(), address, size);
    assert_eq!(Ok(new_section), str_section);

    // Without '0x' in front of address and size
    let invalid_str = format!("{name} {address} {size} TEST").to_string();
    let str_section = SubSection::from_str(&invalid_str);
    assert_eq!(Err(ParserError::InvalidMemoryMapSubSection), str_section);

    // Missing size
    let invalid_str = format!("{name} {address} TEST").to_string();
    let str_section = SubSection::from_str(&invalid_str);
    assert_eq!(Err(ParserError::InvalidMemoryMapSubSection), str_section);

    // Missing address and size
    let invalid_str = format!("{name} TEST").to_string();
    let str_section = SubSection::from_str(&invalid_str);
    assert_eq!(Err(ParserError::InvalidMemoryMapSubSection), str_section);

    // Space at the beginning
    let invalid_str = format!(" {name} 0x{address} 0x{size} TEST").to_string();
    let str_section = SubSection::from_str(&invalid_str);
    assert_eq!(Err(ParserError::InvalidMemoryMapSubSection), str_section);
}
