use parser::object::Object;

#[test]
fn new_empty() {
    let object_name = "fixtureObjectName002";
    let object = Object::new(object_name);

    assert_eq!(object.get_name(), object_name);
    assert_eq!(object.get_total_size(), 0);
}

#[test]
fn new_distinct_sections() {
    let object_name = "fixtureObjectName003";
    let mut object = Object::new(object_name);

    let mut sum = 0;
    for i in 0..10u64 {
        let segment_name = format!("fixtureSegment{:04}", i);
        let segment_size = 1000 + 17 * i;
        sum += segment_size;

        object.update_segment_size(&segment_name, segment_size)
    }

    assert_eq!(object.get_total_size(), sum);
}

#[test]
fn new_same_section() {
    let object_name = "fixtureObjectName004";
    let mut object = Object::new(object_name);
    let segment_name = "fixtureSegment9999";

    let mut sum = 0;
    for i in 0..10u64 {
        let segment_size = 2000 + 31 * i;
        sum += segment_size;

        object.update_segment_size(segment_name, segment_size)
    }

    assert_eq!(object.get_total_size(), sum);
}
