use kvs::names::parse_segment_file_name;
use kvs::names::segment_file_name;

#[test]
fn names_are_prefix_decimal_extension() {
    assert_eq!(segment_file_name(0), "kvlog_0.cmdlog");
    assert_eq!(segment_file_name(7), "kvlog_7.cmdlog");
    assert_eq!(segment_file_name(1234567890), "kvlog_1234567890.cmdlog");
    assert_eq!(segment_file_name(u64::MAX), "kvlog_18446744073709551615.cmdlog");
}

#[test]
fn parse_round_trips_names() {
    for id in [0u64, 1, 9, 10, 4096, 1700000000000000000, u64::MAX] {
        let name = segment_file_name(id);
        assert_eq!(parse_segment_file_name(&name), Some(id), "name {}", name);
    }
}

#[test]
fn parse_ignores_foreign_files() {
    let bad = [
        "",
        "kvlog_.cmdlog",
        "kvlog_01.cmdlog",      // leading zero
        "kvlog_12x.cmdlog",     // non-digit
        "kvlog_1.cmdlo",        // wrong extension
        "kvlog1.cmdlog",        // missing underscore
        "kvlOg_1.cmdlog",       // wrong case
        "notes.txt",
        "kvlog_18446744073709551616.cmdlog", // one past u64::MAX
        "kvlog_99999999999999999999.cmdlog", // far past u64::MAX
    ];
    for name in bad {
        assert_eq!(parse_segment_file_name(&name.to_string()), None, "accepted {:?}", name);
    }
}

#[test]
fn equal_width_names_sort_in_creation_order() {
    let mut names: Vec<String> = vec![
        segment_file_name(1700000000000000002),
        segment_file_name(1700000000000000000),
        segment_file_name(1700000000000000001),
    ];
    names.sort();
    assert_eq!(names[0], segment_file_name(1700000000000000000));
    assert_eq!(names[2], segment_file_name(1700000000000000002));
}
