use anvil_region::filename::{parse_region_file_name, region_name};

#[test]
fn test_parse_region_file_name() {
    // Valid examples
    assert_eq!(parse_region_file_name("r.0.0.mca"), Some((0, 0)));
    assert_eq!(parse_region_file_name("r.1.2.mca"), Some((1, 2)));
    assert_eq!(parse_region_file_name("r.1.-2.mca"), Some((1, -2)));
    assert_eq!(parse_region_file_name("r.-2.1.mca"), Some((-2, 1)));
    assert_eq!(parse_region_file_name("r.-1.-2.mca"), Some((-1, -2)));
    assert_eq!(
        parse_region_file_name("r.2147483647.2147483647.mca"),
        Some((i32::MAX, i32::MAX))
    );
    assert_eq!(
        parse_region_file_name("r.-2147483648.-2147483648.mca"),
        Some((i32::MIN, i32::MIN))
    );

    // Invalid examples
    // Extra dots
    assert_eq!(parse_region_file_name(".r.0.0.mca"), None);
    assert_eq!(parse_region_file_name("r..0.0.mca"), None);
    assert_eq!(parse_region_file_name("r.0..0.mca"), None);
    assert_eq!(parse_region_file_name("r.0.0..mca"), None);
    assert_eq!(parse_region_file_name("r.0.0.m.ca"), None);
    assert_eq!(parse_region_file_name("r.0.0.mc.a"), None);
    assert_eq!(parse_region_file_name("r.0.0.mca."), None);
    // Whitespace is always invalid
    assert_eq!(parse_region_file_name(" r.0.0.mca"), None);
    assert_eq!(parse_region_file_name("r .0.0.mca"), None);
    assert_eq!(parse_region_file_name("r. 0.0.mca"), None);
    assert_eq!(parse_region_file_name("r.0 .0.mca"), None);
    assert_eq!(parse_region_file_name("r.0. 0.mca"), None);
    assert_eq!(parse_region_file_name("r.0.0 .mca"), None);
    assert_eq!(parse_region_file_name("r.0.0. mca"), None);
    assert_eq!(parse_region_file_name("r.0.0.m ca"), None);
    assert_eq!(parse_region_file_name("r.0.0.mc a"), None);
    assert_eq!(parse_region_file_name("r.0.0.mca "), None);
    // Trailing data
    assert_eq!(parse_region_file_name("r.0.0.mca~"), None);
    assert_eq!(parse_region_file_name("r.0.0.mca_backup"), None);
    assert_eq!(parse_region_file_name("r.0.0.mca.backup"), None);
}

#[test]
fn parse_rejects_loose_numbers() {
    // Leading plus signs, leading zeros and overflow are all rejected.
    assert_eq!(parse_region_file_name("r.+1.0.mca"), None);
    assert_eq!(parse_region_file_name("r.01.0.mca"), None);
    assert_eq!(parse_region_file_name("r.0.00.mca"), None);
    assert_eq!(parse_region_file_name("r.2147483648.0.mca"), None);
    assert_eq!(parse_region_file_name("r.0.-2147483649.mca"), None);
    assert_eq!(parse_region_file_name("r.-.0.mca"), None);
    assert_eq!(parse_region_file_name("r.0.0x1.mca"), None);
    assert_eq!(parse_region_file_name(""), None);
    assert_eq!(parse_region_file_name("r"), None);
    assert_eq!(parse_region_file_name("r.0.0"), None);
}

#[test]
fn region_name_format() {
    assert_eq!(region_name(0, 0), "r.0.0.mca");
    assert_eq!(region_name(1, 2), "r.1.2.mca");
    assert_eq!(region_name(-1, -2), "r.-1.-2.mca");
    assert_eq!(region_name(i32::MAX, i32::MIN), "r.2147483647.-2147483648.mca");
}

#[test]
fn region_name_parses_back() {
    for &(x, z) in &[
        (0i32, 0i32),
        (1, -2),
        (-30, 17),
        (i32::MAX, i32::MAX),
        (i32::MIN, i32::MIN),
        (100, -100),
    ] {
        let name = region_name(x, z);
        assert_eq!(parse_region_file_name(&name), Some((x, z)));
    }
}
