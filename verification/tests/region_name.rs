use minedmap::region_name::{parse_region_filename, region_file_name};

#[test]
fn region_filename_exact_values() {
    assert_eq!(parse_region_filename("r.0.0.mca"), Some((0, 0)));
    assert_eq!(parse_region_filename("r.1.-2.mca"), Some((1, -2)));
    assert_eq!(parse_region_filename("r.-17.230.mca"), Some((-17, 230)));
    assert_eq!(parse_region_filename("r.+5.007.mca"), Some((5, 7)));
    assert_eq!(
        parse_region_filename("r.2147483647.-2147483648.mca"),
        Some((i32::MAX, i32::MIN))
    );
    assert_eq!(parse_region_filename("r.-0.+0.mca"), Some((0, 0)));
}

#[test]
fn region_filename_numbers_out_of_range() {
    assert_eq!(parse_region_filename("r.2147483648.0.mca"), None);
    assert_eq!(parse_region_filename("r.0.-2147483649.mca"), None);
    assert_eq!(parse_region_filename("r.99999999999999999999999.0.mca"), None);
}

#[test]
fn region_filename_other_names() {
    let names: [&str; 22] = [
        "",
        "r",
        "r.",
        "r.1.2",
        "r.1.2.",
        "r.1.2.mc",
        "r.1.2.mcr",
        "r.1.2.mca.tmp",
        "r.1.2.3.mca",
        "r.1.mca",
        "r..2.mca",
        "r.1..mca",
        "r.-.2.mca",
        "r.1.+.mca",
        "r.1a.2.mca",
        "r. 1.2.mca",
        "r.1.2 .mca",
        "r.--1.2.mca",
        "R.1.2.mca",
        "x.1.2.mca",
        "r.1.2.MCA",
        "r.١.2.mca",
    ];
    for name in names {
        assert_eq!(parse_region_filename(name), None);
    }
}

#[test]
fn region_file_name_exact_values() {
    assert_eq!(region_file_name(0, 0, "bin", false), "r.0.0.bin");
    assert_eq!(region_file_name(1, -2, "bin", true), "r.1.-2.bin.tmp");
    assert_eq!(region_file_name(-17, 230, "png", false), "r.-17.230.png");
    assert_eq!(region_file_name(10, 100, "png", true), "r.10.100.png.tmp");
    assert_eq!(
        region_file_name(i32::MAX, i32::MIN, "mca", false),
        "r.2147483647.-2147483648.mca"
    );
    assert_eq!(region_file_name(9, -9, "", false), "r.9.-9.");
}

#[test]
fn region_file_name_is_read_back() {
    let values: [i32; 9] = [0, 1, -1, 9, 10, -10, 12345, i32::MAX, i32::MIN];
    for x in values {
        for z in values {
            let name = region_file_name(x, z, "mca", false);
            assert_eq!(name, format!("r.{}.{}.mca", x, z));
            assert_eq!(parse_region_filename(&name), Some((x, z)));
            let temp = region_file_name(x, z, "mca", true);
            assert_eq!(parse_region_filename(&temp), None);
        }
    }
}
