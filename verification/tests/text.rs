use dmmt::text::{is_nether_dimension, parse_i32_range, parse_region_file_name, should_render_dimension, str_eq};

/// What the file walker accepts as a region file name.
fn reference(filename: &str) -> Option<(i32, i32)> {
    if filename.starts_with("r.") && filename.ends_with(".mca") {
        let parts: Vec<&str> = filename.split('.').collect();
        if parts.len() == 4 {
            if let (Ok(rx), Ok(rz)) = (parts[1].parse::<i32>(), parts[2].parse::<i32>()) {
                return Some((rx, rz));
            }
        }
    }
    None
}

#[test]
fn region_file_names() {
    assert_eq!(parse_region_file_name("r.0.0.mca"), Some((0, 0)));
    assert_eq!(parse_region_file_name("r.-1.2.mca"), Some((-1, 2)));
    assert_eq!(parse_region_file_name("r.+5.-7.mca"), Some((5, -7)));
    assert_eq!(parse_region_file_name("r.-2147483648.2147483647.mca"), Some((i32::MIN, i32::MAX)));
    assert_eq!(parse_region_file_name("r.2147483648.0.mca"), None);
    assert_eq!(parse_region_file_name("r.1.2.mcc"), None);
    assert_eq!(parse_region_file_name("r.a.2.mca"), None);
    assert_eq!(parse_region_file_name("r.1.2.3.mca"), None);
    assert_eq!(parse_region_file_name("r.mca"), None);
    assert_eq!(parse_region_file_name("x.1.2.mca"), None);
}

#[test]
fn region_file_names_agree_with_split_and_parse() {
    let parts = ["", "0", "-", "+", "12", "-3", "+4", "x", "1x", "007", "-0", "99999999999", "-2147483649", "é", " 1"];
    let mut checked = 0;
    for a in parts.iter() {
        for b in parts.iter() {
            for pre in ["r.", "r", "q.", ""].iter() {
                for suf in [".mca", ".mca.", "mca", ".mc"].iter() {
                    let name = format!("{}{}.{}{}", pre, a, b, suf);
                    assert_eq!(parse_region_file_name(&name), reference(&name), "{:?}", name);
                    checked += 1;
                }
            }
        }
    }
    assert!(checked > 1000);
}

#[test]
fn decimal_parsing_matches_std() {
    let samples = ["0", "-0", "+0", "1", "-1", "+", "-", "", "2147483647", "2147483648", "-2147483648", "-2147483649",
        "00000000000000000000012", "12a", "a12", "+-1", "--1", "1_000", "99999999999999999999", "٣"];
    for s in samples.iter() {
        let b = s.as_bytes();
        assert_eq!(parse_i32_range(b, 0, b.len()), s.parse::<i32>().ok(), "{:?}", s);
    }
    assert_eq!(parse_i32_range(b"xx-42yy", 2, 5), Some(-42));
}

#[test]
fn dimension_folders() {
    assert!(should_render_dimension("overworld"));
    assert!(should_render_dimension("the_nether"));
    assert!(!should_render_dimension("creative_world"));
    assert!(!should_render_dimension(".hidden"));
    assert!(should_render_dimension(""));
    assert!(should_render_dimension("creative_world2"));
    assert!(is_nether_dimension("the_nether"));
    assert!(!is_nether_dimension("the_end"));
}

#[test]
fn string_equality() {
    assert!(str_eq("abc", "abc"));
    assert!(!str_eq("abc", "abd"));
    assert!(!str_eq("abc", "ab"));
    assert!(str_eq("ünï", "ünï"));
}
