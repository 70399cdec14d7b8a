use tfenv_rs::version::{format_version, parse_version, sort_versions_desc, version_lt, Version};

fn roundtrip(s: &str) {
    let v = parse_version(s).expect("should parse");
    assert_eq!(format_version(&v).as_str(), s);
}

#[test]
fn test_parse_format_roundtrip_numeric() {
    // parsing then formatting returns the original string
    roundtrip("0.0.0");
    roundtrip("1.2.3");
    roundtrip("0.13.6");
    roundtrip("1.5.0");
    roundtrip("10.200.3000");
    roundtrip("18446744073709551615.0.1");
}

#[test]
fn test_parse_format_roundtrip_prerelease() {
    roundtrip("1.5.0-beta1");
    roundtrip("0.11.15-oci");
    roundtrip("1.0.0-alpha.1");
    roundtrip("2.0.0-rc-x.y");
}

#[test]
fn test_parse_fields() {
    let v = parse_version("1.2.3").unwrap();
    assert_eq!(v.major, 1);
    assert_eq!(v.minor, 2);
    assert_eq!(v.patch, 3);
    assert!(v.pre.is_none());
    let w = parse_version("1.2.3-beta1").unwrap();
    assert_eq!(w.pre.as_deref(), Some("beta1"));
}

#[test]
fn test_parse_rejections() {
    assert!(parse_version("").is_none());
    assert!(parse_version("1").is_none());
    assert!(parse_version("1.2").is_none());
    assert!(parse_version("1.2.3.4").is_none());
    assert!(parse_version("01.2.3").is_none());
    assert!(parse_version("1.02.3").is_none());
    assert!(parse_version("v1.2.3").is_none());
    assert!(parse_version("1.2.x").is_none());
    assert!(parse_version("1.2.3-").is_none());
    assert!(parse_version("1.2.3-a..b").is_none());
    assert!(parse_version("1.2.3-.a").is_none());
    assert!(parse_version("latest").is_none());
    // numbers past the u64 range are "not a version"
    assert!(parse_version("18446744073709551616.0.0").is_none());
}

#[test]
fn test_version_order() {
    let v = |s: &str| parse_version(s).unwrap();
    assert!(version_lt(&v("1.2.3"), &v("1.2.4")));
    assert!(version_lt(&v("1.2.9"), &v("1.3.0")));
    assert!(version_lt(&v("1.9.9"), &v("2.0.0")));
    assert!(!version_lt(&v("1.2.3"), &v("1.2.3")));
    // a prerelease sorts below its corresponding release
    assert!(version_lt(&v("1.5.0-beta1"), &v("1.5.0")));
    assert!(!version_lt(&v("1.5.0"), &v("1.5.0-beta1")));
}

#[test]
fn test_sort_versions_desc() {
    let names = ["0.13.6", "1.3.0", "1.2.5", "1.2.5-rc1", "1.2.0"];
    let vs: Vec<Version> = names.iter().map(|s| parse_version(s).unwrap()).collect();
    let sorted = sort_versions_desc(vs);
    let out: Vec<String> = sorted.iter().map(|v| format_version(v)).collect();
    assert_eq!(out, vec!["1.3.0", "1.2.5", "1.2.5-rc1", "1.2.0", "0.13.6"]);
}
