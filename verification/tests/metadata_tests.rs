use fclones::metadata_preserve::{
    classify_attrs, extract, is_image_file, merge_metadata_from_duplicates, ImageMetadata,
};

fn lookup<'a>(section: &'a [(String, String)], key: &str) -> Option<&'a str> {
    section
        .iter()
        .find(|(k, _)| k == key)
        .map(|(_, v)| v.as_str())
}

fn meta(exif: &[(&str, &str)], modified_time: u64) -> ImageMetadata {
    ImageMetadata {
        exif: exif
            .iter()
            .map(|(k, v)| (k.to_string(), v.to_string()))
            .collect(),
        iptc: Vec::new(),
        xmp: Vec::new(),
        modified_time,
    }
}

#[test]
fn newer_side_wins_on_merge() {
    let mut a = meta(&[("user.exif.author", "old")], 100);
    let b = meta(&[("user.exif.author", "new"), ("user.exif.lens", "50mm")], 200);
    a.merge(&b);
    assert_eq!(lookup(&a.exif, "user.exif.author"), Some("new"));
    assert_eq!(lookup(&a.exif, "user.exif.lens"), Some("50mm"));
    assert_eq!(a.modified_time, 200);
}

#[test]
fn older_side_only_fills_missing_keys() {
    let mut a = meta(&[("user.exif.author", "kept")], 300);
    let b = meta(&[("user.exif.author", "ignored"), ("user.exif.lens", "35mm")], 200);
    a.merge(&b);
    assert_eq!(lookup(&a.exif, "user.exif.author"), Some("kept"));
    assert_eq!(lookup(&a.exif, "user.exif.lens"), Some("35mm"));
    assert_eq!(a.modified_time, 300);
}

#[test]
fn classification_sorts_by_prefix_and_drops_the_rest() {
    let attrs = vec![
        (String::from("user.exif.a"), String::from("1")),
        (String::from("user.iptc.b"), String::from("2")),
        (String::from("user.xmp.c"), String::from("3")),
        (String::from("user.other.d"), String::from("4")),
        (String::from("security.selinux"), String::from("5")),
    ];
    let m = classify_attrs(&attrs, 7);
    assert_eq!(lookup(&m.exif, "user.exif.a"), Some("1"));
    assert_eq!(lookup(&m.iptc, "user.iptc.b"), Some("2"));
    assert_eq!(lookup(&m.xmp, "user.xmp.c"), Some("3"));
    assert_eq!(m.exif.len(), 1);
    assert_eq!(m.iptc.len(), 1);
    assert_eq!(m.xmp.len(), 1);
    assert_eq!(m.modified_time, 7);
}

#[test]
fn extraction_from_an_unreadable_path_is_empty() {
    let m = extract("/nonexistent/surely/missing.jpg", 42);
    assert!(m.exif.is_empty());
    assert!(m.iptc.is_empty());
    assert!(m.xmp.is_empty());
    assert_eq!(m.modified_time, 42);
}

#[test]
fn merging_unreadable_duplicates_keeps_the_latest_time() {
    let files = vec![
        (String::from("/nonexistent/a.jpg"), 10u64),
        (String::from("/nonexistent/b.jpg"), 30u64),
        (String::from("/nonexistent/c.jpg"), 20u64),
    ];
    let m = merge_metadata_from_duplicates(&files);
    assert!(m.exif.is_empty());
    assert_eq!(m.modified_time, 30);
}

#[test]
fn metadata_image_check_covers_raw_formats() {
    assert!(is_image_file("x.arw"));
    assert!(is_image_file("x.TIFF"));
    assert!(!is_image_file("x.pdf"));
    assert!(!is_image_file("x"));
}
