use fclones::sidecar::{
    create_sidecar_path, create_sidecar_path_isolated, create_thumbnail_path_isolated,
    is_image_file, parse_thumbnail_sizes, SizeParseError,
};

#[test]
fn parses_a_list_of_sizes() {
    assert_eq!(
        parse_thumbnail_sizes("800x600,1024x768"),
        Ok(vec![(800, 600), (1024, 768)])
    );
}

#[test]
fn parses_a_single_size_with_blanks() {
    assert_eq!(parse_thumbnail_sizes("  64x64\t"), Ok(vec![(64, 64)]));
}

#[test]
fn segment_without_separator_is_invalid_format() {
    assert_eq!(
        parse_thumbnail_sizes("800"),
        Err(SizeParseError::InvalidFormat(String::from("800")))
    );
}

#[test]
fn segment_with_two_separators_is_invalid_format() {
    assert_eq!(
        parse_thumbnail_sizes("800x600x2"),
        Err(SizeParseError::InvalidFormat(String::from("800x600x2")))
    );
}

#[test]
fn non_numeric_width_is_reported() {
    assert_eq!(
        parse_thumbnail_sizes("ax600"),
        Err(SizeParseError::InvalidWidth(String::from("a")))
    );
}

#[test]
fn missing_height_is_reported() {
    assert_eq!(
        parse_thumbnail_sizes("800x"),
        Err(SizeParseError::InvalidHeight(String::from("")))
    );
}

#[test]
fn overflowing_width_is_reported() {
    assert_eq!(
        parse_thumbnail_sizes("5000000000x5"),
        Err(SizeParseError::InvalidWidth(String::from("5000000000")))
    );
}

#[test]
fn empty_input_is_invalid() {
    assert_eq!(
        parse_thumbnail_sizes(""),
        Err(SizeParseError::InvalidFormat(String::from("")))
    );
}

#[test]
fn first_bad_segment_wins() {
    assert_eq!(
        parse_thumbnail_sizes("10x10,bad,20x20"),
        Err(SizeParseError::InvalidFormat(String::from("bad")))
    );
}

#[test]
fn sidecar_path_replaces_the_extension() {
    assert_eq!(create_sidecar_path("/photos/img.jpg", None), "/photos/img.json");
}

#[test]
fn sidecar_path_mirrors_below_the_metadata_dir() {
    assert_eq!(
        create_sidecar_path("/photos/img.jpg", Some("/meta")),
        "/meta/photos/img.json"
    );
}

#[test]
fn isolated_sidecar_path_uses_the_stem() {
    assert_eq!(
        create_sidecar_path_isolated("/photos/img.jpg", None),
        "/photos/img.fclones.json"
    );
    assert_eq!(
        create_sidecar_path_isolated("/photos/img.jpg", Some("/meta")),
        "/meta/photos/img.fclones.json"
    );
}

#[test]
fn isolated_thumbnail_path_encodes_size_and_format() {
    assert_eq!(
        create_thumbnail_path_isolated("/p/a.jpg", (200, 100), None),
        "/p/.thumbnails/a_jpg_200x100.jpg"
    );
    assert_eq!(
        create_thumbnail_path_isolated("/p/a.jpg", (200, 100), Some("/t")),
        "/t/p/a_jpg_200x100.jpg"
    );
}

#[test]
fn thumbnail_path_without_extension_marks_the_format_unknown() {
    assert_eq!(
        create_thumbnail_path_isolated("scan", (10, 20), None),
        ".thumbnails/scan_img_10x20.jpg"
    );
}

#[test]
fn sidecar_image_check_covers_raw_formats() {
    assert!(is_image_file("shot.CR2"));
    assert!(is_image_file("shot.nef"));
    assert!(!is_image_file("shot.mp4"));
}
