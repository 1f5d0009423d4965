use std::io::Cursor;

use fclones::semantic_hash::{is_image_file, ComputeError, SemanticHash, SemanticHashType};

fn png_bytes_of_gray_8x8(pixels: [u8; 64]) -> Vec<u8> {
    let img = image::GrayImage::from_raw(8, 8, pixels.to_vec()).unwrap();
    let mut out = Cursor::new(Vec::new());
    image::DynamicImage::ImageLuma8(img)
        .write_to(&mut out, image::ImageFormat::Png)
        .unwrap();
    out.into_inner()
}

#[test]
fn exact_digest_is_deterministic() {
    let content: Vec<u8> = b"some file content".to_vec();
    let h1 = SemanticHash::compute(&content, false, SemanticHashType::Average).unwrap();
    let h2 = SemanticHash::compute(&content, false, SemanticHashType::Average).unwrap();
    assert_eq!(h1.content, h2.content);
    assert!(h1.content_matches(&h2));
}

#[test]
fn exact_digest_matches_reference_hash() {
    let content: Vec<u8> = b"reference input".to_vec();
    let h = SemanticHash::compute(&content, false, SemanticHashType::Average).unwrap();
    assert_eq!(h.content, xxhash_rust::xxh3::xxh3_64(b"reference input"));
    assert_ne!(h.content, 0);
}

#[test]
fn single_byte_change_changes_exact_digest() {
    let a: Vec<u8> = b"some file content".to_vec();
    let mut b = a.clone();
    b[3] ^= 1;
    let ha = SemanticHash::compute(&a, false, SemanticHashType::Average).unwrap();
    let hb = SemanticHash::compute(&b, false, SemanticHashType::Average).unwrap();
    assert_ne!(ha.content, hb.content);
    assert!(!ha.content_matches(&hb));
}

#[test]
fn perceptual_distance_to_self_is_zero() {
    let h = SemanticHash {
        perceptual: Some(vec![0b1010, 0, 7, 255, 1, 2, 3, 4]),
        content: 42,
    };
    assert_eq!(h.perceptual_distance(&h), 0);
}

#[test]
fn perceptual_distance_is_symmetric() {
    let a = SemanticHash {
        perceptual: Some(vec![0b1010, 0, 7, 255, 1, 2, 3, 4]),
        content: 1,
    };
    let b = SemanticHash {
        perceptual: Some(vec![0, 0b1100, 7, 0, 1, 2, 3, 5]),
        content: 2,
    };
    assert_eq!(a.perceptual_distance(&b), b.perceptual_distance(&a));
}

#[test]
fn perceptual_distance_counts_differing_bits() {
    let a = SemanticHash {
        perceptual: Some(vec![0b1010, 0]),
        content: 1,
    };
    let b = SemanticHash {
        perceptual: Some(vec![0, 0]),
        content: 2,
    };
    assert_eq!(a.perceptual_distance(&b), 2);
}

#[test]
fn uniform_image_hashes_to_all_zero_bits() {
    let bytes = png_bytes_of_gray_8x8([90; 64]);
    let h = SemanticHash::compute(&bytes, true, SemanticHashType::Average).unwrap();
    assert_eq!(h.perceptual, Some(vec![0; 8]));
}

#[test]
fn half_bright_image_sets_the_bright_columns() {
    let mut pixels = [0u8; 64];
    for row in 0..8 {
        for col in 4..8 {
            pixels[row * 8 + col] = 255;
        }
    }
    let bytes = png_bytes_of_gray_8x8(pixels);
    let h = SemanticHash::compute(&bytes, true, SemanticHashType::Average).unwrap();
    assert_eq!(h.perceptual, Some(vec![0b1111_0000; 8]));
}

#[test]
fn non_image_content_gets_no_perceptual_digest() {
    let content: Vec<u8> = b"plain text, not an image".to_vec();
    let h = SemanticHash::compute(&content, false, SemanticHashType::Average).unwrap();
    assert_eq!(h.perceptual, None);
    assert_eq!(h.content, xxhash_rust::xxh3::xxh3_64(b"plain text, not an image"));
}

#[test]
fn undecodable_image_content_is_an_error() {
    let content: Vec<u8> = b"this is not a decodable image".to_vec();
    let r = SemanticHash::compute(&content, true, SemanticHashType::Average);
    assert_eq!(r, Err(ComputeError::Undecodable));
}

#[test]
fn image_extensions_are_recognized_case_insensitively() {
    assert!(is_image_file("photo.jpg"));
    assert!(is_image_file("photo.JPG"));
    assert!(is_image_file("dir/photo.JpEg"));
    assert!(is_image_file("p.png"));
    assert!(is_image_file("p.webp"));
    assert!(!is_image_file("notes.txt"));
    assert!(!is_image_file("noextension"));
    assert!(!is_image_file(".bashrc"));
    assert!(!is_image_file("dir.jpg/file"));
}

#[test]
fn default_hash_type_is_average() {
    assert_eq!(SemanticHashType::default(), SemanticHashType::Average);
}
