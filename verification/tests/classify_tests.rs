use comic_index::classify::{get_mime_type, is_hidden, is_image_file, is_zip_file, starts_with_str};

#[test]
fn image_extensions_recognized() {
    assert!(is_image_file("page1.jpg"));
    assert!(is_image_file("PAGE1.JPG"));
    assert!(is_image_file("a/b/pic.jpeg"));
    assert!(is_image_file("x.png"));
    assert!(is_image_file("x.gif"));
    assert!(is_image_file("x.WebP"));
    assert!(is_image_file("x.bmp"));
    assert!(is_image_file("x.TIFF"));
    assert!(is_image_file("x.tif"));
}

#[test]
fn non_images_rejected() {
    assert!(!is_image_file("notes.txt"));
    assert!(!is_image_file("noextension"));
    assert!(!is_image_file(".DS_Store"));
    assert!(!is_image_file("x.jpg.bak"));
    assert!(!is_image_file("archive.zip"));
    assert!(!is_image_file("trailingdot."));
}

#[test]
fn hidden_basename_still_has_extension() {
    // `.x.jpg` has a dot beyond its leading one, so it classifies as an image,
    // while `.jpg` alone is a hidden name without an extension.
    assert!(is_image_file(".x.jpg"));
    assert!(!is_image_file(".jpg"));
    assert!(!is_image_file("dir.jpg/file"));
}

#[test]
fn zip_extensions_recognized() {
    assert!(is_zip_file("comic.zip"));
    assert!(is_zip_file("COMIC.ZIP"));
    assert!(is_zip_file("a/b/vol1.cbz"));
    assert!(is_zip_file("x.CbZ"));
    assert!(!is_zip_file("x.rar"));
    assert!(!is_zip_file("x.jpg"));
    assert!(!is_zip_file("zip"));
}

#[test]
fn mime_types_exact() {
    assert_eq!(get_mime_type("a.jpg"), "image/jpeg");
    assert_eq!(get_mime_type("a.JPEG"), "image/jpeg");
    assert_eq!(get_mime_type("a.png"), "image/png");
    assert_eq!(get_mime_type("a.gif"), "image/gif");
    assert_eq!(get_mime_type("a.webp"), "image/webp");
    assert_eq!(get_mime_type("a.bmp"), "image/bmp");
    assert_eq!(get_mime_type("a.tiff"), "image/tiff");
    assert_eq!(get_mime_type("a.tif"), "image/tiff");
    assert_eq!(get_mime_type("a.txt"), "application/octet-stream");
    assert_eq!(get_mime_type("noext"), "application/octet-stream");
}

#[test]
fn hidden_names() {
    assert!(is_hidden(".DS_Store"));
    assert!(is_hidden("."));
    assert!(!is_hidden("visible"));
    assert!(!is_hidden(""));
}

#[test]
fn prefixes() {
    assert!(starts_with_str("__MACOSX._page", "__MACOSX"));
    assert!(starts_with_str("abc", ""));
    assert!(!starts_with_str("__MACOS", "__MACOSX"));
    assert!(!starts_with_str("x__MACOSX", "__MACOSX"));
}
