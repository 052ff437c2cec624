use std::io::Cursor;

use comic_index::errors::ScanError;
use comic_index::images::{
    chunk_layout, get_image_dimensions, read_image_as_base64, read_images_batch,
};

#[test]
fn data_url_rendering() {
    assert_eq!(read_image_as_base64("x.jpg", b"hi"), "data:image/jpeg;base64,aGk=");
    assert_eq!(read_image_as_base64("a/b.png", b"abc"), "data:image/png;base64,YWJj");
    assert_eq!(read_image_as_base64("x.dat", b""), "data:application/octet-stream;base64,");
}

#[test]
fn batch_rendering_keeps_paths_and_reports_failures() {
    let items = vec![
        ("a.png".to_string(), Some(b"abc".to_vec())),
        ("b.jpg".to_string(), None),
        ("c.gif".to_string(), Some(Vec::new())),
    ];
    let out = read_images_batch(items);
    assert_eq!(out.len(), 3);
    assert_eq!(out[0].0, "a.png");
    assert_eq!(out[0].1, Ok("data:image/png;base64,YWJj".to_string()));
    assert_eq!(out[1].0, "b.jpg");
    assert_eq!(out[1].1, Err(ScanError::NotFound));
    assert_eq!(out[2].1, Ok("data:image/gif;base64,".to_string()));
}

#[test]
fn dimensions_from_header_bytes() {
    let img = image::DynamicImage::ImageRgba8(image::RgbaImage::new(7, 4));
    let mut buf = Cursor::new(Vec::new());
    img.write_to(&mut buf, image::ImageFormat::Png).unwrap();
    assert_eq!(get_image_dimensions(&buf.into_inner()), Some((7, 4)));
    assert_eq!(get_image_dimensions(b"not an image"), None);
}

#[test]
fn short_pages_stay_whole() {
    assert_eq!(chunk_layout(5, 3), vec![(0, 5)]);
    assert_eq!(chunk_layout(6, 3), vec![(0, 6)]);
    assert_eq!(chunk_layout(0, 4), vec![(0, 0)]);
}

#[test]
fn tall_pages_split_into_bands() {
    assert_eq!(chunk_layout(10, 3), vec![(0, 3), (3, 3), (6, 3), (9, 1)]);
    assert_eq!(chunk_layout(9, 3), vec![(0, 3), (3, 3), (6, 3)]);
    assert_eq!(chunk_layout(7, 3), vec![(0, 3), (3, 3), (6, 1)]);
}
