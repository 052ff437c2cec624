use std::io::Cursor;
use std::io::Write;

use comic_index::cache::{
    get_zip_image_dimensions, read_zip_image, read_zip_image_bytes, ZipCache,
};
use comic_index::errors::ArchiveError;
use comic_index::zip_handler::{get_zip_image_list, read_zip_images_batch};

fn make_zip(entries: &[(&str, &[u8])], dirs: &[&str]) -> Vec<u8> {
    let options = zip::write::SimpleFileOptions::default();
    let mut w = zip::ZipWriter::new(Cursor::new(Vec::new()));
    for d in dirs {
        w.add_directory(*d, options).unwrap();
    }
    for (name, data) in entries {
        w.start_file(*name, options).unwrap();
        w.write_all(data).unwrap();
    }
    w.finish().unwrap().into_inner()
}

fn png_bytes(width: u32, height: u32) -> Vec<u8> {
    let img = image::DynamicImage::ImageRgba8(image::RgbaImage::new(width, height));
    let mut buf = Cursor::new(Vec::new());
    img.write_to(&mut buf, image::ImageFormat::Png).unwrap();
    buf.into_inner()
}

#[test]
fn listing_filters_orders_and_reindexes() {
    let bytes = make_zip(
        &[
            ("vol/page2.jpg", b"two"),
            ("vol/page10.jpg", b"ten"),
            ("vol/page1.jpg", b"one"),
            ("vol/notes.txt", b"notes"),
            ("vol/.thumb.jpg", b"t"),
            ("__MACOSX_res.jpg", b"r"),
        ],
        &["vol/"],
    );
    let list = get_zip_image_list(bytes).unwrap();
    let names: Vec<&str> = list.iter().map(|e| e.name.as_str()).collect();
    assert_eq!(names, vec!["page1.jpg", "page2.jpg", "page10.jpg"]);
    let indices: Vec<usize> = list.iter().map(|e| e.index).collect();
    assert_eq!(indices, vec![0, 1, 2]);
    assert_eq!(list[0].path, "vol/page1.jpg");
    assert_eq!(list[2].path, "vol/page10.jpg");
    assert_eq!(list[0].size, 3);
}

#[test]
fn parseable_archives_always_list() {
    // success is owed even when no entry is an image
    let bytes = make_zip(&[("notes.txt", b"n")], &[]);
    let list = get_zip_image_list(bytes).unwrap();
    assert!(list.is_empty());
}

#[test]
fn batch_succeeds_even_when_nothing_is_readable() {
    let bytes = make_zip(&[("p1.jpg", b"one")], &[]);
    let out = read_zip_images_batch(bytes, vec!["absent.jpg".to_string()]).unwrap();
    assert!(out.is_empty());
}

fn make_stored_zip(entries: &[(&str, &[u8])]) -> Vec<u8> {
    let options = zip::write::SimpleFileOptions::default()
        .compression_method(zip::CompressionMethod::Stored);
    let mut w = zip::ZipWriter::new(Cursor::new(Vec::new()));
    for (name, data) in entries {
        w.start_file(*name, options).unwrap();
        w.write_all(data).unwrap();
    }
    w.finish().unwrap().into_inner()
}

/// Rewrites one entry's compression-method field, in both its local
/// file header and its central directory record.
fn set_compression_method(bytes: &mut [u8], entry_name: &str, method: u16) {
    let name = entry_name.as_bytes();
    let hits: Vec<usize> =
        (0..bytes.len() - name.len() + 1).filter(|&i| &bytes[i..i + name.len()] == name).collect();
    assert_eq!(hits.len(), 2);
    let m = method.to_le_bytes();
    let local = hits[0] - 30;
    assert_eq!(&bytes[local..local + 4], b"PK\x03\x04");
    bytes[local + 8] = m[0];
    bytes[local + 9] = m[1];
    let central = hits[1] - 46;
    assert_eq!(&bytes[central..central + 4], b"PK\x01\x02");
    bytes[central + 10] = m[0];
    bytes[central + 11] = m[1];
}

#[test]
fn unopenable_entries_are_skipped_not_fatal() {
    let mut bytes = make_stored_zip(&[("page1.jpg", b"one"), ("locked.jpg", b"two")]);
    // a compression method this build cannot decompress
    set_compression_method(&mut bytes, "locked.jpg", 12);
    let list = get_zip_image_list(bytes.clone()).unwrap();
    let names: Vec<&str> = list.iter().map(|e| e.name.as_str()).collect();
    assert_eq!(names, vec!["page1.jpg"]);
    // the unreadable entry still resolves by exact name; only its read fails
    let mut cache = ZipCache::new();
    cache.get_or_open("p.cbz", bytes).unwrap();
    assert_eq!(read_zip_image_bytes(&mut cache, "p.cbz", "page1.jpg").unwrap(), b"one".to_vec());
    let locked = read_zip_image_bytes(&mut cache, "p.cbz", "locked.jpg");
    assert!(matches!(
        locked,
        Err(ArchiveError::OpenFailed) | Err(ArchiveError::Io) | Err(ArchiveError::CorruptArchive)
    ));
}

#[test]
fn listing_rejects_garbage() {
    let r = get_zip_image_list(vec![1, 2, 3, 4, 5]);
    assert!(matches!(
        r,
        Err(ArchiveError::CorruptArchive) | Err(ArchiveError::OpenFailed) | Err(ArchiveError::Io)
    ));
}

#[test]
fn cached_reads_return_entry_bytes() {
    let bytes = make_zip(&[("a.png", b"abc"), ("b.jpg", b"hello")], &[]);
    let mut cache = ZipCache::new();
    assert!(!cache.contains_archive("x.zip"));
    cache.get_or_open("x.zip", bytes).unwrap();
    assert!(cache.contains_archive("x.zip"));
    assert_eq!(read_zip_image_bytes(&mut cache, "x.zip", "a.png").unwrap(), b"abc".to_vec());
    assert_eq!(read_zip_image_bytes(&mut cache, "x.zip", "b.jpg").unwrap(), b"hello".to_vec());
    // repeated reads of the same cached archive keep returning the same bytes
    for _ in 0..3 {
        assert_eq!(read_zip_image_bytes(&mut cache, "x.zip", "a.png").unwrap(), b"abc".to_vec());
        assert_eq!(
            read_zip_image_bytes(&mut cache, "x.zip", "b.jpg").unwrap(),
            b"hello".to_vec()
        );
    }
}

#[test]
fn read_does_not_require_image_classification() {
    // an entry that the listing filters out is still readable by exact name
    let bytes = make_zip(&[("page1.jpg", b"one"), ("notes.txt", b"notes")], &[]);
    let list = get_zip_image_list(bytes.clone()).unwrap();
    assert_eq!(list.len(), 1);
    let mut cache = ZipCache::new();
    cache.get_or_open("c.cbz", bytes).unwrap();
    assert_eq!(read_zip_image_bytes(&mut cache, "c.cbz", "notes.txt").unwrap(), b"notes".to_vec());
    // only a name absent from the archive is EntryNotFound
    assert_eq!(
        read_zip_image_bytes(&mut cache, "c.cbz", "missing.jpg"),
        Err(ArchiveError::EntryNotFound)
    );
}

#[test]
fn unopened_archive_is_not_found() {
    let mut cache = ZipCache::new();
    assert_eq!(
        read_zip_image_bytes(&mut cache, "never.zip", "a.jpg"),
        Err(ArchiveError::NotFound)
    );
}

#[test]
fn opening_garbage_leaves_cache_unchanged() {
    let mut cache = ZipCache::new();
    let r = cache.get_or_open("bad.zip", vec![9, 9, 9]);
    assert!(r.is_err());
    assert!(!cache.contains_archive("bad.zip"));
}

#[test]
fn capacity_five_evicts_first_opened() {
    let mut cache = ZipCache::new();
    let names = ["a.zip", "b.zip", "c.zip", "d.zip", "e.zip", "f.zip"];
    for n in names.iter() {
        let bytes = make_zip(&[("p1.jpg", n.as_bytes())], &[]);
        cache.get_or_open(n, bytes).unwrap();
    }
    // the first-opened, never re-accessed archive is the one evicted
    assert!(!cache.contains_archive("a.zip"));
    for n in &names[1..] {
        assert!(cache.contains_archive(n));
    }
}

#[test]
fn promotion_protects_recently_used_archives() {
    let mut cache = ZipCache::new();
    for n in ["a.zip", "b.zip", "c.zip", "d.zip", "e.zip"] {
        let bytes = make_zip(&[("p1.jpg", n.as_bytes())], &[]);
        cache.get_or_open(n, bytes).unwrap();
    }
    // recency, most recent first: e d c b a; touch a and b to make c the
    // least recently used
    read_zip_image_bytes(&mut cache, "a.zip", "p1.jpg").unwrap();
    cache.get_or_open("b.zip", Vec::new()).unwrap();
    let bytes = make_zip(&[("p1.jpg", b"f")], &[]);
    cache.get_or_open("f.zip", bytes).unwrap();
    assert!(!cache.contains_archive("c.zip"));
    for n in ["a.zip", "b.zip", "d.zip", "e.zip", "f.zip"] {
        assert!(cache.contains_archive(n));
    }
}

#[test]
fn data_urls_from_cache() {
    let bytes = make_zip(&[("a.png", b"abc"), ("raw.bin", b"hi")], &[]);
    let mut cache = ZipCache::new();
    cache.get_or_open("x.zip", bytes).unwrap();
    assert_eq!(
        read_zip_image(&mut cache, "x.zip", "a.png").unwrap(),
        "data:image/png;base64,YWJj"
    );
    assert_eq!(
        read_zip_image(&mut cache, "x.zip", "raw.bin").unwrap(),
        "data:application/octet-stream;base64,aGk="
    );
    assert_eq!(
        read_zip_image(&mut cache, "x.zip", "nope.png"),
        Err(ArchiveError::EntryNotFound)
    );
}

#[test]
fn dimensions_of_archived_page() {
    let png = png_bytes(3, 2);
    let bytes = make_zip(&[("page1.png", &png), ("notes.txt", b"hi")], &[]);
    let mut cache = ZipCache::new();
    cache.get_or_open("dims.cbz", bytes).unwrap();
    assert_eq!(get_zip_image_dimensions(&mut cache, "dims.cbz", "page1.png").unwrap(), (3, 2));
    assert_eq!(
        get_zip_image_dimensions(&mut cache, "dims.cbz", "notes.txt"),
        Err(ArchiveError::Io)
    );
    assert_eq!(
        get_zip_image_dimensions(&mut cache, "dims.cbz", "absent.png"),
        Err(ArchiveError::EntryNotFound)
    );
}

#[test]
fn batch_reads_skip_unreadable_pages() {
    let bytes = make_zip(&[("p1.jpg", b"one"), ("p2.png", b"abc")], &[]);
    let paths = vec!["p1.jpg".to_string(), "missing.gif".to_string(), "p2.png".to_string()];
    let out = read_zip_images_batch(bytes, paths).unwrap();
    assert_eq!(out.len(), 2);
    assert_eq!(out[0].0, "p1.jpg");
    assert_eq!(out[0].1, "data:image/jpeg;base64,b25l");
    assert_eq!(out[1].0, "p2.png");
    assert_eq!(out[1].1, "data:image/png;base64,YWJj");
}

#[test]
fn batch_rejects_garbage_container() {
    let r = read_zip_images_batch(vec![0, 1, 2], vec!["a.jpg".to_string()]);
    assert!(r.is_err());
}
