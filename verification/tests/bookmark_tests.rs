use comic_index::bookmarks::{add_bookmark, get_comic_bookmarks, remove_bookmark, Bookmark};

fn mark(id: &str, comic: &str, page: usize) -> Bookmark {
    Bookmark {
        id: id.to_string(),
        comic_path: comic.to_string(),
        comic_name: "Comic".to_string(),
        image_index: page,
        created_at: 7,
        note: None,
    }
}

#[test]
fn adding_deduplicates_by_place() {
    let mut list: Vec<Bookmark> = Vec::new();
    add_bookmark(&mut list, mark("1", "a.cbz", 3));
    add_bookmark(&mut list, mark("2", "a.cbz", 4));
    // same comic and page under a fresh id: ignored
    add_bookmark(&mut list, mark("3", "a.cbz", 3));
    // same page of another comic: kept
    add_bookmark(&mut list, mark("4", "b.cbz", 3));
    let ids: Vec<&str> = list.iter().map(|b| b.id.as_str()).collect();
    assert_eq!(ids, vec!["1", "2", "4"]);
}

#[test]
fn removal_is_by_id_and_keeps_order() {
    let mut list = vec![mark("1", "a.cbz", 0), mark("2", "a.cbz", 1), mark("3", "b.cbz", 0)];
    remove_bookmark(&mut list, "2");
    let ids: Vec<&str> = list.iter().map(|b| b.id.as_str()).collect();
    assert_eq!(ids, vec!["1", "3"]);
    remove_bookmark(&mut list, "nonexistent");
    assert_eq!(list.len(), 2);
}

#[test]
fn comic_selection_keeps_order() {
    let list = vec![
        mark("1", "a.cbz", 0),
        mark("2", "b.cbz", 0),
        mark("3", "a.cbz", 5),
        mark("4", "c.cbz", 2),
    ];
    let of_a = get_comic_bookmarks(list, "a.cbz");
    let ids: Vec<&str> = of_a.iter().map(|b| b.id.as_str()).collect();
    assert_eq!(ids, vec!["1", "3"]);
}
