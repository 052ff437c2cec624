//! Bookmark bookkeeping: the pure list operations behind the
//! persisted reading state. Loading and saving the surrounding JSON
//! document is the caller's business; these functions say exactly how
//! the bookmark list changes.

use vstd::prelude::*;

verus! {

/// One remembered page of one comic.
pub struct Bookmark {
    pub id: String,
    pub comic_path: String,
    pub comic_name: String,
    pub image_index: usize,
    pub created_at: u64,
    pub note: Option<String>,
}

/// Keeping predicate of [`remove_bookmark`]: every bookmark whose id
/// is not the removed one stays.
pub open spec fn keeps_other_ids(id: Seq<char>) -> spec_fn(Bookmark) -> bool {
    |b: Bookmark| b.id@ != id
}

/// Selection predicate of [`get_comic_bookmarks`].
pub open spec fn of_comic(path: Seq<char>) -> spec_fn(Bookmark) -> bool {
    |b: Bookmark| b.comic_path@ == path
}

/// Two bookmarks mark the same place: the same comic and page.
pub open spec fn same_place(a: Bookmark, b: Bookmark) -> bool {
    a.comic_path@ == b.comic_path@ && a.image_index == b.image_index
}

/// Appends `bookmark`, unless one marking the same place is already
/// present — then the list stays as it is.
pub fn add_bookmark(bookmarks: &mut Vec<Bookmark>, bookmark: Bookmark)
    ensures
        (exists|i: int|
            0 <= i < old(bookmarks)@.len() && same_place(#[trigger] old(bookmarks)@[i], bookmark))
            ==> final(bookmarks)@ == old(bookmarks)@,
        !(exists|i: int|
            0 <= i < old(bookmarks)@.len() && same_place(#[trigger] old(bookmarks)@[i], bookmark))
            ==> final(bookmarks)@ == old(bookmarks)@.push(bookmark),
{
    let mut i: usize = 0;
    let mut exists_here = false;
    while i < bookmarks.len()
        invariant
            i <= bookmarks@.len(),
            bookmarks@ == old(bookmarks)@,
            exists_here == exists|j: int|
                0 <= j < i && same_place(#[trigger] bookmarks@[j], bookmark),
        decreases bookmarks@.len() - i,
    {
        let b = &bookmarks[i];
        if b.comic_path == bookmark.comic_path && b.image_index == bookmark.image_index {
            proof {
                assert(same_place(bookmarks@[i as int], bookmark));
            }
            exists_here = true;
        }
        i = i + 1;
    }
    if !exists_here {
        bookmarks.push(bookmark);
    }
}

/// Drops every bookmark carrying `bookmark_id`; the rest keep their
/// order.
pub fn remove_bookmark(bookmarks: &mut Vec<Bookmark>, bookmark_id: &str)
    ensures
        final(bookmarks)@ == old(bookmarks)@.filter(keeps_other_ids(bookmark_id@)),
{
    let wanted = bookmark_id.to_owned();
    let ghost orig = bookmarks@;
    let mut kept: Vec<Bookmark> = Vec::new();
    let ghost mut done: int = 0;
    proof {
        reveal(Seq::filter);
        assert(orig.skip(0) =~= orig);
        assert(orig.take(0).filter(keeps_other_ids(bookmark_id@)) =~= Seq::<Bookmark>::empty());
    }
    while bookmarks.len() > 0
        invariant
            0 <= done <= orig.len(),
            wanted@ == bookmark_id@,
            bookmarks@ == orig.skip(done),
            kept@ == orig.take(done).filter(keeps_other_ids(bookmark_id@)),
        decreases bookmarks@.len(),
    {
        let b = bookmarks.remove(0);
        proof {
            reveal(Seq::filter);
            assert(b == orig[done]);
            assert(orig.skip(done).remove(0) =~= orig.skip(done + 1));
            assert(orig.take(done + 1).drop_last() =~= orig.take(done));
            assert(orig.take(done + 1).last() == orig[done]);
            let pred = keeps_other_ids(bookmark_id@);
            let big = orig.take(done + 1);
            assert(big.len() == done + 1);
            assert(big.filter(pred) == (if pred(big.last()) {
                big.drop_last().filter(pred).push(big.last())
            } else {
                big.drop_last().filter(pred)
            }));
            assert(big.drop_last().filter(pred) == orig.take(done).filter(pred));
            assert(pred(orig[done]) == (b.id@ != bookmark_id@));
        }
        if !(b.id == wanted) {
            kept.push(b);
        }
        proof {
            done = done + 1;
        }
    }
    proof {
        assert(orig.take(done) =~= orig);
    }
    *bookmarks = kept;
}

/// The bookmarks of one comic, in their stored order.
pub fn get_comic_bookmarks(bookmarks: Vec<Bookmark>, comic_path: &str) -> (r: Vec<Bookmark>)
    ensures
        r@ == bookmarks@.filter(of_comic(comic_path@)),
{
    let wanted = comic_path.to_owned();
    let ghost orig = bookmarks@;
    let mut rest = bookmarks;
    let mut out: Vec<Bookmark> = Vec::new();
    let ghost mut done: int = 0;
    proof {
        reveal(Seq::filter);
        assert(orig.skip(0) =~= orig);
        assert(orig.take(0).filter(of_comic(comic_path@)) =~= Seq::<Bookmark>::empty());
    }
    while rest.len() > 0
        invariant
            0 <= done <= orig.len(),
            wanted@ == comic_path@,
            rest@ == orig.skip(done),
            out@ == orig.take(done).filter(of_comic(comic_path@)),
        decreases rest@.len(),
    {
        let b = rest.remove(0);
        proof {
            reveal(Seq::filter);
            assert(b == orig[done]);
            assert(orig.skip(done).remove(0) =~= orig.skip(done + 1));
            assert(orig.take(done + 1).drop_last() =~= orig.take(done));
            assert(orig.take(done + 1).last() == orig[done]);
            let pred = of_comic(comic_path@);
            let big = orig.take(done + 1);
            assert(big.len() == done + 1);
            assert(big.filter(pred) == (if pred(big.last()) {
                big.drop_last().filter(pred).push(big.last())
            } else {
                big.drop_last().filter(pred)
            }));
            assert(big.drop_last().filter(pred) == orig.take(done).filter(pred));
            assert(pred(orig[done]) == (b.comic_path@ == comic_path@));
        }
        if b.comic_path == wanted {
            out.push(b);
        }
        proof {
            done = done + 1;
        }
    }
    proof {
        assert(orig.take(done) =~= orig);
    }
    out
}

} // verus!
