//! Archive entry listing and batch page reads.
//!
//! An archive is opened from its raw bytes (reading the file is the
//! caller's business) and is opaque once open: what the outside reader
//! yields is named — `zip_dir` for the directory records the reader
//! serves, `zip_names` for the resolvable entry names, `zip_data` for
//! the contents that read fully — and all of it is pinned to the
//! bytes the archive was opened from through `parsed_zip`, so the
//! contracts also say when each operation is owed success. Everything
//! after the outside calls (entry filtering, natural ordering, dense
//! reindexing) is verified.

use vstd::prelude::*;
use std::io::Cursor;
use std::io::Read;
use crate::classify::{
    basename_of, basename_str, hidden_name, is_hidden, is_image_file, is_image_path, mime_of,
    starts_with, starts_with_str,
};
use crate::errors::ArchiveError;
use crate::images::{base64_of, data_url_of, read_image_as_base64, MAX_ENCODABLE_LEN};
use crate::natural::{
    natural_cmp, natord_compare, sort_by_cmp, ordered_by, lemma_sort_by_cmp_multiset,
    lemma_sort_by_cmp_map, order_of, sort_by_order, SortOrder,
};

verus! {

#[verifier::external_type_specification]
#[verifier::external_body]
#[verifier::reject_recursive_types(T)]
/// Declares `std::io::Cursor`, the in-memory reader archives are
/// opened over; values of it stay opaque to the verifier.
pub struct ExCursor<T>(Cursor<T>);

#[verifier::external_type_specification]
#[verifier::external_body]
#[verifier::reject_recursive_types(R)]
/// Declares `zip::ZipArchive` so archive readers can be stored and
/// passed around; values of it stay opaque to the verifier.
pub struct ExZipArchive<R>(zip::ZipArchive<R>);

/// The directory records an open archive serves: one `(entry name,
/// claimed uncompressed size, is-directory)` record for each entry
/// the reader can open, in archive order. An entry the reader cannot
/// open — encrypted, or compressed by an unsupported method — has no
/// record here and is skipped by the lister, as one bad entry must
/// not cost the rest of the archive.
pub uninterp spec fn zip_dir(a: zip::ZipArchive<Cursor<Vec<u8>>>) -> Seq<(Seq<char>, u64, bool)>;

/// The entry names an open archive resolves: a by-name lookup
/// succeeds on exactly these.
pub uninterp spec fn zip_names(a: zip::ZipArchive<Cursor<Vec<u8>>>) -> Set<Seq<char>>;

/// The pages an open archive serves: the decompressed bytes of each
/// resolvable entry that also reads to the end without error. Over an
/// in-memory reader, whether a given entry reads fully — and what it
/// yields — depends on the archive value and the name alone.
pub uninterp spec fn zip_data(a: zip::ZipArchive<Cursor<Vec<u8>>>) -> Map<Seq<char>, Seq<u8>>;

/// Whether `bytes` parse as a ZIP container. Named after
/// `zip::ZipArchive::new`, whose parse is a function of the bytes
/// alone.
pub uninterp spec fn zip_parses(bytes: Seq<u8>) -> bool;

/// What parsing `bytes` as a ZIP container yields: the directory
/// records the reader serves, the resolvable entry names, and the
/// fully-readable page contents. Named after `zip::ZipArchive::new`:
/// all three are functions of the bytes alone.
pub uninterp spec fn parsed_zip(bytes: Seq<u8>) -> (
    Seq<(Seq<char>, u64, bool)>,
    Set<Seq<char>>,
    Map<Seq<char>, Seq<u8>>,
);

/// The served directory records of `bytes` as a container.
pub open spec fn parsed_dir(bytes: Seq<u8>) -> Seq<(Seq<char>, u64, bool)> {
    parsed_zip(bytes).0
}

/// The resolvable entry names of `bytes` as a container.
pub open spec fn parsed_names(bytes: Seq<u8>) -> Set<Seq<char>> {
    parsed_zip(bytes).1
}

/// The fully-readable page contents of `bytes` as a container.
pub open spec fn parsed_data(bytes: Seq<u8>) -> Map<Seq<char>, Seq<u8>> {
    parsed_zip(bytes).2
}

/// Relies on `zip::ZipArchive::new`: parses the central directory of
/// an in-memory container, succeeding or failing deterministically
/// from the bytes; on failure the container is unreadable (`Io`),
/// malformed (`CorruptArchive`) or unsupported (`OpenFailed`).
#[verifier::external_body]
pub(crate) fn open_archive(bytes: Vec<u8>) -> (r: Result<
    zip::ZipArchive<Cursor<Vec<u8>>>,
    ArchiveError,
>)
    ensures
        r is Ok <==> zip_parses(bytes@),
        r matches Ok(a) ==> zip_dir(a) == parsed_zip(bytes@).0 && zip_names(a) == parsed_zip(
            bytes@,
        ).1 && zip_data(a) == parsed_zip(bytes@).2,
        r matches Err(e) ==> (e == ArchiveError::CorruptArchive || e == ArchiveError::OpenFailed
            || e == ArchiveError::Io),
{
    match zip::ZipArchive::new(Cursor::new(bytes)) {
        Ok(a) => Ok(a),
        Err(zip::result::ZipError::Io(_)) => Err(ArchiveError::Io),
        Err(zip::result::ZipError::InvalidArchive(_)) => Err(ArchiveError::CorruptArchive),
        Err(_) => Err(ArchiveError::OpenFailed),
    }
}

/// Relies on `zip::ZipArchive::{len, by_index}` and
/// `ZipFile::{name, size, is_dir}`: walks every index in
/// central-directory order and yields one record per entry the
/// reader opens, skipping — exactly as the served directory does —
/// any entry it cannot; over the in-memory archive the outcome per
/// index is deterministic, and metadata access does not change what
/// the archive holds.
#[verifier::external_body]
pub(crate) fn list_archive_entries(a: &mut zip::ZipArchive<Cursor<Vec<u8>>>) -> (r: Vec<
    (String, u64, bool),
>)
    ensures
        zip_dir(*final(a)) == zip_dir(*old(a)),
        zip_names(*final(a)) == zip_names(*old(a)),
        zip_data(*final(a)) == zip_data(*old(a)),
        r@.len() == zip_dir(*old(a)).len(),
        forall|i: int|
            0 <= i < r@.len() ==> ((#[trigger] r@[i]).0@, r@[i].1, r@[i].2) == zip_dir(
                *old(a),
            )[i],
{
    let mut out = Vec::new();
    for i in 0..a.len() {
        if let Ok(f) = a.by_index(i) {
            out.push((f.name().to_string(), f.size(), f.is_dir()));
        }
    }
    out
}

/// Relies on `zip::ZipArchive::by_name` and `Read::read_to_end`:
/// `by_name` resolves exactly the names the archive's lookup table
/// holds (`FileNotFound` otherwise, mapped to `EntryNotFound`), and
/// over the in-memory reader a resolvable entry reads fully — to its
/// decompressed bytes — or fails, deterministically from the archive
/// value and the name; reading leaves the archive's directory and
/// contents unchanged.
#[verifier::external_body]
pub(crate) fn read_archive_entry(a: &mut zip::ZipArchive<Cursor<Vec<u8>>>, name: &str) -> (r:
    Result<Vec<u8>, ArchiveError>)
    ensures
        zip_dir(*final(a)) == zip_dir(*old(a)),
        zip_names(*final(a)) == zip_names(*old(a)),
        zip_data(*final(a)) == zip_data(*old(a)),
        r == Err::<Vec<u8>, ArchiveError>(ArchiveError::EntryNotFound) <==> !zip_names(
            *old(a),
        ).contains(name@),
        zip_data(*old(a)).dom().contains(name@) ==> (r matches Ok(b) && b@ == zip_data(
            *old(a),
        )[name@]),
        zip_names(*old(a)).contains(name@) && !zip_data(*old(a)).dom().contains(name@) ==> (r
            matches Err(e) && (e == ArchiveError::Io || e == ArchiveError::CorruptArchive || e
            == ArchiveError::OpenFailed)),
{
    match a.by_name(name) {
        Ok(mut f) => {
            let mut buf = Vec::new();
            match f.read_to_end(&mut buf) {
                Ok(_) => Ok(buf),
                Err(_) => Err(ArchiveError::Io),
            }
        },
        Err(zip::result::ZipError::FileNotFound) => Err(ArchiveError::EntryNotFound),
        Err(zip::result::ZipError::InvalidArchive(_)) => Err(ArchiveError::CorruptArchive),
        Err(zip::result::ZipError::Io(_)) => Err(ArchiveError::Io),
        Err(_) => Err(ArchiveError::OpenFailed),
    }
}

/// One page inside an archive: `index` is dense and 0-based after
/// filtering and ordering (not the archive's internal position);
/// `path` is the full in-archive entry name and the lookup key;
/// `name` its basename; `size` the claimed byte length.
#[derive(Debug, Clone)]
pub struct ZipImageInfo {
    pub index: usize,
    pub name: String,
    pub path: String,
    pub size: u64,
}

/// The mathematical shape of a [`ZipImageInfo`].
pub ghost struct ZipEntryModel {
    pub index: int,
    pub name: Seq<char>,
    pub path: Seq<char>,
    pub size: u64,
}

pub open spec fn info_view(z: ZipImageInfo) -> ZipEntryModel {
    ZipEntryModel { index: z.index as int, name: z.name@, path: z.path@, size: z.size }
}

pub open spec fn infos_view(v: Seq<ZipImageInfo>) -> Seq<ZipEntryModel> {
    v.map_values(|z: ZipImageInfo| info_view(z))
}

pub open spec fn raw_view(v: Seq<(String, u64, bool)>) -> Seq<(Seq<char>, u64, bool)> {
    v.map_values(|e: (String, u64, bool)| (e.0@, e.1, e.2))
}

/// Whether a raw archive entry is kept as a page: not a directory
/// entry, its basename neither hidden nor a resource-fork artifact,
/// and an image by extension.
pub open spec fn keep_entry(e: (Seq<char>, u64, bool)) -> bool {
    let base = basename_of(e.0);
    &&& !e.2
    &&& !hidden_name(base)
    &&& !starts_with(base, "__MACOSX"@)
    &&& is_image_path(e.0)
}

/// The kept entries of a directory listing, in archive order, before
/// sorting; indices are not assigned yet.
pub open spec fn kept_pages(dir: Seq<(Seq<char>, u64, bool)>) -> Seq<ZipEntryModel>
    decreases dir,
{
    if dir.len() == 0 {
        Seq::empty()
    } else {
        let rest = kept_pages(dir.drop_last());
        let e = dir.last();
        if keep_entry(e) {
            rest.push(ZipEntryModel { index: 0, name: basename_of(e.0), path: e.0, size: e.1 })
        } else {
            rest
        }
    }
}

/// Page order inside an archive: natural order over basenames.
pub open spec fn page_cmp(a: ZipEntryModel, b: ZipEntryModel) -> int {
    natural_cmp(a.name, b.name)
}

pub open spec fn page_order() -> spec_fn(ZipEntryModel, ZipEntryModel) -> int {
    |a: ZipEntryModel, b: ZipEntryModel| page_cmp(a, b)
}

/// Reassigns indices densely from zero, in order.
pub open spec fn reindexed(s: Seq<ZipEntryModel>) -> Seq<ZipEntryModel> {
    Seq::new(s.len(), |i: int| ZipEntryModel { index: i, ..s[i] })
}

/// The records listed for an archive with directory `dir`: entries
/// kept by [`keep_entry`], in natural order of their basenames, with
/// dense indices.
pub open spec fn listed_pages(dir: Seq<(Seq<char>, u64, bool)>) -> Seq<ZipEntryModel> {
    reindexed(sort_by_cmp(page_order(), kept_pages(dir)))
}

impl SortOrder for ZipImageInfo {
    /// Page records sort by natural order over their basenames.
    open spec fn cmp_spec(a: ZipImageInfo, b: ZipImageInfo) -> int {
        page_cmp(info_view(a), info_view(b))
    }

    fn cmp_exec(&self, other: &Self) -> (r: i8)
        ensures
            r as int == Self::cmp_spec(*self, *other),
            Self::cmp_spec(*other, *self) == -(r as int),
    {
        natord_compare(self.name.as_str(), other.name.as_str())
    }
}

/// Sorts page records by natural order over their basenames: the
/// result is the stable insertion sort of the input, hence a
/// permutation of it with adjacent elements in comparator order.
fn sort_pages(pages: Vec<ZipImageInfo>) -> (r: Vec<ZipImageInfo>)
    ensures
        infos_view(r@) == sort_by_cmp(page_order(), infos_view(pages@)),
        infos_view(r@).to_multiset() == infos_view(pages@).to_multiset(),
        ordered_by(page_order(), infos_view(r@)),
{
    let r = sort_by_order(pages);
    proof {
        let v = |z: ZipImageInfo| info_view(z);
        assert forall|a: ZipImageInfo, b: ZipImageInfo| #[trigger]
            order_of::<ZipImageInfo>()(a, b) == page_order()(v(a), v(b)) by {}
        lemma_sort_by_cmp_map(order_of::<ZipImageInfo>(), page_order(), v, pages@);
        assert(infos_view(pages@) =~= pages@.map_values(v));
        assert(infos_view(r@) =~= r@.map_values(v));
        lemma_sort_by_cmp_multiset(page_order(), infos_view(pages@));
        assert(ordered_by(page_order(), infos_view(r@))) by {
            assert forall|i: int|
                0 <= i < infos_view(r@).len() - 1 implies #[trigger] page_order()(
                infos_view(r@)[i],
                infos_view(r@)[i + 1],
            ) <= 0 by {
                assert(order_of::<ZipImageInfo>()(r@[i], r@[i + 1]) <= 0);
            }
        }
    }
    r
}

/// Turns a raw directory listing into the ordered page records: keeps
/// image entries, orders them naturally by basename, and assigns dense
/// indices from zero.
pub fn image_entries_from_listing(dir: Vec<(String, u64, bool)>) -> (r: Vec<ZipImageInfo>)
    ensures
        infos_view(r@) == listed_pages(raw_view(dir@)),
        ordered_by(page_order(), infos_view(r@)),
        forall|i: int| 0 <= i < r@.len() ==> (#[trigger] infos_view(r@)[i]).index == i,
{
    let mut kept: Vec<ZipImageInfo> = Vec::new();
    let mut i: usize = 0;
    proof {
        assert(raw_view(dir@.take(0)) =~= Seq::<(Seq<char>, u64, bool)>::empty());
        assert(infos_view(kept@) =~= Seq::<ZipEntryModel>::empty());
    }
    while i < dir.len()
        invariant
            i <= dir@.len(),
            infos_view(kept@) == kept_pages(raw_view(dir@.take(i as int))),
            kept@.len() <= i,
        decreases dir@.len() - i,
    {
        proof {
            assert(raw_view(dir@.take(i + 1)).drop_last() =~= raw_view(dir@.take(i as int)));
            assert(raw_view(dir@.take(i + 1)).last() == (dir@[i as int].0@, dir@[i as int].1,
            dir@[i as int].2));
        }
        let entry = &dir[i];
        let is_dir_entry = entry.2;
        if !is_dir_entry {
            let base = basename_str(entry.0.as_str());
            if !is_hidden(base) && !starts_with_str(base, "__MACOSX") && is_image_file(
                entry.0.as_str(),
            ) {
                let ghost pre = infos_view(kept@);
                let record = ZipImageInfo {
                    index: 0,
                    name: base.to_owned(),
                    path: entry.0.clone(),
                    size: entry.1,
                };
                let ghost rv = info_view(record);
                kept.push(record);
                proof {
                    assert(infos_view(kept@) =~= pre.push(rv));
                }
            }
        }
        i = i + 1;
    }
    proof {
        assert(dir@.take(dir@.len() as int) =~= dir@);
    }
    let sorted = sort_pages(kept);
    let ghost sorted_view = infos_view(sorted@);
    // reassign indices densely
    let mut rest = sorted;
    let mut out: Vec<ZipImageInfo> = Vec::new();
    let mut idx: usize = 0;
    proof {
        assert(rest@.skip(0) =~= rest@);
    }
    let ghost sorted_vec = rest@;
    let total = rest.len();
    while rest.len() > 0
        invariant
            sorted_vec.len() == total,
            idx <= sorted_vec.len(),
            rest@ == sorted_vec.skip(idx as int),
            out@.len() == idx,
            sorted_view == infos_view(sorted_vec),
            forall|k: int|
                0 <= k < idx ==> #[trigger] infos_view(out@)[k] == (ZipEntryModel {
                    index: k,
                    ..sorted_view[k]
                }),
        decreases rest@.len(),
    {
        let mut e = rest.remove(0);
        proof {
            assert(e == sorted_vec[idx as int]);
            assert(sorted_vec.skip(idx as int).remove(0) =~= sorted_vec.skip(idx + 1));
            assert(infos_view(sorted_vec)[idx as int] == info_view(sorted_vec[idx as int]));
        }
        let ghost pre = infos_view(out@);
        e.index = idx;
        let ghost ev = info_view(e);
        out.push(e);
        proof {
            assert(infos_view(out@) =~= pre.push(ev));
        }
        idx = idx + 1;
    }
    proof {
        assert(infos_view(out@) =~= reindexed(sorted_view)) by {
            assert(infos_view(out@).len() == sorted_view.len());
        }
        assert forall|i2: int| 0 <= i2 < out@.len() implies (#[trigger] infos_view(out@)[i2]).index
            == i2 by {}
        assert(ordered_by(page_order(), infos_view(out@))) by {
            assert forall|i2: int|
                0 <= i2 < infos_view(out@).len() - 1 implies #[trigger] page_order()(
                infos_view(out@)[i2],
                infos_view(out@)[i2 + 1],
            ) <= 0 by {
                assert(page_order()(sorted_view[i2], sorted_view[i2 + 1]) <= 0);
                assert(infos_view(out@)[i2].name == sorted_view[i2].name);
                assert(infos_view(out@)[i2 + 1].name == sorted_view[i2 + 1].name);
            }
        }
    }
    out
}

/// Lists the pages of the archive held in `bytes`: every kept image
/// entry among the directory records the reader serves, naturally
/// ordered by basename, densely indexed. It succeeds exactly when the
/// container parses — even when the page list comes out empty;
/// entries the reader cannot open are skipped, never fatal to the
/// listing.
pub fn get_zip_image_list(bytes: Vec<u8>) -> (r: Result<Vec<ZipImageInfo>, ArchiveError>)
    ensures
        r is Ok <==> zip_parses(bytes@),
        r matches Ok(v) ==> infos_view(v@) == listed_pages(parsed_dir(bytes@)) && ordered_by(
            page_order(),
            infos_view(v@),
        ),
        r matches Err(e) ==> (e == ArchiveError::CorruptArchive || e == ArchiveError::OpenFailed
            || e == ArchiveError::Io),
{
    let mut archive = match open_archive(bytes) {
        Ok(a) => a,
        Err(e) => {
            return Err(e);
        },
    };
    let dir = list_archive_entries(&mut archive);
    proof {
        assert(raw_view(dir@) =~= parsed_dir(bytes@));
    }
    Ok(image_entries_from_listing(dir))
}

/// The view of the returned (path, data URL) pairs.
pub open spec fn pairs_view(v: Seq<(String, String)>) -> Seq<(Seq<char>, Seq<char>)> {
    v.map_values(|p: (String, String)| (p.0@, p.1@))
}

/// What a batch read of `paths` against the archive in `bytes`
/// returns: in request order, one pair per requested page that reads
/// fully and fits the encoder, carrying exactly the data URL the
/// archive serves for it; every other request is skipped.
pub open spec fn batch_spec(bytes: Seq<u8>, paths: Seq<Seq<char>>) -> Seq<(Seq<char>, Seq<char>)>
    decreases paths,
{
    if paths.len() == 0 {
        Seq::empty()
    } else {
        let rest = batch_spec(bytes, paths.drop_last());
        let p = paths.last();
        if parsed_data(bytes).dom().contains(p) && parsed_data(bytes)[p].len()
            <= MAX_ENCODABLE_LEN {
            rest.push((p, data_url_of(mime_of(p), base64_of(parsed_data(bytes)[p]))))
        } else {
            rest
        }
    }
}

/// Reads several pages of one archive in a single pass, without the
/// cache: the archive in `bytes` is opened once — succeeding exactly
/// when the bytes parse — and the result is pinned by [`batch_spec`]:
/// pages that cannot be read or encoded are skipped rather than
/// failing the batch.
pub fn read_zip_images_batch(bytes: Vec<u8>, image_paths: Vec<String>) -> (r: Result<
    Vec<(String, String)>,
    ArchiveError,
>)
    ensures
        r is Ok <==> zip_parses(bytes@),
        r matches Ok(v) ==> pairs_view(v@) == batch_spec(
            bytes@,
            crate::file_system::strings_view(image_paths@),
        ),
        r matches Err(e) ==> (e == ArchiveError::CorruptArchive || e == ArchiveError::OpenFailed
            || e == ArchiveError::Io),
{
    let ghost bv = bytes@;
    let mut archive = match open_archive(bytes) {
        Ok(a) => a,
        Err(e) => {
            return Err(e);
        },
    };
    let ghost orig = crate::file_system::strings_view(image_paths@);
    let mut rest = image_paths;
    let mut out: Vec<(String, String)> = Vec::new();
    let ghost mut done: int = 0;
    proof {
        assert(rest@.skip(0) =~= rest@);
        assert(batch_spec(bv, orig.take(0)) =~= Seq::<(Seq<char>, Seq<char>)>::empty());
        assert(pairs_view(out@) =~= Seq::<(Seq<char>, Seq<char>)>::empty());
    }
    while rest.len() > 0
        invariant
            0 <= done <= orig.len(),
            crate::file_system::strings_view(rest@) =~= orig.skip(done),
            zip_names(archive) == parsed_names(bv),
            zip_data(archive) == parsed_data(bv),
            pairs_view(out@) == batch_spec(bv, orig.take(done)),
        decreases rest@.len(),
    {
        let ghost prev_rest = rest@;
        let p = rest.remove(0);
        proof {
            assert(crate::file_system::strings_view(prev_rest).len() == prev_rest.len());
            assert(p == prev_rest[0]);
            assert(p@ == crate::file_system::strings_view(prev_rest)[0]);
            assert(p@ == orig[done]);
            assert(rest@ == prev_rest.remove(0));
            assert forall|x: int|
                0 <= x < rest@.len() implies crate::file_system::strings_view(rest@)[x] == orig.skip(
                done + 1,
            )[x] by {
                assert(rest@[x] == prev_rest[x + 1]);
                assert(crate::file_system::strings_view(prev_rest)[x + 1] == orig.skip(done)[x
                    + 1]);
            }
            assert(crate::file_system::strings_view(rest@) =~= orig.skip(done + 1));
            assert(orig.take(done + 1).drop_last() =~= orig.take(done));
            assert(orig.take(done + 1).last() == orig[done]);
            let grown = batch_spec(bv, orig.take(done + 1));
            assert(grown == (if parsed_data(bv).dom().contains(orig[done]) && parsed_data(
                bv,
            )[orig[done]].len() <= MAX_ENCODABLE_LEN {
                batch_spec(bv, orig.take(done)).push(
                    (
                        orig[done],
                        data_url_of(mime_of(orig[done]), base64_of(parsed_data(bv)[orig[done]])),
                    ),
                )
            } else {
                batch_spec(bv, orig.take(done))
            }));
        }
        match read_archive_entry(&mut archive, p.as_str()) {
            Ok(b) => {
                proof {
                    assert(parsed_data(bv).dom().contains(p@));
                    assert(b@ == parsed_data(bv)[p@]);
                }
                if b.len() <= MAX_ENCODABLE_LEN {
                    let url = read_image_as_base64(p.as_str(), b.as_slice());
                    let ghost pairv = (p@, url@);
                    let ghost prev = pairs_view(out@);
                    out.push((p, url));
                    proof {
                        assert(pairs_view(out@) =~= prev.push(pairv));
                    }
                }
            },
            Err(_) => {
                proof {
                    // a failed read means the page is not fully
                    // readable, so the pinned result skips it too
                    assert(!parsed_data(bv).dom().contains(p@));
                }
            },
        }
        proof {
            done = done + 1;
        }
    }
    proof {
        assert(orig.take(done) =~= orig);
    }
    Ok(out)
}

} // verus!
