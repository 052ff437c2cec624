//! The archive cache: a capacity-bounded, key-addressed pool of open
//! archive readers with least-recently-used eviction.
//!
//! The pool owns every open reader; callers never hold one across
//! calls. Its observable state is [`ZipCache::model`]: the resident
//! slots in recency order, most recently used first, each carrying its
//! path key and what its archive serves. Every operation's effect on
//! that model is stated exactly: an access promotes its slot to the
//! front, an insertion beyond capacity evicts exactly the last slot,
//! and reads never change what any resident archive holds.
//!
//! Opening reads no files here: the caller checks residency, reads the
//! archive's bytes itself when needed, and hands them in; each open
//! reader sits on an in-memory buffer of its archive, so the capacity
//! bounds how many such buffers stay resident. One such
//! check-then-insert-then-read sequence corresponds to one
//! `read_entry` of the surrounding application, which must hold its
//! lock around the whole sequence.

use vstd::prelude::*;
use vstd::multiset::Multiset;
use vstd::seq_lib::lemma_multiset_commutative;
use std::io::Cursor;
use crate::classify::mime_of;
use crate::errors::ArchiveError;
use crate::images::{
    base64_of, data_url_of, get_image_dimensions, read_image_as_base64, MAX_ENCODABLE_LEN,
};
use crate::zip_handler::{
    zip_dir, zip_names, zip_data, zip_parses, parsed_dir, parsed_names, parsed_data, open_archive,
    read_archive_entry,
};

verus! {

/// How many archives stay open at once.
pub const ARCHIVE_CACHE_CAPACITY: usize = 5;

/// One resident archive: its path key and the open reader.
struct CacheSlot {
    key: String,
    archive: zip::ZipArchive<Cursor<Vec<u8>>>,
}

/// What one resident slot holds: its key, the directory records the
/// archive's reader serves, the entry names it resolves, and the
/// pages it serves (those that read fully).
pub ghost struct SlotModel {
    pub key: Seq<char>,
    pub dir: Seq<(Seq<char>, u64, bool)>,
    pub names: Set<Seq<char>>,
    pub data: Map<Seq<char>, Seq<u8>>,
}

spec fn slot_view(s: CacheSlot) -> SlotModel {
    SlotModel {
        key: s.key@,
        dir: zip_dir(s.archive),
        names: zip_names(s.archive),
        data: zip_data(s.archive),
    }
}

/// Promotion: slot `i` moves to the front, everything else keeps its
/// relative order.
pub open spec fn promote_model(m: Seq<SlotModel>, i: int) -> Seq<SlotModel> {
    seq![m[i]] + m.remove(i)
}

/// Insertion as most recently used: beyond capacity the last (least
/// recently used) slot is evicted first.
pub open spec fn insert_model(m: Seq<SlotModel>, s: SlotModel, cap: int) -> Seq<SlotModel> {
    if m.len() < cap {
        seq![s] + m
    } else {
        seq![s] + m.drop_last()
    }
}

/// An access never changes what the pool holds: promoting a resident
/// slot to most recently used only reorders the slots, so every
/// resident archive keeps serving exactly the same pages — reads from
/// the cache cannot corrupt one another's archives.
pub proof fn lemma_promote_preserves_slots(m: Seq<SlotModel>, i: int)
    requires
        0 <= i < m.len(),
    ensures
        promote_model(m, i).len() == m.len(),
        promote_model(m, i).to_multiset() == m.to_multiset(),
{
    broadcast use vstd::seq_lib::group_to_multiset_ensures;

    let front = seq![m[i]];
    let rest = m.remove(i);
    lemma_multiset_commutative(front, rest);
    assert(front =~= Seq::<SlotModel>::empty().push(m[i]));
    assert(Seq::<SlotModel>::empty().to_multiset() =~= Multiset::<SlotModel>::empty()) by {
        let e = Seq::<SlotModel>::empty();
        assert forall|a: SlotModel| e.to_multiset().count(a) == 0 by {
            if e.to_multiset().count(a) > 0 {
                assert(e.contains(a));
            }
        }
    }
    assert(front.to_multiset() =~= Multiset::<SlotModel>::empty().insert(m[i]));
    assert(m.contains(m[i]));
    assert(m.to_multiset().count(m[i]) > 0);
    assert(rest.to_multiset() =~= m.to_multiset().remove(m[i]));
    assert(front.to_multiset().add(rest.to_multiset()) =~= m.to_multiset());
}

/// A bounded pool of open archive readers, most recently used first.
pub struct ZipCache {
    slots: Vec<CacheSlot>,
    capacity: usize,
}

impl ZipCache {
    /// The resident slots in recency order, most recently used first.
    pub closed spec fn model(&self) -> Seq<SlotModel> {
        self.slots@.map_values(|s: CacheSlot| slot_view(s))
    }

    /// The resident path keys in recency order.
    pub open spec fn keys(&self) -> Seq<Seq<char>> {
        self.model().map_values(|s: SlotModel| s.key)
    }

    /// Whether the archive at `k` is resident.
    pub open spec fn has(&self, k: Seq<char>) -> bool {
        self.keys().contains(k)
    }

    pub closed spec fn capacity(&self) -> int {
        self.capacity as int
    }

    /// The recency position of the resident key `k`.
    pub open spec fn key_index(&self, k: Seq<char>) -> int {
        choose|i: int| 0 <= i < self.keys().len() && self.keys()[i] == k
    }

    /// The directory records the resident archive at `k` serves.
    pub open spec fn dir_of(&self, k: Seq<char>) -> Seq<(Seq<char>, u64, bool)> {
        self.model()[self.key_index(k)].dir
    }

    /// The entry names the resident archive at `k` resolves.
    pub open spec fn names_of(&self, k: Seq<char>) -> Set<Seq<char>> {
        self.model()[self.key_index(k)].names
    }

    /// The pages the resident archive at `k` serves.
    pub open spec fn data_of(&self, k: Seq<char>) -> Map<Seq<char>, Seq<u8>> {
        self.model()[self.key_index(k)].data
    }

    /// Pool well-formedness: a positive capacity bounds the resident
    /// count, and no path is resident twice.
    pub closed spec fn wf(&self) -> bool {
        &&& 1 <= self.capacity
        &&& self.slots@.len() <= self.capacity
        &&& forall|i: int, j: int|
            0 <= i < j < self.slots@.len() ==> (#[trigger] self.slots@[i].key@) != (
            #[trigger] self.slots@[j].key@)
    }

    proof fn lemma_key_index_is(&self, k: Seq<char>, i: int)
        requires
            self.wf(),
            0 <= i < self.keys().len(),
            self.keys()[i] == k,
        ensures
            self.has(k),
            self.key_index(k) == i,
    {
        assert(self.keys().contains(k));
        let j = self.key_index(k);
        assert(0 <= j < self.keys().len() && self.keys()[j] == k);
        if i != j {
            assert(self.slots@[i].key@ == self.slots@[j].key@);
            assert(false);
        }
    }

    /// An empty pool with the fixed capacity.
    pub fn new() -> (c: ZipCache)
        ensures
            c.wf(),
            c.model() == Seq::<SlotModel>::empty(),
            c.capacity() == ARCHIVE_CACHE_CAPACITY as int,
    {
        let c = ZipCache { slots: Vec::new(), capacity: ARCHIVE_CACHE_CAPACITY };
        proof {
            assert(c.model() =~= Seq::<SlotModel>::empty());
        }
        c
    }

    fn find_slot(&self, path: &str) -> (r: Option<usize>)
        requires
            self.wf(),
        ensures
            match r {
                Some(i) => i < self.model().len() && self.keys()[i as int] == path@
                    && self.key_index(path@) == i && self.has(path@),
                None => !self.has(path@),
            },
    {
        let wanted = path.to_owned();
        let mut i: usize = 0;
        while i < self.slots.len()
            invariant
                self.wf(),
                i <= self.slots@.len(),
                wanted@ == path@,
                forall|j: int| 0 <= j < i ==> (#[trigger] self.keys()[j]) != path@,
            decreases self.slots@.len() - i,
        {
            if self.slots[i].key == wanted {
                proof {
                    assert(self.keys()[i as int] == self.slots@[i as int].key@);
                    self.lemma_key_index_is(path@, i as int);
                }
                return Some(i);
            }
            proof {
                assert(self.keys()[i as int] == self.slots@[i as int].key@);
            }
            i = i + 1;
        }
        proof {
            if self.has(path@) {
                let w = choose|j: int| 0 <= j < self.keys().len() && self.keys()[j] == path@;
                assert(self.keys()[w] != path@);
            }
        }
        None
    }

    /// Whether the archive at `path` is resident; residency alone is
    /// not an access and does not promote.
    pub fn contains_archive(&self, path: &str) -> (b: bool)
        requires
            self.wf(),
        ensures
            b == self.has(path@),
    {
        self.find_slot(path).is_some()
    }

    /// The cache's one admission point. If `path` is resident, its
    /// slot is promoted to most recently used and `bytes` is ignored.
    /// Otherwise `bytes` is parsed as the archive at `path` —
    /// succeeding exactly when the bytes parse as a container; on
    /// success the new slot enters in front, evicting exactly the
    /// least recently used slot when the pool is full; on failure the
    /// pool is unchanged.
    pub fn get_or_open(&mut self, path: &str, bytes: Vec<u8>) -> (r: Result<(), ArchiveError>)
        requires
            old(self).wf(),
        ensures
            final(self).wf(),
            final(self).capacity() == old(self).capacity(),
            r is Ok <==> (old(self).has(path@) || zip_parses(bytes@)),
            r matches Err(e) ==> !old(self).has(path@) && final(self).model() == old(self).model()
                && (e == ArchiveError::CorruptArchive || e == ArchiveError::OpenFailed || e
                == ArchiveError::Io),
            r is Ok ==> {
                &&& final(self).model() == (if old(self).has(path@) {
                    promote_model(old(self).model(), old(self).key_index(path@))
                } else {
                    insert_model(
                        old(self).model(),
                        SlotModel {
                            key: path@,
                            dir: parsed_dir(bytes@),
                            names: parsed_names(bytes@),
                            data: parsed_data(bytes@),
                        },
                        old(self).capacity(),
                    )
                })
                &&& final(self).has(path@)
                &&& final(self).key_index(path@) == 0
                &&& final(self).dir_of(path@) == (if old(self).has(path@) {
                    old(self).dir_of(path@)
                } else {
                    parsed_dir(bytes@)
                })
                &&& final(self).names_of(path@) == (if old(self).has(path@) {
                    old(self).names_of(path@)
                } else {
                    parsed_names(bytes@)
                })
                &&& final(self).data_of(path@) == (if old(self).has(path@) {
                    old(self).data_of(path@)
                } else {
                    parsed_data(bytes@)
                })
            },
    {
        let ghost om = self.model();
        match self.find_slot(path) {
            Some(i) => {
                let ghost oi = i as int;
                let slot = self.slots.remove(i);
                self.slots.insert(0, slot);
                proof {
                    assert(self.slots@ =~= seq![slot] + old(self).slots@.remove(oi));
                    assert(self.model() =~= promote_model(om, oi));
                    self.lemma_promote_wf(*old(self), oi, path@);
                }
                Ok(())
            },
            None => {
                let archive = match open_archive(bytes) {
                    Ok(a) => a,
                    Err(e) => {
                        return Err(e);
                    },
                };
                let slot = CacheSlot { key: path.to_owned(), archive };
                let ghost sm = slot_view(slot);
                if self.slots.len() == self.capacity {
                    let _evicted = self.slots.pop();
                    proof {
                        assert(self.slots@ =~= old(self).slots@.drop_last());
                    }
                }
                self.slots.insert(0, slot);
                proof {
                    if om.len() < old(self).capacity() {
                        assert(self.slots@ =~= seq![slot] + old(self).slots@);
                        assert(self.model() =~= seq![sm] + om);
                    } else {
                        assert(self.slots@ =~= seq![slot] + old(self).slots@.drop_last());
                        assert(self.model() =~= seq![sm] + om.drop_last());
                    }
                    assert(self.model() == insert_model(om, sm, old(self).capacity()));
                    self.lemma_insert_wf(*old(self), slot_view(slot), path@);
                }
                Ok(())
            },
        }
    }

    proof fn lemma_promote_wf(&self, prev: ZipCache, i: int, k: Seq<char>)
        requires
            prev.wf(),
            0 <= i < prev.model().len(),
            prev.keys()[i] == k,
            self.capacity == prev.capacity,
            self.slots@ == seq![prev.slots@[i]] + prev.slots@.remove(i),
        ensures
            self.wf(),
            self.has(k),
            self.key_index(k) == 0,
            self.dir_of(k) == prev.dir_of(k),
            self.names_of(k) == prev.names_of(k),
            self.data_of(k) == prev.data_of(k),
    {
        let n = self.slots@.len() as int;
        assert forall|a: int, b: int|
            0 <= a < b < n implies (#[trigger] self.slots@[a].key@) != (
        #[trigger] self.slots@[b].key@) by {
            let pa = if a == 0 {
                i
            } else if a - 1 < i {
                a - 1
            } else {
                a
            };
            let pb = if b - 1 < i {
                b - 1
            } else {
                b
            };
            assert(self.slots@[a].key@ == prev.slots@[pa].key@);
            assert(self.slots@[b].key@ == prev.slots@[pb].key@);
        }
        assert(self.wf());
        assert(self.keys()[0] == k);
        self.lemma_key_index_is(k, 0);
        prev.lemma_key_index_is(k, i);
        assert(self.model()[0] == prev.model()[i]);
    }

    proof fn lemma_insert_wf(&self, prev: ZipCache, s: SlotModel, k: Seq<char>)
        requires
            prev.wf(),
            !prev.has(k),
            s.key == k,
            self.capacity == prev.capacity,
            self.model() == insert_model(prev.model(), s, prev.capacity()),
            self.slots@.len() <= self.capacity,
            self.slots@[0].key@ == k,
            (prev.model().len() < prev.capacity() && self.slots@ == seq![self.slots@[0]]
                + prev.slots@) || (prev.model().len() >= prev.capacity() && self.slots@ == seq![
                self.slots@[0],
            ] + prev.slots@.drop_last()),
        ensures
            self.wf(),
            self.has(k),
            self.key_index(k) == 0,
            self.dir_of(k) == s.dir,
            self.names_of(k) == s.names,
            self.data_of(k) == s.data,
    {
        let n = self.slots@.len() as int;
        assert forall|a: int, b: int|
            0 <= a < b < n implies (#[trigger] self.slots@[a].key@) != (
        #[trigger] self.slots@[b].key@) by {
            if a == 0 {
                assert(self.slots@[b].key@ == prev.slots@[b - 1].key@);
                assert(prev.keys()[b - 1] == prev.slots@[b - 1].key@);
                if prev.slots@[b - 1].key@ == k {
                    assert(prev.keys().contains(k));
                }
            } else {
                assert(self.slots@[a].key@ == prev.slots@[a - 1].key@);
                assert(self.slots@[b].key@ == prev.slots@[b - 1].key@);
            }
        }
        assert(self.wf());
        assert(self.keys()[0] == k);
        self.lemma_key_index_is(k, 0);
        assert(self.model()[0] == s);
    }

    /// Reads one page from the resident archive at `path`: promotes
    /// the slot, resolves `entry` by exact name, and returns the
    /// decompressed bytes. `NotFound` when no archive is resident at
    /// `path`; `EntryNotFound` exactly when the resident archive does
    /// not resolve `entry`; a fully readable page is owed its bytes.
    /// Reading changes no resident archive's contents.
    pub fn read_entry(&mut self, path: &str, entry: &str) -> (r: Result<Vec<u8>, ArchiveError>)
        requires
            old(self).wf(),
        ensures
            final(self).wf(),
            final(self).capacity() == old(self).capacity(),
            !old(self).has(path@) ==> r == Err::<Vec<u8>, ArchiveError>(ArchiveError::NotFound)
                && final(self).model() == old(self).model(),
            old(self).has(path@) ==> {
                &&& final(self).model() == promote_model(
                    old(self).model(),
                    old(self).key_index(path@),
                )
                &&& (r == Err::<Vec<u8>, ArchiveError>(ArchiveError::EntryNotFound) <==> !old(
                    self,
                ).names_of(path@).contains(entry@))
                &&& (old(self).data_of(path@).dom().contains(entry@) ==> (r matches Ok(b) && b@
                    == old(self).data_of(path@)[entry@]))
                &&& (old(self).names_of(path@).contains(entry@) && !old(self).data_of(
                    path@,
                ).dom().contains(entry@) ==> (r matches Err(e) && (e == ArchiveError::Io || e
                    == ArchiveError::CorruptArchive || e == ArchiveError::OpenFailed)))
            },
    {
        let ghost om = self.model();
        match self.find_slot(path) {
            None => Err(ArchiveError::NotFound),
            Some(i) => {
                let ghost oi = i as int;
                let mut slot = self.slots.remove(i);
                let ghost sm = slot_view(slot);
                let r = read_archive_entry(&mut slot.archive, entry);
                proof {
                    assert(slot_view(slot) == sm);
                }
                self.slots.insert(0, slot);
                proof {
                    assert(self.slots@ =~= seq![slot] + old(self).slots@.remove(oi));
                    assert(self.slots@[0].key@ == path@);
                    assert forall|x: int| 0 <= x < self.slots@.len() implies slot_view(
                        #[trigger] self.slots@[x],
                    ) == promote_model(om, oi)[x] by {
                        if x == 0 {
                        } else if x - 1 < oi {
                            assert(self.slots@[x] == old(self).slots@[x - 1]);
                        } else {
                            assert(self.slots@[x] == old(self).slots@[x]);
                        }
                    }
                    assert(self.model() =~= promote_model(om, oi));
                    self.lemma_promote_like(*old(self), oi, path@);
                    old(self).lemma_key_index_is(path@, oi);
                }
                r
            },
        }
    }

    proof fn lemma_promote_like(&self, prev: ZipCache, i: int, k: Seq<char>)
        requires
            prev.wf(),
            0 <= i < prev.model().len(),
            prev.keys()[i] == k,
            self.capacity == prev.capacity,
            self.slots@.len() == prev.slots@.len(),
            self.model() == promote_model(prev.model(), i),
        ensures
            self.wf(),
    {
        let n = self.slots@.len() as int;
        assert forall|a: int, b: int|
            0 <= a < b < n implies (#[trigger] self.slots@[a].key@) != (
        #[trigger] self.slots@[b].key@) by {
            let pm = promote_model(prev.model(), i);
            assert(self.slots@[a].key@ == self.model()[a].key);
            assert(self.slots@[b].key@ == self.model()[b].key);
            let pa = if a == 0 {
                i
            } else if a - 1 < i {
                a - 1
            } else {
                a
            };
            let pb = if b - 1 < i {
                b - 1
            } else {
                b
            };
            assert(pm[a].key == prev.model()[pa].key);
            assert(pm[b].key == prev.model()[pb].key);
            assert(prev.model()[pa].key == prev.slots@[pa].key@);
            assert(prev.model()[pb].key == prev.slots@[pb].key@);
        }
    }

    /// The dimensions of one page, parsed from its decompressed bytes
    /// by the image codec, with the same residency, promotion and
    /// lookup behaviour as [`ZipCache::read_entry`]. The codec's
    /// verdict is not pinned (its probe consults runtime-registered
    /// hooks); a fully readable page yields either dimensions or
    /// `Io`, and dimensions come only from a fully readable page.
    pub fn entry_dimensions(&mut self, path: &str, entry: &str) -> (r: Result<
        (u32, u32),
        ArchiveError,
    >)
        requires
            old(self).wf(),
        ensures
            final(self).wf(),
            final(self).capacity() == old(self).capacity(),
            !old(self).has(path@) ==> r == Err::<(u32, u32), ArchiveError>(ArchiveError::NotFound)
                && final(self).model() == old(self).model(),
            old(self).has(path@) ==> {
                &&& final(self).model() == promote_model(
                    old(self).model(),
                    old(self).key_index(path@),
                )
                &&& (r == Err::<(u32, u32), ArchiveError>(ArchiveError::EntryNotFound) <==> !old(
                    self,
                ).names_of(path@).contains(entry@))
                &&& (r is Ok ==> old(self).data_of(path@).dom().contains(entry@))
                &&& (old(self).data_of(path@).dom().contains(entry@) ==> (r is Ok || r == Err::<
                    (u32, u32),
                    ArchiveError,
                >(ArchiveError::Io)))
                &&& (old(self).names_of(path@).contains(entry@) && !old(self).data_of(
                    path@,
                ).dom().contains(entry@) ==> (r matches Err(e) && (e == ArchiveError::Io || e
                    == ArchiveError::CorruptArchive || e == ArchiveError::OpenFailed)))
            },
    {
        match self.read_entry(path, entry) {
            Err(e) => Err(e),
            Ok(bytes) => match get_image_dimensions(bytes.as_slice()) {
                Some(d) => Ok(d),
                None => Err(ArchiveError::Io),
            },
        }
    }
}

impl Default for ZipCache {
    /// The pool a fresh application starts with: empty, fixed capacity.
    fn default() -> (c: Self)
        ensures
            c.wf(),
            c.model() == Seq::<SlotModel>::empty(),
            c.capacity() == ARCHIVE_CACHE_CAPACITY as int,
    {
        ZipCache::new()
    }
}

/// Reads one page of the resident archive at `zip_path` as raw
/// bytes: a fully readable page is owed exactly its decompressed
/// contents, and only a name the archive does not resolve is
/// `EntryNotFound`.
pub fn read_zip_image_bytes(cache: &mut ZipCache, zip_path: &str, image_path: &str) -> (r: Result<
    Vec<u8>,
    ArchiveError,
>)
    requires
        old(cache).wf(),
    ensures
        final(cache).wf(),
        final(cache).capacity() == old(cache).capacity(),
        !old(cache).has(zip_path@) ==> r == Err::<Vec<u8>, ArchiveError>(ArchiveError::NotFound)
            && final(cache).model() == old(cache).model(),
        old(cache).has(zip_path@) ==> {
            &&& final(cache).model() == promote_model(
                old(cache).model(),
                old(cache).key_index(zip_path@),
            )
            &&& (r == Err::<Vec<u8>, ArchiveError>(ArchiveError::EntryNotFound) <==> !old(
                cache,
            ).names_of(zip_path@).contains(image_path@))
            &&& (old(cache).data_of(zip_path@).dom().contains(image_path@) ==> (r matches Ok(b)
                && b@ == old(cache).data_of(zip_path@)[image_path@]))
            &&& (old(cache).names_of(zip_path@).contains(image_path@) && !old(cache).data_of(
                zip_path@,
            ).dom().contains(image_path@) ==> (r matches Err(e) && (e == ArchiveError::Io || e
                == ArchiveError::CorruptArchive || e == ArchiveError::OpenFailed)))
        },
{
    cache.read_entry(zip_path, image_path)
}

/// Reads one page of the resident archive at `zip_path` and renders
/// it as a `data:` URL, the MIME type taken from the page's
/// extension. A fully readable page is owed its data URL when it
/// fits the encoder, and `Io` when it does not.
pub fn read_zip_image(cache: &mut ZipCache, zip_path: &str, image_path: &str) -> (r: Result<
    String,
    ArchiveError,
>)
    requires
        old(cache).wf(),
    ensures
        final(cache).wf(),
        final(cache).capacity() == old(cache).capacity(),
        !old(cache).has(zip_path@) ==> r == Err::<String, ArchiveError>(ArchiveError::NotFound)
            && final(cache).model() == old(cache).model(),
        old(cache).has(zip_path@) ==> {
            &&& final(cache).model() == promote_model(
                old(cache).model(),
                old(cache).key_index(zip_path@),
            )
            &&& (r == Err::<String, ArchiveError>(ArchiveError::EntryNotFound) <==> !old(
                cache,
            ).names_of(zip_path@).contains(image_path@))
            &&& (old(cache).data_of(zip_path@).dom().contains(image_path@) ==> (if old(
                cache,
            ).data_of(zip_path@)[image_path@].len() <= MAX_ENCODABLE_LEN {
                r matches Ok(s) && s@ == data_url_of(
                    mime_of(image_path@),
                    base64_of(old(cache).data_of(zip_path@)[image_path@]),
                )
            } else {
                r == Err::<String, ArchiveError>(ArchiveError::Io)
            }))
            &&& (old(cache).names_of(zip_path@).contains(image_path@) && !old(cache).data_of(
                zip_path@,
            ).dom().contains(image_path@) ==> (r matches Err(e) && (e == ArchiveError::Io || e
                == ArchiveError::CorruptArchive || e == ArchiveError::OpenFailed)))
        },
{
    match cache.read_entry(zip_path, image_path) {
        Err(e) => Err(e),
        Ok(bytes) => {
            if bytes.len() <= MAX_ENCODABLE_LEN {
                Ok(read_image_as_base64(image_path, bytes.as_slice()))
            } else {
                Err(ArchiveError::Io)
            }
        },
    }
}

/// The dimensions of one page of the resident archive at `zip_path`,
/// with [`ZipCache::entry_dimensions`]'s residency, promotion and
/// lookup behaviour: `EntryNotFound` exactly for an unresolvable
/// name, dimensions only from a fully readable page, and a fully
/// readable page yields either dimensions or `Io`.
pub fn get_zip_image_dimensions(cache: &mut ZipCache, zip_path: &str, image_path: &str) -> (r:
    Result<(u32, u32), ArchiveError>)
    requires
        old(cache).wf(),
    ensures
        final(cache).wf(),
        final(cache).capacity() == old(cache).capacity(),
        !old(cache).has(zip_path@) ==> r == Err::<(u32, u32), ArchiveError>(ArchiveError::NotFound)
            && final(cache).model() == old(cache).model(),
        old(cache).has(zip_path@) ==> {
            &&& final(cache).model() == promote_model(
                old(cache).model(),
                old(cache).key_index(zip_path@),
            )
            &&& (r == Err::<(u32, u32), ArchiveError>(ArchiveError::EntryNotFound) <==> !old(
                cache,
            ).names_of(zip_path@).contains(image_path@))
            &&& (r is Ok ==> old(cache).data_of(zip_path@).dom().contains(image_path@))
            &&& (old(cache).data_of(zip_path@).dom().contains(image_path@) ==> (r is Ok || r
                == Err::<(u32, u32), ArchiveError>(ArchiveError::Io)))
            &&& (old(cache).names_of(zip_path@).contains(image_path@) && !old(cache).data_of(
                zip_path@,
            ).dom().contains(image_path@) ==> (r matches Err(e) && (e == ArchiveError::Io || e
                == ArchiveError::CorruptArchive || e == ArchiveError::OpenFailed)))
        },
{
    cache.entry_dimensions(zip_path, image_path)
}

} // verus!
