//! The grouping state: for each file size a group that is either a single
//! unhashed file or a table from content digest to the paths bearing it.
//! This is the lazy-hashing state machine: a size with one file is never
//! hashed; the second file of a size triggers hashing of both.

use vstd::prelude::*;
use crate::order::{lex_lt_bytes, bytes_lt, bytes_eq, path_views, lemma_lex_bytes_connected,
    lemma_lex_lt_bytes_trans, lemma_lex_lt_bytes_asym};

verus! {

/// A request to compute the content digest of one file, routed back to
/// the size group it belongs to.
pub struct HashTask {
    pub path: String,
    pub size: u64,
}

/// The views of a sequence of hash tasks.
pub open spec fn task_views(s: Seq<HashTask>) -> Seq<(Seq<char>, u64)> {
    s.map_values(|t: HashTask| (t.path@, t.size))
}

/// One digest bucket: the paths whose content produced this digest, in
/// the order their hash results arrived.
pub struct HashBucket {
    pub digest: Vec<u8>,
    pub paths: Vec<String>,
}

/// Copy a digest byte for byte.
pub(crate) fn clone_bytes(v: &Vec<u8>) -> (r: Vec<u8>)
    ensures
        r@ == v@,
{
    let mut r: Vec<u8> = Vec::new();
    let mut i: usize = 0;
    while i < v.len()
        invariant
            i <= v@.len(),
            r@ == v@.take(i as int),
        decreases v@.len() - i,
    {
        r.push(v[i]);
        proof {
            assert(v@.take(i + 1 as int) =~= v@.take(i as int).push(v@[i as int]));
        }
        i = i + 1;
    }
    proof {
        assert(v@.take(i as int) =~= v@);
    }
    r
}

/// A table from content digest to the paths bearing it, kept strictly
/// sorted by digest.
pub struct FileHashInfo {
    pub buckets: Vec<HashBucket>,
}

/// The map a bucket list stands for, later buckets taking precedence
/// (with distinct digests there is no precedence to take).
pub open spec fn bmap_of(bs: Seq<HashBucket>) -> Map<Seq<u8>, Seq<Seq<char>>>
    decreases bs.len(),
{
    if bs.len() == 0 {
        Map::<Seq<u8>, Seq<Seq<char>>>::empty()
    } else {
        bmap_of(bs.drop_last()).insert(bs.last().digest@, path_views(bs.last().paths@))
    }
}

/// The keys of the map are exactly the digests of the list.
pub proof fn lemma_bmap_of_dom(bs: Seq<HashBucket>)
    ensures
        forall|d: Seq<u8>|
            #![trigger bmap_of(bs).contains_key(d)]
            bmap_of(bs).contains_key(d) <==> exists|i: int|
                0 <= i < bs.len() && (#[trigger] bs[i]).digest@ == d,
    decreases bs.len(),
{
    if bs.len() > 0 {
        lemma_bmap_of_dom(bs.drop_last());
        assert forall|d: Seq<u8>|
            #![trigger bmap_of(bs).contains_key(d)]
            bmap_of(bs).contains_key(d) <==> exists|i: int|
                0 <= i < bs.len() && (#[trigger] bs[i]).digest@ == d by {
            if bmap_of(bs).contains_key(d) {
                if d == bs.last().digest@ {
                    assert(bs[bs.len() - 1].digest@ == d);
                } else {
                    assert(bmap_of(bs.drop_last()).contains_key(d));
                    let i = choose|i: int|
                        0 <= i < bs.drop_last().len() && (#[trigger] bs.drop_last()[i]).digest@
                            == d;
                    assert(bs[i].digest@ == d);
                }
            }
            if exists|i: int| 0 <= i < bs.len() && (#[trigger] bs[i]).digest@ == d {
                let i = choose|i: int| 0 <= i < bs.len() && (#[trigger] bs[i]).digest@ == d;
                if i == bs.len() - 1 {
                    assert(bmap_of(bs).contains_key(bs.last().digest@));
                } else {
                    assert(bs.drop_last()[i].digest@ == d);
                    assert(exists|k: int|
                        0 <= k < bs.drop_last().len() && (#[trigger] bs.drop_last()[k]).digest@
                            == d);
                    assert(bmap_of(bs.drop_last()).contains_key(d));
                    assert(bmap_of(bs).contains_key(d));
                }
            }
        }
    }
}

/// With distinct digests, each index of the list determines its map entry.
pub proof fn lemma_bmap_of_index(bs: Seq<HashBucket>, idx: int)
    requires
        0 <= idx < bs.len(),
        forall|i: int, j: int|
            #![trigger bs[i], bs[j]]
            0 <= i < j < bs.len() ==> bs[i].digest@ != bs[j].digest@,
    ensures
        bmap_of(bs).contains_key(bs[idx].digest@),
        bmap_of(bs)[bs[idx].digest@] == path_views(bs[idx].paths@),
    decreases bs.len(),
{
    if idx == bs.len() - 1 {
    } else {
        assert(bs.drop_last()[idx] == bs[idx]);
        lemma_bmap_of_index(bs.drop_last(), idx);
        assert(bs[idx].digest@ != bs.last().digest@);
    }
}

impl FileHashInfo {
    /// Buckets strictly ascending by digest (hence digests distinct), and
    /// no bucket empty: a bucket exists only once a result arrived for it.
    pub open spec fn wf(self) -> bool {
        &&& forall|i: int, j: int|
            #![trigger self.buckets@[i], self.buckets@[j]]
            0 <= i < j < self.buckets@.len() ==> lex_lt_bytes(
                self.buckets@[i].digest@,
                self.buckets@[j].digest@,
            )
        &&& forall|i: int| 0 <= i < self.buckets@.len() ==> (#[trigger] self.buckets@[i]).paths@.len() >= 1
    }

    /// The table as a map from digest to the ordered paths of its bucket.
    pub open spec fn bucket_map(self) -> Map<Seq<u8>, Seq<Seq<char>>> {
        bmap_of(self.buckets@)
    }

    /// With distinct digests, each bucket index determines its map entry.
    pub proof fn lemma_bucket_map_index(self, idx: int)
        requires
            self.wf(),
            0 <= idx < self.buckets@.len(),
        ensures
            self.bucket_map().contains_key(self.buckets@[idx].digest@),
            self.bucket_map()[self.buckets@[idx].digest@] == path_views(self.buckets@[idx].paths@),
    {
        assert forall|i: int, j: int|
            #![trigger self.buckets@[i], self.buckets@[j]]
            0 <= i < j < self.buckets@.len() implies self.buckets@[i].digest@
            != self.buckets@[j].digest@ by {
            if self.buckets@[i].digest@ == self.buckets@[j].digest@ {
                lemma_lex_lt_bytes_asym(self.buckets@[i].digest@, self.buckets@[j].digest@);
            }
        }
        lemma_bmap_of_index(self.buckets@, idx);
    }

    /// Create an empty table: a size group that has just reached the
    /// hashed state, before any result arrived.
    pub fn new() -> (r: FileHashInfo)
        ensures
            r.wf(),
            r.bucket_map() == Map::<Seq<u8>, Seq<Seq<char>>>::empty(),
    {
        let r = FileHashInfo { buckets: Vec::new() };
        proof {
            assert(r.bucket_map() =~= Map::<Seq<u8>, Seq<Seq<char>>>::empty());
        }
        r
    }

    /// Record one hash result: append the path to the bucket of its
    /// digest, creating the bucket if this digest is new. Appending is
    /// what makes result application commute: the bucket's path multiset
    /// does not depend on arrival order.
    pub fn add(&mut self, digest: &Vec<u8>, path: &str)
        requires
            old(self).wf(),
        ensures
            final(self).wf(),
            final(self).bucket_map() == old(self).bucket_map().insert(
                digest@,
                if old(self).bucket_map().contains_key(digest@) {
                    old(self).bucket_map()[digest@].push(path@)
                } else {
                    seq![path@]
                },
            ),
    {
        let ghost orig = *self;
        let mut i: usize = 0;
        while i < self.buckets.len() && bytes_lt(&self.buckets[i].digest, digest)
            invariant
                *self == orig,
                i <= self.buckets@.len(),
                forall|j: int|
                    0 <= j < i ==> lex_lt_bytes((#[trigger] self.buckets@[j]).digest@, digest@),
            decreases self.buckets@.len() - i,
        {
            i = i + 1;
        }
        if i < self.buckets.len() && bytes_eq(&self.buckets[i].digest, digest) {
            let mut b = self.buckets.remove(i);
            b.paths.push(path.to_owned());
            let ghost bsnap = b;
            self.buckets.insert(i, b);
            proof {
                assert(self.buckets@ =~= orig.buckets@.update(i as int, bsnap));
                assert forall|x: int, y: int|
                    #![trigger self.buckets@[x], self.buckets@[y]]
                    0 <= x < y < self.buckets@.len() implies lex_lt_bytes(
                    self.buckets@[x].digest@,
                    self.buckets@[y].digest@,
                ) by {
                    assert(self.buckets@[x].digest@ == orig.buckets@[x].digest@);
                    assert(self.buckets@[y].digest@ == orig.buckets@[y].digest@);
                }
                lemma_bmap_of_dom(self.buckets@);
                lemma_bmap_of_dom(orig.buckets@);
                orig.lemma_bucket_map_index(i as int);
                assert(path_views(bsnap.paths@) =~= orig.bucket_map()[digest@].push(path@));
                assert forall|d: Seq<u8>|
                    #![trigger self.bucket_map().contains_key(d)]
                    true implies self.bucket_map().contains_key(d) == orig.bucket_map().insert(
                    digest@,
                    orig.bucket_map()[digest@].push(path@),
                ).contains_key(d) && (self.bucket_map().contains_key(d)
                    ==> self.bucket_map()[d] == orig.bucket_map().insert(
                    digest@,
                    orig.bucket_map()[digest@].push(path@),
                )[d]) by {
                    if d == digest@ {
                        self.lemma_bucket_map_index(i as int);
                    } else {
                        if exists|k: int| 0 <= k < orig.buckets@.len()
                            && (#[trigger] orig.buckets@[k]).digest@ == d {
                            let k = choose|k: int| 0 <= k < orig.buckets@.len()
                                && (#[trigger] orig.buckets@[k]).digest@ == d;
                            orig.lemma_bucket_map_index(k);
                            self.lemma_bucket_map_index(k);
                        } else {
                            if exists|k: int| 0 <= k < self.buckets@.len()
                                && (#[trigger] self.buckets@[k]).digest@ == d {
                                let k = choose|k: int| 0 <= k < self.buckets@.len()
                                    && (#[trigger] self.buckets@[k]).digest@ == d;
                                assert(orig.buckets@[k].digest@ == d);
                            }
                        }
                    }
                }
                assert(self.bucket_map() =~= orig.bucket_map().insert(
                    digest@,
                    orig.bucket_map()[digest@].push(path@),
                ));
            }
        } else {
            proof {
                if i < self.buckets@.len() {
                    lemma_lex_bytes_connected(self.buckets@[i as int].digest@, digest@);
                }
                if exists|k: int| 0 <= k < orig.buckets@.len()
                    && (#[trigger] orig.buckets@[k]).digest@ == digest@ {
                    let k = choose|k: int| 0 <= k < orig.buckets@.len()
                        && (#[trigger] orig.buckets@[k]).digest@ == digest@;
                    if k < i {
                        assert(lex_lt_bytes(digest@, digest@));
                        lemma_lex_lt_bytes_asym(digest@, digest@);
                    } else if k > i as int {
                        assert(lex_lt_bytes(self.buckets@[i as int].digest@, digest@));
                        lemma_lex_lt_bytes_asym(self.buckets@[i as int].digest@, digest@);
                    }
                    assert(false);
                }
                lemma_bmap_of_dom(orig.buckets@);
                assert(!orig.bucket_map().contains_key(digest@));
            }
            let mut paths: Vec<String> = Vec::new();
            paths.push(path.to_owned());
            let b = HashBucket { digest: clone_bytes(digest), paths };
            self.buckets.insert(i, b);
            proof {
                let nb = self.buckets@[i as int];
                assert(nb.digest@ == digest@);
                assert forall|x: int, y: int|
                    #![trigger self.buckets@[x], self.buckets@[y]]
                    0 <= x < y < self.buckets@.len() implies lex_lt_bytes(
                    self.buckets@[x].digest@,
                    self.buckets@[y].digest@,
                ) by {
                    if y < i {
                        assert(lex_lt_bytes(orig.buckets@[x].digest@, orig.buckets@[y].digest@));
                    } else if x < i && y == i {
                        assert(lex_lt_bytes(orig.buckets@[x].digest@, digest@));
                    } else if x == i && y > i {
                        assert(self.buckets@[y].digest@ == orig.buckets@[y - 1].digest@);
                        if y - 1 > i as int {
                            assert(lex_lt_bytes(
                                orig.buckets@[i as int].digest@,
                                orig.buckets@[y - 1].digest@,
                            ));
                            lemma_lex_lt_bytes_trans(
                                digest@,
                                orig.buckets@[i as int].digest@,
                                orig.buckets@[y - 1].digest@,
                            );
                        }
                    } else if x < i && y > i {
                        assert(lex_lt_bytes(orig.buckets@[x].digest@, orig.buckets@[y - 1].digest@));
                    } else if x > i {
                        assert(lex_lt_bytes(
                            orig.buckets@[x - 1].digest@,
                            orig.buckets@[y - 1].digest@,
                        ));
                    }
                }
                assert(path_views(nb.paths@) =~= seq![path@]);
                lemma_bmap_of_dom(self.buckets@);
                lemma_bmap_of_dom(orig.buckets@);
                assert forall|d: Seq<u8>|
                    #![trigger self.bucket_map().contains_key(d)]
                    true implies self.bucket_map().contains_key(d) == orig.bucket_map().insert(
                    digest@,
                    seq![path@],
                ).contains_key(d) && (self.bucket_map().contains_key(d)
                    ==> self.bucket_map()[d] == orig.bucket_map().insert(
                    digest@,
                    seq![path@],
                )[d]) by {
                    if d == digest@ {
                        self.lemma_bucket_map_index(i as int);
                    } else {
                        if exists|k: int| 0 <= k < orig.buckets@.len()
                            && (#[trigger] orig.buckets@[k]).digest@ == d {
                            let k = choose|k: int| 0 <= k < orig.buckets@.len()
                                && (#[trigger] orig.buckets@[k]).digest@ == d;
                            orig.lemma_bucket_map_index(k);
                            if k < i {
                                self.lemma_bucket_map_index(k);
                                assert(self.buckets@[k] == orig.buckets@[k]);
                            } else {
                                self.lemma_bucket_map_index(k + 1);
                                assert(self.buckets@[k + 1] == orig.buckets@[k]);
                            }
                        } else {
                            if exists|k: int| 0 <= k < self.buckets@.len()
                                && (#[trigger] self.buckets@[k]).digest@ == d {
                                let k = choose|k: int| 0 <= k < self.buckets@.len()
                                    && (#[trigger] self.buckets@[k]).digest@ == d;
                                if k < i {
                                    assert(orig.buckets@[k].digest@ == d);
                                } else if k == i {
                                    assert(false);
                                } else {
                                    assert(orig.buckets@[k - 1].digest@ == d);
                                }
                            }
                        }
                    }
                }
                assert(self.bucket_map() =~= orig.bucket_map().insert(digest@, seq![path@]));
            }
        }
    }
}

/// One size group: either a lone file of this size, not hashed yet, or
/// the digest table of a size that proved to need hashing.
pub enum SizeGroup {
    Single(String),
    Hashed(FileHashInfo),
}

/// The spec-level value of one size group.
#[verifier::ext_equal]
pub enum GroupModel {
    Single(Seq<char>),
    Hashed(Map<Seq<u8>, Seq<Seq<char>>>),
}

pub open spec fn group_model(g: SizeGroup) -> GroupModel {
    match g {
        SizeGroup::Single(p) => GroupModel::Single(p@),
        SizeGroup::Hashed(h) => GroupModel::Hashed(h.bucket_map()),
    }
}

pub open spec fn group_wf(g: SizeGroup) -> bool {
    match g {
        SizeGroup::Single(_) => true,
        SizeGroup::Hashed(h) => h.wf(),
    }
}

/// One size with its group.
pub struct SizeEntry {
    pub size: u64,
    pub group: SizeGroup,
}

/// What one observation of a file does to the grouping state, and which
/// hash tasks it emits: a new size starts a single, unhashed group and
/// emits nothing; a second file of a known size turns the group into an
/// empty digest table and emits tasks for both files; a further file of
/// a hashed size emits one task.
pub open spec fn observe_model(m: Map<u64, GroupModel>, size: u64, path: Seq<char>) -> (
    Map<u64, GroupModel>,
    Seq<(Seq<char>, u64)>,
) {
    if !m.contains_key(size) {
        (m.insert(size, GroupModel::Single(path)), Seq::<(Seq<char>, u64)>::empty())
    } else {
        match m[size] {
            GroupModel::Single(first) => (
                m.insert(size, GroupModel::Hashed(Map::<Seq<u8>, Seq<Seq<char>>>::empty())),
                seq![(first, size), (path, size)],
            ),
            GroupModel::Hashed(_) => (m, seq![(path, size)]),
        }
    }
}

/// What recording one hash result does to the grouping state: the path
/// is appended to the bucket of its digest in its size's table. A result
/// for a size that is not in the hashed state changes nothing.
pub open spec fn apply_model(
    m: Map<u64, GroupModel>,
    size: u64,
    digest: Seq<u8>,
    path: Seq<char>,
) -> Map<u64, GroupModel> {
    if m.contains_key(size) {
        match m[size] {
            GroupModel::Hashed(bm) => m.insert(
                size,
                GroupModel::Hashed(
                    bm.insert(
                        digest,
                        if bm.contains_key(digest) {
                            bm[digest].push(path)
                        } else {
                            seq![path]
                        },
                    ),
                ),
            ),
            GroupModel::Single(_) => m,
        }
    } else {
        m
    }
}

/// The grouping state: for each size seen so far, its group, kept
/// strictly sorted by size. Mutated by one owner only; hashing itself
/// happens elsewhere, against the tasks this structure emits.
pub struct FileSizeInfo {
    pub entries: Vec<SizeEntry>,
}

/// The map an entry list stands for.
pub open spec fn smap_of(es: Seq<SizeEntry>) -> Map<u64, GroupModel>
    decreases es.len(),
{
    if es.len() == 0 {
        Map::<u64, GroupModel>::empty()
    } else {
        smap_of(es.drop_last()).insert(es.last().size, group_model(es.last().group))
    }
}

/// The keys of the map are exactly the sizes of the list.
pub proof fn lemma_smap_of_dom(es: Seq<SizeEntry>)
    ensures
        forall|s: u64|
            #![trigger smap_of(es).contains_key(s)]
            smap_of(es).contains_key(s) <==> exists|i: int|
                0 <= i < es.len() && (#[trigger] es[i]).size == s,
    decreases es.len(),
{
    if es.len() > 0 {
        lemma_smap_of_dom(es.drop_last());
        assert forall|s: u64|
            #![trigger smap_of(es).contains_key(s)]
            smap_of(es).contains_key(s) <==> exists|i: int|
                0 <= i < es.len() && (#[trigger] es[i]).size == s by {
            if smap_of(es).contains_key(s) {
                if s == es.last().size {
                    assert(es[es.len() - 1].size == s);
                } else {
                    assert(smap_of(es.drop_last()).contains_key(s));
                    let i = choose|i: int|
                        0 <= i < es.drop_last().len() && (#[trigger] es.drop_last()[i]).size == s;
                    assert(es[i].size == s);
                }
            }
            if exists|i: int| 0 <= i < es.len() && (#[trigger] es[i]).size == s {
                let i = choose|i: int| 0 <= i < es.len() && (#[trigger] es[i]).size == s;
                if i == es.len() - 1 {
                    assert(smap_of(es).contains_key(es.last().size));
                } else {
                    assert(es.drop_last()[i].size == s);
                    assert(exists|k: int|
                        0 <= k < es.drop_last().len() && (#[trigger] es.drop_last()[k]).size == s);
                    assert(smap_of(es.drop_last()).contains_key(s));
                    assert(smap_of(es).contains_key(s));
                }
            }
        }
    }
}

/// With distinct sizes, each index of the list determines its map entry.
pub proof fn lemma_smap_of_index(es: Seq<SizeEntry>, idx: int)
    requires
        0 <= idx < es.len(),
        forall|i: int, j: int|
            #![trigger es[i], es[j]]
            0 <= i < j < es.len() ==> es[i].size != es[j].size,
    ensures
        smap_of(es).contains_key(es[idx].size),
        smap_of(es)[es[idx].size] == group_model(es[idx].group),
    decreases es.len(),
{
    if idx == es.len() - 1 {
    } else {
        assert(es.drop_last()[idx] == es[idx]);
        lemma_smap_of_index(es.drop_last(), idx);
        assert(es[idx].size != es.last().size);
    }
}

impl FileSizeInfo {
    /// Entries strictly ascending by size (hence sizes distinct), each
    /// group well formed.
    pub open spec fn wf(self) -> bool {
        &&& forall|i: int, j: int|
            #![trigger self.entries@[i], self.entries@[j]]
            0 <= i < j < self.entries@.len() ==> self.entries@[i].size < self.entries@[j].size
        &&& forall|i: int| 0 <= i < self.entries@.len() ==> group_wf((#[trigger] self.entries@[i]).group)
    }

    /// The state as a map from size to the model of its group.
    pub open spec fn as_map(self) -> Map<u64, GroupModel> {
        smap_of(self.entries@)
    }

    pub proof fn lemma_as_map_index(self, idx: int)
        requires
            self.wf(),
            0 <= idx < self.entries@.len(),
        ensures
            self.as_map().contains_key(self.entries@[idx].size),
            self.as_map()[self.entries@[idx].size] == group_model(self.entries@[idx].group),
    {
        lemma_smap_of_index(self.entries@, idx);
    }

    /// Create an empty grouping state.
    pub fn new() -> (r: FileSizeInfo)
        ensures
            r.wf(),
            r.as_map() == Map::<u64, GroupModel>::empty(),
    {
        FileSizeInfo { entries: Vec::new() }
    }

    /// Observe one file: record it under its size and return the hash
    /// tasks this observation makes necessary, exactly as the model says.
    pub fn add(&mut self, size: u64, path: &str) -> (tasks: Vec<HashTask>)
        requires
            old(self).wf(),
        ensures
            final(self).wf(),
            final(self).as_map() == observe_model(old(self).as_map(), size, path@).0,
            task_views(tasks@) == observe_model(old(self).as_map(), size, path@).1,
    {
        let ghost orig = *self;
        let mut i: usize = 0;
        while i < self.entries.len() && self.entries[i].size < size
            invariant
                *self == orig,
                i <= self.entries@.len(),
                forall|j: int| 0 <= j < i ==> (#[trigger] self.entries@[j]).size < size,
            decreases self.entries@.len() - i,
        {
            i = i + 1;
        }
        let mut tasks: Vec<HashTask> = Vec::new();
        if i < self.entries.len() && self.entries[i].size == size {
            proof {
                orig.lemma_as_map_index(i as int);
            }
            let entry = self.entries.remove(i);
            let ghost esnap = entry;
            match entry.group {
                SizeGroup::Single(first) => {
                    let ghost firstv = first@;
                    tasks.push(HashTask { path: first, size });
                    tasks.push(HashTask { path: path.to_owned(), size });
                    let fresh = SizeEntry { size, group: SizeGroup::Hashed(FileHashInfo::new()) };
                    let ghost fsnap = fresh;
                    self.entries.insert(i, fresh);
                    proof {
                        assert(self.entries@ =~= orig.entries@.update(i as int, fsnap));
                        self.lemma_entry_update_map(orig, i as int, fsnap);
                        assert(group_model(fsnap.group) =~= GroupModel::Hashed(
                            Map::<Seq<u8>, Seq<Seq<char>>>::empty(),
                        ));
                        assert(task_views(tasks@) =~= seq![(firstv, size), (path@, size)]);
                    }
                }
                SizeGroup::Hashed(h) => {
                    let back = SizeEntry { size, group: SizeGroup::Hashed(h) };
                    self.entries.insert(i, back);
                    tasks.push(HashTask { path: path.to_owned(), size });
                    proof {
                        assert(self.entries@ =~= orig.entries@);
                        assert(task_views(tasks@) =~= seq![(path@, size)]);
                    }
                }
            }
        } else {
            proof {
                assert forall|k: int| 0 <= k < orig.entries@.len() implies (#[trigger] orig.entries@[k]).size
                    != size by {
                    if k >= i {
                        if k > i {
                            assert(orig.entries@[i as int].size < orig.entries@[k].size);
                        }
                    }
                }
                lemma_smap_of_dom(orig.entries@);
                assert(!orig.as_map().contains_key(size));
            }
            let fresh = SizeEntry { size, group: SizeGroup::Single(path.to_owned()) };
            let ghost fsnap = fresh;
            self.entries.insert(i, fresh);
            proof {
                self.lemma_entry_insert_map(orig, i as int, fsnap);
                assert(task_views(tasks@) =~= Seq::<(Seq<char>, u64)>::empty());
            }
        }
        tasks
    }

    /// After replacing the entry at `idx` by one with the same size, the
    /// state is well formed and its map gained the new group.
    proof fn lemma_entry_update_map(self, orig: FileSizeInfo, idx: int, fresh: SizeEntry)
        requires
            orig.wf(),
            0 <= idx < orig.entries@.len(),
            fresh.size == orig.entries@[idx].size,
            group_wf(fresh.group),
            self.entries@ == orig.entries@.update(idx, fresh),
        ensures
            self.wf(),
            self.as_map() == orig.as_map().insert(fresh.size, group_model(fresh.group)),
    {
        assert forall|i: int, j: int|
            #![trigger self.entries@[i], self.entries@[j]]
            0 <= i < j < self.entries@.len() implies self.entries@[i].size
            < self.entries@[j].size by {
            assert(self.entries@[i].size == orig.entries@[i].size);
            assert(self.entries@[j].size == orig.entries@[j].size);
        }
        assert forall|i: int| 0 <= i < self.entries@.len() implies group_wf(
            (#[trigger] self.entries@[i]).group,
        ) by {
            if i != idx {
                assert(self.entries@[i] == orig.entries@[i]);
            }
        }
        lemma_smap_of_dom(self.entries@);
        lemma_smap_of_dom(orig.entries@);
        let target = orig.as_map().insert(fresh.size, group_model(fresh.group));
        assert forall|s: u64|
            #![trigger self.as_map().contains_key(s)]
            true implies self.as_map().contains_key(s) == target.contains_key(s) && (
        self.as_map().contains_key(s) ==> self.as_map()[s] == target[s]) by {
            if self.as_map().contains_key(s) {
                let k = choose|k: int|
                    0 <= k < self.entries@.len() && (#[trigger] self.entries@[k]).size == s;
                assert(orig.entries@[k].size == s);
                self.lemma_as_map_index(k);
                if s == fresh.size {
                } else {
                    orig.lemma_as_map_index(k);
                    assert(self.entries@[k] == orig.entries@[k]);
                }
            }
            if target.contains_key(s) {
                if s == fresh.size {
                    assert(self.entries@[idx].size == s);
                } else {
                    let k = choose|k: int|
                        0 <= k < orig.entries@.len() && (#[trigger] orig.entries@[k]).size == s;
                    assert(self.entries@[k].size == s);
                }
            }
        }
        assert(self.as_map() =~= target);
    }

    /// After inserting a new entry at `idx` with a size no other entry
    /// has, between its neighbours, the state is well formed and its map
    /// gained the new group.
    proof fn lemma_entry_insert_map(self, orig: FileSizeInfo, idx: int, fresh: SizeEntry)
        requires
            orig.wf(),
            0 <= idx <= orig.entries@.len(),
            group_wf(fresh.group),
            forall|j: int| 0 <= j < idx ==> (#[trigger] orig.entries@[j]).size < fresh.size,
            forall|j: int|
                idx <= j < orig.entries@.len() ==> fresh.size < (#[trigger] orig.entries@[j]).size,
            self.entries@ == orig.entries@.insert(idx, fresh),
        ensures
            self.wf(),
            self.as_map() == orig.as_map().insert(fresh.size, group_model(fresh.group)),
    {
        assert forall|i: int, j: int|
            #![trigger self.entries@[i], self.entries@[j]]
            0 <= i < j < self.entries@.len() implies self.entries@[i].size
            < self.entries@[j].size by {
            if i < idx && j == idx {
                assert(self.entries@[i] == orig.entries@[i]);
            } else if i == idx && j > idx {
                assert(self.entries@[j] == orig.entries@[j - 1]);
            } else if i < idx && j > idx {
                assert(self.entries@[i] == orig.entries@[i]);
                assert(self.entries@[j] == orig.entries@[j - 1]);
            } else if i > idx {
                assert(self.entries@[i] == orig.entries@[i - 1]);
                assert(self.entries@[j] == orig.entries@[j - 1]);
            } else if j < idx {
                assert(self.entries@[i] == orig.entries@[i]);
                assert(self.entries@[j] == orig.entries@[j]);
            }
        }
        assert forall|i: int| 0 <= i < self.entries@.len() implies group_wf(
            (#[trigger] self.entries@[i]).group,
        ) by {
            if i < idx {
                assert(self.entries@[i] == orig.entries@[i]);
            } else if i > idx {
                assert(self.entries@[i] == orig.entries@[i - 1]);
            }
        }
        lemma_smap_of_dom(self.entries@);
        lemma_smap_of_dom(orig.entries@);
        let target = orig.as_map().insert(fresh.size, group_model(fresh.group));
        assert forall|s: u64|
            #![trigger self.as_map().contains_key(s)]
            true implies self.as_map().contains_key(s) == target.contains_key(s) && (
        self.as_map().contains_key(s) ==> self.as_map()[s] == target[s]) by {
            if self.as_map().contains_key(s) {
                let k = choose|k: int|
                    0 <= k < self.entries@.len() && (#[trigger] self.entries@[k]).size == s;
                self.lemma_as_map_index(k);
                if s == fresh.size {
                    if k != idx {
                        if k < idx {
                            assert(orig.entries@[k].size == s);
                        } else {
                            assert(orig.entries@[k - 1].size == s);
                        }
                        assert(false);
                    }
                } else {
                    if k < idx {
                        assert(orig.entries@[k].size == s);
                        orig.lemma_as_map_index(k);
                        assert(self.entries@[k] == orig.entries@[k]);
                    } else {
                        assert(orig.entries@[k - 1].size == s);
                        orig.lemma_as_map_index(k - 1);
                        assert(self.entries@[k] == orig.entries@[k - 1]);
                    }
                }
            }
            if target.contains_key(s) {
                if s == fresh.size {
                    assert(self.entries@[idx].size == s);
                } else {
                    let k = choose|k: int|
                        0 <= k < orig.entries@.len() && (#[trigger] orig.entries@[k]).size == s;
                    if k < idx {
                        assert(self.entries@[k].size == s);
                    } else {
                        assert(self.entries@[k + 1].size == s);
                    }
                }
            }
        }
        assert(self.as_map() =~= target);
    }

    /// Does this size have a group in the hashed state? Only such groups
    /// accept hash results.
    pub fn has_hashed_group(&self, size: u64) -> (r: bool)
        requires
            self.wf(),
        ensures
            r == (self.as_map().contains_key(size) && self.as_map()[size] is Hashed),
    {
        let mut i: usize = 0;
        while i < self.entries.len() && self.entries[i].size < size
            invariant
                i <= self.entries@.len(),
                forall|j: int| 0 <= j < i ==> (#[trigger] self.entries@[j]).size < size,
            decreases self.entries@.len() - i,
        {
            i = i + 1;
        }
        if i < self.entries.len() && self.entries[i].size == size {
            proof {
                self.lemma_as_map_index(i as int);
            }
            match &self.entries[i].group {
                SizeGroup::Hashed(_) => true,
                SizeGroup::Single(_) => false,
            }
        } else {
            proof {
                assert forall|k: int| 0 <= k < self.entries@.len() implies (
                #[trigger] self.entries@[k]).size != size by {
                    if k > i {
                        assert(self.entries@[i as int].size < self.entries@[k].size);
                    }
                }
                lemma_smap_of_dom(self.entries@);
            }
            false
        }
    }

    /// Record one hash result for a size in the hashed state: append the
    /// path to the bucket of its digest, exactly as the model says.
    pub fn apply_hash_result(&mut self, size: u64, path: &str, digest: &Vec<u8>)
        requires
            old(self).wf(),
            old(self).as_map().contains_key(size),
            old(self).as_map()[size] is Hashed,
        ensures
            final(self).wf(),
            final(self).as_map() == apply_model(old(self).as_map(), size, digest@, path@),
    {
        let ghost orig = *self;
        let mut i: usize = 0;
        while i < self.entries.len() && self.entries[i].size < size
            invariant
                *self == orig,
                i <= self.entries@.len(),
                forall|j: int| 0 <= j < i ==> (#[trigger] self.entries@[j]).size < size,
            decreases self.entries@.len() - i,
        {
            i = i + 1;
        }
        if i < self.entries.len() && self.entries[i].size == size {
            proof {
                orig.lemma_as_map_index(i as int);
            }
            let entry = self.entries.remove(i);
            match entry.group {
                SizeGroup::Hashed(mut h) => {
                    let ghost hsnap = h;
                    h.add(digest, path);
                    let back = SizeEntry { size, group: SizeGroup::Hashed(h) };
                    let ghost bsnap = back;
                    self.entries.insert(i, back);
                    proof {
                        assert(self.entries@ =~= orig.entries@.update(i as int, bsnap));
                        self.lemma_entry_update_map(orig, i as int, bsnap);
                        assert(orig.as_map()[size] == GroupModel::Hashed(hsnap.bucket_map()));
                        assert(group_model(bsnap.group) =~= apply_model(
                            orig.as_map(),
                            size,
                            digest@,
                            path@,
                        )[size]);
                        assert(self.as_map() =~= apply_model(orig.as_map(), size, digest@, path@));
                    }
                }
                SizeGroup::Single(p) => {
                    proof {
                        assert(orig.as_map()[size] == GroupModel::Single(p@));
                        assert(false);
                    }
                    let back = SizeEntry { size, group: SizeGroup::Single(p) };
                    self.entries.insert(i, back);
                }
            }
        } else {
            proof {
                assert forall|k: int| 0 <= k < self.entries@.len() implies (
                #[trigger] self.entries@[k]).size != size by {
                    if k > i {
                        assert(self.entries@[i as int].size < self.entries@[k].size);
                    }
                }
                lemma_smap_of_dom(self.entries@);
                assert(false);
            }
        }
    }
}

} // verus!
