//! The duplicate report: a pure, read-only pass over the finished
//! grouping state. It keeps exactly the digest buckets with at least two
//! paths, ordered by size then digest, each bucket's paths sorted, so the
//! same state always renders to the same text, whatever order results
//! arrived in.

use vstd::prelude::*;
use vstd::relations::sorted_by;
use crate::hex::hex_of_bytes;
use crate::index::{FileSizeInfo, SizeGroup, GroupModel, HashBucket, clone_bytes};
use crate::order::{lex_lt_bytes, path_views, path_le, sort_paths};

verus! {

/// One reported bucket: the size and digest shared by its files, and
/// their paths in the path order.
pub struct ReportBucket {
    pub size: u64,
    pub digest: Vec<u8>,
    pub paths: Vec<String>,
}

/// The digest table of a group model; a single group has none.
pub open spec fn hashed_table(g: GroupModel) -> Map<Seq<u8>, Seq<Seq<char>>> {
    match g {
        GroupModel::Hashed(bm) => bm,
        GroupModel::Single(_) => Map::<Seq<u8>, Seq<Seq<char>>>::empty(),
    }
}

/// Is (size, digest) a duplicate bucket of the state: a hashed group of
/// this size whose table holds at least two paths under this digest?
pub open spec fn is_dup_bucket(m: Map<u64, GroupModel>, s: u64, d: Seq<u8>) -> bool {
    &&& m.contains_key(s)
    &&& m[s] is Hashed
    &&& hashed_table(m[s]).contains_key(d)
    &&& hashed_table(m[s])[d].len() >= 2
}

/// The report rows are strictly ordered by size, then digest.
pub open spec fn rows_ordered(rs: Seq<ReportBucket>) -> bool {
    forall|x: int, y: int|
        #![trigger rs[x], rs[y]]
        0 <= x < y < rs.len() ==> rs[x].size < rs[y].size || (rs[x].size == rs[y].size
            && lex_lt_bytes(rs[x].digest@, rs[y].digest@))
}

/// Every row is a duplicate bucket of the state, with its paths sorted
/// and drawn exactly (as a multiset) from that bucket.
pub open spec fn rows_sound(rs: Seq<ReportBucket>, m: Map<u64, GroupModel>) -> bool {
    forall|k: int|
        #![trigger rs[k]]
        0 <= k < rs.len() ==> {
            &&& is_dup_bucket(m, rs[k].size, rs[k].digest@)
            &&& sorted_by(path_views(rs[k].paths@), path_le())
            &&& path_views(rs[k].paths@).to_multiset() == hashed_table(m[rs[k].size])[rs[k].digest@].to_multiset()
        }
}

/// Every duplicate bucket of the state has a row.
pub open spec fn rows_complete(rs: Seq<ReportBucket>, m: Map<u64, GroupModel>) -> bool {
    forall|s: u64, d: Seq<u8>|
        is_dup_bucket(m, s, d) ==> exists|k: int|
            0 <= k < rs.len() && (#[trigger] rs[k]).size == s && rs[k].digest@ == d
}

/// Rows up to here take their sizes from the first `n` entries.
spec fn rows_from_prefix(rs: Seq<ReportBucket>, info: FileSizeInfo, n: int) -> bool {
    forall|k: int|
        #![trigger rs[k]]
        0 <= k < rs.len() ==> exists|j: int|
            0 <= j < n && rs[k].size == (#[trigger] info.entries@[j]).size
}

/// Every duplicate bucket whose size lies in the first `n` entries has a row.
spec fn dups_covered_prefix(
    rs: Seq<ReportBucket>,
    m: Map<u64, GroupModel>,
    info: FileSizeInfo,
    n: int,
) -> bool {
    forall|s: u64, d: Seq<u8>|
        #![trigger is_dup_bucket(m, s, d)]
        (is_dup_bucket(m, s, d) && (exists|j: int|
            0 <= j < n && (#[trigger] info.entries@[j]).size == s)) ==> (exists|k: int|
            0 <= k < rs.len() && (#[trigger] rs[k]).size == s && rs[k].digest@ == d)
}

/// Every duplicate bucket of size `s_val` among the first `n` buckets has a row.
spec fn dups_covered_buckets(
    rs: Seq<ReportBucket>,
    m: Map<u64, GroupModel>,
    s_val: u64,
    bs: Seq<HashBucket>,
    n: int,
) -> bool {
    forall|d: Seq<u8>|
        #![trigger is_dup_bucket(m, s_val, d)]
        (is_dup_bucket(m, s_val, d) && (exists|jj: int|
            0 <= jj < n && (#[trigger] bs[jj]).digest@ == d)) ==> (exists|k: int|
            0 <= k < rs.len() && (#[trigger] rs[k]).size == s_val && rs[k].digest@ == d)
}

/// Rows from `start` on carry size `s_val` and a digest of one of the
/// first `n` buckets.
spec fn rows_tail_from(
    rs: Seq<ReportBucket>,
    start: int,
    s_val: u64,
    bs: Seq<HashBucket>,
    n: int,
) -> bool {
    forall|k: int|
        #![trigger rs[k]]
        start <= k < rs.len() ==> rs[k].size == s_val && (exists|jj: int|
            0 <= jj < n && rs[k].digest@ == (#[trigger] bs[jj]).digest@)
}

/// Build the duplicate report of a grouping state: exactly its duplicate
/// buckets, ordered by size then digest, paths sorted within each bucket.
pub fn duplicate_report(info: &FileSizeInfo) -> (r: Vec<ReportBucket>)
    requires
        info.wf(),
    ensures
        rows_ordered(r@),
        rows_sound(r@, info.as_map()),
        rows_complete(r@, info.as_map()),
{
    let ghost m = info.as_map();
    let mut r: Vec<ReportBucket> = Vec::new();
    let mut i: usize = 0;
    while i < info.entries.len()
        invariant
            info.wf(),
            m == info.as_map(),
            i <= info.entries@.len(),
            rows_ordered(r@),
            rows_sound(r@, m),
            rows_from_prefix(r@, *info, i as int),
            dups_covered_prefix(r@, m, *info, i as int),
        decreases info.entries@.len() - i,
    {
        let s_val = info.entries[i].size;
        proof {
            info.lemma_as_map_index(i as int);
        }
        match &info.entries[i].group {
            SizeGroup::Hashed(h) => {
                proof {
                    assert(crate::index::group_wf(info.entries@[i as int].group));
                    assert(h.wf());
                    assert(m[s_val] == GroupModel::Hashed(h.bucket_map()));
                    crate::index::lemma_bmap_of_dom(h.buckets@);
                }
                let ghost r_start = r@;
                let mut j: usize = 0;
                while j < h.buckets.len()
                    invariant
                        info.wf(),
                        m == info.as_map(),
                        i < info.entries@.len(),
                        info.entries@[i as int].size == s_val,
                        m.contains_key(s_val),
                        m[s_val] == GroupModel::Hashed(h.bucket_map()),
                        h.wf(),
                        j <= h.buckets@.len(),
                        rows_ordered(r@),
                        rows_sound(r@, m),
                        r@.len() >= r_start.len(),
                        r@.subrange(0, r_start.len() as int) == r_start,
                        rows_from_prefix(r_start, *info, i as int),
                        rows_tail_from(r@, r_start.len() as int, s_val, h.buckets@, j as int),
                        dups_covered_prefix(r@, m, *info, i as int),
                        dups_covered_buckets(r@, m, s_val, h.buckets@, j as int),
                    decreases h.buckets@.len() - j,
                {
                    proof {
                        h.lemma_bucket_map_index(j as int);
                    }
                    if h.buckets[j].paths.len() >= 2 {
                        let row = ReportBucket {
                            size: s_val,
                            digest: clone_bytes(&h.buckets[j].digest),
                            paths: sort_paths(&h.buckets[j].paths),
                        };
                        let ghost rowsnap = row;
                        let ghost r_before = r@;
                        r.push(row);
                        proof {
                            assert(r@ == r_before.push(rowsnap));
                            assert forall|k: int| 0 <= k < r_before.len() implies r@[k]
                                == r_before[k] by {}
                            assert(r@.subrange(0, r_start.len() as int) =~= r_start);
                            assert(hashed_table(m[s_val]) == h.bucket_map());
                            assert(hashed_table(m[s_val])[rowsnap.digest@] == path_views(
                                h.buckets@[j as int].paths@,
                            ));
                            assert(path_views(h.buckets@[j as int].paths@).len() == h.buckets@[
                                j as int].paths@.len());
                            assert(is_dup_bucket(m, s_val, rowsnap.digest@));
                            assert(rows_sound(r@, m));
                            assert forall|x: int, y: int|
                                #![trigger r@[x], r@[y]]
                                0 <= x < y < r@.len() implies r@[x].size < r@[y].size || (
                            r@[x].size == r@[y].size && lex_lt_bytes(
                                r@[x].digest@,
                                r@[y].digest@,
                            )) by {
                                if y == r@.len() - 1 {
                                    if x < r_start.len() {
                                        assert(r@[x] == r_start[x]);
                                        let jx = choose|jx: int|
                                            0 <= jx < i && r_start[x].size == (
                                            #[trigger] info.entries@[jx]).size;
                                        assert(info.entries@[jx].size < info.entries@[
                                            i as int].size);
                                    } else {
                                        let jj = choose|jj: int|
                                            0 <= jj < j && r@[x].digest@ == (
                                            #[trigger] h.buckets@[jj]).digest@;
                                        assert(lex_lt_bytes(
                                            h.buckets@[jj].digest@,
                                            h.buckets@[j as int].digest@,
                                        ));
                                    }
                                } else {
                                    assert(r@[x] == r_before[x]);
                                    assert(r@[y] == r_before[y]);
                                }
                            }
                            assert forall|d: Seq<u8>|
                                is_dup_bucket(m, s_val, d) && (exists|jj: int|
                                    0 <= jj < j + 1 && (#[trigger] h.buckets@[jj]).digest@ == d)
                                implies (exists|k: int|
                                0 <= k < r@.len() && (#[trigger] r@[k]).size == s_val
                                    && r@[k].digest@ == d) by {
                                let jj = choose|jj: int|
                                    0 <= jj < j + 1 && (#[trigger] h.buckets@[jj]).digest@ == d;
                                if jj == j {
                                    assert(r@[r@.len() - 1].size == s_val && r@[r@.len()
                                        - 1].digest@ == d);
                                } else {
                                    let k0 = choose|k0: int|
                                        0 <= k0 < r_before.len() && (#[trigger] r_before[k0]).size
                                            == s_val && r_before[k0].digest@ == d;
                                    assert(r@[k0] == r_before[k0]);
                                }
                            }
                            assert(dups_covered_buckets(r@, m, s_val, h.buckets@, j + 1 as int));
                            assert forall|s: u64, d: Seq<u8>|
                                is_dup_bucket(m, s, d) && (exists|jx: int|
                                    0 <= jx < i && (#[trigger] info.entries@[jx]).size == s)
                                implies (exists|k: int|
                                0 <= k < r@.len() && (#[trigger] r@[k]).size == s && r@[k].digest@
                                    == d) by {
                                let k0 = choose|k0: int|
                                    0 <= k0 < r_before.len() && (#[trigger] r_before[k0]).size == s
                                        && r_before[k0].digest@ == d;
                                assert(r@[k0] == r_before[k0]);
                            }
                            assert(dups_covered_prefix(r@, m, *info, i as int));
                            assert(rows_tail_from(r@, r_start.len() as int, s_val, h.buckets@, j
                                + 1 as int));
                        }
                    } else {
                        proof {
                            assert forall|d: Seq<u8>|
                                is_dup_bucket(m, s_val, d) && (exists|jj: int|
                                    0 <= jj < j + 1 && (#[trigger] h.buckets@[jj]).digest@ == d)
                                implies (exists|k: int|
                                0 <= k < r@.len() && (#[trigger] r@[k]).size == s_val
                                    && r@[k].digest@ == d) by {
                                let jj = choose|jj: int|
                                    0 <= jj < j + 1 && (#[trigger] h.buckets@[jj]).digest@ == d;
                                if jj == j {
                                    assert(hashed_table(m[s_val])[d] == path_views(
                                        h.buckets@[j as int].paths@,
                                    ));
                                    assert(path_views(h.buckets@[j as int].paths@).len() < 2);
                                    assert(false);
                                }
                            }
                            assert(rows_tail_from(r@, r_start.len() as int, s_val, h.buckets@, j
                                + 1 as int));
                        }
                    }
                    j = j + 1;
                }
                proof {
                    assert forall|s: u64, d: Seq<u8>|
                        is_dup_bucket(m, s, d) && (exists|jx: int|
                            0 <= jx < i + 1 && (#[trigger] info.entries@[jx]).size == s)
                        implies (exists|k: int|
                        0 <= k < r@.len() && (#[trigger] r@[k]).size == s && r@[k].digest@
                            == d) by {
                        let jx = choose|jx: int|
                            0 <= jx < i + 1 && (#[trigger] info.entries@[jx]).size == s;
                        if jx == i {
                            assert(s == s_val);
                            assert(hashed_table(m[s_val]).contains_key(d));
                            assert(h.bucket_map().contains_key(d));
                            let bi = choose|bi: int|
                                0 <= bi < h.buckets@.len() && (#[trigger] h.buckets@[bi]).digest@
                                    == d;
                            assert(exists|x: int|
                                0 <= x < j && (#[trigger] h.buckets@[x]).digest@ == d);
                        } else {
                            assert(exists|j2: int|
                                0 <= j2 < i && (#[trigger] info.entries@[j2]).size == s);
                        }
                    }
                    assert(dups_covered_prefix(r@, m, *info, i + 1 as int));
                    assert forall|k: int|
                        #![trigger r@[k]]
                        0 <= k < r@.len() implies exists|j2: int|
                        0 <= j2 < i + 1 && r@[k].size == (#[trigger] info.entries@[j2]).size by {
                        if k < r_start.len() {
                            assert(r@[k] == r_start[k]);
                            let j2 = choose|j2: int|
                                0 <= j2 < i && r_start[k].size == (
                                #[trigger] info.entries@[j2]).size;
                        } else {
                            assert(r@[k].size == info.entries@[i as int].size);
                        }
                    }
                    assert(rows_from_prefix(r@, *info, i + 1 as int));
                }
            }
            SizeGroup::Single(_) => {
                proof {
                    assert(!(m[s_val] is Hashed));
                    assert forall|s: u64, d: Seq<u8>|
                        is_dup_bucket(m, s, d) && (exists|jx: int|
                            0 <= jx < i + 1 && (#[trigger] info.entries@[jx]).size == s)
                        implies (exists|k: int|
                        0 <= k < r@.len() && (#[trigger] r@[k]).size == s && r@[k].digest@
                            == d) by {
                        let jx = choose|jx: int|
                            0 <= jx < i + 1 && (#[trigger] info.entries@[jx]).size == s;
                        if jx == i {
                            assert(s == s_val);
                            assert(m[s] is Hashed);
                            assert(false);
                        } else {
                            assert(exists|j2: int|
                                0 <= j2 < i && (#[trigger] info.entries@[j2]).size == s);
                        }
                    }
                    assert(dups_covered_prefix(r@, m, *info, i + 1 as int));
                    assert forall|k: int|
                        #![trigger r@[k]]
                        0 <= k < r@.len() implies exists|j2: int|
                        0 <= j2 < i + 1 && r@[k].size == (#[trigger] info.entries@[j2]).size by {
                        let j2 = choose|j2: int|
                            0 <= j2 < i && r@[k].size == (#[trigger] info.entries@[j2]).size;
                    }
                    assert(rows_from_prefix(r@, *info, i + 1 as int));
                }
            }
        }
        i = i + 1;
    }
    proof {
        assert forall|s: u64, d: Seq<u8>| is_dup_bucket(m, s, d) implies exists|k: int|
            0 <= k < r@.len() && (#[trigger] r@[k]).size == s && r@[k].digest@ == d by {
            crate::index::lemma_smap_of_dom(info.entries@);
            assert(m.contains_key(s));
            let jj = choose|jj: int|
                0 <= jj < info.entries@.len() && (#[trigger] info.entries@[jj]).size == s;
            assert(exists|j2: int| 0 <= j2 < i && (#[trigger] info.entries@[j2]).size == s);
        }
    }
    r
}

/// The rendered text of the paths of one bucket: one line per path,
/// tab-indented.
pub open spec fn render_paths(ps: Seq<Seq<char>>) -> Seq<char>
    decreases ps.len(),
{
    if ps.len() == 0 {
        Seq::<char>::empty()
    } else {
        render_paths(ps.drop_last()) + "\t"@ + ps.last() + "\n"@
    }
}

/// The rendered text of one bucket: its digest in hexadecimal on a
/// `hash:` line, then its paths.
pub open spec fn render_row(b: ReportBucket) -> Seq<char> {
    "hash:"@ + hex_of_bytes(b.digest@) + "\n"@ + render_paths(path_views(b.paths@))
}

/// The rendered text of the whole report.
pub open spec fn render_report(rs: Seq<ReportBucket>) -> Seq<char>
    decreases rs.len(),
{
    if rs.len() == 0 {
        Seq::<char>::empty()
    } else {
        render_report(rs.drop_last()) + render_row(rs.last())
    }
}

/// Render a report as the output text, one block per bucket.
pub fn display(report: &Vec<ReportBucket>) -> (out: String)
    ensures
        out@ == render_report(report@),
{
    let mut out = String::new();
    let mut i: usize = 0;
    proof {
        assert(report@.take(0) =~= Seq::<ReportBucket>::empty());
    }
    while i < report.len()
        invariant
            i <= report@.len(),
            out@ == render_report(report@.take(i as int)),
        decreases report@.len() - i,
    {
        out.append("hash:");
        let hex_text = crate::hex::to_hex(&report[i].digest);
        out.append(hex_text.as_str());
        out.append("\n");
        let ghost head = render_report(report@.take(i as int)) + "hash:"@ + hex_of_bytes(
            report@[i as int].digest@,
        ) + "\n"@;
        proof {
            assert(out@ =~= head);
            assert(path_views(report@[i as int].paths@.take(0)) =~= Seq::<Seq<char>>::empty());
        }
        let paths = &report[i].paths;
        let mut k: usize = 0;
        while k < paths.len()
            invariant
                k <= paths@.len(),
                paths@ == report@[i as int].paths@,
                i < report@.len(),
                out@ == head + render_paths(path_views(paths@.take(k as int))),
            decreases paths@.len() - k,
        {
            out.append("\t");
            out.append(paths[k].as_str());
            out.append("\n");
            proof {
                let pv = path_views(paths@.take(k as int));
                let pv2 = path_views(paths@.take(k + 1 as int));
                assert(pv2 =~= pv.push(paths@[k as int]@));
                assert(pv2.drop_last() =~= pv);
                assert(pv2.last() == paths@[k as int]@);
                assert(render_paths(pv2) == render_paths(pv) + "\t"@ + paths@[k as int]@ + "\n"@);
                assert(out@ =~= head + render_paths(pv2));
            }
            k = k + 1;
        }
        proof {
            assert(paths@.take(k as int) =~= paths@);
            let taken = report@.take(i + 1 as int);
            assert(taken.drop_last() =~= report@.take(i as int));
            assert(taken.last() == report@[i as int]);
            assert(render_report(taken) == render_report(report@.take(i as int)) + render_row(
                report@[i as int],
            ));
            assert(out@ =~= render_report(taken));
        }
        i = i + 1;
    }
    proof {
        assert(report@.take(i as int) =~= report@);
    }
    out
}

} // verus!
