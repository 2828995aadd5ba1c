//! The laws of the pipeline, stated over the state models and proved
//! once and for all: lazy hashing skips unique sizes, a path lands only
//! in the bucket of its own size and digest, failures change nothing,
//! and the final state does not depend on the order results arrive in.

use vstd::prelude::*;
use crate::index::{GroupModel, observe_model, apply_model};
use crate::order::{path_views, path_le, lemma_path_le_total_ordering, lemma_lex_lt_bytes_asym};
use crate::report::{hashed_table, is_dup_bucket, ReportBucket, rows_sound, rows_ordered,
    rows_complete};

verus! {

/// A whole scan: observe each record `(path, size)` in turn, collecting
/// every hash task the observations emit.
pub open spec fn scan_model(m: Map<u64, GroupModel>, records: Seq<(Seq<char>, u64)>) -> (
    Map<u64, GroupModel>,
    Seq<(Seq<char>, u64)>,
)
    decreases records.len(),
{
    if records.len() == 0 {
        (m, Seq::<(Seq<char>, u64)>::empty())
    } else {
        let step = observe_model(m, records[0].1, records[0].0);
        let rest = scan_model(step.0, records.drop_first());
        (rest.0, step.1 + rest.1)
    }
}

/// Apply a sequence of hash results `(size, digest, path)` in order.
pub open spec fn apply_all(
    m: Map<u64, GroupModel>,
    results: Seq<(u64, Seq<u8>, Seq<char>)>,
) -> Map<u64, GroupModel>
    decreases results.len(),
{
    if results.len() == 0 {
        m
    } else {
        apply_all(
            apply_model(m, results[0].0, results[0].1, results[0].2),
            results.drop_first(),
        )
    }
}

/// Is `p` recorded under digest `d` in the group of size `s`?
pub open spec fn path_in_bucket(m: Map<u64, GroupModel>, s: u64, d: Seq<u8>, p: Seq<char>) -> bool {
    &&& m.contains_key(s)
    &&& m[s] is Hashed
    &&& hashed_table(m[s]).contains_key(d)
    &&& hashed_table(m[s])[d].contains(p)
}

/// Uniqueness skip: scanning records whose sizes are pairwise distinct
/// (and new to the state) emits no hash task at all, and leaves every
/// group single — no file is ever hashed.
pub proof fn lemma_unique_sizes_skip_hashing(
    m: Map<u64, GroupModel>,
    records: Seq<(Seq<char>, u64)>,
)
    requires
        forall|s: u64| #[trigger] m.contains_key(s) ==> m[s] is Single,
        forall|i: int, j: int|
            0 <= i < j < records.len() ==> (#[trigger] records[i]).1 != (#[trigger] records[j]).1,
        forall|i: int| 0 <= i < records.len() ==> !m.contains_key((#[trigger] records[i]).1),
    ensures
        scan_model(m, records).1 == Seq::<(Seq<char>, u64)>::empty(),
        forall|s: u64| #[trigger] scan_model(m, records).0.contains_key(s) ==> scan_model(
            m,
            records,
        ).0[s] is Single,
    decreases records.len(),
{
    if records.len() > 0 {
        let size0 = records[0].1;
        let m2 = m.insert(size0, GroupModel::Single(records[0].0));
        assert(!m.contains_key(size0));
        assert(observe_model(m, size0, records[0].0).0 == m2);
        assert(observe_model(m, size0, records[0].0).1 == Seq::<(Seq<char>, u64)>::empty());
        assert forall|s: u64| #[trigger] m2.contains_key(s) implies m2[s] is Single by {
            if s != size0 {
                assert(m.contains_key(s));
            }
        }
        assert forall|i: int| 0 <= i < records.drop_first().len() implies !m2.contains_key(
            (#[trigger] records.drop_first()[i]).1,
        ) by {
            assert(records.drop_first()[i] == records[i + 1]);
            assert(records[i + 1].1 != size0);
            assert(!m.contains_key(records[i + 1].1));
        }
        assert forall|i: int, j: int| 0 <= i < j < records.drop_first().len() implies (
        #[trigger] records.drop_first()[i]).1 != (#[trigger] records.drop_first()[j]).1 by {
            assert(records.drop_first()[i] == records[i + 1]);
            assert(records.drop_first()[j] == records[j + 1]);
        }
        lemma_unique_sizes_skip_hashing(m2, records.drop_first());
        assert(scan_model(m, records).1 =~= Seq::<(Seq<char>, u64)>::empty());
    }
}

/// A state whose groups are all single has no duplicate bucket, so any
/// sound report of it is empty.
pub proof fn lemma_all_single_report_empty(m: Map<u64, GroupModel>, rows: Seq<ReportBucket>)
    requires
        forall|s: u64| #[trigger] m.contains_key(s) ==> m[s] is Single,
        rows_sound(rows, m),
    ensures
        rows.len() == 0,
{
    if rows.len() > 0 {
        assert(is_dup_bucket(m, rows[0].size, rows[0].digest@));
        assert(m[rows[0].size] is Single);
    }
}

/// Exactness, one step: recording a result for `(s, d, p)` adds `p` to
/// the bucket of digest `d` at size `s` — when that size is in the hashed
/// state — and to no other bucket anywhere.
pub proof fn lemma_apply_membership_step(
    m: Map<u64, GroupModel>,
    s: u64,
    d: Seq<u8>,
    p: Seq<char>,
    s2: u64,
    d2: Seq<u8>,
    p2: Seq<char>,
)
    ensures
        path_in_bucket(apply_model(m, s, d, p), s2, d2, p2) <==> (path_in_bucket(m, s2, d2, p2)
            || (s2 == s && d2 == d && p2 == p && m.contains_key(s) && m[s] is Hashed)),
{
    if m.contains_key(s) && m[s] is Hashed {
        let bm = hashed_table(m[s]);
        let fresh = if bm.contains_key(d) {
            bm[d].push(p)
        } else {
            seq![p]
        };
        let m2 = apply_model(m, s, d, p);
        assert(m2 == m.insert(s, GroupModel::Hashed(bm.insert(d, fresh))));
        if bm.contains_key(d) {
            assert forall|x: Seq<char>| #[trigger] fresh.contains(x) implies bm[d].contains(x) || x
                == p by {
                let idx = choose|idx: int| 0 <= idx < fresh.len() && fresh[idx] == x;
                if idx < bm[d].len() {
                    assert(bm[d][idx] == x);
                }
            }
            assert forall|x: Seq<char>| bm[d].contains(x) || x == p implies #[trigger] fresh.contains(
                x,
            ) by {
                if bm[d].contains(x) {
                    let idx = choose|idx: int| 0 <= idx < bm[d].len() && bm[d][idx] == x;
                    assert(fresh[idx] == x);
                } else {
                    assert(fresh[fresh.len() - 1] == p);
                }
            }
        } else {
            assert(fresh[0] == p);
            assert forall|x: Seq<char>| #[trigger] fresh.contains(x) implies x == p by {
                let idx = choose|idx: int| 0 <= idx < fresh.len() && fresh[idx] == x;
            }
        }
    }
}

/// Applying results never creates or removes a size group, and never
/// moves a group between the single and hashed states.
pub proof fn lemma_apply_all_kinds(m: Map<u64, GroupModel>, rs: Seq<(u64, Seq<u8>, Seq<char>)>)
    ensures
        forall|s: u64|
            #![trigger apply_all(m, rs).contains_key(s)]
            apply_all(m, rs).contains_key(s) == m.contains_key(s),
        forall|s: u64|
            #![trigger apply_all(m, rs)[s]]
            m.contains_key(s) ==> ((apply_all(m, rs)[s] is Hashed) == (m[s] is Hashed)),
    decreases rs.len(),
{
    if rs.len() > 0 {
        let m2 = apply_model(m, rs[0].0, rs[0].1, rs[0].2);
        lemma_apply_all_kinds(m2, rs.drop_first());
    }
}

/// Exactness and failure isolation over a whole run: after applying any
/// sequence of results, a path stands in a bucket exactly when it stood
/// there before, or a result naming exactly that size, digest and path
/// was applied to a hashed group. A path with no successful result — an
/// unreadable file — therefore stands in no bucket it was not in before,
/// and every other bucket is as if that file did not exist.
pub proof fn lemma_apply_all_membership(
    m: Map<u64, GroupModel>,
    rs: Seq<(u64, Seq<u8>, Seq<char>)>,
    s: u64,
    d: Seq<u8>,
    p: Seq<char>,
)
    ensures
        path_in_bucket(apply_all(m, rs), s, d, p) <==> (path_in_bucket(m, s, d, p) || (
        m.contains_key(s) && m[s] is Hashed && rs.contains((s, d, p)))),
    decreases rs.len(),
{
    if rs.len() > 0 {
        let m2 = apply_model(m, rs[0].0, rs[0].1, rs[0].2);
        lemma_apply_membership_step(m, rs[0].0, rs[0].1, rs[0].2, s, d, p);
        lemma_apply_all_membership(m2, rs.drop_first(), s, d, p);
        assert forall|x: (u64, Seq<u8>, Seq<char>)| #[trigger] rs.contains(x) implies rs[0] == x
            || rs.drop_first().contains(x) by {
            let idx = choose|idx: int| 0 <= idx < rs.len() && rs[idx] == x;
            if idx > 0 {
                assert(rs.drop_first()[idx - 1] == x);
            }
        }
        if rs.drop_first().contains((s, d, p)) {
            let idx = choose|idx: int|
                0 <= idx < rs.drop_first().len() && rs.drop_first()[idx] == (s, d, p);
            assert(rs[idx + 1] == (s, d, p));
        }
        if rs[0] == (s, d, p) {
            assert(rs.contains((s, d, p)));
        }
        // The kind of the group at s is the same in m and m2.
        assert(m2.contains_key(s) == m.contains_key(s));
        if m.contains_key(s) {
            assert((m2[s] is Hashed) == (m[s] is Hashed));
        }
    }
}

/// Order independence: two result sequences that are permutations of one
/// another fill exactly the same buckets with exactly the same path sets.
pub proof fn lemma_order_independence(
    m: Map<u64, GroupModel>,
    rs1: Seq<(u64, Seq<u8>, Seq<char>)>,
    rs2: Seq<(u64, Seq<u8>, Seq<char>)>,
    s: u64,
    d: Seq<u8>,
    p: Seq<char>,
)
    requires
        rs1.to_multiset() == rs2.to_multiset(),
    ensures
        path_in_bucket(apply_all(m, rs1), s, d, p) == path_in_bucket(apply_all(m, rs2), s, d, p),
{
    broadcast use vstd::seq_lib::group_to_multiset_ensures;

    lemma_apply_all_membership(m, rs1, s, d, p);
    lemma_apply_all_membership(m, rs2, s, d, p);
    assert(rs1.contains((s, d, p)) == (rs1.to_multiset().count((s, d, p)) > 0));
    assert(rs2.contains((s, d, p)) == (rs2.to_multiset().count((s, d, p)) > 0));
}

/// How many times `p` stands in the bucket of digest `d` at size `s`.
pub open spec fn bucket_count(m: Map<u64, GroupModel>, s: u64, d: Seq<u8>, p: Seq<char>) -> nat {
    if m.contains_key(s) && m[s] is Hashed && hashed_table(m[s]).contains_key(d) {
        hashed_table(m[s])[d].to_multiset().count(p)
    } else {
        0
    }
}

/// No bucket of the state is empty.
pub open spec fn buckets_nonempty(m: Map<u64, GroupModel>) -> bool {
    forall|s: u64, d: Seq<u8>|
        (#[trigger] m.contains_key(s)) && m[s] is Hashed && (#[trigger] hashed_table(
            m[s],
        ).contains_key(d)) ==> hashed_table(m[s])[d].len() >= 1
}

proof fn lemma_apply_count_step(
    m: Map<u64, GroupModel>,
    s: u64,
    d: Seq<u8>,
    p: Seq<char>,
    s2: u64,
    d2: Seq<u8>,
    p2: Seq<char>,
)
    ensures
        bucket_count(apply_model(m, s, d, p), s2, d2, p2) == bucket_count(m, s2, d2, p2) + (
        if s2 == s && d2 == d && p2 == p && m.contains_key(s) && m[s] is Hashed {
            1nat
        } else {
            0nat
        }),
{
    broadcast use vstd::seq_lib::group_to_multiset_ensures;
    broadcast use vstd::multiset::group_multiset_axioms;

    if m.contains_key(s) && m[s] is Hashed {
        let bm = hashed_table(m[s]);
        let fresh = if bm.contains_key(d) {
            bm[d].push(p)
        } else {
            seq![p]
        };
        if !bm.contains_key(d) {
            assert(fresh =~= Seq::<Seq<char>>::empty().push(p));
            assert(fresh.to_multiset() == Seq::<Seq<char>>::empty().to_multiset().insert(p));
            assert(Seq::<Seq<char>>::empty().to_multiset().len() == 0);
            assert(Seq::<Seq<char>>::empty().to_multiset().count(p2)
                <= Seq::<Seq<char>>::empty().to_multiset().len());
        }
    }
}

/// Applying results keeps every bucket nonempty.
proof fn lemma_apply_all_nonempty(m: Map<u64, GroupModel>, rs: Seq<(u64, Seq<u8>, Seq<char>)>)
    requires
        buckets_nonempty(m),
    ensures
        buckets_nonempty(apply_all(m, rs)),
    decreases rs.len(),
{
    if rs.len() > 0 {
        let s = rs[0].0;
        let d = rs[0].1;
        let p = rs[0].2;
        let m2 = apply_model(m, s, d, p);
        assert forall|s2: u64, d2: Seq<u8>|
            (#[trigger] m2.contains_key(s2)) && m2[s2] is Hashed && (#[trigger] hashed_table(
                m2[s2],
            ).contains_key(d2)) implies hashed_table(m2[s2])[d2].len() >= 1 by {
            if m.contains_key(s) && m[s] is Hashed && s2 == s {
                let bm = hashed_table(m[s]);
                if d2 == d {
                } else {
                    assert(hashed_table(m2[s2])[d2] == bm[d2]);
                }
            } else {
                assert(m2[s2] == m[s2]);
            }
        }
        lemma_apply_all_nonempty(m2, rs.drop_first());
    }
}

/// Result-order determinism: after applying two permutations of the same
/// results, every bucket of every size holds every path the same number
/// of times, the same sizes exist in the same states, and the same
/// digests have buckets. With the report drawing only on these, the same
/// input yields the same report whatever the pool size or result order —
/// and a second identical run yields it again.
pub proof fn lemma_result_order_determinism(
    m: Map<u64, GroupModel>,
    rs1: Seq<(u64, Seq<u8>, Seq<char>)>,
    rs2: Seq<(u64, Seq<u8>, Seq<char>)>,
)
    requires
        rs1.to_multiset() == rs2.to_multiset(),
        buckets_nonempty(m),
    ensures
        forall|s: u64|
            #![trigger apply_all(m, rs1).contains_key(s)]
            apply_all(m, rs1).contains_key(s) == apply_all(m, rs2).contains_key(s),
        forall|s: u64|
            apply_all(m, rs1).contains_key(s) ==> ((#[trigger] apply_all(m, rs1)[s]) is Hashed)
                == (apply_all(m, rs2)[s] is Hashed),
        forall|s: u64, d: Seq<u8>|
            apply_all(m, rs1).contains_key(s) && apply_all(m, rs1)[s] is Hashed ==> (
            #[trigger] hashed_table(apply_all(m, rs1)[s]).contains_key(d)) == hashed_table(
                apply_all(m, rs2)[s],
            ).contains_key(d),
        forall|s: u64, d: Seq<u8>|
            apply_all(m, rs1).contains_key(s) && apply_all(m, rs1)[s] is Hashed && hashed_table(
                apply_all(m, rs1)[s],
            ).contains_key(d) ==> (#[trigger] hashed_table(apply_all(m, rs1)[s])[d]).to_multiset()
                == hashed_table(apply_all(m, rs2)[s])[d].to_multiset(),
{
    broadcast use vstd::seq_lib::group_to_multiset_ensures;
    broadcast use vstd::multiset::group_multiset_axioms;

    let ma = apply_all(m, rs1);
    let mb = apply_all(m, rs2);
    lemma_apply_all_kinds(m, rs1);
    lemma_apply_all_kinds(m, rs2);
    lemma_apply_all_nonempty(m, rs1);
    lemma_apply_all_nonempty(m, rs2);
    assert forall|s: u64, d: Seq<u8>, p: Seq<char>| true implies #[trigger] bucket_count(
        ma,
        s,
        d,
        p,
    ) == bucket_count(mb, s, d, p) by {
        lemma_apply_all_counts(m, rs1, s, d, p);
        lemma_apply_all_counts(m, rs2, s, d, p);
    }
    assert forall|s: u64, d: Seq<u8>|
        ma.contains_key(s) && ma[s] is Hashed implies (#[trigger] hashed_table(
        ma[s],
    ).contains_key(d)) == hashed_table(mb[s]).contains_key(d) by {
        if hashed_table(ma[s]).contains_key(d) {
            let q = hashed_table(ma[s])[d][0];
            assert(hashed_table(ma[s])[d].contains(q));
            assert(bucket_count(ma, s, d, q) > 0);
            assert(bucket_count(mb, s, d, q) > 0);
        }
        if hashed_table(mb[s]).contains_key(d) {
            let q = hashed_table(mb[s])[d][0];
            assert(hashed_table(mb[s])[d].contains(q));
            assert(bucket_count(mb, s, d, q) > 0);
            assert(bucket_count(ma, s, d, q) > 0);
        }
    }
    assert forall|s: u64, d: Seq<u8>|
        ma.contains_key(s) && ma[s] is Hashed && hashed_table(ma[s]).contains_key(d) implies (
    #[trigger] hashed_table(ma[s])[d]).to_multiset() == hashed_table(mb[s])[d].to_multiset() by {
        assert forall|p: Seq<char>| true implies #[trigger] hashed_table(ma[s])[d].to_multiset().count(
            p,
        ) == hashed_table(mb[s])[d].to_multiset().count(p) by {
            assert(bucket_count(ma, s, d, p) == bucket_count(mb, s, d, p));
        }
        assert(hashed_table(ma[s])[d].to_multiset() =~= hashed_table(mb[s])[d].to_multiset());
    }
}

/// Counting over a whole run: each successful result for `(s, d, p)`
/// adds one occurrence of `p` to that bucket, provided the size is in
/// the hashed state, which applying results never changes.
pub proof fn lemma_apply_all_counts(
    m: Map<u64, GroupModel>,
    rs: Seq<(u64, Seq<u8>, Seq<char>)>,
    s: u64,
    d: Seq<u8>,
    p: Seq<char>,
)
    ensures
        bucket_count(apply_all(m, rs), s, d, p) == bucket_count(m, s, d, p) + (
        if m.contains_key(s) && m[s] is Hashed {
            rs.to_multiset().count((s, d, p))
        } else {
            0nat
        }),
    decreases rs.len(),
{
    broadcast use vstd::seq_lib::group_to_multiset_ensures;
    broadcast use vstd::multiset::group_multiset_axioms;

    if rs.len() == 0 {
        assert(rs.to_multiset().len() == 0);
        assert(rs.to_multiset().count((s, d, p)) <= rs.to_multiset().len());
    } else {
        let m2 = apply_model(m, rs[0].0, rs[0].1, rs[0].2);
        lemma_apply_count_step(m, rs[0].0, rs[0].1, rs[0].2, s, d, p);
        lemma_apply_all_counts(m2, rs.drop_first(), s, d, p);
        assert(rs.drop_first() =~= rs.remove(0));
        vstd::seq_lib::to_multiset_remove(rs, 0);
        assert(rs.remove(0).to_multiset() == rs.to_multiset().remove(rs[0]));
        assert(rs.to_multiset().contains(rs[0]));
        if rs[0] == (s, d, p) {
            assert(rs.drop_first().to_multiset().count((s, d, p)) == rs.to_multiset().count(
                (s, d, p),
            ) - 1);
        } else {
            assert(rs.drop_first().to_multiset().count((s, d, p)) == rs.to_multiset().count(
                (s, d, p),
            ));
        }
        assert(m2.contains_key(s) == m.contains_key(s));
        if m.contains_key(s) {
            assert((m2[s] is Hashed) == (m[s] is Hashed));
        }
    }
}

/// Two states that agree on which sizes exist, which of them are hashed,
/// which digests have buckets, and what each bucket holds as a multiset.
/// This is exactly what `lemma_result_order_determinism` establishes.
pub open spec fn states_equiv(ma: Map<u64, GroupModel>, mb: Map<u64, GroupModel>) -> bool {
    &&& forall|s: u64|
        #![trigger ma.contains_key(s)]
        #![trigger mb.contains_key(s)]
        ma.contains_key(s) == mb.contains_key(s)
    &&& forall|s: u64| ma.contains_key(s) ==> ((#[trigger] ma[s]) is Hashed) == (mb[s] is Hashed)
    &&& forall|s: u64, d: Seq<u8>|
        ma.contains_key(s) && ma[s] is Hashed ==> (#[trigger] hashed_table(ma[s]).contains_key(d))
            == hashed_table(mb[s]).contains_key(d)
    &&& forall|s: u64, d: Seq<u8>|
        ma.contains_key(s) && ma[s] is Hashed && hashed_table(ma[s]).contains_key(d) ==> (
        #[trigger] hashed_table(ma[s])[d]).to_multiset() == hashed_table(mb[s])[d].to_multiset()
}

/// The report's key order on rows.
spec fn key_lt(a: ReportBucket, b: ReportBucket) -> bool {
    a.size < b.size || (a.size == b.size && crate::order::lex_lt_bytes(a.digest@, b.digest@))
}

/// `w` maps each row index of `xs` to a row of `ys` with the same key.
spec fn key_witness(xs: Seq<ReportBucket>, ys: Seq<ReportBucket>, w: spec_fn(int) -> int) -> bool {
    forall|k: int|
        0 <= k < xs.len() ==> 0 <= #[trigger] w(k) < ys.len() && ys[w(k)].size == xs[k].size
            && ys[w(k)].digest@ == xs[k].digest@
}

/// Two strictly ordered row lists, each of whose keys occurs in the
/// other, pair up one to one.
proof fn lemma_rows_keys_unique(
    xs: Seq<ReportBucket>,
    ys: Seq<ReportBucket>,
    w12: spec_fn(int) -> int,
    w21: spec_fn(int) -> int,
)
    requires
        rows_ordered(xs),
        rows_ordered(ys),
        key_witness(xs, ys, w12),
        key_witness(ys, xs, w21),
    ensures
        xs.len() == ys.len(),
        forall|k: int|
            0 <= k < xs.len() ==> (#[trigger] xs[k]).size == ys[k].size && xs[k].digest@
                == ys[k].digest@,
    decreases xs.len(),
{
    if xs.len() == 0 {
        if ys.len() > 0 {
            assert(0 <= w21(0) < xs.len());
        }
    } else if ys.len() == 0 {
        assert(0 <= w12(0) < ys.len());
    } else {
        let k2 = w12(0);
        let k1 = w21(0);
        assert(0 <= k2 < ys.len() && ys[k2].size == xs[0].size && ys[k2].digest@ == xs[0].digest@);
        assert(0 <= k1 < xs.len() && xs[k1].size == ys[0].size && xs[k1].digest@ == ys[0].digest@);
        if k1 > 0 && k2 > 0 {
            assert(key_lt(ys[0], ys[k2]));
            assert(key_lt(xs[0], xs[k1]));
            if ys[0].size == xs[0].size {
                lemma_lex_lt_bytes_asym(ys[0].digest@, xs[0].digest@);
            }
            assert(false);
        }
        assert(xs[0].size == ys[0].size && xs[0].digest@ == ys[0].digest@);
        let xt = xs.drop_first();
        let yt = ys.drop_first();
        let v12 = |k: int| w12(k + 1) - 1;
        let v21 = |k: int| w21(k + 1) - 1;
        assert forall|k: int|
            0 <= k < xt.len() implies 0 <= #[trigger] v12(k) < yt.len() && yt[v12(k)].size
            == xt[k].size && yt[v12(k)].digest@ == xt[k].digest@ by {
            assert(xt[k] == xs[k + 1]);
            assert(0 <= w12(k + 1) < ys.len() && ys[w12(k + 1)].size == xs[k + 1].size && ys[w12(
                k + 1,
            )].digest@ == xs[k + 1].digest@);
            if w12(k + 1) == 0 {
                assert(key_lt(xs[0], xs[k + 1]));
                if xs[0].size == xs[k + 1].size {
                    lemma_lex_lt_bytes_asym(xs[0].digest@, xs[k + 1].digest@);
                }
                assert(false);
            }
            assert(yt[w12(k + 1) - 1] == ys[w12(k + 1)]);
        }
        assert forall|k: int|
            0 <= k < yt.len() implies 0 <= #[trigger] v21(k) < xt.len() && xt[v21(k)].size
            == yt[k].size && xt[v21(k)].digest@ == yt[k].digest@ by {
            assert(yt[k] == ys[k + 1]);
            assert(0 <= w21(k + 1) < xs.len() && xs[w21(k + 1)].size == ys[k + 1].size && xs[w21(
                k + 1,
            )].digest@ == ys[k + 1].digest@);
            if w21(k + 1) == 0 {
                assert(key_lt(ys[0], ys[k + 1]));
                if ys[0].size == ys[k + 1].size {
                    lemma_lex_lt_bytes_asym(ys[0].digest@, ys[k + 1].digest@);
                }
                assert(false);
            }
            assert(xt[w21(k + 1) - 1] == xs[w21(k + 1)]);
        }
        assert forall|x: int, y: int|
            #![trigger xt[x], xt[y]]
            0 <= x < y < xt.len() implies xt[x].size < xt[y].size || (xt[x].size == xt[y].size
            && crate::order::lex_lt_bytes(xt[x].digest@, xt[y].digest@)) by {
            assert(xt[x] == xs[x + 1]);
            assert(xt[y] == xs[y + 1]);
        }
        assert forall|x: int, y: int|
            #![trigger yt[x], yt[y]]
            0 <= x < y < yt.len() implies yt[x].size < yt[y].size || (yt[x].size == yt[y].size
            && crate::order::lex_lt_bytes(yt[x].digest@, yt[y].digest@)) by {
            assert(yt[x] == ys[x + 1]);
            assert(yt[y] == ys[y + 1]);
        }
        lemma_rows_keys_unique(xt, yt, v12, v21);
        assert forall|k: int|
            0 <= k < xs.len() implies (#[trigger] xs[k]).size == ys[k].size && xs[k].digest@
            == ys[k].digest@ by {
            if k > 0 {
                assert(xt[k - 1] == xs[k]);
                assert(yt[k - 1] == ys[k]);
            }
        }
    }
}

/// Report uniqueness: over two equivalent states, any two reports that
/// are ordered, sound and complete are the same report — same buckets in
/// the same order, with the same paths in the same order. Together with
/// `lemma_result_order_determinism`, the report after a run does not
/// depend on result arrival order, so not on the worker pool's size, and
/// a second run over the same input reproduces it byte for byte.
pub proof fn lemma_report_unique(
    ma: Map<u64, GroupModel>,
    mb: Map<u64, GroupModel>,
    rows1: Seq<ReportBucket>,
    rows2: Seq<ReportBucket>,
)
    requires
        states_equiv(ma, mb),
        rows_ordered(rows1),
        rows_sound(rows1, ma),
        rows_complete(rows1, ma),
        rows_ordered(rows2),
        rows_sound(rows2, mb),
        rows_complete(rows2, mb),
    ensures
        rows1.len() == rows2.len(),
        forall|k: int|
            0 <= k < rows1.len() ==> (#[trigger] rows1[k]).size == rows2[k].size
                && rows1[k].digest@ == rows2[k].digest@ && path_views(rows1[k].paths@)
                == path_views(rows2[k].paths@),
{
    broadcast use vstd::seq_lib::group_to_multiset_ensures;

    let w12 = |k: int|
        choose|k2: int|
            0 <= k2 < rows2.len() && (#[trigger] rows2[k2]).size == rows1[k].size
                && rows2[k2].digest@ == rows1[k].digest@;
    let w21 = |k: int|
        choose|k2: int|
            0 <= k2 < rows1.len() && (#[trigger] rows1[k2]).size == rows2[k].size
                && rows1[k2].digest@ == rows2[k].digest@;
    assert forall|k: int|
        0 <= k < rows1.len() implies 0 <= #[trigger] w12(k) < rows2.len() && rows2[w12(k)].size
        == rows1[k].size && rows2[w12(k)].digest@ == rows1[k].digest@ by {
        let s = rows1[k].size;
        let d = rows1[k].digest@;
        assert(is_dup_bucket(ma, s, d));
        assert(hashed_table(ma[s])[d].to_multiset().len() == hashed_table(ma[s])[d].len());
        assert(hashed_table(mb[s])[d].to_multiset().len() == hashed_table(mb[s])[d].len());
        assert(is_dup_bucket(mb, s, d));
    }
    assert forall|k: int|
        0 <= k < rows2.len() implies 0 <= #[trigger] w21(k) < rows1.len() && rows1[w21(k)].size
        == rows2[k].size && rows1[w21(k)].digest@ == rows2[k].digest@ by {
        let s = rows2[k].size;
        let d = rows2[k].digest@;
        assert(is_dup_bucket(mb, s, d));
        assert(hashed_table(mb[s]).contains_key(d));
        assert(hashed_table(ma[s]).contains_key(d));
        assert(hashed_table(ma[s])[d].to_multiset() == hashed_table(mb[s])[d].to_multiset());
        assert(hashed_table(ma[s])[d].to_multiset().len() == hashed_table(ma[s])[d].len());
        assert(hashed_table(mb[s])[d].to_multiset().len() == hashed_table(mb[s])[d].len());
        assert(is_dup_bucket(ma, s, d));
    }
    lemma_rows_keys_unique(rows1, rows2, w12, w21);
    lemma_path_le_total_ordering();
    assert forall|k: int|
        0 <= k < rows1.len() implies (#[trigger] rows1[k]).size == rows2[k].size
        && rows1[k].digest@ == rows2[k].digest@ && path_views(rows1[k].paths@) == path_views(
        rows2[k].paths@,
    ) by {
        let s = rows1[k].size;
        let d = rows1[k].digest@;
        assert(rows2[k].size == s && rows2[k].digest@ == d);
        assert(path_views(rows1[k].paths@).to_multiset() == hashed_table(ma[s])[d].to_multiset());
        assert(path_views(rows2[k].paths@).to_multiset() == hashed_table(mb[s])[d].to_multiset());
        vstd::seq_lib::lemma_sorted_unique(
            path_views(rows1[k].paths@),
            path_views(rows2[k].paths@),
            path_le(),
        );
    }
}

} // verus!
