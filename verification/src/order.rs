//! Lexicographic orders on byte sequences (digests) and character
//! sequences (paths), with the lemmas that make them total orders, and
//! executable comparison and sorting routines proved against them.

use vstd::prelude::*;
use vstd::relations::{sorted_by, total_ordering};

verus! {

/// Strict lexicographic order on byte sequences: a proper prefix comes
/// first, otherwise the first differing byte decides.
pub open spec fn lex_lt_bytes(a: Seq<u8>, b: Seq<u8>) -> bool
    decreases a.len(),
{
    if a.len() == 0 {
        b.len() > 0
    } else if b.len() == 0 {
        false
    } else if a[0] < b[0] {
        true
    } else if a[0] == b[0] {
        lex_lt_bytes(a.drop_first(), b.drop_first())
    } else {
        false
    }
}

/// Strict lexicographic order on character sequences, by code point.
pub open spec fn lex_lt_chars(a: Seq<char>, b: Seq<char>) -> bool
    decreases a.len(),
{
    if a.len() == 0 {
        b.len() > 0
    } else if b.len() == 0 {
        false
    } else if (a[0] as u32) < (b[0] as u32) {
        true
    } else if a[0] == b[0] {
        lex_lt_chars(a.drop_first(), b.drop_first())
    } else {
        false
    }
}

pub open spec fn lex_le_chars(a: Seq<char>, b: Seq<char>) -> bool {
    lex_lt_chars(a, b) || a == b
}

/// The path order used throughout: lexicographic by code point.
pub open spec fn path_le() -> spec_fn(Seq<char>, Seq<char>) -> bool {
    |a: Seq<char>, b: Seq<char>| lex_le_chars(a, b)
}

/// The views of a sequence of path strings.
pub open spec fn path_views(s: Seq<String>) -> Seq<Seq<char>> {
    s.map_values(|p: String| p@)
}

pub proof fn lemma_lex_lt_bytes_asym(a: Seq<u8>, b: Seq<u8>)
    requires
        lex_lt_bytes(a, b),
    ensures
        !lex_lt_bytes(b, a),
    decreases a.len(),
{
    if a.len() > 0 && b.len() > 0 && a[0] == b[0] {
        lemma_lex_lt_bytes_asym(a.drop_first(), b.drop_first());
    }
}

pub proof fn lemma_lex_bytes_connected(a: Seq<u8>, b: Seq<u8>)
    ensures
        lex_lt_bytes(a, b) || lex_lt_bytes(b, a) || a == b,
    decreases a.len(),
{
    if a.len() == 0 {
        if b.len() == 0 {
            assert(a =~= b);
        }
    } else if b.len() == 0 {
    } else if a[0] == b[0] {
        lemma_lex_bytes_connected(a.drop_first(), b.drop_first());
        if a.drop_first() == b.drop_first() {
            assert(a.drop_first().len() == b.drop_first().len());
            assert(a.len() == b.len());
            assert forall|k: int| 0 <= k < a.len() implies a[k] == b[k] by {
                if k > 0 {
                    assert(a.drop_first()[k - 1] == b.drop_first()[k - 1]);
                    assert(a.drop_first()[k - 1] == a[k]);
                    assert(b.drop_first()[k - 1] == b[k]);
                }
            }
            assert(a =~= b);
        }
    }
}

pub proof fn lemma_lex_lt_bytes_trans(a: Seq<u8>, b: Seq<u8>, c: Seq<u8>)
    requires
        lex_lt_bytes(a, b),
        lex_lt_bytes(b, c),
    ensures
        lex_lt_bytes(a, c),
    decreases a.len(),
{
    if a.len() > 0 && b.len() > 0 && c.len() > 0 && a[0] == b[0] && b[0] == c[0] {
        lemma_lex_lt_bytes_trans(a.drop_first(), b.drop_first(), c.drop_first());
    }
}

pub proof fn lemma_lex_lt_chars_asym(a: Seq<char>, b: Seq<char>)
    requires
        lex_lt_chars(a, b),
    ensures
        !lex_lt_chars(b, a),
    decreases a.len(),
{
    if a.len() > 0 && b.len() > 0 && a[0] == b[0] {
        lemma_lex_lt_chars_asym(a.drop_first(), b.drop_first());
    }
}

pub proof fn lemma_lex_chars_connected(a: Seq<char>, b: Seq<char>)
    ensures
        lex_lt_chars(a, b) || lex_lt_chars(b, a) || a == b,
    decreases a.len(),
{
    if a.len() == 0 {
        if b.len() == 0 {
            assert(a =~= b);
        }
    } else if b.len() == 0 {
    } else if a[0] == b[0] {
        lemma_lex_chars_connected(a.drop_first(), b.drop_first());
        if a.drop_first() == b.drop_first() {
            assert(a.drop_first().len() == b.drop_first().len());
            assert(a.len() == b.len());
            assert forall|k: int| 0 <= k < a.len() implies a[k] == b[k] by {
                if k > 0 {
                    assert(a.drop_first()[k - 1] == b.drop_first()[k - 1]);
                    assert(a.drop_first()[k - 1] == a[k]);
                    assert(b.drop_first()[k - 1] == b[k]);
                }
            }
            assert(a =~= b);
        }
    } else if (a[0] as u32) < (b[0] as u32) {
    } else {
        if (a[0] as u32) == (b[0] as u32) {
            vstd::utf8::char_u32_cast(a[0], a[0] as u32);
            vstd::utf8::char_u32_cast(b[0], b[0] as u32);
            assert(a[0] == b[0]);
        }
        assert((b[0] as u32) < (a[0] as u32));
    }
}

pub proof fn lemma_lex_lt_chars_trans(a: Seq<char>, b: Seq<char>, c: Seq<char>)
    requires
        lex_lt_chars(a, b),
        lex_lt_chars(b, c),
    ensures
        lex_lt_chars(a, c),
    decreases a.len(),
{
    if a.len() > 0 && b.len() > 0 && c.len() > 0 && a[0] == b[0] && b[0] == c[0] {
        lemma_lex_lt_chars_trans(a.drop_first(), b.drop_first(), c.drop_first());
    }
}

/// The path order is a total order, so sorting by it has a unique result.
pub proof fn lemma_path_le_total_ordering()
    ensures
        total_ordering(path_le()),
{
    let leq = path_le();
    assert forall|a: Seq<char>, b: Seq<char>| #[trigger] leq(a, b) && #[trigger] leq(b, a)
        implies a == b by {
        if lex_lt_chars(a, b) {
            lemma_lex_lt_chars_asym(a, b);
        }
    }
    assert forall|a: Seq<char>, b: Seq<char>, c: Seq<char>|
        #[trigger] leq(a, b) && #[trigger] leq(b, c) implies #[trigger] leq(a, c) by {
        if lex_lt_chars(a, b) && lex_lt_chars(b, c) {
            lemma_lex_lt_chars_trans(a, b, c);
        }
    }
    assert forall|a: Seq<char>, b: Seq<char>| #![trigger leq(a, b)] true
        implies leq(a, b) || leq(b, a) by {
        lemma_lex_chars_connected(a, b);
    }
}

/// Equal prefixes do not decide the order: comparison may resume after them.
proof fn lemma_lex_lt_bytes_skip(a: Seq<u8>, b: Seq<u8>, i: int)
    requires
        0 <= i <= a.len(),
        i <= b.len(),
        forall|j: int| 0 <= j < i ==> a[j] == b[j],
    ensures
        lex_lt_bytes(a, b) == lex_lt_bytes(a.skip(i), b.skip(i)),
    decreases i,
{
    if i > 0 {
        assert(a[0] == b[0]);
        lemma_lex_lt_bytes_skip(a.drop_first(), b.drop_first(), i - 1);
        assert(a.drop_first().skip(i - 1) =~= a.skip(i));
        assert(b.drop_first().skip(i - 1) =~= b.skip(i));
    } else {
        assert(a.skip(0) =~= a);
        assert(b.skip(0) =~= b);
    }
}

proof fn lemma_lex_lt_chars_skip(a: Seq<char>, b: Seq<char>, i: int)
    requires
        0 <= i <= a.len(),
        i <= b.len(),
        forall|j: int| 0 <= j < i ==> a[j] == b[j],
    ensures
        lex_lt_chars(a, b) == lex_lt_chars(a.skip(i), b.skip(i)),
    decreases i,
{
    if i > 0 {
        assert(a[0] == b[0]);
        lemma_lex_lt_chars_skip(a.drop_first(), b.drop_first(), i - 1);
        assert(a.drop_first().skip(i - 1) =~= a.skip(i));
        assert(b.drop_first().skip(i - 1) =~= b.skip(i));
    } else {
        assert(a.skip(0) =~= a);
        assert(b.skip(0) =~= b);
    }
}

/// Decide the strict byte order on two digests.
pub fn bytes_lt(a: &Vec<u8>, b: &Vec<u8>) -> (r: bool)
    ensures
        r == lex_lt_bytes(a@, b@),
{
    let mut i: usize = 0;
    while i < a.len() && i < b.len()
        invariant
            i <= a.len(),
            i <= b.len(),
            forall|j: int| 0 <= j < i ==> a@[j] == b@[j],
        decreases a.len() - i,
    {
        if a[i] < b[i] {
            proof {
                lemma_lex_lt_bytes_skip(a@, b@, i as int);
            }
            return true;
        }
        if a[i] > b[i] {
            proof {
                lemma_lex_lt_bytes_skip(a@, b@, i as int);
            }
            return false;
        }
        i = i + 1;
    }
    proof {
        lemma_lex_lt_bytes_skip(a@, b@, i as int);
    }
    a.len() < b.len()
}

/// Decide equality of two byte vectors.
pub fn bytes_eq(a: &Vec<u8>, b: &Vec<u8>) -> (r: bool)
    ensures
        r == (a@ == b@),
{
    if a.len() != b.len() {
        proof {
            assert(a@.len() != b@.len());
        }
        return false;
    }
    let mut i: usize = 0;
    while i < a.len()
        invariant
            i <= a.len(),
            a@.len() == b@.len(),
            forall|j: int| 0 <= j < i ==> a@[j] == b@[j],
        decreases a.len() - i,
    {
        if a[i] != b[i] {
            return false;
        }
        i = i + 1;
    }
    proof {
        assert(a@ =~= b@);
    }
    true
}

/// Decide the path order on two strings.
pub fn str_le(a: &str, b: &str) -> (r: bool)
    ensures
        r == lex_le_chars(a@, b@),
{
    let a_len = a.unicode_len();
    let b_len = b.unicode_len();
    let mut i: usize = 0;
    while i < a_len && i < b_len
        invariant
            a_len == a@.len(),
            b_len == b@.len(),
            i <= a_len,
            i <= b_len,
            forall|j: int| 0 <= j < i ==> a@[j] == b@[j],
        decreases a_len - i,
    {
        let ca = a.get_char(i);
        let cb = b.get_char(i);
        if (ca as u32) < (cb as u32) {
            proof {
                lemma_lex_lt_chars_skip(a@, b@, i as int);
            }
            return true;
        }
        if (ca as u32) > (cb as u32) {
            proof {
                lemma_lex_lt_chars_skip(a@, b@, i as int);
                lemma_lex_chars_connected(a@, b@);
                if a@ == b@ {
                    assert(a@[i as int] == b@[i as int]);
                }
            }
            return false;
        }
        i = i + 1;
    }
    proof {
        lemma_lex_lt_chars_skip(a@, b@, i as int);
        if a_len == b_len {
            assert(a@ =~= b@);
        }
    }
    a_len <= b_len
}

/// Insert one path into an already sorted list, keeping it sorted.
pub fn insert_sorted_path(v: &mut Vec<String>, p: String)
    requires
        sorted_by(path_views(old(v)@), path_le()),
    ensures
        sorted_by(path_views(final(v)@), path_le()),
        path_views(final(v)@).to_multiset() == path_views(old(v)@).to_multiset().insert(p@),
{
    broadcast use vstd::seq_lib::group_to_multiset_ensures;

    let ghost orig = v@;
    let mut i: usize = 0;
    while i < v.len() && str_le(v[i].as_str(), p.as_str())
        invariant
            v@ == orig,
            i <= v@.len(),
            forall|j: int| 0 <= j < i ==> lex_le_chars(path_views(v@)[j], p@),
        decreases v.len() - i,
    {
        i = i + 1;
    }
    proof {
        if i < v@.len() {
            lemma_lex_chars_connected(path_views(v@)[i as int], p@);
        }
    }
    v.insert(i, p);
    proof {
        let pv_old = path_views(orig);
        let pv_new = path_views(v@);
        assert(pv_new =~= pv_old.insert(i as int, p@));
        let leq = path_le();
        assert forall|x: int, y: int| 0 <= x < y < pv_new.len() implies leq(
            pv_new[x],
            pv_new[y],
        ) by {
            if x < i && y == i {
                assert(leq(pv_old[x], p@));
            } else if x == i && y > i {
                if i < pv_old.len() {
                    lemma_lex_chars_connected(p@, pv_old[i as int]);
                    if p@ != pv_old[i as int] && !lex_lt_chars(p@, pv_old[i as int]) {
                        assert(lex_le_chars(pv_old[i as int], p@));
                        assert(false);
                    }
                    if y - 1 > i {
                        assert(leq(pv_old[i as int], pv_old[y - 1]));
                        if lex_lt_chars(p@, pv_old[i as int]) && lex_lt_chars(
                            pv_old[i as int],
                            pv_old[y - 1],
                        ) {
                            lemma_lex_lt_chars_trans(p@, pv_old[i as int], pv_old[y - 1]);
                        }
                    }
                }
            } else if x < i && y > i {
                assert(leq(pv_old[x], pv_old[y - 1]));
            } else if x > i && y > i {
                assert(leq(pv_old[x - 1], pv_old[y - 1]));
            } else if x < i && y < i {
                assert(leq(pv_old[x], pv_old[y]));
            }
        }
        assert(pv_new =~= pv_old.take(i as int).push(p@) + pv_old.skip(i as int));
        vstd::seq_lib::lemma_multiset_commutative(pv_old.take(i as int).push(p@), pv_old.skip(i as int));
        assert(pv_old.take(i as int).push(p@).to_multiset() == pv_old.take(
            i as int,
        ).to_multiset().insert(p@));
        vstd::seq_lib::lemma_multiset_commutative(pv_old.take(i as int), pv_old.skip(i as int));
        assert(pv_old.take(i as int) + pv_old.skip(i as int) =~= pv_old);
        assert(pv_new.to_multiset() =~= pv_old.to_multiset().insert(p@));
    }
}

/// Produce a copy of the given paths, sorted by the path order.
pub fn sort_paths(src: &Vec<String>) -> (r: Vec<String>)
    ensures
        sorted_by(path_views(r@), path_le()),
        path_views(r@).to_multiset() == path_views(src@).to_multiset(),
{
    broadcast use vstd::seq_lib::group_to_multiset_ensures;

    let mut r: Vec<String> = Vec::new();
    let mut i: usize = 0;
    proof {
        assert(path_views(r@) =~= Seq::<Seq<char>>::empty());
        assert(path_views(src@.take(0)) =~= Seq::<Seq<char>>::empty());
    }
    while i < src.len()
        invariant
            i <= src@.len(),
            sorted_by(path_views(r@), path_le()),
            path_views(r@).to_multiset() == path_views(src@.take(i as int)).to_multiset(),
        decreases src.len() - i,
    {
        let p = src[i].clone();
        insert_sorted_path(&mut r, p);
        proof {
            assert(path_views(src@.take(i + 1 as int)) =~= path_views(
                src@.take(i as int),
            ).push(src@[i as int]@));
            vstd::seq_lib::to_multiset_build(
                path_views(src@.take(i as int)),
                src@[i as int]@,
            );
            assert(path_views(src@.take(i as int)).push(src@[i as int]@).to_multiset()
                == path_views(src@.take(i as int)).to_multiset().insert(src@[i as int]@));
        }
        i = i + 1;
    }
    proof {
        assert(src@.take(i as int) =~= src@);
    }
    r
}

} // verus!
