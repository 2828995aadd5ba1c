//! Lowercase hexadecimal rendering of digests, with the exact
//! character-level specification and its injectivity: two digests render
//! to the same text only if they are the same digest.

use vstd::prelude::*;

verus! {

/// The lowercase hexadecimal digit for one value below sixteen.
pub open spec fn hex_char(n: u8) -> char
    recommends
        n < 16,
{
    if n == 0 {
        '0'
    } else if n == 1 {
        '1'
    } else if n == 2 {
        '2'
    } else if n == 3 {
        '3'
    } else if n == 4 {
        '4'
    } else if n == 5 {
        '5'
    } else if n == 6 {
        '6'
    } else if n == 7 {
        '7'
    } else if n == 8 {
        '8'
    } else if n == 9 {
        '9'
    } else if n == 10 {
        'a'
    } else if n == 11 {
        'b'
    } else if n == 12 {
        'c'
    } else if n == 13 {
        'd'
    } else if n == 14 {
        'e'
    } else {
        'f'
    }
}

/// One byte as two hexadecimal digits, high nibble first.
pub open spec fn hex_of_byte(b: u8) -> Seq<char> {
    seq![hex_char(b / 16), hex_char(b % 16)]
}

/// A byte sequence as its lowercase hexadecimal text.
pub open spec fn hex_of_bytes(s: Seq<u8>) -> Seq<char>
    decreases s.len(),
{
    if s.len() == 0 {
        Seq::<char>::empty()
    } else {
        hex_of_byte(s[0]) + hex_of_bytes(s.drop_first())
    }
}

pub proof fn lemma_hex_of_bytes_len(s: Seq<u8>)
    ensures
        hex_of_bytes(s).len() == 2 * s.len(),
    decreases s.len(),
{
    if s.len() > 0 {
        lemma_hex_of_bytes_len(s.drop_first());
    }
}

proof fn lemma_hex_of_bytes_push(s: Seq<u8>, b: u8)
    ensures
        hex_of_bytes(s.push(b)) == hex_of_bytes(s) + hex_of_byte(b),
    decreases s.len(),
{
    if s.len() == 0 {
        assert(s.push(b)[0] == b);
        assert(s.push(b).drop_first() =~= Seq::<u8>::empty());
        assert(hex_of_bytes(s.push(b)) == hex_of_byte(b) + hex_of_bytes(Seq::<u8>::empty()));
        assert(hex_of_bytes(Seq::<u8>::empty()) == Seq::<char>::empty());
        assert(hex_of_byte(b) + Seq::<char>::empty() =~= hex_of_byte(b));
        assert(hex_of_bytes(s) == Seq::<char>::empty());
        assert(hex_of_bytes(s) + hex_of_byte(b) =~= hex_of_byte(b));
    } else {
        lemma_hex_of_bytes_push(s.drop_first(), b);
        assert(s.push(b).drop_first() =~= s.drop_first().push(b));
        assert(s.push(b)[0] == s[0]);
        assert(hex_of_byte(s[0]) + (hex_of_bytes(s.drop_first()) + hex_of_byte(b)) =~= (hex_of_byte(
            s[0],
        ) + hex_of_bytes(s.drop_first())) + hex_of_byte(b));
    }
}

proof fn lemma_hex_char_injective(x: u8, y: u8)
    requires
        x < 16,
        y < 16,
        hex_char(x) == hex_char(y),
    ensures
        x == y,
{
}

/// Hexadecimal text determines the bytes it was rendered from.
pub proof fn lemma_hex_of_bytes_injective(s1: Seq<u8>, s2: Seq<u8>)
    requires
        hex_of_bytes(s1) == hex_of_bytes(s2),
    ensures
        s1 == s2,
    decreases s1.len(),
{
    lemma_hex_of_bytes_len(s1);
    lemma_hex_of_bytes_len(s2);
    if s1.len() == 0 {
        assert(s1 =~= s2);
    } else {
        let h1 = hex_of_bytes(s1);
        let h2 = hex_of_bytes(s2);
        assert(h1[0] == hex_char(s1[0] / 16) && h1[1] == hex_char(s1[0] % 16));
        assert(h2[0] == hex_char(s2[0] / 16) && h2[1] == hex_char(s2[0] % 16));
        lemma_hex_char_injective(s1[0] / 16, s2[0] / 16);
        lemma_hex_char_injective(s1[0] % 16, s2[0] % 16);
        assert(s1[0] == s2[0]);
        assert(hex_of_bytes(s1.drop_first()) =~= h1.skip(2)) by {
            assert(h1 == hex_of_byte(s1[0]) + hex_of_bytes(s1.drop_first()));
        }
        assert(hex_of_bytes(s2.drop_first()) =~= h2.skip(2)) by {
            assert(h2 == hex_of_byte(s2[0]) + hex_of_bytes(s2.drop_first()));
        }
        lemma_hex_of_bytes_injective(s1.drop_first(), s2.drop_first());
        assert forall|k: int| 0 <= k < s1.len() implies s1[k] == s2[k] by {
            if k > 0 {
                assert(s1.drop_first()[k - 1] == s2.drop_first()[k - 1]);
                assert(s1.drop_first()[k - 1] == s1[k]);
                assert(s2.drop_first()[k - 1] == s2[k]);
            }
        }
        assert(s1 =~= s2);
    }
}

/// The one-character string for one hexadecimal digit.
fn nibble_str(n: u8) -> (s: &'static str)
    requires
        n < 16,
    ensures
        s@ == seq![hex_char(n)],
{
    proof {
        reveal_strlit("0");
        reveal_strlit("1");
        reveal_strlit("2");
        reveal_strlit("3");
        reveal_strlit("4");
        reveal_strlit("5");
        reveal_strlit("6");
        reveal_strlit("7");
        reveal_strlit("8");
        reveal_strlit("9");
        reveal_strlit("a");
        reveal_strlit("b");
        reveal_strlit("c");
        reveal_strlit("d");
        reveal_strlit("e");
        reveal_strlit("f");
    }
    let s: &'static str = match n {
        0 => "0",
        1 => "1",
        2 => "2",
        3 => "3",
        4 => "4",
        5 => "5",
        6 => "6",
        7 => "7",
        8 => "8",
        9 => "9",
        10 => "a",
        11 => "b",
        12 => "c",
        13 => "d",
        14 => "e",
        _ => "f",
    };
    proof {
        assert(s@ =~= seq![hex_char(n)]);
    }
    s
}

/// Render a digest as lowercase hexadecimal text.
pub fn to_hex(d: &Vec<u8>) -> (r: String)
    ensures
        r@ == hex_of_bytes(d@),
{
    let mut r = String::new();
    let mut i: usize = 0;
    proof {
        assert(d@.take(0) =~= Seq::<u8>::empty());
    }
    while i < d.len()
        invariant
            i <= d@.len(),
            r@ == hex_of_bytes(d@.take(i as int)),
        decreases d@.len() - i,
    {
        let b = d[i];
        r.append(nibble_str(b / 16));
        r.append(nibble_str(b % 16));
        proof {
            lemma_hex_of_bytes_push(d@.take(i as int), b);
            assert(d@.take(i + 1 as int) =~= d@.take(i as int).push(b));
            assert(hex_of_bytes(d@.take(i as int)) + hex_of_byte(b) =~= (hex_of_bytes(
                d@.take(i as int),
            ) + seq![hex_char(b / 16)]) + seq![hex_char(b % 16)]);
        }
        i = i + 1;
    }
    proof {
        assert(d@.take(i as int) =~= d@);
    }
    r
}

} // verus!
