//! Tables of replacements of characters: a trie in an array of units, and the texts that it
//! leads to.

use vstd::prelude::*;

verus! {

/// The six bits that a character stands for.
pub open spec fn sextet(c: u8) -> Option<u8> {
    if 0x41 <= c <= 0x5a {
        Some((c - 0x41) as u8)
    } else if 0x61 <= c <= 0x7a {
        Some((c - 0x61 + 26) as u8)
    } else if 0x30 <= c <= 0x39 {
        Some((c - 0x30 + 52) as u8)
    } else if c == 0x2b {
        Some(62)
    } else if c == 0x2f {
        Some(63)
    } else {
        None
    }
}

fn sextet_of(c: u8) -> (r: Option<u8>)
    ensures
        r == sextet(c),
        r matches Some(x) ==> x < 64,
{
    if 0x41 <= c && c <= 0x5a {
        Some(c - 0x41)
    } else if 0x61 <= c && c <= 0x7a {
        Some(c - 0x61 + 26)
    } else if 0x30 <= c && c <= 0x39 {
        Some(c - 0x30 + 52)
    } else if c == 0x2b {
        Some(62)
    } else if c == 0x2f {
        Some(63)
    } else {
        None
    }
}

/// The bytes that four characters stand for: three, or less where they end in one or two
/// equals signs.
pub open spec fn quad(a: u8, b: u8, c: u8, d: u8) -> Option<Seq<u8>> {
    match (sextet(a), sextet(b)) {
        (Some(x), Some(y)) => {
            let first = (x * 4 + y / 16) as u8;
            match sextet(c) {
                Some(z) => {
                    let second = ((y % 16) * 16 + z / 4) as u8;
                    match sextet(d) {
                        Some(w) => Some(seq![first, second, ((z % 4) * 64 + w) as u8]),
                        None => if d == 0x3d {
                            Some(seq![first, second])
                        } else {
                            None
                        },
                    }
                },
                None => if c == 0x3d && d == 0x3d {
                    Some(seq![first])
                } else {
                    None
                },
            }
        },
        _ => None,
    }
}

/// The bytes that a text in base 64 stands for.
pub open spec fn decoded64(s: Seq<u8>) -> Option<Seq<u8>>
    decreases s.len(),
{
    if s.len() == 0 {
        Some(Seq::empty())
    } else if s.len() < 4 {
        None
    } else {
        let n = s.len() - 4;
        match decoded64(s.take(n)) {
            Some(front) => match quad(s[n], s[n + 1], s[n + 2], s[n + 3]) {
                Some(back) => Some(front + back),
                None => None,
            },
            None => None,
        }
    }
}

proof fn lemma_decoded64_stop(s: Seq<u8>, k: int)
    requires
        0 <= k,
        4 * k <= s.len(),
        s.len() % 4 == 0,
        decoded64(s.take(4 * k)) is None,
    ensures
        decoded64(s) is None,
    decreases s.len() - 4 * k,
{
    if 4 * k == s.len() {
        assert(s.take(4 * k) =~= s);
    } else {
        let t = s.take(4 * (k + 1));
        assert(t.take(t.len() - 4) =~= s.take(4 * k));
        lemma_decoded64_stop(s, k + 1);
    }
}

proof fn lemma_decoded64_whole(s: Seq<u8>)
    requires
        s.len() % 4 != 0,
    ensures
        decoded64(s) is None,
    decreases s.len(),
{
    if s.len() >= 4 {
        lemma_decoded64_whole(s.take(s.len() - 4));
    }
}

/// The bytes that a text in base 64 stands for.
pub fn decode64(s: &Vec<u8>) -> (r: Option<Vec<u8>>)
    ensures
        decoded64(s@) == (match r {
            Some(v) => Some(v@),
            None => None,
        }),
{
    if s.len() % 4 != 0 {
        proof {
            lemma_decoded64_whole(s@);
        }
        return None;
    }
    let mut out: Vec<u8> = Vec::new();
    let mut i: usize = 0;
    let ghost mut k: int = 0;
    assert(s@.take(0) =~= Seq::empty());
    while i < s.len()
        invariant
            s@.len() % 4 == 0,
            i == 4 * k,
            0 <= k,
            i <= s@.len(),
            decoded64(s@.take(i as int)) == Some(out@),
        decreases s@.len() - i,
    {
        let ghost t = s@.take(i + 4);
        proof {
            assert(t.take(t.len() - 4) =~= s@.take(i as int));
            assert(t[i as int] == s@[i as int]);
            assert(t[i + 1] == s@[i + 1]);
            assert(t[i + 2] == s@[i + 2]);
            assert(t[i + 3] == s@[i + 3]);
        }
        let ghost before = out@;
        let (a, b, c, d) = (s[i], s[i + 1], s[i + 2], s[i + 3]);
        let ghost q = quad(a, b, c, d);
        let fits: bool = match (sextet_of(a), sextet_of(b)) {
            (Some(x), Some(y)) => {
                out.push(x * 4 + y / 16);
                match sextet_of(c) {
                    Some(z) => {
                        out.push((y % 16) * 16 + z / 4);
                        match sextet_of(d) {
                            Some(w) => {
                                out.push((z % 4) * 64 + w);
                                assert(q == Some(
                                    seq![
                                        (x * 4 + y / 16) as u8,
                                        ((y % 16) * 16 + z / 4) as u8,
                                        ((z % 4) * 64 + w) as u8,
                                    ],
                                ));
                                assert(out@ =~= before + q->0);
                                true
                            },
                            None => {
                                assert(d == 0x3d ==> out@ =~= before + q->0);
                                d == 0x3d
                            },
                        }
                    },
                    None => {
                        assert(c == 0x3d && d == 0x3d ==> out@ =~= before + q->0);
                        c == 0x3d && d == 0x3d
                    },
                }
            },
            _ => false,
        };
        if !fits {
            proof {
                assert(q is None);
                assert(decoded64(t) is None);
                lemma_decoded64_stop(s@, k + 1);
            }
            return None;
        }
        i += 4;
        proof {
            k = k + 1;
            assert(decoded64(t) == Some(before + q->0));
        }
    }
    assert(s@.take(i as int) =~= s@);
    Some(out)
}

/// Four bytes as a number, the lowest first.
pub open spec fn word_at(b: Seq<u8>, p: int) -> u32 {
    (b[p] + b[p + 1] * 0x100 + b[p + 2] * 0x1_0000 + b[p + 3] * 0x100_0000) as u32
}

fn read_word(b: &Vec<u8>, p: usize) -> (r: u32)
    requires
        p + 4 <= b@.len(),
    ensures
        r == word_at(b@, p as int),
{
    let _len: usize = b.len();
    b[p] as u32 + b[p + 1] as u32 * 0x100 + b[p + 2] as u32 * 0x1_0000 + b[p + 3] as u32
        * 0x100_0000
}

/// How many units a table has.
pub open spec fn unit_count(b: Seq<u8>) -> nat {
    (word_at(b, 0) / 4) as nat
}

/// Unit `i` of a table.
pub open spec fn unit(b: Seq<u8>, i: int) -> u32 {
    word_at(b, 4 + 4 * i)
}

/// Where the children of unit `i` are, before the character is added.
pub open spec fn child_base(i: u32, u: u32) -> u32 {
    i ^ (if u & 0x200 != 0 {
        (u >> 10) << 8
    } else {
        u >> 10
    })
}

fn find_child_base(i: u32, u: u32) -> (r: u32)
    ensures
        r == child_base(i, u),
{
    i ^ (if u & 0x200 != 0 {
        (u >> 10) << 8
    } else {
        u >> 10
    })
}

/// Whether a text begins at a place of a table that is in it and does not cut a character.
pub open spec fn text_begins(b: Seq<u8>, p: int) -> bool {
    p <= b.len() && (p < b.len() ==> !(0x80 <= b[p] < 0xc0))
}

/// Whether all children of unit `i` are in the table.
pub open spec fn children_in(b: Seq<u8>, i: int) -> bool {
    (child_base(i as u32, unit(b, i)) | 0xff) < unit_count(b)
}

/// Whether a step to unit `i` stays in the table: its children are units, and a text that
/// it leads to is there.
pub open spec fn step_whole(b: Seq<u8>, i: int) -> bool {
    let u = unit(b, i);
    u & 0x8000_0000 == 0 ==> {
        &&& children_in(b, i)
        &&& u & 0x100 != 0 ==> text_begins(
            b,
            4 + 4 * unit_count(b) + (unit(b, child_base(i as u32, u) as int) & 0x7fff_ffff),
        )
    }
}

/// Whether every lookup in a table stays in it.
pub open spec fn table_whole(b: Seq<u8>) -> bool {
    &&& b.len() >= 4
    &&& unit_count(b) > 0
    &&& 4 + 4 * unit_count(b) <= b.len()
    &&& children_in(b, 0)
    &&& forall|i: int| 0 <= i < unit_count(b) ==> #[trigger] step_whole(b, i)
}

/// Whether every lookup in a table stays in it.
pub fn is_table_whole(b: &Vec<u8>) -> (r: bool)
    ensures
        r == table_whole(b@),
{
    if b.len() < 4 {
        return false;
    }
    let n: u32 = read_word(b, 0) / 4;
    if n == 0 || (b.len() - 4) / 4 < n as usize {
        return false;
    }
    let root = find_child_base(0, read_word(b, 4));
    if (root | 0xff) >= n {
        return false;
    }
    let texts: usize = 4 + 4 * n as usize;
    let mut i: u32 = 0;
    while i < n
        invariant
            b@.len() >= 4,
            n == unit_count(b@),
            texts == 4 + 4 * n,
            texts <= b@.len(),
            i <= n,
            forall|k: int| 0 <= k < i ==> #[trigger] step_whole(b@, k),
        decreases n - i,
    {
        let u = read_word(b, 4 + 4 * i as usize);
        if u & 0x8000_0000 == 0 {
            let base = find_child_base(i, u);
            if (base | 0xff) >= n {
                assert(!step_whole(b@, i as int));
                return false;
            }
            if u & 0x100 != 0 {
                assert(base <= base | 0xff) by (bit_vector);
                let v: u32 = read_word(b, 4 + 4 * base as usize) & 0x7fff_ffff;
                let left: usize = b.len() - texts;
                if v as usize > left || (v as usize) < left && 0x80 <= b[texts + v as usize]
                    && b[texts + v as usize] < 0xc0 {
                    assert(!step_whole(b@, i as int));
                    return false;
                }
            }
        }
        assert(step_whole(b@, i as int));
        i += 1;
    }
    true
}

/// The letter for six bits.
pub open spec fn letter(x: int) -> u8 {
    (if x < 26 {
        'A' as u32 + x
    } else if x < 52 {
        'a' as u32 + x - 26
    } else if x < 62 {
        '0' as u32 + x - 52
    } else if x == 62 {
        '+' as u32 as int
    } else {
        '/' as u32 as int
    }) as u8
}

/// Every letter stands for its own six bits, and nothing else does.
pub proof fn law_letters(x: int, c: u8)
    requires
        0 <= x < 64,
    ensures
        sextet(letter(x)) == Some(x as u8),
        sextet(c) matches Some(y) ==> y < 64 && letter(y as int) == c,
{
}

/// Three bytes are read back from the four letters of their 24 bits, two from three, and one
/// from two, with equals signs behind.
pub proof fn law_letters_read_back(a: u8, b: u8, c: u8)
    ensures
        quad(
            letter(a as int / 4),
            letter(a as int % 4 * 16 + b as int / 16),
            letter(b as int % 16 * 4 + c as int / 64),
            letter(c as int % 64),
        ) == Some(seq![a, b, c]),
        quad(
            letter(a as int / 4),
            letter(a as int % 4 * 16 + b as int / 16),
            letter(b as int % 16 * 4),
            '=' as u8,
        ) == Some(seq![a, b]),
        quad(letter(a as int / 4), letter(a as int % 4 * 16), '=' as u8, '=' as u8) == Some(seq![a]),
{
    law_letters(a as int / 4, 0);
    law_letters(a as int % 4 * 16 + b as int / 16, 0);
    law_letters(b as int % 16 * 4 + c as int / 64, 0);
    law_letters(c as int % 64, 0);
    law_letters(b as int % 16 * 4, 0);
    law_letters(a as int % 4 * 16, 0);
}

/// Letters are read four by four: what follows four of them changes nothing of what they say.
pub proof fn law_decoding_in_fours(front: Seq<u8>, q: Seq<u8>)
    requires
        q.len() == 4,
    ensures
        decoded64(front + q) == (match (decoded64(front), quad(q[0], q[1], q[2], q[3])) {
            (Some(x), Some(y)) => Some(x + y),
            _ => None,
        }),
{
    let s = front + q;
    assert(s.take(s.len() - 4) =~= front);
}

/// In a whole table every step of a lookup is at a unit of it, whatever the character.
pub proof fn law_lookups_stay_inside(b: Seq<u8>, i: int, c: u32)
    requires
        table_whole(b),
        0 <= i < unit_count(b),
        unit(b, i) & 0x8000_0000 == 0,
        c < 0x100,
    ensures
        (child_base(i as u32, unit(b, i)) ^ c) < unit_count(b),
{
    let base = child_base(i as u32, unit(b, i));
    assert(step_whole(b, i));
    assert((base ^ c) <= (base | 0xff)) by (bit_vector)
        requires
            c < 0x100u32,
    ;
}

} // verus!
