//! Text building blocks: decimal numerals, equality and replacement.

use vstd::prelude::*;
use vstd::string::StringSliceAdditionalSpecFns;
use vstd::utf8::*;

verus! {

/// The character of a decimal digit.
pub open spec fn digit_char(d: nat) -> char {
    (48 + d) as char
}

/// The decimal numeral of `n`, without leading zeros.
pub open spec fn decimal(n: nat) -> Seq<char>
    decreases n,
{
    if n < 10 {
        seq![digit_char(n)]
    } else {
        decimal(n / 10).push(digit_char(n % 10))
    }
}

fn digit_str(d: u64) -> (s: &'static str)
    requires
        d < 10,
    ensures
        s@ == seq![digit_char(d as nat)],
{
    proof {
        reveal_strlit("0");
        reveal_strlit("1");
        reveal_strlit("2");
        reveal_strlit("3");
        reveal_strlit("4");
        reveal_strlit("5");
        reveal_strlit("6");
        reveal_strlit("7");
        reveal_strlit("8");
        reveal_strlit("9");
    }
    match d {
        0 => "0",
        1 => "1",
        2 => "2",
        3 => "3",
        4 => "4",
        5 => "5",
        6 => "6",
        7 => "7",
        8 => "8",
        _ => "9",
    }
}

/// Appends the decimal numeral of `n` to `out`.
pub fn push_decimal(out: &mut String, n: u64)
    ensures
        final(out)@ == old(out)@ + decimal(n as nat),
    decreases n,
{
    if n >= 10 {
        push_decimal(out, n / 10);
    }
    out.append(digit_str(n % 10));
}

/// The decimal numeral of `n`.
pub fn decimal_string(n: u64) -> (s: String)
    ensures
        s@ == decimal(n as nat),
{
    let mut out = String::new();
    push_decimal(&mut out, n);
    out
}

/// Whether two texts hold the same characters.
pub fn same_text(a: &str, b: &str) -> (r: bool)
    ensures
        r == (a@ == b@),
{
    let x = a.as_bytes();
    let y = b.as_bytes();
    proof {
        encode_utf8_decode_utf8(a@);
        encode_utf8_decode_utf8(b@);
    }
    if x.len() != y.len() {
        return false;
    }
    let mut i: usize = 0;
    while i < x.len()
        invariant
            i <= x.len(),
            x.len() == y.len(),
            forall|k: int| 0 <= k < i ==> x@[k] == y@[k],
            x@ == a.spec_bytes(),
            y@ == b.spec_bytes(),
        decreases x.len() - i,
    {
        if x[i] != y[i] {
            return false;
        }
        i += 1;
    }
    assert(x@ =~= y@);
    true
}

/// Whether `pat` occurs in `text` at character `i`.
pub open spec fn occurs_at(text: Seq<char>, pat: Seq<char>, i: int) -> bool {
    &&& 0 <= i
    &&& i + pat.len() <= text.len()
    &&& text.subrange(i, i + pat.len()) == pat
}

/// Whether character `i` is where `pat` first occurs in `text`.
pub open spec fn first_at(text: Seq<char>, pat: Seq<char>, i: int) -> bool {
    &&& occurs_at(text, pat, i)
    &&& forall|j: int| 0 <= j < i ==> !occurs_at(text, pat, j)
}

/// `text` with the first occurrence of `pat` replaced by `with`; `text` itself
/// where `pat` does not occur.
pub open spec fn replaced_first(text: Seq<char>, pat: Seq<char>, with: Seq<char>) -> Seq<char> {
    if exists|i: int| first_at(text, pat, i) {
        let i = choose|i: int| first_at(text, pat, i);
        text.subrange(0, i) + with + text.subrange(i + pat.len(), text.len() as int)
    } else {
        text
    }
}

/// Whether `pat` occurs in `text`.
pub open spec fn occurs(text: Seq<char>, pat: Seq<char>) -> bool {
    exists|i: int| occurs_at(text, pat, i)
}

/// Where `pat` first occurs in `text`, counted in characters.
pub fn find_first(text: &str, pat: &str) -> (r: Option<usize>)
    ensures
        match r {
            Some(i) => first_at(text@, pat@, i as int),
            None => forall|i: int| !occurs_at(text@, pat@, i),
        },
        r is Some <==> occurs(text@, pat@),
{
    let n = text.unicode_len();
    let m = pat.unicode_len();
    if m > n {
        return None;
    }
    let mut i: usize = 0;
    while i <= n - m
        invariant
            n == text@.len(),
            m == pat@.len(),
            m <= n,
            i <= n - m + 1,
            forall|j: int| 0 <= j < i ==> !occurs_at(text@, pat@, j),
        decreases n - m + 1 - i,
    {
        if same_text(text.substring_char(i, i + m), pat) {
            assert(occurs_at(text@, pat@, i as int));
            return Some(i);
        }
        if i == n - m {
            return None;
        }
        i += 1;
    }
    None
}

/// `text` with the first occurrence of `pat` replaced by `with`.
pub fn replace_first(text: &str, pat: &str, with: &str) -> (r: String)
    ensures
        r@ == replaced_first(text@, pat@, with@),
{
    match find_first(text, pat) {
        Some(i) => {
            let n = text.unicode_len();
            let m = pat.unicode_len();
            proof {
                let c = choose|c: int| first_at(text@, pat@, c);
                assert(first_at(text@, pat@, i as int));
                assert(c == i) by {
                    if c < i {
                        assert(!occurs_at(text@, pat@, c));
                    }
                    if i < c {
                        assert(!occurs_at(text@, pat@, i as int));
                    }
                }
            }
            let mut out = text.substring_char(0, i).to_owned();
            out.append(with);
            out.append(text.substring_char(i + m, n));
            out
        },
        None => {
            assert(!exists|i: int| first_at(text@, pat@, i));
            text.to_owned()
        },
    }
}

/// Whether a character is white space.
pub open spec fn is_space(c: char) -> bool {
    let u = c as u32;
    ||| 0x09 <= u <= 0x0D
    ||| u == 0x20
    ||| u == 0x85
    ||| u == 0xA0
    ||| u == 0x1680
    ||| 0x2000 <= u <= 0x200A
    ||| u == 0x2028
    ||| u == 0x2029
    ||| u == 0x202F
    ||| u == 0x205F
    ||| u == 0x3000
}

pub(crate) fn space(c: char) -> (r: bool)
    ensures
        r == is_space(c),
{
    let u: u32 = c as u32;
    (0x09 <= u && u <= 0x0D) || u == 0x20 || u == 0x85 || u == 0xA0 || u == 0x1680 || (0x2000 <= u
        && u <= 0x200A) || u == 0x2028 || u == 0x2029 || u == 0x202F || u == 0x205F || u == 0x3000
}

/// Whether a part of a text is the text without white space at its ends.
pub open spec fn is_trimmed(text: Seq<char>, a: int, b: int) -> bool {
    &&& 0 <= a <= b <= text.len()
    &&& forall|i: int| 0 <= i < a ==> is_space(#[trigger] text[i])
    &&& forall|i: int| b <= i < text.len() ==> is_space(#[trigger] text[i])
    &&& a < b ==> !is_space(text[a]) && !is_space(text[b - 1])
}

pub open spec fn is_digit(c: char) -> bool {
    48 <= c as u32 <= 57
}

/// The number that decimal digits stand for.
pub open spec fn digits_value(s: Seq<char>) -> int
    decreases s.len(),
{
    if s.len() == 0 {
        0
    } else {
        digits_value(s.drop_last()) * 10 + (s.last() as u32 - 48)
    }
}

/// The digits of a numeral, which may have a plus sign.
pub open spec fn unsigned(s: Seq<char>) -> Seq<char> {
    if s.len() > 0 && s[0] == '+' {
        s.subrange(1, s.len() as int)
    } else {
        s
    }
}

/// Whether a text is the numeral of a number of 64 bits.
pub open spec fn is_numeral(s: Seq<char>) -> bool {
    let d = unsigned(s);
    &&& d.len() > 0
    &&& forall|i: int| 0 <= i < d.len() ==> is_digit(#[trigger] d[i])
    &&& digits_value(d) <= u64::MAX
}

/// Whether a number is what a text holds, but for white space at its ends.
pub open spec fn parses(text: Seq<char>, r: Option<u64>) -> bool {
    exists|a: int, b: int|
        #![trigger is_trimmed(text, a, b)]
        is_trimmed(text, a, b) && match r {
            Some(n) => is_numeral(text.subrange(a, b)) && n == digits_value(
                unsigned(text.subrange(a, b)),
            ),
            None => !is_numeral(text.subrange(a, b)),
        }
}

/// The number that a text holds, with white space at its ends; nothing where it holds
/// anything else.
pub fn parse_u64(text: &str) -> (r: Option<u64>)
    ensures
        parses(text@, r),
{
    let n: usize = text.unicode_len();
    let mut a: usize = 0;
    while a < n && space(text.get_char(a))
        invariant
            a <= n,
            n == text@.len(),
            forall|i: int| 0 <= i < a ==> is_space(#[trigger] text@[i]),
        decreases n - a,
    {
        a += 1;
    }
    let mut b: usize = n;
    while b > a && space(text.get_char(b - 1))
        invariant
            a <= b <= n,
            n == text@.len(),
            forall|i: int| b <= i < n ==> is_space(#[trigger] text@[i]),
        decreases b,
    {
        b -= 1;
    }
    assert(is_trimmed(text@, a as int, b as int));
    let ghost t = text@.subrange(a as int, b as int);
    let first: usize = if a < b && text.get_char(a) == '+' {
        a + 1
    } else {
        a
    };
    let ghost d = unsigned(t);
    assert(d =~= text@.subrange(first as int, b as int));
    if first == b {
        return None;
    }
    let mut value: u64 = 0;
    let mut i: usize = first;
    while i < b
        invariant
            first <= i <= b <= n,
            n == text@.len(),
            d == text@.subrange(first as int, b as int),
            d == unsigned(t),
            d.len() > 0,
            t == text@.subrange(a as int, b as int),
            is_trimmed(text@, a as int, b as int),
            forall|k: int| 0 <= k < i - first ==> is_digit(#[trigger] d[k]),
            value == digits_value(d.take(i - first)),
        decreases b - i,
    {
        let c: char = text.get_char(i);
        assert(c == d[i - first]);
        let u: u32 = c as u32;
        if u < 48 || u > 57 {
            assert(!is_digit(d[i - first]));
            return None;
        }
        proof {
            assert(d.take(i - first + 1).drop_last() =~= d.take(i - first));
            assert(digits_value(d.take(i - first + 1)) == value * 10 + (u - 48));
        }
        let wide: u128 = value as u128 * 10 + (u - 48) as u128;
        if wide > 0xFFFF_FFFF_FFFF_FFFF {
            proof {
                if is_numeral(t) {
                    lemma_digits_grow(d, i - first + 1);
                }
            }
            return None;
        }
        value = wide as u64;
        i += 1;
    }
    assert(d.take(i - first) =~= d);
    Some(value)
}

/// A numeral stands for no less than its first digits.
proof fn lemma_digits_grow(d: Seq<char>, k: int)
    requires
        0 <= k <= d.len(),
        forall|i: int| 0 <= i < d.len() ==> is_digit(#[trigger] d[i]),
    ensures
        0 <= digits_value(d.take(k)) <= digits_value(d),
    decreases d.len(),
{
    if k == d.len() {
        assert(d.take(k) =~= d);
        if d.len() > 0 {
            let e = d.drop_last();
            assert forall|i: int| 0 <= i < e.len() implies is_digit(#[trigger] e[i]) by {
                assert(e[i] == d[i]);
            }
            lemma_digits_grow(e, e.len() as int);
            assert(e.take(e.len() as int) =~= e);
            assert(is_digit(d[d.len() - 1]));
        }
    } else {
        let e = d.drop_last();
        assert forall|i: int| 0 <= i < e.len() implies is_digit(#[trigger] e[i]) by {
            assert(e[i] == d[i]);
        }
        lemma_digits_grow(e, k);
        assert(e.take(k) =~= d.take(k));
        assert(is_digit(d[d.len() - 1]));
    }
}

/// The numeral of a number stands for that number.
pub proof fn law_numeral_round_trip(n: nat)
    ensures
        decimal(n).len() > 0,
        forall|i: int| 0 <= i < decimal(n).len() ==> is_digit(#[trigger] decimal(n)[i]),
        unsigned(decimal(n)) == decimal(n),
        digits_value(decimal(n)) == n,
        n <= u64::MAX ==> is_numeral(decimal(n)),
    decreases n,
{
    let s = decimal(n);
    let d = digit_char(n % 10);
    assert(d as u32 == 48 + n % 10);
    reveal_with_fuel(digits_value, 2);
    if n < 10 {
        assert(s.drop_last() =~= Seq::<char>::empty());
        assert(s.last() == digit_char(n));
    } else {
        law_numeral_round_trip(n / 10);
        assert(s.drop_last() =~= decimal(n / 10));
        assert(s.last() == d);
        assert forall|i: int| 0 <= i < s.len() implies is_digit(#[trigger] s[i]) by {
            if i < s.len() - 1 {
                assert(s[i] == decimal(n / 10)[i]);
            }
        }
    }
    assert(is_digit(s[0]));
    assert(!is_digit('+'));
}

/// A number is written with one digit below ten, and from there on as its tenth part with its last
/// digit behind it.
pub proof fn law_written_by_digits(n: u64, whole: String, front: String)
    requires
        call_ensures(decimal_string, (n,), whole),
        call_ensures(decimal_string, (n / 10,), front),
    ensures
        n == 0 ==> whole@ == seq!['0'],
        n == 9 ==> whole@ == seq!['9'],
        n < 10 ==> whole@.len() == 1 && whole@[0] as int - '0' as int == n,
        n >= 10 ==> whole@.len() == front@.len() + 1 && whole@.drop_last() == front@
            && whole@.last() as int - '0' as int == n - 10 * (n / 10),
{
    assert('0' as int == 48 && '9' as int == 57);
    if n >= 10 {
        assert(whole@.drop_last() =~= decimal((n / 10) as nat));
    }
}

/// What takes the place of the first occurrence of a text: what stood before and behind it stays,
/// and a text without an occurrence stays whole.
pub proof fn law_replaced_in_place(text: &str, pat: &str, with: &str, at: Option<usize>, r: String)
    requires
        call_ensures(find_first, (text, pat), at),
        call_ensures(replace_first, (text, pat, with), r),
    ensures
        match at {
            Some(i) => {
                &&& i + pat@.len() <= text@.len()
                &&& text@.subrange(i as int, i + pat@.len() as int) == pat@
                &&& r@.len() == text@.len() - pat@.len() + with@.len()
                &&& r@.subrange(0, i as int) == text@.subrange(0, i as int)
                &&& r@.subrange(i as int, i + with@.len() as int) == with@
                &&& r@.subrange(i + with@.len() as int, r@.len() as int) == text@.subrange(
                    i + pat@.len() as int,
                    text@.len() as int,
                )
            },
            None => r@ == text@,
        },
{
    match at {
        Some(i) => {
            assert(first_at(text@, pat@, i as int));
            let c = choose|c: int| first_at(text@, pat@, c);
            assert(c == i) by {
                if c < i {
                    assert(occurs_at(text@, pat@, c));
                }
                if i < c {
                    assert(occurs_at(text@, pat@, i as int));
                }
            }
            assert(r@ == text@.subrange(0, i as int) + with@ + text@.subrange(
                i + pat@.len() as int,
                text@.len() as int,
            ));
            assert(r@.subrange(0, i as int) =~= text@.subrange(0, i as int));
            assert(r@.subrange(i as int, i + with@.len() as int) =~= with@);
            assert(r@.subrange(i + with@.len() as int, r@.len() as int) =~= text@.subrange(
                i + pat@.len() as int,
                text@.len() as int,
            ));
        },
        None => {
            if exists|i: int| first_at(text@, pat@, i) {
                let i = choose|i: int| first_at(text@, pat@, i);
                assert(occurs_at(text@, pat@, i));
            }
        },
    }
}

proof fn lemma_digits_read(text: &str, r: Option<u64>)
    requires
        text@.len() > 0,
        forall|i: int| 0 <= i < text@.len() ==> '0' <= #[trigger] text@[i] <= '9',
        call_ensures(parse_u64, (text,), r),
    ensures
        r matches Some(n) ==> n == digits_value(text@),
        r is None ==> digits_value(text@) > u64::MAX,
{
    let s = text@;
    let (a, b) = choose|a: int, b: int|
        #![trigger is_trimmed(s, a, b)]
        is_trimmed(s, a, b) && match r {
            Some(n) => is_numeral(s.subrange(a, b)) && n == digits_value(
                unsigned(s.subrange(a, b)),
            ),
            None => !is_numeral(s.subrange(a, b)),
        };
    assert('0' <= s[0] <= '9' && '0' <= s[s.len() - 1] <= '9');
    assert(!is_space(s[0]) && !is_space(s[s.len() - 1]));
    assert(a == 0 && b == s.len());
    assert(s.subrange(a, b) =~= s);
    assert(unsigned(s) == s);
    assert forall|i: int| 0 <= i < s.len() implies is_digit(#[trigger] s[i]) by {
        assert('0' <= s[i] <= '9');
    }
}

/// A digit behind the digits of a number makes it ten times as large, and adds the digit.
pub proof fn law_read_by_digits(front: &str, whole: &str, a: u64, b: Option<u64>)
    requires
        front@.len() > 0,
        whole@.len() == front@.len() + 1,
        whole@.drop_last() == front@,
        forall|i: int| 0 <= i < whole@.len() ==> '0' <= #[trigger] whole@[i] <= '9',
        call_ensures(parse_u64, (front,), Some(a)),
        call_ensures(parse_u64, (whole,), b),
    ensures
        b == (if 10 * a + (whole@.last() as int - '0' as int) <= u64::MAX {
            Some((10 * a + (whole@.last() as int - '0' as int)) as u64)
        } else {
            None
        }),
{
    assert forall|i: int| 0 <= i < front@.len() implies '0' <= #[trigger] front@[i] <= '9' by {
        assert(whole@.drop_last()[i] == whole@[i]);
    }
    assert('0' <= whole@[whole@.len() - 1] <= '9');
    lemma_digits_read(front, Some(a));
    lemma_digits_read(whole, b);
}

} // verus!
