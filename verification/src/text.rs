//! Character-level helpers on strings.

use vstd::prelude::*;
use vstd::arithmetic::power2::is_pow2;

verus! {

/// The characters of `s`.
pub fn chars_of(s: &str) -> (r: Vec<char>)
    ensures
        r@ == s@,
{
    let n = s.unicode_len();
    let mut r: Vec<char> = Vec::new();
    let mut i: usize = 0;
    while i < n
        invariant
            n == s@.len(),
            i <= n,
            r@ == s@.subrange(0, i as int),
        decreases n - i,
    {
        r.push(s.get_char(i));
        i = i + 1;
        assert(r@ =~= s@.subrange(0, i as int));
    }
    assert(r@ =~= s@);
    r
}

/// Whether two strings are equal.
pub fn str_eq(a: &str, b: &str) -> (r: bool)
    ensures
        r == (a@ == b@),
{
    let x = chars_of(a);
    let y = chars_of(b);
    if x.len() != y.len() {
        return false;
    }
    let mut i: usize = 0;
    while i < x.len()
        invariant
            x@ == a@,
            y@ == b@,
            x@.len() == y@.len(),
            i <= x@.len(),
            forall|j: int| 0 <= j < i ==> x@[j] == y@[j],
        decreases x.len() - i,
    {
        if x[i] != y[i] {
            return false;
        }
        i = i + 1;
    }
    assert(x@ =~= y@);
    true
}

/// Whether `c` is white space in the Unicode sense, as `char::is_whitespace`
/// has it.
pub open spec fn spec_is_whitespace(c: char) -> bool {
    let u = c as u32;
    (0x09 <= u <= 0x0d) || u == 0x20 || u == 0x85 || u == 0xa0 || u == 0x1680 || (0x2000 <= u
        <= 0x200a) || u == 0x2028 || u == 0x2029 || u == 0x202f || u == 0x205f || u == 0x3000
}

/// Whether `c` is white space in the Unicode sense.
pub fn is_whitespace(c: char) -> (r: bool)
    ensures
        r == spec_is_whitespace(c),
{
    let u = c as u32;
    (0x09 <= u && u <= 0x0d) || u == 0x20 || u == 0x85 || u == 0xa0 || u == 0x1680 || (0x2000 <= u
        && u <= 0x200a) || u == 0x2028 || u == 0x2029 || u == 0x202f || u == 0x205f || u == 0x3000
}

/// The words of `s`: its maximal runs of characters that are not white
/// space, in order.
pub open spec fn spec_words(s: Seq<char>) -> Seq<Seq<char>>
    decreases s.len(),
{
    if s.len() == 0 {
        Seq::empty()
    } else {
        let before = spec_words(s.drop_last());
        let c = s.last();
        if spec_is_whitespace(c) {
            before
        } else if s.len() >= 2 && !spec_is_whitespace(s[s.len() - 2]) {
            before.update(before.len() - 1, before.last().push(c))
        } else {
            before.push(seq![c])
        }
    }
}

/// How the words change when a character is appended.
proof fn lemma_words_push(s: Seq<char>, c: char)
    ensures
        spec_words(s.push(c)) == if spec_is_whitespace(c) {
            spec_words(s)
        } else if s.len() >= 1 && !spec_is_whitespace(s.last()) {
            spec_words(s).update(spec_words(s).len() - 1, spec_words(s).last().push(c))
        } else {
            spec_words(s).push(seq![c])
        },
{
    assert(s.push(c).drop_last() =~= s);
    if s.len() >= 1 {
        assert(s.push(c)[s.push(c).len() - 2] == s.last());
    }
}

/// The words of `s`, split at white space.
pub fn split_whitespace(s: &str) -> (r: Vec<String>)
    ensures
        r@.map_values(|w: String| w@) == spec_words(s@),
{
    let chars = chars_of(s);
    let mut words: Vec<String> = Vec::new();
    let mut i: usize = 0;
    let mut start: usize = 0;
    let mut in_word = false;
    while i < chars.len()
        invariant
            chars@ == s@,
            i <= chars@.len(),
            start <= i,
            in_word == (i > 0 && !spec_is_whitespace(chars@[i - 1])),
            in_word ==> start < i,
            words@.map_values(|w: String| w@) + (if in_word {
                seq![chars@.subrange(start as int, i as int)]
            } else {
                Seq::empty()
            }) == spec_words(chars@.subrange(0, i as int)),
        decreases chars.len() - i,
    {
        let c = chars[i];
        proof {
            assert(chars@.subrange(0, i + 1) =~= chars@.subrange(0, i as int).push(c));
            lemma_words_push(chars@.subrange(0, i as int), c);
            if i > 0 {
                assert(chars@.subrange(0, i as int).last() == chars@[i - 1]);
            }
        }
        let ghost before = words@.map_values(|w: String| w@);
        if is_whitespace(c) {
            if in_word {
                let word = String::from_str(s.substring_char(start, i));
                words.push(word);
                assert(words@.map_values(|w: String| w@) =~= before.push(
                    chars@.subrange(start as int, i as int),
                ));
            } else {
                assert(before + Seq::<Seq<char>>::empty() =~= before);
            }
            in_word = false;
            assert(words@.map_values(|w: String| w@) + Seq::<Seq<char>>::empty() =~= words@.map_values(
                |w: String| w@,
            ));
        } else {
            if !in_word {
                assert(before + Seq::<Seq<char>>::empty() =~= before);
                start = i;
                assert(chars@.subrange(start as int, i + 1) =~= seq![c]);
            } else {
                proof {
                    let cur = chars@.subrange(start as int, i as int);
                    assert(chars@.subrange(start as int, i + 1) =~= cur.push(c));
                    let w = spec_words(chars@.subrange(0, i as int));
                    assert(w =~= before + seq![cur]);
                    assert(w.update(w.len() - 1, w.last().push(c)) =~= before + seq![cur.push(c)]);
                }
            }
            in_word = true;
        }
        i = i + 1;
    }
    if in_word {
        let word = String::from_str(s.substring_char(start, i));
        let ghost before = words@.map_values(|w: String| w@);
        words.push(word);
        assert(words@.map_values(|w: String| w@) =~= before.push(
            chars@.subrange(start as int, i as int),
        ));
    }
    assert(chars@.subrange(0, chars@.len() as int) =~= s@);
    assert(words@.map_values(|w: String| w@) =~= spec_words(s@)) by {
        if !in_word {
            assert(words@.map_values(|w: String| w@) + Seq::<Seq<char>>::empty() =~= words@.map_values(
                |w: String| w@,
            ));
        }
    }
    words
}

/// The value of `c` as a digit in base `radix` (10 or 16), if it is one.
pub open spec fn digit_value(c: char, radix: u32) -> Option<int> {
    let u = c as u32;
    if 0x30 <= u <= 0x39 {
        Some(u - 0x30)
    } else if radix == 16 && 0x61 <= u <= 0x66 {
        Some(u - 0x61 + 10)
    } else if radix == 16 && 0x41 <= u <= 0x46 {
        Some(u - 0x41 + 10)
    } else {
        None
    }
}

/// The number the digits `d` spell in base `radix`, if all are digits.
pub open spec fn digits_value(d: Seq<char>, radix: u32) -> Option<int>
    decreases d.len(),
{
    if d.len() == 0 {
        Some(0)
    } else {
        match (digits_value(d.drop_last(), radix), digit_value(d.last(), radix)) {
            (Some(v), Some(x)) => Some(v * radix + x),
            _ => None,
        }
    }
}

/// Parsing `s` as an unsigned number in base `radix`, as `usize`'s
/// `from_str_radix` does: an optional `+`, then at least one digit, and a
/// value that fits in a `usize`.
pub open spec fn spec_parse_usize(s: Seq<char>, radix: u32) -> Option<usize> {
    let d = if s.len() > 1 && s[0] == '+' {
        s.drop_first()
    } else {
        s
    };
    if d.len() == 0 {
        None
    } else {
        match digits_value(d, radix) {
            Some(v) => if v <= usize::MAX {
                Some(v as usize)
            } else {
                None
            },
            None => None,
        }
    }
}

/// The digits of a prefix spell a number no larger than the whole.
proof fn lemma_digits_value_grows(d: Seq<char>, radix: u32, n: int)
    requires
        radix >= 1,
        0 <= n <= d.len(),
        digits_value(d, radix) is Some,
    ensures
        digits_value(d.subrange(0, n), radix) is Some,
        0 <= digits_value(d.subrange(0, n), radix)->Some_0 <= digits_value(d, radix)->Some_0,
    decreases d.len(),
{
    lemma_digits_value_nonneg(d, radix);
    if n == d.len() {
        assert(d.subrange(0, n) =~= d);
    } else {
        let e = d.drop_last();
        lemma_digits_value_grows(e, radix, n);
        assert(e.subrange(0, n) =~= d.subrange(0, n));
        lemma_digits_value_nonneg(e, radix);
        let v = digits_value(e, radix)->Some_0;
        assert(v * radix >= v) by (nonlinear_arith)
            requires
                v >= 0,
                radix >= 1,
        ;
    }
}

/// A number spelled by digits is never negative.
proof fn lemma_digits_value_nonneg(d: Seq<char>, radix: u32)
    requires
        digits_value(d, radix) is Some,
    ensures
        digits_value(d, radix)->Some_0 >= 0,
    decreases d.len(),
{
    if d.len() > 0 {
        lemma_digits_value_nonneg(d.drop_last(), radix);
        let v = digits_value(d.drop_last(), radix)->Some_0;
        assert(v * radix >= 0) by (nonlinear_arith)
            requires
                v >= 0,
        ;
    }
}

/// Parse `s` as an unsigned number in base `radix` (10 or 16): exactly
/// [`spec_parse_usize`].
#[verifier::spinoff_prover]
#[verifier::rlimit(30)]
pub fn parse_usize(s: &str, radix: u32) -> (r: Option<usize>)
    requires
        radix == 10 || radix == 16,
    ensures
        r == spec_parse_usize(s@, radix),
{
    let chars = chars_of(s);
    let mut i: usize = 0;
    if chars.len() > 1 && chars[0] == '+' {
        i = 1;
    }
    let ghost d = if s@.len() > 1 && s@[0] == '+' {
        s@.drop_first()
    } else {
        s@
    };
    assert(d =~= chars@.subrange(i as int, chars@.len() as int));
    if i == chars.len() {
        return None;
    }
    let mut value: usize = 0;
    let first = i;
    while i < chars.len()
        invariant
            chars@ == s@,
            first <= i <= chars@.len(),
            d == chars@.subrange(first as int, chars@.len() as int),
            d == (if s@.len() > 1 && s@[0] == '+' {
                s@.drop_first()
            } else {
                s@
            }),
            d.len() > 0,
            radix == 10 || radix == 16,
            digits_value(chars@.subrange(first as int, i as int), radix) == Some(value as int),
        decreases chars.len() - i,
    {
        let c = chars[i];
        let u = c as u32;
        let digit: u32 = if 0x30 <= u && u <= 0x39 {
            u - 0x30
        } else if radix == 16 && 0x61 <= u && u <= 0x66 {
            u - 0x61 + 10
        } else if radix == 16 && 0x41 <= u && u <= 0x46 {
            u - 0x41 + 10
        } else {
            proof {
                let p = chars@.subrange(first as int, i + 1);
                assert(p.drop_last() =~= chars@.subrange(first as int, i as int));
                assert(digits_value(p, radix) is None);
                if digits_value(d, radix) is Some {
                    lemma_digits_value_grows(d, radix, i + 1 - first);
                    assert(d.subrange(0, i + 1 - first) =~= p);
                }
            }
            return None;
        };
        let ghost p = chars@.subrange(first as int, i + 1);
        proof {
            assert(p.drop_last() =~= chars@.subrange(first as int, i as int));
        }
        let next = match value.checked_mul(radix as usize) {
            Some(m) => m.checked_add(digit as usize),
            None => None,
        };
        match next {
            Some(v) => {
                value = v;
            },
            None => {
                proof {
                    assert(digits_value(p, radix) == Some(value * radix + digit));
                    if digits_value(d, radix) is Some {
                        lemma_digits_value_grows(d, radix, i + 1 - first);
                        assert(d.subrange(0, i + 1 - first) =~= p);
                    }
                }
                return None;
            },
        }
        i = i + 1;
    }
    assert(chars@.subrange(first as int, chars@.len() as int) =~= d);
    Some(value)
}

/// `s` without the copies of `prefix` it starts with.
pub open spec fn strip_repeated(s: Seq<char>, prefix: Seq<char>) -> Seq<char>
    decreases s.len(),
{
    if prefix.len() > 0 && s.len() >= prefix.len() && s.subrange(0, prefix.len() as int) == prefix {
        strip_repeated(s.subrange(prefix.len() as int, s.len() as int), prefix)
    } else {
        s
    }
}

/// The characters of `s` from `from` on, without the leading copies of the
/// two characters `a b`.
fn strip_pair(s: &Vec<char>, from: usize, a: char, b: char) -> (r: usize)
    requires
        from <= s@.len(),
    ensures
        from <= r <= s@.len(),
        s@.subrange(r as int, s@.len() as int) == strip_repeated(
            s@.subrange(from as int, s@.len() as int),
            seq![a, b],
        ),
{
    let mut i = from;
    while s.len() - i >= 2 && s[i] == a && s[i + 1] == b
        invariant
            from <= i <= s@.len(),
            strip_repeated(s@.subrange(from as int, s@.len() as int), seq![a, b]) == strip_repeated(
                s@.subrange(i as int, s@.len() as int),
                seq![a, b],
            ),
        decreases s@.len() - i,
    {
        let ghost t = s@.subrange(i as int, s@.len() as int);
        assert(t.subrange(0, 2) =~= seq![a, b]);
        assert(t.subrange(2, t.len() as int) =~= s@.subrange(i + 2, s@.len() as int));
        i = i + 2;
    }
    proof {
        let t = s@.subrange(i as int, s@.len() as int);
        if t.len() >= 2 && t.subrange(0, 2) == seq![a, b] {
            assert(t[0] == a && t[1] == b);
        }
    }
    i
}

/// Parse a hexadecimal address, after dropping any leading `0x`, then any
/// leading `0X`.
pub fn parse_hex_address(s: &str) -> (r: Option<usize>)
    ensures
        r == spec_parse_usize(strip_repeated(strip_repeated(s@, seq!['0', 'x']), seq!['0', 'X']), 16),
{
    let chars = chars_of(s);
    let a = strip_pair(&chars, 0, '0', 'x');
    let b = strip_pair(&chars, a, '0', 'X');
    proof {
        assert(chars@.subrange(0, chars@.len() as int) =~= s@);
    }
    let rest = s.substring_char(b, chars.len());
    parse_usize(rest, 16)
}

/// Whether `n` is a power of two.
pub fn is_power_of_two(n: usize) -> (r: bool)
    ensures
        r == is_pow2(n as int),
{
    let mut m = n;
    while m > 1 && m % 2 == 0
        invariant
            is_pow2(n as int) == is_pow2(m as int),
        decreases m,
    {
        proof {
            reveal(is_pow2);
        }
        m = m / 2;
    }
    proof {
        reveal(is_pow2);
    }
    m == 1
}

} // verus!
