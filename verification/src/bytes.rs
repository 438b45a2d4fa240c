//! Byte-level scanning and number parsing over raw log lines.

use vstd::prelude::*;
use vstd::slice::slice_subrange;

verus! {

pub open spec fn is_digit(b: u8) -> bool {
    48 <= b <= 57
}

/// Lower-case hexadecimal digit, the alphabet of the log's identifiers.
pub open spec fn is_hex_char(b: u8) -> bool {
    is_digit(b) || (97 <= b <= 102)
}

/// Hexadecimal digit of either case.
pub open spec fn is_hex_char_any(b: u8) -> bool {
    is_hex_char(b) || (65 <= b <= 70)
}

/// Numeric value of a hexadecimal digit of either case.
pub open spec fn hex_val(b: u8) -> int {
    if is_digit(b) {
        b - 48
    } else if 97 <= b <= 102 {
        b - 97 + 10
    } else {
        b - 65 + 10
    }
}

/// Value of a big-endian hexadecimal digit string.
pub open spec fn hex_value(s: Seq<u8>) -> int
    decreases s.len(),
{
    if s.len() == 0 {
        0
    } else {
        hex_value(s.drop_last()) * 16 + hex_val(s.last())
    }
}

pub open spec fn all_hex(s: Seq<u8>) -> bool {
    forall|i: int| 0 <= i < s.len() ==> is_hex_char(#[trigger] s[i])
}

pub open spec fn all_hex_any(s: Seq<u8>) -> bool {
    forall|i: int| 0 <= i < s.len() ==> is_hex_char_any(#[trigger] s[i])
}

/// Value of a big-endian decimal digit string.
pub open spec fn dec_value(s: Seq<u8>) -> int
    decreases s.len(),
{
    if s.len() == 0 {
        0
    } else {
        dec_value(s.drop_last()) * 10 + (s.last() - 48)
    }
}

/// Length of the longest digit-only prefix.
pub open spec fn digit_prefix_len(s: Seq<u8>) -> int
    decreases s.len(),
{
    if s.len() == 0 || !is_digit(s[0]) {
        0
    } else {
        1 + digit_prefix_len(s.drop_first())
    }
}

/// True when `c` is an ASCII digit or a lower-case hex letter: the alphabet
/// of account and analytics identifiers in the log.
pub fn is_ascii_hex_character(c: u8) -> (r: bool)
    ensures
        r == is_hex_char(c),
{
    (48 <= c && c <= 57) || (97 <= c && c <= 102)
}

/// The byte itself when it is an ASCII digit, else the digit zero.
pub fn number_or_zero(byte: u8) -> (r: u8)
    ensures
        r == if is_digit(byte) {
            byte
        } else {
            48u8
        },
{
    if 48 <= byte && byte <= 57 {
        byte
    } else {
        48
    }
}

/// First position at or after `from` holding byte `b`, if any.
pub fn find_byte(s: &[u8], from: usize, b: u8) -> (r: Option<usize>)
    ensures
        match r {
            Some(i) => from <= i < s@.len() && s@[i as int] == b && forall|j: int|
                from <= j < i ==> s@[j] != b,
            None => forall|j: int| from <= j < s@.len() ==> s@[j] != b,
        },
{
    let mut i = from;
    while i < s.len()
        invariant
            from <= i,
            forall|j: int| from <= j < i ==> s@[j] != b,
        decreases s@.len() - i,
    {
        if *vstd::slice::slice_index_get(s, i) == b {
            return Some(i);
        }
        i = i + 1;
    }
    None
}

/// Whether `prefix` starts `msg`.
pub fn starts_with(msg: &[u8], prefix: &[u8]) -> (r: bool)
    ensures
        r == prefix@.is_prefix_of(msg@),
{
    if msg.len() < prefix.len() {
        proof {
            assert(!prefix@.is_prefix_of(msg@));
        }
        return false;
    }
    let mut i: usize = 0;
    while i < prefix.len()
        invariant
            0 <= i <= prefix@.len() <= msg@.len(),
            forall|j: int| 0 <= j < i ==> msg@[j] == prefix@[j],
        decreases prefix@.len() - i,
    {
        if *vstd::slice::slice_index_get(msg, i) != *vstd::slice::slice_index_get(prefix, i) {
            proof {
                assert(msg@.subrange(0, prefix@.len() as int)[i as int] != prefix@[i as int]);
            }
            return false;
        }
        i = i + 1;
    }
    proof {
        assert(msg@.subrange(0, prefix@.len() as int) =~= prefix@);
    }
    true
}

/// The rest of `from` after `prefix`, when `prefix` starts it.
pub fn skip_prefix<'a>(prefix: &[u8], from: &'a [u8]) -> (r: Option<&'a [u8]>)
    ensures
        match r {
            Some(rest) => prefix@.is_prefix_of(from@) && rest@ == from@.skip(prefix@.len() as int),
            None => !prefix@.is_prefix_of(from@),
        },
{
    if starts_with(from, prefix) {
        Some(slice_subrange(from, prefix.len(), from.len()))
    } else {
        None
    }
}

/// Whether `suffix` ends `msg`.
pub fn ends_with(msg: &[u8], suffix: &[u8]) -> (r: bool)
    ensures
        r == suffix@.is_suffix_of(msg@),
{
    if msg.len() < suffix.len() {
        proof {
            assert(!suffix@.is_suffix_of(msg@));
        }
        return false;
    }
    let off = msg.len() - suffix.len();
    let mut i: usize = 0;
    while i < suffix.len()
        invariant
            0 <= i <= suffix@.len() <= msg@.len(),
            msg@.len() <= usize::MAX,
            off == msg@.len() - suffix@.len(),
            forall|j: int| 0 <= j < i ==> msg@[off + j] == suffix@[j],
        decreases suffix@.len() - i,
    {
        if *vstd::slice::slice_index_get(msg, off + i) != *vstd::slice::slice_index_get(
            suffix,
            i,
        ) {
            proof {
                assert(msg@.subrange(
                    msg@.len() - suffix@.len(),
                    msg@.len() as int,
                )[i as int] != suffix@[i as int]);
            }
            return false;
        }
        i = i + 1;
    }
    proof {
        assert(msg@.subrange(msg@.len() - suffix@.len(), msg@.len() as int) =~= suffix@);
    }
    true
}

/// Whether `needle` occurs in `s` starting at `at`.
pub open spec fn matches_at(s: Seq<u8>, needle: Seq<u8>, at: int) -> bool {
    0 <= at && at + needle.len() <= s.len() && s.subrange(at, at + needle.len()) == needle
}

/// First occurrence of `needle` in `haystack`, if any (empty needles match
/// at position zero).
pub fn find_subslice(haystack: &[u8], needle: &[u8]) -> (r: Option<usize>)
    ensures
        match r {
            Some(i) => matches_at(haystack@, needle@, i as int) && forall|j: int|
                0 <= j < i ==> !matches_at(haystack@, needle@, j),
            None => forall|j: int| !matches_at(haystack@, needle@, j),
        },
{
    if needle.len() > haystack.len() {
        proof {
            assert forall|j: int| !matches_at(haystack@, needle@, j) by {}
        }
        return None;
    }
    if needle.len() == 0 {
        proof {
            assert(haystack@.subrange(0, 0) =~= needle@);
        }
        return Some(0);
    }
    let mut i: usize = 0;
    while i <= haystack.len() - needle.len()
        invariant
            0 <= i <= haystack@.len() - needle@.len() + 1,
            1 <= needle@.len() <= haystack@.len(),
            haystack@.len() <= usize::MAX,
            forall|j: int| 0 <= j < i ==> !matches_at(haystack@, needle@, j),
        decreases haystack@.len() - needle@.len() - i + 1,
    {
        let mut k: usize = 0;
        let mut hit = true;
        while k < needle.len()
            invariant
                0 <= k <= needle@.len(),
                i + needle@.len() <= haystack@.len(),
                haystack@.len() <= usize::MAX,
                hit ==> forall|m: int| 0 <= m < k ==> haystack@[i + m] == needle@[m],
                !hit ==> !matches_at(haystack@, needle@, i as int),
            decreases needle@.len() - k,
        {
            if *vstd::slice::slice_index_get(haystack, i + k) != *vstd::slice::slice_index_get(
                needle,
                k,
            ) {
                proof {
                    assert(haystack@.subrange(i as int, i + needle@.len())[k as int] != needle@[k as int]);
                }
                hit = false;
            }
            k = k + 1;
        }
        if hit {
            proof {
                assert(haystack@.subrange(i as int, i + needle@.len()) =~= needle@);
            }
            return Some(i);
        }
        i = i + 1;
    }
    proof {
        assert forall|j: int| !matches_at(haystack@, needle@, j) by {
            if j >= i {
            }
        }
    }
    None
}

/// Decimal value of the longest digit prefix of `raw`: the whole prefix must
/// be present (at least one digit) and fit in a `u64`.
pub fn extract_integer(raw: &[u8]) -> (r: Option<u64>)
    ensures
        ({
            let k = digit_prefix_len(raw@);
            match r {
                Some(v) => k > 0 && dec_value(raw@.take(k)) == v,
                None => k == 0 || dec_value(raw@.take(k)) > u64::MAX,
            }
        }),
{
    let mut i: usize = 0;
    let mut acc: u128 = 0;
    let ghost k = digit_prefix_len(raw@);
    proof {
        lemma_digit_prefix_len(raw@);
        assert(dec_value(raw@.take(0)) == 0) by {
            assert(raw@.take(0) =~= Seq::<u8>::empty());
        }
    }
    while i < raw.len() && *vstd::slice::slice_index_get(raw, i) >= 48
        && *vstd::slice::slice_index_get(raw, i) <= 57
        invariant
            0 <= i <= raw@.len(),
            k == digit_prefix_len(raw@),
            0 <= k <= raw@.len(),
            forall|j: int| 0 <= j < k ==> is_digit(#[trigger] raw@[j]),
            k < raw@.len() ==> !is_digit(raw@[k]),
            i <= k,
            acc == dec_value(raw@.take(i as int)),
            acc <= 0xffff_ffff_ffff_ffff,
        decreases raw@.len() - i,
    {
        let d = *vstd::slice::slice_index_get(raw, i) - 48;
        proof {
            assert(is_digit(raw@[i as int]));
            assert(i < k) by {
                if i >= k {
                    assert(!is_digit(raw@[k]));
                }
            }
            let t1 = raw@.take(i + 1);
            assert(t1.drop_last() =~= raw@.take(i as int));
            assert(t1.last() == raw@[i as int]);
        }
        acc = acc * 10 + (d as u128);
        i = i + 1;
        if acc > 0xffff_ffff_ffff_ffffu128 {
            proof {
                lemma_dec_value_monotone(raw@, i as int, k);
            }
            return None;
        }
    }
    proof {
        assert(i == k) by {
            if i < k {
                assert(is_digit(raw@[i as int]));
            }
        }
    }
    if i == 0 {
        None
    } else {
        Some(acc as u64)
    }
}

/// Digit prefixes are digits; the byte after the prefix is not a digit.
proof fn lemma_digit_prefix_len(s: Seq<u8>)
    ensures
        0 <= digit_prefix_len(s) <= s.len(),
        forall|j: int| 0 <= j < digit_prefix_len(s) ==> is_digit(#[trigger] s[j]),
        digit_prefix_len(s) < s.len() ==> !is_digit(s[digit_prefix_len(s)]),
    decreases s.len(),
{
    if s.len() > 0 && is_digit(s[0]) {
        let t = s.drop_first();
        lemma_digit_prefix_len(t);
        assert(forall|j: int| 0 <= j < t.len() ==> #[trigger] t[j] == s[j + 1]);
        assert forall|j: int| 0 <= j < digit_prefix_len(s) implies is_digit(#[trigger] s[j]) by {
            if j > 0 {
                assert(t[j - 1] == s[j]);
                assert(is_digit(t[j - 1]));
            }
        }
        if digit_prefix_len(s) < s.len() {
            assert(t[digit_prefix_len(s) - 1] == s[digit_prefix_len(s)]);
        }
    }
}

/// A longer digit prefix never has a smaller value.
proof fn lemma_dec_value_monotone(s: Seq<u8>, a: int, b: int)
    requires
        0 <= a <= b <= s.len(),
        forall|j: int| 0 <= j < b ==> is_digit(#[trigger] s[j]),
    ensures
        dec_value(s.take(a)) <= dec_value(s.take(b)),
    decreases b - a,
{
    if a < b {
        lemma_dec_value_monotone(s, a, b - 1);
        let t = s.take(b);
        assert(t.drop_last() =~= s.take(b - 1));
        assert(t.last() == s[b - 1]);
        assert(forall|j: int|
            0 <= j < s.take(b - 1).len() ==> #[trigger] s.take(b - 1)[j] == s[j]);
        lemma_dec_value_nonneg(s.take(b - 1));
    }
}

proof fn lemma_dec_value_nonneg(s: Seq<u8>)
    requires
        forall|j: int| 0 <= j < s.len() ==> is_digit(#[trigger] s[j]),
    ensures
        dec_value(s) >= 0,
    decreases s.len(),
{
    if s.len() > 0 {
        assert(forall|j: int|
            0 <= j < s.drop_last().len() ==> #[trigger] s.drop_last()[j] == s[j]);
        lemma_dec_value_nonneg(s.drop_last());
    }
}

/// Value of a non-empty hexadecimal byte string (digits of either case),
/// when it fits in a `u64`.
pub fn parse_hex_u64(s: &[u8]) -> (r: Option<u64>)
    ensures
        match r {
            Some(v) => s@.len() > 0 && all_hex_any(s@) && hex_value(s@) == v,
            None => s@.len() == 0 || !all_hex_any(s@) || hex_value(s@) > u64::MAX,
        },
{
    if s.len() == 0 {
        return None;
    }
    let mut i: usize = 0;
    let mut acc: u128 = 0;
    proof {
        assert(hex_value(s@.take(0)) == 0) by {
            assert(s@.take(0) =~= Seq::<u8>::empty());
        }
    }
    while i < s.len()
        invariant
            0 <= i <= s@.len(),
            forall|j: int| 0 <= j < i ==> is_hex_char_any(#[trigger] s@[j]),
            acc == hex_value(s@.take(i as int)),
            acc <= 0xffff_ffff_ffff_ffff,
        decreases s@.len() - i,
    {
        let b = *vstd::slice::slice_index_get(s, i);
        let d: u8 = if 48 <= b && b <= 57 {
            b - 48
        } else if 97 <= b && b <= 102 {
            b - 97 + 10
        } else if 65 <= b && b <= 70 {
            b - 65 + 10
        } else {
            return None;
        };
        proof {
            let t1 = s@.take(i + 1);
            assert(t1.drop_last() =~= s@.take(i as int));
            assert(t1.last() == s@[i as int]);
        }
        acc = acc * 16 + (d as u128);
        i = i + 1;
        if acc > 0xffff_ffff_ffff_ffffu128 {
            proof {
                lemma_hex_value_monotone(s@, i as int, s@.len() as int);
                assert(s@.take(s@.len() as int) =~= s@);
            }
            return None;
        }
    }
    proof {
        assert(s@.take(s@.len() as int) =~= s@);
    }
    Some(acc as u64)
}

/// A longer hexadecimal prefix never has a smaller value.
proof fn lemma_hex_value_monotone(s: Seq<u8>, a: int, b: int)
    requires
        0 <= a <= b <= s.len(),
    ensures
        hex_value(s.take(a)) <= hex_value(s.take(b)) || !all_hex_any(s),
    decreases b - a,
{
    if a < b {
        lemma_hex_value_monotone(s, a, b - 1);
        if all_hex_any(s) {
            let t = s.take(b);
            assert(t.drop_last() =~= s.take(b - 1));
            assert(t.last() == s[b - 1]);
            assert(forall|j: int|
                0 <= j < s.take(b - 1).len() ==> #[trigger] s.take(b - 1)[j] == s[j]);
            lemma_hex_value_nonneg(s.take(b - 1));
            assert(hex_val(s[b - 1]) >= 0);
        }
    }
}

proof fn lemma_hex_value_nonneg(s: Seq<u8>)
    requires
        all_hex_any(s),
    ensures
        hex_value(s) >= 0,
    decreases s.len(),
{
    if s.len() > 0 {
        assert(forall|j: int|
            0 <= j < s.drop_last().len() ==> #[trigger] s.drop_last()[j] == s[j]);
        lemma_hex_value_nonneg(s.drop_last());
    }
}


/// Value of a non-empty all-digit decimal byte string, when it fits a `u64`.
pub fn parse_dec_u64(s: &[u8]) -> (r: Option<u64>)
    ensures
        match r {
            Some(v) => s@.len() > 0 && (forall|j: int| 0 <= j < s@.len() ==> is_digit(#[trigger] s@[j]))
                && dec_value(s@) == v,
            None => s@.len() == 0 || !(forall|j: int| 0 <= j < s@.len() ==> is_digit(
                #[trigger] s@[j],
            )) || dec_value(s@) > u64::MAX,
        },
{
    if s.len() == 0 {
        return None;
    }
    let mut i: usize = 0;
    let mut acc: u128 = 0;
    proof {
        assert(dec_value(s@.take(0)) == 0) by {
            assert(s@.take(0) =~= Seq::<u8>::empty());
        }
    }
    while i < s.len()
        invariant
            0 <= i <= s@.len(),
            forall|j: int| 0 <= j < i ==> is_digit(#[trigger] s@[j]),
            acc == dec_value(s@.take(i as int)),
            acc <= 0xffff_ffff_ffff_ffff,
        decreases s@.len() - i,
    {
        let b = *vstd::slice::slice_index_get(s, i);
        if !(48 <= b && b <= 57) {
            return None;
        }
        proof {
            let t1 = s@.take(i + 1);
            assert(t1.drop_last() =~= s@.take(i as int));
            assert(t1.last() == s@[i as int]);
        }
        acc = acc * 10 + ((b - 48) as u128);
        i = i + 1;
        if acc > 0xffff_ffff_ffff_ffffu128 {
            proof {
                if forall|j: int| 0 <= j < s@.len() ==> is_digit(#[trigger] s@[j]) {
                    lemma_dec_value_monotone(s@, i as int, s@.len() as int);
                    assert(s@.take(s@.len() as int) =~= s@);
                }
            }
            return None;
        }
    }
    proof {
        assert(s@.take(s@.len() as int) =~= s@);
    }
    Some(acc as u64)
}


/// Decimal value of the longest digit prefix of `raw`, when it fits a `u8`
/// (the path-embedded counters are this small).
pub fn extract_integer_u8(raw: &[u8]) -> (r: Option<u8>)
    ensures
        ({
            let k = digit_prefix_len(raw@);
            match r {
                Some(v) => k > 0 && dec_value(raw@.take(k)) == v,
                None => k == 0 || dec_value(raw@.take(k)) > u8::MAX,
            }
        }),
{
    match extract_integer(raw) {
        Some(v) => if v <= 255 {
            Some(v as u8)
        } else {
            None
        },
        None => {
            proof {
                let k = digit_prefix_len(raw@);
                if k > 0 {
                    lemma_digit_prefix_len(raw@);
                    assert(forall|j: int|
                        0 <= j < raw@.take(k).len() ==> #[trigger] raw@.take(k)[j] == raw@[j]);
                    lemma_dec_value_nonneg(raw@.take(k));
                }
            }
            None
        },
    }
}

} // verus!
