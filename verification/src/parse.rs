//! Field decoders: the 128-bit request identifier and the log timestamp.

use vstd::prelude::*;

use crate::bytes::{all_hex_any, hex_val, hex_value, is_hex_char_any};

verus! {

/// A 128-bit identifier decoded from a UUID-shaped hex string.
#[derive(PartialEq, Eq, Structural, Clone, Copy, Debug, Hash)]
pub struct UUID(pub u128);

impl crate::order::KeyOrder for UUID {
    open spec fn le(self, other: Self) -> bool {
        self.0 <= other.0
    }

    proof fn reflexive(x: Self) {
    }

    proof fn transitive(x: Self, y: Self, z: Self) {
    }

    proof fn antisymmetric(x: Self, y: Self) {
    }

    proof fn total(x: Self, y: Self) {
    }

    fn compare(&self, other: &Self) -> (c: crate::order::Cmp) {
        if self.0 < other.0 {
            crate::order::Cmp::Less
        } else if self.0 == other.0 {
            crate::order::Cmp::Equal
        } else {
            crate::order::Cmp::Greater
        }
    }
}

/// The input with every dash removed.
pub open spec fn strip_dashes(s: Seq<u8>) -> Seq<u8> {
    s.filter(|b: u8| b != 45)
}

/// A well-formed identifier: exactly 32 hex digits (either case) once the
/// dashes are removed, and nothing but hex digits and dashes.
pub open spec fn uuid_valid(s: Seq<u8>) -> bool {
    all_hex_any(strip_dashes(s)) && strip_dashes(s).len() == 32
}

/// What `parse_uuid` decodes: the 32 hex digits, big-endian, dashes ignored.
pub open spec fn uuid_of(s: Seq<u8>) -> Option<u128> {
    if uuid_valid(s) {
        Some(hex_value(strip_dashes(s)) as u128)
    } else {
        None
    }
}

/// `pow2(4 * n)`: the number of values of `n` hex digits.
pub open spec fn pow16(n: int) -> int
    decreases n,
{
    if n <= 0 {
        1
    } else {
        16 * pow16(n - 1)
    }
}

/// `pow16` grows with its exponent.
proof fn lemma_pow16_monotone(a: int, b: int)
    requires
        0 <= a <= b,
    ensures
        pow16(a) <= pow16(b),
    decreases b,
{
    if a < b {
        lemma_pow16_monotone(a, b - 1);
        lemma_pow16_pos(b - 1);
    }
}

proof fn lemma_pow16_pos(n: int)
    ensures
        pow16(n) >= 1,
    decreases n,
{
    if n > 0 {
        lemma_pow16_pos(n - 1);
    }
}

/// A hex string's value is bounded by `16^len`.
proof fn lemma_hex_value_bound(s: Seq<u8>)
    requires
        all_hex_any(s),
    ensures
        0 <= hex_value(s) < pow16(s.len() as int),
    decreases s.len(),
{
    if s.len() > 0 {
        assert(forall|j: int|
            0 <= j < s.drop_last().len() ==> #[trigger] s.drop_last()[j] == s[j]);
        lemma_hex_value_bound(s.drop_last());
        assert(0 <= hex_val(s.last()) < 16);
    }
}

/// `16^32 == 2^128`: 32 hex digits exactly fill a `u128`.
proof fn lemma_pow16_32()
    ensures
        pow16(32) == 0x1_0000_0000_0000_0000_0000_0000_0000_0000,
{
    reveal_with_fuel(pow16, 33);
    assert(pow16(32) == 0x1_0000_0000_0000_0000_0000_0000_0000_0000);
}

/// Decodes a request identifier: exactly 32 hex digits, case-insensitive,
/// interspersed with any number of dashes in any position; any other byte,
/// or fewer or more digits, is an error.
pub fn parse_uuid(raw: &[u8]) -> (r: Option<UUID>)
    ensures
        match r {
            Some(u) => uuid_of(raw@) == Some(u.0),
            None => uuid_of(raw@) is None,
        },
{
    let ghost pred = |b: u8| b != 45;
    let mut acc: u128 = 0;
    let mut count: usize = 0;
    let mut i: usize = 0;
    proof {
        assert(raw@.take(0) =~= Seq::<u8>::empty());
        assert(strip_dashes(raw@.take(0)) =~= Seq::<u8>::empty()) by {
            Seq::<u8>::empty().lemma_all_neg_filter_empty(pred);
            assert(raw@.take(0) =~= Seq::<u8>::empty());
        }
        lemma_pow16_32();
    }
    while i < raw.len()
        invariant
            0 <= i <= raw@.len(),
            count == strip_dashes(raw@.take(i as int)).len(),
            count <= 32,
            all_hex_any(strip_dashes(raw@.take(i as int))),
            acc == hex_value(strip_dashes(raw@.take(i as int))),
            acc < pow16(count as int),
            pow16(32) == 0x1_0000_0000_0000_0000_0000_0000_0000_0000,
            pred == (|b: u8| b != 45),
        decreases raw@.len() - i,
    {
        let b = *vstd::slice::slice_index_get(raw, i);
        let ghost taken = raw@.take(i as int);
        let ghost stripped = strip_dashes(taken);
        proof {
            assert(raw@.take(i + 1) =~= taken + seq![b]);
            Seq::<u8>::filter_distributes_over_add(taken, seq![b], pred);
            if pred(b) {
                assert(seq![b].filter(pred) =~= seq![b]) by {
                    reveal_with_fuel(Seq::<u8>::filter, 2);
                    assert(seq![b].drop_last() =~= Seq::<u8>::empty());
                }
                assert(strip_dashes(raw@.take(i + 1)) =~= stripped.push(b));
            } else {
                assert(seq![b].filter(pred) =~= Seq::<u8>::empty()) by {
                    reveal_with_fuel(Seq::<u8>::filter, 2);
                    assert(seq![b].drop_last() =~= Seq::<u8>::empty());
                }
                assert(strip_dashes(raw@.take(i + 1)) =~= stripped);
            }
        }
        if b == 45 {
            // a dash: skipped wherever it stands
        } else {
            let d: u8 = if 48 <= b && b <= 57 {
                b - 48
            } else if 97 <= b && b <= 102 {
                b - 97 + 10
            } else if 65 <= b && b <= 70 {
                b - 65 + 10
            } else {
                proof {
                    lemma_strip_prefix_byte(raw@, i as int);
                    assert(!is_hex_char_any(b));
                }
                return None;
            };
            if count == 32 {
                // a 33rd digit: too many, whatever follows
                proof {
                    lemma_strip_prefix_len(raw@, i + 1);
                    assert(strip_dashes(raw@.take(i + 1)).len() == 33);
                }
                return None;
            }
            proof {
                let st1 = strip_dashes(raw@.take(i + 1));
                assert(st1 =~= stripped.push(b));
                assert(st1.drop_last() =~= stripped);
                assert(st1.last() == b);
                assert(is_hex_char_any(b));
                assert forall|j: int| 0 <= j < st1.len() implies is_hex_char_any(
                    #[trigger] st1[j],
                ) by {
                    if j < st1.len() - 1 {
                        assert(st1[j] == stripped[j]);
                    }
                }
                assert(hex_val(b) == d);
                assert(pow16(count + 1) == 16 * pow16(count as int));
                lemma_pow16_monotone(count + 1, 32);
                assert(16 * acc + d < pow16(count + 1));
            }
            acc = acc * 16 + (d as u128);
            count = count + 1;
        }
        i = i + 1;
    }
    proof {
        assert(raw@.take(raw@.len() as int) =~= raw@);
    }
    if count == 32 {
        Some(UUID(acc))
    } else {
        None
    }
}

/// A non-dash byte of the input survives into `strip_dashes`.
proof fn lemma_strip_prefix_byte(s: Seq<u8>, i: int)
    requires
        0 <= i < s.len(),
        s[i] != 45,
    ensures
        strip_dashes(s).contains(s[i]),
{
    let pred = |b: u8| b != 45;
    s.lemma_filter_contains(pred, i);
}

/// The stripped whole input is at least as long as any stripped prefix.
proof fn lemma_strip_prefix_len(s: Seq<u8>, i: int)
    requires
        0 <= i <= s.len(),
    ensures
        strip_dashes(s).len() >= strip_dashes(s.take(i)).len(),
{
    let pred = |b: u8| b != 45;
    assert(s =~= s.take(i) + s.skip(i));
    Seq::<u8>::filter_distributes_over_add(s.take(i), s.skip(i), pred);
}

/// Decode is blind to dash placement: two inputs whose non-dash bytes agree
/// decode identically, however the dashes are placed in each.
pub proof fn lemma_uuid_dash_insensitive(s: Seq<u8>, t: Seq<u8>)
    requires
        strip_dashes(s) == strip_dashes(t),
    ensures
        uuid_of(s) == uuid_of(t),
{
}

/// The canonical 32-digit lower-case hex spelling of a 128-bit value.
pub open spec fn uuid_digits(v: int, n: int) -> Seq<u8>
    decreases n,
{
    if n <= 0 {
        Seq::empty()
    } else {
        uuid_digits(v / 16, n - 1).push(hex_digit_of(v % 16))
    }
}

pub open spec fn hex_digit_of(d: int) -> u8 {
    if d < 10 {
        (48 + d) as u8
    } else {
        (97 + (d - 10)) as u8
    }
}

/// Every digit `uuid_digits` spells is a lower-case hex digit, and the
/// spelling evaluates back to the value.
proof fn lemma_uuid_digits(v: int, n: int)
    requires
        n >= 0,
        0 <= v < pow16(n),
    ensures
        uuid_digits(v, n).len() == n,
        all_hex_any(uuid_digits(v, n)),
        hex_value(uuid_digits(v, n)) == v,
    decreases n,
{
    if n > 0 {
        let q = v / 16;
        let r = v % 16;
        vstd::arithmetic::div_mod::lemma_fundamental_div_mod(v, 16);
        vstd::arithmetic::div_mod::lemma_mod_bound(v, 16);
        assert(0 <= q < pow16(n - 1)) by (nonlinear_arith)
            requires
                0 <= v < 16 * pow16(n - 1) && v == 16 * q + r && 0 <= r < 16,
        ;
        lemma_uuid_digits(q, n - 1);
        let ds = uuid_digits(v, n);
        assert(ds =~= uuid_digits(q, n - 1).push(hex_digit_of(r)));
        assert(ds.drop_last() =~= uuid_digits(q, n - 1));
        assert(is_hex_char_any(hex_digit_of(r)));
        assert(hex_val(hex_digit_of(r)) == r);
        assert forall|j: int| 0 <= j < ds.len() implies is_hex_char_any(#[trigger] ds[j]) by {
            if j < ds.len() - 1 {
                assert(ds[j] == uuid_digits(q, n - 1)[j]);
            }
        }
    }
}

/// Round trip: the canonical spelling of any 128-bit value decodes back to
/// that value, so decode is onto the full 128-bit space.
pub proof fn lemma_uuid_round_trip(v: u128)
    ensures
        uuid_of(uuid_digits(v as int, 32)) == Some(v),
{
    lemma_pow16_32();
    lemma_uuid_digits(v as int, 32);
    let ds = uuid_digits(v as int, 32);
    assert(strip_dashes(ds) =~= ds) by {
        lemma_filter_all(ds, |b: u8| b != 45);
        assert forall|j: int| 0 <= j < ds.len() implies (#[trigger] ds[j]) != 45 by {
            assert(is_hex_char_any(ds[j]));
        }
    }
}

/// A lower-case hex string is the canonical spelling of its own value: the
/// decode is injective on canonical spellings, so together with the round
/// trip it is a bijection between 32-digit lower-case spellings and values.
pub proof fn lemma_uuid_canonical_unique(s: Seq<u8>, v: u128)
    requires
        crate::bytes::all_hex(s),
        s.len() == 32,
        uuid_of(s) == Some(v),
    ensures
        s == uuid_digits(v as int, 32),
{
    assert(strip_dashes(s) =~= s) by {
        lemma_filter_all(s, |b: u8| b != 45);
        assert forall|j: int| 0 <= j < s.len() implies (#[trigger] s[j]) != 45 by {
            assert(crate::bytes::is_hex_char(s[j]));
        }
    }
    assert forall|j: int| 0 <= j < s.len() implies is_hex_char_any(#[trigger] s[j]) by {
        assert(crate::bytes::is_hex_char(s[j]));
    }
    lemma_hex_value_bound(s);
    lemma_pow16_32();
    assert(v as int == hex_value(s));
    lemma_uuid_digits_inverse(s);
}

/// Spelling the value of a lower-case hex string gives the string back.
proof fn lemma_uuid_digits_inverse(s: Seq<u8>)
    requires
        crate::bytes::all_hex(s),
    ensures
        uuid_digits(hex_value(s), s.len() as int) == s,
    decreases s.len(),
{
    if s.len() == 0 {
        assert(uuid_digits(0, 0) =~= s);
    } else {
        let t = s.drop_last();
        assert(forall|j: int| 0 <= j < t.len() ==> #[trigger] t[j] == s[j]);
        assert forall|j: int| 0 <= j < s.len() implies is_hex_char_any(#[trigger] s[j]) by {
            assert(crate::bytes::is_hex_char(s[j]));
        }
        assert(forall|j: int|
            0 <= j < t.len() ==> crate::bytes::is_hex_char(#[trigger] t[j]));
        lemma_uuid_digits_inverse(t);
        let v = hex_value(s);
        let d = hex_val(s.last());
        assert(v == hex_value(t) * 16 + d);
        assert(0 <= d < 16);
        assert(hex_value(t) >= 0) by {
            assert(forall|j: int| 0 <= j < t.len() ==> is_hex_char_any(#[trigger] t[j]));
            lemma_hex_value_bound(t);
        }
        assert(v / 16 == hex_value(t) && v % 16 == d) by (nonlinear_arith)
            requires
                v == hex_value(t) * 16 + d && 0 <= d < 16 && hex_value(t) >= 0,
        ;
        assert(uuid_digits(v, s.len() as int) == uuid_digits(hex_value(t), s.len() - 1).push(
            hex_digit_of(d),
        ));
        assert(hex_digit_of(d) == s.last()) by {
            assert(crate::bytes::is_hex_char(s.last()));
        }
        assert(uuid_digits(v, s.len() as int) =~= s);
    }
}

/// Filtering by a predicate every element satisfies changes nothing.
proof fn lemma_filter_all<A>(s: Seq<A>, pred: spec_fn(A) -> bool)
    requires
        forall|j: int| 0 <= j < s.len() ==> pred(#[trigger] s[j]),
    ensures
        s.filter(pred) == s,
    decreases s.len(),
{
    reveal(Seq::filter);
    if s.len() > 0 {
        assert(forall|j: int|
            0 <= j < s.drop_last().len() ==> #[trigger] s.drop_last()[j] == s[j]);
        lemma_filter_all(s.drop_last(), pred);
        assert(s.filter(pred) =~= s.drop_last().filter(pred).push(s.last()));
        assert(s.filter(pred) =~= s);
    }
}

/// The instant a timestamp field denotes, as seconds since the Unix epoch,
/// or nothing when the field is not a well-formed timestamp.
pub uninterp spec fn parsed_timestamp(s: Seq<u8>) -> Option<i64>;

/// Bound on every timestamp chrono can represent (its documented range ends
/// around the year 262143, about 8.2e12 seconds from the epoch).
pub const MAX_TIMESTAMP: i64 = 10_000_000_000_000;

/// Parses `M/D/YYYY h:mm:ss AM|PM` (no zero padding required) into seconds
/// since the Unix epoch, UTC.
///
/// Relies on chrono's `NaiveDateTime::parse_from_str` with the fixed format
/// `%-m/%-d/%Y %-I:%M:%S %p`, and on `DateTime::timestamp`: the result
/// depends on the input bytes alone, and every representable chrono datetime
/// has a timestamp within `MAX_TIMESTAMP` (chrono documents the representable
/// years as about -262144 to 262142).
#[verifier::external_body]
pub fn parse_timestamp(raw: &[u8]) -> (r: Option<i64>)
    ensures
        r == parsed_timestamp(raw@),
        match r {
            Some(t) => -MAX_TIMESTAMP <= t <= MAX_TIMESTAMP,
            None => true,
        },
{
    let text = match core::str::from_utf8(raw) {
        Ok(t) => t,
        Err(_) => return None,
    };
    match chrono::NaiveDateTime::parse_from_str(text, "%-m/%-d/%Y %-I:%M:%S %p") {
        Ok(dt) => Some(dt.and_utc().timestamp()),
        Err(_) => None,
    }
}

} // verus!
