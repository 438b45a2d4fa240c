//! Small log utilities: date extraction, per-date counters, the registration
//! funnel, and the bad-version line filter.

use vstd::prelude::*;
use vstd::string::StringSliceAdditionalSpecFns;

use crate::bytes::{is_digit, matches_at, parse_dec_u64};
use crate::lex::first_byte_from;
use crate::order::{Cmp, KeyOrder};
use crate::ordmap::{map_get, spec_map_set, OrdMap};

verus! {

/// Lexicographic order on equal-length byte strings.
pub open spec fn lex_le(a: Seq<u8>, b: Seq<u8>) -> bool
    decreases a.len(),
{
    if a.len() == 0 {
        true
    } else if b.len() == 0 {
        false
    } else if a[0] != b[0] {
        a[0] < b[0]
    } else {
        lex_le(a.drop_first(), b.drop_first())
    }
}

proof fn lemma_lex_refl(a: Seq<u8>)
    ensures
        lex_le(a, a),
    decreases a.len(),
{
    if a.len() > 0 {
        lemma_lex_refl(a.drop_first());
    }
}

proof fn lemma_lex_total(a: Seq<u8>, b: Seq<u8>)
    requires
        a.len() == b.len(),
    ensures
        lex_le(a, b) || lex_le(b, a),
    decreases a.len(),
{
    if a.len() > 0 && a[0] == b[0] {
        lemma_lex_total(a.drop_first(), b.drop_first());
    }
}

proof fn lemma_lex_antisym(a: Seq<u8>, b: Seq<u8>)
    requires
        a.len() == b.len(),
        lex_le(a, b),
        lex_le(b, a),
    ensures
        a =~= b,
    decreases a.len(),
{
    if a.len() > 0 {
        lemma_lex_antisym(a.drop_first(), b.drop_first());
        assert(a =~= seq![a[0]] + a.drop_first());
        assert(b =~= seq![b[0]] + b.drop_first());
    }
}

proof fn lemma_lex_trans(a: Seq<u8>, b: Seq<u8>, c: Seq<u8>)
    requires
        a.len() == b.len() == c.len(),
        lex_le(a, b),
        lex_le(b, c),
    ensures
        lex_le(a, c),
    decreases a.len(),
{
    if a.len() > 0 && a[0] == b[0] && b[0] == c[0] {
        lemma_lex_trans(a.drop_first(), b.drop_first(), c.drop_first());
    }
}

/// First position where the strings differ, up to `i` checked equal.
proof fn lemma_lex_at(a: Seq<u8>, b: Seq<u8>, i: int)
    requires
        a.len() == b.len(),
        0 <= i <= a.len(),
        forall|j: int| 0 <= j < i ==> a[j] == b[j],
    ensures
        i == a.len() ==> (lex_le(a, b) && lex_le(b, a)),
        i < a.len() && a[i] < b[i] ==> (lex_le(a, b) && !lex_le(b, a)),
        i < a.len() && a[i] > b[i] ==> (!lex_le(a, b) && lex_le(b, a)),
    decreases i,
{
    if i == 0 {
        if a.len() == 0 {
        } else if a[0] != b[0] {
        } else {
            lemma_lex_refl(a);
            lemma_lex_total(a, b);
        }
    } else {
        assert(a[0] == b[0]);
        let ta = a.drop_first();
        let tb = b.drop_first();
        assert(forall|j: int| 0 <= j < ta.len() ==> #[trigger] ta[j] == a[j + 1]);
        assert(forall|j: int| 0 <= j < tb.len() ==> #[trigger] tb[j] == b[j + 1]);
        assert forall|j: int| 0 <= j < i - 1 implies ta[j] == tb[j] by {
            assert(a[j + 1] == b[j + 1]);
        }
        lemma_lex_at(ta, tb, i - 1);
        if i < a.len() {
            assert(ta[i - 1] == a[i as int]);
            assert(tb[i - 1] == b[i as int]);
        }
    }
}

/// Lexicographic three-way comparison of equal-length byte arrays.
fn compare_bytes<const N: usize>(a: &[u8; N], b: &[u8; N]) -> (c: Cmp)
    ensures
        match c {
            Cmp::Less => lex_le(a@, b@) && *a != *b,
            Cmp::Equal => *a == *b,
            Cmp::Greater => lex_le(b@, a@) && *a != *b,
        },
{
    proof {
        broadcast use vstd::array::group_array_axioms;

    }
    let mut i: usize = 0;
    while i < N
        invariant
            0 <= i <= N,
            a@.len() == N && b@.len() == N,
            forall|j: int| 0 <= j < i ==> a@[j] == b@[j],
        decreases N - i,
    {
        let x = a[i];
        let y = b[i];
        if x < y {
            proof {
                lemma_lex_at(a@, b@, i as int);
                if *a == *b {
                    assert(a@[i as int] == b@[i as int]);
                }
            }
            return Cmp::Less;
        }
        if x > y {
            proof {
                lemma_lex_at(a@, b@, i as int);
                if *a == *b {
                    assert(a@[i as int] == b@[i as int]);
                }
            }
            return Cmp::Greater;
        }
        i = i + 1;
    }
    proof {
        assert(a@ =~= b@);
        broadcast use vstd::array::group_array_axioms;

        assert(*a == *b);
    }
    Cmp::Equal
}

impl<const N: usize> KeyOrder for [u8; N] {
    open spec fn le(self, other: Self) -> bool {
        lex_le(self@, other@)
    }

    proof fn reflexive(x: Self) {
        lemma_lex_refl(x@);
    }

    proof fn transitive(x: Self, y: Self, z: Self) {
        broadcast use vstd::array::group_array_axioms;

        lemma_lex_trans(x@, y@, z@);
    }

    proof fn antisymmetric(x: Self, y: Self) {
        broadcast use vstd::array::group_array_axioms;

        lemma_lex_antisym(x@, y@);
    }

    proof fn total(x: Self, y: Self) {
        broadcast use vstd::array::group_array_axioms;

        lemma_lex_total(x@, y@);
    }

    fn compare(&self, other: &Self) -> (c: Cmp) {
        compare_bytes(self, other)
    }
}

/// A calendar date as its ten canonical bytes, `YYYY-MM-DD`.
#[derive(Eq, PartialEq, Debug, Clone, Copy, Hash)]
pub struct DateString(pub [u8; 10]);

impl KeyOrder for DateString {
    open spec fn le(self, other: Self) -> bool {
        lex_le(self.0@, other.0@)
    }

    proof fn reflexive(x: Self) {
        lemma_lex_refl(x.0@);
    }

    proof fn transitive(x: Self, y: Self, z: Self) {
        broadcast use vstd::array::group_array_axioms;

        lemma_lex_trans(x.0@, y.0@, z.0@);
    }

    proof fn antisymmetric(x: Self, y: Self) {
        broadcast use vstd::array::group_array_axioms;

        lemma_lex_antisym(x.0@, y.0@);
        assert(x.0@ =~= y.0@);
        assert(x.0 == y.0);
    }

    proof fn total(x: Self, y: Self) {
        broadcast use vstd::array::group_array_axioms;

        lemma_lex_total(x.0@, y.0@);
    }

    fn compare(&self, other: &Self) -> (c: Cmp) {
        compare_bytes(&self.0, &other.0)
    }
}

/// The message field of a line: everything after the first `]` and its
/// two-byte separator; nothing when the `]` is absent or the line too short.
pub open spec fn msg_spec(s: Seq<u8>) -> Option<Seq<u8>> {
    let rb = first_byte_from(s, 0, 93);
    if rb == s.len() || rb + 2 > s.len() {
        None
    } else {
        Some(s.skip(rb + 2))
    }
}

pub fn get_message<'a>(line: &'a [u8]) -> (r: Option<&'a [u8]>)
    ensures
        match r {
            Some(m) => msg_spec(line@) == Some(m@),
            None => msg_spec(line@) is None,
        },
{
    proof {
        crate::lex::lemma_first_byte_from(line@, 0, 93);
    }
    let rb = match crate::bytes::find_byte(line, 0, 93) {
        Some(i) => i,
        None => {
            proof {
                lemma_found_byte_is(line@, 0, 93, line@.len() as int);
            }
            return None;
        },
    };
    proof {
        lemma_found_byte_is(line@, 0, 93, rb as int);
    }
    if line.len() - rb < 2 {
        return None;
    }
    Some(vstd::slice::slice_subrange(line, rb + 2, line.len()))
}

/// An index with the first-byte properties is `first_byte_from`.
proof fn lemma_found_byte_is(s: Seq<u8>, from: int, b: u8, found: int)
    requires
        0 <= from <= s.len(),
        from <= found <= s.len(),
        found < s.len() ==> s[found] == b,
        forall|j: int| from <= j < found ==> s[j] != b,
    ensures
        first_byte_from(s, from, b) == found,
{
    crate::lex::lemma_first_byte_from(s, from, b);
    let f = first_byte_from(s, from, b);
    if f < found {
        assert(s[f] != b);
    }
    if found < f {
        assert(s[found] != b);
    }
}

/// How a counter bucket changes: a fresh date starts at one; an existing
/// count goes up by one, stopping at the top of `usize`.
pub open spec fn bumped(old: Option<usize>) -> usize {
    match old {
        None => 1usize,
        Some(c) => if c < usize::MAX {
            (c + 1) as usize
        } else {
            c
        },
    }
}

/// Adds one to the date's counter, starting at one.
pub fn increment(map: &mut OrdMap<DateString, usize>, k: &DateString)
    requires
        old(map).wf(),
    ensures
        final(map).wf(),
        final(map).entries@ == spec_map_set(
            old(map).entries@,
            *k,
            bumped(map_get(old(map).entries@, *k)),
        ),
{
    let next = match map.get(k) {
        Some(c) => {
            let c = *c;
            if c < usize::MAX {
                c + 1
            } else {
                c
            }
        },
        None => 1,
    };
    map.set(*k, next);
}

/// Adds one to the date's registration counter, starting at one.
pub fn increment_registration_count(map: &mut OrdMap<[u8; 10], usize>, k: &[u8; 10])
    requires
        old(map).wf(),
    ensures
        final(map).wf(),
        final(map).entries@ == spec_map_set(
            old(map).entries@,
            *k,
            bumped(map_get(old(map).entries@, *k)),
        ),
{
    let next = match map.get(k) {
        Some(c) => {
            let c = *c;
            if c < usize::MAX {
                c + 1
            } else {
                c
            }
        },
        None => 1,
    };
    map.set(*k, next);
}

/// Where the date's pieces sit in a line `... [LVL - M/D/YYYY ...`: the
/// first `[`, the slash after the month, and the slash after the day.
pub open spec fn date_positions(s: Seq<u8>) -> (int, int, int) {
    let lb = first_byte_from(s, 0, 91);
    let fs = first_byte_from(s, lb, 47);
    let abs2 = first_byte_from(s, fs + 1, 47);
    (lb, fs, abs2)
}

/// The date of a log line, rearranged to sortable `YYYY-MM-DD` bytes with
/// the month and day zero-padded; nothing when the line has no date shape.
pub open spec fn date_spec(s: Seq<u8>) -> Option<Seq<u8>> {
    let (lb, fs, abs2) = date_positions(s);
    if lb == s.len() || fs == s.len() || abs2 == s.len() || fs < 2 || abs2 + 5 > s.len() || (abs2
        != fs + 2 && abs2 != fs + 3) {
        None
    } else {
        let m0 = if is_digit(s[fs - 2]) {
            s[fs - 2]
        } else {
            48u8
        };
        let m1 = s[fs - 1];
        let d0 = if abs2 == fs + 2 {
            48u8
        } else {
            s[fs + 1]
        };
        let d1 = if abs2 == fs + 2 {
            s[fs + 1]
        } else {
            s[fs + 2]
        };
        Some(
            s.subrange(abs2 + 1, abs2 + 5) + seq![45u8, m0, m1, 45u8, d0, d1],
        )
    }
}

/// Extracts a log line's date as zero-padded, sortable `YYYY-MM-DD` bytes.
pub fn extract_date(line: &[u8]) -> (r: Option<[u8; 10]>)
    ensures
        match r {
            Some(d) => date_spec(line@) == Some(d@),
            None => date_spec(line@) is None,
        },
{
    let n = line.len();
    proof {
        broadcast use vstd::array::group_array_axioms;

        crate::lex::lemma_first_byte_from(line@, 0, 91);
    }
    let lb = match crate::bytes::find_byte(line, 0, 91) {
        Some(i) => i,
        None => {
            proof {
                lemma_found_byte_is(line@, 0, 91, line@.len() as int);
            }
            return None;
        },
    };
    proof {
        lemma_found_byte_is(line@, 0, 91, lb as int);
        crate::lex::lemma_first_byte_from(line@, lb as int, 47);
    }
    let fs = match crate::bytes::find_byte(line, lb, 47) {
        Some(i) => i,
        None => {
            proof {
                lemma_found_byte_is(line@, lb as int, 47, line@.len() as int);
            }
            return None;
        },
    };
    proof {
        lemma_found_byte_is(line@, lb as int, 47, fs as int);
        crate::lex::lemma_first_byte_from(line@, fs + 1, 47);
    }
    let abs2 = match crate::bytes::find_byte(line, fs + 1, 47) {
        Some(i) => i,
        None => {
            proof {
                lemma_found_byte_is(line@, fs + 1, 47, line@.len() as int);
            }
            return None;
        },
    };
    proof {
        lemma_found_byte_is(line@, fs + 1, 47, abs2 as int);
    }
    if fs < 2 || n - abs2 < 5 || !(abs2 == fs + 2 || abs2 == fs + 3) {
        return None;
    }
    let mut buffer: [u8; 10] = [45u8; 10];
    buffer[0] = *vstd::slice::slice_index_get(line, abs2 + 1);
    buffer[1] = *vstd::slice::slice_index_get(line, abs2 + 2);
    buffer[2] = *vstd::slice::slice_index_get(line, abs2 + 3);
    buffer[3] = *vstd::slice::slice_index_get(line, abs2 + 4);
    buffer[5] = crate::bytes::number_or_zero(*vstd::slice::slice_index_get(line, fs - 2));
    buffer[6] = *vstd::slice::slice_index_get(line, fs - 1);
    if abs2 == fs + 2 {
        buffer[8] = 48;
        buffer[9] = *vstd::slice::slice_index_get(line, fs + 1);
    } else {
        buffer[8] = *vstd::slice::slice_index_get(line, fs + 1);
        buffer[9] = *vstd::slice::slice_index_get(line, fs + 2);
    }
    proof {
        let expect = date_spec(line@)->Some_0;
        assert(buffer@ =~= expect);
    }
    Some(buffer)
}

/// A command-line date argument: exactly ten bytes, taken as they are.
pub fn parse_date_arg(date: &str) -> (r: Option<[u8; 10]>)
    ensures
        match r {
            Some(d) => date.spec_bytes().len() == 10 && d@ == date.spec_bytes(),
            None => date.spec_bytes().len() != 10,
        },
{
    let bytes = date.as_bytes();
    if bytes.len() != 10 {
        return None;
    }
    let mut buf: [u8; 10] = [0u8; 10];
    let mut i: usize = 0;
    while i < 10
        invariant
            0 <= i <= 10,
            bytes@.len() == 10,
            bytes@ == date.spec_bytes(),
            buf@.len() == 10,
            forall|j: int| 0 <= j < i ==> buf@[j] == bytes@[j],
        decreases 10 - i,
    {
        buf[i] = *vstd::slice::slice_index_get(bytes, i);
        i = i + 1;
    }
    proof {
        assert(buf@ =~= date.spec_bytes());
    }
    Some(buf)
}

/// The 32 hex-position bytes of a 36-byte UUID-shaped identifier: the group
/// boundaries at offsets 8, 13, 18 and 23 are skipped without validation.
pub open spec fn reqid_shift(i: int) -> int {
    if i < 8 {
        0int
    } else if i < 12 {
        1int
    } else if i < 16 {
        2int
    } else if i < 20 {
        3int
    } else {
        4int
    }
}

/// The request id bytes of a line, when the text between the first `(` and
/// the following `)` is exactly 36 bytes long.
pub open spec fn reqid_spec(s: Seq<u8>) -> Option<Seq<u8>> {
    let lp = first_byte_from(s, 0, 40);
    let rp = first_byte_from(s, lp + 1, 41);
    if lp == s.len() || rp == s.len() || rp - (lp + 1) != 36 {
        None
    } else {
        Some(Seq::new(32, |i: int| s[lp + 1 + i + reqid_shift(i)]))
    }
}

/// Extracts the 32 identifier bytes between the first `(` and `)` of a line,
/// dropping the four dashes of the canonical UUID spelling by position.
pub fn extract_request_id(line: &[u8]) -> (r: Option<[u8; 32]>)
    ensures
        match r {
            Some(id) => reqid_spec(line@) == Some(id@),
            None => reqid_spec(line@) is None,
        },
{
    let line_len = line.len();
    proof {
        assert(line_len == line@.len());
        broadcast use vstd::array::group_array_axioms;

        crate::lex::lemma_first_byte_from(line@, 0, 40);
    }
    let lp = match crate::bytes::find_byte(line, 0, 40) {
        Some(i) => i,
        None => {
            proof {
                lemma_found_byte_is(line@, 0, 40, line@.len() as int);
            }
            return None;
        },
    };
    proof {
        lemma_found_byte_is(line@, 0, 40, lp as int);
        crate::lex::lemma_first_byte_from(line@, lp + 1, 41);
    }
    let rp = match crate::bytes::find_byte(line, lp + 1, 41) {
        Some(i) => i,
        None => {
            proof {
                lemma_found_byte_is(line@, lp + 1, 41, line@.len() as int);
            }
            return None;
        },
    };
    proof {
        lemma_found_byte_is(line@, lp + 1, 41, rp as int);
    }
    let start = lp + 1;
    if rp - start != 36 {
        return None;
    }
    let mut buffer: [u8; 32] = [33u8; 32];
    let mut i: usize = 0;
    while i < 32
        invariant
            0 <= i <= 32,
            buffer@.len() == 32,
            start + 36 <= line@.len(),
            line@.len() <= usize::MAX,
            forall|j: int| 0 <= j < i ==> buffer@[j] == line@[start + j + reqid_shift(j)],
        decreases 32 - i,
    {
        let off: usize = if i < 8 {
            0
        } else if i < 12 {
            1
        } else if i < 16 {
            2
        } else if i < 20 {
            3
        } else {
            4
        };
        buffer[i] = *vstd::slice::slice_index_get(line, start + i + off);
        i = i + 1;
    }
    proof {
        assert(buffer@ =~= Seq::new(32, |i: int| line@[lp + 1 + i + reqid_shift(i)]));
    }
    Some(buffer)
}

/// Whether the line's message starts the completion of a registration.
pub fn is_start_of_registration_request(line: &[u8]) -> (r: bool)
    ensures
        r == match msg_spec(line@) {
            Some(m) => "Started: POST /api/account/register/complete/".spec_bytes().is_prefix_of(
                m,
            ),
            None => false,
        },
{
    match get_message(line) {
        Some(msg) => crate::bytes::starts_with(
            msg,
            "Started: POST /api/account/register/complete/".as_bytes(),
        ),
        None => false,
    }
}

/// The status code of a `Finished: <code> ...` message: the digits between
/// the marker and the next space, when they are digits and fit.
pub open spec fn status_spec(s: Seq<u8>) -> Option<u64> {
    match msg_spec(s) {
        Some(m) => if "Finished: ".spec_bytes().is_prefix_of(m) {
            let mk = "Finished: ".spec_bytes().len() as int;
            let sp = first_byte_from(m, mk, 32);
            if sp == m.len() {
                None
            } else {
                let digits = m.subrange(mk, sp);
                if digits.len() > 0 && (forall|j: int|
                    0 <= j < digits.len() ==> is_digit(#[trigger] digits[j])) && crate::bytes::dec_value(
                    digits,
                ) <= u64::MAX {
                    Some(crate::bytes::dec_value(digits) as u64)
                } else {
                    None
                }
            }
        } else {
            None
        },
        None => None,
    }
}

/// Reads the status code of a `Finished:` message, if the line is one.
pub fn maybe_get_request_status(line: &[u8]) -> (r: Option<u64>)
    ensures
        r == status_spec(line@),
{
    let msg = match get_message(line) {
        Some(m) => m,
        None => {
            return None;
        },
    };
    let marker = "Finished: ".as_bytes();
    if !crate::bytes::starts_with(msg, marker) {
        return None;
    }
    let mk = marker.len();
    proof {
        crate::lex::lemma_first_byte_from(msg@, mk as int, 32);
    }
    let sp = match crate::bytes::find_byte(msg, mk, 32) {
        Some(i) => i,
        None => {
            proof {
                lemma_found_byte_is(msg@, mk as int, 32, msg@.len() as int);
            }
            return None;
        },
    };
    proof {
        lemma_found_byte_is(msg@, mk as int, 32, sp as int);
    }
    let digits = vstd::slice::slice_subrange(msg, mk, sp);
    parse_dec_u64(digits)
}

/// Whether the line reports the bad protocol version.
pub fn is_bad_version_message(line: &[u8]) -> (r: bool)
    ensures
        r == exists|j: int|
            matches_at(line@, "Bad version 0, expected 1.".spec_bytes(), j),
{
    let found = crate::bytes::find_subslice(line, "Bad version 0, expected 1.".as_bytes());
    proof {
        match found {
            Some(i) => {
                assert(matches_at(line@, "Bad version 0, expected 1.".spec_bytes(), i as int));
            },
            None => {},
        }
    }
    found.is_some()
}


/// Big-endian value of a byte string (used to pack identifiers).
pub open spec fn pack16(s: Seq<u8>) -> int
    decreases s.len(),
{
    if s.len() == 0 {
        0
    } else {
        pack16(s.drop_last()) * 256 + s.last()
    }
}

pub open spec fn pow256(n: int) -> int
    decreases n,
{
    if n <= 0 {
        1
    } else {
        256 * pow256(n - 1)
    }
}

proof fn lemma_pack16_bound(s: Seq<u8>)
    ensures
        0 <= pack16(s) < pow256(s.len() as int),
    decreases s.len(),
{
    if s.len() > 0 {
        lemma_pack16_bound(s.drop_last());
    }
}

/// The request identifier of a line, packed into a pair of 128-bit halves.
pub open spec fn reqid_packed(line: Seq<u8>) -> Option<(u128, u128)> {
    match reqid_spec(line) {
        Some(id) => Some((pack16(id.take(16)) as u128, pack16(id.skip(16)) as u128)),
        None => None,
    }
}

/// Packs 16 bytes of an identifier, starting at `from`.
fn pack_half(id: &[u8; 32], from: usize) -> (r: u128)
    requires
        from == 0 || from == 16,
    ensures
        r == pack16(id@.subrange(from as int, from + 16)),
{
    proof {
        broadcast use vstd::array::group_array_axioms;

        reveal_with_fuel(pow256, 17);
        assert(pack16(id@.subrange(from as int, from as int)) == 0) by {
            assert(id@.subrange(from as int, from as int) =~= Seq::<u8>::empty());
        }
    }
    let mut acc: u128 = 0;
    let mut i: usize = 0;
    while i < 16
        invariant
            0 <= i <= 16,
            from == 0 || from == 16,
            id@.len() == 32,
            acc == pack16(id@.subrange(from as int, from + i)),
            acc < pow256(i as int),
            pow256(16) == 0x1_0000_0000_0000_0000_0000_0000_0000_0000,
        decreases 16 - i,
    {
        let b = id[from + i];
        proof {
            let t1 = id@.subrange(from as int, from + i + 1);
            assert(t1.drop_last() =~= id@.subrange(from as int, from + i));
            assert(t1.last() == id@[from + i]);
            assert(pow256(i + 1) == 256 * pow256(i as int));
            lemma_pow256_monotone(i + 1, 16);
        }
        acc = acc * 256 + (b as u128);
        i = i + 1;
    }
    acc
}

proof fn lemma_pow256_monotone(a: int, b: int)
    requires
        0 <= a <= b,
    ensures
        pow256(a) <= pow256(b),
    decreases b,
{
    if a < b {
        lemma_pow256_monotone(a, b - 1);
        lemma_pow256_pos(b - 1);
    }
}

proof fn lemma_pow256_pos(n: int)
    ensures
        pow256(n) >= 1,
    decreases n,
{
    if n > 0 {
        lemma_pow256_pos(n - 1);
    }
}

/// Whether a line reports the bad protocol version.
pub open spec fn is_bad_spec(line: Seq<u8>) -> bool {
    exists|j: int| matches_at(line, "Bad version 0, expected 1.".spec_bytes(), j)
}

/// The bad-id set after seeing one line.
pub open spec fn bad_after(
    bad: Seq<((u128, u128), ())>,
    line: Seq<u8>,
) -> Seq<((u128, u128), ())> {
    if is_bad_spec(line) {
        match reqid_packed(line) {
            Some(id) => spec_map_set(bad, id, ()),
            None => bad,
        }
    } else {
        bad
    }
}

/// Whether a popped line gets printed: a line without an identifier always;
/// one with an identifier when the request already printed something or was
/// never marked bad.
pub open spec fn print_decision(
    printed: Seq<((u128, u128), ())>,
    bad: Seq<((u128, u128), ())>,
    line: Seq<u8>,
) -> bool {
    match reqid_packed(line) {
        Some(id) => map_get(printed, id) is Some || !(map_get(bad, id) is Some),
        None => true,
    }
}

/// The printed-id set after deciding one line.
pub open spec fn printed_after(
    printed: Seq<((u128, u128), ())>,
    bad: Seq<((u128, u128), ())>,
    line: Seq<u8>,
) -> Seq<((u128, u128), ())> {
    if print_decision(printed, bad, line) {
        match reqid_packed(line) {
            Some(id) => spec_map_set(printed, id, ()),
            None => printed,
        }
    } else {
        printed
    }
}

/// The lines a flush prints, front first, threading the printed set through.
pub open spec fn flush_out(
    printed: Seq<((u128, u128), ())>,
    bad: Seq<((u128, u128), ())>,
    lines: Seq<Seq<u8>>,
) -> Seq<Seq<u8>>
    decreases lines.len(),
{
    if lines.len() == 0 {
        Seq::empty()
    } else {
        (if print_decision(printed, bad, lines[0]) {
            seq![lines[0]]
        } else {
            Seq::empty()
        }) + flush_out(printed_after(printed, bad, lines[0]), bad, lines.drop_first())
    }
}

/// The queued lines, read as byte strings.
pub open spec fn lines_view(q: Seq<Vec<u8>>) -> Seq<Seq<u8>> {
    q.map_values(|l: Vec<u8>| l@)
}

/// Holds back a sliding window of lines and drops every line of a request
/// that reported the bad protocol version, unless an earlier line of the
/// same request already went out.
pub struct Filter {
    /// Requests that already printed a line, so their rest prints too.
    pub printed_request_ids: OrdMap<(u128, u128), ()>,
    /// Requests seen reporting the bad version, whose lines stay back.
    pub bad_version_request_ids: OrdMap<(u128, u128), ()>,
    /// The lines waiting for their request's verdict, oldest first.
    pub queue: Vec<Vec<u8>>,
    /// How many lines wait before the oldest is decided.
    pub capacity: usize,
}

impl Filter {
    pub open spec fn wf(self) -> bool {
        self.printed_request_ids.wf() && self.bad_version_request_ids.wf() && self.capacity >= 1
            && self.queue@.len() <= self.capacity
    }

    pub fn with_capacity(capacity: usize) -> (r: Filter)
        requires
            capacity >= 1,
        ensures
            r.wf(),
            r.capacity == capacity,
            r.printed_request_ids.entries@ =~= Seq::<((u128, u128), ())>::empty(),
            r.bad_version_request_ids.entries@ =~= Seq::<((u128, u128), ())>::empty(),
            r.queue@ =~= Seq::<Vec<u8>>::empty(),
    {
        Filter {
            printed_request_ids: OrdMap::new(),
            bad_version_request_ids: OrdMap::new(),
            queue: Vec::new(),
            capacity,
        }
    }

    /// Queues a line; once the window is full, hands back the oldest queued
    /// line for a decision. A bad-version line marks its request first.
    pub fn enqueue(&mut self, line: &[u8]) -> (r: Option<Vec<u8>>)
        requires
            old(self).wf(),
        ensures
            final(self).wf(),
            final(self).capacity == old(self).capacity,
            final(self).printed_request_ids == old(self).printed_request_ids,
            final(self).bad_version_request_ids.entries@ == bad_after(
                old(self).bad_version_request_ids.entries@,
                line@,
            ),
            old(self).queue@.len() == old(self).capacity ==> match r {
                Some(front) => front@ == old(self).queue@[0]@ && lines_view(final(self).queue@)
                    == lines_view(old(self).queue@).drop_first().push(line@),
                None => false,
            },
            old(self).queue@.len() < old(self).capacity ==> r is None && lines_view(
                final(self).queue@,
            ) == lines_view(old(self).queue@).push(line@),
    {
        if is_bad_version_message(line) {
            match extract_request_id(line) {
                Some(id) => {
                    let key = (pack_half(&id, 0), pack_half(&id, 16));
                    proof {
                        let ids = reqid_spec(line@)->Some_0;
                        assert(id@.subrange(0, 16) =~= ids.take(16));
                        assert(id@.subrange(16, 32) =~= ids.skip(16));
                        lemma_pack16_bound(ids.take(16));
                        lemma_pack16_bound(ids.skip(16));
                        reveal_with_fuel(pow256, 17);
                    }
                    self.bad_version_request_ids.set(key, ());
                },
                None => {},
            }
        }
        let owned = copy_bytes(line);
        if self.queue.len() == self.capacity {
            let front = self.queue.remove(0);
            self.queue.push(owned);
            proof {
                assert(lines_view(self.queue@) =~= lines_view(
                    old(self).queue@,
                ).drop_first().push(line@));
            }
            Some(front)
        } else {
            self.queue.push(owned);
            proof {
                assert(lines_view(self.queue@) =~= lines_view(old(self).queue@).push(line@));
            }
            None
        }
    }

    /// Decides one line: returns whether it should go out, and remembers the
    /// request once it has printed anything.
    pub fn maybe_print(&mut self, line: &[u8]) -> (r: bool)
        requires
            old(self).wf(),
        ensures
            final(self).wf(),
            final(self).capacity == old(self).capacity,
            final(self).queue == old(self).queue,
            final(self).bad_version_request_ids == old(self).bad_version_request_ids,
            r == print_decision(
                old(self).printed_request_ids.entries@,
                old(self).bad_version_request_ids.entries@,
                line@,
            ),
            final(self).printed_request_ids.entries@ == printed_after(
                old(self).printed_request_ids.entries@,
                old(self).bad_version_request_ids.entries@,
                line@,
            ),
    {
        match extract_request_id(line) {
            Some(id) => {
                let key = (pack_half(&id, 0), pack_half(&id, 16));
                proof {
                    let ids = reqid_spec(line@)->Some_0;
                    assert(id@.subrange(0, 16) =~= ids.take(16));
                    assert(id@.subrange(16, 32) =~= ids.skip(16));
                    lemma_pack16_bound(ids.take(16));
                    lemma_pack16_bound(ids.skip(16));
                    reveal_with_fuel(pow256, 17);
                }
                let already = self.printed_request_ids.get(&key).is_some();
                let bad = self.bad_version_request_ids.get(&key).is_some();
                if already || !bad {
                    self.printed_request_ids.set(key, ());
                    true
                } else {
                    false
                }
            },
            None => true,
        }
    }

    /// Decides every queued line, oldest first, and returns the ones that
    /// should go out; the queue ends empty.
    pub fn flush(&mut self) -> (r: Vec<Vec<u8>>)
        requires
            old(self).wf(),
        ensures
            final(self).wf(),
            final(self).queue@.len() == 0,
            final(self).bad_version_request_ids == old(self).bad_version_request_ids,
            lines_view(r@) == flush_out(
                old(self).printed_request_ids.entries@,
                old(self).bad_version_request_ids.entries@,
                lines_view(old(self).queue@),
            ),
    {
        let mut out: Vec<Vec<u8>> = Vec::new();
        proof {
            assert(lines_view(out@) =~= Seq::<Seq<u8>>::empty());
        }
        while self.queue.len() > 0
            invariant
                self.wf(),
                self.capacity == old(self).capacity,
                self.bad_version_request_ids == old(self).bad_version_request_ids,
                flush_out(
                    old(self).printed_request_ids.entries@,
                    old(self).bad_version_request_ids.entries@,
                    lines_view(old(self).queue@),
                ) == lines_view(out@) + flush_out(
                    self.printed_request_ids.entries@,
                    self.bad_version_request_ids.entries@,
                    lines_view(self.queue@),
                ),
            decreases self.queue@.len(),
        {
            let ghost qv = lines_view(self.queue@);
            let front = self.queue.remove(0);
            proof {
                assert(qv[0] == front@);
                assert(lines_view(self.queue@) =~= qv.drop_first());
            }
            let d = self.maybe_print(front.as_slice());
            if d {
                let ghost prevout = lines_view(out@);
                out.push(front);
                proof {
                    assert(lines_view(out@) =~= prevout + seq![qv[0]]);
                    assert(lines_view(out@) + flush_out(
                        self.printed_request_ids.entries@,
                        self.bad_version_request_ids.entries@,
                        lines_view(self.queue@),
                    ) =~= prevout + (seq![qv[0]] + flush_out(
                        self.printed_request_ids.entries@,
                        self.bad_version_request_ids.entries@,
                        qv.drop_first(),
                    )));
                }
            } else {
                proof {
                    assert(lines_view(out@) + flush_out(
                        self.printed_request_ids.entries@,
                        self.bad_version_request_ids.entries@,
                        lines_view(self.queue@),
                    ) =~= lines_view(out@) + (Seq::<Seq<u8>>::empty() + flush_out(
                        self.printed_request_ids.entries@,
                        self.bad_version_request_ids.entries@,
                        qv.drop_first(),
                    )));
                }
            }
        }
        proof {
            assert(flush_out(
                self.printed_request_ids.entries@,
                self.bad_version_request_ids.entries@,
                lines_view(self.queue@),
            ) =~= Seq::<Seq<u8>>::empty());
            assert(lines_view(out@) + Seq::<Seq<u8>>::empty() =~= lines_view(out@));
        }
        out
    }
}

/// An owned copy of a byte slice.
fn copy_bytes(line: &[u8]) -> (r: Vec<u8>)
    ensures
        r@ == line@,
{
    let mut v: Vec<u8> = Vec::new();
    let mut i: usize = 0;
    while i < line.len()
        invariant
            0 <= i <= line@.len(),
            v@ =~= line@.take(i as int),
        decreases line@.len() - i,
    {
        v.push(*vstd::slice::slice_index_get(line, i));
        proof {
            assert(v@ =~= line@.take(i + 1));
        }
        i = i + 1;
    }
    proof {
        assert(v@ =~= line@);
    }
    v
}

} // verus!
