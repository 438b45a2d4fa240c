//! The line lexer: finds the identifier, timestamp and message fields of one
//! log line as views into the line, without copying.

use vstd::prelude::*;

use crate::bytes::find_byte;
use vstd::slice::slice_subrange;

verus! {

/// The three fields of one log line, borrowed from the line itself.
pub struct Parts<'a> {
    pub uuid: &'a [u8],
    pub timestamp: &'a [u8],
    pub message: &'a [u8],
}

/// Position of the first occurrence of `b` at or after `from`, or the length
/// of the sequence when there is none.
pub open spec fn first_byte_from(s: Seq<u8>, from: int, b: u8) -> int
    decreases s.len() - from,
{
    if from < 0 || from >= s.len() {
        s.len() as int
    } else if s[from] == b {
        from
    } else {
        first_byte_from(s, from + 1, b)
    }
}

/// `first_byte_from` is the first occurrence: in range, hits `b`, nothing
/// before it does.
pub proof fn lemma_first_byte_from(s: Seq<u8>, from: int, b: u8)
    requires
        0 <= from <= s.len(),
    ensures
        from <= first_byte_from(s, from, b) <= s.len(),
        first_byte_from(s, from, b) < s.len() ==> s[first_byte_from(s, from, b)] == b,
        forall|j: int| from <= j < first_byte_from(s, from, b) ==> s[j] != b,
    decreases s.len() - from,
{
    if from < s.len() && s[from] != b {
        lemma_first_byte_from(s, from + 1, b);
    }
}

/// The delimiter positions the lexer finds: the first `(`, the `)` after it,
/// the `-` after that, and the `]` after that.
pub open spec fn lex_positions(s: Seq<u8>) -> (int, int, int, int) {
    let lp = first_byte_from(s, 0, 40);
    let rp = first_byte_from(s, lp, 41);
    let d = first_byte_from(s, rp, 45);
    let rb = first_byte_from(s, d, 93);
    (lp, rp, d, rb)
}

/// Whether the line has all four delimiters in order, with room for the
/// two-byte separators after `-` and `]`.
pub open spec fn lex_ok(s: Seq<u8>) -> bool {
    let (lp, rp, d, rb) = lex_positions(s);
    lp < s.len() && rp < s.len() && d < s.len() && rb < s.len() && d + 2 <= rb && rb + 2 <= s.len()
}

pub open spec fn lex_uuid(s: Seq<u8>) -> Seq<u8> {
    let (lp, rp, d, rb) = lex_positions(s);
    s.subrange(lp + 1, rp)
}

pub open spec fn lex_timestamp(s: Seq<u8>) -> Seq<u8> {
    let (lp, rp, d, rb) = lex_positions(s);
    s.subrange(d + 2, rb)
}

pub open spec fn lex_message(s: Seq<u8>) -> Seq<u8> {
    let (lp, rp, d, rb) = lex_positions(s);
    s.subrange(rb + 2, s.len() as int)
}

/// Finds the identifier between the first `(` and the next `)`, the
/// timestamp between the first `-` after that `)` and the next `]`, and the
/// message after that `]` and its two-byte separator. No delimiter (or no
/// room for a separator): no match. Nothing is copied; the fields borrow
/// from the line.
pub fn locate_parts<'a>(log_line: &'a [u8]) -> (r: Option<Parts<'a>>)
    ensures
        match r {
            Some(p) => lex_ok(log_line@) && p.uuid@ == lex_uuid(log_line@) && p.timestamp@
                == lex_timestamp(log_line@) && p.message@ == lex_message(log_line@),
            None => !lex_ok(log_line@),
        },
{
    let ghost s = log_line@;
    proof {
        lemma_first_byte_from(s, 0, 40);
    }
    let lp = match find_byte(log_line, 0, 40) {
        Some(i) => i,
        None => {
            proof {
                lemma_found_is_first(s, 0, 40, s.len() as int);
            }
            return None;
        },
    };
    proof {
        lemma_found_is_first(s, 0, 40, lp as int);
        lemma_first_byte_from(s, lp as int, 41);
    }
    let rp = match find_byte(log_line, lp, 41) {
        Some(i) => i,
        None => {
            proof {
                lemma_found_is_first(s, lp as int, 41, s.len() as int);
            }
            return None;
        },
    };
    proof {
        lemma_found_is_first(s, lp as int, 41, rp as int);
        lemma_first_byte_from(s, rp as int, 45);
    }
    let d = match find_byte(log_line, rp, 45) {
        Some(i) => i,
        None => {
            proof {
                lemma_found_is_first(s, rp as int, 45, s.len() as int);
            }
            return None;
        },
    };
    proof {
        lemma_found_is_first(s, rp as int, 45, d as int);
        lemma_first_byte_from(s, d as int, 93);
    }
    let rb = match find_byte(log_line, d, 93) {
        Some(i) => i,
        None => {
            proof {
                lemma_found_is_first(s, d as int, 93, s.len() as int);
            }
            return None;
        },
    };
    proof {
        lemma_found_is_first(s, d as int, 93, rb as int);
    }
    if rb - d < 2 || log_line.len() - rb < 2 {
        return None;
    }
    Some(
        Parts {
            uuid: slice_subrange(log_line, lp + 1, rp),
            timestamp: slice_subrange(log_line, d + 2, rb),
            message: slice_subrange(log_line, rb + 2, log_line.len()),
        },
    )
}

/// An index with the first-occurrence properties is `first_byte_from`.
proof fn lemma_found_is_first(s: Seq<u8>, from: int, b: u8, found: int)
    requires
        0 <= from <= s.len(),
        from <= found <= s.len(),
        found < s.len() ==> s[found] == b,
        forall|j: int| from <= j < found ==> s[j] != b,
    ensures
        first_byte_from(s, from, b) == found,
{
    lemma_first_byte_from(s, from, b);
    let f = first_byte_from(s, from, b);
    if f < found {
        assert(s[f] != b);
    }
    if found < f {
        assert(s[found] != b);
    }
}

/// What a successful lex means for the raw line: the three views, framed by
/// the four delimiters and the bytes between them, reassemble the line from
/// the first `(` to the end.
pub proof fn lemma_lex_reassemble(s: Seq<u8>)
    requires
        lex_ok(s),
    ensures
        ({
            let (lp, rp, d, rb) = lex_positions(s);
            &&& 0 <= lp < rp < d && d + 2 <= rb && rb + 2 <= s.len()
            &&& s[lp] == 40 && s[rp] == 41 && s[d] == 45 && s[rb] == 93
            &&& s.subrange(lp, s.len() as int) =~= seq![40u8] + lex_uuid(s) + seq![41u8]
                + s.subrange(rp + 1, d) + seq![45u8] + s.subrange(d + 1, d + 2) + lex_timestamp(s)
                + seq![93u8] + s.subrange(rb + 1, rb + 2) + lex_message(s)
        }),
{
    let (lp, rp, d, rb) = lex_positions(s);
    lemma_first_byte_from(s, 0, 40);
    lemma_first_byte_from(s, lp, 41);
    lemma_first_byte_from(s, rp, 45);
    lemma_first_byte_from(s, d, 93);
    assert(s[lp] == 40);
    assert(s[rp] == 41);
    assert(s[d] == 45);
    assert(s[rb] == 93);
    assert(lp < rp) by {
        if rp == lp {
            assert(s[lp] == 40 && s[rp] == 41);
        }
    }
    assert(rp < d) by {
        if d == rp {
            assert(s[rp] == 41 && s[d] == 45);
        }
    }
}

} // verus!
