//! The beatmap text format: a single `notes` field holding an ordered list
//! of `{ timing = <uint>, lane = "<LaneName>" }` records.
//!
//! The grammar is specified by total spec-level parsing functions over byte
//! sequences; the executable parser and serializer are proved equal to them.

use vstd::prelude::*;

use crate::note::Beatmap;
use crate::note::NoteId;
use crate::note::NoteLane;
use crate::note::sorted_by_timing;

verus! {

/// Why a beatmap document was rejected.
#[derive(Clone, Copy, PartialEq, Eq, Structural, Debug)]
pub enum FormatError {
    /// The document does not match the beatmap grammar.
    Malformed,
    /// The document parsed, but its notes are not ordered by timing.
    Unsorted,
}

pub open spec fn is_ws(c: u8) -> bool {
    c == 32 || c == 9 || c == 10 || c == 13
}

pub open spec fn is_digit(c: u8) -> bool {
    48 <= c <= 57
}

/// The keyword `notes`.
pub open spec fn lit_notes() -> Seq<u8> {
    seq![110u8, 111u8, 116u8, 101u8, 115u8]
}

/// The keyword `timing`.
pub open spec fn lit_timing() -> Seq<u8> {
    seq![116u8, 105u8, 109u8, 105u8, 110u8, 103u8]
}

/// The keyword `lane`.
pub open spec fn lit_lane() -> Seq<u8> {
    seq![108u8, 97u8, 110u8, 101u8]
}

/// The printed name of a lane.
pub open spec fn lane_name(lane: NoteLane) -> Seq<u8> {
    match lane {
        NoteLane::LaneA => seq![76u8, 97u8, 110u8, 101u8, 65u8],
        NoteLane::LaneS => seq![76u8, 97u8, 110u8, 101u8, 83u8],
        NoteLane::LaneD => seq![76u8, 97u8, 110u8, 101u8, 68u8],
        NoteLane::LaneF => seq![76u8, 97u8, 110u8, 101u8, 70u8],
        NoteLane::LaneJ => seq![76u8, 97u8, 110u8, 101u8, 74u8],
        NoteLane::LaneK => seq![76u8, 97u8, 110u8, 101u8, 75u8],
        NoteLane::LaneL => seq![76u8, 97u8, 110u8, 101u8, 76u8],
        NoteLane::LaneSemicolon => seq![
            76u8,
            97u8,
            110u8,
            101u8,
            83u8,
            101u8,
            109u8,
            105u8,
            99u8,
            111u8,
            108u8,
            111u8,
            110u8,
        ],
    }
}

/// A lane name between double quotes.
pub open spec fn quoted_name(lane: NoteLane) -> Seq<u8> {
    seq![34u8] + lane_name(lane) + seq![34u8]
}

/// The first position at or after `i` holding a non-whitespace byte.
pub open spec fn skip_ws(s: Seq<u8>, i: int) -> int
    decreases s.len() - i,
{
    if 0 <= i < s.len() && is_ws(s[i]) {
        skip_ws(s, i + 1)
    } else {
        i
    }
}

/// The literal `lit` occurs in `s` at position `i`.
pub open spec fn match_lit(s: Seq<u8>, i: int, lit: Seq<u8>) -> bool {
    0 <= i && i + lit.len() <= s.len() && s.subrange(i, i + lit.len()) == lit
}

/// Digits consumed left to right, extending the accumulator `acc`; fails
/// when the value would exceed the machine range.
pub open spec fn parse_uint_rec(s: Seq<u8>, i: int, acc: nat) -> Option<(nat, int)>
    decreases s.len() - i,
{
    if 0 <= i < s.len() && is_digit(s[i]) {
        let v = (acc * 10 + (s[i] - 48)) as nat;
        if v > usize::MAX {
            None
        } else {
            parse_uint_rec(s, i + 1, v)
        }
    } else {
        Some((acc, i))
    }
}

/// An unsigned decimal integer: at least one digit, value within machine
/// range.
pub open spec fn parse_uint(s: Seq<u8>, i: int) -> Option<(nat, int)> {
    if 0 <= i < s.len() && is_digit(s[i]) {
        parse_uint_rec(s, i, 0)
    } else {
        None
    }
}

/// A quoted lane name.
pub open spec fn parse_lane(s: Seq<u8>, i: int) -> Option<(NoteLane, int)> {
    if match_lit(s, i, quoted_name(NoteLane::LaneA)) {
        Some((NoteLane::LaneA, i + quoted_name(NoteLane::LaneA).len()))
    } else if match_lit(s, i, quoted_name(NoteLane::LaneS)) {
        Some((NoteLane::LaneS, i + quoted_name(NoteLane::LaneS).len()))
    } else if match_lit(s, i, quoted_name(NoteLane::LaneD)) {
        Some((NoteLane::LaneD, i + quoted_name(NoteLane::LaneD).len()))
    } else if match_lit(s, i, quoted_name(NoteLane::LaneF)) {
        Some((NoteLane::LaneF, i + quoted_name(NoteLane::LaneF).len()))
    } else if match_lit(s, i, quoted_name(NoteLane::LaneJ)) {
        Some((NoteLane::LaneJ, i + quoted_name(NoteLane::LaneJ).len()))
    } else if match_lit(s, i, quoted_name(NoteLane::LaneK)) {
        Some((NoteLane::LaneK, i + quoted_name(NoteLane::LaneK).len()))
    } else if match_lit(s, i, quoted_name(NoteLane::LaneL)) {
        Some((NoteLane::LaneL, i + quoted_name(NoteLane::LaneL).len()))
    } else if match_lit(s, i, quoted_name(NoteLane::LaneSemicolon)) {
        Some((NoteLane::LaneSemicolon, i + quoted_name(NoteLane::LaneSemicolon).len()))
    } else {
        None
    }
}

/// One record: `{ timing = <uint>, lane = "<LaneName>" }`, with free
/// whitespace between tokens.
pub open spec fn parse_record(s: Seq<u8>, i: int) -> Option<(NoteId, int)> {
    if !match_lit(s, i, seq![123u8]) {
        None
    } else {
        let a = skip_ws(s, i + 1);
        if !match_lit(s, a, lit_timing()) {
            None
        } else {
            let b1 = skip_ws(s, a + 6);
            if !match_lit(s, b1, seq![61u8]) {
                None
            } else {
                let b2 = skip_ws(s, b1 + 1);
                match parse_uint(s, b2) {
                    None => None,
                    Some((v, c1)) => {
                        let c2 = skip_ws(s, c1);
                        if !match_lit(s, c2, seq![44u8]) {
                            None
                        } else {
                            let d1 = skip_ws(s, c2 + 1);
                            if !match_lit(s, d1, lit_lane()) {
                                None
                            } else {
                                let d2 = skip_ws(s, d1 + 4);
                                if !match_lit(s, d2, seq![61u8]) {
                                    None
                                } else {
                                    let e1 = skip_ws(s, d2 + 1);
                                    match parse_lane(s, e1) {
                                        None => None,
                                        Some((lane, f1)) => {
                                            let f2 = skip_ws(s, f1);
                                            if !match_lit(s, f2, seq![125u8]) {
                                                None
                                            } else {
                                                Some((NoteId { timing: v as usize, lane }, f2 + 1))
                                            }
                                        },
                                    }
                                }
                            }
                        }
                    },
                }
            }
        }
    }
}

/// Positions never move left: `i <= skip_ws(s, i)`, and not past the end
/// when `i` starts inside.
pub proof fn lemma_skip_ws_bounds(s: Seq<u8>, i: int)
    ensures
        i <= skip_ws(s, i),
        i <= s.len() ==> skip_ws(s, i) <= s.len(),
        i > s.len() ==> skip_ws(s, i) == i,
    decreases s.len() - i,
{
    if 0 <= i < s.len() && is_ws(s[i]) {
        lemma_skip_ws_bounds(s, i + 1);
    }
}

/// A successful record parse consumes at least one byte and stays in `s`.
pub proof fn lemma_parse_record_advances(s: Seq<u8>, i: int)
    ensures
        parse_record(s, i) matches Some((n, j)) ==> i < j <= s.len(),
{
    if match_lit(s, i, seq![123u8]) {
        let a = skip_ws(s, i + 1);
        lemma_skip_ws_bounds(s, i + 1);
        if match_lit(s, a, lit_timing()) {
            let b1 = skip_ws(s, a + 6);
            lemma_skip_ws_bounds(s, a + 6);
            if match_lit(s, b1, seq![61u8]) {
                let b2 = skip_ws(s, b1 + 1);
                lemma_skip_ws_bounds(s, b1 + 1);
                match parse_uint(s, b2) {
                    None => {},
                    Some((v, c1)) => {
                        lemma_parse_uint_rec_bounds(s, b2, 0);
                        let c2 = skip_ws(s, c1);
                        lemma_skip_ws_bounds(s, c1);
                        if match_lit(s, c2, seq![44u8]) {
                            let d1 = skip_ws(s, c2 + 1);
                            lemma_skip_ws_bounds(s, c2 + 1);
                            if match_lit(s, d1, lit_lane()) {
                                let d2 = skip_ws(s, d1 + 4);
                                lemma_skip_ws_bounds(s, d1 + 4);
                                if match_lit(s, d2, seq![61u8]) {
                                    let e1 = skip_ws(s, d2 + 1);
                                    lemma_skip_ws_bounds(s, d2 + 1);
                                    match parse_lane(s, e1) {
                                        None => {},
                                        Some((lane, f1)) => {
                                            let f2 = skip_ws(s, f1);
                                            lemma_skip_ws_bounds(s, f1);
                                        },
                                    }
                                }
                            }
                        }
                    },
                }
            }
        }
    }
}

/// A successful integer parse stays inside `s` and never moves left.
pub proof fn lemma_parse_uint_rec_bounds(s: Seq<u8>, i: int, acc: nat)
    ensures
        parse_uint_rec(s, i, acc) matches Some((v, j)) ==> i <= j <= s.len() || (j == i && i
            > s.len()),
    decreases s.len() - i,
{
    if 0 <= i < s.len() && is_digit(s[i]) {
        let v = (acc * 10 + (s[i] - 48)) as nat;
        if v <= usize::MAX {
            lemma_parse_uint_rec_bounds(s, i + 1, v);
        }
    }
}

/// The list tail after the opening bracket: one or more records separated
/// by commas, a trailing comma allowed, closed by `]`.
pub open spec fn parse_records(s: Seq<u8>, i: int) -> Option<(Seq<NoteId>, int)>
    decreases s.len() - i,
        when true
        via parse_records_decreases
{
    match parse_record(s, i) {
        None => None,
        Some((n, j)) => {
            let k = skip_ws(s, j);
            if match_lit(s, k, seq![44u8]) {
                let m = skip_ws(s, k + 1);
                if match_lit(s, m, seq![93u8]) {
                    Some((seq![n], m + 1))
                } else {
                    match parse_records(s, m) {
                        None => None,
                        Some((rest, e)) => Some((seq![n] + rest, e)),
                    }
                }
            } else if match_lit(s, k, seq![93u8]) {
                Some((seq![n], k + 1))
            } else {
                None
            }
        },
    }
}

#[via_fn]
proof fn parse_records_decreases(s: Seq<u8>, i: int) {
    lemma_parse_record_advances(s, i);
    match parse_record(s, i) {
        None => {},
        Some((n, j)) => {
            lemma_skip_ws_bounds(s, j);
            let k = skip_ws(s, j);
            if match_lit(s, k, seq![44u8]) {
                lemma_skip_ws_bounds(s, k + 1);
            }
        },
    }
}

/// The whole document: optional whitespace, `notes = [ ... ]`, optional
/// whitespace, end of input.
pub open spec fn parse_beatmap(s: Seq<u8>) -> Option<Seq<NoteId>> {
    let i0 = skip_ws(s, 0);
    if !match_lit(s, i0, lit_notes()) {
        None
    } else {
        let i1 = skip_ws(s, i0 + 5);
        if !match_lit(s, i1, seq![61u8]) {
            None
        } else {
            let i2 = skip_ws(s, i1 + 1);
            if !match_lit(s, i2, seq![91u8]) {
                None
            } else {
                let i3 = skip_ws(s, i2 + 1);
                if match_lit(s, i3, seq![93u8]) {
                    if skip_ws(s, i3 + 1) == s.len() {
                        Some(Seq::empty())
                    } else {
                        None
                    }
                } else {
                    match parse_records(s, i3) {
                        None => None,
                        Some((ns, j)) => {
                            if skip_ws(s, j) == s.len() {
                                Some(ns)
                            } else {
                                None
                            }
                        },
                    }
                }
            }
        }
    }
}

// ---------------------------------------------------------------------------
// The canonical encoding.
// ---------------------------------------------------------------------------

/// The decimal digits of `v`, most significant first.
pub open spec fn enc_u(v: nat) -> Seq<u8>
    decreases v,
{
    if v < 10 {
        seq![(48 + v) as u8]
    } else {
        enc_u(v / 10).push((48 + v % 10) as u8)
    }
}

/// `{ timing = ` with its single spaces.
pub open spec fn lit_rec_open() -> Seq<u8> {
    seq![123u8, 32u8, 116u8, 105u8, 109u8, 105u8, 110u8, 103u8, 32u8, 61u8, 32u8]
}

/// `, lane = ` with its single spaces.
pub open spec fn lit_rec_mid() -> Seq<u8> {
    seq![44u8, 32u8, 108u8, 97u8, 110u8, 101u8, 32u8, 61u8, 32u8]
}

/// The closing ` }` of a record.
pub open spec fn lit_rec_close() -> Seq<u8> {
    seq![32u8, 125u8]
}

/// One encoded record.
pub open spec fn enc_note(n: NoteId) -> Seq<u8> {
    lit_rec_open() + enc_u(n.timing as nat) + lit_rec_mid() + quoted_name(n.lane)
        + lit_rec_close()
}

/// All records, each followed by `, `.
pub open spec fn enc_notes(ns: Seq<NoteId>) -> Seq<u8>
    decreases ns.len(),
{
    if ns.len() == 0 {
        Seq::empty()
    } else {
        enc_note(ns[0]) + seq![44u8, 32u8] + enc_notes(ns.drop_first())
    }
}

/// `notes = [ ` opening the document.
pub open spec fn lit_header() -> Seq<u8> {
    seq![110u8, 111u8, 116u8, 101u8, 115u8, 32u8, 61u8, 32u8, 91u8, 32u8]
}

/// The canonical document for a note sequence.
pub open spec fn encode_beatmap(ns: Seq<NoteId>) -> Seq<u8> {
    lit_header() + enc_notes(ns) + seq![93u8, 10u8]
}

// ---------------------------------------------------------------------------
// Executable parsing.
// ---------------------------------------------------------------------------

/// First non-whitespace position at or after `i`.
fn ws_end(s: &[u8], i: usize) -> (r: usize)
    ensures
        r as int == skip_ws(s@, i as int),
        i <= r,
        i <= s.len() ==> r <= s.len(),
{
    let mut j = i;
    while j < s.len() && (s[j] == 32 || s[j] == 9 || s[j] == 10 || s[j] == 13)
        invariant
            i <= j,
            i <= s.len() ==> j <= s.len(),
            skip_ws(s@, i as int) == skip_ws(s@, j as int),
        decreases s.len() - j,
    {
        j = j + 1;
    }
    j
}

/// Whether `lit` occurs in `s` at `i`.
fn lit_at(s: &[u8], i: usize, lit: &Vec<u8>) -> (r: bool)
    ensures
        r == match_lit(s@, i as int, lit@),
{
    if i > s.len() || lit.len() > s.len() - i {
        return false;
    }
    let mut k: usize = 0;
    while k < lit.len()
        invariant
            k <= lit.len(),
            i + lit.len() <= s.len(),
            forall|t: int| 0 <= t < k ==> s@[i + t] == lit@[t],
        decreases lit.len() - k,
    {
        if s[i + k] != lit[k] {
            proof {
                if match_lit(s@, i as int, lit@) {
                    assert(s@.subrange(i as int, i + lit@.len())[k as int] == lit@[k as int]);
                }
            }
            return false;
        }
        k = k + 1;
    }
    proof {
        assert(s@.subrange(i as int, i + lit@.len()) =~= lit@);
    }
    true
}

/// Whether byte `c` occurs at `i`.
fn byte_at(s: &[u8], i: usize, c: u8) -> (r: bool)
    ensures
        r == match_lit(s@, i as int, seq![c]),
{
    let r = i < s.len() && s[i] == c;
    proof {
        if r {
            assert(s@.subrange(i as int, i as int + 1) =~= seq![c]);
        } else if match_lit(s@, i as int, seq![c]) {
            assert(s@.subrange(i as int, i as int + 1)[0] == c);
        }
    }
    r
}

/// The keyword `notes` as bytes.
fn kw_notes() -> (v: Vec<u8>)
    ensures
        v@ == lit_notes(),
{
    let mut v: Vec<u8> = Vec::new();
    v.push(110);
    v.push(111);
    v.push(116);
    v.push(101);
    v.push(115);
    proof {
        assert(v@ =~= lit_notes());
    }
    v
}

/// The keyword `timing` as bytes.
fn kw_timing() -> (v: Vec<u8>)
    ensures
        v@ == lit_timing(),
{
    let mut v: Vec<u8> = Vec::new();
    v.push(116);
    v.push(105);
    v.push(109);
    v.push(105);
    v.push(110);
    v.push(103);
    proof {
        assert(v@ =~= lit_timing());
    }
    v
}

/// The keyword `lane` as bytes.
fn kw_lane() -> (v: Vec<u8>)
    ensures
        v@ == lit_lane(),
{
    let mut v: Vec<u8> = Vec::new();
    v.push(108);
    v.push(97);
    v.push(110);
    v.push(101);
    proof {
        assert(v@ =~= lit_lane());
    }
    v
}

/// A lane's quoted name as bytes.
fn lane_quoted(lane: NoteLane) -> (v: Vec<u8>)
    ensures
        v@ == quoted_name(lane),
{
    let mut v: Vec<u8> = Vec::new();
    v.push(34);
    v.push(76);
    v.push(97);
    v.push(110);
    v.push(101);
    match lane {
        NoteLane::LaneA => v.push(65),
        NoteLane::LaneS => v.push(83),
        NoteLane::LaneD => v.push(68),
        NoteLane::LaneF => v.push(70),
        NoteLane::LaneJ => v.push(74),
        NoteLane::LaneK => v.push(75),
        NoteLane::LaneL => v.push(76),
        NoteLane::LaneSemicolon => {
            v.push(83);
            v.push(101);
            v.push(109);
            v.push(105);
            v.push(99);
            v.push(111);
            v.push(108);
            v.push(111);
            v.push(110);
        },
    }
    v.push(34);
    proof {
        assert(v@ =~= quoted_name(lane));
    }
    v
}

/// Parses an unsigned decimal integer at `i`.
fn parse_uint_at(s: &[u8], i: usize) -> (r: Option<(usize, usize)>)
    ensures
        match r {
            None => parse_uint(s@, i as int) is None,
            Some((v, j)) => parse_uint(s@, i as int) == Some((v as nat, j as int)) && i < j
                <= s.len(),
        },
{
    if !(i < s.len() && 48 <= s[i] && s[i] <= 57) {
        return None;
    }
    let mut acc: usize = 0;
    let mut j: usize = i;
    while j < s.len() && 48 <= s[j] && s[j] <= 57
        invariant
            i <= j <= s.len(),
            parse_uint_rec(s@, i as int, 0) == parse_uint_rec(s@, j as int, acc as nat),
        decreases s.len() - j,
    {
        let d = s[j] - 48;
        if acc > usize::MAX / 10 || (acc == usize::MAX / 10 && d > (usize::MAX % 10) as u8) {
            proof {
                assert(acc * 10 + d > usize::MAX) by {
                    assert(usize::MAX == 10 * (usize::MAX / 10) + usize::MAX % 10) by {
                        vstd::arithmetic::div_mod::lemma_fundamental_div_mod(
                            usize::MAX as int,
                            10,
                        );
                    }
                }
            }
            return None;
        }
        proof {
            assert(acc * 10 + d <= usize::MAX) by {
                assert(usize::MAX == 10 * (usize::MAX / 10) + usize::MAX % 10) by {
                    vstd::arithmetic::div_mod::lemma_fundamental_div_mod(usize::MAX as int, 10);
                }
            }
        }
        acc = acc * 10 + (d as usize);
        j = j + 1;
    }
    proof {
        assert(parse_uint_rec(s@, j as int, acc as nat) == Some((acc as nat, j as int)));
    }
    Some((acc, j))
}

/// Parses a quoted lane name at `i`.
fn parse_lane_at(s: &[u8], i: usize) -> (r: Option<(NoteLane, usize)>)
    ensures
        match r {
            None => parse_lane(s@, i as int) is None,
            Some((lane, j)) => parse_lane(s@, i as int) == Some((lane, j as int)) && i < j
                <= s.len(),
        },
{
    let slen = s.len();
    proof {
        assert(s@.len() == slen);
    }
    let qa = lane_quoted(NoteLane::LaneA);
    if lit_at(s, i, &qa) {
        proof {
            assert(i + qa@.len() <= s@.len());
        }
        return Some((NoteLane::LaneA, i + qa.len()));
    }
    let qs = lane_quoted(NoteLane::LaneS);
    if lit_at(s, i, &qs) {
        proof {
            assert(i + qs@.len() <= s@.len());
        }
        return Some((NoteLane::LaneS, i + qs.len()));
    }
    let qd = lane_quoted(NoteLane::LaneD);
    if lit_at(s, i, &qd) {
        proof {
            assert(i + qd@.len() <= s@.len());
        }
        return Some((NoteLane::LaneD, i + qd.len()));
    }
    let qf = lane_quoted(NoteLane::LaneF);
    if lit_at(s, i, &qf) {
        proof {
            assert(i + qf@.len() <= s@.len());
        }
        return Some((NoteLane::LaneF, i + qf.len()));
    }
    let qj = lane_quoted(NoteLane::LaneJ);
    if lit_at(s, i, &qj) {
        proof {
            assert(i + qj@.len() <= s@.len());
        }
        return Some((NoteLane::LaneJ, i + qj.len()));
    }
    let qk = lane_quoted(NoteLane::LaneK);
    if lit_at(s, i, &qk) {
        proof {
            assert(i + qk@.len() <= s@.len());
        }
        return Some((NoteLane::LaneK, i + qk.len()));
    }
    let ql = lane_quoted(NoteLane::LaneL);
    if lit_at(s, i, &ql) {
        proof {
            assert(i + ql@.len() <= s@.len());
        }
        return Some((NoteLane::LaneL, i + ql.len()));
    }
    let qsemi = lane_quoted(NoteLane::LaneSemicolon);
    if lit_at(s, i, &qsemi) {
        proof {
            assert(i + qsemi@.len() <= s@.len());
        }
        return Some((NoteLane::LaneSemicolon, i + qsemi.len()));
    }
    None
}

/// Parses one record at `i`.
fn parse_record_at(s: &[u8], i: usize) -> (r: Option<(NoteId, usize)>)
    ensures
        match r {
            None => parse_record(s@, i as int) is None,
            Some((n, j)) => parse_record(s@, i as int) == Some((n, j as int)) && i < j <= s.len(),
        },
{
    let slen = s.len();
    proof {
        assert(s@.len() == slen);
    }
    if !byte_at(s, i, 123) {
        return None;
    }
    proof {
        assert(i + 1 <= s@.len());
    }
    let a = ws_end(s, i + 1);
    let kt = kw_timing();
    if !lit_at(s, a, &kt) {
        return None;
    }
    proof {
        assert(a + 6 <= s@.len());
    }
    let b1 = ws_end(s, a + 6);
    if !byte_at(s, b1, 61) {
        return None;
    }
    proof {
        assert(b1 + 1 <= s@.len());
    }
    let b2 = ws_end(s, b1 + 1);
    match parse_uint_at(s, b2) {
        None => None,
        Some((v, c1)) => {
            let c2 = ws_end(s, c1);
            if !byte_at(s, c2, 44) {
                return None;
            }
            proof {
                assert(c2 + 1 <= s@.len());
            }
            let d1 = ws_end(s, c2 + 1);
            let kl = kw_lane();
            if !lit_at(s, d1, &kl) {
                return None;
            }
            proof {
                assert(d1 + 4 <= s@.len());
            }
            let d2 = ws_end(s, d1 + 4);
            if !byte_at(s, d2, 61) {
                return None;
            }
            proof {
                assert(d2 + 1 <= s@.len());
            }
            let e1 = ws_end(s, d2 + 1);
            match parse_lane_at(s, e1) {
                None => None,
                Some((lane, f1)) => {
                    let f2 = ws_end(s, f1);
                    if !byte_at(s, f2, 125) {
                        return None;
                    }
                    proof {
                        assert(f2 + 1 <= s@.len());
                    }
                    Some((NoteId { timing: v, lane }, f2 + 1))
                },
            }
        },
    }
}

/// A parsed prefix glued onto the result of parsing the remainder.
pub open spec fn glue_records(pre: Seq<NoteId>, r: Option<(Seq<NoteId>, int)>) -> Option<
    (Seq<NoteId>, int),
> {
    match r {
        None => None,
        Some((rest, e)) => Some((pre + rest, e)),
    }
}

/// Parses the record list at `i` (after the opening bracket), through the
/// closing bracket.
fn parse_records_at(s: &[u8], i: usize) -> (r: Option<(Vec<NoteId>, usize)>)
    ensures
        match r {
            None => parse_records(s@, i as int) is None,
            Some((v, j)) => parse_records(s@, i as int) == Some((v@, j as int)) && j <= s.len(),
        },
{
    let slen = s.len();
    proof {
        assert(s@.len() == slen);
    }
    let mut acc: Vec<NoteId> = Vec::new();
    let mut cur = i;
    proof {
        assert(Seq::<NoteId>::empty() + Seq::<NoteId>::empty() =~= Seq::<NoteId>::empty());
    }
    loop
        invariant
            slen == s@.len(),
            parse_records(s@, i as int) == glue_records(acc@, parse_records(s@, cur as int)),
        decreases s@.len() - cur,
    {
        let ghost acc0 = acc@;
        let ghost cur0 = cur as int;
        match parse_record_at(s, cur) {
            None => {
                return None;
            },
            Some((n, j)) => {
                let k = ws_end(s, j);
                if byte_at(s, k, 44) {
                    proof {
                        assert(k + 1 <= s@.len());
                    }
                    let m = ws_end(s, k + 1);
                    if byte_at(s, m, 93) {
                        proof {
                            assert(m + 1 <= s@.len());
                        }
                        acc.push(n);
                        proof {
                            assert(parse_records(s@, cur0) == Some::<(Seq<NoteId>, int)>((
                                seq![n],
                                m + 1,
                            )));
                            assert(acc0 + seq![n] =~= acc@);
                        }
                        return Some((acc, m + 1));
                    } else {
                        acc.push(n);
                        proof {
                            assert(parse_records(s@, cur0) == glue_records(
                                seq![n],
                                parse_records(s@, m as int),
                            ));
                            match parse_records(s@, m as int) {
                                None => {},
                                Some((rest, e)) => {
                                    assert(acc0 + (seq![n] + rest) =~= acc@ + rest);
                                },
                            }
                        }
                        cur = m;
                    }
                } else if byte_at(s, k, 93) {
                    proof {
                        assert(k + 1 <= s@.len());
                    }
                    acc.push(n);
                    proof {
                        assert(parse_records(s@, cur0) == Some::<(Seq<NoteId>, int)>((
                            seq![n],
                            k + 1,
                        )));
                        assert(acc0 + seq![n] =~= acc@);
                    }
                    return Some((acc, k + 1));
                } else {
                    return None;
                }
            },
        }
    }
}

/// Whether the parsed notes are ordered by timing.
fn check_sorted(v: &Vec<NoteId>) -> (r: bool)
    ensures
        r == sorted_by_timing(v@),
{
    let n = v.len();
    if n == 0 {
        return true;
    }
    let mut k: usize = 1;
    while k < n
        invariant
            1 <= k <= n,
            n == v.len(),
            forall|a: int, b: int| 0 <= a < b < k ==> #[trigger] v@[a].timing <= #[trigger] v@[b].timing,
        decreases n - k,
    {
        if v[k - 1].timing > v[k].timing {
            return false;
        }
        k = k + 1;
    }
    true
}

/// Parses a beatmap document.
///
/// Succeeds exactly on documents the grammar accepts whose notes are ordered
/// by timing; a document outside the grammar is `Malformed`, one inside the
/// grammar but out of order is `Unsorted`.
pub fn load_beatmap(s: &[u8]) -> (r: Result<Beatmap, FormatError>)
    ensures
        match parse_beatmap(s@) {
            None => r == Err::<Beatmap, FormatError>(FormatError::Malformed),
            Some(ns) => {
                if sorted_by_timing(ns) {
                    r matches Ok(b) && b@ == ns && b.wf()
                } else {
                    r == Err::<Beatmap, FormatError>(FormatError::Unsorted)
                }
            },
        },
{
    let i0 = ws_end(s, 0);
    let kn = kw_notes();
    if !lit_at(s, i0, &kn) {
        return Err(FormatError::Malformed);
    }
    let i1 = ws_end(s, i0 + 5);
    if !byte_at(s, i1, 61) {
        return Err(FormatError::Malformed);
    }
    let i2 = ws_end(s, i1 + 1);
    if !byte_at(s, i2, 91) {
        return Err(FormatError::Malformed);
    }
    let i3 = ws_end(s, i2 + 1);
    if byte_at(s, i3, 93) {
        let e = ws_end(s, i3 + 1);
        if e == s.len() {
            return Ok(Beatmap { notes: Vec::new() });
        } else {
            return Err(FormatError::Malformed);
        }
    }
    match parse_records_at(s, i3) {
        None => Err(FormatError::Malformed),
        Some((v, j)) => {
            let e = ws_end(s, j);
            if e != s.len() {
                return Err(FormatError::Malformed);
            }
            if check_sorted(&v) {
                Ok(Beatmap { notes: v })
            } else {
                Err(FormatError::Unsorted)
            }
        },
    }
}

// ---------------------------------------------------------------------------
// Executable serialization.
// ---------------------------------------------------------------------------

/// Appends all of `lit` to `out`.
fn push_all(out: &mut Vec<u8>, lit: &Vec<u8>)
    ensures
        final(out)@ == old(out)@ + lit@,
{
    let mut k: usize = 0;
    while k < lit.len()
        invariant
            k <= lit.len(),
            out@ == old(out)@ + lit@.take(k as int),
        decreases lit.len() - k,
    {
        out.push(lit[k]);
        proof {
            assert(old(out)@ + lit@.take(k as int) + seq![lit@[k as int]] =~= old(out)@
                + lit@.take(k + 1));
        }
        k = k + 1;
    }
    proof {
        assert(lit@.take(lit@.len() as int) =~= lit@);
    }
}

/// Appends the decimal digits of `v` to `out`.
fn push_uint(out: &mut Vec<u8>, v: usize)
    ensures
        final(out)@ == old(out)@ + enc_u(v as nat),
    decreases v,
{
    if v < 10 {
        out.push(48 + (v as u8));
        proof {
            assert(old(out)@ + enc_u(v as nat) =~= out@);
        }
    } else {
        push_uint(out, v / 10);
        out.push(48 + ((v % 10) as u8));
        proof {
            assert(old(out)@ + enc_u(v as nat) =~= out@);
        }
    }
}

/// The bytes `{ timing = `.
fn rec_open_bytes() -> (v: Vec<u8>)
    ensures
        v@ == lit_rec_open(),
{
    let mut v: Vec<u8> = Vec::new();
    v.push(123);
    v.push(32);
    v.push(116);
    v.push(105);
    v.push(109);
    v.push(105);
    v.push(110);
    v.push(103);
    v.push(32);
    v.push(61);
    v.push(32);
    proof {
        assert(v@ =~= lit_rec_open());
    }
    v
}

/// The bytes `, lane = `.
fn rec_mid_bytes() -> (v: Vec<u8>)
    ensures
        v@ == lit_rec_mid(),
{
    let mut v: Vec<u8> = Vec::new();
    v.push(44);
    v.push(32);
    v.push(108);
    v.push(97);
    v.push(110);
    v.push(101);
    v.push(32);
    v.push(61);
    v.push(32);
    proof {
        assert(v@ =~= lit_rec_mid());
    }
    v
}

/// Appends one encoded record and its `, ` separator.
fn push_note(out: &mut Vec<u8>, note: NoteId)
    ensures
        final(out)@ == old(out)@ + enc_note(note) + seq![44u8, 32u8],
{
    let opener = rec_open_bytes();
    push_all(out, &opener);
    push_uint(out, note.timing);
    let mid = rec_mid_bytes();
    push_all(out, &mid);
    let q = lane_quoted(note.lane);
    push_all(out, &q);
    out.push(32);
    out.push(125);
    out.push(44);
    out.push(32);
    proof {
        assert(out@ =~= old(out)@ + enc_note(note) + seq![44u8, 32u8]);
    }
}

/// Serializes the store to the canonical document, preserving note order.
pub fn save_beatmap(b: &Beatmap) -> (r: Vec<u8>)
    ensures
        r@ == encode_beatmap(b@),
{
    let mut out: Vec<u8> = Vec::new();
    let mut header = kw_notes();
    header.push(32);
    header.push(61);
    header.push(32);
    header.push(91);
    header.push(32);
    proof {
        assert(header@ =~= lit_header());
    }
    let mut k: usize = 0;
    let n = b.notes.len();
    push_all(&mut out, &header);
    proof {
        assert(out@ =~= lit_header() + enc_notes(b@.take(0)));
    }
    while k < n
        invariant
            k <= n,
            n == b.notes.len(),
            out@ == lit_header() + enc_notes(b@.take(k as int)),
        decreases n - k,
    {
        let note = b.notes[k];
        push_note(&mut out, note);
        proof {
            lemma_enc_notes_snoc(b@.take(k + 1));
            assert(b@.take(k + 1).drop_last() =~= b@.take(k as int));
            assert(b@.take(k + 1).last() == b@[k as int]);
            assert(out@ =~= lit_header() + enc_notes(b@.take(k + 1)));
        }
        k = k + 1;
    }
    out.push(93);
    out.push(10);
    proof {
        assert(b@.take(n as int) =~= b@);
        assert(out@ =~= encode_beatmap(b@));
    }
    out
}

// ---------------------------------------------------------------------------
// Round trip: the canonical encoding parses back to the same notes.
// ---------------------------------------------------------------------------

/// Every byte of an encoded integer is a decimal digit, and there is at
/// least one.
pub proof fn lemma_enc_u_digits(v: nat)
    ensures
        enc_u(v).len() >= 1,
        forall|k: int| 0 <= k < enc_u(v).len() ==> is_digit(#[trigger] enc_u(v)[k]),
    decreases v,
{
    if v >= 10 {
        lemma_enc_u_digits(v / 10);
    }
}

/// The value carried left to right across the digits of `v`, starting from
/// an already accumulated prefix value.
pub open spec fn append_val(acc: nat, v: nat) -> nat
    decreases v,
{
    if v < 10 {
        acc * 10 + v
    } else {
        append_val(acc, v / 10) * 10 + v % 10
    }
}

/// Reading the digits of `v` onto an empty accumulator yields `v`.
pub proof fn lemma_append_val_zero(v: nat)
    ensures
        append_val(0, v) == v,
    decreases v,
{
    if v < 10 {
    } else {
        lemma_append_val_zero(v / 10);
        vstd::arithmetic::div_mod::lemma_fundamental_div_mod(v as int, 10);
    }
}

/// Consuming the encoded digits of `v` moves the cursor past them and
/// extends the accumulator accordingly.
pub proof fn lemma_parse_digits(s: Seq<u8>, i: int, acc: nat, v: nat)
    requires
        0 <= i,
        i + enc_u(v).len() <= s.len(),
        s.subrange(i, i + enc_u(v).len() as int) == enc_u(v),
        append_val(acc, v) <= usize::MAX,
    ensures
        parse_uint_rec(s, i, acc) == parse_uint_rec(s, i + enc_u(v).len(), append_val(acc, v)),
    decreases v,
{
    lemma_enc_u_digits(v);
    let d = enc_u(v).len() as int;
    if v < 10 {
        assert(s[i] == enc_u(v)[0]);
        assert(s[i] == 48 + v);
        assert((acc * 10 + (s[i] - 48)) as nat == append_val(acc, v));
    } else {
        let dd = enc_u(v / 10).len() as int;
        assert(enc_u(v) == enc_u(v / 10).push((48 + v % 10) as u8));
        assert(d == dd + 1);
        assert(s.subrange(i, i + dd) =~= enc_u(v / 10)) by {
            assert forall|t: int| 0 <= t < dd implies #[trigger] s.subrange(i, i + dd)[t]
                == enc_u(v / 10)[t] by {
                assert(s.subrange(i, i + d)[t] == enc_u(v)[t]);
                assert(enc_u(v)[t] == enc_u(v / 10)[t]);
            }
        }
        let mid = append_val(acc, v / 10);
        assert(append_val(acc, v) == mid * 10 + v % 10);
        assert(mid <= append_val(acc, v));
        lemma_parse_digits(s, i, acc, v / 10);
        assert(parse_uint_rec(s, i, acc) == parse_uint_rec(s, i + dd, mid));
        assert(s[i + dd] == enc_u(v)[dd]);
        assert(s[i + dd] == 48 + v % 10);
        assert(is_digit(s[i + dd]));
        assert((mid * 10 + (s[i + dd] - 48)) as nat == append_val(acc, v));
        assert(parse_uint_rec(s, i + dd, mid) == parse_uint_rec(s, i + d, append_val(acc, v)));
    }
}

/// A single space, followed by something that is not whitespace (or the end
/// of input), is skipped exactly once.
pub proof fn lemma_skip_one_space(s: Seq<u8>, i: int)
    requires
        0 <= i < s.len(),
        is_ws(s[i]),
        i + 1 == s.len() || !is_ws(s[i + 1]),
    ensures
        skip_ws(s, i) == i + 1,
{
    assert(skip_ws(s, i) == skip_ws(s, i + 1));
}

/// A quoted lane name in the input parses to that lane.
pub proof fn lemma_parse_lane_encoded(s: Seq<u8>, i: int, lane: NoteLane)
    requires
        match_lit(s, i, quoted_name(lane)),
    ensures
        parse_lane(s, i) == Some((lane, i + quoted_name(lane).len())),
{
    let q = quoted_name(lane);
    let m = q.len() as int;
    assert(forall|t: int| 0 <= t < m ==> s[i + t] == #[trigger] q[t]) by {
        assert(forall|t: int|
            0 <= t < m ==> s.subrange(i, i + m)[t] == #[trigger] q[t]);
    }
    match lane {
        NoteLane::LaneA => {},
        NoteLane::LaneS => {
            assert(!match_lit(s, i, quoted_name(NoteLane::LaneA))) by {
                if match_lit(s, i, quoted_name(NoteLane::LaneA)) {
                    assert(s.subrange(i, i + 7)[5] == quoted_name(NoteLane::LaneA)[5]);
                    assert(s[i + 5] == 65);
                    assert(s[i + 5] == 83);
                }
            }
        },
        NoteLane::LaneD => {
            assert(!match_lit(s, i, quoted_name(NoteLane::LaneA))) by {
                if match_lit(s, i, quoted_name(NoteLane::LaneA)) {
                    assert(s.subrange(i, i + 7)[5] == quoted_name(NoteLane::LaneA)[5]);
                }
            }
            assert(!match_lit(s, i, quoted_name(NoteLane::LaneS))) by {
                if match_lit(s, i, quoted_name(NoteLane::LaneS)) {
                    assert(s.subrange(i, i + 7)[5] == quoted_name(NoteLane::LaneS)[5]);
                }
            }
        },
        NoteLane::LaneF => {
            assert(!match_lit(s, i, quoted_name(NoteLane::LaneA))) by {
                if match_lit(s, i, quoted_name(NoteLane::LaneA)) {
                    assert(s.subrange(i, i + 7)[5] == quoted_name(NoteLane::LaneA)[5]);
                }
            }
            assert(!match_lit(s, i, quoted_name(NoteLane::LaneS))) by {
                if match_lit(s, i, quoted_name(NoteLane::LaneS)) {
                    assert(s.subrange(i, i + 7)[5] == quoted_name(NoteLane::LaneS)[5]);
                }
            }
            assert(!match_lit(s, i, quoted_name(NoteLane::LaneD))) by {
                if match_lit(s, i, quoted_name(NoteLane::LaneD)) {
                    assert(s.subrange(i, i + 7)[5] == quoted_name(NoteLane::LaneD)[5]);
                }
            }
        },
        NoteLane::LaneJ => {
            assert(!match_lit(s, i, quoted_name(NoteLane::LaneA))) by {
                if match_lit(s, i, quoted_name(NoteLane::LaneA)) {
                    assert(s.subrange(i, i + 7)[5] == quoted_name(NoteLane::LaneA)[5]);
                }
            }
            assert(!match_lit(s, i, quoted_name(NoteLane::LaneS))) by {
                if match_lit(s, i, quoted_name(NoteLane::LaneS)) {
                    assert(s.subrange(i, i + 7)[5] == quoted_name(NoteLane::LaneS)[5]);
                }
            }
            assert(!match_lit(s, i, quoted_name(NoteLane::LaneD))) by {
                if match_lit(s, i, quoted_name(NoteLane::LaneD)) {
                    assert(s.subrange(i, i + 7)[5] == quoted_name(NoteLane::LaneD)[5]);
                }
            }
            assert(!match_lit(s, i, quoted_name(NoteLane::LaneF))) by {
                if match_lit(s, i, quoted_name(NoteLane::LaneF)) {
                    assert(s.subrange(i, i + 7)[5] == quoted_name(NoteLane::LaneF)[5]);
                }
            }
        },
        NoteLane::LaneK => {
            assert(!match_lit(s, i, quoted_name(NoteLane::LaneA))) by {
                if match_lit(s, i, quoted_name(NoteLane::LaneA)) {
                    assert(s.subrange(i, i + 7)[5] == quoted_name(NoteLane::LaneA)[5]);
                }
            }
            assert(!match_lit(s, i, quoted_name(NoteLane::LaneS))) by {
                if match_lit(s, i, quoted_name(NoteLane::LaneS)) {
                    assert(s.subrange(i, i + 7)[5] == quoted_name(NoteLane::LaneS)[5]);
                }
            }
            assert(!match_lit(s, i, quoted_name(NoteLane::LaneD))) by {
                if match_lit(s, i, quoted_name(NoteLane::LaneD)) {
                    assert(s.subrange(i, i + 7)[5] == quoted_name(NoteLane::LaneD)[5]);
                }
            }
            assert(!match_lit(s, i, quoted_name(NoteLane::LaneF))) by {
                if match_lit(s, i, quoted_name(NoteLane::LaneF)) {
                    assert(s.subrange(i, i + 7)[5] == quoted_name(NoteLane::LaneF)[5]);
                }
            }
            assert(!match_lit(s, i, quoted_name(NoteLane::LaneJ))) by {
                if match_lit(s, i, quoted_name(NoteLane::LaneJ)) {
                    assert(s.subrange(i, i + 7)[5] == quoted_name(NoteLane::LaneJ)[5]);
                }
            }
        },
        NoteLane::LaneL => {
            assert(!match_lit(s, i, quoted_name(NoteLane::LaneA))) by {
                if match_lit(s, i, quoted_name(NoteLane::LaneA)) {
                    assert(s.subrange(i, i + 7)[5] == quoted_name(NoteLane::LaneA)[5]);
                }
            }
            assert(!match_lit(s, i, quoted_name(NoteLane::LaneS))) by {
                if match_lit(s, i, quoted_name(NoteLane::LaneS)) {
                    assert(s.subrange(i, i + 7)[5] == quoted_name(NoteLane::LaneS)[5]);
                }
            }
            assert(!match_lit(s, i, quoted_name(NoteLane::LaneD))) by {
                if match_lit(s, i, quoted_name(NoteLane::LaneD)) {
                    assert(s.subrange(i, i + 7)[5] == quoted_name(NoteLane::LaneD)[5]);
                }
            }
            assert(!match_lit(s, i, quoted_name(NoteLane::LaneF))) by {
                if match_lit(s, i, quoted_name(NoteLane::LaneF)) {
                    assert(s.subrange(i, i + 7)[5] == quoted_name(NoteLane::LaneF)[5]);
                }
            }
            assert(!match_lit(s, i, quoted_name(NoteLane::LaneJ))) by {
                if match_lit(s, i, quoted_name(NoteLane::LaneJ)) {
                    assert(s.subrange(i, i + 7)[5] == quoted_name(NoteLane::LaneJ)[5]);
                }
            }
            assert(!match_lit(s, i, quoted_name(NoteLane::LaneK))) by {
                if match_lit(s, i, quoted_name(NoteLane::LaneK)) {
                    assert(s.subrange(i, i + 7)[5] == quoted_name(NoteLane::LaneK)[5]);
                }
            }
        },
        NoteLane::LaneSemicolon => {
            assert(!match_lit(s, i, quoted_name(NoteLane::LaneA))) by {
                if match_lit(s, i, quoted_name(NoteLane::LaneA)) {
                    assert(s.subrange(i, i + 7)[5] == quoted_name(NoteLane::LaneA)[5]);
                }
            }
            assert(!match_lit(s, i, quoted_name(NoteLane::LaneS))) by {
                if match_lit(s, i, quoted_name(NoteLane::LaneS)) {
                    assert(s.subrange(i, i + 7)[6] == quoted_name(NoteLane::LaneS)[6]);
                    assert(s[i + 6] == 34);
                    assert(s[i + 6] == 101);
                }
            }
            assert(!match_lit(s, i, quoted_name(NoteLane::LaneD))) by {
                if match_lit(s, i, quoted_name(NoteLane::LaneD)) {
                    assert(s.subrange(i, i + 7)[5] == quoted_name(NoteLane::LaneD)[5]);
                }
            }
            assert(!match_lit(s, i, quoted_name(NoteLane::LaneF))) by {
                if match_lit(s, i, quoted_name(NoteLane::LaneF)) {
                    assert(s.subrange(i, i + 7)[5] == quoted_name(NoteLane::LaneF)[5]);
                }
            }
            assert(!match_lit(s, i, quoted_name(NoteLane::LaneJ))) by {
                if match_lit(s, i, quoted_name(NoteLane::LaneJ)) {
                    assert(s.subrange(i, i + 7)[5] == quoted_name(NoteLane::LaneJ)[5]);
                }
            }
            assert(!match_lit(s, i, quoted_name(NoteLane::LaneK))) by {
                if match_lit(s, i, quoted_name(NoteLane::LaneK)) {
                    assert(s.subrange(i, i + 7)[5] == quoted_name(NoteLane::LaneK)[5]);
                }
            }
            assert(!match_lit(s, i, quoted_name(NoteLane::LaneL))) by {
                if match_lit(s, i, quoted_name(NoteLane::LaneL)) {
                    assert(s.subrange(i, i + 7)[5] == quoted_name(NoteLane::LaneL)[5]);
                }
            }
        },
    }
}

/// A match of a concatenation splits into matches of its parts.
pub proof fn lemma_match_lit_split(s: Seq<u8>, i: int, a: Seq<u8>, b: Seq<u8>)
    requires
        match_lit(s, i, a + b),
    ensures
        match_lit(s, i, a),
        match_lit(s, i + a.len(), b),
{
    let ab = a + b;
    let al = a.len() as int;
    let bl = b.len() as int;
    assert(s.subrange(i, i + al) =~= a) by {
        assert forall|t: int| 0 <= t < al implies #[trigger] s.subrange(i, i + al)[t] == a[t] by {
            assert(s.subrange(i, i + ab.len() as int)[t] == ab[t]);
        }
    }
    assert(s.subrange(i + al, i + al + bl) =~= b) by {
        assert forall|t: int|
            0 <= t < bl implies #[trigger] s.subrange(i + al, i + al + bl)[t] == b[t] by {
            assert(s.subrange(i, i + ab.len() as int)[al + t] == ab[al + t]);
        }
    }
}

/// A matched single byte is that byte of the input.
pub proof fn lemma_match_byte(s: Seq<u8>, i: int, c: u8)
    requires
        match_lit(s, i, seq![c]),
    ensures
        0 <= i < s.len(),
        s[i] == c,
{
    assert(s.subrange(i, i + 1)[0] == c);
}

/// An encoded record in the input parses to that record and consumes
/// exactly its bytes.
#[verifier::rlimit(100)]
pub proof fn lemma_parse_record_encoded(s: Seq<u8>, i: int, n: NoteId)
    requires
        match_lit(s, i, enc_note(n)),
    ensures
        parse_record(s, i) == Some((n, i + enc_note(n).len())),
{
    let u = enc_u(n.timing as nat);
    let d = u.len() as int;
    let q = quoted_name(n.lane);
    let m = q.len() as int;
    lemma_enc_u_digits(n.timing as nat);

    // Split the record into its five pieces.
    lemma_match_lit_split(s, i, lit_rec_open() + u + lit_rec_mid() + q, lit_rec_close());
    lemma_match_lit_split(s, i, lit_rec_open() + u + lit_rec_mid(), q);
    lemma_match_lit_split(s, i, lit_rec_open() + u, lit_rec_mid());
    lemma_match_lit_split(s, i, lit_rec_open(), u);

    // Split the opening piece `{ timing = ` into tokens.
    assert(lit_rec_open() =~= seq![123u8] + seq![32u8] + lit_timing() + seq![32u8] + seq![61u8]
        + seq![32u8]);
    lemma_match_lit_split(
        s,
        i,
        seq![123u8] + seq![32u8] + lit_timing() + seq![32u8] + seq![61u8],
        seq![32u8],
    );
    lemma_match_lit_split(s, i, seq![123u8] + seq![32u8] + lit_timing() + seq![32u8], seq![61u8]);
    lemma_match_lit_split(s, i, seq![123u8] + seq![32u8] + lit_timing(), seq![32u8]);
    lemma_match_lit_split(s, i, seq![123u8] + seq![32u8], lit_timing());
    lemma_match_lit_split(s, i, seq![123u8], seq![32u8]);

    // Split the middle piece `, lane = ` into tokens.
    assert(lit_rec_mid() =~= seq![44u8] + seq![32u8] + lit_lane() + seq![32u8] + seq![61u8]
        + seq![32u8]);
    let bm = i + 11 + d;
    lemma_match_lit_split(
        s,
        bm,
        seq![44u8] + seq![32u8] + lit_lane() + seq![32u8] + seq![61u8],
        seq![32u8],
    );
    lemma_match_lit_split(s, bm, seq![44u8] + seq![32u8] + lit_lane() + seq![32u8], seq![61u8]);
    lemma_match_lit_split(s, bm, seq![44u8] + seq![32u8] + lit_lane(), seq![32u8]);
    lemma_match_lit_split(s, bm, seq![44u8] + seq![32u8], lit_lane());
    lemma_match_lit_split(s, bm, seq![44u8], seq![32u8]);

    // Split the closing piece ` }`.
    assert(lit_rec_close() =~= seq![32u8] + seq![125u8]);
    lemma_match_lit_split(s, i + 20 + d + m, seq![32u8], seq![125u8]);

    // The individual bytes that drive whitespace skipping.
    lemma_match_byte(s, i, 123);
    lemma_match_byte(s, i + 1, 32);
    lemma_match_byte(s, i + 8, 32);
    lemma_match_byte(s, i + 9, 61);
    lemma_match_byte(s, i + 10, 32);
    lemma_match_byte(s, bm, 44);
    lemma_match_byte(s, bm + 1, 32);
    lemma_match_byte(s, bm + 6, 32);
    lemma_match_byte(s, bm + 7, 61);
    lemma_match_byte(s, bm + 8, 32);
    lemma_match_byte(s, i + 20 + d + m, 32);
    lemma_match_byte(s, i + 21 + d + m, 125);
    assert(s[i + 2] == 116) by {
        assert(s.subrange(i + 2, i + 8)[0] == lit_timing()[0]);
    }
    assert(s[bm + 2] == 108) by {
        assert(s.subrange(bm + 2, bm + 6)[0] == lit_lane()[0]);
    }
    assert(s[i + 11] == u[0] && is_digit(u[0])) by {
        assert(s.subrange(i + 11, i + 11 + d)[0] == u[0]);
    }
    assert(s[i + 20 + d] == 34) by {
        assert(s.subrange(i + 20 + d, i + 20 + d + m)[0] == q[0]);
    }

    // Walk the grammar.
    assert(skip_ws(s, i + 1) == i + 2) by {
        lemma_skip_one_space(s, i + 1);
    }
    assert(skip_ws(s, i + 8) == i + 9) by {
        lemma_skip_one_space(s, i + 8);
    }
    assert(skip_ws(s, i + 10) == i + 11) by {
        lemma_skip_one_space(s, i + 10);
    }
    lemma_append_val_zero(n.timing as nat);
    lemma_parse_digits(s, i + 11, 0, n.timing as nat);
    assert(parse_uint_rec(s, bm, n.timing as nat) == Some((n.timing as nat, bm)));
    assert(parse_uint(s, i + 11) == Some((n.timing as nat, bm)));
    assert(skip_ws(s, bm) == bm);
    assert(skip_ws(s, bm + 1) == bm + 2) by {
        lemma_skip_one_space(s, bm + 1);
    }
    assert(skip_ws(s, bm + 6) == bm + 7) by {
        lemma_skip_one_space(s, bm + 6);
    }
    assert(skip_ws(s, bm + 8) == bm + 9) by {
        lemma_skip_one_space(s, bm + 8);
    }
    assert(bm + 9 == i + 20 + d);
    lemma_parse_lane_encoded(s, i + 20 + d, n.lane);
    assert(parse_lane(s, i + 20 + d) == Some((n.lane, i + 20 + d + m)));
    assert(skip_ws(s, i + 20 + d + m) == i + 21 + d + m) by {
        lemma_skip_one_space(s, i + 20 + d + m);
    }
    assert(enc_note(n).len() == 22 + d + m);
    assert(parse_record(s, i) == Some((NoteId { timing: n.timing, lane: n.lane }, i + 22 + d
        + m)));
    assert(NoteId { timing: n.timing, lane: n.lane } == n);
}

/// An encoded record list followed by `]` parses back to exactly those
/// notes, consuming through the bracket.
pub proof fn lemma_parse_records_encoded(s: Seq<u8>, i: int, ns: Seq<NoteId>)
    requires
        ns.len() > 0,
        match_lit(s, i, enc_notes(ns)),
        i + enc_notes(ns).len() < s.len(),
        s[i + enc_notes(ns).len() as int] == 93,
    ensures
        parse_records(s, i) == Some((ns, i + enc_notes(ns).len() + 1)),
    decreases ns.len(),
{
    let e = enc_notes(ns);
    let el = e.len() as int;
    let first = enc_note(ns[0]);
    let l0 = first.len() as int;
    let rest = ns.drop_first();
    assert(e == first + seq![44u8, 32u8] + enc_notes(rest));
    lemma_match_lit_split(s, i, first + seq![44u8, 32u8], enc_notes(rest));
    lemma_match_lit_split(s, i, first, seq![44u8, 32u8]);
    assert(seq![44u8, 32u8] =~= seq![44u8] + seq![32u8]);
    lemma_match_lit_split(s, i + l0, seq![44u8], seq![32u8]);
    lemma_match_byte(s, i + l0, 44);
    lemma_match_byte(s, i + l0 + 1, 32);
    lemma_parse_record_encoded(s, i, ns[0]);
    assert(skip_ws(s, i + l0) == i + l0);
    if rest.len() == 0 {
        assert(enc_notes(rest).len() == 0);
        assert(el == l0 + 2);
        assert(s[i + l0 + 2] == 93);
        assert(skip_ws(s, i + l0 + 1) == i + l0 + 2) by {
            lemma_skip_one_space(s, i + l0 + 1);
        }
        assert(match_lit(s, i + l0 + 2, seq![93u8])) by {
            assert(s.subrange(i + l0 + 2, i + l0 + 3) =~= seq![93u8]);
        }
        assert(match_lit(s, i + l0, seq![44u8]));
        assert(parse_records(s, i) == Some((seq![ns[0]], i + l0 + 3)));
        assert(seq![ns[0]] =~= ns);
    } else {
        let er = enc_notes(rest);
        assert(er == enc_note(rest[0]) + seq![44u8, 32u8] + enc_notes(rest.drop_first()));
        assert(er[0] == 123) by {
            assert(enc_note(rest[0])[0] == lit_rec_open()[0]);
            assert((enc_note(rest[0]) + seq![44u8, 32u8])[0] == enc_note(rest[0])[0]);
        }
        assert(s[i + l0 + 2] == 123) by {
            assert(s.subrange(i + l0 + 2, i + l0 + 2 + er.len() as int)[0] == er[0]);
        }
        assert(skip_ws(s, i + l0 + 1) == i + l0 + 2) by {
            lemma_skip_one_space(s, i + l0 + 1);
        }
        assert(!match_lit(s, i + l0 + 2, seq![93u8])) by {
            if match_lit(s, i + l0 + 2, seq![93u8]) {
                assert(s.subrange(i + l0 + 2, i + l0 + 3)[0] == 93);
            }
        }
        lemma_parse_records_encoded(s, i + l0 + 2, rest);
        assert(parse_records(s, i + l0 + 2) == Some((rest, i + el + 1)));
        assert(parse_records(s, i) == Some((seq![ns[0]] + rest, i + el + 1)));
        assert(seq![ns[0]] + rest =~= ns);
    }
}

/// Shared facts about the layout of an encoded document: the header tokens,
/// the record-list bytes, and the closing bracket and newline.
proof fn lemma_encode_layout(ns: Seq<NoteId>)
    ensures
        encode_beatmap(ns).len() == 12 + enc_notes(ns).len(),
        skip_ws(encode_beatmap(ns), 0) == 0,
        match_lit(encode_beatmap(ns), 0, lit_notes()),
        skip_ws(encode_beatmap(ns), 5) == 6,
        match_lit(encode_beatmap(ns), 6, seq![61u8]),
        skip_ws(encode_beatmap(ns), 7) == 8,
        match_lit(encode_beatmap(ns), 8, seq![91u8]),
        encode_beatmap(ns)[9] == 32,
        match_lit(encode_beatmap(ns), 10, enc_notes(ns)),
        encode_beatmap(ns)[10 + enc_notes(ns).len() as int] == 93,
        encode_beatmap(ns)[11 + enc_notes(ns).len() as int] == 10,
{
    let s = encode_beatmap(ns);
    let e = enc_notes(ns);
    let el = e.len() as int;
    assert(s.len() == 12 + el);
    assert(match_lit(s, 0, s)) by {
        assert(s.subrange(0, s.len() as int) =~= s);
    }
    lemma_match_lit_split(s, 0, lit_header() + e, seq![93u8, 10u8]);
    lemma_match_lit_split(s, 0, lit_header(), e);
    assert(seq![93u8, 10u8] =~= seq![93u8] + seq![10u8]);
    lemma_match_lit_split(s, 10 + el, seq![93u8], seq![10u8]);
    lemma_match_byte(s, 10 + el, 93);
    lemma_match_byte(s, 11 + el, 10);
    assert(lit_header() =~= lit_notes() + seq![32u8] + seq![61u8] + seq![32u8] + seq![91u8]
        + seq![32u8]);
    lemma_match_lit_split(
        s,
        0,
        lit_notes() + seq![32u8] + seq![61u8] + seq![32u8] + seq![91u8],
        seq![32u8],
    );
    lemma_match_lit_split(s, 0, lit_notes() + seq![32u8] + seq![61u8] + seq![32u8], seq![91u8]);
    lemma_match_lit_split(s, 0, lit_notes() + seq![32u8] + seq![61u8], seq![32u8]);
    lemma_match_lit_split(s, 0, lit_notes() + seq![32u8], seq![61u8]);
    lemma_match_lit_split(s, 0, lit_notes(), seq![32u8]);
    lemma_match_byte(s, 5, 32);
    lemma_match_byte(s, 6, 61);
    lemma_match_byte(s, 7, 32);
    lemma_match_byte(s, 8, 91);
    lemma_match_byte(s, 9, 32);
    assert(s[0] == 110) by {
        assert(s.subrange(0, 5)[0] == lit_notes()[0]);
    }
    assert(skip_ws(s, 0) == 0);
    assert(skip_ws(s, 5) == 6) by {
        lemma_skip_one_space(s, 5);
    }
    assert(skip_ws(s, 7) == 8) by {
        lemma_skip_one_space(s, 7);
    }
}

/// Round trip for an empty note sequence.
#[verifier::rlimit(50)]
proof fn lemma_round_trip_empty(ns: Seq<NoteId>)
    requires
        ns.len() == 0,
    ensures
        parse_beatmap(encode_beatmap(ns)) == Some(ns),
{
    let s = encode_beatmap(ns);
    let e = enc_notes(ns);
    let el = e.len() as int;
    lemma_encode_layout(ns);
    {
        assert(el == 0);
        assert(s[10] == 93);
        assert(skip_ws(s, 9) == 10) by {
            lemma_skip_one_space(s, 9);
        }
        assert(match_lit(s, 10, seq![93u8])) by {
            assert(s.subrange(10, 11) =~= seq![93u8]);
        }
        assert(skip_ws(s, 11) == 12) by {
            lemma_skip_one_space(s, 11);
        }
        assert(parse_beatmap(s) == Some(Seq::<NoteId>::empty()));
        assert(Seq::<NoteId>::empty() =~= ns);
    }
}

/// Round trip for a non-empty note sequence.
#[verifier::rlimit(50)]
proof fn lemma_round_trip_nonempty(ns: Seq<NoteId>)
    requires
        ns.len() > 0,
    ensures
        parse_beatmap(encode_beatmap(ns)) == Some(ns),
{
    let s = encode_beatmap(ns);
    let e = enc_notes(ns);
    let el = e.len() as int;
    lemma_encode_layout(ns);
    {
        assert(e == enc_note(ns[0]) + seq![44u8, 32u8] + enc_notes(ns.drop_first()));
        assert(e[0] == 123) by {
            assert(enc_note(ns[0])[0] == lit_rec_open()[0]);
            assert((enc_note(ns[0]) + seq![44u8, 32u8])[0] == enc_note(ns[0])[0]);
        }
        assert(s[10] == 123) by {
            assert(s.subrange(10, 10 + el)[0] == e[0]);
        }
        assert(skip_ws(s, 9) == 10) by {
            lemma_skip_one_space(s, 9);
        }
        assert(!match_lit(s, 10, seq![93u8])) by {
            if match_lit(s, 10, seq![93u8]) {
                assert(s.subrange(10, 11)[0] == 93);
            }
        }
        lemma_parse_records_encoded(s, 10, ns);
        assert(parse_records(s, 10) == Some((ns, 11 + el)));
        assert(skip_ws(s, 11 + el) == 12 + el) by {
            lemma_skip_one_space(s, 11 + el);
        }
        assert(parse_beatmap(s) == Some(ns));
    }
}

/// Round trip: the canonical document written for a note sequence parses
/// back to exactly that sequence.
pub proof fn lemma_save_load_round_trip(ns: Seq<NoteId>)
    ensures
        parse_beatmap(encode_beatmap(ns)) == Some(ns),
{
    if ns.len() == 0 {
        lemma_round_trip_empty(ns);
    } else {
        lemma_round_trip_nonempty(ns);
    }
}

/// Encoding a sequence with its last note appended extends the encoding of
/// the front.
pub proof fn lemma_enc_notes_snoc(ns: Seq<NoteId>)
    requires
        ns.len() > 0,
    ensures
        enc_notes(ns) == enc_notes(ns.drop_last()) + enc_note(ns.last()) + seq![44u8, 32u8],
    decreases ns.len(),
{
    if ns.len() == 1 {
        assert(ns.drop_last() =~= Seq::<NoteId>::empty());
        assert(ns[0] == ns.last());
        assert(ns.drop_last().len() == 0);
        assert(enc_notes(ns.drop_last()) =~= Seq::<u8>::empty());
        assert(enc_notes(ns) == enc_note(ns[0]) + seq![44u8, 32u8] + enc_notes(ns.drop_first()));
        assert(ns.drop_first() =~= Seq::<NoteId>::empty());
        assert(enc_notes(ns) =~= enc_notes(ns.drop_last()) + enc_note(ns.last()) + seq![
            44u8,
            32u8,
        ]);
    } else {
        lemma_enc_notes_snoc(ns.drop_first());
        assert(ns.drop_first().drop_last() =~= ns.drop_last().drop_first());
        assert(ns.drop_first().last() == ns.last());
        assert(ns.drop_last()[0] == ns[0]);
        assert(enc_notes(ns.drop_last()) == enc_note(ns[0]) + seq![44u8, 32u8] + enc_notes(
            ns.drop_last().drop_first(),
        ));
        assert(enc_notes(ns) =~= enc_notes(ns.drop_last()) + enc_note(ns.last()) + seq![
            44u8,
            32u8,
        ]);
    }
}

} // verus!
