//! The region-map parser: a line-oriented grammar over bytes.
//!
//! Each line of the OS-exposed map describes one region: a hexadecimal start
//! and end address separated by `-`, four permission characters in fixed
//! order (`r`/`-`, `w`/`-`, `x`/`-`, `p`/`s`/`-`), a hexadecimal file offset,
//! a hexadecimal device `major:minor` pair, a decimal inode number, and an
//! optional whitespace-separated backing name.  A line that does not match
//! the grammar is silently skipped; only a map with no matching line at all
//! is an error.

use vstd::prelude::*;

use crate::region::MemRegion;
use crate::region::MemRegionErr;
use crate::region::RegionModel;
use crate::region::region_models;

verus! {

/// ASCII `0`.
pub const DIGIT_0: u8 = 48;

/// ASCII `9`.
pub const DIGIT_9: u8 = 57;

/// ASCII `a`.
pub const LOWER_A: u8 = 97;

/// ASCII `f`.
pub const LOWER_F: u8 = 102;

/// ASCII `A`.
pub const UPPER_A: u8 = 65;

/// ASCII `F`.
pub const UPPER_F: u8 = 70;

/// ASCII `-`.
pub const HYPHEN: u8 = 45;

/// ASCII space.
pub const SPACE: u8 = 32;

/// ASCII `:`.
pub const COLON: u8 = 58;

/// ASCII line feed.
pub const NEWLINE: u8 = 10;

/// ASCII carriage return.
pub const CARRIAGE_RETURN: u8 = 13;

/// ASCII horizontal tab.
pub const TAB: u8 = 9;

/// ASCII vertical tab.
pub const VERTICAL_TAB: u8 = 11;

/// ASCII form feed.
pub const FORM_FEED: u8 = 12;

/// ASCII `r`.
pub const PERM_R: u8 = 114;

/// ASCII `w`.
pub const PERM_W: u8 = 119;

/// ASCII `x`.
pub const PERM_X: u8 = 120;

/// ASCII `p`.
pub const FLAG_P: u8 = 112;

/// ASCII `s`.
pub const FLAG_S: u8 = 115;

/// An ASCII hexadecimal digit.
pub open spec fn is_hex_digit(b: u8) -> bool {
    (DIGIT_0 <= b && b <= DIGIT_9) || (LOWER_A <= b && b <= LOWER_F) || (UPPER_A <= b && b
        <= UPPER_F)
}

/// The value of one hexadecimal digit.
pub open spec fn hex_digit_val(b: u8) -> nat {
    if DIGIT_0 <= b && b <= DIGIT_9 {
        (b - DIGIT_0) as nat
    } else if LOWER_A <= b && b <= LOWER_F {
        (b - LOWER_A + 10) as nat
    } else if UPPER_A <= b && b <= UPPER_F {
        (b - UPPER_A + 10) as nat
    } else {
        0
    }
}

/// An ASCII decimal digit.
pub open spec fn is_dec_digit(b: u8) -> bool {
    DIGIT_0 <= b && b <= DIGIT_9
}

/// A whitespace byte that may separate the inode field from the backing name.
/// Lines are split on line feeds beforehand, so a line feed never occurs in a
/// line.
pub open spec fn is_space_byte(b: u8) -> bool {
    b == SPACE || b == TAB || b == VERTICAL_TAB || b == FORM_FEED || b == CARRIAGE_RETURN
}

/// The end of the run of hexadecimal digits that starts at `i`: the first
/// index at or after `i` holding a non-digit, or `l.len()`.
pub open spec fn span_hex(l: Seq<u8>, i: int) -> int
    decreases l.len() - i
    when 0 <= i <= l.len()
{
    if i >= l.len() || !is_hex_digit(l[i]) {
        i
    } else {
        span_hex(l, i + 1)
    }
}

/// The end of the run of decimal digits that starts at `i`.
pub open spec fn span_dec(l: Seq<u8>, i: int) -> int
    decreases l.len() - i
    when 0 <= i <= l.len()
{
    if i >= l.len() || !is_dec_digit(l[i]) {
        i
    } else {
        span_dec(l, i + 1)
    }
}

/// The end of the run of whitespace bytes that starts at `i`.
pub open spec fn span_space(l: Seq<u8>, i: int) -> int
    decreases l.len() - i
    when 0 <= i <= l.len()
{
    if i >= l.len() || !is_space_byte(l[i]) {
        i
    } else {
        span_space(l, i + 1)
    }
}

proof fn lemma_span_hex(l: Seq<u8>, i: int)
    requires
        0 <= i <= l.len(),
    ensures
        i <= span_hex(l, i) <= l.len(),
        forall|k: int| i <= k < span_hex(l, i) ==> is_hex_digit(l[k]),
        span_hex(l, i) < l.len() ==> !is_hex_digit(l[span_hex(l, i)]),
    decreases l.len() - i,
{
    if i < l.len() && is_hex_digit(l[i]) {
        lemma_span_hex(l, i + 1);
    }
}

proof fn lemma_span_dec(l: Seq<u8>, i: int)
    requires
        0 <= i <= l.len(),
    ensures
        i <= span_dec(l, i) <= l.len(),
        forall|k: int| i <= k < span_dec(l, i) ==> is_dec_digit(l[k]),
        span_dec(l, i) < l.len() ==> !is_dec_digit(l[span_dec(l, i)]),
    decreases l.len() - i,
{
    if i < l.len() && is_dec_digit(l[i]) {
        lemma_span_dec(l, i + 1);
    }
}

proof fn lemma_span_space(l: Seq<u8>, i: int)
    requires
        0 <= i <= l.len(),
    ensures
        i <= span_space(l, i) <= l.len(),
        forall|k: int| i <= k < span_space(l, i) ==> is_space_byte(l[k]),
        span_space(l, i) < l.len() ==> !is_space_byte(l[span_space(l, i)]),
    decreases l.len() - i,
{
    if i < l.len() && is_space_byte(l[i]) {
        lemma_span_space(l, i + 1);
    }
}

/// The value of a string of hexadecimal digits, most significant first.
pub open spec fn hex_val(s: Seq<u8>) -> nat
    decreases s.len(),
{
    if s.len() == 0 {
        0
    } else {
        hex_val(s.drop_last()) * 16 + hex_digit_val(s.last())
    }
}

/// The backing name carried by the tail of a line, where `i` is the end of
/// the inode field: no name when the tail is empty or all whitespace, else
/// the text after the separating whitespace run, verbatim.
pub open spec fn tail_name(l: Seq<u8>, i: int) -> Option<Seq<u8>> {
    if i >= l.len() {
        Option::None
    } else {
        let j = span_space(l, i);
        if j >= l.len() {
            Option::None
        } else {
            Option::Some(l.subrange(j, l.len() as int))
        }
    }
}

/// What one line of the map denotes: `None` for a line that does not match
/// the grammar (such a line is skipped), or the region it describes.
///
/// A matching line whose addresses are not strictly increasing, or whose
/// addresses do not fit the machine's integer types, is treated as
/// non-matching: every parsed region is well formed.
pub open spec fn parse_line_spec(l: Seq<u8>) -> Option<RegionModel> {
    let e1 = span_hex(l, 0);
    if !(0 < e1 && e1 < l.len() && l[e1] == HYPHEN) {
        Option::None
    } else {
        let s2 = e1 + 1;
        let e2 = span_hex(l, s2);
        if !(s2 < e2 && e2 < l.len() && l[e2] == SPACE) {
            Option::None
        } else if !(e2 + 5 < l.len() && (l[e2 + 1] == PERM_R || l[e2 + 1] == HYPHEN) && (l[e2 + 2]
            == PERM_W || l[e2 + 2] == HYPHEN) && (l[e2 + 3] == PERM_X || l[e2 + 3] == HYPHEN) && (l[e2 + 4]
            == FLAG_P || l[e2 + 4] == FLAG_S || l[e2 + 4] == HYPHEN) && l[e2 + 5] == SPACE) {
            Option::None
        } else {
            let so = e2 + 6;
            let eo = span_hex(l, so);
            if !(so < eo && eo < l.len() && l[eo] == SPACE) {
                Option::None
            } else {
                let sj = eo + 1;
                let ej = span_hex(l, sj);
                if !(sj < ej && ej < l.len() && l[ej] == COLON) {
                    Option::None
                } else {
                    let sn = ej + 1;
                    let en = span_hex(l, sn);
                    if !(sn < en && en < l.len() && l[en] == SPACE) {
                        Option::None
                    } else {
                        let si = en + 1;
                        let ei = span_dec(l, si);
                        if !(si < ei && (ei == l.len() || is_space_byte(l[ei]))) {
                            Option::None
                        } else {
                            let sa = hex_val(l.subrange(0, e1));
                            let ea = hex_val(l.subrange(s2, e2));
                            if !(sa < ea && ea <= u64::MAX && ea - sa <= usize::MAX) {
                                Option::None
                            } else {
                                Option::Some(
                                    RegionModel {
                                        start_addr: sa as u64,
                                        end_addr: ea as u64,
                                        size: (ea - sa) as usize,
                                        readable: l[e2 + 1] == PERM_R,
                                        writeable: l[e2 + 2] == PERM_W,
                                        execable: l[e2 + 3] == PERM_X,
                                        private: l[e2 + 4] == FLAG_P,
                                        shared: l[e2 + 4] == FLAG_S,
                                        name: tail_name(l, ei),
                                    },
                                )
                            }
                        }
                    }
                }
            }
        }
    }
}

/// Every region a matching line denotes is well formed: its end address is
/// strictly above its start address and its size is exactly their difference.
pub proof fn lemma_parsed_line_wf(l: Seq<u8>)
    ensures
        parse_line_spec(l) matches Option::Some(m) ==> m.wf(),
{
}

/// The first `\n` at or after `i`, or `t.len()` when none remains.
pub open spec fn line_end(t: Seq<u8>, i: int) -> int
    decreases t.len() - i
    when 0 <= i <= t.len()
{
    if i >= t.len() || t[i] == NEWLINE {
        i
    } else {
        line_end(t, i + 1)
    }
}

proof fn lemma_line_end(t: Seq<u8>, i: int)
    requires
        0 <= i <= t.len(),
    ensures
        i <= line_end(t, i) <= t.len(),
        forall|k: int| i <= k < line_end(t, i) ==> t[k] != NEWLINE,
        line_end(t, i) < t.len() ==> t[line_end(t, i)] == NEWLINE,
    decreases t.len() - i,
{
    if i < t.len() && t[i] != NEWLINE {
        lemma_line_end(t, i + 1);
    }
}

/// A line with a trailing carriage return is read as if it ended before it.
pub open spec fn strip_cr(l: Seq<u8>) -> Seq<u8> {
    if l.len() > 0 && l.last() == CARRIAGE_RETURN {
        l.drop_last()
    } else {
        l
    }
}

/// The regions denoted by the lines of `t` from position `i` on, in order.
pub open spec fn regions_from(t: Seq<u8>, i: int) -> Seq<RegionModel>
    decreases t.len() - i
    when 0 <= i <= t.len()
    via regions_from_dec
{
    let e = line_end(t, i);
    let cur = parse_line_spec(strip_cr(t.subrange(i, e)));
    let rest = if e < t.len() {
        regions_from(t, e + 1)
    } else {
        Seq::empty()
    };
    match cur {
        Option::Some(r) => seq![r] + rest,
        Option::None => rest,
    }
}

#[via_fn]
proof fn regions_from_dec(t: Seq<u8>, i: int) {
    lemma_line_end(t, i);
}

/// The regions denoted by the whole map text, in the order of their lines.
pub open spec fn spec_regions(t: Seq<u8>) -> Seq<RegionModel> {
    regions_from(t, 0)
}

/// Every region of a parsed map is well formed.
pub proof fn lemma_regions_from_wf(t: Seq<u8>, i: int)
    requires
        0 <= i <= t.len(),
    ensures
        forall|k: int|
            0 <= k < regions_from(t, i).len() ==> (#[trigger] regions_from(t, i)[k]).wf(),
    decreases t.len() - i,
{
    lemma_line_end(t, i);
    let e = line_end(t, i);
    lemma_parsed_line_wf(strip_cr(t.subrange(i, e)));
    let cur = parse_line_spec(strip_cr(t.subrange(i, e)));
    let rest = if e < t.len() {
        regions_from(t, e + 1)
    } else {
        Seq::<RegionModel>::empty()
    };
    if e < t.len() {
        lemma_regions_from_wf(t, e + 1);
    }
    match cur {
        Option::Some(r) => {
            assert(regions_from(t, i) == seq![r] + rest);
            assert forall|k: int|
                0 <= k < regions_from(t, i).len() implies (#[trigger] regions_from(t, i)[k]).wf() by {
                if k == 0 {
                    assert(regions_from(t, i)[k] == r);
                } else {
                    assert(regions_from(t, i)[k] == rest[k - 1]);
                }
            }
        },
        Option::None => {
            assert(regions_from(t, i) == rest);
        },
    }
}

/// Parsing is a function of the map text alone: two parses of the same text
/// denote the same region list, element for element.
pub proof fn lemma_parse_idempotent(t: Seq<u8>, r1: Seq<RegionModel>, r2: Seq<RegionModel>)
    requires
        r1 == spec_regions(t),
        r2 == spec_regions(t),
    ensures
        r1 == r2,
{
}

fn is_hex_digit_b(b: u8) -> (r: bool)
    ensures
        r == is_hex_digit(b),
{
    (DIGIT_0 <= b && b <= DIGIT_9) || (LOWER_A <= b && b <= LOWER_F) || (UPPER_A <= b && b
        <= UPPER_F)
}

fn is_dec_digit_b(b: u8) -> (r: bool)
    ensures
        r == is_dec_digit(b),
{
    DIGIT_0 <= b && b <= DIGIT_9
}

fn is_space_byte_b(b: u8) -> (r: bool)
    ensures
        r == is_space_byte(b),
{
    b == SPACE || b == TAB || b == VERTICAL_TAB || b == FORM_FEED || b == CARRIAGE_RETURN
}

fn hex_digit_val_b(b: u8) -> (r: u8)
    requires
        is_hex_digit(b),
    ensures
        r as nat == hex_digit_val(b),
        r < 16,
{
    if DIGIT_0 <= b && b <= DIGIT_9 {
        b - DIGIT_0
    } else if LOWER_A <= b && b <= LOWER_F {
        b - LOWER_A + 10
    } else {
        b - UPPER_A + 10
    }
}

fn scan_hex(l: &[u8], i: usize) -> (j: usize)
    requires
        i <= l@.len(),
    ensures
        j as int == span_hex(l@, i as int),
        i <= j <= l@.len(),
{
    let mut j: usize = i;
    while j < l.len() && is_hex_digit_b(l[j])
        invariant
            i <= j <= l@.len(),
            span_hex(l@, i as int) == span_hex(l@, j as int),
        decreases l@.len() - j,
    {
        j = j + 1;
    }
    j
}

fn scan_dec(l: &[u8], i: usize) -> (j: usize)
    requires
        i <= l@.len(),
    ensures
        j as int == span_dec(l@, i as int),
        i <= j <= l@.len(),
{
    let mut j: usize = i;
    while j < l.len() && is_dec_digit_b(l[j])
        invariant
            i <= j <= l@.len(),
            span_dec(l@, i as int) == span_dec(l@, j as int),
        decreases l@.len() - j,
    {
        j = j + 1;
    }
    j
}

fn scan_space(l: &[u8], i: usize) -> (j: usize)
    requires
        i <= l@.len(),
    ensures
        j as int == span_space(l@, i as int),
        i <= j <= l@.len(),
{
    let mut j: usize = i;
    while j < l.len() && is_space_byte_b(l[j])
        invariant
            i <= j <= l@.len(),
            span_space(l@, i as int) == span_space(l@, j as int),
        decreases l@.len() - j,
    {
        j = j + 1;
    }
    j
}

fn find_line_end(t: &[u8], i: usize) -> (j: usize)
    requires
        i <= t@.len(),
    ensures
        j as int == line_end(t@, i as int),
        i <= j <= t@.len(),
{
    let mut j: usize = i;
    while j < t.len() && t[j] != NEWLINE
        invariant
            i <= j <= t@.len(),
            line_end(t@, i as int) == line_end(t@, j as int),
        decreases t@.len() - j,
    {
        j = j + 1;
    }
    j
}

/// A longer digit string never has a smaller value.
proof fn lemma_hex_val_mono(l: Seq<u8>, s: int, j: int, k: int)
    requires
        0 <= s <= j <= k <= l.len(),
    ensures
        hex_val(l.subrange(s, j)) <= hex_val(l.subrange(s, k)),
    decreases k - j,
{
    if j < k {
        lemma_hex_val_mono(l, s, j, k - 1);
        assert(l.subrange(s, k).drop_last() =~= l.subrange(s, k - 1));
    }
}

/// The value of the hexadecimal digits `l[start .. end]`, or `None` when it
/// exceeds the largest 64-bit address.
fn parse_hex_u64(l: &[u8], start: usize, end: usize) -> (r: Option<u64>)
    requires
        start < end <= l@.len(),
        forall|k: int| start <= k < end ==> is_hex_digit(l@[k]),
    ensures
        match r {
            Option::Some(v) => v as nat == hex_val(l@.subrange(start as int, end as int)),
            Option::None => hex_val(l@.subrange(start as int, end as int)) > u64::MAX,
        },
{
    let mut acc: u64 = 0;
    let mut k: usize = start;
    while k < end
        invariant
            start <= k <= end <= l@.len(),
            forall|m: int| start <= m < end ==> is_hex_digit(l@[m]),
            acc as nat == hex_val(l@.subrange(start as int, k as int)),
        decreases end - k,
    {
        if acc >= 0x1000000000000000u64 {
            proof {
                assert(l@.subrange(start as int, k as int + 1).drop_last() =~= l@.subrange(
                    start as int,
                    k as int,
                ));
                assert(hex_val(l@.subrange(start as int, k as int + 1)) >= acc * 16);
                lemma_hex_val_mono(l@, start as int, k as int + 1, end as int);
            }
            return Option::None;
        }
        let d = hex_digit_val_b(l[k]);
        proof {
            assert(l@.subrange(start as int, k as int + 1).drop_last() =~= l@.subrange(
                start as int,
                k as int,
            ));
            assert(l@.subrange(start as int, k as int + 1).last() == l@[k as int]);
        }
        acc = acc * 16 + (d as u64);
        k = k + 1;
    }
    Option::Some(acc)
}

/// Parse one line of the map.  Returns the region the line describes, or
/// `None` for a line that does not match the grammar; such a line is the
/// caller's to skip.
pub fn parse_line(l: &[u8]) -> (r: Option<MemRegion>)
    ensures
        match r {
            Option::Some(reg) => parse_line_spec(l@) == Option::Some(reg@),
            Option::None => parse_line_spec(l@) is None,
        },
{
    let e1 = scan_hex(l, 0);
    if !(0 < e1 && e1 < l.len() && l[e1] == HYPHEN) {
        return Option::None;
    }
    let s2 = e1 + 1;
    let e2 = scan_hex(l, s2);
    if !(s2 < e2 && e2 < l.len() && l[e2] == SPACE) {
        return Option::None;
    }
    if l.len() - e2 <= 5 {
        return Option::None;
    }
    if !((l[e2 + 1] == PERM_R || l[e2 + 1] == HYPHEN) && (l[e2 + 2] == PERM_W || l[e2 + 2]
        == HYPHEN) && (l[e2 + 3] == PERM_X || l[e2 + 3] == HYPHEN) && (l[e2 + 4] == FLAG_P || l[e2
        + 4] == FLAG_S || l[e2 + 4] == HYPHEN) && l[e2 + 5] == SPACE) {
        return Option::None;
    }
    let so = e2 + 6;
    let eo = scan_hex(l, so);
    if !(so < eo && eo < l.len() && l[eo] == SPACE) {
        return Option::None;
    }
    let sj = eo + 1;
    let ej = scan_hex(l, sj);
    if !(sj < ej && ej < l.len() && l[ej] == COLON) {
        return Option::None;
    }
    let sn = ej + 1;
    let en = scan_hex(l, sn);
    if !(sn < en && en < l.len() && l[en] == SPACE) {
        return Option::None;
    }
    let si = en + 1;
    let ei = scan_dec(l, si);
    if !(si < ei) {
        return Option::None;
    }
    if ei < l.len() && !is_space_byte_b(l[ei]) {
        return Option::None;
    }
    proof {
        lemma_span_hex(l@, 0);
        lemma_span_hex(l@, s2 as int);
    }
    let sa = match parse_hex_u64(l, 0, e1) {
        Option::Some(v) => v,
        Option::None => {
            return Option::None;
        },
    };
    let ea = match parse_hex_u64(l, s2, e2) {
        Option::Some(v) => v,
        Option::None => {
            return Option::None;
        },
    };
    if !(sa < ea) {
        return Option::None;
    }
    let diff = ea - sa;
    if diff > usize::MAX as u64 {
        return Option::None;
    }
    let name: Option<Vec<u8>> = if ei >= l.len() {
        Option::None
    } else {
        let j = scan_space(l, ei);
        if j >= l.len() {
            Option::None
        } else {
            Option::Some(vstd::slice::slice_to_vec(vstd::slice::slice_subrange(l, j, l.len())))
        }
    };
    let reg = MemRegion {
        start_addr: sa,
        end_addr: ea,
        size: diff as usize,
        readable: l[e2 + 1] == PERM_R,
        writeable: l[e2 + 2] == PERM_W,
        execable: l[e2 + 3] == PERM_X,
        private: l[e2 + 4] == FLAG_P,
        shared: l[e2 + 4] == FLAG_S,
        name,
    };
    proof {
        assert(parse_line_spec(l@) matches Option::Some(m) && m =~= reg@);
    }
    Option::Some(reg)
}

/// Parse a whole map text: the region of every line that matches the
/// grammar, in line order.  A map in which no line matches yields the
/// `Empty` error, never an empty success.
pub fn parse_maps_bytes(maps: &[u8]) -> (r: Result<Vec<MemRegion>, MemRegionErr>)
    ensures
        match r {
            Ok(v) => region_models(v@) == spec_regions(maps@) && v@.len() > 0 && forall|k: int|
                0 <= k < v@.len() ==> (#[trigger] v@[k])@.wf(),
            Err(e) => e == MemRegionErr::Empty && spec_regions(maps@).len() == 0,
        },
{
    let mut out: Vec<MemRegion> = Vec::new();
    let mut pos: usize = 0;
    let mut done: bool = false;
    while !done
        invariant
            pos <= maps@.len(),
            !done ==> region_models(out@) + regions_from(maps@, pos as int) == spec_regions(
                maps@,
            ),
            done ==> region_models(out@) == spec_regions(maps@),
        decreases maps@.len() - pos + (if done {
            0int
        } else {
            1int
        }),
    {
        let e = find_line_end(maps, pos);
        proof {
            lemma_line_end(maps@, pos as int);
        }
        let mut le = e;
        if le > pos && maps[le - 1] == CARRIAGE_RETURN {
            le = le - 1;
        }
        let line = vstd::slice::slice_subrange(maps, pos, le);
        proof {
            if e > pos && maps@[e as int - 1] == CARRIAGE_RETURN {
                assert(maps@.subrange(pos as int, e as int).last() == maps@[e as int - 1]);
                assert(maps@.subrange(pos as int, e as int).drop_last() =~= maps@.subrange(
                    pos as int,
                    le as int,
                ));
            }
            assert(line@ =~= strip_cr(maps@.subrange(pos as int, e as int)));
        }
        let ghost prev = out@;
        let ghost rest = if e < maps@.len() {
            regions_from(maps@, e as int + 1)
        } else {
            Seq::<RegionModel>::empty()
        };
        proof {
            assert(regions_from(maps@, pos as int) == (match parse_line_spec(line@) {
                Option::Some(r) => seq![r] + rest,
                Option::None => rest,
            }));
        }
        match parse_line(line) {
            Option::Some(reg) => {
                out.push(reg);
                proof {
                    assert(region_models(out@) =~= region_models(prev).push(reg@));
                    assert(region_models(prev).push(reg@) + rest =~= region_models(prev) + (seq![
                        reg@,
                    ] + rest));
                }
            },
            Option::None => {},
        }
        if e < maps.len() {
            pos = e + 1;
        } else {
            done = true;
            proof {
                assert(region_models(out@) + Seq::<RegionModel>::empty() =~= region_models(out@));
            }
        }
    }
    if out.len() == 0 {
        proof {
            assert(region_models(out@).len() == 0);
        }
        Err(MemRegionErr::Empty)
    } else {
        proof {
            assert forall|k: int| 0 <= k < out@.len() implies (#[trigger] out@[k])@.wf() by {
                lemma_regions_from_wf(maps@, 0);
                assert(region_models(out@)[k] == out@[k]@);
            }
        }
        Ok(out)
    }
}

} // verus!
