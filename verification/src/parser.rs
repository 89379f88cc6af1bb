//! The Exlex grammar and its parser.
//!
//! A document is a sequence of bytes read by a cursor-driven state machine:
//! whitespace is skipped, `#` starts a comment that runs to the end of the
//! line, `"key" : "value"` defines a property of the innermost open section,
//! `sect "name" {` opens a section, `}` closes it, and any other byte is
//! passed over. The grammar is stated as spec functions over the bytes
//! (`spec_parse`), and `ExlexParser::parse` is proved to compute exactly it.

use vstd::prelude::*;
use vstd::string::StringSliceAdditionalSpecFns;
use vstd::utf8::*;
use crate::bytes::{find_byte, find_either_byte};

verus! {

broadcast use {vstd::seq::group_seq_axioms, vstd::seq_lib::group_seq_properties};

/// An error of the reader or the mutator, with the byte offset where parsing
/// stopped (`usize::MAX` for errors of lookups and mutations).
#[derive(Debug, Clone, Copy, PartialEq, Eq, Structural)]
pub struct ExlexError {
    pub code: ErrorCode,
    pub index: usize,
}

#[derive(Debug, Clone, Copy, PartialEq, Eq, Structural)]
pub enum ErrorCode {
    InvalidSyntax,
    InvalidCharacter,
    InvalidBracket,
    UnclosedQuote,
    MalformedLiteral,
    PropertyNotFound,
    SectionParentNotFound,
    SectionNotFound,
    DuplicateSectionsNotAllowed,
    InvalidSection,
    IoError,
    AlreadyCreatedSection,
}

pub type Result<T> = core::result::Result<T, ExlexError>;

/// The error value with the given code and byte offset.
pub open spec fn err_at(code: ErrorCode, index: int) -> ExlexError {
    ExlexError { code, index: index as usize }
}

// ─── FxHash ────────────────────────────────────────────────────────────────

pub const FX_K: u64 = 0x517cc1b727220a95;

pub open spec fn rotl5(h: u64) -> u64 {
    (h << 5u64) | (h >> 59u64)
}

/// One round of the hash: rotate, mix in a word, multiply (wrapping).
pub open spec fn mix(h: u64, w: u64) -> u64 {
    (rotl5(h) ^ w).wrapping_mul(FX_K)
}

/// The little-endian 64-bit word made of `b[i..i + 8]`.
pub open spec fn word_at(b: Seq<u8>, i: int) -> u64 {
    (b[i] as u64) | ((b[i + 1] as u64) << 8u64) | ((b[i + 2] as u64) << 16u64) | ((b[i
        + 3] as u64) << 24u64) | ((b[i + 4] as u64) << 32u64) | ((b[i + 5] as u64) << 40u64)
        | ((b[i + 6] as u64) << 48u64) | ((b[i + 7] as u64) << 56u64)
}

/// Hash state after mixing in the first `k` whole 8-byte words of `b`.
pub open spec fn hash_words(b: Seq<u8>, k: nat) -> u64
    decreases k,
{
    if k == 0 {
        0
    } else {
        mix(hash_words(b, (k - 1) as nat), word_at(b, 8 * (k - 1)))
    }
}

/// Hash state after mixing in, one at a time, the bytes of `b` from `i` on.
pub open spec fn hash_tail(b: Seq<u8>, h: u64, i: int) -> u64
    decreases b.len() - i,
{
    if i < 0 || i >= b.len() {
        h
    } else {
        hash_tail(b, mix(h, b[i] as u64), i + 1)
    }
}

/// FxHash of a byte string: whole 8-byte words first, then the remaining bytes.
pub open spec fn spec_hash(b: Seq<u8>) -> u64 {
    let k = b.len() / 8;
    hash_tail(b, hash_words(b, k), (8 * k) as int)
}

fn mix_exec(h: u64, w: u64) -> (r: u64)
    ensures
        r == mix(h, w),
{
    (((h << 5u64) | (h >> 59u64)) ^ w).wrapping_mul(FX_K)
}

/// FxHash of the bytes of `key`; used to skip comparisons of names that
/// cannot match.
pub fn hash(key: &str) -> (r: u64)
    ensures
        r == spec_hash(key.spec_bytes()),
{
    hash_bytes(key.as_bytes())
}

/// FxHash of a byte string.
pub fn hash_bytes(bytes: &[u8]) -> (r: u64)
    ensures
        r == spec_hash(bytes@),
{
    let n = bytes.len();
    let k = n / 8;
    let mut h: u64 = 0;
    let mut w: usize = 0;
    while w < k
        invariant
            n == bytes@.len(),
            k == n / 8,
            w <= k,
            h == hash_words(bytes@, w as nat),
        decreases k - w,
    {
        let i = 8 * w;
        let word: u64 = (bytes[i] as u64) | ((bytes[i + 1] as u64) << 8u64) | ((bytes[i
            + 2] as u64) << 16u64) | ((bytes[i + 3] as u64) << 24u64) | ((bytes[i + 4] as u64)
            << 32u64) | ((bytes[i + 5] as u64) << 40u64) | ((bytes[i + 6] as u64) << 48u64) | ((
        bytes[i + 7] as u64) << 56u64);
        h = mix_exec(h, word);
        w += 1;
    }
    let mut i: usize = 8 * k;
    while i < n
        invariant
            n == bytes@.len(),
            k == n / 8,
            8 * k <= i <= n,
            hash_tail(bytes@, h, i as int) == spec_hash(bytes@),
        decreases n - i,
    {
        h = mix_exec(h, bytes[i] as u64);
        i += 1;
    }
    h
}


// ─── The grammar ───────────────────────────────────────────────────────────

pub open spec fn is_space(c: u8) -> bool {
    c == 0x20u8 || c == 0x0du8 || c == 0x09u8 || c == 0x0au8
}

/// The first position at or after `c` that does not hold a space, tab,
/// carriage return or newline (or the end of the bytes).
pub open spec fn skip_spaces(b: Seq<u8>, c: int) -> int
    decreases b.len() - c,
{
    if 0 <= c < b.len() && is_space(b[c]) {
        skip_spaces(b, c + 1)
    } else {
        c
    }
}

/// `j` is the first position at or after `c` holding `x` or `y`.
pub open spec fn is_first_of(b: Seq<u8>, c: int, j: int, x: u8, y: u8) -> bool {
    &&& c <= j < b.len()
    &&& (b[j] == x || b[j] == y)
    &&& forall|k: int| c <= k < j ==> b[k] != x && b[k] != y
}

/// The first position at or after `c` holding `x` or `y`, if any.
pub open spec fn first_of(b: Seq<u8>, c: int, x: u8, y: u8) -> Option<int> {
    if exists|j: int| is_first_of(b, c, j, x, y) {
        Some(choose|j: int| is_first_of(b, c, j, x, y))
    } else {
        None
    }
}

/// Where the cursor goes after a `#` at `c`: just past the next newline, or
/// one byte on when no newline follows.
pub open spec fn comment_end(b: Seq<u8>, c: int) -> int {
    match first_of(b, c, 0x0au8, 0x0au8) {
        Some(j) => j + 1,
        None => c + 1,
    }
}

/// The error of a literal that runs out of bytes: `MalformedLiteral` when no
/// byte of it was consumed, `UnclosedQuote` otherwise.
pub open spec fn literal_error(start: int, pos: int) -> Result<(int, int, int)> {
    if start == pos {
        Err(err_at(ErrorCode::MalformedLiteral, start))
    } else {
        Err(err_at(ErrorCode::UnclosedQuote, pos))
    }
}

/// Scanning the body of a literal that began at `start`, now at `pos`: a
/// backslash skips the byte after it, a quote ends the literal. On success the
/// result is (start, end, cursor after the closing quote).
pub open spec fn scan_literal(b: Seq<u8>, start: int, pos: int) -> Result<(int, int, int)>
    decreases b.len() + 2 - pos,
{
    if 0 <= pos < b.len() {
        match first_of(b, pos, 0x22u8, 0x5cu8) {
            Some(j) => if b[j] == 0x22u8 {
                Ok((start, j, j + 1))
            } else if j + 2 > pos {
                scan_literal(b, start, j + 2)
            } else {
                literal_error(start, pos)
            },
            None => literal_error(start, pos),
        }
    } else {
        literal_error(start, pos)
    }
}

/// A literal whose opening delimiter is at `c` (the byte there is passed over
/// whatever it is).
pub open spec fn extract_literal(b: Seq<u8>, c: int) -> Result<(int, int, int)> {
    scan_literal(b, c + 1, c + 1)
}

/// The state of the parser between two bytes it reads.
pub struct PState {
    pub cursor: int,
    /// Names of the sections in the order they were opened; 0 is the root.
    pub sections: Seq<Seq<u8>>,
    /// Parent of each section (the root is its own parent).
    pub parents: Seq<int>,
    pub keys: Seq<Seq<u8>>,
    pub values: Seq<Seq<u8>>,
    /// Number of properties defined before each section was opened.
    pub prop_tracker: Seq<int>,
    /// For each closed section, the ids of the sections opened inside it.
    pub children: Seq<(int, int)>,
    /// Open sections, innermost last.
    pub active: Seq<int>,
}

/// A parsed document.
pub struct DocModel {
    /// Section names; id 0 is the root, named `ROOT`.
    pub sections: Seq<Seq<u8>>,
    pub parents: Seq<int>,
    /// Property keys and values in the order they were written.
    pub keys: Seq<Seq<u8>>,
    pub values: Seq<Seq<u8>>,
    /// The properties of section `s` are those at `prop_tracker[s]..prop_tracker[s + 1]`.
    pub prop_tracker: Seq<int>,
    /// The sections searched for children of section `s` are `children[s].0..children[s].1`.
    pub children: Seq<(int, int)>,
}

/// The bytes of `ROOT`.
pub open spec fn root_name() -> Seq<u8> {
    seq![0x52u8, 0x4fu8, 0x4fu8, 0x54u8]
}

pub open spec fn initial_state() -> PState {
    PState {
        cursor: 0,
        sections: seq![root_name()],
        parents: seq![0int],
        keys: Seq::empty(),
        values: Seq::empty(),
        prop_tracker: seq![0int],
        children: seq![(0int, 0int)],
        active: seq![0int],
    }
}

/// `"key" : "value"` with the cursor on the opening quote of the key.
pub open spec fn parse_property(b: Seq<u8>, st: PState) -> Result<PState> {
    match extract_literal(b, st.cursor) {
        Err(e) => Err(e),
        Ok((ks, ke, c1)) => {
            let c2 = skip_spaces(b, c1);
            if c2 >= b.len() || b[c2] != 0x3au8 {
                Err(err_at(ErrorCode::InvalidSyntax, c2))
            } else {
                let c3 = skip_spaces(b, c2 + 1);
                if c3 >= b.len() || b[c3] != 0x22u8 {
                    Err(err_at(ErrorCode::InvalidSyntax, c3))
                } else {
                    match extract_literal(b, c3) {
                        Err(e) => Err(e),
                        Ok((vs, ve, c4)) => Ok(
                            PState {
                                cursor: c4,
                                keys: st.keys.push(b.subrange(ks, ke)),
                                values: st.values.push(b.subrange(vs, ve)),
                                ..st
                            },
                        ),
                    }
                }
            }
        },
    }
}

pub open spec fn starts_sect(b: Seq<u8>, c: int) -> bool {
    &&& 0 <= c
    &&& c + 4 < b.len()
    &&& b[c] == 0x73u8
    &&& b[c + 1] == 0x65u8
    &&& b[c + 2] == 0x63u8
    &&& b[c + 3] == 0x74u8
}

/// `sect "name" {` at the cursor opens a section inside the innermost open
/// one, leaving the cursor on the `{`; anything else leaves the state as is.
pub open spec fn open_section(b: Seq<u8>, st: PState) -> Result<PState> {
    if !starts_sect(b, st.cursor) {
        Ok(st)
    } else {
        let c1 = skip_spaces(b, st.cursor + 4);
        match extract_literal(b, c1) {
            Err(e) => Err(e),
            Ok((ns, ne, c2)) => {
                let c3 = skip_spaces(b, c2);
                if !is_char_boundary(b, ns) {
                    Err(err_at(ErrorCode::InvalidCharacter, ns))
                } else if c3 >= b.len() || b[c3] != 0x7bu8 {
                    Err(err_at(ErrorCode::InvalidSyntax, c3))
                } else {
                    Ok(
                        PState {
                            cursor: c3,
                            sections: st.sections.push(b.subrange(ns, ne)),
                            parents: st.parents.push(st.active.last()),
                            prop_tracker: st.prop_tracker.push(st.keys.len() as int),
                            children: st.children.push((0int, 0int)),
                            active: st.active.push(st.sections.len() as int),
                            ..st
                        },
                    )
                }
            },
        }
    }
}

/// `}` closes the innermost open section; closing the root is an error.
pub open spec fn close_section(st: PState) -> Result<PState> {
    if st.active.len() == 0 || st.active.last() == 0 {
        Err(err_at(ErrorCode::InvalidBracket, st.cursor))
    } else {
        let id = st.active.last();
        Ok(
            PState {
                cursor: st.cursor + 1,
                active: st.active.drop_last(),
                children: st.children.update(id, (id + 1, st.sections.len() as int)),
                ..st
            },
        )
    }
}

/// One move of the parser from the byte at the cursor.
pub open spec fn step(b: Seq<u8>, st: PState) -> Result<PState> {
    let x = b[st.cursor];
    if x == 0x20u8 || x == 0x0du8 || x == 0x09u8 {
        Ok(PState { cursor: skip_spaces(b, st.cursor), ..st })
    } else if x == 0x23u8 {
        Ok(PState { cursor: comment_end(b, st.cursor), ..st })
    } else if x == 0x22u8 {
        parse_property(b, st)
    } else if x == 0x7du8 {
        close_section(st)
    } else {
        match open_section(b, st) {
            Err(e) => Err(e),
            Ok(s) => Ok(PState { cursor: s.cursor + 1, ..s }),
        }
    }
}

/// The document once all bytes are read: the root spans every section and
/// the property ranges are closed.
pub open spec fn finish(st: PState) -> DocModel {
    DocModel {
        sections: st.sections,
        parents: st.parents,
        keys: st.keys,
        values: st.values,
        prop_tracker: st.prop_tracker.push(st.keys.len() as int),
        children: st.children.update(0, (1int, st.sections.len() as int)),
    }
}

/// Runs the parser from `st` to the end of the bytes.
pub open spec fn run(b: Seq<u8>, st: PState) -> Result<DocModel>
    decreases b.len() - st.cursor,
{
    if 0 <= st.cursor < b.len() {
        match step(b, st) {
            Err(e) => Err(e),
            Ok(s) => if st.cursor < s.cursor <= b.len() {
                run(b, s)
            } else {
                Ok(finish(s))
            },
        }
    } else {
        Ok(finish(st))
    }
}

/// The state the parser is in when it stops: at the end of the bytes, or
/// where a step fails (a failed step changes nothing but the cursor).
pub open spec fn run_stop(b: Seq<u8>, st: PState) -> PState
    decreases b.len() - st.cursor,
{
    if 0 <= st.cursor < b.len() {
        match step(b, st) {
            Err(_) => st,
            Ok(s) => if st.cursor < s.cursor <= b.len() {
                run_stop(b, s)
            } else {
                s
            },
        }
    } else {
        st
    }
}

/// The two states agree in everything but the cursor.
pub open spec fn same_but_cursor(a: PState, b: PState) -> bool {
    PState { cursor: 0, ..a } == PState { cursor: 0, ..b }
}

/// The document the bytes describe, or the first error met reading them.
pub open spec fn spec_parse(b: Seq<u8>) -> Result<DocModel> {
    run(b, initial_state())
}


// ─── Facts about the grammar ───────────────────────────────────────────────

pub proof fn lemma_skip_spaces_bounds(b: Seq<u8>, c: int)
    requires
        0 <= c,
    ensures
        c <= skip_spaces(b, c),
        c <= b.len() ==> skip_spaces(b, c) <= b.len(),
        skip_spaces(b, c) < b.len() ==> !is_space(b[skip_spaces(b, c)]),
    decreases b.len() - c,
{
    if 0 <= c < b.len() && is_space(b[c]) {
        lemma_skip_spaces_bounds(b, c + 1);
    }
}

pub proof fn lemma_first_of_some(b: Seq<u8>, c: int, j: int, x: u8, y: u8)
    requires
        is_first_of(b, c, j, x, y),
    ensures
        first_of(b, c, x, y) == Some(j),
{
    let k = choose|k: int| is_first_of(b, c, k, x, y);
    assert(is_first_of(b, c, k, x, y));
    if k < j {
        assert(b[k] != x && b[k] != y);
    } else if k > j {
        assert(b[j] != x && b[j] != y);
    }
}

pub proof fn lemma_first_of_none(b: Seq<u8>, c: int, x: u8, y: u8)
    requires
        forall|k: int| c <= k < b.len() ==> b[k] != x && b[k] != y,
    ensures
        first_of(b, c, x, y) is None,
{
    if exists|j: int| is_first_of(b, c, j, x, y) {
        let j = choose|j: int| is_first_of(b, c, j, x, y);
        assert(b[j] != x && b[j] != y);
    }
}

pub proof fn lemma_first_of_bounds(b: Seq<u8>, c: int, x: u8, y: u8)
    ensures
        first_of(b, c, x, y) matches Some(j) ==> is_first_of(b, c, j, x, y),
{
}

/// A successful literal ends on a quote at or after where scanning started.
pub proof fn lemma_scan_literal_ok(b: Seq<u8>, start: int, pos: int)
    ensures
        scan_literal(b, start, pos) matches Ok((s, e, c)) ==> {
            &&& s == start
            &&& pos <= e < b.len()
            &&& b[e] == 0x22u8
            &&& c == e + 1
        },
    decreases b.len() + 2 - pos,
{
    if 0 <= pos < b.len() {
        lemma_first_of_bounds(b, pos, 0x22u8, 0x5cu8);
        match first_of(b, pos, 0x22u8, 0x5cu8) {
            Some(j) => if b[j] != 0x22u8 && j + 2 > pos {
                lemma_scan_literal_ok(b, start, j + 2);
            },
            None => {},
        }
    }
}

/// Each successful step moves the cursor forward and keeps it within the bytes.
proof fn lemma_step_advances(b: Seq<u8>, st: PState)
    requires
        0 <= st.cursor < b.len(),
    ensures
        step(b, st) matches Ok(s) ==> st.cursor < s.cursor <= b.len(),
{
    let c = st.cursor;
    let x = b[c];
    lemma_skip_spaces_bounds(b, c);
    lemma_first_of_bounds(b, c, 0x0au8, 0x0au8);
    lemma_scan_literal_ok(b, c + 1, c + 1);
    if x == 0x22u8 {
        if let Ok((ks, ke, c1)) = extract_literal(b, c) {
            lemma_skip_spaces_bounds(b, c1);
            let c2 = skip_spaces(b, c1);
            lemma_skip_spaces_bounds(b, c2 + 1);
            let c3 = skip_spaces(b, c2 + 1);
            lemma_scan_literal_ok(b, c3 + 1, c3 + 1);
        }
    } else if starts_sect(b, c) {
        lemma_skip_spaces_bounds(b, c + 4);
        let c1 = skip_spaces(b, c + 4);
        lemma_scan_literal_ok(b, c1 + 1, c1 + 1);
        if let Ok((ns, ne, c2)) = extract_literal(b, c1) {
            lemma_skip_spaces_bounds(b, c2);
        }
    }
}

/// In valid UTF-8, a character starts at an ASCII byte and right after it.
pub proof fn lemma_ascii_boundaries(b: Seq<u8>, q: int)
    requires
        valid_utf8(b),
        0 <= q < b.len(),
        b[q] < 0x80,
    ensures
        is_char_boundary(b, q),
        is_char_boundary(b, q + 1),
    decreases b.len(),
{
    is_char_boundary_iff_not_is_continuation_byte(b, q);
    let n = length_of_first_scalar(b);
    let rest = pop_first_scalar(b);
    assert(valid_first_scalar(b) && valid_utf8(rest));
    if q < n {
        assert(q == 0);
        assert(n == 1);
        is_char_boundary_start_end_of_seq(rest);
    } else {
        assert(rest[q - n] == b[q]);
        lemma_ascii_boundaries(rest, q - n);
    }
}

/// Two boundaries of valid UTF-8 delimit valid UTF-8 that can be cut out by
/// cutting first at the end, then at the start.
proof fn lemma_boundary_in_prefix(b: Seq<u8>, s: int, e: int)
    requires
        valid_utf8(b),
        0 <= s <= e <= b.len(),
        is_char_boundary(b, s),
        is_char_boundary(b, e),
    ensures
        valid_utf8(b.subrange(0, e)),
        is_char_boundary(b.subrange(0, e), s),
{
    valid_utf8_split(b, e);
    let p = b.subrange(0, e);
    if s == e {
        is_char_boundary_start_end_of_seq(p);
    } else {
        is_char_boundary_iff_not_is_continuation_byte(b, s);
        is_char_boundary_iff_not_is_continuation_byte(p, s);
    }
}

// ─── Executable parser ─────────────────────────────────────────────────────

/// The string between two character boundaries of `data`.
fn substring<'a>(data: &'a str, s: usize, e: usize) -> (r: &'a str)
    requires
        s <= e <= data.spec_bytes().len(),
        is_char_boundary(data.spec_bytes(), s as int),
        is_char_boundary(data.spec_bytes(), e as int),
    ensures
        r.spec_bytes() == data.spec_bytes().subrange(s as int, e as int),
{
    proof {
        encode_utf8_valid_utf8(data@);
        lemma_boundary_in_prefix(data.spec_bytes(), s as int, e as int);
    }
    let (head, _) = data.split_at(e);
    let (_, piece) = head.split_at(s);
    assert(piece.spec_bytes() =~= data.spec_bytes().subrange(s as int, e as int));
    piece
}

/// Moves the cursor past spaces, tabs, carriage returns and newlines.
fn skip_to_next_meaningful_bytes(bytes: &[u8], cursor: &mut usize)
    ensures
        *final(cursor) as int == skip_spaces(bytes@, *old(cursor) as int),
{
    let length = bytes.len();
    while *cursor < length && (bytes[*cursor] == 0x20u8 || bytes[*cursor] == 0x0du8
        || bytes[*cursor] == 0x09u8 || bytes[*cursor] == 0x0au8)
        invariant
            length == bytes@.len(),
            skip_spaces(bytes@, *cursor as int) == skip_spaces(bytes@, *old(cursor) as int),
        decreases length - *cursor,
    {
        *cursor += 1;
    }
}

/// Moves the cursor past the newline that ends a comment, or one byte on.
fn skip_until_newline_bytes(bytes: &[u8], cursor: &mut usize)
    requires
        *old(cursor) < bytes@.len(),
    ensures
        *final(cursor) as int == comment_end(bytes@, *old(cursor) as int),
{
    let c = *cursor;
    let found = find_byte(0x0au8, &bytes[c..bytes.len()]);
    proof {
        let b = bytes@;
        let rest = bytes@.subrange(c as int, b.len() as int);
        match found {
            Some(i) => {
                assert(forall|k: int| c <= k < c + i ==> b[k] == rest[k - c]);
                lemma_first_of_some(b, c as int, c + i, 0x0au8, 0x0au8);
            },
            None => {
                assert(forall|k: int| c <= k < b.len() ==> b[k] == rest[k - c]);
                lemma_first_of_none(b, c as int, 0x0au8, 0x0au8);
            },
        }
    }
    if let Some(index) = found {
        *cursor = c + index;
    }
    *cursor += 1;
}

/// Reads a literal whose opening delimiter is at the cursor; on success
/// returns (start, end) of its body and leaves the cursor after the closing quote.
fn extract_quoted_literals(bytes: &[u8], cursor: &mut usize) -> (r: Result<(usize, usize)>)
    requires
        *old(cursor) <= bytes@.len(),
        bytes@.len() <= isize::MAX,
    ensures
        match extract_literal(bytes@, *old(cursor) as int) {
            Ok((s, e, c)) => r == Ok::<(usize, usize), ExlexError>((s as usize, e as usize))
                && *final(cursor) as int == c,
            Err(er) => r == Err::<(usize, usize), ExlexError>(er),
        },
{
    let ghost b = bytes@;
    let ghost c0 = *cursor as int;
    *cursor += 1;
    let length = bytes.len();
    let start = *cursor;
    while *cursor < length
        invariant
            b == bytes@,
            length == b.len(),
            length <= isize::MAX,
            start == c0 + 1,
            c0 == *old(cursor) as int,
            start <= *cursor <= length + 1,
            scan_literal(b, start as int, *cursor as int) == extract_literal(b, c0),
        decreases length + 2 - *cursor,
    {
        let pos = *cursor;
        let found = find_either_byte(0x22u8, 0x5cu8, &bytes[pos..length]);
        match found {
            Some(index) => {
                let j = pos + index;
                proof {
                    let rest = b.subrange(pos as int, b.len() as int);
                    assert(forall|k: int| pos <= k < j ==> b[k] == rest[k - pos]);
                    lemma_first_of_some(b, pos as int, j as int, 0x22u8, 0x5cu8);
                }
                if bytes[j] == 0x22u8 {
                    assert(scan_literal(b, start as int, pos as int) == Ok::<(int, int, int), ExlexError>((start as int, j as int, j + 1)));
                    *cursor = j + 1;
                    return Ok((start, j));
                } else {
                    *cursor = j + 2;
                }
            },
            None => {
                proof {
                    let rest = b.subrange(pos as int, b.len() as int);
                    assert(forall|k: int| pos <= k < b.len() ==> b[k] == rest[k - pos]);
                    lemma_first_of_none(b, pos as int, 0x22u8, 0x5cu8);
                    assert(scan_literal(b, start as int, pos as int) == literal_error(start as int, pos as int));
                }
                if start == pos {
                    return Err(ExlexError { code: ErrorCode::MalformedLiteral, index: start });
                } else {
                    return Err(ExlexError { code: ErrorCode::UnclosedQuote, index: pos });
                }
            },
        }
    }
    if start == *cursor {
        Err(ExlexError { code: ErrorCode::MalformedLiteral, index: start })
    } else {
        Err(ExlexError { code: ErrorCode::UnclosedQuote, index: *cursor })
    }
}


pub open spec fn bytes_of(v: Seq<&str>) -> Seq<Seq<u8>> {
    v.map_values(|s: &str| s.spec_bytes())
}

pub open spec fn ints_of(v: Seq<usize>) -> Seq<int> {
    v.map_values(|x: usize| x as int)
}

pub open spec fn spans_of(v: Seq<(usize, usize)>) -> Seq<(int, int)> {
    v.map_values(|p: (usize, usize)| (p.0 as int, p.1 as int))
}

/// What every state the parser reaches satisfies.
pub open spec fn wf_state(st: PState, len: int) -> bool {
    let n = st.sections.len();
    &&& n >= 1
    &&& st.parents.len() == n
    &&& st.children.len() == n
    &&& st.prop_tracker.len() == n
    &&& st.keys.len() == st.values.len()
    &&& st.active.len() >= 1
    &&& st.active[0] == 0
    &&& forall|k: int| 0 <= k < st.active.len() ==> 0 <= #[trigger] st.active[k] < n
    &&& st.parents[0] == 0
    &&& forall|i: int| 1 <= i < n ==> 0 <= #[trigger] st.parents[i] < i
    &&& st.prop_tracker[0] == 0
    &&& forall|i: int, j: int|
        0 <= i <= j < n ==> #[trigger] st.prop_tracker[i] <= #[trigger] st.prop_tracker[j]
    &&& forall|i: int| 0 <= i < n ==> #[trigger] st.prop_tracker[i] <= st.keys.len()
    &&& forall|i: int|
        0 <= i < n ==> 0 <= (#[trigger] st.children[i]).0 <= st.children[i].1 <= n
    &&& 0 <= st.cursor <= len
    &&& st.keys.len() <= st.cursor
    &&& n <= st.cursor + 1
}

/// What every parsed document satisfies.
pub open spec fn wf_doc(m: DocModel) -> bool {
    let n = m.sections.len();
    &&& n >= 1
    &&& m.parents.len() == n
    &&& m.children.len() == n
    &&& m.prop_tracker.len() == n + 1
    &&& m.keys.len() == m.values.len()
    &&& m.parents[0] == 0
    &&& forall|i: int| 1 <= i < n ==> 0 <= #[trigger] m.parents[i] < i
    &&& m.prop_tracker[0] == 0
    &&& m.prop_tracker[n as int] == m.keys.len()
    &&& forall|i: int, j: int|
        0 <= i <= j <= n ==> #[trigger] m.prop_tracker[i] <= #[trigger] m.prop_tracker[j]
    &&& forall|i: int|
        0 <= i < n ==> 0 <= (#[trigger] m.children[i]).0 <= m.children[i].1 <= n
}

proof fn lemma_finish_wf(st: PState, len: int)
    requires
        wf_state(st, len),
    ensures
        wf_doc(finish(st)),
{
    let m = finish(st);
    let n = st.sections.len();
    assert forall|i: int, j: int| 0 <= i <= j <= n implies #[trigger] m.prop_tracker[i]
        <= #[trigger] m.prop_tracker[j] by {
        if j < n {
            assert(st.prop_tracker[i] <= st.prop_tracker[j]);
        }
    }
    assert forall|i: int| 0 <= i < n implies 0 <= (#[trigger] m.children[i]).0 <= m.children[i].1
        <= n by {
        if i != 0 {
            assert(m.children[i] == st.children[i]);
        }
    }
}

/// The parser's working state over the document's bytes.
pub struct ExlexParser<'a> {
    pub data: &'a str,
    pub data_as_bytes: &'a [u8],
    pub section_id: usize,
    /// Section names in order of definition; the root is at index 0.
    pub sections: Vec<&'a str>,
    pub prop_keys: Vec<&'a str>,
    pub prop_values: Vec<&'a str>,
    pub properties_hash: Vec<u64>,
    pub sections_hash: Vec<u64>,
    /// Number of properties defined before each section was opened (and, once
    /// parsing is done, the total at the end).
    pub properties_tracker: Vec<usize>,
    /// For each section, the range of section ids searched for its children.
    pub children_tracker: Vec<(usize, usize)>,
    pub active_parents: Vec<usize>,
    pub parent_tracker: Vec<usize>,
    pub cursor: usize,
    pub props_parsed: usize,
}

impl<'a> ExlexParser<'a> {
    pub open spec fn bytes(&self) -> Seq<u8> {
        self.data.spec_bytes()
    }

    pub open spec fn state(&self) -> PState {
        PState {
            cursor: self.cursor as int,
            sections: bytes_of(self.sections@),
            parents: ints_of(self.parent_tracker@),
            keys: bytes_of(self.prop_keys@),
            values: bytes_of(self.prop_values@),
            prop_tracker: ints_of(self.properties_tracker@),
            children: spans_of(self.children_tracker@),
            active: ints_of(self.active_parents@),
        }
    }

    pub open spec fn doc(&self) -> DocModel {
        DocModel {
            sections: bytes_of(self.sections@),
            parents: ints_of(self.parent_tracker@),
            keys: bytes_of(self.prop_keys@),
            values: bytes_of(self.prop_values@),
            prop_tracker: ints_of(self.properties_tracker@),
            children: spans_of(self.children_tracker@),
        }
    }

    /// The stored hashes are the hashes of the stored names.
    pub open spec fn hashes_agree(&self) -> bool {
        &&& self.sections_hash@.len() == self.sections@.len()
        &&& self.properties_hash@.len() == self.prop_keys@.len()
        &&& forall|i: int|
            0 <= i < self.sections@.len() ==> #[trigger] self.sections_hash@[i] == spec_hash(
                self.sections@[i].spec_bytes(),
            )
        &&& forall|i: int|
            0 <= i < self.prop_keys@.len() ==> #[trigger] self.properties_hash@[i] == spec_hash(
                self.prop_keys@[i].spec_bytes(),
            )
    }

    /// A failed step left everything but the cursor as it was.
    pub open spec fn kept_on_error(&self, before: &Self) -> bool {
        &&& same_but_cursor(self.state(), before.state())
        &&& self.sections_hash@ == before.sections_hash@
        &&& self.properties_hash@ == before.properties_hash@
        &&& self.section_id == before.section_id
        &&& self.props_parsed == before.props_parsed
        &&& self.data == before.data
        &&& self.data_as_bytes == before.data_as_bytes
    }

    pub open spec fn inv(&self) -> bool {
        &&& self.data_as_bytes@ == self.bytes()
        &&& self.bytes().len() <= isize::MAX
        &&& wf_state(self.state(), self.bytes().len() as int)
        &&& self.hashes_agree()
        &&& self.section_id + 1 == self.sections@.len()
        &&& self.props_parsed == self.prop_keys@.len()
    }

    /// Counts the `:` and `{` bytes of the document: the number of properties
    /// and sections to make room for.
    fn count_markers(bytes: &[u8]) -> (r: (usize, usize))
        ensures
            r.0 == count_byte(bytes@, 0x3au8, bytes@.len() as int),
            r.1 == count_byte(bytes@, 0x7bu8, bytes@.len() as int),
    {
        let length = bytes.len();
        let mut props: usize = 0;
        let mut sects: usize = 0;
        let mut pos: usize = 0;
        while pos < length
            invariant
                length == bytes@.len(),
                pos <= length,
                props == count_byte(bytes@, 0x3au8, pos as int),
                sects == count_byte(bytes@, 0x7bu8, pos as int),
            decreases length - pos,
        {
            match find_either_byte(0x3au8, 0x7bu8, &bytes[pos..length]) {
                Some(i) => {
                    let j = pos + i;
                    proof {
                        let rest = bytes@.subrange(pos as int, length as int);
                        assert(forall|k: int| pos <= k < j ==> bytes@[k] == rest[k - pos]);
                        lemma_count_skip(bytes@, 0x3au8, 0x7bu8, pos as int, j as int);
                        lemma_count_skip(bytes@, 0x7bu8, 0x3au8, pos as int, j as int);
                        lemma_count_bound(bytes@, 0x3au8, j as int);
                        lemma_count_bound(bytes@, 0x7bu8, j as int);
                    }
                    if bytes[j] == 0x3au8 {
                        props += 1;
                    } else {
                        sects += 1;
                    }
                    pos = j + 1;
                },
                None => {
                    proof {
                        let rest = bytes@.subrange(pos as int, length as int);
                        assert(forall|k: int| pos <= k < length ==> bytes@[k] == rest[k - pos]);
                        lemma_count_skip(bytes@, 0x3au8, 0x7bu8, pos as int, length as int);
                        lemma_count_skip(bytes@, 0x7bu8, 0x3au8, pos as int, length as int);
                    }
                    pos = length;
                },
            }
        }
        (props, sects)
    }
}

/// Number of bytes equal to `x` among the first `n` bytes of `b`.
pub open spec fn count_byte(b: Seq<u8>, x: u8, n: int) -> int
    decreases n,
{
    if n <= 0 {
        0
    } else {
        count_byte(b, x, n - 1) + if b[n - 1] == x {
            1int
        } else {
            0int
        }
    }
}

proof fn lemma_count_skip(b: Seq<u8>, x: u8, y: u8, lo: int, hi: int)
    requires
        0 <= lo <= hi,
        forall|k: int| lo <= k < hi ==> b[k] != x && b[k] != y,
    ensures
        count_byte(b, x, hi) == count_byte(b, x, lo),
    decreases hi - lo,
{
    if hi > lo {
        lemma_count_skip(b, x, y, lo, hi - 1);
    }
}

proof fn lemma_count_bound(b: Seq<u8>, x: u8, n: int)
    requires
        0 <= n,
    ensures
        0 <= count_byte(b, x, n) <= n,
    decreases n,
{
    if n > 0 {
        lemma_count_bound(b, x, n - 1);
    }
}


pub proof fn lemma_bytes_of_push(v: Seq<&str>, x: &str)
    ensures
        bytes_of(v.push(x)) == bytes_of(v).push(x.spec_bytes()),
{
    assert(bytes_of(v.push(x)) =~= bytes_of(v).push(x.spec_bytes()));
}

pub proof fn lemma_ints_of_push(v: Seq<usize>, x: usize)
    ensures
        ints_of(v.push(x)) == ints_of(v).push(x as int),
{
    assert(ints_of(v.push(x)) =~= ints_of(v).push(x as int));
}

proof fn lemma_ints_of_drop_last(v: Seq<usize>)
    requires
        v.len() > 0,
    ensures
        ints_of(v.drop_last()) == ints_of(v).drop_last(),
{
    assert(ints_of(v.drop_last()) =~= ints_of(v).drop_last());
}

proof fn lemma_spans_of_push(v: Seq<(usize, usize)>, x: (usize, usize))
    ensures
        spans_of(v.push(x)) == spans_of(v).push((x.0 as int, x.1 as int)),
{
    assert(spans_of(v.push(x)) =~= spans_of(v).push((x.0 as int, x.1 as int)));
}

proof fn lemma_spans_of_update(v: Seq<(usize, usize)>, i: int, x: (usize, usize))
    requires
        0 <= i < v.len(),
    ensures
        spans_of(v.update(i, x)) == spans_of(v).update(i, (x.0 as int, x.1 as int)),
{
    assert(spans_of(v.update(i, x)) =~= spans_of(v).update(i, (x.0 as int, x.1 as int)));
}

pub proof fn lemma_root_name()
    ensures
        "ROOT".spec_bytes() == root_name(),
{
    reveal_strlit("ROOT");
    broadcast use vstd::string::is_ascii_spec_bytes;
    assert("ROOT"@ =~= seq!['R', 'O', 'O', 'T']);
    assert(vstd::string::is_ascii("ROOT"));
    assert("ROOT".spec_bytes() =~= root_name());
}

impl<'a> ExlexParser<'a> {
    /// A parser at the start of `data`, with room reserved from the hints or,
    /// unless disabled, from a count of `:` and `{` bytes; no reservation
    /// exceeds one more than the number of bytes.
    pub fn new(
        data: &'a str,
        data_as_bytes: &'a [u8],
        disable_preallocator: Option<bool>,
        preallocate_sections: Option<usize>,
        preallocate_props: Option<usize>,
        preallocate_max_depth: Option<usize>,
    ) -> (p: Self)
        requires
            data_as_bytes@ == data.spec_bytes(),
            data.spec_bytes().len() <= isize::MAX,
        ensures
            p.inv(),
            p.state() == initial_state(),
            p.data == data,
    {
        let mut prop_count: usize = match preallocate_props {
            Some(n) => n,
            None => 0,
        };
        let mut section_count: usize = match preallocate_sections {
            Some(n) => n,
            None => 1,
        };
        let depth: usize = match preallocate_max_depth {
            Some(n) => n,
            None => 5,
        };
        let disabled = match disable_preallocator {
            Some(d) => d,
            None => false,
        };
        if !disabled {
            // room for the root
            section_count = section_count.saturating_add(1);
            let (props, sects) = Self::count_markers(data_as_bytes);
            prop_count = prop_count.saturating_add(props);
            section_count = section_count.saturating_add(sects);
        }
        // No document has more properties, sections or nesting than bytes,
        // so larger hints would only reserve memory that is never used.
        let limit = data_as_bytes.len() + 1;
        if prop_count > limit {
            prop_count = limit;
        }
        if section_count > limit {
            section_count = limit;
        }
        let depth = if depth > limit {
            limit
        } else {
            depth
        };
        let mut parser = ExlexParser {
            data,
            data_as_bytes,
            section_id: 0,
            prop_keys: Vec::with_capacity(prop_count),
            prop_values: Vec::with_capacity(prop_count),
            properties_tracker: Vec::with_capacity(prop_count),
            properties_hash: Vec::with_capacity(prop_count),
            sections: Vec::with_capacity(section_count),
            sections_hash: Vec::with_capacity(section_count),
            children_tracker: Vec::with_capacity(section_count),
            active_parents: Vec::with_capacity(depth),
            parent_tracker: Vec::new(),
            cursor: 0,
            props_parsed: 0,
        };
        let root = "ROOT";
        parser.parent_tracker.push(0);
        parser.sections.push(root);
        let root_hash = hash(root);
        parser.sections_hash.push(root_hash);
        parser.active_parents.push(0);
        parser.properties_tracker.push(0);
        parser.children_tracker.push((0, 0));
        proof {
            lemma_root_name();
            let st = parser.state();
            assert(st.sections =~= seq![root_name()]);
            assert(st.parents =~= seq![0int]);
            assert(st.keys =~= Seq::<Seq<u8>>::empty());
            assert(st.values =~= Seq::<Seq<u8>>::empty());
            assert(st.prop_tracker =~= seq![0int]);
            assert(st.children =~= seq![(0int, 0int)]);
            assert(st.active =~= seq![0int]);
        }
        parser
    }

    /// `"key" : "value"` with the cursor on the opening quote of the key.
    fn property_parser(&mut self) -> (r: Result<()>)
        requires
            old(self).inv(),
            old(self).cursor < old(self).bytes().len(),
            old(self).bytes()[old(self).cursor as int] == 0x22u8,
        ensures
            final(self).data == old(self).data,
            match parse_property(old(self).bytes(), old(self).state()) {
                Ok(s) => r is Ok && final(self).state() == s && final(self).inv(),
                Err(e) => r == Err::<(), ExlexError>(e) && final(self).kept_on_error(&*old(self)),
            },
    {
        let ghost b = self.bytes();
        let ghost st = self.state();
        let bytes = self.data_as_bytes;
        let c0 = self.cursor;
        proof {
            encode_utf8_valid_utf8(self.data@);
            lemma_scan_literal_ok(b, c0 + 1, c0 + 1);
            lemma_ascii_boundaries(b, c0 as int);
        }
        let (key_start, key_end) = extract_quoted_literals(bytes, &mut self.cursor)?;
        let c1 = self.cursor;
        skip_to_next_meaningful_bytes(bytes, &mut self.cursor);
        proof {
            lemma_skip_spaces_bounds(b, c1 as int);
            lemma_ascii_boundaries(b, key_end as int);
        }
        if self.cursor >= bytes.len() {
            return Err(ExlexError { code: ErrorCode::InvalidSyntax, index: self.cursor });
        }
        if bytes[self.cursor] == 0x3au8 {
            self.cursor += 1;
            let c2 = self.cursor;
            skip_to_next_meaningful_bytes(bytes, &mut self.cursor);
            proof {
                lemma_skip_spaces_bounds(b, c2 as int);
            }
            if self.cursor >= bytes.len() {
                return Err(ExlexError { code: ErrorCode::InvalidSyntax, index: self.cursor });
            }
            if bytes[self.cursor] == 0x22u8 {
                let c3 = self.cursor;
                proof {
                    lemma_scan_literal_ok(b, c3 + 1, c3 + 1);
                    lemma_ascii_boundaries(b, c3 as int);
                }
                let (value_start, value_end) = extract_quoted_literals(bytes, &mut self.cursor)?;
                proof {
                    lemma_ascii_boundaries(b, value_end as int);
                }
                let key = substring(self.data, key_start, key_end);
                let value = substring(self.data, value_start, value_end);
                proof {
                    lemma_bytes_of_push(self.prop_keys@, key);
                    lemma_bytes_of_push(self.prop_values@, value);
                }
                self.prop_keys.push(key);
                let key_hash = hash(key);
                self.properties_hash.push(key_hash);
                self.prop_values.push(value);
                self.props_parsed += 1;
                proof {
                    let s = self.state();
                    assert(s.keys == st.keys.push(b.subrange(key_start as int, key_end as int)));
                    assert forall|i: int| 0 <= i < s.sections.len() implies #[trigger] s.prop_tracker[i]
                        <= s.keys.len() by {
                        assert(st.prop_tracker[i] <= st.keys.len());
                    }
                }
                return Ok(());
            } else {
                return Err(ExlexError { code: ErrorCode::InvalidSyntax, index: self.cursor });
            }
        } else {
            return Err(ExlexError { code: ErrorCode::InvalidSyntax, index: self.cursor });
        }
    }
}


impl<'a> ExlexParser<'a> {
    /// `sect "name" {` at the cursor opens a section inside the innermost
    /// open one and leaves the cursor on the `{`; any other byte is left alone.
    fn section_identify(&mut self) -> (r: Result<()>)
        requires
            old(self).inv(),
            old(self).cursor < old(self).bytes().len(),
        ensures
            final(self).data == old(self).data,
            match open_section(old(self).bytes(), old(self).state()) {
                Ok(s) => r is Ok && final(self).state() == s && final(self).inv()
                    && final(self).cursor < final(self).bytes().len(),
                Err(e) => r == Err::<(), ExlexError>(e) && final(self).kept_on_error(&*old(self)),
            },
    {
        let ghost b = self.bytes();
        let ghost st = self.state();
        let bytes = self.data_as_bytes;
        let c = self.cursor;
        if c + 4 < bytes.len() && bytes[c] == 0x73u8 && bytes[c + 1] == 0x65u8 && bytes[c + 2]
            == 0x63u8 && bytes[c + 3] == 0x74u8 {
            self.cursor += 4;
            skip_to_next_meaningful_bytes(bytes, &mut self.cursor);
            let c1 = self.cursor;
            proof {
                encode_utf8_valid_utf8(self.data@);
                lemma_skip_spaces_bounds(b, c as int + 4);
                lemma_scan_literal_ok(b, c1 + 1, c1 + 1);
            }
            let (name_start, name_end) = extract_quoted_literals(bytes, &mut self.cursor)?;
            let c2 = self.cursor;
            skip_to_next_meaningful_bytes(bytes, &mut self.cursor);
            proof {
                lemma_skip_spaces_bounds(b, c2 as int);
                lemma_ascii_boundaries(b, name_end as int);
            }
            if !self.data.is_char_boundary(name_start) {
                return Err(ExlexError { code: ErrorCode::InvalidCharacter, index: name_start });
            }
            if self.cursor >= bytes.len() {
                return Err(ExlexError { code: ErrorCode::InvalidSyntax, index: self.cursor });
            }
            let section_name = substring(self.data, name_start, name_end);
            if bytes[self.cursor] == 0x7bu8 {
                let ghost n = st.sections.len();
                self.section_id += 1;
                proof {
                    lemma_ints_of_push(self.properties_tracker@, self.props_parsed);
                    lemma_bytes_of_push(self.sections@, section_name);
                    lemma_ints_of_push(self.parent_tracker@, self.active_parents@.last());
                    lemma_ints_of_push(self.active_parents@, self.section_id);
                    lemma_spans_of_push(self.children_tracker@, (0usize, 0usize));
                }
                self.properties_tracker.push(self.props_parsed);
                self.sections.push(section_name);
                let name_hash = hash(section_name);
                self.sections_hash.push(name_hash);
                let current_parent = self.active_parents[self.active_parents.len() - 1];
                self.parent_tracker.push(current_parent);
                self.active_parents.push(self.section_id);
                self.children_tracker.push((0, 0));
                proof {
                    let s = self.state();
                    assert(s.active.last() == n);
                    assert forall|i: int, j: int| 0 <= i <= j < s.sections.len() implies
                        #[trigger] s.prop_tracker[i] <= #[trigger] s.prop_tracker[j] by {
                        if j < n {
                            assert(st.prop_tracker[i] <= st.prop_tracker[j]);
                        } else if i < n {
                            assert(st.prop_tracker[i] <= st.keys.len());
                        }
                    }
                    assert forall|i: int| 0 <= i < s.sections.len() implies
                        #[trigger] s.prop_tracker[i] <= s.keys.len() by {
                        if i < n {
                            assert(st.prop_tracker[i] <= st.keys.len());
                        }
                    }
                    assert forall|k: int| 0 <= k < s.active.len() implies 0 <= #[trigger] s.active[k]
                        < s.sections.len() by {
                        if k < st.active.len() {
                            assert(st.active[k] < n);
                        }
                    }
                    assert forall|i: int| 1 <= i < s.sections.len() implies 0
                        <= #[trigger] s.parents[i] < i by {
                        if i < n {
                            assert(st.parents[i] < i);
                        } else {
                            assert(st.active[st.active.len() - 1] < n);
                        }
                    }
                    assert forall|i: int| 0 <= i < s.sections.len() implies 0 <= (
                    #[trigger] s.children[i]).0 <= s.children[i].1 <= s.sections.len() by {
                        if i < n {
                            assert(st.children[i].1 <= n);
                        }
                    }
                }
                return Ok(());
            } else {
                return Err(ExlexError { code: ErrorCode::InvalidSyntax, index: self.cursor });
            }
        }
        Ok(())
    }

    /// `}` closes the innermost open section; closing the root is an error.
    fn close_bracket(&mut self) -> (r: Result<()>)
        requires
            old(self).inv(),
            old(self).cursor < old(self).bytes().len(),
        ensures
            final(self).data == old(self).data,
            match close_section(old(self).state()) {
                Ok(s) => r is Ok && final(self).state() == s && final(self).inv(),
                Err(e) => r == Err::<(), ExlexError>(e) && final(self).kept_on_error(&*old(self)),
            },
    {
        let ghost st = self.state();
        let ghost st_active = self.active_parents@;
        let depth = self.active_parents.len();
        if depth == 0 || self.active_parents[depth - 1] == 0 {
            return Err(ExlexError { code: ErrorCode::InvalidBracket, index: self.cursor });
        }
        let closed_id = self.active_parents.pop().unwrap();
        let children_span = (closed_id + 1, self.section_id + 1);
        proof {
            lemma_ints_of_drop_last(st_active);
            lemma_spans_of_update(self.children_tracker@, closed_id as int, children_span);
        }
        self.children_tracker.set(closed_id, children_span);
        self.cursor += 1;
        proof {
            let s = self.state();
            assert(s.active =~= st.active.drop_last());
            assert forall|i: int| 0 <= i < s.sections.len() implies 0 <= (
            #[trigger] s.children[i]).0 <= s.children[i].1 <= s.sections.len() by {
                if i != closed_id {
                    assert(s.children[i] == st.children[i]);
                }
            }
            assert forall|k: int| 0 <= k < s.active.len() implies 0 <= #[trigger] s.active[k]
                < s.sections.len() by {
                assert(st.active[k] < st.sections.len());
            }
        }
        Ok(())
    }

    /// One move of the parser from the byte at the cursor.
    fn step_once(&mut self) -> (r: Result<()>)
        requires
            old(self).inv(),
            old(self).cursor < old(self).bytes().len(),
        ensures
            final(self).data == old(self).data,
            match step(old(self).bytes(), old(self).state()) {
                Ok(s) => r is Ok && final(self).state() == s && final(self).inv(),
                Err(e) => r == Err::<(), ExlexError>(e) && final(self).kept_on_error(&*old(self)),
            },
    {
        let ghost b = self.bytes();
        let bytes = self.data_as_bytes;
        let c = self.cursor;
        let current_byte = bytes[c];
        if current_byte == 0x20u8 || current_byte == 0x0du8 || current_byte == 0x09u8 {
            skip_to_next_meaningful_bytes(bytes, &mut self.cursor);
            proof {
                lemma_skip_spaces_bounds(b, c as int);
            }
            Ok(())
        } else if current_byte == 0x23u8 {
            skip_until_newline_bytes(bytes, &mut self.cursor);
            proof {
                lemma_first_of_bounds(b, c as int, 0x0au8, 0x0au8);
            }
            Ok(())
        } else if current_byte == 0x22u8 {
            self.property_parser()
        } else if current_byte == 0x7du8 {
            self.close_bracket()
        } else {
            let r = self.section_identify();
            match r {
                Ok(()) => {
                    self.cursor += 1;
                    Ok(())
                },
                Err(e) => Err(e),
            }
        }
    }

    /// Reads the whole document. On success the parser holds the document:
    /// every section's property range is closed and the root spans all sections.
    #[verifier::rlimit(40)]
    pub fn parse(&mut self) -> (r: Result<()>)
        requires
            old(self).inv(),
        ensures
            final(self).data == old(self).data,
            match run(old(self).bytes(), old(self).state()) {
                Ok(m) => r is Ok && final(self).doc() == m && final(self).doc_ok(),
                Err(e) => {
                    &&& r == Err::<(), ExlexError>(e)
                    &&& same_but_cursor(final(self).state(), run_stop(old(self).bytes(), old(self).state()))
                    &&& final(self).hashes_agree()
                    &&& final(self).section_id + 1 == final(self).sections@.len()
                    &&& final(self).props_parsed == final(self).prop_keys@.len()
                },
            },
    {
        let ghost b = self.bytes();
        let ghost s0 = self.state();
        let length = self.data_as_bytes.len();
        while self.cursor < length
            invariant
                self.inv(),
                self.bytes() == b,
                self.data == old(self).data,
                length == b.len(),
                run(b, self.state()) == run(b, s0),
                run_stop(b, self.state()) == run_stop(b, s0),
                s0 == old(self).state(),
                b == old(self).bytes(),
            decreases length - self.cursor,
        {
            let ghost st = self.state();
            proof {
                lemma_step_advances(b, st);
            }
            match self.step_once() {
                Ok(()) => {},
                Err(e) => {
                    proof {
                        let s1 = self.state();
                        assert(step(b, st) is Err);
                        assert(run_stop(b, st) == st);
                        assert(bytes_of(self.sections@) == st.sections);
                        assert(bytes_of(self.prop_keys@) == st.keys);
                        assert forall|i: int| 0 <= i < self.sections@.len() implies #[trigger] self.sections_hash@[i]
                            == spec_hash(self.sections@[i].spec_bytes()) by {
                            assert(bytes_of(self.sections@)[i] == self.sections@[i].spec_bytes());
                        }
                        assert forall|i: int| 0 <= i < self.prop_keys@.len() implies #[trigger] self.properties_hash@[i]
                            == spec_hash(self.prop_keys@[i].spec_bytes()) by {
                            assert(bytes_of(self.prop_keys@)[i] == self.prop_keys@[i].spec_bytes());
                        }
                    }
                    return Err(e);
                },
            }
            assert(run(b, st) == run(b, self.state()));
            assert(run_stop(b, st) == run_stop(b, self.state()));
        }
        let root_span = (1, self.section_id + 1);
        proof {
            lemma_finish_wf(self.state(), length as int);
            lemma_spans_of_update(self.children_tracker@, 0, root_span);
            lemma_ints_of_push(self.properties_tracker@, self.props_parsed);
        }
        self.children_tracker.set(0, root_span);
        self.properties_tracker.push(self.props_parsed);
        Ok(())
    }

    /// The parser holds a finished, well-formed document.
    pub open spec fn doc_ok(&self) -> bool {
        &&& self.data_as_bytes@ == self.bytes()
        &&& wf_doc(self.doc())
        &&& self.hashes_agree()
    }
}

} // verus!
