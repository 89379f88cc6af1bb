//! What every parsed document satisfies beyond well-formedness: its sections
//! are numbered in pre-order (each section's parent is the previous section
//! or one of its ancestors), and every name, key and value reads back as
//! itself between quotes.

use vstd::prelude::*;
use crate::parser::{
    extract_literal, first_of, initial_state, is_first_of, lemma_first_of_bounds, lemma_first_of_some,
    lemma_scan_literal_ok, open_section, parse_property, close_section, run, scan_literal, spec_parse,
    step, finish, DocModel, ExlexError, PState,
};
use crate::roundtrip::literal_safe;

verus! {

broadcast use {vstd::seq::group_seq_axioms, vstd::seq_lib::group_seq_properties};

/// `a` is `x` or one of its ancestors under the parents `p`.
pub open spec fn anc(p: Seq<int>, a: int, x: int) -> bool
    decreases x,
{
    if x == a {
        true
    } else if x <= 0 || x >= p.len() || !(0 <= p[x] < x) {
        false
    } else {
        anc(p, a, p[x])
    }
}

/// Every section but the root has an earlier section as its parent.
pub open spec fn tree_parents(p: Seq<int>) -> bool {
    &&& p.len() >= 1
    &&& p[0] == 0
    &&& forall|i: int| 1 <= i < p.len() ==> 0 <= #[trigger] p[i] < i
}

/// Pre-order numbering: the parent of each section is the section just
/// before it or one of that section's ancestors.
pub open spec fn pre_order(p: Seq<int>) -> bool {
    forall|j: int| 1 <= j < p.len() ==> anc(p, #[trigger] p[j], j - 1)
}

/// The facts about a parsed document that make it read back as itself.
pub open spec fn parsed_shape(d: DocModel) -> bool {
    &&& tree_parents(d.parents)
    &&& pre_order(d.parents)
    &&& d.parents.len() == d.sections.len()
    &&& d.keys.len() == d.values.len()
    &&& forall|i: int| 0 <= i < d.keys.len() ==> literal_safe(#[trigger] d.keys[i])
    &&& forall|i: int| 0 <= i < d.values.len() ==> literal_safe(#[trigger] d.values[i])
    &&& forall|i: int| 1 <= i < d.sections.len() ==> literal_safe(#[trigger] d.sections[i])
}

/// What every state of the parser satisfies, towards `parsed_shape`.
pub open spec fn tree_state(st: PState) -> bool {
    let n = st.sections.len();
    &&& tree_parents(st.parents)
    &&& pre_order(st.parents)
    &&& st.parents.len() == n
    &&& st.active.len() >= 1
    &&& st.active[0] == 0
    &&& forall|i: int| 0 <= i < st.active.len() ==> 0 <= #[trigger] st.active[i] < n
    &&& forall|i: int|
        1 <= i < st.active.len() ==> #[trigger] st.active[i] >= 1 && st.parents[st.active[i]] == st.active[i - 1]
    &&& anc(st.parents, st.active.last(), n - 1)
    &&& st.keys.len() == st.values.len()
    &&& forall|i: int| 0 <= i < st.keys.len() ==> literal_safe(#[trigger] st.keys[i])
    &&& forall|i: int| 0 <= i < st.values.len() ==> literal_safe(#[trigger] st.values[i])
    &&& forall|i: int| 1 <= i < n ==> literal_safe(#[trigger] st.sections[i])
}

/// Ancestry only looks at the parents of the sections involved.
pub proof fn lemma_anc_push(p: Seq<int>, v: int, a: int, x: int)
    requires
        0 <= x < p.len(),
    ensures
        anc(p.push(v), a, x) == anc(p, a, x),
    decreases x,
{
    if x != a && x > 0 && 0 <= p[x] < x {
        lemma_anc_push(p, v, a, p[x]);
    }
}

/// The parent of an ancestor other than the root is an ancestor too.
pub proof fn lemma_anc_up(p: Seq<int>, a: int, x: int)
    requires
        tree_parents(p),
        anc(p, a, x),
        1 <= a < p.len(),
    ensures
        anc(p, p[a], x),
    decreases x,
{
    if x == a {
        assert(anc(p, p[a], p[a]));
    } else {
        lemma_anc_up(p, a, p[x]);
    }
}

/// Ancestry is transitive.
pub proof fn lemma_anc_trans(p: Seq<int>, a: int, b: int, x: int)
    requires
        anc(p, a, b),
        anc(p, b, x),
    ensures
        anc(p, a, x),
    decreases x,
{
    if x != b {
        lemma_anc_trans(p, a, b, p[x]);
    }
}

/// An ancestor is never a later section.
pub proof fn lemma_anc_le(p: Seq<int>, a: int, x: int)
    requires
        anc(p, a, x),
    ensures
        a <= x,
    decreases x,
{
    if x != a {
        lemma_anc_le(p, a, p[x]);
    }
}

/// Scanning a literal reads the same within the bytes up to its closing quote.
proof fn lemma_scan_unshift(b: Seq<u8>, c: int, start: int, pos: int, e: int)
    requires
        0 <= c <= pos,
        scan_literal(b, start, pos) == Ok::<(int, int, int), ExlexError>((start, e, e + 1)),
    ensures
        scan_literal(b.subrange(c, e + 1), start - c, pos - c) == Ok::<(int, int, int), ExlexError>(
            (start - c, e - c, e - c + 1),
        ),
    decreases b.len() + 2 - pos,
{
    lemma_scan_literal_ok(b, start, pos);
    let w = b.subrange(c, e + 1);
    lemma_first_of_bounds(b, pos, 0x22u8, 0x5cu8);
    let j = first_of(b, pos, 0x22u8, 0x5cu8).unwrap();
    if b[j] != 0x22u8 {
        lemma_scan_literal_ok(b, start, j + 2);
        lemma_scan_unshift(b, c, start, j + 2, e);
    }
    assert(j <= e);
    assert forall|k: int| pos - c <= k < j - c implies w[k] != 0x22u8 && w[k] != 0x5cu8 by {
        assert(w[k] == b[k + c]);
    }
    assert(w[j - c] == b[j]);
    lemma_first_of_some(w, pos - c, j - c, 0x22u8, 0x5cu8);
}

/// Whatever a literal reads reads back as itself between quotes.
proof fn lemma_read_literal_safe(b: Seq<u8>, q: int)
    requires
        0 <= q,
        extract_literal(b, q) is Ok,
    ensures
        extract_literal(b, q) matches Ok((s, e, f)) && s == q + 1 && s <= e && f == e + 1 && literal_safe(
            b.subrange(s, e),
        ),
{
    lemma_scan_literal_ok(b, q + 1, q + 1);
    let (s, e, f) = extract_literal(b, q).unwrap();
    lemma_scan_unshift(b, q + 1, q + 1, q + 1, e);
    let x = b.subrange(s, e);
    assert(b.subrange(s, e + 1) =~= x + seq![0x22u8]);
}

/// Each successful step of the parser keeps `tree_state`.
proof fn lemma_step_tree(b: Seq<u8>, st: PState)
    requires
        tree_state(st),
        0 <= st.cursor < b.len(),
    ensures
        step(b, st) matches Ok(s) ==> tree_state(s),
{
    let x = b[st.cursor];
    let n = st.sections.len() as int;
    let p = st.parents;
    if x == 0x20u8 || x == 0x0du8 || x == 0x09u8 || x == 0x23u8 {
    } else if x == 0x22u8 {
        if let Ok(s) = parse_property(b, st) {
            lemma_read_literal_safe(b, st.cursor);
            let (ks, ke, c1) = extract_literal(b, st.cursor).unwrap();
            let c2 = crate::parser::skip_spaces(b, c1);
            let c3 = crate::parser::skip_spaces(b, c2 + 1);
            crate::parser::lemma_skip_spaces_bounds(b, c1);
            crate::parser::lemma_skip_spaces_bounds(b, c2 + 1);
            lemma_read_literal_safe(b, c3);
            assert(forall|i: int| 0 <= i < s.keys.len() ==> literal_safe(#[trigger] s.keys[i]));
        }
    } else if x == 0x7du8 {
        if let Ok(s) = close_section(st) {
            let a = st.active.last();
            let k = st.active.len() - 1;
            assert(k >= 1);
            assert(p[a] == st.active[k - 1]);
            lemma_anc_up(p, a, n - 1);
            assert forall|i: int| 1 <= i < s.active.len() implies #[trigger] s.active[i] >= 1
                && s.parents[s.active[i]] == s.active[i - 1] by {
                assert(s.active[i] == st.active[i] && s.active[i - 1] == st.active[i - 1]);
            }
        }
    } else {
        if let Ok(s0) = open_section(b, st) {
            if s0 != st {
                let c1 = crate::parser::skip_spaces(b, st.cursor + 4);
                crate::parser::lemma_skip_spaces_bounds(b, st.cursor + 4);
                lemma_read_literal_safe(b, c1);
                let a = st.active.last();
                let p2 = p.push(a);
                assert forall|j: int| 1 <= j < p2.len() implies anc(p2, #[trigger] p2[j], j - 1) by {
                    if j < n {
                        lemma_anc_push(p, a, p[j], j - 1);
                    } else {
                        lemma_anc_push(p, a, a, n - 1);
                    }
                }
                assert(anc(p2, n, n));
                assert forall|i: int| 1 <= i < s0.active.len() implies #[trigger] s0.active[i] >= 1
                    && s0.parents[s0.active[i]] == s0.active[i - 1] by {
                    if i < st.active.len() {
                        assert(s0.active[i] == st.active[i] && s0.active[i - 1] == st.active[i - 1]);
                        assert(s0.parents[st.active[i]] == p[st.active[i]]);
                    }
                }
                assert(forall|i: int| 1 <= i < n + 1 ==> literal_safe(#[trigger] s0.sections[i]));
            }
        }
    }
}

proof fn lemma_run_tree(b: Seq<u8>, st: PState)
    requires
        tree_state(st),
    ensures
        run(b, st) matches Ok(d) ==> parsed_shape(d),
    decreases b.len() - st.cursor,
{
    if 0 <= st.cursor < b.len() {
        lemma_step_tree(b, st);
        if let Ok(s) = step(b, st) {
            if st.cursor < s.cursor <= b.len() {
                lemma_run_tree(b, s);
            }
        }
    }
}

/// Every parsed document is numbered in pre-order, and every name, key and
/// value of it reads back as itself between quotes.
pub proof fn law_parsed_shape(b: Seq<u8>)
    ensures
        spec_parse(b) matches Ok(d) ==> parsed_shape(d),
{
    let st = initial_state();
    assert(anc(st.parents, 0, 0));
    lemma_run_tree(b, st);
}

} // verus!
