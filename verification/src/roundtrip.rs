//! Parsing the text `save` writes: the parser reads back exactly the tree of
//! live sections and properties that was written, section by section in the
//! order written, each with its live properties in the order written.

use vstd::prelude::*;
use vstd::utf8::valid_utf8;
use crate::parser::{
    extract_literal, first_of, is_first_of, lemma_ascii_boundaries, lemma_first_of_bounds,
    lemma_first_of_some, run, scan_literal, skip_spaces, step, starts_sect, ErrorCode, ExlexError,
    PState, parse_property, open_section, close_section,
};
use crate::writer::{
    children_upto, core_value, existing_props, existing_upto, lemma_render_utf8, model_utf8,
    new_prop_saved, new_props_upto, prop_line, render_section, section_head, section_name,
    section_tail, spec_save, wf_model, MutModel,
};
use crate::parser::{finish, initial_state, root_name, spec_parse, DocModel};
use crate::writer::{fresh, written, written_children};
use crate::laws::{is_live_descent, law_fresh_saves_document, law_parse_has_root, law_saved_sections, live_links};
use crate::parsed::{anc, lemma_anc_le, lemma_anc_trans, law_parsed_shape, parsed_shape, pre_order, tree_parents};
use crate::writer::is_descent;

verus! {

broadcast use {vstd::seq::group_seq_axioms, vstd::seq_lib::group_seq_properties};

/// `x` reads back as itself between quotes: scanning `x` followed by a quote
/// stops at that quote. (Every quote in `x` is escaped, and `x` does not end
/// in an escaping backslash.)
pub open spec fn literal_safe(x: Seq<u8>) -> bool {
    scan_literal(x + seq![0x22u8], 0, 0) == Ok::<(int, int, int), ExlexError>(
        (0, x.len() as int, x.len() as int + 1),
    )
}

/// Scanning a literal only reads the bytes up to its closing quote.
proof fn lemma_scan_shift(b: Seq<u8>, w: Seq<u8>, c: int, start: int, pos: int)
    requires
        0 <= c,
        c + w.len() <= b.len(),
        b.subrange(c, c + w.len()) == w,
        0 <= pos,
        scan_literal(w, start, pos) is Ok,
    ensures
        scan_literal(b, c + start, c + pos) == match scan_literal(w, start, pos) {
            Ok((s, e, f)) => Ok::<(int, int, int), ExlexError>((s + c, e + c, f + c)),
            Err(er) => Err(er),
        },
    decreases w.len() + 2 - pos,
{
    lemma_first_of_bounds(w, pos, 0x22u8, 0x5cu8);
    let j = first_of(w, pos, 0x22u8, 0x5cu8).unwrap();
    assert(is_first_of(w, pos, j, 0x22u8, 0x5cu8));
    assert forall|k: int| c + pos <= k < c + j implies b[k] != 0x22u8 && b[k] != 0x5cu8 by {
        assert(b[k] == w[k - c]);
    }
    assert(b[c + j] == w[j]);
    lemma_first_of_some(b, c + pos, c + j, 0x22u8, 0x5cu8);
    if w[j] != 0x22u8 {
        lemma_scan_shift(b, w, c, start, j + 2);
    }
}

/// A safe literal between quotes at `q` in `b`: reading it gives its bytes and
/// leaves the cursor after the closing quote.
proof fn lemma_literal_at(b: Seq<u8>, q: int, x: Seq<u8>)
    requires
        0 <= q,
        q + x.len() + 2 <= b.len(),
        b.subrange(q + 1, q + x.len() + 2) == x + seq![0x22u8],
        literal_safe(x),
    ensures
        extract_literal(b, q) == Ok::<(int, int, int), ExlexError>((q + 1, q + 1 + x.len() as int, q + 2 + x.len() as int)),
        b.subrange(q + 1, q + 1 + x.len()) == x,
{
    lemma_scan_shift(b, x + seq![0x22u8], q + 1, 0, 0);
    assert(b.subrange(q + 1, q + 1 + x.len()) =~= x) by {
        assert forall|i: int| 0 <= i < x.len() implies b.subrange(q + 1, q + 1 + x.len())[i] == x[i] by {
            assert(b[q + 1 + i] == b.subrange(q + 1, q + x.len() + 2)[i]);
        }
    }
}

/// The state once a property line is read.
pub open spec fn read_prop(st: PState, k: Seq<u8>, v: Seq<u8>) -> PState {
    PState {
        cursor: st.cursor + prop_line(k, v).len(),
        keys: st.keys.push(k),
        values: st.values.push(v),
        ..st
    }
}

/// Reading the line of a property.
#[verifier::rlimit(60)]
proof fn lemma_run_prop_line(b: Seq<u8>, st: PState, k: Seq<u8>, v: Seq<u8>)
    requires
        0 <= st.cursor,
        st.cursor + prop_line(k, v).len() <= b.len(),
        b.subrange(st.cursor, st.cursor + prop_line(k, v).len()) == prop_line(k, v),
        literal_safe(k),
        literal_safe(v),
    ensures
        run(b, st) == run(b, read_prop(st, k, v)),
{
    let c = st.cursor;
    let l = prop_line(k, v);
    let kl = k.len() as int;
    let vl = v.len() as int;
    assert forall|i: int| 0 <= i < l.len() implies b[c + i] == l[i] by {
        assert(b[c + i] == b.subrange(c, c + l.len())[i]);
    }
    assert(l[0] == 0x22u8);
    assert(l[1 + kl] == 0x22u8);
    assert(l[2 + kl] == 0x3au8);
    assert(l[3 + kl] == 0x20u8);
    assert(l[4 + kl] == 0x22u8);
    assert(l[5 + kl + vl] == 0x22u8);
    assert(l[6 + kl + vl] == 0x0au8);
    assert(b.subrange(c + 1, c + kl + 2) =~= k + seq![0x22u8]) by {
        assert forall|i: int| 0 <= i < kl + 1 implies b.subrange(c + 1, c + kl + 2)[i] == (k + seq![0x22u8])[i] by {
            assert(b[c + 1 + i] == l[1 + i]);
        }
    }
    lemma_literal_at(b, c, k);
    let q = c + 4 + kl;
    assert(b.subrange(q + 1, q + vl + 2) =~= v + seq![0x22u8]) by {
        assert forall|i: int| 0 <= i < vl + 1 implies b.subrange(q + 1, q + vl + 2)[i] == (v + seq![0x22u8])[i] by {
            assert(b[q + 1 + i] == l[5 + kl + i]);
        }
    }
    lemma_literal_at(b, q, v);
    assert(skip_spaces(b, c + 2 + kl) == c + 2 + kl);
    assert(skip_spaces(b, c + 4 + kl) == c + 4 + kl);
    assert(skip_spaces(b, c + 3 + kl) == c + 4 + kl);
    let s1 = PState {
        cursor: c + 6 + kl + vl,
        keys: st.keys.push(k),
        values: st.values.push(v),
        ..st
    };
    assert(parse_property(b, st) == Ok::<PState, ExlexError>(s1));
    assert(step(b, st) == Ok::<PState, ExlexError>(s1));
    assert(!starts_sect(b, s1.cursor));
    assert(step(b, s1) == Ok::<PState, ExlexError>(read_prop(st, k, v)));
    assert(run(b, st) == run(b, s1));
    assert(run(b, s1) == run(b, read_prop(st, k, v)));
}

/// The state once a section header is read: the section is opened inside the
/// innermost open one.
pub open spec fn read_head(st: PState, name: Seq<u8>) -> PState {
    PState {
        cursor: st.cursor + section_head(name).len(),
        sections: st.sections.push(name),
        parents: st.parents.push(st.active.last()),
        prop_tracker: st.prop_tracker.push(st.keys.len() as int),
        children: st.children.push((0int, 0int)),
        active: st.active.push(st.sections.len() as int),
        ..st
    }
}

/// The state once a closing brace line is read.
pub open spec fn read_tail(st: PState) -> PState {
    PState {
        cursor: st.cursor + 2,
        active: st.active.drop_last(),
        children: st.children.update(st.active.last(), (st.active.last() + 1, st.sections.len() as int)),
        ..st
    }
}

/// Reading a section header.
#[verifier::rlimit(60)]
proof fn lemma_run_head(b: Seq<u8>, st: PState, name: Seq<u8>)
    requires
        0 <= st.cursor,
        st.cursor + section_head(name).len() <= b.len(),
        b.subrange(st.cursor, st.cursor + section_head(name).len()) == section_head(name),
        literal_safe(name),
        valid_utf8(b),
    ensures
        run(b, st) == run(b, read_head(st, name)),
{
    let c = st.cursor;
    let l = section_head(name);
    let n = name.len() as int;
    assert forall|i: int| 0 <= i < l.len() implies b[c + i] == l[i] by {
        assert(b[c + i] == b.subrange(c, c + l.len())[i]);
    }
    assert(l[0] == 0x73u8 && l[1] == 0x65u8 && l[2] == 0x63u8 && l[3] == 0x74u8);
    assert(l[4] == 0x20u8 && l[5] == 0x22u8);
    assert(l[6 + n] == 0x22u8 && l[7 + n] == 0x20u8 && l[8 + n] == 0x7bu8 && l[9 + n] == 0x0au8);
    assert(b.subrange(c + 6, c + n + 7) =~= name + seq![0x22u8]) by {
        assert forall|i: int| 0 <= i < n + 1 implies b.subrange(c + 6, c + n + 7)[i] == (name + seq![0x22u8])[i] by {
            assert(b[c + 6 + i] == l[6 + i]);
        }
    }
    lemma_literal_at(b, c + 5, name);
    lemma_ascii_boundaries(b, c + 5);
    assert(starts_sect(b, c));
    assert(skip_spaces(b, c + 5) == c + 5);
    assert(skip_spaces(b, c + 4) == c + 5);
    assert(skip_spaces(b, c + 8 + n) == c + 8 + n);
    assert(skip_spaces(b, c + 7 + n) == c + 8 + n);
    let s0 = PState {
        cursor: c + 8 + n,
        sections: st.sections.push(name),
        parents: st.parents.push(st.active.last()),
        prop_tracker: st.prop_tracker.push(st.keys.len() as int),
        children: st.children.push((0int, 0int)),
        active: st.active.push(st.sections.len() as int),
        ..st
    };
    assert(open_section(b, st) == Ok::<PState, ExlexError>(s0));
    let s1 = PState { cursor: c + 9 + n, ..s0 };
    assert(step(b, st) == Ok::<PState, ExlexError>(s1));
    assert(!starts_sect(b, s1.cursor));
    assert(step(b, s1) == Ok::<PState, ExlexError>(read_head(st, name)));
    assert(run(b, st) == run(b, s1));
    assert(run(b, s1) == run(b, read_head(st, name)));
}

/// Reading a closing brace line, with a section other than the root open.
proof fn lemma_run_tail(b: Seq<u8>, st: PState)
    requires
        0 <= st.cursor,
        st.cursor + 2 <= b.len(),
        b.subrange(st.cursor, st.cursor + 2) == section_tail(),
        st.active.len() > 0,
        st.active.last() != 0,
    ensures
        run(b, st) == run(b, read_tail(st)),
{
    let c = st.cursor;
    assert(b[c] == b.subrange(c, c + 2)[0]);
    assert(b[c + 1] == b.subrange(c, c + 2)[1]);
    let s1 = PState { cursor: c + 1, ..read_tail(st) };
    assert(close_section(st) == Ok::<PState, ExlexError>(s1));
    assert(step(b, st) == Ok::<PState, ExlexError>(s1));
    assert(!starts_sect(b, s1.cursor));
    assert(step(b, s1) == Ok::<PState, ExlexError>(read_tail(st)));
    assert(run(b, st) == run(b, s1));
}

/// Text `x + y` at `c` is `x` at `c` followed by `y`.
proof fn lemma_split(b: Seq<u8>, c: int, x: Seq<u8>, y: Seq<u8>)
    requires
        0 <= c,
        c + x.len() + y.len() <= b.len(),
        b.subrange(c, c + x.len() + y.len()) == x + y,
    ensures
        b.subrange(c, c + x.len()) == x,
        b.subrange(c + x.len(), c + x.len() + y.len()) == y,
{
    assert forall|i: int| 0 <= i < x.len() implies b.subrange(c, c + x.len())[i] == x[i] by {
        assert(b[c + i] == (x + y)[i]);
        assert(b[c + i] == b.subrange(c, c + x.len() + y.len())[i]);
    }
    assert forall|i: int| 0 <= i < y.len() implies b.subrange(c + x.len(), c + x.len() + y.len())[i] == y[i] by {
        assert(b[c + x.len() + i] == b.subrange(c, c + x.len() + y.len())[x.len() + i]);
        assert((x + y)[x.len() + i] == y[i]);
    }
    assert(b.subrange(c, c + x.len()) =~= x);
    assert(b.subrange(c + x.len(), c + x.len() + y.len()) =~= y);
}

/// Every string `save` may write is read back as itself between quotes.
pub open spec fn saved_safe(m: MutModel) -> bool {
    &&& forall|i: int|
        0 <= i < m.doc.keys.len() ==> literal_safe(#[trigger] m.doc.keys[i]) && literal_safe(core_value(m, i))
    &&& forall|j: int|
        0 <= j < m.new_props.len() ==> literal_safe((#[trigger] m.new_props[j]).key) && literal_safe(
            m.new_props[j].value,
        )
    &&& forall|s: int| 1 <= s < m.parents.len() ==> literal_safe(#[trigger] section_name(m, s))
}

/// The state once the lines of the document's properties `lo..hi` are read.
pub open spec fn read_existing(m: MutModel, lo: int, hi: int, st: PState) -> PState
    decreases hi - lo,
{
    if hi <= lo {
        st
    } else {
        let st1 = read_existing(m, lo, hi - 1, st);
        if m.dead_keys[hi - 1] {
            st1
        } else {
            read_prop(st1, m.doc.keys[hi - 1], core_value(m, hi - 1))
        }
    }
}

/// The state once the lines of the new properties `0..k` of section `s` are read.
pub open spec fn read_new(m: MutModel, s: int, k: int, st: PState) -> PState
    decreases k,
{
    if k <= 0 {
        st
    } else {
        let st1 = read_new(m, s, k - 1, st);
        if new_prop_saved(m, s, k - 1) {
            read_prop(st1, m.new_props[k - 1].key, m.new_props[k - 1].value)
        } else {
            st1
        }
    }
}

/// The state once section `s` as saved is read.
pub open spec fn read_section(m: MutModel, s: int, depth: int, st: PState) -> PState
    decreases m.parents.len() - depth, m.parents.len() + 1,
{
    let st1 = if s != 0 {
        read_head(st, section_name(m, s))
    } else {
        st
    };
    let st2 = if 0 <= s < m.doc.sections.len() {
        read_existing(m, m.doc.prop_tracker[s], m.doc.prop_tracker[s + 1], st1)
    } else {
        st1
    };
    let st3 = read_new(m, s, m.new_props.len() as int, st2);
    let st4 = read_children(m, s, depth, m.parents.len() as int, st3);
    if s != 0 {
        read_tail(st4)
    } else {
        st4
    }
}

/// The state once the saved sections among `1..k` whose parent is `s` are read.
pub open spec fn read_children(m: MutModel, s: int, depth: int, k: int, st: PState) -> PState
    decreases m.parents.len() - depth, k,
{
    if k <= 1 || k > m.parents.len() || depth < 0 {
        st
    } else {
        let st1 = read_children(m, s, depth, k - 1, st);
        if m.parents[k - 1] == s && !m.dead_sections[k - 1] && depth < m.parents.len() {
            read_section(m, k - 1, depth + 1, st1)
        } else {
            st1
        }
    }
}

proof fn lemma_run_existing(m: MutModel, b: Seq<u8>, lo: int, hi: int, st: PState)
    requires
        saved_safe(m),
        0 <= lo,
        hi <= m.doc.keys.len(),
        m.dead_keys.len() == m.doc.keys.len(),
        0 <= st.cursor,
        st.cursor + existing_upto(m, lo, hi).len() <= b.len(),
        b.subrange(st.cursor, st.cursor + existing_upto(m, lo, hi).len()) == existing_upto(m, lo, hi),
    ensures
        run(b, st) == run(b, read_existing(m, lo, hi, st)),
        read_existing(m, lo, hi, st).cursor == st.cursor + existing_upto(m, lo, hi).len(),
        read_existing(m, lo, hi, st).sections == st.sections,
        read_existing(m, lo, hi, st).active == st.active,
    decreases hi - lo,
{
    if hi > lo {
        let a = existing_upto(m, lo, hi - 1);
        let line = if m.dead_keys[hi - 1] {
            Seq::<u8>::empty()
        } else {
            prop_line(m.doc.keys[hi - 1], core_value(m, hi - 1))
        };
        lemma_split(b, st.cursor, a, line);
        lemma_run_existing(m, b, lo, hi - 1, st);
        let st1 = read_existing(m, lo, hi - 1, st);
        if !m.dead_keys[hi - 1] {
            assert(literal_safe(m.doc.keys[hi - 1]));
            lemma_run_prop_line(b, st1, m.doc.keys[hi - 1], core_value(m, hi - 1));
        }
    }
}

proof fn lemma_run_new(m: MutModel, b: Seq<u8>, s: int, k: int, st: PState)
    requires
        saved_safe(m),
        k <= m.new_props.len(),
        0 <= st.cursor,
        st.cursor + new_props_upto(m, s, k).len() <= b.len(),
        b.subrange(st.cursor, st.cursor + new_props_upto(m, s, k).len()) == new_props_upto(m, s, k),
    ensures
        run(b, st) == run(b, read_new(m, s, k, st)),
        read_new(m, s, k, st).cursor == st.cursor + new_props_upto(m, s, k).len(),
        read_new(m, s, k, st).sections == st.sections,
        read_new(m, s, k, st).active == st.active,
    decreases k,
{
    if k > 0 {
        let a = new_props_upto(m, s, k - 1);
        let line = if new_prop_saved(m, s, k - 1) {
            prop_line(m.new_props[k - 1].key, m.new_props[k - 1].value)
        } else {
            Seq::<u8>::empty()
        };
        lemma_split(b, st.cursor, a, line);
        lemma_run_new(m, b, s, k - 1, st);
        if new_prop_saved(m, s, k - 1) {
            assert(literal_safe(m.new_props[k - 1].key));
            lemma_run_prop_line(b, read_new(m, s, k - 1, st), m.new_props[k - 1].key, m.new_props[k - 1].value);
        }
    }
}

#[verifier::spinoff_prover]
#[verifier::rlimit(80)]
proof fn lemma_run_section(m: MutModel, b: Seq<u8>, s: int, d: int, st: PState)
    requires
        wf_model(m),
        saved_safe(m),
        valid_utf8(b),
        0 <= s < m.parents.len(),
        st.sections.len() >= 1,
        0 <= st.cursor,
        st.cursor + render_section(m, s, d).len() <= b.len(),
        b.subrange(st.cursor, st.cursor + render_section(m, s, d).len()) == render_section(m, s, d),
    ensures
        run(b, st) == run(b, read_section(m, s, d, st)),
        read_section(m, s, d, st).cursor == st.cursor + render_section(m, s, d).len(),
        read_section(m, s, d, st).active == st.active,
        read_section(m, s, d, st).sections.len() >= st.sections.len(),
    decreases m.parents.len() - d, m.parents.len() + 1,
{
    let c = st.cursor;
    let h = if s != 0 {
        section_head(section_name(m, s))
    } else {
        Seq::<u8>::empty()
    };
    let ex = existing_props(m, s);
    let np = new_props_upto(m, s, m.new_props.len() as int);
    let ch = children_upto(m, s, d, m.parents.len() as int);
    let tl = if s != 0 {
        section_tail()
    } else {
        Seq::<u8>::empty()
    };
    assert(render_section(m, s, d) == h + ex + np + ch + tl);
    lemma_split(b, c, h + ex + np + ch, tl);
    lemma_split(b, c, h + ex + np, ch);
    lemma_split(b, c, h + ex, np);
    lemma_split(b, c, h, ex);
    let st1 = if s != 0 {
        read_head(st, section_name(m, s))
    } else {
        st
    };
    if s != 0 {
        assert(literal_safe(section_name(m, s)));
        lemma_run_head(b, st, section_name(m, s));
    }
    let st2 = if 0 <= s < m.doc.sections.len() {
        read_existing(m, m.doc.prop_tracker[s], m.doc.prop_tracker[s + 1], st1)
    } else {
        st1
    };
    if 0 <= s < m.doc.sections.len() {
        let n = m.doc.sections.len() as int;
        assert(m.doc.prop_tracker[0] <= m.doc.prop_tracker[s]);
        assert(m.doc.prop_tracker[s + 1] <= m.doc.prop_tracker[n]);
        lemma_run_existing(m, b, m.doc.prop_tracker[s], m.doc.prop_tracker[s + 1], st1);
    }
    let st3 = read_new(m, s, m.new_props.len() as int, st2);
    lemma_run_new(m, b, s, m.new_props.len() as int, st2);
    let st4 = read_children(m, s, d, m.parents.len() as int, st3);
    lemma_run_children(m, b, s, d, m.parents.len() as int, st3);
    if s != 0 {
        assert(st4.active == st.active.push(st.sections.len() as int));
        lemma_run_tail(b, st4);
        assert(read_tail(st4).active =~= st.active);
    }
}

proof fn lemma_run_children(m: MutModel, b: Seq<u8>, s: int, d: int, k: int, st: PState)
    requires
        wf_model(m),
        saved_safe(m),
        valid_utf8(b),
        st.sections.len() >= 1,
        0 <= st.cursor,
        st.cursor + children_upto(m, s, d, k).len() <= b.len(),
        b.subrange(st.cursor, st.cursor + children_upto(m, s, d, k).len()) == children_upto(m, s, d, k),
    ensures
        run(b, st) == run(b, read_children(m, s, d, k, st)),
        read_children(m, s, d, k, st).cursor == st.cursor + children_upto(m, s, d, k).len(),
        read_children(m, s, d, k, st).active == st.active,
        read_children(m, s, d, k, st).sections.len() >= st.sections.len(),
    decreases m.parents.len() - d, k,
{
    if k > 1 && k <= m.parents.len() && d >= 0 {
        let a = children_upto(m, s, d, k - 1);
        let own = if m.parents[k - 1] == s && !m.dead_sections[k - 1] && d < m.parents.len() {
            render_section(m, k - 1, d + 1)
        } else {
            Seq::<u8>::empty()
        };
        assert(children_upto(m, s, d, k) == a + own);
        lemma_split(b, st.cursor, a, own);
        lemma_run_children(m, b, s, d, k - 1, st);
        if m.parents[k - 1] == s && !m.dead_sections[k - 1] && d < m.parents.len() {
            lemma_run_section(m, b, k - 1, d + 1, read_children(m, s, d, k - 1, st));
        }
    }
}

/// Parsing the text `save` writes reads back exactly what was written: the
/// live sections in the order written, each opened inside the one it was
/// written in, each with its live properties with their saved values in the
/// order written. It needs only that every string written reads back as
/// itself between quotes.
pub proof fn law_parse_saved(m: MutModel)
    requires
        wf_model(m),
        model_utf8(m),
        saved_safe(m),
    ensures
        spec_parse(spec_save(m)) == Ok::<_, ExlexError>(finish(read_section(m, 0, 0, initial_state()))),
{
    let b = spec_save(m);
    lemma_render_utf8(m, 0, 0);
    assert(b.subrange(0, b.len() as int) =~= b);
    lemma_run_section(m, b, 0, 0, initial_state());
}

/// The ids `a`, `a + 1`, ..., `a + n - 1`.
pub open spec fn id_range(a: int, n: int) -> Seq<int> {
    Seq::new(n as nat, |i: int| a + i)
}

/// The parser has read sections `0..t` of `d` with all their properties.
pub open spec fn at_section(d: DocModel, st: PState, t: int) -> bool {
    &&& st.sections == d.sections.take(t)
    &&& st.parents == d.parents.take(t)
    &&& st.prop_tracker == d.prop_tracker.take(t)
    &&& st.keys == d.keys.take(d.prop_tracker[t])
    &&& st.values == d.values.take(d.prop_tracker[t])
}

proof fn lemma_fresh_existing(m: MutModel, lo: int, hi: int, st: PState)
    requires
        wf_model(m),
        fresh(m),
        0 <= lo <= hi <= m.doc.keys.len(),
        st.keys == m.doc.keys.take(lo),
        st.values == m.doc.values.take(lo),
    ensures
        read_existing(m, lo, hi, st).keys == m.doc.keys.take(hi),
        read_existing(m, lo, hi, st).values == m.doc.values.take(hi),
        read_existing(m, lo, hi, st).sections == st.sections,
        read_existing(m, lo, hi, st).parents == st.parents,
        read_existing(m, lo, hi, st).prop_tracker == st.prop_tracker,
        read_existing(m, lo, hi, st).active == st.active,
    decreases hi - lo,
{
    if hi > lo {
        lemma_fresh_existing(m, lo, hi - 1, st);
        law_fresh_saves_document(m, hi - 1);
        assert(m.doc.keys.take(hi - 1).push(m.doc.keys[hi - 1]) =~= m.doc.keys.take(hi));
        assert(m.doc.values.take(hi - 1).push(m.doc.values[hi - 1]) =~= m.doc.values.take(hi));
    }
}

proof fn lemma_fresh_section(m: MutModel, c: int, d: int, st: PState)
    requires
        wf_model(m),
        fresh(m),
        1 <= c,
        written(m, c, d) == id_range(c, written(m, c, d).len() as int),
        c + written(m, c, d).len() <= m.doc.sections.len(),
        at_section(m.doc, st, c),
        st.active.len() >= 1,
        st.active.last() == m.doc.parents[c],
    ensures
        at_section(m.doc, read_section(m, c, d, st), c + written(m, c, d).len()),
        read_section(m, c, d, st).active == st.active,
    decreases m.parents.len() - d, m.parents.len() + 1,
{
    let doc = m.doc;
    let n = doc.sections.len() as int;
    let w = written(m, c, d);
    let wc = written_children(m, c, d, m.parents.len() as int);
    assert(w == seq![c] + wc);
    assert(wc =~= id_range(c + 1, wc.len() as int)) by {
        assert forall|i: int| 0 <= i < wc.len() implies wc[i] == c + 1 + i by {
            assert(wc[i] == w[i + 1]);
        }
    }
    assert(doc.prop_tracker[c] <= doc.prop_tracker[c + 1]);
    assert(doc.prop_tracker[c + 1] <= doc.prop_tracker[n]);
    let st1 = read_head(st, section_name(m, c));
    assert(st1.sections =~= doc.sections.take(c + 1));
    assert(st1.parents =~= doc.parents.take(c + 1));
    assert(st1.prop_tracker =~= doc.prop_tracker.take(c + 1));
    lemma_fresh_existing(m, doc.prop_tracker[c], doc.prop_tracker[c + 1], st1);
    let st2 = read_existing(m, doc.prop_tracker[c], doc.prop_tracker[c + 1], st1);
    assert(at_section(doc, st2, c + 1));
    let st3 = read_new(m, c, m.new_props.len() as int, st2);
    assert(st3 == st2);
    lemma_fresh_children(m, c, d, m.parents.len() as int, st3);
    let st4 = read_children(m, c, d, m.parents.len() as int, st3);
    assert(read_tail(st4).active =~= st.active);
}

proof fn lemma_fresh_children(m: MutModel, s: int, d: int, k: int, st: PState)
    requires
        wf_model(m),
        fresh(m),
        0 <= s,
        written_children(m, s, d, k) == id_range(s + 1, written_children(m, s, d, k).len() as int),
        s + 1 + written_children(m, s, d, k).len() <= m.doc.sections.len(),
        at_section(m.doc, st, s + 1),
        st.active.len() >= 1,
        st.active.last() == s,
    ensures
        at_section(m.doc, read_children(m, s, d, k, st), s + 1 + written_children(m, s, d, k).len()),
        read_children(m, s, d, k, st).active == st.active,
    decreases m.parents.len() - d, k,
{
    if k > 1 && k <= m.parents.len() && d >= 0 {
        let a = written_children(m, s, d, k - 1);
        let own = if m.parents[k - 1] == s && !m.dead_sections[k - 1] && d < m.parents.len() {
            written(m, k - 1, d + 1)
        } else {
            Seq::<int>::empty()
        };
        let all = written_children(m, s, d, k);
        assert(all == a + own);
        assert(a =~= id_range(s + 1, a.len() as int)) by {
            assert forall|i: int| 0 <= i < a.len() implies a[i] == s + 1 + i by {
                assert(a[i] == all[i]);
            }
        }
        lemma_fresh_children(m, s, d, k - 1, st);
        if m.parents[k - 1] == s && !m.dead_sections[k - 1] && d < m.parents.len() {
            let st1 = read_children(m, s, d, k - 1, st);
            let start = s + 1 + a.len();
            assert(own =~= id_range(start, own.len() as int)) by {
                assert forall|i: int| 0 <= i < own.len() implies own[i] == start + i by {
                    assert(own[i] == all[a.len() + i]);
                }
            }
            assert(own[0] == k - 1);
            lemma_fresh_section(m, k - 1, d + 1, st1);
        } else {
            assert(all =~= a);
        }
    }
}

/// Parsing what `save` writes for an unedited document whose strings read
/// back as themselves and whose sections are saved in id order gives back its
/// sections and properties.
proof fn lemma_parse_saved_in_order(m: MutModel)
    requires
        wf_model(m),
        fresh(m),
        model_utf8(m),
        saved_safe(m),
        m.doc.sections[0] == root_name(),
        written(m, 0, 0) == id_range(0, m.doc.sections.len() as int),
    ensures
        spec_parse(spec_save(m)) matches Ok(d2) && d2.sections == m.doc.sections && d2.parents
            == m.doc.parents && d2.prop_tracker == m.doc.prop_tracker && d2.keys == m.doc.keys
            && d2.values == m.doc.values,
{
    law_parse_saved(m);
    let doc = m.doc;
    let n = doc.sections.len() as int;
    let init = initial_state();
    assert(doc.prop_tracker[0] <= doc.prop_tracker[1]);
    assert(doc.prop_tracker[1] <= doc.prop_tracker[n]);
    assert(doc.keys.take(0) =~= init.keys);
    assert(doc.values.take(0) =~= init.values);
    lemma_fresh_existing(m, 0, doc.prop_tracker[1], init);
    let st2 = read_existing(m, doc.prop_tracker[0], doc.prop_tracker[1], init);
    assert(st2.sections =~= doc.sections.take(1));
    assert(st2.parents =~= doc.parents.take(1));
    assert(st2.prop_tracker =~= doc.prop_tracker.take(1));
    let st3 = read_new(m, 0, m.new_props.len() as int, st2);
    assert(st3 == st2);
    let w = written(m, 0, 0);
    let wc = written_children(m, 0, 0, m.parents.len() as int);
    assert(w == seq![0int] + wc);
    assert(wc =~= id_range(1, wc.len() as int)) by {
        assert forall|i: int| 0 <= i < wc.len() implies wc[i] == 1 + i by {
            assert(wc[i] == w[i + 1]);
        }
    }
    lemma_fresh_children(m, 0, 0, m.parents.len() as int, st3);
    let st4 = read_children(m, 0, 0, m.parents.len() as int, st3);
    assert(read_section(m, 0, 0, init) == st4);
    let d2 = finish(st4);
    assert(d2.sections =~= doc.sections);
    assert(d2.parents =~= doc.parents);
    assert(d2.keys =~= doc.keys);
    assert(d2.values =~= doc.values);
    assert(d2.prop_tracker =~= doc.prop_tracker);
}

/// Each element is smaller than every later one.
pub open spec fn increasing(w: Seq<int>) -> bool {
    forall|i: int, j: int| 0 <= i < j < w.len() ==> w[i] < w[j]
}

/// In pre-order, the sections from an ancestor up to one of its descendants
/// all descend from it.
proof fn lemma_interval(p: Seq<int>, a: int, x: int, y: int)
    requires
        tree_parents(p),
        pre_order(p),
        anc(p, a, x),
        a <= y <= x,
    ensures
        anc(p, a, y),
    decreases x - y,
{
    if y < x {
        assert(x != a);
        assert(anc(p, p[x], x - 1));
        lemma_anc_trans(p, a, p[x], x - 1);
        lemma_interval(p, a, x - 1, y);
    }
}

proof fn lemma_increasing_concat(a: Seq<int>, b: Seq<int>)
    requires
        increasing(a),
        increasing(b),
        forall|i: int, j: int| 0 <= i < a.len() && 0 <= j < b.len() ==> a[i] < b[j],
    ensures
        increasing(a + b),
{
    let w = a + b;
    assert forall|i: int, j: int| 0 <= i < j < w.len() implies w[i] < w[j] by {
        if j < a.len() {
            assert(w[i] == a[i] && w[j] == a[j]);
        } else if i < a.len() {
            assert(w[i] == a[i] && w[j] == b[j - a.len()]);
        } else {
            assert(w[i] == b[i - a.len()] && w[j] == b[j - a.len()]);
        }
    }
}

/// In pre-order, a section writes itself and then its descendants, in
/// increasing order.
proof fn lemma_written_sorted(m: MutModel, s: int, d: int)
    requires
        tree_parents(m.parents),
        pre_order(m.parents),
        0 <= s < m.parents.len(),
    ensures
        increasing(written(m, s, d)),
        forall|x: int| #[trigger] written(m, s, d).contains(x) ==> anc(m.parents, s, x),
    decreases m.parents.len() - d, m.parents.len() + 1,
{
    let p = m.parents;
    let wc = written_children(m, s, d, m.parents.len() as int);
    lemma_children_sorted(m, s, d, m.parents.len() as int);
    assert(written(m, s, d) == seq![s] + wc);
    assert forall|x: int| wc.contains(x) implies anc(p, s, x) && s < x by {
        let c = choose|c: int| 1 <= c < m.parents.len() && p[c] == s && #[trigger] anc(p, c, x);
        assert(anc(p, s, s));
        assert(anc(p, s, c));
        lemma_anc_trans(p, s, c, x);
        lemma_anc_le(p, c, x);
    }
    assert forall|i: int, j: int| 0 <= i < 1 && 0 <= j < wc.len() implies seq![s][i] < wc[j] by {
        assert(wc.contains(wc[j]));
    }
    lemma_increasing_concat(seq![s], wc);
    assert(anc(p, s, s));
}

proof fn lemma_children_sorted(m: MutModel, s: int, d: int, k: int)
    requires
        tree_parents(m.parents),
        pre_order(m.parents),
        0 <= s < m.parents.len(),
    ensures
        increasing(written_children(m, s, d, k)),
        forall|x: int|
            #[trigger] written_children(m, s, d, k).contains(x) ==> exists|c: int|
                1 <= c < k && c < m.parents.len() && m.parents[c] == s && #[trigger] anc(m.parents, c, x),
    decreases m.parents.len() - d, k,
{
    let p = m.parents;
    if k > 1 && k <= m.parents.len() && d >= 0 {
        let a = written_children(m, s, d, k - 1);
        lemma_children_sorted(m, s, d, k - 1);
        if m.parents[k - 1] == s && !m.dead_sections[k - 1] && d < m.parents.len() {
            let c = k - 1;
            let own = written(m, c, d + 1);
            lemma_written_sorted(m, c, d + 1);
            assert(written_children(m, s, d, k) == a + own);
            assert forall|i: int, j: int| 0 <= i < a.len() && 0 <= j < own.len() implies a[i] < own[j] by {
                let x = a[i];
                let y = own[j];
                assert(a.contains(x));
                assert(own.contains(y));
                let c2 = choose|c2: int| 1 <= c2 < k - 1 && c2 < m.parents.len() && p[c2] == s && #[trigger] anc(p, c2, x);
                lemma_anc_le(p, c, y);
                if x >= c {
                    lemma_anc_le(p, c2, x);
                    lemma_interval(p, c2, x, c);
                    assert(anc(p, c2, p[c]));
                    lemma_anc_le(p, c2, s);
                }
            }
            lemma_increasing_concat(a, own);
            assert forall|x: int| #[trigger] (a + own).contains(x) implies exists|c3: int|
                1 <= c3 < k && c3 < m.parents.len() && p[c3] == s && #[trigger] anc(p, c3, x) by {
                if a.contains(x) {
                    let c2 = choose|c2: int| 1 <= c2 < k - 1 && c2 < m.parents.len() && p[c2] == s && #[trigger] anc(p, c2, x);
                    assert(anc(p, c2, x));
                } else {
                    assert(own.contains(x));
                    assert(anc(p, c, x));
                }
            }
        } else {
            assert(written_children(m, s, d, k) =~= a);
        }
    }
}

/// The descent from the root along the parents to `y`.
pub open spec fn chain_to(p: Seq<int>, y: int) -> Seq<int>
    decreases y,
{
    if y <= 0 || y >= p.len() || !(0 <= p[y] < y) {
        seq![0int]
    } else {
        chain_to(p, p[y]).push(y)
    }
}

proof fn lemma_chain_to(m: MutModel, y: int)
    requires
        tree_parents(m.parents),
        forall|i: int| 0 <= i < m.dead_sections.len() ==> !#[trigger] m.dead_sections[i],
        m.dead_sections.len() == m.parents.len(),
        0 <= y < m.parents.len(),
    ensures
        is_live_descent(m, chain_to(m.parents, y)),
        chain_to(m.parents, y).last() == y,
        increasing(chain_to(m.parents, y)),
        forall|i: int| 0 <= i < chain_to(m.parents, y).len() ==> chain_to(m.parents, y)[i] <= y,
    decreases y,
{
    let p = m.parents;
    let c = chain_to(p, y);
    if y > 0 {
        lemma_chain_to(m, p[y]);
        let c0 = chain_to(p, p[y]);
        assert(c == c0.push(y));
        assert forall|i: int, j: int| 0 <= i < j < c.len() implies c[i] < c[j] by {
            if j < c0.len() {
                assert(c[i] == c0[i] && c[j] == c0[j]);
            } else {
                assert(c[i] == c0[i]);
            }
        }
        assert forall|i: int, j: int| 0 <= i < c.len() && 0 <= j < c.len() && i != j implies c[i] != c[j] by {
            if i < j {
                assert(c[i] < c[j]);
            } else {
                assert(c[j] < c[i]);
            }
        }
        assert forall|i: int| 1 <= i < c.len() implies 1 <= #[trigger] c[i] < m.parents.len() && m.parents[c[i]]
            == c[i - 1] && !m.dead_sections[c[i]] by {
            if i < c0.len() {
                assert(c[i] == c0[i] && c[i - 1] == c0[i - 1]);
                assert(1 <= c0[i]);
            }
        }
        assert(is_descent(m, c));
    } else {
        assert(is_descent(m, c));
    }
}

/// An increasing sequence holding exactly the ids `0..n` is those ids in order.
proof fn lemma_increasing_range(w: Seq<int>, n: int)
    requires
        0 <= n,
        increasing(w),
        forall|x: int| w.contains(x) <==> 0 <= x < n,
    ensures
        w == id_range(0, n),
{
    assert forall|i: int| 0 <= i < w.len() implies w[i] >= i by {
        lemma_increasing_at_least(w, i);
    }
    assert forall|i: int| 0 <= i < n implies i < w.len() && w[i] == i by {
        lemma_increasing_exact(w, n, i);
    }
    if w.len() > n {
        assert(w[n] >= n);
        assert(w.contains(w[n]));
    }
    if n > 0 {
        lemma_increasing_exact(w, n, n - 1);
    }
    assert(w.len() == n);
    assert(w =~= id_range(0, n));
}

proof fn lemma_increasing_at_least(w: Seq<int>, i: int)
    requires
        increasing(w),
        forall|x: int| w.contains(x) ==> 0 <= x,
        0 <= i < w.len(),
    ensures
        w[i] >= i,
    decreases i,
{
    assert(w.contains(w[i]));
    if i > 0 {
        lemma_increasing_at_least(w, i - 1);
    }
}

proof fn lemma_increasing_exact(w: Seq<int>, n: int, i: int)
    requires
        increasing(w),
        forall|x: int| w.contains(x) <==> 0 <= x < n,
        0 <= i < n,
    ensures
        i < w.len(),
        w[i] == i,
    decreases i,
{
    assert(w.contains(i));
    let j = choose|j: int| 0 <= j < w.len() && w[j] == i;
    lemma_increasing_at_least(w, j);
    if i > 0 {
        lemma_increasing_exact(w, n, i - 1);
        if j < i {
            assert(w[j] <= w[i - 1]) by {
                if j < i - 1 {
                    assert(w[j] < w[i - 1]);
                }
            }
        }
    }
    lemma_increasing_at_least(w, i);
    if j > i {
        assert(w[i] < w[j]);
    }
}

/// Parsing what `save` writes for an unedited document gives back the
/// document it was made from: the same sections (names and parents, under
/// the same ids) and, section by section, the same pairs in the same order.
pub proof fn law_parse_saved_fresh(b: Seq<u8>, m: MutModel)
    requires
        spec_parse(b) == Ok::<DocModel, ExlexError>(m.doc),
        wf_model(m),
        fresh(m),
        model_utf8(m),
    ensures
        spec_parse(spec_save(m)) matches Ok(d2) && d2.sections == m.doc.sections && d2.parents
            == m.doc.parents && d2.prop_tracker == m.doc.prop_tracker && d2.keys == m.doc.keys
            && d2.values == m.doc.values,
{
    let doc = m.doc;
    let n = doc.sections.len() as int;
    law_parsed_shape(b);
    law_parse_has_root(b);
    assert(m.parents == doc.parents);
    assert(saved_safe(m)) by {
        assert forall|i: int| 0 <= i < doc.keys.len() implies literal_safe(#[trigger] doc.keys[i])
            && literal_safe(core_value(m, i)) by {
            law_fresh_saves_document(m, i);
        }
        assert forall|s: int| 1 <= s < m.parents.len() implies literal_safe(#[trigger] section_name(m, s)) by {}
    }
    let w = written(m, 0, 0);
    lemma_written_sorted(m, 0, 0);
    law_saved_sections(m);
    assert forall|x: int| w.contains(x) <==> 0 <= x < n by {
        if w.contains(x) {
            let c = choose|c: Seq<int>| #[trigger] is_live_descent(m, c) && c.last() == x;
            if c.len() > 1 {
                assert(1 <= c[c.len() - 1] < m.parents.len());
            }
        }
        if 0 <= x < n {
            lemma_chain_to(m, x);
            assert(is_live_descent(m, chain_to(m.parents, x)));
        }
    }
    lemma_increasing_range(w, n);
    lemma_parse_saved_in_order(m);
}

} // verus!
