//! Laws of the library: how the operations of the mutator relate to one
//! another and to the document, and what every parse and every path lookup
//! of the reader satisfies.

use vstd::prelude::*;
use crate::interface::{
    core_key, lemma_first_match_bounds, lemma_split_dots_none, lemma_split_dots_some, not_found,
    path_names, spec_child, spec_property, spec_resolve, spec_walk, split_dots, first_match,
    is_first_match, lemma_first_match_some, child_ids,
};
use crate::parser::{
    initial_state, root_name, run, spec_parse, step, wf_doc, DocModel, ErrorCode, ExlexError, PState,
    skip_spaces, lemma_skip_spaces_bounds,
};
use crate::writer::{
    core_value, fresh, holds, moved, section_deleted, new_prop_saved, updated_index_is, lemma_first_where_bounds, lemma_first_where_extend, lemma_first_where_none,
    lemma_first_where_same, first_where, new_key_for, new_key_is, new_section_for, new_section_is,
    core_section_for, core_section_is, spec_delete, spec_get, spec_new_section, spec_update,
    updated_for, updated_is, wf_model, MutModel, written, written_children, is_descent,
    lemma_descent_len, lemma_descent_extend, existing_props, existing_upto, new_props_upto, prop_line,
};

verus! {

broadcast use {vstd::seq::group_seq_axioms, vstd::seq_lib::group_seq_properties};

// ─── The mutator ───────────────────────────────────────────────────────────

/// Reading a property back from the section it was set in gives the value it
/// was set to, whether it was new, already updated or the document's own.
pub proof fn law_update_then_get(m: MutModel, key: Seq<u8>, value: Seq<u8>, s: int)
    requires
        wf_model(m),
    ensures
        spec_get(spec_update(m, key, value, s), key, s) == Ok::<Seq<u8>, ExlexError>(value),
{
    let m2 = spec_update(m, key, value, s);
    let n_new = m.new_props.len() as int;
    let n_upd = m.updated.len() as int;
    let pn = new_key_is(m, key, s);
    let qn = new_key_is(m2, key, s);
    let pu = updated_is(m, key, s);
    let qu = updated_is(m2, key, s);
    lemma_first_where_bounds(n_new, pn);
    lemma_first_where_bounds(n_upd, pu);
    match new_key_for(m, key, s) {
        Some(i) => {
            assert forall|j: int| 0 <= j < n_new implies #[trigger] holds(pn, j) == holds(qn, j) by {}
            lemma_first_where_same(n_new, pn, qn);
        },
        None => {
            match updated_for(m, key, s) {
                Some(i) => {
                    assert forall|j: int| 0 <= j < n_new implies #[trigger] holds(pn, j) == holds(qn, j) by {}
                    lemma_first_where_same(n_new, pn, qn);
                    assert forall|j: int| 0 <= j < n_upd implies #[trigger] holds(pu, j) == holds(qu, j) by {}
                    lemma_first_where_same(n_upd, pu, qu);
                },
                None => {
                    match core_key(m.doc, key, s) {
                        Some(k) => {
                            lemma_first_match_bounds(
                                m.doc.keys,
                                key,
                                m.doc.prop_tracker[s],
                                m.doc.prop_tracker[s + 1],
                            );
                            assert forall|j: int| 0 <= j < n_new implies #[trigger] holds(pn, j) == holds(qn, j) by {}
                            lemma_first_where_same(n_new, pn, qn);
                            assert forall|j: int| 0 <= j < n_upd implies #[trigger] holds(pu, j) == holds(qu, j) by {}
                            lemma_first_where_extend(n_upd, pu, qu);
                            assert(holds(qu, n_upd));
                        },
                        None => {
                            assert forall|j: int| 0 <= j < n_new implies #[trigger] holds(pn, j) == holds(qn, j) by {}
                            lemma_first_where_extend(n_new, pn, qn);
                            assert(holds(qn, n_new));
                        },
                    }
                },
            }
        },
    }
}

/// Setting a property changes what reads give of no other property: another
/// key, or the same key in another section, reads as before.
pub proof fn law_update_keeps_others(
    m: MutModel,
    key: Seq<u8>,
    value: Seq<u8>,
    s: int,
    key2: Seq<u8>,
    s2: int,
)
    requires
        wf_model(m),
        key2 != key || s2 != s,
    ensures
        spec_get(spec_update(m, key, value, s), key2, s2) == spec_get(m, key2, s2),
{
    let m2 = spec_update(m, key, value, s);
    let n_new = m.new_props.len() as int;
    let n_upd = m.updated.len() as int;
    let pn = new_key_is(m, key2, s2);
    let qn = new_key_is(m2, key2, s2);
    let pu = updated_is(m, key2, s2);
    let qu = updated_is(m2, key2, s2);
    lemma_first_where_bounds(n_new, pn);
    lemma_first_where_bounds(n_upd, pu);
    lemma_first_where_bounds(n_new, new_key_is(m, key, s));
    lemma_first_where_bounds(n_upd, updated_is(m, key, s));
    match new_key_for(m, key, s) {
        Some(i) => {
            assert forall|j: int| 0 <= j < n_new implies #[trigger] holds(pn, j) == holds(qn, j) by {}
            lemma_first_where_same(n_new, pn, qn);
            assert forall|j: int| 0 <= j < n_upd implies #[trigger] holds(pu, j) == holds(qu, j) by {}
            lemma_first_where_same(n_upd, pu, qu);
            if let Some(j) = new_key_for(m, key2, s2) {
                assert(holds(pn, j));
                assert(j != i);
            }
        },
        None => {
            match updated_for(m, key, s) {
                Some(i) => {
                    assert forall|j: int| 0 <= j < n_new implies #[trigger] holds(pn, j) == holds(qn, j) by {}
                    lemma_first_where_same(n_new, pn, qn);
                    assert forall|j: int| 0 <= j < n_upd implies #[trigger] holds(pu, j) == holds(qu, j) by {}
                    lemma_first_where_same(n_upd, pu, qu);
                    if let Some(j) = updated_for(m, key2, s2) {
                        assert(holds(pu, j));
                        assert(j != i);
                    }
                },
                None => {
                    match core_key(m.doc, key, s) {
                        Some(k) => {
                            lemma_first_match_bounds(
                                m.doc.keys,
                                key,
                                m.doc.prop_tracker[s],
                                m.doc.prop_tracker[s + 1],
                            );
                            assert forall|j: int| 0 <= j < n_new implies #[trigger] holds(pn, j) == holds(qn, j) by {}
                            lemma_first_where_same(n_new, pn, qn);
                            assert forall|j: int| 0 <= j < n_upd implies #[trigger] holds(pu, j) == holds(qu, j) by {}
                            lemma_first_where_extend(n_upd, pu, qu);
                            assert(!holds(qu, n_upd));
                        },
                        None => {
                            assert forall|j: int| 0 <= j < n_new implies #[trigger] holds(pn, j) == holds(qn, j) by {}
                            lemma_first_where_extend(n_new, pn, qn);
                            assert(!holds(qn, n_new));
                            assert forall|j: int| 0 <= j < n_upd implies #[trigger] holds(pu, j) == holds(qu, j) by {}
                            lemma_first_where_same(n_upd, pu, qu);
                        },
                    }
                },
            }
        },
    }
}

/// Before any edit, the mutator reads every property of every section of the
/// document as the reader does.
pub proof fn law_fresh_reads_document(m: MutModel, key: Seq<u8>, s: int)
    requires
        wf_model(m),
        fresh(m),
        0 <= s < m.doc.sections.len(),
    ensures
        spec_get(m, key, s) == spec_property(m.doc, key, s),
{
    lemma_first_where_none(0, new_key_is(m, key, s));
    lemma_first_where_none(0, updated_is(m, key, s));
}

/// Deleting a property succeeds exactly when reading it succeeds; when it
/// fails, nothing is changed and the error is `PropertyNotFound`.
pub proof fn law_delete_finds_what_get_finds(m: MutModel, key: Seq<u8>, s: int)
    ensures
        (spec_delete(m, key, s).1 is Ok) == (spec_get(m, key, s) is Ok),
        spec_delete(m, key, s).1 is Err ==> spec_delete(m, key, s) == (
            m,
            Err::<(), ExlexError>(not_found(ErrorCode::PropertyNotFound)),
        ),
{
}

/// A section once created cannot be created again under the same parent.
pub proof fn law_new_section_twice(m: MutModel, name: Seq<u8>, parent: int)
    requires
        wf_model(m),
        spec_new_section(m, name, parent).1 is Ok,
    ensures
        spec_new_section(spec_new_section(m, name, parent).0, name, parent).1 == Err::<(), ExlexError>(
            not_found(ErrorCode::AlreadyCreatedSection),
        ),
{
    let m2 = spec_new_section(m, name, parent).0;
    let n = m.new_sections.len() as int;
    let p = new_section_is(m, name, parent);
    let q = new_section_is(m2, name, parent);
    assert forall|j: int| 0 <= j < n implies #[trigger] holds(p, j) == holds(q, j) by {}
    lemma_first_where_extend(n, p, q);
    assert(holds(q, n));
}

/// Creating a section changes nothing for the creation of any other name, or
/// of the same name under another parent.
pub proof fn law_new_section_keeps_others(
    m: MutModel,
    name: Seq<u8>,
    parent: int,
    name2: Seq<u8>,
    parent2: int,
)
    requires
        wf_model(m),
        spec_new_section(m, name, parent).1 is Ok,
        name2 != name || parent2 != parent,
    ensures
        spec_new_section(spec_new_section(m, name, parent).0, name2, parent2).1 == spec_new_section(
            m,
            name2,
            parent2,
        ).1,
{
    let m2 = spec_new_section(m, name, parent).0;
    let n = m.new_sections.len() as int;
    let p = new_section_is(m, name2, parent2);
    let q = new_section_is(m2, name2, parent2);
    assert forall|j: int| 0 <= j < n implies #[trigger] holds(p, j) == holds(q, j) by {}
    lemma_first_where_extend(n, p, q);
    assert(!holds(q, n));
    let c = m.doc.sections.len() as int;
    let pc = core_section_is(m, name2, parent2);
    let qc = core_section_is(m2, name2, parent2);
    assert forall|j: int| 0 <= j < c implies #[trigger] holds(pc, j) == holds(qc, j) by {}
    lemma_first_where_same(c, pc, qc);
}

/// A property of a document belongs to one section only.
proof fn lemma_ranges_disjoint(d: DocModel, s: int, t: int, k: int)
    requires
        wf_doc(d),
        0 <= s < d.sections.len(),
        0 <= t < d.sections.len(),
        d.prop_tracker[s] <= k < d.prop_tracker[s + 1],
        d.prop_tracker[t] <= k < d.prop_tracker[t + 1],
    ensures
        s == t,
{
    if s < t {
        assert(d.prop_tracker[s + 1] <= d.prop_tracker[t]);
    } else if t < s {
        assert(d.prop_tracker[t + 1] <= d.prop_tracker[s]);
    }
}

/// The updates of property `k` of the document are exactly the updates a
/// lookup of its key in its section finds.
proof fn lemma_updates_of_core_key(m: MutModel, key: Seq<u8>, s: int, k: int, j: int)
    requires
        wf_model(m),
        core_key(m.doc, key, s) == Some(k),
        0 <= j < m.updated.len(),
    ensures
        holds(updated_index_is(m, k), j) == holds(updated_is(m, key, s), j),
{
    let u = m.updated[j];
    let d = m.doc;
    lemma_first_match_bounds(d.keys, key, d.prop_tracker[s], d.prop_tracker[s + 1]);
    assert(core_key(d, d.keys[u.index], u.section) == Some(u.index));
    lemma_first_match_bounds(d.keys, d.keys[u.index], d.prop_tracker[u.section], d.prop_tracker[u.section + 1]);
    if u.index == k {
        lemma_ranges_disjoint(d, s, u.section, k);
    }
}

/// Once a property is set, `save` writes it with the value set: a property
/// of the document in its place, with the new value; any other key as a new
/// property of its section, saved unless it was created earlier and deleted.
pub proof fn law_update_then_save(m: MutModel, key: Seq<u8>, value: Seq<u8>, s: int)
    requires
        wf_model(m),
    ensures
        ({
            let m2 = spec_update(m, key, value, s);
            match core_key(m.doc, key, s) {
                Some(k) => core_value(m2, k) == value && m2.dead_keys[k] == m.dead_keys[k],
                None => new_key_for(m2, key, s) matches Some(i) && m2.new_props[i].value == value
                    && new_prop_saved(m2, s, i) == (new_key_for(m, key, s) is None || new_prop_saved(m, s, i)),
            }
        }),
{
    let m2 = spec_update(m, key, value, s);
    let n_new = m.new_props.len() as int;
    let n_upd = m.updated.len() as int;
    let pn = new_key_is(m, key, s);
    let qn = new_key_is(m2, key, s);
    let pu = updated_is(m, key, s);
    lemma_first_where_bounds(n_new, pn);
    lemma_first_where_bounds(n_upd, pu);
    law_update_then_get(m, key, value, s);
    match core_key(m.doc, key, s) {
        Some(k) => {
            if let Some(i) = new_key_for(m, key, s) {
                assert(core_key(m.doc, m.new_props[i].key, m.new_props[i].section) is None);
            }
            let d = m.doc;
            lemma_first_match_bounds(d.keys, key, d.prop_tracker[s], d.prop_tracker[s + 1]);
            assert(d.prop_tracker[s + 1] <= d.prop_tracker[d.sections.len() as int]);
            assert(k < m.dead_keys.len());
            let pk = updated_index_is(m, k);
            let qk = updated_index_is(m2, k);
            assert forall|j: int| 0 <= j < n_upd implies #[trigger] holds(pk, j) == holds(pu, j) by {
                lemma_updates_of_core_key(m, key, s, k, j);
            }
            match updated_for(m, key, s) {
                Some(i) => {
                    assert forall|j: int| 0 <= j < n_upd implies #[trigger] holds(pu, j) == holds(qk, j) by {
                        assert(holds(pk, j) == holds(pu, j));
                    }
                    lemma_first_where_same(n_upd, pu, qk);
                    assert(core_value(m2, k) == value);
                },
                None => {
                    assert forall|j: int| 0 <= j < n_upd implies #[trigger] holds(pk, j) == holds(qk, j) by {}
                    lemma_first_where_same(n_upd, pk, pu);
                    lemma_first_where_extend(n_upd, pk, qk);
                    assert(holds(qk, n_upd));
                    assert(core_value(m2, k) == value);
                },
            }
        },
        None => {
            if let Some(i) = updated_for(m, key, s) {
                let u = m.updated[i];
                assert(core_key(m.doc, m.doc.keys[u.index], u.section) == Some(u.index));
            }
            assert forall|j: int| 0 <= j < n_new implies #[trigger] holds(pn, j) == holds(qn, j) by {}
            if new_key_for(m, key, s) is None {
                lemma_first_where_extend(n_new, pn, qn);
                assert(holds(qn, n_new));
            } else {
                lemma_first_where_same(n_new, pn, qn);
            }
        },
    }
}

/// Before any edit, `save` writes every property of the document with its
/// own value, and none is marked deleted.
pub proof fn law_fresh_saves_document(m: MutModel, i: int)
    requires
        fresh(m),
        0 <= i < m.doc.keys.len(),
    ensures
        core_value(m, i) == m.doc.values[i],
        !m.dead_keys[i],
{
    lemma_first_where_none(0, updated_index_is(m, i));
}

/// Property `key` of section `s` is left out of what `save` writes: the
/// document's property a lookup finds there is marked deleted, and so is
/// every new property with that key in that section.
pub open spec fn left_out(m: MutModel, key: Seq<u8>, s: int) -> bool {
    &&& (core_key(m.doc, key, s) matches Some(k) ==> m.dead_keys[k])
    &&& forall|j: int|
        0 <= j < m.new_props.len() && (#[trigger] m.new_props[j]).key == key && m.new_props[j].section
            == s ==> !new_prop_saved(m, s, j)
}

/// A property that was deleted is left out of what `save` writes.
pub proof fn law_delete_then_save(m: MutModel, key: Seq<u8>, s: int)
    requires
        wf_model(m),
        spec_delete(m, key, s).1 is Ok,
    ensures
        left_out(spec_delete(m, key, s).0, key, s),
{
    let m2 = spec_delete(m, key, s).0;
    let n_upd = m.updated.len() as int;
    lemma_first_where_bounds(n_upd, updated_is(m, key, s));
    lemma_first_where_bounds(m.new_props.len() as int, new_key_is(m, key, s));
    if let Some(i) = updated_for(m, key, s) {
        let u = m.updated[i];
        assert(core_key(m.doc, m.doc.keys[u.index], u.section) == Some(u.index));
    }
    if let Some(k) = core_key(m.doc, key, s) {
        assert forall|j: int| 0 <= j < m2.new_props.len() && (#[trigger] m2.new_props[j]).key == key
            && m2.new_props[j].section == s implies !new_prop_saved(m2, s, j) by {
            assert(core_key(m.doc, m.new_props[j].key, m.new_props[j].section) is None);
        }
    } else {
        let i = new_key_for(m, key, s).unwrap();
        assert forall|j: int| 0 <= j < m2.new_props.len() && (#[trigger] m2.new_props[j]).key == key
            && m2.new_props[j].section == s implies !new_prop_saved(m2, s, j) by {
            if j != i {
                assert(m.new_props[j] == m2.new_props[j]);
                if j < i {
                    assert(!(m.new_props[j].key == m.new_props[i].key && m.new_props[j].section == m.new_props[i].section));
                } else {
                    assert(!(m.new_props[i].key == m.new_props[j].key && m.new_props[i].section == m.new_props[j].section));
                }
            }
        }
    }
}

/// A property left out of the saved text stays left out through every edit
/// except setting that same property again: setting any other property,
/// deleting, creating, moving or deleting sections.
pub proof fn law_left_out_stays(
    m: MutModel,
    key: Seq<u8>,
    s: int,
    key2: Seq<u8>,
    value: Seq<u8>,
    s2: int,
    name: Seq<u8>,
    parent: int,
    a: int,
    b: int,
)
    requires
        wf_model(m),
        left_out(m, key, s),
    ensures
        (key2 != key || s2 != s) ==> left_out(spec_update(m, key2, value, s2), key, s),
        left_out(spec_delete(m, key2, s2).0, key, s),
        left_out(spec_new_section(m, name, parent).0, key, s),
        left_out(moved(m, a, b), key, s),
        left_out(section_deleted(m, a), key, s),
{
    lemma_first_where_bounds(m.new_props.len() as int, new_key_is(m, key2, s2));
    if key2 != key || s2 != s {
        let m2 = spec_update(m, key2, value, s2);
        assert forall|j: int| 0 <= j < m2.new_props.len() && (#[trigger] m2.new_props[j]).key == key
            && m2.new_props[j].section == s implies !new_prop_saved(m2, s, j) by {
            if j < m.new_props.len() {
                assert(m2.new_props[j].dead == m.new_props[j].dead);
                assert(m2.new_props[j].key == m.new_props[j].key);
            }
        }
    }
    let m3 = spec_delete(m, key2, s2).0;
    assert forall|j: int| 0 <= j < m3.new_props.len() && (#[trigger] m3.new_props[j]).key == key
        && m3.new_props[j].section == s implies !new_prop_saved(m3, s, j) by {
        assert(m3.new_props[j].key == m.new_props[j].key);
    }
}

/// Setting a property changes no other line of the saved text: the
/// sections, their marks and parents, the deletion marks, the saved value of
/// every other property of the document, and every new property with another
/// key or section stay as they were.
pub proof fn law_update_keeps_other_lines(m: MutModel, key: Seq<u8>, value: Seq<u8>, s: int)
    requires
        wf_model(m),
    ensures
        ({
            let m2 = spec_update(m, key, value, s);
            &&& m2.doc == m.doc
            &&& m2.parents == m.parents
            &&& m2.dead_sections == m.dead_sections
            &&& m2.new_sections == m.new_sections
            &&& m2.dead_keys == m.dead_keys
            &&& forall|i: int|
                0 <= i < m.doc.keys.len() && core_key(m.doc, key, s) != Some(i) ==> #[trigger] core_value(m2, i)
                    == core_value(m, i)
            &&& forall|j: int|
                0 <= j < m.new_props.len() && !(m.new_props[j].key == key && m.new_props[j].section == s)
                    ==> #[trigger] m2.new_props[j] == m.new_props[j]
        }),
{
    let m2 = spec_update(m, key, value, s);
    let n_upd = m.updated.len() as int;
    lemma_first_where_bounds(n_upd, updated_is(m, key, s));
    lemma_first_where_bounds(m.new_props.len() as int, new_key_is(m, key, s));
    assert forall|i: int|
        0 <= i < m.doc.keys.len() && core_key(m.doc, key, s) != Some(i) implies #[trigger] core_value(m2, i)
            == core_value(m, i) by {
        let p = updated_index_is(m, i);
        let q = updated_index_is(m2, i);
        lemma_first_where_bounds(n_upd, p);
        if new_key_for(m, key, s) is Some {
            assert forall|j: int| 0 <= j < n_upd implies #[trigger] holds(p, j) == holds(q, j) by {}
            lemma_first_where_same(n_upd, p, q);
        } else if let Some(u) = updated_for(m, key, s) {
            assert forall|j: int| 0 <= j < n_upd implies #[trigger] holds(p, j) == holds(q, j) by {}
            lemma_first_where_same(n_upd, p, q);
            let w = m.updated[u];
            assert(core_key(m.doc, m.doc.keys[w.index], w.section) == Some(w.index));
            if let Some(j) = first_where(n_upd, p) {
                assert(j != u);
            }
        } else if let Some(k) = core_key(m.doc, key, s) {
            assert forall|j: int| 0 <= j < n_upd implies #[trigger] holds(p, j) == holds(q, j) by {}
            lemma_first_where_extend(n_upd, p, q);
            assert(!holds(q, n_upd));
            if let Some(j) = first_where(n_upd, p) {
                assert(m2.updated[j] == m.updated[j]);
            }
        } else {
            assert forall|j: int| 0 <= j < n_upd implies #[trigger] holds(p, j) == holds(q, j) by {}
            lemma_first_where_same(n_upd, p, q);
        }
    }
    if let Some(i) = new_key_for(m, key, s) {
        assert forall|j: int|
            0 <= j < m.new_props.len() && !(m.new_props[j].key == key && m.new_props[j].section == s)
                implies #[trigger] m2.new_props[j] == m.new_props[j] by {
            assert(j != i);
        }
    }
}

/// Moving a section back under the parent it had undoes the move.
pub proof fn law_move_back(m: MutModel, s: int, p: int)
    requires
        0 <= s < m.parents.len(),
    ensures
        moved(moved(m, s, p), s, m.parents[s]) == m,
{
    assert(moved(moved(m, s, p), s, m.parents[s]).parents =~= m.parents);
}

// ─── The lines of a section's block ─────────────────────────────────────────

/// The text of the lines of `ps`, one `"key": "value"` line per pair.
pub open spec fn lines(ps: Seq<(Seq<u8>, Seq<u8>)>) -> Seq<u8>
    decreases ps.len(),
{
    if ps.len() == 0 {
        Seq::empty()
    } else {
        lines(ps.drop_last()) + prop_line(ps.last().0, ps.last().1)
    }
}

/// The pairs written for the document's properties `lo..hi`.
pub open spec fn ex_pairs(m: MutModel, lo: int, hi: int) -> Seq<(Seq<u8>, Seq<u8>)>
    decreases hi - lo,
{
    if hi <= lo {
        Seq::empty()
    } else {
        ex_pairs(m, lo, hi - 1) + if m.dead_keys[hi - 1] {
            Seq::<(Seq<u8>, Seq<u8>)>::empty()
        } else {
            seq![(m.doc.keys[hi - 1], core_value(m, hi - 1))]
        }
    }
}

/// The pairs written for the new properties `0..k` of section `s`.
pub open spec fn new_pairs(m: MutModel, s: int, k: int) -> Seq<(Seq<u8>, Seq<u8>)>
    decreases k,
{
    if k <= 0 {
        Seq::empty()
    } else {
        new_pairs(m, s, k - 1) + if new_prop_saved(m, s, k - 1) {
            seq![(m.new_props[k - 1].key, m.new_props[k - 1].value)]
        } else {
            Seq::<(Seq<u8>, Seq<u8>)>::empty()
        }
    }
}

/// The pairs whose lines `save` writes in the block of section `s`, before
/// the sections inside it: the document's live properties, then the live new ones.
pub open spec fn block_pairs(m: MutModel, s: int) -> Seq<(Seq<u8>, Seq<u8>)> {
    doc_pairs(m, s) + new_pairs(m, s, m.new_props.len() as int)
}

/// The pairs written for the document's own live properties of section `s`.
pub open spec fn doc_pairs(m: MutModel, s: int) -> Seq<(Seq<u8>, Seq<u8>)> {
    if 0 <= s < m.doc.sections.len() {
        ex_pairs(m, m.doc.prop_tracker[s], m.doc.prop_tracker[s + 1])
    } else {
        Seq::empty()
    }
}

proof fn lemma_lines_concat(a: Seq<(Seq<u8>, Seq<u8>)>, b: Seq<(Seq<u8>, Seq<u8>)>)
    ensures
        lines(a + b) == lines(a) + lines(b),
    decreases b.len(),
{
    if b.len() == 0 {
        assert(a + b =~= a);
    } else {
        assert((a + b).drop_last() =~= a + b.drop_last());
        lemma_lines_concat(a, b.drop_last());
    }
}

proof fn lemma_lines_one(x: (Seq<u8>, Seq<u8>))
    ensures
        lines(seq![x]) == prop_line(x.0, x.1),
{
    assert(seq![x].drop_last() =~= Seq::<(Seq<u8>, Seq<u8>)>::empty());
    assert(lines(Seq::<(Seq<u8>, Seq<u8>)>::empty()) == Seq::<u8>::empty());
    assert(Seq::<u8>::empty() + prop_line(x.0, x.1) =~= prop_line(x.0, x.1));
}

proof fn lemma_ex_lines(m: MutModel, lo: int, hi: int)
    ensures
        existing_upto(m, lo, hi) == lines(ex_pairs(m, lo, hi)),
    decreases hi - lo,
{
    if hi > lo {
        lemma_ex_lines(m, lo, hi - 1);
        let t = if m.dead_keys[hi - 1] {
            Seq::<(Seq<u8>, Seq<u8>)>::empty()
        } else {
            seq![(m.doc.keys[hi - 1], core_value(m, hi - 1))]
        };
        lemma_lines_concat(ex_pairs(m, lo, hi - 1), t);
        if !m.dead_keys[hi - 1] {
            lemma_lines_one((m.doc.keys[hi - 1], core_value(m, hi - 1)));
        }
    }
}

proof fn lemma_new_lines(m: MutModel, s: int, k: int)
    ensures
        new_props_upto(m, s, k) == lines(new_pairs(m, s, k)),
    decreases k,
{
    if k > 0 {
        lemma_new_lines(m, s, k - 1);
        let t = if new_prop_saved(m, s, k - 1) {
            seq![(m.new_props[k - 1].key, m.new_props[k - 1].value)]
        } else {
            Seq::<(Seq<u8>, Seq<u8>)>::empty()
        };
        lemma_lines_concat(new_pairs(m, s, k - 1), t);
        if new_prop_saved(m, s, k - 1) {
            lemma_lines_one((m.new_props[k - 1].key, m.new_props[k - 1].value));
        }
    }
}

/// The property lines `save` writes in the block of section `s` are exactly
/// the lines of `block_pairs(m, s)`.
pub proof fn law_block_lines(m: MutModel, s: int)
    ensures
        existing_props(m, s) + new_props_upto(m, s, m.new_props.len() as int) == lines(block_pairs(m, s)),
{
    if 0 <= s < m.doc.sections.len() {
        lemma_ex_lines(m, m.doc.prop_tracker[s], m.doc.prop_tracker[s + 1]);
    } else {
        assert(lines(Seq::<(Seq<u8>, Seq<u8>)>::empty()) == Seq::<u8>::empty());
    }
    lemma_new_lines(m, s, m.new_props.len() as int);
    lemma_lines_concat(doc_pairs(m, s), new_pairs(m, s, m.new_props.len() as int));
}

proof fn lemma_ex_pairs_one(m: MutModel, m2: MutModel, lo: int, hi: int, k: int)
    requires
        m2.doc == m.doc,
        m2.dead_keys == m.dead_keys,
        forall|i: int| lo <= i < hi && i != k ==> #[trigger] core_value(m2, i) == core_value(m, i),
    ensures
        ex_pairs(m2, lo, hi) == if lo <= k < hi && !m.dead_keys[k] {
            ex_pairs(m, lo, hi).update(ex_pairs(m, lo, k).len() as int, (m.doc.keys[k], core_value(m2, k)))
        } else {
            ex_pairs(m, lo, hi)
        },
    decreases hi - lo,
{
    if hi > lo {
        lemma_ex_pairs_one(m, m2, lo, hi - 1, k);
        let a = ex_pairs(m, lo, hi - 1);
        let a2 = ex_pairs(m2, lo, hi - 1);
        if hi - 1 == k {
            if !m.dead_keys[k] {
                assert(ex_pairs(m2, lo, hi) =~= ex_pairs(m, lo, hi).update(a.len() as int, (m.doc.keys[k], core_value(m2, k))));
            }
        } else if lo <= k < hi - 1 && !m.dead_keys[k] {
            let pos = ex_pairs(m, lo, k).len() as int;
            assert(pos < a.len()) by {
                lemma_ex_pairs_prefix(m, lo, k, hi - 1);
            }
            assert(ex_pairs(m2, lo, hi) =~= ex_pairs(m, lo, hi).update(pos, (m.doc.keys[k], core_value(m2, k))));
        }
    }
}

proof fn lemma_ex_pairs_prefix(m: MutModel, lo: int, k: int, hi: int)
    requires
        lo <= k < hi,
        !m.dead_keys[k],
    ensures
        ex_pairs(m, lo, k).len() < ex_pairs(m, lo, hi).len(),
    decreases hi - k,
{
    if hi - 1 > k {
        lemma_ex_pairs_prefix(m, lo, k, hi - 1);
    }
}

proof fn lemma_new_pairs_same(m: MutModel, m2: MutModel, s: int, k: int)
    requires
        k <= m.new_props.len(),
        k <= m2.new_props.len(),
        forall|j: int| 0 <= j < k ==> #[trigger] m2.new_props[j] == m.new_props[j],
    ensures
        new_pairs(m2, s, k) == new_pairs(m, s, k),
    decreases k,
{
    if k > 0 {
        lemma_new_pairs_same(m, m2, s, k - 1);
        assert(m2.new_props[k - 1] == m.new_props[k - 1]);
    }
}

proof fn lemma_new_pairs_one(m: MutModel, m2: MutModel, s: int, k: int, i: int, v: Seq<u8>)
    requires
        k <= m.new_props.len(),
        m2.new_props.len() == m.new_props.len(),
        0 <= i < m.new_props.len(),
        m2.new_props[i] == (crate::writer::NewProp { value: v, ..m.new_props[i] }),
        forall|j: int| 0 <= j < m.new_props.len() && j != i ==> #[trigger] m2.new_props[j] == m.new_props[j],
    ensures
        new_pairs(m2, s, k) == if i < k && new_prop_saved(m, s, i) {
            new_pairs(m, s, k).update(new_pairs(m, s, i).len() as int, (m.new_props[i].key, v))
        } else {
            new_pairs(m, s, k)
        },
    decreases k,
{
    if k > 0 {
        lemma_new_pairs_one(m, m2, s, k - 1, i, v);
        if k - 1 == i {
            if new_prop_saved(m, s, i) {
                assert(new_pairs(m2, s, k) =~= new_pairs(m, s, k).update(new_pairs(m, s, i).len() as int, (m.new_props[i].key, v)));
            } else {
                assert(new_pairs(m2, s, k) =~= new_pairs(m, s, k));
            }
        } else {
            assert(m2.new_props[k - 1] == m.new_props[k - 1]);
            if i < k - 1 && new_prop_saved(m, s, i) {
                let pos = new_pairs(m, s, i).len() as int;
                assert(pos < new_pairs(m, s, k - 1).len()) by {
                    lemma_new_pairs_prefix(m, s, i, k - 1);
                }
                assert(new_pairs(m2, s, k) =~= new_pairs(m, s, k).update(pos, (m.new_props[i].key, v)));
            }
        }
    }
}

proof fn lemma_new_pairs_prefix(m: MutModel, s: int, i: int, k: int)
    requires
        0 <= i < k,
        new_prop_saved(m, s, i),
    ensures
        new_pairs(m, s, i).len() < new_pairs(m, s, k).len(),
    decreases k - i,
{
    if k - 1 > i {
        lemma_new_pairs_prefix(m, s, i, k - 1);
    }
}

/// Setting a property, as `save` writes it: in the block of its section the
/// line of that property is replaced in place by one with the new value (or,
/// for a key the section did not have, a line is added after the others, or
/// nothing changes if the property is left out as deleted); the blocks of all
/// other sections are unchanged.
pub proof fn law_update_then_block(m: MutModel, key: Seq<u8>, value: Seq<u8>, s: int, s2: int)
    requires
        wf_model(m),
        s2 != s,
    ensures
        ({
            let m2 = spec_update(m, key, value, s);
            let b = block_pairs(m, s);
            &&& block_pairs(m2, s2) == block_pairs(m, s2)
            &&& match core_key(m.doc, key, s) {
                Some(k) => block_pairs(m2, s) == if m.dead_keys[k] {
                    b
                } else {
                    b.update(ex_pairs(m, m.doc.prop_tracker[s], k).len() as int, (key, value))
                },
                None => match new_key_for(m, key, s) {
                    Some(i) => block_pairs(m2, s) == if new_prop_saved(m, s, i) {
                        b.update((doc_pairs(m, s).len() + new_pairs(m, s, i).len()) as int, (key, value))
                    } else {
                        b
                    },
                    None => block_pairs(m2, s) == b.push((key, value)),
                },
            }
        }),
{
    let m2 = spec_update(m, key, value, s);
    let n_new = m.new_props.len() as int;
    law_update_keeps_other_lines(m, key, value, s);
    law_update_then_save(m, key, value, s);
    law_update_then_get(m, key, value, s);
    lemma_first_where_bounds(n_new, new_key_is(m, key, s));
    lemma_first_where_bounds(m.updated.len() as int, updated_is(m, key, s));
    let kk = core_key(m.doc, key, s);
    let k0 = match kk {
        Some(k) => k,
        None => -1,
    };
    // the document's part of every block
    assert forall|t: int| 0 <= t < m.doc.sections.len() implies #[trigger] ex_pairs(
        m2,
        m.doc.prop_tracker[t],
        m.doc.prop_tracker[t + 1],
    ) == if m.doc.prop_tracker[t] <= k0 < m.doc.prop_tracker[t + 1] && !m.dead_keys[k0] {
        ex_pairs(m, m.doc.prop_tracker[t], m.doc.prop_tracker[t + 1]).update(
            ex_pairs(m, m.doc.prop_tracker[t], k0).len() as int,
            (m.doc.keys[k0], core_value(m2, k0)),
        )
    } else {
        ex_pairs(m, m.doc.prop_tracker[t], m.doc.prop_tracker[t + 1])
    } by {
        assert forall|i: int| m.doc.prop_tracker[t] <= i < m.doc.prop_tracker[t + 1] && i != k0 implies #[trigger] core_value(m2, i)
            == core_value(m, i) by {
            let n = m.doc.sections.len() as int;
            assert(m.doc.prop_tracker[0] <= m.doc.prop_tracker[t]);
            assert(m.doc.prop_tracker[t + 1] <= m.doc.prop_tracker[n]);
        }
        lemma_ex_pairs_one(m, m2, m.doc.prop_tracker[t], m.doc.prop_tracker[t + 1], k0);
    }
    if let Some(k) = kk {
        lemma_first_match_bounds(m.doc.keys, key, m.doc.prop_tracker[s], m.doc.prop_tracker[s + 1]);
        assert(m2.new_props =~= m.new_props) by {
            if let Some(i) = new_key_for(m, key, s) {
                assert(core_key(m.doc, m.new_props[i].key, m.new_props[i].section) is None);
            }
        }
        lemma_new_pairs_same(m, m2, s, n_new);
        lemma_new_pairs_same(m, m2, s2, n_new);
        if 0 <= s2 < m.doc.sections.len() {
            if m.doc.prop_tracker[s2] <= k < m.doc.prop_tracker[s2 + 1] {
                lemma_ranges_disjoint(m.doc, s, s2, k);
            }
        }
        if !m.dead_keys[k] {
            let e = ex_pairs(m, m.doc.prop_tracker[s], m.doc.prop_tracker[s + 1]);
            lemma_ex_pairs_prefix(m, m.doc.prop_tracker[s], k, m.doc.prop_tracker[s + 1]);
            assert(block_pairs(m2, s) =~= block_pairs(m, s).update(ex_pairs(m, m.doc.prop_tracker[s], k).len() as int, (key, value)));
        } else {
            assert(block_pairs(m2, s) =~= block_pairs(m, s));
        }
    } else {
        if let Some(u) = updated_for(m, key, s) {
            let w = m.updated[u];
            assert(core_key(m.doc, m.doc.keys[w.index], w.section) == Some(w.index));
        }
        match new_key_for(m, key, s) {
            Some(i) => {
                lemma_new_pairs_one(m, m2, s, n_new, i, value);
                lemma_new_pairs_one(m, m2, s2, n_new, i, value);
                if new_prop_saved(m, s, i) {
                    lemma_new_pairs_prefix(m, s, i, n_new);
                }
                assert(!new_prop_saved(m, s2, i));
                let e = doc_pairs(m, s);
                assert(doc_pairs(m2, s) == e);
                if new_prop_saved(m, s, i) {
                    assert(block_pairs(m2, s) =~= block_pairs(m, s).update(
                        (e.len() + new_pairs(m, s, i).len()) as int,
                        (key, value),
                    ));
                } else {
                    assert(block_pairs(m2, s) =~= block_pairs(m, s));
                }
                assert(block_pairs(m2, s2) =~= block_pairs(m, s2));
            },
            None => {
                lemma_new_pairs_same(m, m2, s, n_new);
                lemma_new_pairs_same(m, m2, s2, n_new);
                assert(m2.new_props[n_new].section == s);
                assert(block_pairs(m2, s) =~= block_pairs(m, s).push((key, value)));
                assert(block_pairs(m2, s2) =~= block_pairs(m, s2));
            },
        }
    }
}

/// When `name` occurs in `names[lo..hi]`, there is a first occurrence.
proof fn lemma_first_match_exists(names: Seq<Seq<u8>>, name: Seq<u8>, lo: int, hi: int, i: int)
    requires
        lo <= i < hi,
        names[i] == name,
    ensures
        first_match(names, name, lo, hi) is Some,
    decreases i - lo,
{
    if forall|j: int| lo <= j < i ==> names[j] != name {
        lemma_first_match_some(names, name, lo, hi, i);
    } else {
        let j = choose|j: int| lo <= j < i && names[j] == name;
        lemma_first_match_exists(names, name, lo, hi, j);
    }
}

proof fn lemma_ex_pairs_keys(m: MutModel, lo: int, hi: int, key: Seq<u8>)
    requires
        forall|i: int| lo <= i < hi && !m.dead_keys[i] ==> #[trigger] m.doc.keys[i] != key,
    ensures
        forall|j: int| 0 <= j < ex_pairs(m, lo, hi).len() ==> (#[trigger] ex_pairs(m, lo, hi)[j]).0 != key,
    decreases hi - lo,
{
    if hi > lo {
        lemma_ex_pairs_keys(m, lo, hi - 1, key);
        let a = ex_pairs(m, lo, hi - 1);
        assert forall|j: int| 0 <= j < ex_pairs(m, lo, hi).len() implies (#[trigger] ex_pairs(m, lo, hi)[j]).0
            != key by {
            if j < a.len() {
                assert(ex_pairs(m, lo, hi)[j] == a[j]);
            } else {
                assert(m.doc.keys[hi - 1] != key);
            }
        }
    }
}

proof fn lemma_new_pairs_keys(m: MutModel, s: int, k: int, key: Seq<u8>)
    requires
        k <= m.new_props.len(),
        forall|j: int|
            0 <= j < k && (#[trigger] m.new_props[j]).key == key && m.new_props[j].section == s
                ==> !new_prop_saved(m, s, j),
    ensures
        forall|j: int| 0 <= j < new_pairs(m, s, k).len() ==> (#[trigger] new_pairs(m, s, k)[j]).0 != key,
    decreases k,
{
    if k > 0 {
        lemma_new_pairs_keys(m, s, k - 1, key);
        let a = new_pairs(m, s, k - 1);
        assert forall|j: int| 0 <= j < new_pairs(m, s, k).len() implies (#[trigger] new_pairs(m, s, k)[j]).0
            != key by {
            if j < a.len() {
                assert(new_pairs(m, s, k)[j] == a[j]);
            } else {
                assert(m.new_props[k - 1] == m.new_props[k - 1]);
            }
        }
    }
}

/// A property left out of the saved text (as a delete leaves it, and as it
/// stays through every later edit but setting it again) has no line in the
/// block of its section, unless the document itself wrote that key more than
/// once in that section.
pub proof fn law_left_out_block(m: MutModel, key: Seq<u8>, s: int)
    requires
        wf_model(m),
        left_out(m, key, s),
        0 <= s < m.doc.sections.len() ==> forall|i: int, j: int|
            m.doc.prop_tracker[s] <= i < m.doc.prop_tracker[s + 1] && m.doc.prop_tracker[s] <= j
                < m.doc.prop_tracker[s + 1] && #[trigger] m.doc.keys[i] == key && #[trigger] m.doc.keys[j] == key
                ==> i == j,
    ensures
        forall|j: int| 0 <= j < block_pairs(m, s).len() ==> (#[trigger] block_pairs(m, s)[j]).0 != key,
{
    let d = doc_pairs(m, s);
    let np = new_pairs(m, s, m.new_props.len() as int);
    if 0 <= s < m.doc.sections.len() {
        let lo = m.doc.prop_tracker[s];
        let hi = m.doc.prop_tracker[s + 1];
        lemma_first_match_bounds(m.doc.keys, key, lo, hi);
        assert forall|i: int| lo <= i < hi && !m.dead_keys[i] implies #[trigger] m.doc.keys[i] != key by {
            if m.doc.keys[i] == key {
                lemma_first_match_exists(m.doc.keys, key, lo, hi, i);
                let k = first_match(m.doc.keys, key, lo, hi).unwrap();
                assert(m.doc.keys[k] == key);
            }
        }
        lemma_ex_pairs_keys(m, lo, hi, key);
    }
    lemma_new_pairs_keys(m, s, m.new_props.len() as int, key);
    assert forall|j: int| 0 <= j < block_pairs(m, s).len() implies (#[trigger] block_pairs(m, s)[j]).0 != key by {
        if j < d.len() {
            assert(block_pairs(m, s)[j] == d[j]);
        } else {
            assert(block_pairs(m, s)[j] == np[j - d.len()]);
        }
    }
}

// ─── Which sections are saved ──────────────────────────────────────────────

/// Each section after the first in `c` is a live (not deleted) section whose
/// parent is the one before it.
pub open spec fn live_links(m: MutModel, c: Seq<int>) -> bool {
    &&& c.len() >= 1
    &&& forall|i: int|
        1 <= i < c.len() ==> 1 <= #[trigger] c[i] < m.parents.len() && m.parents[c[i]] == c[i - 1]
            && !m.dead_sections[c[i]]
}

/// A descent from the root through live sections only.
pub open spec fn is_live_descent(m: MutModel, c: Seq<int>) -> bool {
    is_descent(m, c) && live_links(m, c)
}

/// What a section writes leads down to it through live sections.
proof fn lemma_written_chain(m: MutModel, s: int, d: int, x: int) -> (c: Seq<int>)
    requires
        written(m, s, d).contains(x),
    ensures
        live_links(m, c),
        c[0] == s,
        c.last() == x,
    decreases m.parents.len() - d, m.parents.len() + 1,
{
    let rest = written_children(m, s, d, m.parents.len() as int);
    assert(written(m, s, d) == seq![s] + rest);
    if x == s {
        seq![s]
    } else {
        assert(seq![s].contains(x) || rest.contains(x));
        assert(!seq![s].contains(x));
        lemma_children_chain(m, s, d, m.parents.len() as int, x)
    }
}

proof fn lemma_children_chain(m: MutModel, s: int, d: int, k: int, x: int) -> (c: Seq<int>)
    requires
        written_children(m, s, d, k).contains(x),
    ensures
        live_links(m, c),
        c.len() >= 2,
        c[0] == s,
        1 <= c[1] < k,
        c.last() == x,
    decreases m.parents.len() - d, k,
{
    let prefix = written_children(m, s, d, k - 1);
    let own = if m.parents[k - 1] == s && !m.dead_sections[k - 1] && d < m.parents.len() {
        written(m, k - 1, d + 1)
    } else {
        Seq::<int>::empty()
    };
    assert(written_children(m, s, d, k) == prefix + own);
    if prefix.contains(x) {
        lemma_children_chain(m, s, d, k - 1, x)
    } else {
        assert(own.contains(x));
        let c2 = lemma_written_chain(m, k - 1, d + 1, x);
        let c = seq![s] + c2;
        assert forall|i: int| 1 <= i < c.len() implies 1 <= #[trigger] c[i] < m.parents.len()
            && m.parents[c[i]] == c[i - 1] && !m.dead_sections[c[i]] by {
            if i >= 2 {
                assert(c[i] == c2[i - 1] && c[i - 1] == c2[i - 2]);
            }
        }
        c
    }
}

/// In a chain of live links from the root no section occurs twice.
proof fn lemma_root_chain_repeat(m: MutModel, c: Seq<int>, i: int, j: int)
    requires
        live_links(m, c),
        c[0] == 0,
        0 <= i < j < c.len(),
    ensures
        c[i] != c[j],
    decreases i,
{
    if i > 0 {
        lemma_root_chain_repeat(m, c, i - 1, j - 1);
        assert(m.parents[c[i]] == c[i - 1] && m.parents[c[j]] == c[j - 1]);
    } else {
        assert(1 <= c[j]);
    }
}

proof fn lemma_root_chain_descent(m: MutModel, c: Seq<int>)
    requires
        live_links(m, c),
        c[0] == 0,
    ensures
        is_live_descent(m, c),
{
    assert forall|i: int, j: int| 0 <= i < c.len() && 0 <= j < c.len() && i != j implies c[i] != c[j] by {
        if c[i] == c[j] {
            if i < j {
                lemma_root_chain_repeat(m, c, i, j);
            } else {
                lemma_root_chain_repeat(m, c, j, i);
            }
        }
    }
}

proof fn lemma_back_equal(m: MutModel, a: Seq<int>, b: Seq<int>, t: int)
    requires
        live_links(m, a),
        live_links(m, b),
        a.last() == b.last(),
        0 <= t < a.len(),
        t < b.len(),
    ensures
        a[a.len() - 1 - t] == b[b.len() - 1 - t],
    decreases t,
{
    if t > 0 {
        lemma_back_equal(m, a, b, t - 1);
        let ia = a.len() - t;
        let ib = b.len() - t;
        assert(m.parents[a[ia]] == a[ia - 1]);
        assert(m.parents[b[ib]] == b[ib - 1]);
    }
}

/// Two chains of live links from the root to the same section are the same.
proof fn lemma_root_chains_equal(m: MutModel, a: Seq<int>, b: Seq<int>)
    requires
        live_links(m, a),
        live_links(m, b),
        a[0] == 0,
        b[0] == 0,
        a.last() == b.last(),
    ensures
        a == b,
{
    if a.len() < b.len() {
        lemma_back_equal(m, a, b, a.len() - 1);
        assert(1 <= b[b.len() - a.len()]);
    } else if b.len() < a.len() {
        lemma_back_equal(m, a, b, b.len() - 1);
        assert(1 <= a[a.len() - b.len()]);
    }
    assert forall|i: int| 0 <= i < a.len() implies a[i] == b[i] by {
        lemma_back_equal(m, a, b, a.len() - 1 - i);
    }
    assert(a =~= b);
}

/// A live descent to `s` followed by live links down from `s`.
proof fn lemma_join(m: MutModel, dsc: Seq<int>, c: Seq<int>) -> (j: Seq<int>)
    requires
        is_live_descent(m, dsc),
        live_links(m, c),
        c[0] == dsc.last(),
    ensures
        live_links(m, j),
        j[0] == 0,
        j.last() == c.last(),
        j.len() == dsc.len() + c.len() - 1,
        j.subrange(0, dsc.len() as int) == dsc,
        c.len() >= 2 ==> j[dsc.len() as int] == c[1],
{
    let j = dsc + c.subrange(1, c.len() as int);
    let n = dsc.len() as int;
    assert forall|i: int| 1 <= i < j.len() implies 1 <= #[trigger] j[i] < m.parents.len()
        && m.parents[j[i]] == j[i - 1] && !m.dead_sections[j[i]] by {
        if i < n {
            assert(j[i] == dsc[i] && j[i - 1] == dsc[i - 1]);
        } else if i == n {
            assert(j[i] == c[1]);
            assert(j[i - 1] == dsc[n - 1]);
        } else {
            assert(j[i] == c[i - n + 1] && j[i - 1] == c[i - n]);
        }
    }
    assert(j.subrange(0, n) =~= dsc);
    j
}

/// A section on a live descent writes the descent's last section.
proof fn lemma_descent_written(m: MutModel, dsc: Seq<int>, i: int)
    requires
        is_live_descent(m, dsc),
        m.parents.len() >= 1,
        0 <= i < dsc.len(),
    ensures
        written(m, dsc[i], i).contains(dsc.last()),
    decreases dsc.len() - i,
{
    let s = dsc[i];
    let rest = written_children(m, s, i, m.parents.len() as int);
    assert(written(m, s, i) == seq![s] + rest);
    if i == dsc.len() - 1 {
        assert(written(m, s, i)[0] == s);
    } else {
        lemma_descent_len(m, dsc);
        lemma_descent_written(m, dsc, i + 1);
        lemma_children_include(m, s, i, m.parents.len() as int, dsc[i + 1], dsc.last());
    }
}

proof fn lemma_children_include(m: MutModel, s: int, d: int, k: int, c: int, x: int)
    requires
        1 <= c < k <= m.parents.len(),
        m.parents[c] == s,
        !m.dead_sections[c],
        0 <= d < m.parents.len(),
        written(m, c, d + 1).contains(x),
    ensures
        written_children(m, s, d, k).contains(x),
    decreases k,
{
    let prefix = written_children(m, s, d, k - 1);
    let own = if m.parents[k - 1] == s && !m.dead_sections[k - 1] && d < m.parents.len() {
        written(m, k - 1, d + 1)
    } else {
        Seq::<int>::empty()
    };
    assert(written_children(m, s, d, k) == prefix + own);
    if c < k - 1 {
        lemma_children_include(m, s, d, k - 1, c, x);
    }
}

/// Nothing below a section on a live descent is that section again.
proof fn lemma_children_not_self(m: MutModel, dsc: Seq<int>, d: int, k: int)
    requires
        is_live_descent(m, dsc),
        dsc.len() == d + 1,
    ensures
        !written_children(m, dsc.last(), d, k).contains(dsc.last()),
{
    let s = dsc.last();
    if written_children(m, s, d, k).contains(s) {
        let c = lemma_children_chain(m, s, d, k, s);
        let j = lemma_join(m, dsc, c);
        lemma_root_chains_equal(m, j, dsc);
    }
}

/// What a section on a live descent writes holds no section twice.
proof fn lemma_written_no_dup(m: MutModel, dsc: Seq<int>, d: int)
    requires
        is_live_descent(m, dsc),
        dsc.len() == d + 1,
        m.parents.len() >= 1,
    ensures
        written(m, dsc.last(), d).no_duplicates(),
    decreases m.parents.len() - d, m.parents.len() + 1,
{
    let s = dsc.last();
    let rest = written_children(m, s, d, m.parents.len() as int);
    lemma_descent_len(m, dsc);
    lemma_children_no_dup(m, dsc, d, m.parents.len() as int);
    lemma_children_not_self(m, dsc, d, m.parents.len() as int);
    assert forall|i: int, j: int| 0 <= i < 1 && 0 <= j < rest.len() implies seq![s][i] != rest[j] by {
        assert(rest.contains(rest[j]));
    }
    vstd::seq_lib::lemma_no_dup_in_concat(seq![s], rest);
}

proof fn lemma_children_no_dup(m: MutModel, dsc: Seq<int>, d: int, k: int)
    requires
        is_live_descent(m, dsc),
        dsc.len() == d + 1,
        m.parents.len() >= 1,
        d < m.parents.len(),
    ensures
        written_children(m, dsc.last(), d, k).no_duplicates(),
    decreases m.parents.len() - d, k,
{
    let s = dsc.last();
    if k > 1 && k <= m.parents.len() && d >= 0 {
        let prefix = written_children(m, s, d, k - 1);
        lemma_children_no_dup(m, dsc, d, k - 1);
        if m.parents[k - 1] == s && !m.dead_sections[k - 1] {
            let own = written(m, k - 1, d + 1);
            let dsc2 = dsc.push(k - 1);
            lemma_descent_extend(m, dsc, k - 1);
            assert(live_links(m, dsc2)) by {
                assert forall|i: int| 1 <= i < dsc2.len() implies 1 <= #[trigger] dsc2[i] < m.parents.len()
                    && m.parents[dsc2[i]] == dsc2[i - 1] && !m.dead_sections[dsc2[i]] by {
                    if i < dsc.len() {
                        assert(dsc2[i] == dsc[i] && dsc2[i - 1] == dsc[i - 1]);
                    }
                }
            }
            lemma_written_no_dup(m, dsc2, d + 1);
            assert forall|a: int, b: int| 0 <= a < prefix.len() && 0 <= b < own.len() implies prefix[a]
                != own[b] by {
                if prefix[a] == own[b] {
                    let x = prefix[a];
                    assert(prefix.contains(x));
                    assert(own.contains(x));
                    let c1 = lemma_children_chain(m, s, d, k - 1, x);
                    let c2 = lemma_written_chain(m, k - 1, d + 1, x);
                    let j1 = lemma_join(m, dsc, c1);
                    let c2s = seq![s] + c2;
                    assert(live_links(m, c2s)) by {
                        assert forall|i: int| 1 <= i < c2s.len() implies 1 <= #[trigger] c2s[i] < m.parents.len()
                            && m.parents[c2s[i]] == c2s[i - 1] && !m.dead_sections[c2s[i]] by {
                            if i >= 2 {
                                assert(c2s[i] == c2[i - 1] && c2s[i - 1] == c2[i - 2]);
                            }
                        }
                    }
                    let j2 = lemma_join(m, dsc, c2s);
                    lemma_root_chains_equal(m, j1, j2);
                    assert(j1[dsc.len() as int] == c1[1]);
                    assert(j2[dsc.len() as int] == c2s[1]);
                }
            }
            vstd::seq_lib::lemma_no_dup_in_concat(prefix, own);
            assert(written_children(m, s, d, k) == prefix + own);
        } else {
            assert(written_children(m, s, d, k) =~= prefix);
        }
    }
}

/// `save` writes exactly the sections reached from the root through live
/// sections — those not deleted whose chain of parents reaches the root
/// without passing a deleted one — and each of them once.
pub proof fn law_saved_sections(m: MutModel)
    requires
        wf_model(m),
    ensures
        written(m, 0, 0).no_duplicates(),
        forall|x: int|
            written(m, 0, 0).contains(x) <==> exists|c: Seq<int>| #[trigger] is_live_descent(m, c) && c.last() == x,
{
    let root = seq![0int];
    assert(is_live_descent(m, root));
    lemma_written_no_dup(m, root, 0);
    assert forall|x: int| written(m, 0, 0).contains(x) implies exists|c: Seq<int>|
        #[trigger] is_live_descent(m, c) && c.last() == x by {
        let c = lemma_written_chain(m, 0, 0, x);
        lemma_root_chain_descent(m, c);
    }
    assert forall|x: int| (exists|c: Seq<int>| #[trigger] is_live_descent(m, c) && c.last() == x) implies written(
        m,
        0,
        0,
    ).contains(x) by {
        let c = choose|c: Seq<int>| #[trigger] is_live_descent(m, c) && c.last() == x;
        lemma_descent_written(m, c, 0);
    }
}

// ─── The reader ────────────────────────────────────────────────────────────

/// One move of the parser keeps the sections it has, and their parents.
proof fn lemma_step_keeps_sections(b: Seq<u8>, st: PState)
    requires
        0 <= st.cursor < b.len(),
        st.sections.len() >= 1,
        st.parents.len() >= 1,
    ensures
        step(b, st) matches Ok(s) ==> {
            &&& s.sections.len() >= 1
            &&& s.parents.len() >= 1
            &&& s.sections[0] == st.sections[0]
            &&& s.parents[0] == st.parents[0]
        },
{
}

proof fn lemma_run_keeps_root(b: Seq<u8>, st: PState)
    requires
        st.sections.len() >= 1,
        st.parents.len() >= 1,
        st.sections[0] == root_name(),
        st.parents[0] == 0,
    ensures
        run(b, st) matches Ok(d) ==> d.sections.len() >= 1 && d.sections[0] == root_name()
            && d.parents[0] == 0,
    decreases b.len() - st.cursor,
{
    if 0 <= st.cursor < b.len() {
        lemma_step_keeps_sections(b, st);
        if let Ok(s) = step(b, st) {
            if st.cursor < s.cursor <= b.len() {
                lemma_run_keeps_root(b, s);
            }
        }
    }
}

/// Every parsed document has the root, named `ROOT` and its own parent, as
/// section 0.
pub proof fn law_parse_has_root(b: Seq<u8>)
    ensures
        spec_parse(b) matches Ok(d) ==> d.sections.len() >= 1 && d.sections[0] == root_name()
            && d.parents[0] == 0,
{
    lemma_run_keeps_root(b, initial_state());
}

/// The keys of sections `0..n`, one section after another.
pub open spec fn keys_of_sections(m: DocModel, n: int) -> Seq<Seq<u8>>
    decreases n,
{
    if n <= 0 {
        Seq::empty()
    } else {
        keys_of_sections(m, n - 1) + m.keys.subrange(m.prop_tracker[n - 1], m.prop_tracker[n])
    }
}

/// The values of sections `0..n`, one section after another.
pub open spec fn values_of_sections(m: DocModel, n: int) -> Seq<Seq<u8>>
    decreases n,
{
    if n <= 0 {
        Seq::empty()
    } else {
        values_of_sections(m, n - 1) + m.values.subrange(m.prop_tracker[n - 1], m.prop_tracker[n])
    }
}

proof fn lemma_sections_prefix(m: DocModel, n: int)
    requires
        wf_doc(m),
        0 <= n <= m.sections.len(),
    ensures
        keys_of_sections(m, n) == m.keys.subrange(0, m.prop_tracker[n]),
        values_of_sections(m, n) == m.values.subrange(0, m.prop_tracker[n]),
    decreases n,
{
    let total = m.sections.len() as int;
    assert(m.prop_tracker[n] <= m.prop_tracker[total]);
    if n > 0 {
        lemma_sections_prefix(m, n - 1);
        assert(m.prop_tracker[n - 1] <= m.prop_tracker[n]);
        assert(m.keys.subrange(0, m.prop_tracker[n - 1]) + m.keys.subrange(m.prop_tracker[n - 1], m.prop_tracker[n])
            =~= m.keys.subrange(0, m.prop_tracker[n]));
        assert(m.values.subrange(0, m.prop_tracker[n - 1]) + m.values.subrange(m.prop_tracker[n - 1], m.prop_tracker[n])
            =~= m.values.subrange(0, m.prop_tracker[n]));
    } else {
        assert(m.keys.subrange(0, 0) =~= Seq::<Seq<u8>>::empty());
        assert(m.values.subrange(0, 0) =~= Seq::<Seq<u8>>::empty());
    }
}

/// The property lists of the sections, one after another, are every pair of
/// the document exactly once and in document order.
pub proof fn law_sections_partition_properties(m: DocModel)
    requires
        wf_doc(m),
    ensures
        keys_of_sections(m, m.sections.len() as int) == m.keys,
        values_of_sections(m, m.sections.len() as int) == m.values,
{
    lemma_sections_prefix(m, m.sections.len() as int);
    assert(m.keys.subrange(0, m.keys.len() as int) =~= m.keys);
    assert(m.values.subrange(0, m.values.len() as int) =~= m.values);
}

/// The path `ROOT` names the root.
pub proof fn law_root_path(m: DocModel)
    ensures
        spec_resolve(m, root_name()) == Ok::<int, ExlexError>(0),
{
    lemma_split_dots_none(root_name());
    assert(path_names(root_name()) =~= Seq::<Seq<u8>>::empty());
}

/// A leading `ROOT.` may be left out of a path whose first piece is not
/// itself `ROOT`.
pub proof fn law_root_prefix(m: DocModel, p: Seq<u8>)
    requires
        split_dots(p)[0] != root_name(),
    ensures
        spec_resolve(m, root_name() + seq![0x2eu8] + p) == spec_resolve(m, p),
{
    let q = root_name() + seq![0x2eu8] + p;
    lemma_split_dots_some(q, 4);
    assert(q.subrange(0, 4) =~= root_name());
    assert(q.subrange(5, q.len() as int) =~= p);
    assert(path_names(q) =~= split_dots(p));
}

/// A child found by name has that name and lies in the range searched for
/// the parent's children.
pub proof fn law_child_has_name(m: DocModel, name: Seq<u8>, parent: int)
    ensures
        spec_child(m, name, parent) matches Ok(i) ==> m.sections[i] == name && m.children[parent].0 <= i
            < m.children[parent].1,
{
    lemma_first_match_bounds(m.sections, name, m.children[parent].0, m.children[parent].1);
}

/// Walking two lists of names one after the other is walking them joined.
pub proof fn law_walk_concat(m: DocModel, a: Seq<Seq<u8>>, b: Seq<Seq<u8>>, s: int)
    ensures
        spec_walk(m, a + b, s) == match spec_walk(m, a, s) {
            Ok(t) => spec_walk(m, b, t),
            Err(e) => Err(e),
        },
    decreases a.len(),
{
    if a.len() == 0 {
        assert(a + b =~= b);
    } else {
        assert((a + b).drop_first() =~= a.drop_first() + b);
        assert((a + b)[0] == a[0]);
        if let Ok(c) = spec_child(m, a[0], s) {
            law_walk_concat(m, a.drop_first(), b, c);
        }
    }
}

// ─── What single operations do, over all inputs ────────────────────────────

/// A section created under `parent` has `parent` as its parent: the parents
/// after the call are those before with `parent` added for the new id, the
/// new section is live and has the name given, and when `parent` is itself
/// written by `save` (a live descent from the root reaches it), so is the new
/// section.
pub proof fn law_new_section_parent(m: MutModel, name: Seq<u8>, parent: int)
    requires
        wf_model(m),
        spec_new_section(m, name, parent).1 is Ok,
    ensures
        ({
            let m2 = spec_new_section(m, name, parent).0;
            &&& m2.doc == m.doc
            &&& m2.parents == m.parents.push(parent)
            &&& m2.dead_sections == m.dead_sections.push(false)
            &&& m2.new_sections.len() == m.new_sections.len() + 1
            &&& m2.new_sections.last().name == name
            &&& m2.dead_keys == m.dead_keys
            &&& m2.new_props == m.new_props
            &&& m2.updated == m.updated
            &&& forall|c: Seq<int>|
                #[trigger] is_live_descent(m, c) && c.last() == parent ==> written(m2, 0, 0).contains(
                    m.parents.len() as int,
                )
        }),
{
    let m2 = spec_new_section(m, name, parent).0;
    let p = m.parents.len() as int;
    assert forall|c: Seq<int>| #[trigger] is_live_descent(m, c) && c.last() == parent implies written(
        m2,
        0,
        0,
    ).contains(p) by {
        let c2 = c.push(p);
        assert forall|i: int| 0 <= i < c.len() implies c[i] < p by {
            if i >= 1 {
                assert(1 <= c[i] < m.parents.len());
            }
        }
        assert forall|i: int| 1 <= i < c2.len() implies 1 <= #[trigger] c2[i] < m2.parents.len()
            && m2.parents[c2[i]] == c2[i - 1] && !m2.dead_sections[c2[i]] by {
            if i < c.len() {
                assert(c2[i] == c[i] && c2[i - 1] == c[i - 1]);
                assert(1 <= c[i] < m.parents.len() && m.parents[c[i]] == c[i - 1] && !m.dead_sections[c[i]]);
            }
        }
        assert forall|i: int, j: int| 0 <= i < c2.len() && 0 <= j < c2.len() && i != j implies c2[i]
            != c2[j] by {
            if i < c.len() && j < c.len() {
                assert(c[i] != c[j]);
            } else if i < c.len() {
                assert(c[i] < p);
            } else {
                assert(c[j] < p);
            }
        }
        assert(is_live_descent(m2, c2));
        law_saved_sections(m2);
    }
}

/// Deleting property `key` of section `s` changes the deletion mark of at
/// most one property of the document, the first of section `s` named `key`; it changes at most one new property, one of section `s` named
/// `key`; the document, the sections and the updates are left alone.
pub proof fn law_delete_marks_one(m: MutModel, key: Seq<u8>, s: int)
    requires
        wf_model(m),
    ensures
        ({
            let m2 = spec_delete(m, key, s).0;
            &&& m2.doc == m.doc
            &&& m2.updated == m.updated
            &&& m2.parents == m.parents
            &&& m2.dead_sections == m.dead_sections
            &&& m2.new_sections == m.new_sections
            &&& m2.dead_keys.len() == m.dead_keys.len()
            &&& m2.new_props.len() == m.new_props.len()
            &&& forall|i: int|
                0 <= i < m.dead_keys.len() && #[trigger] m2.dead_keys[i] != m.dead_keys[i] ==> {
                    &&& 0 <= s < m.doc.sections.len()
                    &&& m.doc.prop_tracker[s] <= i < m.doc.prop_tracker[s + 1]
                    &&& m.doc.keys[i] == key
                    &&& forall|j: int| m.doc.prop_tracker[s] <= j < i ==> m.doc.keys[j] != key
                    &&& m2.dead_keys[i]
                }
            &&& forall|i: int, j: int|
                0 <= i < m.dead_keys.len() && 0 <= j < m.dead_keys.len() && #[trigger] m2.dead_keys[i]
                    != m.dead_keys[i] && #[trigger] m2.dead_keys[j] != m.dead_keys[j] ==> i == j
            &&& forall|j: int|
                0 <= j < m.new_props.len() && #[trigger] m2.new_props[j] != m.new_props[j] ==> {
                    &&& m.new_props[j].key == key
                    &&& m.new_props[j].section == s
                    &&& m2.new_props[j] == (crate::writer::NewProp { dead: true, ..m.new_props[j] })
                }
            &&& forall|i: int, j: int|
                0 <= i < m.new_props.len() && 0 <= j < m.new_props.len() && #[trigger] m2.new_props[i]
                    != m.new_props[i] && #[trigger] m2.new_props[j] != m.new_props[j] ==> i == j
        }),
{
    let m2 = spec_delete(m, key, s).0;
    lemma_first_where_bounds(m.updated.len() as int, updated_is(m, key, s));
    lemma_first_where_bounds(m.new_props.len() as int, new_key_is(m, key, s));
    if let Some(u) = updated_for(m, key, s) {
        let w = m.updated[u];
        assert(core_key(m.doc, m.doc.keys[w.index], w.section) == Some(w.index));
        lemma_first_match_bounds(m.doc.keys, key, m.doc.prop_tracker[s], m.doc.prop_tracker[s + 1]);
    } else if let Some(k) = core_key(m.doc, key, s) {
        lemma_first_match_bounds(m.doc.keys, key, m.doc.prop_tracker[s], m.doc.prop_tracker[s + 1]);
    }
}

/// The sections listed as directly inside `s` (among ids `0..n`) are, in
/// increasing order, exactly the sections other than the root whose parent
/// is `s`; the root is never listed.
pub proof fn law_child_ids(m: DocModel, s: int, n: int)
    requires
        0 <= n <= m.parents.len(),
    ensures
        forall|k: int|
            0 <= k < child_ids(m, s, n).len() ==> 1 <= #[trigger] child_ids(m, s, n)[k] < n && m.parents[child_ids(
                m,
                s,
                n,
            )[k]] == s,
        forall|k1: int, k2: int|
            0 <= k1 < k2 < child_ids(m, s, n).len() ==> #[trigger] child_ids(m, s, n)[k1] < #[trigger] child_ids(
                m,
                s,
                n,
            )[k2],
        forall|i: int| 1 <= i < n && m.parents[i] == s ==> #[trigger] child_ids(m, s, n).contains(i),
    decreases n,
{
    if n > 0 {
        law_child_ids(m, s, n - 1);
        let a = child_ids(m, s, n - 1);
        let t = if n - 1 >= 1 && m.parents[n - 1] == s {
            seq![n - 1]
        } else {
            Seq::<int>::empty()
        };
        let c = child_ids(m, s, n);
        assert(c == a + t);
        assert forall|k: int| 0 <= k < c.len() implies 1 <= #[trigger] c[k] < n && m.parents[c[k]] == s by {
            if k < a.len() {
                assert(c[k] == a[k]);
            }
        }
        assert forall|k1: int, k2: int| 0 <= k1 < k2 < c.len() implies #[trigger] c[k1] < #[trigger] c[k2] by {
            if k2 < a.len() {
                assert(c[k1] == a[k1] && c[k2] == a[k2]);
            } else {
                assert(c[k1] == a[k1]);
                assert(a[k1] < n - 1);
            }
        }
        assert forall|i: int| 1 <= i < n && m.parents[i] == s implies #[trigger] c.contains(i) by {
            if i < n - 1 {
                assert(a.contains(i));
                let k = choose|k: int| 0 <= k < a.len() && a[k] == i;
                assert(c[k] == i);
            } else {
                assert(c[a.len() as int] == i);
            }
        }
    }
}

/// Whitespace skipping passes exactly the spaces, tabs, carriage returns
/// and newlines at `c` and stops at the first other byte (or the end).
pub proof fn law_skip_spaces(b: Seq<u8>, c: int)
    requires
        0 <= c <= b.len(),
    ensures
        c <= skip_spaces(b, c) <= b.len(),
        forall|k: int|
            c <= k < skip_spaces(b, c) ==> (#[trigger] b[k] == 0x20u8 || b[k] == 0x09u8 || b[k] == 0x0du8
                || b[k] == 0x0au8),
        skip_spaces(b, c) < b.len() ==> !(b[skip_spaces(b, c)] == 0x20u8 || b[skip_spaces(b, c)] == 0x09u8
            || b[skip_spaces(b, c)] == 0x0du8 || b[skip_spaces(b, c)] == 0x0au8),
    decreases b.len() - c,
{
    lemma_skip_spaces_bounds(b, c);
    if c < b.len() && (b[c] == 0x20u8 || b[c] == 0x09u8 || b[c] == 0x0du8 || b[c] == 0x0au8) {
        law_skip_spaces(b, c + 1);
    }
}

/// A parser step on a space, tab or carriage return only moves the cursor,
/// past every following space, tab, carriage return and newline, to the
/// next other byte or the end.
pub proof fn law_step_on_whitespace(b: Seq<u8>, st: PState)
    requires
        0 <= st.cursor < b.len(),
        b[st.cursor] == 0x20u8 || b[st.cursor] == 0x09u8 || b[st.cursor] == 0x0du8,
    ensures
        step(b, st) matches Ok(s2) && s2 == (PState { cursor: s2.cursor, ..st }) && st.cursor < s2.cursor
            <= b.len() && (forall|k: int|
            st.cursor <= k < s2.cursor ==> (#[trigger] b[k] == 0x20u8 || b[k] == 0x09u8 || b[k] == 0x0du8
                || b[k] == 0x0au8)) && (s2.cursor < b.len() ==> !(b[s2.cursor] == 0x20u8 || b[s2.cursor]
            == 0x09u8 || b[s2.cursor] == 0x0du8 || b[s2.cursor] == 0x0au8)),
{
    law_skip_spaces(b, st.cursor);
    assert(skip_spaces(b, st.cursor) > st.cursor);
}

} // verus!
