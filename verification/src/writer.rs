//! The mutator: edits recorded over a parsed document, and the dump of the
//! edited document back to text.
//!
//! The document itself is never changed. New keys and values are copied into
//! an arena of bytes; updates to existing keys, new keys, new sections and the
//! deleted keys and sections are kept in side tables that `save` merges with
//! the document when it writes it out.

use vstd::prelude::*;
use vstd::string::StringSliceAdditionalSpecFns;
use vstd::utf8::{encode_utf8, encode_utf8_valid_utf8, valid_utf8};
use crate::bytes::{bytes_eq, utf8_str};
use crate::interface::{core_key, doc_utf8, opt_int, str_result, Exlex};
use crate::parser::{hash_bytes, ints_of, lemma_ints_of_push, spec_hash, wf_doc, DocModel, ErrorCode, ExlexError, Result};

verus! {

broadcast use {vstd::seq::group_seq_axioms, vstd::seq_lib::group_seq_properties};

// ─── The model ─────────────────────────────────────────────────────────────

/// A new value given to a property of the document.
pub struct UpdatedProp {
    /// Index of the property among the document's properties.
    pub index: int,
    /// The section the update was made through.
    pub section: int,
    pub value: Seq<u8>,
}

/// A property the document does not have.
pub struct NewProp {
    pub key: Seq<u8>,
    pub section: int,
    pub value: Seq<u8>,
    /// Marked deleted.
    pub dead: bool,
}

/// A section the document does not have.
pub struct NewSection {
    pub name: Seq<u8>,
    /// The parent it was created under.
    pub parent: int,
}

/// The document and the edits recorded over it.
pub struct MutModel {
    pub doc: DocModel,
    /// Updates of the document's properties, in the order first made.
    pub updated: Seq<UpdatedProp>,
    /// New properties, in the order created.
    pub new_props: Seq<NewProp>,
    /// Deletion mark of each property of the document.
    pub dead_keys: Seq<bool>,
    /// New sections; the id of new section `i` is the document's section count plus `i`.
    pub new_sections: Seq<NewSection>,
    /// Deletion mark of each section, the document's and the new ones.
    pub dead_sections: Seq<bool>,
    /// Current parent of each section, the document's and the new ones.
    pub parents: Seq<int>,
    /// Bytes the arena holds.
    pub arena_used: nat,
}

/// `p` holds of `i`.
pub open spec fn holds(p: spec_fn(int) -> bool, i: int) -> bool {
    p(i)
}

/// `i` is the first index below `n` that satisfies `p`.
pub open spec fn is_first_where(n: int, p: spec_fn(int) -> bool, i: int) -> bool {
    &&& 0 <= i < n
    &&& holds(p, i)
    &&& forall|j: int| 0 <= j < i ==> !#[trigger] holds(p, j)
}

/// The first index below `n` that satisfies `p`.
pub open spec fn first_where(n: int, p: spec_fn(int) -> bool) -> Option<int> {
    if exists|i: int| is_first_where(n, p, i) {
        Some(choose|i: int| is_first_where(n, p, i))
    } else {
        None
    }
}

pub proof fn lemma_first_where_some(n: int, p: spec_fn(int) -> bool, i: int)
    requires
        is_first_where(n, p, i),
    ensures
        first_where(n, p) == Some(i),
{
    let k = choose|k: int| is_first_where(n, p, k);
    assert(is_first_where(n, p, k));
    if k < i {
        assert(!holds(p, k));
    } else if k > i {
        assert(!holds(p, i));
    }
}

pub proof fn lemma_first_where_none(n: int, p: spec_fn(int) -> bool)
    requires
        forall|j: int| 0 <= j < n ==> !#[trigger] holds(p, j),
    ensures
        first_where(n, p) is None,
{
    if exists|i: int| is_first_where(n, p, i) {
        let i = choose|i: int| is_first_where(n, p, i);
        assert(holds(p, i));
    }
}

pub proof fn lemma_first_where_bounds(n: int, p: spec_fn(int) -> bool)
    ensures
        first_where(n, p) matches Some(i) ==> is_first_where(n, p, i),
{
}

/// When `p` holds somewhere below `n`, there is a first such index.
pub proof fn lemma_first_where_exists(n: int, p: spec_fn(int) -> bool, j: int)
    requires
        0 <= j < n,
        holds(p, j),
    ensures
        first_where(n, p) is Some,
    decreases j,
{
    if forall|k: int| 0 <= k < j ==> !#[trigger] holds(p, k) {
        lemma_first_where_some(n, p, j);
    } else {
        let k = choose|k: int| 0 <= k < j && #[trigger] holds(p, k);
        lemma_first_where_exists(n, p, k);
    }
}

/// When there is no first index below `n` where `p` holds, it holds nowhere there.
pub proof fn lemma_first_where_none_all(n: int, p: spec_fn(int) -> bool)
    requires
        first_where(n, p) is None,
    ensures
        forall|j: int| 0 <= j < n ==> !#[trigger] holds(p, j),
{
    assert forall|j: int| 0 <= j < n implies !#[trigger] holds(p, j) by {
        if holds(p, j) {
            lemma_first_where_exists(n, p, j);
        }
    }
}

/// Predicates that agree below `n` have the same first index below `n`.
pub proof fn lemma_first_where_same(n: int, p: spec_fn(int) -> bool, q: spec_fn(int) -> bool)
    requires
        forall|j: int| 0 <= j < n ==> #[trigger] holds(p, j) == holds(q, j),
    ensures
        first_where(n, p) == first_where(n, q),
{
    lemma_first_where_bounds(n, p);
    lemma_first_where_bounds(n, q);
    if let Some(i) = first_where(n, p) {
        assert forall|j: int| 0 <= j < i implies !#[trigger] holds(q, j) by {
            assert(!holds(p, j));
        }
        lemma_first_where_some(n, q, i);
    } else if let Some(i) = first_where(n, q) {
        assert forall|j: int| 0 <= j < i implies !#[trigger] holds(p, j) by {
            assert(!holds(q, j));
        }
        lemma_first_where_some(n, p, i);
    }
}

/// The first index below `n + 1` where `q` holds, when `q` agrees with `p`
/// below `n`: that of `p`, else `n` if `q` holds there.
pub proof fn lemma_first_where_extend(n: int, p: spec_fn(int) -> bool, q: spec_fn(int) -> bool)
    requires
        0 <= n,
        forall|j: int| 0 <= j < n ==> #[trigger] holds(p, j) == holds(q, j),
    ensures
        first_where(n + 1, q) == if first_where(n, p) is Some {
            first_where(n, p)
        } else if holds(q, n) {
            Some(n)
        } else {
            None::<int>
        },
{
    lemma_first_where_bounds(n, p);
    if let Some(i) = first_where(n, p) {
        assert forall|j: int| 0 <= j < i implies !#[trigger] holds(q, j) by {
            assert(!holds(p, j));
        }
        lemma_first_where_some(n + 1, q, i);
    } else {
        assert forall|j: int| 0 <= j < n implies !#[trigger] holds(q, j) by {
            if holds(q, j) {
                lemma_first_where_exists(n, p, j);
            }
        }
        if holds(q, n) {
            lemma_first_where_some(n + 1, q, n);
        } else {
            lemma_first_where_none(n + 1, q);
        }
    }
}

/// The update recorded for property `key` of section `s`, if any.
pub open spec fn updated_for(m: MutModel, key: Seq<u8>, s: int) -> Option<int> {
    first_where(m.updated.len() as int, updated_is(m, key, s))
}

pub open spec fn updated_is(m: MutModel, key: Seq<u8>, s: int) -> spec_fn(int) -> bool {
    |i: int| m.updated[i].section == s && m.doc.keys[m.updated[i].index] == key
}

/// The new property `key` of section `s`, if any.
pub open spec fn new_key_for(m: MutModel, key: Seq<u8>, s: int) -> Option<int> {
    first_where(m.new_props.len() as int, new_key_is(m, key, s))
}

pub open spec fn new_key_is(m: MutModel, key: Seq<u8>, s: int) -> spec_fn(int) -> bool {
    |i: int| m.new_props[i].key == key && m.new_props[i].section == s
}

/// The new section `name` created under `parent`, if any.
pub open spec fn new_section_for(m: MutModel, name: Seq<u8>, parent: int) -> Option<int> {
    first_where(m.new_sections.len() as int, new_section_is(m, name, parent))
}

pub open spec fn new_section_is(m: MutModel, name: Seq<u8>, parent: int) -> spec_fn(int) -> bool {
    |i: int| m.new_sections[i].name == name && m.new_sections[i].parent == parent
}

/// The document's section `name` whose current parent is `parent`, if any.
pub open spec fn core_section_for(m: MutModel, name: Seq<u8>, parent: int) -> Option<int> {
    first_where(m.doc.sections.len() as int, core_section_is(m, name, parent))
}

pub open spec fn core_section_is(m: MutModel, name: Seq<u8>, parent: int) -> spec_fn(int) -> bool {
    |i: int| m.doc.sections[i] == name && m.parents[i] == parent
}

/// The current value of property `key` of section `s`: a new property first,
/// then an update, then the document's own value.
pub open spec fn spec_get(m: MutModel, key: Seq<u8>, s: int) -> Result<Seq<u8>> {
    match new_key_for(m, key, s) {
        Some(i) => Ok(m.new_props[i].value),
        None => match updated_for(m, key, s) {
            Some(i) => Ok(m.updated[i].value),
            None => match core_key(m.doc, key, s) {
                Some(k) => Ok(m.doc.values[k]),
                None => Err(ExlexError { code: ErrorCode::PropertyNotFound, index: usize::MAX }),
            },
        },
    }
}

/// The edits once property `key` of section `s` is set to `value`.
pub open spec fn spec_update(m: MutModel, key: Seq<u8>, value: Seq<u8>, s: int) -> MutModel {
    match new_key_for(m, key, s) {
        Some(i) => MutModel {
            new_props: m.new_props.update(i, NewProp { value, ..m.new_props[i] }),
            arena_used: m.arena_used + value.len(),
            ..m
        },
        None => match updated_for(m, key, s) {
            Some(i) => MutModel {
                updated: m.updated.update(i, UpdatedProp { value, ..m.updated[i] }),
                arena_used: m.arena_used + value.len(),
                ..m
            },
            None => match core_key(m.doc, key, s) {
                Some(k) => MutModel {
                    updated: m.updated.push(UpdatedProp { index: k, section: s, value }),
                    arena_used: m.arena_used + value.len(),
                    ..m
                },
                None => MutModel {
                    new_props: m.new_props.push(NewProp { key, section: s, value, dead: false }),
                    arena_used: m.arena_used + value.len() + key.len(),
                    ..m
                },
            },
        },
    }
}

/// Deleting property `key` of section `s`: an updated or original property of
/// the document is marked by its index in the document, a new one by its own
/// mark; `PropertyNotFound` when there is none.
pub open spec fn spec_delete(m: MutModel, key: Seq<u8>, s: int) -> (MutModel, Result<()>) {
    match updated_for(m, key, s) {
        Some(i) => (MutModel { dead_keys: m.dead_keys.update(m.updated[i].index, true), ..m }, Ok(())),
        None => match core_key(m.doc, key, s) {
            Some(k) => (MutModel { dead_keys: m.dead_keys.update(k, true), ..m }, Ok(())),
            None => match new_key_for(m, key, s) {
                Some(i) => (
                    MutModel {
                        new_props: m.new_props.update(i, NewProp { dead: true, ..m.new_props[i] }),
                        ..m
                    },
                    Ok(()),
                ),
                None => (m, Err(ExlexError { code: ErrorCode::PropertyNotFound, index: usize::MAX })),
            },
        },
    }
}

/// Creating section `name` under `parent`: refused when a new section of that
/// name was already created under that parent, or when a section of the
/// document of that name now has that parent.
pub open spec fn spec_new_section(m: MutModel, name: Seq<u8>, parent: int) -> (MutModel, Result<()>) {
    if new_section_for(m, name, parent) is Some {
        (m, Err(ExlexError { code: ErrorCode::AlreadyCreatedSection, index: usize::MAX }))
    } else if core_section_for(m, name, parent) is Some {
        (m, Err(ExlexError { code: ErrorCode::DuplicateSectionsNotAllowed, index: usize::MAX }))
    } else {
        (
            MutModel {
                new_sections: m.new_sections.push(NewSection { name, parent }),
                parents: m.parents.push(parent),
                dead_sections: m.dead_sections.push(false),
                ..m
            },
            Ok(()),
        )
    }
}

/// No two new properties have the same key in the same section.
pub open spec fn new_props_distinct(m: MutModel) -> bool {
    forall|i: int, j: int|
        #![trigger m.new_props[i], m.new_props[j]]
        0 <= i < j < m.new_props.len() ==> !(m.new_props[i].key == m.new_props[j].key
            && m.new_props[i].section == m.new_props[j].section)
}

/// Changing what new properties hold, but not their keys or sections, keeps
/// them distinct.
pub proof fn lemma_distinct_same_keys(a: Seq<NewProp>, b: Seq<NewProp>, m: MutModel, m2: MutModel)
    requires
        new_props_distinct(m),
        m.new_props == a,
        m2.new_props == b,
        a.len() == b.len(),
        forall|i: int| 0 <= i < a.len() ==> (#[trigger] b[i]).key == a[i].key && b[i].section == a[i].section,
    ensures
        new_props_distinct(m2),
{
    assert forall|i: int, j: int| 0 <= i < j < b.len() implies !(#[trigger] b[i].key == #[trigger] b[j].key
        && b[i].section == b[j].section) by {
        assert(a[i].key == b[i].key && a[j].key == b[j].key);
    }
}

/// A new property whose key no other has in its section keeps them distinct.
pub proof fn lemma_distinct_push(m: MutModel, m2: MutModel, x: NewProp)
    requires
        new_props_distinct(m),
        m2.new_props == m.new_props.push(x),
        forall|j: int| 0 <= j < m.new_props.len() ==> !(#[trigger] m.new_props[j].key == x.key
            && m.new_props[j].section == x.section),
    ensures
        new_props_distinct(m2),
{
    let b = m2.new_props;
    assert forall|i: int, j: int| 0 <= i < j < b.len() implies !(#[trigger] b[i].key == #[trigger] b[j].key
        && b[i].section == b[j].section) by {
        assert(b[i] == m.new_props[i]);
        if j < m.new_props.len() {
            assert(b[j] == m.new_props[j]);
        }
    }
}

/// The tables of the edits agree in length with one another and with the
/// document; each update is of the property a lookup of its key finds in its
/// section, and no new property has a key its section has in the document.
pub open spec fn wf_model(m: MutModel) -> bool {
    &&& wf_doc(m.doc)
    &&& m.parents.len() == m.doc.sections.len() + m.new_sections.len()
    &&& m.dead_sections.len() == m.parents.len()
    &&& m.dead_keys.len() == m.doc.keys.len()
    &&& new_props_distinct(m)
    &&& forall|i: int| 0 <= i < m.updated.len() ==> 0 <= #[trigger] m.updated[i].index < m.doc.keys.len()
    &&& forall|i: int|
        0 <= i < m.updated.len() ==> core_key(
            m.doc,
            m.doc.keys[(#[trigger] m.updated[i]).index],
            m.updated[i].section,
        ) == Some(m.updated[i].index)
    &&& forall|i: int|
        0 <= i < m.new_props.len() ==> core_key(
            m.doc,
            (#[trigger] m.new_props[i]).key,
            m.new_props[i].section,
        ) is None
}

/// No edit recorded yet.
pub open spec fn fresh(m: MutModel) -> bool {
    &&& m.updated.len() == 0
    &&& m.new_props.len() == 0
    &&& m.new_sections.len() == 0
    &&& m.dead_keys == Seq::new(m.doc.keys.len(), |i: int| false)
    &&& m.dead_sections == Seq::new(m.doc.sections.len(), |i: int| false)
    &&& m.parents == m.doc.parents
    &&& m.arena_used == 0
}


// ─── The mutator ───────────────────────────────────────────────────────────

pub open spec fn slice_of(arena: Seq<u8>, span: (usize, usize)) -> Seq<u8> {
    arena.subrange(span.0 as int, span.1 as int)
}

pub open spec fn span_ok(arena: Seq<u8>, span: (usize, usize)) -> bool {
    &&& span.0 <= span.1 <= arena.len()
    &&& valid_utf8(slice_of(arena, span))
}

/// Edits over a parsed document.
pub struct ExlexMutator<'a> {
    reader: &'a Exlex<'a>,
    /// Bytes of the new keys and values.
    arena: Vec<u8>,
    updated_keys_vals: Vec<(usize, usize)>,
    updated_keys_hashes: Vec<u64>,
    /// Index in the document of each updated property.
    updated_key_indices: Vec<usize>,
    updated_keys_section_ids: Vec<usize>,
    /// Deletion mark of each property of the document.
    dead_keys: Vec<bool>,
    /// Deletion mark of each new property.
    dead_new_keys: Vec<bool>,
    new_keys: Vec<(usize, usize)>,
    new_keys_hashes: Vec<u64>,
    new_keys_section_ids: Vec<usize>,
    new_values: Vec<(usize, usize)>,
    new_sections: Vec<&'a str>,
    new_sections_hashes: Vec<u64>,
    new_sections_parent_ids: Vec<usize>,
    dead_sections: Vec<bool>,
    parent_tracker: Vec<usize>,
    dump_data: Vec<u8>,
}

impl<'a> View for ExlexMutator<'a> {
    type V = MutModel;

    closed spec fn view(&self) -> MutModel {
        MutModel {
            doc: self.reader@,
            updated: Seq::new(
                self.updated_keys_vals@.len(),
                |i: int|
                    UpdatedProp {
                        index: self.updated_key_indices@[i] as int,
                        section: self.updated_keys_section_ids@[i] as int,
                        value: slice_of(self.arena@, self.updated_keys_vals@[i]),
                    },
            ),
            new_props: Seq::new(
                self.new_keys@.len(),
                |i: int|
                    NewProp {
                        key: slice_of(self.arena@, self.new_keys@[i]),
                        section: self.new_keys_section_ids@[i] as int,
                        value: slice_of(self.arena@, self.new_values@[i]),
                        dead: self.dead_new_keys@[i],
                    },
            ),
            dead_keys: self.dead_keys@,
            new_sections: Seq::new(
                self.new_sections@.len(),
                |i: int|
                    NewSection {
                        name: self.new_sections@[i].spec_bytes(),
                        parent: self.new_sections_parent_ids@[i] as int,
                    },
            ),
            dead_sections: self.dead_sections@,
            parents: ints_of(self.parent_tracker@),
            arena_used: self.arena@.len(),
        }
    }
}

impl<'a> ExlexMutator<'a> {
    /// The document the edits are over.
    pub closed spec fn reader(&self) -> &'a Exlex<'a> {
        self.reader
    }

    /// The side tables agree with one another and with the document.
    pub closed spec fn wf(&self) -> bool {
        let d = self.reader@;
        let n_keys = d.keys.len();
        let n_sections = d.sections.len();
        let n_upd = self.updated_keys_vals@.len();
        let n_new = self.new_keys@.len();
        let n_sect = self.new_sections@.len();
        &&& wf_doc(d)
        &&& doc_utf8(d)
        &&& self.arena@.len() <= isize::MAX
        &&& self.updated_keys_hashes@.len() == n_upd
        &&& self.updated_key_indices@.len() == n_upd
        &&& self.updated_keys_section_ids@.len() == n_upd
        &&& self.new_keys_hashes@.len() == n_new
        &&& self.new_keys_section_ids@.len() == n_new
        &&& self.new_values@.len() == n_new
        &&& self.new_sections_hashes@.len() == n_sect
        &&& self.new_sections_parent_ids@.len() == n_sect
        &&& self.dead_keys@.len() == n_keys
        &&& self.dead_new_keys@.len() == n_new
        &&& new_props_distinct(self@)
        &&& self.parent_tracker@.len() == n_sections + n_sect
        &&& self.dead_sections@.len() == n_sections + n_sect
        &&& forall|i: int| 0 <= i < n_upd ==> #[trigger] self.updated_key_indices@[i] < n_keys
        &&& forall|i: int| 0 <= i < n_upd ==> span_ok(self.arena@, #[trigger] self.updated_keys_vals@[i])
        &&& forall|i: int|
            0 <= i < n_upd ==> #[trigger] self.updated_keys_hashes@[i] == spec_hash(
                d.keys[self.updated_key_indices@[i] as int],
            )
        &&& forall|i: int| 0 <= i < n_new ==> span_ok(self.arena@, #[trigger] self.new_keys@[i])
        &&& forall|i: int| 0 <= i < n_new ==> span_ok(self.arena@, #[trigger] self.new_values@[i])
        &&& forall|i: int|
            0 <= i < n_new ==> #[trigger] self.new_keys_hashes@[i] == spec_hash(
                slice_of(self.arena@, self.new_keys@[i]),
            )
        &&& forall|i: int|
            0 <= i < n_sect ==> #[trigger] self.new_sections_hashes@[i] == spec_hash(
                self.new_sections@[i].spec_bytes(),
            )
        &&& forall|i: int|
            0 <= i < n_upd ==> core_key(
                d,
                d.keys[#[trigger] self.updated_key_indices@[i] as int],
                self.updated_keys_section_ids@[i] as int,
            ) == Some(self.updated_key_indices@[i] as int)
        &&& forall|i: int|
            0 <= i < n_new ==> core_key(
                d,
                slice_of(self.arena@, #[trigger] self.new_keys@[i]),
                self.new_keys_section_ids@[i] as int,
            ) is None
    }

    /// The edits of a well-formed mutator form a well-formed model.
    pub proof fn lemma_wf_model(&self)
        requires
            self.wf(),
        ensures
            wf_model(self@),
    {
    }

    /// Nothing edited yet.
    pub open spec fn is_fresh(&self) -> bool {
        &&& self.wf()
        &&& fresh(self@)
    }

    /// A mutator over `exlex` with nothing edited; `data` (the document's
    /// text) sizes the buffer `save` writes into.
    pub fn new(exlex: &'a Exlex<'a>, data: &str) -> (r: Self)
        ensures
            r.reader() == exlex,
            r.is_fresh(),
            r@.doc == exlex@,
    {
        let (n_sections, n_keys) = exlex.counts();
        let m = ExlexMutator {
            reader: exlex,
            arena: Vec::new(),
            updated_keys_vals: Vec::new(),
            updated_keys_hashes: Vec::new(),
            updated_key_indices: Vec::new(),
            updated_keys_section_ids: Vec::new(),
            new_keys: Vec::new(),
            new_keys_hashes: Vec::new(),
            new_keys_section_ids: Vec::new(),
            new_values: Vec::new(),
            new_sections: Vec::new(),
            new_sections_hashes: Vec::new(),
            new_sections_parent_ids: Vec::new(),
            dead_keys: vec![false; n_keys],
            dead_new_keys: Vec::new(),
            dead_sections: vec![false; n_sections],
            parent_tracker: exlex.parents(),
            dump_data: Vec::with_capacity(data.len()),
        };
        proof {
            assert(m@.dead_keys =~= Seq::new(m@.doc.keys.len(), |i: int| false));
            assert(m@.dead_sections =~= Seq::new(m@.doc.sections.len(), |i: int| false));
        }
        m
    }
}


impl<'a> ExlexMutator<'a> {
    /// The update recorded for property `key` (hash `h`) of `section_id`.
    fn key_was_updated(&self, key: &[u8], h: u64, section_id: usize) -> (r: Option<usize>)
        requires
            self.wf(),
            h == spec_hash(key@),
        ensures
            opt_int(r) == updated_for(self@, key@, section_id as int),
    {
        let ghost m = self@;
        let ghost p = updated_is(m, key@, section_id as int);
        let n = self.updated_keys_hashes.len();
        let mut i: usize = 0;
        while i < n
            invariant
                self.wf(),
                m == self@,
                h == spec_hash(key@),
                i <= n == m.updated.len(),
                p == updated_is(m, key@, section_id as int),
                forall|j: int| 0 <= j < i ==> !#[trigger] holds(p, j),
            decreases n - i,
        {
            let idx = self.updated_key_indices[i];
            proof {
                assert(idx < m.doc.keys.len());
            }
            if self.updated_keys_hashes[i] == h && self.updated_keys_section_ids[i] == section_id
                && bytes_eq(self.reader.key_at(idx).as_bytes(), key) {
                proof {
                    assert(holds(p, i as int));
                    lemma_first_where_some(n as int, p, i as int);
                }
                return Some(i);
            }
            assert(!holds(p, i as int));
            i += 1;
        }
        proof {
            lemma_first_where_none(n as int, p);
        }
        None
    }

    /// The new property `key` (hash `h`) of `section_id`.
    fn is_new_key(&self, key: &[u8], h: u64, section_id: usize) -> (r: Option<usize>)
        requires
            self.wf(),
            h == spec_hash(key@),
        ensures
            opt_int(r) == new_key_for(self@, key@, section_id as int),
    {
        let ghost m = self@;
        let ghost p = new_key_is(m, key@, section_id as int);
        let n = self.new_keys_hashes.len();
        let mut i: usize = 0;
        while i < n
            invariant
                self.wf(),
                m == self@,
                h == spec_hash(key@),
                i <= n == m.new_props.len(),
                p == new_key_is(m, key@, section_id as int),
                forall|j: int| 0 <= j < i ==> !#[trigger] holds(p, j),
            decreases n - i,
        {
            let (key_start, key_end) = self.new_keys[i];
            proof {
                assert(span_ok(self.arena@, self.new_keys@[i as int]));
            }
            if self.new_keys_hashes[i] == h && self.new_keys_section_ids[i] == section_id && bytes_eq(
                &self.arena[key_start..key_end],
                key,
            ) {
                proof {
                    assert(holds(p, i as int));
                    lemma_first_where_some(n as int, p, i as int);
                }
                return Some(i);
            }
            assert(!holds(p, i as int));
            i += 1;
        }
        proof {
            lemma_first_where_none(n as int, p);
        }
        None
    }

    /// The new section `name` (hash `h`) created under `parent_id`.
    fn is_new_section(&self, name: &[u8], h: u64, parent_id: usize) -> (r: Option<usize>)
        requires
            self.wf(),
            h == spec_hash(name@),
        ensures
            opt_int(r) == new_section_for(self@, name@, parent_id as int),
    {
        let ghost m = self@;
        let ghost p = new_section_is(m, name@, parent_id as int);
        let n = self.new_sections_hashes.len();
        let mut i: usize = 0;
        while i < n
            invariant
                self.wf(),
                m == self@,
                h == spec_hash(name@),
                i <= n == m.new_sections.len(),
                p == new_section_is(m, name@, parent_id as int),
                forall|j: int| 0 <= j < i ==> !#[trigger] holds(p, j),
            decreases n - i,
        {
            if self.new_sections_hashes[i] == h && bytes_eq(self.new_sections[i].as_bytes(), name)
                && self.new_sections_parent_ids[i] == parent_id {
                proof {
                    assert(holds(p, i as int));
                    lemma_first_where_some(n as int, p, i as int);
                }
                return Some(i);
            }
            assert(!holds(p, i as int));
            i += 1;
        }
        proof {
            lemma_first_where_none(n as int, p);
        }
        None
    }

    /// The document's section `name` (hash `h`) whose current parent is `parent_id`.
    fn is_core_section(&self, name: &[u8], h: u64, parent_id: usize) -> (r: Option<usize>)
        requires
            self.wf(),
            h == spec_hash(name@),
        ensures
            opt_int(r) == core_section_for(self@, name@, parent_id as int),
    {
        let ghost m = self@;
        let ghost p = core_section_is(m, name@, parent_id as int);
        let (n, _) = self.reader.counts();
        let mut i: usize = 0;
        while i < n
            invariant
                self.wf(),
                m == self@,
                h == spec_hash(name@),
                i <= n == m.doc.sections.len(),
                p == core_section_is(m, name@, parent_id as int),
                forall|j: int| 0 <= j < i ==> !#[trigger] holds(p, j),
            decreases n - i,
        {
            if self.reader.section_is(i, name, h) && self.parent_tracker[i] == parent_id {
                proof {
                    assert(holds(p, i as int));
                    lemma_first_where_some(n as int, p, i as int);
                }
                return Some(i);
            }
            assert(!holds(p, i as int));
            i += 1;
        }
        proof {
            lemma_first_where_none(n as int, p);
        }
        None
    }

    /// The string held in the arena at `span`.
    fn arena_str(&self, span: (usize, usize)) -> (r: &str)
        requires
            span_ok(self.arena@, span),
        ensures
            r.spec_bytes() == slice_of(self.arena@, span),
    {
        utf8_str(&self.arena[span.0..span.1]).unwrap()
    }

    /// The current value of property `key` of `section_id`: a new property
    /// first, then an update, then the document's own value.
    pub fn get_property(&self, key: &str, section_id: usize) -> (r: Result<&str>)
        requires
            self.wf(),
        ensures
            str_result(r) == spec_get(self@, key.spec_bytes(), section_id as int),
    {
        let key_bytes = key.as_bytes();
        let h = hash_bytes(key_bytes);
        match self.is_new_key(key_bytes, h, section_id) {
            Some(i) => {
                proof {
                    assert(span_ok(self.arena@, self.new_values@[i as int]));
                }
                Ok(self.arena_str(self.new_values[i]))
            },
            None => match self.key_was_updated(key_bytes, h, section_id) {
                Some(i) => {
                    proof {
                        assert(span_ok(self.arena@, self.updated_keys_vals@[i as int]));
                    }
                    Ok(self.arena_str(self.updated_keys_vals[i]))
                },
                None => match self.reader.key_in_section(key_bytes, h, section_id) {
                    Some(k) => Ok(self.reader.value_at(k)),
                    None => Err(ExlexError { code: ErrorCode::PropertyNotFound, index: usize::MAX }),
                },
            },
        }
    }
}


/// The edits with `n` more bytes in the arena.
pub open spec fn grown(m: MutModel, n: nat) -> MutModel {
    MutModel { arena_used: m.arena_used + n, ..m }
}

/// Appends the bytes of `b` to `out`.
fn append_bytes(out: &mut Vec<u8>, b: &[u8])
    ensures
        final(out)@ == old(out)@ + b@,
{
    let mut i: usize = 0;
    while i < b.len()
        invariant
            i <= b@.len(),
            out@ == old(out)@ + b@.subrange(0, i as int),
        decreases b@.len() - i,
    {
        out.push(b[i]);
        i += 1;
        assert(out@ =~= old(out)@ + b@.subrange(0, i as int));
    }
    assert(b@.subrange(0, b@.len() as int) =~= b@);
}

/// Appending to the arena leaves what its spans hold unchanged.
proof fn lemma_arena_grow(old_arena: Seq<u8>, grown: Seq<u8>, span: (usize, usize))
    requires
        old_arena.len() <= grown.len(),
        grown.subrange(0, old_arena.len() as int) == old_arena,
        span_ok(old_arena, span),
    ensures
        span_ok(grown, span),
        slice_of(grown, span) == slice_of(old_arena, span),
{
    assert(slice_of(grown, span) =~= slice_of(old_arena, span)) by {
        assert forall|k: int| 0 <= k < span.1 - span.0 implies slice_of(grown, span)[k] == slice_of(
            old_arena,
            span,
        )[k] by {
            assert(grown[span.0 + k] == grown.subrange(0, old_arena.len() as int)[span.0 + k]);
        }
    }
}

impl<'a> ExlexMutator<'a> {
    /// Copies `s` into the arena and returns where it is held.
    fn arena_push(&mut self, s: &str) -> (span: (usize, usize))
        requires
            old(self).wf(),
            old(self).arena@.len() + s.spec_bytes().len() <= isize::MAX,
        ensures
            final(self).wf(),
            final(self)@ == grown(old(self)@, s.spec_bytes().len()),
            final(self).reader == old(self).reader,
            final(self).arena@ == old(self).arena@ + s.spec_bytes(),
            span.0 == old(self).arena@.len(),
            span_ok(final(self).arena@, span),
            slice_of(final(self).arena@, span) == s.spec_bytes(),
    {
        let ghost old_arena = self.arena@;
        let ghost old_view = self@;
        let start = self.arena.len();
        append_bytes(&mut self.arena, s.as_bytes());
        let end = self.arena.len();
        proof {
            let a = self.arena@;
            assert(a.subrange(0, old_arena.len() as int) =~= old_arena);
            assert(slice_of(a, (start, end)) =~= s.spec_bytes());
            encode_utf8_valid_utf8(s@);
            assert forall|i: int| 0 <= i < self.updated_keys_vals@.len() implies span_ok(
                a,
                #[trigger] self.updated_keys_vals@[i],
            ) && slice_of(a, self.updated_keys_vals@[i]) == slice_of(old_arena, self.updated_keys_vals@[i]) by {
                lemma_arena_grow(old_arena, a, self.updated_keys_vals@[i]);
            }
            assert forall|i: int| 0 <= i < self.new_keys@.len() implies span_ok(
                a,
                #[trigger] self.new_keys@[i],
            ) && slice_of(a, self.new_keys@[i]) == slice_of(old_arena, self.new_keys@[i])
                && span_ok(a, self.new_values@[i]) && slice_of(a, self.new_values@[i]) == slice_of(old_arena, self.new_values@[i]) by {
                lemma_arena_grow(old_arena, a, self.new_keys@[i]);
                lemma_arena_grow(old_arena, a, self.new_values@[i]);
            }
            assert forall|i: int| 0 <= i < self.new_keys@.len() implies span_ok(a, #[trigger] self.new_values@[i]) by {
                lemma_arena_grow(old_arena, a, self.new_values@[i]);
            }
            assert forall|i: int| 0 <= i < self.new_keys@.len() implies #[trigger] self.new_keys_hashes@[i]
                == spec_hash(slice_of(a, self.new_keys@[i])) by {
                lemma_arena_grow(old_arena, a, self.new_keys@[i]);
            }
            assert(self@.updated =~= old_view.updated);
            assert(self@.new_props =~= old_view.new_props);
        }
        (start, end)
    }

    /// Sets property `key` of `section_id` to `value`: a new property or an
    /// earlier update is overwritten, a property of the document gets an
    /// update, and any other key becomes a new property of the section.
    #[verifier::rlimit(40)]
    pub fn update_prop(&mut self, key: &str, value: &str, section_id: usize)
        requires
            old(self).wf(),
            old(self)@.arena_used + key.spec_bytes().len() + value.spec_bytes().len() <= isize::MAX,
        ensures
            final(self).wf(),
            final(self).reader() == old(self).reader(),
            final(self)@ == spec_update(old(self)@, key.spec_bytes(), value.spec_bytes(), section_id as int),
    {
        let ghost m = self@;
        let ghost kb = key.spec_bytes();
        let ghost vb = value.spec_bytes();
        let key_bytes = key.as_bytes();
        let h = hash_bytes(key_bytes);
        let new_key_idx = self.is_new_key(key_bytes, h, section_id);
        let updated_key_idx = self.key_was_updated(key_bytes, h, section_id);
        let core_idx = self.reader.key_in_section(key_bytes, h, section_id);
        let value_span = self.arena_push(value);
        let ghost arena1 = self.arena@;
        match new_key_idx {
            Some(i) => {
                self.new_values.set(i, value_span);
                proof {
                    lemma_first_where_bounds(m.new_props.len() as int, new_key_is(m, kb, section_id as int));
                    assert(self@.new_props =~= m.new_props.update(i as int, NewProp { value: vb, ..m.new_props[i as int] }));
                    assert(self@.updated =~= m.updated);
                    lemma_distinct_same_keys(m.new_props, self@.new_props, m, self@);
                }
            },
            None => match updated_key_idx {
                Some(i) => {
                    self.updated_keys_vals.set(i, value_span);
                    proof {
                        lemma_first_where_bounds(m.updated.len() as int, updated_is(m, kb, section_id as int));
                        assert(self@.updated =~= m.updated.update(i as int, UpdatedProp { value: vb, ..m.updated[i as int] }));
                        assert(self@.new_props =~= m.new_props);
                    }
                },
                None => match core_idx {
                    Some(k) => {
                        let key_hash = self.reader.key_hash_at(k);
                        self.updated_keys_hashes.push(key_hash);
                        self.updated_keys_vals.push(value_span);
                        self.updated_key_indices.push(k);
                        self.updated_keys_section_ids.push(section_id);
                        proof {
                            assert(self@.updated =~= m.updated.push(UpdatedProp { index: k as int, section: section_id as int, value: vb }));
                            assert(self@.new_props =~= m.new_props);
                        }
                    },
                    None => {
                        let key_span = self.arena_push(key);
                        self.new_keys.push(key_span);
                        self.new_keys_hashes.push(h);
                        self.new_keys_section_ids.push(section_id);
                        self.new_values.push(value_span);
                        self.dead_new_keys.push(false);
                        proof {
                            let a = self.arena@;
                            assert(a.subrange(0, arena1.len() as int) =~= arena1);
                            lemma_arena_grow(arena1, a, value_span);
                            lemma_first_where_none_all(m.new_props.len() as int, new_key_is(m, kb, section_id as int));
                            assert forall|j: int| 0 <= j < m.new_props.len() implies !(#[trigger] m.new_props[j].key == kb
                                && m.new_props[j].section == section_id as int) by {
                                assert(!holds(new_key_is(m, kb, section_id as int), j));
                            }
                            assert(self@.new_props =~= m.new_props.push(NewProp { key: kb, section: section_id as int, value: vb, dead: false }));
                            lemma_distinct_push(m, self@, NewProp { key: kb, section: section_id as int, value: vb, dead: false });
                            assert(self@.updated =~= m.updated);
                        }
                    },
                },
            },
        }
    }
}


impl<'a> ExlexMutator<'a> {
    /// Deletes property `key` of `section_id`; `PropertyNotFound` when the
    /// section has no such property.
    pub fn delete_property(&mut self, key: &str, section_id: usize) -> (r: Result<()>)
        requires
            old(self).wf(),
        ensures
            final(self).wf(),
            final(self).reader() == old(self).reader(),
            (final(self)@, r) == spec_delete(old(self)@, key.spec_bytes(), section_id as int),
    {
        let ghost m = self@;
        let ghost kb = key.spec_bytes();
        let key_bytes = key.as_bytes();
        let h = hash_bytes(key_bytes);
        match self.key_was_updated(key_bytes, h, section_id) {
            Some(i) => {
                let actual_idx = self.updated_key_indices[i];
                proof {
                    lemma_first_where_bounds(m.updated.len() as int, updated_is(m, kb, section_id as int));
                }
                self.dead_keys.set(actual_idx, true);
                proof {
                    assert(self@.updated =~= m.updated);
                    assert(self@.new_props =~= m.new_props);
                }
                Ok(())
            },
            None => match self.reader.key_in_section(key_bytes, h, section_id) {
                Some(k) => {
                    self.dead_keys.set(k, true);
                    proof {
                        assert(self@.updated =~= m.updated);
                        assert(self@.new_props =~= m.new_props);
                    }
                    Ok(())
                },
                None => match self.is_new_key(key_bytes, h, section_id) {
                    Some(i) => {
                        proof {
                            lemma_first_where_bounds(m.new_props.len() as int, new_key_is(m, kb, section_id as int));
                        }
                        self.dead_new_keys.set(i, true);
                        proof {
                            assert(self@.updated =~= m.updated);
                            assert(self@.new_props =~= m.new_props.update(
                                i as int,
                                NewProp { dead: true, ..m.new_props[i as int] },
                            ));
                        }
                        Ok(())
                    },
                    None => Err(ExlexError { code: ErrorCode::PropertyNotFound, index: usize::MAX }),
                },
            },
        }
    }

    /// Creates section `section_name` under `parent_id`; its id is the
    /// document's section count plus the number of sections created before it.
    pub fn new_section(&mut self, section_name: &'a str, parent_id: usize) -> (r: Result<()>)
        requires
            old(self).wf(),
        ensures
            final(self).wf(),
            final(self).reader() == old(self).reader(),
            (final(self)@, r) == spec_new_section(old(self)@, section_name.spec_bytes(), parent_id as int),
    {
        let ghost m = self@;
        let ghost old_tracker = self.parent_tracker@;
        let name = section_name.as_bytes();
        let h = hash_bytes(name);
        if self.is_new_section(name, h, parent_id).is_some() {
            Err(ExlexError { code: ErrorCode::AlreadyCreatedSection, index: usize::MAX })
        } else if self.is_core_section(name, h, parent_id).is_some() {
            Err(ExlexError { code: ErrorCode::DuplicateSectionsNotAllowed, index: usize::MAX })
        } else {
            self.new_sections.push(section_name);
            self.new_sections_hashes.push(h);
            self.parent_tracker.push(parent_id);
            self.dead_sections.push(false);
            self.new_sections_parent_ids.push(parent_id);
            proof {
                lemma_ints_of_push(old_tracker, parent_id);
                assert(self@.new_sections =~= m.new_sections.push(NewSection { name: name@, parent: parent_id as int }));
                assert(self@.updated =~= m.updated);
                assert(self@.new_props =~= m.new_props);
            }
            Ok(())
        }
    }

    /// Makes `to_parent_id` the parent of section `section_id`.
    pub fn move_section(&mut self, section_id: usize, to_parent_id: usize)
        requires
            old(self).wf(),
            section_id < old(self)@.parents.len(),
        ensures
            final(self).wf(),
            final(self).reader() == old(self).reader(),
            final(self)@ == moved(old(self)@, section_id as int, to_parent_id as int),
    {
        let ghost m = self@;
        self.parent_tracker.set(section_id, to_parent_id);
        proof {
            assert(self@.parents =~= m.parents.update(section_id as int, to_parent_id as int));
            assert(self@.updated =~= m.updated);
            assert(self@.new_props =~= m.new_props);
            assert(self@.new_sections =~= m.new_sections);
        }
    }

    /// Marks section `section_id` deleted: neither it nor anything inside it is saved.
    pub fn delete_section(&mut self, section_id: usize)
        requires
            old(self).wf(),
            section_id < old(self)@.dead_sections.len(),
        ensures
            final(self).wf(),
            final(self).reader() == old(self).reader(),
            final(self)@ == section_deleted(old(self)@, section_id as int),
    {
        let ghost m = self@;
        self.dead_sections.set(section_id, true);
        proof {
            assert(self@.updated =~= m.updated);
            assert(self@.new_props =~= m.new_props);
            assert(self@.new_sections =~= m.new_sections);
        }
    }
}

/// The edits once section `s` has parent `p`.
pub open spec fn moved(m: MutModel, s: int, p: int) -> MutModel {
    MutModel { parents: m.parents.update(s, p), ..m }
}

/// The edits once section `s` is marked deleted.
pub open spec fn section_deleted(m: MutModel, s: int) -> MutModel {
    MutModel { dead_sections: m.dead_sections.update(s, true), ..m }
}


// ─── Saving ────────────────────────────────────────────────────────────────

/// `"key": "value"` and a newline.
pub open spec fn prop_line(k: Seq<u8>, v: Seq<u8>) -> Seq<u8> {
    seq![0x22u8] + k + seq![0x22u8, 0x3au8, 0x20u8, 0x22u8] + v + seq![0x22u8, 0x0au8]
}

/// `sect "name" {` and a newline.
pub open spec fn section_head(name: Seq<u8>) -> Seq<u8> {
    seq![0x73u8, 0x65u8, 0x63u8, 0x74u8, 0x20u8, 0x22u8] + name + seq![0x22u8, 0x20u8, 0x7bu8, 0x0au8]
}

/// `}` and a newline.
pub open spec fn section_tail() -> Seq<u8> {
    seq![0x7du8, 0x0au8]
}

/// The name of section `s`, of the document or new.
pub open spec fn section_name(m: MutModel, s: int) -> Seq<u8> {
    if s < m.doc.sections.len() {
        m.doc.sections[s]
    } else {
        m.new_sections[s - m.doc.sections.len()].name
    }
}

pub open spec fn updated_index_is(m: MutModel, i: int) -> spec_fn(int) -> bool {
    |j: int| m.updated[j].index == i
}

/// The value property `i` of the document is saved with: that of its first
/// update, or its own.
pub open spec fn core_value(m: MutModel, i: int) -> Seq<u8> {
    match first_where(m.updated.len() as int, updated_index_is(m, i)) {
        Some(j) => m.updated[j].value,
        None => m.doc.values[i],
    }
}

/// The lines of the document's properties `lo..hi` that are not deleted.
pub open spec fn existing_upto(m: MutModel, lo: int, hi: int) -> Seq<u8>
    decreases hi - lo,
{
    if hi <= lo {
        Seq::empty()
    } else {
        existing_upto(m, lo, hi - 1) + if m.dead_keys[hi - 1] {
            Seq::<u8>::empty()
        } else {
            prop_line(m.doc.keys[hi - 1], core_value(m, hi - 1))
        }
    }
}

/// The lines of the document's own properties of section `s`.
pub open spec fn existing_props(m: MutModel, s: int) -> Seq<u8> {
    if 0 <= s < m.doc.sections.len() {
        existing_upto(m, m.doc.prop_tracker[s], m.doc.prop_tracker[s + 1])
    } else {
        Seq::empty()
    }
}

/// New property `j` of section `s` is saved.
pub open spec fn new_prop_saved(m: MutModel, s: int, j: int) -> bool {
    &&& m.new_props[j].section == s
    &&& !m.new_props[j].dead
}

/// The lines of the new properties `0..k` of section `s` that are not deleted.
pub open spec fn new_props_upto(m: MutModel, s: int, k: int) -> Seq<u8>
    decreases k,
{
    if k <= 0 {
        Seq::empty()
    } else {
        new_props_upto(m, s, k - 1) + if new_prop_saved(m, s, k - 1) {
            prop_line(m.new_props[k - 1].key, m.new_props[k - 1].value)
        } else {
            Seq::<u8>::empty()
        }
    }
}

/// Section `s` as saved: its header (but for the root), its properties, the
/// live sections whose parent it is, and its closing brace. `depth` counts
/// the sections it is nested in. A section reached from the root through
/// children is nested less deep than the number of sections, whatever parents
/// the sections were moved to (see `lemma_descent_len`), so the bound on
/// `depth` only keeps the definition total.
pub open spec fn render_section(m: MutModel, s: int, depth: int) -> Seq<u8>
    decreases m.parents.len() - depth, m.parents.len() + 1,
{
    (if s != 0 {
        section_head(section_name(m, s))
    } else {
        Seq::empty()
    }) + existing_props(m, s) + new_props_upto(m, s, m.new_props.len() as int) + children_upto(
        m,
        s,
        depth,
        m.parents.len() as int,
    ) + if s != 0 {
        section_tail()
    } else {
        Seq::empty()
    }
}

/// The sections among `1..k` whose parent is `s` and that are not deleted, as saved.
pub open spec fn children_upto(m: MutModel, s: int, depth: int, k: int) -> Seq<u8>
    decreases m.parents.len() - depth, k,
{
    if k <= 1 || k > m.parents.len() || depth < 0 {
        Seq::empty()
    } else {
        children_upto(m, s, depth, k - 1) + if m.parents[k - 1] == s && !m.dead_sections[k - 1]
            && depth < m.parents.len() {
            render_section(m, k - 1, depth + 1)
        } else {
            Seq::<u8>::empty()
        }
    }
}

/// The sections `render_section(m, s, depth)` writes a header for (and `s`
/// itself), in the order it writes them: it follows the recursion of
/// `render_section` and `children_upto` step for step.
pub open spec fn written(m: MutModel, s: int, depth: int) -> Seq<int>
    decreases m.parents.len() - depth, m.parents.len() + 1,
{
    seq![s] + written_children(m, s, depth, m.parents.len() as int)
}

/// The sections `children_upto(m, s, depth, k)` writes, in order.
pub open spec fn written_children(m: MutModel, s: int, depth: int, k: int) -> Seq<int>
    decreases m.parents.len() - depth, k,
{
    if k <= 1 || k > m.parents.len() || depth < 0 {
        Seq::empty()
    } else {
        written_children(m, s, depth, k - 1) + if m.parents[k - 1] == s && !m.dead_sections[k - 1]
            && depth < m.parents.len() {
            written(m, k - 1, depth + 1)
        } else {
            Seq::<int>::empty()
        }
    }
}

/// `chain` leads down from the root: each later section has the one before it
/// as its parent, and no section occurs twice.
pub open spec fn is_descent(m: MutModel, chain: Seq<int>) -> bool {
    &&& chain.len() >= 1
    &&& chain[0] == 0
    &&& chain.no_duplicates()
    &&& forall|i: int|
        1 <= i < chain.len() ==> 1 <= #[trigger] chain[i] < m.parents.len() && m.parents[chain[i]]
            == chain[i - 1]
}

/// A descent from the root is no longer than the number of sections.
pub proof fn lemma_descent_len(m: MutModel, chain: Seq<int>)
    requires
        is_descent(m, chain),
        m.parents.len() >= 1,
    ensures
        chain.len() <= m.parents.len(),
{
    let range = vstd::set_lib::set_int_range(0, m.parents.len() as int);
    vstd::set_lib::lemma_int_range(0, m.parents.len() as int);
    chain.unique_seq_to_set();
    assert forall|x: int| chain.to_set().contains(x) implies range.contains(x) by {
        let i = chain.index_of(x);
        if i >= 1 {
            assert(1 <= chain[i] < m.parents.len());
        }
    }
    vstd::set_lib::lemma_len_subset(chain.to_set(), range);
}

/// A live child of the last section of a descent extends the descent: it
/// cannot already be on it, since every section has one parent.
pub proof fn lemma_descent_extend(m: MutModel, chain: Seq<int>, c: int)
    requires
        is_descent(m, chain),
        1 <= c < m.parents.len(),
        m.parents[c] == chain.last(),
    ensures
        is_descent(m, chain.push(c)),
{
    let n = chain.len() as int;
    assert forall|i: int| 0 <= i < n implies chain[i] != c by {
        if i >= 1 && chain[i] == c {
            assert(chain[i - 1] == chain[n - 1]);
        }
    }
    let ext = chain.push(c);
    assert forall|i: int, j: int| 0 <= i < ext.len() && 0 <= j < ext.len() && i != j implies ext[i]
        != ext[j] by {
        if i < n && j < n {
            assert(chain[i] != chain[j]);
        }
    }
    assert forall|i: int| 1 <= i < ext.len() implies 1 <= #[trigger] ext[i] < m.parents.len()
        && m.parents[ext[i]] == ext[i - 1] by {
        if i < n {
            assert(ext[i] == chain[i] && ext[i - 1] == chain[i - 1]);
        }
    }
}

/// The text `save` writes: the root section, as saved.
pub open spec fn spec_save(m: MutModel) -> Seq<u8> {
    render_section(m, 0, 0)
}

/// Every string the edits hold is valid UTF-8.
pub open spec fn model_utf8(m: MutModel) -> bool {
    &&& doc_utf8(m.doc)
    &&& forall|i: int| 0 <= i < m.updated.len() ==> valid_utf8(#[trigger] m.updated[i].value)
    &&& forall|i: int|
        0 <= i < m.new_props.len() ==> valid_utf8((#[trigger] m.new_props[i]).key) && valid_utf8(
            m.new_props[i].value,
        )
    &&& forall|i: int| 0 <= i < m.new_sections.len() ==> valid_utf8(#[trigger] m.new_sections[i].name)
}

/// Appends the line of a property.
fn write_prop_line(out: &mut Vec<u8>, k: &[u8], v: &[u8])
    ensures
        final(out)@ == old(out)@ + prop_line(k@, v@),
{
    out.push(0x22u8);
    append_bytes(out, k);
    out.push(0x22u8);
    out.push(0x3au8);
    out.push(0x20u8);
    out.push(0x22u8);
    append_bytes(out, v);
    out.push(0x22u8);
    out.push(0x0au8);
    assert(out@ =~= old(out)@ + prop_line(k@, v@));
}

impl<'a> ExlexMutator<'a> {
    pub proof fn lemma_model_utf8(&self)
        requires
            self.wf(),
        ensures
            model_utf8(self@),
    {
        let m = self@;
        assert forall|i: int| 0 <= i < m.new_sections.len() implies valid_utf8(
            #[trigger] m.new_sections[i].name,
        ) by {
            encode_utf8_valid_utf8(self.new_sections@[i]@);
        }
        assert forall|i: int| 0 <= i < m.updated.len() implies valid_utf8(#[trigger] m.updated[i].value) by {
            assert(span_ok(self.arena@, self.updated_keys_vals@[i]));
        }
        assert forall|i: int| 0 <= i < m.new_props.len() implies valid_utf8((#[trigger] m.new_props[i]).key)
            && valid_utf8(m.new_props[i].value) by {
            assert(span_ok(self.arena@, self.new_keys@[i]));
            assert(span_ok(self.arena@, self.new_values@[i]));
        }
    }

    /// The first update of property `i` of the document, if any.
    fn update_of(&self, i: usize) -> (r: Option<usize>)
        requires
            self.wf(),
        ensures
            opt_int(r) == first_where(self@.updated.len() as int, updated_index_is(self@, i as int)),
    {
        let ghost m = self@;
        let ghost p = updated_index_is(m, i as int);
        let n = self.updated_key_indices.len();
        let mut j: usize = 0;
        while j < n
            invariant
                self.wf(),
                m == self@,
                j <= n == m.updated.len(),
                p == updated_index_is(m, i as int),
                forall|k: int| 0 <= k < j ==> !#[trigger] holds(p, k),
            decreases n - j,
        {
            if self.updated_key_indices[j] == i {
                proof {
                    assert(holds(p, j as int));
                    lemma_first_where_some(n as int, p, j as int);
                }
                return Some(j);
            }
            assert(!holds(p, j as int));
            j += 1;
        }
        proof {
            lemma_first_where_none(n as int, p);
        }
        None
    }

    /// Writes the lines of the document's own, live properties of `section_id`.
    fn write_existing_props(&mut self, section_id: usize)
        requires
            old(self).wf(),
        ensures
            final(self).wf(),
            final(self)@ == old(self)@,
            final(self).reader == old(self).reader,
            final(self).dump_data@ == old(self).dump_data@ + existing_props(old(self)@, section_id as int),
    {
        let ghost m = self@;
        let (n_sections, _) = self.reader.counts();
        if section_id >= n_sections {
            assert(self.dump_data@ =~= self.dump_data@ + existing_props(m, section_id as int));
            return;
        }
        let (lo, hi) = self.reader.prop_range(section_id);
        let ghost d0 = self.dump_data@;
        let mut index = lo;
        assert(d0 =~= d0 + existing_upto(m, lo as int, lo as int));
        while index < hi
            invariant
                self.wf(),
                m == self@,
                self.reader == old(self).reader,
                lo <= index <= hi <= m.doc.keys.len(),
                self.dump_data@ == d0 + existing_upto(m, lo as int, index as int),
            decreases hi - index,
        {
            if self.dead_keys[index] {
                assert(existing_upto(m, lo as int, index + 1) == existing_upto(m, lo as int, index as int) + Seq::<u8>::empty());
                assert(self.dump_data@ =~= d0 + existing_upto(m, lo as int, index + 1));
                index += 1;
                continue;
            }
            let key = self.reader.key_at(index);
            let ghost before = self.dump_data@;
            match self.update_of(index) {
                Some(j) => {
                    proof {
                        assert(span_ok(self.arena@, self.updated_keys_vals@[j as int]));
                    }
                    let (vs, ve) = self.updated_keys_vals[j];
                    write_prop_line(&mut self.dump_data, key.as_bytes(), &self.arena[vs..ve]);
                },
                None => {
                    let value = self.reader.value_at(index);
                    write_prop_line(&mut self.dump_data, key.as_bytes(), value.as_bytes());
                },
            }
            proof {
                assert(self@ == m);
                assert(self.dump_data@ =~= d0 + existing_upto(m, lo as int, index + 1));
            }
            index += 1;
        }
    }
}


impl<'a> ExlexMutator<'a> {
    /// Writes the lines of the live new properties of `section_id`.
    fn write_new_props(&mut self, section_id: usize)
        requires
            old(self).wf(),
        ensures
            final(self).wf(),
            final(self)@ == old(self)@,
            final(self).reader == old(self).reader,
            final(self).dump_data@ == old(self).dump_data@ + new_props_upto(
                old(self)@,
                section_id as int,
                old(self)@.new_props.len() as int,
            ),
    {
        let ghost m = self@;
        let ghost d0 = self.dump_data@;
        let n = self.new_keys_section_ids.len();
        let mut j: usize = 0;
        assert(d0 =~= d0 + new_props_upto(m, section_id as int, 0));
        while j < n
            invariant
                self.wf(),
                m == self@,
                self.reader == old(self).reader,
                j <= n == m.new_props.len(),
                self.dump_data@ == d0 + new_props_upto(m, section_id as int, j as int),
            decreases n - j,
        {
            if self.new_keys_section_ids[j] == section_id {
                if !self.dead_new_keys[j] {
                    proof {
                        assert(span_ok(self.arena@, self.new_keys@[j as int]));
                        assert(span_ok(self.arena@, self.new_values@[j as int]));
                    }
                    let (key_start, key_end) = self.new_keys[j];
                    let (val_start, val_end) = self.new_values[j];
                    write_prop_line(
                        &mut self.dump_data,
                        &self.arena[key_start..key_end],
                        &self.arena[val_start..val_end],
                    );
                }
            }
            proof {
                assert(self.dump_data@ =~= d0 + new_props_upto(m, section_id as int, j + 1));
            }
            j += 1;
        }
    }

    /// Writes the name of section `sect_idx`.
    fn write_section_name(&mut self, sect_idx: usize)
        requires
            old(self).wf(),
            sect_idx < old(self)@.parents.len(),
        ensures
            final(self).wf(),
            final(self)@ == old(self)@,
            final(self).reader == old(self).reader,
            final(self).dump_data@ == old(self).dump_data@ + section_name(old(self)@, sect_idx as int),
    {
        let (n_sections, _) = self.reader.counts();
        if sect_idx >= n_sections {
            append_bytes(&mut self.dump_data, self.new_sections[sect_idx - n_sections].as_bytes());
        } else {
            append_bytes(&mut self.dump_data, self.reader.get_section_by_id(sect_idx).as_bytes());
        }
    }

    /// Writes section `sect_idx` with all it holds; `chain` is the descent
    /// from the root that reached it, `depth` sections below the root.
    fn write_section(&mut self, sect_idx: usize, depth: usize, Ghost(chain): Ghost<Seq<int>>)
        requires
            old(self).wf(),
            sect_idx < old(self)@.parents.len(),
            is_descent(old(self)@, chain),
            chain.len() == depth + 1,
            chain.last() == sect_idx,
        ensures
            final(self).wf(),
            final(self)@ == old(self)@,
            final(self).reader == old(self).reader,
            final(self).dump_data@ == old(self).dump_data@ + render_section(
                old(self)@,
                sect_idx as int,
                depth as int,
            ),
        decreases old(self)@.parents.len() - depth,
    {
        let ghost m = self@;
        let ghost d0 = self.dump_data@;
        proof {
            lemma_descent_len(m, chain);
        }
        if sect_idx != 0 {
            let d = &mut self.dump_data;
            d.push(0x73u8);
            d.push(0x65u8);
            d.push(0x63u8);
            d.push(0x74u8);
            d.push(0x20u8);
            d.push(0x22u8);
            self.write_section_name(sect_idx);
            let d = &mut self.dump_data;
            d.push(0x22u8);
            d.push(0x20u8);
            d.push(0x7bu8);
            d.push(0x0au8);
        }
        let ghost d1 = self.dump_data@;
        proof {
            let head = if sect_idx != 0 {
                section_head(section_name(m, sect_idx as int))
            } else {
                Seq::empty()
            };
            assert(d1 =~= d0 + head);
        }
        self.write_existing_props(sect_idx);
        self.write_new_props(sect_idx);
        let ghost d2 = self.dump_data@;
        let total = self.parent_tracker.len();
        let mut offset: usize = 1;
        assert(d2 =~= d2 + children_upto(m, sect_idx as int, depth as int, 1));
        while offset < total
            invariant
                self.wf(),
                m == self@,
                self.reader == old(self).reader,
                total == m.parents.len(),
                m.parents.len() == old(self)@.parents.len(),
                sect_idx < total,
                depth < total,
                is_descent(m, chain),
                chain.len() == depth + 1,
                chain.last() == sect_idx,
                1 <= offset <= total,
                self.dump_data@ == d2 + children_upto(m, sect_idx as int, depth as int, offset as int),
            decreases total - offset,
        {
            let ghost before = self.dump_data@;
            if self.parent_tracker[offset] == sect_idx && !self.dead_sections[offset] {
                proof {
                    lemma_descent_extend(m, chain, offset as int);
                }
                self.write_section(offset, depth + 1, Ghost(chain.push(offset as int)));
            }
            proof {
                assert(self.dump_data@ =~= d2 + children_upto(m, sect_idx as int, depth as int, offset + 1));
            }
            offset += 1;
        }
        if sect_idx != 0 {
            let d = &mut self.dump_data;
            d.push(0x7du8);
            d.push(0x0au8);
        }
        proof {
            assert(self.dump_data@ =~= d0 + render_section(m, sect_idx as int, depth as int));
        }
    }

    /// The edited document as text: each section with its live properties
    /// (the document's own first, in order, with their latest updates, then
    /// the new ones) and then the live sections inside it.
    pub fn save(&mut self) -> (r: String)
        requires
            old(self).wf(),
        ensures
            final(self).wf(),
            final(self)@ == old(self)@,
            final(self).reader() == old(self).reader(),
            encode_utf8(r@) == spec_save(old(self)@),
    {
        self.dump_data.clear();
        let ghost root_only = seq![0int];
        proof {
            assert(is_descent(self@, root_only));
        }
        self.write_section(0, 0, Ghost(root_only));
        proof {
            self.lemma_model_utf8();
            lemma_render_utf8(self@, 0, 0);
        }
        let text = utf8_str(self.dump_data.as_slice()).unwrap();
        text.to_owned()
    }
}

/// Bytes below 0x80 are valid UTF-8.
proof fn lemma_ascii_utf8(b: Seq<u8>)
    requires
        forall|i: int| 0 <= i < b.len() ==> b[i] < 0x80,
    ensures
        valid_utf8(b),
    decreases b.len(),
{
    if b.len() > 0 {
        lemma_ascii_utf8(b.subrange(1, b.len() as int));
        assert(vstd::utf8::pop_first_scalar(b) =~= b.subrange(1, b.len() as int));
    }
}

proof fn lemma_prop_line_utf8(k: Seq<u8>, v: Seq<u8>)
    requires
        valid_utf8(k),
        valid_utf8(v),
    ensures
        valid_utf8(prop_line(k, v)),
{
    let a = seq![0x22u8];
    let b = seq![0x22u8, 0x3au8, 0x20u8, 0x22u8];
    let c = seq![0x22u8, 0x0au8];
    lemma_ascii_utf8(a);
    lemma_ascii_utf8(b);
    lemma_ascii_utf8(c);
    vstd::utf8::valid_utf8_concat(a, k);
    vstd::utf8::valid_utf8_concat(a + k, b);
    vstd::utf8::valid_utf8_concat(a + k + b, v);
    vstd::utf8::valid_utf8_concat(a + k + b + v, c);
}

proof fn lemma_existing_utf8(m: MutModel, lo: int, hi: int)
    requires
        model_utf8(m),
        wf_doc(m.doc),
        0 <= lo,
        hi <= m.doc.keys.len(),
    ensures
        valid_utf8(existing_upto(m, lo, hi)),
    decreases hi - lo,
{
    broadcast use vstd::utf8::valid_utf8_concat;
    if hi > lo {
        lemma_existing_utf8(m, lo, hi - 1);
        lemma_first_where_bounds(m.updated.len() as int, updated_index_is(m, hi - 1));
        lemma_prop_line_utf8(m.doc.keys[hi - 1], core_value(m, hi - 1));
        lemma_ascii_utf8(Seq::<u8>::empty());
    } else {
        lemma_ascii_utf8(Seq::<u8>::empty());
    }
}

proof fn lemma_new_props_utf8(m: MutModel, s: int, k: int)
    requires
        model_utf8(m),
        k <= m.new_props.len(),
    ensures
        valid_utf8(new_props_upto(m, s, k)),
    decreases k,
{
    broadcast use vstd::utf8::valid_utf8_concat;
    lemma_ascii_utf8(Seq::<u8>::empty());
    if k > 0 {
        lemma_new_props_utf8(m, s, k - 1);
        lemma_prop_line_utf8(m.new_props[k - 1].key, m.new_props[k - 1].value);
    }
}

/// What `save` writes is valid UTF-8.
pub proof fn lemma_render_utf8(m: MutModel, s: int, depth: int)
    requires
        model_utf8(m),
        wf_doc(m.doc),
        0 <= s < m.parents.len(),
        m.parents.len() == m.doc.sections.len() + m.new_sections.len(),
        0 <= depth <= m.parents.len(),
    ensures
        valid_utf8(render_section(m, s, depth)),
    decreases m.parents.len() - depth, m.parents.len() + 1,
{
    let e = Seq::<u8>::empty();
    lemma_ascii_utf8(e);
    let open_a = seq![0x73u8, 0x65u8, 0x63u8, 0x74u8, 0x20u8, 0x22u8];
    let open_b = seq![0x22u8, 0x20u8, 0x7bu8, 0x0au8];
    lemma_ascii_utf8(open_a);
    lemma_ascii_utf8(open_b);
    lemma_ascii_utf8(section_tail());
    let name = section_name(m, s);
    assert(valid_utf8(name));
    vstd::utf8::valid_utf8_concat(open_a, name);
    vstd::utf8::valid_utf8_concat(open_a + name, open_b);
    let head = if s != 0 { section_head(name) } else { e };
    let tail = if s != 0 { section_tail() } else { e };
    assert(valid_utf8(head));
    assert(valid_utf8(tail));
    if 0 <= s < m.doc.sections.len() {
        let n = m.doc.sections.len() as int;
        assert(m.doc.prop_tracker[s] <= m.doc.prop_tracker[s + 1]);
        assert(m.doc.prop_tracker[s + 1] <= m.doc.prop_tracker[n]);
        lemma_existing_utf8(m, m.doc.prop_tracker[s], m.doc.prop_tracker[s + 1]);
    }
    let ex = existing_props(m, s);
    let np = new_props_upto(m, s, m.new_props.len() as int);
    let ch = children_upto(m, s, depth, m.parents.len() as int);
    assert(valid_utf8(ex));
    lemma_new_props_utf8(m, s, m.new_props.len() as int);
    lemma_children_utf8(m, s, depth, m.parents.len() as int);
    vstd::utf8::valid_utf8_concat(head, ex);
    vstd::utf8::valid_utf8_concat(head + ex, np);
    vstd::utf8::valid_utf8_concat(head + ex + np, ch);
    vstd::utf8::valid_utf8_concat(head + ex + np + ch, tail);
}

proof fn lemma_children_utf8(m: MutModel, s: int, depth: int, k: int)
    requires
        model_utf8(m),
        wf_doc(m.doc),
        m.parents.len() == m.doc.sections.len() + m.new_sections.len(),
        0 <= depth <= m.parents.len(),
    ensures
        valid_utf8(children_upto(m, s, depth, k)),
    decreases m.parents.len() - depth, k,
{
    broadcast use vstd::utf8::valid_utf8_concat;
    lemma_ascii_utf8(Seq::<u8>::empty());
    if k > 1 && k <= m.parents.len() {
        lemma_children_utf8(m, s, depth, k - 1);
        if m.parents[k - 1] == s && !m.dead_sections[k - 1] && depth < m.parents.len() {
            lemma_render_utf8(m, k - 1, depth + 1);
        }
    }
}

} // verus!
