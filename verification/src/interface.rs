//! The reader: a parsed document and the lookups it answers.
//!
//! Sections are addressed by id (`ExlexSection`), by a list of names walked
//! from a starting section, or by a dotted path such as `ROOT.Alpha.Beta`
//! (a leading `ROOT` component may be left out).

use vstd::prelude::*;
use vstd::string::StringSliceAdditionalSpecFns;
use vstd::utf8::{encode_utf8_valid_utf8, valid_utf8};
use crate::bytes::{bytes_eq, find_byte, parse_value};
use crate::parser::{
    bytes_of, first_of, hash_bytes, ints_of, lemma_bytes_of_push, lemma_ints_of_push, lemma_first_of_none, lemma_first_of_some, lemma_root_name,
    root_name, spans_of, spec_hash, spec_parse, wf_doc, DocModel, ErrorCode, ExlexError, ExlexParser,
    Result,
};
use crate::writer::ExlexMutator;

verus! {

broadcast use {vstd::seq::group_seq_axioms, vstd::seq_lib::group_seq_properties};

// ─── Lookups on the model ──────────────────────────────────────────────────

/// `i` is the first index in `lo..hi` where `names` holds `name`.
pub open spec fn is_first_match(names: Seq<Seq<u8>>, name: Seq<u8>, lo: int, hi: int, i: int) -> bool {
    &&& lo <= i < hi
    &&& names[i] == name
    &&& forall|j: int| lo <= j < i ==> names[j] != name
}

/// The first index in `lo..hi` where `names` holds `name`, if any.
pub open spec fn first_match(names: Seq<Seq<u8>>, name: Seq<u8>, lo: int, hi: int) -> Option<int> {
    if exists|i: int| is_first_match(names, name, lo, hi, i) {
        Some(choose|i: int| is_first_match(names, name, lo, hi, i))
    } else {
        None
    }
}

/// Every name, key and value of the document is valid UTF-8.
pub open spec fn doc_utf8(m: DocModel) -> bool {
    &&& forall|i: int| 0 <= i < m.sections.len() ==> valid_utf8(#[trigger] m.sections[i])
    &&& forall|i: int| 0 <= i < m.keys.len() ==> valid_utf8(#[trigger] m.keys[i])
    &&& forall|i: int| 0 <= i < m.values.len() ==> valid_utf8(#[trigger] m.values[i])
}

pub open spec fn not_found(code: ErrorCode) -> ExlexError {
    ExlexError { code, index: usize::MAX }
}

/// The section named `name` among those searched for children of `parent`:
/// the first one in the parent's child range.
pub open spec fn spec_child(m: DocModel, name: Seq<u8>, parent: int) -> Result<int> {
    match first_match(m.sections, name, m.children[parent].0, m.children[parent].1) {
        Some(i) => Ok(i),
        None => Err(not_found(ErrorCode::SectionNotFound)),
    }
}

/// Walks `names` one child at a time from section `start`.
pub open spec fn spec_walk(m: DocModel, names: Seq<Seq<u8>>, start: int) -> Result<int>
    decreases names.len(),
{
    if names.len() == 0 {
        Ok(start)
    } else {
        match spec_child(m, names[0], start) {
            Ok(c) => spec_walk(m, names.drop_first(), c),
            Err(e) => Err(e),
        }
    }
}

/// The pieces of `p` between `.` separators (one piece when there is none).
pub open spec fn split_dots(p: Seq<u8>) -> Seq<Seq<u8>>
    decreases p.len(),
{
    match first_of(p, 0, 0x2eu8, 0x2eu8) {
        Some(j) => if 0 <= j < p.len() {
            seq![p.subrange(0, j)] + split_dots(p.subrange(j + 1, p.len() as int))
        } else {
            seq![p]
        },
        None => seq![p],
    }
}

/// The names a dotted path walks from the root: its pieces, less a leading `ROOT`.
pub open spec fn path_names(p: Seq<u8>) -> Seq<Seq<u8>> {
    let parts = split_dots(p);
    if parts.len() > 0 && parts[0] == root_name() {
        parts.drop_first()
    } else {
        parts
    }
}

/// The section a dotted path names.
pub open spec fn spec_resolve(m: DocModel, p: Seq<u8>) -> Result<int> {
    spec_walk(m, path_names(p), 0)
}

/// The index of property `key` of section `s`: the first one with that key.
pub open spec fn spec_property_index(m: DocModel, key: Seq<u8>, s: int) -> Result<int> {
    if s < 0 || s >= m.sections.len() {
        Err(not_found(ErrorCode::SectionNotFound))
    } else {
        match first_match(m.keys, key, m.prop_tracker[s], m.prop_tracker[s + 1]) {
            Some(i) => Ok(i),
            None => Err(not_found(ErrorCode::PropertyNotFound)),
        }
    }
}

/// The value of property `key` of section `s`.
pub open spec fn spec_property(m: DocModel, key: Seq<u8>, s: int) -> Result<Seq<u8>> {
    match spec_property_index(m, key, s) {
        Ok(i) => Ok(m.values[i]),
        Err(e) => Err(e),
    }
}

/// The value of property `key` of the section a dotted path names.
pub open spec fn spec_path_property(m: DocModel, key: Seq<u8>, p: Seq<u8>) -> Result<Seq<u8>> {
    match spec_resolve(m, p) {
        Ok(s) => spec_property(m, key, s),
        Err(e) => Err(e),
    }
}

/// The ids among `0..n` of the sections other than the root whose parent is `s`.
pub open spec fn child_ids(m: DocModel, s: int, n: int) -> Seq<int>
    decreases n,
{
    if n <= 0 {
        Seq::empty()
    } else {
        child_ids(m, s, n - 1) + if n - 1 >= 1 && m.parents[n - 1] == s {
            seq![n - 1]
        } else {
            Seq::<int>::empty()
        }
    }
}

/// The ids among `0..n` of the sections named `name`.
pub open spec fn ids_named(m: DocModel, name: Seq<u8>, n: int) -> Seq<int>
    decreases n,
{
    if n <= 0 {
        Seq::empty()
    } else {
        ids_named(m, name, n - 1) + if m.sections[n - 1] == name {
            seq![n - 1]
        } else {
            Seq::<int>::empty()
        }
    }
}

/// The bytes of a string result.
pub open spec fn str_result(r: Result<&str>) -> Result<Seq<u8>> {
    match r {
        Ok(s) => Ok(s.spec_bytes()),
        Err(e) => Err(e),
    }
}

/// A section id result as an integer result.
pub open spec fn id_result(r: Result<usize>) -> Result<int> {
    match r {
        Ok(i) => Ok(i as int),
        Err(e) => Err(e),
    }
}

/// A section result as an integer result.
pub open spec fn section_result(r: Result<ExlexSection>) -> Result<int> {
    match r {
        Ok(s) => Ok(s.0 as int),
        Err(e) => Err(e),
    }
}

pub proof fn lemma_first_match_some(names: Seq<Seq<u8>>, name: Seq<u8>, lo: int, hi: int, i: int)
    requires
        is_first_match(names, name, lo, hi, i),
    ensures
        first_match(names, name, lo, hi) == Some(i),
{
    let k = choose|k: int| is_first_match(names, name, lo, hi, k);
    assert(is_first_match(names, name, lo, hi, k));
    if k < i {
        assert(names[k] != name);
    } else if k > i {
        assert(names[i] != name);
    }
}

pub proof fn lemma_first_match_none(names: Seq<Seq<u8>>, name: Seq<u8>, lo: int, hi: int)
    requires
        forall|j: int| lo <= j < hi ==> names[j] != name,
    ensures
        first_match(names, name, lo, hi) is None,
{
    if exists|i: int| is_first_match(names, name, lo, hi, i) {
        let i = choose|i: int| is_first_match(names, name, lo, hi, i);
        assert(names[i] != name);
    }
}

pub proof fn lemma_first_match_bounds(names: Seq<Seq<u8>>, name: Seq<u8>, lo: int, hi: int)
    ensures
        first_match(names, name, lo, hi) matches Some(i) ==> is_first_match(names, name, lo, hi, i),
{
}

/// The first of `names[lo..hi]` equal to `name`; `hashes` hold the names'
/// hashes and `h` the hash of `name`, so most names are passed over unread.
pub(crate) fn find_name(
    names: &Vec<&str>,
    hashes: &Vec<u64>,
    name: &[u8],
    h: u64,
    lo: usize,
    hi: usize,
) -> (r: Option<usize>)
    requires
        lo <= hi <= names@.len(),
        hashes@.len() == names@.len(),
        forall|i: int|
            0 <= i < names@.len() ==> #[trigger] hashes@[i] == spec_hash(names@[i].spec_bytes()),
        h == spec_hash(name@),
    ensures
        match r {
            Some(i) => first_match(bytes_of(names@), name@, lo as int, hi as int) == Some(i as int),
            None => first_match(bytes_of(names@), name@, lo as int, hi as int) is None,
        },
{
    let ghost all = bytes_of(names@);
    let mut i = lo;
    while i < hi
        invariant
            lo <= i <= hi <= names@.len(),
            hashes@.len() == names@.len(),
            forall|k: int|
                0 <= k < names@.len() ==> #[trigger] hashes@[k] == spec_hash(names@[k].spec_bytes()),
            h == spec_hash(name@),
            all == bytes_of(names@),
            forall|j: int| lo <= j < i ==> all[j] != name@,
        decreases hi - i,
    {
        if hashes[i] == h && bytes_eq(names[i].as_bytes(), name) {
            proof {
                lemma_first_match_some(all, name@, lo as int, hi as int, i as int);
            }
            return Some(i);
        }
        i += 1;
    }
    proof {
        lemma_first_match_none(all, name@, lo as int, hi as int);
    }
    None
}

// ─── The document ──────────────────────────────────────────────────────────

/// A parsed document. Its strings borrow from the text it was read from.
#[derive(Debug)]
pub struct Exlex<'a> {
    pub(crate) sections: Vec<&'a str>,
    pub(crate) prop_keys: Vec<&'a str>,
    pub(crate) prop_values: Vec<&'a str>,
    pub(crate) properties_tracker: Vec<usize>,
    pub(crate) properties_hash: Vec<u64>,
    pub(crate) sections_hash: Vec<u64>,
    pub(crate) children_tracker: Vec<(usize, usize)>,
    pub(crate) parent_tracker: Vec<usize>,
}

/// A section, by id: 0 is the root, and the sections of a document are
/// numbered from 1 in the order they are opened.
#[derive(Clone, Copy, Debug, PartialEq, Eq, Structural)]
pub struct ExlexSection(pub usize);

impl<'a> View for Exlex<'a> {
    type V = DocModel;

    closed spec fn view(&self) -> DocModel {
        DocModel {
            sections: bytes_of(self.sections@),
            parents: ints_of(self.parent_tracker@),
            keys: bytes_of(self.prop_keys@),
            values: bytes_of(self.prop_values@),
            prop_tracker: ints_of(self.properties_tracker@),
            children: spans_of(self.children_tracker@),
        }
    }
}

impl<'a> Exlex<'a> {
    /// The stored vectors agree in length, the stored hashes are those of the
    /// stored names, and the model is a well-formed document.
    #[verifier::type_invariant]
    pub(crate) closed spec fn inv(self) -> bool {
        &&& wf_doc(self@)
        &&& doc_utf8(self@)
        &&& self.sections_hash@.len() == self.sections@.len()
        &&& self.properties_hash@.len() == self.prop_keys@.len()
        &&& forall|i: int|
            0 <= i < self.sections@.len() ==> #[trigger] self.sections_hash@[i] == spec_hash(
                self.sections@[i].spec_bytes(),
            )
        &&& forall|i: int|
            0 <= i < self.prop_keys@.len() ==> #[trigger] self.properties_hash@[i] == spec_hash(
                self.prop_keys@[i].spec_bytes(),
            )
    }

    /// Parses `data`. The hints only size the storage reserved up front:
    /// `disable_preallocator` turns off counting `:` and `{` bytes, and the
    /// others give room for sections, properties and nesting depth.
    pub fn init_reader(
        data: &'a str,
        disable_preallocator: Option<bool>,
        preallocate_sections: Option<usize>,
        preallocate_props: Option<usize>,
        preallocate_max_depth: Option<usize>,
    ) -> (r: Result<Self>)
        requires
            data.spec_bytes().len() <= isize::MAX,
        ensures
            match spec_parse(data.spec_bytes()) {
                Ok(m) => r is Ok && r.unwrap()@ == m,
                Err(e) => r == Err::<Self, ExlexError>(e),
            },
    {
        let data_as_bytes = data.as_bytes();
        let mut parser = ExlexParser::new(
            data,
            data_as_bytes,
            disable_preallocator,
            preallocate_sections,
            preallocate_props,
            preallocate_max_depth,
        );
        parser.parse()?;
        proof {
            let m = parser.doc();
            assert forall|i: int| 0 <= i < m.sections.len() implies valid_utf8(
                #[trigger] m.sections[i],
            ) by {
                encode_utf8_valid_utf8(parser.sections@[i]@);
            }
            assert forall|i: int| 0 <= i < m.keys.len() implies valid_utf8(#[trigger] m.keys[i]) by {
                encode_utf8_valid_utf8(parser.prop_keys@[i]@);
            }
            assert forall|i: int| 0 <= i < m.values.len() implies valid_utf8(
                #[trigger] m.values[i],
            ) by {
                encode_utf8_valid_utf8(parser.prop_values@[i]@);
            }
        }
        Ok(
            Exlex {
                sections: parser.sections,
                prop_keys: parser.prop_keys,
                prop_values: parser.prop_values,
                properties_hash: parser.properties_hash,
                sections_hash: parser.sections_hash,
                properties_tracker: parser.properties_tracker,
                children_tracker: parser.children_tracker,
                parent_tracker: parser.parent_tracker,
            },
        )
    }

    /// A mutator over this document, with nothing changed yet.
    pub fn init_mutator(&'a self) -> (r: Result<ExlexMutator<'a>>)
        ensures
            r is Ok,
            r.unwrap().reader() == self,
            r.unwrap().is_fresh(),
            r.unwrap()@.doc == self@,
    {
        Ok(ExlexMutator::new(self, ""))
    }

    /// The root section.
    pub fn get_root(&self) -> (r: ExlexSection)
        ensures
            r.0 == 0,
    {
        ExlexSection(0)
    }

    /// The number of properties in the document.
    pub fn total_properties(&self) -> (r: usize)
        ensures
            r == self@.keys.len(),
    {
        proof {
            use_type_invariant(self);
        }
        self.prop_keys.len()
    }

    /// The section named `child` among those searched for children of
    /// `parent` (the sections opened inside it), the first one when several
    /// share the name.
    pub fn get_child(&self, child: &str, parent: ExlexSection) -> (r: Result<ExlexSection>)
        requires
            parent.0 < self@.sections.len(),
        ensures
            section_result(r) == spec_child(self@, child.spec_bytes(), parent.0 as int),
    {
        self.child_of(child.as_bytes(), parent.0)
    }

    fn child_of(&self, name: &[u8], parent: usize) -> (r: Result<ExlexSection>)
        requires
            parent < self@.sections.len(),
        ensures
            section_result(r) == spec_child(self@, name@, parent as int),
            r matches Ok(s) ==> s.0 < self@.sections.len(),
    {
        proof {
            use_type_invariant(self);
            lemma_first_match_bounds(
                self@.sections,
                name@,
                self@.children[parent as int].0,
                self@.children[parent as int].1,
            );
        }
        let h = hash_bytes(name);
        let (lo, hi) = self.children_tracker[parent];
        match find_name(&self.sections, &self.sections_hash, name, h, lo, hi) {
            Some(i) => Ok(ExlexSection(i)),
            None => Err(ExlexError { code: ErrorCode::SectionNotFound, index: usize::MAX }),
        }
    }

    /// Walks `path` one child at a time from `start_node`.
    pub fn get_child_path(&self, path: &[&str], start_node: ExlexSection) -> (r: Result<
        ExlexSection,
    >)
        requires
            path@.len() > 0 ==> start_node.0 < self@.sections.len(),
        ensures
            section_result(r) == spec_walk(self@, bytes_of(path@), start_node.0 as int),
    {
        proof {
            use_type_invariant(self);
        }
        let ghost names = bytes_of(path@);
        let mut current = start_node;
        let mut i: usize = 0;
        while i < path.len()
            invariant
                i <= path@.len(),
                names == bytes_of(path@),
                i < path@.len() ==> current.0 < self@.sections.len(),
                spec_walk(self@, names.skip(i as int), current.0 as int) == spec_walk(
                    self@,
                    names,
                    start_node.0 as int,
                ),
            decreases path@.len() - i,
        {
            proof {
                assert(names.skip(i as int).drop_first() =~= names.skip(i + 1));
            }
            current = match self.child_of(path[i].as_bytes(), current.0) {
                Ok(c) => c,
                Err(e) => return Err(e),
            };
            i += 1;
        }
        assert(names.skip(i as int) =~= Seq::<Seq<u8>>::empty());
        Ok(current)
    }

    /// The properties of `section`, as (key, value) pairs in document order.
    pub fn iter_section_properties(&self, section: ExlexSection) -> (r: Vec<(&'a str, &'a str)>)
        requires
            section.0 < self@.sections.len(),
        ensures
            r@.len() == self@.prop_tracker[section.0 + 1] - self@.prop_tracker[section.0 as int],
            forall|i: int|
                0 <= i < r@.len() ==> (#[trigger] r@[i]).0.spec_bytes() == self@.keys[self@.prop_tracker[section.0 as int] + i]
                    && r@[i].1.spec_bytes() == self@.values[self@.prop_tracker[section.0 as int] + i],
    {
        proof {
            use_type_invariant(self);
        }
        let section_id = section.0;
        let n = self.sections.len();
        proof {
            assert(self@.prop_tracker[section_id as int] <= self@.prop_tracker[section_id + 1]);
            assert(self@.prop_tracker[section_id + 1] <= self@.prop_tracker[n as int]);
        }
        let start = self.properties_tracker[section_id];
        let end = self.properties_tracker[section_id + 1];
        let mut out: Vec<(&'a str, &'a str)> = Vec::new();
        let mut i = start;
        while i < end
            invariant
                start <= i <= end <= self.prop_keys@.len(),
                self.prop_keys@.len() == self.prop_values@.len(),
                bytes_of(self.prop_keys@) == self@.keys,
                bytes_of(self.prop_values@) == self@.values,
                start == self@.prop_tracker[section_id as int],
                out@.len() == i - start,
                forall|k: int|
                    0 <= k < out@.len() ==> (#[trigger] out@[k]).0.spec_bytes() == self@.keys[start + k]
                        && out@[k].1.spec_bytes() == self@.values[start + k],
            decreases end - i,
        {
            out.push((self.prop_keys[i], self.prop_values[i]));
            i += 1;
        }
        out
    }

    /// The value of property `key` of `section`.
    pub fn get_section_property(&self, key: &str, section: ExlexSection) -> (r: Result<&'a str>)
        ensures
            str_result(r) == spec_property(self@, key.spec_bytes(), section.0 as int),
    {
        self.property_at(key.as_bytes(), section.0)
    }

    fn property_at(&self, key: &[u8], section_id: usize) -> (r: Result<&'a str>)
        ensures
            str_result(r) == spec_property(self@, key@, section_id as int),
    {
        proof {
            use_type_invariant(self);
        }
        if section_id >= self.sections.len() {
            return Err(ExlexError { code: ErrorCode::SectionNotFound, index: usize::MAX });
        }
        let key_hash = hash_bytes(key);
        let properties_start = self.properties_tracker[section_id];
        let properties_end = self.properties_tracker[section_id + 1];
        proof {
            assert(self@.prop_tracker[section_id as int] <= self@.prop_tracker[section_id + 1]);
        }
        match find_name(
            &self.prop_keys,
            &self.properties_hash,
            key,
            key_hash,
            properties_start,
            properties_end,
        ) {
            Some(i) => {
                proof {
                    lemma_first_match_bounds(self@.keys, key@, properties_start as int, properties_end as int);
                }
                Ok(self.prop_values[i])
            },
            None => Err(ExlexError { code: ErrorCode::PropertyNotFound, index: usize::MAX }),
        }
    }

    /// The section a dotted path names (a leading `ROOT` may be left out).
    pub fn get_section_id(&self, path: &str) -> (r: Result<usize>)
        ensures
            id_result(r) == spec_resolve(self@, path.spec_bytes()),
            r matches Ok(i) ==> i < self@.sections.len(),
    {
        self.resolve(path.as_bytes())
    }

    fn resolve(&self, path: &[u8]) -> (r: Result<usize>)
        ensures
            id_result(r) == spec_resolve(self@, path@),
            r matches Ok(i) ==> i < self@.sections.len(),
    {
        proof {
            use_type_invariant(self);
            lemma_root_name();
            assert(path@.subrange(0, path@.len() as int) =~= path@);
        }
        let root = "ROOT".as_bytes();
        let length = path.len();
        let mut pos: usize = 0;
        let mut current: usize = 0;
        let mut first = true;
        let mut done = false;
        while !done
            invariant
                pos <= length == path@.len(),
                current < self@.sections.len(),
                root@ == root_name(),
                path@.subrange(0, length as int) == path@,
                wf_doc(self@),
                !done && first ==> pos == 0 && current == 0,
                !done && !first ==> spec_walk(
                    self@,
                    split_dots(path@.subrange(pos as int, length as int)),
                    current as int,
                ) == spec_resolve(self@, path@),
                done ==> spec_resolve(self@, path@) == Ok::<int, ExlexError>(current as int),
            decreases (length + 1 - pos) - if done {
                1int
            } else {
                0int
            },
        {
            let end = next_piece(path, pos);
            let piece = &path[pos..end];
            let ghost rest = if end < length {
                split_dots(path@.subrange(end + 1, length as int))
            } else {
                Seq::<Seq<u8>>::empty()
            };
            let ghost here = split_dots(path@.subrange(pos as int, length as int));
            assert(here == seq![piece@] + rest);
            assert(here[0] == piece@ && here.drop_first() =~= rest);
            let skip_root = first && bytes_eq(piece, root);
            if !skip_root {
                current = match self.child_of(piece, current) {
                    Ok(s) => s.0,
                    Err(e) => return Err(e),
                };
            }
            first = false;
            proof {
                reveal_with_fuel(spec_walk, 2);
            }
            if end == length {
                done = true;
            } else {
                pos = end + 1;
            }
        }
        Ok(current)
    }
}

impl<'a> Exlex<'a> {
    /// The value of property `key` of the section a dotted path names.
    pub fn get_property(&self, key: &str, section: &str) -> (r: Result<&'a str>)
        ensures
            str_result(r) == spec_path_property(self@, key.spec_bytes(), section.spec_bytes()),
    {
        let id = self.resolve(section.as_bytes())?;
        self.property_at(key.as_bytes(), id)
    }

    /// The value of property `key` of the section reached by walking `path`
    /// from the root.
    pub fn get_nested_property(&self, path: &[&str], key: &str) -> (r: Result<&'a str>)
        ensures
            str_result(r) == match spec_walk(self@, bytes_of(path@), 0) {
                Ok(s) => spec_property(self@, key.spec_bytes(), s),
                Err(e) => Err(e),
            },
    {
        proof {
            use_type_invariant(self);
        }
        let root = self.get_root();
        let section = self.get_child_path(path, root)?;
        self.get_section_property(key, section)
    }

    /// The value of property `key` of `section`, converted with `FromStr`;
    /// `MalformedLiteral` when the conversion fails.
    pub fn get_property_as<T: core::str::FromStr>(&self, key: &str, section: ExlexSection) -> (r:
        Result<T>)
        ensures
            spec_property(self@, key.spec_bytes(), section.0 as int) matches Err(e) ==> r == Err::<
                T,
                ExlexError,
            >(e),
            spec_property(self@, key.spec_bytes(), section.0 as int) is Ok ==> (r is Ok || r
                == Err::<T, ExlexError>(not_found(ErrorCode::MalformedLiteral))),
    {
        let val_str = self.get_section_property(key, section)?;
        typed_result(parse_value::<T>(val_str))
    }

    /// The name of section `id`.
    pub fn get_section_by_id(&self, id: usize) -> (r: &'a str)
        requires
            id < self@.sections.len(),
        ensures
            r.spec_bytes() == self@.sections[id as int],
    {
        self.sections[id]
    }

    /// The keys of the properties of the section a dotted path names, in
    /// document order.
    pub fn get_properties(&self, section: &str) -> (r: Result<Vec<&'a str>>)
        ensures
            match spec_resolve(self@, section.spec_bytes()) {
                Ok(s) => r is Ok && bytes_of(r.unwrap()@) == self@.keys.subrange(
                    self@.prop_tracker[s],
                    self@.prop_tracker[s + 1],
                ),
                Err(e) => r == Err::<Vec<&'a str>, ExlexError>(e),
            },
    {
        proof {
            use_type_invariant(self);
        }
        let id = self.resolve(section.as_bytes())?;
        let n = self.sections.len();
        proof {
            assert(self@.prop_tracker[id as int] <= self@.prop_tracker[id + 1]);
            assert(self@.prop_tracker[id + 1] <= self@.prop_tracker[n as int]);
        }
        let start = self.properties_tracker[id];
        let end = self.properties_tracker[id + 1];
        let mut out: Vec<&'a str> = Vec::new();
        let mut i = start;
        while i < end
            invariant
                start <= i <= end <= self.prop_keys@.len(),
                bytes_of(self.prop_keys@) == self@.keys,
                bytes_of(out@) == self@.keys.subrange(start as int, i as int),
            decreases end - i,
        {
            proof {
                lemma_bytes_of_push(out@, self.prop_keys@[i as int]);
            }
            out.push(self.prop_keys[i]);
            i += 1;
        }
        Ok(out)
    }

    /// The names of the sections directly inside the section a dotted path
    /// names (the root when `None`), in document order.
    pub fn get_sections(&self, section: Option<&str>) -> (r: Result<Vec<&'a str>>)
        ensures
            match (match section {
                Some(p) => spec_resolve(self@, p.spec_bytes()),
                None => Ok(0int),
            }) {
                Ok(s) => r is Ok && bytes_of(r.unwrap()@) == child_ids(
                    self@,
                    s,
                    self@.sections.len() as int,
                ).map_values(|i: int| self@.sections[i]),
                Err(e) => r == Err::<Vec<&'a str>, ExlexError>(e),
            },
    {
        proof {
            use_type_invariant(self);
        }
        let id = match section {
            Some(p) => self.resolve(p.as_bytes())?,
            None => 0,
        };
        let n = self.sections.len();
        let mut out: Vec<&'a str> = Vec::new();
        let mut i: usize = 0;
        while i < n
            invariant
                i <= n == self.sections@.len() == self.parent_tracker@.len(),
                bytes_of(self.sections@) == self@.sections,
                ints_of(self.parent_tracker@) == self@.parents,
                bytes_of(out@) == child_ids(self@, id as int, i as int).map_values(
                    |k: int| self@.sections[k],
                ),
            decreases n - i,
        {
            let ghost before = child_ids(self@, id as int, i as int);
            if i >= 1 && self.parent_tracker[i] == id {
                proof {
                    lemma_bytes_of_push(out@, self.sections@[i as int]);
                    assert(child_ids(self@, id as int, i + 1) == before.push(i as int));
                    assert(before.push(i as int).map_values(|k: int| self@.sections[k])
                        =~= before.map_values(|k: int| self@.sections[k]).push(
                        self@.sections[i as int],
                    ));
                }
                out.push(self.sections[i]);
            } else {
                proof {
                    assert(child_ids(self@, id as int, i + 1) =~= before);
                }
            }
            i += 1;
        }
        Ok(out)
    }

    /// The ids of all sections named `name`, in document order.
    pub fn get_section_ids(&self, name: &str) -> (r: Vec<usize>)
        ensures
            ints_of(r@) == ids_named(self@, name.spec_bytes(), self@.sections.len() as int),
    {
        proof {
            use_type_invariant(self);
        }
        let bytes = name.as_bytes();
        let h = hash_bytes(bytes);
        let n = self.sections.len();
        let mut out: Vec<usize> = Vec::new();
        let mut i: usize = 0;
        while i < n
            invariant
                i <= n == self.sections@.len() == self.sections_hash@.len(),
                bytes_of(self.sections@) == self@.sections,
                forall|k: int|
                    0 <= k < self.sections@.len() ==> #[trigger] self.sections_hash@[k] == spec_hash(
                        self.sections@[k].spec_bytes(),
                    ),
                h == spec_hash(bytes@),
                bytes@ == name.spec_bytes(),
                ints_of(out@) == ids_named(self@, name.spec_bytes(), i as int),
            decreases n - i,
        {
            let ghost before = ids_named(self@, name.spec_bytes(), i as int);
            if self.sections_hash[i] == h && bytes_eq(self.sections[i].as_bytes(), bytes) {
                proof {
                    lemma_ints_of_push(out@, i);
                }
                out.push(i);
            } else {
                proof {
                    assert(ids_named(self@, name.spec_bytes(), i + 1) =~= before);
                }
            }
            i += 1;
        }
        out
    }

    /// The value of the first property named `key` anywhere in the document.
    pub fn query_property(&self, key: &str) -> (r: Result<&'a str>)
        ensures
            str_result(r) == match first_match(self@.keys, key.spec_bytes(), 0, self@.keys.len() as int) {
                Some(i) => Ok(self@.values[i]),
                None => Err(not_found(ErrorCode::PropertyNotFound)),
            },
    {
        proof {
            use_type_invariant(self);
        }
        let bytes = key.as_bytes();
        let h = hash_bytes(bytes);
        let n = self.prop_keys.len();
        match find_name(&self.prop_keys, &self.properties_hash, bytes, h, 0, n) {
            Some(i) => {
                proof {
                    lemma_first_match_bounds(self@.keys, bytes@, 0, n as int);
                }
                Ok(self.prop_values[i])
            },
            None => Err(ExlexError { code: ErrorCode::PropertyNotFound, index: usize::MAX }),
        }
    }
}

/// A typed read once its text has been converted: the value, or
/// `MalformedLiteral` when the conversion failed.
pub fn typed_result<T>(parsed: Option<T>) -> (r: Result<T>)
    ensures
        match parsed {
            Some(v) => r == Ok::<T, ExlexError>(v),
            None => r == Err::<T, ExlexError>(not_found(ErrorCode::MalformedLiteral)),
        },
{
    match parsed {
        Some(v) => Ok(v),
        None => Err(ExlexError { code: ErrorCode::MalformedLiteral, index: usize::MAX }),
    }
}

// ─── What the mutator reads of a document ──────────────────────────────────

impl<'a> Exlex<'a> {
    /// The numbers of sections and of properties; the document is well formed.
    pub(crate) fn counts(&self) -> (r: (usize, usize))
        ensures
            r.0 == self@.sections.len(),
            r.1 == self@.keys.len(),
            wf_doc(self@),
            doc_utf8(self@),
    {
        proof {
            use_type_invariant(self);
        }
        (self.sections.len(), self.prop_keys.len())
    }

    /// The parent of each section, as the document has it.
    pub(crate) fn parents(&self) -> (r: Vec<usize>)
        ensures
            ints_of(r@) == self@.parents,
    {
        self.parent_tracker.clone()
    }

    pub(crate) fn key_at(&self, i: usize) -> (r: &'a str)
        requires
            i < self@.keys.len(),
        ensures
            r.spec_bytes() == self@.keys[i as int],
    {
        self.prop_keys[i]
    }

    pub(crate) fn value_at(&self, i: usize) -> (r: &'a str)
        requires
            i < self@.values.len(),
        ensures
            r.spec_bytes() == self@.values[i as int],
    {
        self.prop_values[i]
    }

    pub(crate) fn key_hash_at(&self, i: usize) -> (r: u64)
        requires
            i < self@.keys.len(),
        ensures
            r == spec_hash(self@.keys[i as int]),
    {
        proof {
            use_type_invariant(self);
        }
        self.properties_hash[i]
    }

    /// Whether section `i` is named `name` (whose hash is `h`).
    pub(crate) fn section_is(&self, i: usize, name: &[u8], h: u64) -> (r: bool)
        requires
            i < self@.sections.len(),
            h == spec_hash(name@),
        ensures
            r == (self@.sections[i as int] == name@),
    {
        proof {
            use_type_invariant(self);
        }
        self.sections_hash[i] == h && bytes_eq(self.sections[i].as_bytes(), name)
    }

    /// The properties of section `s` are those in the returned range.
    pub(crate) fn prop_range(&self, s: usize) -> (r: (usize, usize))
        requires
            s < self@.sections.len(),
        ensures
            r.0 == self@.prop_tracker[s as int],
            r.1 == self@.prop_tracker[s + 1],
            r.0 <= r.1 <= self@.keys.len(),
    {
        proof {
            use_type_invariant(self);
            let n = self@.sections.len() as int;
            assert(self@.prop_tracker[s as int] <= self@.prop_tracker[s + 1]);
            assert(self@.prop_tracker[s + 1] <= self@.prop_tracker[n]);
        }
        let n = self.sections.len();
        (self.properties_tracker[s], self.properties_tracker[s + 1])
    }

    /// The index of property `key` (hash `h`) among those of section `s`;
    /// `None` also for ids past the document's sections.
    pub(crate) fn key_in_section(&self, key: &[u8], h: u64, s: usize) -> (r: Option<usize>)
        requires
            h == spec_hash(key@),
        ensures
            opt_int(r) == core_key(self@, key@, s as int),
            r matches Some(i) ==> i < self@.keys.len(),
    {
        proof {
            use_type_invariant(self);
        }
        if s >= self.sections.len() {
            return None;
        }
        let (lo, hi) = self.prop_range(s);
        proof {
            lemma_first_match_bounds(self@.keys, key@, lo as int, hi as int);
        }
        match find_name(&self.prop_keys, &self.properties_hash, key, h, lo, hi) {
            Some(i) => Some(i),
            None => None,
        }
    }
}

/// The index of the property named `key` that section `s` has in the document.
pub open spec fn core_key(m: DocModel, key: Seq<u8>, s: int) -> Option<int> {
    if 0 <= s < m.sections.len() {
        first_match(m.keys, key, m.prop_tracker[s], m.prop_tracker[s + 1])
    } else {
        None
    }
}

/// An index result as an integer.
pub open spec fn opt_int(r: Option<usize>) -> Option<int> {
    match r {
        Some(i) => Some(i as int),
        None => None,
    }
}

/// The end of the piece of `path` that starts at `pos`: the next `.` or the end.
fn next_piece(path: &[u8], pos: usize) -> (end: usize)
    requires
        pos <= path@.len(),
    ensures
        pos <= end <= path@.len(),
        end < path@.len() ==> split_dots(path@.subrange(pos as int, path@.len() as int)) == seq![
            path@.subrange(pos as int, end as int),
        ] + split_dots(path@.subrange(end + 1, path@.len() as int)),
        end == path@.len() ==> split_dots(path@.subrange(pos as int, path@.len() as int)) == seq![
            path@.subrange(pos as int, end as int),
        ],
{
    let length = path.len();
    let ghost q = path@.subrange(pos as int, length as int);
    let found = find_byte(0x2eu8, &path[pos..length]);
    match found {
        Some(j) => {
            proof {
                lemma_split_dots_some(q, j as int);
                assert(q.subrange(j + 1, q.len() as int) =~= path@.subrange(pos + j + 1, length as int));
                assert(q.subrange(0, j as int) =~= path@.subrange(pos as int, pos + j));
            }
            pos + j
        },
        None => {
            proof {
                lemma_split_dots_none(q);
            }
            length
        },
    }
}

/// Splitting at the first `.` of `q`.
pub proof fn lemma_split_dots_some(q: Seq<u8>, j: int)
    requires
        0 <= j < q.len(),
        q[j] == 0x2eu8,
        forall|k: int| 0 <= k < j ==> q[k] != 0x2eu8,
    ensures
        split_dots(q) == seq![q.subrange(0, j)] + split_dots(q.subrange(j + 1, q.len() as int)),
{
    lemma_first_of_some(q, 0, j, 0x2eu8, 0x2eu8);
}

/// `q` without a `.` is a single piece.
pub proof fn lemma_split_dots_none(q: Seq<u8>)
    requires
        forall|k: int| 0 <= k < q.len() ==> q[k] != 0x2eu8,
    ensures
        split_dots(q) == seq![q],
{
    lemma_first_of_none(q, 0, 0x2eu8, 0x2eu8);
}

} // verus!
