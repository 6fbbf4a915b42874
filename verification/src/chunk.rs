//! The chunk model: one structural unit of the document, in document order,
//! together with the mathematical models the contracts are stated over.

use vstd::prelude::*;

verus! {

/// The kind of a backend-produced output value.
#[derive(Clone, Copy, PartialEq, Eq, Structural, Debug)]
pub enum OutputType {
    Typst,
    Code,
    Output,
    Message,
    Error,
}

/// The format tag of a binary image payload.
#[derive(Clone, Copy, PartialEq, Eq, Structural, Debug)]
pub enum GraphicsType {
    Png,
}

/// One typed output value produced by a backend.
#[derive(Debug, Clone, PartialEq)]
pub struct Output {
    pub data: String,
    pub ty: OutputType,
}

pub ghost struct OutputModel {
    pub data: Seq<char>,
    pub ty: OutputType,
}

impl View for Output {
    type V = OutputModel;

    open spec fn view(&self) -> OutputModel {
        OutputModel { data: self.data@, ty: self.ty }
    }
}

/// One element of a backend batch: the raw source of a code chunk and the
/// backend's typed options for it.
pub struct Input<O> {
    pub source: String,
    pub options: O,
}

/// A binary image payload with its format tag.
#[derive(Debug, PartialEq)]
pub struct GraphicsChunk {
    pub data: Vec<u8>,
    pub ty: GraphicsType,
}

pub ghost struct GraphicsModel {
    pub data: Seq<u8>,
    pub ty: GraphicsType,
}

impl View for GraphicsChunk {
    type V = GraphicsModel;

    open spec fn view(&self) -> GraphicsModel {
        GraphicsModel { data: self.data@, ty: self.ty }
    }
}

/// A mapping of option keys to string values; keys are unique and insertion
/// order carries no meaning, so its model is a `Map`.
#[derive(Debug, PartialEq)]
pub struct OptionMap {
    pairs: Vec<(String, String)>,
}

/// The map described by an association list, later entries overriding
/// earlier ones.
pub open spec fn assoc_map(ps: Seq<(Seq<char>, Seq<char>)>) -> Map<Seq<char>, Seq<char>>
    decreases ps.len(),
{
    if ps.len() == 0 {
        Map::empty()
    } else {
        assoc_map(ps.drop_last()).insert(ps.last().0, ps.last().1)
    }
}

impl View for OptionMap {
    type V = Map<Seq<char>, Seq<char>>;

    closed spec fn view(&self) -> Map<Seq<char>, Seq<char>> {
        assoc_map(self.pairs.deep_view())
    }
}

proof fn lemma_assoc_map_props(ps: Seq<(Seq<char>, Seq<char>)>)
    ensures
        forall|k: Seq<char>| #[trigger]
            assoc_map(ps).contains_key(k) <==> exists|i: int|
                0 <= i < ps.len() && #[trigger] ps[i].0 == k,
    decreases ps.len(),
{
    if ps.len() > 0 {
        lemma_assoc_map_props(ps.drop_last());
        assert forall|k: Seq<char>| #[trigger] assoc_map(ps).contains_key(k) implies exists|i: int|
            0 <= i < ps.len() && #[trigger] ps[i].0 == k by {
            if k == ps.last().0 {
                assert(ps[ps.len() - 1].0 == k);
            } else {
                assert(assoc_map(ps.drop_last()).contains_key(k));
                let i = choose|i: int| 0 <= i < ps.drop_last().len() && #[trigger] ps.drop_last()[i].0 == k;
                assert(ps[i].0 == k);
            }
        }
        assert forall|k: Seq<char>| (exists|i: int|
            0 <= i < ps.len() && #[trigger] ps[i].0 == k) implies #[trigger] assoc_map(
            ps,
        ).contains_key(k) by {
            let i = choose|i: int| 0 <= i < ps.len() && #[trigger] ps[i].0 == k;
            if i < ps.len() - 1 {
                assert(ps.drop_last()[i].0 == k);
                assert(assoc_map(ps.drop_last()).contains_key(k));
            } else {
                assert(ps.last().0 == k);
            }
        }
    }
}

/// If the keys of `ps` are unique, any entry's value is the map's value.
proof fn lemma_assoc_map_unique(ps: Seq<(Seq<char>, Seq<char>)>, i: int)
    requires
        forall|a: int, b: int|
            0 <= a < b < ps.len() ==> (#[trigger] ps[a]).0 != (#[trigger] ps[b]).0,
        0 <= i < ps.len(),
    ensures
        assoc_map(ps).contains_key(ps[i].0),
        assoc_map(ps)[ps[i].0] == ps[i].1,
    decreases ps.len(),
{
    if i == ps.len() - 1 {
    } else {
        assert(ps.drop_last()[i] == ps[i]);
        lemma_assoc_map_unique(ps.drop_last(), i);
        assert(ps[i].0 != ps.last().0);
    }
}

impl OptionMap {
    /// Keys occur at most once.
    #[verifier::type_invariant]
    pub closed spec fn wf(&self) -> bool {
        forall|a: int, b: int|
            0 <= a < b < self.pairs.deep_view().len() ==> (#[trigger] self.pairs.deep_view()[a]).0
                != (#[trigger] self.pairs.deep_view()[b]).0
    }

    /// The empty mapping.
    pub fn new() -> (r: OptionMap)
        ensures
            r@ == Map::<Seq<char>, Seq<char>>::empty(),
    {
        let r = OptionMap { pairs: Vec::new() };
        proof {
            assert(r.pairs.deep_view() =~~= Seq::<(Seq<char>, Seq<char>)>::empty());
        }
        r
    }

    /// The position of `key` among the pairs, if present.
    fn position_of(&self, key: &String) -> (r: Option<usize>)
        ensures
            match r {
                Some(i) => i < self.pairs@.len() && self.pairs.deep_view()[i as int].0 == key@,
                None => forall|i: int|
                    0 <= i < self.pairs.deep_view().len() ==> (#[trigger] self.pairs.deep_view()[i]).0
                        != key@,
            },
    {
        let mut i: usize = 0;
        while i < self.pairs.len()
            invariant
                i <= self.pairs@.len(),
                forall|j: int|
                    0 <= j < i ==> (#[trigger] self.pairs.deep_view()[j]).0 != key@,
            decreases self.pairs@.len() - i,
        {
            if self.pairs[i].0.eq(key) {
                proof {
                    assert(self.pairs.deep_view()[i as int].0 == self.pairs@[i as int].0@);
                }
                return Some(i);
            }
            proof {
                assert(self.pairs.deep_view()[i as int].0 == self.pairs@[i as int].0@);
            }
            i = i + 1;
        }
        None
    }

    /// The mapping with `key` bound to `value`, replacing any earlier
    /// binding.
    pub fn insert(self, key: String, value: String) -> (r: OptionMap)
        ensures
            r@ == self@.insert(key@, value@),
    {
        proof {
            use_type_invariant(&self);
        }
        let pos = self.position_of(&key);
        let OptionMap { mut pairs } = self;
        let ghost ops = pairs.deep_view();
        match pos {
            Some(i) => {
                let ghost kv = (key@, value@);
                pairs.set(i, (key, value));
                proof {
                    assert(pairs.deep_view() =~~= ops.update(i as int, kv));
                    lemma_assoc_map_update(ops, i as int, kv.1);
                }
            },
            None => {
                pairs.push((key, value));
                proof {
                    assert(pairs.deep_view() =~~= ops.push((key@, value@)));
                    assert(pairs.deep_view().drop_last() =~~= ops);
                }
            },
        }
        OptionMap { pairs }
    }

    /// A copy with the same bindings.
    pub fn duplicate(&self) -> (r: OptionMap)
        ensures
            r@ == self@,
    {
        proof {
            use_type_invariant(self);
        }
        let mut pairs: Vec<(String, String)> = Vec::new();
        let mut i: usize = 0;
        while i < self.pairs.len()
            invariant
                i <= self.pairs@.len(),
                pairs.deep_view() == self.pairs.deep_view().subrange(0, i as int),
                self.pairs@.len() == self.pairs.deep_view().len(),
            decreases self.pairs@.len() - i,
        {
            let ghost old_pairs = pairs.deep_view();
            pairs.push((self.pairs[i].0.clone(), self.pairs[i].1.clone()));
            i = i + 1;
            proof {
                assert(self.pairs.deep_view()[i - 1] == (
                    self.pairs@[i - 1].0@,
                    self.pairs@[i - 1].1@,
                ));
                assert(pairs.deep_view() =~~= old_pairs + seq![self.pairs.deep_view()[i - 1]]);
                assert(pairs.deep_view() =~~= self.pairs.deep_view().subrange(0, i as int));
            }
        }
        proof {
            assert(pairs.deep_view() =~~= self.pairs.deep_view());
        }
        OptionMap { pairs }
    }

    /// The value bound to `key`, if any.
    pub fn get(&self, key: &String) -> (r: Option<&String>)
        ensures
            match r {
                Some(v) => self@.contains_key(key@) && v@ == self@[key@],
                None => !self@.contains_key(key@),
            },
    {
        proof {
            use_type_invariant(self);
        }
        let pos = self.position_of(key);
        match pos {
            Some(i) => {
                proof {
                    lemma_assoc_map_unique(self.pairs.deep_view(), i as int);
                }
                Some(&self.pairs[i].1)
            },
            None => {
                proof {
                    lemma_assoc_map_props(self.pairs.deep_view());
                }
                None
            },
        }
    }
}

/// Updating an entry in place, when keys are unique, is a map insert.
proof fn lemma_assoc_map_update(ps: Seq<(Seq<char>, Seq<char>)>, i: int, v: Seq<char>)
    requires
        forall|a: int, b: int|
            0 <= a < b < ps.len() ==> (#[trigger] ps[a]).0 != (#[trigger] ps[b]).0,
        0 <= i < ps.len(),
    ensures
        assoc_map(ps.update(i, (ps[i].0, v))) =~= assoc_map(ps).insert(ps[i].0, v),
        forall|a: int, b: int|
            0 <= a < b < ps.update(i, (ps[i].0, v)).len() ==> (#[trigger] ps.update(
                i,
                (ps[i].0, v),
            )[a]).0 != (#[trigger] ps.update(i, (ps[i].0, v))[b]).0,
    decreases ps.len(),
{
    let up = ps.update(i, (ps[i].0, v));
    if i == ps.len() - 1 {
        assert(up.drop_last() =~~= ps.drop_last());
        assert(up.last() == (ps[i].0, v));
        assert(assoc_map(up) == assoc_map(ps.drop_last()).insert(ps[i].0, v));
        assert(assoc_map(ps.drop_last()).insert(ps[i].0, v) =~= assoc_map(ps.drop_last()).insert(
            ps.last().0,
            ps.last().1,
        ).insert(ps[i].0, v));
    } else {
        assert(up.drop_last() =~~= ps.drop_last().update(i, (ps[i].0, v)));
        assert(ps.drop_last()[i] == ps[i]);
        lemma_assoc_map_update(ps.drop_last(), i, v);
        assert(up.last() == ps.last());
        assert(assoc_map(up) == assoc_map(ps.drop_last().update(i, (ps[i].0, v))).insert(
            ps.last().0,
            ps.last().1,
        ));
        assert(ps[i].0 != ps.last().0);
        assert(assoc_map(ps.drop_last()).insert(ps[i].0, v).insert(ps.last().0, ps.last().1)
            =~= assoc_map(ps.drop_last()).insert(ps.last().0, ps.last().1).insert(ps[i].0, v));
    }
}

/// The truthy option value tokens; every other value is falsy.
pub open spec fn truthy(v: Seq<char>) -> bool {
    v == "true"@ || v == "1"@ || v == "yes"@
}

/// One coerced boolean option: absent keys stay unset, present values are
/// coerced by the truthy tokens, never rejected.
pub open spec fn opt_truthy(m: Map<Seq<char>, Seq<char>>, key: Seq<char>) -> Option<bool> {
    if m.contains_key(key) {
        Some(truthy(m[key]))
    } else {
        None
    }
}

/// A fenced code block: its language tag, its option mapping and the raw
/// code text.
#[derive(Debug, PartialEq)]
pub struct CodeChunk {
    pub lang: String,
    pub options: OptionMap,
    pub code: String,
}

pub ghost struct CodeModel {
    pub lang: Seq<char>,
    pub options: Map<Seq<char>, Seq<char>>,
    pub code: Seq<char>,
}

impl View for CodeChunk {
    type V = CodeModel;

    open spec fn view(&self) -> CodeModel {
        CodeModel { lang: self.lang@, options: self.options@, code: self.code@ }
    }
}

/// One structural unit of the document, in document order.
#[derive(Debug, PartialEq)]
pub enum Chunk {
    Verbatim(String),
    Code(CodeChunk),
    Output(Output),
    Message(String),
    Error(String),
    Graphics(GraphicsChunk),
}

pub ghost enum ChunkModel {
    Verbatim(Seq<char>),
    Code(CodeModel),
    Output(OutputModel),
    Message(Seq<char>),
    Error(Seq<char>),
    Graphics(GraphicsModel),
}

impl View for Chunk {
    type V = ChunkModel;

    open spec fn view(&self) -> ChunkModel {
        match self {
            Chunk::Verbatim(s) => ChunkModel::Verbatim(s@),
            Chunk::Code(c) => ChunkModel::Code(c@),
            Chunk::Output(o) => ChunkModel::Output(o@),
            Chunk::Message(s) => ChunkModel::Message(s@),
            Chunk::Error(s) => ChunkModel::Error(s@),
            Chunk::Graphics(g) => ChunkModel::Graphics(g@),
        }
    }
}

/// The models of a sequence of chunks.
pub open spec fn chunk_seq_view(cs: Seq<Chunk>) -> Seq<ChunkModel> {
    cs.map_values(|c: Chunk| c@)
}

/// The models of a sequence of code chunks.
pub open spec fn code_views(cs: Seq<CodeChunk>) -> Seq<CodeModel> {
    cs.map_values(|c: CodeChunk| c@)
}

impl CodeChunk {
    /// A copy with the same language, options and code.
    pub fn duplicate(&self) -> (r: CodeChunk)
        ensures
            r@ == self@,
    {
        CodeChunk {
            lang: self.lang.clone(),
            options: self.options.duplicate(),
            code: self.code.clone(),
        }
    }
}

/// A backend's result for one input code chunk: an ordered list of error
/// texts and an ordered list of typed outputs.
#[derive(Debug, PartialEq)]
pub struct CodeOutput {
    pub errors: Vec<String>,
    pub outputs: Vec<Output>,
}

pub ghost struct CodeOutputModel {
    pub errors: Seq<Seq<char>>,
    pub outputs: Seq<OutputModel>,
}

impl View for CodeOutput {
    type V = CodeOutputModel;

    open spec fn view(&self) -> CodeOutputModel {
        CodeOutputModel {
            errors: self.errors.deep_view(),
            outputs: Seq::new(self.outputs@.len(), |i: int| self.outputs@[i]@),
        }
    }
}

/// The models of a sequence of backend results.
pub open spec fn co_views(cs: Seq<CodeOutput>) -> Seq<CodeOutputModel> {
    cs.map_values(|c: CodeOutput| c@)
}

} // verus!
