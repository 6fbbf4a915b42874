//! The dispatch/reassembly engine: groups the document's code chunks by
//! language in stable order, submits each group as one batch to its
//! language's backend (or synthesizes a pass-through result for a language
//! with no registered backend), and re-threads the results back into the
//! original chunk order through one first-in-first-out queue per language.

use vstd::prelude::*;
use crate::chunk::Chunk;
use crate::chunk::ChunkModel;
use crate::chunk::CodeChunk;
use crate::chunk::CodeModel;
use crate::chunk::CodeOutput;
use crate::chunk::CodeOutputModel;
use crate::chunk::Input;
use crate::chunk::OptionMap;
use crate::chunk::Output;
use crate::chunk::OutputModel;
use crate::chunk::OutputType;
use crate::chunk::chunk_seq_view;
use crate::chunk::co_views;
use crate::chunk::code_views;

verus! {

/// A batch-level failure of a backend.
#[derive(Debug)]
pub enum Error<E> {
    BackendError(E),
}

/// The chunk a typed backend output maps to when it re-enters the document.
pub open spec fn chunk_of_output(lang: Seq<char>, o: OutputModel) -> ChunkModel {
    match o.ty {
        OutputType::Typst => ChunkModel::Verbatim(o.data),
        OutputType::Code => ChunkModel::Code(
            CodeModel { lang, options: Map::empty(), code: o.data },
        ),
        OutputType::Output => ChunkModel::Output(o),
        OutputType::Message => ChunkModel::Message(o.data),
        OutputType::Error => ChunkModel::Error(o.data),
    }
}

/// What one backend result expands to in the document: its errors as error
/// chunks, then each typed output as its chunk, in order.
pub open spec fn expansion(lang: Seq<char>, co: CodeOutputModel) -> Seq<ChunkModel> {
    co.errors.map_values(|e: Seq<char>| ChunkModel::Error(e)) + co.outputs.map_values(
        |o: OutputModel| chunk_of_output(lang, o),
    )
}

/// The number of code chunks with language `lang` among the first `i`
/// chunks of the document.
pub open spec fn code_count(doc: Seq<ChunkModel>, lang: Seq<char>, i: int) -> int
    decreases i,
{
    if i <= 0 {
        0
    } else {
        code_count(doc, lang, i - 1) + if doc[i - 1] is Code && doc[i - 1]->Code_0.lang == lang {
            1int
        } else {
            0int
        }
    }
}

/// The code chunks of one language, in document order.
pub open spec fn batch_of(doc: Seq<ChunkModel>, lang: Seq<char>) -> Seq<CodeModel>
    decreases doc.len(),
{
    if doc.len() == 0 {
        Seq::empty()
    } else {
        let rest = batch_of(doc.drop_last(), lang);
        if doc.last() is Code && doc.last()->Code_0.lang == lang {
            rest.push(doc.last()->Code_0)
        } else {
            rest
        }
    }
}

/// The languages of the document's code chunks, in order of first
/// appearance.
pub open spec fn langs_of(doc: Seq<ChunkModel>) -> Seq<Seq<char>>
    decreases doc.len(),
{
    if doc.len() == 0 {
        Seq::empty()
    } else {
        let rest = langs_of(doc.drop_last());
        if doc.last() is Code && !rest.contains(doc.last()->Code_0.lang) {
            rest.push(doc.last()->Code_0.lang)
        } else {
            rest
        }
    }
}

pub proof fn lemma_langs_of_unique(doc: Seq<ChunkModel>)
    ensures
        forall|a: int, b: int|
            0 <= a < b < langs_of(doc).len() ==> langs_of(doc)[a] != langs_of(doc)[b],
    decreases doc.len(),
{
    if doc.len() > 0 {
        lemma_langs_of_unique(doc.drop_last());
        let rest = langs_of(doc.drop_last());
        if doc.last() is Code && !rest.contains(doc.last()->Code_0.lang) {
            assert forall|a: int, b: int|
                0 <= a < b < langs_of(doc).len() implies langs_of(doc)[a] != langs_of(doc)[b] by {
                if b == langs_of(doc).len() - 1 {
                    assert(rest.contains(rest[a])) by {
                        assert(rest[a] == rest[a]);
                    }
                }
            }
        }
    }
}

/// Counting code chunks over a prefix does not depend on the rest of the
/// document.
pub proof fn lemma_code_count_prefix(doc: Seq<ChunkModel>, lang: Seq<char>, i: int)
    requires
        0 <= i < doc.len(),
    ensures
        code_count(doc.drop_last(), lang, i) == code_count(doc, lang, i),
    decreases i,
{
    if i > 0 {
        lemma_code_count_prefix(doc, lang, i - 1);
        assert(doc.drop_last()[i - 1] == doc[i - 1]);
    }
}

/// The batch of a prefix has as many elements as the prefix has code chunks
/// of that language.
pub proof fn lemma_code_count_batch(doc: Seq<ChunkModel>, lang: Seq<char>)
    ensures
        code_count(doc, lang, doc.len() as int) == batch_of(doc, lang).len(),
    decreases doc.len(),
{
    if doc.len() > 0 {
        lemma_code_count_batch(doc.drop_last(), lang);
        lemma_code_count_prefix(doc, lang, doc.len() - 1);
        assert(doc[doc.len() - 1] == doc.last());
    }
}

/// The position of a code chunk's result in its language's queue: the k-th
/// code chunk of a language, counting from the front of the document, is
/// matched with element k of that language's batch.
pub proof fn lemma_batch_index(doc: Seq<ChunkModel>, lang: Seq<char>, i: int)
    requires
        0 <= i < doc.len(),
        doc[i] is Code,
        doc[i]->Code_0.lang == lang,
    ensures
        0 <= code_count(doc, lang, i) < batch_of(doc, lang).len(),
        batch_of(doc, lang)[code_count(doc, lang, i)] == doc[i]->Code_0,
    decreases doc.len(),
{
    lemma_code_count_lower(doc, lang, i);
    if i == doc.len() - 1 {
        lemma_code_count_batch(doc.drop_last(), lang);
        lemma_code_count_prefix(doc, lang, i);
        assert(doc.last() == doc[i]);
        assert(batch_of(doc, lang) == batch_of(doc.drop_last(), lang).push(doc[i]->Code_0));
    } else {
        assert(doc.drop_last()[i] == doc[i]);
        lemma_batch_index(doc.drop_last(), lang, i);
        lemma_code_count_prefix(doc, lang, i);
        let k = code_count(doc, lang, i);
        if doc.last() is Code && doc.last()->Code_0.lang == lang {
            assert(batch_of(doc, lang)[k] == batch_of(doc.drop_last(), lang)[k]);
        }
    }
}

proof fn lemma_code_count_lower(doc: Seq<ChunkModel>, lang: Seq<char>, i: int)
    requires
        0 <= i,
    ensures
        code_count(doc, lang, i) >= 0,
    decreases i,
{
    if i > 0 {
        lemma_code_count_lower(doc, lang, i - 1);
    }
}

/// What chunk `i` contributes to the reassembled document: a non-code chunk
/// passes through untouched; a code chunk is replaced by the expansion of
/// the next pending result of its language — matched strictly by position
/// in that language's queue — or by nothing when no result is pending.
pub open spec fn piece_at(
    doc: Seq<ChunkModel>,
    results: Map<Seq<char>, Seq<CodeOutputModel>>,
    i: int,
) -> Seq<ChunkModel> {
    match doc[i] {
        ChunkModel::Code(cm) => {
            let k = code_count(doc, cm.lang, i);
            if results.contains_key(cm.lang) && k < results[cm.lang].len() {
                expansion(cm.lang, results[cm.lang][k])
            } else {
                Seq::empty()
            }
        },
        _ => seq![doc[i]],
    }
}

/// The concatenation of a sequence of chunk sequences.
pub open spec fn concat_chunks(ss: Seq<Seq<ChunkModel>>) -> Seq<ChunkModel>
    decreases ss.len(),
{
    if ss.len() == 0 {
        Seq::empty()
    } else {
        ss[0] + concat_chunks(ss.skip(1))
    }
}

pub proof fn lemma_concat_chunks_push(ss: Seq<Seq<ChunkModel>>, x: Seq<ChunkModel>)
    ensures
        concat_chunks(ss.push(x)) == concat_chunks(ss) + x,
    decreases ss.len(),
{
    if ss.len() == 0 {
        assert(ss.push(x)[0] == x);
        assert(ss.push(x).skip(1) =~~= Seq::<Seq<ChunkModel>>::empty());
        assert(concat_chunks(ss.push(x)) == x + concat_chunks(Seq::<Seq<ChunkModel>>::empty()));
        assert(x + Seq::<ChunkModel>::empty() =~= x);
        assert(concat_chunks(ss) + x =~= x);
    } else {
        assert(ss.push(x).skip(1) =~~= ss.skip(1).push(x));
        lemma_concat_chunks_push(ss.skip(1), x);
        assert(ss.push(x)[0] == ss[0]);
        assert(concat_chunks(ss.push(x)) == ss[0] + (concat_chunks(ss.skip(1)) + x));
        assert(ss[0] + (concat_chunks(ss.skip(1)) + x) =~= (ss[0] + concat_chunks(ss.skip(1)))
            + x);
    }
}

/// The reassembled document: each chunk's piece, in the original order.
pub open spec fn reassembled(
    doc: Seq<ChunkModel>,
    results: Map<Seq<char>, Seq<CodeOutputModel>>,
) -> Seq<ChunkModel> {
    concat_chunks(Seq::new(doc.len(), |i: int| piece_at(doc, results, i)))
}

/// The pass-through result synthesized for a language with no registered
/// backend: each chunk echoes its own code, with no errors.
pub open spec fn noop_outputs_spec(batch: Seq<CodeModel>) -> Seq<CodeOutputModel> {
    batch.map_values(
        |c: CodeModel| CodeOutputModel {
            errors: Seq::empty(),
            outputs: seq![OutputModel { data: c.code, ty: OutputType::Code }],
        },
    )
}

/// Synthesizes the pass-through result for one batch.
pub fn noop_outputs(batch: &Vec<CodeChunk>) -> (r: Vec<CodeOutput>)
    ensures
        co_views(r@) == noop_outputs_spec(code_views(batch@)),
{
    let ghost target = noop_outputs_spec(code_views(batch@));
    let mut r: Vec<CodeOutput> = Vec::new();
    let mut i: usize = 0;
    proof {
        assert(co_views(r@) =~~= target.subrange(0, 0));
    }
    while i < batch.len()
        invariant
            i <= batch@.len(),
            target == noop_outputs_spec(code_views(batch@)),
            target.len() == batch@.len(),
            co_views(r@) == target.subrange(0, i as int),
        decreases batch@.len() - i,
    {
        let ghost old_r = co_views(r@);
        let co = CodeOutput {
            errors: Vec::new(),
            outputs: vec![Output { data: batch[i].code.clone(), ty: OutputType::Code }],
        };
        proof {
            assert(code_views(batch@)[i as int] == batch@[i as int]@);
            assert(co@.errors =~~= Seq::<Seq<char>>::empty());
            assert(co@.outputs =~~= seq![
                OutputModel { data: batch@[i as int].code@, ty: OutputType::Code },
            ]);
            assert(co@ == target[i as int]);
        }
        r.push(co);
        i = i + 1;
        proof {
            assert(co_views(r@) =~~= old_r + seq![target[i - 1]]);
            assert(co_views(r@) =~~= target.subrange(0, i as int));
        }
    }
    proof {
        assert(target.subrange(0, target.len() as int) =~= target);
    }
    r
}

/// No code chunk of a language means an empty batch for it.
pub proof fn lemma_batch_empty_without_lang(doc: Seq<ChunkModel>, lang: Seq<char>)
    requires
        !langs_of(doc).contains(lang),
    ensures
        batch_of(doc, lang) == Seq::<CodeModel>::empty(),
    decreases doc.len(),
{
    if doc.len() > 0 {
        let rest = langs_of(doc.drop_last());
        assert(!rest.contains(lang)) by {
            if rest.contains(lang) {
                let j = choose|j: int| 0 <= j < rest.len() && rest[j] == lang;
                assert(langs_of(doc)[j] == lang);
            }
        }
        lemma_batch_empty_without_lang(doc.drop_last(), lang);
        if doc.last() is Code && doc.last()->Code_0.lang == lang {
            if rest.contains(lang) {
            } else {
                assert(langs_of(doc).last() == lang);
            }
        }
    }
}

/// Counting never exceeds the number of chunks counted over.
pub proof fn lemma_code_count_upper(doc: Seq<ChunkModel>, lang: Seq<char>, i: int)
    requires
        0 <= i,
    ensures
        code_count(doc, lang, i) <= i,
    decreases i,
{
    if i > 0 {
        lemma_code_count_upper(doc, lang, i - 1);
    }
}

/// Groups the document's code chunks by language: languages in order of
/// first appearance, each with its code chunks in document order.
pub fn collect_batches(chunks: &Vec<Chunk>) -> (r: Vec<(String, Vec<CodeChunk>)>)
    ensures
        r@.len() == langs_of(chunk_seq_view(chunks@)).len(),
        forall|j: int|
            0 <= j < r@.len() ==> (#[trigger] r@[j]).0@ == langs_of(chunk_seq_view(chunks@))[j],
        forall|j: int|
            0 <= j < r@.len() ==> code_views((#[trigger] r@[j]).1@) == batch_of(
                chunk_seq_view(chunks@),
                langs_of(chunk_seq_view(chunks@))[j],
            ),
{
    let ghost doc = chunk_seq_view(chunks@);
    let mut r: Vec<(String, Vec<CodeChunk>)> = Vec::new();
    let mut i: usize = 0;
    while i < chunks.len()
        invariant
            i <= chunks@.len(),
            doc == chunk_seq_view(chunks@),
            doc.len() == chunks@.len(),
            r@.len() == langs_of(doc.take(i as int)).len(),
            forall|j: int|
                0 <= j < r@.len() ==> (#[trigger] r@[j]).0@ == langs_of(doc.take(i as int))[j],
            forall|j: int|
                0 <= j < r@.len() ==> code_views((#[trigger] r@[j]).1@) == batch_of(
                    doc.take(i as int),
                    langs_of(doc.take(i as int))[j],
                ),
        decreases chunks@.len() - i,
    {
        let ghost pre = doc.take(i as int);
        let ghost post = doc.take(i + 1);
        proof {
            assert(post.drop_last() =~~= pre);
            assert(post.last() == doc[i as int]);
            assert(doc[i as int] == chunks@[i as int]@);
        }
        match &chunks[i] {
            Chunk::Code(cc) => {
                let ghost lang = cc.lang@;
                let qi = find_lang(&r, &cc.lang);
                match qi {
                    Some(j) => {
                        proof {
                            assert(langs_of(pre)[j as int] == lang);
                            assert(langs_of(pre).contains(lang)) by {
                                assert(langs_of(pre)[j as int] == lang);
                            }
                            assert(langs_of(post) == langs_of(pre));
                        }
                        let ghost old_r = r@;
                        let mut entry = r.remove(j);
                        entry.1.push(cc.duplicate());
                        r.insert(j, entry);
                        proof {
                            assert(r@ =~= old_r.update(
                                j as int,
                                (old_r[j as int].0, r@[j as int].1),
                            ));
                            assert(code_views(r@[j as int].1@) =~~= code_views(
                                old_r[j as int].1@,
                            ).push(doc[i as int]->Code_0));
                            assert forall|jj: int| 0 <= jj < r@.len() implies code_views(
                                (#[trigger] r@[jj]).1@,
                            ) == batch_of(post, langs_of(post)[jj]) by {
                                if jj == j as int {
                                    assert(batch_of(post, lang) == batch_of(pre, lang).push(
                                        doc[i as int]->Code_0,
                                    ));
                                } else {
                                    assert(r@[jj] == old_r[jj]);
                                    assert(langs_of(pre)[jj] != lang) by {
                                        lemma_langs_of_unique(pre);
                                        if langs_of(pre)[jj] == lang {
                                            assert(langs_of(pre)[j as int] == langs_of(pre)[jj]);
                                        }
                                    }
                                    assert(batch_of(post, langs_of(post)[jj]) == batch_of(
                                        pre,
                                        langs_of(pre)[jj],
                                    ));
                                }
                            }
                        }
                    },
                    None => {
                        proof {
                            assert(!langs_of(pre).contains(lang)) by {
                                if langs_of(pre).contains(lang) {
                                    let j = choose|j: int|
                                        0 <= j < langs_of(pre).len() && langs_of(pre)[j] == lang;
                                    assert(r@[j].0@ == lang);
                                }
                            }
                            assert(langs_of(post) == langs_of(pre).push(lang));
                            lemma_batch_empty_without_lang(pre, lang);
                        }
                        let ghost old_r = r@;
                        let mut batch: Vec<CodeChunk> = Vec::new();
                        batch.push(cc.duplicate());
                        r.push((cc.lang.clone(), batch));
                        proof {
                            assert(r@ =~= old_r.push(r@[r@.len() - 1]));
                            assert(code_views(r@[r@.len() - 1].1@) =~~= Seq::<
                                CodeModel,
                            >::empty().push(doc[i as int]->Code_0));
                            assert(batch_of(post, lang) == batch_of(pre, lang).push(
                                doc[i as int]->Code_0,
                            ));
                            assert(Seq::<CodeModel>::empty().push(doc[i as int]->Code_0)
                                =~~= batch_of(post, lang));
                            assert forall|jj: int| 0 <= jj < r@.len() implies code_views(
                                (#[trigger] r@[jj]).1@,
                            ) == batch_of(post, langs_of(post)[jj]) by {
                                if jj < r@.len() - 1 {
                                    assert(r@[jj] == old_r[jj]);
                                    assert(langs_of(post)[jj] == langs_of(pre)[jj]);
                                    assert(batch_of(post, langs_of(post)[jj]) == batch_of(
                                        pre,
                                        langs_of(pre)[jj],
                                    ));
                                }
                            }
                        }
                    },
                }
            },
            _ => {
                proof {
                    assert(!(doc[i as int] is Code));
                    assert(langs_of(post) == langs_of(pre));
                    assert(forall|jj: int|
                        0 <= jj < r@.len() ==> batch_of(post, langs_of(post)[jj]) == batch_of(
                            pre,
                            #[trigger] langs_of(pre)[jj],
                        ));
                }
            },
        }
        i = i + 1;
    }
    proof {
        assert(doc.take(doc.len() as int) =~~= doc);
    }
    r
}

/// The position of a language's entry among the batches, if present.
fn find_lang(r: &Vec<(String, Vec<CodeChunk>)>, lang: &String) -> (res: Option<usize>)
    ensures
        match res {
            Some(j) => j < r@.len() && r@[j as int].0@ == lang@,
            None => forall|j: int| 0 <= j < r@.len() ==> (#[trigger] r@[j]).0@ != lang@,
        },
{
    let mut j: usize = 0;
    while j < r.len()
        invariant
            j <= r@.len(),
            forall|jj: int| 0 <= jj < j ==> (#[trigger] r@[jj]).0@ != lang@,
        decreases r@.len() - j,
    {
        if r[j].0.eq(lang) {
            return Some(j);
        }
        j = j + 1;
    }
    None
}

/// The per-language queues as a map from language to pending results.
pub open spec fn results_map(rs: Seq<(String, Vec<CodeOutput>)>) -> Map<
    Seq<char>,
    Seq<CodeOutputModel>,
>
    decreases rs.len(),
{
    if rs.len() == 0 {
        Map::empty()
    } else {
        results_map(rs.drop_last()).insert(rs.last().0@, co_views(rs.last().1@))
    }
}

proof fn lemma_results_map_props(rs: Seq<(String, Vec<CodeOutput>)>)
    ensures
        forall|k: Seq<char>| #[trigger]
            results_map(rs).contains_key(k) <==> exists|j: int|
                0 <= j < rs.len() && (#[trigger] rs[j]).0@ == k,
    decreases rs.len(),
{
    if rs.len() > 0 {
        lemma_results_map_props(rs.drop_last());
        assert forall|k: Seq<char>| #[trigger] results_map(rs).contains_key(k) implies exists|
            j: int,
        | 0 <= j < rs.len() && (#[trigger] rs[j]).0@ == k by {
            if k == rs.last().0@ {
                assert(rs[rs.len() - 1].0@ == k);
            } else {
                assert(results_map(rs.drop_last()).contains_key(k));
                let j = choose|j: int|
                    0 <= j < rs.drop_last().len() && (#[trigger] rs.drop_last()[j]).0@ == k;
                assert(rs[j].0@ == k);
            }
        }
        assert forall|k: Seq<char>| (exists|j: int|
            0 <= j < rs.len() && (#[trigger] rs[j]).0@ == k) implies #[trigger] results_map(
            rs,
        ).contains_key(k) by {
            let j = choose|j: int| 0 <= j < rs.len() && (#[trigger] rs[j]).0@ == k;
            if j < rs.len() - 1 {
                assert(rs.drop_last()[j].0@ == k);
                assert(results_map(rs.drop_last()).contains_key(k));
            } else {
                assert(rs.last().0@ == k);
            }
        }
    }
}

proof fn lemma_results_map_unique(rs: Seq<(String, Vec<CodeOutput>)>, j: int)
    requires
        forall|a: int, b: int| 0 <= a < b < rs.len() ==> (#[trigger] rs[a]).0@ != (
        #[trigger] rs[b]).0@,
        0 <= j < rs.len(),
    ensures
        results_map(rs).contains_key(rs[j].0@),
        results_map(rs)[rs[j].0@] == co_views(rs[j].1@),
    decreases rs.len(),
{
    if j == rs.len() - 1 {
    } else {
        assert(rs.drop_last()[j] == rs[j]);
        lemma_results_map_unique(rs.drop_last(), j);
        assert(rs[j].0@ != rs.last().0@);
    }
}

/// The chunk one typed output becomes.
fn chunk_of_output_exec(lang: &String, o: &Output) -> (c: Chunk)
    ensures
        c@ == chunk_of_output(lang@, o@),
{
    match o.ty {
        OutputType::Typst => Chunk::Verbatim(o.data.clone()),
        OutputType::Code => Chunk::Code(
            CodeChunk { lang: lang.clone(), options: OptionMap::new(), code: o.data.clone() },
        ),
        OutputType::Output => Chunk::Output(Output { data: o.data.clone(), ty: o.ty }),
        OutputType::Message => Chunk::Message(o.data.clone()),
        OutputType::Error => Chunk::Error(o.data.clone()),
    }
}

/// Emits one backend result at the current position: its errors first, then
/// its typed outputs, each as a chunk.
fn expand_into(out: &mut Vec<Chunk>, lang: &String, co: &CodeOutput)
    ensures
        chunk_seq_view(final(out)@) == chunk_seq_view(old(out)@) + expansion(lang@, co@),
{
    let ghost target = expansion(lang@, co@);
    let ghost base = chunk_seq_view(old(out)@);
    let ghost ne = co@.errors.len() as int;
    proof {
        assert(chunk_seq_view(out@) =~~= base + target.subrange(0, 0));
    }
    let mut i: usize = 0;
    while i < co.errors.len()
        invariant
            i <= co.errors@.len(),
            target == expansion(lang@, co@),
            ne == co@.errors.len(),
            ne == co.errors@.len(),
            target.len() == ne + co@.outputs.len(),
            chunk_seq_view(out@) == base + target.subrange(0, i as int),
            base == chunk_seq_view(old(out)@),
        decreases co.errors@.len() - i,
    {
        let ghost old_view = chunk_seq_view(out@);
        let e = co.errors[i].clone();
        out.push(Chunk::Error(e));
        i = i + 1;
        proof {
            assert(co@.errors[i - 1] == co.errors@[i - 1]@);
            assert(target[i - 1] == ChunkModel::Error(co@.errors[i - 1]));
            assert(chunk_seq_view(out@) =~~= old_view + seq![target[i - 1]]);
            assert(chunk_seq_view(out@) =~~= base + target.subrange(0, i as int));
        }
    }
    let mut k: usize = 0;
    while k < co.outputs.len()
        invariant
            k <= co.outputs@.len(),
            target == expansion(lang@, co@),
            ne == co@.errors.len(),
            ne == co.errors@.len(),
            co@.outputs.len() == co.outputs@.len(),
            target.len() == ne + co@.outputs.len(),
            chunk_seq_view(out@) == base + target.subrange(0, ne + k),
            base == chunk_seq_view(old(out)@),
        decreases co.outputs@.len() - k,
    {
        let ghost old_view = chunk_seq_view(out@);
        let c = chunk_of_output_exec(lang, &co.outputs[k]);
        out.push(c);
        k = k + 1;
        proof {
            assert(co@.outputs[k - 1] == co.outputs@[k - 1]@);
            assert(target[ne + k - 1] == chunk_of_output(lang@, co@.outputs[k - 1]));
            assert(chunk_seq_view(out@) =~~= old_view + seq![target[ne + k - 1]]);
            assert(chunk_seq_view(out@) =~~= base + target.subrange(0, ne + k));
        }
    }
    proof {
        assert(target.subrange(0, target.len() as int) =~= target);
    }
}

/// The position of a language's queue, if one exists.
fn find_queue(results: &Vec<(String, Vec<CodeOutput>)>, lang: &String) -> (res: Option<usize>)
    ensures
        match res {
            Some(j) => j < results@.len() && results@[j as int].0@ == lang@,
            None => forall|j: int| 0 <= j < results@.len() ==> (#[trigger] results@[j]).0@
                != lang@,
        },
{
    let mut j: usize = 0;
    while j < results.len()
        invariant
            j <= results@.len(),
            forall|jj: int| 0 <= jj < j ==> (#[trigger] results@[jj]).0@ != lang@,
        decreases results@.len() - j,
    {
        if results[j].0.eq(lang) {
            return Some(j);
        }
        j = j + 1;
    }
    None
}

/// Walks the original chunk sequence and re-threads the backends' results
/// into it: every non-code chunk passes through untouched; every code chunk
/// pops the next pending result of its language — matched strictly by
/// position, never by content — and is replaced by that result's errors and
/// typed outputs; a code chunk whose language's queue is exhausted or
/// absent is replaced by nothing.
pub fn reassemble(chunks: Vec<Chunk>, results: Vec<(String, Vec<CodeOutput>)>) -> (out: Vec<
    Chunk,
>)
    requires
        forall|a: int, b: int|
            0 <= a < b < results@.len() ==> (#[trigger] results@[a]).0@ != (
            #[trigger] results@[b]).0@,
    ensures
        chunk_seq_view(out@) == reassembled(chunk_seq_view(chunks@), results_map(results@)),
{
    let ghost doc = chunk_seq_view(chunks@);
    let ghost m = results_map(results@);
    let mut cursors: Vec<usize> = Vec::new();
    let mut ci: usize = 0;
    while ci < results.len()
        invariant
            ci <= results@.len(),
            cursors@.len() == ci,
            forall|j: int| 0 <= j < ci ==> cursors@[j] == 0,
        decreases results@.len() - ci,
    {
        cursors.push(0);
        ci = ci + 1;
    }
    let mut rem = chunks;
    let mut out: Vec<Chunk> = Vec::new();
    let ghost mut i: int = 0;
    proof {
        assert(chunk_seq_view(rem@) =~~= doc.skip(0));
        assert(chunk_seq_view(out@) =~~= concat_chunks(
            Seq::new(0, |k: int| piece_at(doc, m, k)),
        ));
    }
    while rem.len() > 0
        invariant
            0 <= i <= doc.len(),
            i + rem@.len() == doc.len(),
            chunk_seq_view(rem@) == doc.skip(i),
            m == results_map(results@),
            forall|a: int, b: int|
                0 <= a < b < results@.len() ==> (#[trigger] results@[a]).0@ != (
                #[trigger] results@[b]).0@,
            cursors@.len() == results@.len(),
            forall|j: int|
                0 <= j < results@.len() ==> (#[trigger] cursors@[j]) as int == vstd::math::min(
                    code_count(doc, results@[j].0@, i),
                    results@[j].1@.len() as int,
                ),
            chunk_seq_view(out@) == concat_chunks(Seq::new(i as nat, |k: int| piece_at(doc, m, k))),
        decreases rem@.len(),
    {
        let ghost old_out_view = chunk_seq_view(out@);
        let ghost old_rem_view = chunk_seq_view(rem@);
        let chunk = rem.remove(0);
        proof {
            assert(old_rem_view[0] == doc[i]);
            assert(chunk@ == doc[i]);
            assert(chunk_seq_view(rem@) =~~= old_rem_view.skip(1));
            assert(old_rem_view.skip(1) =~~= doc.skip(i + 1));
        }
        match chunk {
            Chunk::Code(cc) => {
                let ghost lang = cc.lang@;
                let qi = find_queue(&results, &cc.lang);
                match qi {
                    Some(j) => {
                        proof {
                            lemma_results_map_unique(results@, j as int);
                        }
                        let k = cursors[j];
                        if k < results[j].1.len() {
                            expand_into(&mut out, &cc.lang, &results[j].1[k]);
                            cursors.set(j, k + 1);
                            proof {
                                assert(k as int == code_count(doc, lang, i));
                                assert(co_views(results@[j as int].1@)[k as int]
                                    == results@[j as int].1@[k as int]@);
                                assert(piece_at(doc, m, i) == expansion(
                                    lang,
                                    results@[j as int].1@[k as int]@,
                                ));
                                assert(chunk_seq_view(out@) =~~= old_out_view + piece_at(
                                    doc,
                                    m,
                                    i,
                                ));
                            }
                        } else {
                            cursors.set(j, k);
                            proof {
                                assert(code_count(doc, lang, i) >= results@[j as int].1@.len());
                                assert(m[lang].len() <= code_count(doc, lang, i));
                                assert(piece_at(doc, m, i) =~~= Seq::<ChunkModel>::empty());
                                assert(chunk_seq_view(out@) =~~= old_out_view + piece_at(
                                    doc,
                                    m,
                                    i,
                                ));
                            }
                        }
                        proof {
                            assert forall|jj: int| 0 <= jj < results@.len() implies (
                            #[trigger] cursors@[jj]) as int == vstd::math::min(
                                code_count(doc, results@[jj].0@, i + 1),
                                results@[jj].1@.len() as int,
                            ) by {
                                if jj == j as int {
                                    assert(code_count(doc, lang, i + 1) == code_count(
                                        doc,
                                        lang,
                                        i,
                                    ) + 1);
                                } else {
                                    assert(results@[jj].0@ != lang);
                                    assert(code_count(doc, results@[jj].0@, i + 1) == code_count(
                                        doc,
                                        results@[jj].0@,
                                        i,
                                    ));
                                }
                            }
                        }
                    },
                    None => {
                        proof {
                            lemma_results_map_props(results@);
                            assert(!m.contains_key(lang)) by {
                                if m.contains_key(lang) {
                                    let j = choose|j: int|
                                        0 <= j < results@.len() && (#[trigger] results@[j]).0@
                                            == lang;
                                }
                            }
                            assert(piece_at(doc, m, i) =~~= Seq::<ChunkModel>::empty());
                            assert(chunk_seq_view(out@) =~~= old_out_view + piece_at(doc, m, i));
                            assert forall|jj: int| 0 <= jj < results@.len() implies (
                            #[trigger] cursors@[jj]) as int == vstd::math::min(
                                code_count(doc, results@[jj].0@, i + 1),
                                results@[jj].1@.len() as int,
                            ) by {
                                assert(results@[jj].0@ != lang);
                                assert(code_count(doc, results@[jj].0@, i + 1) == code_count(
                                    doc,
                                    results@[jj].0@,
                                    i,
                                ));
                            }
                        }
                    },
                }
            },
            other => {
                proof {
                    assert(!(other@ is Code));
                    assert(piece_at(doc, m, i) == seq![doc[i]]);
                    assert forall|jj: int| 0 <= jj < results@.len() implies code_count(
                        doc,
                        results@[jj].0@,
                        i + 1,
                    ) == code_count(doc, #[trigger] results@[jj].0@, i) by {
                    }
                }
                out.push(other);
                proof {
                    assert(chunk_seq_view(out@) =~~= old_out_view + seq![doc[i]]);
                }
            },
        }
        proof {
            i = i + 1;
            assert(chunk_seq_view(rem@) =~~= doc.skip(i));
            lemma_concat_chunks_push(
                Seq::new((i - 1) as nat, |k: int| piece_at(doc, m, k)),
                piece_at(doc, m, i - 1),
            );
            assert(Seq::new(i as nat, |k: int| piece_at(doc, m, k)) =~~= Seq::new(
                (i - 1) as nat,
                |k: int| piece_at(doc, m, k),
            ).push(piece_at(doc, m, i - 1)));
        }
    }
    proof {
        assert(Seq::new(doc.len(), |k: int| piece_at(doc, m, k)) =~~= Seq::new(
            i as nat,
            |k: int| piece_at(doc, m, k),
        ));
    }
    out
}

/// Per-input results from one batch call: a successful batch yields one
/// errorless result per input element, in order; a batch-level failure
/// yields a single error-bearing result for the whole group.
pub open spec fn outputs_of_result_spec(
    r: Result<Seq<Seq<OutputModel>>, Seq<char>>,
) -> Seq<CodeOutputModel> {
    match r {
        Ok(os) => os.map_values(
            |o: Seq<OutputModel>| CodeOutputModel { errors: Seq::empty(), outputs: o },
        ),
        Err(e) => seq![CodeOutputModel { errors: seq![e], outputs: Seq::empty() }],
    }
}

/// The models of a batch's raw output lists.
pub open spec fn output_lists_view(os: Seq<Vec<Output>>) -> Seq<Seq<OutputModel>> {
    os.map_values(|v: Vec<Output>| Seq::new(v@.len(), |i: int| v@[i]@))
}

/// Turns one batch call's result into per-input results.
pub fn outputs_from_result(result: Result<Vec<Vec<Output>>, String>) -> (r: Vec<CodeOutput>)
    ensures
        co_views(r@) == outputs_of_result_spec(
            match result {
                Ok(os) => Ok(output_lists_view(os@)),
                Err(e) => Err(e@),
            },
        ),
{
    match result {
        Ok(os) => {
            let ghost target = outputs_of_result_spec(
                Ok::<Seq<Seq<OutputModel>>, Seq<char>>(output_lists_view(os@)),
            );
            let ghost osv = os@;
            let mut r: Vec<CodeOutput> = Vec::new();
            let mut rem = os;
            let ghost mut i: int = 0;
            proof {
                assert(co_views(r@) =~~= target.subrange(0, 0));
                assert(rem@ =~~= osv.skip(0));
            }
            while rem.len() > 0
                invariant
                    0 <= i <= osv.len(),
                    i + rem@.len() == osv.len(),
                    rem@ == osv.skip(i),
                    target == outputs_of_result_spec(
                        Ok::<Seq<Seq<OutputModel>>, Seq<char>>(output_lists_view(osv)),
                    ),
                    target.len() == osv.len(),
                    co_views(r@) == target.subrange(0, i),
                decreases rem@.len(),
            {
                let ghost old_r = co_views(r@);
                let outs = rem.remove(0);
                let co = CodeOutput { errors: Vec::new(), outputs: outs };
                proof {
                    assert(osv.skip(i)[0] == osv[i]);
                    assert(co@.errors =~~= Seq::<Seq<char>>::empty());
                    assert(co@.outputs =~~= output_lists_view(osv)[i]);
                    assert(co@ == target[i]);
                }
                r.push(co);
                proof {
                    i = i + 1;
                    assert(rem@ =~~= osv.skip(i));
                    assert(co_views(r@) =~~= old_r + seq![target[i - 1]]);
                    assert(co_views(r@) =~~= target.subrange(0, i));
                }
            }
            proof {
                assert(target.subrange(0, target.len() as int) =~= target);
                assert(co_views(r@) =~~= target);
            }
            r
        },
        Err(e) => {
            let mut errors: Vec<String> = Vec::new();
            errors.push(e);
            let co = CodeOutput { errors, outputs: Vec::new() };
            let mut r: Vec<CodeOutput> = Vec::new();
            let ghost com = co@;
            r.push(co);
            proof {
                assert(co_views(r@) =~~= seq![com]);
                assert(com.errors =~~= seq![e@]);
                assert(com.outputs =~~= Seq::<OutputModel>::empty());
            }
            r
        },
    }
}

/// The capability every language plugin implements, polymorphic over a
/// language-specific option type and error type. `compile` processes one
/// whole batch of chunks for its language in one call and returns, per
/// input element, an ordered list of typed outputs; `reset` clears the
/// backend's accumulated session state; `close` releases its resources.
pub trait Backend: Sized {
    type GlobalOptions;

    type Options;

    type Error;

    fn new(global_options: Self::GlobalOptions) -> Result<Self, Error<Self::Error>>;

    fn compile(&mut self, input: Vec<Input<Self::Options>>) -> Result<
        Vec<Vec<Output>>,
        Error<Self::Error>,
    >;

    fn reset(&mut self) -> Result<(), Error<Self::Error>>;

    fn close(self) -> Result<(), Error<Self::Error>>;

    /// The backend's typed options for one chunk's raw option mapping.
    fn options_from(m: &OptionMap) -> Self::Options;

    /// The error's text, for reporting inside the document.
    fn describe_error(e: &Self::Error) -> String;
}

/// The per-language preprocessing step the engine dispatches to.
pub trait Preprocess {
    fn preprocess(&mut self, input: &Vec<CodeChunk>) -> Vec<CodeOutput>;
}

/// Adapts one backend to the engine's per-language preprocessing step.
pub struct LanguageDriver<B> {
    backend: B,
}

impl<B: Backend> LanguageDriver<B> {
    /// The wrapped backend.
    pub closed spec fn backend_view(&self) -> B {
        self.backend
    }

    pub fn new(backend: B) -> (r: LanguageDriver<B>)
        ensures
            r.backend_view() == backend,
    {
        LanguageDriver { backend }
    }
}

/// Builds the batch handed to a backend's `compile` call: one input per
/// chunk, in the group's order, each carrying its own chunk's source text
/// and that chunk's typed options.
pub fn batch_inputs<B: Backend>(input: &Vec<CodeChunk>) -> (r: Vec<Input<B::Options>>)
    ensures
        r@.len() == input@.len(),
        forall|i: int| 0 <= i < input@.len() ==> (#[trigger] r@[i]).source@ == input@[i].code@,
{
    let mut r: Vec<Input<B::Options>> = Vec::new();
    let mut i: usize = 0;
    while i < input.len()
        invariant
            i <= input@.len(),
            r@.len() == i,
            forall|j: int| 0 <= j < i ==> (#[trigger] r@[j]).source@ == input@[j].code@,
        decreases input@.len() - i,
    {
        r.push(
            Input { source: input[i].code.clone(), options: B::options_from(&input[i].options) },
        );
        i = i + 1;
    }
    r
}

impl<B: Backend> Preprocess for LanguageDriver<B> {
    /// Submits the whole group as one `compile` batch, built by
    /// `batch_inputs`, and returns what some batch result maps to: per-input
    /// results on success, one error-bearing result for the whole group on a
    /// batch-level failure.
    fn preprocess(&mut self, input: &Vec<CodeChunk>) -> (r: Vec<CodeOutput>)
        ensures
            exists|res: Result<Seq<Seq<OutputModel>>, Seq<char>>| co_views(r@)
                == #[trigger] outputs_of_result_spec(res),
    {
        let inputs = batch_inputs::<B>(input);
        match self.backend.compile(inputs) {
            Ok(outs) => {
                let ghost w: Result<Seq<Seq<OutputModel>>, Seq<char>> = Ok(
                    output_lists_view(outs@),
                );
                let r = outputs_from_result(Ok(outs));
                proof {
                    assert(co_views(r@) == outputs_of_result_spec(w));
                }
                r
            },
            Err(Error::BackendError(e)) => {
                let msg = B::describe_error(&e);
                let ghost w: Result<Seq<Seq<OutputModel>>, Seq<char>> = Err(msg@);
                let r = outputs_from_result(Err(msg));
                proof {
                    assert(co_views(r@) == outputs_of_result_spec(w));
                }
                r
            },
        }
    }
}

/// The first position bearing `name` among tagged entries, or the length
/// if none does.
pub open spec fn first_tag_index<P>(bs: Seq<(Seq<char>, P)>, name: Seq<char>) -> int
    decreases bs.len(),
{
    if bs.len() == 0 {
        0
    } else if bs[0].0 == name {
        0
    } else {
        1 + first_tag_index(bs.skip(1), name)
    }
}

pub proof fn lemma_first_tag_index<P>(bs: Seq<(Seq<char>, P)>, name: Seq<char>)
    ensures
        0 <= first_tag_index(bs, name) <= bs.len(),
        forall|j: int| 0 <= j < first_tag_index(bs, name) ==> (#[trigger] bs[j]).0 != name,
        first_tag_index(bs, name) < bs.len() ==> bs[first_tag_index(bs, name)].0 == name,
    decreases bs.len(),
{
    if bs.len() == 0 {
    } else if bs[0].0 == name {
    } else {
        lemma_first_tag_index(bs.skip(1), name);
        assert forall|j: int| 0 <= j < first_tag_index(bs, name) implies (#[trigger] bs[j]).0
            != name by {
            if j > 0 {
                assert(bs.skip(1)[j - 1] == bs[j]);
            }
        }
        if first_tag_index(bs.skip(1), name) < bs.skip(1).len() {
            assert(bs.skip(1)[first_tag_index(bs.skip(1), name)].0 == name);
        }
    }
}

/// The dispatch relation: the output is the reassembly of the document with
/// some per-language results, and every language with no registered backend
/// got the pass-through echo of its own batch.
pub open spec fn valid_dispatch(
    registered: Seq<Seq<char>>,
    doc: Seq<ChunkModel>,
    out: Seq<ChunkModel>,
    m: Map<Seq<char>, Seq<CodeOutputModel>>,
) -> bool {
    &&& out == reassembled(doc, m)
    &&& forall|lang: Seq<char>|
        langs_of(doc).contains(lang) && !registered.contains(lang) ==> #[trigger] m.contains_key(
            lang,
        ) && m[lang] == noop_outputs_spec(batch_of(doc, lang))
}

/// Routes whole documents through registered per-language backends and
/// restores the original interleaving.
pub struct DocumentDriver<P> {
    backends: Vec<(String, P)>,
}

impl<P: Preprocess> DocumentDriver<P> {
    /// The language tags with a registered backend.
    pub closed spec fn registered(&self) -> Seq<Seq<char>> {
        Seq::new(self.backends@.len(), |j: int| self.backends@[j].0@)
    }

    /// The registered backends: each language tag bound to its backend, in
    /// registration order.
    pub closed spec fn backends_view(&self) -> Seq<(Seq<char>, P)> {
        Seq::new(self.backends@.len(), |j: int| (self.backends@[j].0@, self.backends@[j].1))
    }

    pub fn new() -> (r: DocumentDriver<P>)
        ensures
            r.registered() == Seq::<Seq<char>>::empty(),
    {
        let r = DocumentDriver { backends: Vec::new() };
        proof {
            assert(r.registered() =~~= Seq::<Seq<char>>::empty());
        }
        r
    }

    fn position_of_backend(&self, name: &String) -> (res: Option<usize>)
        ensures
            match res {
                Some(j) => j < self.backends@.len() && self.backends@[j as int].0@ == name@
                    && (forall|jj: int|
                    0 <= jj < j ==> (#[trigger] self.backends@[jj]).0@ != name@),
                None => forall|j: int|
                    0 <= j < self.backends@.len() ==> (#[trigger] self.backends@[j]).0@ != name@,
            },
    {
        let mut j: usize = 0;
        while j < self.backends.len()
            invariant
                j <= self.backends@.len(),
                forall|jj: int| 0 <= jj < j ==> (#[trigger] self.backends@[jj]).0@ != name@,
            decreases self.backends@.len() - j,
        {
            if self.backends[j].0.eq(name) {
                return Some(j);
            }
            j = j + 1;
        }
        None
    }

    /// Registers a backend under a language tag: a new tag is appended with
    /// the given backend; registering a tag again keeps its place and binds
    /// it to the newer backend, leaving every other entry unchanged.
    pub fn add_backend(&mut self, name: String, backend: P)
        ensures
            final(self).registered() == if old(self).registered().contains(name@) {
                old(self).registered()
            } else {
                old(self).registered().push(name@)
            },
            final(self).backends_view() == if first_tag_index(old(self).backends_view(), name@)
                < old(self).backends_view().len() {
                old(self).backends_view().update(
                    first_tag_index(old(self).backends_view(), name@),
                    (name@, backend),
                )
            } else {
                old(self).backends_view().push((name@, backend))
            },
    {
        let ghost b = backend;
        let ghost nm = name@;
        let pos = self.position_of_backend(&name);
        let ghost old_backs = self.backends@;
        let ghost old_view = self.backends_view();
        let ghost old_reg = self.registered();
        proof {
            lemma_first_tag_index(old_view, nm);
        }
        match pos {
            Some(j) => {
                proof {
                    assert(old_reg.contains(nm)) by {
                        assert(old_reg[j as int] == nm);
                    }
                    assert(first_tag_index(old_view, nm) == j) by {
                        let fti = first_tag_index(old_view, nm);
                        if fti < j {
                            assert(old_view[fti] == (old_backs[fti].0@, old_backs[fti].1));
                            assert(old_view[fti].0 == nm);
                        }
                        if fti > j {
                            assert(old_view[j as int] == (old_backs[j as int].0@, old_backs[
                                j as int].1));
                            assert(old_view[j as int].0 != nm);
                        }
                    };
                }
                let (key, _) = self.backends.remove(j);
                self.backends.insert(j, (key, backend));
                proof {
                    assert(self.backends@ =~= old_backs.update(
                        j as int,
                        (old_backs[j as int].0, b),
                    ));
                    assert forall|x: int| 0 <= x < self.backends_view().len() implies (
                    #[trigger] self.backends_view()[x]) == old_view.update(
                        j as int,
                        (nm, b),
                    )[x] by {
                        assert(self.backends_view()[x] == (self.backends@[x].0@, self.backends@[
                            x].1));
                        if x != j {
                            assert(self.backends@[x] == old_backs[x]);
                            assert(old_view[x] == (old_backs[x].0@, old_backs[x].1));
                        } else {
                            assert(old_backs[j as int].0@ == nm);
                        }
                    }
                    assert(self.backends_view() =~= old_view.update(j as int, (nm, b)));
                    assert(self.registered() =~~= old_reg);
                }
            },
            None => {
                proof {
                    assert(!old_reg.contains(nm)) by {
                        if old_reg.contains(nm) {
                            let j = choose|j: int| 0 <= j < old_reg.len() && old_reg[j] == nm;
                            assert(self.backends@[j].0@ == nm);
                        }
                    }
                    assert(first_tag_index(old_view, nm) == old_view.len()) by {
                        let fti = first_tag_index(old_view, nm);
                        if fti < old_view.len() {
                            assert(old_view[fti] == (old_backs[fti].0@, old_backs[fti].1));
                            assert(old_view[fti].0 != nm);
                        }
                    };
                }
                self.backends.push((name, backend));
                proof {
                    assert forall|x: int| 0 <= x < self.backends_view().len() implies (
                    #[trigger] self.backends_view()[x]) == old_view.push((nm, b))[x] by {
                        assert(self.backends_view()[x] == (self.backends@[x].0@, self.backends@[
                            x].1));
                        if x < old_view.len() {
                            assert(self.backends@[x] == old_backs[x]);
                            assert(old_view[x] == (old_backs[x].0@, old_backs[x].1));
                        }
                    }
                    assert(self.backends_view() =~= old_view.push((nm, b)));
                    assert(self.registered() =~~= old_reg.push(nm));
                }
            },
        }
    }

    /// Processes a whole parsed document: the code chunks are grouped by
    /// language in stable order; each group goes to its language's backend
    /// as one batch, or is echoed unchanged where no backend is registered;
    /// the results are re-threaded into the original chunk order.
    pub fn preprocess_document(&mut self, chunks: Vec<Chunk>) -> (out: Vec<Chunk>)
        ensures
            exists|m: Map<Seq<char>, Seq<CodeOutputModel>>| #[trigger] valid_dispatch(
                old(self).registered(),
                chunk_seq_view(chunks@),
                chunk_seq_view(out@),
                m,
            ),
    {
        let ghost doc = chunk_seq_view(chunks@);
        let ghost langs = langs_of(doc);
        let batches = collect_batches(&chunks);
        let mut results: Vec<(String, Vec<CodeOutput>)> = Vec::new();
        let mut bi: usize = 0;
        while bi < batches.len()
            invariant
                bi <= batches@.len(),
                doc == chunk_seq_view(chunks@),
                langs == langs_of(doc),
                batches@.len() == langs.len(),
                forall|j: int| 0 <= j < batches@.len() ==> (#[trigger] batches@[j]).0@ == langs[j],
                forall|j: int|
                    0 <= j < batches@.len() ==> code_views((#[trigger] batches@[j]).1@) == batch_of(
                        doc,
                        langs[j],
                    ),
                self.registered() == old(self).registered(),
                results@.len() == bi,
                forall|j: int| 0 <= j < bi ==> (#[trigger] results@[j]).0@ == langs[j],
                forall|j: int|
                    0 <= j < bi && !old(self).registered().contains(langs[j]) ==> co_views(
                        (#[trigger] results@[j]).1@,
                    ) == noop_outputs_spec(batch_of(doc, langs[j])),
            decreases batches@.len() - bi,
        {
            let pos = self.position_of_backend(&batches[bi].0);
            let outs = match pos {
                Some(j) => {
                    let ghost old_backs = self.backends@;
                    let ghost old_reg = self.registered();
                    let (key, mut p) = self.backends.remove(j);
                    let outs = p.preprocess(&batches[bi].1);
                    self.backends.insert(j, (key, p));
                    proof {
                        assert forall|jj: int| 0 <= jj < self.backends@.len() implies (
                        #[trigger] self.backends@[jj]).0@ == old_backs[jj].0@ by {
                            assert(self.backends@ =~= old_backs.remove(j as int).insert(
                                j as int,
                                self.backends@[j as int],
                            ));
                        }
                        assert(self.registered() =~~= old_reg);
                        assert(old(self).registered().contains(langs[bi as int])) by {
                            assert(old_reg[j as int] == langs[bi as int]);
                        }
                    }
                    outs
                },
                None => noop_outputs(&batches[bi].1),
            };
            let ghost old_results = results@;
            results.push((batches[bi].0.clone(), outs));
            proof {
                if pos is None {
                    assert(!old(self).registered().contains(langs[bi as int])) by {
                        if old(self).registered().contains(langs[bi as int]) {
                            let j = choose|j: int|
                                0 <= j < old(self).registered().len() && old(
                                    self,
                                ).registered()[j] == langs[bi as int];
                            assert(self.backends@[j].0@ == langs[bi as int]);
                        }
                    }
                }
                assert(forall|j: int|
                    0 <= j < old_results.len() ==> #[trigger] results@[j] == old_results[j]);
                assert(results@[bi as int].0@ == langs[bi as int]);
            }
            bi = bi + 1;
        }
        proof {
            lemma_langs_of_unique(doc);
            assert(forall|a: int, b: int|
                0 <= a < b < results@.len() ==> (#[trigger] results@[a]).0@ != (
                #[trigger] results@[b]).0@);
        }
        let ghost final_results = results@;
        let out = reassemble(chunks, results);
        proof {
            let mm = results_map(final_results);
            assert forall|lang: Seq<char>|
                langs_of(doc).contains(lang) && !old(self).registered().contains(
                    lang,
                ) implies #[trigger] mm.contains_key(lang) && mm[lang] == noop_outputs_spec(
                batch_of(doc, lang),
            ) by {
                let j = choose|j: int| 0 <= j < langs.len() && langs[j] == lang;
                assert(final_results[j].0@ == lang);
                lemma_results_map_unique(final_results, j);
            }
            assert(valid_dispatch(
                old(self).registered(),
                doc,
                chunk_seq_view(out@),
                mm,
            ));
        }
        out
    }
}

impl<P: Preprocess> Default for DocumentDriver<P> {
    /// The driver with no backend registered.
    fn default() -> (r: Self)
        ensures
            r.registered() == Seq::<Seq<char>>::empty(),
    {
        Self::new()
    }
}

/// A chunk after pass-through processing: a code chunk echoes its own code
/// under its own language with empty options; every other chunk is itself.
pub open spec fn echo_of(c: ChunkModel) -> ChunkModel {
    match c {
        ChunkModel::Code(cm) => ChunkModel::Code(
            CodeModel { lang: cm.lang, options: Map::empty(), code: cm.code },
        ),
        _ => c,
    }
}

/// Order preservation: the reassembled document is the in-order
/// concatenation of one piece per original chunk, and the piece of every
/// chunk that is not a code chunk is exactly that chunk itself — backend
/// results never displace or reorder the surrounding content.
pub proof fn lemma_order_preservation(
    doc: Seq<ChunkModel>,
    m: Map<Seq<char>, Seq<CodeOutputModel>>,
)
    ensures
        reassembled(doc, m) == concat_chunks(Seq::new(doc.len(), |i: int| piece_at(doc, m, i))),
        forall|i: int|
            0 <= i < doc.len() && !(doc[i] is Code) ==> piece_at(doc, m, i) == seq![doc[i]],
{
}

proof fn lemma_concat_singletons(ss: Seq<Seq<ChunkModel>>)
    requires
        forall|i: int| 0 <= i < ss.len() ==> (#[trigger] ss[i]).len() == 1,
    ensures
        concat_chunks(ss).len() == ss.len(),
        forall|i: int| 0 <= i < ss.len() ==> concat_chunks(ss)[i] == ss[i][0],
    decreases ss.len(),
{
    if ss.len() > 0 {
        assert forall|i: int| 0 <= i < ss.skip(1).len() implies (#[trigger] ss.skip(1)[i]).len()
            == 1 by {
            assert(ss.skip(1)[i] == ss[i + 1]);
        }
        lemma_concat_singletons(ss.skip(1));
        assert(ss[0].len() == 1);
        assert forall|i: int| 0 <= i < ss.len() implies concat_chunks(ss)[i] == ss[i][0] by {
            if i > 0 {
                assert(concat_chunks(ss)[i] == concat_chunks(ss.skip(1))[i - 1]);
                assert(ss.skip(1)[i - 1] == ss[i]);
            }
        }
    }
}

/// Per-language FIFO correctness: with every language's results the no-op
/// echo of its own batch, reassembly yields exactly one chunk per original
/// chunk position — non-code chunks unchanged, and each code chunk replaced
/// by the echo of its own code, in document order.
pub proof fn lemma_noop_fifo(doc: Seq<ChunkModel>, m: Map<Seq<char>, Seq<CodeOutputModel>>)
    requires
        forall|lang: Seq<char>| #[trigger]
            m.contains_key(lang) ==> m[lang] == noop_outputs_spec(batch_of(doc, lang)),
        forall|i: int|
            0 <= i < doc.len() && doc[i] is Code ==> m.contains_key(
                (#[trigger] doc[i])->Code_0.lang,
            ),
    ensures
        reassembled(doc, m).len() == doc.len(),
        forall|i: int| 0 <= i < doc.len() ==> reassembled(doc, m)[i] == echo_of(doc[i]),
{
    let pieces = Seq::new(doc.len(), |i: int| piece_at(doc, m, i));
    assert forall|i: int| 0 <= i < doc.len() implies (#[trigger] pieces[i]) == seq![
        echo_of(doc[i]),
    ] by {
        match doc[i] {
            ChunkModel::Code(cm) => {
                let lang = cm.lang;
                assert(m.contains_key(lang));
                lemma_batch_index(doc, lang, i);
                let k = code_count(doc, lang, i);
                let batch = batch_of(doc, lang);
                assert(m[lang] == noop_outputs_spec(batch));
                assert(m[lang].len() == batch.len());
                let co = m[lang][k];
                assert(co == CodeOutputModel {
                    errors: Seq::empty(),
                    outputs: seq![OutputModel { data: batch[k].code, ty: OutputType::Code }],
                });
                assert(co.errors.map_values(|e: Seq<char>| ChunkModel::Error(e))
                    =~~= Seq::<ChunkModel>::empty());
                assert(co.outputs.map_values(|o: OutputModel| chunk_of_output(lang, o)) =~~= seq![
                    chunk_of_output(lang, OutputModel { data: batch[k].code, ty: OutputType::Code }),
                ]);
                assert(expansion(lang, co) =~~= seq![
                    ChunkModel::Code(CodeModel { lang, options: Map::empty(), code: cm.code }),
                ]);
            },
            _ => {},
        }
    }
    assert forall|i: int| 0 <= i < pieces.len() implies (#[trigger] pieces[i]).len() == 1 by {
        assert(pieces[i] == seq![echo_of(doc[i])]);
    }
    lemma_concat_singletons(pieces);
    assert forall|i: int| 0 <= i < doc.len() implies reassembled(doc, m)[i] == echo_of(
        doc[i],
    ) by {
        assert(concat_chunks(pieces)[i] == pieces[i][0]);
    }
}

} // verus!
