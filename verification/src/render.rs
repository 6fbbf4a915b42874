//! The document serializer: renders each chunk as target markup text.
//! Verbatim text passes through byte-identical; code is wrapped in a source
//! display container with its fence reopened; plain output is wrapped in a
//! bare fence; errors carry an error marker glyph; images become a
//! decode-from-bytes expression. A message chunk has no defined rendering
//! and is reported, never silently dropped.

use vstd::prelude::*;
use vstd::string::StringExecFns;
use crate::chunk::Chunk;
use crate::chunk::ChunkModel;
use crate::chunk::GraphicsType;
use crate::chunk::chunk_seq_view;
use crate::parse::parse_doc;
use crate::text::append_chars;
use crate::text::concat_all;
use crate::text::is_fence_line;
use crate::text::join_with;
use crate::text::lemma_join_push;
use crate::text::lemma_lines_keep_concat;
use crate::text::lines_keep;

verus! {

/// The serializer's error: the chunk kind has no defined rendering.
#[derive(Debug, Clone, Copy, PartialEq, Eq, Structural)]
pub enum RenderError {
    UnrenderedChunk,
}

pub open spec fn digit_char(d: int) -> char {
    if d == 0 {
        '0'
    } else if d == 1 {
        '1'
    } else if d == 2 {
        '2'
    } else if d == 3 {
        '3'
    } else if d == 4 {
        '4'
    } else if d == 5 {
        '5'
    } else if d == 6 {
        '6'
    } else if d == 7 {
        '7'
    } else if d == 8 {
        '8'
    } else {
        '9'
    }
}

/// The decimal digits of a non-negative number.
pub open spec fn dec_rep(n: int) -> Seq<char>
    decreases n,
{
    if n < 10 {
        seq![digit_char(n)]
    } else {
        dec_rep(n / 10).push(digit_char(n % 10))
    }
}

/// The bytes of an image as comma-separated decimal literals.
pub open spec fn bytes_decimal(bs: Seq<u8>) -> Seq<char> {
    join_with(bs.map_values(|b: u8| dec_rep(b as int)), ","@)
}

/// What each chunk renders to, or `None` where no rendering is defined.
pub open spec fn render_spec(c: ChunkModel) -> Option<Seq<char>> {
    match c {
        ChunkModel::Verbatim(s) => Some(s),
        ChunkModel::Code(cm) => Some(
            "#src[\n```"@ + cm.lang + "\n"@ + cm.code + "```\n]\n"@,
        ),
        ChunkModel::Output(o) => Some("```\n"@ + o.data + "\n```\n"@),
        ChunkModel::Message(_) => None,
        ChunkModel::Error(e) => Some("#emoji.crossmark "@ + e + "\n"@),
        ChunkModel::Graphics(g) => match g.ty {
            GraphicsType::Png => Some(
                "#image.decode(bytes(("@ + bytes_decimal(g.data) + ")))\n"@,
            ),
        },
    }
}

fn digit(d: u8) -> (c: char)
    requires
        d < 10,
    ensures
        c == digit_char(d as int),
{
    if d == 0 {
        '0'
    } else if d == 1 {
        '1'
    } else if d == 2 {
        '2'
    } else if d == 3 {
        '3'
    } else if d == 4 {
        '4'
    } else if d == 5 {
        '5'
    } else if d == 6 {
        '6'
    } else if d == 7 {
        '7'
    } else if d == 8 {
        '8'
    } else {
        '9'
    }
}

/// The decimal digits of one byte.
fn u8_decimal(b: u8) -> (r: Vec<char>)
    ensures
        r@ == dec_rep(b as int),
{
    let mut r: Vec<char> = Vec::new();
    if b < 10 {
        r.push(digit(b));
        proof {
            assert(r@ =~= dec_rep(b as int));
        }
    } else if b < 100 {
        r.push(digit(b / 10));
        r.push(digit(b % 10));
        proof {
            assert(b as int / 10 < 10);
            assert(dec_rep(b as int / 10) == seq![digit_char(b as int / 10)]);
            assert(r@ =~= dec_rep(b as int));
        }
    } else {
        r.push(digit(b / 100));
        r.push(digit((b / 10) % 10));
        r.push(digit(b % 10));
        proof {
            assert(b as int / 10 >= 10);
            assert(b as int / 10 < 100);
            assert((b as int / 10) / 10 == b as int / 100) by (nonlinear_arith)
                requires
                    b >= 100,
            ;
            assert(b as int / 100 < 10);
            assert(dec_rep(b as int / 100) == seq![digit_char(b as int / 100)]);
            assert(dec_rep(b as int / 10) == dec_rep((b as int / 10) / 10).push(
                digit_char((b as int / 10) % 10),
            ));
            assert(r@ =~= dec_rep(b as int));
        }
    }
    r
}

/// Renders one chunk; a message chunk has no defined rendering and yields
/// an error.
pub fn render_chunk(c: &Chunk) -> (r: Result<String, RenderError>)
    ensures
        match render_spec(c@) {
            Some(s) => match r {
                Ok(out) => out@ == s,
                Err(_) => false,
            },
            None => r == Err::<String, RenderError>(RenderError::UnrenderedChunk),
        },
{
    match c {
        Chunk::Verbatim(s) => Ok(s.clone()),
        Chunk::Code(cc) => {
            let mut out = String::new();
            out.append("#src[\n```");
            out.append(cc.lang.as_str());
            out.append("\n");
            out.append(cc.code.as_str());
            out.append("```\n]\n");
            proof {
                assert(out@ =~= "#src[\n```"@ + cc.lang@ + "\n"@ + cc.code@ + "```\n]\n"@);
            }
            Ok(out)
        },
        Chunk::Output(o) => {
            let mut out = String::new();
            out.append("```\n");
            out.append(o.data.as_str());
            out.append("\n```\n");
            proof {
                assert(out@ =~= "```\n"@ + o.data@ + "\n```\n"@);
            }
            Ok(out)
        },
        Chunk::Message(_) => Err(RenderError::UnrenderedChunk),
        Chunk::Error(e) => {
            let mut out = String::new();
            out.append("#emoji.crossmark ");
            out.append(e.as_str());
            out.append("\n");
            proof {
                assert(out@ =~= "#emoji.crossmark "@ + e@ + "\n"@);
            }
            Ok(out)
        },
        Chunk::Graphics(g) => {
            match g.ty {
                GraphicsType::Png => {
                    let ghost ds = g.data@.map_values(|b: u8| dec_rep(b as int));
                    let mut out = String::new();
                    out.append("#image.decode(bytes((");
                    let ghost p = "#image.decode(bytes(("@;
                    proof {
                        assert(out@ =~= p + join_with(ds.subrange(0, 0), ","@));
                    }
                    let mut i: usize = 0;
                    while i < g.data.len()
                        invariant
                            i <= g.data@.len(),
                            ds == g.data@.map_values(|b: u8| dec_rep(b as int)),
                            out@ == p + join_with(ds.subrange(0, i as int), ","@),
                        decreases g.data@.len() - i,
                    {
                        if i > 0 {
                            out.append(",");
                        }
                        let d = u8_decimal(g.data[i]);
                        append_chars(&mut out, &d);
                        proof {
                            lemma_join_push(ds.subrange(0, i as int), ds[i as int], ","@);
                            assert(ds.subrange(0, i + 1) =~= ds.subrange(0, i as int).push(
                                ds[i as int],
                            ));
                            if i > 0 {
                                assert(p + (join_with(ds.subrange(0, i as int), ","@) + ","@
                                    + ds[i as int]) =~= (p + join_with(
                                    ds.subrange(0, i as int),
                                    ","@,
                                )) + ","@ + d@);
                            } else {
                                assert(join_with(ds.subrange(0, 0), ","@) + ds[0] =~= ds[0]);
                            }
                        }
                        i = i + 1;
                    }
                    proof {
                        assert(ds.subrange(0, ds.len() as int) =~= ds);
                    }
                    out.append(")))\n");
                    proof {
                        assert(out@ =~= "#image.decode(bytes(("@ + bytes_decimal(g.data@)
                            + ")))\n"@);
                    }
                    Ok(out)
                },
            }
        },
    }
}

/// What a chunk sequence renders to, or `None` if any chunk has no defined
/// rendering.
pub open spec fn render_all(cs: Seq<ChunkModel>) -> Option<Seq<char>>
    decreases cs.len(),
{
    if cs.len() == 0 {
        Some(Seq::empty())
    } else {
        match (render_spec(cs[0]), render_all(cs.skip(1))) {
            (Some(h), Some(t)) => Some(h + t),
            _ => None,
        }
    }
}

proof fn lemma_render_all_push(cs: Seq<ChunkModel>, c: ChunkModel)
    ensures
        render_all(cs) is Some && render_spec(c) is Some ==> render_all(cs.push(c)) == Some(
            render_all(cs)->Some_0 + render_spec(c)->Some_0,
        ),
        render_all(cs) is None || render_spec(c) is None ==> render_all(cs.push(c)) is None,
    decreases cs.len(),
{
    if cs.len() == 0 {
        assert(cs.push(c)[0] == c);
        assert(cs.push(c).skip(1) =~~= Seq::<ChunkModel>::empty());
        assert(render_all(cs) == Some(Seq::<char>::empty()));
        assert(render_all(Seq::<ChunkModel>::empty()) == Some(Seq::<char>::empty()));
        match render_spec(c) {
            Some(h) => {
                assert(render_all(cs.push(c)) == Some(h + Seq::<char>::empty()));
                assert(h + Seq::<char>::empty() =~= h);
                assert(Seq::<char>::empty() + h =~= h);
            },
            None => {},
        }
    } else {
        assert(cs.push(c).skip(1) =~~= cs.skip(1).push(c));
        lemma_render_all_push(cs.skip(1), c);
        assert(cs.push(c)[0] == cs[0]);
        match (render_spec(cs[0]), render_all(cs.skip(1)), render_spec(c)) {
            (Some(h0), Some(t), Some(h)) => {
                assert(render_all(cs) == Some(h0 + t));
                assert(render_all(cs.skip(1).push(c)) == Some(t + h));
                assert(render_all(cs.push(c)) == Some(h0 + (t + h)));
                assert(h0 + (t + h) =~= (h0 + t) + h);
            },
            _ => {},
        }
    }
}

/// Renders a chunk sequence in order into one string.
pub fn render_chunks(chunks: &Vec<Chunk>) -> (r: Result<String, RenderError>)
    ensures
        match render_all(chunk_seq_view(chunks@)) {
            Some(s) => match r {
                Ok(out) => out@ == s,
                Err(_) => false,
            },
            None => r == Err::<String, RenderError>(RenderError::UnrenderedChunk),
        },
{
    let ghost cs = chunk_seq_view(chunks@);
    let mut out = String::new();
    let mut i: usize = 0;
    proof {
        assert(cs.subrange(0, 0) =~~= Seq::<ChunkModel>::empty());
        assert(out@ =~= Seq::<char>::empty());
    }
    while i < chunks.len()
        invariant
            i <= chunks@.len(),
            cs == chunk_seq_view(chunks@),
            cs.len() == chunks@.len(),
            render_all(cs.subrange(0, i as int)) == Some(out@),
        decreases chunks@.len() - i,
    {
        let piece = render_chunk(&chunks[i]);
        match piece {
            Ok(s) => {
                out.append(s.as_str());
                proof {
                    lemma_render_all_push(cs.subrange(0, i as int), cs[i as int]);
                    assert(cs.subrange(0, i + 1) =~~= cs.subrange(0, i as int).push(cs[i as int]));
                }
            },
            Err(e) => {
                proof {
                    lemma_render_all_push(cs.subrange(0, i as int), cs[i as int]);
                    assert(cs.subrange(0, i + 1) =~~= cs.subrange(0, i as int).push(cs[i as int]));
                    lemma_render_all_prefix_none(cs, i + 1);
                }
                return Err(e);
            },
        }
        i = i + 1;
    }
    proof {
        assert(cs.subrange(0, cs.len() as int) =~~= cs);
    }
    Ok(out)
}

/// If a prefix fails to render, the whole sequence fails.
proof fn lemma_render_all_prefix_none(cs: Seq<ChunkModel>, k: int)
    requires
        0 <= k <= cs.len(),
        render_all(cs.subrange(0, k)) is None,
    ensures
        render_all(cs) is None,
    decreases k,
{
    if k == 0 {
        assert(cs.subrange(0, 0) =~~= Seq::<ChunkModel>::empty());
    } else {
        let pre = cs.subrange(0, k);
        if render_spec(cs[0]) is None {
            if cs.len() > 0 {
            }
        } else {
            assert(pre[0] == cs[0]);
            assert(pre.skip(1) =~~= cs.subrange(1, k));
            assert(cs.subrange(1, k) =~~= cs.skip(1).subrange(0, k - 1));
            lemma_render_all_prefix_none(cs.skip(1), k - 1);
        }
    }
}

/// Round-trip identity: a document with no fence line parses into verbatim
/// chunks alone, and rendering them reproduces the document exactly.
pub proof fn lemma_verbatim_round_trip(x: Seq<char>)
    requires
        forall|i: int| 0 <= i < lines_keep(x).len() ==> !is_fence_line(#[trigger] lines_keep(x)[i]),
    ensures
        parse_doc(x) == Some(lines_keep(x).map_values(|l: Seq<char>| ChunkModel::Verbatim(l))),
        render_all(lines_keep(x).map_values(|l: Seq<char>| ChunkModel::Verbatim(l))) == Some(x),
{
    lemma_parse_verbatim_from(lines_keep(x), 0);
    assert(lines_keep(x).skip(0) =~~= lines_keep(x));
    lemma_render_verbatim(lines_keep(x));
    lemma_lines_keep_concat(x);
}

proof fn lemma_parse_verbatim_from(lines: Seq<Seq<char>>, pos: int)
    requires
        0 <= pos <= lines.len(),
        forall|i: int| pos <= i < lines.len() ==> !is_fence_line(#[trigger] lines[i]),
    ensures
        crate::parse::parse_all_from(lines, pos) == Some(
            lines.skip(pos).map_values(|l: Seq<char>| ChunkModel::Verbatim(l)),
        ),
    decreases lines.len() - pos,
{
    let f = |l: Seq<char>| ChunkModel::Verbatim(l);
    if pos >= lines.len() {
        assert(lines.skip(pos).map_values(f) =~~= Seq::<ChunkModel>::empty());
    } else {
        lemma_parse_verbatim_from(lines, pos + 1);
        assert(lines.skip(pos).map_values(f)[0] == ChunkModel::Verbatim(lines[pos]));
        assert(seq![ChunkModel::Verbatim(lines[pos])] + lines.skip(pos + 1).map_values(f)
            =~~= lines.skip(pos).map_values(f));
    }
}

proof fn lemma_render_verbatim(ls: Seq<Seq<char>>)
    ensures
        render_all(ls.map_values(|l: Seq<char>| ChunkModel::Verbatim(l))) == Some(concat_all(ls)),
    decreases ls.len(),
{
    let f = |l: Seq<char>| ChunkModel::Verbatim(l);
    if ls.len() == 0 {
        assert(ls.map_values(f) =~~= Seq::<ChunkModel>::empty());
    } else {
        lemma_render_verbatim(ls.skip(1));
        assert(ls.map_values(f).skip(1) =~~= ls.skip(1).map_values(f));
        assert(ls.map_values(f)[0] == ChunkModel::Verbatim(ls[0]));
    }
}

} // verus!
