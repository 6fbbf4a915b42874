//! The document parser: a line-oriented state machine that reads a document
//! as a sequence of chunks. A fence line opens a code block; contiguous
//! option header lines at its top are collected into the chunk's option
//! mapping; code lines accumulate verbatim until a closing fence, which is
//! consumed. Every other line is one verbatim chunk. The input ending inside
//! an open fence is the one parse error.

use vstd::prelude::*;
use crate::chunk::Chunk;
use crate::chunk::ChunkModel;
use crate::chunk::CodeChunk;
use crate::chunk::CodeModel;
use crate::chunk::OptionMap;
use crate::chunk::chunk_seq_view;
use crate::text::chars_vec;
use crate::text::clone_chars;
use crate::text::extend_chars;
use crate::text::find_char;
use crate::text::find_char_vec;
use crate::text::has_prefix;
use crate::text::has_prefix_chars;
use crate::text::is_fence;
use crate::text::is_fence_line;
use crate::text::lemma_find_char;
use crate::text::lines_keep;
use crate::text::skip_chars;
use crate::text::split_lines_keep;
use crate::text::string_from_chars;
use crate::text::take_chars;
use crate::text::trim_chars;
use crate::text::trim_spec;

verus! {

/// The parser's error: the input ended inside an open fence.
#[derive(Debug, Clone, Copy, PartialEq, Eq, Structural)]
pub enum ParseError {
    UnexpectedEof,
}

/// A line that begins an option header inside a code block.
pub open spec fn is_option_line(l: Seq<char>) -> bool {
    has_prefix(trim_spec(l), "#|"@)
}

/// The language tag of an opening fence line: what follows the marker,
/// trimmed.
pub open spec fn fence_lang(l: Seq<char>) -> Seq<char> {
    trim_spec(trim_spec(l).skip(3))
}

/// The key of an option line: what stands between the marker and the first
/// colon, trimmed.
pub open spec fn option_key(l: Seq<char>) -> Seq<char> {
    let rest = trim_spec(l).skip(2);
    trim_spec(rest.take(find_char(rest, ':')))
}

/// The value of an option line: what follows the first colon, trimmed. A
/// line with no colon has the empty value.
pub open spec fn option_val(l: Seq<char>) -> Seq<char> {
    let rest = trim_spec(l).skip(2);
    if find_char(rest, ':') < rest.len() {
        trim_spec(rest.skip(find_char(rest, ':') + 1))
    } else {
        Seq::empty()
    }
}

/// One step of reading: the next chunk and the position after it, the end
/// of the input, or a failure inside an open fence.
pub ghost enum ChunkStep {
    Eof,
    Next(ChunkModel, int),
    Fail,
}

/// Scans the body of an open code block: option lines are recognized only
/// while still contiguous at the top; the first other line starts code
/// accumulation; a closing fence ends the block and is consumed; the end of
/// the input is a failure.
pub open spec fn scan_block(
    lines: Seq<Seq<char>>,
    i: int,
    reading_options: bool,
    opts: Map<Seq<char>, Seq<char>>,
    code: Seq<char>,
    lang: Seq<char>,
) -> ChunkStep
    decreases lines.len() - i,
{
    if i < 0 || i >= lines.len() {
        ChunkStep::Fail
    } else {
        let l = lines[i];
        if reading_options && is_option_line(l) {
            scan_block(lines, i + 1, true, opts.insert(option_key(l), option_val(l)), code, lang)
        } else if is_fence_line(l) {
            ChunkStep::Next(ChunkModel::Code(CodeModel { lang, options: opts, code }), i + 1)
        } else {
            scan_block(lines, i + 1, false, opts, code + l, lang)
        }
    }
}

/// Reads one chunk starting at `pos`: a fence line opens a code block, any
/// other line is one verbatim chunk.
pub open spec fn chunk_at(lines: Seq<Seq<char>>, pos: int) -> ChunkStep {
    if pos < 0 || pos >= lines.len() {
        ChunkStep::Eof
    } else if is_fence_line(lines[pos]) {
        scan_block(lines, pos + 1, true, Map::empty(), Seq::empty(), fence_lang(lines[pos]))
    } else {
        ChunkStep::Next(ChunkModel::Verbatim(lines[pos]), pos + 1)
    }
}

pub proof fn lemma_scan_block_advances(
    lines: Seq<Seq<char>>,
    i: int,
    reading_options: bool,
    opts: Map<Seq<char>, Seq<char>>,
    code: Seq<char>,
    lang: Seq<char>,
)
    ensures
        match scan_block(lines, i, reading_options, opts, code, lang) {
            ChunkStep::Next(m, p) => i < p <= lines.len(),
            _ => true,
        },
    decreases lines.len() - i,
{
    if i < 0 || i >= lines.len() {
    } else {
        let l = lines[i];
        if reading_options && is_option_line(l) {
            lemma_scan_block_advances(
                lines,
                i + 1,
                true,
                opts.insert(option_key(l), option_val(l)),
                code,
                lang,
            );
        } else if is_fence_line(l) {
        } else {
            lemma_scan_block_advances(lines, i + 1, false, opts, code + l, lang);
        }
    }
}

pub proof fn lemma_chunk_at_advances(lines: Seq<Seq<char>>, pos: int)
    ensures
        match chunk_at(lines, pos) {
            ChunkStep::Next(m, p) => pos < p <= lines.len(),
            _ => true,
        },
{
    if 0 <= pos < lines.len() && is_fence_line(lines[pos]) {
        lemma_scan_block_advances(
            lines,
            pos + 1,
            true,
            Map::empty(),
            Seq::empty(),
            fence_lang(lines[pos]),
        );
    }
}

/// The models of all chunks from `pos` on, or `None` if the input ends
/// inside an open fence.
pub open spec fn parse_all_from(lines: Seq<Seq<char>>, pos: int) -> Option<Seq<ChunkModel>>
    decreases lines.len() - pos,
{
    if pos < 0 || pos >= lines.len() {
        Some(Seq::empty())
    } else {
        match chunk_at(lines, pos) {
            ChunkStep::Eof => Some(Seq::empty()),
            ChunkStep::Fail => None,
            ChunkStep::Next(m, p) => if pos < p <= lines.len() {
                match parse_all_from(lines, p) {
                    Some(rest) => Some(seq![m] + rest),
                    None => None,
                }
            } else {
                None
            },
        }
    }
}

/// The chunk sequence of a whole document.
pub open spec fn parse_doc(s: Seq<char>) -> Option<Seq<ChunkModel>> {
    parse_all_from(lines_keep(s), 0)
}

fn is_option(v: &Vec<char>) -> (r: bool)
    ensures
        r == is_option_line(v@),
{
    let t = trim_chars(v);
    let p = chars_vec("#|");
    has_prefix_chars(&t, &p)
}

/// A cursor over the lines of a document that hands out one chunk at a
/// time.
pub struct DocumentParser {
    lines: Vec<Vec<char>>,
    pos: usize,
}

impl DocumentParser {
    /// The lines of the document, line breaks kept.
    pub closed spec fn lines_view(&self) -> Seq<Seq<char>> {
        self.lines.deep_view()
    }

    /// The position of the next unread line.
    pub closed spec fn pos_view(&self) -> int {
        self.pos as int
    }

    pub open spec fn wf(&self) -> bool {
        0 <= self.pos_view() <= self.lines_view().len()
    }

    /// A parser at the start of the given document.
    pub fn new(input: &str) -> (r: DocumentParser)
        ensures
            r.lines_view() == lines_keep(input@),
            r.pos_view() == 0,
            r.wf(),
    {
        let v = chars_vec(input);
        let lines = split_lines_keep(&v);
        DocumentParser { lines, pos: 0 }
    }

    /// Reads the next chunk; `None` at the end of the input; an error when
    /// the input ends inside an open fence.
    pub fn read_chunk(&mut self) -> (r: Result<Option<Chunk>, ParseError>)
        requires
            old(self).wf(),
        ensures
            final(self).wf(),
            final(self).lines_view() == old(self).lines_view(),
            match chunk_at(old(self).lines_view(), old(self).pos_view()) {
                ChunkStep::Eof => r == Ok::<Option<Chunk>, ParseError>(None)
                    && final(self).pos_view() == old(self).pos_view(),
                ChunkStep::Next(m, p) => match r {
                    Ok(Some(c)) => c@ == m && final(self).pos_view() == p,
                    _ => false,
                },
                ChunkStep::Fail => r == Err::<Option<Chunk>, ParseError>(
                    ParseError::UnexpectedEof,
                ),
            },
    {
        let ghost all = self.lines.deep_view();
        let ghost start = self.pos as int;
        if self.pos >= self.lines.len() {
            return Ok(None);
        }
        let line0 = clone_chars(&self.lines[self.pos]);
        proof {
            assert(all[start] == self.lines@[start]@);
        }
        if !is_fence(&line0) {
            let s = string_from_chars(&line0);
            self.pos = self.pos + 1;
            return Ok(Some(Chunk::Verbatim(s)));
        }
        // an opening fence: take the language tag, then scan the block
        let t0 = trim_chars(&line0);
        proof {
            reveal_strlit("```");
            assert(trim_spec(all[start]).len() >= 3);
        }
        let lang_chars = trim_chars(&skip_chars(&t0, 3));
        let ghost lang = fence_lang(all[start]);
        proof {
            assert(lang_chars@ == lang);
        }
        let mut options = OptionMap::new();
        let mut code: Vec<char> = Vec::new();
        let mut reading_options = true;
        self.pos = self.pos + 1;
        proof {
            assert(code@ =~= Seq::<char>::empty());
        }
        while self.pos < self.lines.len()
            invariant
                all == self.lines.deep_view(),
                all == old(self).lines_view(),
                0 <= start < all.len(),
                start == old(self).pos_view(),
                is_fence_line(all[start]),
                lang == fence_lang(all[start]),
                lang_chars@ == lang,
                start + 1 <= self.pos as int <= all.len(),
                all.len() == self.lines@.len(),
                scan_block(all, start + 1, true, Map::empty(), Seq::empty(), lang) == scan_block(
                    all,
                    self.pos as int,
                    reading_options,
                    options@,
                    code@,
                    lang,
                ),
            decreases all.len() - self.pos,
        {
            let line = clone_chars(&self.lines[self.pos]);
            let ghost i = self.pos as int;
            proof {
                assert(all[i] == self.lines@[i]@);
            }
            let opt = reading_options && is_option(&line);
            if opt {
                let t = trim_chars(&line);
                proof {
                    reveal_strlit("#|");
                    assert(trim_spec(all[i]).len() >= 2);
                }
                let rest = skip_chars(&t, 2);
                let k = find_char_vec(&rest, ':');
                proof {
                    lemma_find_char(rest@, ':');
                }
                let key = string_from_chars(&trim_chars(&take_chars(&rest, k)));
                let val = if k < rest.len() {
                    string_from_chars(&trim_chars(&skip_chars(&rest, k + 1)))
                } else {
                    String::new()
                };
                proof {
                    assert(key@ == option_key(all[i]));
                    assert(val@ == option_val(all[i]));
                }
                let ghost old_opts = options@;
                options = options.insert(key, val);
                self.pos = self.pos + 1;
                proof {
                    assert(scan_block(all, i, true, old_opts, code@, lang) == scan_block(
                        all,
                        i + 1,
                        true,
                        old_opts.insert(option_key(all[i]), option_val(all[i])),
                        code@,
                        lang,
                    ));
                }
            } else if is_fence(&line) {
                self.pos = self.pos + 1;
                let ghost opts_now = options@;
                let lang_str = string_from_chars(&lang_chars);
                let code_str = string_from_chars(&code);
                let c = Chunk::Code(CodeChunk { lang: lang_str, options, code: code_str });
                proof {
                    assert(scan_block(all, i, reading_options, opts_now, code@, lang)
                        == ChunkStep::Next(
                        ChunkModel::Code(CodeModel { lang, options: opts_now, code: code@ }),
                        i + 1,
                    ));
                    assert(chunk_at(all, start) == ChunkStep::Next(c@, self.pos as int));
                }
                return Ok(Some(c));
            } else {
                reading_options = false;
                let ghost old_code = code@;
                extend_chars(&mut code, &line);
                self.pos = self.pos + 1;
                proof {
                    assert(scan_block(all, i, reading_options, options@, old_code, lang)
                        == scan_block(all, i + 1, false, options@, old_code + all[i], lang));
                }
            }
        }
        Err(ParseError::UnexpectedEof)
    }
}

/// Parses a whole document into its chunk sequence.
pub fn parse_document(input: &str) -> (r: Result<Vec<Chunk>, ParseError>)
    ensures
        match r {
            Ok(cs) => parse_doc(input@) == Some(chunk_seq_view(cs@)),
            Err(e) => parse_doc(input@) == Option::<Seq<ChunkModel>>::None && e
                == ParseError::UnexpectedEof,
        },
{
    let mut parser = DocumentParser::new(input);
    let ghost all = parser.lines_view();
    let mut chunks: Vec<Chunk> = Vec::new();
    proof {
        assert(chunk_seq_view(chunks@) =~~= Seq::<ChunkModel>::empty());
    }
    loop
        invariant
            parser.wf(),
            parser.lines_view() == all,
            all == lines_keep(input@),
            parse_all_from(all, 0) matches Some(full) ==> (parse_all_from(
                all,
                parser.pos_view(),
            ) matches Some(rest) && full == chunk_seq_view(chunks@) + rest),
            parse_all_from(all, 0) is None ==> parse_all_from(all, parser.pos_view()) is None,
        decreases all.len() - parser.pos_view(),
    {
        let ghost p0 = parser.pos_view();
        proof {
            lemma_chunk_at_advances(all, p0);
        }
        let step = parser.read_chunk();
        match step {
            Ok(Some(c)) => {
                let ghost old_chunks = chunks@;
                chunks.push(c);
                proof {
                    assert(chunk_seq_view(chunks@) =~~= chunk_seq_view(old_chunks) + seq![c@]);
                    if parse_all_from(all, 0) is Some {
                        match parse_all_from(all, p0) {
                            Some(rest) => {
                                match parse_all_from(all, parser.pos_view()) {
                                    Some(tail) => {
                                        assert(rest == seq![c@] + tail);
                                        assert(chunk_seq_view(old_chunks) + rest
                                            =~~= chunk_seq_view(chunks@) + tail);
                                    },
                                    None => {},
                                }
                            },
                            None => {},
                        }
                    }
                }
            },
            Ok(None) => {
                proof {
                    if parse_all_from(all, 0) is Some {
                        assert(parse_all_from(all, p0) == Some(Seq::<ChunkModel>::empty()));
                        assert(chunk_seq_view(chunks@) + Seq::<ChunkModel>::empty()
                            =~~= chunk_seq_view(chunks@));
                    }
                }
                return Ok(chunks);
            },
            Err(e) => {
                return Err(e);
            },
        }
    }
}

} // verus!
