//! The markup-table-to-native-table transform: parses pipe-delimited table
//! blocks and re-emits them as native table directives, protecting the
//! contents of raw fenced regions.

use vstd::prelude::*;
use vstd::string::StringExecFns;
use crate::text::append_chars;
use crate::text::clone_chars;
use crate::text::has_prefix;
use crate::text::is_fence_line;
use crate::text::is_pipe_line;
use crate::text::is_fence;
use crate::text::is_pipe;
use crate::text::chars_vec;
use crate::text::string_from_chars;
use crate::text::trim_chars;
use crate::text::trim_spec;
use crate::text::lines_of;
use crate::text::split_lines;
use crate::text::join_with;
use crate::text::concat_all;
use crate::text::lemma_join_push;
use crate::text::lemma_concat_all_push;
use crate::text::append_nl_all;
use crate::text::lemma_lines_of_no_newline;
use crate::text::lemma_lines_of_append_nl;

verus! {

/// The first part extended on the left with `p`.
pub open spec fn prepend_first(p: Seq<char>, ss: Seq<Seq<char>>) -> Seq<Seq<char>> {
    seq![p + ss[0]] + ss.skip(1)
}

/// Splitting on `c` where a backslash suppresses a split at the delimiter
/// that immediately follows it; backslashes themselves are dropped.
pub open spec fn slash_split_rec(s: Seq<char>, c: char, esc: bool) -> Seq<Seq<char>>
    decreases s.len(),
{
    if s.len() == 0 {
        seq![Seq::<char>::empty()]
    } else if s[0] == '\\' {
        slash_split_rec(s.skip(1), c, true)
    } else if s[0] == c && !esc {
        seq![Seq::<char>::empty()] + slash_split_rec(s.skip(1), c, false)
    } else {
        prepend_first(seq![s[0]], slash_split_rec(s.skip(1), c, false))
    }
}

pub open spec fn slash_split(s: Seq<char>, c: char) -> Seq<Seq<char>> {
    slash_split_rec(s, c, false)
}

pub proof fn lemma_slash_split_len(s: Seq<char>, c: char, esc: bool)
    ensures
        slash_split_rec(s, c, esc).len() >= 1,
    decreases s.len(),
{
    if s.len() == 0 {
    } else if s[0] == '\\' {
        lemma_slash_split_len(s.skip(1), c, true);
    } else {
        lemma_slash_split_len(s.skip(1), c, false);
    }
}

/// Plain splitting on `c`, with no escape handling.
pub open spec fn plain_split(s: Seq<char>, c: char) -> Seq<Seq<char>>
    decreases s.len(),
{
    if s.len() == 0 {
        seq![Seq::<char>::empty()]
    } else if s[0] == c {
        seq![Seq::<char>::empty()] + plain_split(s.skip(1), c)
    } else {
        prepend_first(seq![s[0]], plain_split(s.skip(1), c))
    }
}

pub proof fn lemma_plain_split_len(s: Seq<char>, c: char)
    ensures
        plain_split(s, c).len() >= 1,
    decreases s.len(),
{
    if s.len() == 0 {
    } else {
        lemma_plain_split_len(s.skip(1), c);
    }
}

/// Escape-aware split over character vectors.
fn split_chars_escaped(v: &Vec<char>, c: char) -> (r: Vec<Vec<char>>)
    ensures
        r.deep_view() == slash_split(v@, c),
{
    let mut parts: Vec<Vec<char>> = Vec::new();
    let mut part: Vec<char> = Vec::new();
    let mut escape = false;
    let mut i: usize = 0;
    proof {
        assert(v@.skip(0) =~= v@);
        lemma_slash_split_len(v@, c, false);
        assert(parts.deep_view() =~~= Seq::<Seq<char>>::empty());
        assert(part@ + slash_split(v@, c)[0] =~= slash_split(v@, c)[0]);
        assert(parts.deep_view() + prepend_first(part@, slash_split_rec(v@.skip(0), c, false))
            =~~= slash_split(v@, c));
    }
    while i < v.len()
        invariant
            i <= v@.len(),
            slash_split(v@, c) == parts.deep_view() + prepend_first(
                part@,
                slash_split_rec(v@.skip(i as int), c, escape),
            ),
        decreases v@.len() - i,
    {
        let ch = v[i];
        let ghost rest = v@.skip(i as int);
        let ghost old_esc = escape;
        proof {
            assert(rest.skip(1) =~= v@.skip(i + 1));
            assert(rest[0] == v@[i as int]);
            lemma_slash_split_len(v@.skip(i + 1), c, true);
            lemma_slash_split_len(v@.skip(i + 1), c, false);
        }
        if ch == '\\' {
            escape = true;
            proof {
                assert(slash_split_rec(rest, c, old_esc) == slash_split_rec(
                    v@.skip(i + 1),
                    c,
                    true,
                ));
            }
        } else if ch == c && !escape {
            let ghost r = slash_split_rec(v@.skip(i + 1), c, false);
            let ghost old_parts = parts.deep_view();
            let ghost old_part = part@;
            proof {
                assert(slash_split_rec(rest, c, old_esc) == seq![Seq::<char>::empty()] + r);
                assert(prepend_first(old_part, seq![Seq::<char>::empty()] + r) =~~= seq![old_part]
                    + r);
            }
            parts.push(part);
            part = Vec::new();
            proof {
                assert(parts.deep_view() =~~= old_parts + seq![old_part]);
                assert(prepend_first(part@, r) =~~= r);
                assert((old_parts + seq![old_part]) + r =~~= old_parts + (seq![old_part] + r));
            }
        } else {
            let ghost r = slash_split_rec(v@.skip(i + 1), c, false);
            let ghost old_part = part@;
            part.push(ch);
            escape = false;
            proof {
                assert(slash_split_rec(rest, c, old_esc) == prepend_first(seq![ch], r));
                assert((seq![seq![ch] + r[0]] + r.skip(1)).skip(1) =~= r.skip(1));
                assert(prepend_first(old_part, prepend_first(seq![ch], r)) =~~= seq![old_part + (
                seq![ch] + r[0])] + r.skip(1));
                assert(old_part + (seq![ch] + r[0]) =~= part@ + r[0]);
                assert(prepend_first(old_part, prepend_first(seq![ch], r)) =~~= prepend_first(
                    part@,
                    r,
                ));
            }
        }
        i = i + 1;
    }
    let ghost old_parts = parts.deep_view();
    let ghost old_part = part@;
    proof {
        assert(v@.skip(i as int) =~= Seq::<char>::empty());
        assert(slash_split_rec(Seq::<char>::empty(), c, escape) == seq![Seq::<char>::empty()]);
        assert(prepend_first(old_part, seq![Seq::<char>::empty()]) =~~= seq![old_part]);
    }
    parts.push(part);
    proof {
        assert(parts.deep_view() =~~= old_parts + seq![old_part]);
    }
    parts
}

/// Plain split over character vectors.
fn split_chars_plain(v: &Vec<char>, c: char) -> (r: Vec<Vec<char>>)
    ensures
        r.deep_view() == plain_split(v@, c),
{
    let mut parts: Vec<Vec<char>> = Vec::new();
    let mut part: Vec<char> = Vec::new();
    let mut i: usize = 0;
    proof {
        assert(v@.skip(0) =~= v@);
        lemma_plain_split_len(v@, c);
        assert(parts.deep_view() =~~= Seq::<Seq<char>>::empty());
        assert(part@ + plain_split(v@, c)[0] =~= plain_split(v@, c)[0]);
        assert(parts.deep_view() + prepend_first(part@, plain_split(v@.skip(0), c)) =~~= plain_split(
            v@,
            c,
        ));
    }
    while i < v.len()
        invariant
            i <= v@.len(),
            plain_split(v@, c) == parts.deep_view() + prepend_first(
                part@,
                plain_split(v@.skip(i as int), c),
            ),
        decreases v@.len() - i,
    {
        let ch = v[i];
        let ghost rest = v@.skip(i as int);
        proof {
            assert(rest.skip(1) =~= v@.skip(i + 1));
            assert(rest[0] == v@[i as int]);
            lemma_plain_split_len(v@.skip(i + 1), c);
        }
        if ch == c {
            let ghost r = plain_split(v@.skip(i + 1), c);
            let ghost old_parts = parts.deep_view();
            let ghost old_part = part@;
            proof {
                assert(plain_split(rest, c) == seq![Seq::<char>::empty()] + r);
                assert(prepend_first(old_part, seq![Seq::<char>::empty()] + r) =~~= seq![old_part]
                    + r);
            }
            parts.push(part);
            part = Vec::new();
            proof {
                assert(parts.deep_view() =~~= old_parts + seq![old_part]);
                assert(prepend_first(part@, r) =~~= r);
                assert((old_parts + seq![old_part]) + r =~~= old_parts + (seq![old_part] + r));
            }
        } else {
            let ghost r = plain_split(v@.skip(i + 1), c);
            let ghost old_part = part@;
            part.push(ch);
            proof {
                assert(plain_split(rest, c) == prepend_first(seq![ch], r));
                assert((seq![seq![ch] + r[0]] + r.skip(1)).skip(1) =~= r.skip(1));
                assert(prepend_first(old_part, prepend_first(seq![ch], r)) =~~= seq![old_part + (
                seq![ch] + r[0])] + r.skip(1));
                assert(old_part + (seq![ch] + r[0]) =~= part@ + r[0]);
                assert(prepend_first(old_part, prepend_first(seq![ch], r)) =~~= prepend_first(
                    part@,
                    r,
                ));
            }
        }
        i = i + 1;
    }
    let ghost old_parts = parts.deep_view();
    let ghost old_part = part@;
    proof {
        assert(v@.skip(i as int) =~= Seq::<char>::empty());
        assert(plain_split(Seq::<char>::empty(), c) == seq![Seq::<char>::empty()]);
        assert(prepend_first(old_part, seq![Seq::<char>::empty()]) =~~= seq![old_part]);
    }
    parts.push(part);
    proof {
        assert(parts.deep_view() =~~= old_parts + seq![old_part]);
    }
    parts
}

/// Splits `s` on `c`, except where the delimiter is escaped by an
/// immediately preceding backslash; backslashes are dropped from the parts.
pub fn slash_aware_split(s: &str, c: char) -> (r: Vec<String>)
    ensures
        r.deep_view() == slash_split(s@, c),
{
    let v = chars_vec(s);
    let parts = split_chars_escaped(&v, c);
    crate::text::strings_from_char_lines(parts)
}

/// The per-column alignment of a table.
#[derive(Clone, Copy, PartialEq, Eq, Structural, Debug)]
pub enum Align {
    Left,
    Center,
    Right,
}

/// A parsed pipe-delimited table: ordered headers, per-column alignment,
/// and data rows of string cells.
#[derive(Debug, PartialEq)]
pub struct MarkdownTable {
    pub headers: Vec<String>,
    pub aligns: Vec<Align>,
    pub rows: Vec<Vec<String>>,
}

pub ghost struct TableModel {
    pub headers: Seq<Seq<char>>,
    pub aligns: Seq<Align>,
    pub rows: Seq<Seq<Seq<char>>>,
}

impl View for MarkdownTable {
    type V = TableModel;

    open spec fn view(&self) -> TableModel {
        TableModel {
            headers: self.headers.deep_view(),
            aligns: self.aligns@,
            rows: self.rows.deep_view(),
        }
    }
}

/// The cells of a split line framed by the delimiter: everything but the
/// first and the last part.
pub open spec fn inner_cells(ss: Seq<Seq<char>>) -> Seq<Seq<char>> {
    if ss.len() <= 1 {
        Seq::empty()
    } else {
        ss.subrange(1, ss.len() - 1)
    }
}

/// The alignment denoted by one cell of the alignment row: a leading and a
/// trailing colon decide, defaulting to left.
pub open spec fn align_of_cell(cell: Seq<char>) -> Align {
    let t = trim_spec(cell);
    if t.len() > 0 && t[0] == ':' && t[t.len() - 1] == ':' {
        Align::Center
    } else if t.len() > 0 && t[0] == ':' {
        Align::Left
    } else if t.len() > 0 && t[t.len() - 1] == ':' {
        Align::Right
    } else {
        Align::Left
    }
}

/// The table described by an accumulated block of lines: the first line
/// gives the headers, the second the alignments, the rest the data rows.
/// Header and alignment lines split plainly; data rows split escape-aware.
pub open spec fn table_of_lines(lines: Seq<Seq<char>>) -> TableModel {
    TableModel {
        headers: inner_cells(plain_split(lines[0], '|')).map_values(|p: Seq<char>| trim_spec(p)),
        aligns: inner_cells(plain_split(lines[1], '|')).map_values(|p: Seq<char>| align_of_cell(p)),
        rows: lines.skip(2).map_values(
            |l: Seq<char>| inner_cells(slash_split(l, '|')).map_values(
                |p: Seq<char>| trim_spec(p),
            ),
        ),
    }
}

fn align_of(cell: &Vec<char>) -> (r: Align)
    ensures
        r == align_of_cell(cell@),
{
    let t = trim_chars(cell);
    let n = t.len();
    if n > 0 && t[0] == ':' && t[n - 1] == ':' {
        Align::Center
    } else if n > 0 && t[0] == ':' {
        Align::Left
    } else if n > 0 && t[n - 1] == ':' {
        Align::Right
    } else {
        Align::Left
    }
}

/// The inner cells of a split line, trimmed.
fn inner_trimmed(parts: &Vec<Vec<char>>) -> (r: Vec<String>)
    ensures
        r.deep_view() == inner_cells(parts.deep_view()).map_values(|p: Seq<char>| trim_spec(p)),
{
    let ghost target = inner_cells(parts.deep_view()).map_values(|p: Seq<char>| trim_spec(p));
    let mut r: Vec<String> = Vec::new();
    if parts.len() <= 1 {
        proof {
            assert(r.deep_view() =~~= target);
        }
        return r;
    }
    let mut i: usize = 1;
    while i < parts.len() - 1
        invariant
            parts@.len() >= 2,
            1 <= i <= parts@.len() - 1,
            parts@.len() == parts.deep_view().len(),
            target == inner_cells(parts.deep_view()).map_values(|p: Seq<char>| trim_spec(p)),
            r.deep_view() == target.subrange(0, i - 1),
        decreases parts@.len() - i,
    {
        let ghost old_r = r.deep_view();
        let t = trim_chars(&parts[i]);
        let s = string_from_chars(&t);
        r.push(s);
        i = i + 1;
        proof {
            assert(parts.deep_view()[i - 1] == parts@[i - 1]@);
            assert(inner_cells(parts.deep_view())[i - 2] == parts.deep_view()[i - 1]);
            assert(target[i - 2] == trim_spec(parts.deep_view()[i - 1]));
            assert(r.deep_view() =~~= old_r + seq![trim_spec(parts.deep_view()[i - 1])]);
            assert(r.deep_view() =~~= target.subrange(0, i - 1));
        }
    }
    proof {
        assert(target.subrange(0, target.len() as int) =~= target);
        assert(r.deep_view() =~~= target);
    }
    r
}

/// The inner cells of a split alignment line, interpreted.
fn inner_aligns(parts: &Vec<Vec<char>>) -> (r: Vec<Align>)
    ensures
        r@ == inner_cells(parts.deep_view()).map_values(|p: Seq<char>| align_of_cell(p)),
{
    let ghost target = inner_cells(parts.deep_view()).map_values(|p: Seq<char>| align_of_cell(p));
    let mut r: Vec<Align> = Vec::new();
    if parts.len() <= 1 {
        proof {
            assert(r@ =~= target);
        }
        return r;
    }
    let mut i: usize = 1;
    while i < parts.len() - 1
        invariant
            parts@.len() >= 2,
            1 <= i <= parts@.len() - 1,
            parts@.len() == parts.deep_view().len(),
            target == inner_cells(parts.deep_view()).map_values(|p: Seq<char>| align_of_cell(p)),
            r@ == target.subrange(0, i - 1),
        decreases parts@.len() - i,
    {
        let a = align_of(&parts[i]);
        r.push(a);
        i = i + 1;
        proof {
            assert(parts.deep_view()[i - 1] == parts@[i - 1]@);
            assert(inner_cells(parts.deep_view())[i - 2] == parts.deep_view()[i - 1]);
            assert(target[i - 2] == align_of_cell(parts.deep_view()[i - 1]));
            assert(r@ =~= target.subrange(0, i - 1));
        }
    }
    proof {
        assert(target.subrange(0, target.len() as int) =~= target);
        assert(r@ =~= target);
    }
    r
}

/// Parses an accumulated table block given as its lines.
fn parse_lines(lines: &Vec<Vec<char>>) -> (r: MarkdownTable)
    requires
        lines.deep_view().len() >= 2,
    ensures
        r@ == table_of_lines(lines.deep_view()),
{
    proof {
        assert(lines@.len() == lines.deep_view().len());
    }
    let header_parts = split_chars_plain(&lines[0], '|');
    proof {
        assert(lines.deep_view()[0] == lines@[0]@);
    }
    let headers = inner_trimmed(&header_parts);
    let align_parts = split_chars_plain(&lines[1], '|');
    proof {
        assert(lines.deep_view()[1] == lines@[1]@);
    }
    let aligns = inner_aligns(&align_parts);
    let ghost target_rows = table_of_lines(lines.deep_view()).rows;
    let mut rows: Vec<Vec<String>> = Vec::new();
    let mut j: usize = 2;
    proof {
        assert(rows.deep_view() =~~= target_rows.subrange(0, 0));
    }
    while j < lines.len()
        invariant
            2 <= j <= lines@.len(),
            lines@.len() >= 2,
            lines@.len() == lines.deep_view().len(),
            target_rows == table_of_lines(lines.deep_view()).rows,
            target_rows.len() == lines@.len() - 2,
            rows.deep_view() == target_rows.subrange(0, j - 2),
        decreases lines@.len() - j,
    {
        let ghost old_rows = rows.deep_view();
        let row_parts = split_chars_escaped(&lines[j], '|');
        let row = inner_trimmed(&row_parts);
        rows.push(row);
        j = j + 1;
        proof {
            assert(lines.deep_view()[j - 1] == lines@[j - 1]@);
            assert(lines.deep_view().skip(2)[j - 3] == lines.deep_view()[j - 1]);
            assert(target_rows[j - 3] == inner_cells(slash_split(
                lines.deep_view()[j - 1],
                '|',
            )).map_values(|p: Seq<char>| trim_spec(p)));
            assert(rows.deep_view() =~~= old_rows + seq![target_rows[j - 3]]);
            assert(rows.deep_view() =~~= target_rows.subrange(0, j - 2));
        }
    }
    proof {
        assert(target_rows.subrange(0, target_rows.len() as int) =~= target_rows);
    }
    let r = MarkdownTable { headers, aligns, rows };
    proof {
        assert(r@ == table_of_lines(lines.deep_view()));
    }
    r
}

impl MarkdownTable {
    /// Parses an accumulated table block: the first line holds the headers,
    /// the second the alignment markers, the remaining lines the data rows.
    pub fn parse(input: &str) -> (r: MarkdownTable)
        requires
            lines_of(input@).len() >= 2,
        ensures
            r@ == table_of_lines(lines_of(input@)),
    {
        let v = chars_vec(input);
        let lines = split_lines(&v);
        parse_lines(&lines)
    }
}

/// The native name of an alignment.
pub open spec fn align_name(a: Align) -> Seq<char> {
    match a {
        Align::Left => "left"@,
        Align::Center => "center"@,
        Align::Right => "right"@,
    }
}

fn align_str(a: Align) -> (r: &'static str)
    ensures
        r@ == align_name(a),
{
    match a {
        Align::Left => "left",
        Align::Center => "center",
        Align::Right => "right",
    }
}

/// One table cell wrapped as a bracketed element.
pub open spec fn cell_wrap(s: Seq<char>) -> Seq<char> {
    "["@ + s + "],"@
}

/// One automatic column width per header.
pub open spec fn auto_cols(n: nat) -> Seq<Seq<char>> {
    Seq::new(n, |i: int| "auto"@)
}

/// All cells of all rows, wrapped, in row-major order.
pub open spec fn row_cells(rows: Seq<Seq<Seq<char>>>) -> Seq<char> {
    concat_all(
        rows.map_values(
            |row: Seq<Seq<char>>| concat_all(row.map_values(|p: Seq<char>| cell_wrap(p))),
        ),
    )
}

/// The native table directive for a table: explicit column count, explicit
/// per-column alignment list, then every header and row cell bracketed, in
/// row-major order.
pub open spec fn typst_table_spec(t: TableModel) -> Seq<char> {
    "#table(\ncolumns: ("@ + join_with(auto_cols(t.headers.len()), ", "@) + "),\nalign: ("@
        + join_with(t.aligns.map_values(|a: Align| align_name(a)), ", "@) + "),\n"@ + concat_all(
        t.headers.map_values(|h: Seq<char>| cell_wrap(h)),
    ) + "\n"@ + row_cells(t.rows) + "\n)"@
}

impl MarkdownTable {
    /// Emits this table as a native table directive.
    pub fn to_typst_table(&self) -> (r: String)
        ensures
            r@ == typst_table_spec(self@),
    {
        let ghost autos = auto_cols(self.headers@.len() as nat);
        let ghost ans = self.aligns@.map_values(|a: Align| align_name(a));
        let ghost hcs = self.headers.deep_view().map_values(|h: Seq<char>| cell_wrap(h));
        let mut r = String::new();
        r.append("#table(\ncolumns: (");
        let ghost p1 = "#table(\ncolumns: ("@;
        proof {
            assert(r@ =~= p1 + join_with(autos.subrange(0, 0), ", "@));
        }
        let mut i: usize = 0;
        while i < self.headers.len()
            invariant
                i <= self.headers@.len(),
                autos == auto_cols(self.headers@.len() as nat),
                r@ == p1 + join_with(autos.subrange(0, i as int), ", "@),
        decreases self.headers@.len() - i,
        {
            if i > 0 {
                r.append(", ");
            }
            r.append("auto");
            proof {
                lemma_join_push(autos.subrange(0, i as int), "auto"@, ", "@);
                assert(autos.subrange(0, i + 1) =~= autos.subrange(0, i as int).push("auto"@));
                if i > 0 {
                    assert(p1 + (join_with(autos.subrange(0, i as int), ", "@) + ", "@ + "auto"@)
                        =~= (p1 + join_with(autos.subrange(0, i as int), ", "@)) + ", "@
                        + "auto"@);
                } else {
                    assert(join_with(autos.subrange(0, 0), ", "@) + "auto"@ =~= "auto"@);
                }
            }
            i = i + 1;
        }
        proof {
            assert(autos.subrange(0, autos.len() as int) =~= autos);
        }
        r.append("),\nalign: (");
        let ghost p2 = p1 + join_with(autos, ", "@) + "),\nalign: ("@;
        proof {
            assert(r@ =~= p2 + join_with(ans.subrange(0, 0), ", "@));
        }
        let mut i: usize = 0;
        while i < self.aligns.len()
            invariant
                i <= self.aligns@.len(),
                ans == self.aligns@.map_values(|a: Align| align_name(a)),
                r@ == p2 + join_with(ans.subrange(0, i as int), ", "@),
            decreases self.aligns@.len() - i,
        {
            if i > 0 {
                r.append(", ");
            }
            r.append(align_str(self.aligns[i]));
            proof {
                lemma_join_push(ans.subrange(0, i as int), ans[i as int], ", "@);
                assert(ans.subrange(0, i + 1) =~= ans.subrange(0, i as int).push(ans[i as int]));
                if i > 0 {
                    assert(p2 + (join_with(ans.subrange(0, i as int), ", "@) + ", "@
                        + ans[i as int]) =~= (p2 + join_with(ans.subrange(0, i as int), ", "@))
                        + ", "@ + ans[i as int]);
                } else {
                    assert(join_with(ans.subrange(0, 0), ", "@) + ans[0] =~= ans[0]);
                }
            }
            i = i + 1;
        }
        proof {
            assert(ans.subrange(0, ans.len() as int) =~= ans);
        }
        r.append("),\n");
        let ghost p3 = p2 + join_with(ans, ", "@) + "),\n"@;
        proof {
            assert(r@ =~= p3 + concat_all(hcs.subrange(0, 0)));
        }
        let mut i: usize = 0;
        while i < self.headers.len()
            invariant
                i <= self.headers@.len(),
                self.headers@.len() == self.headers.deep_view().len(),
                hcs == self.headers.deep_view().map_values(|h: Seq<char>| cell_wrap(h)),
                r@ == p3 + concat_all(hcs.subrange(0, i as int)),
            decreases self.headers@.len() - i,
        {
            r.append("[");
            r.append(self.headers[i].as_str());
            r.append("],");
            proof {
                assert(self.headers.deep_view()[i as int] == self.headers@[i as int]@);
                lemma_concat_all_push(hcs.subrange(0, i as int), hcs[i as int]);
                assert(hcs.subrange(0, i + 1) =~= hcs.subrange(0, i as int).push(hcs[i as int]));
                assert(p3 + (concat_all(hcs.subrange(0, i as int)) + hcs[i as int]) =~= (p3
                    + concat_all(hcs.subrange(0, i as int))) + ("["@ + self.headers@[i as int]@
                    + "],"@));
            }
            i = i + 1;
        }
        proof {
            assert(hcs.subrange(0, hcs.len() as int) =~= hcs);
        }
        r.append("\n");
        let ghost rws = self.rows.deep_view().map_values(
            |row: Seq<Seq<char>>| concat_all(row.map_values(|p: Seq<char>| cell_wrap(p))),
        );
        let ghost p4 = p3 + concat_all(hcs) + "\n"@;
        proof {
            assert(r@ =~= p4 + concat_all(rws.subrange(0, 0)));
        }
        let mut j: usize = 0;
        while j < self.rows.len()
            invariant
                j <= self.rows@.len(),
                self.rows@.len() == self.rows.deep_view().len(),
                rws == self.rows.deep_view().map_values(
                    |row: Seq<Seq<char>>| concat_all(row.map_values(|p: Seq<char>| cell_wrap(p))),
                ),
                r@ == p4 + concat_all(rws.subrange(0, j as int)),
            decreases self.rows@.len() - j,
        {
            let row = &self.rows[j];
            let ghost rcs = row.deep_view().map_values(|p: Seq<char>| cell_wrap(p));
            let ghost p5 = p4 + concat_all(rws.subrange(0, j as int));
            proof {
                assert(r@ =~= p5 + concat_all(rcs.subrange(0, 0)));
            }
            let mut k: usize = 0;
            while k < row.len()
                invariant
                    k <= row@.len(),
                    row@.len() == row.deep_view().len(),
                    rcs == row.deep_view().map_values(|p: Seq<char>| cell_wrap(p)),
                    r@ == p5 + concat_all(rcs.subrange(0, k as int)),
                decreases row@.len() - k,
            {
                r.append("[");
                r.append(row[k].as_str());
                r.append("],");
                proof {
                    assert(row.deep_view()[k as int] == row@[k as int]@);
                    lemma_concat_all_push(rcs.subrange(0, k as int), rcs[k as int]);
                    assert(rcs.subrange(0, k + 1) =~= rcs.subrange(0, k as int).push(
                        rcs[k as int],
                    ));
                    assert(p5 + (concat_all(rcs.subrange(0, k as int)) + rcs[k as int]) =~= (p5
                        + concat_all(rcs.subrange(0, k as int))) + ("["@ + row@[k as int]@
                        + "],"@));
                }
                k = k + 1;
            }
            proof {
                assert(rcs.subrange(0, rcs.len() as int) =~= rcs);
                assert(self.rows.deep_view()[j as int] == self.rows@[j as int].deep_view());
                assert(rws[j as int] == concat_all(rcs));
                lemma_concat_all_push(rws.subrange(0, j as int), rws[j as int]);
                assert(rws.subrange(0, j + 1) =~= rws.subrange(0, j as int).push(rws[j as int]));
                assert(p4 + (concat_all(rws.subrange(0, j as int)) + rws[j as int]) =~= (p4
                    + concat_all(rws.subrange(0, j as int))) + concat_all(rcs));
            }
            j = j + 1;
        }
        proof {
            assert(rws.subrange(0, rws.len() as int) =~= rws);
        }
        r.append("\n)");
        proof {
            assert(r@ =~= typst_table_spec(self@));
        }
        r
    }
}

/// The scanner's state: outside any structure, accumulating a table block,
/// or inside a raw fenced region.
pub ghost enum ScanState {
    Normal,
    Table(Seq<Seq<char>>),
    Raw,
}

/// What an accumulated table block emits when it closes: a block of at
/// least two lines is parsed and re-emitted as a native table directive;
/// a shorter block passes through as-provided.
pub open spec fn table_block_emit(acc: Seq<Seq<char>>) -> Seq<char> {
    if acc.len() >= 2 {
        typst_table_spec(table_of_lines(acc)) + "\n"@
    } else {
        concat_all(acc.map_values(|l: Seq<char>| l + "\n"@))
    }
}

/// The three-state line scanner over the lines of the input. A fence line
/// toggles raw passthrough; a pipe line outside a raw fence begins or
/// continues table accumulation; the first non-pipe line (or the end of the
/// input) closes an accumulated table.
pub open spec fn transform_lines(lines: Seq<Seq<char>>, st: ScanState) -> Seq<char>
    decreases lines.len(),
{
    if lines.len() == 0 {
        match st {
            ScanState::Normal => Seq::empty(),
            ScanState::Raw => Seq::empty(),
            ScanState::Table(acc) => table_block_emit(acc),
        }
    } else {
        let l = lines[0];
        let rest = lines.skip(1);
        match st {
            ScanState::Normal => {
                if is_fence_line(l) {
                    l + "\n"@ + transform_lines(rest, ScanState::Raw)
                } else if is_pipe_line(l) {
                    transform_lines(rest, ScanState::Table(seq![l]))
                } else {
                    l + "\n"@ + transform_lines(rest, ScanState::Normal)
                }
            },
            ScanState::Table(acc) => {
                if is_pipe_line(l) {
                    transform_lines(rest, ScanState::Table(acc.push(l)))
                } else {
                    table_block_emit(acc) + l + "\n"@ + transform_lines(rest, ScanState::Normal)
                }
            },
            ScanState::Raw => {
                if is_fence_line(l) {
                    l + "\n"@ + transform_lines(rest, ScanState::Normal)
                } else {
                    l + "\n"@ + transform_lines(rest, ScanState::Raw)
                }
            },
        }
    }
}

/// The table transform over a complete text block.
pub open spec fn transform_spec(s: Seq<char>) -> Seq<char> {
    transform_lines(lines_of(s), ScanState::Normal)
}

/// Emits a closing table block to `out`.
fn emit_table_block(out: &mut String, acc: &Vec<Vec<char>>)
    ensures
        final(out)@ == old(out)@ + table_block_emit(acc.deep_view()),
{
    proof {
        assert(acc@.len() == acc.deep_view().len());
    }
    if acc.len() >= 2 {
        let t = parse_lines(acc);
        let s = t.to_typst_table();
        out.append(s.as_str());
        out.append("\n");
        proof {
            assert(out@ =~= old(out)@ + (typst_table_spec(table_of_lines(acc.deep_view()))
                + "\n"@));
        }
    } else if acc.len() == 1 {
        append_chars(out, &acc[0]);
        out.append("\n");
        proof {
            let m = acc.deep_view().map_values(|l: Seq<char>| l + "\n"@);
            assert(m.skip(1) =~~= Seq::<Seq<char>>::empty());
            assert(m[0] == acc.deep_view()[0] + "\n"@);
            assert(concat_all(m) == m[0] + concat_all(Seq::<Seq<char>>::empty()));
            assert(acc.deep_view()[0] == acc@[0]@);
            assert(out@ =~= old(out)@ + concat_all(m));
        }
    } else {
        proof {
            let m = acc.deep_view().map_values(|l: Seq<char>| l + "\n"@);
            assert(m.len() == 0);
            assert(out@ =~= old(out)@ + concat_all(m));
        }
    }
}

/// Converts every pipe-delimited table block in `input` to a native table
/// directive, leaving raw fenced regions untouched.
pub fn transform_tables(input: &str) -> (r: String)
    ensures
        r@ == transform_spec(input@),
{
    let v = chars_vec(input);
    let lines = split_lines(&v);
    let ghost all = lines.deep_view();
    let mut out = String::new();
    let mut in_raw = false;
    let mut acc: Vec<Vec<char>> = Vec::new();
    let mut i: usize = 0;
    proof {
        assert(all.skip(0) =~~= all);
        assert(out@ + transform_lines(all, ScanState::Normal) =~= transform_lines(
            all,
            ScanState::Normal,
        ));
    }
    while i < lines.len()
        invariant
            i <= lines@.len(),
            lines@.len() == all.len(),
            all == lines.deep_view(),
            !(in_raw && acc@.len() > 0),
            transform_spec(input@) == transform_lines(all, ScanState::Normal),
            transform_lines(all, ScanState::Normal) == out@ + transform_lines(
                all.skip(i as int),
                if in_raw {
                    ScanState::Raw
                } else if acc@.len() > 0 {
                    ScanState::Table(acc.deep_view())
                } else {
                    ScanState::Normal
                },
            ),
        decreases lines@.len() - i,
    {
        let line = &lines[i];
        let ghost rest = all.skip(i as int);
        let ghost st = if in_raw {
            ScanState::Raw
        } else if acc@.len() > 0 {
            ScanState::Table(acc.deep_view())
        } else {
            ScanState::Normal
        };
        proof {
            assert(rest.skip(1) =~~= all.skip(i + 1));
            assert(rest[0] == all[i as int]);
            assert(all[i as int] == lines@[i as int]@);
        }
        let ghost old_out = out@;
        if acc.len() > 0 {
            let ghost old_acc = acc.deep_view();
            if is_pipe(line) {
                let c = clone_chars(line);
                acc.push(c);
                proof {
                    assert(acc.deep_view() =~~= old_acc.push(all[i as int]));
                    assert(transform_lines(rest, st) == transform_lines(
                        all.skip(i + 1),
                        ScanState::Table(old_acc.push(all[i as int])),
                    ));
                }
            } else {
                emit_table_block(&mut out, &acc);
                append_chars(&mut out, line);
                out.append("\n");
                acc = Vec::new();
                proof {
                    assert(acc.deep_view() =~~= Seq::<Seq<char>>::empty());
                    assert(transform_lines(rest, st) == table_block_emit(old_acc) + all[i as int]
                        + "\n"@ + transform_lines(all.skip(i + 1), ScanState::Normal));
                    assert(out@ + transform_lines(all.skip(i + 1), ScanState::Normal) =~= old_out
                        + transform_lines(rest, st));
                }
            }
        } else if in_raw {
            append_chars(&mut out, line);
            out.append("\n");
            let fence = is_fence(line);
            if fence {
                in_raw = false;
            }
            proof {
                let next_st = if fence {
                    ScanState::Normal
                } else {
                    ScanState::Raw
                };
                assert(transform_lines(rest, st) == all[i as int] + "\n"@ + transform_lines(
                    all.skip(i + 1),
                    next_st,
                ));
                assert(out@ + transform_lines(all.skip(i + 1), next_st) =~= old_out
                    + transform_lines(rest, st));
            }
        } else {
            if is_fence(line) {
                append_chars(&mut out, line);
                out.append("\n");
                in_raw = true;
                proof {
                    assert(transform_lines(rest, st) == all[i as int] + "\n"@ + transform_lines(
                        all.skip(i + 1),
                        ScanState::Raw,
                    ));
                    assert(out@ + transform_lines(all.skip(i + 1), ScanState::Raw) =~= old_out
                        + transform_lines(rest, st));
                }
            } else if is_pipe(line) {
                let c = clone_chars(line);
                acc.push(c);
                proof {
                    assert(acc.deep_view() =~~= seq![all[i as int]]);
                    assert(transform_lines(rest, st) == transform_lines(
                        all.skip(i + 1),
                        ScanState::Table(seq![all[i as int]]),
                    ));
                }
            } else {
                append_chars(&mut out, line);
                out.append("\n");
                proof {
                    assert(transform_lines(rest, st) == all[i as int] + "\n"@ + transform_lines(
                        all.skip(i + 1),
                        ScanState::Normal,
                    ));
                    assert(out@ + transform_lines(all.skip(i + 1), ScanState::Normal) =~= old_out
                        + transform_lines(rest, st));
                }
            }
        }
        i = i + 1;
    }
    proof {
        assert(all.skip(i as int) =~~= Seq::<Seq<char>>::empty());
    }
    let ghost old_out = out@;
    if acc.len() > 0 {
        emit_table_block(&mut out, &acc);
        proof {
            assert(transform_lines(all.skip(i as int), ScanState::Table(acc.deep_view()))
                == table_block_emit(acc.deep_view()));
        }
    } else {
        proof {
            assert(out@ + Seq::<char>::empty() =~= out@);
        }
    }
    proof {
        assert(out@ =~= transform_spec(input@));
    }
    out
}

/// With no pipe-prefixed line in sight the scanner never opens a table and
/// passes every line through unchanged, inside or outside a raw fence.
proof fn lemma_no_pipe_passthrough(ls: Seq<Seq<char>>, st: ScanState)
    requires
        st is Normal || st is Raw,
        forall|i: int| 0 <= i < ls.len() ==> !is_pipe_line(#[trigger] ls[i]),
    ensures
        transform_lines(ls, st) == append_nl_all(ls),
    decreases ls.len(),
{
    let f = |l: Seq<char>| l + "\n"@;
    if ls.len() == 0 {
        assert(ls.map_values(f) =~~= Seq::<Seq<char>>::empty());
    } else {
        assert forall|i: int| 0 <= i < ls.skip(1).len() implies !is_pipe_line(
            #[trigger] ls.skip(1)[i],
        ) by {
            assert(ls.skip(1)[i] == ls[i + 1]);
        }
        let next_st = if st is Normal {
            if is_fence_line(ls[0]) {
                ScanState::Raw
            } else {
                ScanState::Normal
            }
        } else {
            if is_fence_line(ls[0]) {
                ScanState::Normal
            } else {
                ScanState::Raw
            }
        };
        lemma_no_pipe_passthrough(ls.skip(1), next_st);
        assert(!is_pipe_line(ls[0]));
        assert(transform_lines(ls, st) == ls[0] + "\n"@ + transform_lines(ls.skip(1), next_st));
        assert(ls.map_values(f).skip(1) =~~= ls.skip(1).map_values(f));
        assert(ls.map_values(f)[0] == ls[0] + "\n"@);
        assert(append_nl_all(ls) == (ls[0] + "\n"@) + append_nl_all(ls.skip(1)));
    }
}

/// Inside an open raw fence that never closes, every line — pipe-prefixed
/// lines included — passes through unchanged.
proof fn lemma_raw_passthrough(ls: Seq<Seq<char>>)
    requires
        forall|i: int| 0 <= i < ls.len() ==> !is_fence_line(#[trigger] ls[i]),
    ensures
        transform_lines(ls, ScanState::Raw) == append_nl_all(ls),
    decreases ls.len(),
{
    let f = |l: Seq<char>| l + "\n"@;
    if ls.len() == 0 {
        assert(ls.map_values(f) =~~= Seq::<Seq<char>>::empty());
    } else {
        assert forall|i: int| 0 <= i < ls.skip(1).len() implies !is_fence_line(
            #[trigger] ls.skip(1)[i],
        ) by {
            assert(ls.skip(1)[i] == ls[i + 1]);
        }
        lemma_raw_passthrough(ls.skip(1));
        assert(transform_lines(ls, ScanState::Raw) == ls[0] + "\n"@ + transform_lines(
            ls.skip(1),
            ScanState::Raw,
        ));
        assert(ls.map_values(f).skip(1) =~~= ls.skip(1).map_values(f));
        assert(ls.map_values(f)[0] == ls[0] + "\n"@);
        assert(append_nl_all(ls) == (ls[0] + "\n"@) + append_nl_all(ls.skip(1)));
    }
}

/// Raw-fence protection: in a document that opens a raw fence on its first
/// line and never closes it, no line is ever read as a table row — the
/// transform reproduces every line unchanged.
pub proof fn lemma_raw_fence_protection(x: Seq<char>)
    requires
        lines_of(x).len() > 0,
        is_fence_line(lines_of(x)[0]),
        forall|i: int| 1 <= i < lines_of(x).len() ==> !is_fence_line(#[trigger] lines_of(x)[i]),
    ensures
        transform_spec(x) == append_nl_all(lines_of(x)),
{
    let ls = lines_of(x);
    let f = |l: Seq<char>| l + "\n"@;
    assert forall|i: int| 0 <= i < ls.skip(1).len() implies !is_fence_line(
        #[trigger] ls.skip(1)[i],
    ) by {
        assert(ls.skip(1)[i] == ls[i + 1]);
    }
    lemma_raw_passthrough(ls.skip(1));
    assert(transform_lines(ls, ScanState::Normal) == ls[0] + "\n"@ + transform_lines(
        ls.skip(1),
        ScanState::Raw,
    ));
    assert(ls.map_values(f).skip(1) =~~= ls.skip(1).map_values(f));
    assert(ls.map_values(f)[0] == ls[0] + "\n"@);
    assert(append_nl_all(ls) == (ls[0] + "\n"@) + append_nl_all(ls.skip(1)));
}

/// Idempotence on non-table text: applying the transform twice to text with
/// no pipe-prefixed lines gives what applying it once gives. Lines ending
/// in a bare carriage return are left out: re-splitting folds their final
/// `\r` and the appended newline into one line break.
pub proof fn lemma_transform_idempotent_no_pipe(x: Seq<char>)
    requires
        forall|i: int| 0 <= i < lines_of(x).len() ==> !is_pipe_line(#[trigger] lines_of(x)[i]),
        forall|i: int|
            0 <= i < lines_of(x).len() ==> (#[trigger] lines_of(x)[i]).len() == 0
                || lines_of(x)[i][lines_of(x)[i].len() - 1] != '\r',
    ensures
        transform_spec(transform_spec(x)) == transform_spec(x),
{
    let ls = lines_of(x);
    lemma_no_pipe_passthrough(ls, ScanState::Normal);
    lemma_lines_of_no_newline(x);
    lemma_lines_of_append_nl(ls);
    assert(lines_of(transform_spec(x)) == ls);
}

} // verus!
