//! Typed options and text post-processing for an R-language backend. The
//! calls into the R runtime itself are a front-end concern; everything here
//! is the pure logic around them: option coercion, the seam removal and
//! reindentation applied to the rendered result, and the session marker.

use vstd::prelude::*;
use vstd::string::StringExecFns;
use crate::chunk::OptionMap;
use crate::chunk::opt_truthy;
use crate::randgen::fresh_rng;
use crate::randgen::is_alnum_char;
use crate::randgen::random_token;
use crate::table::transform_spec;
use crate::table::transform_tables;
use crate::text::chars_vec;
use crate::text::concat_all;
use crate::text::has_prefix;
use crate::text::is_blank;
use crate::text::is_blank_char;
use crate::text::join_with;
use crate::text::lemma_join_push;
use crate::text::lines_of;
use crate::text::split_lines;
use crate::text::string_from_chars;
use crate::text::take_chars;

verus! {

/// Typed options for R chunks, coerced from the raw mapping; an absent key
/// leaves the runtime's own default in force.
#[derive(Debug, PartialEq, Eq, Structural, Clone, Copy, Default)]
pub struct ROptions {
    pub echo: Option<bool>,
    pub eval: Option<bool>,
    pub error: Option<bool>,
    /// Whether the chunk's rendered results are kept in the document.
    pub incl: Option<bool>,
    pub message: Option<bool>,
}

/// The key of the flag that keeps or drops a chunk's rendered results,
/// spelled out character by character.
pub open spec fn kept_key() -> Seq<char> {
    seq!['i', 'n', 'c', 'l', 'u', 'd', 'e']
}

/// That key as a string.
pub fn kept_key_string() -> (r: String)
    ensures
        r@ == kept_key(),
{
    let mut v: Vec<char> = Vec::new();
    v.push('i');
    v.push('n');
    v.push('c');
    v.push('l');
    v.push('u');
    v.push('d');
    v.push('e');
    proof {
        assert(v@ =~= kept_key());
    }
    string_from_chars(&v)
}

fn get_opt_truthy(m: &OptionMap, key: &String) -> (r: Option<bool>)
    ensures
        r == opt_truthy(m@, key@),
{
    match m.get(key) {
        None => None,
        Some(v) => {
            let a = String::from_str("true");
            let b = String::from_str("1");
            let c = String::from_str("yes");
            Some(v.eq(&a) || v.eq(&b) || v.eq(&c))
        },
    }
}

impl ROptions {
    /// Builds the typed options from a chunk's raw mapping: a present value
    /// is coerced by the truthy tokens, an absent key stays unset.
    pub fn from_map(m: &OptionMap) -> (r: ROptions)
        ensures
            r.echo == opt_truthy(m@, "echo"@),
            r.eval == opt_truthy(m@, "eval"@),
            r.error == opt_truthy(m@, "error"@),
            r.incl == opt_truthy(m@, kept_key()),
            r.message == opt_truthy(m@, "message"@),
    {
        ROptions {
            echo: get_opt_truthy(m, &String::from_str("echo")),
            eval: get_opt_truthy(m, &String::from_str("eval")),
            error: get_opt_truthy(m, &String::from_str("error")),
            incl: get_opt_truthy(m, &kept_key_string()),
            message: get_opt_truthy(m, &String::from_str("message")),
        }
    }
}

/// The flag text a set option contributes to the chunk header.
pub open spec fn flag_text(name: Seq<char>, v: Option<bool>) -> Seq<Seq<char>> {
    match v {
        Some(true) => seq![name + "=TRUE"@],
        Some(false) => seq![name + "=FALSE"@],
        None => Seq::empty(),
    }
}

/// The flags of the chunk header, in their fixed order.
pub open spec fn knitr_flags(o: ROptions) -> Seq<Seq<char>> {
    flag_text("echo"@, o.echo) + flag_text("eval"@, o.eval) + flag_text("error"@, o.error)
        + flag_text(kept_key(), o.incl) + flag_text("message"@, o.message)
}

/// The chunk header an R backend wraps a source in before handing it to the
/// renderer: an r-fenced block whose header carries the set options.
pub open spec fn knitr_header_spec(source: Seq<char>, o: ROptions) -> Seq<char> {
    "```{r "@ + join_with(knitr_flags(o), ", "@) + "}\n"@ + source + "\n```"@
}

fn push_flag(flags: &mut Vec<String>, name: &String, v: Option<bool>)
    ensures
        final(flags).deep_view() == old(flags).deep_view() + flag_text(name@, v),
{
    match v {
        Some(b) => {
            let mut f = name.clone();
            if b {
                f.append("=TRUE");
            } else {
                f.append("=FALSE");
            }
            let ghost old_view = flags.deep_view();
            flags.push(f);
            proof {
                assert(flags.deep_view() =~~= old_view + flag_text(name@, v));
            }
        },
        None => {
            proof {
                assert(flags.deep_view() =~~= old(flags).deep_view() + flag_text(name@, v));
            }
        },
    }
}

/// Wraps one chunk's source in the header the R renderer consumes, the set
/// options carried as flags in their fixed order.
pub fn knitr_header(source: &str, o: &ROptions) -> (r: String)
    ensures
        r@ == knitr_header_spec(source@, *o),
{
    let ghost fl = knitr_flags(*o);
    let mut flags: Vec<String> = Vec::new();
    push_flag(&mut flags, &String::from_str("echo"), o.echo);
    push_flag(&mut flags, &String::from_str("eval"), o.eval);
    push_flag(&mut flags, &String::from_str("error"), o.error);
    push_flag(&mut flags, &kept_key_string(), o.incl);
    push_flag(&mut flags, &String::from_str("message"), o.message);
    proof {
        assert(flags.deep_view() =~~= fl);
    }
    let mut r = String::from_str("```{r ");
    let ghost p = "```{r "@;
    proof {
        assert(r@ =~= p + join_with(fl.subrange(0, 0), ", "@));
    }
    let mut i: usize = 0;
    while i < flags.len()
        invariant
            i <= flags@.len(),
            flags.deep_view() == fl,
            flags@.len() == fl.len(),
            r@ == p + join_with(fl.subrange(0, i as int), ", "@),
        decreases flags@.len() - i,
    {
        if i > 0 {
            r.append(", ");
        }
        r.append(flags[i].as_str());
        proof {
            assert(fl[i as int] == flags@[i as int]@);
            lemma_join_push(fl.subrange(0, i as int), fl[i as int], ", "@);
            assert(fl.subrange(0, i + 1) =~= fl.subrange(0, i as int).push(fl[i as int]));
            if i > 0 {
                assert(p + (join_with(fl.subrange(0, i as int), ", "@) + ", "@ + fl[i as int])
                    =~= (p + join_with(fl.subrange(0, i as int), ", "@)) + ", "@
                    + flags@[i as int]@);
            } else {
                assert(join_with(fl.subrange(0, 0), ", "@) + fl[0] =~= fl[0]);
            }
        }
        i = i + 1;
    }
    proof {
        assert(fl.subrange(0, fl.len() as int) =~= fl);
    }
    r.append("}\n");
    r.append(source);
    r.append("\n```");
    proof {
        assert(r@ =~= knitr_header_spec(source@, *o));
    }
    r
}

/// The length of a line's leading run of blank characters.
pub open spec fn blank_prefix_len(l: Seq<char>) -> int
    decreases l.len(),
{
    if l.len() > 0 && is_blank_char(l[0]) {
        1 + blank_prefix_len(l.skip(1))
    } else {
        0
    }
}

proof fn lemma_blank_prefix_at(l: Seq<char>, a: int)
    requires
        0 <= a <= l.len(),
        forall|j: int| 0 <= j < a ==> is_blank_char(l[j]),
        a < l.len() ==> !is_blank_char(l[a]),
    ensures
        blank_prefix_len(l) == a,
    decreases a,
{
    if a == 0 {
    } else {
        assert(is_blank_char(l[0]));
        lemma_blank_prefix_at(l.skip(1), a - 1);
        assert(forall|j: int| 0 <= j < a - 1 ==> l.skip(1)[j] == l[j + 1]);
        if a < l.len() {
            assert(l.skip(1)[a - 1] == l[a]);
        }
    }
}

/// Reindentation of a backend's rendered output: every line of the output
/// is prefixed with the leading whitespace of the first line of the source
/// chunk; an empty source passes the output through unchanged.
pub open spec fn reindent_spec(input: Seq<char>, output_from: Seq<char>) -> Seq<char> {
    if lines_of(input).len() == 0 {
        output_from
    } else {
        let indent = lines_of(input)[0].take(blank_prefix_len(lines_of(input)[0]));
        concat_all(lines_of(output_from).map_values(|l: Seq<char>| indent + l + "\n"@))
    }
}

pub fn reindent(input: &str, output_from: String) -> (r: String)
    ensures
        r@ == reindent_spec(input@, output_from@),
{
    let v = chars_vec(input);
    let in_lines = split_lines(&v);
    if in_lines.len() == 0 {
        return output_from;
    }
    proof {
        assert(in_lines.deep_view()[0] == in_lines@[0]@);
    }
    let first = &in_lines[0];
    let mut a: usize = 0;
    while a < first.len() && is_blank(first[a])
        invariant
            a <= first@.len(),
            forall|j: int| 0 <= j < a ==> is_blank_char(first@[j]),
        decreases first@.len() - a,
    {
        a = a + 1;
    }
    proof {
        lemma_blank_prefix_at(first@, a as int);
    }
    let indent = take_chars(first, a);
    let ghost ind = indent@;
    let ov = chars_vec(output_from.as_str());
    let out_lines = split_lines(&ov);
    let ghost pieces = lines_of(output_from@).map_values(|l: Seq<char>| ind + l + "\n"@);
    let mut r = String::new();
    let mut i: usize = 0;
    proof {
        assert(r@ =~= concat_all(pieces.subrange(0, 0)));
    }
    while i < out_lines.len()
        invariant
            i <= out_lines@.len(),
            out_lines.deep_view() == lines_of(output_from@),
            out_lines@.len() == out_lines.deep_view().len(),
            pieces == lines_of(output_from@).map_values(|l: Seq<char>| ind + l + "\n"@),
            ind == indent@,
            r@ == concat_all(pieces.subrange(0, i as int)),
        decreases out_lines@.len() - i,
    {
        crate::text::append_chars(&mut r, &indent);
        crate::text::append_chars(&mut r, &out_lines[i]);
        r.append("\n");
        proof {
            assert(out_lines.deep_view()[i as int] == out_lines@[i as int]@);
            crate::text::lemma_concat_all_push(pieces.subrange(0, i as int), pieces[i as int]);
            assert(pieces.subrange(0, i + 1) =~= pieces.subrange(0, i as int).push(
                pieces[i as int],
            ));
            assert(r@ =~= concat_all(pieces.subrange(0, i as int)) + (ind + out_lines@[i as int]@
                + "\n"@));
        }
        i = i + 1;
    }
    proof {
        assert(pieces.subrange(0, pieces.len() as int) =~= pieces);
        assert(lines_of(input@).len() > 0);
        assert(lines_of(input@)[0] == first@);
    }
    r
}

/// Whether `pat` occurs in `v` starting at `i`.
pub(crate) fn matches_at(v: &Vec<char>, pat: &Vec<char>, i: usize) -> (r: bool)
    requires
        i <= v@.len(),
    ensures
        r == has_prefix(v@.skip(i as int), pat@),
{
    let n = v.len();
    if pat.len() > n - i {
        return false;
    }
    let mut j: usize = 0;
    while j < pat.len()
        invariant
            n == v@.len(),
            i + pat@.len() <= n,
            j <= pat@.len(),
            i <= n,
            forall|k: int| 0 <= k < j ==> v@[i + k] == pat@[k],
        decreases pat@.len() - j,
    {
        if v[i + j] != pat[j] {
            proof {
                assert(v@.skip(i as int)[j as int] == v@[i + j]);
                if has_prefix(v@.skip(i as int), pat@) {
                    assert(v@.skip(i as int).subrange(0, pat@.len() as int)[j as int]
                        == pat@[j as int]);
                }
            }
            return false;
        }
        j = j + 1;
    }
    proof {
        assert forall|k: int| 0 <= k < pat@.len() implies v@.skip(i as int)[k] == pat@[k] by {
            assert(v@.skip(i as int)[k] == v@[i + k]);
        }
        assert(v@.skip(i as int).subrange(0, pat@.len() as int) =~= pat@);
    }
    true
}

/// `s` with every occurrence of `pat` removed, scanning left to right over
/// non-overlapping matches.
pub open spec fn remove_all_spec(s: Seq<char>, pat: Seq<char>) -> Seq<char>
    decreases s.len(),
{
    if pat.len() == 0 || s.len() == 0 {
        s
    } else if has_prefix(s, pat) {
        remove_all_spec(s.skip(pat.len() as int), pat)
    } else {
        seq![s[0]] + remove_all_spec(s.skip(1), pat)
    }
}

/// Removes every occurrence of `pat` from `v`.
pub fn remove_all(v: &Vec<char>, pat: &Vec<char>) -> (r: Vec<char>)
    ensures
        r@ == remove_all_spec(v@, pat@),
{
    if pat.len() == 0 {
        return crate::text::clone_chars(v);
    }
    let mut out: Vec<char> = Vec::new();
    let mut i: usize = 0;
    proof {
        assert(v@.skip(0) =~= v@);
        assert(out@ + remove_all_spec(v@, pat@) =~= remove_all_spec(v@, pat@));
    }
    while i < v.len()
        invariant
            i <= v@.len(),
            pat@.len() > 0,
            remove_all_spec(v@, pat@) == out@ + remove_all_spec(v@.skip(i as int), pat@),
        decreases v@.len() - i,
    {
        let ghost rest = v@.skip(i as int);
        if matches_at(v, pat, i) {
            proof {
                assert(rest.skip(pat@.len() as int) =~= v@.skip(i + pat@.len()));
                assert(remove_all_spec(rest, pat@) == remove_all_spec(
                    v@.skip(i + pat@.len()),
                    pat@,
                ));
            }
            i = i + pat.len();
        } else {
            let ghost old_out = out@;
            out.push(v[i]);
            proof {
                assert(rest[0] == v@[i as int]);
                assert(rest.skip(1) =~= v@.skip(i + 1));
                assert(remove_all_spec(rest, pat@) == seq![v@[i as int]] + remove_all_spec(
                    v@.skip(i + 1),
                    pat@,
                ));
                assert(out@ + remove_all_spec(v@.skip(i + 1), pat@) =~= old_out + remove_all_spec(
                    rest,
                    pat@,
                ));
            }
            i = i + 1;
        }
    }
    proof {
        assert(v@.skip(i as int) =~= Seq::<char>::empty());
        assert(remove_all_spec(Seq::<char>::empty(), pat@) == Seq::<char>::empty());
        assert(out@ + Seq::<char>::empty() =~= out@);
    }
    out
}

/// The R backend handle; the runtime it drives lives outside this crate.
#[derive(Debug, PartialEq, Eq, Structural)]
pub struct RBackend;

impl RBackend {
    /// A fresh 10-character alphanumeric session marker.
    pub fn new_cookie(&self) -> (r: String)
        ensures
            r@.len() == 10,
            forall|i: int| 0 <= i < 10 ==> is_alnum_char(#[trigger] r@[i]),
    {
        let mut rng = fresh_rng();
        random_token(&mut rng, 10)
    }
}

/// The post-processing an R backend applies to its raw rendered result:
/// pipe tables become native table directives, the seam the renderer leaves
/// between adjacent echoed blocks is removed, and every line is reindented
/// to the source chunk's leading whitespace.
pub fn postprocess_output(source: &str, raw: &str) -> (r: String)
    ensures
        r@ == reindent_spec(
            source@,
            remove_all_spec(transform_spec(raw@), "```\n]\n#src[\n```r\n"@),
        ),
{
    let transformed = transform_tables(raw);
    let tv = chars_vec(transformed.as_str());
    let pat = chars_vec("```\n]\n#src[\n```r\n");
    let stripped = remove_all(&tv, &pat);
    reindent(source, string_from_chars(&stripped))
}

} // verus!
