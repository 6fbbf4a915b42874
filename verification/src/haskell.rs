//! Typed options and batch-output splitting for a Haskell backend. The
//! backend evaluates a whole batch in one compiler run, with a fresh random
//! cookie printed after each chunk's expressions; splitting the run's
//! standard output at those cookies recovers each chunk's own output.

use vstd::prelude::*;
use vstd::string::StringExecFns;
use crate::chunk::CodeChunk;
use crate::chunk::OptionMap;
use crate::chunk::truthy;
use crate::chunk::Output;
use crate::chunk::OutputModel;
use crate::chunk::OutputType;
use crate::engine::output_lists_view;
use crate::randgen::is_alnum_char;
use crate::randgen::random_token;
use crate::rlang::matches_at;
use crate::text::chars_vec;
use crate::text::has_prefix;
use crate::text::lines_of;
use crate::text::skip_chars;
use crate::text::string_from_chars;
use crate::text::take_chars;

verus! {

/// A Haskell backend's failure, with its report text.
#[derive(Debug, PartialEq)]
pub enum Error {
    EvalError(String),
}

/// The Haskell backend handle; the compiler runs outside this crate.
#[derive(Debug, PartialEq, Eq, Structural)]
pub struct HsBackend;

impl HsBackend {
    /// A fresh 16-character alphanumeric cookie marking one chunk's end in
    /// the batch's standard output.
    pub fn new_cookie(&self, rng: &mut rand::rngs::ThreadRng) -> (r: String)
        ensures
            r@.len() == 16,
            forall|i: int| 0 <= i < 16 ==> is_alnum_char(#[trigger] r@[i]),
    {
        random_token(rng, 16)
    }
}

/// One boolean field with truthy coercion, `true` when the key is absent.
pub open spec fn truthy_field(m: Map<Seq<char>, Seq<char>>, key: Seq<char>) -> bool {
    if m.contains_key(key) {
        truthy(m[key])
    } else {
        true
    }
}

/// Typed options for Haskell chunks; both default to true.
#[derive(Debug, PartialEq, Eq, Structural, Clone, Copy)]
pub struct HsOptions {
    pub echo: bool,
    pub eval: bool,
}

fn get_truthy(m: &OptionMap, key: &String) -> (r: bool)
    ensures
        r == truthy_field(m@, key@),
{
    match m.get(key) {
        None => true,
        Some(v) => {
            let a = String::from_str("true");
            let b = String::from_str("1");
            let c = String::from_str("yes");
            v.eq(&a) || v.eq(&b) || v.eq(&c)
        },
    }
}

impl HsOptions {
    /// Builds the typed options from a chunk's raw mapping with truthy
    /// coercion; a missing key falls back to the default, true.
    pub fn from_map(m: &OptionMap) -> (r: HsOptions)
        ensures
            r.echo == truthy_field(m@, "echo"@),
            r.eval == truthy_field(m@, "eval"@),
    {
        let echo = get_truthy(m, &String::from_str("echo"));
        let eval = get_truthy(m, &String::from_str("eval"));
        HsOptions { echo, eval }
    }
}

/// The expression printing one chunk's cookie.
pub open spec fn print_cookie_expr(cookie: Seq<char>) -> Seq<char> {
    "putStrLn \""@ + cookie + "\""@
}

/// The expressions handed to the compiler for one batch, front to back:
/// each chunk's code lines when its eval option is on, then one print of
/// the chunk's cookie.
pub open spec fn hs_expressions_spec(
    sources: Seq<Seq<char>>,
    evals: Seq<bool>,
    cookies: Seq<Seq<char>>,
    i: int,
) -> Seq<Seq<char>>
    decreases sources.len() - i,
{
    if i < 0 || i >= sources.len() {
        Seq::empty()
    } else {
        (if evals[i] {
            lines_of(sources[i])
        } else {
            Seq::empty()
        }) + seq![print_cookie_expr(cookies[i])] + hs_expressions_spec(sources, evals, cookies, i + 1)
    }
}

/// Builds the expression list for one batch, one cookie per chunk.
pub fn hs_expressions(batch: &Vec<CodeChunk>, cookies: &Vec<String>) -> (r: Vec<String>)
    requires
        batch@.len() == cookies@.len(),
    ensures
        r.deep_view() == hs_expressions_spec(
            Seq::new(batch@.len(), |i: int| batch@[i].code@),
            Seq::new(batch@.len(), |i: int| truthy_field(batch@[i].options@, "eval"@)),
            cookies.deep_view(),
            0,
        ),
{
    let ghost sv = Seq::new(batch@.len(), |i: int| batch@[i].code@);
    let ghost ev = Seq::new(batch@.len(), |i: int| truthy_field(batch@[i].options@, "eval"@));
    let ghost cv = cookies.deep_view();
    let ghost target = hs_expressions_spec(sv, ev, cv, 0);
    let mut r: Vec<String> = Vec::new();
    let mut i: usize = 0;
    proof {
        assert(r.deep_view() + hs_expressions_spec(sv, ev, cv, 0) =~~= hs_expressions_spec(
            sv,
            ev,
            cv,
            0,
        ));
    }
    while i < batch.len()
        invariant
            i <= batch@.len(),
            batch@.len() == cookies@.len(),
            sv == Seq::new(batch@.len(), |i: int| batch@[i].code@),
            ev == Seq::new(batch@.len(), |i: int| truthy_field(batch@[i].options@, "eval"@)),
            cv == cookies.deep_view(),
            cv.len() == cookies@.len(),
            target == hs_expressions_spec(sv, ev, cv, 0),
            target == r.deep_view() + hs_expressions_spec(sv, ev, cv, i as int),
        decreases batch@.len() - i,
    {
        let ghost old_r = r.deep_view();
        let opts = HsOptions::from_map(&batch[i].options);
        if opts.eval {
            let code_chars = chars_vec(batch[i].code.as_str());
            let lns = crate::text::split_lines(&code_chars);
            let ghost li = lines_of(sv[i as int]);
            let mut k: usize = 0;
            proof {
                assert(r.deep_view() =~~= old_r + li.subrange(0, 0));
            }
            while k < lns.len()
                invariant
                    k <= lns@.len(),
                    li == lines_of(sv[i as int]),
                    lns.deep_view() == li,
                    lns@.len() == lns.deep_view().len(),
                    r.deep_view() == old_r + li.subrange(0, k as int),
                decreases lns@.len() - k,
            {
                let ghost before = r.deep_view();
                r.push(string_from_chars(&lns[k]));
                k = k + 1;
                proof {
                    assert(lns.deep_view()[k - 1] == lns@[k - 1]@);
                    assert(r.deep_view() =~~= before + seq![li[k - 1]]);
                    assert(r.deep_view() =~~= old_r + li.subrange(0, k as int));
                }
            }
            proof {
                assert(li.subrange(0, li.len() as int) =~= li);
            }
        }
        let mut e = String::from_str("putStrLn \"");
        e.append(cookies[i].as_str());
        e.append("\"");
        let ghost mid_r = r.deep_view();
        r.push(e);
        i = i + 1;
        proof {
            assert(cv[i - 1] == cookies@[i - 1]@);
            assert(r.deep_view() =~~= mid_r + seq![print_cookie_expr(cv[i - 1])]);
            assert(hs_expressions_spec(sv, ev, cv, i - 1) == (if ev[i - 1] {
                lines_of(sv[i - 1])
            } else {
                Seq::<Seq<char>>::empty()
            }) + seq![print_cookie_expr(cv[i - 1])] + hs_expressions_spec(sv, ev, cv, i as int));
            if ev[i - 1] {
                assert(mid_r =~~= old_r + lines_of(sv[i - 1]));
                assert(old_r + ((lines_of(sv[i - 1]) + seq![print_cookie_expr(cv[i - 1])])
                    + hs_expressions_spec(sv, ev, cv, i as int)) =~~= ((old_r + lines_of(
                    sv[i - 1],
                )) + seq![print_cookie_expr(cv[i - 1])]) + hs_expressions_spec(
                    sv,
                    ev,
                    cv,
                    i as int,
                ));
            } else {
                assert(mid_r =~~= old_r + Seq::<Seq<char>>::empty());
                assert(old_r + ((Seq::<Seq<char>>::empty() + seq![print_cookie_expr(cv[i - 1])])
                    + hs_expressions_spec(sv, ev, cv, i as int)) =~~= (mid_r + seq![
                    print_cookie_expr(cv[i - 1]),
                ]) + hs_expressions_spec(sv, ev, cv, i as int));
            }
        }
    }
    proof {
        assert(hs_expressions_spec(sv, ev, cv, i as int) == Seq::<Seq<char>>::empty());
        assert(r.deep_view() + Seq::<Seq<char>>::empty() =~~= r.deep_view());
    }
    r
}

/// Index of the first occurrence of `pat` in `s`, or -1 if none.
pub open spec fn find_sub(s: Seq<char>, pat: Seq<char>) -> int
    decreases s.len(),
{
    if has_prefix(s, pat) {
        0
    } else if s.len() == 0 {
        -1
    } else {
        let r = find_sub(s.skip(1), pat);
        if r < 0 {
            -1
        } else {
            1 + r
        }
    }
}

pub proof fn lemma_find_sub(s: Seq<char>, pat: Seq<char>)
    ensures
        find_sub(s, pat) >= -1,
        find_sub(s, pat) >= 0 ==> find_sub(s, pat) + pat.len() <= s.len(),
    decreases s.len(),
{
    if has_prefix(s, pat) {
    } else if s.len() == 0 {
    } else {
        lemma_find_sub(s.skip(1), pat);
    }
}

fn find_sub_vec(v: &Vec<char>, pat: &Vec<char>) -> (r: Option<usize>)
    ensures
        match r {
            Some(j) => j as int == find_sub(v@, pat@),
            None => find_sub(v@, pat@) == -1,
        },
{
    if pat.len() == 0 {
        proof {
            assert(v@.subrange(0, 0) =~= pat@);
        }
        return Some(0);
    }
    let n = v.len();
    let mut i: usize = 0;
    proof {
        assert(v@.skip(0) =~= v@);
    }
    while i < n
        invariant
            i <= n,
            n == v@.len(),
            pat@.len() > 0,
            find_sub(v@, pat@) == if find_sub(v@.skip(i as int), pat@) < 0 {
                -1int
            } else {
                i + find_sub(v@.skip(i as int), pat@)
            },
        decreases n - i,
    {
        let ghost rest = v@.skip(i as int);
        if matches_at(v, pat, i) {
            proof {
                assert(find_sub(rest, pat@) == 0);
            }
            return Some(i);
        }
        proof {
            assert(rest.len() > 0);
            assert(rest.skip(1) =~= v@.skip(i + 1));
            lemma_find_sub(v@.skip(i + 1), pat@);
        }
        i = i + 1;
    }
    proof {
        assert(v@.skip(n as int) =~= Seq::<char>::empty());
        assert(!has_prefix(Seq::<char>::empty(), pat@));
        assert(find_sub(Seq::<char>::empty(), pat@) == -1);
    }
    None
}

/// What one chunk contributes: its source echoed when echo is on, the run's
/// standard error when non-empty, then the chunk's own standard output.
pub open spec fn hs_chunk_outputs(
    source: Seq<char>,
    echo: bool,
    stderr: Seq<char>,
    piece: Seq<char>,
) -> Seq<OutputModel> {
    (if echo {
        seq![OutputModel { data: source, ty: OutputType::Code }]
    } else {
        Seq::empty()
    }) + (if stderr.len() > 0 {
        seq![OutputModel { data: stderr, ty: OutputType::Error }]
    } else {
        Seq::empty()
    }) + seq![OutputModel { data: piece, ty: OutputType::Output }]
}

/// Splitting the batch's standard output at each chunk's cookie, front to
/// back: each chunk takes everything before its cookie; a missing cookie
/// fails the whole batch.
pub open spec fn hs_split(
    sources: Seq<Seq<char>>,
    echoes: Seq<bool>,
    stderr: Seq<char>,
    cookies: Seq<Seq<char>>,
    stdout: Seq<char>,
    i: int,
) -> Option<Seq<Seq<OutputModel>>>
    decreases sources.len() - i,
{
    if i < 0 || i >= sources.len() {
        Some(Seq::empty())
    } else if find_sub(stdout, cookies[i]) < 0 {
        None
    } else {
        let f = find_sub(stdout, cookies[i]);
        let rest = stdout.skip(f + cookies[i].len());
        match hs_split(sources, echoes, stderr, cookies, rest, i + 1) {
            Some(t) => Some(
                seq![hs_chunk_outputs(sources[i], echoes[i], stderr, stdout.take(f))] + t,
            ),
            None => None,
        }
    }
}

/// Splits one compiler run's standard output into per-chunk outputs, one
/// cookie per chunk; each chunk's own echo flag governs its echoed source.
pub fn split_by_cookies(
    sources: &Vec<String>,
    echoes: &Vec<bool>,
    stdout: &str,
    stderr: &str,
    cookies: &Vec<String>,
) -> (r: Result<Vec<Vec<Output>>, Error>)
    requires
        sources@.len() == cookies@.len(),
        sources@.len() == echoes@.len(),
    ensures
        match r {
            Ok(os) => hs_split(
                sources.deep_view(),
                echoes@,
                stderr@,
                cookies.deep_view(),
                stdout@,
                0,
            ) == Some(output_lists_view(os@)),
            Err(e) => hs_split(
                sources.deep_view(),
                echoes@,
                stderr@,
                cookies.deep_view(),
                stdout@,
                0,
            ) is None && (e matches Error::EvalError(msg) && msg@ == "Cookie not found, stderr: "@
                + stderr@),
        },
{
    let ghost sv = sources.deep_view();
    let ghost cv = cookies.deep_view();
    let ghost ev = echoes@;
    let ghost full = stdout@;
    let mut rem = chars_vec(stdout);
    let mut outs: Vec<Vec<Output>> = Vec::new();
    let mut i: usize = 0;
    proof {
        assert(output_lists_view(outs@) =~~= Seq::<Seq<OutputModel>>::empty());
        match hs_split(sv, ev, stderr@, cv, full, 0) {
            Some(t) => {
                assert(output_lists_view(outs@) + t =~~= t);
            },
            None => {},
        }
    }
    while i < sources.len()
        invariant
            i <= sources@.len(),
            sources@.len() == cookies@.len(),
            sources@.len() == echoes@.len(),
            sv == sources.deep_view(),
            cv == cookies.deep_view(),
            ev == echoes@,
            full == stdout@,
            sv.len() == sources@.len(),
            cv.len() == cookies@.len(),
            hs_split(sv, ev, stderr@, cv, full, 0) == match hs_split(
                sv,
                ev,
                stderr@,
                cv,
                rem@,
                i as int,
            ) {
                Some(t) => Some(output_lists_view(outs@) + t),
                None => None::<Seq<Seq<OutputModel>>>,
            },
        decreases sources@.len() - i,
    {
        let ck = chars_vec(cookies[i].as_str());
        proof {
            assert(ck@ == cv[i as int]);
        }
        let fo = find_sub_vec(&rem, &ck);
        match fo {
            None => {
                proof {
                    assert(hs_split(sv, ev, stderr@, cv, rem@, i as int) is None);
                    assert(hs_split(sv, ev, stderr@, cv, full, 0) is None);
                }
                let mut msg = String::from_str("Cookie not found, stderr: ");
                msg.append(stderr);
                return Err(Error::EvalError(msg));
            },
            Some(j) => {
                let nr = rem.len();
                proof {
                    lemma_find_sub(rem@, ck@);
                    assert(j + ck@.len() <= nr);
                }
                let piece = take_chars(&rem, j);
                let new_rem = skip_chars(&rem, j + ck.len());
                let ghost old_rem = rem@;
                let mut chunk: Vec<Output> = Vec::new();
                if echoes[i] {
                    chunk.push(Output { data: sources[i].clone(), ty: OutputType::Code });
                }
                if stderr.unicode_len() > 0 {
                    chunk.push(Output { data: String::from_str(stderr), ty: OutputType::Error });
                }
                chunk.push(Output { data: string_from_chars(&piece), ty: OutputType::Output });
                proof {
                    assert(sv[i as int] == sources@[i as int]@);
                    assert(Seq::new(chunk@.len(), |k: int| chunk@[k]@) =~~= hs_chunk_outputs(
                        sv[i as int],
                        ev[i as int],
                        stderr@,
                        old_rem.take(j as int),
                    ));
                }
                let ghost old_outs_view = output_lists_view(outs@);
                outs.push(chunk);
                rem = new_rem;
                i = i + 1;
                proof {
                    let f = find_sub(old_rem, cv[i - 1]);
                    assert(f == j);
                    assert(rem@ == old_rem.skip(f + cv[i - 1].len()));
                    assert(output_lists_view(outs@) =~~= old_outs_view + seq![
                        hs_chunk_outputs(sv[i - 1], ev[i - 1], stderr@, old_rem.take(f)),
                    ]);
                    assert(hs_split(sv, ev, stderr@, cv, old_rem, i - 1) == match hs_split(
                        sv,
                        ev,
                        stderr@,
                        cv,
                        rem@,
                        i as int,
                    ) {
                        Some(t) => Some(
                            seq![hs_chunk_outputs(sv[i - 1], ev[i - 1], stderr@, old_rem.take(f))]
                                + t,
                        ),
                        None => None::<Seq<Seq<OutputModel>>>,
                    });
                    match hs_split(sv, ev, stderr@, cv, rem@, i as int) {
                        Some(t) => {
                            assert(old_outs_view + (seq![
                                hs_chunk_outputs(sv[i - 1], ev[i - 1], stderr@, old_rem.take(f)),
                            ] + t) =~~= output_lists_view(outs@) + t);
                        },
                        None => {},
                    }
                }
            },
        }
    }
    proof {
        assert(hs_split(sv, ev, stderr@, cv, rem@, i as int) == Some(
            Seq::<Seq<OutputModel>>::empty(),
        ));
        assert(output_lists_view(outs@) + Seq::<Seq<OutputModel>>::empty() =~~= output_lists_view(
            outs@,
        ));
    }
    Ok(outs)
}

} // verus!
