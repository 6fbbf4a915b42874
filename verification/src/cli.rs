//! Small helpers for the command-line front end: log column padding and the
//! default output file name inferred from an input path.

use vstd::prelude::*;
use crate::text::chars_vec;
use crate::text::string_from_chars;

verus! {

/// The fixed width of the verb column in log lines.
pub const VERB_WIDTH: usize = 15;

/// `s` padded on the right with spaces to the verb column width.
pub open spec fn pad_spec(s: Seq<char>) -> Seq<char> {
    if s.len() >= VERB_WIDTH {
        s
    } else {
        s + Seq::new((VERB_WIDTH - s.len()) as nat, |i: int| ' ')
    }
}

pub fn pad(s: &str) -> (r: String)
    ensures
        r@ == pad_spec(s@),
{
    let mut chars = chars_vec(s);
    let ghost orig = s@;
    proof {
        if orig.len() < VERB_WIDTH {
            assert(chars@ =~= orig + Seq::new(0, |i: int| ' '));
        }
    }
    while chars.len() < VERB_WIDTH
        invariant
            orig.len() >= VERB_WIDTH ==> chars@ == orig,
            orig.len() < VERB_WIDTH ==> orig.len() <= chars@.len() <= VERB_WIDTH && chars@
                == orig + Seq::new((chars@.len() - orig.len()) as nat, |i: int| ' '),
        decreases VERB_WIDTH - chars@.len(),
    {
        let ghost before = chars@;
        chars.push(' ');
        proof {
            assert(chars@ =~= orig + Seq::new((chars@.len() - orig.len()) as nat, |i: int| ' '));
        }
    }
    proof {
        if orig.len() < VERB_WIDTH {
            assert(chars@ =~= pad_spec(orig));
        }
    }
    string_from_chars(&chars)
}

/// Index of the last occurrence of `c` in `s`, or -1 if absent.
pub open spec fn rfind_char(s: Seq<char>, c: char) -> int
    decreases s.len(),
{
    if s.len() == 0 {
        -1
    } else if s.last() == c {
        s.len() - 1
    } else {
        rfind_char(s.drop_last(), c)
    }
}

pub proof fn lemma_rfind_char(s: Seq<char>, c: char)
    ensures
        -1 <= rfind_char(s, c) < s.len(),
        rfind_char(s, c) >= 0 ==> s[rfind_char(s, c)] == c,
        forall|j: int| rfind_char(s, c) < j < s.len() ==> s[j] != c,
    decreases s.len(),
{
    if s.len() == 0 {
    } else if s.last() == c {
    } else {
        lemma_rfind_char(s.drop_last(), c);
        assert forall|j: int| rfind_char(s, c) < j < s.len() implies s[j] != c by {
            if j < s.len() - 1 {
                assert(s.drop_last()[j] == s[j]);
            }
        }
        if rfind_char(s, c) >= 0 {
            assert(s.drop_last()[rfind_char(s.drop_last(), c)] == c);
        }
    }
}

/// The final path component of `s`: what follows the last separator.
pub open spec fn final_component(s: Seq<char>) -> Seq<char> {
    s.skip(rfind_char(s, '/') + 1)
}

/// The stem of a file name: the name up to its last dot, the whole name
/// when it has none or starts with its only dot.
pub open spec fn stem_of(name: Seq<char>) -> Seq<char> {
    if rfind_char(name, '.') > 0 {
        name.take(rfind_char(name, '.'))
    } else {
        name
    }
}

/// The preprocessed-output path inferred from an input path: the input's
/// file stem with `.out.typ` appended.
pub open spec fn infer_output_spec(s: Seq<char>) -> Seq<char> {
    stem_of(final_component(s)) + ".out.typ"@
}

fn rfind_char_vec(v: &Vec<char>, c: char) -> (r: Option<usize>)
    ensures
        match r {
            Some(j) => j < v@.len() && j as int == rfind_char(v@, c),
            None => rfind_char(v@, c) == -1,
        },
{
    let mut i: usize = v.len();
    while i > 0
        invariant
            i <= v@.len(),
            forall|j: int| i <= j < v@.len() ==> v@[j] != c,
        decreases i,
    {
        i = i - 1;
        if v[i] == c {
            proof {
                lemma_rfind_char(v@, c);
                assert(rfind_char(v@, c) == i) by {
                    if rfind_char(v@, c) < i {
                        assert(v@[i as int] != c);
                    }
                    if rfind_char(v@, c) > i {
                        assert(v@[rfind_char(v@, c)] == c);
                    }
                };
            }
            return Some(i);
        }
    }
    proof {
        lemma_rfind_char(v@, c);
        assert(rfind_char(v@, c) == -1) by {
            if rfind_char(v@, c) >= 0 {
                assert(v@[rfind_char(v@, c)] != c);
            }
        };
    }
    None
}

/// Infers the output file name for an input path. The input must have a
/// non-empty final component.
pub fn infer_preprocess_output(input: &str) -> (r: String)
    ensures
        final_component(input@).len() > 0 ==> r@ == infer_output_spec(input@),
{
    let v = chars_vec(input);
    let n = v.len();
    let slash = rfind_char_vec(&v, '/');
    let start: usize = match slash {
        Some(j) => j + 1,
        None => 0,
    };
    let name = crate::text::skip_chars(&v, start);
    proof {
        assert(name@ == final_component(input@));
    }
    let dot = rfind_char_vec(&name, '.');
    let stem = match dot {
        Some(p) => if p > 0 {
            crate::text::take_chars(&name, p)
        } else {
            name
        },
        None => name,
    };
    proof {
        assert(stem@ == stem_of(final_component(input@)));
    }
    let mut r = string_from_chars(&stem);
    vstd::string::StringExecFns::append(&mut r, ".out.typ");
    r
}

} // verus!
