//! Character-level helpers shared by the parser, the serializer and the
//! table transform. All contracts are stated over `Seq<char>` views.

use vstd::prelude::*;
use vstd::string::StrSliceExecFns;

verus! {

/// ASCII whitespace, as the trimming rules of this crate use it.
pub open spec fn is_blank_char(c: char) -> bool {
    c == ' ' || c == '\t' || c == '\r' || c == '\n'
}

pub fn is_blank(c: char) -> (r: bool)
    ensures
        r == is_blank_char(c),
{
    c == ' ' || c == '\t' || c == '\r' || c == '\n'
}

/// The characters of `s`, one vector element per character.
pub fn chars_vec(s: &str) -> (r: Vec<char>)
    ensures
        r@ == s@,
{
    let n = s.unicode_len();
    let mut r: Vec<char> = Vec::new();
    let mut i: usize = 0;
    while i < n
        invariant
            n == s@.len(),
            i <= n,
            r@ == s@.subrange(0, i as int),
        decreases n - i,
    {
        r.push(s.get_char(i));
        i = i + 1;
        proof {
            assert(r@ =~= s@.subrange(0, i as int));
        }
    }
    proof {
        assert(r@ =~= s@);
    }
    r
}

/// Relies on `String::push` of std: appends the given character to the end
/// of the string.
#[verifier::external_body]
pub fn push_char(s: &mut String, c: char)
    ensures
        final(s)@ == old(s)@.push(c),
{
    s.push(c)
}

/// A `String` holding exactly the characters of `v`.
pub fn string_from_chars(v: &Vec<char>) -> (r: String)
    ensures
        r@ == v@,
{
    let mut r = String::new();
    let mut i: usize = 0;
    while i < v.len()
        invariant
            i <= v@.len(),
            r@ == v@.subrange(0, i as int),
        decreases v@.len() - i,
    {
        push_char(&mut r, v[i]);
        i = i + 1;
        proof {
            assert(r@ =~= v@.subrange(0, i as int));
        }
    }
    proof {
        assert(r@ =~= v@);
    }
    r
}

/// `p` is a prefix of `s`.
pub open spec fn has_prefix(s: Seq<char>, p: Seq<char>) -> bool {
    p.len() <= s.len() && s.subrange(0, p.len() as int) == p
}

pub fn has_prefix_chars(s: &Vec<char>, p: &Vec<char>) -> (r: bool)
    ensures
        r == has_prefix(s@, p@),
{
    if p.len() > s.len() {
        return false;
    }
    let mut i: usize = 0;
    while i < p.len()
        invariant
            p@.len() <= s@.len(),
            i <= p@.len(),
            forall|j: int| 0 <= j < i ==> s@[j] == p@[j],
        decreases p@.len() - i,
    {
        if s[i] != p[i] {
            proof {
                assert(s@.subrange(0, p@.len() as int)[i as int] != p@[i as int]);
            }
            return false;
        }
        i = i + 1;
    }
    proof {
        assert(s@.subrange(0, p@.len() as int) =~= p@);
    }
    true
}

/// Index of the first occurrence of `c` in `s`, or `s.len()` if absent.
pub open spec fn find_char(s: Seq<char>, c: char) -> int
    decreases s.len(),
{
    if s.len() == 0 {
        0
    } else if s[0] == c {
        0
    } else {
        1 + find_char(s.skip(1), c)
    }
}

pub proof fn lemma_find_char(s: Seq<char>, c: char)
    ensures
        0 <= find_char(s, c) <= s.len(),
        forall|j: int| 0 <= j < find_char(s, c) ==> s[j] != c,
        find_char(s, c) < s.len() ==> s[find_char(s, c)] == c,
    decreases s.len(),
{
    if s.len() == 0 {
    } else if s[0] == c {
    } else {
        lemma_find_char(s.skip(1), c);
        assert(forall|j: int| 0 <= j < find_char(s.skip(1), c) ==> s.skip(1)[j] != c);
        assert forall|j: int| 0 <= j < find_char(s, c) implies s[j] != c by {
            if j > 0 {
                assert(s.skip(1)[j - 1] == s[j]);
            }
        }
        if find_char(s.skip(1), c) < s.skip(1).len() {
            assert(s.skip(1)[find_char(s.skip(1), c)] == c);
        }
    }
}

pub fn find_char_vec(v: &Vec<char>, c: char) -> (r: usize)
    ensures
        r as int == find_char(v@, c),
{
    let mut i: usize = 0;
    while i < v.len()
        invariant
            i <= v@.len(),
            forall|j: int| 0 <= j < i ==> v@[j] != c,
        decreases v@.len() - i,
    {
        if v[i] == c {
            proof {
                lemma_find_char(v@, c);
                assert(find_char(v@, c) == i) by {
                    if find_char(v@, c) < i {
                        assert(v@[find_char(v@, c)] != c);
                    }
                    if find_char(v@, c) > i {
                        assert(v@[i as int] != c);
                    }
                };
            }
            return i;
        }
        i = i + 1;
    }
    proof {
        lemma_find_char(v@, c);
        assert(find_char(v@, c) == v@.len()) by {
            if find_char(v@, c) < v@.len() {
                assert(v@[find_char(v@, c)] != c);
            }
        };
    }
    i
}

/// `s` with leading blank characters removed.
pub open spec fn trim_start_spec(s: Seq<char>) -> Seq<char>
    decreases s.len(),
{
    if s.len() > 0 && is_blank_char(s[0]) {
        trim_start_spec(s.skip(1))
    } else {
        s
    }
}

/// `s` with trailing blank characters removed.
pub open spec fn trim_end_spec(s: Seq<char>) -> Seq<char>
    decreases s.len(),
{
    if s.len() > 0 && is_blank_char(s[s.len() - 1]) {
        trim_end_spec(s.take(s.len() - 1))
    } else {
        s
    }
}

/// `s` with leading and trailing blank characters removed.
pub open spec fn trim_spec(s: Seq<char>) -> Seq<char> {
    trim_end_spec(trim_start_spec(s))
}

proof fn lemma_trim_start_at(s: Seq<char>, a: int)
    requires
        0 <= a <= s.len(),
        forall|j: int| 0 <= j < a ==> is_blank_char(s[j]),
        a < s.len() ==> !is_blank_char(s[a]),
    ensures
        trim_start_spec(s) =~= s.skip(a),
    decreases a,
{
    if a == 0 {
        assert(s.skip(0) =~= s);
    } else {
        assert(is_blank_char(s[0]));
        lemma_trim_start_at(s.skip(1), a - 1);
        assert(s.skip(1).skip(a - 1) =~= s.skip(a));
    }
}

proof fn lemma_trim_end_at(s: Seq<char>, b: int)
    requires
        0 <= b <= s.len(),
        forall|j: int| b <= j < s.len() ==> is_blank_char(s[j]),
        b > 0 ==> !is_blank_char(s[b - 1]),
    ensures
        trim_end_spec(s) =~= s.take(b),
    decreases s.len() - b,
{
    if b == s.len() {
        assert(s.take(b) =~= s);
    } else {
        assert(is_blank_char(s[s.len() - 1]));
        lemma_trim_end_at(s.take(s.len() - 1), b);
        assert(s.take(s.len() - 1).take(b) =~= s.take(b));
    }
}

/// The trimmed copy of `v`.
pub fn trim_chars(v: &Vec<char>) -> (r: Vec<char>)
    ensures
        r@ == trim_spec(v@),
{
    let n = v.len();
    let mut a: usize = 0;
    while a < n && is_blank(v[a])
        invariant
            n == v@.len(),
            a <= n,
            forall|j: int| 0 <= j < a ==> is_blank_char(v@[j]),
        decreases n - a,
    {
        a = a + 1;
    }
    proof {
        lemma_trim_start_at(v@, a as int);
    }
    let ghost t: Seq<char> = v@.skip(a as int);
    let mut b: usize = n;
    while b > a && is_blank(v[b - 1])
        invariant
            n == v@.len(),
            a <= b <= n,
            forall|j: int| b <= j < n ==> is_blank_char(v@[j]),
            a < n ==> !is_blank_char(v@[a as int]),
        decreases b,
    {
        b = b - 1;
    }
    proof {
        assert forall|j: int| (b - a) <= j < t.len() implies is_blank_char(t[j]) by {
            assert(t[j] == v@[j + a]);
        }
        if b > a {
            assert(t[b - a - 1] == v@[b - 1]);
        }
        lemma_trim_end_at(t, b as int - a as int);
    }
    let mut r: Vec<char> = Vec::new();
    let mut i: usize = a;
    while i < b
        invariant
            a <= i <= b <= n,
            n == v@.len(),
            r@ == v@.subrange(a as int, i as int),
        decreases b - i,
    {
        r.push(v[i]);
        i = i + 1;
        proof {
            assert(r@ =~= v@.subrange(a as int, i as int));
        }
    }
    proof {
        assert(r@ =~= t.take(b as int - a as int));
    }
    r
}

/// Splits `s` after each newline; every piece except possibly the last ends
/// with a newline, and the pieces concatenate back to `s`.
pub open spec fn first_line_len(s: Seq<char>) -> int {
    if 0 <= find_char(s, '\n') < s.len() {
        find_char(s, '\n') + 1
    } else {
        s.len() as int
    }
}

pub open spec fn lines_keep(s: Seq<char>) -> Seq<Seq<char>>
    decreases s.len(),
{
    if s.len() == 0 {
        seq![]
    } else {
        seq![s.take(first_line_len(s))] + lines_keep(s.skip(first_line_len(s)))
    }
}

pub proof fn lemma_first_line_len(s: Seq<char>)
    requires
        s.len() > 0,
    ensures
        1 <= first_line_len(s) <= s.len(),
        forall|j: int| 0 <= j < first_line_len(s) - 1 ==> s[j] != '\n',
        find_char(s, '\n') < s.len() ==> s[first_line_len(s) - 1] == '\n',
{
    lemma_find_char(s, '\n');
}

/// The pieces of `lines_keep` concatenate back to the original text.
pub proof fn lemma_lines_keep_concat(s: Seq<char>)
    ensures
        concat_all(lines_keep(s)) =~= s,
    decreases s.len(),
{
    if s.len() == 0 {
    } else {
        lemma_first_line_len(s);
        let n = first_line_len(s);
        lemma_lines_keep_concat(s.skip(n));
        let parts = lines_keep(s);
        assert(parts == seq![s.take(n)] + lines_keep(s.skip(n)));
        assert(parts.skip(1) =~= lines_keep(s.skip(n)));
        assert(parts[0] == s.take(n));
        assert(concat_all(parts) == s.take(n) + concat_all(lines_keep(s.skip(n))));
        assert(s.take(n) + s.skip(n) =~= s);
    }
}

/// The concatenation of a sequence of sequences.
pub open spec fn concat_all(parts: Seq<Seq<char>>) -> Seq<char>
    decreases parts.len(),
{
    if parts.len() == 0 {
        Seq::empty()
    } else {
        parts[0] + concat_all(parts.skip(1))
    }
}

/// Splits `v` into lines, keeping each line's trailing newline.
pub fn split_lines_keep(v: &Vec<char>) -> (r: Vec<Vec<char>>)
    ensures
        r.deep_view() == lines_keep(v@),
{
    let mut r: Vec<Vec<char>> = Vec::new();
    let mut cur: Vec<char> = Vec::new();
    let mut i: usize = 0;
    proof {
        assert(v@.skip(0) =~= v@);
        assert(r.deep_view() =~~= Seq::<Seq<char>>::empty());
        assert(r.deep_view() + lines_keep(v@) =~= lines_keep(v@));
    }
    while i < v.len()
        invariant
            i <= v@.len(),
            cur@.len() <= i,
            forall|j: int| 0 <= j < cur@.len() ==> cur@[j] != '\n',
            cur@ == v@.subrange(i - cur@.len(), i as int),
            lines_keep(v@) == r.deep_view() + lines_keep(v@.skip(i - cur@.len())),
        decreases v@.len() - i,
    {
        let c = v[i];
        cur.push(c);
        i = i + 1;
        if c == '\n' {
            proof {
                let rest = v@.skip(i - cur@.len());
                lemma_find_char(rest, '\n');
                assert(forall|j: int| 0 <= j < cur@.len() - 1 ==> rest[j] == cur@[j] && cur@[j]
                    != '\n');
                assert(rest[cur@.len() - 1] == '\n');
                assert(find_char(rest, '\n') == cur@.len() - 1) by {
                    if find_char(rest, '\n') < cur@.len() - 1 {
                        assert(rest[find_char(rest, '\n')] != '\n');
                    }
                    if find_char(rest, '\n') > cur@.len() - 1 {
                        assert(rest[(cur@.len() - 1) as int] != '\n');
                    }
                };
                assert(first_line_len(rest) == cur@.len());
                assert(rest.take(cur@.len() as int) =~= cur@);
                assert(rest.skip(cur@.len() as int) =~= v@.skip(i as int));
                assert(lines_keep(rest) =~= seq![cur@] + lines_keep(v@.skip(i as int)));
            }
            let ghost old_r = r.deep_view();
            r.push(cur);
            proof {
                assert(r.deep_view() =~~= old_r + seq![cur@]);
                assert(old_r + (seq![cur@] + lines_keep(v@.skip(i as int))) =~= (old_r
                    + seq![cur@]) + lines_keep(v@.skip(i as int)));
            }
            cur = Vec::new();
            proof {
                assert(cur@ =~= v@.subrange(i as int, i as int));
            }
        } else {
            proof {
                assert(cur@ =~= v@.subrange(i - cur@.len(), i as int));
            }
        }
    }
    if cur.len() > 0 {
        proof {
            let rest = v@.skip(i - cur@.len());
            lemma_find_char(rest, '\n');
            assert(rest =~= cur@);
            assert(find_char(rest, '\n') == rest.len()) by {
                if find_char(rest, '\n') < rest.len() {
                    assert(rest[find_char(rest, '\n')] != '\n');
                }
            };
            assert(first_line_len(rest) == rest.len());
            assert(rest.take(rest.len() as int) =~= cur@);
            assert(rest.skip(rest.len() as int) =~= Seq::<char>::empty());
            assert(rest.len() > 0);
            assert(lines_keep(rest) == seq![rest.take(first_line_len(rest))] + lines_keep(
                rest.skip(first_line_len(rest)),
            ));
            assert(lines_keep(Seq::<char>::empty()) == Seq::<Seq<char>>::empty());
            assert(lines_keep(rest) =~= seq![cur@]);
        }
        let ghost old_r = r.deep_view();
        r.push(cur);
        proof {
            assert(r.deep_view() =~~= old_r + seq![cur@]);
        }
    } else {
        proof {
            assert(v@.skip(i - cur@.len()) =~= Seq::<char>::empty());
            assert(r.deep_view() + lines_keep(Seq::<char>::empty()) =~= r.deep_view());
        }
    }
    r
}

/// Removes one trailing line break (`\r\n` or `\n`) from a line.
pub open spec fn chomp(l: Seq<char>) -> Seq<char> {
    if l.len() >= 2 && l[l.len() - 2] == '\r' && l[l.len() - 1] == '\n' {
        l.take(l.len() - 2)
    } else if l.len() >= 1 && l[l.len() - 1] == '\n' {
        l.take(l.len() - 1)
    } else {
        l
    }
}

/// The lines of `s` without their line breaks.
pub open spec fn lines_of(s: Seq<char>) -> Seq<Seq<char>> {
    lines_keep(s).map_values(|l: Seq<char>| chomp(l))
}

pub fn chomp_chars(v: &Vec<char>) -> (r: Vec<char>)
    ensures
        r@ == chomp(v@),
{
    let n = v.len();
    let end: usize = if n >= 2 && v[n - 2] == '\r' && v[n - 1] == '\n' {
        n - 2
    } else if n >= 1 && v[n - 1] == '\n' {
        n - 1
    } else {
        n
    };
    let mut r: Vec<char> = Vec::new();
    let mut i: usize = 0;
    while i < end
        invariant
            end <= n == v@.len(),
            i <= end,
            r@ == v@.subrange(0, i as int),
        decreases end - i,
    {
        r.push(v[i]);
        i = i + 1;
        proof {
            assert(r@ =~= v@.subrange(0, i as int));
        }
    }
    proof {
        assert(r@ =~= v@.take(end as int));
        if end == n {
            assert(v@.take(n as int) =~= v@);
        }
    }
    r
}

/// Splits `v` into lines with line breaks removed, as the transform's line
/// scanner sees them.
pub fn split_lines(v: &Vec<char>) -> (r: Vec<Vec<char>>)
    ensures
        r.deep_view() == lines_of(v@),
{
    let kept = split_lines_keep(v);
    let mut r: Vec<Vec<char>> = Vec::new();
    let mut i: usize = 0;
    while i < kept.len()
        invariant
            i <= kept@.len(),
            kept.deep_view() == lines_keep(v@),
            kept@.len() == kept.deep_view().len(),
            r.deep_view() == kept.deep_view().subrange(0, i as int).map_values(
                |l: Seq<char>| chomp(l),
            ),
        decreases kept@.len() - i,
    {
        let ghost old_r = r.deep_view();
        let c = chomp_chars(&kept[i]);
        r.push(c);
        i = i + 1;
        proof {
            assert(kept.deep_view()[i - 1] =~= kept@[i - 1]@);
            assert(r.deep_view() =~~= old_r + seq![chomp(kept.deep_view()[i - 1])]);
            assert(r.deep_view() =~~= kept.deep_view().subrange(0, i as int).map_values(
                |l: Seq<char>| chomp(l),
            ));
        }
    }
    proof {
        assert(kept.deep_view().subrange(0, kept.deep_view().len() as int) =~= kept.deep_view());
        assert(r.deep_view() =~~= lines_of(v@));
    }
    r
}

/// The strings holding exactly the character vectors of `v`.
pub fn strings_from_char_lines(v: Vec<Vec<char>>) -> (r: Vec<String>)
    ensures
        r.deep_view() == v.deep_view(),
{
    let mut r: Vec<String> = Vec::new();
    let mut i: usize = 0;
    while i < v.len()
        invariant
            i <= v@.len(),
            v@.len() == v.deep_view().len(),
            r.deep_view() == v.deep_view().subrange(0, i as int),
        decreases v@.len() - i,
    {
        let ghost old_r = r.deep_view();
        let s = string_from_chars(&v[i]);
        r.push(s);
        i = i + 1;
        proof {
            assert(v.deep_view()[i - 1] == v@[i - 1]@);
            assert(r.deep_view() =~~= old_r + seq![v.deep_view()[i - 1]]);
            assert(r.deep_view() =~~= v.deep_view().subrange(0, i as int));
        }
    }
    proof {
        assert(v.deep_view().subrange(0, v.deep_view().len() as int) =~= v.deep_view());
    }
    r
}

/// A line that, trimmed, starts with a raw fence marker.
pub open spec fn is_fence_line(l: Seq<char>) -> bool {
    has_prefix(trim_spec(l), "```"@)
}

/// A line that, trimmed, starts with the table delimiter.
pub open spec fn is_pipe_line(l: Seq<char>) -> bool {
    trim_spec(l).len() > 0 && trim_spec(l)[0] == '|'
}

pub fn is_fence(v: &Vec<char>) -> (r: bool)
    ensures
        r == is_fence_line(v@),
{
    let t = trim_chars(v);
    proof {
        reveal_strlit("```");
    }
    let r = t.len() >= 3 && t[0] == '`' && t[1] == '`' && t[2] == '`';
    proof {
        if r {
            assert(trim_spec(v@).subrange(0, 3) =~= "```"@);
        } else {
            if has_prefix(trim_spec(v@), "```"@) {
                assert(trim_spec(v@).subrange(0, 3)[0] == trim_spec(v@)[0]);
                assert(trim_spec(v@).subrange(0, 3)[1] == trim_spec(v@)[1]);
                assert(trim_spec(v@).subrange(0, 3)[2] == trim_spec(v@)[2]);
            }
        }
    }
    r
}

pub fn is_pipe(v: &Vec<char>) -> (r: bool)
    ensures
        r == is_pipe_line(v@),
{
    let t = trim_chars(v);
    t.len() > 0 && t[0] == '|'
}

/// The characters of `v` from index `k` on.
pub fn skip_chars(v: &Vec<char>, k: usize) -> (r: Vec<char>)
    requires
        k <= v@.len(),
    ensures
        r@ == v@.skip(k as int),
{
    let mut r: Vec<char> = Vec::new();
    let mut i: usize = k;
    while i < v.len()
        invariant
            k <= i <= v@.len(),
            r@ == v@.subrange(k as int, i as int),
        decreases v@.len() - i,
    {
        r.push(v[i]);
        i = i + 1;
        proof {
            assert(r@ =~= v@.subrange(k as int, i as int));
        }
    }
    proof {
        assert(r@ =~= v@.skip(k as int));
    }
    r
}

/// The first `k` characters of `v`.
pub fn take_chars(v: &Vec<char>, k: usize) -> (r: Vec<char>)
    requires
        k <= v@.len(),
    ensures
        r@ == v@.take(k as int),
{
    let mut r: Vec<char> = Vec::new();
    let mut i: usize = 0;
    while i < k
        invariant
            i <= k <= v@.len(),
            r@ == v@.subrange(0, i as int),
        decreases k - i,
    {
        r.push(v[i]);
        i = i + 1;
        proof {
            assert(r@ =~= v@.subrange(0, i as int));
        }
    }
    proof {
        assert(r@ =~= v@.take(k as int));
    }
    r
}

/// Every line with one newline appended, concatenated.
pub open spec fn append_nl_all(ls: Seq<Seq<char>>) -> Seq<char> {
    concat_all(ls.map_values(|l: Seq<char>| l + "\n"@))
}

/// Every piece of `lines_keep` is non-empty and holds a newline only as its
/// last character.
pub proof fn lemma_lines_keep_shape(s: Seq<char>)
    ensures
        forall|i: int| 0 <= i < lines_keep(s).len() ==> (#[trigger] lines_keep(s)[i]).len() > 0,
        forall|i: int, j: int|
            0 <= i < lines_keep(s).len() && 0 <= j < lines_keep(s)[i].len() - 1 ==> #[trigger] lines_keep(
                s,
            )[i][j] != '\n',
    decreases s.len(),
{
    if s.len() == 0 {
    } else {
        lemma_first_line_len(s);
        let n = first_line_len(s);
        lemma_lines_keep_shape(s.skip(n));
        assert forall|i: int| 0 <= i < lines_keep(s).len() implies (#[trigger] lines_keep(
            s,
        )[i]).len() > 0 by {
            if i == 0 {
                assert(lines_keep(s)[0] == s.take(n));
            } else {
                assert(lines_keep(s)[i] == lines_keep(s.skip(n))[i - 1]);
            }
        }
        assert forall|i: int, j: int|
            0 <= i < lines_keep(s).len() && 0 <= j < lines_keep(s)[i].len() - 1 implies #[trigger] lines_keep(
            s,
        )[i][j] != '\n' by {
            if i == 0 {
                assert(lines_keep(s)[0] == s.take(n));
                assert(s.take(n)[j] == s[j]);
            } else {
                assert(lines_keep(s)[i] == lines_keep(s.skip(n))[i - 1]);
            }
        }
    }
}

/// No piece of `lines_of` holds a newline.
pub proof fn lemma_lines_of_no_newline(s: Seq<char>)
    ensures
        forall|i: int, j: int|
            0 <= i < lines_of(s).len() && 0 <= j < lines_of(s)[i].len() ==> #[trigger] lines_of(
                s,
            )[i][j] != '\n',
{
    lemma_lines_keep_shape(s);
    assert forall|i: int, j: int|
        0 <= i < lines_of(s).len() && 0 <= j < lines_of(s)[i].len() implies #[trigger] lines_of(
        s,
    )[i][j] != '\n' by {
        let p = lines_keep(s)[i];
        assert(lines_of(s)[i] == chomp(p));
        if p.len() >= 2 && p[p.len() - 2] == '\r' && p[p.len() - 1] == '\n' {
            assert(chomp(p)[j] == p[j]);
        } else if p.len() >= 1 && p[p.len() - 1] == '\n' {
            assert(chomp(p)[j] == p[j]);
        } else {
            assert(chomp(p) == p);
            if j == p.len() - 1 {
                assert(p[j] != '\n');
            }
        }
    }
}

/// Splitting the concatenation of newline-terminated lines gives the lines
/// back, provided no line holds a newline or ends with a carriage return.
pub proof fn lemma_lines_of_append_nl(ls: Seq<Seq<char>>)
    requires
        forall|i: int, j: int|
            0 <= i < ls.len() && 0 <= j < ls[i].len() ==> #[trigger] ls[i][j] != '\n',
        forall|i: int|
            0 <= i < ls.len() ==> (#[trigger] ls[i]).len() == 0 || ls[i][ls[i].len() - 1] != '\r',
    ensures
        lines_of(append_nl_all(ls)) == ls,
    decreases ls.len(),
{
    reveal_strlit("\n");
    let f = |l: Seq<char>| l + "\n"@;
    if ls.len() == 0 {
        assert(ls.map_values(f) =~~= Seq::<Seq<char>>::empty());
        assert(lines_of(append_nl_all(ls)) =~~= ls);
    } else {
        let s = append_nl_all(ls);
        let h = ls[0];
        let rest = append_nl_all(ls.skip(1));
        assert(ls.map_values(f).skip(1) =~~= ls.skip(1).map_values(f));
        assert(ls.map_values(f)[0] == h + "\n"@);
        assert(s == (h + "\n"@) + rest);
        assert forall|i: int, j: int|
            0 <= i < ls.skip(1).len() && 0 <= j < ls.skip(1)[i].len() implies #[trigger] ls.skip(
            1,
        )[i][j] != '\n' by {
            assert(ls.skip(1)[i] == ls[i + 1]);
        }
        assert forall|i: int| 0 <= i < ls.skip(1).len() implies (#[trigger] ls.skip(1)[i]).len()
            == 0 || ls.skip(1)[i][ls.skip(1)[i].len() - 1] != '\r' by {
            assert(ls.skip(1)[i] == ls[i + 1]);
        }
        lemma_lines_of_append_nl(ls.skip(1));
        let hl = h.len() as int;
        assert(s.len() == hl + 1 + rest.len());
        assert(s[hl] == '\n');
        assert(forall|j: int| 0 <= j < hl ==> s[j] == h[j] && s[j] != '\n');
        lemma_find_char(s, '\n');
        assert(find_char(s, '\n') == hl) by {
            if find_char(s, '\n') < hl {
                assert(s[find_char(s, '\n')] != '\n');
            }
            if find_char(s, '\n') > hl {
                assert(s[hl] != '\n');
            }
        }
        assert(first_line_len(s) == hl + 1);
        assert(s.take(hl + 1) =~= h + "\n"@);
        assert(s.skip(hl + 1) =~= rest);
        assert(lines_keep(s) == seq![h + "\n"@] + lines_keep(rest));
        assert(chomp(h + "\n"@) =~= h) by {
            let p = h + "\n"@;
            assert(p[p.len() - 1] == '\n');
            if p.len() >= 2 {
                assert(p[p.len() - 2] == h[h.len() - 1]);
                assert(p[p.len() - 2] != '\r');
            }
            assert(chomp(p) == p.take(p.len() - 1));
        }
        assert(lines_of(s) =~~= seq![chomp(h + "\n"@)] + lines_keep(rest).map_values(
            |l: Seq<char>| chomp(l),
        ));
        assert(lines_of(s) =~~= seq![h] + lines_of(rest));
        assert(seq![h] + ls.skip(1) =~~= ls);
    }
}

/// The parts joined with `sep` between consecutive parts.
pub open spec fn join_with(parts: Seq<Seq<char>>, sep: Seq<char>) -> Seq<char>
    decreases parts.len(),
{
    if parts.len() == 0 {
        Seq::empty()
    } else if parts.len() == 1 {
        parts[0]
    } else {
        parts[0] + sep + join_with(parts.skip(1), sep)
    }
}

/// A copy of `v` with the same characters.
pub fn clone_chars(v: &Vec<char>) -> (r: Vec<char>)
    ensures
        r@ == v@,
{
    let mut r: Vec<char> = Vec::new();
    extend_chars(&mut r, v);
    proof {
        assert(r@ =~= v@);
    }
    r
}

/// Appends all characters of `v` to the string `s`.
pub fn append_chars(s: &mut String, v: &Vec<char>)
    ensures
        final(s)@ == old(s)@ + v@,
{
    let mut i: usize = 0;
    proof {
        assert(s@ =~= old(s)@ + v@.subrange(0, 0));
    }
    while i < v.len()
        invariant
            i <= v@.len(),
            s@ == old(s)@ + v@.subrange(0, i as int),
        decreases v@.len() - i,
    {
        push_char(s, v[i]);
        i = i + 1;
        proof {
            assert(s@ =~= old(s)@ + v@.subrange(0, i as int));
        }
    }
    proof {
        assert(s@ =~= old(s)@ + v@);
    }
}

pub proof fn lemma_join_push(ss: Seq<Seq<char>>, x: Seq<char>, sep: Seq<char>)
    ensures
        join_with(ss.push(x), sep) == if ss.len() == 0 {
            x
        } else {
            join_with(ss, sep) + sep + x
        },
    decreases ss.len(),
{
    if ss.len() == 0 {
        assert(ss.push(x).len() == 1);
        assert(ss.push(x)[0] == x);
    } else {
        assert(ss.push(x).skip(1) =~~= ss.skip(1).push(x));
        lemma_join_push(ss.skip(1), x, sep);
        assert(ss.push(x)[0] == ss[0]);
        if ss.len() == 1 {
            assert(join_with(ss, sep) == ss[0]);
            assert(join_with(ss.push(x), sep) == ss[0] + sep + join_with(ss.skip(1).push(x), sep));
            assert(join_with(ss.skip(1).push(x), sep) == x);
        } else {
            assert(join_with(ss.push(x), sep) == ss[0] + sep + (join_with(ss.skip(1), sep) + sep
                + x));
            assert(ss[0] + sep + (join_with(ss.skip(1), sep) + sep + x) =~= (ss[0] + sep
                + join_with(ss.skip(1), sep)) + sep + x);
        }
    }
}

pub proof fn lemma_concat_all_push(ss: Seq<Seq<char>>, x: Seq<char>)
    ensures
        concat_all(ss.push(x)) == concat_all(ss) + x,
    decreases ss.len(),
{
    if ss.len() == 0 {
        assert(ss.push(x).len() == 1);
        assert(ss.push(x)[0] == x);
        assert(ss.push(x).skip(1) =~~= Seq::<Seq<char>>::empty());
        assert(concat_all(ss.push(x)) == x + concat_all(Seq::<Seq<char>>::empty()));
        assert(x + Seq::<char>::empty() =~= x);
        assert(concat_all(ss) + x =~= x);
    } else {
        assert(ss.push(x).skip(1) =~~= ss.skip(1).push(x));
        lemma_concat_all_push(ss.skip(1), x);
        assert(ss.push(x)[0] == ss[0]);
        assert(concat_all(ss.push(x)) == ss[0] + (concat_all(ss.skip(1)) + x));
        assert(ss[0] + (concat_all(ss.skip(1)) + x) =~= (ss[0] + concat_all(ss.skip(1))) + x);
    }
}

/// Appends all characters of `src` to `dst`.
pub fn extend_chars(dst: &mut Vec<char>, src: &Vec<char>)
    ensures
        final(dst)@ == old(dst)@ + src@,
{
    let mut i: usize = 0;
    while i < src.len()
        invariant
            i <= src@.len(),
            dst@ == old(dst)@ + src@.subrange(0, i as int),
        decreases src@.len() - i,
    {
        dst.push(src[i]);
        i = i + 1;
        proof {
            assert(dst@ =~= old(dst)@ + src@.subrange(0, i as int));
        }
    }
    proof {
        assert(dst@ =~= old(dst)@ + src@);
    }
}

} // verus!
