//! Character-level text helpers: line splitting, whitespace trimming and word
//! splitting, each stated over `Seq<char>`.
use vstd::prelude::*;

verus! {

/// Index of the first `'\n'` in `s`, or `s.len()` when there is none.
pub open spec fn first_newline(s: Seq<char>) -> int
    decreases s.len(),
{
    if s.len() == 0 {
        0
    } else if s[0] == '\n' {
        0
    } else {
        1 + first_newline(s.drop_first())
    }
}

/// The text of a line ending at `end` (exclusive), without the `'\r'` of a
/// `"\r\n"` line ending.
pub open spec fn line_body(s: Seq<char>, end: int) -> Seq<char> {
    if end < s.len() && end > 0 && s[end - 1] == '\r' {
        s.take(end - 1)
    } else {
        s.take(end)
    }
}

/// The lines of `s`: split at `"\n"` or `"\r\n"`; a final line ending is
/// optional and adds no empty line.
pub open spec fn lines_of(s: Seq<char>) -> Seq<Seq<char>>
    decreases s.len(),
{
    if s.len() == 0 {
        seq![]
    } else {
        let e = first_newline(s);
        if 0 <= e < s.len() {
            seq![line_body(s, e)] + lines_of(s.skip(e + 1))
        } else {
            seq![line_body(s, e)]
        }
    }
}

pub proof fn lemma_first_newline(s: Seq<char>, j: int)
    requires
        0 <= j <= s.len(),
        forall|k: int| 0 <= k < j ==> s[k] != '\n',
        j == s.len() || s[j] == '\n',
    ensures
        first_newline(s) == j,
    decreases s.len(),
{
    if s.len() > 0 && s[0] != '\n' {
        let t = s.drop_first();
        assert forall|k: int| 0 <= k < j - 1 implies t[k] != '\n' by {
            assert(t[k] == s[k + 1]);
        }
        if j < s.len() {
            assert(t[j - 1] == s[j]);
        }
        lemma_first_newline(t, j - 1);
    }
}

/// Rust's `char::is_whitespace`: the characters with the Unicode `White_Space`
/// property.
pub open spec fn is_white(c: char) -> bool {
    c == '\t' || c == '\n' || c == '\u{0B}' || c == '\u{0C}' || c == '\r' || c == ' '
        || c == '\u{85}' || c == '\u{A0}' || c == '\u{1680}' || ('\u{2000}' <= c
        && c <= '\u{200A}') || c == '\u{2028}' || c == '\u{2029}' || c == '\u{202F}'
        || c == '\u{205F}' || c == '\u{3000}'
}

/// Rust's `char::is_ascii_whitespace`.
pub open spec fn is_ascii_white(c: char) -> bool {
    c == '\t' || c == '\n' || c == '\u{0C}' || c == '\r' || c == ' '
}

/// The separator test used when splitting into words.
pub open spec fn is_sep(c: char, ascii_only: bool) -> bool {
    if ascii_only {
        is_ascii_white(c)
    } else {
        is_white(c)
    }
}

pub fn is_separator(c: char, ascii_only: bool) -> (r: bool)
    ensures
        r == is_sep(c, ascii_only),
{
    if ascii_only {
        c == '\t' || c == '\n' || c == '\u{0C}' || c == '\r' || c == ' '
    } else {
        c == '\t' || c == '\n' || c == '\u{0B}' || c == '\u{0C}' || c == '\r' || c == ' '
            || c == '\u{85}' || c == '\u{A0}' || c == '\u{1680}' || ('\u{2000}' <= c && c
            <= '\u{200A}') || c == '\u{2028}' || c == '\u{2029}' || c == '\u{202F}' || c
            == '\u{205F}' || c == '\u{3000}'
    }
}

/// `s` without its leading whitespace.
pub open spec fn trim_start(s: Seq<char>) -> Seq<char>
    decreases s.len(),
{
    if s.len() > 0 && is_white(s[0]) {
        trim_start(s.drop_first())
    } else {
        s
    }
}

/// `s` without its trailing whitespace.
pub open spec fn trim_end(s: Seq<char>) -> Seq<char>
    decreases s.len(),
{
    if s.len() > 0 && is_white(s.last()) {
        trim_end(s.drop_last())
    } else {
        s
    }
}

/// `s` without leading and trailing whitespace, as `str::trim` gives it.
pub open spec fn trim(s: Seq<char>) -> Seq<char> {
    trim_end(trim_start(s))
}

/// Index of the first separator in `s`, or `s.len()`.
pub open spec fn first_sep(s: Seq<char>, ascii_only: bool) -> int
    decreases s.len(),
{
    if s.len() == 0 {
        0
    } else if is_sep(s[0], ascii_only) {
        0
    } else {
        1 + first_sep(s.drop_first(), ascii_only)
    }
}

/// The non-empty runs of non-separator characters of `s`, in order.
pub open spec fn words(s: Seq<char>, ascii_only: bool) -> Seq<Seq<char>>
    decreases s.len(),
{
    if s.len() == 0 {
        seq![]
    } else if is_sep(s[0], ascii_only) {
        words(s.drop_first(), ascii_only)
    } else {
        let e = first_sep(s, ascii_only);
        if e <= 0 || e > s.len() {
            seq![]
        } else {
            seq![s.take(e)] + words(s.skip(e), ascii_only)
        }
    }
}

pub proof fn lemma_first_sep(s: Seq<char>, ascii_only: bool, j: int)
    requires
        0 <= j <= s.len(),
        forall|k: int| 0 <= k < j ==> !is_sep(#[trigger] s[k], ascii_only),
        j == s.len() || is_sep(s[j], ascii_only),
    ensures
        first_sep(s, ascii_only) == j,
    decreases s.len(),
{
    if s.len() > 0 && !is_sep(s[0], ascii_only) {
        let t = s.drop_first();
        assert forall|k: int| 0 <= k < j - 1 implies !is_sep(#[trigger] t[k], ascii_only) by {
            assert(t[k] == s[k + 1]);
        }
        if j < s.len() {
            assert(t[j - 1] == s[j]);
        }
        lemma_first_sep(t, ascii_only, j - 1);
    }
}

/// The characters of `s`, in order.
pub fn chars_of(s: &str) -> (r: Vec<char>)
    ensures
        r@ == s@,
{
    let mut r: Vec<char> = Vec::new();
    let n = s.unicode_len();
    let mut i: usize = 0;
    while i < n
        invariant
            n == s@.len(),
            i <= n,
            r@ == s@.take(i as int),
        decreases n - i,
    {
        let c = s.get_char(i);
        r.push(c);
        i = i + 1;
        assert(r@ =~= s@.take(i as int));
    }
    assert(r@ =~= s@);
    r
}

/// Splits `s` into its lines (see `lines_of`).
pub fn split_lines(s: &Vec<char>) -> (r: Vec<Vec<char>>)
    ensures
        r@.map_values(|l: Vec<char>| l@) == lines_of(s@),
{
    let mut r: Vec<Vec<char>> = Vec::new();
    let n = s.len();
    let mut pos: usize = 0;
    assert(s@.skip(0) =~= s@);
    assert(r@.map_values(|l: Vec<char>| l@) =~= seq![]);
    while pos < n
        invariant
            n == s@.len(),
            pos <= n,
            r@.map_values(|l: Vec<char>| l@) + lines_of(s@.skip(pos as int)) == lines_of(s@),
        decreases n - pos,
    {
        let ghost rest = s@.skip(pos as int);
        let mut e: usize = pos;
        while e < n && s[e] != '\n'
            invariant
                n == s@.len(),
                pos <= e <= n,
                forall|k: int| pos <= k < e ==> s@[k] != '\n',
            decreases n - e,
        {
            e = e + 1;
        }
        proof {
            assert forall|k: int| 0 <= k < e - pos implies rest[k] != '\n' by {
                assert(rest[k] == s@[pos + k]);
            }
            if e < n {
                assert(rest[e - pos] == s@[e as int]);
            }
            lemma_first_newline(rest, e - pos);
        }
        let mut end: usize = e;
        if e < n && e > pos && s[e - 1] == '\r' {
            end = e - 1;
        }
        let mut line: Vec<char> = Vec::new();
        let mut k: usize = pos;
        while k < end
            invariant
                n == s@.len(),
                pos <= k <= end <= n,
                line@ == s@.subrange(pos as int, k as int),
            decreases end - k,
        {
            line.push(s[k]);
            k = k + 1;
            assert(line@ =~= s@.subrange(pos as int, k as int));
        }
        proof {
            if e - pos < rest.len() && e - pos > 0 && rest[e - pos - 1] == '\r' {
                assert(rest[e - pos - 1] == s@[e - 1]);
            }
            if e < n && e > pos && s@[e - 1] == '\r' {
                assert(rest[e - pos - 1] == s@[e - 1]);
            }
            assert(line@ =~= line_body(rest, e - pos));
        }
        let ghost before = r@.map_values(|l: Vec<char>| l@);
        r.push(line);
        assert(r@.map_values(|l: Vec<char>| l@) =~= before.push(line@));
        if e < n {
            assert(rest.skip(e - pos + 1) =~= s@.skip(e + 1));
            pos = e + 1;
            assert(before + lines_of(rest) =~= r@.map_values(|l: Vec<char>| l@) + lines_of(
                s@.skip(pos as int),
            ));
        } else {
            pos = n;
            assert(s@.skip(n as int) =~= seq![]);
            assert(before + lines_of(rest) =~= r@.map_values(|l: Vec<char>| l@) + lines_of(
                s@.skip(pos as int),
            ));
        }
    }
    assert(s@.skip(n as int) =~= seq![]);
    assert(r@.map_values(|l: Vec<char>| l@) =~= lines_of(s@));
    r
}

/// Copies `s[from..to]`.
pub fn copy_range(s: &Vec<char>, from: usize, to: usize) -> (r: Vec<char>)
    requires
        from <= to <= s@.len(),
    ensures
        r@ == s@.subrange(from as int, to as int),
{
    let mut r: Vec<char> = Vec::new();
    let mut k: usize = from;
    while k < to
        invariant
            from <= k <= to <= s@.len(),
            r@ == s@.subrange(from as int, k as int),
        decreases to - k,
    {
        r.push(s[k]);
        k = k + 1;
        assert(r@ =~= s@.subrange(from as int, k as int));
    }
    r
}

/// `s` without leading and trailing whitespace (see `trim`).
pub fn trim_chars(s: &Vec<char>) -> (r: Vec<char>)
    ensures
        r@ == trim(s@),
{
    let n = s.len();
    let mut a: usize = 0;
    assert(s@.skip(0) =~= s@);
    while a < n && is_separator(s[a], false)
        invariant
            n == s@.len(),
            a <= n,
            trim_start(s@.skip(a as int)) == trim_start(s@),
        decreases n - a,
    {
        assert(s@.skip(a as int).drop_first() =~= s@.skip(a + 1));
        a = a + 1;
    }
    let mut b: usize = n;
    assert(s@.subrange(a as int, n as int) =~= s@.skip(a as int));
    while b > a && is_separator(s[b - 1], false)
        invariant
            n == s@.len(),
            a <= b <= n,
            trim_end(s@.subrange(a as int, b as int)) == trim_end(s@.skip(a as int)),
        decreases b,
    {
        assert(s@.subrange(a as int, b as int).drop_last() =~= s@.subrange(a as int, b - 1));
        b = b - 1;
    }
    copy_range(s, a, b)
}

/// Splits `s` into words at separators (see `words`).
pub fn split_words(s: &Vec<char>, ascii_only: bool) -> (r: Vec<Vec<char>>)
    ensures
        r@.map_values(|w: Vec<char>| w@) == words(s@, ascii_only),
{
    let mut r: Vec<Vec<char>> = Vec::new();
    let n = s.len();
    let mut pos: usize = 0;
    assert(s@.skip(0) =~= s@);
    assert(r@.map_values(|w: Vec<char>| w@) =~= seq![]);
    while pos < n
        invariant
            n == s@.len(),
            pos <= n,
            r@.map_values(|w: Vec<char>| w@) + words(s@.skip(pos as int), ascii_only) == words(
                s@,
                ascii_only,
            ),
        decreases n - pos,
    {
        let ghost rest = s@.skip(pos as int);
        if is_separator(s[pos], ascii_only) {
            assert(rest.drop_first() =~= s@.skip(pos + 1));
            pos = pos + 1;
        } else {
            let mut e: usize = pos + 1;
            while e < n && !is_separator(s[e], ascii_only)
                invariant
                    n == s@.len(),
                    pos < e <= n,
                    forall|k: int| pos <= k < e ==> !is_sep(#[trigger] s@[k], ascii_only),
                decreases n - e,
            {
                e = e + 1;
            }
            proof {
                assert forall|k: int| 0 <= k < e - pos implies !is_sep(
                    #[trigger] rest[k],
                    ascii_only,
                ) by {
                    assert(rest[k] == s@[pos + k]);
                }
                if e < n {
                    assert(rest[e - pos] == s@[e as int]);
                }
                lemma_first_sep(rest, ascii_only, e - pos);
            }
            let w = copy_range(s, pos, e);
            assert(w@ =~= rest.take(e - pos));
            let ghost before = r@.map_values(|w: Vec<char>| w@);
            r.push(w);
            assert(r@.map_values(|w: Vec<char>| w@) =~= before.push(w@));
            assert(rest.skip(e - pos) =~= s@.skip(e as int));
            pos = e;
            assert(before + words(rest, ascii_only) =~= r@.map_values(|w: Vec<char>| w@) + words(
                s@.skip(pos as int),
                ascii_only,
            ));
        }
    }
    assert(s@.skip(n as int) =~= seq![]);
    assert(r@.map_values(|w: Vec<char>| w@) =~= words(s@, ascii_only));
    r
}

/// Relies on `String::from_iter`: the string holds the given characters in order.
#[verifier::external_body]
pub(crate) fn string_from_chars(v: &Vec<char>) -> (r: String)
    ensures
        r@ == v@,
{
    String::from_iter(v.iter())
}

/// The views of a sequence of strings.
pub open spec fn strings_view(v: Seq<String>) -> Seq<Seq<char>> {
    v.map_values(|t: String| t@)
}

/// Turns each character vector into a string.
pub fn strings_from(v: &Vec<Vec<char>>) -> (r: Vec<String>)
    ensures
        strings_view(r@) == v@.map_values(|w: Vec<char>| w@),
{
    let mut r: Vec<String> = Vec::new();
    let mut i: usize = 0;
    while i < v.len()
        invariant
            i <= v@.len(),
            strings_view(r@) == v@.take(i as int).map_values(|w: Vec<char>| w@),
        decreases v@.len() - i,
    {
        let t = string_from_chars(&v[i]);
        let ghost before = strings_view(r@);
        r.push(t);
        assert(strings_view(r@) =~= before.push(t@));
        i = i + 1;
        assert(strings_view(r@) =~= v@.take(i as int).map_values(|w: Vec<char>| w@));
    }
    assert(v@.take(i as int) =~= v@);
    r
}

} // verus!
