//! Front matter: a block of `key: value` lines between two `---` delimiter
//! lines at the top of a document, declaring its title and tags.
use vstd::prelude::*;

use crate::text::{
    chars_of, copy_range, first_newline, lemma_first_newline, line_body, lines_of, split_lines, split_words, string_from_chars, strings_from,
    strings_view, trim, trim_chars, words,
};

verus! {

/// A line that opens or closes the header block.
pub open spec fn is_delim(l: Seq<char>) -> bool {
    l.len() >= 3 && l[0] == '-' && l[1] == '-' && l[2] == '-'
}

/// A line that begins with `title:`, in any letter case.
pub open spec fn is_title_line(l: Seq<char>) -> bool {
    &&& l.len() >= 6
    &&& (l[0] == 't' || l[0] == 'T')
    &&& (l[1] == 'i' || l[1] == 'I')
    &&& (l[2] == 't' || l[2] == 'T')
    &&& (l[3] == 'l' || l[3] == 'L')
    &&& (l[4] == 'e' || l[4] == 'E')
    &&& l[5] == ':'
}

/// A line that begins with `tags:` (case-sensitive).
pub open spec fn is_tags_line(l: Seq<char>) -> bool {
    l.len() >= 5 && l[0] == 't' && l[1] == 'a' && l[2] == 'g' && l[3] == 's' && l[4] == ':'
}

/// The title a title line declares: the trimmed rest after `title:`.
pub open spec fn title_value(l: Seq<char>) -> Seq<char> {
    trim(l.skip(6))
}

/// The tags a tags line declares: the rest after `tags:`, split at ASCII
/// whitespace.
pub open spec fn tags_value(l: Seq<char>) -> Seq<Seq<char>> {
    words(l.skip(5), true)
}

/// Index of the first delimiter line at or after `k`, or `ls.len()`.
pub open spec fn next_delim(ls: Seq<Seq<char>>, k: int) -> int
    decreases ls.len() - k,
{
    if k < 0 || k >= ls.len() {
        ls.len() as int
    } else if is_delim(ls[k]) {
        k
    } else {
        next_delim(ls, k + 1)
    }
}

/// The lines strictly between the first delimiter line and the next one (or
/// the end); empty when there is no delimiter line.
pub open spec fn header_lines(ls: Seq<Seq<char>>) -> Seq<Seq<char>> {
    let a = next_delim(ls, 0);
    if a >= ls.len() {
        seq![]
    } else {
        ls.subrange(a + 1, next_delim(ls, a + 1))
    }
}

/// The header lines of a document's text.
pub open spec fn header_of(text: Seq<char>) -> Seq<Seq<char>> {
    header_lines(lines_of(text))
}

/// No title line of the header has an empty title.
pub open spec fn no_empty_title(h: Seq<Seq<char>>) -> bool {
    forall|i: int| 0 <= i < h.len() && is_title_line(#[trigger] h[i]) ==> title_value(h[i]).len() > 0
}

/// Some line of the header is a title line.
pub open spec fn has_title_line(h: Seq<Seq<char>>) -> bool {
    exists|i: int| 0 <= i < h.len() && is_title_line(#[trigger] h[i])
}

/// The header declares a valid title: an empty (or absent) header is
/// accepted; a non-empty one needs a title line, and no title line may have
/// an empty title.
pub open spec fn titles_valid(h: Seq<Seq<char>>) -> bool {
    no_empty_title(h) && (h.len() > 0 ==> has_title_line(h))
}

/// The title of the last title line, or empty when there is none.
pub open spec fn last_title(h: Seq<Seq<char>>) -> Seq<char>
    decreases h.len(),
{
    if h.len() == 0 {
        seq![]
    } else if is_title_line(h.last()) {
        title_value(h.last())
    } else {
        last_title(h.drop_last())
    }
}

/// The tags of the last tags line, or none when there is none.
pub open spec fn last_tags(h: Seq<Seq<char>>) -> Seq<Seq<char>>
    decreases h.len(),
{
    if h.len() == 0 {
        seq![]
    } else if is_tags_line(h.last()) {
        tags_value(h.last())
    } else {
        last_tags(h.drop_last())
    }
}

/// The declared title and tags of a document.
pub struct HeaderParser {
    pub title: String,
    pub tags: Vec<String>,
}

impl View for HeaderParser {
    type V = (Seq<char>, Seq<Seq<char>>);

    open spec fn view(&self) -> (Seq<char>, Seq<Seq<char>>) {
        (self.title@, strings_view(self.tags@))
    }
}

/// The views of a vector of lines.
pub open spec fn lines_view(v: Seq<Vec<char>>) -> Seq<Seq<char>> {
    v.map_values(|l: Vec<char>| l@)
}

fn delim_line(l: &Vec<char>) -> (r: bool)
    ensures
        r == is_delim(l@),
{
    l.len() >= 3 && l[0] == '-' && l[1] == '-' && l[2] == '-'
}

fn find_delim(ls: &Vec<Vec<char>>, k: usize) -> (r: usize)
    requires
        k <= ls@.len(),
    ensures
        r == next_delim(lines_view(ls@), k as int),
        k <= r <= ls@.len(),
{
    let ghost v = lines_view(ls@);
    let mut i: usize = k;
    while i < ls.len() && !delim_line(&ls[i])
        invariant
            k <= i <= ls@.len(),
            v == lines_view(ls@),
            next_delim(v, i as int) == next_delim(v, k as int),
        decreases ls@.len() - i,
    {
        assert(v[i as int] == ls@[i as int]@);
        i = i + 1;
    }
    if i < ls.len() {
        assert(v[i as int] == ls@[i as int]@);
    }
    i
}

/// The header block of already split lines (see `header_lines`).
fn header_block(ls: &Vec<Vec<char>>) -> (r: Vec<Vec<char>>)
    ensures
        lines_view(r@) == header_lines(lines_view(ls@)),
{
    let a = find_delim(ls, 0);
    let mut r: Vec<Vec<char>> = Vec::new();
    if a < ls.len() {
        let b = find_delim(ls, a + 1);
        let mut i: usize = a + 1;
        while i < b
            invariant
                a < i <= b <= ls@.len(),
                lines_view(r@) == lines_view(ls@).subrange(a + 1, i as int),
            decreases b - i,
        {
            let ghost before = lines_view(r@);
            let l = copy_range(&ls[i], 0, ls[i].len());
            assert(l@ =~= ls@[i as int]@);
            r.push(l);
            assert(lines_view(r@) =~= before.push(l@));
            i = i + 1;
            assert(lines_view(r@) =~= lines_view(ls@).subrange(a + 1, i as int));
        }
    } else {
        assert(lines_view(r@) =~= seq![]);
    }
    r
}

/// The title a title line declares (possibly empty), when it is a title line.
fn title_of_line(l: &Vec<char>) -> (r: Option<Vec<char>>)
    ensures
        r is Some <==> is_title_line(l@),
        r matches Some(t) ==> t@ == title_value(l@),
{
    if l.len() >= 6 && (l[0] == 't' || l[0] == 'T') && (l[1] == 'i' || l[1] == 'I') && (l[2]
        == 't' || l[2] == 'T') && (l[3] == 'l' || l[3] == 'L') && (l[4] == 'e' || l[4] == 'E')
        && l[5] == ':' {
        let rest = copy_range(l, 6, l.len());
        assert(rest@ =~= l@.skip(6));
        Some(trim_chars(&rest))
    } else {
        None
    }
}

/// The tags line's tags, when it is a tags line.
fn tags_of_line(l: &Vec<char>) -> (r: Option<Vec<Vec<char>>>)
    ensures
        r matches Some(t) <==> is_tags_line(l@),
        r matches Some(t) ==> lines_view(t@) == tags_value(l@),
{
    if l.len() >= 5 && l[0] == 't' && l[1] == 'a' && l[2] == 'g' && l[3] == 's' && l[4] == ':' {
        let rest = copy_range(l, 5, l.len());
        assert(rest@ =~= l@.skip(5));
        Some(split_words(&rest, true))
    } else {
        None
    }
}

impl HeaderParser {
    /// The header lines of `text`, or `None` when the header block is absent or
    /// empty.
    pub fn get_header(text: &str) -> (r: Option<Vec<String>>)
        ensures
            r is None <==> header_of(text@).len() == 0,
            r matches Some(v) ==> strings_view(v@) == header_of(text@),
    {
        let cs = chars_of(text);
        let ls = split_lines(&cs);
        assert(lines_view(ls@) == lines_of(text@));
        let h = header_block(&ls);
        if h.len() == 0 {
            None
        } else {
            Some(strings_from(&h))
        }
    }

    /// Parses the front matter of `text`. `None` signals an invalid title: a
    /// non-empty header without a `title:` line, or a `title:` line whose rest
    /// is empty after trimming. Without a header the result has an empty title
    /// and no tags.
    pub fn get_data(text: &str) -> (r: Option<HeaderParser>)
        ensures
            r is None <==> !titles_valid(header_of(text@)),
            r matches Some(d) ==> d@ == (
                last_title(header_of(text@)),
                last_tags(header_of(text@)),
            ),
    {
        let cs = chars_of(text);
        let ls = split_lines(&cs);
        let h = header_block(&ls);
        let ghost hv = lines_view(h@);
        assert(hv == header_of(text@));
        let mut valid = true;
        let mut has_title = false;
        let mut title: Vec<char> = Vec::new();
        let mut tags: Vec<Vec<char>> = Vec::new();
        let mut i: usize = 0;
        assert(hv.take(0) =~= seq![]);
        assert(lines_view(tags@) =~= seq![]);
        while i < h.len()
            invariant
                i <= h@.len(),
                hv == lines_view(h@),
                valid <==> no_empty_title(hv.take(i as int)),
                has_title <==> has_title_line(hv.take(i as int)),
                title@ == last_title(hv.take(i as int)),
                lines_view(tags@) == last_tags(hv.take(i as int)),
            decreases h@.len() - i,
        {
            let ghost pre = hv.take(i as int);
            let ghost cur = hv.take(i + 1);
            assert(cur.drop_last() =~= pre);
            assert(cur.last() == h@[i as int]@);
            let line = &h[i];
            match title_of_line(line) {
                Some(t) => {
                    if t.len() == 0 {
                        valid = false;
                    }
                    has_title = true;
                    title = t;
                },
                None => {},
            }
            match tags_of_line(line) {
                Some(t) => {
                    tags = t;
                },
                None => {},
            }
            proof {
                if valid {
                    assert forall|k: int|
                        0 <= k < cur.len() && is_title_line(#[trigger] cur[k]) implies title_value(
                        cur[k],
                    ).len() > 0 by {
                        if k < i {
                            assert(cur[k] == pre[k]);
                        }
                    }
                } else {
                    if !no_empty_title(pre) {
                        let k = choose|k: int|
                            0 <= k < pre.len() && is_title_line(#[trigger] pre[k])
                                && title_value(pre[k]).len() == 0;
                        assert(cur[k] == pre[k]);
                    } else {
                        assert(is_title_line(cur[i as int]));
                    }
                }
                if has_title {
                    if has_title_line(pre) {
                        let k = choose|k: int| 0 <= k < pre.len() && is_title_line(#[trigger] pre[k]);
                        assert(cur[k] == pre[k]);
                    } else {
                        assert(is_title_line(cur[i as int]));
                    }
                } else {
                    assert forall|k: int| 0 <= k < cur.len() implies !is_title_line(#[trigger] cur[k]) by {
                        if k < i {
                            assert(cur[k] == pre[k]);
                        }
                    }
                }
            }
            i = i + 1;
        }
        assert(hv.take(i as int) =~= hv);
        if valid && (h.len() == 0 || has_title) {
            let d = HeaderParser { title: string_from_chars(&title), tags: strings_from(&tags) };
            Some(d)
        } else {
            None
        }
    }

    /// The title a single header line declares, when it begins with `title:`
    /// (in any letter case) and the trimmed rest is not empty.
    pub fn get_title(header: &str) -> (r: Option<String>)
        ensures
            r matches Some(t) <==> is_title_line(header@) && title_value(header@).len() > 0,
            r matches Some(t) ==> t@ == title_value(header@),
    {
        let l = chars_of(header);
        match title_of_line(&l) {
            Some(t) => {
                if t.len() > 0 {
                    Some(string_from_chars(&t))
                } else {
                    None
                }
            },
            None => None,
        }
    }

    /// The tags a single header line declares, when it begins with `tags:`.
    pub fn get_tags(header: &str) -> (r: Option<Vec<String>>)
        ensures
            r matches Some(t) <==> is_tags_line(header@),
            r matches Some(t) ==> strings_view(t@) == tags_value(header@),
    {
        let l = chars_of(header);
        match tags_of_line(&l) {
            Some(t) => Some(strings_from(&t)),
            None => None,
        }
    }
}

/// The text after the first `n` delimiter lines of `s` (each with its line
/// ending); empty when `s` has fewer.
pub open spec fn rest_after(s: Seq<char>, n: nat) -> Seq<char>
    decreases s.len(),
{
    if n == 0 {
        s
    } else if s.len() == 0 {
        seq![]
    } else {
        let e = first_newline(s);
        if 0 <= e < s.len() {
            if is_delim(line_body(s, e)) {
                rest_after(s.skip(e + 1), (n - 1) as nat)
            } else {
                rest_after(s.skip(e + 1), n)
            }
        } else {
            seq![]
        }
    }
}

/// Some line of `s` is a delimiter line.
pub open spec fn has_header(s: Seq<char>) -> bool
    decreases s.len(),
{
    if s.len() == 0 {
        false
    } else {
        let e = first_newline(s);
        if 0 <= e < s.len() {
            is_delim(line_body(s, e)) || has_header(s.skip(e + 1))
        } else {
            is_delim(line_body(s, e))
        }
    }
}

/// The body of a document: everything after its second delimiter line; the
/// whole text when it has no delimiter line, nothing when it has only one.
pub open spec fn body_of(text: Seq<char>) -> Seq<char> {
    if has_header(text) {
        rest_after(text, 2)
    } else {
        text
    }
}

/// Replaces `file_content` by its body (see `body_of`), and tells whether it
/// had a header delimiter at all.
pub fn remove_header(file_content: &mut String) -> (found: bool)
    ensures
        found == has_header(old(file_content)@),
        final(file_content)@ == body_of(old(file_content)@),
{
    let cs = chars_of(file_content.as_str());
    let ghost t = cs@;
    let n = cs.len();
    let mut pos: usize = 0;
    let mut count: usize = 0;
    assert(t.skip(0) =~= t);
    while pos < n && count < 2
        invariant
            t == cs@,
            n == t.len(),
            pos <= n,
            count <= 2,
            rest_after(t, 2) == rest_after(t.skip(pos as int), (2 - count) as nat),
            has_header(t) == (count > 0 || has_header(t.skip(pos as int))),
        decreases n - pos,
    {
        let ghost rest = t.skip(pos as int);
        let mut e: usize = pos;
        while e < n && cs[e] != '\n'
            invariant
                t == cs@,
                n == t.len(),
                pos <= e <= n,
                forall|k: int| pos <= k < e ==> t[k] != '\n',
            decreases n - e,
        {
            e = e + 1;
        }
        proof {
            assert forall|k: int| 0 <= k < e - pos implies rest[k] != '\n' by {
                assert(rest[k] == t[pos + k]);
            }
            if e < n {
                assert(rest[e - pos] == t[e as int]);
            }
            lemma_first_newline(rest, e - pos);
        }
        let delim = e - pos >= 3 && cs[pos] == '-' && cs[pos + 1] == '-' && cs[pos + 2] == '-';
        proof {
            let l = line_body(rest, e - pos);
            assert(l.len() <= e - pos);
            assert(forall|k: int| 0 <= k < l.len() ==> l[k] == rest[k]);
            if e - pos >= 3 {
                assert(rest[0] == t[pos as int]);
                assert(rest[1] == t[pos + 1]);
                assert(rest[2] == t[pos + 2]);
                if rest[2] == '-' {
                    assert(l.len() >= 3);
                }
            }
            assert(delim == is_delim(l));
        }
        if delim {
            count = count + 1;
        }
        if e < n {
            assert(rest.skip(e - pos + 1) =~= t.skip(e + 1));
            pos = e + 1;
        } else {
            pos = n;
        }
    }
    let found = count > 0;
    let body = if count == 2 {
        copy_range(&cs, pos, n)
    } else if count == 0 {
        copy_range(&cs, 0, n)
    } else {
        Vec::new()
    };
    proof {
        if count < 2 {
            assert(t.skip(pos as int) =~= seq![]);
        }
        assert(body@ =~= body_of(t));
    }
    *file_content = string_from_chars(&body);
    found
}

} // verus!
