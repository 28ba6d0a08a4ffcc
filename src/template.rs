//! Template placeholders: each `{{ tag1 tag2 ... }}` marker of a template is
//! replaced by the tag index list of its tags.
use vstd::prelude::*;

use crate::cache::{records_view, CacheData, CacheDataView};
use crate::index::{dedup_by_title, list_html, pairs_view, placeholder_html, tag_entries};
use crate::text::words;

verus! {

/// The pattern of a placeholder: `{{`, then at least one character other than
/// a line break (as few as possible, captured), then `}}`.
pub const PLACEHOLDER_PATTERN: &'static str = r"\{\{(.+?)\}\}";

/// Where the inner text of a placeholder ends, trying ends from `e` on: the
/// first `e` with `}}` at `e` such that no character before `e` that was
/// tried is a line break (the inner text starts at the first end tried, less
/// one, and holds at least one character).
pub open spec fn placeholder_close(t: Seq<char>, e: int) -> Option<int>
    decreases t.len() - e,
{
    if e < 1 || e + 1 >= t.len() {
        None
    } else if t[e - 1] == '\n' {
        None
    } else if t[e] == '}' && t[e + 1] == '}' {
        Some(e)
    } else {
        placeholder_close(t, e + 1)
    }
}

/// The placeholders of `t` from position `i` on, left to right and without
/// overlap: at the leftmost `{{` that a placeholder follows, the shortest
/// inner text before `}}`. Each comes as its whole text and its inner text.
pub open spec fn placeholders_from(t: Seq<char>, i: int) -> Seq<(Seq<char>, Seq<char>)>
    decreases t.len() - i,
{
    if i < 0 || i + 1 >= t.len() {
        seq![]
    } else if t[i] == '{' && t[i + 1] == '{' && placeholder_close(t, i + 3) is Some {
        let e = placeholder_close(t, i + 3)->0;
        if i + 3 <= e && e + 2 <= t.len() {
            seq![(t.subrange(i, e + 2), t.subrange(i + 2, e))] + placeholders_from(t, e + 2)
        } else {
            seq![]
        }
    } else {
        placeholders_from(t, i + 1)
    }
}

/// The successive non-overlapping matches of `PLACEHOLDER_PATTERN` in `t`,
/// with their captured inner text, as leftmost-first search with a lazy
/// `.+?` (any character but a line break) finds them.
pub open spec fn placeholders_of(t: Seq<char>) -> Seq<(Seq<char>, Seq<char>)> {
    placeholders_from(t, 0)
}

/// `s` with every non-overlapping occurrence of `from`, left to right,
/// replaced by `to`; an empty `from` matches before each character and at
/// the end.
pub open spec fn replaced_of(s: Seq<char>, from: Seq<char>, to: Seq<char>) -> Seq<char>
    decreases s.len(),
{
    if from.len() == 0 {
        if s.len() == 0 {
            to
        } else {
            to + seq![s[0]] + replaced_of(s.drop_first(), from, to)
        }
    } else if s.len() < from.len() {
        s
    } else if s.take(from.len() as int) == from {
        to + replaced_of(s.skip(from.len() as int), from, to)
    } else {
        seq![s[0]] + replaced_of(s.drop_first(), from, to)
    }
}

/// Relies on the regex crate's `Regex::new` and `Regex::captures_iter`: the
/// matches of the pattern in `text`, each as its whole text and the text of
/// its first group (the pattern's group takes part in every match).
/// `Regex::new` fails only on an invalid pattern or one over the size limit;
/// this fixed pattern is neither, so the result is always `Some`.
#[verifier::external_body]
fn placeholder_captures(pattern: &str, text: &str) -> (r: Option<Vec<(String, String)>>)
    requires
        pattern@ == PLACEHOLDER_PATTERN@,
    ensures
        r is Some,
        r matches Some(v) ==> pairs_view(v@) == placeholders_of(text@),
{
    match regex::Regex::new(pattern) {
        Ok(re) => Some(re.captures_iter(text).map(|m| (m[0].to_string(), m[1].to_string())).collect()),
        Err(_) => None,
    }
}

/// Relies on `str::replace`: every non-overlapping match of `from`, left to
/// right, replaced by `to` (see `replaced_of`).
#[verifier::external_body]
fn replace_all(s: &str, from: &str, to: &str) -> (r: String)
    ensures
        r@ == replaced_of(s@, from@, to@),
{
    s.replace(from, to)
}

/// The list that stands for a placeholder with inner text `inner`.
pub open spec fn placeholder_list(inner: Seq<char>, c: Seq<CacheDataView>) -> Seq<char> {
    list_html(dedup_by_title(tag_entries(c, words(inner, false))))
}

/// The template after replacing, one match after the other, every occurrence
/// of each match's text by the list of its inner text.
pub open spec fn expanded(
    text: Seq<char>,
    ms: Seq<(Seq<char>, Seq<char>)>,
    c: Seq<CacheDataView>,
) -> Seq<char>
    decreases ms.len(),
{
    if ms.len() == 0 {
        text
    } else {
        replaced_of(expanded(text, ms.drop_last(), c), ms.last().0, placeholder_list(ms.last().1, c))
    }
}

/// Expands the template for the given placeholder matches (whole text and
/// inner text of each, in order).
pub fn expand_with(template: &str, matches: &Vec<(String, String)>, cache: &Vec<CacheData>) -> (r: String)
    ensures
        r@ == expanded(template@, pairs_view(matches@), records_view(cache@)),
{
    let ghost mv = pairs_view(matches@);
    let ghost cv = records_view(cache@);
    let mut out = String::from_str(template);
    let mut i: usize = 0;
    assert(mv.take(0) =~= seq![]);
    while i < matches.len()
        invariant
            i <= matches@.len(),
            mv == pairs_view(matches@),
            cv == records_view(cache@),
            out@ == expanded(template@, mv.take(i as int), cv),
        decreases matches@.len() - i,
    {
        let list = placeholder_html(matches[i].1.as_str(), cache);
        out = replace_all(out.as_str(), matches[i].0.as_str(), list.as_str());
        proof {
            assert(mv.take(i + 1).drop_last() =~= mv.take(i as int));
            assert(mv.take(i + 1).last() == mv[i as int]);
        }
        i = i + 1;
    }
    assert(mv.take(i as int) =~= mv);
    out
}

/// Expands every placeholder of the template against the cache collection.
pub fn expand_template(template: &str, cache: &Vec<CacheData>) -> (r: Option<String>)
    ensures
        r is Some,
        r matches Some(t) ==> t@ == expanded(
            template@,
            placeholders_of(template@),
            records_view(cache@),
        ),
{
    match placeholder_captures(PLACEHOLDER_PATTERN, template) {
        Some(ms) => Some(expand_with(template, &ms, cache)),
        None => None,
    }
}

} // verus!
