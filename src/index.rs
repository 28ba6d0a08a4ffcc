//! Tag indexes: the documents that carry any of the queried tags, one entry
//! per title, rendered as a `<ul>` list of links to their pages.
use vstd::prelude::*;

use crate::cache::{records_view, CacheData, CacheDataView};
use crate::text::{chars_of, split_words, strings_from, strings_view, words};

verus! {

/// What `Path::file_stem` gives for a path.
pub uninterp spec fn file_stem_of(path: Seq<char>) -> Option<Seq<char>>;

/// Relies on `std::path::Path::file_stem`: the stem of the last component of
/// the path, which depends on the path alone. A stem taken from a `&str` is
/// valid UTF-8, so the lossy conversion changes nothing.
#[verifier::external_body]
fn file_stem(path: &str) -> (r: Option<String>)
    ensures
        r is None <==> file_stem_of(path@) is None,
        r matches Some(t) ==> file_stem_of(path@) == Some(t@),
{
    match std::path::Path::new(path).file_stem() {
        Some(stem) => Some(stem.to_string_lossy().into_owned()),
        None => None,
    }
}

/// The rendered page name of a source document: its file stem with `.html`,
/// or empty when the path has no stem.
pub open spec fn html_name(path: Seq<char>) -> Seq<char> {
    match file_stem_of(path) {
        Some(stem) => stem + ".html"@,
        None => seq![],
    }
}

/// The page a source document is rendered to.
pub fn html_file_name(md_file_name: &String) -> (r: String)
    ensures
        r@ == html_name(md_file_name@),
{
    match file_stem(md_file_name.as_str()) {
        Some(stem) => {
            let mut r = stem;
            r.append(".html");
            r
        },
        None => String::new(),
    }
}

/// The record carries one of the queried tags.
pub open spec fn has_any_tag(r: CacheDataView, query: Seq<Seq<char>>) -> bool {
    exists|i: int, j: int|
        0 <= i < r.tags.len() && 0 <= j < query.len() && #[trigger] r.tags[i] == #[trigger] query[j]
}

/// Page name and title of each record carrying a queried tag, in collection
/// order.
pub open spec fn tag_entries(c: Seq<CacheDataView>, query: Seq<Seq<char>>) -> Seq<
    (Seq<char>, Seq<char>),
> {
    c.filter(|r: CacheDataView| has_any_tag(r, query)).map_values(
        |r: CacheDataView| (html_name(r.name), r.title),
    )
}

/// The entries whose title no earlier entry has.
pub open spec fn dedup_by_title(s: Seq<(Seq<char>, Seq<char>)>) -> Seq<(Seq<char>, Seq<char>)>
    decreases s.len(),
{
    if s.len() == 0 {
        seq![]
    } else {
        let d = dedup_by_title(s.drop_last());
        if s.drop_last().map_values(|e: (Seq<char>, Seq<char>)| e.1).contains(s.last().1) {
            d
        } else {
            d.push(s.last())
        }
    }
}

/// One list item: a link to the page, showing the title.
pub open spec fn list_item(e: (Seq<char>, Seq<char>)) -> Seq<char> {
    "<li><a href=\"page/"@ + e.0 + "\">"@ + e.1 + "</a></li>"@
}

/// The list items, one per line.
pub open spec fn joined_items(s: Seq<(Seq<char>, Seq<char>)>) -> Seq<char>
    decreases s.len(),
{
    if s.len() == 0 {
        seq![]
    } else if s.len() == 1 {
        list_item(s[0])
    } else {
        joined_items(s.drop_last()) + "\n"@ + list_item(s.last())
    }
}

/// The `<ul>` list of the given entries.
pub open spec fn list_html(s: Seq<(Seq<char>, Seq<char>)>) -> Seq<char> {
    "<ul>\n"@ + joined_items(s) + "\n</ul>"@
}

/// The views of a sequence of string pairs.
pub open spec fn pairs_view(v: Seq<(String, String)>) -> Seq<(Seq<char>, Seq<char>)> {
    v.map_values(|e: (String, String)| (e.0@, e.1@))
}

fn title_seen(v: &Vec<(String, String)>, n: usize, t: &String) -> (r: bool)
    requires
        n <= v@.len(),
    ensures
        r == pairs_view(v@).take(n as int).map_values(|e: (Seq<char>, Seq<char>)| e.1).contains(
            t@,
        ),
{
    let ghost ts = pairs_view(v@).take(n as int).map_values(|e: (Seq<char>, Seq<char>)| e.1);
    let mut k: usize = 0;
    while k < n
        invariant
            k <= n <= v@.len(),
            ts == pairs_view(v@).take(n as int).map_values(|e: (Seq<char>, Seq<char>)| e.1),
            forall|m: int| 0 <= m < k ==> ts[m] != t@,
        decreases n - k,
    {
        assert(ts[k as int] == v@[k as int].1@);
        if v[k].1 == *t {
            return true;
        }
        k = k + 1;
    }
    false
}

/// The entries whose title no earlier entry has (see `dedup_by_title`).
pub fn dedup_titles(meta_data: &Vec<(String, String)>) -> (r: Vec<(String, String)>)
    ensures
        pairs_view(r@) == dedup_by_title(pairs_view(meta_data@)),
{
    let ghost mv = pairs_view(meta_data@);
    let mut r: Vec<(String, String)> = Vec::new();
    let mut i: usize = 0;
    assert(pairs_view(r@) =~= dedup_by_title(mv.take(0)));
    while i < meta_data.len()
        invariant
            i <= meta_data@.len(),
            mv == pairs_view(meta_data@),
            pairs_view(r@) == dedup_by_title(mv.take(i as int)),
        decreases meta_data@.len() - i,
    {
        let seen = title_seen(meta_data, i, &meta_data[i].1);
        proof {
            assert(mv.take(i + 1).drop_last() =~= mv.take(i as int));
            assert(mv.take(i + 1).last() == mv[i as int]);
        }
        if !seen {
            let ghost before = pairs_view(r@);
            let e = (meta_data[i].0.clone(), meta_data[i].1.clone());
            r.push(e);
            assert(pairs_view(r@) =~= before.push((e.0@, e.1@)));
        }
        i = i + 1;
    }
    assert(mv.take(i as int) =~= mv);
    r
}

/// Renders the entries as a `<ul>` list of links, one per title: of entries
/// sharing a title only the first is listed.
pub fn li_href_generator(meta_data: Vec<(String, String)>) -> (r: String)
    ensures
        r@ == list_html(dedup_by_title(pairs_view(meta_data@))),
{
    let items = dedup_titles(&meta_data);
    let ghost iv = pairs_view(items@);
    let mut container = String::from_str("<ul>\n");
    let mut i: usize = 0;
    assert(iv.take(0) =~= seq![]);
    assert(container@ =~= "<ul>\n"@ + joined_items(iv.take(0)));
    while i < items.len()
        invariant
            i <= items@.len(),
            iv == pairs_view(items@),
            container@ == "<ul>\n"@ + joined_items(iv.take(i as int)),
        decreases items@.len() - i,
    {
        let ghost before = container@;
        if i > 0 {
            container.append("\n");
        }
        container.append("<li><a href=\"page/");
        container.append(items[i].0.as_str());
        container.append("\">");
        container.append(items[i].1.as_str());
        container.append("</a></li>");
        proof {
            let t = iv.take(i + 1);
            assert(t.drop_last() =~= iv.take(i as int));
            assert(t.last() == iv[i as int]);
            if i == 0 {
                assert(container@ =~= before + list_item(iv[0]));
            } else {
                assert(container@ =~= before + "\n"@ + list_item(iv[i as int]));
            }
            assert(container@ =~= "<ul>\n"@ + joined_items(t));
        }
        i = i + 1;
    }
    assert(iv.take(i as int) =~= iv);
    container.append("\n</ul>");
    container
}

fn any_tag(r: &CacheData, query: &Vec<String>) -> (b: bool)
    ensures
        b == has_any_tag(r@, strings_view(query@)),
{
    let ghost qv = strings_view(query@);
    let ghost tv = r@.tags;
    let mut i: usize = 0;
    while i < r.tags.len()
        invariant
            i <= r.tags@.len(),
            qv == strings_view(query@),
            tv == r@.tags,
            forall|a: int, b: int| 0 <= a < i && 0 <= b < qv.len() ==> #[trigger] tv[a] != #[trigger] qv[b],
        decreases r.tags@.len() - i,
    {
        let mut j: usize = 0;
        while j < query.len()
            invariant
                i < r.tags@.len(),
                j <= query@.len(),
                qv == strings_view(query@),
                tv == r@.tags,
                forall|a: int, b: int| 0 <= a < i && 0 <= b < qv.len() ==> #[trigger] tv[a] != #[trigger] qv[b],
                forall|b: int| 0 <= b < j ==> tv[i as int] != #[trigger] qv[b],
            decreases query@.len() - j,
        {
            assert(tv[i as int] == r.tags@[i as int]@);
            assert(qv[j as int] == query@[j as int]@);
            if r.tags[i] == query[j] {
                return true;
            }
            j = j + 1;
        }
        i = i + 1;
    }
    false
}

/// Page name and title of each record carrying a queried tag, in collection
/// order (see `tag_entries`).
pub fn tagged_entries(query: &Vec<String>, cache: &Vec<CacheData>) -> (r: Vec<(String, String)>)
    ensures
        pairs_view(r@) == tag_entries(records_view(cache@), strings_view(query@)),
{
    let ghost cv = records_view(cache@);
    let ghost qv = strings_view(query@);
    let ghost pred = |x: CacheDataView| has_any_tag(x, qv);
    let mut r: Vec<(String, String)> = Vec::new();
    let mut i: usize = 0;
    proof {
        reveal(Seq::filter);
        assert(cv.take(0).filter(pred) =~= seq![]);
        assert(pairs_view(r@) =~= seq![]);
    }
    while i < cache.len()
        invariant
            i <= cache@.len(),
            cv == records_view(cache@),
            qv == strings_view(query@),
            pred == (|x: CacheDataView| has_any_tag(x, qv)),
            pairs_view(r@) == cv.take(i as int).filter(pred).map_values(
                |x: CacheDataView| (html_name(x.name), x.title),
            ),
        decreases cache@.len() - i,
    {
        let ghost before = pairs_view(r@);
        let hit = any_tag(&cache[i], query);
        proof {
            reveal(Seq::filter);
            assert(cv.take(i + 1).drop_last() =~= cv.take(i as int));
            assert(cv.take(i + 1).last() == cache@[i as int]@);
        }
        if hit {
            let e = (html_file_name(&cache[i].name), cache[i].title.clone());
            r.push(e);
            assert(pairs_view(r@) =~= before.push((e.0@, e.1@)));
            assert(pairs_view(r@) =~= cv.take(i + 1).filter(pred).map_values(
                |x: CacheDataView| (html_name(x.name), x.title),
            ));
        }
        i = i + 1;
    }
    assert(cv.take(i as int) =~= cv);
    r
}

/// The tag index: page name and title of each record carrying a queried tag,
/// in collection order, one entry per title (the first).
pub fn tag_index(query: &Vec<String>, cache: &Vec<CacheData>) -> (r: Vec<(String, String)>)
    ensures
        pairs_view(r@) == dedup_by_title(
            tag_entries(records_view(cache@), strings_view(query@)),
        ),
{
    let all = tagged_entries(query, cache);
    dedup_titles(&all)
}

/// The list that stands for a template placeholder whose inner text is
/// `tag_section`: the tags are its whitespace-separated words.
pub fn placeholder_html(tag_section: &str, cache: &Vec<CacheData>) -> (r: String)
    ensures
        r@ == list_html(
            dedup_by_title(tag_entries(records_view(cache@), words(tag_section@, false))),
        ),
{
    let cs = chars_of(tag_section);
    let ws = split_words(&cs, false);
    let query = strings_from(&ws);
    li_href_generator(tagged_entries(&query, cache))
}

} // verus!
