use migi::cache::{CacheData, Timestamp};
use migi::index::{dedup_titles, html_file_name, li_href_generator, placeholder_html, tag_index, tagged_entries};
use migi::template::{expand_template, expand_with};

fn record(name: &str, title: &str, tags: &[&str]) -> CacheData {
    let t = Timestamp { secs: 1, nanos: 2 };
    CacheData {
        name: name.to_string(),
        title: title.to_string(),
        created: t,
        last_modified: t,
        tags: tags.iter().map(|s| s.to_string()).collect(),
    }
}

fn pair(a: &str, b: &str) -> (String, String) {
    (a.to_string(), b.to_string())
}

#[test]
fn same_title_listed_once() {
    let cache = vec![record("content/one.md", "Same", &["blog"]), record("content/two.md", "Same", &["blog"])];
    let q = vec!["blog".to_string()];
    assert_eq!(tag_index(&q, &cache), vec![pair("one.html", "Same")]);
    assert_eq!(
        placeholder_html(" blog ", &cache),
        "<ul>\n<li><a href=\"page/one.html\">Same</a></li>\n</ul>"
    );
}

#[test]
fn any_queried_tag_matches_in_collection_order() {
    let cache = vec![
        record("content/a.md", "A", &["blog"]),
        record("content/b.md", "B", &["blog", "news"]),
        record("content/c.md", "C", &["misc"]),
        record("content/d.md", "D", &["News"]),
    ];
    let q = vec!["news".to_string(), "blog".to_string()];
    assert_eq!(tagged_entries(&q, &cache), vec![pair("a.html", "A"), pair("b.html", "B")]);
    assert!(tag_index(&vec!["none".to_string()], &cache).is_empty());
}

#[test]
fn list_rendering() {
    assert_eq!(li_href_generator(vec![]), "<ul>\n\n</ul>");
    assert_eq!(
        li_href_generator(vec![pair("a.html", "A"), pair("b.html", "B"), pair("c.html", "A")]),
        "<ul>\n<li><a href=\"page/a.html\">A</a></li>\n<li><a href=\"page/b.html\">B</a></li>\n</ul>"
    );
    assert_eq!(placeholder_html("   ", &vec![record("a.md", "A", &["x"])]), "<ul>\n\n</ul>");
}

#[test]
fn dedup_keeps_first() {
    let v = vec![pair("1", "t"), pair("2", "u"), pair("3", "t")];
    assert_eq!(dedup_titles(&v), vec![pair("1", "t"), pair("2", "u")]);
}

#[test]
fn page_names_from_paths() {
    assert_eq!(html_file_name(&"content/posts/first_post.md".to_string()), "first_post.html");
    assert_eq!(html_file_name(&"a.b.md".to_string()), "a.b.html");
    assert_eq!(html_file_name(&"notes".to_string()), "notes.html");
    assert_eq!(html_file_name(&"content/..".to_string()), "");
}

#[test]
fn placeholders_expand_from_matches() {
    let cache = vec![record("content/a.md", "A", &["blog"]), record("content/b.md", "B", &["news"])];
    let list_a = "<ul>\n<li><a href=\"page/a.html\">A</a></li>\n</ul>";
    let list_b = "<ul>\n<li><a href=\"page/b.html\">B</a></li>\n</ul>";
    let t = "<p>{{ blog }}</p><p>{{news}}</p><p>{{ blog }}</p>";
    let ms = vec![pair("{{ blog }}", " blog "), pair("{{news}}", "news")];
    let want = format!("<p>{list_a}</p><p>{list_b}</p><p>{list_a}</p>");
    assert_eq!(expand_with(t, &ms, &cache), want);
    assert_eq!(expand_template(t, &cache), Some(want));
    assert_eq!(expand_template("no markers {{}} here", &cache), Some("no markers {{}} here".to_string()));
    assert_eq!(expand_template("{{ a b }}", &vec![]), Some("<ul>\n\n</ul>".to_string()));
}

#[test]
fn placeholder_matching_edge_cases() {
    let cache = vec![record("content/a.md", "A", &["{a", "b}c", "}"])];
    let t = "{{{a}} x {{b}c}} {{\n}} {{}}} {{ }}";
    let ms = vec![pair("{{{a}}", "{a"), pair("{{b}c}}", "b}c"), pair("{{}}}", "}"), pair("{{ }}", " ")];
    assert_eq!(expand_template(t, &cache), Some(expand_with(t, &ms, &cache)));
    assert!(expand_with(t, &ms, &cache).contains("{{\n}}"));
}
