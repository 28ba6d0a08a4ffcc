use migi::cache::{CacheData, DataManager, Timestamp};
use migi::header::HeaderParser;

fn ts(secs: u64) -> Timestamp {
    Timestamp { secs, nanos: 0 }
}

fn record(name: &str, title: &str, modified: u64, tags: &[&str]) -> CacheData {
    CacheData {
        name: name.to_string(),
        title: title.to_string(),
        created: ts(modified),
        last_modified: ts(modified),
        tags: tags.iter().map(|t| t.to_string()).collect(),
    }
}

fn names(m: &DataManager) -> Vec<String> {
    m.cache().iter().map(|r| r.name.clone()).collect()
}

/// Parses the document texts the way a build derives fresh records.
fn derive(m: &DataManager, docs: &[(&str, &str, u64)]) -> Vec<CacheData> {
    let mut fresh = Vec::new();
    for p in m.pending_paths() {
        let (_, text, t) = docs.iter().find(|d| d.0 == p).unwrap();
        if let Some(r) = CacheData::populate_struct(p.clone(), text, ts(*t), ts(*t)) {
            fresh.push(r);
        }
    }
    fresh
}

fn build(cache: Vec<CacheData>, docs: &[(&str, &str, u64)]) -> DataManager {
    let sources = docs.iter().map(|d| (d.0.to_string(), ts(d.2))).collect();
    let mut m = CacheData::create_manager(sources, cache, "cache/content.json");
    let fresh = derive(&m, docs);
    m.process_data(&fresh);
    m
}

fn take_cache(m: &DataManager) -> Vec<CacheData> {
    m.cache().iter().map(|r| r.duplicate()).collect()
}

const A: &str = "---\ntitle: A\ntags: blog\n---\nFirst";
const B: &str = "---\ntitle: B\ntags: blog news\n---\nSecond";

#[test]
fn end_to_end_three_builds() {
    let docs = [("content/a.md", A, 10), ("content/b.md", B, 20)];
    let first = build(Vec::new(), &docs);
    assert_eq!(first.required_changes(), &vec!["content/a.md".to_string(), "content/b.md".to_string()]);
    assert_eq!(first.cache().len(), 2);
    assert_eq!(first.cache()[0].title, "A");
    assert_eq!(first.cache()[1].tags, vec!["blog".to_string(), "news".to_string()]);

    let second = build(take_cache(&first), &docs);
    assert!(second.required_changes().is_empty());
    assert_eq!(names(&second), names(&first));

    let third = build(take_cache(&second), &docs[1..]);
    assert_eq!(names(&third), vec!["content/b.md".to_string()]);
    assert!(third.required_changes().is_empty());
}

#[test]
fn second_pass_is_idempotent() {
    let docs = [("x.md", A, 5), ("y.md", B, 6)];
    let first = build(vec![record("x.md", "Old", 4, &[]), record("gone.md", "G", 1, &[])], &docs);
    assert_eq!(first.required_changes(), &vec!["x.md".to_string(), "y.md".to_string()]);
    let second = build(take_cache(&first), &docs);
    assert!(second.required_changes().is_empty());
    for (a, b) in first.cache().iter().zip(second.cache().iter()) {
        assert_eq!(a.name, b.name);
        assert_eq!(a.title, b.title);
        assert_eq!(a.tags, b.tags);
        assert_eq!(a.created, b.created);
        assert_eq!(a.last_modified, b.last_modified);
    }
    assert_eq!(first.cache().len(), second.cache().len());
}

#[test]
fn prune_keeps_exactly_the_sources() {
    let docs = [("b.md", B, 2), ("c.md", A, 3)];
    let m = build(
        vec![record("a.md", "A", 1, &[]), record("b.md", "B", 2, &[]), record("d.md", "D", 4, &[])],
        &docs,
    );
    let mut got = names(&m);
    got.sort();
    assert_eq!(got, vec!["b.md".to_string(), "c.md".to_string()]);
    assert_eq!(m.required_changes(), &vec!["c.md".to_string()]);
}

#[test]
fn refresh_only_on_changed_time() {
    for (stored, now, refreshed) in [(100u64, 100u64, false), (100, 101, true), (100, 99, true)] {
        let docs = [("a.md", A, now)];
        let m = build(vec![record("a.md", "Old", stored, &[])], &docs);
        assert_eq!(m.required_changes().len() == 1, refreshed);
        assert_eq!(m.cache()[0].title, if refreshed { "A" } else { "Old" });
        assert_eq!(m.cache()[0].last_modified, ts(now));
    }
}

#[test]
fn rename_is_prune_plus_add() {
    let docs = [("new.md", A, 7)];
    let m = build(vec![record("old.md", "A", 7, &["blog"])], &docs);
    assert_eq!(names(&m), vec!["new.md".to_string()]);
    assert_eq!(m.required_changes(), &vec!["new.md".to_string()]);
    let docs = [("new.md", A, 7), ("keep.md", B, 3)];
    let m = build(vec![record("old.md", "A", 7, &["blog"]), record("keep.md", "B", 3, &[])], &docs);
    assert_eq!(names(&m), vec!["keep.md".to_string(), "new.md".to_string()]);
    assert_eq!(m.required_changes(), &vec!["new.md".to_string()]);
    assert_eq!(m.cache()[1].title, "A");
}

#[test]
fn invalid_title_keeps_previous_record() {
    let bad = "---\ntitle:   \n---\nBody";
    let docs = [("a.md", bad, 9), ("n.md", bad, 9)];
    let m = build(vec![record("a.md", "Kept", 1, &[])], &docs);
    assert_eq!(names(&m), vec!["a.md".to_string()]);
    assert_eq!(m.cache()[0].title, "Kept");
    assert!(m.required_changes().is_empty());
}

#[test]
fn phases_run_separately() {
    let sources = vec![("a.md".to_string(), ts(2)), ("b.md".to_string(), ts(3))];
    let cache = vec![record("a.md", "A", 1, &[]), record("z.md", "Z", 1, &[])];
    let mut m = CacheData::create_manager(sources, cache, "c.json");
    assert_eq!(m.pending_paths(), vec!["a.md".to_string(), "b.md".to_string()]);
    m.remove_missing_entries();
    assert_eq!(names(&m), vec!["a.md".to_string()]);
    let fresh = vec![record("b.md", "B", 3, &[]), record("a.md", "A2", 2, &[])];
    m.update_outdated_entries(&fresh);
    assert_eq!(m.cache()[0].title, "A2");
    m.add_new_entries(&fresh);
    assert_eq!(names(&m), vec!["a.md".to_string(), "b.md".to_string()]);
    assert_eq!(m.required_changes(), &vec!["a.md".to_string(), "b.md".to_string()]);
    assert_eq!(m.cache_name(), "c.json");
}

#[test]
fn later_listing_of_a_path_wins() {
    let sources = vec![("a.md".to_string(), ts(1)), ("b.md".to_string(), ts(2)), ("a.md".to_string(), ts(5))];
    let m = CacheData::create_manager(sources, Vec::new(), "c.json");
    assert_eq!(m.source_files(), &vec![("a.md".to_string(), ts(5)), ("b.md".to_string(), ts(2))]);
}

#[test]
fn populate_reads_the_header() {
    let r = CacheData::populate_struct("p.md".to_string(), B, ts(1), ts(2)).unwrap();
    assert_eq!(r.title, "B");
    assert_eq!(r.tags, vec!["blog".to_string(), "news".to_string()]);
    assert_eq!(r.created, ts(1));
    assert_eq!(r.last_modified, ts(2));
    assert!(CacheData::populate_struct("p.md".to_string(), "---\nTitle:\n---\n", ts(1), ts(1)).is_none());
    assert!(HeaderParser::get_data("no header").is_some());
}

#[test]
fn populate_rejects_header_without_title() {
    assert!(CacheData::populate_struct("t.md".to_string(), "---\ntags: a\n---\nBody", ts(1), ts(1)).is_none());
    let r = CacheData::populate_struct("n.md".to_string(), "no header here", ts(1), ts(1)).unwrap();
    assert_eq!(r.title, "");
    assert!(r.tags.is_empty());
}
