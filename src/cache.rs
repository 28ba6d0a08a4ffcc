//! The cache of document metadata records and its reconciliation against the
//! live source index: prune records of vanished documents, refresh records whose
//! source changed, and add records for new documents.
use vstd::prelude::*;

use crate::header::{header_of, last_tags, last_title, titles_valid, HeaderParser};
use crate::text::strings_view;

verus! {

/// A point in time: seconds and nanoseconds since the Unix epoch.
#[derive(Clone, Copy, PartialEq, Eq, Structural, Debug)]
pub struct Timestamp {
    pub secs: u64,
    pub nanos: u32,
}

/// The persisted metadata of one source document, keyed by its path `name`.
pub struct CacheData {
    pub name: String,
    pub title: String,
    pub created: Timestamp,
    pub last_modified: Timestamp,
    pub tags: Vec<String>,
}

/// What a record holds, as plain values.
pub ghost struct CacheDataView {
    pub name: Seq<char>,
    pub title: Seq<char>,
    pub created: Timestamp,
    pub last_modified: Timestamp,
    pub tags: Seq<Seq<char>>,
}

impl View for CacheData {
    type V = CacheDataView;

    open spec fn view(&self) -> CacheDataView {
        CacheDataView {
            name: self.name@,
            title: self.title@,
            created: self.created,
            last_modified: self.last_modified,
            tags: strings_view(self.tags@),
        }
    }
}

/// The views of a sequence of records.
pub open spec fn records_view(c: Seq<CacheData>) -> Seq<CacheDataView> {
    c.map_values(|r: CacheData| r@)
}

/// The views of a live source index: each document path with its
/// modification time.
pub open spec fn sources_view(s: Seq<(String, Timestamp)>) -> Seq<(Seq<char>, Timestamp)> {
    s.map_values(|e: (String, Timestamp)| (e.0@, e.1))
}

/// The paths of the records, in order.
pub open spec fn names(c: Seq<CacheDataView>) -> Seq<Seq<char>> {
    c.map_values(|r: CacheDataView| r.name)
}

/// The paths of a source index.
pub open spec fn source_paths(s: Seq<(Seq<char>, Timestamp)>) -> Set<Seq<char>> {
    Set::new(|p: Seq<char>| exists|i: int| 0 <= i < s.len() && (#[trigger] s[i]).0 == p)
}

/// No path occurs twice in the source index.
pub open spec fn unique_paths(s: Seq<(Seq<char>, Timestamp)>) -> bool {
    forall|i: int, j: int| 0 <= i < j < s.len() ==> (#[trigger] s[i]).0 != (#[trigger] s[j]).0
}

/// The modification time the source index holds for `p`.
pub open spec fn source_time(s: Seq<(Seq<char>, Timestamp)>, p: Seq<char>) -> Option<Timestamp>
    decreases s.len(),
{
    if s.len() == 0 {
        None
    } else if s[0].0 == p {
        Some(s[0].1)
    } else {
        source_time(s.drop_first(), p)
    }
}

/// The first of the given records whose path is `p`.
pub open spec fn record_for(f: Seq<CacheDataView>, p: Seq<char>) -> Option<CacheDataView>
    decreases f.len(),
{
    if f.len() == 0 {
        None
    } else if f[0].name == p {
        Some(f[0])
    } else {
        record_for(f.drop_first(), p)
    }
}

/// The record's stored modification time differs from the source's.
pub open spec fn is_stale(r: CacheDataView, s: Seq<(Seq<char>, Timestamp)>) -> bool {
    match source_time(s, r.name) {
        Some(t) => t != r.last_modified,
        None => false,
    }
}

/// The record is stale and a freshly derived record for its path is at hand.
pub open spec fn is_refreshed(
    r: CacheDataView,
    s: Seq<(Seq<char>, Timestamp)>,
    f: Seq<CacheDataView>,
) -> bool {
    is_stale(r, s) && record_for(f, r.name) is Some
}

/// The record after the refresh phase.
pub open spec fn refreshed_record(
    r: CacheDataView,
    s: Seq<(Seq<char>, Timestamp)>,
    f: Seq<CacheDataView>,
) -> CacheDataView {
    if is_refreshed(r, s, f) {
        record_for(f, r.name)->0
    } else {
        r
    }
}

/// Prune: the records whose path is in the source index.
pub open spec fn pruned(c: Seq<CacheDataView>, s: Seq<(Seq<char>, Timestamp)>) -> Seq<
    CacheDataView,
> {
    c.filter(|r: CacheDataView| source_paths(s).contains(r.name))
}

/// Refresh: each stale record replaced in place by its fresh record.
pub open spec fn refreshed(
    c: Seq<CacheDataView>,
    s: Seq<(Seq<char>, Timestamp)>,
    f: Seq<CacheDataView>,
) -> Seq<CacheDataView> {
    c.map_values(|r: CacheDataView| refreshed_record(r, s, f))
}

/// The paths that the refresh phase replaces, in order.
pub open spec fn refreshed_names(
    c: Seq<CacheDataView>,
    s: Seq<(Seq<char>, Timestamp)>,
    f: Seq<CacheDataView>,
) -> Seq<Seq<char>> {
    names(c.filter(|r: CacheDataView| is_refreshed(r, s, f)))
}

/// Augment: in source order, the fresh record of each source path that no
/// record of `c` has.
pub open spec fn added(
    c: Seq<CacheDataView>,
    s: Seq<(Seq<char>, Timestamp)>,
    f: Seq<CacheDataView>,
) -> Seq<CacheDataView>
    decreases s.len(),
{
    if s.len() == 0 {
        seq![]
    } else {
        let prev = added(c, s.drop_last(), f);
        let p = s.last().0;
        if !names(c).contains(p) && record_for(f, p) is Some {
            prev.push(record_for(f, p)->0)
        } else {
            prev
        }
    }
}

/// One reconciliation pass: prune, refresh, augment. Gives the new records and
/// the change set.
pub open spec fn reconciled(
    c: Seq<CacheDataView>,
    s: Seq<(Seq<char>, Timestamp)>,
    f: Seq<CacheDataView>,
) -> (Seq<CacheDataView>, Seq<Seq<char>>) {
    let c1 = pruned(c, s);
    let c2 = refreshed(c1, s, f);
    let a = added(c2, s, f);
    (c2 + a, refreshed_names(c1, s, f) + names(a))
}

/// The document at `p` needs a freshly derived record: no record has its path,
/// or one that has it is stale.
pub open spec fn needs_record(
    c: Seq<CacheDataView>,
    s: Seq<(Seq<char>, Timestamp)>,
    p: Seq<char>,
) -> bool {
    !names(c).contains(p) || exists|i: int|
        0 <= i < c.len() && (#[trigger] c[i]).name == p && is_stale(c[i], s)
}

/// The source paths, in source order, whose documents need a freshly derived
/// record.
pub open spec fn pending(c: Seq<CacheDataView>, s: Seq<(Seq<char>, Timestamp)>) -> Seq<
    Seq<char>,
> {
    s.filter(|e: (Seq<char>, Timestamp)| needs_record(c, s, e.0)).map_values(
        |e: (Seq<char>, Timestamp)| e.0,
    )
}

/// The source index as a map from path to modification time.
pub open spec fn source_map(s: Seq<(Seq<char>, Timestamp)>) -> Map<Seq<char>, Timestamp> {
    Map::new(|p: Seq<char>| source_time(s, p) is Some, |p: Seq<char>| source_time(s, p)->0)
}

/// The map that inserting the listed paths one after another gives: a later
/// time for the same path wins.
pub open spec fn files_map(raw: Seq<(Seq<char>, Timestamp)>) -> Map<Seq<char>, Timestamp>
    decreases raw.len(),
{
    if raw.len() == 0 {
        Map::empty()
    } else {
        files_map(raw.drop_last()).insert(raw.last().0, raw.last().1)
    }
}

impl CacheData {
    /// A manager for one build over the listed source files (a later entry for
    /// the same path wins) and the loaded cache collection, with an empty change
    /// set.
    pub fn create_manager(
        raw_files: Vec<(String, Timestamp)>,
        cache: Vec<CacheData>,
        cache_file: &str,
    ) -> (r: DataManager)
        ensures
            r.wf(),
            source_map(r.sources()) == files_map(sources_view(raw_files@)),
            r.records() == records_view(cache@),
            r.changes() == Seq::<Seq<char>>::empty(),
            r.cache_path() == cache_file@,
    {
        let ghost rv = sources_view(raw_files@);
        let mut sources: Vec<(String, Timestamp)> = Vec::new();
        let mut i: usize = 0;
        proof {
            assert(rv.take(0) =~= seq![]);
            assert(source_map(sources_view(sources@)) =~= Map::empty());
        }
        while i < raw_files.len()
            invariant
                i <= raw_files@.len(),
                rv == sources_view(raw_files@),
                unique_paths(sources_view(sources@)),
                source_map(sources_view(sources@)) == files_map(rv.take(i as int)),
            decreases raw_files@.len() - i,
        {
            let ghost sv = sources_view(sources@);
            let p = raw_files[i].0.clone();
            let t = raw_files[i].1;
            proof {
                assert(rv.take(i + 1).drop_last() =~= rv.take(i as int));
                assert(rv.take(i + 1).last() == (p@, t));
            }
            match find_source(&sources, &p) {
                Some(k) => {
                    proof {
                        lemma_map_update(sv, k as int, t);
                    }
                    sources.set(k, (p, t));
                    assert(sources_view(sources@) =~= sv.update(k as int, (sv[k as int].0, t)));
                },
                None => {
                    proof {
                        lemma_map_push(sv, p@, t);
                    }
                    sources.push((p, t));
                    assert(sources_view(sources@) =~= sv.push((p@, t)));
                },
            }
            i = i + 1;
        }
        assert(rv.take(i as int) =~= rv);
        let changes: Vec<String> = Vec::new();
        assert(strings_view(changes@) =~= Seq::<Seq<char>>::empty());
        DataManager {
            source_files: sources,
            cache,
            required_changes: changes,
            cache_name: String::from_str(cache_file),
        }
    }

    /// A copy of the record.
    pub fn duplicate(&self) -> (r: CacheData)
        ensures
            r@ == self@,
    {
        let mut tags: Vec<String> = Vec::new();
        let mut i: usize = 0;
        while i < self.tags.len()
            invariant
                i <= self.tags@.len(),
                strings_view(tags@) == strings_view(self.tags@).take(i as int),
            decreases self.tags@.len() - i,
        {
            let t = self.tags[i].clone();
            let ghost before = strings_view(tags@);
            tags.push(t);
            assert(strings_view(tags@) =~= before.push(t@));
            i = i + 1;
            assert(strings_view(tags@) =~= strings_view(self.tags@).take(i as int));
        }
        assert(strings_view(self.tags@).take(i as int) =~= strings_view(self.tags@));
        CacheData {
            name: self.name.clone(),
            title: self.title.clone(),
            created: self.created,
            last_modified: self.last_modified,
            tags,
        }
    }

    /// Derives the record of the document at `name` from its text and its file
    /// times. `None` when the front matter has an invalid title.
    pub fn populate_struct(name: String, text: &str, created: Timestamp, last_modified: Timestamp) -> (r: Option<CacheData>)
        ensures
            r is None <==> !titles_valid(header_of(text@)),
            r matches Some(d) ==> d@ == (CacheDataView {
                name: name@,
                title: last_title(header_of(text@)),
                created,
                last_modified,
                tags: last_tags(header_of(text@)),
            }),
    {
        match HeaderParser::get_data(text) {
            Some(h) => Some(CacheData { name, title: h.title, created, last_modified, tags: h.tags }),
            None => None,
        }
    }
}

pub proof fn lemma_source_time(s: Seq<(Seq<char>, Timestamp)>, p: Seq<char>)
    ensures
        source_time(s, p) is Some <==> source_paths(s).contains(p),
        source_time(s, p) matches Some(t) ==> exists|i: int|
            0 <= i < s.len() && #[trigger] s[i] == (p, t),
    decreases s.len(),
{
    if s.len() > 0 {
        let t = s.drop_first();
        lemma_source_time(t, p);
        if s[0].0 != p {
            if source_paths(s).contains(p) {
                let i = choose|i: int| 0 <= i < s.len() && (#[trigger] s[i]).0 == p;
                assert(t[i - 1] == s[i]);
            }
            if source_paths(t).contains(p) {
                let i = choose|i: int| 0 <= i < t.len() && (#[trigger] t[i]).0 == p;
                assert(t[i] == s[i + 1]);
            }
            if let Some(x) = source_time(t, p) {
                let i = choose|i: int| 0 <= i < t.len() && #[trigger] t[i] == (p, x);
                assert(t[i] == s[i + 1]);
            }
        } else {
            assert(s[0] == (p, s[0].1));
        }
    }
}

pub proof fn lemma_record_for(f: Seq<CacheDataView>, p: Seq<char>)
    ensures
        record_for(f, p) matches Some(r) ==> r.name == p && f.contains(r),
        record_for(f, p) is None ==> forall|i: int| 0 <= i < f.len() ==> (#[trigger] f[i]).name != p,
    decreases f.len(),
{
    if f.len() > 0 {
        let t = f.drop_first();
        lemma_record_for(t, p);
        if f[0].name != p {
            if let Some(r) = record_for(t, p) {
                let i = choose|i: int| 0 <= i < t.len() && t[i] == r;
                assert(f[i + 1] == r);
            } else {
                assert forall|i: int| 0 <= i < f.len() implies (#[trigger] f[i]).name != p by {
                    if i > 0 {
                        assert(f[i] == t[i - 1]);
                    }
                }
            }
        } else {
            assert(f.contains(f[0]));
        }
    }
}


pub proof fn lemma_source_time_at(s: Seq<(Seq<char>, Timestamp)>, k: int)
    requires
        unique_paths(s),
        0 <= k < s.len(),
    ensures
        source_time(s, s[k].0) == Some(s[k].1),
{
    lemma_source_time(s, s[k].0);
    assert(s[k] == (s[k].0, s[k].1));
    let x = source_time(s, s[k].0)->0;
    let i = choose|i: int| 0 <= i < s.len() && #[trigger] s[i] == (s[k].0, x);
    if i != k {
        if i < k {
            assert(s[i].0 != s[k].0);
        } else {
            assert(s[k].0 != s[i].0);
        }
    }
}

/// What a source index holds at `q`, by its entries.
pub proof fn lemma_source_time_by_entries(
    s: Seq<(Seq<char>, Timestamp)>,
    q: Seq<char>,
)
    requires
        unique_paths(s),
    ensures
        (forall|i: int| 0 <= i < s.len() ==> (#[trigger] s[i]).0 != q) ==> source_time(s, q)
            is None,
        forall|i: int| 0 <= i < s.len() && (#[trigger] s[i]).0 == q ==> source_time(s, q) == Some(
            s[i].1,
        ),
{
    lemma_source_time(s, q);
    assert forall|i: int| 0 <= i < s.len() && (#[trigger] s[i]).0 == q implies source_time(s, q)
        == Some(s[i].1) by {
        lemma_source_time_at(s, i);
    }
}

pub proof fn lemma_map_update(s: Seq<(Seq<char>, Timestamp)>, k: int, t: Timestamp)
    requires
        unique_paths(s),
        0 <= k < s.len(),
    ensures
        unique_paths(s.update(k, (s[k].0, t))),
        source_map(s.update(k, (s[k].0, t))) == source_map(s).insert(s[k].0, t),
{
    let p = s[k].0;
    let s2 = s.update(k, (p, t));
    assert(unique_paths(s2)) by {
        assert forall|i: int, j: int| 0 <= i < j < s2.len() implies (#[trigger] s2[i]).0 != (
        #[trigger] s2[j]).0 by {
            assert(s2[i].0 == s[i].0);
            assert(s2[j].0 == s[j].0);
        }
    }
    assert forall|q: Seq<char>| #[trigger] source_time(s2, q) == if q == p {
        Some(t)
    } else {
        source_time(s, q)
    } by {
        lemma_source_time_by_entries(s, q);
        lemma_source_time_by_entries(s2, q);
        if q == p {
            assert(s2[k].0 == q);
        } else {
            if exists|i: int| 0 <= i < s.len() && (#[trigger] s[i]).0 == q {
                let i = choose|i: int| 0 <= i < s.len() && (#[trigger] s[i]).0 == q;
                assert(s2[i] == s[i]);
            } else {
                assert forall|i: int| 0 <= i < s2.len() implies (#[trigger] s2[i]).0 != q by {
                    if i != k {
                        assert(s2[i] == s[i]);
                    }
                }
            }
        }
    }
    assert(source_map(s2) =~= source_map(s).insert(p, t));
}

pub proof fn lemma_map_push(s: Seq<(Seq<char>, Timestamp)>, p: Seq<char>, t: Timestamp)
    requires
        unique_paths(s),
        !source_paths(s).contains(p),
    ensures
        unique_paths(s.push((p, t))),
        source_map(s.push((p, t))) == source_map(s).insert(p, t),
{
    let s2 = s.push((p, t));
    assert(unique_paths(s2)) by {
        assert forall|i: int, j: int| 0 <= i < j < s2.len() implies (#[trigger] s2[i]).0 != (
        #[trigger] s2[j]).0 by {
            if j == s.len() {
                assert(s2[i] == s[i]);
                if s[i].0 == p {
                    assert(source_paths(s).contains(p));
                }
            } else {
                assert(s2[i] == s[i]);
                assert(s2[j] == s[j]);
            }
        }
    }
    assert forall|q: Seq<char>| #[trigger] source_time(s2, q) == if q == p {
        Some(t)
    } else {
        source_time(s, q)
    } by {
        lemma_source_time_by_entries(s, q);
        lemma_source_time_by_entries(s2, q);
        if q == p {
            assert(s2[s.len() as int].0 == q);
        } else {
            if exists|i: int| 0 <= i < s.len() && (#[trigger] s[i]).0 == q {
                let i = choose|i: int| 0 <= i < s.len() && (#[trigger] s[i]).0 == q;
                assert(s2[i] == s[i]);
            } else {
                assert forall|i: int| 0 <= i < s2.len() implies (#[trigger] s2[i]).0 != q by {
                    if i < s.len() {
                        assert(s2[i] == s[i]);
                    }
                }
            }
        }
    }
    assert(source_map(s2) =~= source_map(s).insert(p, t));
}

fn find_source(s: &Vec<(String, Timestamp)>, p: &String) -> (r: Option<usize>)
    ensures
        r is None ==> !source_paths(sources_view(s@)).contains(p@),
        r matches Some(k) ==> k < s@.len() && s@[k as int].0@ == p@,
{
    let ghost sv = sources_view(s@);
    let mut i: usize = 0;
    while i < s.len()
        invariant
            i <= s@.len(),
            sv == sources_view(s@),
            forall|k: int| 0 <= k < i ==> (#[trigger] sv[k]).0 != p@,
        decreases s@.len() - i,
    {
        if s[i].0 == *p {
            return Some(i);
        }
        assert(sv[i as int].0 == s@[i as int].0@);
        i = i + 1;
    }
    proof {
        if source_paths(sv).contains(p@) {
            let k = choose|k: int| 0 <= k < sv.len() && (#[trigger] sv[k]).0 == p@;
        }
    }
    None
}

fn needs_fresh(c: &Vec<CacheData>, s: &Vec<(String, Timestamp)>, p: &String) -> (r: bool)
    ensures
        r == needs_record(records_view(c@), sources_view(s@), p@),
{
    let ghost cv = records_view(c@);
    let mut known = false;
    let mut i: usize = 0;
    while i < c.len()
        invariant
            i <= c@.len(),
            cv == records_view(c@),
            known <==> exists|k: int| 0 <= k < i && (#[trigger] cv[k]).name == p@,
            forall|k: int| 0 <= k < i && (#[trigger] cv[k]).name == p@ ==> !is_stale(cv[k], sources_view(s@)),
        decreases c@.len() - i,
    {
        assert(cv[i as int] == c@[i as int]@);
        if c[i].name == *p {
            known = true;
            let t = lookup_time(s, &c[i].name);
            match t {
                Some(t) => {
                    if t != c[i].last_modified {
                        return true;
                    }
                },
                None => {},
            }
        }
        i = i + 1;
    }
    proof {
        if names(cv).contains(p@) {
            let k = choose|k: int| 0 <= k < names(cv).len() && names(cv)[k] == p@;
            assert(cv[k].name == p@);
        }
        if known {
            let k = choose|k: int| 0 <= k < i && (#[trigger] cv[k]).name == p@;
            assert(names(cv)[k] == p@);
        }
    }
    !known
}

fn lookup_time(s: &Vec<(String, Timestamp)>, p: &String) -> (r: Option<Timestamp>)
    ensures
        r == source_time(sources_view(s@), p@),
{
    let ghost sv = sources_view(s@);
    let mut i: usize = 0;
    assert(sv.skip(0) =~= sv);
    while i < s.len()
        invariant
            i <= s@.len(),
            sv == sources_view(s@),
            source_time(sv.skip(i as int), p@) == source_time(sv, p@),
        decreases s@.len() - i,
    {
        assert(sv.skip(i as int)[0] == sv[i as int]);
        if s[i].0 == *p {
            return Some(s[i].1);
        }
        assert(sv.skip(i as int).drop_first() =~= sv.skip(i + 1));
        i = i + 1;
    }
    None
}

fn find_record(f: &Vec<CacheData>, p: &String) -> (r: Option<usize>)
    ensures
        r is None <==> record_for(records_view(f@), p@) is None,
        r matches Some(j) ==> j < f@.len() && record_for(records_view(f@), p@) == Some(
            f@[j as int]@,
        ),
{
    let ghost fv = records_view(f@);
    let mut i: usize = 0;
    assert(fv.skip(0) =~= fv);
    while i < f.len()
        invariant
            i <= f@.len(),
            fv == records_view(f@),
            record_for(fv.skip(i as int), p@) == record_for(fv, p@),
        decreases f@.len() - i,
    {
        assert(fv.skip(i as int)[0] == fv[i as int]);
        if f[i].name == *p {
            return Some(i);
        }
        assert(fv.skip(i as int).drop_first() =~= fv.skip(i + 1));
        i = i + 1;
    }
    None
}

fn contains_name(v: &Vec<String>, p: &String) -> (r: bool)
    ensures
        r == strings_view(v@).contains(p@),
{
    let mut i: usize = 0;
    while i < v.len()
        invariant
            i <= v@.len(),
            forall|k: int| 0 <= k < i ==> strings_view(v@)[k] != p@,
        decreases v@.len() - i,
    {
        if v[i] == *p {
            assert(strings_view(v@)[i as int] == p@);
            return true;
        }
        i = i + 1;
    }
    false
}

/// The paths of the records, as strings.
fn record_names(c: &Vec<CacheData>) -> (r: Vec<String>)
    ensures
        strings_view(r@) == names(records_view(c@)),
{
    let mut r: Vec<String> = Vec::new();
    let mut i: usize = 0;
    while i < c.len()
        invariant
            i <= c@.len(),
            strings_view(r@) == names(records_view(c@)).take(i as int),
        decreases c@.len() - i,
    {
        let nm = c[i].name.clone();
        let ghost before = strings_view(r@);
        r.push(nm);
        assert(strings_view(r@) =~= before.push(nm@));
        i = i + 1;
        assert(strings_view(r@) =~= names(records_view(c@)).take(i as int));
    }
    assert(names(records_view(c@)).take(i as int) =~= names(records_view(c@)));
    r
}

/// The cache collection of one build, the live source index it is reconciled
/// against, and the change set gathered so far.
pub struct DataManager {
    source_files: Vec<(String, Timestamp)>,
    cache: Vec<CacheData>,
    required_changes: Vec<String>,
    cache_name: String,
}

impl DataManager {
    /// The records of the cache collection.
    pub closed spec fn records(&self) -> Seq<CacheDataView> {
        records_view(self.cache@)
    }

    /// The live source index.
    pub closed spec fn sources(&self) -> Seq<(Seq<char>, Timestamp)> {
        sources_view(self.source_files@)
    }

    /// The change set gathered so far.
    pub closed spec fn changes(&self) -> Seq<Seq<char>> {
        strings_view(self.required_changes@)
    }

    /// Where the cache collection is persisted.
    pub closed spec fn cache_path(&self) -> Seq<char> {
        self.cache_name@
    }

    /// The source index holds each path once.
    pub closed spec fn wf(&self) -> bool {
        unique_paths(self.sources())
    }

    /// Prune: removes every record whose path is not in the source index.
    pub fn remove_missing_entries(&mut self)
        requires
            old(self).wf(),
        ensures
            final(self).wf(),
            final(self).records() == pruned(old(self).records(), old(self).sources()),
            final(self).sources() == old(self).sources(),
            final(self).changes() == old(self).changes(),
            final(self).cache_path() == old(self).cache_path(),
    {
        let mut old_cache: Vec<CacheData> = Vec::new();
        std::mem::swap(&mut self.cache, &mut old_cache);
        let ghost c0 = records_view(old_cache@);
        let ghost sv = sources_view(self.source_files@);
        let mut i: usize = 0;
        proof {
            reveal(Seq::filter);
            assert(c0.take(0) =~= seq![]);
            assert(records_view(self.cache@) =~= seq![]);
        }
        while i < old_cache.len()
            invariant
                i <= old_cache@.len(),
                c0 == records_view(old_cache@),
                sv == sources_view(self.source_files@),
                self.source_files == old(self).source_files,
                self.required_changes == old(self).required_changes,
                self.cache_name == old(self).cache_name,
                records_view(self.cache@) == c0.take(i as int).filter(
                    |r: CacheDataView| source_paths(sv).contains(r.name),
                ),
            decreases old_cache@.len() - i,
        {
            let ghost before = records_view(self.cache@);
            let keep = lookup_time(&self.source_files, &old_cache[i].name);
            proof {
                lemma_source_time(sv, old_cache@[i as int].name@);
                reveal(Seq::filter);
                assert(c0.take(i + 1).drop_last() =~= c0.take(i as int));
                assert(c0.take(i + 1).last() == old_cache@[i as int]@);
            }
            if keep.is_some() {
                let r = old_cache[i].duplicate();
                self.cache.push(r);
                assert(records_view(self.cache@) =~= before.push(r@));
            }
            i = i + 1;
        }
        assert(c0.take(i as int) =~= c0);
    }
    /// Refresh: replaces in place each record whose stored modification time
    /// differs from the source index's by the first record of `fresh` with its
    /// path, and appends that path to the change set. A stale record with no
    /// fresh record (its front matter failed to parse) stays as it was.
    pub fn update_outdated_entries(&mut self, fresh: &Vec<CacheData>)
        requires
            old(self).wf(),
        ensures
            final(self).wf(),
            final(self).records() == refreshed(
                old(self).records(),
                old(self).sources(),
                records_view(fresh@),
            ),
            final(self).changes() == old(self).changes() + refreshed_names(
                old(self).records(),
                old(self).sources(),
                records_view(fresh@),
            ),
            final(self).sources() == old(self).sources(),
            final(self).cache_path() == old(self).cache_path(),
    {
        let ghost c0 = records_view(self.cache@);
        let ghost ch0 = strings_view(self.required_changes@);
        let ghost sv = sources_view(self.source_files@);
        let ghost fv = records_view(fresh@);
        let mut i: usize = 0;
        proof {
            reveal(Seq::filter);
            assert(c0.take(0).filter(|r: CacheDataView| is_refreshed(r, sv, fv)) =~= seq![]);
            assert(ch0 + names(seq![]) =~= ch0);
            assert(refreshed(c0.take(0), sv, fv) + c0.skip(0) =~= c0);
        }
        while i < self.cache.len()
            invariant
                i <= self.cache@.len(),
                c0.len() == self.cache@.len(),
                sv == sources_view(self.source_files@),
                fv == records_view(fresh@),
                self.source_files == old(self).source_files,
                self.cache_name == old(self).cache_name,
                c0 == records_view(old(self).cache@),
                ch0 == strings_view(old(self).required_changes@),
                records_view(self.cache@) == refreshed(c0.take(i as int), sv, fv) + c0.skip(
                    i as int,
                ),
                strings_view(self.required_changes@) == ch0 + names(
                    c0.take(i as int).filter(|r: CacheDataView| is_refreshed(r, sv, fv)),
                ),
            decreases self.cache@.len() - i,
        {
            let ghost cur = records_view(self.cache@);
            let ghost ch = strings_view(self.required_changes@);
            let ghost r0 = c0[i as int];
            assert(cur[i as int] == r0);
            assert(self.cache@[i as int]@ == r0);
            let t = lookup_time(&self.source_files, &self.cache[i].name);
            let mut hit: Option<usize> = None;
            match t {
                Some(t) => {
                    if t != self.cache[i].last_modified {
                        hit = find_record(fresh, &self.cache[i].name);
                    }
                },
                None => {},
            }
            proof {
                reveal(Seq::filter);
                assert(c0.take(i + 1).drop_last() =~= c0.take(i as int));
                assert(c0.take(i + 1).last() == r0);
                lemma_record_for(fv, r0.name);
            }
            match hit {
                Some(j) => {
                    let rec = fresh[j].duplicate();
                    let nm = rec.name.clone();
                    self.cache.set(i, rec);
                    self.required_changes.push(nm);
                    assert(strings_view(self.required_changes@) =~= ch.push(nm@));
                    assert(is_refreshed(r0, sv, fv));
                    assert(refreshed_record(r0, sv, fv) == rec@);
                    assert(records_view(self.cache@) =~= cur.update(i as int, rec@));
                },
                None => {
                    assert(!is_refreshed(r0, sv, fv));
                },
            }
            assert(records_view(self.cache@) =~= refreshed(c0.take(i + 1), sv, fv) + c0.skip(
                i + 1,
            ));
            i = i + 1;
        }
        assert(c0.take(i as int) =~= c0);
        assert(c0.skip(i as int) =~= seq![]);
        assert(records_view(self.cache@) =~= refreshed(c0, sv, fv));
    }

    /// Augment: in source order, appends for each source path that no record
    /// had before the call the first record of `fresh` with that path, and
    /// appends the path to the change set. A path with no fresh record is
    /// skipped.
    pub fn add_new_entries(&mut self, fresh: &Vec<CacheData>)
        requires
            old(self).wf(),
        ensures
            final(self).wf(),
            final(self).records() == old(self).records() + added(
                old(self).records(),
                old(self).sources(),
                records_view(fresh@),
            ),
            final(self).changes() == old(self).changes() + names(
                added(old(self).records(), old(self).sources(), records_view(fresh@)),
            ),
            final(self).sources() == old(self).sources(),
            final(self).cache_path() == old(self).cache_path(),
    {
        let cache_set = record_names(&self.cache);
        let ghost c0 = records_view(self.cache@);
        let ghost ch0 = strings_view(self.required_changes@);
        let ghost sv = sources_view(self.source_files@);
        let ghost fv = records_view(fresh@);
        let mut i: usize = 0;
        proof {
            assert(sv.take(0) =~= seq![]);
            assert(c0 + seq![] =~= c0);
            assert(ch0 + names(seq![]) =~= ch0);
        }
        while i < self.source_files.len()
            invariant
                i <= self.source_files@.len(),
                sv == sources_view(self.source_files@),
                fv == records_view(fresh@),
                strings_view(cache_set@) == names(c0),
                self.source_files == old(self).source_files,
                self.cache_name == old(self).cache_name,
                c0 == records_view(old(self).cache@),
                ch0 == strings_view(old(self).required_changes@),
                records_view(self.cache@) == c0 + added(c0, sv.take(i as int), fv),
                strings_view(self.required_changes@) == ch0 + names(
                    added(c0, sv.take(i as int), fv),
                ),
            decreases self.source_files@.len() - i,
        {
            let ghost cur = records_view(self.cache@);
            let ghost ch = strings_view(self.required_changes@);
            let ghost a0 = added(c0, sv.take(i as int), fv);
            let p = &self.source_files[i].0;
            assert(p@ == sv[i as int].0);
            let known = contains_name(&cache_set, p);
            let mut hit: Option<usize> = None;
            if !known {
                hit = find_record(fresh, p);
            }
            proof {
                assert(sv.take(i + 1).drop_last() =~= sv.take(i as int));
                assert(sv.take(i + 1).last() == sv[i as int]);
            }
            match hit {
                Some(j) => {
                    let rec = fresh[j].duplicate();
                    let nm = self.source_files[i].0.clone();
                    self.cache.push(rec);
                    self.required_changes.push(nm);
                    proof {
                        lemma_record_for(fv, nm@);
                        assert(added(c0, sv.take(i + 1), fv) == a0.push(rec@));
                        assert(records_view(self.cache@) =~= cur.push(rec@));
                        assert(records_view(self.cache@) =~= c0 + a0.push(rec@));
                        assert(strings_view(self.required_changes@) =~= ch.push(nm@));
                        assert(names(a0.push(rec@)) =~= names(a0).push(rec@.name));
                    }
                },
                None => {},
            }
            i = i + 1;
        }
        assert(sv.take(i as int) =~= sv);
    }

    /// One reconciliation pass: prune, then refresh, then augment (see
    /// `reconciled`). The new paths are appended to the change set.
    pub fn process_data(&mut self, fresh: &Vec<CacheData>)
        requires
            old(self).wf(),
        ensures
            final(self).wf(),
            final(self).records() == reconciled(
                old(self).records(),
                old(self).sources(),
                records_view(fresh@),
            ).0,
            final(self).changes() == old(self).changes() + reconciled(
                old(self).records(),
                old(self).sources(),
                records_view(fresh@),
            ).1,
            final(self).sources() == old(self).sources(),
            final(self).cache_path() == old(self).cache_path(),
    {
        self.remove_missing_entries();
        self.update_outdated_entries(fresh);
        self.add_new_entries(fresh);
        assert(self.changes() =~= old(self).changes() + reconciled(
            old(self).records(),
            old(self).sources(),
            records_view(fresh@),
        ).1);
    }

    /// The source paths, in source order, whose documents need a freshly
    /// derived record for the next reconciliation pass (see `pending`).
    pub fn pending_paths(&self) -> (r: Vec<String>)
        ensures
            strings_view(r@) == pending(self.records(), self.sources()),
    {
        let ghost cv = self.records();
        let ghost sv = self.sources();
        let ghost pred = |e: (Seq<char>, Timestamp)| needs_record(cv, sv, e.0);
        let mut r: Vec<String> = Vec::new();
        let mut i: usize = 0;
        proof {
            reveal(Seq::filter);
            assert(sv.take(0).filter(pred) =~= seq![]);
            assert(strings_view(r@) =~= seq![]);
        }
        while i < self.source_files.len()
            invariant
                i <= self.source_files@.len(),
                cv == self.records(),
                sv == self.sources(),
                pred == (|e: (Seq<char>, Timestamp)| needs_record(cv, sv, e.0)),
                strings_view(r@) == sv.take(i as int).filter(pred).map_values(
                    |e: (Seq<char>, Timestamp)| e.0,
                ),
            decreases self.source_files@.len() - i,
        {
            let ghost before = strings_view(r@);
            let p = &self.source_files[i].0;
            let need = needs_fresh(&self.cache, &self.source_files, p);
            proof {
                reveal(Seq::filter);
                assert(sv.take(i + 1).drop_last() =~= sv.take(i as int));
                assert(sv.take(i + 1).last() == sv[i as int]);
                assert(sv[i as int].0 == p@);
            }
            if need {
                let q = p.clone();
                r.push(q);
                assert(strings_view(r@) =~= before.push(q@));
                assert(strings_view(r@) =~= sv.take(i + 1).filter(pred).map_values(
                    |e: (Seq<char>, Timestamp)| e.0,
                ));
            }
            i = i + 1;
        }
        assert(sv.take(i as int) =~= sv);
        r
    }

    /// The records of the cache collection.
    pub fn cache(&self) -> (r: &Vec<CacheData>)
        ensures
            records_view(r@) == self.records(),
    {
        &self.cache
    }

    /// The change set gathered so far.
    pub fn required_changes(&self) -> (r: &Vec<String>)
        ensures
            strings_view(r@) == self.changes(),
    {
        &self.required_changes
    }

    /// The live source index.
    pub fn source_files(&self) -> (r: &Vec<(String, Timestamp)>)
        ensures
            sources_view(r@) == self.sources(),
    {
        &self.source_files
    }

    /// Where the cache collection is persisted.
    pub fn cache_name(&self) -> (r: &String)
        ensures
            r@ == self.cache_path(),
    {
        &self.cache_name
    }
}

} // verus!
