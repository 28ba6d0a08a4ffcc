//! What holds of every reconciliation pass, proved over the pass's own
//! specification (`reconciled` and its phases).
use vstd::prelude::*;

use crate::cache::{
    added, is_refreshed, is_stale, lemma_record_for, lemma_source_time, lemma_source_time_at,
    names, pruned, reconciled, record_for, refreshed, refreshed_names, refreshed_record,
    source_paths, source_time, unique_paths, CacheDataView, Timestamp,
};

verus! {

proof fn lemma_filter_all<A>(x: Seq<A>, pred: spec_fn(A) -> bool)
    requires
        forall|k: int| 0 <= k < x.len() ==> pred(#[trigger] x[k]),
    ensures
        x.filter(pred) == x,
    decreases x.len(),
{
    reveal(Seq::filter);
    if x.len() > 0 {
        assert forall|k: int| 0 <= k < x.drop_last().len() implies pred(
            #[trigger] x.drop_last()[k],
        ) by {
            assert(x.drop_last()[k] == x[k]);
        }
        lemma_filter_all(x.drop_last(), pred);
        assert(x.drop_last().push(x.last()) =~= x);
    }
}

proof fn lemma_filter_none<A>(x: Seq<A>, pred: spec_fn(A) -> bool)
    requires
        forall|k: int| 0 <= k < x.len() ==> !pred(#[trigger] x[k]),
    ensures
        x.filter(pred) == Seq::<A>::empty(),
    decreases x.len(),
{
    reveal(Seq::filter);
    if x.len() > 0 {
        assert forall|k: int| 0 <= k < x.drop_last().len() implies !pred(
            #[trigger] x.drop_last()[k],
        ) by {
            assert(x.drop_last()[k] == x[k]);
        }
        lemma_filter_none(x.drop_last(), pred);
    }
}

proof fn lemma_filter_agree<A>(x: Seq<A>, p: spec_fn(A) -> bool, q: spec_fn(A) -> bool)
    requires
        forall|k: int| 0 <= k < x.len() ==> p(#[trigger] x[k]) == q(x[k]),
    ensures
        x.filter(p) == x.filter(q),
    decreases x.len(),
{
    reveal(Seq::filter);
    if x.len() > 0 {
        assert forall|k: int| 0 <= k < x.drop_last().len() implies p(#[trigger] x.drop_last()[k])
            == q(x.drop_last()[k]) by {
            assert(x.drop_last()[k] == x[k]);
        }
        lemma_filter_agree(x.drop_last(), p, q);
    }
}

proof fn lemma_names_refreshed(
    c: Seq<CacheDataView>,
    s: Seq<(Seq<char>, Timestamp)>,
    f: Seq<CacheDataView>,
)
    ensures
        names(refreshed(c, s, f)) == names(c),
{
    assert forall|k: int| 0 <= k < c.len() implies #[trigger] names(refreshed(c, s, f))[k]
        == names(c)[k] by {
        lemma_record_for(f, c[k].name);
    }
    assert(names(refreshed(c, s, f)) =~= names(c));
}

proof fn lemma_pruned(c: Seq<CacheDataView>, s: Seq<(Seq<char>, Timestamp)>)
    ensures
        forall|k: int|
            0 <= k < pruned(c, s).len() ==> source_paths(s).contains(
                (#[trigger] pruned(c, s)[k]).name,
            ) && c.contains(pruned(c, s)[k]),
        forall|i: int|
            0 <= i < c.len() && source_paths(s).contains((#[trigger] c[i]).name) ==> pruned(
                c,
                s,
            ).contains(c[i]),
{
    broadcast use vstd::seq_lib::group_filter_ensures;

    let pred = |r: CacheDataView| source_paths(s).contains(r.name);
    assert forall|k: int| 0 <= k < pruned(c, s).len() implies c.contains(
        #[trigger] pruned(c, s)[k],
    ) by {
        c.lemma_filter_contains_rev(pred, pruned(c, s)[k]);
    }
}

proof fn lemma_added(c: Seq<CacheDataView>, s: Seq<(Seq<char>, Timestamp)>, f: Seq<CacheDataView>)
    ensures
        forall|k: int|
            0 <= k < added(c, s, f).len() ==> source_paths(s).contains(
                (#[trigger] added(c, s, f)[k]).name,
            ) && !names(c).contains(added(c, s, f)[k].name) && record_for(
                f,
                added(c, s, f)[k].name,
            ) == Some(added(c, s, f)[k]),
        forall|j: int|
            0 <= j < s.len() && !names(c).contains((#[trigger] s[j]).0) && record_for(f, s[j].0)
                is Some ==> names(added(c, s, f)).contains(s[j].0),
    decreases s.len(),
{
    if s.len() > 0 {
        let t = s.drop_last();
        let a = added(c, s, f);
        let a0 = added(c, t, f);
        lemma_added(c, t, f);
        let p = s.last().0;
        lemma_record_for(f, p);
        assert forall|k: int| 0 <= k < a.len() implies source_paths(s).contains(
            (#[trigger] a[k]).name,
        ) && !names(c).contains(a[k].name) && record_for(f, a[k].name) == Some(a[k]) by {
            if k < a0.len() {
                assert(a[k] == a0[k]);
                let i = choose|i: int| 0 <= i < t.len() && (#[trigger] t[i]).0 == a0[k].name;
                assert(s[i] == t[i]);
            } else {
                assert(s[s.len() - 1].0 == p);
            }
        }
        assert forall|j: int|
            0 <= j < s.len() && !names(c).contains((#[trigger] s[j]).0) && record_for(f, s[j].0)
                is Some implies names(a).contains(s[j].0) by {
            if j < t.len() {
                assert(t[j] == s[j]);
                let m = choose|m: int| 0 <= m < names(a0).len() && names(a0)[m] == s[j].0;
                assert(names(a)[m] == names(a0)[m]);
            } else {
                assert(names(a)[a.len() - 1] == p);
            }
        }
    }
}

proof fn lemma_added_none(c: Seq<CacheDataView>, s: Seq<(Seq<char>, Timestamp)>, f: Seq<CacheDataView>)
    requires
        forall|j: int|
            0 <= j < s.len() ==> names(c).contains((#[trigger] s[j]).0) || record_for(f, s[j].0)
                is None,
    ensures
        added(c, s, f) == Seq::<CacheDataView>::empty(),
    decreases s.len(),
{
    if s.len() > 0 {
        let t = s.drop_last();
        assert forall|j: int| 0 <= j < t.len() implies names(c).contains((#[trigger] t[j]).0)
            || record_for(f, t[j].0) is None by {
            assert(t[j] == s[j]);
        }
        lemma_added_none(c, t, f);
        assert(s.last() == s[s.len() - 1]);
    }
}

/// Every record a pass leaves has a path of the source index.
proof fn lemma_reconciled_paths_in_source(
    c: Seq<CacheDataView>,
    s: Seq<(Seq<char>, Timestamp)>,
    f: Seq<CacheDataView>,
)
    ensures
        forall|k: int|
            0 <= k < reconciled(c, s, f).0.len() ==> source_paths(s).contains(
                (#[trigger] reconciled(c, s, f).0[k]).name,
            ),
{
    let c1 = pruned(c, s);
    let c2 = refreshed(c1, s, f);
    let a = added(c2, s, f);
    let r = reconciled(c, s, f).0;
    lemma_pruned(c, s);
    lemma_added(c2, s, f);
    lemma_names_refreshed(c1, s, f);
    assert forall|k: int| 0 <= k < r.len() implies source_paths(s).contains((#[trigger] r[k]).name) by {
        if k < c2.len() {
            assert(r[k] == c2[k]);
            assert(names(c2)[k] == names(c1)[k]);
            assert(source_paths(s).contains(c1[k].name));
        } else {
            assert(r[k] == a[k - c2.len()]);
        }
    }
}

/// After a pass, the paths of the records are exactly the paths of the source
/// index, for any records and any source index, provided that each source path
/// that no record had comes with a fresh record (a document whose front matter
/// fails to parse gets none).
pub proof fn lemma_prune_correct(
    c: Seq<CacheDataView>,
    s: Seq<(Seq<char>, Timestamp)>,
    f: Seq<CacheDataView>,
)
    requires
        forall|p: Seq<char>|
            source_paths(s).contains(p) && !names(c).contains(p) ==> #[trigger] record_for(f, p)
                is Some,
    ensures
        names(reconciled(c, s, f).0).to_set() == source_paths(s),
{
    let c1 = pruned(c, s);
    let c2 = refreshed(c1, s, f);
    let a = added(c2, s, f);
    let r = reconciled(c, s, f).0;
    lemma_pruned(c, s);
    lemma_added(c2, s, f);
    lemma_names_refreshed(c1, s, f);
    lemma_reconciled_paths_in_source(c, s, f);
    assert forall|p: Seq<char>| names(r).to_set().contains(p) <==> source_paths(s).contains(p) by {
        if names(r).contains(p) {
            let k = choose|k: int| 0 <= k < names(r).len() && names(r)[k] == p;
            assert(r[k].name == p);
        }
        if source_paths(s).contains(p) {
            let j = choose|j: int| 0 <= j < s.len() && (#[trigger] s[j]).0 == p;
            if names(c).contains(p) {
                let i = choose|i: int| 0 <= i < names(c).len() && names(c)[i] == p;
                assert(c[i].name == p);
                assert(c1.contains(c[i]));
                let m = choose|m: int| 0 <= m < c1.len() && c1[m] == c[i];
                assert(names(c2)[m] == names(c1)[m]);
                assert(names(r)[m] == p);
            } else {
                assert(record_for(f, p) is Some);
                if names(c2).contains(p) {
                    let m = choose|m: int| 0 <= m < names(c2).len() && names(c2)[m] == p;
                    assert(names(c1)[m] == p);
                    assert(c.contains(c1[m]));
                    let i = choose|i: int| 0 <= i < c.len() && c[i] == c1[m];
                    assert(names(c)[i] == p);
                }
                let m = choose|m: int| 0 <= m < names(a).len() && names(a)[m] == p;
                assert(names(r)[c2.len() + m] == p);
            }
        }
    }
    assert(names(r).to_set() =~= source_paths(s));
}

/// After a pass whose fresh records carry their source's modification time,
/// no record is due for a refresh, and every source path has a record or no
/// fresh record.
proof fn lemma_settled(c: Seq<CacheDataView>, s: Seq<(Seq<char>, Timestamp)>, f: Seq<CacheDataView>)
    requires
        forall|i: int|
            0 <= i < f.len() && (#[trigger] source_time(s, f[i].name)) is Some ==> source_time(
                s,
                f[i].name,
            ) == Some(f[i].last_modified),
    ensures
        forall|k: int|
            0 <= k < reconciled(c, s, f).0.len() ==> !is_refreshed(
                #[trigger] reconciled(c, s, f).0[k],
                s,
                f,
            ),
        forall|p: Seq<char>|
            source_paths(s).contains(p) ==> names(reconciled(c, s, f).0).contains(p)
                || #[trigger] record_for(f, p) is None,
{
    let c1 = pruned(c, s);
    let c2 = refreshed(c1, s, f);
    let a = added(c2, s, f);
    let r = reconciled(c, s, f).0;
    lemma_pruned(c, s);
    lemma_added(c2, s, f);
    lemma_names_refreshed(c1, s, f);
    lemma_reconciled_paths_in_source(c, s, f);
    // no record is refreshed
    assert forall|k: int| 0 <= k < r.len() implies !is_refreshed(#[trigger] r[k], s, f) by {
        lemma_source_time(s, r[k].name);
        if k < c2.len() {
            assert(r[k] == c2[k]);
            let x = c1[k];
            lemma_record_for(f, x.name);
            if is_refreshed(x, s, f) {
                let y = record_for(f, x.name)->0;
                let i = choose|i: int| 0 <= i < f.len() && f[i] == y;
                assert(source_time(s, f[i].name) is Some);
            }
        } else {
            let y = a[k - c2.len()];
            assert(r[k] == y);
            lemma_record_for(f, y.name);
            let i = choose|i: int| 0 <= i < f.len() && f[i] == y;
            assert(source_time(s, f[i].name) is Some);
        }
    }
    // nothing is added
    assert forall|p: Seq<char>| source_paths(s).contains(p) implies names(r).contains(p)
        || #[trigger] record_for(f, p) is None by {
        if names(c).contains(p) {
            let i = choose|i: int| 0 <= i < names(c).len() && names(c)[i] == p;
            assert(c[i].name == p);
            assert(c1.contains(c[i]));
            let m = choose|m: int| 0 <= m < c1.len() && c1[m] == c[i];
            assert(names(c2)[m] == names(c1)[m]);
            assert(names(r)[m] == p);
        } else if record_for(f, p) is Some {
            if names(c2).contains(p) {
                let m = choose|m: int| 0 <= m < names(c2).len() && names(c2)[m] == p;
                assert(names(r)[m] == p);
            } else {
                let m = choose|m: int| 0 <= m < names(a).len() && names(a)[m] == p;
                assert(names(r)[c2.len() + m] == p);
            }
        }
    }
}

/// A second pass right after a first one, over the same source index and the
/// same fresh records, changes nothing and reports no change, provided each
/// fresh record of a source path carries that path's modification time.
pub proof fn lemma_idempotent(
    c: Seq<CacheDataView>,
    s: Seq<(Seq<char>, Timestamp)>,
    f: Seq<CacheDataView>,
)
    requires
        forall|i: int|
            0 <= i < f.len() && (#[trigger] source_time(s, f[i].name)) is Some ==> source_time(
                s,
                f[i].name,
            ) == Some(f[i].last_modified),
    ensures
        reconciled(reconciled(c, s, f).0, s, f) == (
            reconciled(c, s, f).0,
            Seq::<Seq<char>>::empty(),
        ),
{
    let r = reconciled(c, s, f).0;
    lemma_settled(c, s, f);
    lemma_reconciled_paths_in_source(c, s, f);
    let keep = |x: CacheDataView| source_paths(s).contains(x.name);
    lemma_filter_all(r, keep);
    assert(pruned(r, s) == r);
    assert(refreshed(r, s, f) =~= r);
    lemma_filter_none(r, |x: CacheDataView| is_refreshed(x, s, f));
    assert(refreshed_names(r, s, f) =~= Seq::<Seq<char>>::empty());
    assert forall|j: int| 0 <= j < s.len() implies names(r).contains((#[trigger] s[j]).0)
        || record_for(f, s[j].0) is None by {
        assert(source_paths(s).contains(s[j].0));
    }
    lemma_added_none(r, s, f);
    assert(r + Seq::<CacheDataView>::empty() =~= r);
    assert(Seq::<Seq<char>>::empty() + names(Seq::<CacheDataView>::empty()) =~= Seq::<
        Seq<char>,
    >::empty());
}

/// After a pass over source index `s`, a pass over a source index `s2` whose
/// entries are all entries of `s` (documents were only deleted) just prunes:
/// the records left are those of `s2`'s paths, unchanged and in order, and no
/// change is reported. The fresh records are as for `lemma_idempotent`.
pub proof fn lemma_removal_only(
    c: Seq<CacheDataView>,
    s: Seq<(Seq<char>, Timestamp)>,
    s2: Seq<(Seq<char>, Timestamp)>,
    f: Seq<CacheDataView>,
)
    requires
        unique_paths(s),
        forall|j: int| 0 <= j < s2.len() ==> s.contains(#[trigger] s2[j]),
        forall|i: int|
            0 <= i < f.len() && (#[trigger] source_time(s, f[i].name)) is Some ==> source_time(
                s,
                f[i].name,
            ) == Some(f[i].last_modified),
    ensures
        reconciled(reconciled(c, s, f).0, s2, f) == (
            pruned(reconciled(c, s, f).0, s2),
            Seq::<Seq<char>>::empty(),
        ),
{
    let r = reconciled(c, s, f).0;
    let pr = pruned(r, s2);
    lemma_settled(c, s, f);
    lemma_pruned(r, s2);
    assert forall|k: int| 0 <= k < pr.len() implies !is_refreshed(#[trigger] pr[k], s2, f) by {
        let x = pr[k];
        let m = choose|m: int| 0 <= m < r.len() && r[m] == x;
        assert(!is_refreshed(r[m], s, f));
        lemma_source_time(s2, x.name);
        if let Some(t) = source_time(s2, x.name) {
            let i = choose|i: int| 0 <= i < s2.len() && #[trigger] s2[i] == (x.name, t);
            let j = choose|j: int| 0 <= j < s.len() && s[j] == s2[i];
            lemma_source_time_at(s, j);
        }
    }
    assert(refreshed(pr, s2, f) =~= pr);
    lemma_filter_none(pr, |x: CacheDataView| is_refreshed(x, s2, f));
    assert(refreshed_names(pr, s2, f) =~= Seq::<Seq<char>>::empty());
    assert forall|j: int| 0 <= j < s2.len() implies names(pr).contains((#[trigger] s2[j]).0)
        || record_for(f, s2[j].0) is None by {
        let p = s2[j].0;
        let i = choose|i: int| 0 <= i < s.len() && s[i] == s2[j];
        assert(source_paths(s).contains(p));
        assert(source_paths(s2).contains(p));
        if names(r).contains(p) {
            let m = choose|m: int| 0 <= m < names(r).len() && names(r)[m] == p;
            assert(r[m].name == p);
            assert(pr.contains(r[m]));
            let q = choose|q: int| 0 <= q < pr.len() && pr[q] == r[m];
            assert(names(pr)[q] == p);
        }
    }
    lemma_added_none(pr, s2, f);
    assert(pr + Seq::<CacheDataView>::empty() =~= pr);
    assert(Seq::<Seq<char>>::empty() + names(Seq::<CacheDataView>::empty()) =~= Seq::<
        Seq<char>,
    >::empty());
}

/// When every record's path comes with a fresh record, the refresh phase
/// replaces a record exactly when its stored modification time differs from the
/// source index's (in either direction), and reports exactly those paths.
pub proof fn lemma_refresh_trigger(
    c: Seq<CacheDataView>,
    s: Seq<(Seq<char>, Timestamp)>,
    f: Seq<CacheDataView>,
)
    requires
        forall|i: int| 0 <= i < c.len() ==> record_for(f, (#[trigger] c[i]).name) is Some,
    ensures
        forall|i: int|
            0 <= i < c.len() ==> #[trigger] refreshed(c, s, f)[i] == if is_stale(c[i], s) {
                record_for(f, c[i].name)->0
            } else {
                c[i]
            },
        refreshed_names(c, s, f) == names(c.filter(|r: CacheDataView| is_stale(r, s))),
        forall|i: int|
            0 <= i < c.len() ==> (is_stale(#[trigger] c[i], s) <==> source_time(s, c[i].name)
                is Some && source_time(s, c[i].name) != Some(c[i].last_modified)),
{
    lemma_filter_agree(
        c,
        |r: CacheDataView| is_refreshed(r, s, f),
        |r: CacheDataView| is_stale(r, s),
    );
}

proof fn lemma_added_unique(
    c: Seq<CacheDataView>,
    s: Seq<(Seq<char>, Timestamp)>,
    f: Seq<CacheDataView>,
)
    requires
        unique_paths(s),
    ensures
        forall|k1: int, k2: int|
            0 <= k1 < added(c, s, f).len() && 0 <= k2 < added(c, s, f).len() && k1 != k2
                ==> (#[trigger] added(c, s, f)[k1]).name != (#[trigger] added(c, s, f)[k2]).name,
    decreases s.len(),
{
    if s.len() > 0 {
        let t = s.drop_last();
        assert(unique_paths(t)) by {
            assert forall|i: int, j: int| 0 <= i < j < t.len() implies (#[trigger] t[i]).0 != (
            #[trigger] t[j]).0 by {
                assert(t[i] == s[i]);
                assert(t[j] == s[j]);
            }
        }
        lemma_added_unique(c, t, f);
        lemma_added(c, t, f);
        let a0 = added(c, t, f);
        let a = added(c, s, f);
        let p = s.last().0;
        if a.len() > a0.len() {
            lemma_record_for(f, p);
            assert forall|k: int| 0 <= k < a0.len() implies (#[trigger] a0[k]).name != p by {
                let i = choose|i: int| 0 <= i < t.len() && (#[trigger] t[i]).0 == a0[k].name;
                assert(t[i] == s[i]);
                assert(s[s.len() - 1].0 == p);
            }
            assert forall|k1: int, k2: int|
                0 <= k1 < a.len() && 0 <= k2 < a.len() && k1 != k2 implies (
                #[trigger] a[k1]).name != (#[trigger] a[k2]).name by {
                if k1 < a0.len() {
                    assert(a[k1] == a0[k1]);
                }
                if k2 < a0.len() {
                    assert(a[k2] == a0[k2]);
                }
            }
        }
    }
}

/// With a fresh record for every source path, the change set of a pass holds
/// exactly the source paths that had no record, or whose record is stale
/// (its stored modification time differs from the source's).
pub proof fn lemma_change_set(
    c: Seq<CacheDataView>,
    s: Seq<(Seq<char>, Timestamp)>,
    f: Seq<CacheDataView>,
)
    requires
        forall|p: Seq<char>| source_paths(s).contains(p) ==> #[trigger] record_for(f, p) is Some,
    ensures
        forall|p: Seq<char>|
            #[trigger] reconciled(c, s, f).1.contains(p) <==> source_paths(s).contains(p) && (
            !names(c).contains(p) || exists|i: int|
                0 <= i < c.len() && (#[trigger] c[i]).name == p && is_stale(c[i], s)),
{
    broadcast use vstd::seq_lib::group_filter_ensures;

    let c1 = pruned(c, s);
    let c2 = refreshed(c1, s, f);
    let ad = added(c2, s, f);
    let ch = reconciled(c, s, f).1;
    let pred = |x: CacheDataView| is_refreshed(x, s, f);
    let rf = c1.filter(pred);
    let rn = refreshed_names(c1, s, f);
    lemma_pruned(c, s);
    lemma_added(c2, s, f);
    lemma_names_refreshed(c1, s, f);
    assert forall|p: Seq<char>|
        #[trigger] ch.contains(p) <==> source_paths(s).contains(p) && (!names(c).contains(p)
            || exists|i: int| 0 <= i < c.len() && (#[trigger] c[i]).name == p && is_stale(c[i], s)) by {
        if ch.contains(p) {
            let q = choose|q: int| 0 <= q < ch.len() && ch[q] == p;
            if q < rn.len() {
                assert(rn[q] == p);
                c1.lemma_filter_contains_rev(pred, rf[q]);
                let i = choose|i: int| 0 <= i < c.len() && c[i] == rf[q];
                assert(c[i].name == p && is_stale(c[i], s));
            } else {
                let m = q - rn.len();
                assert(names(ad)[m] == p);
                assert(ad[m].name == p);
                if names(c).contains(p) {
                    let i = choose|i: int| 0 <= i < names(c).len() && names(c)[i] == p;
                    assert(c[i].name == p);
                    assert(c1.contains(c[i]));
                    let k = choose|k: int| 0 <= k < c1.len() && c1[k] == c[i];
                    assert(names(c2)[k] == names(c1)[k]);
                }
            }
        }
        if source_paths(s).contains(p) {
            let j = choose|j: int| 0 <= j < s.len() && (#[trigger] s[j]).0 == p;
            if !names(c).contains(p) {
                if names(c2).contains(p) {
                    let k = choose|k: int| 0 <= k < names(c2).len() && names(c2)[k] == p;
                    assert(names(c1)[k] == p);
                    assert(c.contains(c1[k]));
                    let i = choose|i: int| 0 <= i < c.len() && c[i] == c1[k];
                    assert(names(c)[i] == p);
                }
                let m = choose|m: int| 0 <= m < names(ad).len() && names(ad)[m] == p;
                assert(ch[rn.len() + m] == p);
            } else if exists|i: int| 0 <= i < c.len() && (#[trigger] c[i]).name == p && is_stale(c[i], s) {
                let i = choose|i: int| 0 <= i < c.len() && (#[trigger] c[i]).name == p && is_stale(c[i], s);
                assert(c1.contains(c[i]));
                let k = choose|k: int| 0 <= k < c1.len() && c1[k] == c[i];
                assert(pred(c1[k]));
                assert(rf.contains(c1[k]));
                let q = choose|q: int| 0 <= q < rf.len() && rf[q] == c1[k];
                assert(rn[q] == p);
                assert(ch[q] == p);
            }
        }
    }
}

/// Removing path `a` from the sources and adding path `b` is one prune and
/// one augmentation: no record of `a` is left and `a` is not reported; the
/// records that survive come first, and after them stands exactly one record
/// of `b`, its fresh record; `b` is reported as changed, by augmentation.
pub proof fn lemma_rename(
    c: Seq<CacheDataView>,
    s: Seq<(Seq<char>, Timestamp)>,
    f: Seq<CacheDataView>,
    a: Seq<char>,
    b: Seq<char>,
)
    requires
        unique_paths(s),
        !source_paths(s).contains(a),
        source_paths(s).contains(b),
        !names(c).contains(b),
        record_for(f, b) is Some,
    ensures
        !names(reconciled(c, s, f).0).contains(a),
        !reconciled(c, s, f).1.contains(a),
        reconciled(c, s, f).0.take(pruned(c, s).len() as int) == refreshed(pruned(c, s), s, f),
        exists|k: int|
            pruned(c, s).len() <= k < reconciled(c, s, f).0.len() && reconciled(c, s, f).0[k]
                == record_for(f, b)->0 && forall|k2: int|
                0 <= k2 < reconciled(c, s, f).0.len() && (#[trigger] reconciled(
                    c,
                    s,
                    f,
                ).0[k2]).name == b ==> k2 == k,
        reconciled(c, s, f).1.contains(b),
        !refreshed_names(pruned(c, s), s, f).contains(b),
{
    let c1 = pruned(c, s);
    let c2 = refreshed(c1, s, f);
    let ad = added(c2, s, f);
    let r = reconciled(c, s, f).0;
    let ch = reconciled(c, s, f).1;
    lemma_pruned(c, s);
    lemma_added(c2, s, f);
    lemma_added_unique(c2, s, f);
    lemma_names_refreshed(c1, s, f);
    lemma_reconciled_paths_in_source(c, s, f);
    lemma_record_for(f, b);
    if names(r).contains(a) {
        let k = choose|k: int| 0 <= k < names(r).len() && names(r)[k] == a;
        assert(r[k].name == a);
    }
    assert(r.take(c1.len() as int) =~= c2);
    let j = choose|j: int| 0 <= j < s.len() && (#[trigger] s[j]).0 == b;
    if names(c2).contains(b) {
        let m = choose|m: int| 0 <= m < names(c2).len() && names(c2)[m] == b;
        assert(names(c1)[m] == b);
        assert(c.contains(c1[m]));
        let i = choose|i: int| 0 <= i < c.len() && c[i] == c1[m];
        assert(names(c)[i] == b);
    }
    let m = choose|m: int| 0 <= m < names(ad).len() && names(ad)[m] == b;
    assert(record_for(f, ad[m].name) == Some(ad[m]));
    assert(r[c2.len() + m] == ad[m]);
    let k = c2.len() + m;
    assert forall|k2: int| 0 <= k2 < r.len() && (#[trigger] r[k2]).name == b implies k2 == k by {
        if k2 < c2.len() {
            assert(r[k2] == c2[k2]);
            assert(names(c2)[k2] == b);
        } else {
            assert(r[k2] == ad[k2 - c2.len()]);
        }
    }
    let rn = refreshed_names(c1, s, f);
    assert(ch[rn.len() + m] == b);
    let pred = |x: CacheDataView| is_refreshed(x, s, f);
    if rn.contains(b) {
        let q = choose|q: int| 0 <= q < rn.len() && rn[q] == b;
        c1.lemma_filter_contains_rev(pred, c1.filter(pred)[q]);
        let i = choose|i: int| 0 <= i < c1.len() && c1[i] == c1.filter(pred)[q];
        assert(names(c1)[i] == b);
    }
    if ch.contains(a) {
        let q = choose|q: int| 0 <= q < ch.len() && ch[q] == a;
        if q < rn.len() {
            c1.lemma_filter_contains_rev(pred, c1.filter(pred)[q]);
            let i = choose|i: int| 0 <= i < c1.len() && c1[i] == c1.filter(pred)[q];
            assert(c1[i].name == a);
        } else {
            assert(ad[q - rn.len()].name == a);
        }
    }
}

} // verus!
