use vstd::prelude::*;
use crate::cache::{file_contrib, dir_contrib, ChurnCache};
use crate::path::NamePath;
use crate::types::{EntryKind, ObjectId, PendingDir, TreeEntry};

verus! {

/// The contents observed for the file at `p` among the pairs `s`.
pub open spec fn versions_in(s: Set<(NamePath, ObjectId)>, p: NamePath) -> Set<ObjectId> {
    Set::new(|id: ObjectId| s.contains((p, id)))
}

/// The pairs after recording, one after another, each content of `ids` for
/// the file at `p`, as `record_file_version` does.
pub open spec fn record_all(s: Set<(NamePath, ObjectId)>, p: NamePath, ids: Seq<ObjectId>) -> Set<
    (NamePath, ObjectId),
>
    decreases ids.len(),
{
    if ids.len() == 0 {
        s
    } else {
        record_all(s, p, ids.drop_last()).insert((p, ids.last()))
    }
}

/// A content that recurs at a path counts once: after recording the
/// contents `ids` for the file at `p`, the contents seen there are those
/// seen before together with the distinct members of `ids`, and from
/// nothing their number is the number of distinct hashes in `ids`.
pub proof fn law_recurring_content_counts_once(s: Set<(NamePath, ObjectId)>, p: NamePath, ids: Seq<ObjectId>)
    ensures
        versions_in(record_all(s, p, ids), p) == versions_in(s, p) + ids.to_set(),
        versions_in(record_all(Set::empty(), p, ids), p) == ids.to_set(),
    decreases ids.len(),
{
    if ids.len() > 0 {
        law_recurring_content_counts_once(s, p, ids.drop_last());
        law_recurring_content_counts_once(Set::empty(), p, ids.drop_last());
        assert(ids =~= ids.drop_last().push(ids.last()));
        assert(ids.to_set() =~= ids.drop_last().to_set().insert(ids.last())) by {
            vstd::seq_lib::lemma_seq_contains_after_push(ids.drop_last(), ids.last(), ids.last());
            assert forall|x: ObjectId| ids.contains(x) <==> ids.drop_last().contains(x) || x == ids.last() by {
                if ids.contains(x) {
                    let k = choose|k: int| 0 <= k < ids.len() && ids[k] == x;
                    if k < ids.len() - 1 {
                        assert(ids.drop_last()[k] == x);
                    }
                }
                if ids.drop_last().contains(x) {
                    let k = choose|k: int| 0 <= k < ids.len() - 1 && ids.drop_last()[k] == x;
                    assert(ids[k] == x);
                }
                assert(ids[ids.len() - 1] == ids.last());
            }
        }
        assert(versions_in(record_all(s, p, ids), p) =~= versions_in(record_all(s, p, ids.drop_last()), p).insert(ids.last()));
        assert(versions_in(record_all(Set::empty(), p, ids), p) =~= versions_in(record_all(Set::empty(), p, ids.drop_last()), p).insert(ids.last()));
        assert(versions_in(record_all(s, p, ids), p) =~= versions_in(s, p) + ids.to_set());
        assert(versions_in(record_all(Set::empty(), p, ids), p) =~= ids.to_set());
    } else {
        assert(ids.to_set() =~= Set::empty());
        assert(versions_in(Set::<(NamePath, ObjectId)>::empty(), p) =~= Set::empty());
        assert(versions_in(s, p) + ids.to_set() =~= versions_in(s, p));
    }
}

/// The file pairs after folding the snapshots `steps` (each a directory path
/// and its entries) one after another, as `fold_snapshot` does.
pub open spec fn fold_files(s: Set<(NamePath, ObjectId)>, steps: Seq<(NamePath, Seq<TreeEntry>)>) -> Set<
    (NamePath, ObjectId),
>
    decreases steps.len(),
{
    if steps.len() == 0 {
        s
    } else {
        fold_files(s, steps.drop_last()) + file_contrib(steps.last().0, steps.last().1)
    }
}

/// The directory pairs after folding the snapshots `steps` one after
/// another, as `fold_snapshot` does.
pub open spec fn fold_dirs(s: Set<(NamePath, ObjectId)>, steps: Seq<(NamePath, Seq<TreeEntry>)>) -> Set<
    (NamePath, ObjectId),
>
    decreases steps.len(),
{
    if steps.len() == 0 {
        s
    } else {
        fold_dirs(s, steps.drop_last()) + dir_contrib(steps.last().0, steps.last().1)
    }
}

/// Everything that some step of `steps` brings.
spec fn brought_by(steps: Seq<(NamePath, Seq<TreeEntry>)>, files: bool) -> Set<(NamePath, ObjectId)> {
    Set::new(
        |pr: (NamePath, ObjectId)|
            exists|k: int|
                0 <= k < steps.len() && #[trigger] contrib_of(steps[k], files).contains(pr),
    )
}

spec fn contrib_of(step: (NamePath, Seq<TreeEntry>), files: bool) -> Set<(NamePath, ObjectId)> {
    if files {
        file_contrib(step.0, step.1)
    } else {
        dir_contrib(step.0, step.1)
    }
}

proof fn lemma_fold_is_union(s: Set<(NamePath, ObjectId)>, steps: Seq<(NamePath, Seq<TreeEntry>)>)
    ensures
        fold_files(s, steps) == s + brought_by(steps, true),
        fold_dirs(s, steps) == s + brought_by(steps, false),
    decreases steps.len(),
{
    if steps.len() == 0 {
        assert(fold_files(s, steps) =~= s + brought_by(steps, true));
        assert(fold_dirs(s, steps) =~= s + brought_by(steps, false));
    } else {
        let init = steps.drop_last();
        lemma_fold_is_union(s, init);
        assert forall|files: bool, pr: (NamePath, ObjectId)|
            #[trigger] brought_by(steps, files).contains(pr) <==> brought_by(init, files).contains(pr)
                || contrib_of(steps.last(), files).contains(pr) by {
            if brought_by(steps, files).contains(pr) {
                let k = choose|k: int| 0 <= k < steps.len() && #[trigger] contrib_of(steps[k], files).contains(pr);
                if k < init.len() {
                    assert(init[k] == steps[k]);
                }
            }
            if brought_by(init, files).contains(pr) {
                let k = choose|k: int| 0 <= k < init.len() && #[trigger] contrib_of(init[k], files).contains(pr);
                assert(init[k] == steps[k]);
            }
            if contrib_of(steps.last(), files).contains(pr) {
                assert(steps[steps.len() - 1] == steps.last());
            }
        }
        assert(fold_files(s, steps) =~= s + brought_by(steps, true));
        assert(fold_dirs(s, steps) =~= s + brought_by(steps, false));
    }
}

/// Folding is a union: two runs over the same snapshots, in any order and
/// with any repetition (the same root twice in a row, say), end with the
/// same file and directory pairs.
pub proof fn law_fold_order_independent(
    s: Set<(NamePath, ObjectId)>,
    d: Set<(NamePath, ObjectId)>,
    steps1: Seq<(NamePath, Seq<TreeEntry>)>,
    steps2: Seq<(NamePath, Seq<TreeEntry>)>,
)
    requires
        forall|x: (NamePath, Seq<TreeEntry>)| steps1.contains(x) <==> steps2.contains(x),
    ensures
        fold_files(s, steps1) == fold_files(s, steps2),
        fold_dirs(d, steps1) == fold_dirs(d, steps2),
{
    lemma_fold_is_union(s, steps1);
    lemma_fold_is_union(s, steps2);
    lemma_fold_is_union(d, steps1);
    lemma_fold_is_union(d, steps2);
    assert forall|files: bool, pr: (NamePath, ObjectId)|
        #[trigger] brought_by(steps1, files).contains(pr) implies brought_by(steps2, files).contains(pr) by {
        {
            let k = choose|k: int| 0 <= k < steps1.len() && #[trigger] contrib_of(steps1[k], files).contains(pr);
            assert(steps1.contains(steps1[k]));
            let m = choose|m: int| 0 <= m < steps2.len() && steps2[m] == steps1[k];
            assert(contrib_of(steps2[m], files).contains(pr));
        }
    }
    assert forall|files: bool, pr: (NamePath, ObjectId)|
        #[trigger] brought_by(steps2, files).contains(pr) implies brought_by(steps1, files).contains(pr) by {
        {
            let k = choose|k: int| 0 <= k < steps2.len() && #[trigger] contrib_of(steps2[k], files).contains(pr);
            assert(steps2.contains(steps2[k]));
            let m = choose|m: int| 0 <= m < steps1.len() && steps1[m] == steps2[k];
            assert(contrib_of(steps1[m], files).contains(pr));
        }
    }
    assert(brought_by(steps1, true) =~= brought_by(steps2, true));
    assert(brought_by(steps1, false) =~= brought_by(steps2, false));
}

/// A subdirectory whose content was already folded at its path is never
/// handed back for resolution: folding a snapshot whose directory entries
/// were all folded before hands back nothing.
pub proof fn law_seen_subtree_not_resolved_again(
    after: ChurnCache,
    before: ChurnCache,
    brought: Set<(NamePath, ObjectId)>,
    pending: Seq<PendingDir>,
)
    requires
        after.pending_exact(before, brought, pending),
    ensures
        forall|m: int| 0 <= m < pending.len() ==> !before.seen_pairs().contains(
            #[trigger] after.pending_pair(pending[m]),
        ),
        brought.subset_of(before.seen_pairs()) ==> pending.len() == 0,
{
    if brought.subset_of(before.seen_pairs()) && pending.len() > 0 {
        let q = pending[0];
        assert(brought.contains(after.pending_pair(q)));
    }
}

/// A snapshot folded at `p` can be folded there again at no cost: the cache
/// `after` that the first fold left meets the condition under which
/// `fold_snapshot` (and `fold_root`) leave the cache exactly as it is, so a
/// root repeated by the next commit adds no record, pair or count.
pub proof fn law_repeated_snapshot_changes_nothing(
    before: ChurnCache,
    after: ChurnCache,
    p: NamePath,
    es: Seq<TreeEntry>,
)
    requires
        after.file_pairs() == before.file_pairs() + file_contrib(p, es),
        after.seen_pairs() == before.seen_pairs() + dir_contrib(p, es),
    ensures
        dir_contrib(p, es).subset_of(after.seen_pairs()),
        file_contrib(p, es).subset_of(after.file_pairs()),
{
}

/// Some row of `rows` has the text and the count of `x`.
pub open spec fn has_row_like(rows: Seq<(String, usize)>, x: (String, usize)) -> bool {
    exists|r: int| 0 <= r < rows.len() && (#[trigger] rows[r]).0@ == x.0@ && rows[r].1 == x.1
}

/// The report depends on what was observed, not on the order in which the
/// records were made: two caches with the same file pairs report rows of the
/// same texts and counts, one for one.
pub proof fn law_report_depends_on_content(
    c1: ChurnCache,
    c2: ChurnCache,
    rows1: Seq<(String, usize)>,
    origin1: Seq<NamePath>,
    rows2: Seq<(String, usize)>,
    origin2: Seq<NamePath>,
)
    requires
        c1.file_pairs() == c2.file_pairs(),
        c1.reports(rows1, origin1),
        c2.reports(rows2, origin2),
    ensures
        rows1.len() == rows2.len(),
        forall|r1: int| 0 <= r1 < rows1.len() ==> #[trigger] has_row_like(rows2, rows1[r1]),
{
    assert(c1.file_paths() =~= c2.file_paths());
    assert forall|q: NamePath| #[trigger] c1.versions(q) == c2.versions(q) by {
        assert(c1.versions(q) =~= c2.versions(q));
    }
    assert forall|r1: int| 0 <= r1 < rows1.len() implies #[trigger] has_row_like(rows2, rows1[r1]) by {
        let q = origin1[r1];
        assert(c1.row_of(rows1[r1], q));
        assert(origin2.contains(q));
        let r2 = choose|r2: int| 0 <= r2 < origin2.len() && origin2[r2] == q;
        assert(c2.row_of(rows2[r2], origin2[r2]));
    }
    // both origin lists hold each observed path once, so they are as long
    assert(origin1.to_set() =~= c1.file_paths()) by {
        assert forall|q: NamePath| origin1.to_set().contains(q) implies c1.file_paths().contains(q) by {
            let r = choose|r: int| 0 <= r < origin1.len() && origin1[r] == q;
            assert(c1.row_of(rows1[r], origin1[r]));
        }
    }
    assert(origin2.to_set() =~= c2.file_paths()) by {
        assert forall|q: NamePath| origin2.to_set().contains(q) implies c2.file_paths().contains(q) by {
            let r = choose|r: int| 0 <= r < origin2.len() && origin2[r] == q;
            assert(c2.row_of(rows2[r], origin2[r]));
        }
    }
    origin1.unique_seq_to_set();
    origin2.unique_seq_to_set();
}

/// The hashes that the file entries of the snapshots `steps` show at path `q`.
pub open spec fn observed_at(steps: Seq<(NamePath, Seq<TreeEntry>)>, q: NamePath) -> Set<ObjectId> {
    Set::new(
        |id: ObjectId|
            exists|s: int, k: int|
                0 <= s < steps.len() && 0 <= k < steps[s].1.len() && (#[trigger] steps[s].1[k]).kind
                    == EntryKind::File && q == steps[s].0.push(steps[s].1[k].name@) && id == steps[s].1[k].id,
    )
}

proof fn lemma_file_contrib_exact(p: NamePath, es: Seq<TreeEntry>, pr: (NamePath, ObjectId))
    ensures
        file_contrib(p, es).contains(pr) <==> exists|k: int|
            0 <= k < es.len() && (#[trigger] es[k]).kind == EntryKind::File && pr == (p.push(es[k].name@), es[k].id),
    decreases es.len(),
{
    if es.len() > 0 {
        let init = es.drop_last();
        lemma_file_contrib_exact(p, init, pr);
        if file_contrib(p, es).contains(pr) {
            if file_contrib(p, init).contains(pr) {
                let k = choose|k: int|
                    0 <= k < init.len() && (#[trigger] init[k]).kind == EntryKind::File && pr == (p.push(init[k].name@), init[k].id);
                assert(es[k] == init[k]);
            } else {
                assert(es[es.len() - 1] == es.last());
            }
        }
        if exists|k: int|
            0 <= k < es.len() && (#[trigger] es[k]).kind == EntryKind::File && pr == (p.push(es[k].name@), es[k].id) {
            let k = choose|k: int|
                0 <= k < es.len() && (#[trigger] es[k]).kind == EntryKind::File && pr == (p.push(es[k].name@), es[k].id);
            if k < es.len() - 1 {
                assert(init[k] == es[k]);
            }
        }
    }
}

/// Counting over a whole run: folding the snapshots `steps` into an empty
/// cache leaves at each file path exactly the distinct hashes that those
/// snapshots show there, however often each recurs; the churn count of the
/// path is the number of those hashes.
pub proof fn law_versions_are_distinct_observed_hashes(steps: Seq<(NamePath, Seq<TreeEntry>)>, q: NamePath)
    ensures
        versions_in(fold_files(Set::empty(), steps), q) == observed_at(steps, q),
{
    lemma_fold_is_union(Set::empty(), steps);
    assert forall|id: ObjectId| versions_in(fold_files(Set::empty(), steps), q).contains(id) <==> observed_at(steps, q).contains(id) by {
        let pr = (q, id);
        if brought_by(steps, true).contains(pr) {
            let s = choose|s: int| 0 <= s < steps.len() && #[trigger] contrib_of(steps[s], true).contains(pr);
            lemma_file_contrib_exact(steps[s].0, steps[s].1, pr);
            let k = choose|k: int|
                0 <= k < steps[s].1.len() && (#[trigger] steps[s].1[k]).kind == EntryKind::File
                    && pr == (steps[s].0.push(steps[s].1[k].name@), steps[s].1[k].id);
            assert(observed_at(steps, q).contains(id));
        }
        if observed_at(steps, q).contains(id) {
            let (s, k) = choose|s: int, k: int|
                0 <= s < steps.len() && 0 <= k < steps[s].1.len() && (#[trigger] steps[s].1[k]).kind
                    == EntryKind::File && q == steps[s].0.push(steps[s].1[k].name@) && id == steps[s].1[k].id;
            lemma_file_contrib_exact(steps[s].0, steps[s].1, pr);
            assert(contrib_of(steps[s], true).contains(pr));
            assert(brought_by(steps, true).contains(pr));
        }
    }
    assert(versions_in(fold_files(Set::empty(), steps), q) =~= observed_at(steps, q));
}

} // verus!
