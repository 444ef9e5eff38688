//! Walker properties, stated and proved once and for all over the tree
//! model.  Each law speaks about the outputs a finished walk is bound to
//! by the contract of [`crate::snapshot::walk`].

use vstd::prelude::*;

use crate::snapshot::broken_links;
use crate::snapshot::entries_of;
use crate::snapshot::lemma_reachable_child;
use crate::snapshot::lists_subdir;
use crate::snapshot::outcome_of;
use crate::snapshot::reachable;
use crate::snapshot::walk_errors;
use crate::walk::broken_paths;
use crate::walk::distinct_record_paths;
use crate::walk::error_records;
use crate::walk::lemma_broken_of_entries_contains;
use crate::walk::lemma_entry_error_path;
use crate::walk::lemma_errors_of_entries_contains;
use crate::walk::entry_error;
use crate::walk::EntryModel;
use crate::walk::ErrorKind;
use crate::walk::OutcomeModel;
use crate::walk::TargetStatus;

verus! {

/// A listing that can surprise nobody: it succeeded, and every entry is a
/// plain subdirectory or an ordinary file.
pub open spec fn harmless_listing(o: OutcomeModel) -> bool {
    match o {
        OutcomeModel::Entries(es) => forall|i: int|
            0 <= i < es.len() ==> (#[trigger] es[i]) is Subdir || es[i] is Other,
        OutcomeModel::Denied(_) => false,
    }
}

/// A tree without symlinks whose reachable directories all list cleanly
/// yields a walk with no broken-symlink reports and no error records.
pub proof fn lemma_clean_tree_no_findings(m: Map<Seq<char>, OutcomeModel>, root: Seq<char>)
    requires
        forall|d: Seq<char>| #[trigger]
            reachable(m, root, d) ==> harmless_listing(outcome_of(m, d)),
    ensures
        broken_links(m, root) == Set::<Seq<char>>::empty(),
        walk_errors(m, root) == Set::<(Seq<char>, ErrorKind)>::empty(),
{
    assert forall|p: Seq<char>| !broken_links(m, root).contains(p) by {
        if broken_links(m, root).contains(p) {
            let d = choose|d: Seq<char>|
                reachable(m, root, d) && broken_paths(outcome_of(m, d)).contains(p);
            match outcome_of(m, d) {
                OutcomeModel::Entries(es) => {
                    lemma_broken_of_entries_contains(es, p);
                    let i = choose|i: int|
                        0 <= i < es.len() && es[i] == EntryModel::Symlink(
                            p,
                            TargetStatus::Missing,
                        );
                    assert(es[i] is Subdir || es[i] is Other);
                },
                OutcomeModel::Denied(_) => {},
            }
        }
    }
    assert(broken_links(m, root) =~= Set::<Seq<char>>::empty());
    assert forall|r: (Seq<char>, ErrorKind)| !walk_errors(m, root).contains(r) by {
        if walk_errors(m, root).contains(r) {
            let d = choose|d: Seq<char>|
                reachable(m, root, d) && error_records(d, outcome_of(m, d)).contains(r);
            match outcome_of(m, d) {
                OutcomeModel::Entries(es) => {
                    lemma_errors_of_entries_contains(es, r);
                    let i = choose|i: int| 0 <= i < es.len() && entry_error(es[i], r);
                    lemma_entry_error_path(es[i], r);
                    assert(es[i] is Subdir || es[i] is Other);
                },
                OutcomeModel::Denied(_) => {},
            }
        }
    }
    assert(walk_errors(m, root) =~= Set::<(Seq<char>, ErrorKind)>::empty());
}

/// A symlink whose target exists is never reported as broken: a path can
/// be reported only if some reachable directory lists it as a symlink with
/// a missing target.
pub proof fn lemma_live_symlink_never_reported(
    m: Map<Seq<char>, OutcomeModel>,
    root: Seq<char>,
    p: Seq<char>,
)
    requires
        forall|d: Seq<char>, i: int|
            reachable(m, root, d) && 0 <= i < entries_of(outcome_of(m, d)).len() ==> #[trigger]
                entries_of(outcome_of(m, d))[i] != EntryModel::Symlink(p, TargetStatus::Missing),
    ensures
        !broken_links(m, root).contains(p),
{
    if broken_links(m, root).contains(p) {
        let d = choose|d: Seq<char>|
            reachable(m, root, d) && broken_paths(outcome_of(m, d)).contains(p);
        match outcome_of(m, d) {
            OutcomeModel::Entries(es) => {
                lemma_broken_of_entries_contains(es, p);
                let i = choose|i: int|
                    0 <= i < es.len() && es[i] == EntryModel::Symlink(p, TargetStatus::Missing);
                assert(entries_of(outcome_of(m, d))[i] == es[i]);
            },
            OutcomeModel::Denied(_) => {},
        }
    }
}

/// In an unambiguous tree, a broken symlink stands exactly once in the
/// reports of a finished walk: some position holds it, and no two
/// positions do, however deep the symlink is nested.
pub proof fn lemma_broken_reported_exactly_once(
    m: Map<Seq<char>, OutcomeModel>,
    root: Seq<char>,
    reports: Seq<Seq<char>>,
    p: Seq<char>,
)
    requires
        reports.to_set() == broken_links(m, root),
        reports.no_duplicates(),
        broken_links(m, root).contains(p),
    ensures
        reports.contains(p),
        forall|i: int, j: int|
            0 <= i < reports.len() && 0 <= j < reports.len() && reports[i] == p && reports[j] == p
                ==> i == j,
{
    assert(reports.to_set().contains(p));
    assert forall|i: int, j: int|
        0 <= i < reports.len() && 0 <= j < reports.len() && reports[i] == p && reports[j] == p
        implies i == j by {
        if i < j {
            assert(reports[i] != reports[j]);
        } else if j < i {
            assert(reports[j] != reports[i]);
        }
    }
}

/// A directory that cannot be listed yields exactly one error record, and
/// its siblings are still reached: the failure is isolated.
pub proof fn lemma_unreadable_dir_isolated(
    m: Map<Seq<char>, OutcomeModel>,
    root: Seq<char>,
    parent: Seq<char>,
    d: Seq<char>,
    sib: Seq<char>,
    k: ErrorKind,
    errs: Seq<(Seq<char>, ErrorKind)>,
)
    requires
        errs.to_set() == walk_errors(m, root),
        distinct_record_paths(errs),
        reachable(m, root, parent),
        lists_subdir(outcome_of(m, parent), d),
        lists_subdir(outcome_of(m, parent), sib),
        outcome_of(m, d) == OutcomeModel::Denied(k),
    ensures
        errs.contains((d, k)),
        forall|i: int, j: int|
            0 <= i < errs.len() && 0 <= j < errs.len() && errs[i].0 == d && errs[j].0 == d ==> i
                == j,
        reachable(m, root, sib),
{
    lemma_reachable_child(m, root, parent, d);
    lemma_reachable_child(m, root, parent, sib);
    assert(error_records(d, outcome_of(m, d))[0] == (d, k));
    assert(error_records(d, outcome_of(m, d)).contains((d, k)));
    assert(walk_errors(m, root).contains((d, k)));
    assert(errs.to_set().contains((d, k)));
    assert forall|i: int, j: int|
        0 <= i < errs.len() && 0 <= j < errs.len() && errs[i].0 == d && errs[j].0 == d
        implies i == j by {
        if i < j {
            assert(errs[i].0 != errs[j].0);
        } else if j < i {
            assert(errs[j].0 != errs[i].0);
        }
    }
}

/// Walking an unchanged tree twice reports the same set of broken
/// symlinks, whatever order each walk emitted them in.
pub proof fn lemma_walk_idempotent(
    m: Map<Seq<char>, OutcomeModel>,
    root: Seq<char>,
    r1: Seq<Seq<char>>,
    r2: Seq<Seq<char>>,
)
    requires
        r1.to_set() == broken_links(m, root),
        r2.to_set() == broken_links(m, root),
    ensures
        r1.to_set() == r2.to_set(),
{
}

} // verus!
