//! A directory tree held as plain data, and a complete walk over it.
//!
//! [`FsSnapshot`] records, for each directory path, what listing it would
//! give.  [`walk`] drives the [`Walker`] machine over such a snapshot until
//! no directory is left, visiting every directory at most once, and returns
//! the broken-symlink reports and the error records.  Its contract pins the
//! result down exactly: the reports are precisely the missing-target
//! symlinks reachable from the root, and the errors are precisely the
//! failures met in reachable directories.

use vstd::prelude::*;

use crate::walk::broken_paths;
use crate::walk::entry_path;
use crate::walk::error_records;
use crate::walk::subdir_paths;
use crate::walk::EntryModel;
use crate::walk::ErrorKind;
use crate::walk::ErrorRecord;
use crate::walk::ListingOutcome;
use crate::walk::OutcomeModel;
use crate::walk::Walker;

verus! {

/// One directory of a snapshot: its path and the outcome of listing it.
pub struct DirListing {
    pub path: String,
    pub outcome: ListingOutcome,
}

impl View for DirListing {
    type V = (Seq<char>, OutcomeModel);

    open spec fn view(&self) -> (Seq<char>, OutcomeModel) {
        (self.path@, self.outcome@)
    }
}

impl DeepView for DirListing {
    type V = (Seq<char>, OutcomeModel);

    open spec fn deep_view(&self) -> (Seq<char>, OutcomeModel) {
        self.view()
    }
}

/// The directory listings of a tree, as one association from each
/// directory path to its listing outcome.
pub open spec fn listing_map(s: Seq<(Seq<char>, OutcomeModel)>) -> Map<Seq<char>, OutcomeModel>
    decreases s.len(),
{
    if s.len() == 0 {
        Map::empty()
    } else {
        listing_map(s.drop_last()).insert(s.last().0, s.last().1)
    }
}

/// The association built from finitely many listings covers finitely many
/// directories.
pub proof fn lemma_listing_map_finite(s: Seq<(Seq<char>, OutcomeModel)>)
    ensures
        listing_map(s).dom().finite(),
    decreases s.len(),
{
    broadcast use vstd::set::group_set_axioms;

    if s.len() > 0 {
        lemma_listing_map_finite(s.drop_last());
    }
}

/// A directory is covered exactly when some listing names its path.
pub proof fn lemma_listing_map_contains(s: Seq<(Seq<char>, OutcomeModel)>, d: Seq<char>)
    ensures
        listing_map(s).dom().contains(d) <==> exists|i: int| 0 <= i < s.len() && s[i].0 == d,
    decreases s.len(),
{
    if s.len() > 0 {
        lemma_listing_map_contains(s.drop_last(), d);
        if listing_map(s).dom().contains(d) {
            if d != s.last().0 {
                let i = choose|i: int| 0 <= i < s.drop_last().len() && s.drop_last()[i].0 == d;
                assert(s[i].0 == d);
            } else {
                assert(s[s.len() - 1].0 == d);
            }
        }
        if exists|i: int| 0 <= i < s.len() && s[i].0 == d {
            let i = choose|i: int| 0 <= i < s.len() && s[i].0 == d;
            if i < s.len() - 1 {
                assert(s.drop_last()[i].0 == d);
            }
        }
    }
}

/// With pairwise distinct paths, the association maps each listed path to
/// its own outcome.
pub proof fn lemma_listing_map_index(s: Seq<(Seq<char>, OutcomeModel)>, i: int)
    requires
        forall|j: int, k: int| 0 <= j < k < s.len() ==> s[j].0 != s[k].0,
        0 <= i < s.len(),
    ensures
        listing_map(s).dom().contains(s[i].0),
        listing_map(s)[s[i].0] == s[i].1,
    decreases s.len(),
{
    if i == s.len() - 1 {
    } else {
        assert(s.drop_last()[i] == s[i]);
        lemma_listing_map_index(s.drop_last(), i);
        assert(s[s.len() - 1].0 != s[i].0);
    }
}

/// A directory tree held as plain data: one listing per directory path.
pub struct FsSnapshot {
    pub dirs: Vec<DirListing>,
}

impl View for FsSnapshot {
    type V = Map<Seq<char>, OutcomeModel>;

    open spec fn view(&self) -> Map<Seq<char>, OutcomeModel> {
        listing_map(self.dirs.deep_view())
    }
}

impl FsSnapshot {
    /// Each directory path is listed at most once, as in a filesystem.
    pub open spec fn wf(&self) -> bool {
        forall|i: int, j: int|
            0 <= i < j < self.dirs@.len() ==> self.dirs@[i].path@ != self.dirs@[j].path@
    }

    /// Finds the listing outcome recorded for directory `d`, if any.
    pub fn lookup<'a>(&'a self, d: &String) -> (r: Option<&'a ListingOutcome>)
        requires
            self.wf(),
        ensures
            match r {
                Some(o) => self@.dom().contains(d@) && o@ == self@[d@],
                None => !self@.dom().contains(d@),
            },
    {
        let ghost dv = self.dirs.deep_view();
        let n = self.dirs.len();
        for i in 0..n
            invariant
                n == self.dirs@.len(),
                dv == self.dirs.deep_view(),
                self.wf(),
                forall|j: int| 0 <= j < i ==> dv[j].0 != d@,
        {
            if self.dirs[i].path == *d {
                proof {
                    assert(dv[i as int] == self.dirs@[i as int]@);
                    assert(forall|j: int, k: int| 0 <= j < k < dv.len() ==> dv[j].0 != dv[k].0)
                        by {
                        assert(forall|j: int| 0 <= j < dv.len()
                            ==> #[trigger] dv[j] == self.dirs@[j]@);
                    }
                    lemma_listing_map_index(dv, i as int);
                }
                return Some(&self.dirs[i].outcome);
            }
            proof {
                assert(dv[i as int] == self.dirs@[i as int]@);
            }
        }
        proof {
            lemma_listing_map_contains(dv, d@);
        }
        None
    }
}

/// What listing directory `d` of tree `m` gives: the recorded outcome, or
/// a not-found failure for a directory the tree does not have.
pub open spec fn outcome_of(m: Map<Seq<char>, OutcomeModel>, d: Seq<char>) -> OutcomeModel {
    if m.dom().contains(d) {
        m[d]
    } else {
        OutcomeModel::Denied(ErrorKind::NotFound)
    }
}

/// The entries of a listing outcome; a failed listing has none.
pub open spec fn entries_of(o: OutcomeModel) -> Seq<EntryModel> {
    match o {
        OutcomeModel::Entries(es) => es,
        OutcomeModel::Denied(_) => Seq::empty(),
    }
}

/// Whether listing outcome `o` names `c` as a subdirectory.
pub open spec fn lists_subdir(o: OutcomeModel, c: Seq<char>) -> bool {
    subdir_paths(o).contains(c)
}

/// Whether directory `d` can be reached from the root in at most `n`
/// recursion steps, following subdirectory entries only.
pub open spec fn reaches_within(
    m: Map<Seq<char>, OutcomeModel>,
    root: Seq<char>,
    d: Seq<char>,
    n: nat,
) -> bool
    decreases n,
{
    if d == root {
        true
    } else if n == 0 {
        false
    } else {
        exists|par: Seq<char>|
            reaches_within(m, root, par, (n - 1) as nat) && lists_subdir(outcome_of(m, par), d)
    }
}

/// Whether directory `d` is reachable from the root of tree `m`.  Only
/// subdirectory entries are followed, never symlinks.
pub open spec fn reachable(m: Map<Seq<char>, OutcomeModel>, root: Seq<char>, d: Seq<char>) -> bool {
    exists|n: nat| reaches_within(m, root, d, n)
}

/// A subdirectory of a reachable directory is reachable.
pub proof fn lemma_reachable_child(
    m: Map<Seq<char>, OutcomeModel>,
    root: Seq<char>,
    d: Seq<char>,
    c: Seq<char>,
)
    requires
        reachable(m, root, d),
        lists_subdir(outcome_of(m, d), c),
    ensures
        reachable(m, root, c),
{
    let n = choose|n: nat| reaches_within(m, root, d, n);
    if c != root {
        assert(reaches_within(m, root, d, ((n + 1) - 1) as nat));
        assert(reaches_within(m, root, c, n + 1));
    }
    assert(reaches_within(m, root, c, if c == root { 0 } else { n + 1 }));
}

/// The paths of the broken symlinks of tree `m`: every path that some
/// reachable directory lists as a symlink whose target is missing.
pub open spec fn broken_links(m: Map<Seq<char>, OutcomeModel>, root: Seq<char>) -> Set<Seq<char>> {
    Set::new(
        |p: Seq<char>|
            exists|d: Seq<char>|
                reachable(m, root, d) && broken_paths(outcome_of(m, d)).contains(p),
    )
}

/// The error records of a walk of tree `m`: every failure met at a
/// reachable directory, whether listing it failed or one of its entries
/// could not be handled.
pub open spec fn walk_errors(m: Map<Seq<char>, OutcomeModel>, root: Seq<char>) -> Set<
    (Seq<char>, ErrorKind),
> {
    Set::new(
        |r: (Seq<char>, ErrorKind)|
            exists|d: Seq<char>|
                reachable(m, root, d) && error_records(d, outcome_of(m, d)).contains(r),
    )
}

/// Every path of the tree plays a single role: no two entries anywhere
/// carry the same path, and no entry carries the root's path.  A real
/// filesystem tree satisfies this, since each path names one thing.
pub open spec fn paths_unambiguous(m: Map<Seq<char>, OutcomeModel>, root: Seq<char>) -> bool {
    &&& forall|d1: Seq<char>, d2: Seq<char>, i: int, j: int|
        m.dom().contains(d1) && m.dom().contains(d2) && 0 <= i < entries_of(m[d1]).len() && 0 <= j
            < entries_of(m[d2]).len() && (d1 != d2 || i != j) ==> entry_path(
            #[trigger] entries_of(m[d1])[i],
        ) != entry_path(#[trigger] entries_of(m[d2])[j])
    &&& forall|d: Seq<char>, i: int|
        m.dom().contains(d) && 0 <= i < entries_of(m[d]).len() ==> entry_path(
            #[trigger] entries_of(m[d])[i],
        ) != root
}

/// A reachable directory other than the root is named by a subdirectory
/// entry of some reachable directory; this returns one such place.
pub proof fn lemma_reachable_parent_entry(
    m: Map<Seq<char>, OutcomeModel>,
    root: Seq<char>,
    d: Seq<char>,
) -> (w: (Seq<char>, int))
    requires
        reachable(m, root, d),
        d != root,
    ensures
        reachable(m, root, w.0),
        m.dom().contains(w.0),
        0 <= w.1 < entries_of(m[w.0]).len(),
        entries_of(m[w.0])[w.1] == EntryModel::Subdir(d),
{
    let n = choose|n: nat| reaches_within(m, root, d, n);
    let par = choose|par: Seq<char>|
        reaches_within(m, root, par, (n - 1) as nat) && lists_subdir(outcome_of(m, par), d);
    assert(reachable(m, root, par));
    assert(subdir_paths(outcome_of(m, par)).contains(d));
    assert(m.dom().contains(par));
    let es = entries_of(m[par]);
    assert(subdir_paths(m[par]) == crate::walk::subdirs_of_entries(es));
    crate::walk::lemma_subdirs_of_entries_contains(es, d);
    let i = choose|i: int| 0 <= i < es.len() && es[i] == EntryModel::Subdir(d);
    (par, i)
}

/// In an unambiguous tree, two different directories never report the same
/// broken symlink.
pub proof fn lemma_broken_paths_disjoint(
    m: Map<Seq<char>, OutcomeModel>,
    root: Seq<char>,
    d1: Seq<char>,
    d2: Seq<char>,
)
    requires
        paths_unambiguous(m, root),
        d1 != d2,
    ensures
        forall|p: Seq<char>|
            broken_paths(outcome_of(m, d1)).contains(p) ==> !broken_paths(
                outcome_of(m, d2),
            ).contains(p),
{
    assert forall|p: Seq<char>|
        broken_paths(outcome_of(m, d1)).contains(p) implies !broken_paths(
        outcome_of(m, d2),
    ).contains(p) by {
        assert(m.dom().contains(d1));
        let es1 = entries_of(m[d1]);
        crate::walk::lemma_broken_of_entries_contains(es1, p);
        let i = choose|i: int|
            0 <= i < es1.len() && es1[i] == EntryModel::Symlink(
                p,
                crate::walk::TargetStatus::Missing,
            );
        if broken_paths(outcome_of(m, d2)).contains(p) {
            assert(m.dom().contains(d2));
            let es2 = entries_of(m[d2]);
            crate::walk::lemma_broken_of_entries_contains(es2, p);
            let j = choose|j: int|
                0 <= j < es2.len() && es2[j] == EntryModel::Symlink(
                    p,
                    crate::walk::TargetStatus::Missing,
                );
            assert(entry_path(entries_of(m[d1])[i]) == p);
            assert(entry_path(entries_of(m[d2])[j]) == p);
        }
    }
}

/// In an unambiguous tree, two different reachable directories never
/// produce error records with the same path.
pub proof fn lemma_record_paths_disjoint(
    m: Map<Seq<char>, OutcomeModel>,
    root: Seq<char>,
    d1: Seq<char>,
    d2: Seq<char>,
)
    requires
        paths_unambiguous(m, root),
        reachable(m, root, d1),
        reachable(m, root, d2),
        d1 != d2,
    ensures
        forall|r1: (Seq<char>, ErrorKind), r2: (Seq<char>, ErrorKind)|
            error_records(d1, outcome_of(m, d1)).contains(r1) && error_records(
                d2,
                outcome_of(m, d2),
            ).contains(r2) ==> r1.0 != r2.0,
{
    assert forall|r1: (Seq<char>, ErrorKind), r2: (Seq<char>, ErrorKind)|
        error_records(d1, outcome_of(m, d1)).contains(r1) && error_records(
            d2,
            outcome_of(m, d2),
        ).contains(r2) implies r1.0 != r2.0 by {
        lemma_record_path_roles(m, root, d1, r1);
        lemma_record_path_roles(m, root, d2, r2);
    }
}

/// Helper for [`lemma_record_paths_disjoint`]: each error record of a
/// reachable directory either names the directory itself — whose listing
/// failed — or carries the path of one of its non-subdirectory entries;
/// under [`paths_unambiguous`] the two shapes can never collide across
/// different directories.
proof fn lemma_record_path_roles(
    m: Map<Seq<char>, OutcomeModel>,
    root: Seq<char>,
    d: Seq<char>,
    r: (Seq<char>, ErrorKind),
)
    requires
        paths_unambiguous(m, root),
        reachable(m, root, d),
        error_records(d, outcome_of(m, d)).contains(r),
    ensures
        forall|d2: Seq<char>, r2: (Seq<char>, ErrorKind)|
            paths_unambiguous(m, root) && reachable(m, root, d2) && d2 != d && error_records(
                d2,
                outcome_of(m, d2),
            ).contains(r2) ==> r.0 != r2.0,
{
    assert forall|d2: Seq<char>, r2: (Seq<char>, ErrorKind)|
        paths_unambiguous(m, root) && reachable(m, root, d2) && d2 != d && error_records(
            d2,
            outcome_of(m, d2),
        ).contains(r2) implies r.0 != r2.0 by {
        lemma_record_shape(m, root, d, r);
        lemma_record_shape(m, root, d2, r2);
        if r.0 == r2.0 {
            match (outcome_of(m, d), outcome_of(m, d2)) {
                (OutcomeModel::Denied(_), OutcomeModel::Denied(_)) => {
                    assert(r.0 == d && r2.0 == d2);
                },
                (OutcomeModel::Denied(_), OutcomeModel::Entries(_)) => {
                    lemma_dir_path_not_entry_error(m, root, d, d2, r2);
                },
                (OutcomeModel::Entries(_), OutcomeModel::Denied(_)) => {
                    lemma_dir_path_not_entry_error(m, root, d2, d, r);
                },
                (OutcomeModel::Entries(_), OutcomeModel::Entries(_)) => {
                    let i = choose|i: int|
                        0 <= i < entries_of(outcome_of(m, d)).len() && crate::walk::entry_error(
                            entries_of(outcome_of(m, d))[i],
                            r,
                        );
                    let j = choose|j: int|
                        0 <= j < entries_of(outcome_of(m, d2)).len() && crate::walk::entry_error(
                            entries_of(outcome_of(m, d2))[j],
                            r2,
                        );
                    crate::walk::lemma_entry_error_path(entries_of(m[d])[i], r);
                    crate::walk::lemma_entry_error_path(entries_of(m[d2])[j], r2);
                    assert(entry_path(entries_of(m[d])[i]) == entry_path(entries_of(m[d2])[j]));
                },
            }
        }
    }
}

/// Each error record of a directory either names the directory (failed
/// listing) or is yielded by one of its entries.
proof fn lemma_record_shape(
    m: Map<Seq<char>, OutcomeModel>,
    root: Seq<char>,
    d: Seq<char>,
    r: (Seq<char>, ErrorKind),
)
    requires
        error_records(d, outcome_of(m, d)).contains(r),
    ensures
        outcome_of(m, d) is Denied ==> r.0 == d,
        outcome_of(m, d) is Entries ==> m.dom().contains(d) && exists|i: int|
            0 <= i < entries_of(outcome_of(m, d)).len() && crate::walk::entry_error(
                #[trigger] entries_of(outcome_of(m, d))[i],
                r,
            ),
{
    match outcome_of(m, d) {
        OutcomeModel::Denied(k) => {
            assert(error_records(d, outcome_of(m, d)) == seq![(d, k)]);
            let idx = choose|idx: int|
                0 <= idx < seq![(d, k)].len() && seq![(d, k)][idx] == r;
            assert(idx == 0);
            assert(r == (d, k));
        },
        OutcomeModel::Entries(es) => {
            assert(m.dom().contains(d));
            crate::walk::lemma_errors_of_entries_contains(es, r);
            let i = choose|i: int| 0 <= i < es.len() && crate::walk::entry_error(es[i], r);
            assert(entries_of(outcome_of(m, d)) == es);
            assert(crate::walk::entry_error(entries_of(outcome_of(m, d))[i], r));
        },
    }
}

/// The path of an unreadable directory `dd` never equals the path of an
/// error-yielding entry of another reachable directory `de`: the
/// directory's path names either the root or a subdirectory entry, and in
/// an unambiguous tree those paths are taken by no other entry.
proof fn lemma_dir_path_not_entry_error(
    m: Map<Seq<char>, OutcomeModel>,
    root: Seq<char>,
    dd: Seq<char>,
    de: Seq<char>,
    r: (Seq<char>, ErrorKind),
)
    requires
        paths_unambiguous(m, root),
        reachable(m, root, dd),
        reachable(m, root, de),
        m.dom().contains(de),
        exists|i: int|
            0 <= i < entries_of(m[de]).len() && crate::walk::entry_error(
                #[trigger] entries_of(m[de])[i],
                r,
            ),
    ensures
        r.0 != dd,
{
    let i = choose|i: int|
        0 <= i < entries_of(m[de]).len() && crate::walk::entry_error(
            #[trigger] entries_of(m[de])[i],
            r,
        );
    crate::walk::lemma_entry_error_path(entries_of(m[de])[i], r);
    if r.0 == dd {
        if dd == root {
            assert(entry_path(entries_of(m[de])[i]) != root);
        } else {
            let w = lemma_reachable_parent_entry(m, root, dd);
            let par = w.0;
            let pi = w.1;
            assert(entry_path(entries_of(m[par])[pi]) == dd);
            if par == de && pi == i {
                assert(entries_of(m[de])[i] is Subdir);
                crate::walk::lemma_entry_error_path(entries_of(m[de])[i], r);
            } else {
                assert(entry_path(entries_of(m[par])[pi]) != entry_path(entries_of(m[de])[i]));
            }
        }
    }
}

/// An element occurs in a concatenation exactly when it occurs in one of
/// the parts.
pub proof fn lemma_contains_append<A>(a: Seq<A>, b: Seq<A>, x: A)
    ensures
        (a + b).contains(x) <==> a.contains(x) || b.contains(x),
{
    if a.contains(x) {
        let i = choose|i: int| 0 <= i < a.len() && a[i] == x;
        assert((a + b)[i] == x);
    }
    if b.contains(x) {
        let i = choose|i: int| 0 <= i < b.len() && b[i] == x;
        assert((a + b)[a.len() + i] == x);
    }
    if (a + b).contains(x) {
        let i = choose|i: int| 0 <= i < (a + b).len() && (a + b)[i] == x;
        if i < a.len() {
            assert(a[i] == x);
        } else {
            assert(b[i - a.len()] == x);
        }
    }
}

/// An element occurs in a sequence exactly when it occurs before the last
/// position or is the last element.
pub proof fn lemma_contains_drop_last<A>(a: Seq<A>, x: A)
    requires
        a.len() > 0,
    ensures
        a.contains(x) <==> a.drop_last().contains(x) || x == a.last(),
{
    if a.contains(x) {
        let i = choose|i: int| 0 <= i < a.len() && a[i] == x;
        if i < a.len() - 1 {
            assert(a.drop_last()[i] == x);
        }
    }
    if a.drop_last().contains(x) {
        let i = choose|i: int| 0 <= i < a.drop_last().len() && a.drop_last()[i] == x;
        assert(a[i] == x);
    }
    if x == a.last() {
        assert(a[a.len() - 1] == x);
    }
}

/// An element occurs in a sequence with one more element pushed exactly
/// when it occurs in the original or is the pushed element.
pub proof fn lemma_contains_push<A>(a: Seq<A>, y: A, x: A)
    ensures
        a.push(y).contains(x) <==> a.contains(x) || x == y,
{
    assert(a.push(y).drop_last() =~= a);
    lemma_contains_drop_last(a.push(y), x);
}

/// A set of directories that holds the root and every subdirectory listed
/// by any of its members holds every reachable directory.
pub proof fn lemma_closed_catches_reachable(
    m: Map<Seq<char>, OutcomeModel>,
    root: Seq<char>,
    vs: Seq<Seq<char>>,
    d: Seq<char>,
    n: nat,
)
    requires
        vs.contains(root),
        forall|j: int, c: Seq<char>|
            0 <= j < vs.len() && lists_subdir(outcome_of(m, vs[j]), c) ==> vs.contains(c),
        reaches_within(m, root, d, n),
    ensures
        vs.contains(d),
    decreases n,
{
    if d != root {
        let par = choose|par: Seq<char>|
            reaches_within(m, root, par, (n - 1) as nat) && lists_subdir(outcome_of(m, par), d);
        lemma_closed_catches_reachable(m, root, vs, par, (n - 1) as nat);
        let j = choose|j: int| 0 <= j < vs.len() && vs[j] == par;
        assert(lists_subdir(outcome_of(m, vs[j]), d));
    }
}

/// All members of a sequence of directories are reachable.
pub open spec fn all_reachable(
    m: Map<Seq<char>, OutcomeModel>,
    root: Seq<char>,
    vs: Seq<Seq<char>>,
) -> bool {
    forall|j: int| 0 <= j < vs.len() ==> reachable(m, root, #[trigger] vs[j])
}

/// Every subdirectory listed by a visited directory is itself visited or
/// still waiting on the stack.
pub open spec fn subdir_closed(
    m: Map<Seq<char>, OutcomeModel>,
    vs: Seq<Seq<char>>,
    ps: Seq<Seq<char>>,
) -> bool {
    forall|j: int, c: Seq<char>|
        0 <= j < vs.len() && #[trigger] lists_subdir(outcome_of(m, vs[j]), c) ==> vs.contains(c)
            || ps.contains(c)
}

/// The reports gathered so far are exactly the missing-target symlinks of
/// the visited directories.
pub open spec fn reports_match(
    m: Map<Seq<char>, OutcomeModel>,
    vs: Seq<Seq<char>>,
    rep: Seq<Seq<char>>,
) -> bool {
    forall|p: Seq<char>|
        #[trigger] rep.contains(p) <==> exists|j: int|
            0 <= j < vs.len() && broken_paths(outcome_of(m, #[trigger] vs[j])).contains(p)
}

/// The errors gathered so far are exactly the failures of the visited
/// directories.
pub open spec fn errors_match(
    m: Map<Seq<char>, OutcomeModel>,
    vs: Seq<Seq<char>>,
    errs: Seq<(Seq<char>, ErrorKind)>,
) -> bool {
    forall|r: (Seq<char>, ErrorKind)|
        #[trigger] errs.contains(r) <==> exists|j: int|
            0 <= j < vs.len() && error_records(
                vs[j],
                outcome_of(m, #[trigger] vs[j]),
            ).contains(r)
}

/// Whether `v` holds a string whose characters are `d`.
fn contains_path(v: &Vec<String>, d: &String) -> (r: bool)
    ensures
        r == v.deep_view().contains(d@),
{
    let n = v.len();
    for i in 0..n
        invariant
            n == v@.len(),
            forall|j: int| 0 <= j < i ==> v.deep_view()[j] != d@,
    {
        if v[i] == *d {
            proof {
                assert(v.deep_view()[i as int] == d@);
            }
            return true;
        }
    }
    proof {
        if v.deep_view().contains(d@) {
            let j = choose|j: int| 0 <= j < v.deep_view().len() && v.deep_view()[j] == d@;
            assert(false);
        }
    }
    false
}

/// Walks the whole tree held in `snap`, starting at `root`, and returns
/// the broken-symlink reports and the error records.
///
/// Every directory is visited at most once, so the walk ends even if the
/// snapshot wires directories into a cycle.  The result is exact: the
/// reports are the paths of [`broken_links`] and the errors are the
/// records of [`walk_errors`], each taken over the directories reachable
/// from the root.
pub fn walk(snap: &FsSnapshot, root: &String) -> (r: (Vec<String>, Vec<ErrorRecord>))
    requires
        snap.wf(),
    ensures
        r.0.deep_view().to_set() == broken_links(snap@, root@),
        r.1.deep_view().to_set() == walk_errors(snap@, root@),
        paths_unambiguous(snap@, root@) ==> r.0.deep_view().no_duplicates(),
        paths_unambiguous(snap@, root@) ==> crate::walk::distinct_record_paths(r.1.deep_view()),
{
    let ghost m = snap@;
    let ghost rt = root@;
    proof {
        lemma_listing_map_finite(snap.dirs.deep_view());
        assert(reaches_within(m, rt, rt, 0));
    }
    let mut w = Walker::new(root.clone());
    let mut visited: Vec<String> = Vec::new();
    proof {
        assert(w.pending.deep_view()[0] == rt);
        assert(w.pending.deep_view().contains(rt));
    }
    while w.pending.len() > 0
        invariant
            snap.wf(),
            m == snap@,
            rt == root@,
            m.dom().finite(),
            all_reachable(m, rt, visited.deep_view()),
            all_reachable(m, rt, w.pending.deep_view()),
            visited.deep_view().contains(rt) || w.pending.deep_view().contains(rt),
            subdir_closed(m, visited.deep_view(), w.pending.deep_view()),
            reports_match(m, visited.deep_view(), w.reports.deep_view()),
            errors_match(m, visited.deep_view(), w.errors.deep_view()),
            visited.deep_view().no_duplicates(),
            paths_unambiguous(m, rt) ==> w.reports.deep_view().no_duplicates(),
            paths_unambiguous(m, rt) ==> crate::walk::distinct_record_paths(w.errors.deep_view()),
        decreases
            m.dom().difference(visited.deep_view().to_set()).len(),
            w.pending@.len(),
    {
        broadcast use vstd::set::group_set_axioms;

        let ghost pend0 = w.pending.deep_view();
        let ghost v0 = visited.deep_view();
        let d = w.next_dir().unwrap();
        proof {
            assert(pend0[pend0.len() - 1] == d@);
            assert(reachable(m, rt, d@));
        }
        if !contains_path(&visited, &d) {
            visited.push(d.clone());
            let ghost v1 = visited.deep_view();
            proof {
                assert(v1 =~= v0.push(d@));
            }
            let ghost oc = outcome_of(m, d@);
            let ghost rep0 = w.reports.deep_view();
            let ghost err0 = w.errors.deep_view();
            match snap.lookup(&d) {
                Some(o) => {
                    proof {
                        assert(o@ == oc);
                    }
                    w.on_listing(&d, o);
                },
                None => {
                    let denied = ListingOutcome::Denied(ErrorKind::NotFound);
                    proof {
                        assert(denied@ == oc);
                    }
                    w.on_listing(&d, &denied);
                },
            }
            proof {
                let pend1 = w.pending.deep_view();
                let rep1 = w.reports.deep_view();
                let err1 = w.errors.deep_view();
                assert(pend1 == pend0.drop_last() + subdir_paths(oc));
                assert(rep1 == rep0 + broken_paths(oc));
                assert(err1 == err0 + error_records(d@, oc));

                // the new stack holds only reachable directories
                assert forall|j: int| 0 <= j < pend1.len()
                    implies reachable(m, rt, #[trigger] pend1[j]) by {
                    if j < pend0.drop_last().len() {
                        assert(pend1[j] == pend0[j]);
                    } else {
                        let c = pend1[j];
                        assert(subdir_paths(oc)[j - pend0.drop_last().len()] == c);
                        assert(subdir_paths(oc).contains(c));
                        lemma_reachable_child(m, rt, d@, c);
                    }
                }

                // the root is still visited or waiting
                if v0.contains(rt) || rt == d@ {
                    lemma_contains_push(v0, d@, rt);
                } else {
                    lemma_contains_drop_last(pend0, rt);
                    let k = choose|k: int| 0 <= k < pend0.drop_last().len()
                        && pend0.drop_last()[k] == rt;
                    assert(pend1[k] == rt);
                    assert(pend1.contains(rt));
                }

                // every subdirectory of a visited directory is covered
                assert forall|j: int, c: Seq<char>|
                    0 <= j < v1.len() && #[trigger] lists_subdir(outcome_of(m, v1[j]), c)
                    implies v1.contains(c) || pend1.contains(c) by {
                    lemma_contains_push(v0, d@, c);
                    if j < v0.len() {
                        assert(v0[j] == v1[j]);
                        if v0.contains(c) {
                            assert(v1.contains(c));
                        } else {
                            assert(pend0.contains(c));
                            lemma_contains_drop_last(pend0, c);
                            if c == pend0.last() {
                                assert(v1[v0.len() as int] == d@);
                                assert(v1.contains(c));
                            } else {
                                let k = choose|k: int| 0 <= k < pend0.drop_last().len()
                                    && pend0.drop_last()[k] == c;
                                assert(pend1[k] == c);
                                assert(pend1.contains(c));
                            }
                        }
                    } else {
                        assert(v1[j] == d@);
                        let k = choose|k: int| 0 <= k < subdir_paths(oc).len()
                            && subdir_paths(oc)[k] == c;
                        assert(pend1[pend0.drop_last().len() + k] == c);
                        assert(pend1.contains(c));
                    }
                }

                // the reports are exactly those of the visited directories
                assert forall|p: Seq<char>| #[trigger] rep1.contains(p) implies exists|j: int|
                    0 <= j < v1.len() && broken_paths(outcome_of(m, #[trigger] v1[j])).contains(p)
                    by {
                    lemma_contains_append(rep0, broken_paths(oc), p);
                    if rep0.contains(p) {
                        let j = choose|j: int|
                            0 <= j < v0.len() && broken_paths(
                                outcome_of(m, #[trigger] v0[j]),
                            ).contains(p);
                        assert(v1[j] == v0[j]);
                        assert(broken_paths(outcome_of(m, v1[j])).contains(p));
                    } else {
                        assert(v1[v0.len() as int] == d@);
                        assert(broken_paths(outcome_of(m, v1[v0.len() as int])).contains(p));
                    }
                }
                assert forall|p: Seq<char>|
                    (exists|j: int|
                        0 <= j < v1.len() && broken_paths(
                            outcome_of(m, #[trigger] v1[j]),
                        ).contains(p)) implies rep1.contains(p) by {
                    lemma_contains_append(rep0, broken_paths(oc), p);
                    let j = choose|j: int|
                        0 <= j < v1.len() && broken_paths(outcome_of(m, v1[j])).contains(p);
                    if j < v0.len() {
                        assert(v0[j] == v1[j]);
                        assert(broken_paths(outcome_of(m, v0[j])).contains(p));
                        assert(rep0.contains(p));
                    } else {
                        assert(v1[j] == d@);
                    }
                }

                // the errors are exactly those of the visited directories
                assert forall|r: (Seq<char>, ErrorKind)| #[trigger] err1.contains(r)
                    implies exists|j: int|
                    0 <= j < v1.len() && error_records(
                        v1[j],
                        outcome_of(m, #[trigger] v1[j]),
                    ).contains(r) by {
                    lemma_contains_append(err0, error_records(d@, oc), r);
                    if err0.contains(r) {
                        let j = choose|j: int|
                            0 <= j < v0.len() && error_records(
                                v0[j],
                                outcome_of(m, #[trigger] v0[j]),
                            ).contains(r);
                        assert(v1[j] == v0[j]);
                        assert(error_records(v1[j], outcome_of(m, v1[j])).contains(r));
                    } else {
                        assert(v1[v0.len() as int] == d@);
                        assert(error_records(
                            v1[v0.len() as int],
                            outcome_of(m, v1[v0.len() as int]),
                        ).contains(r));
                    }
                }
                assert forall|r: (Seq<char>, ErrorKind)|
                    (exists|j: int|
                        0 <= j < v1.len() && error_records(
                            v1[j],
                            outcome_of(m, #[trigger] v1[j]),
                        ).contains(r)) implies err1.contains(r) by {
                    lemma_contains_append(err0, error_records(d@, oc), r);
                    let j = choose|j: int|
                        0 <= j < v1.len() && error_records(v1[j], outcome_of(m, v1[j])).contains(
                            r,
                        );
                    if j < v0.len() {
                        assert(v0[j] == v1[j]);
                        assert(error_records(v0[j], outcome_of(m, v0[j])).contains(r));
                        assert(err0.contains(r));
                    } else {
                        assert(v1[j] == d@);
                    }
                }

                // no directory is visited twice
                assert forall|i: int, j: int| 0 <= i < j < v1.len() implies v1[i] != v1[j] by {
                    if j == v1.len() - 1 {
                        assert(v1[i] == v0[i]);
                        assert(v0.contains(v0[i]));
                    }
                }

                // the measure shrinks: a new snapshot directory is visited,
                // or the stack got shorter while the snapshot part held
                assert(v1.to_set() =~= v0.to_set().insert(d@)) by {
                    assert forall|x: Seq<char>| v1.contains(x) <==> v0.contains(x) || x == d@ by {
                        lemma_contains_push(v0, d@, x);
                    }
                }
                if m.dom().contains(d@) {
                    assert(m.dom().difference(v1.to_set()) =~= m.dom().difference(
                        v0.to_set(),
                    ).remove(d@));
                    assert(m.dom().difference(v0.to_set()).contains(d@));
                } else {
                    assert(m.dom().difference(v1.to_set()) =~= m.dom().difference(v0.to_set()));
                    assert(subdir_paths(oc) =~= Seq::<Seq<char>>::empty());
                }

                // under unambiguous paths, no report or error path repeats
                if paths_unambiguous(m, rt) {
                    match oc {
                        OutcomeModel::Entries(es) => {
                            assert(m.dom().contains(d@));
                            assert(entries_of(m[d@]) == es);
                            assert forall|i: int, j: int| 0 <= i < j < es.len()
                                implies entry_path(es[i]) != entry_path(es[j]) by {
                                assert(entries_of(m[d@])[i] == es[i]);
                                assert(entries_of(m[d@])[j] == es[j]);
                            }
                            crate::walk::lemma_broken_of_entries_distinct(es);
                            crate::walk::lemma_errors_of_entries_distinct(es);
                        },
                        OutcomeModel::Denied(_) => {
                            assert(broken_paths(oc) =~= Seq::<Seq<char>>::empty());
                        },
                    }
                    assert(broken_paths(oc).no_duplicates());
                    assert(crate::walk::distinct_record_paths(error_records(d@, oc)));
                    assert forall|x: Seq<char>| rep0.contains(x)
                        implies !broken_paths(oc).contains(x) by {
                        let j = choose|j: int|
                            0 <= j < v0.len() && broken_paths(
                                outcome_of(m, #[trigger] v0[j]),
                            ).contains(x);
                        assert(v0.contains(v0[j]));
                        lemma_broken_paths_disjoint(m, rt, v0[j], d@);
                    }
                    crate::walk::lemma_no_dup_append(rep0, broken_paths(oc));
                    assert(rep1.no_duplicates());
                    assert forall|r1: (Seq<char>, ErrorKind), r2: (Seq<char>, ErrorKind)|
                        err0.contains(r1) && error_records(d@, oc).contains(r2)
                        implies r1.0 != r2.0 by {
                        let j = choose|j: int|
                            0 <= j < v0.len() && error_records(
                                v0[j],
                                outcome_of(m, #[trigger] v0[j]),
                            ).contains(r1);
                        assert(v0.contains(v0[j]));
                        lemma_record_paths_disjoint(m, rt, v0[j], d@);
                    }
                    crate::walk::lemma_distinct_record_paths_append(
                        err0,
                        error_records(d@, oc),
                    );
                    assert(crate::walk::distinct_record_paths(err1));
                }
            }
        } else {
            proof {
                let pend1 = w.pending.deep_view();
                assert(pend1 == pend0.drop_last());

                assert forall|j: int| 0 <= j < pend1.len()
                    implies reachable(m, rt, #[trigger] pend1[j]) by {
                    assert(pend1[j] == pend0[j]);
                }

                if !v0.contains(rt) {
                    lemma_contains_drop_last(pend0, rt);
                    if rt == pend0.last() {
                        assert(v0.contains(rt));
                    } else {
                        let k = choose|k: int| 0 <= k < pend0.drop_last().len()
                            && pend0.drop_last()[k] == rt;
                        assert(pend1[k] == rt);
                        assert(pend1.contains(rt));
                    }
                }

                assert forall|j: int, c: Seq<char>|
                    0 <= j < v0.len() && #[trigger] lists_subdir(outcome_of(m, v0[j]), c)
                    implies v0.contains(c) || pend1.contains(c) by {
                    if !v0.contains(c) {
                        assert(pend0.contains(c));
                        lemma_contains_drop_last(pend0, c);
                        if c == pend0.last() {
                            assert(v0.contains(d@));
                            assert(v0.contains(c));
                        } else {
                            let k = choose|k: int| 0 <= k < pend0.drop_last().len()
                                && pend0.drop_last()[k] == c;
                            assert(pend1[k] == c);
                            assert(pend1.contains(c));
                        }
                    }
                }
            }
        }
    }
    proof {
        let vs = visited.deep_view();
        // the stack is empty, so the visited set is closed and holds the
        // root; hence it holds every reachable directory
        assert forall|j: int, c: Seq<char>|
            0 <= j < vs.len() && #[trigger] lists_subdir(outcome_of(m, vs[j]), c)
            implies vs.contains(c) by {}

        assert forall|p: Seq<char>| w.reports.deep_view().to_set().contains(p)
            implies broken_links(m, rt).contains(p) by {
            let j = choose|j: int|
                0 <= j < vs.len() && broken_paths(outcome_of(m, #[trigger] vs[j])).contains(p);
            assert(reachable(m, rt, vs[j]));
        }
        assert forall|p: Seq<char>| broken_links(m, rt).contains(p)
            implies w.reports.deep_view().to_set().contains(p) by {
            let d = choose|d: Seq<char>|
                reachable(m, rt, d) && broken_paths(outcome_of(m, d)).contains(p);
            let n = choose|n: nat| reaches_within(m, rt, d, n);
            lemma_closed_catches_reachable(m, rt, vs, d, n);
            let j = choose|j: int| 0 <= j < vs.len() && vs[j] == d;
            assert(broken_paths(outcome_of(m, vs[j])).contains(p));
        }
        assert(w.reports.deep_view().to_set() =~= broken_links(m, rt));

        assert forall|r: (Seq<char>, ErrorKind)| w.errors.deep_view().to_set().contains(r)
            implies walk_errors(m, rt).contains(r) by {
            let j = choose|j: int|
                0 <= j < vs.len() && error_records(
                    vs[j],
                    outcome_of(m, #[trigger] vs[j]),
                ).contains(r);
            assert(reachable(m, rt, vs[j]));
        }
        assert forall|r: (Seq<char>, ErrorKind)| walk_errors(m, rt).contains(r)
            implies w.errors.deep_view().to_set().contains(r) by {
            let d = choose|d: Seq<char>|
                reachable(m, rt, d) && error_records(d, outcome_of(m, d)).contains(r);
            let n = choose|n: nat| reaches_within(m, rt, d, n);
            lemma_closed_catches_reachable(m, rt, vs, d, n);
            let j = choose|j: int| 0 <= j < vs.len() && vs[j] == d;
            assert(error_records(vs[j], outcome_of(m, vs[j])).contains(r));
        }
        assert(w.errors.deep_view().to_set() =~= walk_errors(m, rt));
    }
    (w.reports, w.errors)
}

} // verus!
