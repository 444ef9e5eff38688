//! Core types and the decision machine of the broken-symlink walker.
//!
//! The walker itself performs no filesystem access.  A driver lists
//! directories and probes symlink targets, then hands each outcome to the
//! [`Walker`], which keeps the stack of directories still to visit, the
//! broken-symlink reports, and the error records.  Every decision the
//! original tool makes per entry — recurse, report, record, or ignore —
//! is made here and specified exactly.

use vstd::prelude::*;

verus! {

/// Cause of a recoverable failure met during a walk, kept as a structured
/// kind rather than free text so results can be compared exactly.
#[derive(Clone, Copy, Debug, PartialEq, Eq, Structural)]
pub enum ErrorKind {
    NotFound,
    PermissionDenied,
    Other,
}

/// What a probe of a symlink's target found: the target exists, the target
/// path does not exist, or the probe itself failed with some other error.
#[derive(Clone, Copy, Debug, PartialEq, Eq, Structural)]
pub enum TargetStatus {
    Exists,
    Missing,
    Failed(ErrorKind),
}

/// One entry obtained by listing a directory, classified by the driver.
///
/// `Unreadable` stands for an entry whose kind could not be determined;
/// such a failure is isolated to the entry.
pub enum EntryInfo {
    Subdir(String),
    Symlink(String, TargetStatus),
    Other(String),
    Unreadable(String, ErrorKind),
}

/// The outcome of listing one directory: its classified entries, or the
/// error that made the listing fail.
pub enum ListingOutcome {
    Listed(Vec<EntryInfo>),
    Denied(ErrorKind),
}

/// A recoverable failure, recorded with the path it occurred at.
pub struct ErrorRecord {
    pub path: String,
    pub cause: ErrorKind,
}

/// Mathematical model of one directory entry: the entry with its path as a
/// sequence of characters.
pub enum EntryModel {
    Subdir(Seq<char>),
    Symlink(Seq<char>, TargetStatus),
    Other(Seq<char>),
    Unreadable(Seq<char>, ErrorKind),
}

/// Mathematical model of a listing outcome.
pub enum OutcomeModel {
    Entries(Seq<EntryModel>),
    Denied(ErrorKind),
}

impl View for EntryInfo {
    type V = EntryModel;

    open spec fn view(&self) -> EntryModel {
        match self {
            EntryInfo::Subdir(p) => EntryModel::Subdir(p@),
            EntryInfo::Symlink(p, st) => EntryModel::Symlink(p@, *st),
            EntryInfo::Other(p) => EntryModel::Other(p@),
            EntryInfo::Unreadable(p, k) => EntryModel::Unreadable(p@, *k),
        }
    }
}

impl DeepView for EntryInfo {
    type V = EntryModel;

    open spec fn deep_view(&self) -> EntryModel {
        self.view()
    }
}

impl View for ListingOutcome {
    type V = OutcomeModel;

    open spec fn view(&self) -> OutcomeModel {
        match self {
            ListingOutcome::Listed(es) => OutcomeModel::Entries(es.deep_view()),
            ListingOutcome::Denied(k) => OutcomeModel::Denied(*k),
        }
    }
}

impl View for ErrorRecord {
    type V = (Seq<char>, ErrorKind);

    open spec fn view(&self) -> (Seq<char>, ErrorKind) {
        (self.path@, self.cause)
    }
}

impl DeepView for ErrorRecord {
    type V = (Seq<char>, ErrorKind);

    open spec fn deep_view(&self) -> (Seq<char>, ErrorKind) {
        self.view()
    }
}

/// The path an entry carries, whatever its kind.
pub open spec fn entry_path(e: EntryModel) -> Seq<char> {
    match e {
        EntryModel::Subdir(p) => p,
        EntryModel::Symlink(p, _) => p,
        EntryModel::Other(p) => p,
        EntryModel::Unreadable(p, _) => p,
    }
}

/// The broken-symlink reports a sequence of entries gives rise to, in
/// entry order: the paths of the symlinks whose target is missing.
pub open spec fn broken_of_entries(es: Seq<EntryModel>) -> Seq<Seq<char>>
    decreases es.len(),
{
    if es.len() == 0 {
        Seq::empty()
    } else {
        broken_of_entries(es.drop_last()) + (match es.last() {
            EntryModel::Symlink(p, TargetStatus::Missing) => seq![p],
            _ => Seq::empty(),
        })
    }
}

/// The subdirectories a sequence of entries asks the walk to visit, in
/// entry order.
pub open spec fn subdirs_of_entries(es: Seq<EntryModel>) -> Seq<Seq<char>>
    decreases es.len(),
{
    if es.len() == 0 {
        Seq::empty()
    } else {
        subdirs_of_entries(es.drop_last()) + (match es.last() {
            EntryModel::Subdir(p) => seq![p],
            _ => Seq::empty(),
        })
    }
}

/// The error records a sequence of entries gives rise to, in entry order:
/// unreadable entries, and symlinks whose target probe failed.
pub open spec fn errors_of_entries(es: Seq<EntryModel>) -> Seq<(Seq<char>, ErrorKind)>
    decreases es.len(),
{
    if es.len() == 0 {
        Seq::empty()
    } else {
        errors_of_entries(es.drop_last()) + (match es.last() {
            EntryModel::Symlink(p, TargetStatus::Failed(k)) => seq![(p, k)],
            EntryModel::Unreadable(p, k) => seq![(p, k)],
            _ => Seq::empty(),
        })
    }
}

/// The broken-symlink reports one listing outcome contributes.
pub open spec fn broken_paths(o: OutcomeModel) -> Seq<Seq<char>> {
    match o {
        OutcomeModel::Entries(es) => broken_of_entries(es),
        OutcomeModel::Denied(_) => Seq::empty(),
    }
}

/// The subdirectories one listing outcome adds to the walk.
pub open spec fn subdir_paths(o: OutcomeModel) -> Seq<Seq<char>> {
    match o {
        OutcomeModel::Entries(es) => subdirs_of_entries(es),
        OutcomeModel::Denied(_) => Seq::empty(),
    }
}

/// The error records one listing outcome contributes for the directory
/// `d`: a failed listing is recorded against the directory itself, a
/// successful one contributes its per-entry errors.
pub open spec fn error_records(d: Seq<char>, o: OutcomeModel) -> Seq<(Seq<char>, ErrorKind)> {
    match o {
        OutcomeModel::Entries(es) => errors_of_entries(es),
        OutcomeModel::Denied(k) => seq![(d, k)],
    }
}

/// A path is among the broken-symlink reports of a sequence of entries
/// exactly when the sequence holds a symlink with that path whose target
/// is missing.
pub proof fn lemma_broken_of_entries_contains(es: Seq<EntryModel>, p: Seq<char>)
    ensures
        broken_of_entries(es).contains(p) <==> exists|i: int|
            0 <= i < es.len() && es[i] == EntryModel::Symlink(p, TargetStatus::Missing),
    decreases es.len(),
{
    if es.len() > 0 {
        lemma_broken_of_entries_contains(es.drop_last(), p);
        let bs = broken_of_entries(es);
        let bd = broken_of_entries(es.drop_last());
        if exists|i: int|
            0 <= i < es.len() && es[i] == EntryModel::Symlink(p, TargetStatus::Missing) {
            let i = choose|i: int|
                0 <= i < es.len() && es[i] == EntryModel::Symlink(p, TargetStatus::Missing);
            if i < es.len() - 1 {
                assert(es.drop_last()[i] == EntryModel::Symlink(p, TargetStatus::Missing));
                let j = choose|j: int| 0 <= j < bd.len() && bd[j] == p;
                assert(bs[j] == p);
            } else {
                assert(bs[bd.len() as int] == p);
            }
            assert(bs.contains(p));
        }
        if broken_of_entries(es).contains(p) {
            let j = choose|j: int|
                0 <= j < broken_of_entries(es).len() && broken_of_entries(es)[j] == p;
            if j < broken_of_entries(es.drop_last()).len() {
                assert(broken_of_entries(es.drop_last())[j] == p);
            } else {
                assert(es.last() == EntryModel::Symlink(p, TargetStatus::Missing));
                assert(es[es.len() - 1] == EntryModel::Symlink(p, TargetStatus::Missing));
            }
        }
    }
}

/// A path is among the subdirectories of a sequence of entries exactly
/// when the sequence holds a directory entry with that path.
pub proof fn lemma_subdirs_of_entries_contains(es: Seq<EntryModel>, p: Seq<char>)
    ensures
        subdirs_of_entries(es).contains(p) <==> exists|i: int|
            0 <= i < es.len() && es[i] == EntryModel::Subdir(p),
    decreases es.len(),
{
    if es.len() > 0 {
        lemma_subdirs_of_entries_contains(es.drop_last(), p);
        let ss = subdirs_of_entries(es);
        let sd = subdirs_of_entries(es.drop_last());
        if exists|i: int| 0 <= i < es.len() && es[i] == EntryModel::Subdir(p) {
            let i = choose|i: int| 0 <= i < es.len() && es[i] == EntryModel::Subdir(p);
            if i < es.len() - 1 {
                assert(es.drop_last()[i] == EntryModel::Subdir(p));
                let j = choose|j: int| 0 <= j < sd.len() && sd[j] == p;
                assert(ss[j] == p);
            } else {
                assert(ss[sd.len() as int] == p);
            }
            assert(ss.contains(p));
        }
        if subdirs_of_entries(es).contains(p) {
            let j = choose|j: int|
                0 <= j < subdirs_of_entries(es).len() && subdirs_of_entries(es)[j] == p;
            if j < subdirs_of_entries(es.drop_last()).len() {
                assert(subdirs_of_entries(es.drop_last())[j] == p);
            } else {
                assert(es[es.len() - 1] == EntryModel::Subdir(p));
            }
        }
    }
}

/// Whether one entry yields the error record `r`.
pub open spec fn entry_error(e: EntryModel, r: (Seq<char>, ErrorKind)) -> bool {
    match e {
        EntryModel::Symlink(p, TargetStatus::Failed(k)) => r == (p, k),
        EntryModel::Unreadable(p, k) => r == (p, k),
        _ => false,
    }
}

/// A record is among the per-entry errors of a sequence of entries exactly
/// when some entry yields it.
pub proof fn lemma_errors_of_entries_contains(es: Seq<EntryModel>, r: (Seq<char>, ErrorKind))
    ensures
        errors_of_entries(es).contains(r) <==> exists|i: int|
            0 <= i < es.len() && entry_error(es[i], r),
    decreases es.len(),
{
    if es.len() > 0 {
        lemma_errors_of_entries_contains(es.drop_last(), r);
        let fs = errors_of_entries(es);
        let fd = errors_of_entries(es.drop_last());
        if exists|i: int| 0 <= i < es.len() && entry_error(es[i], r) {
            let i = choose|i: int| 0 <= i < es.len() && entry_error(es[i], r);
            if i < es.len() - 1 {
                assert(entry_error(es.drop_last()[i], r));
                let j = choose|j: int| 0 <= j < fd.len() && fd[j] == r;
                assert(fs[j] == r);
            } else {
                assert(fs[fd.len() as int] == r);
            }
            assert(fs.contains(r));
        }
        if errors_of_entries(es).contains(r) {
            let j = choose|j: int|
                0 <= j < errors_of_entries(es).len() && errors_of_entries(es)[j] == r;
            if j < errors_of_entries(es.drop_last()).len() {
                assert(errors_of_entries(es.drop_last())[j] == r);
            } else {
                assert(entry_error(es[es.len() - 1], r));
            }
        }
    }
}

/// Pairwise distinct elements in a sequence of error records would say too
/// little: what matters is that no two records name the same path.
pub open spec fn distinct_record_paths(rs: Seq<(Seq<char>, ErrorKind)>) -> bool {
    forall|i: int, j: int| 0 <= i < j < rs.len() ==> rs[i].0 != rs[j].0
}

/// An entry that yields an error record gives it its own path, and is
/// never a subdirectory entry.
pub proof fn lemma_entry_error_path(e: EntryModel, r: (Seq<char>, ErrorKind))
    requires
        entry_error(e, r),
    ensures
        r.0 == entry_path(e),
        !(e is Subdir),
{
}

/// Concatenating two duplicate-free sequences with no element in common
/// gives a duplicate-free sequence.
pub proof fn lemma_no_dup_append<A>(a: Seq<A>, b: Seq<A>)
    requires
        a.no_duplicates(),
        b.no_duplicates(),
        forall|x: A| a.contains(x) ==> !b.contains(x),
    ensures
        (a + b).no_duplicates(),
{
    assert forall|i: int, j: int|
        0 <= i < (a + b).len() && 0 <= j < (a + b).len() && i != j implies (a + b)[i] != (a
        + b)[j] by {
        if i < a.len() && j >= a.len() {
            assert(a.contains(a[i]));
            assert((a + b)[i] == a[i]);
            assert((a + b)[j] == b[j - a.len()]);
            assert(b.contains(b[j - a.len()]));
        } else if i >= a.len() && j < a.len() {
            assert(a.contains(a[j]));
            assert((a + b)[j] == a[j]);
            assert((a + b)[i] == b[i - a.len()]);
            assert(b.contains(b[i - a.len()]));
        }
    }
}

/// Concatenating two record sequences whose paths are distinct within each
/// part and across the parts keeps all record paths distinct.
pub proof fn lemma_distinct_record_paths_append(
    a: Seq<(Seq<char>, ErrorKind)>,
    b: Seq<(Seq<char>, ErrorKind)>,
)
    requires
        distinct_record_paths(a),
        distinct_record_paths(b),
        forall|r1: (Seq<char>, ErrorKind), r2: (Seq<char>, ErrorKind)|
            a.contains(r1) && b.contains(r2) ==> r1.0 != r2.0,
    ensures
        distinct_record_paths(a + b),
{
    assert forall|i: int, j: int| 0 <= i < j < (a + b).len() implies (a + b)[i].0 != (a
        + b)[j].0 by {
        if i < a.len() && j >= a.len() {
            assert((a + b)[i] == a[i]);
            assert((a + b)[j] == b[j - a.len()]);
            assert(a.contains(a[i]));
            assert(b.contains(b[j - a.len()]));
        }
    }
}

/// If the entries carry pairwise distinct paths, no broken symlink is
/// listed twice.
pub proof fn lemma_broken_of_entries_distinct(es: Seq<EntryModel>)
    requires
        forall|i: int, j: int| 0 <= i < j < es.len() ==> entry_path(es[i]) != entry_path(es[j]),
    ensures
        broken_of_entries(es).no_duplicates(),
    decreases es.len(),
{
    if es.len() > 0 {
        let dl = es.drop_last();
        assert(forall|i: int| 0 <= i < dl.len() ==> dl[i] == es[i]);
        lemma_broken_of_entries_distinct(dl);
        match es.last() {
            EntryModel::Symlink(p, TargetStatus::Missing) => {
                lemma_broken_of_entries_contains(dl, p);
                assert forall|x: Seq<char>| broken_of_entries(dl).contains(x)
                    implies !seq![p].contains(x) by {
                    if x == p {
                        let i = choose|i: int|
                            0 <= i < dl.len() && dl[i] == EntryModel::Symlink(
                                p,
                                TargetStatus::Missing,
                            );
                        assert(entry_path(es[i]) == p);
                        assert(entry_path(es[es.len() - 1]) == p);
                    }
                }
                lemma_no_dup_append(broken_of_entries(dl), seq![p]);
            },
            _ => {
                assert(broken_of_entries(es) =~= broken_of_entries(dl));
            },
        }
    }
}

/// If the entries carry pairwise distinct paths, no two of their error
/// records name the same path.
pub proof fn lemma_errors_of_entries_distinct(es: Seq<EntryModel>)
    requires
        forall|i: int, j: int| 0 <= i < j < es.len() ==> entry_path(es[i]) != entry_path(es[j]),
    ensures
        distinct_record_paths(errors_of_entries(es)),
    decreases es.len(),
{
    if es.len() > 0 {
        let dl = es.drop_last();
        assert(forall|i: int| 0 <= i < dl.len() ==> dl[i] == es[i]);
        lemma_errors_of_entries_distinct(dl);
        let tail = match es.last() {
            EntryModel::Symlink(p, TargetStatus::Failed(k)) => seq![(p, k)],
            EntryModel::Unreadable(p, k) => seq![(p, k)],
            _ => Seq::empty(),
        };
        if tail.len() > 0 {
            assert forall|r1: (Seq<char>, ErrorKind), r2: (Seq<char>, ErrorKind)|
                errors_of_entries(dl).contains(r1) && tail.contains(r2) implies r1.0 != r2.0 by {
                lemma_errors_of_entries_contains(dl, r1);
                let i = choose|i: int| 0 <= i < dl.len() && entry_error(dl[i], r1);
                lemma_entry_error_path(dl[i], r1);
                assert(entry_path(es[i]) == r1.0);
                assert(r2 == tail[0]);
                assert(r2.0 == entry_path(es[es.len() - 1]));
            }
            lemma_distinct_record_paths_append(errors_of_entries(dl), tail);
        } else {
            assert(errors_of_entries(es) =~= errors_of_entries(dl));
        }
    }
}

/// State of a walk in progress: the directories still to visit, and the
/// findings so far.  All fields are plain data; drivers read them freely.
pub struct Walker {
    pub pending: Vec<String>,
    pub reports: Vec<String>,
    pub errors: Vec<ErrorRecord>,
}

impl Walker {
    /// A fresh walk that has the root directory left to visit and no
    /// findings yet.
    pub fn new(root: String) -> (w: Self)
        ensures
            w.pending.deep_view() == seq![root@],
            w.reports.deep_view() == Seq::<Seq<char>>::empty(),
            w.errors.deep_view() == Seq::<(Seq<char>, ErrorKind)>::empty(),
    {
        let mut pending: Vec<String> = Vec::new();
        pending.push(root);
        let w = Walker { pending, reports: Vec::new(), errors: Vec::new() };
        proof {
            assert(w.pending.deep_view() =~= seq![root@]);
            assert(w.reports.deep_view() =~= Seq::<Seq<char>>::empty());
            assert(w.errors.deep_view() =~= Seq::<(Seq<char>, ErrorKind)>::empty());
        }
        w
    }

    /// True when no directory is left to visit.
    pub fn done(&self) -> (r: bool)
        ensures
            r == (self.pending@.len() == 0),
    {
        self.pending.len() == 0
    }

    /// Takes the next directory to visit off the stack, if any; the
    /// findings are untouched.
    pub fn next_dir(&mut self) -> (r: Option<String>)
        ensures
            final(self).reports.deep_view() == old(self).reports.deep_view(),
            final(self).errors.deep_view() == old(self).errors.deep_view(),
            old(self).pending@.len() == 0 ==> r is None && final(self).pending.deep_view()
                == old(self).pending.deep_view(),
            old(self).pending@.len() > 0 ==> ({
                &&& r matches Some(d) && d@ == old(self).pending.deep_view().last()
                &&& final(self).pending.deep_view() == old(self).pending.deep_view().drop_last()
            }),
    {
        let r = self.pending.pop();
        proof {
            if old(self).pending@.len() > 0 {
                assert(self.pending.deep_view() =~= old(self).pending.deep_view().drop_last());
            } else {
                assert(self.pending.deep_view() =~= old(self).pending.deep_view());
            }
        }
        r
    }

    /// Feeds the machine the outcome of listing directory `dir`.
    ///
    /// A failed listing is recorded as one error for `dir` and nothing
    /// else changes.  A successful listing contributes, in entry order:
    /// every subdirectory to the stack of directories to visit, every
    /// missing-target symlink to the reports, and every unreadable entry
    /// or failed target probe to the errors.  Entries of other kinds are
    /// ignored, and a failure at one entry never affects the rest.
    pub fn on_listing(&mut self, dir: &String, outcome: &ListingOutcome)
        ensures
            final(self).pending.deep_view() == old(self).pending.deep_view()
                + subdir_paths(outcome@),
            final(self).reports.deep_view() == old(self).reports.deep_view()
                + broken_paths(outcome@),
            final(self).errors.deep_view() == old(self).errors.deep_view()
                + error_records(dir@, outcome@),
    {
        match outcome {
            ListingOutcome::Denied(k) => {
                self.errors.push(ErrorRecord { path: dir.clone(), cause: *k });
                proof {
                    assert(self.pending.deep_view() =~= old(self).pending.deep_view()
                        + subdir_paths(outcome@));
                    assert(self.reports.deep_view() =~= old(self).reports.deep_view()
                        + broken_paths(outcome@));
                    assert(self.errors.deep_view() =~= old(self).errors.deep_view()
                        + error_records(dir@, outcome@));
                }
            },
            ListingOutcome::Listed(es) => {
                let ghost ev = es.deep_view();
                let n = es.len();
                proof {
                    assert(ev.take(0) =~= Seq::<EntryModel>::empty());
                    assert(self.pending.deep_view() =~= old(self).pending.deep_view()
                        + subdirs_of_entries(ev.take(0)));
                    assert(self.reports.deep_view() =~= old(self).reports.deep_view()
                        + broken_of_entries(ev.take(0)));
                    assert(self.errors.deep_view() =~= old(self).errors.deep_view()
                        + errors_of_entries(ev.take(0)));
                }
                for i in 0..n
                    invariant
                        n == es@.len(),
                        ev == es.deep_view(),
                        self.pending.deep_view() == old(self).pending.deep_view()
                            + subdirs_of_entries(ev.take(i as int)),
                        self.reports.deep_view() == old(self).reports.deep_view()
                            + broken_of_entries(ev.take(i as int)),
                        self.errors.deep_view() == old(self).errors.deep_view()
                            + errors_of_entries(ev.take(i as int)),
                {
                    proof {
                        assert(ev.take(i + 1).drop_last() =~= ev.take(i as int));
                        assert(ev.take(i + 1).last() == ev[i as int]);
                        assert(ev[i as int] == es@[i as int]@);
                    }
                    match &es[i] {
                        EntryInfo::Subdir(p) => {
                            proof {
                                assert(es@[i as int] matches EntryInfo::Subdir(q) && q@ == p@);
                                assert(ev.take(i + 1).last() == EntryModel::Subdir(p@));
                                assert(subdirs_of_entries(ev.take(i + 1))
                                    == subdirs_of_entries(ev.take(i as int)) + seq![p@]);
                            }
                            let ghost pre = self.pending.deep_view();
                            self.pending.push(p.clone());
                            proof {
                                assert(self.pending.deep_view() =~= pre.push(p@));
                                assert(self.pending.deep_view() =~= old(self).pending.deep_view()
                                    + subdirs_of_entries(ev.take(i + 1)));
                            }
                        },
                        EntryInfo::Symlink(p, st) => {
                            match st {
                                TargetStatus::Exists => {},
                                TargetStatus::Missing => {
                                    proof {
                                        assert(ev.take(i + 1).last() == EntryModel::Symlink(
                                            p@,
                                            TargetStatus::Missing,
                                        ));
                                        assert(broken_of_entries(ev.take(i + 1))
                                            == broken_of_entries(ev.take(i as int)) + seq![p@]);
                                    }
                                    let ghost pre = self.reports.deep_view();
                                    self.reports.push(p.clone());
                                    proof {
                                        assert(self.reports.deep_view() =~= pre.push(p@));
                                        assert(self.reports.deep_view() =~= old(
                                            self,
                                        ).reports.deep_view() + broken_of_entries(ev.take(i + 1)));
                                    }
                                },
                                TargetStatus::Failed(k) => {
                                    proof {
                                        assert(ev.take(i + 1).last() == EntryModel::Symlink(
                                            p@,
                                            TargetStatus::Failed(*k),
                                        ));
                                        assert(errors_of_entries(ev.take(i + 1))
                                            == errors_of_entries(ev.take(i as int)) + seq![
                                                (p@, *k),
                                            ]);
                                    }
                                    let ghost pre = self.errors.deep_view();
                                    self.errors.push(ErrorRecord { path: p.clone(), cause: *k });
                                    proof {
                                        assert(self.errors.deep_view() =~= pre.push((p@, *k)));
                                        assert(self.errors.deep_view() =~= old(
                                            self,
                                        ).errors.deep_view() + errors_of_entries(ev.take(i + 1)));
                                    }
                                },
                            }
                        },
                        EntryInfo::Other(_) => {},
                        EntryInfo::Unreadable(p, k) => {
                            proof {
                                assert(ev.take(i + 1).last() == EntryModel::Unreadable(p@, *k));
                                assert(errors_of_entries(ev.take(i + 1)) == errors_of_entries(
                                    ev.take(i as int),
                                ) + seq![(p@, *k)]);
                            }
                            let ghost pre = self.errors.deep_view();
                            self.errors.push(ErrorRecord { path: p.clone(), cause: *k });
                            proof {
                                assert(self.errors.deep_view() =~= pre.push((p@, *k)));
                                assert(self.errors.deep_view() =~= old(self).errors.deep_view()
                                    + errors_of_entries(ev.take(i + 1)));
                            }
                        },
                    }
                    proof {
                        assert(self.pending.deep_view() =~= old(self).pending.deep_view()
                            + subdirs_of_entries(ev.take(i + 1)));
                        assert(self.reports.deep_view() =~= old(self).reports.deep_view()
                            + broken_of_entries(ev.take(i + 1)));
                        assert(self.errors.deep_view() =~= old(self).errors.deep_view()
                            + errors_of_entries(ev.take(i + 1)));
                    }
                }
                proof {
                    assert(ev.take(n as int) =~= ev);
                }
            },
        }
    }
}

/// Configuration for a walk.
pub struct Opts {
    pub verbose: bool,
}

/// Plain command-line inputs for the walker: an optional root path and a
/// verbosity flag.
pub struct Args {
    pub root: Option<String>,
    pub verbose: bool,
}

impl Opts {
    /// Builds the walk configuration from the parsed arguments.
    pub fn new(args: &Args) -> (r: Self)
        ensures
            r.verbose == args.verbose,
    {
        Self { verbose: args.verbose }
    }
}

} // verus!
