//! The sync executor's decision logic.
//!
//! The executor walks a plan from the differ: deletes go first and are
//! independent of the downloads; `Add` and `Update` actions name the
//! content to fetch; `Unchanged` actions are no-ops kept for reporting.
//! The I/O layer performs each fetch, write and removal, and hands the
//! per-path outcomes back; [`summarize_outcomes`] turns them into the
//! report.  [`apply_plan`] is the effect of a plan on the tree model, and
//! [`lemma_apply_then_diff_converges`] proves that applying a plan leaves
//! nothing for a re-diff against the remote manifest to do.

use vstd::prelude::*;
use crate::diff::{ActionModel, SyncAction, action_path, expected_action, in_union, plan_matches};
use crate::digest::digest_hex;
use crate::manifest::{EntryModel, lookup, manifest_wf};
use crate::text::lower;
use crate::tree::{FileModel, TreeFile, build_model, lemma_build_lookup, lemma_tree_lookup_at,
    lemma_tree_lookup_cases, root_excluded, tree_find, tree_lookup, tree_wf};

verus! {

/// The plan holds a `Delete` action for the path.
pub open spec fn has_delete(plan: Seq<ActionModel>, p: Seq<char>) -> bool {
    exists|i: int|
        0 <= i < plan.len() && (#[trigger] plan[i]) is Delete && action_path(plan[i]) == p
}

/// The plan schedules a download (`Add` or `Update`) for the path.
pub open spec fn download_planned(plan: Seq<ActionModel>, p: Seq<char>) -> bool {
    exists|i: int|
        0 <= i < plan.len() && ((#[trigger] plan[i]) is Add || plan[i] is Update) && action_path(
            plan[i],
        ) == p
}

/// The `Add` and `Update` actions of the plan, in plan order: what the
/// executor must fetch.
pub open spec fn downloads_of(plan: Seq<ActionModel>) -> Seq<ActionModel>
    decreases plan.len(),
{
    if plan.len() == 0 {
        Seq::empty()
    } else {
        let rest = downloads_of(plan.drop_last());
        if plan.last() is Add || plan.last() is Update {
            rest.push(plan.last())
        } else {
            rest
        }
    }
}

/// The paths of the `Delete` actions of the plan, in plan order: what the
/// executor must remove.  Removing a path that is already absent counts
/// as success.
pub open spec fn deletes_of(plan: Seq<ActionModel>) -> Seq<Seq<char>>
    decreases plan.len(),
{
    if plan.len() == 0 {
        Seq::empty()
    } else {
        let rest = deletes_of(plan.drop_last());
        if plan.last() is Delete {
            rest.push(action_path(plan.last()))
        } else {
            rest
        }
    }
}

/// The download list holds exactly the paths with a planned `Add` or
/// `Update`, and the delete list exactly the paths with a planned
/// `Delete`.
pub proof fn lemma_pending_work_is_planned(plan: Seq<ActionModel>)
    ensures
        forall|k: int|
            0 <= k < downloads_of(plan).len() ==> download_planned(
                plan,
                action_path(#[trigger] downloads_of(plan)[k]),
            ),
        forall|p: Seq<char>|
            #[trigger] download_planned(plan, p) ==> exists|k: int|
                0 <= k < downloads_of(plan).len() && action_path(#[trigger] downloads_of(plan)[k])
                    == p,
        forall|k: int| 0 <= k < deletes_of(plan).len() ==> has_delete(plan, #[trigger] deletes_of(plan)[k]),
        forall|p: Seq<char>|
            #[trigger] has_delete(plan, p) ==> exists|k: int|
                0 <= k < deletes_of(plan).len() && #[trigger] deletes_of(plan)[k] == p,
    decreases plan.len(),
{
    if plan.len() > 0 {
        let head = plan.drop_last();
        lemma_pending_work_is_planned(head);
        let dl = downloads_of(plan);
        let dl0 = downloads_of(head);
        let de = deletes_of(plan);
        let de0 = deletes_of(head);
        assert(plan[plan.len() - 1] == plan.last());
        assert forall|k: int| 0 <= k < dl.len() implies download_planned(
            plan,
            action_path(#[trigger] dl[k]),
        ) by {
            if k < dl0.len() {
                assert(dl[k] == dl0[k]);
                let w = choose|w: int|
                    0 <= w < head.len() && ((#[trigger] head[w]) is Add || head[w] is Update)
                        && action_path(head[w]) == action_path(dl0[k]);
                assert(plan[w] == head[w]);
            } else {
                assert(dl[k] == plan.last());
            }
        }
        assert forall|p: Seq<char>| #[trigger] download_planned(plan, p) implies exists|k: int|
            0 <= k < dl.len() && action_path(#[trigger] dl[k]) == p by {
            let w = choose|w: int|
                0 <= w < plan.len() && ((#[trigger] plan[w]) is Add || plan[w] is Update)
                    && action_path(plan[w]) == p;
            if w == plan.len() - 1 {
                assert(action_path(dl[dl.len() - 1]) == p);
            } else {
                assert(head[w] == plan[w]);
                assert(download_planned(head, p));
                let k = choose|k: int|
                    0 <= k < dl0.len() && action_path(#[trigger] dl0[k]) == p;
                assert(action_path(dl[k]) == p);
            }
        }
        assert forall|k: int| 0 <= k < de.len() implies has_delete(
            plan,
            #[trigger] de[k],
        ) by {
            if k < de0.len() {
                assert(de[k] == de0[k]);
                let w = choose|w: int|
                    0 <= w < head.len() && (#[trigger] head[w]) is Delete && action_path(head[w])
                        == de0[k];
                assert(plan[w] == head[w]);
            } else {
                assert(de[k] == action_path(plan.last()));
            }
        }
        assert forall|p: Seq<char>| #[trigger] has_delete(plan, p) implies exists|k: int|
            0 <= k < de.len() && #[trigger] de[k] == p by {
            let w = choose|w: int|
                0 <= w < plan.len() && (#[trigger] plan[w]) is Delete && action_path(plan[w]) == p;
            if w == plan.len() - 1 {
                assert(de[de.len() - 1] == p);
            } else {
                assert(head[w] == plan[w]);
                assert(has_delete(head, p));
                let k = choose|k: int| 0 <= k < de0.len() && #[trigger] de0[k] == p;
                assert(de[k] == p);
            }
        }
    }
}

/// The `Add` and `Update` actions of a plan, in plan order.
pub fn pending_downloads(plan: &Vec<SyncAction>) -> (r: Vec<SyncAction>)
    ensures
        r.deep_view() == downloads_of(plan.deep_view()),
{
    let ghost pm = plan.deep_view();
    let n = plan.len();
    let mut r: Vec<SyncAction> = Vec::new();
    let mut i: usize = 0;
    while i < n
        invariant
            n == pm.len(),
            pm == plan.deep_view(),
            i <= n,
            r.deep_view() == downloads_of(pm.subrange(0, i as int)),
        decreases n - i,
    {
        let ghost prev = r.deep_view();
        match &plan[i] {
            SyncAction::Add { path, remote_digest } => {
                r.push(
                    SyncAction::Add { path: path.clone(), remote_digest: remote_digest.clone() },
                );
            },
            SyncAction::Update { path, remote_digest } => {
                r.push(
                    SyncAction::Update {
                        path: path.clone(),
                        remote_digest: remote_digest.clone(),
                    },
                );
            },
            SyncAction::Delete { .. } => {},
            SyncAction::Unchanged { .. } => {},
        }
        proof {
            assert(pm.subrange(0, i + 1).drop_last() =~= pm.subrange(0, i as int));
            assert(pm.subrange(0, i + 1).last() == pm[i as int]);
            if pm[i as int] is Add || pm[i as int] is Update {
                assert(r.deep_view() =~= prev.push(pm[i as int]));
            }
        }
        i = i + 1;
    }
    proof {
        assert(pm.subrange(0, n as int) =~= pm);
    }
    r
}

/// The paths of the `Delete` actions of a plan, in plan order.
pub fn pending_deletes(plan: &Vec<SyncAction>) -> (r: Vec<String>)
    ensures
        r.deep_view() == deletes_of(plan.deep_view()),
{
    let ghost pm = plan.deep_view();
    let n = plan.len();
    let mut r: Vec<String> = Vec::new();
    let mut i: usize = 0;
    while i < n
        invariant
            n == pm.len(),
            pm == plan.deep_view(),
            i <= n,
            r.deep_view() == deletes_of(pm.subrange(0, i as int)),
        decreases n - i,
    {
        let ghost prev = r.deep_view();
        match &plan[i] {
            SyncAction::Delete { path } => {
                r.push(path.clone());
            },
            SyncAction::Add { .. } => {},
            SyncAction::Update { .. } => {},
            SyncAction::Unchanged { .. } => {},
        }
        proof {
            assert(pm.subrange(0, i + 1).drop_last() =~= pm.subrange(0, i as int));
            assert(pm.subrange(0, i + 1).last() == pm[i as int]);
            if pm[i as int] is Delete {
                assert(r.deep_view() =~= prev.push(action_path(pm[i as int])));
            }
        }
        i = i + 1;
    }
    proof {
        assert(pm.subrange(0, n as int) =~= pm);
    }
    r
}

/// The lifecycle of one action while the plan is applied.  No retries
/// happen inside the executor: a failed action stays failed, and the
/// caller may re-run diff and apply, which plans only the failed subset
/// again.
#[derive(PartialEq, Eq, Structural, Clone, Copy, Debug)]
pub enum ActionState {
    Pending,
    InFlight,
    Applied,
    Failed,
}

/// Starts work on a pending action: the one transition out of `Pending`.
pub fn start_action(state: ActionState) -> (r: ActionState)
    requires
        state is Pending,
    ensures
        r is InFlight,
{
    ActionState::InFlight
}

/// Records the outcome of an action in flight: success applies it, any
/// failure marks it failed; settled states never change again.
pub fn settle_action(state: ActionState, success: bool) -> (r: ActionState)
    ensures
        state is InFlight && success ==> r is Applied,
        state is InFlight && !success ==> r is Failed,
        !(state is InFlight) ==> r == state,
{
    match state {
        ActionState::InFlight => {
            if success {
                ActionState::Applied
            } else {
                ActionState::Failed
            }
        },
        _ => state,
    }
}

/// The result the I/O layer reports for one action: the path it worked
/// on, and the failure reason if the fetch, write or removal failed.
pub struct SyncOutcome {
    pub path: String,
    pub error: Option<String>,
}

/// The mathematical content of one outcome.
pub ghost struct OutcomeModel {
    pub path: Seq<char>,
    pub error: Option<Seq<char>>,
}

impl View for SyncOutcome {
    type V = OutcomeModel;

    open spec fn view(&self) -> OutcomeModel {
        OutcomeModel { path: self.path@, error: self.error.deep_view() }
    }
}

impl DeepView for SyncOutcome {
    type V = OutcomeModel;

    open spec fn deep_view(&self) -> OutcomeModel {
        self@
    }
}

/// One failed path with its reason.
pub struct SyncFailure {
    pub path: String,
    pub reason: String,
}

/// The report of one application: which paths succeeded, and which failed
/// with what reason.  A failure on one path never aborts the rest of the
/// plan, so both lists together cover every attempted action.
pub struct SyncReport {
    pub succeeded: Vec<String>,
    pub failed: Vec<SyncFailure>,
}

pub open spec fn ok_paths_of(outcomes: Seq<OutcomeModel>) -> Seq<Seq<char>>
    decreases outcomes.len(),
{
    if outcomes.len() == 0 {
        Seq::empty()
    } else {
        let rest = ok_paths_of(outcomes.drop_last());
        if outcomes.last().error is None {
            rest.push(outcomes.last().path)
        } else {
            rest
        }
    }
}

pub open spec fn failed_paths_of(outcomes: Seq<OutcomeModel>) -> Seq<Seq<char>>
    decreases outcomes.len(),
{
    if outcomes.len() == 0 {
        Seq::empty()
    } else {
        let rest = failed_paths_of(outcomes.drop_last());
        if outcomes.last().error is Some {
            rest.push(outcomes.last().path)
        } else {
            rest
        }
    }
}

/// Turns the per-path outcomes of an application into the report: the
/// succeeded paths, and the failed paths each with its reason, both in
/// outcome order.
pub fn summarize_outcomes(outcomes: &Vec<SyncOutcome>) -> (report: SyncReport)
    ensures
        report.succeeded.deep_view() == ok_paths_of(outcomes.deep_view()),
        report.failed@.len() == failed_paths_of(outcomes.deep_view()).len(),
        forall|i: int|
            0 <= i < report.failed@.len() ==> (#[trigger] report.failed@[i]).path@
                == failed_paths_of(outcomes.deep_view())[i],
        forall|i: int|
            0 <= i < report.failed@.len() ==> exists|j: int|
                0 <= j < outcomes@.len() && outcomes@[j]@.path == (
                #[trigger] report.failed@[i]).path@ && outcomes@[j]@.error == Some(
                    report.failed@[i].reason@,
                ),
{
    let ghost om = outcomes.deep_view();
    let n = outcomes.len();
    let mut succeeded: Vec<String> = Vec::new();
    let mut failed: Vec<SyncFailure> = Vec::new();
    let mut i: usize = 0;
    while i < n
        invariant
            n == om.len(),
            om == outcomes.deep_view(),
            i <= n,
            succeeded.deep_view() == ok_paths_of(om.subrange(0, i as int)),
            failed@.len() == failed_paths_of(om.subrange(0, i as int)).len(),
            forall|k: int|
                0 <= k < failed@.len() ==> (#[trigger] failed@[k]).path@ == failed_paths_of(
                    om.subrange(0, i as int),
                )[k],
            forall|k: int|
                0 <= k < failed@.len() ==> exists|j: int|
                    0 <= j < i && outcomes@[j]@.path == (#[trigger] failed@[k]).path@
                        && outcomes@[j]@.error == Some(failed@[k].reason@),
        decreases n - i,
    {
        let ghost prev_ok = succeeded.deep_view();
        let ghost prev_failed = failed@;
        let o = &outcomes[i];
        match &o.error {
            Option::None => {
                succeeded.push(o.path.clone());
            },
            Option::Some(reason) => {
                failed.push(SyncFailure { path: o.path.clone(), reason: reason.clone() });
            },
        }
        proof {
            assert(om.subrange(0, i + 1).drop_last() =~= om.subrange(0, i as int));
            assert(om.subrange(0, i + 1).last() == om[i as int]);
            if om[i as int].error is None {
                assert(succeeded.deep_view() =~= prev_ok.push(om[i as int].path));
            } else {
                assert(failed@ =~= prev_failed.push(failed@[prev_failed.len() as int]));
            }
        }
        i = i + 1;
    }
    proof {
        assert(om.subrange(0, n as int) =~= om);
    }
    SyncReport { succeeded, failed }
}

/// What a path holds after the plan is applied to the tree: fetched
/// content replaces or adds the path, a planned delete removes it, and
/// every other path keeps its old content.
pub open spec fn apply_expected(
    t: Seq<FileModel>,
    plan: Seq<ActionModel>,
    fetched: Seq<FileModel>,
    p: Seq<char>,
) -> Option<Seq<u8>> {
    if tree_lookup(fetched, p) is Some {
        tree_lookup(fetched, p)
    } else if has_delete(plan, p) {
        None
    } else {
        tree_lookup(t, p)
    }
}

/// The file survives the plan: no delete is planned for its path and no
/// fetched content replaces it.
pub open spec fn file_kept(
    plan: Seq<ActionModel>,
    fetched: Seq<FileModel>,
    f: FileModel,
) -> bool {
    !has_delete(plan, f.path) && tree_lookup(fetched, f.path) is None
}

/// The files of the tree that the plan leaves in place, in tree order.
pub open spec fn kept_files(
    t: Seq<FileModel>,
    plan: Seq<ActionModel>,
    fetched: Seq<FileModel>,
) -> Seq<FileModel>
    decreases t.len(),
{
    if t.len() == 0 {
        Seq::empty()
    } else if file_kept(plan, fetched, t[0]) {
        seq![t[0]] + kept_files(t.drop_first(), plan, fetched)
    } else {
        kept_files(t.drop_first(), plan, fetched)
    }
}

/// Every kept file is a file of the tree, and it satisfies the keep
/// condition.
proof fn lemma_kept_membership(t: Seq<FileModel>, plan: Seq<ActionModel>, fetched: Seq<FileModel>)
    ensures
        forall|k: int|
            0 <= k < kept_files(t, plan, fetched).len() ==> (exists|w: int|
                0 <= w < t.len() && t[w] == #[trigger] kept_files(t, plan, fetched)[k])
                && file_kept(plan, fetched, kept_files(t, plan, fetched)[k]),
    decreases t.len(),
{
    if t.len() > 0 {
        lemma_kept_membership(t.drop_first(), plan, fetched);
        let kf = kept_files(t, plan, fetched);
        let rest = kept_files(t.drop_first(), plan, fetched);
        assert forall|k: int| 0 <= k < kf.len() implies (exists|w: int|
            0 <= w < t.len() && t[w] == #[trigger] kf[k]) && file_kept(plan, fetched, kf[k]) by {
            if file_kept(plan, fetched, t[0]) && k == 0 {
                assert(t[0] == kf[0]);
            } else {
                let k2: int = if file_kept(plan, fetched, t[0]) {
                    k - 1
                } else {
                    k
                };
                assert(kf[k] == rest[k2]);
                let w = choose|w: int|
                    0 <= w < t.drop_first().len() && t.drop_first()[w] == rest[k2];
                assert(t[w + 1] == kf[k]);
            }
        }
    }
}

/// Looking a path up among the kept files: absent when a delete is
/// planned or fetched content supersedes it, the tree's own content
/// otherwise.
proof fn lemma_kept_lookup(
    t: Seq<FileModel>,
    plan: Seq<ActionModel>,
    fetched: Seq<FileModel>,
    p: Seq<char>,
)
    requires
        forall|a: int, b: int|
            0 <= a < b < t.len() ==> (#[trigger] t[a]).path != (#[trigger] t[b]).path,
    ensures
        tree_lookup(kept_files(t, plan, fetched), p) == if !has_delete(plan, p) && tree_lookup(
            fetched,
            p,
        ) is None {
            tree_lookup(t, p)
        } else {
            Option::<Seq<u8>>::None
        },
    decreases t.len(),
{
    if t.len() > 0 {
        assert forall|a: int, b: int|
            0 <= a < b < t.drop_first().len() implies (#[trigger] t.drop_first()[a]).path != (
        #[trigger] t.drop_first()[b]).path by {
            assert(t[a + 1].path != t[b + 1].path);
        }
        lemma_kept_lookup(t.drop_first(), plan, fetched, p);
        let kf = kept_files(t, plan, fetched);
        let rest = kept_files(t.drop_first(), plan, fetched);
        if file_kept(plan, fetched, t[0]) {
            assert(kf[0] == t[0]);
            assert(kf.drop_first() =~= rest);
            if t[0].path == p {
                assert(tree_lookup(kf, p) == Some(t[0].content));
            }
        } else {
            if t[0].path == p {
                // the head is dropped, and no deeper file carries its path
                lemma_kept_membership(t.drop_first(), plan, fetched);
                lemma_tree_lookup_cases(rest, p);
                if tree_lookup(rest, p) is Some {
                    let k = choose|k: int|
                        0 <= k < rest.len() && (#[trigger] rest[k]).path == p;
                    let w = choose|w: int|
                        0 <= w < t.drop_first().len() && t.drop_first()[w] == rest[k];
                    assert(t[w + 1].path != t[0].path);
                    assert(false);
                }
            }
        }
    }
}

/// Applies a plan to the tree model: planned deletes disappear (deleting
/// an absent path is a no-op), fetched content lands at its path, and all
/// other files stay.  This is the effect the I/O layer must have on the
/// real tree; the atomic per-file replacement that makes it safe under
/// concurrent readers is the I/O layer's contract, not modelled here.
pub fn apply_plan(files: &Vec<TreeFile>, plan: &Vec<SyncAction>, fetched: Vec<TreeFile>) -> (r:
    Vec<TreeFile>)
    requires
        tree_wf(files.deep_view()),
        tree_wf(fetched.deep_view()),
    ensures
        tree_wf(r.deep_view()),
        forall|p: Seq<char>|
            #[trigger] tree_lookup(r.deep_view(), p) == apply_expected(
                files.deep_view(),
                plan.deep_view(),
                fetched.deep_view(),
                p,
            ),
{
    let ghost t = files.deep_view();
    let ghost pm = plan.deep_view();
    let ghost fm = fetched.deep_view();
    let n = files.len();
    let mut out: Vec<TreeFile> = Vec::new();
    proof {
        assert(t.skip(0) =~= t);
        assert(out.deep_view() + kept_files(t.skip(0), pm, fm) =~= kept_files(t, pm, fm));
    }
    let mut i: usize = 0;
    while i < n
        invariant
            n == t.len(),
            t == files.deep_view(),
            pm == plan.deep_view(),
            fm == fetched.deep_view(),
            i <= n,
            kept_files(t, pm, fm) == out.deep_view() + kept_files(t.skip(i as int), pm, fm),
        decreases n - i,
    {
        let ghost prev = out.deep_view();
        let f = &files[i];
        let deleted = plan_deletes_path(plan, &f.rel_path);
        let mut superseded = false;
        if !deleted {
            superseded = tree_find(&fetched, &f.rel_path).is_some();
        }
        if !deleted && !superseded {
            out.push(TreeFile { rel_path: f.rel_path.clone(), content: f.content.clone() });
        }
        proof {
            assert(t.skip(i as int)[0] == t[i as int]);
            assert(t.skip(i as int).drop_first() =~= t.skip(i + 1));
            if !deleted && !superseded {
                assert(file_kept(pm, fm, t[i as int]));
                assert(out.deep_view() =~= prev.push(t[i as int]));
                assert(kept_files(t.skip(i as int), pm, fm) =~= seq![t[i as int]] + kept_files(
                    t.skip(i + 1),
                    pm,
                    fm,
                ));
                assert(prev + (seq![t[i as int]] + kept_files(t.skip(i + 1), pm, fm)) =~= (
                prev.push(t[i as int])) + kept_files(t.skip(i + 1), pm, fm));
            } else {
                assert(!file_kept(pm, fm, t[i as int]));
                assert(kept_files(t.skip(i as int), pm, fm) =~= kept_files(t.skip(i + 1), pm, fm));
            }
        }
        i = i + 1;
    }
    proof {
        assert(t.skip(n as int) =~= Seq::<FileModel>::empty());
        assert(kept_files(t.skip(n as int), pm, fm) =~= Seq::<FileModel>::empty());
        assert(out.deep_view() =~= kept_files(t, pm, fm));
    }
    let ghost kept = out.deep_view();
    let n_fetched = fetched.len();
    let mut j: usize = 0;
    while j < n_fetched
        invariant
            n_fetched == fm.len(),
            fm == fetched.deep_view(),
            j <= n_fetched,
            out.deep_view() == kept + fm.subrange(0, j as int),
        decreases n_fetched - j,
    {
        let ghost prev = out.deep_view();
        let g = &fetched[j];
        out.push(TreeFile { rel_path: g.rel_path.clone(), content: g.content.clone() });
        proof {
            assert(out.deep_view() =~= prev.push(fm[j as int]));
            assert(fm.subrange(0, j + 1) =~= fm.subrange(0, j as int).push(fm[j as int]));
            assert((kept + fm.subrange(0, j as int)).push(fm[j as int]) =~= kept + fm.subrange(
                0,
                j + 1,
            ));
        }
        j = j + 1;
    }
    proof {
        assert(fm.subrange(0, n_fetched as int) =~= fm);
        let rm = out.deep_view();
        assert(rm =~= kept + fm);
        lemma_kept_membership(t, pm, fm);
        assert forall|p: Seq<char>| #[trigger] tree_lookup(rm, p) == apply_expected(
            t,
            pm,
            fm,
            p,
        ) by {
            lemma_tree_lookup_concat(kept, fm, p);
            lemma_kept_lookup(t, pm, fm, p);
        }
        assert forall|k: int| 0 <= k < rm.len() implies crate::text::path_wf(
            (#[trigger] rm[k]).path,
        ) by {
            if k < kept.len() {
                let w = choose|w: int| 0 <= w < t.len() && t[w] == kept[k];
                assert(crate::text::path_wf(t[w].path));
            } else {
                assert(rm[k] == fm[k - kept.len()]);
                assert(crate::text::path_wf(fm[k - kept.len()].path));
            }
        }
        assert forall|k1: int, k2: int| 0 <= k1 < k2 < rm.len() implies (
        #[trigger] rm[k1]).path != (#[trigger] rm[k2]).path by {
            if k2 < kept.len() {
                lemma_kept_distinct(t, pm, fm, k1, k2);
            } else if k1 < kept.len() {
                assert(rm[k2] == fm[k2 - kept.len()]);
                assert(file_kept(pm, fm, kept[k1]));
                if kept[k1].path == fm[k2 - kept.len()].path {
                    lemma_tree_lookup_at(fm, k2 - kept.len());
                }
            } else {
                assert(rm[k1] == fm[k1 - kept.len()]);
                assert(rm[k2] == fm[k2 - kept.len()]);
                assert(fm[k1 - kept.len()].path != fm[k2 - kept.len()].path);
            }
        }
    }
    out
}

/// The content of a path in a concatenation of trees: the left tree wins.
proof fn lemma_tree_lookup_concat(a: Seq<FileModel>, b: Seq<FileModel>, p: Seq<char>)
    ensures
        tree_lookup(a + b, p) == if tree_lookup(a, p) is Some {
            tree_lookup(a, p)
        } else {
            tree_lookup(b, p)
        },
    decreases a.len(),
{
    if a.len() == 0 {
        assert(a + b =~= b);
    } else {
        assert((a + b)[0] == a[0]);
        assert((a + b).drop_first() =~= a.drop_first() + b);
        lemma_tree_lookup_concat(a.drop_first(), b, p);
    }
}

/// Kept files at distinct positions have distinct paths when the tree is
/// well-formed.
proof fn lemma_kept_distinct(
    t: Seq<FileModel>,
    plan: Seq<ActionModel>,
    fetched: Seq<FileModel>,
    k1: int,
    k2: int,
)
    requires
        forall|a: int, b: int|
            0 <= a < b < t.len() ==> (#[trigger] t[a]).path != (#[trigger] t[b]).path,
        0 <= k1 < k2 < kept_files(t, plan, fetched).len(),
    ensures
        kept_files(t, plan, fetched)[k1].path != kept_files(t, plan, fetched)[k2].path,
    decreases t.len(),
{
    let kf = kept_files(t, plan, fetched);
    let rest = kept_files(t.drop_first(), plan, fetched);
    assert forall|a: int, b: int|
        0 <= a < b < t.drop_first().len() implies (#[trigger] t.drop_first()[a]).path != (
    #[trigger] t.drop_first()[b]).path by {
        assert(t[a + 1].path != t[b + 1].path);
    }
    if !file_kept(plan, fetched, t[0]) {
        lemma_kept_distinct(t.drop_first(), plan, fetched, k1, k2);
    } else if k1 == 0 {
        lemma_kept_membership(t.drop_first(), plan, fetched);
        assert(kf[k2] == rest[k2 - 1]);
        let w = choose|w: int| 0 <= w < t.drop_first().len() && t.drop_first()[w] == rest[k2 - 1];
        assert(t[0].path != t[w + 1].path);
    } else {
        lemma_kept_distinct(t.drop_first(), plan, fetched, k1 - 1, k2 - 1);
        assert(kf[k1] == rest[k1 - 1] && kf[k2] == rest[k2 - 1]);
    }
}

/// Apply-then-diff convergence: once a plan from the differ is applied to
/// the tree — every planned download fetched content whose digest matches
/// the remote record, every planned delete done — rebuilding the tree's
/// manifest and diffing it against the same remote manifest plans no
/// work: every action is `Unchanged`.
///
/// The remote manifest must not record a path that the exclusion rule
/// skips at the root: such a file would be written but never hashed by a
/// rebuild, so the diff would plan its download forever.
pub proof fn lemma_apply_then_diff_converges(
    t: Seq<FileModel>,
    rm: Seq<EntryModel>,
    excl: Seq<Seq<char>>,
    plan: Seq<ActionModel>,
    fetched: Seq<FileModel>,
    t2: Seq<FileModel>,
)
    requires
        tree_wf(t),
        manifest_wf(rm),
        tree_wf(fetched),
        plan_matches(build_model(t, excl), rm, plan),
        forall|p: Seq<char>|
            #[trigger] tree_lookup(fetched, p) is Some <==> download_planned(plan, p),
        forall|p: Seq<char>|
            #[trigger] tree_lookup(fetched, p) matches Some(c) ==> (lookup(rm, p) matches Some(rd)
                && lower(digest_hex(c)) == lower(rd)),
        forall|p: Seq<char>| #[trigger] lookup(rm, p) is Some ==> !root_excluded(p, excl),
        tree_wf(t2),
        forall|p: Seq<char>|
            #[trigger] tree_lookup(t2, p) == apply_expected(t, plan, fetched, p),
    ensures
        forall|p: Seq<char>|
            #[trigger] in_union(build_model(t2, excl), rm, p) ==> expected_action(
                build_model(t2, excl),
                rm,
                p,
            ) is Unchanged,
{
    let l = build_model(t, excl);
    let l2 = build_model(t2, excl);
    assert forall|p: Seq<char>| #[trigger] in_union(l2, rm, p) implies expected_action(
        l2,
        rm,
        p,
    ) is Unchanged by {
        lemma_build_lookup(t, excl, p);
        lemma_build_lookup(t2, excl, p);
        match lookup(rm, p) {
            Option::Some(rd) => {
                assert(!root_excluded(p, excl));
                assert(in_union(l, rm, p));
                let i = choose|i: int| 0 <= i < plan.len() && action_path(#[trigger] plan[i]) == p;
                assert(plan[i] == expected_action(l, rm, p));
                let downloaded = lookup(l, p) is None || !(lookup(l, p) matches Some(ld)
                    && lower(ld) == lower(rd));
                if downloaded {
                    // the action for this path is an Add or Update, so content was fetched
                    assert(plan[i] is Add || plan[i] is Update);
                    assert(download_planned(plan, p));
                    assert(tree_lookup(fetched, p) is Some);
                    let c = tree_lookup(fetched, p)->Some_0;
                    assert(tree_lookup(t2, p) == Some(c));
                    assert(lookup(l2, p) == Some(digest_hex(c)));
                    assert(lower(digest_hex(c)) == lower(rd));
                } else {
                    // the digests already matched: the path was planned Unchanged,
                    // so neither a download nor a delete touched it
                    let ld = lookup(l, p)->Some_0;
                    assert(plan[i] is Unchanged);
                    if download_planned(plan, p) {
                        let k = choose|k: int|
                            0 <= k < plan.len() && ((#[trigger] plan[k]) is Add
                                || plan[k] is Update) && action_path(plan[k]) == p;
                        assert(action_path(plan[k]) == action_path(plan[i]));
                        assert(k == i);
                        assert(false);
                    }
                    assert(tree_lookup(fetched, p) is None);
                    if has_delete(plan, p) {
                        let k = choose|k: int|
                            0 <= k < plan.len() && (#[trigger] plan[k]) is Delete && action_path(
                                plan[k],
                            ) == p;
                        assert(action_path(plan[k]) == action_path(plan[i]));
                        assert(k == i);
                        assert(false);
                    }
                    assert(tree_lookup(t2, p) == tree_lookup(t, p));
                    assert(tree_lookup(t, p) is Some);
                    let c0 = tree_lookup(t, p)->Some_0;
                    assert(digest_hex(c0) == ld);
                    assert(lookup(l2, p) == Some(ld));
                }
            },
            Option::None => {
                // nothing remote for this path: applying the plan removed it,
                // or the rebuild never sees it
                if tree_lookup(fetched, p) is Some {
                    assert(false);
                }
                if lookup(l2, p) is Some {
                    assert(tree_lookup(t2, p) is Some);
                    assert(!root_excluded(p, excl));
                    assert(!has_delete(plan, p) && tree_lookup(t, p) is Some);
                    assert(lookup(l, p) is Some);
                    assert(in_union(l, rm, p));
                    let i = choose|i: int|
                        0 <= i < plan.len() && action_path(#[trigger] plan[i]) == p;
                    assert(plan[i] == expected_action(l, rm, p));
                    assert(plan[i] is Delete);
                    assert(has_delete(plan, p));
                    assert(false);
                }
            },
        }
    }
}

/// The plan holds a `Delete` action for the path.
pub fn plan_deletes_path(plan: &Vec<SyncAction>, path: &String) -> (r: bool)
    ensures
        r == has_delete(plan.deep_view(), path@),
{
    let ghost pm = plan.deep_view();
    let n = plan.len();
    let mut i: usize = 0;
    while i < n
        invariant
            n == pm.len(),
            pm == plan.deep_view(),
            i <= n,
            forall|j: int|
                0 <= j < i ==> !((#[trigger] pm[j]) is Delete && action_path(pm[j]) == path@),
        decreases n - i,
    {
        match &plan[i] {
            SyncAction::Delete { path: q } => {
                if *q == *path {
                    assert(pm[i as int] is Delete && action_path(pm[i as int]) == path@);
                    return true;
                }
            },
            SyncAction::Add { .. } => {},
            SyncAction::Update { .. } => {},
            SyncAction::Unchanged { .. } => {},
        }
        i = i + 1;
    }
    proof {
        if has_delete(pm, path@) {
            let w = choose|w: int|
                0 <= w < pm.len() && (#[trigger] pm[w]) is Delete && action_path(pm[w]) == path@;
            assert(!(pm[w] is Delete && action_path(pm[w]) == path@));
        }
    }
    false
}

} // verus!
