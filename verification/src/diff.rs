//! The manifest differ.
//!
//! [`diff`] compares a local manifest against a remote manifest and
//! classifies every relative path of their union into exactly one action.
//! It is a pure function of the two manifests and the correctness anchor
//! of the engine: the plan it returns is pinned down, up to order, by
//! [`plan_matches`].

use vstd::prelude::*;
use crate::manifest::{EntryModel, FileChecksum, find_entry, lemma_lookup_at, lemma_lookup_cases,
    lookup, manifest_wf};
use crate::text::lower;

verus! {

/// What the executor must do for one relative path.
pub enum SyncAction {
    /// The path exists only remotely: fetch it.
    Add { path: String, remote_digest: String },
    /// The path exists on both sides with differing digests: fetch it.
    Update { path: String, remote_digest: String },
    /// The path exists only locally: remove it.
    Delete { path: String },
    /// The path exists on both sides with equal digests: nothing to do.
    Unchanged { path: String },
}

/// The mathematical content of one action.
pub ghost enum ActionModel {
    Add { path: Seq<char>, remote_digest: Seq<char> },
    Update { path: Seq<char>, remote_digest: Seq<char> },
    Delete { path: Seq<char> },
    Unchanged { path: Seq<char> },
}

impl View for SyncAction {
    type V = ActionModel;

    open spec fn view(&self) -> ActionModel {
        match self {
            SyncAction::Add { path, remote_digest } => ActionModel::Add {
                path: path@,
                remote_digest: remote_digest@,
            },
            SyncAction::Update { path, remote_digest } => ActionModel::Update {
                path: path@,
                remote_digest: remote_digest@,
            },
            SyncAction::Delete { path } => ActionModel::Delete { path: path@ },
            SyncAction::Unchanged { path } => ActionModel::Unchanged { path: path@ },
        }
    }
}

impl DeepView for SyncAction {
    type V = ActionModel;

    open spec fn deep_view(&self) -> ActionModel {
        self@
    }
}

/// The relative path an action speaks of.
pub open spec fn action_path(a: ActionModel) -> Seq<char> {
    match a {
        ActionModel::Add { path, .. } => path,
        ActionModel::Update { path, .. } => path,
        ActionModel::Delete { path } => path,
        ActionModel::Unchanged { path } => path,
    }
}

/// The path occurs in at least one of the two manifests.
pub open spec fn in_union(lm: Seq<EntryModel>, rm: Seq<EntryModel>, p: Seq<char>) -> bool {
    lookup(lm, p) is Some || lookup(rm, p) is Some
}

/// The one action the differ owes for a path of the union: present only
/// remotely is an add, present on both sides an update or no-op depending
/// on the digests (compared case-insensitively), present only locally a
/// delete.
pub open spec fn expected_action(
    lm: Seq<EntryModel>,
    rm: Seq<EntryModel>,
    p: Seq<char>,
) -> ActionModel
    recommends
        in_union(lm, rm, p),
{
    match (lookup(lm, p), lookup(rm, p)) {
        (Option::None, Option::Some(rd)) => ActionModel::Add { path: p, remote_digest: rd },
        (Option::Some(ld), Option::Some(rd)) => if lower(ld) == lower(rd) {
            ActionModel::Unchanged { path: p }
        } else {
            ActionModel::Update { path: p, remote_digest: rd }
        },
        (Option::Some(_), Option::None) => ActionModel::Delete { path: p },
        (Option::None, Option::None) => ActionModel::Unchanged { path: p },
    }
}

/// The plan classifies every path of the union of the two manifests into
/// exactly one action, and that action is the expected one.
pub open spec fn plan_matches(
    lm: Seq<EntryModel>,
    rm: Seq<EntryModel>,
    plan: Seq<ActionModel>,
) -> bool {
    &&& (forall|i: int|
        0 <= i < plan.len() ==> in_union(lm, rm, action_path(#[trigger] plan[i])) && plan[i]
            == expected_action(lm, rm, action_path(plan[i])))
    &&& (forall|i: int, j: int|
        0 <= i < j < plan.len() ==> action_path(#[trigger] plan[i]) != action_path(
            #[trigger] plan[j],
        ))
    &&& (forall|p: Seq<char>|
        #[trigger] in_union(lm, rm, p) ==> exists|i: int|
            0 <= i < plan.len() && action_path(#[trigger] plan[i]) == p)
}

/// Compares a local manifest against a remote manifest and returns the
/// action plan: one action for every path of the union.  Paths present in
/// the local manifest come first, in local order; the paths to add
/// follow, so equal inputs always plan alike.
pub fn diff(local: &Vec<FileChecksum>, remote: &Vec<FileChecksum>) -> (plan: Vec<SyncAction>)
    requires
        manifest_wf(local.deep_view()),
        manifest_wf(remote.deep_view()),
    ensures
        plan_matches(local.deep_view(), remote.deep_view(), plan.deep_view()),
        plan.deep_view().len() >= local.deep_view().len(),
        forall|k: int|
            0 <= k < local.deep_view().len() ==> action_path(#[trigger] plan.deep_view()[k])
                == local.deep_view()[k].path,
{
    let ghost lm = local.deep_view();
    let ghost rm = remote.deep_view();
    let mut plan: Vec<SyncAction> = Vec::new();
    let n_local = local.len();
    let mut i: usize = 0;
    while i < n_local
        invariant
            manifest_wf(lm),
            manifest_wf(rm),
            lm == local.deep_view(),
            rm == remote.deep_view(),
            n_local == lm.len(),
            i <= n_local,
            plan.deep_view().len() == i,
            forall|k: int|
                0 <= k < i ==> action_path(#[trigger] plan.deep_view()[k]) == lm[k].path
                    && plan.deep_view()[k] == expected_action(lm, rm, lm[k].path),
        decreases n_local - i,
    {
        let ghost prev = plan.deep_view();
        let e = &local[i];
        proof {
            lemma_lookup_at(lm, i as int);
        }
        match find_entry(remote, &e.file_path) {
            Option::Some(ri) => {
                let r = &remote[ri];
                if crate::text::eq_ignore_case(e.checksum.as_str(), r.checksum.as_str()) {
                    plan.push(SyncAction::Unchanged { path: e.file_path.clone() });
                } else {
                    plan.push(
                        SyncAction::Update {
                            path: e.file_path.clone(),
                            remote_digest: r.checksum.clone(),
                        },
                    );
                }
            },
            Option::None => {
                plan.push(SyncAction::Delete { path: e.file_path.clone() });
            },
        }
        proof {
            assert(plan.deep_view() =~= prev.push(plan.deep_view()[i as int]));
        }
        i = i + 1;
    }
    let n_remote = remote.len();
    let mut j: usize = 0;
    while j < n_remote
        invariant
            manifest_wf(lm),
            manifest_wf(rm),
            lm == local.deep_view(),
            rm == remote.deep_view(),
            n_local == lm.len(),
            n_remote == rm.len(),
            j <= n_remote,
            plan.deep_view().len() >= n_local,
            forall|k: int|
                0 <= k < n_local ==> action_path(#[trigger] plan.deep_view()[k]) == lm[k].path
                    && plan.deep_view()[k] == expected_action(lm, rm, lm[k].path),
            forall|k: int|
                n_local <= k < plan.deep_view().len() ==> lookup(
                    lm,
                    action_path(#[trigger] plan.deep_view()[k]),
                ) is None && plan.deep_view()[k] == expected_action(
                    lm,
                    rm,
                    action_path(plan.deep_view()[k]),
                ) && exists|k2: int| 0 <= k2 < j && action_path(plan.deep_view()[k]) == (
                #[trigger] rm[k2]).path,
            forall|k2: int|
                0 <= k2 < j && lookup(lm, (#[trigger] rm[k2]).path) is None ==> exists|k: int|
                    0 <= k < plan.deep_view().len() && action_path(#[trigger] plan.deep_view()[k])
                        == rm[k2].path,
            forall|k1: int, k2: int|
                0 <= k1 < k2 < plan.deep_view().len() ==> action_path(
                    #[trigger] plan.deep_view()[k1],
                ) != action_path(#[trigger] plan.deep_view()[k2]),
        decreases n_remote - j,
    {
        let ghost prev = plan.deep_view();
        let e = &remote[j];
        proof {
            lemma_lookup_at(rm, j as int);
        }
        match find_entry(local, &e.file_path) {
            Option::Some(_) => {
                proof {
                    assert(lookup(lm, rm[j as int].path) is Some);
                }
            },
            Option::None => {
                plan.push(
                    SyncAction::Add {
                        path: e.file_path.clone(),
                        remote_digest: e.checksum.clone(),
                    },
                );
                proof {
                    let pm = plan.deep_view();
                    let newi = prev.len() as int;
                    assert(pm =~= prev.push(pm[newi]));
                    assert(action_path(pm[newi]) == rm[j as int].path);
                    assert(lookup(lm, rm[j as int].path) is None);
                    lemma_lookup_cases(lm, rm[j as int].path);
                    assert forall|k: int| 0 <= k < newi implies action_path(#[trigger] pm[k])
                        != action_path(pm[newi]) by {
                        if k < n_local {
                            assert(action_path(pm[k]) == lm[k].path);
                        } else {
                            let k2 = choose|k2: int|
                                0 <= k2 < j && action_path(prev[k]) == (#[trigger] rm[k2]).path;
                            assert(rm[k2].path != rm[j as int].path);
                        }
                    }
                    assert forall|k2: int|
                        0 <= k2 < j + 1 && lookup(lm, (#[trigger] rm[k2]).path) is None implies
                    exists|k: int|
                        0 <= k < pm.len() && action_path(#[trigger] pm[k]) == rm[k2].path by {
                        if k2 < j {
                            let k = choose|k: int|
                                0 <= k < prev.len() && action_path(#[trigger] prev[k])
                                    == rm[k2].path;
                            assert(action_path(pm[k]) == rm[k2].path);
                        } else {
                            assert(action_path(pm[newi]) == rm[k2].path);
                        }
                    }
                }
            },
        }
        j = j + 1;
    }
    proof {
        let pm = plan.deep_view();
        assert forall|k: int| 0 <= k < pm.len() implies in_union(
            lm,
            rm,
            action_path(#[trigger] pm[k]),
        ) && pm[k] == expected_action(lm, rm, action_path(pm[k])) by {
            if k < n_local {
                lemma_lookup_at(lm, k);
                assert(action_path(pm[k]) == lm[k].path);
            } else {
                let k2 = choose|k2: int|
                    0 <= k2 < n_remote && action_path(pm[k]) == (#[trigger] rm[k2]).path;
                lemma_lookup_at(rm, k2);
            }
        }
        assert forall|p: Seq<char>| #[trigger] in_union(lm, rm, p) implies exists|k: int|
            0 <= k < pm.len() && action_path(#[trigger] pm[k]) == p by {
            if lookup(lm, p) is Some {
                lemma_lookup_cases(lm, p);
                let w = choose|w: int| 0 <= w < lm.len() && (#[trigger] lm[w]).path == p;
                assert(action_path(pm[w]) == p);
            } else {
                lemma_lookup_cases(rm, p);
                let w = choose|w: int| 0 <= w < rm.len() && (#[trigger] rm[w]).path == p;
                assert(lookup(lm, rm[w].path) is None);
            }
        }
    }
    plan
}

/// Diffing a manifest against itself plans no work: every action of such a
/// plan is `Unchanged`, and every path of the manifest gets one.
pub proof fn lemma_diff_idempotent(m: Seq<EntryModel>, plan: Seq<ActionModel>)
    requires
        plan_matches(m, m, plan),
    ensures
        forall|i: int| 0 <= i < plan.len() ==> (#[trigger] plan[i]) is Unchanged,
        forall|p: Seq<char>|
            lookup(m, p) is Some ==> exists|i: int|
                0 <= i < plan.len() && action_path(#[trigger] plan[i]) == p,
{
    assert forall|i: int| 0 <= i < plan.len() implies (#[trigger] plan[i]) is Unchanged by {
        let p = action_path(plan[i]);
        assert(plan[i] == expected_action(m, m, p));
    }
    assert forall|p: Seq<char>| lookup(m, p) is Some implies exists|i: int|
        0 <= i < plan.len() && action_path(#[trigger] plan[i]) == p by {
        assert(in_union(m, m, p));
    }
}

/// Every path of the union of the two manifests appears in exactly one
/// action of a plan the differ returned.
pub proof fn lemma_diff_complete(
    lm: Seq<EntryModel>,
    rm: Seq<EntryModel>,
    plan: Seq<ActionModel>,
    p: Seq<char>,
)
    requires
        plan_matches(lm, rm, plan),
        in_union(lm, rm, p),
    ensures
        exists|i: int| 0 <= i < plan.len() && action_path(#[trigger] plan[i]) == p,
        forall|i: int, j: int|
            0 <= i < plan.len() && 0 <= j < plan.len() && action_path(#[trigger] plan[i]) == p
                && action_path(#[trigger] plan[j]) == p ==> i == j,
{
}

} // verus!
