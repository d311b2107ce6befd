//! The reconciliation engine: the set algebra that turns a declared package
//! set and the live explicitly-installed set into the actions that make the
//! machine match its declaration.
use vstd::prelude::*;
use crate::idset::{IdSet, sorted_diff};
use crate::store::{PackageGroup, GroupModel, group_pairs_view};

verus! {

/// The packages that must be installed to converge: desired but not
/// installed, in canonical order.
pub fn missing_packages(desired: &IdSet, installed: &IdSet) -> (r: IdSet)
    requires
        desired.wf(),
    ensures
        r.wf(),
        r@ == sorted_diff(desired@, installed@.to_set()),
        r@.to_set() == desired@.to_set().difference(installed@.to_set()),
{
    desired.diff(installed)
}

/// The explicitly installed packages no declared group accounts for:
/// candidates for removal, in canonical order.
pub fn untracked_packages(installed: &IdSet, desired: &IdSet) -> (r: IdSet)
    requires
        installed.wf(),
    ensures
        r.wf(),
        r@ == sorted_diff(installed@, desired@.to_set()),
        r@.to_set() == installed@.to_set().difference(desired@.to_set()),
{
    installed.diff(desired)
}

/// What the plan report shows per group: the same groups, each stripped to
/// the members not yet installed.
pub fn plan_missing_by_group(groups: &Vec<(String, PackageGroup)>, installed: &IdSet) -> (r: Vec<
    (String, PackageGroup),
>)
    requires
        forall|i: int| 0 <= i < groups@.len() ==> (#[trigger] groups@[i]).1.wf(),
    ensures
        r@.len() == groups@.len(),
        forall|i: int| 0 <= i < r@.len() ==> (#[trigger] group_pairs_view(r@)[i]).0
            == group_pairs_view(groups@)[i].0,
        forall|i: int| 0 <= i < r@.len() ==> (#[trigger] group_pairs_view(r@)[i]).1.members
            == sorted_diff(group_pairs_view(groups@)[i].1.members, installed@.to_set()),
        forall|i: int| 0 <= i < r@.len() ==> (#[trigger] group_pairs_view(r@)[i]).1.accept_indirect
            == group_pairs_view(groups@)[i].1.accept_indirect,
{
    let mut r: Vec<(String, PackageGroup)> = Vec::new();
    let mut i: usize = 0;
    let n = groups.len();
    while i < n
        invariant
            i <= n,
            n == groups@.len(),
            r@.len() == i,
            forall|k: int| 0 <= k < i ==> (#[trigger] groups@[k]).1.wf(),
            forall|k: int| i <= k < n ==> (#[trigger] groups@[k]).1.wf(),
            forall|k: int| 0 <= k < i ==> (#[trigger] r@[k]).0@ == groups@[k].0@,
            forall|k: int| 0 <= k < i ==> (#[trigger] r@[k]).1@.members == sorted_diff(
                groups@[k].1@.members,
                installed@.to_set(),
            ),
            forall|k: int| 0 <= k < i ==> (#[trigger] r@[k]).1@.accept_indirect
                == groups@[k].1@.accept_indirect,
        decreases n - i,
    {
        let name = groups[i].0.clone();
        let not_installed = groups[i].1.members.diff(installed);
        let g = PackageGroup { members: not_installed, accept_indirect: groups[i].1.accept_indirect };
        r.push((name, g));
        i = i + 1;
    }
    r
}

/// The safe-to-remove entries of a required-by report: the queried packages
/// on which nothing installed depends, in report order.
pub open spec fn safe_list(pairs: Seq<(Seq<char>, Seq<Seq<char>>)>) -> Seq<Seq<char>>
    decreases pairs.len(),
{
    if pairs.len() == 0 {
        Seq::empty()
    } else if pairs[0].1.len() == 0 {
        seq![pairs[0].0] + safe_list(pairs.drop_first())
    } else {
        safe_list(pairs.drop_first())
    }
}

/// The packages the plan may offer for removal: exactly those whose
/// required-by list came back empty.
pub fn safe_to_remove(required_by: &Vec<(String, Vec<String>)>) -> (r: Vec<String>)
    ensures
        r.deep_view() == safe_list(required_by.deep_view()),
{
    let ghost pv = required_by.deep_view();
    let mut r: Vec<String> = Vec::new();
    let mut i: usize = 0;
    let n = required_by.len();
    proof {
        assert(pv.skip(0) =~= pv);
        assert(r.deep_view() + safe_list(pv) =~= safe_list(pv));
    }
    while i < n
        invariant
            i <= n,
            n == pv.len(),
            required_by.deep_view() == pv,
            n == required_by@.len(),
            r.deep_view() + safe_list(pv.skip(i as int)) == safe_list(pv),
        decreases n - i,
    {
        proof {
            assert(pv.skip(i as int)[0] == pv[i as int]);
            assert(pv.skip(i as int).drop_first() =~= pv.skip(i as int + 1));
            assert(pv[i as int] == (required_by@[i as int].0@, required_by@[i as int].1.deep_view()));
        }
        let ghost before = r.deep_view();
        if required_by[i].1.len() == 0 {
            proof {
                assert(pv[i as int].1.len() == 0);
            }
            r.push(required_by[i].0.clone());
            proof {
                assert(r.deep_view() =~= before.push(pv[i as int].0));
                assert(before.push(pv[i as int].0) + safe_list(pv.skip(i as int + 1)) =~= before + (
                seq![pv[i as int].0] + safe_list(pv.skip(i as int + 1))));
            }
        } else {
            proof {
                assert(pv[i as int].1.len() != 0);
            }
        }
        i = i + 1;
    }
    proof {
        assert(pv.skip(n as int).len() == 0);
        assert(r.deep_view() + safe_list(pv.skip(n as int)) =~= r.deep_view());
    }
    r
}

} // verus!
