//! Turning a distribution's published package lists into a group file: one
//! group per fetched list, named after the distribution and the list, its
//! members the list's lines.  Fetching the lists is the caller's business;
//! this module only shapes the texts it got.
use vstd::prelude::*;
use vstd::string::StringExecFns;
use crate::idset::{IdSet, sorted_union};
use crate::lines::split_nl;
use crate::store::{GroupModel, FileModel, PackageGroup, PackageFile, file_model_wf};
use crate::table::{find_key, table_insert, keys_of, lemma_find_key_props,
    lemma_table_insert_props};

verus! {

/// What was detected about the machine: its distribution and desktop.
#[derive(Debug, Clone)]
pub struct SystemConfiguration {
    pub distro: String,
    pub desktop: String,
}

impl SystemConfiguration {
    /// The detected pair as one readable line.
    pub fn describe(&self) -> (r: String)
        ensures
            r@ == self.distro@ + " on "@ + self.desktop@,
    {
        let mut out = self.distro.clone();
        out.append(" on ");
        out.append(self.desktop.as_str());
        out
    }
}

/// The group id a fetched list gets: distribution, a dash, the list's name.
pub open spec fn list_group_id(distro: Seq<char>, name: Seq<char>) -> Seq<char> {
    distro + seq!['-'] + name
}

/// The group a fetched list body becomes: its lines, as a canonical set.
pub open spec fn list_group(body: Seq<char>) -> GroupModel {
    GroupModel {
        members: sorted_union(Seq::<Seq<char>>::empty(), split_nl(body)),
        accept_indirect: false,
    }
}

/// An entry put into a keyed sequence: replacing the value under an
/// existing key, inserting a fresh one in order.
pub open spec fn table_put<T>(s: Seq<(Seq<char>, T)>, k: Seq<char>, v: T) -> Seq<(Seq<char>, T)> {
    match find_key(s, k) {
        Some(i) => s.update(i, (k, v)),
        None => table_insert(s, k, v),
    }
}

/// The group file the fetched lists become, list by list.
pub open spec fn distro_groups_from(acc: FileModel, distro: Seq<char>, lists: Seq<
    (Seq<char>, Seq<char>),
>) -> FileModel
    decreases lists.len(),
{
    if lists.len() == 0 {
        acc
    } else {
        distro_groups_from(
            table_put(acc, list_group_id(distro, lists[0].0), list_group(lists[0].1)),
            distro,
            lists.drop_first(),
        )
    }
}

/// Builds the group file for a distribution from its fetched package lists,
/// each list `(name, body)`; a name fetched twice keeps its later body.
pub fn generate_configuration(distro: &str, lists: &Vec<(String, String)>) -> (r: PackageFile)
    ensures
        r@ == distro_groups_from(Seq::empty(), distro@, lists.deep_view()),
        r.wf(),
{
    let ghost lv = lists.deep_view();
    let mut file = PackageFile::new();
    let mut i: usize = 0;
    let n = lists.len();
    proof {
        assert(lv.skip(0) =~= lv);
        assert(keys_of(file@) =~= Seq::<Seq<char>>::empty());
    }
    while i < n
        invariant
            i <= n,
            n == lv.len(),
            lists.deep_view() == lv,
            n == lists@.len(),
            file.wf(),
            distro_groups_from(Seq::empty(), distro@, lv) == distro_groups_from(
                file@,
                distro@,
                lv.skip(i as int),
            ),
        decreases n - i,
    {
        proof {
            assert(lv.skip(i as int)[0] == lv[i as int]);
            assert(lv.skip(i as int).drop_first() =~= lv.skip(i as int + 1));
            assert(lv[i as int] == (lists@[i as int].0@, lists@[i as int].1@));
        }
        let mut gid = distro.to_owned();
        crate::codec::push_char(&mut gid, '-');
        gid.append(lists[i].0.as_str());
        proof {
            assert(gid@ =~= list_group_id(distro@, lv[i as int].0));
        }
        let lines = crate::lines::split_lines(lists[i].1.as_str());
        let members = IdSet::from_vec(&lines);
        let group = PackageGroup { members, accept_indirect: false };
        let ghost fm = file@;
        let ghost gm = group@;
        proof {
            assert(gm =~= list_group(lv[i as int].1));
        }
        match file.groups.find(gid.as_str()) {
            Some(j) => {
                file.groups.replace_at(j, group);
                proof {
                    lemma_find_key_props(fm, gid@);
                    assert(fm[j as int].0 == gid@);
                    assert(file@ =~= fm.update(j as int, (gid@, gm)));
                    assert(file@ == table_put(fm, gid@, gm));
                    assert(file_model_wf(file@)) by {
                        assert(keys_of(file@) =~= keys_of(fm));
                        assert(forall|k: int|
                            0 <= k < file@.len() && k != j ==> file@[k] == fm[k]);
                    }
                }
            },
            None => {
                file.groups.insert_new(gid, group);
                proof {
                    lemma_table_insert_props(fm, list_group_id(distro@, lv[i as int].0), gm);
                    crate::store::lemma_table_insert_members(
                        fm,
                        list_group_id(distro@, lv[i as int].0),
                        gm,
                    );
                    assert(file_model_wf(file@));
                }
            },
        }
        i = i + 1;
    }
    proof {
        assert(lv.skip(n as int).len() == 0);
    }
    file
}

} // verus!
