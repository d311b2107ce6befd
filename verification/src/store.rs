//! The package-group configuration store: every tracked package file with
//! the groups it defines.  All operations are pure state changes with exact
//! contracts; after a mutating call returns `Ok`, the caller persists the
//! owning file (`group_file` names it, the codec serializes it).
use vstd::prelude::*;
use crate::error::Error;
use crate::idset::{IdSet, sorted_insert, sorted_union, sorted_remove, lemma_sorted_union_props,
    lemma_sorted_remove_props};
use crate::order::strictly_sorted;
use crate::table::{Table, find_key, table_insert, keys_of, sorted_keys, lemma_find_key_props,
    lemma_table_insert_props};
use crate::{GroupId, PackageId};

verus! {

/// The mathematical content of one package group.
#[verifier::ext_equal]
pub struct GroupModel {
    pub members: Seq<Seq<char>>,
    pub accept_indirect: bool,
}

/// The mathematical content of one package file: its groups, keyed by group
/// id, in ascending key order.
pub type FileModel = Seq<(Seq<char>, GroupModel)>;

/// The mathematical content of the whole store: the tracked files, keyed by
/// absolute path, in ascending key order.
pub type StoreModel = Seq<(Seq<char>, FileModel)>;

/// A named set of packages, the unit the user declares.
#[derive(Debug)]
pub struct PackageGroup {
    pub members: IdSet,
    /// Reserved flag: whether packages pulled in indirectly count as covered
    /// by this group.  Nothing reads it yet; it travels through the codec.
    pub accept_indirect: bool,
}

impl View for PackageGroup {
    type V = GroupModel;

    open spec fn view(&self) -> GroupModel {
        GroupModel { members: self.members@, accept_indirect: self.accept_indirect }
    }
}

impl Clone for PackageGroup {
    /// Cloning keeps members and flag.
    fn clone(&self) -> (r: Self)
        ensures
            r@ == self@,
    {
        PackageGroup { members: self.members.clone(), accept_indirect: self.accept_indirect }
    }
}

impl PackageGroup {
    /// Members in canonical order.
    pub open spec fn wf(&self) -> bool {
        self.members.wf()
    }

    /// The empty group.
    pub fn new() -> (r: Self)
        ensures
            r@ == (GroupModel { members: Seq::<Seq<char>>::empty(), accept_indirect: false }),
            r.wf(),
    {
        PackageGroup { members: IdSet::new(), accept_indirect: false }
    }

    /// A group with the given members.
    pub fn from_members(members: IdSet) -> (r: Self)
        ensures
            r@ == (GroupModel { members: members@, accept_indirect: false }),
            members.wf() ==> r.wf(),
    {
        PackageGroup { members, accept_indirect: false }
    }
}

/// One package file's contents: a map from group id to group.
#[derive(Debug)]
pub struct PackageFile {
    pub groups: Table<PackageGroup>,
}

impl View for PackageFile {
    type V = FileModel;

    open spec fn view(&self) -> FileModel {
        self.groups@
    }
}

/// Group ids ascending and every group's members in canonical order.
pub open spec fn file_model_wf(f: FileModel) -> bool {
    sorted_keys(f) && forall|j: int| 0 <= j < f.len() ==> strictly_sorted(
        (#[trigger] f[j]).1.members,
    )
}

impl PackageFile {
    pub open spec fn wf(&self) -> bool {
        file_model_wf(self@)
    }

    /// A file defining no groups.
    pub fn new() -> (r: Self)
        ensures
            r@ == Seq::<(Seq<char>, GroupModel)>::empty(),
            r.wf(),
    {
        let r = PackageFile { groups: Table::new() };
        proof {
            assert(keys_of(r@) =~= Seq::<Seq<char>>::empty());
        }
        r
    }

    /// A file defining the given groups.
    pub fn from_groups(groups: Table<PackageGroup>) -> (r: Self)
        ensures
            r@ == groups@,
    {
        PackageFile { groups }
    }
}

/// Every tracked file's path ascending and every file well-formed.
pub open spec fn store_wf(s: StoreModel) -> bool {
    sorted_keys(s) && forall|i: int| 0 <= i < s.len() ==> file_model_wf((#[trigger] s[i]).1)
}

/// The first file (in path order) that defines `gid`, and the position of
/// `gid` in it.  Loading refuses a group id defined twice, so a loaded
/// store has at most one; in a store assembled by hand the scan order
/// decides, the first file winning.
pub open spec fn find_group(s: StoreModel, gid: Seq<char>) -> Option<(int, int)>
    decreases s.len(),
{
    if s.len() == 0 {
        None
    } else {
        match find_key(s[0].1, gid) {
            Some(j) => Some((0, j)),
            None => match find_group(s.drop_first(), gid) {
                Some(ij) => Some((ij.0 + 1, ij.1)),
                None => None,
            },
        }
    }
}

/// What `find_group` finds: positions in range naming an entry whose key is
/// `gid`; `None` exactly when no file defines `gid`.
pub proof fn lemma_find_group_props(s: StoreModel, gid: Seq<char>)
    ensures
        match find_group(s, gid) {
            Some(ij) => 0 <= ij.0 < s.len() && 0 <= ij.1 < s[ij.0].1.len() && s[ij.0].1[ij.1].0
                == gid && find_key(s[ij.0].1, gid) == Some(ij.1),
            None => forall|i: int| 0 <= i < s.len() ==> find_key((#[trigger] s[i]).1, gid) is None,
        },
    decreases s.len(),
{
    if s.len() == 0 {
    } else {
        lemma_find_key_props(s[0].1, gid);
        match find_key(s[0].1, gid) {
            Some(j) => {},
            None => {
                let t = s.drop_first();
                lemma_find_group_props(t, gid);
                match find_group(t, gid) {
                    Some(ij) => {
                        assert(s[ij.0 + 1] == t[ij.0]);
                    },
                    None => {
                        assert forall|i: int| 0 <= i < s.len() implies find_key(
                            (#[trigger] s[i]).1,
                            gid,
                        ) is None by {
                            if i > 0 {
                                assert(t[i - 1] == s[i]);
                            }
                        }
                    },
                }
            },
        }
    }
}

/// The scan that `locate_group` runs agrees with `find_group`: if no file
/// before `pos` defines `gid`, the search continues exactly at `pos`.
pub proof fn lemma_find_group_at(s: StoreModel, gid: Seq<char>, pos: int)
    requires
        0 <= pos <= s.len(),
        forall|k: int| 0 <= k < pos ==> find_key((#[trigger] s[k]).1, gid) is None,
        pos < s.len() ==> find_key(s[pos].1, gid) is Some,
    ensures
        pos == s.len() ==> find_group(s, gid) is None,
        pos < s.len() ==> match find_key(s[pos].1, gid) {
            Some(j) => find_group(s, gid) == Some((pos, j)),
            None => false,
        },
    decreases pos,
{
    if pos == 0 {
    } else {
        let t = s.drop_first();
        assert(forall|k: int| 0 <= k < pos - 1 ==> find_key((#[trigger] t[k]).1, gid) is None) by {
            assert(forall|k: int| 0 <= k < pos - 1 ==> t[k] == s[k + 1]);
        }
        assert(pos - 1 < t.len() ==> find_key(t[pos - 1].1, gid) is Some) by {
            assert(pos - 1 < t.len() ==> t[pos - 1] == s[pos]);
        }
        lemma_find_group_at(t, gid, pos - 1);
        assert(find_key(s[0].1, gid) is None);
    }
}

/// The store after `add_packages`: the members of the first group named
/// `gid` grow by `pkgs`; everything else stays.  Without such a group the
/// store stays whole.
pub open spec fn store_add_packages(s: StoreModel, gid: Seq<char>, pkgs: Seq<Seq<char>>) -> StoreModel {
    match find_group(s, gid) {
        Some(ij) => {
            let f = s[ij.0].1;
            let g = f[ij.1].1;
            let g2 = GroupModel {
                members: sorted_union(g.members, pkgs),
                accept_indirect: g.accept_indirect,
            };
            s.update(ij.0, (s[ij.0].0, f.update(ij.1, (f[ij.1].0, g2))))
        },
        None => s,
    }
}

/// The store after `remove_package`: the members of the first group named
/// `gid` lose `pid`; everything else stays.
pub open spec fn store_remove_package(s: StoreModel, pid: Seq<char>, gid: Seq<char>) -> StoreModel {
    match find_group(s, gid) {
        Some(ij) => {
            let f = s[ij.0].1;
            let g = f[ij.1].1;
            let g2 = GroupModel {
                members: sorted_remove(g.members, pid),
                accept_indirect: g.accept_indirect,
            };
            s.update(ij.0, (s[ij.0].0, f.update(ij.1, (f[ij.1].0, g2))))
        },
        None => s,
    }
}

/// The parsed form of the entire package configuration of a system: every
/// tracked file, indexed by its absolute path.
#[derive(Debug)]
pub struct PackageConfiguration {
    pub files: Table<PackageFile>,
}

impl View for PackageConfiguration {
    type V = StoreModel;

    open spec fn view(&self) -> StoreModel {
        self.files@
    }
}

impl PackageConfiguration {
    pub open spec fn wf(&self) -> bool {
        store_wf(self@)
    }

    /// A store tracking no files.
    pub fn new() -> (r: Self)
        ensures
            r@ == Seq::<(Seq<char>, FileModel)>::empty(),
            r.wf(),
    {
        let r = PackageConfiguration { files: Table::new() };
        proof {
            assert(keys_of(r@) =~= Seq::<Seq<char>>::empty());
        }
        r
    }

    /// Finds the first file defining `gid` and the group's place in it.
    pub fn locate_group(&self, gid: &str) -> (r: Option<(usize, usize)>)
        ensures
            match r {
                Some(ij) => find_group(self@, gid@) == Some((ij.0 as int, ij.1 as int)) && ij.0
                    < self@.len() && ij.1 < self@[ij.0 as int].1.len() && self@[ij.0 as int].1[ij.1 as int].0
                    == gid@,
                None => find_group(self@, gid@) is None,
            },
    {
        let mut i: usize = 0;
        let flen = self.files.len();
        while i < flen
            invariant
                i <= flen,
                flen == self@.len(),
                forall|k: int| 0 <= k < i ==> find_key((#[trigger] self@[k]).1, gid@) is None,
            decreases flen - i,
        {
            match self.files.val_at(i).groups.find(gid) {
                Some(j) => {
                    proof {
                        lemma_find_group_at(self@, gid@, i as int);
                    }
                    return Some((i, j));
                },
                None => {},
            }
            i = i + 1;
        }
        proof {
            lemma_find_group_at(self@, gid@, flen as int);
        }
        None
    }

    /// The path of the file that owns the first group named `gid`: the file
    /// the caller must persist after mutating that group.
    pub fn group_file(&self, gid: &str) -> (r: Option<&String>)
        ensures
            match r {
                Some(p) => find_group(self@, gid@) is Some && p@ == self@[find_group(
                    self@,
                    gid@,
                ).unwrap().0].0,
                None => find_group(self@, gid@) is None,
            },
    {
        match self.locate_group(gid) {
            Some((i, _j)) => Some(self.files.key_at(i)),
            None => None,
        }
    }

    /// Starts tracking a file.  If no contents are passed, the file starts
    /// empty.  Fails when the path is already tracked; the store is then
    /// left as it was.  The caller persists the new file.
    pub fn create_file(&mut self, file_path_abs: &str, opt_contents: Option<Table<PackageGroup>>) -> (r:
        Result<(), Error>)
        requires
            old(self).wf(),
            match opt_contents {
                Some(t) => file_model_wf(t@),
                None => true,
            },
        ensures
            final(self).wf(),
            match find_key(old(self)@, file_path_abs@) {
                Some(_) => r matches Err(Error::PackageFileAlreadyExists { package_file })
                    && package_file@ == file_path_abs@ && final(self)@ == old(self)@,
                None => r is Ok && final(self)@ == table_insert(
                    old(self)@,
                    file_path_abs@,
                    match opt_contents {
                        Some(t) => t@,
                        None => Seq::<(Seq<char>, GroupModel)>::empty(),
                    },
                ),
            },
    {
        let ghost orig = self@;
        match self.files.find(file_path_abs) {
            Some(_) => Err(
                Error::PackageFileAlreadyExists { package_file: file_path_abs.to_owned() },
            ),
            None => {
                let package_file = match opt_contents {
                    Some(groups) => PackageFile::from_groups(groups),
                    None => PackageFile::new(),
                };
                let ghost fm = package_file@;
                self.files.insert_new(file_path_abs.to_owned(), package_file);
                proof {
                    lemma_table_insert_props(orig, file_path_abs@, fm);
                    assert(store_wf(self@)) by {
                        assert(self@ == table_insert(orig, file_path_abs@, fm));
                        lemma_table_insert_members(orig, file_path_abs@, fm);
                        assert(file_model_wf(fm)) by {
                            if opt_contents is None {
                                assert(keys_of(fm) =~= Seq::<Seq<char>>::empty());
                            }
                        }
                    }
                }
                Ok(())
            },
        }
    }

    /// Creates an empty group named `group_id` in the file at `file_path`.
    /// Fails when the path is untracked or the file already defines the
    /// group; the store is then left as it was.  The caller persists the
    /// changed file.
    pub fn create_group(&mut self, group_id: GroupId, file_path: &str) -> (r: Result<(), Error>)
        requires
            old(self).wf(),
        ensures
            final(self).wf(),
            match find_key(old(self)@, file_path@) {
                None => r matches Err(Error::PackageFileNotFound { package_file })
                    && package_file@ == file_path@ && final(self)@ == old(self)@,
                Some(i) => match find_key(old(self)@[i].1, group_id@) {
                    Some(_) => r matches Err(Error::GroupAlreadyExists { group }) && group@
                        == group_id@ && final(self)@ == old(self)@,
                    None => r is Ok && final(self)@ == old(self)@.update(
                        i,
                        (
                            old(self)@[i].0,
                            table_insert(
                                old(self)@[i].1,
                                group_id@,
                                GroupModel {
                                    members: Seq::<Seq<char>>::empty(),
                                    accept_indirect: false,
                                },
                            ),
                        ),
                    ),
                },
            },
    {
        let ghost orig = self@;
        let found = self.files.find(file_path);
        match found {
            None => Err(Error::PackageFileNotFound { package_file: file_path.to_owned() }),
            Some(i) => {
                let mut file = self.files.replace_at(i, PackageFile::new());
                let ghost fm = file@;
                match file.groups.find(group_id.as_str()) {
                    Some(_) => {
                        self.files.replace_at(i, file);
                        proof {
                            assert(self@ =~= orig);
                        }
                        Err(Error::GroupAlreadyExists { group: group_id })
                    },
                    None => {
                        let ghost gid = group_id@;
                        file.groups.insert_new(group_id, PackageGroup::new());
                        self.files.replace_at(i, file);
                        proof {
                            let fm2 = table_insert(
                                fm,
                                gid,
                                GroupModel {
                                    members: Seq::<Seq<char>>::empty(),
                                    accept_indirect: false,
                                },
                            );
                            assert(self@ =~= orig.update(i as int, (orig[i as int].0, fm2)));
                            assert(store_wf(self@)) by {
                                assert(keys_of(self@) =~= keys_of(orig));
                                assert(file_model_wf(fm));
                                lemma_table_insert_props(fm, gid, GroupModel {
                                    members: Seq::<Seq<char>>::empty(),
                                    accept_indirect: false,
                                });
                                lemma_table_insert_members(fm, gid, GroupModel {
                                    members: Seq::<Seq<char>>::empty(),
                                    accept_indirect: false,
                                });
                                assert(forall|k: int|
                                    0 <= k < self@.len() && k != i ==> self@[k] == orig[k]);
                            }
                        }
                        Ok(())
                    },
                }
            },
        }
    }

    /// Unions `packages` into the members of the first group named
    /// `group_id`.  Fails when no file defines the group; the store is then
    /// left as it was.  The caller persists the owning file (`group_file`).
    pub fn add_packages(&mut self, packages: &IdSet, group_id: &GroupId) -> (r: Result<(), Error>)
        requires
            old(self).wf(),
        ensures
            final(self).wf(),
            final(self)@ == store_add_packages(old(self)@, group_id@, packages@),
            match find_group(old(self)@, group_id@) {
                Some(_) => r is Ok,
                None => r matches Err(Error::GroupNotFound { group }) && group@ == group_id@
                    && final(self)@ == old(self)@,
            },
    {
        let ghost orig = self@;
        match self.locate_group(group_id.as_str()) {
            None => Err(Error::GroupNotFound { group: group_id.clone() }),
            Some((i, j)) => {
                let mut file = self.files.replace_at(i, PackageFile::new());
                let ghost fm = file@;
                let mut group = file.groups.replace_at(j, PackageGroup::new());
                let ghost gm = group@;
                proof {
                    assert(fm == orig[i as int].1);
                    assert(gm == fm[j as int].1);
                    assert(strictly_sorted(gm.members));
                }
                group.members.union_with(packages);
                proof {
                    lemma_sorted_union_props(gm.members, packages@);
                }
                let _empty_group = file.groups.replace_at(j, group);
                let _empty_file = self.files.replace_at(i, file);
                proof {
                    let g2 = GroupModel {
                        members: sorted_union(gm.members, packages@),
                        accept_indirect: gm.accept_indirect,
                    };
                    let fm2 = fm.update(j as int, (fm[j as int].0, g2));
                    assert(file@ =~= fm2);
                    assert(self@ =~= orig.update(i as int, (orig[i as int].0, fm2)));
                    assert(self@ == store_add_packages(orig, group_id@, packages@));
                    assert(store_wf(self@)) by {
                        assert(keys_of(self@) =~= keys_of(orig));
                        assert(keys_of(fm2) =~= keys_of(fm));
                        assert(forall|k: int|
                            0 <= k < self@.len() && k != i ==> self@[k] == orig[k]);
                        assert(forall|k: int|
                            0 <= k < fm2.len() && k != j ==> fm2[k] == fm[k]);
                    }
                }
                Ok(())
            },
        }
    }

    /// Removes `package_id` from the members of the first group named
    /// `group_id`.  Fails with `GroupNotFound` when no file defines the
    /// group, with `PackageNotFound` when the group lacks the package; the
    /// store is then left as it was.  The caller persists the owning file.
    pub fn remove_package(&mut self, package_id: &PackageId, group_id: &GroupId) -> (r: Result<
        (),
        Error,
    >)
        requires
            old(self).wf(),
        ensures
            final(self).wf(),
            final(self)@ == store_remove_package(old(self)@, package_id@, group_id@),
            match find_group(old(self)@, group_id@) {
                None => r matches Err(Error::GroupNotFound { group }) && group@ == group_id@
                    && final(self)@ == old(self)@,
                Some(ij) => {
                    if old(self)@[ij.0].1[ij.1].1.members.contains(package_id@) {
                        r is Ok
                    } else {
                        r matches Err(Error::PackageNotFound { package }) && package@
                            == package_id@ && final(self)@ == old(self)@
                    }
                },
            },
    {
        let ghost orig = self@;
        match self.locate_group(group_id.as_str()) {
            None => Err(Error::GroupNotFound { group: group_id.clone() }),
            Some((i, j)) => {
                let mut file = self.files.replace_at(i, PackageFile::new());
                let ghost fm = file@;
                let mut group = file.groups.replace_at(j, PackageGroup::new());
                let ghost gm = group@;
                proof {
                    assert(fm == orig[i as int].1);
                    assert(gm == fm[j as int].1);
                    assert(strictly_sorted(gm.members));
                }
                let removed = group.members.remove(package_id.as_str());
                proof {
                    lemma_sorted_remove_props(gm.members, package_id@);
                }
                let _empty_group = file.groups.replace_at(j, group);
                let _empty_file = self.files.replace_at(i, file);
                proof {
                    let g2 = GroupModel {
                        members: sorted_remove(gm.members, package_id@),
                        accept_indirect: gm.accept_indirect,
                    };
                    let fm2 = fm.update(j as int, (fm[j as int].0, g2));
                    assert(file@ =~= fm2);
                    assert(self@ =~= orig.update(i as int, (orig[i as int].0, fm2)));
                    assert(self@ == store_remove_package(orig, package_id@, group_id@));
                    assert(store_wf(self@)) by {
                        assert(keys_of(self@) =~= keys_of(orig));
                        assert(keys_of(fm2) =~= keys_of(fm));
                        assert(forall|k: int|
                            0 <= k < self@.len() && k != i ==> self@[k] == orig[k]);
                        assert(forall|k: int|
                            0 <= k < fm2.len() && k != j ==> fm2[k] == fm[k]);
                    }
                    if !gm.members.contains(package_id@) {
                        assert(self@ =~= orig) by {
                            assert(g2.members == gm.members);
                            assert(g2 =~= gm);
                            assert(fm2 =~= fm);
                            assert(orig.update(i as int, (orig[i as int].0, fm)) =~= orig);
                        }
                    }
                }
                if removed {
                    Ok(())
                } else {
                    Err(Error::PackageNotFound { package: package_id.clone() })
                }
            },
        }
    }
}

/// A fresh entry's insertion touches no other entry: everything in the
/// result is the new entry or one of the old ones.
pub proof fn lemma_table_insert_members<T>(s: Seq<(Seq<char>, T)>, k: Seq<char>, v: T)
    ensures
        forall|m: int| 0 <= m < table_insert(s, k, v).len() ==> (#[trigger] table_insert(
            s,
            k,
            v,
        )[m] == (k, v) || s.contains(table_insert(s, k, v)[m])),
    decreases s.len(),
{
    let r = table_insert(s, k, v);
    if s.len() == 0 {
    } else if crate::order::lex_lt(s[0].0, k) {
        let t = s.drop_first();
        lemma_table_insert_members(t, k, v);
        let rt = table_insert(t, k, v);
        assert(r =~= seq![s[0]] + rt);
        assert forall|m: int| 0 <= m < r.len() implies (#[trigger] r[m] == (k, v) || s.contains(
            r[m],
        )) by {
            if m == 0 {
                assert(s[0] == r[0]);
                assert(s.contains(r[0]));
            } else {
                assert(r[m] == rt[m - 1]);
                if rt[m - 1] == (k, v) {
                } else {
                    assert(t.contains(rt[m - 1]));
                    let x = choose|x: int| 0 <= x < t.len() && t[x] == rt[m - 1];
                    assert(s[x + 1] == t[x]);
                    assert(s.contains(r[m]));
                }
            }
        }
    } else {
        assert(r =~= seq![(k, v)] + s);
        assert forall|m: int| 0 <= m < r.len() implies (#[trigger] r[m] == (k, v) || s.contains(
            r[m],
        )) by {
            if m > 0 {
                assert(r[m] == s[m - 1]);
                assert(s.contains(r[m]));
            }
        }
    }
}

/// The members of the groups of one file whose ids lie in `gset`.
pub open spec fn file_packages_in(f: FileModel, gset: Set<Seq<char>>) -> Set<Seq<char>>
    decreases f.len(),
{
    if f.len() == 0 {
        Set::empty()
    } else {
        (if gset.contains(f[0].0) {
            f[0].1.members.to_set()
        } else {
            Set::empty()
        }).union(file_packages_in(f.drop_first(), gset))
    }
}

/// The members of all groups across the store whose ids lie in `gset`: the
/// desired-package set of a target whose root groups are `gset`.
pub open spec fn store_packages_in(s: StoreModel, gset: Set<Seq<char>>) -> Set<Seq<char>>
    decreases s.len(),
{
    if s.len() == 0 {
        Set::empty()
    } else {
        file_packages_in(s[0].1, gset).union(store_packages_in(s.drop_first(), gset))
    }
}

/// Every group id defined anywhere in the store.
pub open spec fn all_group_ids(s: StoreModel) -> Set<Seq<char>>
    decreases s.len(),
{
    if s.len() == 0 {
        Set::empty()
    } else {
        keys_of(s[0].1).to_set().union(all_group_ids(s.drop_first()))
    }
}

/// Every member of one file, whatever its group.
pub open spec fn file_all_packages(f: FileModel) -> Set<Seq<char>>
    decreases f.len(),
{
    if f.len() == 0 {
        Set::empty()
    } else {
        f[0].1.members.to_set().union(file_all_packages(f.drop_first()))
    }
}

/// Every member of every group in the store.
pub open spec fn all_packages(s: StoreModel) -> Set<Seq<char>>
    decreases s.len(),
{
    if s.len() == 0 {
        Set::empty()
    } else {
        file_all_packages(s[0].1).union(all_packages(s.drop_first()))
    }
}

/// One file's groups whose ids lie in `gset`, in the file's order.
pub open spec fn file_groups_in(f: FileModel, gset: Set<Seq<char>>) -> Seq<(Seq<char>, GroupModel)>
    decreases f.len(),
{
    if f.len() == 0 {
        Seq::empty()
    } else if gset.contains(f[0].0) {
        seq![f[0]] + file_groups_in(f.drop_first(), gset)
    } else {
        file_groups_in(f.drop_first(), gset)
    }
}

/// The store's groups whose ids lie in `gset`, file by file in path order.
pub open spec fn store_groups_in(s: StoreModel, gset: Set<Seq<char>>) -> Seq<
    (Seq<char>, GroupModel),
>
    decreases s.len(),
{
    if s.len() == 0 {
        Seq::empty()
    } else {
        file_groups_in(s[0].1, gset) + store_groups_in(s.drop_first(), gset)
    }
}

/// The mathematical content of a vector of named groups.
pub open spec fn group_pairs_view(v: Seq<(String, PackageGroup)>) -> Seq<(Seq<char>, GroupModel)> {
    Seq::new(v.len(), |i: int| (v[i].0@, v[i].1@))
}

impl PackageConfiguration {
    /// Unions into `acc` the members of this file's groups that lie in the
    /// filter.
    fn collect_file_packages(acc: &mut IdSet, file: &PackageFile, groups: &IdSet)
        requires
            old(acc).wf(),
        ensures
            final(acc).wf(),
            final(acc).to_set() == old(acc).to_set().union(
                file_packages_in(file@, groups@.to_set()),
            ),
    {
        let ghost fm = file@;
        let ghost gset = groups@.to_set();
        let ghost target = old(acc).to_set().union(file_packages_in(fm, gset));
        let mut j: usize = 0;
        let glen = file.groups.len();
        proof {
            assert(fm.skip(0) =~= fm);
        }
        while j < glen
            invariant
                j <= glen,
                glen == fm.len(),
                file@ == fm,
                groups@.to_set() == gset,
                acc.wf(),
                acc.to_set().union(file_packages_in(fm.skip(j as int), gset)) == target,
            decreases glen - j,
        {
            proof {
                assert(fm.skip(j as int)[0] == fm[j as int]);
                assert(fm.skip(j as int).drop_first() =~= fm.skip(j as int + 1));
            }
            let ghost before = acc.to_set();
            if groups.contains(file.groups.key_at(j).as_str()) {
                acc.union_with(&file.groups.val_at(j).members);
                proof {
                    assert(acc.to_set().union(file_packages_in(fm.skip(j as int + 1), gset))
                        =~= before.union(file_packages_in(fm.skip(j as int), gset)));
                }
            } else {
                proof {
                    assert(!gset.contains(fm[j as int].0));
                    assert(acc.to_set().union(file_packages_in(fm.skip(j as int + 1), gset))
                        =~= before.union(file_packages_in(fm.skip(j as int), gset)));
                }
            }
            j = j + 1;
        }
        proof {
            assert(fm.skip(glen as int).len() == 0);
            assert(acc.to_set().union(Set::empty()) =~= acc.to_set());
        }
    }

    /// The flattened, duplicate-free union of the members of every group
    /// whose id lies in `groups`: the desired-package set of a target.  The
    /// result is in canonical order.
    pub fn packages_of_groups(&self, groups: &IdSet) -> (r: IdSet)
        ensures
            r.wf(),
            r.to_set() == store_packages_in(self@, groups@.to_set()),
    {
        let ghost sm = self@;
        let ghost gset = groups@.to_set();
        let mut acc = IdSet::new();
        let mut i: usize = 0;
        let flen = self.files.len();
        proof {
            assert(sm.skip(0) =~= sm);
            assert(acc.to_set() =~= Set::<Seq<char>>::empty());
            assert(Set::<Seq<char>>::empty().union(store_packages_in(sm, gset))
                =~= store_packages_in(sm, gset));
        }
        while i < flen
            invariant
                i <= flen,
                flen == sm.len(),
                self@ == sm,
                groups@.to_set() == gset,
                acc.wf(),
                acc.to_set().union(store_packages_in(sm.skip(i as int), gset))
                    == store_packages_in(sm, gset),
            decreases flen - i,
        {
            proof {
                assert(sm.skip(i as int)[0] == sm[i as int]);
                assert(sm.skip(i as int).drop_first() =~= sm.skip(i as int + 1));
            }
            let ghost before = acc.to_set();
            Self::collect_file_packages(&mut acc, self.files.val_at(i), groups);
            proof {
                assert(acc.to_set().union(store_packages_in(sm.skip(i as int + 1), gset))
                    =~= before.union(store_packages_in(sm.skip(i as int), gset)));
            }
            i = i + 1;
        }
        proof {
            assert(sm.skip(flen as int).len() == 0);
            assert(acc.to_set().union(Set::empty()) =~= acc.to_set());
        }
        acc
    }

    /// Appends to `out` this file's groups that pass the filter (`None`
    /// passes everything), as owned pairs.
    fn collect_file_groups(
        out: &mut Vec<(String, PackageGroup)>,
        file: &PackageFile,
        filter: Option<&IdSet>,
        Ghost(gset): Ghost<Set<Seq<char>>>,
    )
        requires
            match filter {
                Some(g) => gset == g@.to_set(),
                None => gset == Set::<Seq<char>>::full(),
            },
        ensures
            group_pairs_view(final(out)@) == group_pairs_view(old(out)@) + file_groups_in(
                file@,
                gset,
            ),
    {
        let ghost fm = file@;
        let ghost base = group_pairs_view(out@);
        let mut j: usize = 0;
        let glen = file.groups.len();
        proof {
            assert(fm.skip(0) =~= fm);
        }
        while j < glen
            invariant
                j <= glen,
                glen == fm.len(),
                file@ == fm,
                match filter {
                    Some(g) => gset == g@.to_set(),
                    None => gset == Set::<Seq<char>>::full(),
                },
                group_pairs_view(out@) + file_groups_in(fm.skip(j as int), gset) == base
                    + file_groups_in(fm, gset),
            decreases glen - j,
        {
            proof {
                assert(fm.skip(j as int)[0] == fm[j as int]);
                assert(fm.skip(j as int).drop_first() =~= fm.skip(j as int + 1));
            }
            let ghost before = group_pairs_view(out@);
            let pass = match filter {
                Some(g) => g.contains(file.groups.key_at(j).as_str()),
                None => true,
            };
            if pass {
                let name = file.groups.key_at(j).clone();
                let group = file.groups.val_at(j).clone();
                out.push((name, group));
                proof {
                    assert(group_pairs_view(out@) =~= before.push((fm[j as int].0, fm[j as int].1)));
                    assert(gset.contains(fm[j as int].0));
                    assert(before.push((fm[j as int].0, fm[j as int].1)) + file_groups_in(
                        fm.skip(j as int + 1),
                        gset,
                    ) =~= before + file_groups_in(fm.skip(j as int), gset));
                }
            } else {
                proof {
                    assert(!gset.contains(fm[j as int].0));
                }
            }
            j = j + 1;
        }
        proof {
            assert(fm.skip(glen as int).len() == 0);
            assert(group_pairs_view(out@) + file_groups_in(fm.skip(glen as int), gset)
                =~= group_pairs_view(out@));
        }
    }

    /// The groups whose ids lie in `groups`, as owned `(id, group)` pairs,
    /// file by file in path order.
    pub fn filter_groups(&self, groups: &IdSet) -> (r: Vec<(String, PackageGroup)>)
        ensures
            group_pairs_view(r@) == store_groups_in(self@, groups@.to_set()),
    {
        let ghost sm = self@;
        let ghost gset = groups@.to_set();
        let mut out: Vec<(String, PackageGroup)> = Vec::new();
        let mut i: usize = 0;
        let flen = self.files.len();
        proof {
            assert(sm.skip(0) =~= sm);
            assert(group_pairs_view(out@) =~= Seq::<(Seq<char>, GroupModel)>::empty());
            assert(group_pairs_view(out@) + store_groups_in(sm, gset) =~= store_groups_in(
                sm,
                gset,
            ));
        }
        while i < flen
            invariant
                i <= flen,
                flen == sm.len(),
                self@ == sm,
                groups@.to_set() == gset,
                group_pairs_view(out@) + store_groups_in(sm.skip(i as int), gset)
                    == store_groups_in(sm, gset),
            decreases flen - i,
        {
            proof {
                assert(sm.skip(i as int)[0] == sm[i as int]);
                assert(sm.skip(i as int).drop_first() =~= sm.skip(i as int + 1));
            }
            let ghost before = group_pairs_view(out@);
            Self::collect_file_groups(&mut out, self.files.val_at(i), Some(groups), Ghost(gset));
            proof {
                assert(group_pairs_view(out@) + store_groups_in(sm.skip(i as int + 1), gset)
                    =~= before + store_groups_in(sm.skip(i as int), gset));
            }
            i = i + 1;
        }
        proof {
            assert(sm.skip(flen as int).len() == 0);
            assert(group_pairs_view(out@) + store_groups_in(sm.skip(flen as int), gset)
                =~= group_pairs_view(out@));
        }
        out
    }

    /// Every group of every file, as owned `(id, group)` pairs, file by file
    /// in path order.
    pub fn iter_groups(&self) -> (r: Vec<(String, PackageGroup)>)
        ensures
            group_pairs_view(r@) == store_groups_in(self@, Set::<Seq<char>>::full()),
    {
        let ghost sm = self@;
        let ghost gset = Set::<Seq<char>>::full();
        let mut out: Vec<(String, PackageGroup)> = Vec::new();
        let mut i: usize = 0;
        let flen = self.files.len();
        proof {
            assert(sm.skip(0) =~= sm);
            assert(group_pairs_view(out@) =~= Seq::<(Seq<char>, GroupModel)>::empty());
            assert(group_pairs_view(out@) + store_groups_in(sm, gset) =~= store_groups_in(
                sm,
                gset,
            ));
        }
        while i < flen
            invariant
                i <= flen,
                flen == sm.len(),
                self@ == sm,
                gset == Set::<Seq<char>>::full(),
                group_pairs_view(out@) + store_groups_in(sm.skip(i as int), gset)
                    == store_groups_in(sm, gset),
            decreases flen - i,
        {
            proof {
                assert(sm.skip(i as int)[0] == sm[i as int]);
                assert(sm.skip(i as int).drop_first() =~= sm.skip(i as int + 1));
            }
            let ghost before = group_pairs_view(out@);
            Self::collect_file_groups(&mut out, self.files.val_at(i), None, Ghost(gset));
            proof {
                assert(group_pairs_view(out@) + store_groups_in(sm.skip(i as int + 1), gset)
                    =~= before + store_groups_in(sm.skip(i as int), gset));
            }
            i = i + 1;
        }
        proof {
            assert(sm.skip(flen as int).len() == 0);
            assert(group_pairs_view(out@) + store_groups_in(sm.skip(flen as int), gset)
                =~= group_pairs_view(out@));
        }
        out
    }
}

/// `find_key` looks only at keys: entry sequences with the same keys agree.
pub proof fn lemma_find_key_same_keys<T, U>(
    f: Seq<(Seq<char>, T)>,
    f2: Seq<(Seq<char>, U)>,
    k: Seq<char>,
)
    requires
        keys_of(f) == keys_of(f2),
    ensures
        find_key(f, k) == find_key(f2, k),
    decreases f.len(),
{
    assert(f.len() == keys_of(f).len() && f2.len() == keys_of(f2).len());
    if f.len() == 0 {
    } else {
        assert(f[0].0 == keys_of(f)[0] && f2[0].0 == keys_of(f2)[0]);
        crate::table::lemma_keys_drop_first(f);
        crate::table::lemma_keys_drop_first(f2);
        lemma_find_key_same_keys(f.drop_first(), f2.drop_first(), k);
    }
}

/// `find_group` looks only at the shape of the store: stores of the same
/// length whose files carry the same group keys agree.
pub proof fn lemma_find_group_same_keys(s: StoreModel, s2: StoreModel, gid: Seq<char>)
    requires
        s.len() == s2.len(),
        forall|i: int| 0 <= i < s.len() ==> keys_of((#[trigger] s[i]).1) == keys_of(
            (#[trigger] s2[i]).1,
        ),
    ensures
        find_group(s, gid) == find_group(s2, gid),
    decreases s.len(),
{
    if s.len() == 0 {
    } else {
        lemma_find_key_same_keys(s[0].1, s2[0].1, gid);
        let t = s.drop_first();
        let t2 = s2.drop_first();
        assert(forall|i: int|
            0 <= i < t.len() ==> #[trigger] t[i] == s[i + 1] && #[trigger] t2[i] == s2[i + 1]);
        lemma_find_group_same_keys(t, t2, gid);
    }
}

/// Adding packages to a group is idempotent on content: doing it a second
/// time changes nothing, because the first call already made every added
/// package a member.  (The owning file is still rewritten each time.)
pub proof fn lemma_add_packages_idempotent(s: StoreModel, gid: Seq<char>, pkgs: Seq<Seq<char>>)
    requires
        store_wf(s),
    ensures
        store_add_packages(store_add_packages(s, gid, pkgs), gid, pkgs) == store_add_packages(
            s,
            gid,
            pkgs,
        ),
{
    lemma_find_group_props(s, gid);
    match find_group(s, gid) {
        None => {},
        Some(ij) => {
            let i = ij.0;
            let j = ij.1;
            let f = s[i].1;
            let g = f[j].1;
            let m2 = sorted_union(g.members, pkgs);
            let g2 = GroupModel { members: m2, accept_indirect: g.accept_indirect };
            let f2 = f.update(j, (f[j].0, g2));
            let s2 = store_add_packages(s, gid, pkgs);
            assert(s2 == s.update(i, (s[i].0, f2)));
            assert(find_group(s2, gid) == Some(ij)) by {
                assert(keys_of(f2) =~= keys_of(f));
                assert forall|k: int| 0 <= k < s.len() implies keys_of((#[trigger] s[k]).1)
                    == keys_of((#[trigger] s2[k]).1) by {
                    if k == i {
                        assert(s2[i].1 == f2);
                    } else {
                        assert(s2[k] == s[k]);
                    }
                }
                lemma_find_group_same_keys(s, s2, gid);
            }
            assert(strictly_sorted(g.members));
            lemma_sorted_union_props(g.members, pkgs);
            assert(forall|x: Seq<char>| pkgs.contains(x) ==> m2.contains(x));
            crate::idset::lemma_sorted_union_absorbed(m2, pkgs);
            let g3 = GroupModel {
                members: sorted_union(m2, pkgs),
                accept_indirect: g2.accept_indirect,
            };
            assert(g3 =~= g2);
            assert(s2[i].1 == f2 && f2[j].1 == g2 && f2[j].0 == f[j].0);
            assert(store_add_packages(s2, gid, pkgs) == s2.update(
                i,
                (s2[i].0, f2.update(j, (f2[j].0, g3))),
            ));
            assert(f2.update(j, (f2[j].0, g3)) =~= f2) by {
                assert((f2[j].0, g3) == f2[j]);
            }
            assert(s2.update(i, (s2[i].0, f2)) =~= s2) by {
                assert((s2[i].0, f2) == s2[i]);
            }
        },
    }
}

/// Adding one fresh package to a group and then removing it restores the
/// group's member set exactly.  (A package that was already a member would
/// stay removed, so freshness is required.)
pub proof fn lemma_add_then_remove_restores(s: StoreModel, gid: Seq<char>, p: Seq<char>)
    requires
        store_wf(s),
        find_group(s, gid) is Some,
        !s[find_group(s, gid).unwrap().0].1[find_group(s, gid).unwrap().1].1.members.contains(p),
    ensures
        store_remove_package(store_add_packages(s, gid, seq![p]), p, gid) == s,
{
    lemma_find_group_props(s, gid);
    let ij = find_group(s, gid).unwrap();
    let i = ij.0;
    let j = ij.1;
    let f = s[i].1;
    let g = f[j].1;
    let ins = sorted_union(g.members, seq![p]);
    assert(ins == sorted_insert(g.members, p)) by {
        assert(seq![p].len() == 1 && seq![p][0] == p);
        assert(ins == sorted_union(sorted_insert(g.members, p), seq![p].drop_first()));
        assert(seq![p].drop_first().len() == 0);
        assert(sorted_union(sorted_insert(g.members, p), seq![p].drop_first())
            == sorted_insert(g.members, p));
    }
    let g2 = GroupModel { members: ins, accept_indirect: g.accept_indirect };
    let f2 = f.update(j, (f[j].0, g2));
    let s2 = store_add_packages(s, gid, seq![p]);
    assert(s2 == s.update(i, (s[i].0, f2)));
    assert(find_group(s2, gid) == Some(ij)) by {
        assert(keys_of(f2) =~= keys_of(f));
        assert forall|k: int| 0 <= k < s.len() implies keys_of((#[trigger] s[k]).1) == keys_of(
            (#[trigger] s2[k]).1,
        ) by {
            if k == i {
                assert(s2[i].1 == f2);
            } else {
                assert(s2[k] == s[k]);
            }
        }
        lemma_find_group_same_keys(s, s2, gid);
    }
    assert(strictly_sorted(g.members));
    crate::idset::lemma_insert_then_remove(g.members, p);
    let g3 = GroupModel {
        members: sorted_remove(ins, p),
        accept_indirect: g2.accept_indirect,
    };
    assert(g3 =~= g);
    assert(s2[i].1 == f2 && f2[j].1 == g2 && f2[j].0 == f[j].0);
    assert(store_remove_package(s2, p, gid) == s2.update(
        i,
        (s2[i].0, f2.update(j, (f2[j].0, g3))),
    ));
    assert(f2.update(j, (f2[j].0, g3)) =~= f) by {
        assert((f[j].0, g3) == f[j]);
    }
    assert(s2.update(i, (s2[i].0, f2.update(j, (f2[j].0, g3)))) =~= s);
}

/// No groups selected, no packages desired.
pub proof fn lemma_packages_of_no_groups(s: StoreModel)
    ensures
        store_packages_in(s, Set::<Seq<char>>::empty()) == Set::<Seq<char>>::empty(),
    decreases s.len(),
{
    if s.len() == 0 {
    } else {
        lemma_file_packages_of_no_groups(s[0].1);
        lemma_packages_of_no_groups(s.drop_first());
        assert(store_packages_in(s, Set::<Seq<char>>::empty()) =~= Set::<Seq<char>>::empty());
    }
}

proof fn lemma_file_packages_of_no_groups(f: FileModel)
    ensures
        file_packages_in(f, Set::<Seq<char>>::empty()) == Set::<Seq<char>>::empty(),
    decreases f.len(),
{
    if f.len() == 0 {
    } else {
        lemma_file_packages_of_no_groups(f.drop_first());
        assert(file_packages_in(f, Set::<Seq<char>>::empty()) =~= Set::<Seq<char>>::empty());
    }
}

/// A filter covering all of a file's group ids selects all its packages.
proof fn lemma_file_packages_of_all_groups(f: FileModel, gset: Set<Seq<char>>)
    requires
        forall|y: Seq<char>| keys_of(f).contains(y) ==> gset.contains(y),
    ensures
        file_packages_in(f, gset) == file_all_packages(f),
    decreases f.len(),
{
    if f.len() == 0 {
    } else {
        assert(gset.contains(f[0].0)) by {
            assert(keys_of(f)[0] == f[0].0);
        }
        crate::table::lemma_keys_drop_first(f);
        assert(forall|y: Seq<char>| keys_of(f.drop_first()).contains(y) ==> gset.contains(y)) by {
            assert forall|y: Seq<char>| keys_of(f.drop_first()).contains(y) implies gset.contains(
                y,
            ) by {
                let i = choose|i: int|
                    0 <= i < keys_of(f.drop_first()).len() && keys_of(f.drop_first())[i] == y;
                assert(keys_of(f)[i + 1] == y);
            }
        }
        lemma_file_packages_of_all_groups(f.drop_first(), gset);
    }
}

/// Selecting every group id that exists yields the union of every group's
/// members, and the canonical result carries no duplicates.
pub proof fn lemma_packages_of_all_groups(s: StoreModel)
    ensures
        store_packages_in(s, all_group_ids(s)) == all_packages(s),
{
    lemma_packages_of_superset(s, all_group_ids(s));
}

/// A filter covering every group id of the store selects every package.
proof fn lemma_packages_of_superset(s: StoreModel, gset: Set<Seq<char>>)
    requires
        forall|y: Seq<char>| all_group_ids(s).contains(y) ==> gset.contains(y),
    ensures
        store_packages_in(s, gset) == all_packages(s),
    decreases s.len(),
{
    if s.len() == 0 {
    } else {
        assert(forall|y: Seq<char>| keys_of(s[0].1).contains(y) ==> gset.contains(y)) by {
            assert(forall|y: Seq<char>|
                keys_of(s[0].1).contains(y) ==> #[trigger] keys_of(s[0].1).to_set().contains(y));
            assert(forall|y: Seq<char>|
                keys_of(s[0].1).to_set().contains(y) ==> #[trigger] all_group_ids(s).contains(y));
        }
        lemma_file_packages_of_all_groups(s[0].1, gset);
        assert(forall|y: Seq<char>|
            all_group_ids(s.drop_first()).contains(y) ==> #[trigger] all_group_ids(s).contains(y));
        lemma_packages_of_superset(s.drop_first(), gset);
    }
}

/// No group id of this file is defined anywhere in the store: the global
/// uniqueness that loading demands.
pub open spec fn groups_disjoint(fm: FileModel, s: StoreModel) -> bool {
    forall|j: int| 0 <= j < fm.len() ==> find_group(s, (#[trigger] fm[j]).0) is None
}

/// Decoding every `(path, text)` pair into the store: files in the given
/// order.  A path seen twice refuses the whole load, and so does a group id
/// defined by two files: group ids are globally unique, and a file that
/// breaks that is a decode-time validation failure, not a silent overwrite.
pub open spec fn parse_store_texts(entries: Seq<(Seq<char>, Seq<char>)>) -> Option<StoreModel>
    decreases entries.len(),
{
    if entries.len() == 0 {
        Some(Seq::empty())
    } else {
        match crate::codec::parse_file_text(entries[0].1) {
            Some(fm) => match parse_store_texts(entries.drop_first()) {
                Some(rest) => {
                    if find_key(rest, entries[0].0) is Some || !groups_disjoint(fm, rest) {
                        None
                    } else {
                        Some(table_insert(rest, entries[0].0, fm))
                    }
                },
                None => None,
            },
            None => None,
        }
    }
}

impl PackageConfiguration {
    /// Builds the store from every package file's path and text, as read
    /// from the package directory.  Fails with `DeserializeFailure` when a
    /// text is not the codec's form or when two files define the same group
    /// id, and with `PackageFileAlreadyExists` when one path comes twice.
    pub fn parse(entries: &Vec<(String, String)>) -> (r: Result<PackageConfiguration, Error>)
        ensures
            match r {
                Ok(pc) => parse_store_texts(entries.deep_view()) == Some(pc@) && pc.wf(),
                Err(e) => parse_store_texts(entries.deep_view()) is None && (e
                    == Error::DeserializeFailure || e matches Error::PackageFileAlreadyExists {
                    ..
                }),
            },
    {
        proof {
            assert(entries.deep_view().skip(0) =~= entries.deep_view());
        }
        Self::parse_from(entries, 0)
    }

    /// Decodes the entries from index `i` on.
    fn parse_from(entries: &Vec<(String, String)>, i: usize) -> (r: Result<
        PackageConfiguration,
        Error,
    >)
        requires
            i <= entries@.len(),
        ensures
            match r {
                Ok(pc) => parse_store_texts(entries.deep_view().skip(i as int)) == Some(pc@)
                    && pc.wf(),
                Err(e) => parse_store_texts(entries.deep_view().skip(i as int)) is None && (e
                    == Error::DeserializeFailure || e matches Error::PackageFileAlreadyExists {
                    ..
                }),
            },
        decreases entries@.len() - i,
    {
        let ghost dv = entries.deep_view();
        if i == entries.len() {
            let pc = PackageConfiguration::new();
            proof {
                assert(dv.skip(i as int).len() == 0);
            }
            return Ok(pc);
        }
        proof {
            assert(dv.skip(i as int)[0] == dv[i as int]);
            assert(dv.skip(i as int).drop_first() =~= dv.skip(i as int + 1));
            assert(dv[i as int] == (entries@[i as int].0@, entries@[i as int].1@));
        }
        match crate::codec::parse_package_file(entries[i].1.as_str()) {
            Err(_) => Err(Error::DeserializeFailure),
            Ok(file) => {
                match Self::parse_from(entries, i + 1) {
                    Err(e) => Err(e),
                    Ok(mut pc) => {
                        let ghost tm = pc@;
                        let ghost fm = file@;
                        match pc.files.find(entries[i].0.as_str()) {
                            Some(_) => Err(
                                Error::PackageFileAlreadyExists {
                                    package_file: entries[i].0.clone(),
                                },
                            ),
                            None => {
                                // a group id this file defines must be new to
                                // the whole store: global uniqueness
                                let glen = file.groups.len();
                                let mut j: usize = 0;
                                while j < glen
                                    invariant
                                        j <= glen,
                                        glen == fm.len(),
                                        file@ == fm,
                                        pc@ == tm,
                                        dv == entries.deep_view(),
                                        i < dv.len(),
                                        crate::codec::parse_file_text(dv[i as int].1) == Some(fm),
                                        parse_store_texts(dv.skip(i as int + 1)) == Some(tm),
                                        find_key(tm, dv[i as int].0) is None,
                                        forall|k: int|
                                            0 <= k < j ==> find_group(
                                                tm,
                                                (#[trigger] fm[k]).0,
                                            ) is None,
                                    decreases glen - j,
                                {
                                    match pc.locate_group(file.groups.key_at(j).as_str()) {
                                        Some(_) => {
                                            proof {
                                                assert(!groups_disjoint(fm, tm)) by {
                                                    assert(find_group(
                                                        tm,
                                                        fm[j as int].0,
                                                    ) is Some);
                                                }
                                                assert(dv.skip(i as int)[0] == dv[i as int]);
                                                assert(dv.skip(i as int).drop_first() =~= dv.skip(
                                                    i as int + 1,
                                                ));
                                            }
                                            return Err(Error::DeserializeFailure);
                                        },
                                        None => {},
                                    }
                                    j = j + 1;
                                }
                                assert(groups_disjoint(fm, tm));
                                pc.files.insert_new(entries[i].0.clone(), file);
                                proof {
                                    lemma_table_insert_props(tm, dv[i as int].0, fm);
                                    lemma_table_insert_members(tm, dv[i as int].0, fm);
                                    assert(store_wf(pc@));
                                }
                                Ok(pc)
                            },
                        }
                    },
                }
            },
        }
    }
}

} // verus!
