//! The configuration: which targets exist and which root groups each one
//! declares, where the package directory lies, and which target is active.
//! The manager checks on construction that every declared root group exists
//! in the package configuration.
use vstd::prelude::*;
use vstd::string::{StrSliceExecFns, StringExecFns};
use crate::codec::{ser_config_text, parse_config_text, ser_active_text, parse_active_text,
    ser_target_block, parse_targets_text, ser_targets_text, TargetsModel, write_str_line,
    write_key, write_list_line, parse_str_line_at, parse_key_close_at, parse_list_line_at,
    starts_at, targets_dot, package_dir_label, root_groups_label, target_label};
use crate::error::Error;
use crate::idset::{IdSet, sorted_insert};
use crate::order::strictly_sorted;
use crate::store::{PackageConfiguration, StoreModel, find_group, store_wf};
use crate::table::{Table, find_key, keys_of, sorted_keys, lemma_table_insert_props};

verus! {

/// Name of a target: one machine profile in the configuration.
pub type TargetId = String;

/// What one target declares: the groups whose members it wants installed.
#[derive(Debug)]
pub struct TargetConfig {
    pub root_groups: IdSet,
}

impl View for TargetConfig {
    type V = Seq<Seq<char>>;

    open spec fn view(&self) -> Seq<Seq<char>> {
        self.root_groups@
    }
}

impl Clone for TargetConfig {
    /// Cloning keeps the root groups.
    fn clone(&self) -> (r: Self)
        ensures
            r@ == self@,
    {
        TargetConfig { root_groups: self.root_groups.clone() }
    }
}

/// The mathematical content of the configuration.
#[verifier::ext_equal]
pub struct ConfigModel {
    pub package_dir: Seq<char>,
    pub targets: TargetsModel,
}

/// The whole configuration: the package directory and every target.
#[derive(Debug)]
pub struct Config {
    pub package_dir: String,
    pub targets: Table<TargetConfig>,
}

impl View for Config {
    type V = ConfigModel;

    open spec fn view(&self) -> ConfigModel {
        ConfigModel { package_dir: self.package_dir@, targets: self.targets@ }
    }
}

impl Config {
    /// Target ids ascending, every root-group set canonical.
    pub open spec fn wf(&self) -> bool {
        sorted_keys(self@.targets) && forall|i: int|
            0 <= i < self@.targets.len() ==> strictly_sorted((#[trigger] self@.targets[i]).1)
    }

    /// A configuration with placeholder values to seed the config file: one
    /// target, named after the machine, wanting one example group.
    pub fn template(hostname: String) -> (r: Config)
        ensures
            r@.package_dir == "./packages"@,
            r@.targets == seq![(hostname@, seq!["awesome_software"@])],
            r.wf(),
    {
        let ghost h = hostname@;
        let mut root_groups = IdSet::new();
        root_groups.insert("awesome_software".to_owned());
        proof {
            assert(root_groups@ =~= seq!["awesome_software"@]);
        }
        let mut targets: Table<TargetConfig> = Table::new();
        let ghost empty_t = targets@;
        targets.insert_new(hostname, TargetConfig { root_groups });
        proof {
            assert(targets@ =~= seq![(h, seq!["awesome_software"@])]);
            assert(keys_of(targets@) =~= seq![h]);
        }
        Config { package_dir: "./packages".to_owned(), targets }
    }
}

/// The configuration as its file's text.
pub fn serialize_config(c: &Config) -> (r: String)
    ensures
        r@ == ser_config_text(c@.package_dir, c@.targets),
{
    let ghost ts = c@.targets;
    let mut out = String::new();
    proof {
        reveal_strlit("package_dir");
        assert("package_dir"@ =~= package_dir_label());
    }
    write_str_line(&mut out, "package_dir", c.package_dir.as_str());
    let ghost base = out@;
    let mut i: usize = 0;
    let n = c.targets.len();
    proof {
        assert(ts.skip(0) =~= ts);
        assert(out@ + ser_targets_text(ts.skip(0)) =~= base + ser_targets_text(ts));
    }
    while i < n
        invariant
            i <= n,
            n == ts.len(),
            c@.targets == ts,
            out@ + ser_targets_text(ts.skip(i as int)) == base + ser_targets_text(ts),
        decreases n - i,
    {
        proof {
            assert(ts.skip(i as int)[0] == ts[i as int]);
            assert(ts.skip(i as int).drop_first() =~= ts.skip(i as int + 1));
        }
        let ghost before = out@;
        out.append("[targets.");
        write_key(&mut out, c.targets.key_at(i).as_str());
        out.append("]\n");
        proof {
            reveal_strlit("[targets.");
            reveal_strlit("]\n");
            assert("[targets."@ =~= targets_dot());
            assert("]\n"@ =~= seq![']', '\n']);
        }
        write_list_line(&mut out, "root_groups", &c.targets.val_at(i).root_groups);
        proof {
            reveal_strlit("root_groups");
            assert("root_groups"@ =~= root_groups_label());
            assert(out@ =~= before + ser_target_block(ts[i as int].0, ts[i as int].1));
            assert(before + (ser_target_block(ts[i as int].0, ts[i as int].1)
                + ser_targets_text(ts.skip(i as int + 1))) =~= (before + ser_target_block(
                ts[i as int].0,
                ts[i as int].1,
            )) + ser_targets_text(ts.skip(i as int + 1)));
        }
        i = i + 1;
    }
    proof {
        assert(ts.skip(n as int).len() == 0);
        assert(out@ + ser_targets_text(ts.skip(n as int)) =~= out@);
    }
    out
}

/// Reads the targets from position `pos` on.
fn parse_targets_at(s: &str, pos: usize) -> (r: Result<Table<TargetConfig>, Error>)
    requires
        pos <= s@.len(),
    ensures
        match r {
            Ok(t) => parse_targets_text(s@.skip(pos as int)) == Some(t@) && sorted_keys(t@)
                && forall|i: int| 0 <= i < t@.len() ==> strictly_sorted((#[trigger] t@[i]).1),
            Err(e) => parse_targets_text(s@.skip(pos as int)) is None && e
                == Error::DeserializeFailure,
        },
    decreases s@.len() - pos,
{
    let len = s.unicode_len();
    let p = crate::codec::nl_end(s, pos);
    proof {
        assert(s@.skip(pos as int).skip(crate::codec::nl_run(s@.skip(pos as int))) =~= s@.skip(
            p as int,
        ));
    }
    if p == len {
        let t = Table::<TargetConfig>::new();
        proof {
            assert(s@.skip(p as int).len() == 0);
            assert(keys_of(t@) =~= Seq::<Seq<char>>::empty());
        }
        return Ok(t);
    }
    proof {
        reveal_strlit("[targets.");
        assert("[targets."@ =~= targets_dot());
    }
    if !starts_at(s, p, "[targets.") {
        return Err(Error::DeserializeFailure);
    }
    proof {
        assert(s@.skip(p as int).len() >= targets_dot().len());
        assert(s@.skip(p as int).skip(targets_dot().len() as int) =~= s@.skip(p as int + 9));
    }
    match parse_key_close_at(s, p + 9) {
        None => Err(Error::DeserializeFailure),
        Some((k, p2)) => {
            proof {
                reveal_strlit("root_groups");
                assert("root_groups"@ =~= root_groups_label());
            }
            match parse_list_line_at(s, p2, "root_groups") {
                None => Err(Error::DeserializeFailure),
                Some((raw, p3)) => {
                    match parse_targets_at(s, p3) {
                        Err(e) => Err(e),
                        Ok(mut t) => {
                            let ghost tm = t@;
                            match t.find(k.as_str()) {
                                Some(_) => Err(Error::DeserializeFailure),
                                None => {
                                    let root_groups = IdSet::from_vec(&raw);
                                    let ghost gm = root_groups@;
                                    t.insert_new(k, TargetConfig { root_groups });
                                    proof {
                                        lemma_table_insert_props(tm, k@, gm);
                                        crate::store::lemma_table_insert_members(tm, k@, gm);
                                    }
                                    Ok(t)
                                },
                            }
                        },
                    }
                },
            }
        },
    }
}

/// Reads a whole configuration file's text.
pub fn parse_config(s: &str) -> (r: Result<Config, Error>)
    ensures
        match r {
            Ok(c) => parse_config_text(s@) == Some((c@.package_dir, c@.targets)) && c.wf(),
            Err(e) => parse_config_text(s@) is None && e == Error::DeserializeFailure,
        },
{
    let p0 = crate::codec::nl_end(s, 0);
    proof {
        assert(s@.skip(0) =~= s@);
        assert(s@.skip(0).skip(crate::codec::nl_run(s@)) =~= s@.skip(p0 as int));
        reveal_strlit("package_dir");
        assert("package_dir"@ =~= package_dir_label());
    }
    match parse_str_line_at(s, p0, "package_dir") {
        None => Err(Error::DeserializeFailure),
        Some((pd, p1)) => {
            match parse_targets_at(s, p1) {
                Err(e) => Err(e),
                Ok(targets) => Ok(Config { package_dir: pd, targets }),
            }
        },
    }
}

/// The single persisted pointer naming the active target.
#[derive(Debug)]
pub struct ActiveTarget {
    target: TargetId,
}

impl View for ActiveTarget {
    type V = Seq<char>;

    closed spec fn view(&self) -> Seq<char> {
        self.target@
    }
}

impl ActiveTarget {
    /// Points at the given target.
    pub fn new(target: TargetId) -> (r: Self)
        ensures
            r@ == target@,
    {
        ActiveTarget { target }
    }

    /// The target pointed at.
    pub fn target(&self) -> (r: &TargetId)
        ensures
            r@ == self@,
    {
        &self.target
    }

    /// Repoints at `target` and hands back the text to persist; the core
    /// primitive is trusting, any validation is the caller's.
    pub fn set_target(&mut self, target: TargetId) -> (toml: String)
        ensures
            final(self)@ == target@,
            toml@ == ser_active_text(target@),
    {
        self.target = target;
        self.to_toml()
    }

    /// The active-target file's text.
    pub fn to_toml(&self) -> (r: String)
        ensures
            r@ == ser_active_text(self@),
    {
        let mut out = String::new();
        proof {
            reveal_strlit("target");
            assert("target"@ =~= target_label());
        }
        write_str_line(&mut out, "target", self.target.as_str());
        out
    }

    /// Reads the active-target file's text.
    pub fn parse(s: &str) -> (r: Result<Self, Error>)
        ensures
            match r {
                Ok(a) => parse_active_text(s@) == Some(a@),
                Err(e) => parse_active_text(s@) is None && e == Error::DeserializeFailure,
            },
    {
        let len = s.unicode_len();
        let p0 = crate::codec::nl_end(s, 0);
        proof {
            assert(s@.skip(0) =~= s@);
            assert(s@.skip(0).skip(crate::codec::nl_run(s@)) =~= s@.skip(p0 as int));
            reveal_strlit("target");
            assert("target"@ =~= target_label());
        }
        match parse_str_line_at(s, p0, "target") {
            None => Err(Error::DeserializeFailure),
            Some((t, np)) => {
                let e = crate::codec::nl_end(s, np);
                if e == len {
                    Ok(ActiveTarget { target: t })
                } else {
                    Err(Error::DeserializeFailure)
                }
            },
        }
    }
}

/// The position of the last path separator.
pub open spec fn last_slash(p: Seq<char>) -> Option<int>
    decreases p.len(),
{
    if p.len() == 0 {
        None
    } else if p[p.len() - 1] == '/' {
        Some(p.len() - 1)
    } else {
        last_slash(p.drop_last())
    }
}

/// The directory containing the file at `p`: the text before the last
/// separator; a bare file name lies in `""`, and an empty path or the root
/// itself has no parent.
pub open spec fn parent_dir(p: Seq<char>) -> Option<Seq<char>> {
    if p.len() == 0 {
        None
    } else {
        match last_slash(p) {
            None => Some(Seq::empty()),
            Some(k) => {
                if k == 0 {
                    if p.len() == 1 {
                        None
                    } else {
                        Some(seq!['/'])
                    }
                } else {
                    Some(p.take(k))
                }
            },
        }
    }
}

/// `b` resolved against directory `a`: `b` itself when absolute, otherwise
/// `a` and `b` joined with a separator.
pub open spec fn join_path(a: Seq<char>, b: Seq<char>) -> Seq<char> {
    if b.len() > 0 && b[0] == '/' {
        b
    } else if a.len() == 0 {
        b
    } else if a[a.len() - 1] == '/' {
        a + b
    } else {
        a + seq!['/'] + b
    }
}

/// Bounds of `last_slash`.
pub proof fn lemma_last_slash(p: Seq<char>)
    ensures
        match last_slash(p) {
            Some(k) => 0 <= k < p.len() && p[k] == '/' && forall|j: int|
                k < j < p.len() ==> p[j] != '/',
            None => forall|j: int| 0 <= j < p.len() ==> p[j] != '/',
        },
    decreases p.len(),
{
    if p.len() == 0 {
    } else if p[p.len() - 1] == '/' {
    } else {
        lemma_last_slash(p.drop_last());
        let t = p.drop_last();
        assert(forall|j: int| 0 <= j < t.len() ==> #[trigger] t[j] == p[j]);
        match last_slash(t) {
            Some(k) => {
                assert forall|j: int| k < j < p.len() implies p[j] != '/' by {
                    if j < p.len() - 1 {
                        assert(t[j] == p[j]);
                    }
                }
            },
            None => {
                assert forall|j: int| 0 <= j < p.len() implies p[j] != '/' by {
                    if j < p.len() - 1 {
                        assert(t[j] == p[j]);
                    }
                }
            },
        }
    }
}

/// Finds the last separator, scanning from the end.
fn find_last_slash(p: &str) -> (r: Option<usize>)
    ensures
        match r {
            Some(k) => last_slash(p@) == Some(k as int),
            None => last_slash(p@) is None,
        },
{
    let len = p.unicode_len();
    let mut i: usize = len;
    proof {
        assert(p@.take(len as int) =~= p@);
    }
    while i > 0
        invariant
            i <= len,
            len == p@.len(),
            last_slash(p@) == last_slash(p@.take(i as int)),
        decreases i,
    {
        let c = p.get_char(i - 1);
        proof {
            assert(p@.take(i as int)[i - 1] == p@[i as int - 1]);
        }
        if c == '/' {
            proof {
                assert(p@.take(i as int).len() == i);
                assert(last_slash(p@.take(i as int)) == Some(i as int - 1));
            }
            return Some(i - 1);
        }
        proof {
            assert(p@.take(i as int).drop_last() =~= p@.take(i as int - 1));
        }
        i = i - 1;
    }
    proof {
        assert(p@.take(0).len() == 0);
    }
    None
}

/// The directory containing the file at `p`, in executable form.
pub fn parent_dir_of(p: &str) -> (r: Option<String>)
    ensures
        match r {
            Some(d) => parent_dir(p@) == Some(d@),
            None => parent_dir(p@) is None,
        },
{
    let len = p.unicode_len();
    if len == 0 {
        return None;
    }
    match find_last_slash(p) {
        None => Some(String::new()),
        Some(k) => {
            proof {
                lemma_last_slash(p@);
                reveal_strlit("/");
                assert("/"@ =~= seq!['/']);
            }
            if k == 0 {
                if len == 1 {
                    None
                } else {
                    Some("/".to_owned())
                }
            } else {
                let d = p.substring_char(0, k).to_owned();
                proof {
                    assert(d@ =~= p@.take(k as int));
                }
                Some(d)
            }
        },
    }
}

/// `b` resolved against directory `a`, in executable form.
pub fn join_path_of(a: &str, b: &str) -> (r: String)
    ensures
        r@ == join_path(a@, b@),
{
    let alen = a.unicode_len();
    let blen = b.unicode_len();
    if blen > 0 && b.get_char(0) == '/' {
        return b.to_owned();
    }
    if alen == 0 {
        return b.to_owned();
    }
    let mut out = a.to_owned();
    if a.get_char(alen - 1) == '/' {
        out.append(b);
    } else {
        crate::codec::push_char(&mut out, '/');
        out.append(b);
        proof {
            assert(out@ =~= a@ + seq!['/'] + b@);
        }
    }
    out
}

/// Every root group of every target names a group the store defines.
pub open spec fn targets_valid(ts: TargetsModel, store: StoreModel) -> bool {
    forall|i: int, j: int|
        0 <= i < ts.len() && 0 <= j < ts[i].1.len() ==> find_group(
            store,
            (#[trigger] (#[trigger] ts[i]).1[j]),
        ) is Some
}

/// The mathematical content of the configuration manager.
#[verifier::ext_equal]
pub struct ManagerModel {
    pub config_path: Seq<char>,
    pub config: ConfigModel,
    pub store: StoreModel,
}

/// Owns the configuration, the package configuration and the path the
/// configuration was read from; hands the caller the texts to persist.
#[derive(Debug)]
pub struct ConfigManager {
    config_path: String,
    config: Config,
    package_config: PackageConfiguration,
}

impl View for ConfigManager {
    type V = ManagerModel;

    closed spec fn view(&self) -> ManagerModel {
        ManagerModel {
            config_path: self.config_path@,
            config: self.config@,
            store: self.package_config@,
        }
    }
}

impl ConfigManager {
    /// Configuration and store well-formed.
    pub open spec fn wf(&self) -> bool {
        &&& sorted_keys(self@.config.targets)
        &&& forall|i: int|
            0 <= i < self@.config.targets.len() ==> strictly_sorted(
                (#[trigger] self@.config.targets[i]).1,
            )
        &&& store_wf(self@.store)
    }

    /// Takes ownership of a parsed configuration and package configuration,
    /// checking that every root group of every target exists in the package
    /// configuration; a missing one is a hard error naming the group.
    pub fn new(config_path: String, config: Config, package_config: PackageConfiguration) -> (r:
        Result<ConfigManager, Error>)
        requires
            config.wf(),
            package_config.wf(),
        ensures
            match r {
                Ok(m) => targets_valid(config@.targets, package_config@) && m@.config_path
                    == config_path@ && m@.config == config@ && m@.store == package_config@
                    && m.wf(),
                Err(e) => !targets_valid(config@.targets, package_config@) && (e matches
                Error::GroupNotFound { group } && find_group(package_config@, group@) is None
                    && exists|i: int, j: int|
                    0 <= i < config@.targets.len() && 0 <= j < config@.targets[i].1.len()
                        && (#[trigger] (#[trigger] config@.targets[i]).1[j]) == group@),
            },
    {
        let ghost ts = config@.targets;
        let mut i: usize = 0;
        let n = config.targets.len();
        while i < n
            invariant
                i <= n,
                n == ts.len(),
                config@.targets == ts,
                package_config.wf(),
                forall|a: int, b: int|
                    0 <= a < i && 0 <= b < ts[a].1.len() ==> find_group(
                        package_config@,
                        (#[trigger] (#[trigger] ts[a]).1[b]),
                    ) is Some,
            decreases n - i,
        {
            let tc = config.targets.val_at(i);
            let mut j: usize = 0;
            let m = tc.root_groups.len();
            while j < m
                invariant
                    j <= m,
                    i < n,
                    n == ts.len(),
                    m == ts[i as int].1.len(),
                    tc@ == ts[i as int].1,
                    config@.targets == ts,
                    package_config.wf(),
                    forall|a: int, b: int|
                        0 <= a < i && 0 <= b < ts[a].1.len() ==> find_group(
                            package_config@,
                            (#[trigger] (#[trigger] ts[a]).1[b]),
                        ) is Some,
                    forall|b: int|
                        0 <= b < j ==> find_group(
                            package_config@,
                            (#[trigger] ts[i as int].1[b]),
                        ) is Some,
                decreases m - j,
            {
                let gid = tc.root_groups.index(j);
                match package_config.locate_group(gid.as_str()) {
                    Some(_) => {},
                    None => {
                        proof {
                            assert(ts[i as int].1[j as int] == gid@);
                        }
                        return Err(Error::GroupNotFound { group: gid.clone() });
                    },
                }
                j = j + 1;
            }
            i = i + 1;
        }
        Ok(ConfigManager { config_path, config, package_config })
    }

    /// The configuration.
    pub fn config(&self) -> (r: &Config)
        ensures
            r@ == self@.config,
    {
        &self.config
    }

    /// The path the configuration was read from.
    pub fn config_path(&self) -> (r: &String)
        ensures
            r@ == self@.config_path,
    {
        &self.config_path
    }

    /// The package configuration, for reading.
    pub fn package_config(&self) -> (r: &PackageConfiguration)
        ensures
            r@ == self@.store,
    {
        &self.package_config
    }

    /// The package configuration, for mutating; the caller persists what it
    /// changes.
    pub fn package_config_mut(&mut self) -> (r: &mut PackageConfiguration)
        ensures
            (*r)@ == old(self)@.store,
            final(self)@.store == (*final(r))@,
            final(self)@.config == old(self)@.config,
            final(self)@.config_path == old(self)@.config_path,
    {
        &mut self.package_config
    }

    /// Adds a root group to a target, handing back whether the set grew;
    /// the caller persists the configuration (`serialize_config`).  Fails
    /// when no target of that name exists.
    pub fn add_root_group(&mut self, target_id: &TargetId, group: crate::GroupId) -> (r: Result<
        bool,
        Error,
    >)
        requires
            old(self).wf(),
        ensures
            final(self).wf(),
            match find_key(old(self)@.config.targets, target_id@) {
                None => r matches Err(Error::TargetNotFound(t)) && t@ == target_id@
                    && final(self)@ == old(self)@,
                Some(i) => r matches Ok(added)
                    && added == !old(self)@.config.targets[i].1.contains(group@)
                    && final(self)@.config.targets == old(self)@.config.targets.update(
                    i,
                    (
                        old(self)@.config.targets[i].0,
                        sorted_insert(old(self)@.config.targets[i].1, group@),
                    ),
                )
                    && final(self)@.config.package_dir == old(self)@.config.package_dir
                    && final(self)@.store == old(self)@.store
                    && final(self)@.config_path == old(self)@.config_path,
            },
    {
        let ghost ts = self@.config.targets;
        let found = self.config.targets.find(target_id.as_str());
        match found {
            None => Err(Error::TargetNotFound(target_id.clone())),
            Some(i) => {
                let mut tc = self.config.targets.replace_at(
                    i,
                    TargetConfig { root_groups: IdSet::new() },
                );
                let ghost rg = tc@;
                proof {
                    assert(rg == ts[i as int].1);
                    assert(strictly_sorted(rg));
                }
                let added = tc.root_groups.insert(group);
                self.config.targets.replace_at(i, tc);
                proof {
                    assert(self@.config.targets =~= ts.update(
                        i as int,
                        (ts[i as int].0, sorted_insert(rg, group@)),
                    ));
                    assert(keys_of(self@.config.targets) =~= keys_of(ts));
                    assert(forall|k: int|
                        0 <= k < ts.len() && k != i ==> #[trigger] self@.config.targets[k]
                            == ts[k]);
                }
                Ok(added)
            },
        }
    }

    /// The package directory's absolute path: the configured directory
    /// resolved against the directory holding the configuration file.
    pub fn absolute_package_dir(&self) -> (r: Result<String, Error>)
        ensures
            match r {
                Ok(p) => parent_dir(self@.config_path) is Some && p@ == join_path(
                    parent_dir(self@.config_path).unwrap(),
                    self@.config.package_dir,
                ),
                Err(e) => parent_dir(self@.config_path) is None && (e matches
                Error::ConfigFileHasNoParentDir { path } && path@ == self@.config_path),
            },
    {
        match parent_dir_of(self.config_path.as_str()) {
            None => Err(Error::ConfigFileHasNoParentDir { path: self.config_path.clone() }),
            Some(dir) => Ok(join_path_of(dir.as_str(), self.config.package_dir.as_str())),
        }
    }
}

} // verus!
