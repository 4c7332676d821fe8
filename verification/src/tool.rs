//! A tool as the catalog declares it: a display name, a binary artifact,
//! optional configuration and library artifacts, and the identifiers of
//! the tools it depends on.

use vstd::prelude::*;
use crate::args::Args;
use crate::package::{
    ArtifactProbe, FsOp, FsOpSpec, PackageInfo, PackageResult, PlanError, install_files_ops,
    install_files_outcome, install_files_plan, ops_view, remove_files_ops, remove_files_outcome,
    remove_files_plan,
};
use crate::utils::{
    abs_of, after_last_slash, common_prefix, find_common_path, find_relative_path,
    join_components, join_path, join_spec, joined, lemma_common_prefix_from_ok, make_absolute,
    split_components, split_slash,
};

verus! {

/// One installable tool, as parsed from the configuration.
#[derive(Clone, Debug)]
pub struct Tool {
    /// Display name; distinct from the identifier the catalog keys it by.
    pub name: String,
    /// Source path of the binary artifact.
    pub bin: String,
    /// Source path of the configuration artifact, if one is declared.
    pub config: Option<String>,
    /// Source path of the shared-library artifact, if one is declared.
    pub lib: Option<String>,
    /// Identifiers of the tools this one depends on, in declaration order.
    pub dependencies: Option<Vec<String>>,
}

/// The mathematical content of a [`Tool`].
pub ghost struct ToolSpec {
    pub name: Seq<char>,
    pub bin: Seq<char>,
    pub config: Option<Seq<char>>,
    pub lib: Option<Seq<char>>,
    pub dependencies: Option<Seq<Seq<char>>>,
}

impl View for Tool {
    type V = ToolSpec;

    open spec fn view(&self) -> ToolSpec {
        ToolSpec {
            name: self.name@,
            bin: self.bin@,
            config: match self.config {
                Some(c) => Some(c@),
                None => None,
            },
            lib: match self.lib {
                Some(l) => Some(l@),
                None => None,
            },
            dependencies: match self.dependencies {
                Some(d) => Some(d.deep_view()),
                None => None,
            },
        }
    }
}

/// The dependency identifiers of a tool; none declared means none.
pub open spec fn tool_deps(t: ToolSpec) -> Seq<Seq<char>> {
    match t.dependencies {
        Some(d) => d,
        None => Seq::empty(),
    }
}

/// The views of a list of (artifact field, path) pairs.
pub open spec fn pair_views(s: Seq<(String, String)>) -> Seq<(Seq<char>, Seq<char>)> {
    s.map_values(|p: (String, String)| (p.0@, p.1@))
}

/// What [`Tool::get_invalid_paths`] reports, given which artifacts exist.
pub open spec fn invalid_paths_spec(
    t: ToolSpec,
    bin_exists: bool,
    config_exists: bool,
    lib_exists: bool,
) -> Seq<(Seq<char>, Seq<char>)> {
    let bin_part: Seq<(Seq<char>, Seq<char>)> = if !bin_exists {
        seq![("bin"@, t.bin)]
    } else {
        Seq::empty()
    };
    let lib_part: Seq<(Seq<char>, Seq<char>)> = match t.lib {
        Some(l) => if !lib_exists {
            seq![("lib"@, l)]
        } else {
            Seq::empty()
        },
        None => Seq::empty(),
    };
    let config_part: Seq<(Seq<char>, Seq<char>)> = match t.config {
        Some(c) => if !config_exists {
            seq![("config"@, c)]
        } else {
            Seq::empty()
        },
        None => Seq::empty(),
    };
    bin_part + lib_part + config_part
}

impl Tool {
    /// The declared artifact paths that do not exist on disk, keyed by
    /// artifact field.  The caller probes the filesystem and passes what
    /// it found; an artifact that is not declared is never reported.
    pub fn get_invalid_paths(&self, bin_exists: bool, config_exists: bool, lib_exists: bool) -> (r:
        Vec<(String, String)>)
        ensures
            pair_views(r@) == invalid_paths_spec(self@, bin_exists, config_exists, lib_exists),
    {
        proof {
            reveal_strlit("bin");
            reveal_strlit("lib");
            reveal_strlit("config");
        }
        let mut r: Vec<(String, String)> = Vec::new();
        if !bin_exists {
            r.push((String::from_str("bin"), self.bin.clone()));
        }
        if let Some(l) = &self.lib {
            if !lib_exists {
                r.push((String::from_str("lib"), l.clone()));
            }
        }
        if let Some(c) = &self.config {
            if !config_exists {
                r.push((String::from_str("config"), c.clone()));
            }
        }
        proof {
            assert(pair_views(r@) =~= invalid_paths_spec(
                self@,
                bin_exists,
                config_exists,
                lib_exists,
            ));
        }
        r
    }

    /// The tool's artifact fields with their declared paths, in the fixed
    /// order the listing renders them.
    pub fn generate_self_map(&self) -> (r: Vec<(String, Option<String>)>)
        ensures
            r@.len() == 3,
            r@[0].0@ == "bin"@ && r@[0].1 == Some(self.bin),
            r@[1].0@ == "lib"@ && r@[1].1 == self.lib,
            r@[2].0@ == "config"@ && r@[2].1 == self.config,
    {
        proof {
            reveal_strlit("bin");
            reveal_strlit("lib");
            reveal_strlit("config");
        }
        let mut r: Vec<(String, Option<String>)> = Vec::new();
        r.push((String::from_str("bin"), Some(self.bin.clone())));
        r.push((String::from_str("lib"), clone_opt(&self.lib)));
        r.push((String::from_str("config"), clone_opt(&self.config)));
        r
    }
}

/// A copy of an optional string, preserving its value.
pub fn clone_opt(s: &Option<String>) -> (r: Option<String>)
    ensures
        r == s,
{
    match s {
        Some(v) => Some(v.clone()),
        None => None,
    }
}

impl Tool {
    /// The name the configuration artifact is installed under: the file
    /// name of its source path, or the tool's display name when none can
    /// be derived.  In this library's flat path model a path written
    /// with a trailing '/' — a configuration directory, say — has no
    /// file name of its own, so the display name stands in for it.
    pub open spec fn config_name_spec(&self) -> Seq<char> {
        let c = self.config->0;
        if after_last_slash(c@).len() > 0 {
            after_last_slash(c@)
        } else {
            self.name@
        }
    }

    /// Where the binary goes: under the executable directory, keyed by
    /// the tool's display name.
    pub open spec fn bin_path_spec(&self, bin_dir: Seq<char>) -> Seq<char> {
        join_spec(bin_dir, self.name@)
    }

    /// Where the configuration goes, keyed by its own file name.
    pub open spec fn config_path_spec(&self, config_dir: Seq<char>) -> Seq<char> {
        join_spec(config_dir, self.config_name_spec())
    }

    /// Where the binary-and-library tree goes: under the data directory,
    /// keyed by the tool's catalog identifier.
    pub open spec fn data_path_spec(&self, data_dir: Seq<char>, key: Seq<char>) -> Seq<char> {
        join_spec(data_dir, key)
    }

    /// The components the absolute binary and library paths share: the
    /// root of the tree that must be copied so the binary still finds its
    /// library at the same relative offset.
    pub open spec fn tree_root(&self, cwd: Seq<char>) -> Seq<Seq<char>> {
        common_prefix(
            split_slash(abs_of(self.bin@, cwd)),
            split_slash(abs_of(self.lib->0@, cwd)),
        )
    }

    /// The binary's path below the tree root.
    pub open spec fn tree_bin_rel(&self, cwd: Seq<char>) -> Seq<char> {
        let comps = split_slash(abs_of(self.bin@, cwd));
        joined(comps.subrange(self.tree_root(cwd).len() as int, comps.len() as int))
    }

    /// Where the binary sits inside the installed tree; the executable
    /// directory links to it.
    pub open spec fn tree_bin_source(
        &self,
        cwd: Seq<char>,
        data_dir: Seq<char>,
        key: Seq<char>,
    ) -> Seq<char> {
        join_spec(self.data_path_spec(data_dir, key), self.tree_bin_rel(cwd))
    }

    /// The operations that install this tool's binary.
    pub open spec fn install_bin_ops_spec(
        &self,
        symbolic: bool,
        force: bool,
        cwd: Seq<char>,
        bin_dir: Seq<char>,
        data_dir: Seq<char>,
        key: Seq<char>,
        data_probe: ArtifactProbe,
        bin_probe: ArtifactProbe,
    ) -> Seq<FsOpSpec> {
        if symbolic || self.lib is None {
            install_files_ops(self.bin@, self.bin_path_spec(bin_dir), symbolic, force, bin_probe)
        } else {
            install_files_ops(
                joined(self.tree_root(cwd)),
                self.data_path_spec(data_dir, key),
                false,
                force,
                data_probe,
            ) + install_files_ops(
                self.tree_bin_source(cwd, data_dir, key),
                self.bin_path_spec(bin_dir),
                true,
                force,
                bin_probe,
            )
        }
    }

    /// The outcome installing this tool's binary reports.
    pub open spec fn install_bin_outcome_spec(
        &self,
        symbolic: bool,
        force: bool,
        bin_probe: ArtifactProbe,
    ) -> PackageResult {
        if symbolic || self.lib is None {
            install_files_outcome(symbolic, force, bin_probe)
        } else {
            install_files_outcome(true, force, bin_probe)
        }
    }

    /// No tree to copy: binary and library share no path prefix.
    pub open spec fn bin_plan_fails(&self, symbolic: bool, cwd: Seq<char>) -> bool {
        !symbolic && self.lib is Some && joined(self.tree_root(cwd)).len() == 0
    }

    /// Pre-flight check of the declared artifact paths, distinct from
    /// dependency resolution: the binary must exist, and so must a
    /// declared configuration or library.  The caller probes the disk
    /// and passes what it found; the error names the first missing path.
    pub fn validate(&self, bin_exists: bool, config_exists: bool, lib_exists: bool) -> (r: Result<
        (),
        String,
    >)
        ensures
            r is Ok <==> (bin_exists && (self.config is Some ==> config_exists) && (self.lib
                is Some ==> lib_exists)),
            !bin_exists ==> (r matches Err(m) && m@ == "'"@ + self.bin@ + "' is not present"@),
            bin_exists && self.config is Some && !config_exists ==> (r matches Err(m) && m@ == "'"@
                + self.config->0@ + "' is not present"@),
            bin_exists && (self.config is Some ==> config_exists) && self.lib is Some
                && !lib_exists ==> (r matches Err(m) && m@ == "'"@ + self.lib->0@
                + "' is not present"@),
    {
        proof {
            reveal_strlit("'");
            reveal_strlit("' is not present");
        }
        if !bin_exists {
            Err(String::from_str("'").concat(self.bin.as_str()).concat("' is not present"))
        } else if self.config.is_some() && !config_exists {
            let c = match &self.config {
                Some(c) => c,
                None => vstd::pervasive::unreached(),
            };
            Err(String::from_str("'").concat(c.as_str()).concat("' is not present"))
        } else if self.lib.is_some() && !lib_exists {
            let l = match &self.lib {
                Some(l) => l,
                None => vstd::pervasive::unreached(),
            };
            Err(String::from_str("'").concat(l.as_str()).concat("' is not present"))
        } else {
            Ok(())
        }
    }

    pub fn get_config_name(&self) -> (r: Option<String>)
        ensures
            match r {
                Some(n) => self.config is Some && n@ == self.config_name_spec(),
                None => self.config is None,
            },
    {
        match &self.config {
            None => None,
            Some(c) => match crate::utils::file_name(c) {
                Some(n) => Some(n),
                None => Some(self.name.clone()),
            },
        }
    }

    pub fn get_bin_path(&self, bin_dir: &String) -> (r: String)
        ensures
            r@ == self.bin_path_spec(bin_dir@),
    {
        join_path(bin_dir, &self.name)
    }

    pub fn get_config_path(&self, config_dir: &String) -> (r: Option<String>)
        ensures
            match r {
                Some(p) => self.config is Some && p@ == self.config_path_spec(config_dir@),
                None => self.config is None,
            },
    {
        match self.get_config_name() {
            None => None,
            Some(n) => Some(join_path(config_dir, &n)),
        }
    }

    /// Plans the installation of the binary.  Without a library (or in
    /// symbolic mode) the binary is placed directly under the executable
    /// directory.  With one, the shared tree of binary and library is
    /// installed under the data directory, keyed by the catalog
    /// identifier `key`, and the executable directory gets a symbolic
    /// link to the binary inside that tree.  A pair whose absolute paths
    /// share nothing — or only the filesystem root, which is no tree to
    /// copy — is refused.
    pub fn install_bin(
        &self,
        key: &String,
        args: &Args,
        cwd: &String,
        bin_dir: &String,
        data_dir: &String,
        data_probe: &ArtifactProbe,
        bin_probe: &ArtifactProbe,
    ) -> (r: Result<(Vec<FsOp>, PackageResult), PlanError>)
        requires
            bin_probe.consistent(args.force),
            (!args.symbolic && self.lib is Some) ==> data_probe.consistent(args.force),
        ensures
            r is Err <==> self.bin_plan_fails(args.symbolic, cwd@),
            r matches Ok(p) ==> ops_view(p.0@) == self.install_bin_ops_spec(
                args.symbolic,
                args.force,
                cwd@,
                bin_dir@,
                data_dir@,
                key@,
                *data_probe,
                *bin_probe,
            ) && p.1 == self.install_bin_outcome_spec(args.symbolic, args.force, *bin_probe),
    {
        let bin_path = self.get_bin_path(bin_dir);
        if args.symbolic || self.lib.is_none() {
            let (ops, outcome) = install_files_plan(
                &self.bin,
                &bin_path,
                args.symbolic,
                args.force,
                bin_probe,
            );
            return Ok((ops, outcome));
        }
        let lib = match &self.lib {
            Some(l) => l,
            None => vstd::pervasive::unreached(),
        };
        let bin_abs = make_absolute(&self.bin, cwd);
        let lib_abs = make_absolute(lib, cwd);
        let bin_comps = split_components(&bin_abs);
        let lib_comps = split_components(&lib_abs);
        let anc_comps = find_common_path(&bin_comps, &lib_comps);
        proof {
            lemma_common_prefix_from_ok(
                bin_comps.deep_view(),
                lib_comps.deep_view(),
                anc_comps@.len() as int,
            );
            assert(anc_comps.deep_view() == self.tree_root(cwd@));
        }
        let ancestor = join_components(&anc_comps);
        if ancestor.as_str().unicode_len() == 0 {
            return Err(PlanError::NoCommonAncestor { one: bin_abs, two: lib_abs });
        }
        let data_path = join_path(data_dir, key);
        let (mut ops, _tree_outcome) = install_files_plan(
            &ancestor,
            &data_path,
            false,
            args.force,
            data_probe,
        );
        let rel = match find_relative_path(&bin_comps, &anc_comps) {
            Some(r) => r,
            None => {
                proof {
                    assert(anc_comps.deep_view().is_prefix_of(bin_comps.deep_view()));
                }
                vstd::pervasive::unreached()
            },
        };
        let rel_str = join_components(&rel);
        let bin_src = join_path(&data_path, &rel_str);
        proof {
            assert(bin_src@ == self.tree_bin_source(cwd@, data_dir@, key@));
        }
        let (mut link_ops, outcome) = install_files_plan(
            &bin_src,
            &bin_path,
            true,
            args.force,
            bin_probe,
        );
        ops.append(&mut link_ops);
        proof {
            assert(ops_view(ops@) =~= self.install_bin_ops_spec(
                args.symbolic,
                args.force,
                cwd@,
                bin_dir@,
                data_dir@,
                key@,
                *data_probe,
                *bin_probe,
            ));
        }
        Ok((ops, outcome))
    }

    /// Plans the installation of the configuration artifact; a tool
    /// without one reports `Ignored`.
    pub fn install_config(&self, args: &Args, config_dir: &String, probe: &ArtifactProbe) -> (r: (
        Vec<FsOp>,
        PackageResult,
    ))
        requires
            self.config is Some ==> probe.consistent(args.force),
        ensures
            self.config matches Some(c) ==> ops_view(r.0@) == install_files_ops(
                c@,
                self.config_path_spec(config_dir@),
                args.symbolic,
                args.force,
                *probe,
            ) && r.1 == install_files_outcome(args.symbolic, args.force, *probe),
            self.config is None ==> r.0@.len() == 0 && r.1 == PackageResult::Ignored,
    {
        match self.get_config_path(config_dir) {
            None => (Vec::new(), PackageResult::Ignored),
            Some(path) => {
                let config = match &self.config {
                    Some(c) => c,
                    None => vstd::pervasive::unreached(),
                };
                install_files_plan(config, &path, args.symbolic, args.force, probe)
            },
        }
    }

    /// Plans the installation of the whole tool: its binary, then its
    /// configuration.
    pub fn install(
        &self,
        key: &String,
        args: &Args,
        cwd: &String,
        bin_dir: &String,
        config_dir: &String,
        data_dir: &String,
        data_probe: &ArtifactProbe,
        bin_probe: &ArtifactProbe,
        config_probe: &ArtifactProbe,
    ) -> (r: Result<(Vec<FsOp>, PackageInfo), PlanError>)
        requires
            bin_probe.consistent(args.force),
            (!args.symbolic && self.lib is Some) ==> data_probe.consistent(args.force),
            self.config is Some ==> config_probe.consistent(args.force),
        ensures
            r is Err <==> self.bin_plan_fails(args.symbolic, cwd@),
            r matches Ok(p) ==> {
                &&& ops_view(p.0@) == self.install_bin_ops_spec(
                    args.symbolic,
                    args.force,
                    cwd@,
                    bin_dir@,
                    data_dir@,
                    key@,
                    *data_probe,
                    *bin_probe,
                ) + (match self.config {
                    Some(c) => install_files_ops(
                        c@,
                        self.config_path_spec(config_dir@),
                        args.symbolic,
                        args.force,
                        *config_probe,
                    ),
                    None => Seq::<FsOpSpec>::empty(),
                })
                &&& p.1.0 == self.install_bin_outcome_spec(args.symbolic, args.force, *bin_probe)
                &&& p.1.1 == (match self.config {
                    Some(_) => install_files_outcome(args.symbolic, args.force, *config_probe),
                    None => PackageResult::Ignored,
                })
            },
    {
        let (mut ops, bin_outcome) = match self.install_bin(
            key,
            args,
            cwd,
            bin_dir,
            data_dir,
            data_probe,
            bin_probe,
        ) {
            Ok(p) => p,
            Err(e) => {
                return Err(e);
            },
        };
        let (mut config_ops, config_outcome) = self.install_config(args, config_dir, config_probe);
        ops.append(&mut config_ops);
        proof {
            assert(ops_view(ops@) =~= self.install_bin_ops_spec(
                args.symbolic,
                args.force,
                cwd@,
                bin_dir@,
                data_dir@,
                key@,
                *data_probe,
                *bin_probe,
            ) + (match self.config {
                Some(c) => install_files_ops(
                    c@,
                    self.config_path_spec(config_dir@),
                    args.symbolic,
                    args.force,
                    *config_probe,
                ),
                None => Seq::<FsOpSpec>::empty(),
            }));
        }
        Ok((ops, (bin_outcome, config_outcome)))
    }

    /// Plans the removal of the binary, and of the installed tree when a
    /// library is declared.
    pub fn remove_bin(
        &self,
        key: &String,
        args: &Args,
        bin_dir: &String,
        data_dir: &String,
        data_probe: &ArtifactProbe,
        bin_probe: &ArtifactProbe,
    ) -> (r: (Vec<FsOp>, PackageResult))
        requires
            bin_probe.consistent(args.force),
            self.lib is Some ==> data_probe.consistent(args.force),
        ensures
            ops_view(r.0@) == (match self.lib {
                Some(_) => remove_files_ops(
                    self.data_path_spec(data_dir@, key@),
                    args.force,
                    *data_probe,
                ),
                None => Seq::<FsOpSpec>::empty(),
            }) + remove_files_ops(self.bin_path_spec(bin_dir@), args.force, *bin_probe),
            r.1 == remove_files_outcome(args.force, *bin_probe),
    {
        let bin_path = self.get_bin_path(bin_dir);
        let mut ops: Vec<FsOp> = Vec::new();
        if self.lib.is_some() {
            let data_path = join_path(data_dir, key);
            let (mut data_ops, _data_outcome) = remove_files_plan(
                &data_path,
                args.force,
                data_probe,
            );
            ops.append(&mut data_ops);
        }
        let (mut bin_ops, outcome) = remove_files_plan(&bin_path, args.force, bin_probe);
        ops.append(&mut bin_ops);
        proof {
            assert(ops_view(ops@) =~= (match self.lib {
                Some(_) => remove_files_ops(
                    self.data_path_spec(data_dir@, key@),
                    args.force,
                    *data_probe,
                ),
                None => Seq::<FsOpSpec>::empty(),
            }) + remove_files_ops(self.bin_path_spec(bin_dir@), args.force, *bin_probe));
        }
        (ops, outcome)
    }

    /// Plans the removal of the configuration artifact; a tool without
    /// one reports `Ignored`.
    pub fn remove_config(&self, args: &Args, config_dir: &String, probe: &ArtifactProbe) -> (r: (
        Vec<FsOp>,
        PackageResult,
    ))
        requires
            self.config is Some ==> probe.consistent(args.force),
        ensures
            self.config is Some ==> ops_view(r.0@) == remove_files_ops(
                self.config_path_spec(config_dir@),
                args.force,
                *probe,
            ) && r.1 == remove_files_outcome(args.force, *probe),
            self.config is None ==> r.0@.len() == 0 && r.1 == PackageResult::Ignored,
    {
        match self.get_config_path(config_dir) {
            None => (Vec::new(), PackageResult::Ignored),
            Some(path) => remove_files_plan(&path, args.force, probe),
        }
    }

    /// Plans the removal of the whole tool: its binary (and tree), then
    /// its configuration.
    pub fn remove(
        &self,
        key: &String,
        args: &Args,
        bin_dir: &String,
        config_dir: &String,
        data_dir: &String,
        data_probe: &ArtifactProbe,
        bin_probe: &ArtifactProbe,
        config_probe: &ArtifactProbe,
    ) -> (r: (Vec<FsOp>, PackageInfo))
        requires
            bin_probe.consistent(args.force),
            self.lib is Some ==> data_probe.consistent(args.force),
            self.config is Some ==> config_probe.consistent(args.force),
        ensures
            ops_view(r.0@) == (match self.lib {
                Some(_) => remove_files_ops(
                    self.data_path_spec(data_dir@, key@),
                    args.force,
                    *data_probe,
                ),
                None => Seq::<FsOpSpec>::empty(),
            }) + remove_files_ops(self.bin_path_spec(bin_dir@), args.force, *bin_probe) + (
            match self.config {
                Some(_) => remove_files_ops(
                    self.config_path_spec(config_dir@),
                    args.force,
                    *config_probe,
                ),
                None => Seq::<FsOpSpec>::empty(),
            }),
            r.1.0 == remove_files_outcome(args.force, *bin_probe),
            r.1.1 == (match self.config {
                Some(_) => remove_files_outcome(args.force, *config_probe),
                None => PackageResult::Ignored,
            }),
    {
        let (mut ops, bin_outcome) = self.remove_bin(
            key,
            args,
            bin_dir,
            data_dir,
            data_probe,
            bin_probe,
        );
        let (mut config_ops, config_outcome) = self.remove_config(args, config_dir, config_probe);
        ops.append(&mut config_ops);
        proof {
            assert(ops_view(ops@) =~= (match self.lib {
                Some(_) => remove_files_ops(
                    self.data_path_spec(data_dir@, key@),
                    args.force,
                    *data_probe,
                ),
                None => Seq::<FsOpSpec>::empty(),
            }) + remove_files_ops(self.bin_path_spec(bin_dir@), args.force, *bin_probe) + (
            match self.config {
                Some(_) => remove_files_ops(
                    self.config_path_spec(config_dir@),
                    args.force,
                    *config_probe,
                ),
                None => Seq::<FsOpSpec>::empty(),
            }));
        }
        (ops, (bin_outcome, config_outcome))
    }
}

} // verus!
