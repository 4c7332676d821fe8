//! The editor: the one package every run handles unless asked not to.
//! It shares the filesystem action layer with the tools but stands
//! outside dependency resolution.

use vstd::prelude::*;
use crate::args::Args;
use crate::package::{
    ArtifactProbe, FsOp, PackageResult, install_files_ops, install_files_outcome,
    install_files_plan, ops_view, remove_files_ops, remove_files_outcome, remove_files_plan,
};
use crate::utils::{after_last_slash, join_path, join_spec};

verus! {

/// The editor record from the configuration.
#[derive(Clone, Debug)]
pub struct Editor {
    pub name: String,
    /// Source path of the editor's configuration.
    pub config: String,
    /// Source path of the editor's binary.
    pub binary: String,
    /// Source path of the editor's shared library, if one is declared.
    pub lib: Option<String>,
}

impl Editor {
    /// The name the binary is installed under: the file name of its
    /// source path, or the editor's name when none can be derived.
    pub open spec fn bin_name_spec(&self) -> Seq<char> {
        if after_last_slash(self.binary@).len() > 0 {
            after_last_slash(self.binary@)
        } else {
            self.name@
        }
    }

    /// The name the configuration is installed under.
    pub open spec fn config_name_spec(&self) -> Seq<char> {
        if after_last_slash(self.config@).len() > 0 {
            after_last_slash(self.config@)
        } else {
            self.name@
        }
    }

    /// Where the binary goes, under the executable directory.
    pub open spec fn bin_path_spec(&self, bin_dir: Seq<char>) -> Seq<char> {
        join_spec(bin_dir, self.bin_name_spec())
    }

    /// Where the configuration goes, under the configuration directory.
    pub open spec fn config_path_spec(&self, config_dir: Seq<char>) -> Seq<char> {
        join_spec(config_dir, self.config_name_spec())
    }

    pub fn get_bin_name(&self) -> (r: String)
        ensures
            r@ == self.bin_name_spec(),
    {
        match crate::utils::file_name(&self.binary) {
            Some(n) => n,
            None => self.name.clone(),
        }
    }

    pub fn get_bin_path(&self, bin_dir: &String) -> (r: String)
        ensures
            r@ == self.bin_path_spec(bin_dir@),
    {
        let name = self.get_bin_name();
        join_path(bin_dir, &name)
    }

    pub fn get_config_name(&self) -> (r: String)
        ensures
            r@ == self.config_name_spec(),
    {
        match crate::utils::file_name(&self.config) {
            Some(n) => n,
            None => self.name.clone(),
        }
    }

    pub fn get_config_path(&self, config_dir: &String) -> (r: String)
        ensures
            r@ == self.config_path_spec(config_dir@),
    {
        let name = self.get_config_name();
        join_path(config_dir, &name)
    }

    /// Plans the installation of the editor: its binary into the
    /// executable directory, then its configuration into the
    /// configuration directory, each through the action layer.
    pub fn try_install(
        &self,
        args: &Args,
        bin_dir: &String,
        config_dir: &String,
        bin_probe: &ArtifactProbe,
        config_probe: &ArtifactProbe,
    ) -> (r: (Vec<FsOp>, (PackageResult, PackageResult)))
        requires
            bin_probe.consistent(args.force),
            config_probe.consistent(args.force),
        ensures
            ops_view(r.0@) == install_files_ops(
                self.binary@,
                self.bin_path_spec(bin_dir@),
                args.symbolic,
                args.force,
                *bin_probe,
            ) + install_files_ops(
                self.config@,
                self.config_path_spec(config_dir@),
                args.symbolic,
                args.force,
                *config_probe,
            ),
            r.1.0 == install_files_outcome(args.symbolic, args.force, *bin_probe),
            r.1.1 == install_files_outcome(args.symbolic, args.force, *config_probe),
    {
        let bin_path = self.get_bin_path(bin_dir);
        let config_path = self.get_config_path(config_dir);
        let (mut ops, bin_res) = install_files_plan(
            &self.binary,
            &bin_path,
            args.symbolic,
            args.force,
            bin_probe,
        );
        let (mut config_ops, config_res) = install_files_plan(
            &self.config,
            &config_path,
            args.symbolic,
            args.force,
            config_probe,
        );
        ops.append(&mut config_ops);
        proof {
            assert(ops_view(ops@) =~= install_files_ops(
                self.binary@,
                self.bin_path_spec(bin_dir@),
                args.symbolic,
                args.force,
                *bin_probe,
            ) + install_files_ops(
                self.config@,
                self.config_path_spec(config_dir@),
                args.symbolic,
                args.force,
                *config_probe,
            ));
        }
        (ops, (bin_res, config_res))
    }

    /// Plans the removal of the editor's installed binary and
    /// configuration, each through the action layer.
    pub fn remove(
        &self,
        args: &Args,
        bin_dir: &String,
        config_dir: &String,
        bin_probe: &ArtifactProbe,
        config_probe: &ArtifactProbe,
    ) -> (r: (Vec<FsOp>, (PackageResult, PackageResult)))
        requires
            bin_probe.consistent(args.force),
            config_probe.consistent(args.force),
        ensures
            ops_view(r.0@) == remove_files_ops(
                self.bin_path_spec(bin_dir@),
                args.force,
                *bin_probe,
            ) + remove_files_ops(self.config_path_spec(config_dir@), args.force, *config_probe),
            r.1.0 == remove_files_outcome(args.force, *bin_probe),
            r.1.1 == remove_files_outcome(args.force, *config_probe),
    {
        let bin_path = self.get_bin_path(bin_dir);
        let config_path = self.get_config_path(config_dir);
        let (mut ops, bin_res) = remove_files_plan(&bin_path, args.force, bin_probe);
        let (mut config_ops, config_res) = remove_files_plan(&config_path, args.force, config_probe);
        ops.append(&mut config_ops);
        proof {
            assert(ops_view(ops@) =~= remove_files_ops(
                self.bin_path_spec(bin_dir@),
                args.force,
                *bin_probe,
            ) + remove_files_ops(self.config_path_spec(config_dir@), args.force, *config_probe));
        }
        (ops, (bin_res, config_res))
    }
}

} // verus!
