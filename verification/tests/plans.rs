use editor::args::{Action, Args};
use editor::editor::Editor;
use editor::package::{
    ArtifactProbe, FsOp, PackageResult, accepts_overwrite, declines_removal, install_files_plan,
    needs_overwrite_prompt, remove_files_plan,
};
use editor::tool::Tool;
use editor::utils;

fn s(x: &str) -> String {
    x.to_string()
}

fn args(symbolic: bool, force: bool) -> Args {
    Args {
        action: Action::Install,
        config: s("config.toml"),
        tools: None,
        groups: None,
        symbolic,
        force,
        verbose: false,
        only_editor: false,
        except_editor: false,
    }
}

fn no_probe() -> ArtifactProbe {
    ArtifactProbe { dest_exists: false, answer: None }
}

fn occupied(answer: &str) -> ArtifactProbe {
    ArtifactProbe { dest_exists: true, answer: Some(s(answer)) }
}

fn forced_occupied() -> ArtifactProbe {
    ArtifactProbe { dest_exists: true, answer: None }
}

#[test]
fn overwrite_tokens_are_exact() {
    assert!(accepts_overwrite(&s("y")));
    assert!(!accepts_overwrite(&s("Y")));
    assert!(!accepts_overwrite(&s("yes")));
    assert!(!accepts_overwrite(&s("")));
    assert!(declines_removal(&s("n")));
    assert!(!declines_removal(&s("N")));
    assert!(!declines_removal(&s("")));
    assert!(!declines_removal(&s("y")));
    assert!(needs_overwrite_prompt(false, true));
    assert!(!needs_overwrite_prompt(true, true));
    assert!(!needs_overwrite_prompt(false, false));
}

#[test]
fn declined_overwrite_cancels_and_plans_nothing() {
    // force off, destination occupied, confirmation declined
    let (ops, outcome) = install_files_plan(&s("/src/x"), &s("/dst/x"), false, false, &occupied("no"));
    assert_eq!(ops.len(), 0);
    assert!(matches!(outcome, PackageResult::Canceled));
}

#[test]
fn forced_install_always_places() {
    let (ops, outcome) = install_files_plan(&s("/src/x"), &s("/dst/x"), false, true, &forced_occupied());
    assert!(matches!(outcome, PackageResult::Installed));
    assert_eq!(ops.len(), 2);
    assert_eq!(ops[0], FsOp::RemoveAll { path: s("/dst/x") });
    assert_eq!(ops[1], FsOp::Copy { from: s("/src/x"), to: s("/dst/x") });
}

#[test]
fn accepted_overwrite_replaces() {
    let (ops, outcome) = install_files_plan(&s("/src/x"), &s("/dst/x"), false, false, &occupied("y"));
    assert!(matches!(outcome, PackageResult::Installed));
    assert_eq!(ops.len(), 2);
    assert_eq!(ops[0], FsOp::RemoveAll { path: s("/dst/x") });
}

#[test]
fn free_destination_is_placed_directly() {
    let (ops, outcome) = install_files_plan(&s("/src/x"), &s("/dst/x"), false, false, &no_probe());
    assert!(matches!(outcome, PackageResult::Installed));
    assert_eq!(ops, vec![FsOp::Copy { from: s("/src/x"), to: s("/dst/x") }]);
}

#[test]
fn symbolic_install_links_back_to_the_source() {
    // the planned link names the source, so resolving the destination
    // leads back to it
    let (ops, outcome) = install_files_plan(&s("/src/x"), &s("/dst/x"), true, false, &no_probe());
    assert!(matches!(outcome, PackageResult::Linked));
    assert_eq!(ops, vec![FsOp::Symlink { original: s("/src/x"), link: s("/dst/x") }]);
}

#[test]
fn removal_matrix() {
    let (ops, outcome) = remove_files_plan(&s("/dst/x"), false, &no_probe());
    assert_eq!(ops.len(), 0);
    assert!(matches!(outcome, PackageResult::Ignored));

    let (ops, outcome) = remove_files_plan(&s("/dst/x"), true, &forced_occupied());
    assert_eq!(ops, vec![FsOp::RemoveAll { path: s("/dst/x") }]);
    assert!(matches!(outcome, PackageResult::Removed));

    let (ops, outcome) = remove_files_plan(&s("/dst/x"), false, &occupied("n"));
    assert_eq!(ops.len(), 0);
    assert!(matches!(outcome, PackageResult::Canceled));

    // removal defaults to proceeding: anything but the negative token accepts
    let (ops, outcome) = remove_files_plan(&s("/dst/x"), false, &occupied("whatever"));
    assert_eq!(ops.len(), 1);
    assert!(matches!(outcome, PackageResult::Removed));
}

#[test]
fn tool_install_without_library() {
    let t = Tool {
        name: s("rg"),
        bin: s("/src/rg/bin"),
        config: Some(s("/src/rg/config.toml")),
        lib: None,
        dependencies: None,
    };
    let r = t
        .install(
            &s("rg"),
            &args(false, false),
            &s("/cwd"),
            &s("/home/u/.local/bin"),
            &s("/home/u/.config"),
            &s("/home/u/.local/share"),
            &no_probe(),
            &no_probe(),
            &no_probe(),
        )
        .unwrap();
    let (ops, (bin_res, config_res)) = r;
    assert!(matches!(bin_res, PackageResult::Installed));
    assert!(matches!(config_res, PackageResult::Installed));
    assert_eq!(
        ops,
        vec![
            FsOp::Copy { from: s("/src/rg/bin"), to: s("/home/u/.local/bin/rg") },
            FsOp::Copy { from: s("/src/rg/config.toml"), to: s("/home/u/.config/config.toml") },
        ]
    );
}

#[test]
fn tool_install_with_library_copies_the_shared_tree() {
    // the catalog identifier keys the data tree; the display name keys
    // the executable entry
    let t = Tool {
        name: s("helix"),
        bin: s("/opt/hx/bin/hx"),
        config: None,
        lib: Some(s("/opt/hx/lib/libhx.so")),
        dependencies: None,
    };
    let r = t
        .install(
            &s("hx"),
            &args(false, false),
            &s("/cwd"),
            &s("/bin.d"),
            &s("/cfg.d"),
            &s("/data.d"),
            &no_probe(),
            &no_probe(),
            &no_probe(),
        )
        .unwrap();
    let (ops, (bin_res, _)) = r;
    // the tree /opt/hx goes under the data directory, and the executable
    // directory links to the binary inside that copy
    assert!(matches!(bin_res, PackageResult::Linked));
    assert_eq!(
        ops,
        vec![
            FsOp::Copy { from: s("/opt/hx"), to: s("/data.d/hx") },
            FsOp::Symlink { original: s("/data.d/hx/bin/hx"), link: s("/bin.d/helix") },
        ]
    );
}

#[test]
fn tool_install_with_unrelated_library_fails() {
    let t = Tool {
        name: s("hx"),
        bin: s("bin/hx"),
        config: None,
        lib: Some(s("/lib/libhx.so")),
        dependencies: None,
    };
    // a relative binary under /cwd shares no prefix with /lib
    let r = t.install(
        &s("hx"),
        &args(false, false),
        &s("cwd"),
        &s("/bin.d"),
        &s("/cfg.d"),
        &s("/data.d"),
        &no_probe(),
        &no_probe(),
        &no_probe(),
    );
    assert!(r.is_err());
    let msg = r.err().unwrap().message();
    assert!(msg.starts_with("No common ancestor for '"));
}

#[test]
fn tool_remove_clears_tree_binary_and_configuration() {
    let t = Tool {
        name: s("hx"),
        bin: s("/opt/hx/bin/hx"),
        config: Some(s("/opt/hx/config.toml")),
        lib: Some(s("/opt/hx/lib/libhx.so")),
        dependencies: None,
    };
    let (ops, (bin_res, config_res)) = t.remove(
        &s("hx"),
        &args(false, true),
        &s("/bin.d"),
        &s("/cfg.d"),
        &s("/data.d"),
        &forced_occupied(),
        &forced_occupied(),
        &forced_occupied(),
    );
    assert!(matches!(bin_res, PackageResult::Removed));
    assert!(matches!(config_res, PackageResult::Removed));
    assert_eq!(
        ops,
        vec![
            FsOp::RemoveAll { path: s("/data.d/hx") },
            FsOp::RemoveAll { path: s("/bin.d/hx") },
            FsOp::RemoveAll { path: s("/cfg.d/config.toml") },
        ]
    );
}

#[test]
fn editor_install_and_remove_plans() {
    let e = Editor {
        name: s("vi"),
        config: s("/src/vi/init.lua"),
        binary: s("/src/vi/vi"),
        lib: None,
    };
    let (ops, (b, c)) = e.try_install(
        &args(true, false),
        &s("/bin.d"),
        &s("/cfg.d"),
        &no_probe(),
        &no_probe(),
    );
    assert!(matches!(b, PackageResult::Linked));
    assert!(matches!(c, PackageResult::Linked));
    assert_eq!(
        ops,
        vec![
            FsOp::Symlink { original: s("/src/vi/vi"), link: s("/bin.d/vi") },
            FsOp::Symlink { original: s("/src/vi/init.lua"), link: s("/cfg.d/init.lua") },
        ]
    );
    let (rops, (rb, rc)) = e.remove(
        &args(false, true),
        &s("/bin.d"),
        &s("/cfg.d"),
        &forced_occupied(),
        &forced_occupied(),
    );
    assert!(matches!(rb, PackageResult::Removed));
    assert!(matches!(rc, PackageResult::Removed));
    assert_eq!(
        rops,
        vec![
            FsOp::RemoveAll { path: s("/bin.d/vi") },
            FsOp::RemoveAll { path: s("/cfg.d/init.lua") },
        ]
    );
}

#[test]
fn invalid_paths_are_keyed_by_artifact() {
    let t = Tool {
        name: s("rg"),
        bin: s("/src/bin"),
        config: Some(s("/src/cfg")),
        lib: Some(s("/src/lib")),
        dependencies: None,
    };
    let all_missing = t.get_invalid_paths(false, false, false);
    assert_eq!(
        all_missing,
        vec![
            (s("bin"), s("/src/bin")),
            (s("lib"), s("/src/lib")),
            (s("config"), s("/src/cfg")),
        ]
    );
    let none_missing = t.get_invalid_paths(true, true, true);
    assert_eq!(none_missing.len(), 0);
    let map = t.generate_self_map();
    assert_eq!(map.len(), 3);
    assert_eq!(map[0], (s("bin"), Some(s("/src/bin"))));
    assert_eq!(map[1], (s("lib"), Some(s("/src/lib"))));
    assert_eq!(map[2], (s("config"), Some(s("/src/cfg"))));
}

#[test]
fn preflight_validate_names_the_first_missing_path() {
    let t = Tool {
        name: s("rg"),
        bin: s("/src/bin"),
        config: Some(s("/src/cfg")),
        lib: None,
        dependencies: None,
    };
    assert!(t.validate(true, true, true).is_ok());
    assert_eq!(t.validate(false, true, true).unwrap_err(), "'/src/bin' is not present");
    assert_eq!(t.validate(true, false, true).unwrap_err(), "'/src/cfg' is not present");
    // an undeclared artifact is never checked
    assert!(t.validate(true, true, false).is_ok());
}

#[test]
fn path_helpers_compute_exactly() {
    assert_eq!(utils::join_path(&s("/a/b"), &s("c")), "/a/b/c");
    assert_eq!(utils::join_path(&s("/a/b/"), &s("c")), "/a/b/c");
    assert_eq!(utils::join_path(&s(""), &s("c")), "c");
    assert_eq!(utils::file_name(&s("/a/b/c.txt")).unwrap(), "c.txt");
    assert_eq!(utils::file_name(&s("plain")).unwrap(), "plain");
    assert!(utils::file_name(&s("/a/b/")).is_none());
    assert!(utils::file_name(&s("")).is_none());
    assert_eq!(utils::make_absolute(&s("/x"), &s("/cwd")), "/x");
    assert_eq!(utils::make_absolute(&s("x"), &s("/cwd")), "/cwd/x");
    assert_eq!(utils::existence(true), "");
    assert_eq!(utils::existence(false), "(\x1b[0;31mNOT FOUND\x1b[0m)");
}

#[test]
fn components_round_trip() {
    let parts = utils::split_components(&s("/opt/hx/bin"));
    assert_eq!(parts, vec![s(""), s("opt"), s("hx"), s("bin")]);
    assert_eq!(utils::join_components(&parts), "/opt/hx/bin");
    let single = utils::split_components(&s("plain"));
    assert_eq!(single, vec![s("plain")]);
    assert_eq!(utils::join_components(&single), "plain");
}

#[test]
fn common_and_relative_paths() {
    let one = utils::split_components(&s("/opt/hx/bin/hx"));
    let two = utils::split_components(&s("/opt/hx/lib/libhx.so"));
    let common = utils::find_common_path(&one, &two);
    assert_eq!(utils::join_components(&common), "/opt/hx");
    let rel = utils::find_relative_path(&one, &common).unwrap();
    assert_eq!(utils::join_components(&rel), "bin/hx");
    let disjoint = utils::find_relative_path(&two, &one);
    assert!(disjoint.is_none());
}

#[test]
fn iter_includes_checks_membership() {
    let owner = vec![s("a"), s("b"), s("c")];
    assert!(utils::iter_includes(&owner, &vec![s("a"), s("c")]));
    assert!(!utils::iter_includes(&owner, &vec![s("a"), s("z")]));
    assert!(utils::iter_includes(&owner, &vec![]));
}
