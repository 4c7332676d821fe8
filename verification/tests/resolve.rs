use editor::args::{Action, Args, RequestError};
use editor::config::Config;
use editor::dependencies::{Dependencies, DependencyErrorType};
use editor::editor::Editor;
use editor::group::Group;
use editor::tool::Tool;

fn s(x: &str) -> String {
    x.to_string()
}

fn tool(name: &str, bin: &str, deps: Option<Vec<&str>>) -> Tool {
    Tool {
        name: s(name),
        bin: s(bin),
        config: None,
        lib: None,
        dependencies: deps.map(|d| d.into_iter().map(s).collect()),
    }
}

fn ed() -> Editor {
    Editor {
        name: s("ed"),
        config: s("/src/ed/config"),
        binary: s("/src/ed/bin"),
        lib: None,
    }
}

fn config(tools: Vec<(&str, Tool)>, groups: Vec<(&str, Group)>) -> Config {
    Config {
        editor: ed(),
        tools: Some(tools.into_iter().map(|(k, t)| (s(k), t)).collect()),
        groups: if groups.is_empty() {
            None
        } else {
            Some(groups.into_iter().map(|(k, g)| (s(k), g)).collect())
        },
        default_groups: None,
        default_tools: None,
    }
}

fn request(tools: Option<Vec<&str>>, groups: Option<Vec<&str>>) -> Args {
    Args {
        action: Action::Install,
        config: s("config.toml"),
        tools: tools.map(|t| t.into_iter().map(s).collect()),
        groups: groups.map(|g| g.into_iter().map(s).collect()),
        symbolic: false,
        force: false,
        verbose: false,
        only_editor: false,
        except_editor: false,
    }
}

fn sat_contains(d: &Dependencies, k: &str) -> bool {
    d.satisfied_tools.iter().any(|t| t == k)
}

fn unsat_contains(d: &Dependencies, k: &str) -> bool {
    d.unsatisfied_tools.iter().any(|u| u.tool == k)
}

#[test]
fn chain_fully_satisfied() {
    // catalog {A: deps=[B], B: deps=[]}, request tools=[A]
    let c = config(
        vec![("A", tool("a", "/bin/a", Some(vec!["B"]))), ("B", tool("b", "/bin/b", None))],
        vec![],
    );
    let d = c.get_dependencies(&request(Some(vec!["A"]), None)).unwrap();
    assert!(sat_contains(&d, "A"));
    assert!(sat_contains(&d, "B"));
    assert_eq!(d.unsatisfied_tools.len(), 0);
}

#[test]
fn missing_dependency_not_found() {
    // catalog {A: deps=[B]} with B absent, request tools=[A]
    let c = config(vec![("A", tool("a", "/bin/a", Some(vec!["B"])))], vec![]);
    let d = c.get_dependencies(&request(Some(vec!["A"]), None)).unwrap();
    assert_eq!(d.satisfied_tools.len(), 0);
    assert_eq!(d.unsatisfied_tools.len(), 1);
    let u = &d.unsatisfied_tools[0];
    assert_eq!(u.tool, "A");
    let reasons = u.required.as_ref().unwrap();
    assert_eq!(reasons.len(), 1);
    assert_eq!(reasons[0].0, "B");
    assert!(matches!(reasons[0].1, DependencyErrorType::NotFound));
}

#[test]
fn broken_dependency_propagates() {
    // C -> A -> ghost: A gets "not found", C gets "invalid chain"
    let c = config(
        vec![
            ("A", tool("a", "/bin/a", Some(vec!["ghost"]))),
            ("C", tool("c", "/bin/c", Some(vec!["A"]))),
        ],
        vec![],
    );
    let d = c.get_dependencies(&request(None, None)).unwrap();
    assert!(unsat_contains(&d, "A"));
    assert!(unsat_contains(&d, "C"));
    let uc = d.unsatisfied_tools.iter().find(|u| u.tool == "C").unwrap();
    let reasons = uc.required.as_ref().unwrap();
    assert!(reasons
        .iter()
        .any(|(dep, e)| dep == "A" && matches!(e, DependencyErrorType::UnSatisfiedDepencies)));
}

#[test]
fn cycle_terminates_and_is_satisfied() {
    // A and B depend on each other and nothing else is broken
    let c = config(
        vec![
            ("A", tool("a", "/bin/a", Some(vec!["B"]))),
            ("B", tool("b", "/bin/b", Some(vec!["A"]))),
        ],
        vec![],
    );
    let d = c.get_dependencies(&request(Some(vec!["A"]), None)).unwrap();
    assert!(sat_contains(&d, "A"));
    assert!(sat_contains(&d, "B"));
}

#[test]
fn cycle_broken_by_third_party() {
    // A and B form a cycle, and B also needs a ghost: both fall
    let c = config(
        vec![
            ("A", tool("a", "/bin/a", Some(vec!["B"]))),
            ("B", tool("b", "/bin/b", Some(vec!["A", "ghost"]))),
        ],
        vec![],
    );
    let d = c.get_dependencies(&request(Some(vec!["A"]), None)).unwrap();
    assert!(unsat_contains(&d, "A"));
    assert!(unsat_contains(&d, "B"));
    assert_eq!(d.satisfied_tools.len(), 0);
}

#[test]
fn no_selection_takes_whole_catalog() {
    let c = config(
        vec![
            ("A", tool("a", "/bin/a", None)),
            ("B", tool("b", "/bin/b", None)),
            ("C", tool("c", "/bin/c", Some(vec!["A"]))),
        ],
        vec![],
    );
    let d = c.get_dependencies(&request(None, None)).unwrap();
    for k in ["A", "B", "C"] {
        assert!(d.checked_tool_keys.iter().any(|x| x == k));
        assert!(sat_contains(&d, k));
    }
}

#[test]
fn unknown_requested_tool_is_a_hard_error() {
    let c = config(vec![("A", tool("a", "/bin/a", None))], vec![]);
    let r = c.get_dependencies(&request(Some(vec!["zzz"]), None));
    match r {
        Err(RequestError::UnknownTool { name }) => assert_eq!(name, "zzz"),
        _ => panic!("expected an unknown-tool error"),
    }
}

#[test]
fn group_with_unsatisfied_member() {
    // group G = [A, B]; A resolves, B does not
    let c = config(
        vec![
            ("A", tool("a", "/bin/a", None)),
            ("B", tool("b", "/bin/b", Some(vec!["ghost"]))),
        ],
        vec![(
            "G",
            Group { name: s("g"), dependencies: vec![s("A"), s("B")] },
        )],
    );
    let d = c.get_dependencies(&request(None, Some(vec!["G"]))).unwrap();
    assert_eq!(d.satisfied_groups.len(), 0);
    assert_eq!(d.unsatisfied_groups.len(), 1);
    let g = &d.unsatisfied_groups[0];
    assert_eq!(g.group, "G");
    assert_eq!(g.unsatisfied_tools, vec![s("B")]);
}

#[test]
fn group_with_all_members_satisfied() {
    let c = config(
        vec![("A", tool("a", "/bin/a", None)), ("B", tool("b", "/bin/b", None))],
        vec![(
            "G",
            Group { name: s("g"), dependencies: vec![s("A"), s("B")] },
        )],
    );
    let d = c.get_dependencies(&request(None, Some(vec!["G"]))).unwrap();
    assert_eq!(d.satisfied_groups, vec![s("G")]);
    assert_eq!(d.unsatisfied_groups.len(), 0);
    assert!(sat_contains(&d, "A"));
    assert!(sat_contains(&d, "B"));
}

#[test]
fn unknown_group_is_silently_skipped_in_resolution() {
    let c = config(vec![("A", tool("a", "/bin/a", None))], vec![]);
    let d = c.get_dependencies(&request(None, Some(vec!["nope"]))).unwrap();
    assert_eq!(d.satisfied_groups.len(), 0);
    assert_eq!(d.unsatisfied_groups.len(), 0);
    assert_eq!(d.satisfied_tools.len(), 0);
}

#[test]
fn empty_catalog_resolves_to_nothing() {
    let c = Config {
        editor: ed(),
        tools: None,
        groups: None,
        default_groups: None,
        default_tools: None,
    };
    let d = c.get_dependencies(&request(None, None)).unwrap();
    assert_eq!(d.checked_tool_keys.len(), 0);
    assert_eq!(d.satisfied_tools.len(), 0);
    assert_eq!(d.unsatisfied_tools.len(), 0);
}

#[test]
fn validate_rejects_conflicting_editor_flags() {
    let mut a = request(None, None);
    a.only_editor = true;
    a.except_editor = true;
    assert!(matches!(a.validate(), Err(RequestError::ConflictingEditorFlags)));
    let b = request(None, None);
    assert!(b.validate().is_ok());
}

#[test]
fn validate_needs_a_catalog() {
    // tools or groups requested without a tool catalog is fatal; a bare
    // request over an empty configuration is not
    let c = Config {
        editor: ed(),
        tools: None,
        groups: None,
        default_groups: None,
        default_tools: None,
    };
    let r = c.validate(&request(Some(vec!["A"]), None));
    assert!(matches!(r, Err(RequestError::NoToolsConfigured)));
    let r = c.validate(&request(None, Some(vec!["G"])));
    assert!(matches!(r, Err(RequestError::NoToolsConfigured)));
    let r = c.validate(&request(None, None));
    assert!(r.is_ok());
}

#[test]
fn cycle_break_is_consistent_regardless_of_order() {
    // B is expanded first, drags A into the cycle, and only then finds
    // its missing dependency: both must still fall together
    let c = config(
        vec![
            ("A", tool("a", "/bin/a", Some(vec!["B"]))),
            ("B", tool("b", "/bin/b", Some(vec!["A", "ghost"]))),
        ],
        vec![],
    );
    let d = c.get_dependencies(&request(Some(vec!["B", "A"]), None)).unwrap();
    assert!(unsat_contains(&d, "A"));
    assert!(unsat_contains(&d, "B"));
    assert_eq!(d.satisfied_tools.len(), 0);
    let ua = d.unsatisfied_tools.iter().find(|u| u.tool == "A").unwrap();
    assert!(ua
        .required
        .as_ref()
        .unwrap()
        .iter()
        .any(|(dep, e)| dep == "B" && matches!(e, DependencyErrorType::UnSatisfiedDepencies)));
}

#[test]
fn groups_are_judged_without_a_tool_catalog() {
    // no tools configured: a member-less requested group is vacuously
    // satisfied, one with members is not
    let c = Config {
        editor: ed(),
        tools: None,
        groups: Some(vec![
            (s("E"), Group { name: s("e"), dependencies: vec![] }),
            (s("F"), Group { name: s("f"), dependencies: vec![s("A")] }),
        ]),
        default_groups: None,
        default_tools: None,
    };
    let d = c.get_dependencies(&request(None, Some(vec!["E", "F"]))).unwrap();
    assert_eq!(d.satisfied_groups, vec![s("E")]);
    assert_eq!(d.unsatisfied_groups.len(), 1);
    assert_eq!(d.unsatisfied_groups[0].group, "F");
    assert_eq!(d.unsatisfied_groups[0].unsatisfied_tools, vec![s("A")]);
    assert_eq!(d.satisfied_tools.len(), 0);
}

#[test]
fn validate_rejects_unknown_group() {
    let c = config(vec![("A", tool("a", "/bin/a", None))], vec![]);
    let r = c.validate(&request(None, Some(vec!["G"])));
    match r {
        Err(RequestError::UnknownGroup { name }) => assert_eq!(name, "G"),
        _ => panic!("expected an unknown-group error"),
    }
}

#[test]
fn validate_rejects_unsatisfied_resolution() {
    let c = config(vec![("A", tool("a", "/bin/a", Some(vec!["ghost"])))], vec![]);
    let r = c.validate(&request(Some(vec!["A"]), None));
    assert!(matches!(r, Err(RequestError::UnsatisfiedDependencies)));
}

#[test]
fn validate_accepts_a_clean_request() {
    let c = config(vec![("A", tool("a", "/bin/a", None))], vec![]);
    let d = c.validate(&request(Some(vec!["A"]), None)).unwrap();
    assert!(sat_contains(&d, "A"));
    assert_eq!(d.unsatisfied_tools.len(), 0);
}

#[test]
fn invalid_paths_unseat_a_satisfied_tool() {
    let c = config(vec![("A", tool("a", "/bin/a", None))], vec![]);
    let mut d = c.get_dependencies(&request(Some(vec!["A"]), None)).unwrap();
    assert!(sat_contains(&d, "A"));
    d.record_invalid_paths(&s("A"), vec![(s("bin"), s("/bin/a"))]);
    assert!(!sat_contains(&d, "A"));
    assert!(unsat_contains(&d, "A"));
    let tag = d.get_path_error(&s("A"), &s("bin")).unwrap();
    assert_eq!(tag, "INVALID PATH");
    let none_tag = d.get_path_error(&s("A"), &s("lib")).unwrap();
    assert_eq!(none_tag, "");
}

#[test]
fn record_invalid_paths_with_nothing_invalid_changes_nothing() {
    let c = config(vec![("A", tool("a", "/bin/a", None))], vec![]);
    let mut d = c.get_dependencies(&request(Some(vec!["A"]), None)).unwrap();
    d.record_invalid_paths(&s("A"), vec![]);
    assert!(sat_contains(&d, "A"));
    assert_eq!(d.unsatisfied_tools.len(), 0);
}

#[test]
fn error_tags_render_exactly() {
    assert_eq!(
        DependencyErrorType::NotFound.to_uppercase(),
        "\x1b[0;31mNOT FOUND\x1b[0m"
    );
    assert_eq!(
        DependencyErrorType::UnSatisfiedDepencies.to_uppercase(),
        "\x1b[0;33mINVALID DEPENDENCY\x1b[0m"
    );
}

#[test]
fn diagnostics_queries() {
    let c = config(vec![("A", tool("a", "/bin/a", Some(vec!["ghost"])))], vec![]);
    let d = c.get_dependencies(&request(Some(vec!["A"]), None)).unwrap();
    assert!(d.as_errors(&s("A")));
    assert!(!d.as_errors(&s("B")));
    let tag = d.get_error_dependencies(&s("A"), &s("ghost")).unwrap();
    assert_eq!(tag, "\x1b[0;31mNOT FOUND\x1b[0m");
    let other = d.get_error_dependencies(&s("A"), &s("elsewhere")).unwrap();
    assert_eq!(other, "");
    assert!(d.get_error_dependencies(&s("B"), &s("ghost")).is_none());
    assert!(d.validate().is_err());
}

#[test]
fn clone_with_everything_selects_all() {
    let c = config(
        vec![("A", tool("a", "/bin/a", None)), ("B", tool("b", "/bin/b", None))],
        vec![("G", Group { name: s("g"), dependencies: vec![s("A")] })],
    );
    let a = request(None, None).clone_with_everything(&c);
    assert_eq!(a.tools.unwrap(), vec![s("A"), s("B")]);
    assert_eq!(a.groups.unwrap(), vec![s("G")]);
}

#[test]
fn merge_defaults_appends_to_the_request() {
    let base = request(Some(vec!["A"]), None);
    let merged = base.merge_defaults(&Some(vec![s("D")]), &Some(vec![s("G")]));
    assert_eq!(merged.tools.unwrap(), vec![s("A"), s("D")]);
    assert_eq!(merged.groups.unwrap(), vec![s("G")]);
    let untouched = request(Some(vec!["A"]), None).merge_defaults(&None, &None);
    assert_eq!(untouched.tools.unwrap(), vec![s("A")]);
    assert!(untouched.groups.is_none());
}

#[test]
fn missing_defaults_are_reported_in_order() {
    let mut c = config(vec![("A", tool("a", "/bin/a", None))], vec![]);
    c.default_tools = Some(vec![s("A"), s("X"), s("Y")]);
    c.default_groups = Some(vec![s("G")]);
    let (mt, mg) = c.missing_defaults();
    assert_eq!(mt, vec![s("X"), s("Y")]);
    assert_eq!(mg, vec![s("G")]);
}

#[test]
fn explicit_tools_win_over_groups() {
    // first match wins: with tools named, group members are not expanded,
    // but the requested group is still judged against the satisfied set
    let c = config(
        vec![("A", tool("a", "/bin/a", None)), ("B", tool("b", "/bin/b", None))],
        vec![("G", Group { name: s("g"), dependencies: vec![s("B")] })],
    );
    let d = c.get_dependencies(&request(Some(vec!["A"]), Some(vec!["G"]))).unwrap();
    assert!(sat_contains(&d, "A"));
    assert!(!sat_contains(&d, "B"));
    assert_eq!(d.unsatisfied_groups.len(), 1);
    assert_eq!(d.unsatisfied_groups[0].unsatisfied_tools, vec![s("B")]);
}

#[test]
fn break_deep_in_the_closure_propagates_to_the_root() {
    let c = config(
        vec![
            ("A", tool("a", "/bin/a", Some(vec!["B"]))),
            ("B", tool("b", "/bin/b", Some(vec!["C"]))),
            ("C", tool("c", "/bin/c", Some(vec!["ghost"]))),
        ],
        vec![],
    );
    let d = c.get_dependencies(&request(Some(vec!["A"]), None)).unwrap();
    for k in ["A", "B", "C"] {
        assert!(unsat_contains(&d, k));
    }
    let ua = d.unsatisfied_tools.iter().find(|u| u.tool == "A").unwrap();
    let reasons = ua.required.as_ref().unwrap();
    assert!(reasons
        .iter()
        .any(|(dep, e)| dep == "B" && matches!(e, DependencyErrorType::UnSatisfiedDepencies)));
}

#[test]
fn diamond_dependency_is_resolved_once() {
    // B and C both need D; everything stands
    let c = config(
        vec![
            ("A", tool("a", "/bin/a", Some(vec!["B", "C"]))),
            ("B", tool("b", "/bin/b", Some(vec!["D"]))),
            ("C", tool("c", "/bin/c", Some(vec!["D"]))),
            ("D", tool("d", "/bin/d", None)),
        ],
        vec![],
    );
    let d = c.get_dependencies(&request(Some(vec!["A"]), None)).unwrap();
    for k in ["A", "B", "C", "D"] {
        assert!(sat_contains(&d, k));
    }
    // the cycle guard expanded each identifier exactly once
    assert_eq!(d.checked_tool_keys.len(), 4);
}

#[test]
fn request_error_messages_name_the_offender() {
    let m = RequestError::UnknownTool { name: s("rg") }.message();
    assert_eq!(
        m,
        "A package from arguments is not present in configuration: 'rg'"
    );
    assert!(RequestError::NoToolsConfigured.message().len() > 0);
}
