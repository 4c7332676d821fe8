//! The request that one command invocation works on: which action to run,
//! which tools and groups were asked for, and the flags that steer the
//! filesystem action layer.  Argument parsing itself happens outside the
//! library; it hands over a plain `Args` value.

use vstd::prelude::*;
use crate::config::Config;

verus! {

/// What the invocation is asked to do.
#[derive(Clone, Copy, Debug, PartialEq, Eq, Structural)]
pub enum Action {
    Install,
    Remove,
    Update,
    List,
}

/// A structured request, as the argument-parsing collaborator produces it.
#[derive(Clone, Debug)]
pub struct Args {
    pub action: Action,
    /// Path of the configuration file.
    pub config: String,
    /// Explicitly requested tool identifiers, if any.
    pub tools: Option<Vec<String>>,
    /// Explicitly requested group identifiers, if any.
    pub groups: Option<Vec<String>>,
    /// Install by symbolic link instead of by copy.
    pub symbolic: bool,
    /// Overwrite and delete without confirmation.
    pub force: bool,
    pub verbose: bool,
    /// Act on the editor alone.
    pub only_editor: bool,
    /// Act on the tools alone.
    pub except_editor: bool,
}

/// A request that cannot be acted on at all; nothing is done for it.
#[derive(Clone, Debug)]
pub enum RequestError {
    /// `only_editor` and `except_editor` were both set.
    ConflictingEditorFlags,
    /// Tools or groups were requested, but the catalog declares no tools.
    NoToolsConfigured,
    /// An explicitly requested tool identifier is absent from the catalog.
    UnknownTool { name: String },
    /// A requested group identifier is absent from the configuration.
    UnknownGroup { name: String },
    /// Resolution left tools or groups unsatisfied; their diagnostics
    /// were already gathered.
    UnsatisfiedDependencies,
}

impl RequestError {
    /// A human-readable description of the error, naming the offending
    /// identifier where there is one.
    pub fn message(&self) -> (r: String)
        ensures
            *self is ConflictingEditorFlags ==> r@
                == "You cannot provide 'only' and 'except' editor at once"@,
            *self is NoToolsConfigured ==> r@
                == "Please provide tools in your configuration before passing tools or groups as arguments"@,
            self matches RequestError::UnknownTool { name } ==> r@
                == "A package from arguments is not present in configuration: '"@ + name@ + "'"@,
            self matches RequestError::UnknownGroup { name } ==> r@ == "The group named '"@
                + name@ + "' does not exist in your configuration"@,
            *self is UnsatisfiedDependencies ==> r@ == " because of previous explanation"@,
    {
        proof {
            reveal_strlit("You cannot provide 'only' and 'except' editor at once");
            reveal_strlit("Please provide tools in your configuration before passing tools or groups as arguments");
            reveal_strlit("A package from arguments is not present in configuration: '");
            reveal_strlit("The group named '");
            reveal_strlit("' does not exist in your configuration");
            reveal_strlit("'");
            reveal_strlit(" because of previous explanation");
        }
        match self {
            RequestError::ConflictingEditorFlags => String::from_str(
                "You cannot provide 'only' and 'except' editor at once",
            ),
            RequestError::NoToolsConfigured => String::from_str(
                "Please provide tools in your configuration before passing tools or groups as arguments",
            ),
            RequestError::UnknownTool { name } => String::from_str(
                "A package from arguments is not present in configuration: '",
            ).concat(name.as_str()).concat("'"),
            RequestError::UnknownGroup { name } => String::from_str("The group named '").concat(
                name.as_str(),
            ).concat("' does not exist in your configuration"),
            RequestError::UnsatisfiedDependencies => String::from_str(
                " because of previous explanation",
            ),
        }
    }
}

impl Args {
    /// The same request widened to everything the configuration declares:
    /// every tool and every group becomes explicitly requested, as the
    /// listing action wants it.
    pub fn clone_with_everything(&self, config: &Config) -> (r: Args)
        ensures
            r.action == self.action,
            r.config@ == self.config@,
            r.symbolic == self.symbolic,
            r.force == self.force,
            r.verbose == self.verbose,
            r.only_editor == self.only_editor,
            r.except_editor == self.except_editor,
            match config.tools {
                Some(t) => r.tools matches Some(ks) && ks.len() == t.len() && forall|i: int|
                    0 <= i < t@.len() ==> (#[trigger] ks[i])@ == t@[i].0@,
                None => r.tools is None,
            },
            match config.groups {
                Some(g) => r.groups matches Some(ks) && ks.len() == g.len() && forall|i: int|
                    0 <= i < g@.len() ==> (#[trigger] ks[i])@ == g@[i].0@,
                None => r.groups is None,
            },
    {
        let tools: Option<Vec<String>> = match &config.tools {
            Some(t) => {
                let mut ks: Vec<String> = Vec::new();
                let mut i: usize = 0;
                while i < t.len()
                    invariant
                        0 <= i <= t@.len(),
                        ks@.len() == i,
                        forall|j: int| 0 <= j < i ==> (#[trigger] ks@[j])@ == t@[j].0@,
                    decreases t@.len() - i,
                {
                    ks.push(t[i].0.clone());
                    i = i + 1;
                }
                Some(ks)
            },
            None => None,
        };
        let groups: Option<Vec<String>> = match &config.groups {
            Some(g) => {
                let mut ks: Vec<String> = Vec::new();
                let mut i: usize = 0;
                while i < g.len()
                    invariant
                        0 <= i <= g@.len(),
                        ks@.len() == i,
                        forall|j: int| 0 <= j < i ==> (#[trigger] ks@[j])@ == g@[j].0@,
                    decreases g@.len() - i,
                {
                    ks.push(g[i].0.clone());
                    i = i + 1;
                }
                Some(ks)
            },
            None => None,
        };
        Args {
            action: self.action,
            config: self.config.clone(),
            tools,
            groups,
            symbolic: self.symbolic,
            force: self.force,
            verbose: self.verbose,
            only_editor: self.only_editor,
            except_editor: self.except_editor,
        }
    }

    /// The same request with the configured defaults added to its
    /// explicit selections: a request that named nothing takes the
    /// defaults as its selection, one that named tools or groups keeps
    /// them and gains the defaults after them.
    pub fn merge_defaults(
        &self,
        default_tools: &Option<Vec<String>>,
        default_groups: &Option<Vec<String>>,
    ) -> (r: Args)
        ensures
            r.action == self.action,
            r.config@ == self.config@,
            r.symbolic == self.symbolic,
            r.force == self.force,
            r.verbose == self.verbose,
            r.only_editor == self.only_editor,
            r.except_editor == self.except_editor,
            match default_tools {
                Some(d) => r.tools matches Some(ks) && ks.deep_view() == match self.tools {
                    Some(t) => t.deep_view() + d.deep_view(),
                    None => d.deep_view(),
                },
                None => match self.tools {
                    Some(t) => r.tools matches Some(ks) && ks@ == t@,
                    None => r.tools is None,
                },
            },
            match default_groups {
                Some(d) => r.groups matches Some(ks) && ks.deep_view() == match self.groups {
                    Some(g) => g.deep_view() + d.deep_view(),
                    None => d.deep_view(),
                },
                None => match self.groups {
                    Some(g) => r.groups matches Some(ks) && ks@ == g@,
                    None => r.groups is None,
                },
            },
    {
        Args {
            action: self.action,
            config: self.config.clone(),
            tools: merge_keys(&self.tools, default_tools),
            groups: merge_keys(&self.groups, default_groups),
            symbolic: self.symbolic,
            force: self.force,
            verbose: self.verbose,
            only_editor: self.only_editor,
            except_editor: self.except_editor,
        }
    }

    /// Rejects a request whose editor flags contradict each other; any other
    /// request passes through unchanged.
    pub fn validate(self) -> (r: Result<Self, RequestError>)
        ensures
            self.only_editor && self.except_editor <==> r is Err,
            r matches Err(e) ==> e is ConflictingEditorFlags,
            r matches Ok(a) ==> a == self,
    {
        if self.only_editor && self.except_editor {
            Err(RequestError::ConflictingEditorFlags)
        } else {
            Ok(self)
        }
    }
}

/// One selection list extended by a list of defaults; an absent
/// selection becomes the defaults alone.
fn merge_keys(base: &Option<Vec<String>>, defaults: &Option<Vec<String>>) -> (r: Option<
    Vec<String>,
>)
    ensures
        match defaults {
            Some(d) => r matches Some(ks) && ks.deep_view() == match base {
                Some(b) => b.deep_view() + d.deep_view(),
                None => d.deep_view(),
            },
            None => match base {
                Some(b) => r matches Some(ks) && ks@ == b@,
                None => r is None,
            },
        },
{
    match defaults {
        None => clone_keys_opt(base),
        Some(d) => {
            let mut ks: Vec<String> = match base {
                Some(b) => clone_keys(b),
                None => Vec::new(),
            };
            let mut i: usize = 0;
            while i < d.len()
                invariant
                    0 <= i <= d@.len(),
                    ks.deep_view() =~= (match base {
                        Some(b) => b.deep_view(),
                        None => Seq::<Seq<char>>::empty(),
                    }) + d.deep_view().subrange(0, i as int),
                decreases d@.len() - i,
            {
                let ghost prev_ks = ks.deep_view();
                ks.push(d[i].clone());
                proof {
                    assert(ks.deep_view() =~= prev_ks.push(d@[i as int]@));
                    assert(d.deep_view().subrange(0, i + 1 as int) =~= d.deep_view().subrange(
                        0,
                        i as int,
                    ).push(d.deep_view()[i as int]));
                }
                i = i + 1;
            }
            proof {
                assert(d.deep_view().subrange(0, d.deep_view().len() as int) =~= d.deep_view());
            }
            Some(ks)
        },
    }
}

/// A copy of an identifier list, preserving its contents.
fn clone_keys(b: &Vec<String>) -> (r: Vec<String>)
    ensures
        r.deep_view() == b.deep_view(),
        r@.len() == b@.len(),
{
    let mut ks: Vec<String> = Vec::new();
    let mut i: usize = 0;
    while i < b.len()
        invariant
            0 <= i <= b@.len(),
            ks.deep_view() =~= b.deep_view().subrange(0, i as int),
            ks@.len() == i,
        decreases b@.len() - i,
    {
        let ghost prev_ks = ks.deep_view();
        ks.push(b[i].clone());
        proof {
            assert(ks.deep_view() =~= prev_ks.push(b@[i as int]@));
            assert(ks.deep_view() =~= b.deep_view().subrange(0, i + 1 as int));
        }
        i = i + 1;
    }
    proof {
        assert(b.deep_view().subrange(0, b.deep_view().len() as int) =~= b.deep_view());
    }
    ks
}

/// A copy of an optional identifier list, preserving its contents.
fn clone_keys_opt(b: &Option<Vec<String>>) -> (r: Option<Vec<String>>)
    ensures
        match b {
            Some(v) => r matches Some(ks) && ks@ == v@,
            None => r is None,
        },
{
    match b {
        None => None,
        Some(v) => {
            let mut ks: Vec<String> = Vec::new();
            let mut i: usize = 0;
            while i < v.len()
                invariant
                    0 <= i <= v@.len(),
                    ks@ =~= v@.subrange(0, i as int),
                decreases v@.len() - i,
            {
                ks.push(v[i].clone());
                proof {
                    assert(ks@ =~= v@.subrange(0, i + 1 as int));
                }
                i = i + 1;
            }
            proof {
                assert(v@.subrange(0, v@.len() as int) =~= v@);
            }
            Some(ks)
        },
    }
}

} // verus!
