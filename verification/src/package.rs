//! The filesystem action layer, as decisions rather than side effects.
//!
//! Installing or removing one artifact is described by a list of [`FsOp`]
//! values together with the [`PackageResult`] outcome the run summary
//! reports.  The functions here compute that list from the state of the
//! destination and from the user's answer to a confirmation prompt; an
//! unverified executor performs the operations in order and asks the
//! prompts.  A plan with no operations leaves the filesystem untouched.

use vstd::prelude::*;

verus! {

/// The outcome of handling one artifact of one package.
#[derive(Clone, Copy, Debug, PartialEq, Eq, Structural)]
pub enum PackageResult {
    /// The user declined a confirmation prompt; nothing was changed.
    Canceled,
    /// The artifact was deleted.
    Removed,
    /// No source or destination is configured for this artifact.
    Ignored,
    /// The artifact was copied to its destination.
    Installed,
    /// The destination was made a symbolic link to the source.
    Linked,
}

/// Outcomes for one package: its binary and its configuration.
pub type PackageInfo = (PackageResult, PackageResult);

/// One filesystem operation for the executor to perform.  Operations never
/// carry a decision: by the time a plan exists, every prompt has been asked.
#[derive(Clone, Debug, PartialEq, Eq)]
pub enum FsOp {
    /// Delete whatever is at `path`: a file, a symbolic link, or a whole
    /// directory tree.
    RemoveAll { path: String },
    /// Copy `from` to `to`; recursively when `from` is a directory.
    Copy { from: String, to: String },
    /// Create a symbolic link at `link` whose target is the absolute form
    /// of `original`.
    Symlink { original: String, link: String },
}

/// What one [`FsOp`] means, with its paths as character sequences; plans
/// are stated up to this view.
pub ghost enum FsOpSpec {
    RemoveAll { path: Seq<char> },
    Copy { from: Seq<char>, to: Seq<char> },
    Symlink { original: Seq<char>, link: Seq<char> },
}

impl View for FsOp {
    type V = FsOpSpec;

    open spec fn view(&self) -> FsOpSpec {
        match self {
            FsOp::RemoveAll { path } => FsOpSpec::RemoveAll { path: path@ },
            FsOp::Copy { from, to } => FsOpSpec::Copy { from: from@, to: to@ },
            FsOp::Symlink { original, link } => FsOpSpec::Symlink {
                original: original@,
                link: link@,
            },
        }
    }
}

/// The view of a whole plan.
pub open spec fn ops_view(ops: Seq<FsOp>) -> Seq<FsOpSpec> {
    ops.map_values(|op: FsOp| op@)
}

/// The operation that places one artifact: a link in symbolic mode, a copy
/// otherwise.
pub open spec fn place_op(from: Seq<char>, to: Seq<char>, symbolic: bool) -> FsOpSpec {
    if symbolic {
        FsOpSpec::Symlink { original: from, link: to }
    } else {
        FsOpSpec::Copy { from, to }
    }
}

/// The outcome that placing an artifact reports.
pub open spec fn place_outcome(symbolic: bool) -> PackageResult {
    if symbolic {
        PackageResult::Linked
    } else {
        PackageResult::Installed
    }
}

/// Whether an overwrite prompt must be asked before installing over
/// `dest_exists`: never under `force`, always otherwise when something is
/// already at the destination.
pub fn needs_overwrite_prompt(force: bool, dest_exists: bool) -> (r: bool)
    ensures
        r == (!force && dest_exists),
{
    !force && dest_exists
}

/// Whether an answer to the overwrite prompt accepts the overwrite.  The
/// prompt defaults to caution: only the exact affirmative token accepts.
pub fn accepts_overwrite(answer: &String) -> (r: bool)
    ensures
        r == (answer@ == seq!['y']),
{
    proof {
        reveal_strlit("y");
    }
    let yes: String = String::from_str("y");
    proof {
        assert(yes@ =~= seq!['y']);
    }
    *answer == yes
}

/// Whether an answer to the removal prompt declines the removal.  The
/// prompt defaults to proceeding: only the exact negative token declines.
pub fn declines_removal(answer: &String) -> (r: bool)
    ensures
        r == (answer@ == seq!['n']),
{
    proof {
        reveal_strlit("n");
    }
    let no: String = String::from_str("n");
    proof {
        assert(no@ =~= seq!['n']);
    }
    *answer == no
}

/// A plan could not be computed at all; nothing is done for the package.
#[derive(Clone, Debug)]
pub enum PlanError {
    /// A binary and its library share no path prefix, so no tree can be
    /// copied that holds both.
    NoCommonAncestor { one: String, two: String },
}

impl PlanError {
    /// A human-readable description of the error, naming both paths.
    pub fn message(&self) -> (r: String)
        ensures
            self matches PlanError::NoCommonAncestor { one, two } ==> r@
                == "No common ancestor for '"@ + one@ + "' and '"@ + two@ + "'"@,
    {
        proof {
            reveal_strlit("No common ancestor for '");
            reveal_strlit("' and '");
            reveal_strlit("'");
        }
        match self {
            PlanError::NoCommonAncestor { one, two } => String::from_str(
                "No common ancestor for '",
            ).concat(one.as_str()).concat("' and '").concat(two.as_str()).concat("'"),
        }
    }
}

/// The state of one destination, probed and (where needed) confirmed by
/// the caller before a plan is computed: whether something is already at
/// the destination — a file, a directory, or a symbolic link — and the
/// answer the user gave to the prompt for it, when one was asked.
#[derive(Clone, Debug)]
pub struct ArtifactProbe {
    pub dest_exists: bool,
    pub answer: Option<String>,
}

impl ArtifactProbe {
    /// The prompt was asked exactly when the plan needs an answer: never
    /// under `force`, always otherwise when the destination is occupied.
    pub open spec fn consistent(&self, force: bool) -> bool {
        self.answer is Some <==> (!force && self.dest_exists)
    }

    /// The answer the probe carries, as characters.
    pub open spec fn answer_chars(&self) -> Seq<char> {
        self.answer->0@
    }
}

/// The operations that install one artifact from `from` over a
/// destination `to` in the probed state: clear the destination if it is
/// occupied and the user (or `force`) allows, then place the artifact; an
/// unconfirmed overwrite plans nothing.
pub open spec fn install_files_ops(
    from: Seq<char>,
    to: Seq<char>,
    symbolic: bool,
    force: bool,
    probe: ArtifactProbe,
) -> Seq<FsOpSpec> {
    if force {
        if probe.dest_exists {
            seq![FsOpSpec::RemoveAll { path: to }, place_op(from, to, symbolic)]
        } else {
            seq![place_op(from, to, symbolic)]
        }
    } else if probe.dest_exists {
        if probe.answer_chars() == seq!['y'] {
            seq![FsOpSpec::RemoveAll { path: to }, place_op(from, to, symbolic)]
        } else {
            Seq::empty()
        }
    } else {
        seq![place_op(from, to, symbolic)]
    }
}

/// The outcome installing one artifact reports in the probed state.
pub open spec fn install_files_outcome(symbolic: bool, force: bool, probe: ArtifactProbe) -> PackageResult {
    if !force && probe.dest_exists && probe.answer_chars() != seq!['y'] {
        PackageResult::Canceled
    } else {
        place_outcome(symbolic)
    }
}

/// Plans the installation of one artifact.
pub fn install_files_plan(
    from: &String,
    to: &String,
    symbolic: bool,
    force: bool,
    probe: &ArtifactProbe,
) -> (r: (Vec<FsOp>, PackageResult))
    requires
        probe.consistent(force),
    ensures
        ops_view(r.0@) == install_files_ops(from@, to@, symbolic, force, *probe),
        r.1 == install_files_outcome(symbolic, force, *probe),
{
    let mut ops: Vec<FsOp> = Vec::new();
    let overwrite: bool = if force {
        true
    } else if probe.dest_exists {
        match &probe.answer {
            Some(a) => accepts_overwrite(a),
            None => false,  // unreachable under the probe's consistency
        }
    } else {
        true
    };
    if !overwrite {
        proof {
            assert(ops_view(ops@) =~= install_files_ops(from@, to@, symbolic, force, *probe));
        }
        return (ops, PackageResult::Canceled);
    }
    if probe.dest_exists {
        ops.push(FsOp::RemoveAll { path: to.clone() });
    }
    if symbolic {
        ops.push(FsOp::Symlink { original: from.clone(), link: to.clone() });
    } else {
        ops.push(FsOp::Copy { from: from.clone(), to: to.clone() });
    }
    proof {
        assert(ops_view(ops@) =~= install_files_ops(from@, to@, symbolic, force, *probe));
    }
    (ops, if symbolic {
        PackageResult::Linked
    } else {
        PackageResult::Installed
    })
}

/// The operations that remove whatever is at `path` in the probed state:
/// nothing when nothing is there or the user declines, one deletion
/// otherwise.
pub open spec fn remove_files_ops(path: Seq<char>, force: bool, probe: ArtifactProbe) -> Seq<
    FsOpSpec,
> {
    if !probe.dest_exists {
        Seq::empty()
    } else if !force && probe.answer_chars() == seq!['n'] {
        Seq::empty()
    } else {
        seq![FsOpSpec::RemoveAll { path }]
    }
}

/// The outcome removing one artifact reports in the probed state.
pub open spec fn remove_files_outcome(force: bool, probe: ArtifactProbe) -> PackageResult {
    if !probe.dest_exists {
        PackageResult::Ignored
    } else if !force && probe.answer_chars() == seq!['n'] {
        PackageResult::Canceled
    } else {
        PackageResult::Removed
    }
}

/// Plans the removal of one artifact.  `probe.dest_exists` covers a
/// symbolic link as well, even one whose target is gone.
pub fn remove_files_plan(path: &String, force: bool, probe: &ArtifactProbe) -> (r: (
    Vec<FsOp>,
    PackageResult,
))
    requires
        probe.consistent(force),
    ensures
        ops_view(r.0@) == remove_files_ops(path@, force, *probe),
        r.1 == remove_files_outcome(force, *probe),
{
    let mut ops: Vec<FsOp> = Vec::new();
    if !probe.dest_exists {
        proof {
            assert(ops_view(ops@) =~= remove_files_ops(path@, force, *probe));
        }
        return (ops, PackageResult::Ignored);
    }
    let declined: bool = if force {
        false
    } else {
        match &probe.answer {
            Some(a) => declines_removal(a),
            None => false,  // unreachable under the probe's consistency
        }
    };
    if declined {
        proof {
            assert(ops_view(ops@) =~= remove_files_ops(path@, force, *probe));
        }
        return (ops, PackageResult::Canceled);
    }
    ops.push(FsOp::RemoveAll { path: path.clone() });
    proof {
        assert(ops_view(ops@) =~= remove_files_ops(path@, force, *probe));
    }
    (ops, PackageResult::Removed)
}

/// With `force` unset and an occupied destination, a declined overwrite
/// cancels the artifact and plans no operation at all, so the destination
/// stays byte-for-byte as it was; under `force` the artifact is always
/// placed, clearing the destination first when something is there.
pub proof fn lemma_install_outcome_matrix(
    from: Seq<char>,
    to: Seq<char>,
    symbolic: bool,
    force: bool,
    probe: ArtifactProbe,
)
    ensures
        !force && probe.dest_exists && probe.answer_chars() != seq!['y'] ==> install_files_ops(
            from,
            to,
            symbolic,
            force,
            probe,
        ) == Seq::<FsOpSpec>::empty() && install_files_outcome(symbolic, force, probe)
            == PackageResult::Canceled,
        force ==> install_files_outcome(symbolic, force, probe) == place_outcome(symbolic)
            && install_files_ops(from, to, symbolic, force, probe).last() == place_op(
            from,
            to,
            symbolic,
        ),
{
}

/// In symbolic mode every plan that places the artifact ends by linking
/// the destination to the absolute form of the source, and reports
/// `Linked`: resolving the destination afterwards leads back to the
/// source.
pub proof fn lemma_symbolic_round_trip(
    from: Seq<char>,
    to: Seq<char>,
    force: bool,
    probe: ArtifactProbe,
)
    requires
        force || !probe.dest_exists || probe.answer_chars() == seq!['y'],
    ensures
        install_files_ops(from, to, true, force, probe).last() == (FsOpSpec::Symlink {
            original: from,
            link: to,
        }),
        install_files_outcome(true, force, probe) == PackageResult::Linked,
{
}

} // verus!
