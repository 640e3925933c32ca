//! The ownership check of a measured build artifact. The artifact may be
//! removed only when nothing authored lives in it: its own name must not
//! mark repository metadata or a program keypair, and when an enclosing
//! repository exists Git must list no tracked file under it. Unknown
//! ownership never permits removal. The filesystem probes and the Git run
//! happen outside; these functions decide from what they report.
use vstd::prelude::*;

use crate::cleaners::{authored_entry_name, is_authored_entry_name};
use crate::text::push_str;

verus! {

/// What the filesystem shows of `.git` in one ancestor of the artifact.
pub enum RepositoryProbe {
    /// There is no `.git` entry.
    Missing,
    /// The entry could not be inspected; the error's text.
    Unreadable(String),
    /// `.git` is a symbolic link or similar.
    Link,
    /// `.git` exists: the ancestor is the enclosing repository.
    Present,
}

/// What the ownership check does after probing one ancestor.
pub enum OwnershipStep {
    /// Probe the next ancestor outwards.
    NextAncestor,
    /// Refuse removal with this message.
    Refuse(String),
    /// Ask Git for the files it tracks under the artifact.
    AskGit,
}

/// What asking Git produced.
pub enum GitInspection {
    /// No Git executable was found.
    Unavailable,
    /// The artifact path cannot be handed to Git as text.
    PathNotUnicode,
    /// The command could not run; the error's text.
    Failed(String),
    /// Git exited unsuccessfully; the exit status as text.
    Exited(String),
    /// Git succeeded; whether its listing of tracked files is empty.
    Listed(bool),
}

pub open spec fn authored_root_message() -> Seq<char> {
    "artifact contains repository metadata or a program keypair"@
}

/// The artifact's own name: `None` when the path has no final component.
pub fn root_name_check(name: Option<&[u8]>) -> (r: Result<(), String>)
    ensures
        match name {
            Some(n) => if authored_entry_name(n@) {
                r matches Err(e) && e@ == authored_root_message()
            } else {
                r is Ok
            },
            None => r is Ok,
        },
{
    match name {
        Some(n) => if is_authored_entry_name(n) {
            Err("artifact contains repository metadata or a program keypair".to_string())
        } else {
            Ok(())
        },
        None => Ok(()),
    }
}

/// Decides the next step from one ancestor's probe: no `.git` moves
/// outwards, an unreadable or linked `.git` refuses, a present one asks Git.
pub fn ownership_step(probe: RepositoryProbe) -> (step: OwnershipStep)
    ensures
        match probe {
            RepositoryProbe::Missing => step is NextAncestor,
            RepositoryProbe::Unreadable(e) => step matches OwnershipStep::Refuse(m) && m@ == e@,
            RepositoryProbe::Link => step matches OwnershipStep::Refuse(m) && m@ == "repository metadata is a link"@,
            RepositoryProbe::Present => step is AskGit,
        },
{
    match probe {
        RepositoryProbe::Missing => OwnershipStep::NextAncestor,
        RepositoryProbe::Unreadable(e) => OwnershipStep::Refuse(e),
        RepositoryProbe::Link => OwnershipStep::Refuse("repository metadata is a link".to_string()),
        RepositoryProbe::Present => OwnershipStep::AskGit,
    }
}

/// The verdict on Git's answer: only a successful, empty listing of tracked
/// files proves that the artifact holds nothing authored.
pub open spec fn git_verdict(outcome: GitInspection) -> Option<Seq<char>> {
    match outcome {
        GitInspection::Unavailable => Some("Git unavailable for artifact inspection"@),
        GitInspection::PathNotUnicode => Some("artifact path is not valid Unicode"@),
        GitInspection::Failed(e) => Some("Git artifact inspection failed: "@ + e@),
        GitInspection::Exited(status) => Some("Git artifact inspection exited with "@ + status@),
        GitInspection::Listed(empty) => if empty {
            None
        } else {
            Some("artifact contains Git-tracked files"@)
        },
    }
}

pub fn ownership_from_git(outcome: GitInspection) -> (r: Result<(), String>)
    ensures
        match git_verdict(outcome) {
            Some(m) => r matches Err(e) && e@ == m,
            None => r is Ok,
        },
{
    match outcome {
        GitInspection::Unavailable => Err("Git unavailable for artifact inspection".to_string()),
        GitInspection::PathNotUnicode => Err("artifact path is not valid Unicode".to_string()),
        GitInspection::Failed(e) => {
            let mut m = "Git artifact inspection failed: ".to_string();
            push_str(&mut m, e.as_str());
            Err(m)
        },
        GitInspection::Exited(status) => {
            let mut m = "Git artifact inspection exited with ".to_string();
            push_str(&mut m, status.as_str());
            Err(m)
        },
        GitInspection::Listed(empty) => if empty {
            Ok(())
        } else {
            Err("artifact contains Git-tracked files".to_string())
        },
    }
}

/// Git permits removal only by succeeding with an empty listing; a missing
/// tool, an unusable path, a failed run or any tracked file refuses it.
pub proof fn law_only_an_empty_listing_permits_removal(outcome: GitInspection)
    ensures
        (git_verdict(outcome) is None) <==> (outcome matches GitInspection::Listed(empty) && empty),
{
}

/// The arguments of the Git run: no optional locks, literal path specs, no
/// file-system monitor, listing the cached files under the artifact.
pub open spec fn git_arguments_of(root: Seq<char>) -> Seq<Seq<char>> {
    seq![
        "--no-optional-locks"@,
        "--literal-pathspecs"@,
        "-c"@,
        "core.fsmonitor=false"@,
        "-C"@,
        root,
        "ls-files"@,
        "--cached"@,
        "-z"@,
        "--"@,
        "."@,
    ]
}

pub fn git_inspection_arguments(root: &str) -> (args: Vec<String>)
    ensures
        args@.len() == 11,
        forall|i: int| 0 <= i < 11 ==> args@[i]@ == git_arguments_of(root@)[i],
{
    let mut args: Vec<String> = Vec::new();
    args.push("--no-optional-locks".to_string());
    args.push("--literal-pathspecs".to_string());
    args.push("-c".to_string());
    args.push("core.fsmonitor=false".to_string());
    args.push("-C".to_string());
    args.push(root.to_string());
    args.push("ls-files".to_string());
    args.push("--cached".to_string());
    args.push("-z".to_string());
    args.push("--".to_string());
    args.push(".".to_string());
    args
}

} // verus!
