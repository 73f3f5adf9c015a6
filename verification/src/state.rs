//! The git state of a workspace, put together from the outputs of the
//! commands that read it.
use vstd::prelude::*;

use crate::branches::{
    local_branches_from_output, local_branches_of, remote_branches_from_output,
    remote_branches_of,
};
use crate::commits::{commits_from_output, commits_of};
use crate::refs::{
    counts_from_output, counts_in, lemma_counts_output, lemma_ref_name_output, ref_name_from_output,
    ref_name_in,
};
use crate::text::{decimal_of, is_white_space};
use vstd::utf8::encode_utf8;
use crate::status::{changed_files_from_output, changed_files_of};
use crate::types::{views_of, CommandOutput, GitState};

verus! {

pub open spec fn name_view(o: Option<String>) -> Option<Seq<char>> {
    match o {
        Some(s) => Some(s@),
        None => None,
    }
}

/// The upstream of the checked-out branch and the (ahead, behind) counts:
/// nothing when no upstream is named, else the upstream and the counts that
/// the counting command printed.
pub open spec fn upstream_in(name_out: Option<CommandOutput>, counts_out: Option<CommandOutput>) -> (
    Option<Seq<char>>,
    Option<u32>,
    Option<u32>,
) {
    match ref_name_in(name_out) {
        None => (None, None, None),
        Some(n) => (Some(n), counts_in(counts_out).0, counts_in(counts_out).1),
    }
}

/// Whether the counting command is worth running: only when the command
/// that names the upstream named one.
pub fn needs_upstream_counts(name_out: &Option<CommandOutput>) -> (b: bool)
    ensures
        b == ref_name_in(*name_out) is Some,
{
    ref_name_from_output(name_out).is_some()
}

/// The git state that the outputs of the reading commands describe (`None`
/// for one that could not be run). `None` where a line of the status or of
/// the branch listing cannot be cut where its fields start.
pub fn git_state_from_outputs(
    branch_out: &Option<CommandOutput>,
    status_out: &Option<CommandOutput>,
    upstream_name_out: &Option<CommandOutput>,
    upstream_counts_out: &Option<CommandOutput>,
    commits_out: &Option<CommandOutput>,
    local_out: &Option<CommandOutput>,
    remote_out: &Option<CommandOutput>,
) -> (r: Option<GitState>)
    ensures
        r is Some <==> (changed_files_of(*status_out) is Some && local_branches_of(*local_out) is Some),
        r matches Some(s) ==> {
            let up = upstream_in(*upstream_name_out, *upstream_counts_out);
            &&& name_view(s.branch) == ref_name_in(*branch_out)
            &&& name_view(s.upstream) == up.0
            &&& s.ahead == up.1
            &&& s.behind == up.2
            &&& changed_files_of(*status_out) == Some(views_of(s.changed@))
            &&& views_of(s.recent_commits@) == commits_of(*commits_out)
            &&& local_branches_of(*local_out) == Some(views_of(s.local_branches@))
            &&& views_of(s.remote_branches@) == remote_branches_of(*remote_out)
        },
{
    let changed = match changed_files_from_output(status_out) {
        Some(v) => v,
        None => return None,
    };
    let local_branches = match local_branches_from_output(local_out) {
        Some(v) => v,
        None => return None,
    };
    let branch = ref_name_from_output(branch_out);
    let (upstream, ahead, behind) = match ref_name_from_output(upstream_name_out) {
        None => (None, None, None),
        Some(name) => {
            let (a, b) = counts_from_output(upstream_counts_out);
            (Some(name), a, b)
        },
    };
    let recent_commits = commits_from_output(commits_out);
    let remote_branches = remote_branches_from_output(remote_out);
    Some(
        GitState {
            branch,
            upstream,
            ahead,
            behind,
            changed,
            recent_commits,
            local_branches,
            remote_branches,
        },
    )
}

/// The upstream named on a line, with the counts `A<TAB>B` printed on a
/// line, gives that upstream, A commits ahead and B behind; without a named
/// upstream there are neither upstream nor counts, whatever was counted.
pub proof fn lemma_upstream_outputs(
    name: Seq<char>,
    a: u32,
    b: u32,
    name_o: CommandOutput,
    counts_o: CommandOutput,
    counts_out: Option<CommandOutput>,
)
    requires
        name.len() > 0,
        !is_white_space(name[0]),
        !is_white_space(name.last()),
        name_o.success,
        name_o.stdout@ == encode_utf8(name + seq!['\n']),
        counts_o.success,
        counts_o.stdout@ == encode_utf8(
            decimal_of(a as nat) + seq!['\t'] + decimal_of(b as nat) + seq!['\n'],
        ),
    ensures
        upstream_in(Some(name_o), Some(counts_o)) == (Some(name), Some(a), Some(b)),
        upstream_in(None, counts_out) == (None::<Seq<char>>, None::<u32>, None::<u32>),
{
    lemma_ref_name_output(name, name_o);
    lemma_counts_output(a, b, counts_o);
}

} // verus!
