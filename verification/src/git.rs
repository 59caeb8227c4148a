//! Running the `git` program: its arguments, its input and what its end means.

use vstd::prelude::*;

use crate::error::Error;
use crate::text::{from_utf8_lossy, join, join_spec, lossy_text, trim, trim_spec, views};

verus! {

broadcast use {vstd::string::group_string_axioms, crate::seqs::lemma_map_push};

/// What a run of git comes to, by its output, its error output and whether it
/// succeeded.
pub fn outcome(args: &Vec<String>, success: bool, stdout: Vec<u8>, stderr: &Vec<u8>) -> (r: Result<
    Vec<u8>,
    Error,
>)
    ensures
        success ==> r == Ok::<Vec<u8>, Error>(stdout),
        !success ==> (r matches Err(Error::Gix(m)) && m@ == failure_text(
            views(args@),
            lossy_text(stderr@),
        )),
{
    if success {
        return Ok(stdout);
    }
    let complaint = from_utf8_lossy(stderr.as_slice());
    Err(Error::Gix(failure(args, complaint.as_str())))
}

/// What is said of a run of git that failed.
pub open spec fn failure_text(args: Seq<Seq<char>>, complaint: Seq<char>) -> Seq<char> {
    "git "@ + join_spec(args, " "@) + " failed: "@ + trim_spec(complaint)
}

/// What is said of a run of git that failed with this complaint.
pub fn failure(args: &Vec<String>, complaint: &str) -> (r: String)
    ensures
        r@ == failure_text(views(args@), complaint@),
{
    let mut m = "git ".to_owned();
    m.append(join(args, " ").as_str());
    m.append(" failed: ");
    m.append(trim(complaint));
    m
}

/// The arguments that write the graph of commits: of those that are named on the
/// input, or of all.
pub open spec fn graph_args(tips: bool) -> Seq<Seq<char>> {
    seq![
        "commit-graph"@,
        "write"@,
        "--split"@,
        "--no-progress"@,
        if tips {
            "--stdin-commits"@
        } else {
            "--reachable"@
        },
    ]
}

/// The input that names commits: one on each line.
pub open spec fn tip_lines(oids: Seq<Seq<char>>) -> Seq<char>
    decreases oids.len(),
{
    if oids.len() == 0 {
        seq![]
    } else {
        tip_lines(oids.drop_last()) + oids.last() + "\n"@
    }
}

/// The arguments and the input of git that write the graph of commits: of the given
/// tips and what they lead to, or of everything.
pub fn write_commit_graph(new_commits: Option<&Vec<String>>) -> (r: (Vec<String>, Option<String>))
    ensures
        views(r.0@) == graph_args(new_commits is Some),
        match (new_commits, r.1) {
            (Some(oids), Some(input)) => input@ == tip_lines(views(oids@)),
            (None, None) => true,
            _ => false,
        },
{
    let mut args: Vec<String> = Vec::new();
    args.push("commit-graph".to_owned());
    args.push("write".to_owned());
    args.push("--split".to_owned());
    args.push("--no-progress".to_owned());
    match new_commits {
        Some(oids) => {
            args.push("--stdin-commits".to_owned());
            assert(views(args@) =~= graph_args(true));
            let ghost all = views(oids@);
            let mut input = String::new();
            let mut i: usize = 0;
            assert(input@ =~= tip_lines(all.take(0)));
            while i < oids.len()
                invariant
                    all == views(oids@),
                    i <= oids.len(),
                    input@ == tip_lines(all.take(i as int)),
                decreases oids.len() - i,
            {
                proof {
                    crate::seqs::lemma_take_succ(all, i as int);
                    assert(all[i as int] == oids@[i as int]@);
                }
                input.append(oids[i].as_str());
                input.append("\n");
                assert(input@ =~= tip_lines(all.take(i as int + 1)));
                i = i + 1;
            }
            assert(all.take(i as int) =~= all);
            (args, Some(input))
        },
        None => {
            args.push("--reachable".to_owned());
            assert(views(args@) =~= graph_args(false));
            (args, None)
        },
    }
}

/// The arguments that pack all references.
pub fn pack_refs() -> (r: Vec<String>)
    ensures
        views(r@) == seq!["pack-refs"@, "--all"@],
{
    let mut r: Vec<String> = Vec::new();
    r.push("pack-refs".to_owned());
    r.push("--all".to_owned());
    assert(views(r@) =~= seq!["pack-refs"@, "--all"@]);
    r
}

} // verus!
