//! Orchestration decisions: which command to run, whether headings are
//! printed, per-target labels in list mode, and exit-code aggregation.
use crate::heading::{heading_for, heading_view};
use vstd::prelude::*;

verus! {

/// The conventional subcommand run when the user supplied none.
pub open spec fn status_token() -> Seq<char> {
    seq!['s', 't', 'a', 't', 'u', 's']
}

/// The command arguments actually run: the user's own when any were given,
/// the single conventional status subcommand otherwise.
pub fn default_command_args(args: Vec<String>) -> (r: Vec<String>)
    ensures
        args@.len() > 0 ==> r == args,
        args@.len() == 0 ==> r.deep_view() == seq![status_token()],
{
    if args.len() > 0 {
        args
    } else {
        let mut r: Vec<String> = Vec::new();
        let tok = String::from_str("status");
        proof {
            reveal_strlit("status");
            assert(tok@ =~= status_token());
        }
        r.push(tok);
        proof {
            assert(r.deep_view() =~= seq![status_token()]);
        }
        r
    }
}

/// Headings appear only when something distinguishes the run from invoking
/// the tool by hand in a single repository: several targets, ancestor
/// inclusion, absolute-path mode, or an explicit root — and never when
/// suppression was requested.
pub fn should_print_headings(
    num_targets: usize,
    parent: bool,
    absolute: bool,
    explicit_root: bool,
    no_heading: bool,
) -> (r: bool)
    ensures
        r == (!no_heading && (num_targets > 1 || parent || absolute || explicit_root)),
{
    if no_heading {
        false
    } else {
        num_targets > 1 || parent || absolute || explicit_root
    }
}

/// A process outcome as an exit code: the code itself when one was
/// reported, the conventional failure code for an abnormal termination.
pub fn normalize_exit_code(code: Option<i32>) -> (r: i32)
    ensures
        code matches Some(c) ==> r == c,
        code is None ==> r == 1,
{
    match code {
        Some(c) => c,
        None => 1,
    }
}

/// Exit code of the whole run: the last recorded code when any command ran,
/// success otherwise. Deliberately the last, not the worst: a late success
/// hides an earlier failure.
pub fn overall_exit_code(codes: &Vec<i32>) -> (r: i32)
    ensures
        codes@.len() == 0 ==> r == 0,
        codes@.len() > 0 ==> r == codes@.last(),
{
    if codes.len() == 0 {
        0
    } else {
        codes[codes.len() - 1]
    }
}

/// The labels list mode prints: one heading per resolved target, in the
/// targets' own (sorted) order, with no command run.
pub fn list_labels(
    targets: &Vec<String>,
    root: &String,
    absolute: bool,
    canons: &Vec<Option<String>>,
) -> (r: Vec<String>)
    requires
        canons@.len() == targets@.len(),
    ensures
        r@.len() == targets@.len(),
        forall|i: int|
            0 <= i < r@.len() ==> r@[i]@ == heading_view(
                targets@[i]@,
                root@,
                absolute,
                canons@[i].deep_view(),
            ),
{
    let mut r: Vec<String> = Vec::new();
    let mut i: usize = 0;
    while i < targets.len()
        invariant
            i <= targets@.len(),
            canons@.len() == targets@.len(),
            r@.len() == i,
            forall|k: int|
                0 <= k < i ==> r@[k]@ == heading_view(
                    targets@[k]@,
                    root@,
                    absolute,
                    canons@[k].deep_view(),
                ),
        decreases targets@.len() - i,
    {
        let canon: Option<String> = match &canons[i] {
            Some(c) => Some(c.clone()),
            None => None,
        };
        proof {
            assert(canon.deep_view() == canons@[i as int].deep_view());
        }
        let label = heading_for(&targets[i], root, absolute, canon);
        r.push(label);
        i = i + 1;
    }
    r
}

} // verus!
