//! The log of a removal run.  The commands are run by the caller; these
//! functions decide what is logged for each and whether the run succeeded.

use vstd::prelude::*;

use crate::model::package_source::label_text;
use crate::model::removal_plan::RemovalCommand;
use crate::text::{chars_of, join, lemma_strs_push, lines, lines_of, pieces, push_all, push_str, string_of, strs};

verus! {

/// `">>> [<source>] Removing: <p1>, <p2>, ..."` and `"$ <command>"`.
pub fn command_header(cmd: &RemovalCommand) -> (r: (String, String))
    ensures
        r.0@ == ">>> ["@ + label_text(cmd.source) + "] Removing: "@ + join(strs(cmd.packages@), ", "@),
        r.1@ == "$ "@ + cmd.display@,
{
    let mut a: Vec<char> = Vec::new();
    push_str(&mut a, ">>> [");
    push_str(&mut a, cmd.source.label());
    push_str(&mut a, "] Removing: ");
    let j = crate::text::join_strings(&cmd.packages, ", ");
    push_all(&mut a, &j);
    let mut b: Vec<char> = Vec::new();
    push_str(&mut b, "$ ");
    push_str(&mut b, cmd.display.as_str());
    (string_of(&a), string_of(&b))
}

/// How running a command ended.
pub enum CommandEnd {
    /// It ran and exited; `status` is the exit status as shown to the user.
    Exited { success: bool, status: String },
    /// It could not be started; `error` says why.
    NotStarted { error: String },
}

/// The log lines after a command: the lines of its output, those of its
/// error output marked `STDERR: `, then `OK` or the failure, then an empty
/// line.
pub open spec fn end_lines(stdout: Seq<char>, stderr: Seq<char>, end: CommandEnd) -> Seq<Seq<char>> {
    match end {
        CommandEnd::Exited { success, status } => (if stdout.len() > 0 {
            lines(stdout)
        } else {
            seq![]
        }) + (if stderr.len() > 0 {
            lines(stderr).map_values(|l: Seq<char>| "STDERR: "@ + l)
        } else {
            seq![]
        }) + seq![
            if success {
                "OK"@
            } else {
                "ERROR: Command exited with status "@ + status@
            },
            Seq::<char>::empty(),
        ],
        CommandEnd::NotStarted { error } => seq!["ERROR: Failed to execute: "@ + error@, Seq::<char>::empty()],
    }
}

/// Whether the command counts as successful.
pub open spec fn end_ok(end: CommandEnd) -> bool {
    match end {
        CommandEnd::Exited { success, .. } => success,
        CommandEnd::NotStarted { .. } => false,
    }
}

/// Appends the log lines after a command and says whether it succeeded.
pub fn log_command_end(log: &mut Vec<String>, stdout: &str, stderr: &str, end: &CommandEnd) -> (ok: bool)
    ensures
        strs(final(log)@) == strs(old(log)@) + end_lines(stdout@, stderr@, *end),
        ok == end_ok(*end),
{
    let ghost start = strs(log@);
    match end {
        CommandEnd::Exited { success, status } => {
            let ghost mid0 = strs(log@);
            if !stdout.is_empty() {
                let ls = lines_of(&chars_of(stdout));
                let mut i: usize = 0;
                while i < ls.len()
                    invariant
                        i <= ls@.len(),
                        strs(log@) == mid0 + pieces(ls@).take(i as int),
                    decreases ls@.len() - i,
                {
                    let s = string_of(&ls[i]);
                    proof {
                        lemma_strs_push(log@, s);
                        assert(pieces(ls@).take(i + 1) =~= pieces(ls@).take(i as int).push(ls@[i as int]@));
                    }
                    log.push(s);
                    i = i + 1;
                }
                proof {
                    assert(pieces(ls@).take(ls@.len() as int) =~= pieces(ls@));
                }
            } else {
                proof {
                    assert(strs(log@) =~= mid0 + Seq::<Seq<char>>::empty());
                }
            }
            let ghost mid1 = strs(log@);
            if !stderr.is_empty() {
                let ls = lines_of(&chars_of(stderr));
                let ghost marked = pieces(ls@).map_values(|l: Seq<char>| "STDERR: "@ + l);
                let mut i: usize = 0;
                while i < ls.len()
                    invariant
                        i <= ls@.len(),
                        marked == pieces(ls@).map_values(|l: Seq<char>| "STDERR: "@ + l),
                        strs(log@) == mid1 + marked.take(i as int),
                    decreases ls@.len() - i,
                {
                    let mut v: Vec<char> = Vec::new();
                    push_str(&mut v, "STDERR: ");
                    push_all(&mut v, &ls[i]);
                    let s = string_of(&v);
                    proof {
                        lemma_strs_push(log@, s);
                        assert(marked.take(i + 1) =~= marked.take(i as int).push(s@));
                    }
                    log.push(s);
                    i = i + 1;
                }
                proof {
                    assert(marked.take(ls@.len() as int) =~= marked);
                }
            } else {
                proof {
                    assert(strs(log@) =~= mid1 + Seq::<Seq<char>>::empty());
                }
            }
            let ghost mid2 = strs(log@);
            let last = if *success {
                "OK".to_owned()
            } else {
                let mut v: Vec<char> = Vec::new();
                push_str(&mut v, "ERROR: Command exited with status ");
                push_str(&mut v, status.as_str());
                string_of(&v)
            };
            proof {
                lemma_strs_push(log@, last);
            }
            log.push(last);
            let e = String::new();
            proof {
                lemma_strs_push(log@, e);
            }
            log.push(e);
            proof {
                assert(strs(log@) =~= start + end_lines(stdout@, stderr@, *end));
            }
            *success
        },
        CommandEnd::NotStarted { error } => {
            let mut v: Vec<char> = Vec::new();
            push_str(&mut v, "ERROR: Failed to execute: ");
            push_str(&mut v, error.as_str());
            let s = string_of(&v);
            proof {
                lemma_strs_push(log@, s);
            }
            log.push(s);
            let e = String::new();
            proof {
                lemma_strs_push(log@, e);
            }
            log.push(e);
            proof {
                assert(strs(log@) =~= start + end_lines(stdout@, stderr@, *end));
            }
            false
        },
    }
}

} // verus!
