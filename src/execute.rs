//! Decisions of the process launcher that do not touch processes: whether
//! a pipeline runs after the previous one, and whether it runs inside the
//! shell as a built-in.
use vstd::prelude::*;

use crate::pipeline::{Next, Pipeline};
use crate::expand::find_from;
use crate::strs::{chars_of, eq_str, string_of_range};

verus! {

/// Whether the pipeline that follows a link runs, given the status of the
/// last pipeline that ran: after `&&` only on status 0, after `||` only on
/// another status, otherwise always.
pub open spec fn runs_after_spec(link: Next, status: i32) -> bool {
    match link {
        Next::And => status == 0,
        Next::Or => status != 0,
        _ => true,
    }
}

pub fn runs_after(link: Next, status: i32) -> (r: bool)
    ensures
        r == runs_after_spec(link, status),
{
    match link {
        Next::And => status == 0,
        Next::Or => status != 0,
        _ => true,
    }
}

/// The commands that the shell runs itself.
pub open spec fn is_builtin_name(n: Seq<char>) -> bool {
    n == seq!['c', 'd']
        || n == seq!['e', 'x', 'i', 't']
        || n == seq!['e', 'x', 'p', 'o', 'r', 't']
        || n == seq!['u', 'n', 's', 'e', 't']
        || n == seq!['a', 'l', 'i', 'a', 's']
        || n == seq!['u', 'n', 'a', 'l', 'i', 'a', 's']
        || n == seq!['j', 'o', 'b', 's']
        || n == seq!['f', 'g']
        || n == seq!['b', 'g']
        || n == seq!['h', 'i', 's', 't', 'o', 'r', 'y']
        || n == seq!['s', 'o', 'u', 'r', 'c', 'e']
}

pub fn is_builtin(name: &String) -> (r: bool)
    ensures
        r == is_builtin_name(name@),
{
    proof {
        reveal_strlit("cd");
        assert("cd"@ =~= seq!['c', 'd']);
        reveal_strlit("exit");
        assert("exit"@ =~= seq!['e', 'x', 'i', 't']);
        reveal_strlit("export");
        assert("export"@ =~= seq!['e', 'x', 'p', 'o', 'r', 't']);
        reveal_strlit("unset");
        assert("unset"@ =~= seq!['u', 'n', 's', 'e', 't']);
        reveal_strlit("alias");
        assert("alias"@ =~= seq!['a', 'l', 'i', 'a', 's']);
        reveal_strlit("unalias");
        assert("unalias"@ =~= seq!['u', 'n', 'a', 'l', 'i', 'a', 's']);
        reveal_strlit("jobs");
        assert("jobs"@ =~= seq!['j', 'o', 'b', 's']);
        reveal_strlit("fg");
        assert("fg"@ =~= seq!['f', 'g']);
        reveal_strlit("bg");
        assert("bg"@ =~= seq!['b', 'g']);
        reveal_strlit("history");
        assert("history"@ =~= seq!['h', 'i', 's', 't', 'o', 'r', 'y']);
        reveal_strlit("source");
        assert("source"@ =~= seq!['s', 'o', 'u', 'r', 'c', 'e']);
    }
    eq_str(name, "cd") || eq_str(name, "exit") || eq_str(name, "export") || eq_str(name, "unset") || eq_str(name, "alias") || eq_str(name, "unalias") || eq_str(name, "jobs") || eq_str(name, "fg") || eq_str(name, "bg") || eq_str(name, "history") || eq_str(name, "source")
}

/// A pipeline of one command that names a built-in, in the foreground and
/// with its output not captured, runs inside the shell without a fork.
pub fn runs_in_shell(p: &Pipeline, capture: bool) -> (r: bool)
    ensures
        r == (p.cmds@.len() == 1 && !p.background && !capture && p.cmds@[0].argv@.len() > 0
            && is_builtin_name(p.cmds@[0].argv@[0]@)),
{
    if p.cmds.len() != 1 || p.background || capture || p.cmds[0].argv.len() == 0 {
        return false;
    }
    is_builtin(&p.cmds[0].argv[0])
}

/// `NAME=VALUE` split at its first `=`, when `NAME` is not empty.
pub open spec fn assignment(s: Seq<char>) -> Option<(Seq<char>, Seq<char>)> {
    let e = find_from(s, 0, '=');
    if 0 < e < s.len() {
        Some((s.subrange(0, e), s.subrange(e + 1, s.len() as int)))
    } else {
        None
    }
}

pub fn split_assignment(word: &String) -> (r: Option<(String, String)>)
    ensures
        match assignment(word@) {
            Some((n, v)) => r matches Some(p) && p.0@ == n && p.1@ == v,
            None => r is None,
        },
{
    let s = chars_of(word.as_str());
    let n = s.len();
    let mut e: usize = 0;
    while e < n && s[e] != '='
        invariant
            e <= n,
            n == s@.len(),
            find_from(s@, e as int, '=') == find_from(s@, 0, '='),
        decreases n - e,
    {
        e = e + 1;
    }
    if 0 < e && e < n {
        Some((string_of_range(&s, 0, e), string_of_range(&s, e + 1, n)))
    } else {
        None
    }
}

/// A pipeline that is one command of one word `NAME=VALUE` sets a shell
/// variable.
pub fn bare_assignment(p: &Pipeline) -> (r: Option<(String, String)>)
    ensures
        p.cmds@.len() == 1 && p.cmds@[0].argv@.len() == 1 && !p.background ==> match assignment(
            p.cmds@[0].argv@[0]@,
        ) {
            Some((n, v)) => r matches Some(a) && a.0@ == n && a.1@ == v,
            None => r is None,
        },
        !(p.cmds@.len() == 1 && p.cmds@[0].argv@.len() == 1 && !p.background) ==> r is None,
{
    if p.cmds.len() != 1 || p.cmds[0].argv.len() != 1 || p.background {
        return None;
    }
    split_assignment(&p.cmds[0].argv[0])
}

} // verus!
