//! Shared data types: tokens and jobs.
use vstd::prelude::*;

verus! {

/// A lexed word: its quoting context (`""`, `"'"`, `"\""`, `` "`" `` or
/// `"\\"`) and its text without the enclosing quotes.
pub type Token = (String, String);

pub type Tokens = Vec<Token>;

/// A token as two character sequences: separator and word.
pub type TokenView = (Seq<char>, Seq<char>);

pub open spec fn token_view(t: Token) -> TokenView {
    (t.0@, t.1@)
}

pub open spec fn tokens_view(ts: Seq<Token>) -> Seq<TokenView> {
    ts.map_values(|t: Token| token_view(t))
}

/// One pipeline tracked by the shell.
pub struct Job {
    pub cmd: String,
    pub id: i32,
    pub gid: i32,
    pub pids: Vec<i32>,
    pub status: String,
    pub report: bool,
}

} // verus!
