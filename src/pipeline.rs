//! The pipeline parser: groups expanded tokens into pipelines of commands
//! with their redirections, background flag and sequencing link.
use vstd::prelude::*;

use crate::strs::eq_str;
use crate::types::{Token, TokenView, Tokens, token_view, tokens_view};

verus! {

broadcast use vstd::std_specs::vec::group_vec_axioms;

#[derive(Clone, Copy, Debug, PartialEq, Eq, Structural)]
pub enum RedirOp {
    Read,
    Write,
    Append,
    Dup,
}

/// How a pipeline joins the next one.
#[derive(Clone, Copy, Debug, PartialEq, Eq, Structural)]
pub enum Next {
    And,
    Or,
    Then,
    End,
}

#[derive(Clone, Copy, Debug, PartialEq, Eq, Structural)]
pub enum ParseError {
    /// A `|`, `;`, `&`, `&&` or `||` with no command before it, or a line
    /// that ends after `|`, `&&` or `||`.
    EmptyCommand,
    /// A redirection with no file after it.
    MissingTarget,
    /// `<<`, which this shell does not support.
    Unsupported,
}

#[derive(Clone, Debug, PartialEq, Eq)]
pub struct Redirect {
    pub fd: i32,
    pub op: RedirOp,
    pub target: String,
}

#[derive(Clone, Debug, PartialEq, Eq)]
pub struct Command {
    pub argv: Vec<String>,
    pub redirs: Vec<Redirect>,
}

#[derive(Clone, Debug, PartialEq, Eq)]
pub struct Pipeline {
    pub cmds: Vec<Command>,
    pub background: bool,
    pub next: Next,
}

pub type RedirSpec = (i32, RedirOp, Seq<char>);

pub type CommandSpec = (Seq<Seq<char>>, Seq<RedirSpec>);

pub type PipelineSpec = (Seq<CommandSpec>, bool, Next);

pub open spec fn redir_view(r: Redirect) -> RedirSpec {
    (r.fd, r.op, r.target@)
}

pub open spec fn words_view(v: Seq<String>) -> Seq<Seq<char>> {
    v.map_values(|s: String| s@)
}

pub open spec fn redirs_view(v: Seq<Redirect>) -> Seq<RedirSpec> {
    v.map_values(|r: Redirect| redir_view(r))
}

pub open spec fn command_view(c: Command) -> CommandSpec {
    (words_view(c.argv@), redirs_view(c.redirs@))
}

pub open spec fn commands_view(v: Seq<Command>) -> Seq<CommandSpec> {
    v.map_values(|c: Command| command_view(c))
}

pub open spec fn pipeline_view(p: Pipeline) -> PipelineSpec {
    (commands_view(p.cmds@), p.background, p.next)
}

pub open spec fn pipelines_view(v: Seq<Pipeline>) -> Seq<PipelineSpec> {
    v.map_values(|p: Pipeline| pipeline_view(p))
}

/// What a token means to the parser.
#[derive(Clone, Copy, Debug, PartialEq, Eq, Structural)]
pub enum TokenKind {
    Word,
    Pipe,
    /// `;`, `&`, `&&` or `||`: the link to the next pipeline, and whether
    /// the pipeline runs in the background.
    End(Next, bool),
    /// `<`, `>`, `>>` or `2>`: the fd and the operation; a file follows.
    Redirect(i32, RedirOp),
    /// `2>&1`.
    DupErr,
    HereDoc,
}

/// Operators count only outside quotes.
pub open spec fn classify(t: TokenView) -> TokenKind {
    if t.0.len() != 0 {
        TokenKind::Word
    } else if t.1 == seq!['|'] {
        TokenKind::Pipe
    } else if t.1 == seq![';'] {
        TokenKind::End(Next::Then, false)
    } else if t.1 == seq!['&'] {
        TokenKind::End(Next::Then, true)
    } else if t.1 == seq!['&', '&'] {
        TokenKind::End(Next::And, false)
    } else if t.1 == seq!['|', '|'] {
        TokenKind::End(Next::Or, false)
    } else if t.1 == seq!['<'] {
        TokenKind::Redirect(0, RedirOp::Read)
    } else if t.1 == seq!['>'] {
        TokenKind::Redirect(1, RedirOp::Write)
    } else if t.1 == seq!['>', '>'] {
        TokenKind::Redirect(1, RedirOp::Append)
    } else if t.1 == seq!['2', '>'] {
        TokenKind::Redirect(2, RedirOp::Write)
    } else if t.1 == seq!['2', '>', '&', '1'] {
        TokenKind::DupErr
    } else if t.1 == seq!['<', '<'] {
        TokenKind::HereDoc
    } else {
        TokenKind::Word
    }
}

/// The parser's state between tokens: finished pipelines, the commands of
/// the current pipeline, the current command, and a redirection that waits
/// for its file.
pub struct ParseState {
    pub done: Seq<PipelineSpec>,
    pub cmds: Seq<CommandSpec>,
    pub argv: Seq<Seq<char>>,
    pub redirs: Seq<RedirSpec>,
    pub pending: Option<(i32, RedirOp)>,
}

pub open spec fn initial_state() -> ParseState {
    ParseState {
        done: Seq::empty(),
        cmds: Seq::empty(),
        argv: Seq::empty(),
        redirs: Seq::empty(),
        pending: None,
    }
}

/// The pipelines when the tokens run out: a pending redirection or a
/// dangling `|`, `&&` or `||` is an error; the last pipeline links to
/// nothing.
pub open spec fn finish(st: ParseState) -> Result<Seq<PipelineSpec>, ParseError> {
    if st.pending is Some {
        Err(ParseError::MissingTarget)
    } else if st.argv.len() == 0 {
        if st.cmds.len() > 0 || st.redirs.len() > 0 {
            Err(ParseError::EmptyCommand)
        } else if st.done.len() > 0 && (st.done.last().2 == Next::And || st.done.last().2
            == Next::Or) {
            Err(ParseError::EmptyCommand)
        } else if st.done.len() > 0 {
            Ok(st.done.update(st.done.len() - 1, (st.done.last().0, st.done.last().1, Next::End)))
        } else {
            Ok(st.done)
        }
    } else {
        Ok(st.done.push((st.cmds.push((st.argv, st.redirs)), false, Next::End)))
    }
}

/// Parses `ts[i..]` from state `st`.
pub open spec fn parse_from(ts: Seq<TokenView>, i: int, st: ParseState) -> Result<
    Seq<PipelineSpec>,
    ParseError,
>
    decreases ts.len() - i,
{
    if i < 0 || i >= ts.len() {
        finish(st)
    } else {
        let t = ts[i];
        match st.pending {
            Some((fd, op)) => if classify(t) == TokenKind::Word {
                parse_from(
                    ts,
                    i + 1,
                    ParseState { redirs: st.redirs.push((fd, op, t.1)), pending: None, ..st },
                )
            } else {
                Err(ParseError::MissingTarget)
            },
            None => match classify(t) {
                TokenKind::Word => parse_from(
                    ts,
                    i + 1,
                    ParseState { argv: st.argv.push(t.1), ..st },
                ),
                TokenKind::Pipe => if st.argv.len() == 0 {
                    Err(ParseError::EmptyCommand)
                } else {
                    parse_from(
                        ts,
                        i + 1,
                        ParseState {
                            cmds: st.cmds.push((st.argv, st.redirs)),
                            argv: Seq::empty(),
                            redirs: Seq::empty(),
                            ..st
                        },
                    )
                },
                TokenKind::End(next, bg) => if st.argv.len() == 0 {
                    Err(ParseError::EmptyCommand)
                } else {
                    parse_from(
                        ts,
                        i + 1,
                        ParseState {
                            done: st.done.push((st.cmds.push((st.argv, st.redirs)), bg, next)),
                            cmds: Seq::empty(),
                            argv: Seq::empty(),
                            redirs: Seq::empty(),
                            pending: None,
                        },
                    )
                },
                TokenKind::Redirect(fd, op) => parse_from(
                    ts,
                    i + 1,
                    ParseState { pending: Some((fd, op)), ..st },
                ),
                TokenKind::DupErr => parse_from(
                    ts,
                    i + 1,
                    ParseState { redirs: st.redirs.push((2, RedirOp::Dup, Seq::empty())), ..st },
                ),
                TokenKind::HereDoc => Err(ParseError::Unsupported),
            },
        }
    }
}

pub open spec fn parse(ts: Seq<TokenView>) -> Result<Seq<PipelineSpec>, ParseError> {
    parse_from(ts, 0, initial_state())
}

fn classify_exec(t: &Token) -> (r: TokenKind)
    ensures
        r == classify(token_view(*t)),
{
    proof {
        reveal_strlit("|");
        reveal_strlit(";");
        reveal_strlit("&");
        reveal_strlit("&&");
        reveal_strlit("||");
        reveal_strlit("<");
        reveal_strlit(">");
        reveal_strlit(">>");
        reveal_strlit("2>");
        reveal_strlit("2>&1");
        reveal_strlit("<<");
        assert("|"@ =~= seq!['|']);
        assert(";"@ =~= seq![';']);
        assert("&"@ =~= seq!['&']);
        assert("&&"@ =~= seq!['&', '&']);
        assert("||"@ =~= seq!['|', '|']);
        assert("<"@ =~= seq!['<']);
        assert(">"@ =~= seq!['>']);
        assert(">>"@ =~= seq!['>', '>']);
        assert("2>"@ =~= seq!['2', '>']);
        assert("2>&1"@ =~= seq!['2', '>', '&', '1']);
        assert("<<"@ =~= seq!['<', '<']);
    }
    if t.0.as_str().unicode_len() != 0 {
        TokenKind::Word
    } else if eq_str(&t.1, "|") {
        TokenKind::Pipe
    } else if eq_str(&t.1, ";") {
        TokenKind::End(Next::Then, false)
    } else if eq_str(&t.1, "&") {
        TokenKind::End(Next::Then, true)
    } else if eq_str(&t.1, "&&") {
        TokenKind::End(Next::And, false)
    } else if eq_str(&t.1, "||") {
        TokenKind::End(Next::Or, false)
    } else if eq_str(&t.1, "<") {
        TokenKind::Redirect(0, RedirOp::Read)
    } else if eq_str(&t.1, ">") {
        TokenKind::Redirect(1, RedirOp::Write)
    } else if eq_str(&t.1, ">>") {
        TokenKind::Redirect(1, RedirOp::Append)
    } else if eq_str(&t.1, "2>") {
        TokenKind::Redirect(2, RedirOp::Write)
    } else if eq_str(&t.1, "2>&1") {
        TokenKind::DupErr
    } else if eq_str(&t.1, "<<") {
        TokenKind::HereDoc
    } else {
        TokenKind::Word
    }
}

pub open spec fn state_view(
    done: Seq<Pipeline>,
    cmds: Seq<Command>,
    argv: Seq<String>,
    redirs: Seq<Redirect>,
    pending: Option<(i32, RedirOp)>,
) -> ParseState {
    ParseState {
        done: pipelines_view(done),
        cmds: commands_view(cmds),
        argv: words_view(argv),
        redirs: redirs_view(redirs),
        pending,
    }
}

/// Groups `tokens` into pipelines: `|` joins commands; `;`, `&`, `&&` and
/// `||` end a pipeline and say how it links to the next; `<`, `>`, `>>`,
/// `2>` take the next word as their file, and `2>&1` stands alone.
pub fn parse_pipelines(tokens: &Tokens) -> (r: Result<Vec<Pipeline>, ParseError>)
    ensures
        match parse(tokens_view(tokens@)) {
            Ok(ps) => r matches Ok(v) && pipelines_view(v@) == ps,
            Err(e) => r == Err::<Vec<Pipeline>, ParseError>(e),
        },
{
    let ghost ts = tokens_view(tokens@);
    let mut done: Vec<Pipeline> = Vec::new();
    let mut cmds: Vec<Command> = Vec::new();
    let mut argv: Vec<String> = Vec::new();
    let mut redirs: Vec<Redirect> = Vec::new();
    let mut pending: Option<(i32, RedirOp)> = None;
    assert(state_view(done@, cmds@, argv@, redirs@, pending) =~= initial_state()) by {
        assert(pipelines_view(done@) =~= Seq::<PipelineSpec>::empty());
        assert(commands_view(cmds@) =~= Seq::<CommandSpec>::empty());
        assert(words_view(argv@) =~= Seq::<Seq<char>>::empty());
        assert(redirs_view(redirs@) =~= Seq::<RedirSpec>::empty());
    }
    let mut i: usize = 0;
    while i < tokens.len()
        invariant
            i <= tokens@.len(),
            ts == tokens_view(tokens@),
            parse_from(ts, i as int, state_view(done@, cmds@, argv@, redirs@, pending)) == parse(
                ts,
            ),
        decreases tokens@.len() - i,
    {
        let t = &tokens[i];
        assert(ts[i as int] == token_view(*t));
        let kind = classify_exec(t);
        match pending {
            Some((fd, op)) => {
                if kind != TokenKind::Word {
                    return Err(ParseError::MissingTarget);
                }
                let ghost before = redirs@;
                redirs.push(Redirect { fd: fd, op: op, target: t.1.clone() });
                assert(redirs_view(redirs@) =~= redirs_view(before).push((fd, op, t.1@)));
                pending = None;
            },
            None => match kind {
                TokenKind::Word => {
                    let ghost before = argv@;
                    argv.push(t.1.clone());
                    assert(words_view(argv@) =~= words_view(before).push(t.1@));
                },
                TokenKind::Pipe => {
                    if argv.len() == 0 {
                        return Err(ParseError::EmptyCommand);
                    }
                    let ghost before = cmds@;
                    let c = Command { argv: argv, redirs: redirs };
                    cmds.push(c);
                    assert(commands_view(cmds@) =~= commands_view(before).push(command_view(c)));
                    argv = Vec::new();
                    redirs = Vec::new();
                    assert(words_view(argv@) =~= Seq::<Seq<char>>::empty());
                    assert(redirs_view(redirs@) =~= Seq::<RedirSpec>::empty());
                },
                TokenKind::End(next, bg) => {
                    if argv.len() == 0 {
                        return Err(ParseError::EmptyCommand);
                    }
                    let ghost before_cmds = cmds@;
                    let c = Command { argv: argv, redirs: redirs };
                    cmds.push(c);
                    assert(commands_view(cmds@) =~= commands_view(before_cmds).push(
                        command_view(c),
                    ));
                    let ghost before = done@;
                    let p = Pipeline { cmds: cmds, background: bg, next: next };
                    done.push(p);
                    assert(pipelines_view(done@) =~= pipelines_view(before).push(
                        pipeline_view(p),
                    ));
                    cmds = Vec::new();
                    argv = Vec::new();
                    redirs = Vec::new();
                    assert(commands_view(cmds@) =~= Seq::<CommandSpec>::empty());
                    assert(words_view(argv@) =~= Seq::<Seq<char>>::empty());
                    assert(redirs_view(redirs@) =~= Seq::<RedirSpec>::empty());
                },
                TokenKind::Redirect(fd, op) => {
                    pending = Some((fd, op));
                },
                TokenKind::DupErr => {
                    let ghost before = redirs@;
                    redirs.push(Redirect { fd: 2, op: RedirOp::Dup, target: String::new() });
                    assert(redirs_view(redirs@) =~= redirs_view(before).push(
                        (2, RedirOp::Dup, Seq::empty()),
                    ));
                },
                TokenKind::HereDoc => {
                    return Err(ParseError::Unsupported);
                },
            },
        }
        i = i + 1;
    }
    if pending.is_some() {
        return Err(ParseError::MissingTarget);
    }
    if argv.len() == 0 {
        if cmds.len() > 0 || redirs.len() > 0 {
            return Err(ParseError::EmptyCommand);
        }
        if done.len() > 0 {
            let ghost before = done@;
            let mut last = done.pop().unwrap();
            if last.next == Next::And || last.next == Next::Or {
                return Err(ParseError::EmptyCommand);
            }
            last.next = Next::End;
            done.push(last);
            assert(pipelines_view(done@) =~= pipelines_view(before).update(
                before.len() - 1,
                (pipelines_view(before).last().0, pipelines_view(before).last().1, Next::End),
            ));
        }
        Ok(done)
    } else {
        let ghost before_cmds = cmds@;
        let c = Command { argv: argv, redirs: redirs };
        cmds.push(c);
        assert(commands_view(cmds@) =~= commands_view(before_cmds).push(command_view(c)));
        let ghost before = done@;
        let p = Pipeline { cmds: cmds, background: false, next: Next::End };
        done.push(p);
        assert(pipelines_view(done@) =~= pipelines_view(before).push(pipeline_view(p)));
        Ok(done)
    }
}

} // verus!
