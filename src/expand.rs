//! The expansion passes that rewrite a line's tokens: alias, tilde, brace,
//! variable, glob and command substitution.
use vstd::prelude::*;
use vstd::string::*;

use crate::parser_line::{cmd_to_tokens, lex};
use crate::shell::{find_binding, lookup, Shell};
use crate::strs::{
    chars_of, contains_char, contains_space, eq_str, has_char, has_space, is_space, owned, string_of,
    string_of_range,
};
use crate::types::{Token, TokenView, Tokens, token_view, tokens_view};

verus! {

broadcast use vstd::std_specs::vec::group_vec_axioms;

proof fn lemma_tokens_view_push(out: Seq<Token>, t: Token)
    ensures
        tokens_view(out.push(t)) == tokens_view(out).push(token_view(t)),
{
    assert(tokens_view(out.push(t)) =~= tokens_view(out).push(token_view(t)));
}

proof fn lemma_tokens_view_add(a: Seq<Token>, b: Seq<Token>)
    ensures
        tokens_view(a + b) == tokens_view(a) + tokens_view(b),
{
    assert(tokens_view(a + b) =~= tokens_view(a) + tokens_view(b));
}

fn clone_token(t: &Token) -> (r: Token)
    ensures
        r == *t,
{
    (t.0.clone(), t.1.clone())
}

fn is_unquoted(t: &Token) -> (r: bool)
    ensures
        r == (t.0@.len() == 0),
{
    t.0.as_str().unicode_len() == 0
}

/// Appends the characters of `src` to `out`.
fn append_chars(out: &mut Vec<char>, src: &Vec<char>)
    ensures
        final(out)@ == old(out)@ + src@,
{
    let mut i: usize = 0;
    let ghost start = out@;
    while i < src.len()
        invariant
            i <= src@.len(),
            out@ == start + src@.subrange(0, i as int),
        decreases src@.len() - i,
    {
        out.push(src[i]);
        i = i + 1;
        assert(out@ =~= start + src@.subrange(0, i as int));
    }
    assert(src@.subrange(0, src@.len() as int) =~= src@);
}

// ---------------------------------------------------------------- tilde

/// A `~` at `s[i]` that stands for the home directory: it starts the text
/// or follows a space, and ends the text or precedes a space or a `/`.
pub open spec fn tilde_at(s: Seq<char>, i: int) -> bool {
    &&& 0 <= i < s.len()
    &&& s[i] == '~'
    &&& i == 0 || s[i - 1] == ' '
    &&& i + 1 == s.len() || s[i + 1] == ' ' || s[i + 1] == '/'
}

/// `s[i..]` with every home-directory `~` replaced by `home`.
pub open spec fn tilde_from(s: Seq<char>, i: int, home: Seq<char>) -> Seq<char>
    decreases s.len() - i,
{
    if i < 0 || i >= s.len() {
        Seq::empty()
    } else if tilde_at(s, i) {
        home + tilde_from(s, i + 1, home)
    } else {
        seq![s[i]] + tilde_from(s, i + 1, home)
    }
}

pub open spec fn expand_tilde(s: Seq<char>, home: Seq<char>) -> Seq<char> {
    tilde_from(s, 0, home)
}

fn tilde_at_exec(s: &Vec<char>, i: usize) -> (r: bool)
    requires
        i < s@.len(),
    ensures
        r == tilde_at(s@, i as int),
{
    let n = s.len();
    s[i] == '~' && (i == 0 || s[i - 1] == ' ') && (n - i == 1 || s[i + 1] == ' ' || s[i + 1]
        == '/')
}

/// Does `line` hold a `~` that stands for the home directory?
pub fn needs_expand_home(line: &str) -> (r: bool)
    ensures
        r == exists|i: int| tilde_at(line@, i),
{
    let s = chars_of(line);
    let mut i: usize = 0;
    while i < s.len()
        invariant
            s@ == line@,
            i <= s@.len(),
            forall|j: int| 0 <= j < i ==> !tilde_at(s@, j),
        decreases s@.len() - i,
    {
        if tilde_at_exec(&s, i) {
            return true;
        }
        i = i + 1;
    }
    false
}

/// Replaces each home-directory `~` of `text` by `home`.
pub fn expand_home_string(text: &mut String, home: &str)
    ensures
        final(text)@ == expand_tilde(old(text)@, home@),
{
    let s = chars_of(text.as_str());
    let h = chars_of(home);
    let mut out: Vec<char> = Vec::new();
    let mut i: usize = 0;
    while i < s.len()
        invariant
            i <= s@.len(),
            s@ == old(text)@,
            h@ == home@,
            out@ + tilde_from(s@, i as int, h@) == expand_tilde(s@, h@),
        decreases s@.len() - i,
    {
        let ghost before = out@;
        if tilde_at_exec(&s, i) {
            append_chars(&mut out, &h);
        } else {
            out.push(s[i]);
        }
        assert(before + tilde_from(s@, i as int, h@) =~= out@ + tilde_from(s@, i + 1, h@));
        i = i + 1;
    }
    assert(out@ + tilde_from(s@, i as int, h@) =~= out@);
    *text = string_of(&out);
}

/// Tilde expansion of the unquoted tokens.
pub open spec fn home_token(t: TokenView, home: Seq<char>) -> TokenView {
    if t.0.len() == 0 {
        (t.0, expand_tilde(t.1, home))
    } else {
        t
    }
}

pub fn expand_home(tokens: &mut Tokens, home: &str)
    ensures
        final(tokens)@.len() == old(tokens)@.len(),
        forall|i: int|
            0 <= i < old(tokens)@.len() ==> token_view(#[trigger] final(tokens)@[i]) == home_token(
                token_view(old(tokens)@[i]),
                home@,
            ),
{
    let mut out: Tokens = Vec::new();
    let mut i: usize = 0;
    while i < tokens.len()
        invariant
            i <= tokens@.len(),
            tokens@ == old(tokens)@,
            out@.len() == i,
            forall|j: int|
                0 <= j < i ==> token_view(#[trigger] out@[j]) == home_token(
                    token_view(old(tokens)@[j]),
                    home@,
                ),
        decreases tokens@.len() - i,
    {
        let mut t = clone_token(&tokens[i]);
        if is_unquoted(&t) {
            expand_home_string(&mut t.1, home);
        }
        out.push(t);
        i = i + 1;
    }
    *tokens = out;
}

// ---------------------------------------------------------------- alias

pub open spec fn is_pipe(t: TokenView) -> bool {
    t.0.len() == 0 && t.1 == seq!['|']
}

/// The tokens that replace `t` when it stands at a command head.
pub open spec fn alias_body(aliases: Seq<(String, String)>, t: TokenView) -> Option<Seq<char>> {
    if t.0.len() == 0 {
        match lookup(aliases, t.1) {
            Some(v) => if v.len() > 0 {
                Some(v)
            } else {
                None
            },
            None => None,
        }
    } else {
        None
    }
}

/// One left-to-right pass of alias substitution over `ts[i..]`: a command
/// head (the first token, or the one after `|`) that names an alias is
/// replaced by the tokens of the alias text, which are not looked at again.
pub open spec fn alias_from(
    aliases: Seq<(String, String)>,
    ts: Seq<TokenView>,
    i: int,
    is_head: bool,
) -> Seq<TokenView>
    decreases ts.len() - i,
{
    if i < 0 || i >= ts.len() {
        Seq::empty()
    } else if is_pipe(ts[i]) {
        seq![ts[i]] + alias_from(aliases, ts, i + 1, true)
    } else if is_head && alias_body(aliases, ts[i]) is Some {
        lex(alias_body(aliases, ts[i])->0) + alias_from(aliases, ts, i + 1, false)
    } else {
        seq![ts[i]] + alias_from(aliases, ts, i + 1, false)
    }
}

pub open spec fn alias_pass(aliases: Seq<(String, String)>, ts: Seq<TokenView>) -> Seq<TokenView> {
    alias_from(aliases, ts, 0, true)
}

/// Substitutes aliases at command heads, in a single pass.
pub fn expand_alias(sh: &Shell, tokens: &mut Tokens)
    ensures
        tokens_view(final(tokens)@) == alias_pass(sh.alias@, tokens_view(old(tokens)@)),
{
    let ghost ts = tokens_view(tokens@);
    let mut out: Tokens = Vec::new();
    let mut is_head = true;
    let mut i: usize = 0;
    assert(tokens_view(out@) =~= Seq::<TokenView>::empty());
    while i < tokens.len()
        invariant
            i <= tokens@.len(),
            tokens@ == old(tokens)@,
            ts == tokens_view(tokens@),
            tokens_view(out@) + alias_from(sh.alias@, ts, i as int, is_head) == alias_pass(
                sh.alias@,
                ts,
            ),
        decreases tokens@.len() - i,
    {
        let ghost before = tokens_view(out@);
        let ghost head0 = is_head;
        let t = &tokens[i];
        assert(ts[i as int] == token_view(*t));
        if is_unquoted(t) && eq_str(&t.1, "|") {
            proof {
                reveal_strlit("|");
                assert("|"@ =~= seq!['|']);
                lemma_tokens_view_push(out@, *t);
            }
            out.push(clone_token(t));
            is_head = true;
        } else {
            proof {
                reveal_strlit("|");
                assert("|"@ =~= seq!['|']);
            }
            let mut body: Option<String> = None;
            if is_head && is_unquoted(t) {
                body = sh.get_alias_content(t.1.as_str());
            }
            match body {
                Some(v) => {
                    let mut more = cmd_to_tokens(v.as_str());
                    proof {
                        lemma_tokens_view_add(out@, more@);
                    }
                    out.append(&mut more);
                },
                None => {
                    proof {
                        lemma_tokens_view_push(out@, *t);
                    }
                    out.push(clone_token(t));
                },
            }
            is_head = false;
        }
        assert(before + alias_from(sh.alias@, ts, i as int, head0) =~= tokens_view(out@)
            + alias_from(sh.alias@, ts, i + 1, is_head));
        i = i + 1;
    }
    assert(tokens_view(out@) =~= alias_pass(sh.alias@, ts));
    *tokens = out;
}

/// Alias substitution is a single pass, whatever the aliases: a command
/// head is replaced by the tokens of its alias text, and those tokens are
/// not expanded again, even when the text starts with the alias's own name
/// (`ls` for `ls -l`).
pub proof fn lemma_alias_single_pass(
    aliases: Seq<(String, String)>,
    t: TokenView,
    rest: Seq<TokenView>,
)
    requires
        alias_body(aliases, t) is Some,
        !is_pipe(t),
    ensures
        alias_pass(aliases, seq![t] + rest) == lex(alias_body(aliases, t)->0) + alias_from(
            aliases,
            seq![t] + rest,
            1,
            false,
        ),
{
    let ts = seq![t] + rest;
    assert(ts[0] == t);
}

// ---------------------------------------------------------------- brace

/// Index of the first `c` in `s[i..]`, or the length of `s`.
pub open spec fn find_from(s: Seq<char>, i: int, c: char) -> int
    decreases s.len() - i,
{
    if i < 0 || i >= s.len() {
        s.len() as int
    } else if s[i] == c {
        i
    } else {
        find_from(s, i + 1, c)
    }
}

proof fn lemma_find_from_bounds(s: Seq<char>, i: int, c: char)
    requires
        0 <= i <= s.len(),
    ensures
        i <= find_from(s, i, c) <= s.len(),
        find_from(s, i, c) < s.len() ==> s[find_from(s, i, c)] == c,
    decreases s.len() - i,
{
    if i < s.len() && s[i] != c {
        lemma_find_from_bounds(s, i + 1, c);
    }
}

fn find_from_exec(s: &Vec<char>, i: usize, c: char) -> (r: usize)
    requires
        i <= s@.len(),
    ensures
        r == find_from(s@, i as int, c),
{
    let mut j: usize = i;
    while j < s.len() && s[j] != c
        invariant
            i <= j <= s@.len(),
            find_from(s@, j as int, c) == find_from(s@, i as int, c),
        decreases s@.len() - j,
    {
        j = j + 1;
    }
    j
}

pub open spec fn brace_open(s: Seq<char>) -> int {
    find_from(s, 0, '{')
}

pub open spec fn brace_close(s: Seq<char>) -> int {
    find_from(s, brace_open(s) + 1, '}')
}

/// `s` holds a `{`, a later `}`, and a `,` between the two.
pub open spec fn brace_group(s: Seq<char>) -> bool {
    &&& brace_open(s) < s.len()
    &&& brace_close(s) < s.len()
    &&& has_char(s.subrange(brace_open(s) + 1, brace_close(s)), ',')
}

/// The separator for a word that an expansion produced: double quotes keep
/// a word with whitespace in one piece.
pub open spec fn sep_for(w: Seq<char>) -> Seq<char> {
    if has_space(w) {
        seq!['"']
    } else {
        Seq::empty()
    }
}

/// The token for the alternative `s[a..b]` of the group `s[o..=c]`: the
/// text before the group, the alternative, and the text after the group.
/// Empty alternatives give no token.
pub open spec fn brace_piece(s: Seq<char>, o: int, c: int, a: int, b: int) -> Seq<TokenView> {
    if a < b {
        let w = s.subrange(0, o) + s.subrange(a, b) + s.subrange(c + 1, s.len() as int);
        seq![(sep_for(w), w)]
    } else {
        Seq::empty()
    }
}

/// The tokens for the alternatives of `s[o..=c]` from the one that starts
/// at `a`, scanning at `i`.
pub open spec fn brace_alts(s: Seq<char>, o: int, c: int, a: int, i: int) -> Seq<TokenView>
    decreases c - i,
{
    if i >= c {
        brace_piece(s, o, c, a, c)
    } else if s[i] == ',' {
        brace_piece(s, o, c, a, i) + brace_alts(s, o, c, i + 1, i + 1)
    } else {
        brace_alts(s, o, c, a, i + 1)
    }
}

/// Brace expansion of one token; single level: the first `{` and the first
/// `}` after it delimit the group.
pub open spec fn brace_token(t: TokenView) -> Seq<TokenView> {
    if t.0.len() == 0 && brace_group(t.1) {
        let o = brace_open(t.1);
        brace_alts(t.1, o, brace_close(t.1), o + 1, o + 1)
    } else {
        seq![t]
    }
}

pub open spec fn brace_from(ts: Seq<TokenView>, i: int) -> Seq<TokenView>
    decreases ts.len() - i,
{
    if i < 0 || i >= ts.len() {
        Seq::empty()
    } else {
        brace_token(ts[i]) + brace_from(ts, i + 1)
    }
}

pub open spec fn brace_pass(ts: Seq<TokenView>) -> Seq<TokenView> {
    brace_from(ts, 0)
}

/// Does `line` hold a brace group with at least one comma?
pub fn should_extend_brace(line: &str) -> (r: bool)
    ensures
        r == brace_group(line@),
{
    let s = chars_of(line);
    let o = find_from_exec(&s, 0, '{');
    proof {
        lemma_find_from_bounds(s@, 0, '{');
    }
    if o == s.len() {
        return false;
    }
    let c = find_from_exec(&s, o + 1, '}');
    proof {
        lemma_find_from_bounds(s@, o + 1, '}');
    }
    if c == s.len() {
        return false;
    }
    let mut i: usize = o + 1;
    while i < c
        invariant
            o + 1 <= i <= c < s@.len(),
            s@ == line@,
            o == brace_open(s@),
            c == brace_close(s@),
            forall|j: int| o + 1 <= j < i ==> s@[j] != ',',
        decreases c - i,
    {
        if s[i] == ',' {
            assert(s@.subrange(o + 1, c as int)[i - (o + 1)] == ',');
            assert(has_char(s@.subrange(o + 1, c as int), ','));
            return true;
        }
        i = i + 1;
    }
    assert(!has_char(s@.subrange(o + 1, c as int), ','));
    false
}

fn sep_for_exec(w: &Vec<char>) -> (r: String)
    ensures
        r@ == sep_for(w@),
{
    if contains_space(w) {
        proof {
            reveal_strlit("\"");
            assert("\""@ =~= seq!['"']);
        }
        owned("\"")
    } else {
        String::new()
    }
}

fn push_brace_piece(out: &mut Tokens, s: &Vec<char>, o: usize, c: usize, a: usize, b: usize)
    requires
        o < a <= b <= c < s@.len(),
    ensures
        tokens_view(final(out)@) == tokens_view(old(out)@) + brace_piece(
            s@,
            o as int,
            c as int,
            a as int,
            b as int,
        ),
{
    if a < b {
        let mut w: Vec<char> = Vec::new();
        let mut i: usize = 0;
        while i < o
            invariant
                i <= o < s@.len(),
                w@ == s@.subrange(0, i as int),
            decreases o - i,
        {
            w.push(s[i]);
            i = i + 1;
            assert(w@ =~= s@.subrange(0, i as int));
        }
        let ghost w1 = w@;
        i = a;
        while i < b
            invariant
                a <= i <= b < s@.len(),
                w@ == w1 + s@.subrange(a as int, i as int),
            decreases b - i,
        {
            w.push(s[i]);
            i = i + 1;
            assert(w@ =~= w1 + s@.subrange(a as int, i as int));
        }
        let ghost w2 = w@;
        let n = s.len();
        i = c + 1;
        while i < s.len()
            invariant
                c + 1 <= i <= s@.len(),
                w@ == w2 + s@.subrange(c + 1, i as int),
            decreases s@.len() - i,
        {
            w.push(s[i]);
            i = i + 1;
            assert(w@ =~= w2 + s@.subrange(c + 1, i as int));
        }
        let t = (sep_for_exec(&w), string_of(&w));
        proof {
            lemma_tokens_view_push(out@, t);
        }
        out.push(t);
        assert(tokens_view(out@) =~= tokens_view(old(out)@) + brace_piece(
            s@,
            o as int,
            c as int,
            a as int,
            b as int,
        ));
    } else {
        assert(tokens_view(out@) =~= tokens_view(old(out)@) + brace_piece(
            s@,
            o as int,
            c as int,
            a as int,
            b as int,
        ));
    }
}

/// Appends the brace expansion of the unquoted word `word`.
fn push_brace_token(out: &mut Tokens, t: &Token)
    ensures
        tokens_view(final(out)@) == tokens_view(old(out)@) + brace_token(token_view(*t)),
{
    if !is_unquoted(t) || !should_extend_brace(t.1.as_str()) {
        proof {
            lemma_tokens_view_push(out@, *t);
        }
        out.push(clone_token(t));
        assert(tokens_view(out@) =~= tokens_view(old(out)@) + brace_token(token_view(*t)));
        return;
    }
    let s = chars_of(t.1.as_str());
    let o = find_from_exec(&s, 0, '{');
    proof {
        lemma_find_from_bounds(s@, 0, '{');
    }
    let c = find_from_exec(&s, o + 1, '}');
    proof {
        lemma_find_from_bounds(s@, o + 1, '}');
    }
    let ghost start = tokens_view(out@);
    let mut a: usize = o + 1;
    let mut i: usize = o + 1;
    while i < c
        invariant
            o < a <= i <= c < s@.len(),
            o == brace_open(s@),
            tokens_view(out@) + brace_alts(s@, o as int, c as int, a as int, i as int) == start
                + brace_alts(s@, o as int, c as int, o + 1, o + 1),
        decreases c - i,
    {
        if s[i] == ',' {
            let ghost before = tokens_view(out@);
            push_brace_piece(out, &s, o, c, a, i);
            assert(before + brace_alts(s@, o as int, c as int, a as int, i as int) =~= tokens_view(
                out@,
            ) + brace_alts(s@, o as int, c as int, (i + 1) as int, (i + 1) as int));
            i = i + 1;
            a = i;
        } else {
            i = i + 1;
        }
    }
    let ghost before = tokens_view(out@);
    push_brace_piece(out, &s, o, c, a, c);
    assert(tokens_view(out@) =~= tokens_view(old(out)@) + brace_token(token_view(*t)));
}

/// Brace expansion of every unquoted token.
pub fn expand_brace(tokens: &mut Tokens)
    ensures
        tokens_view(final(tokens)@) == brace_pass(tokens_view(old(tokens)@)),
{
    let ghost ts = tokens_view(tokens@);
    let mut out: Tokens = Vec::new();
    let mut i: usize = 0;
    assert(tokens_view(out@) =~= Seq::<TokenView>::empty());
    while i < tokens.len()
        invariant
            i <= tokens@.len(),
            tokens@ == old(tokens)@,
            ts == tokens_view(tokens@),
            tokens_view(out@) + brace_from(ts, i as int) == brace_pass(ts),
        decreases tokens@.len() - i,
    {
        let ghost before = tokens_view(out@);
        push_brace_token(&mut out, &tokens[i]);
        assert(before + brace_from(ts, i as int) =~= tokens_view(out@) + brace_from(ts, i + 1));
        i = i + 1;
    }
    assert(tokens_view(out@) =~= brace_pass(ts));
    *tokens = out;
}

// ---------------------------------------------------------------- variables

pub open spec fn is_name_char(c: char) -> bool {
    ('a' <= c && c <= 'z') || ('A' <= c && c <= 'Z') || ('0' <= c && c <= '9') || c == '_'
}

/// A variable name starts with a letter or `_`.
pub open spec fn is_name_start(c: char) -> bool {
    ('a' <= c && c <= 'z') || ('A' <= c && c <= 'Z') || c == '_'
}

fn is_name_start_exec(c: char) -> (r: bool)
    ensures
        r == is_name_start(c),
{
    ('a' <= c && c <= 'z') || ('A' <= c && c <= 'Z') || c == '_'
}

/// End of the run of name characters that starts at `i`.
pub open spec fn name_end(s: Seq<char>, i: int) -> int
    decreases s.len() - i,
{
    if i < 0 || i >= s.len() {
        s.len() as int
    } else if is_name_char(s[i]) {
        name_end(s, i + 1)
    } else {
        i
    }
}

proof fn lemma_name_end_bounds(s: Seq<char>, i: int)
    requires
        0 <= i <= s.len(),
    ensures
        i <= name_end(s, i) <= s.len(),
        i < s.len() && is_name_char(s[i]) ==> i < name_end(s, i),
    decreases s.len() - i,
{
    if i < s.len() && is_name_char(s[i]) {
        lemma_name_end_bounds(s, i + 1);
    }
}

pub open spec fn digit(d: int) -> char {
    seq!['0', '1', '2', '3', '4', '5', '6', '7', '8', '9'][d]
}

/// The decimal digits of `n`.
pub open spec fn dec_digits(n: nat) -> Seq<char>
    decreases n,
{
    if n < 10 {
        seq![digit(n as int)]
    } else {
        dec_digits(n / 10) + seq![digit((n % 10) as int)]
    }
}

/// `n` written in decimal, with a leading `-` when negative.
pub open spec fn dec_int(n: int) -> Seq<char> {
    if n < 0 {
        seq!['-'] + dec_digits((-n) as nat)
    } else {
        dec_digits(n as nat)
    }
}

/// The value of variable `name`: the process environment `os` first, then
/// the shell-scoped variables `vars`, else empty.
pub open spec fn var_value(
    name: Seq<char>,
    os: Seq<(String, String)>,
    vars: Seq<(String, String)>,
) -> Seq<char> {
    match lookup(os, name) {
        Some(v) => v,
        None => match lookup(vars, name) {
            Some(v) => v,
            None => Seq::empty(),
        },
    }
}

/// `s[i..]` with `$?`, `$$`, `${NAME}` and `$NAME` replaced. Substituted
/// values are not scanned again.
pub open spec fn env_from(
    s: Seq<char>,
    i: int,
    status: i32,
    pid: u32,
    os: Seq<(String, String)>,
    vars: Seq<(String, String)>,
) -> Seq<char>
    decreases s.len() - i,
{
    if i < 0 || i >= s.len() {
        Seq::empty()
    } else if s[i] == '$' && i + 1 < s.len() {
        let c = s[i + 1];
        if c == '?' {
            dec_int(status as int) + env_from(s, i + 2, status, pid, os, vars)
        } else if c == '$' {
            dec_int(pid as int) + env_from(s, i + 2, status, pid, os, vars)
        } else if c == '{' && i + 2 < name_end(s, i + 2) < s.len() && is_name_start(s[i + 2])
            && s[name_end(s, i + 2)] == '}' {
            var_value(s.subrange(i + 2, name_end(s, i + 2)), os, vars) + env_from(
                s,
                name_end(s, i + 2) + 1,
                status,
                pid,
                os,
                vars,
            )
        } else if is_name_start(c) && i + 1 < name_end(s, i + 1) <= s.len() {
            var_value(s.subrange(i + 1, name_end(s, i + 1)), os, vars) + env_from(
                s,
                name_end(s, i + 1),
                status,
                pid,
                os,
                vars,
            )
        } else {
            seq!['$'] + env_from(s, i + 1, status, pid, os, vars)
        }
    } else {
        seq![s[i]] + env_from(s, i + 1, status, pid, os, vars)
    }
}

pub open spec fn expand_vars(
    s: Seq<char>,
    status: i32,
    pid: u32,
    os: Seq<(String, String)>,
    vars: Seq<(String, String)>,
) -> Seq<char> {
    env_from(s, 0, status, pid, os, vars)
}

fn is_name_char_exec(c: char) -> (r: bool)
    ensures
        r == is_name_char(c),
{
    ('a' <= c && c <= 'z') || ('A' <= c && c <= 'Z') || ('0' <= c && c <= '9') || c == '_'
}

fn name_end_exec(s: &Vec<char>, i: usize) -> (r: usize)
    requires
        i <= s@.len(),
    ensures
        r == name_end(s@, i as int),
{
    let mut j: usize = i;
    while j < s.len() && is_name_char_exec(s[j])
        invariant
            i <= j <= s@.len(),
            name_end(s@, j as int) == name_end(s@, i as int),
        decreases s@.len() - j,
    {
        j = j + 1;
    }
    j
}

fn push_dec(out: &mut Vec<char>, n: u64)
    ensures
        final(out)@ == old(out)@ + dec_digits(n as nat),
    decreases n,
{
    let table: Vec<char> = vec!['0', '1', '2', '3', '4', '5', '6', '7', '8', '9'];
    assert(table@ =~= seq!['0', '1', '2', '3', '4', '5', '6', '7', '8', '9']);
    if n >= 10 {
        push_dec(out, n / 10);
    }
    out.push(table[(n % 10) as usize]);
    assert(out@ =~= old(out)@ + dec_digits(n as nat));
}

fn push_dec_int(out: &mut Vec<char>, n: i64)
    ensures
        final(out)@ == old(out)@ + dec_int(n as int),
{
    if n < 0 {
        out.push('-');
        let m: u64 = if n == i64::MIN {
            9223372036854775808u64
        } else {
            (-n) as u64
        };
        push_dec(out, m);
        assert(out@ =~= old(out)@ + dec_int(n as int));
    } else {
        push_dec(out, n as u64);
    }
}

fn push_var_value(
    out: &mut Vec<char>,
    name: &str,
    os_envs: &Vec<(String, String)>,
    vars: &Vec<(String, String)>,
)
    ensures
        final(out)@ == old(out)@ + var_value(name@, os_envs@, vars@),
{
    match find_binding(os_envs, name) {
        Some(j) => {
            let v = chars_of(os_envs[j].1.as_str());
            append_chars(out, &v);
        },
        None => match find_binding(vars, name) {
            Some(j) => {
                let v = chars_of(vars[j].1.as_str());
                append_chars(out, &v);
            },
            None => {
                assert(out@ =~= old(out)@ + var_value(name@, os_envs@, vars@));
            },
        },
    }
}

/// Replaces the variables of `token`: `$?` by the previous status, `$$` by
/// `pid`, and `$NAME` or `${NAME}` by the value in `os_envs`, else in the
/// shell's variables, else by nothing.
pub fn extend_env_blindly(sh: &Shell, token: &str, os_envs: &Vec<(String, String)>, pid: u32) -> (r:
    String)
    ensures
        r@ == expand_vars(token@, sh.previous_status, pid, os_envs@, sh.envs@),
{
    let s = chars_of(token);
    let n = s.len();
    let ghost st = sh.previous_status;
    let ghost os = os_envs@;
    let ghost vars = sh.envs@;
    let mut out: Vec<char> = Vec::new();
    let mut i: usize = 0;
    while i < n
        invariant
            i <= n,
            n == s@.len(),
            s@ == token@,
            st == sh.previous_status,
            os == os_envs@,
            vars == sh.envs@,
            out@ + env_from(s@, i as int, st, pid, os, vars) == expand_vars(s@, st, pid, os, vars),
        decreases n - i,
    {
        let ghost before = out@;
        if s[i] == '$' && i + 1 < n {
            let c = s[i + 1];
            if c == '?' {
                push_dec_int(&mut out, sh.previous_status as i64);
                assert(before + env_from(s@, i as int, st, pid, os, vars) =~= out@ + env_from(
                    s@,
                    i + 2,
                    st,
                    pid,
                    os,
                    vars,
                ));
                i = i + 2;
            } else if c == '$' {
                push_dec_int(&mut out, pid as i64);
                assert(before + env_from(s@, i as int, st, pid, os, vars) =~= out@ + env_from(
                    s@,
                    i + 2,
                    st,
                    pid,
                    os,
                    vars,
                ));
                i = i + 2;
            } else {
                let e = if c == '{' {
                    name_end_exec(&s, i + 2)
                } else {
                    0
                };
                proof {
                    lemma_name_end_bounds(s@, i + 2);
                    lemma_name_end_bounds(s@, i + 1);
                }
                if c == '{' && i + 2 < e && e < n && is_name_start_exec(s[i + 2]) && s[e] == '}' {
                    let name = string_of_range(&s, i + 2, e);
                    push_var_value(&mut out, name.as_str(), os_envs, &sh.envs);
                    assert(before + env_from(s@, i as int, st, pid, os, vars) =~= out@ + env_from(
                        s@,
                        e + 1,
                        st,
                        pid,
                        os,
                        vars,
                    ));
                    i = e + 1;
                } else if is_name_start_exec(c) {
                    let e2 = name_end_exec(&s, i + 1);
                    let name = string_of_range(&s, i + 1, e2);
                    push_var_value(&mut out, name.as_str(), os_envs, &sh.envs);
                    assert(before + env_from(s@, i as int, st, pid, os, vars) =~= out@ + env_from(
                        s@,
                        e2 as int,
                        st,
                        pid,
                        os,
                        vars,
                    ));
                    i = e2;
                } else {
                    out.push('$');
                    assert(before + env_from(s@, i as int, st, pid, os, vars) =~= out@ + env_from(
                        s@,
                        i + 1,
                        st,
                        pid,
                        os,
                        vars,
                    ));
                    i = i + 1;
                }
            }
        } else {
            out.push(s[i]);
            assert(before + env_from(s@, i as int, st, pid, os, vars) =~= out@ + env_from(
                s@,
                i + 1,
                st,
                pid,
                os,
                vars,
            ));
            i = i + 1;
        }
    }
    assert(out@ + env_from(s@, i as int, st, pid, os, vars) =~= out@);
    string_of(&out)
}

/// A `$` at `s[i]` that starts `$?`, `$$`, `$NAME` or `${NAME`, where a
/// name starts with a letter or `_`.
pub open spec fn var_ref_at(s: Seq<char>, i: int) -> bool {
    &&& 0 <= i < s.len() - 1
    &&& s[i] == '$'
    &&& s[i + 1] == '?' || s[i + 1] == '$' || is_name_start(s[i + 1]) || (s[i + 1] == '{' && i
        + 2 < s.len() && is_name_start(s[i + 2]))
}

pub open spec fn has_var_ref(s: Seq<char>) -> bool {
    exists|i: int| var_ref_at(s, i)
}

pub fn env_in_token(token: &str) -> (r: bool)
    ensures
        r == has_var_ref(token@),
{
    let s = chars_of(token);
    if s.len() == 0 {
        return false;
    }
    let mut i: usize = 0;
    while i < s.len() - 1
        invariant
            s@.len() > 0,
            s@ == token@,
            i <= s@.len(),
            forall|j: int| 0 <= j < i ==> !var_ref_at(s@, j),
        decreases s@.len() - i,
    {
        let c = s[i + 1];
        let braced = c == '{' && i + 2 < s.len() && is_name_start_exec(s[i + 2]);
        if s[i] == '$' && (c == '?' || c == '$' || is_name_start_exec(c) || braced) {
            assert(var_ref_at(s@, i as int));
            return true;
        }
        i = i + 1;
    }
    false
}

/// Variable expansion applies to every token that is neither single-quoted
/// nor a backtick command.
pub open spec fn env_token(
    t: TokenView,
    status: i32,
    pid: u32,
    os: Seq<(String, String)>,
    vars: Seq<(String, String)>,
) -> TokenView {
    if t.0 != seq!['\''] && t.0 != seq!['`'] && has_var_ref(t.1) {
        (t.0, expand_vars(t.1, status, pid, os, vars))
    } else {
        t
    }
}

pub fn expand_env(sh: &Shell, tokens: &mut Tokens, os_envs: &Vec<(String, String)>, pid: u32)
    ensures
        final(tokens)@.len() == old(tokens)@.len(),
        forall|i: int|
            0 <= i < old(tokens)@.len() ==> token_view(#[trigger] final(tokens)@[i]) == env_token(
                token_view(old(tokens)@[i]),
                sh.previous_status,
                pid,
                os_envs@,
                sh.envs@,
            ),
{
    let mut out: Tokens = Vec::new();
    let mut i: usize = 0;
    proof {
        reveal_strlit("'");
        reveal_strlit("`");
        assert("'"@ =~= seq!['\'']);
        assert("`"@ =~= seq!['`']);
    }
    while i < tokens.len()
        invariant
            i <= tokens@.len(),
            tokens@ == old(tokens)@,
            out@.len() == i,
            "'"@ == seq!['\''],
            "`"@ == seq!['`'],
            forall|j: int|
                0 <= j < i ==> token_view(#[trigger] out@[j]) == env_token(
                    token_view(old(tokens)@[j]),
                    sh.previous_status,
                    pid,
                    os_envs@,
                    sh.envs@,
                ),
        decreases tokens@.len() - i,
    {
        let mut t = clone_token(&tokens[i]);
        if !eq_str(&t.0, "'") && !eq_str(&t.0, "`") && env_in_token(t.1.as_str()) {
            t.1 = extend_env_blindly(sh, t.1.as_str(), os_envs, pid);
        }
        out.push(t);
        i = i + 1;
    }
    *tokens = out;
}

// ---------------------------------------------------------------- glob

pub open spec fn is_arith_op(c: char) -> bool {
    c == '+' || c == '-' || c == '*' || c == '/' || c == '^'
}

pub open spec fn is_arith_char(c: char) -> bool {
    c == ' ' || ('0' <= c && c <= '9') || c == '.' || c == '(' || c == ')' || is_arith_op(c)
}

/// `s` reads as an arithmetic expression: digits and operators only, with
/// at least one digit and one operator.
pub open spec fn arithmetic(s: Seq<char>) -> bool {
    &&& exists|i: int| 0 <= i < s.len() && '0' <= #[trigger] s[i] && s[i] <= '9'
    &&& exists|i: int| 0 <= i < s.len() && is_arith_op(#[trigger] s[i])
    &&& forall|i: int| 0 <= i < s.len() ==> is_arith_char(#[trigger] s[i])
}

pub fn is_arithmetic(line: &str) -> (r: bool)
    ensures
        r == arithmetic(line@),
{
    let s = chars_of(line);
    let mut digit_at: Option<usize> = None;
    let mut op_at: Option<usize> = None;
    let mut i: usize = 0;
    while i < s.len()
        invariant
            s@ == line@,
            i <= s@.len(),
            forall|j: int| 0 <= j < i ==> is_arith_char(#[trigger] s@[j]),
            match digit_at {
                Some(k) => k < s@.len() && '0' <= s@[k as int] && s@[k as int] <= '9',
                None => forall|j: int| 0 <= j < i ==> !('0' <= #[trigger] s@[j] && s@[j] <= '9'),
            },
            match op_at {
                Some(k) => k < s@.len() && is_arith_op(s@[k as int]),
                None => forall|j: int| 0 <= j < i ==> !is_arith_op(#[trigger] s@[j]),
            },
        decreases s@.len() - i,
    {
        let c = s[i];
        let is_op = c == '+' || c == '-' || c == '*' || c == '/' || c == '^';
        let is_digit = '0' <= c && c <= '9';
        if !(c == ' ' || is_digit || c == '.' || c == '(' || c == ')' || is_op) {
            return false;
        }
        if is_digit {
            digit_at = Some(i);
        }
        if is_op {
            op_at = Some(i);
        }
        i = i + 1;
    }
    match (digit_at, op_at) {
        (Some(a), Some(b)) => {
            assert('0' <= s@[a as int] && s@[a as int] <= '9');
            assert(is_arith_op(s@[b as int]));
            true
        },
        _ => false,
    }
}

/// Does `line` hold an unquoted word with a `*`, other than arithmetic?
pub fn needs_globbing(line: &str) -> (r: bool)
    ensures
        r == (!arithmetic(line@) && exists|k: int|
            0 <= k < lex(line@).len() && (#[trigger] lex(line@)[k]).0.len() == 0 && has_char(
                lex(line@)[k].1,
                '*',
            )),
{
    if is_arithmetic(line) {
        return false;
    }
    let tokens = cmd_to_tokens(line);
    let mut i: usize = 0;
    while i < tokens.len()
        invariant
            i <= tokens@.len(),
            tokens_view(tokens@) == lex(line@),
            !arithmetic(line@),
            forall|k: int|
                0 <= k < i ==> !((#[trigger] lex(line@)[k]).0.len() == 0 && has_char(
                    lex(line@)[k].1,
                    '*',
                )),
        decreases tokens@.len() - i,
    {
        assert(lex(line@)[i as int] == token_view(tokens@[i as int]));
        if is_unquoted(&tokens[i]) {
            let w = chars_of(tokens[i].1.as_str());
            if contains_char(&w, '*') {
                assert(lex(line@)[i as int].1 == w@);
                assert(lex(line@)[i as int].0.len() == 0);
                return true;
            }
        }
        i = i + 1;
    }
    false
}

/// An unquoted word with a `*` that is not arithmetic names files.
pub open spec fn is_glob_pattern(t: TokenView) -> bool {
    t.0.len() == 0 && has_char(t.1, '*') && !arithmetic(t.1)
}

pub fn is_glob_token(t: &Token) -> (r: bool)
    ensures
        r == is_glob_pattern(token_view(*t)),
{
    if !is_unquoted(t) {
        return false;
    }
    let w = chars_of(t.1.as_str());
    contains_char(&w, '*') && !is_arithmetic(t.1.as_str())
}

/// Start of the last path component of `p[..i]`.
pub open spec fn base_start(p: Seq<char>, i: int) -> int
    decreases i,
{
    if i <= 0 {
        0
    } else if p[i - 1] == '/' {
        i
    } else {
        base_start(p, i - 1)
    }
}

/// The last component of a path.
pub open spec fn basename(p: Seq<char>) -> Seq<char> {
    p.subrange(base_start(p, p.len() as int), p.len() as int)
}

pub open spec fn is_dot_name(b: Seq<char>) -> bool {
    b == seq!['.'] || b == seq!['.', '.']
}

pub open spec fn is_hidden(b: Seq<char>) -> bool {
    b.len() > 0 && b[0] == '.'
}

/// A match of `pat` is kept unless it is `.` or `..`, or it is hidden and
/// the pattern's own last component does not start with `.`.
pub open spec fn keep_match(pat: Seq<char>, p: Seq<char>) -> bool {
    !is_dot_name(basename(p)) && (!is_hidden(basename(p)) || is_hidden(basename(pat)))
}

/// The kept matches among `ms[i..]`, as tokens.
pub open spec fn glob_kept(pat: Seq<char>, ms: Seq<String>, i: int) -> Seq<TokenView>
    decreases ms.len() - i,
{
    if i < 0 || i >= ms.len() {
        Seq::empty()
    } else if keep_match(pat, ms[i]@) {
        seq![(sep_for(ms[i]@), ms[i]@)] + glob_kept(pat, ms, i + 1)
    } else {
        glob_kept(pat, ms, i + 1)
    }
}

/// Glob expansion of one token, given what the matcher found for it; a
/// pattern with no kept match stays as it was.
pub open spec fn glob_token(t: TokenView, ms: Seq<String>) -> Seq<TokenView> {
    if is_glob_pattern(t) && glob_kept(t.1, ms, 0).len() > 0 {
        glob_kept(t.1, ms, 0)
    } else {
        seq![t]
    }
}

pub open spec fn glob_from(ts: Seq<TokenView>, mss: Seq<Vec<String>>, i: int) -> Seq<TokenView>
    decreases ts.len() - i,
{
    if i < 0 || i >= ts.len() || i >= mss.len() {
        Seq::empty()
    } else {
        glob_token(ts[i], mss[i]@) + glob_from(ts, mss, i + 1)
    }
}

pub open spec fn glob_pass(ts: Seq<TokenView>, mss: Seq<Vec<String>>) -> Seq<TokenView> {
    glob_from(ts, mss, 0)
}

fn base_start_exec(p: &Vec<char>) -> (r: usize)
    ensures
        r == base_start(p@, p@.len() as int),
        r <= p@.len(),
{
    let mut i: usize = p.len();
    while i > 0 && p[i - 1] != '/'
        invariant
            i <= p@.len(),
            base_start(p@, i as int) == base_start(p@, p@.len() as int),
        decreases i,
    {
        i = i - 1;
    }
    i
}

fn is_hidden_base(p: &Vec<char>) -> (r: bool)
    ensures
        r == is_hidden(basename(p@)),
{
    let b = base_start_exec(p);
    b < p.len() && p[b] == '.'
}

fn keep_match_exec(pat: &Vec<char>, p: &Vec<char>) -> (r: bool)
    ensures
        r == keep_match(pat@, p@),
{
    let b = base_start_exec(p);
    let n = p.len();
    let ghost base = basename(p@);
    assert(base.len() == n - b);
    let dot = (n - b == 1 && p[b] == '.') || (n - b == 2 && p[b] == '.' && p[b + 1] == '.');
    assert(dot == is_dot_name(base)) by {
        if n - b == 1 && base == seq!['.'] {
            assert(base[0] == '.');
        }
        if n - b == 2 && base == seq!['.', '.'] {
            assert(base[0] == '.' && base[1] == '.');
        }
        if n - b == 1 && p[b as int] == '.' {
            assert(base =~= seq!['.']);
        }
        if n - b == 2 && p[b as int] == '.' && p[b + 1] == '.' {
            assert(base =~= seq!['.', '.']);
        }
    }
    !dot && (!is_hidden_base(p) || is_hidden_base(pat))
}

/// Appends the tokens for the kept matches of `pat` among `ms`.
fn push_glob_kept(out: &mut Tokens, pat: &Vec<char>, ms: &Vec<String>)
    ensures
        tokens_view(final(out)@) == tokens_view(old(out)@) + glob_kept(pat@, ms@, 0),
{
    let mut i: usize = 0;
    while i < ms.len()
        invariant
            i <= ms@.len(),
            tokens_view(out@) + glob_kept(pat@, ms@, i as int) == tokens_view(old(out)@)
                + glob_kept(pat@, ms@, 0),
        decreases ms@.len() - i,
    {
        let ghost before = tokens_view(out@);
        let p = chars_of(ms[i].as_str());
        if keep_match_exec(pat, &p) {
            let t = (sep_for_exec(&p), ms[i].clone());
            proof {
                lemma_tokens_view_push(out@, t);
            }
            out.push(t);
        }
        assert(before + glob_kept(pat@, ms@, i as int) =~= tokens_view(out@) + glob_kept(
            pat@,
            ms@,
            i + 1,
        ));
        i = i + 1;
    }
    assert(tokens_view(out@) =~= tokens_view(old(out)@) + glob_kept(pat@, ms@, 0));
}

/// Replaces each glob pattern by the matches that `matches` gives for it
/// (`matches[i]` for `tokens[i]`, in the matcher's order), skipping `.`,
/// `..` and hidden names; a match with a space becomes a double-quoted
/// token. A pattern with nothing kept stays as it was.
pub fn expand_glob(tokens: &mut Tokens, matches: &Vec<Vec<String>>)
    requires
        matches@.len() == old(tokens)@.len(),
    ensures
        tokens_view(final(tokens)@) == glob_pass(tokens_view(old(tokens)@), matches@),
{
    let ghost ts = tokens_view(tokens@);
    let mut out: Tokens = Vec::new();
    let mut i: usize = 0;
    assert(tokens_view(out@) =~= Seq::<TokenView>::empty());
    while i < tokens.len()
        invariant
            i <= tokens@.len(),
            tokens@ == old(tokens)@,
            matches@.len() == tokens@.len(),
            ts == tokens_view(tokens@),
            tokens_view(out@) + glob_from(ts, matches@, i as int) == glob_pass(ts, matches@),
        decreases tokens@.len() - i,
    {
        let ghost before = tokens_view(out@);
        let t = &tokens[i];
        let mut done = false;
        if is_glob_token(t) {
            let pat = chars_of(t.1.as_str());
            let mut kept: Tokens = Vec::new();
            push_glob_kept(&mut kept, &pat, &matches[i]);
            assert(tokens_view(kept@) =~= glob_kept(pat@, matches@[i as int]@, 0));
            if kept.len() > 0 {
                proof {
                    lemma_tokens_view_add(out@, kept@);
                }
                out.append(&mut kept);
                done = true;
            }
        }
        if !done {
            proof {
                lemma_tokens_view_push(out@, *t);
            }
            out.push(clone_token(t));
        }
        assert(before + glob_from(ts, matches@, i as int) =~= tokens_view(out@) + glob_from(
            ts,
            matches@,
            i + 1,
        ));
        i = i + 1;
    }
    assert(tokens_view(out@) =~= glob_pass(ts, matches@));
    *tokens = out;
}

// ---------------------------------------------------------------- command substitution

/// `s[i..]` starts with `$(`, at least one character, and a `)` with no
/// `)` before it.
pub open spec fn dollar_group_at(s: Seq<char>, i: int) -> bool {
    &&& 0 <= i
    &&& i + 2 < s.len()
    &&& s[i] == '$'
    &&& s[i + 1] == '('
    &&& s[i + 2] != ')'
    &&& find_from(s, i + 2, ')') < s.len()
}

pub fn should_do_dollar_command_extension(line: &str) -> (r: bool)
    ensures
        r == exists|i: int| dollar_group_at(line@, i),
{
    let s = chars_of(line);
    let n = s.len();
    if n < 2 {
        return false;
    }
    let mut i: usize = 0;
    while i < n - 2
        invariant
            n >= 2,
            s@ == line@,
            n == s@.len(),
            forall|j: int| 0 <= j < i ==> !dollar_group_at(s@, j),
        decreases n - i,
    {
        if s[i] == '$' && s[i + 1] == '(' && s[i + 2] != ')' {
            if find_from_exec(&s, i + 2, ')') < n {
                assert(dollar_group_at(line@, i as int));
                return true;
            }
        }
        i = i + 1;
    }
    false
}

/// Index of the first parenthesis at or after `i`, or the length of `s`.
pub open spec fn paren_from(s: Seq<char>, i: int) -> int
    decreases s.len() - i,
{
    if i < 0 || i >= s.len() {
        s.len() as int
    } else if s[i] == '(' || s[i] == ')' {
        i
    } else {
        paren_from(s, i + 1)
    }
}

proof fn lemma_paren_from_bounds(s: Seq<char>, i: int)
    requires
        0 <= i <= s.len(),
    ensures
        i <= paren_from(s, i) <= s.len(),
    decreases s.len() - i,
{
    if i < s.len() && s[i] != '(' && s[i] != ')' {
        lemma_paren_from_bounds(s, i + 1);
    }
}

/// An innermost group `$(cmd)` at `i`: `cmd` is not empty and holds no
/// parenthesis.
pub open spec fn inner_group_at(s: Seq<char>, i: int) -> bool {
    &&& 0 <= i
    &&& i + 2 < s.len()
    &&& s[i] == '$'
    &&& s[i + 1] == '('
    &&& i + 2 < paren_from(s, i + 2) < s.len()
    &&& s[paren_from(s, i + 2)] == ')'
}

pub open spec fn first_group_from(s: Seq<char>, i: int) -> Option<int>
    decreases s.len() - i,
{
    if i < 0 || i >= s.len() {
        None
    } else if inner_group_at(s, i) {
        Some(i)
    } else {
        first_group_from(s, i + 1)
    }
}

/// Start of the first innermost `$(...)` group of `s`.
pub open spec fn first_group(s: Seq<char>) -> Option<int> {
    first_group_from(s, 0)
}

proof fn lemma_first_group_from(s: Seq<char>, i: int)
    requires
        0 <= i,
    ensures
        first_group_from(s, i) matches Some(g) ==> i <= g && inner_group_at(s, g),
    decreases s.len() - i,
{
    if i < s.len() && !inner_group_at(s, i) {
        lemma_first_group_from(s, i + 1);
    }
}

/// The command of the group that starts at `g`.
pub open spec fn group_cmd(s: Seq<char>, g: int) -> Seq<char> {
    s.subrange(g + 2, paren_from(s, g + 2))
}

/// End of `s[..j]` once trailing newlines (`only_newlines`) or trailing
/// whitespace are removed.
pub open spec fn strip_end(s: Seq<char>, j: int, only_newlines: bool) -> int
    decreases j,
{
    if j <= 0 || j > s.len() {
        0
    } else if (if only_newlines {
        s[j - 1] == '\n'
    } else {
        is_space(s[j - 1])
    }) {
        strip_end(s, j - 1, only_newlines)
    } else {
        j
    }
}

/// `s` without its trailing newlines.
pub open spec fn trim_newlines(s: Seq<char>) -> Seq<char> {
    s.subrange(0, strip_end(s, s.len() as int, true))
}

/// `s` without its trailing whitespace.
pub open spec fn trim_trailing_space(s: Seq<char>) -> Seq<char> {
    s.subrange(0, strip_end(s, s.len() as int, false))
}

proof fn lemma_strip_end_bounds(s: Seq<char>, j: int, only_newlines: bool)
    requires
        0 <= j <= s.len(),
    ensures
        0 <= strip_end(s, j, only_newlines) <= j,
    decreases j,
{
    if j > 0 {
        lemma_strip_end_bounds(s, j - 1, only_newlines);
    }
}

fn strippable(c: char, only_newlines: bool) -> (r: bool)
    ensures
        r == if only_newlines {
            c == '\n'
        } else {
            is_space(c)
        },
{
    if only_newlines {
        c == '\n'
    } else {
        crate::strs::is_space_exec(c)
    }
}

fn strip_output(output: &str, only_newlines: bool) -> (r: String)
    ensures
        r@ == output@.subrange(0, strip_end(output@, output@.len() as int, only_newlines)),
{
    let s = chars_of(output);
    let n = s.len();
    let mut b: usize = n;
    while b > 0 && strippable(s[b - 1], only_newlines)
        invariant
            b <= n,
            n == s@.len(),
            strip_end(s@, b as int, only_newlines) == strip_end(s@, n as int, only_newlines),
        decreases b,
    {
        b = b - 1;
    }
    string_of_range(&s, 0, b)
}

/// `output` without its trailing newlines.
pub fn trim_newlines_output(output: &str) -> (r: String)
    ensures
        r@ == trim_newlines(output@),
{
    strip_output(output, true)
}

/// `output` without its trailing whitespace.
pub fn trim_trailing_space_output(output: &str) -> (r: String)
    ensures
        r@ == trim_trailing_space(output@),
{
    strip_output(output, false)
}

fn paren_from_exec(s: &Vec<char>, i: usize) -> (r: usize)
    requires
        i <= s@.len(),
    ensures
        r == paren_from(s@, i as int),
{
    let mut j: usize = i;
    while j < s.len() && s[j] != '(' && s[j] != ')'
        invariant
            i <= j <= s@.len(),
            paren_from(s@, j as int) == paren_from(s@, i as int),
        decreases s@.len() - j,
    {
        j = j + 1;
    }
    j
}

fn first_group_exec(s: &Vec<char>) -> (r: Option<usize>)
    ensures
        match r {
            Some(g) => first_group(s@) == Some(g as int) && inner_group_at(s@, g as int),
            None => first_group(s@) is None,
        },
{
    let n = s.len();
    let mut i: usize = 0;
    while i < n
        invariant
            i <= n,
            n == s@.len(),
            first_group_from(s@, i as int) == first_group(s@),
        decreases n - i,
    {
        if n - i > 2 && s[i] == '$' && s[i + 1] == '(' {
            let e = paren_from_exec(s, i + 2);
            if i + 2 < e && e < n && s[e] == ')' {
                return Some(i);
            }
        }
        i = i + 1;
    }
    None
}

/// The word after the first innermost `$(...)` group has been replaced by
/// the `output` of its command, without its trailing whitespace.
pub open spec fn splice_output(s: Seq<char>, output: Seq<char>) -> Seq<char> {
    match first_group(s) {
        Some(g) => s.subrange(0, g) + trim_trailing_space(output) + s.subrange(
            paren_from(s, g + 2) + 1,
            s.len() as int,
        ),
        None => s,
    }
}

/// The command of the first innermost `$(...)` group of `word`.
pub fn next_dollar_command(word: &str) -> (r: Option<String>)
    ensures
        match first_group(word@) {
            Some(g) => r matches Some(c) && c@ == group_cmd(word@, g),
            None => r is None,
        },
{
    let s = chars_of(word);
    match first_group_exec(&s) {
        Some(g) => {
            let e = paren_from_exec(&s, g + 2);
            Some(string_of_range(&s, g + 2, e))
        },
        None => None,
    }
}

/// Replaces the first innermost `$(...)` group of `word` by the `output` of
/// its command, without its trailing whitespace.
pub fn apply_dollar_output(word: &str, output: &str) -> (r: String)
    ensures
        r@ == splice_output(word@, output@),
{
    let s = chars_of(word);
    let n = s.len();
    match first_group_exec(&s) {
        Some(g) => {
            let e = paren_from_exec(&s, g + 2);
            let mut out = chars_of(string_of_range(&s, 0, g).as_str());
            let t = chars_of(trim_trailing_space_output(output).as_str());
            append_chars(&mut out, &t);
            let tail = chars_of(string_of_range(&s, e + 1, n).as_str());
            append_chars(&mut out, &tail);
            string_of(&out)
        },
        None => owned(word),
    }
}

pub open spec fn is_backtick(t: TokenView) -> bool {
    t.0 == seq!['`']
}

/// An unquoted or double-quoted token with a `$(...)` group.
pub open spec fn wants_dollar(t: TokenView) -> bool {
    (t.0.len() == 0 || t.0 == seq!['"']) && first_group(t.1) is Some
}

pub open spec fn first_backtick_from(ts: Seq<TokenView>, i: int) -> Option<int>
    decreases ts.len() - i,
{
    if i < 0 || i >= ts.len() {
        None
    } else if is_backtick(ts[i]) {
        Some(i)
    } else {
        first_backtick_from(ts, i + 1)
    }
}

pub open spec fn first_dollar_from(ts: Seq<TokenView>, i: int) -> Option<int>
    decreases ts.len() - i,
{
    if i < 0 || i >= ts.len() {
        None
    } else if wants_dollar(ts[i]) {
        Some(i)
    } else {
        first_dollar_from(ts, i + 1)
    }
}

/// The token that command substitution works on next: the first backtick
/// token, else the first token with a `$(...)` group.
pub open spec fn substitution_target(ts: Seq<TokenView>) -> Option<int> {
    match first_backtick_from(ts, 0) {
        Some(k) => Some(k),
        None => first_dollar_from(ts, 0),
    }
}

/// What a token becomes once its next command has printed `output`.
pub open spec fn substituted(t: TokenView, output: Seq<char>) -> TokenView {
    if is_backtick(t) {
        (Seq::empty(), trim_newlines(output))
    } else {
        (t.0, splice_output(t.1, output))
    }
}

proof fn lemma_first_from(ts: Seq<TokenView>, i: int, backtick: bool)
    requires
        0 <= i,
    ensures
        backtick ==> (first_backtick_from(ts, i) matches Some(k) ==> i <= k < ts.len()
            && is_backtick(ts[k])),
        !backtick ==> (first_dollar_from(ts, i) matches Some(k) ==> i <= k < ts.len()
            && wants_dollar(ts[k])),
    decreases ts.len() - i,
{
    if i < ts.len() {
        lemma_first_from(ts, i + 1, backtick);
    }
}

fn is_backtick_exec(t: &Token) -> (r: bool)
    ensures
        r == is_backtick(token_view(*t)),
{
    proof {
        reveal_strlit("`");
        assert("`"@ =~= seq!['`']);
    }
    eq_str(&t.0, "`")
}

fn wants_dollar_exec(t: &Token) -> (r: bool)
    ensures
        r == wants_dollar(token_view(*t)),
{
    proof {
        reveal_strlit("\"");
        assert("\""@ =~= seq!['"']);
    }
    if !is_unquoted(t) && !eq_str(&t.0, "\"") {
        return false;
    }
    let s = chars_of(t.1.as_str());
    first_group_exec(&s).is_some()
}

fn substitution_target_exec(tokens: &Tokens) -> (r: Option<usize>)
    ensures
        match r {
            Some(k) => substitution_target(tokens_view(tokens@)) == Some(k as int) && k
                < tokens@.len(),
            None => substitution_target(tokens_view(tokens@)) is None,
        },
{
    let ghost ts = tokens_view(tokens@);
    proof {
        lemma_first_from(ts, 0, true);
        lemma_first_from(ts, 0, false);
    }
    let mut i: usize = 0;
    while i < tokens.len()
        invariant
            i <= tokens@.len(),
            ts == tokens_view(tokens@),
            first_backtick_from(ts, i as int) == first_backtick_from(ts, 0),
        decreases tokens@.len() - i,
    {
        if is_backtick_exec(&tokens[i]) {
            return Some(i);
        }
        i = i + 1;
    }
    i = 0;
    while i < tokens.len()
        invariant
            i <= tokens@.len(),
            ts == tokens_view(tokens@),
            first_backtick_from(ts, 0) is None,
            first_dollar_from(ts, i as int) == first_dollar_from(ts, 0),
        decreases tokens@.len() - i,
    {
        if wants_dollar_exec(&tokens[i]) {
            return Some(i);
        }
        i = i + 1;
    }
    None
}

/// The command that command substitution runs next, if any: the text of
/// the first backtick token, else the first `$(...)` group of the first
/// unquoted or double-quoted token that has one.
pub fn next_substitution(tokens: &Tokens) -> (r: Option<String>)
    ensures
        match substitution_target(tokens_view(tokens@)) {
            Some(k) => r matches Some(c) && c@ == if is_backtick(tokens_view(tokens@)[k]) {
                tokens@[k].1@
            } else {
                group_cmd(tokens@[k].1@, first_group(tokens@[k].1@)->0)
            },
            None => r is None,
        },
{
    proof {
        lemma_first_from(tokens_view(tokens@), 0, true);
        lemma_first_from(tokens_view(tokens@), 0, false);
    }
    match substitution_target_exec(tokens) {
        Some(k) => {
            if is_backtick_exec(&tokens[k]) {
                Some(tokens[k].1.clone())
            } else {
                next_dollar_command(tokens[k].1.as_str())
            }
        },
        None => None,
    }
}

/// Puts the `output` of the command that `next_substitution` named in
/// place of that command.
pub fn apply_substitution(tokens: &mut Tokens, output: &str)
    ensures
        match substitution_target(tokens_view(old(tokens)@)) {
            Some(k) => tokens_view(final(tokens)@) == tokens_view(old(tokens)@).update(
                k,
                substituted(tokens_view(old(tokens)@)[k], output@),
            ),
            None => final(tokens)@ == old(tokens)@,
        },
{
    match substitution_target_exec(tokens) {
        Some(k) => {
            let t = if is_backtick_exec(&tokens[k]) {
                (String::new(), trim_newlines_output(output))
            } else {
                (tokens[k].0.clone(), apply_dollar_output(tokens[k].1.as_str(), output))
            };
            let ghost before = tokens@;
            tokens.set(k, t);
            assert(tokens_view(tokens@) =~= tokens_view(before).update(
                k as int,
                substituted(tokens_view(before)[k as int], output@),
            ));
        },
        None => {},
    }
}

// ---------------------------------------------------------------- all passes

pub open spec fn home_pass(ts: Seq<TokenView>, home: Seq<char>) -> Seq<TokenView> {
    ts.map_values(|t: TokenView| home_token(t, home))
}

pub open spec fn env_pass(
    ts: Seq<TokenView>,
    status: i32,
    pid: u32,
    os: Seq<(String, String)>,
    vars: Seq<(String, String)>,
) -> Seq<TokenView> {
    ts.map_values(|t: TokenView| env_token(t, status, pid, os, vars))
}

pub open spec fn starts_with(s: Seq<char>, p: Seq<char>) -> bool {
    p.len() <= s.len() && s.subrange(0, p.len() as int) == p
}

/// `export PROMPT=...` is left alone: the prompt text is read elsewhere.
pub open spec fn prompt_guard(ts: Seq<TokenView>) -> bool {
    ts.len() >= 2 && ts[0].1 == seq!['e', 'x', 'p', 'o', 'r', 't'] && starts_with(
        ts[1].1,
        seq!['P', 'R', 'O', 'M', 'P', 'T', '='],
    )
}

fn prompt_guard_exec(tokens: &Tokens) -> (r: bool)
    ensures
        r == prompt_guard(tokens_view(tokens@)),
{
    if tokens.len() < 2 {
        return false;
    }
    assert(tokens_view(tokens@)[0].1 == tokens@[0].1@);
    assert(tokens_view(tokens@)[1].1 == tokens@[1].1@);
    proof {
        reveal_strlit("export");
        reveal_strlit("PROMPT=");
        assert("export"@ =~= seq!['e', 'x', 'p', 'o', 'r', 't']);
    }
    if !eq_str(&tokens[0].1, "export") {
        return false;
    }
    let w = chars_of(tokens[1].1.as_str());
    let p = chars_of("PROMPT=");
    assert(p@ =~= seq!['P', 'R', 'O', 'M', 'P', 'T', '=']);
    if w.len() < p.len() {
        return false;
    }
    let mut i: usize = 0;
    while i < p.len()
        invariant
            i <= p@.len() <= w@.len(),
            w@ == tokens_view(tokens@)[1].1,
            p@ == seq!['P', 'R', 'O', 'M', 'P', 'T', '='],
            forall|j: int| 0 <= j < i ==> w@[j] == p@[j],
        decreases p@.len() - i,
    {
        if w[i] != p[i] {
            assert(w@.subrange(0, p@.len() as int)[i as int] != p@[i as int]);
            return false;
        }
        i = i + 1;
    }
    assert(w@.subrange(0, p@.len() as int) =~= p@);
    true
}

/// Runs, in order, alias, tilde, brace and variable expansion on `tokens`
/// and returns `true`; glob expansion and command substitution come next.
/// `export PROMPT=...` is left unchanged, and `false` is returned.
pub fn do_expansion(
    sh: &Shell,
    tokens: &mut Tokens,
    home: &str,
    os_envs: &Vec<(String, String)>,
    pid: u32,
) -> (r: bool)
    ensures
        prompt_guard(tokens_view(old(tokens)@)) ==> !r && final(tokens)@ == old(tokens)@,
        !prompt_guard(tokens_view(old(tokens)@)) ==> r && tokens_view(final(tokens)@) == env_pass(
            brace_pass(home_pass(alias_pass(sh.alias@, tokens_view(old(tokens)@)), home@)),
            sh.previous_status,
            pid,
            os_envs@,
            sh.envs@,
        ),
        !prompt_guard(tokens_view(old(tokens)@)) ==> single_quoted(tokens_view(final(tokens)@))
            == single_quoted(alias_pass(sh.alias@, tokens_view(old(tokens)@))),
{
    if prompt_guard_exec(tokens) {
        return false;
    }
    expand_alias(sh, tokens);
    let ghost t1 = tokens_view(tokens@);
    expand_home(tokens, home);
    assert(tokens_view(tokens@) =~= home_pass(t1, home@));
    expand_brace(tokens);
    let ghost t3 = tokens_view(tokens@);
    expand_env(sh, tokens, os_envs, pid);
    assert(tokens_view(tokens@) =~= env_pass(t3, sh.previous_status, pid, os_envs@, sh.envs@));
    proof {
        let t2 = home_pass(t1, home@);
        lemma_single_quoted_untouched(
            t1,
            home@,
            sh.previous_status,
            pid,
            os_envs@,
            sh.envs@,
            Seq::empty(),
            Seq::empty(),
        );
        lemma_single_quoted_untouched(
            t2,
            home@,
            sh.previous_status,
            pid,
            os_envs@,
            sh.envs@,
            Seq::empty(),
            Seq::empty(),
        );
        lemma_single_quoted_untouched(
            t3,
            home@,
            sh.previous_status,
            pid,
            os_envs@,
            sh.envs@,
            Seq::empty(),
            Seq::empty(),
        );
    }
    true
}

// ---------------------------------------------------------------- laws

/// The words of the single-quoted tokens, in order.
pub open spec fn single_quoted(ts: Seq<TokenView>) -> Seq<Seq<char>>
    decreases ts.len(),
{
    if ts.len() == 0 {
        Seq::empty()
    } else {
        (if ts[0].0 == seq!['\''] {
            seq![ts[0].1]
        } else {
            Seq::<Seq<char>>::empty()
        }) + single_quoted(ts.drop_first())
    }
}

proof fn lemma_single_quoted_add(a: Seq<TokenView>, b: Seq<TokenView>)
    ensures
        single_quoted(a + b) == single_quoted(a) + single_quoted(b),
    decreases a.len(),
{
    if a.len() == 0 {
        assert(a + b =~= b);
    } else {
        assert((a + b).drop_first() =~= a.drop_first() + b);
        lemma_single_quoted_add(a.drop_first(), b);
        assert(single_quoted(a + b) =~= single_quoted(a) + single_quoted(b));
    }
}

proof fn lemma_single_quoted_one(t: TokenView)
    ensures
        single_quoted(seq![t]) == if t.0 == seq!['\''] {
            seq![t.1]
        } else {
            Seq::<Seq<char>>::empty()
        },
{
    assert(seq![t].drop_first() =~= Seq::<TokenView>::empty());
    assert(single_quoted(Seq::<TokenView>::empty()) =~= Seq::<Seq<char>>::empty());
    assert(single_quoted(seq![t]) =~= if t.0 == seq!['\''] {
        seq![t.1]
    } else {
        Seq::<Seq<char>>::empty()
    });
}

/// `single_quoted` of `ts[i..]`.
proof fn lemma_single_quoted_suffix(ts: Seq<TokenView>, i: int)
    requires
        0 <= i < ts.len(),
    ensures
        single_quoted(ts.subrange(i, ts.len() as int)) == single_quoted(seq![ts[i]])
            + single_quoted(ts.subrange(i + 1, ts.len() as int)),
{
    assert(ts.subrange(i, ts.len() as int) =~= seq![ts[i]] + ts.subrange(i + 1, ts.len() as int));
    lemma_single_quoted_add(seq![ts[i]], ts.subrange(i + 1, ts.len() as int));
}

proof fn lemma_sep_for_not_single(w: Seq<char>)
    ensures
        sep_for(w) != seq!['\''],
{
    if has_space(w) {
        assert(seq!['"'][0] != seq!['\''][0]);
    } else {
        assert(Seq::<char>::empty().len() != seq!['\''].len());
    }
}

proof fn lemma_brace_alts_unquoted(s: Seq<char>, o: int, c: int, a: int, i: int)
    ensures
        single_quoted(brace_alts(s, o, c, a, i)) == Seq::<Seq<char>>::empty(),
    decreases c - i,
{
    let pc = brace_piece(s, o, c, a, if i >= c { c } else { i });
    if a < (if i >= c { c } else { i }) {
        let w = s.subrange(0, o) + s.subrange(a, if i >= c { c } else { i }) + s.subrange(
            c + 1,
            s.len() as int,
        );
        lemma_sep_for_not_single(w);
        lemma_single_quoted_one((sep_for(w), w));
    } else {
        assert(single_quoted(pc) =~= Seq::<Seq<char>>::empty());
    }
    if i < c {
        if s[i] == ',' {
            lemma_brace_alts_unquoted(s, o, c, i + 1, i + 1);
            lemma_single_quoted_add(pc, brace_alts(s, o, c, i + 1, i + 1));
            assert(single_quoted(brace_alts(s, o, c, a, i)) =~= Seq::<Seq<char>>::empty());
        } else {
            lemma_brace_alts_unquoted(s, o, c, a, i + 1);
        }
    }
}

proof fn lemma_glob_kept_unquoted(pat: Seq<char>, ms: Seq<String>, i: int)
    ensures
        single_quoted(glob_kept(pat, ms, i)) == Seq::<Seq<char>>::empty(),
    decreases ms.len() - i,
{
    if 0 <= i < ms.len() {
        lemma_glob_kept_unquoted(pat, ms, i + 1);
        if keep_match(pat, ms[i]@) {
            let t = (sep_for(ms[i]@), ms[i]@);
            lemma_sep_for_not_single(ms[i]@);
            lemma_single_quoted_one(t);
            lemma_single_quoted_add(seq![t], glob_kept(pat, ms, i + 1));
        }
    }
}

proof fn lemma_brace_from_sq(ts: Seq<TokenView>, i: int)
    requires
        0 <= i <= ts.len(),
    ensures
        single_quoted(brace_from(ts, i)) == single_quoted(ts.subrange(i, ts.len() as int)),
    decreases ts.len() - i,
{
    if i == ts.len() {
        assert(ts.subrange(i, ts.len() as int) =~= Seq::<TokenView>::empty());
    } else {
        lemma_brace_from_sq(ts, i + 1);
        lemma_single_quoted_suffix(ts, i);
        lemma_single_quoted_add(brace_token(ts[i]), brace_from(ts, i + 1));
        let t = ts[i];
        if t.0.len() == 0 && brace_group(t.1) {
            let o = brace_open(t.1);
            lemma_brace_alts_unquoted(t.1, o, brace_close(t.1), o + 1, o + 1);
            lemma_single_quoted_one(t);
            assert(t.0 != seq!['\'']);
        }
    }
}

proof fn lemma_glob_from_sq(ts: Seq<TokenView>, mss: Seq<Vec<String>>, i: int)
    requires
        0 <= i <= ts.len(),
        mss.len() >= ts.len(),
    ensures
        single_quoted(glob_from(ts, mss, i)) == single_quoted(ts.subrange(i, ts.len() as int)),
    decreases ts.len() - i,
{
    if i == ts.len() {
        assert(ts.subrange(i, ts.len() as int) =~= Seq::<TokenView>::empty());
    } else {
        lemma_glob_from_sq(ts, mss, i + 1);
        lemma_single_quoted_suffix(ts, i);
        lemma_single_quoted_add(glob_token(ts[i], mss[i]@), glob_from(ts, mss, i + 1));
        let t = ts[i];
        if is_glob_pattern(t) && glob_kept(t.1, mss[i]@, 0).len() > 0 {
            lemma_glob_kept_unquoted(t.1, mss[i]@, 0);
            lemma_single_quoted_one(t);
            assert(t.0 != seq!['\'']);
        }
    }
}

proof fn lemma_map_sq(ts: Seq<TokenView>, f: spec_fn(TokenView) -> TokenView)
    requires
        forall|t: TokenView| #[trigger] f(t).0 == t.0,
        forall|t: TokenView| t.0 == seq!['\''] ==> #[trigger] f(t) == t,
    ensures
        single_quoted(ts.map_values(f)) == single_quoted(ts),
    decreases ts.len(),
{
    if ts.len() > 0 {
        assert(ts.map_values(f).drop_first() =~= ts.drop_first().map_values(f));
        lemma_map_sq(ts.drop_first(), f);
        assert(f(ts[0]).0 == ts[0].0);
    }
}

proof fn lemma_update_sq(ts: Seq<TokenView>, k: int, t: TokenView)
    requires
        0 <= k < ts.len(),
        ts[k].0 != seq!['\''],
        t.0 != seq!['\''],
    ensures
        single_quoted(ts.update(k, t)) == single_quoted(ts),
    decreases ts.len(),
{
    if k == 0 {
        assert(ts.update(k, t).drop_first() =~= ts.drop_first());
    } else {
        assert(ts.update(k, t).drop_first() =~= ts.drop_first().update(k - 1, t));
        lemma_update_sq(ts.drop_first(), k - 1, t);
    }
}

/// Tilde, brace, variable and glob expansion and each step of command
/// substitution leave every single-quoted token as it was: the words of the
/// single-quoted tokens, in order, are the same before and after.
pub proof fn lemma_single_quoted_untouched(
    ts: Seq<TokenView>,
    home: Seq<char>,
    status: i32,
    pid: u32,
    os: Seq<(String, String)>,
    vars: Seq<(String, String)>,
    mss: Seq<Vec<String>>,
    output: Seq<char>,
)
    ensures
        single_quoted(home_pass(ts, home)) == single_quoted(ts),
        single_quoted(brace_pass(ts)) == single_quoted(ts),
        single_quoted(env_pass(ts, status, pid, os, vars)) == single_quoted(ts),
        mss.len() == ts.len() ==> single_quoted(glob_pass(ts, mss)) == single_quoted(ts),
        substitution_target(ts) matches Some(k) ==> single_quoted(
            ts.update(k, substituted(ts[k], output)),
        ) == single_quoted(ts),
{
    let q = seq!['\''];
    lemma_map_sq(ts, |t: TokenView| home_token(t, home));
    assert forall|t: TokenView| #[trigger] env_token(t, status, pid, os, vars).0 == t.0 by {}
    lemma_map_sq(ts, |t: TokenView| env_token(t, status, pid, os, vars));
    lemma_brace_from_sq(ts, 0);
    if mss.len() == ts.len() {
        lemma_glob_from_sq(ts, mss, 0);
    }
    assert(ts.subrange(0, ts.len() as int) =~= ts);
    lemma_first_from(ts, 0, true);
    lemma_first_from(ts, 0, false);
    if substitution_target(ts) is Some {
        let k = substitution_target(ts)->0;
        let t = ts[k];
        if is_backtick(t) {
            assert(t.0[0] != q[0]);
            assert(Seq::<char>::empty().len() != q.len());
        } else {
            assert(t.0.len() == 0 || t.0 == seq!['"']);
            if t.0.len() != 0 {
                assert(t.0[0] != q[0]);
            }
        }
        lemma_update_sq(ts, k, substituted(t, output));
    }
}

/// Where glob expansion came from the matcher's answers or from the input.
pub open spec fn glob_origin(ts: Seq<TokenView>, mss: Seq<Vec<String>>, w: TokenView) -> bool {
    exists|i: int|
        0 <= i < ts.len() && (w == #[trigger] ts[i] || (is_glob_pattern(ts[i]) && exists|j: int|
            0 <= j < mss[i]@.len() && w.1 == #[trigger] mss[i]@[j]@))
}

proof fn lemma_glob_kept_origin(pat: Seq<char>, ms: Seq<String>, i: int)
    requires
        0 <= i,
    ensures
        forall|k: int|
            0 <= k < glob_kept(pat, ms, i).len() ==> exists|j: int|
                i <= j < ms.len() && (#[trigger] glob_kept(pat, ms, i)[k]).1 == ms[j]@,
    decreases ms.len() - i,
{
    if i < ms.len() {
        lemma_glob_kept_origin(pat, ms, i + 1);
        let rest = glob_kept(pat, ms, i + 1);
        if keep_match(pat, ms[i]@) {
            let t = (sep_for(ms[i]@), ms[i]@);
            assert forall|k: int| 0 <= k < glob_kept(pat, ms, i).len() implies exists|j: int|
                i <= j < ms.len() && (#[trigger] glob_kept(pat, ms, i)[k]).1 == ms[j]@ by {
                if k == 0 {
                    assert(glob_kept(pat, ms, i)[k] == t);
                } else {
                    assert(glob_kept(pat, ms, i)[k] == rest[k - 1]);
                }
            }
        }
    }
}

proof fn lemma_glob_from_origin(ts: Seq<TokenView>, mss: Seq<Vec<String>>, i: int)
    requires
        0 <= i,
    ensures
        forall|k: int|
            0 <= k < glob_from(ts, mss, i).len() ==> glob_origin(
                ts,
                mss,
                #[trigger] glob_from(ts, mss, i)[k],
            ),
    decreases ts.len() - i,
{
    if i < ts.len() && i < mss.len() {
        lemma_glob_from_origin(ts, mss, i + 1);
        let head = glob_token(ts[i], mss[i]@);
        let rest = glob_from(ts, mss, i + 1);
        lemma_glob_kept_origin(ts[i].1, mss[i]@, 0);
        assert forall|k: int| 0 <= k < glob_from(ts, mss, i).len() implies glob_origin(
            ts,
            mss,
            #[trigger] glob_from(ts, mss, i)[k],
        ) by {
            if k < head.len() {
                let w = glob_from(ts, mss, i)[k];
                assert(w == head[k]);
                if is_glob_pattern(ts[i]) && glob_kept(ts[i].1, mss[i]@, 0).len() > 0 {
                    let j = choose|j: int|
                        0 <= j < mss[i]@.len() && (#[trigger] glob_kept(ts[i].1, mss[i]@, 0)[k]).1
                            == mss[i]@[j]@;
                    assert(w.1 == mss[i]@[j]@);
                } else {
                    assert(w == ts[i]);
                }
            } else {
                assert(glob_from(ts, mss, i)[k] == rest[k - head.len()]);
            }
        }
    }
}

/// Every token that glob expansion emits is either a path that the matcher
/// reported for a pattern token, or a token of the input kept verbatim
/// (which is what happens to a pattern that nothing matched).
pub proof fn lemma_glob_emits_matches_or_input(ts: Seq<TokenView>, mss: Seq<Vec<String>>)
    ensures
        forall|k: int|
            0 <= k < glob_pass(ts, mss).len() ==> glob_origin(
                ts,
                mss,
                #[trigger] glob_pass(ts, mss)[k],
            ),
{
    lemma_glob_from_origin(ts, mss, 0);
}

/// Per token, glob expansion either keeps the token verbatim or replaces it
/// by a non-empty list of the matcher's answers for it; only glob patterns
/// are replaced.
pub proof fn lemma_glob_token_kept_or_matches(t: TokenView, ms: Seq<String>)
    ensures
        glob_token(t, ms) == seq![t] || {
            &&& is_glob_pattern(t)
            &&& glob_token(t, ms).len() > 0
            &&& forall|k: int|
                0 <= k < glob_token(t, ms).len() ==> exists|j: int|
                    0 <= j < ms.len() && (#[trigger] glob_token(t, ms)[k]).1 == ms[j]@
        },
{
    lemma_glob_kept_origin(t.1, ms, 0);
}

} // verus!
