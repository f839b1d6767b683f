//! The tokenizer: splits one line into `(separator, word)` pairs.
use vstd::prelude::*;

use crate::strs::{chars_of, is_space, is_space_exec, owned, string_of_range};
use crate::types::{Token, TokenView, Tokens, tokens_view};

verus! {

broadcast use vstd::std_specs::vec::group_vec_axioms;

pub open spec fn is_quote(c: char) -> bool {
    c == '\'' || c == '"' || c == '`'
}

pub open spec fn is_op_char(c: char) -> bool {
    c == '|' || c == '&' || c == ';' || c == '<' || c == '>'
}

/// Characters that end an unquoted word.
pub open spec fn is_word_stop(c: char) -> bool {
    is_space(c) || is_quote(c) || c == '\\' || is_op_char(c)
}

/// Length of the operator (`2>&1`, `2>`, `&&`, `||`, `<<`, `>>`, `|`, `&`,
/// `;`, `<`, `>`) that starts at `s[i]`, or 0 when none does.
pub open spec fn op_len(s: Seq<char>, i: int) -> int {
    if 0 <= i < s.len() {
        let c = s[i];
        if c == '2' && i + 3 < s.len() && s[i + 1] == '>' && s[i + 2] == '&' && s[i + 3] == '1' {
            4
        } else if c == '2' && i + 1 < s.len() && s[i + 1] == '>' {
            2
        } else if (c == '|' || c == '&' || c == '<' || c == '>') && i + 1 < s.len() && s[i + 1]
            == c {
            2
        } else if is_op_char(c) {
            1
        } else {
            0
        }
    } else {
        0
    }
}

/// Index of the quote `q` that closes a run starting at `i`, or the end of
/// `s` when the run is not closed. Outside single quotes a backslash makes
/// the next character part of the run.
pub open spec fn quote_end(s: Seq<char>, i: int, q: char) -> int
    decreases s.len() - i,
{
    if i < 0 || i >= s.len() {
        s.len() as int
    } else if s[i] == q {
        i
    } else if q != '\'' && s[i] == '\\' && i + 1 < s.len() {
        quote_end(s, i + 2, q)
    } else {
        quote_end(s, i + 1, q)
    }
}

/// End of an unquoted word scanned from `i`; `depth` counts the open
/// parentheses of a `$(...)` group, inside which nothing ends the word.
pub open spec fn word_end(s: Seq<char>, i: int, depth: nat) -> int
    decreases s.len() - i,
{
    if i < 0 || i >= s.len() {
        s.len() as int
    } else if depth == 0 {
        if is_word_stop(s[i]) {
            i
        } else if s[i] == '$' && i + 1 < s.len() && s[i + 1] == '(' {
            word_end(s, i + 2, 1)
        } else {
            word_end(s, i + 1, 0)
        }
    } else if s[i] == '(' {
        word_end(s, i + 1, depth + 1)
    } else if s[i] == ')' {
        word_end(s, i + 1, (depth - 1) as nat)
    } else {
        word_end(s, i + 1, depth)
    }
}

/// The tokens of `s[i..]`.
pub open spec fn lex_from(s: Seq<char>, i: int) -> Seq<TokenView>
    decreases s.len() - i,
{
    if i < 0 || i >= s.len() {
        Seq::empty()
    } else {
        let c = s[i];
        if is_space(c) {
            lex_from(s, i + 1)
        } else if is_quote(c) {
            let e = quote_end(s, i + 1, c);
            let next = if e < s.len() { e + 1 } else { e };
            if i < next <= s.len() && i + 1 <= e {
                seq![(seq![c], s.subrange(i + 1, e))] + lex_from(s, next)
            } else {
                Seq::empty()
            }
        } else if c == '\\' {
            if i + 1 < s.len() {
                seq![(seq!['\\'], seq![s[i + 1]])] + lex_from(s, i + 2)
            } else {
                seq![(seq!['\\'], Seq::empty())]
            }
        } else if op_len(s, i) > 0 {
            seq![(Seq::empty(), s.subrange(i, i + op_len(s, i)))] + lex_from(s, i + op_len(s, i))
        } else {
            let e = word_end(s, i, 0);
            if i < e <= s.len() {
                seq![(Seq::empty(), s.subrange(i, e))] + lex_from(s, e)
            } else {
                Seq::empty()
            }
        }
    }
}

/// The tokens of a whole line.
pub open spec fn lex(s: Seq<char>) -> Seq<TokenView> {
    lex_from(s, 0)
}

pub proof fn lemma_quote_end_bounds(s: Seq<char>, i: int, q: char)
    requires
        0 <= i <= s.len(),
    ensures
        i <= quote_end(s, i, q) <= s.len(),
        quote_end(s, i, q) < s.len() ==> s[quote_end(s, i, q)] == q,
    decreases s.len() - i,
{
    if i < s.len() && s[i] != q {
        if q != '\'' && s[i] == '\\' && i + 1 < s.len() {
            lemma_quote_end_bounds(s, i + 2, q);
        } else {
            lemma_quote_end_bounds(s, i + 1, q);
        }
    }
}

pub proof fn lemma_word_end_bounds(s: Seq<char>, i: int, depth: nat)
    requires
        0 <= i <= s.len(),
    ensures
        i <= word_end(s, i, depth) <= s.len(),
        depth == 0 && i < s.len() && !is_word_stop(s[i]) ==> i < word_end(s, i, depth),
    decreases s.len() - i,
{
    if i < s.len() {
        if depth == 0 {
            if !is_word_stop(s[i]) {
                if s[i] == '$' && i + 1 < s.len() && s[i + 1] == '(' {
                    lemma_word_end_bounds(s, i + 2, 1);
                } else {
                    lemma_word_end_bounds(s, i + 1, 0);
                }
            }
        } else if s[i] == '(' {
            lemma_word_end_bounds(s, i + 1, depth + 1);
        } else if s[i] == ')' {
            lemma_word_end_bounds(s, i + 1, (depth - 1) as nat);
        } else {
            lemma_word_end_bounds(s, i + 1, depth);
        }
    }
}

fn is_quote_exec(c: char) -> (r: bool)
    ensures
        r == is_quote(c),
{
    c == '\'' || c == '"' || c == '`'
}

fn is_op_char_exec(c: char) -> (r: bool)
    ensures
        r == is_op_char(c),
{
    c == '|' || c == '&' || c == ';' || c == '<' || c == '>'
}

fn op_len_exec(s: &Vec<char>, i: usize) -> (r: usize)
    requires
        i < s@.len(),
    ensures
        r == op_len(s@, i as int),
{
    let n = s.len();
    let c = s[i];
    if c == '2' && n - i > 3 && s[i + 1] == '>' && s[i + 2] == '&' && s[i + 3] == '1' {
        4
    } else if c == '2' && i + 1 < n && s[i + 1] == '>' {
        2
    } else if (c == '|' || c == '&' || c == '<' || c == '>') && i + 1 < n && s[i + 1] == c {
        2
    } else if is_op_char_exec(c) {
        1
    } else {
        0
    }
}

fn quote_end_exec(s: &Vec<char>, i: usize, q: char) -> (r: usize)
    requires
        i <= s@.len(),
    ensures
        r == quote_end(s@, i as int, q),
{
    let n = s.len();
    let mut j: usize = i;
    while j < n && s[j] != q
        invariant
            i <= j <= n,
            n == s@.len(),
            quote_end(s@, j as int, q) == quote_end(s@, i as int, q),
        decreases n - j,
    {
        if q != '\'' && s[j] == '\\' && j + 1 < n {
            j = j + 2;
        } else {
            j = j + 1;
        }
    }
    j
}

fn word_end_exec(s: &Vec<char>, i: usize) -> (r: usize)
    requires
        i <= s@.len(),
    ensures
        r == word_end(s@, i as int, 0),
{
    let n = s.len();
    let mut j: usize = i;
    let mut depth: usize = 0;
    while j < n
        invariant
            i <= j <= n,
            n == s@.len(),
            depth <= j,
            word_end(s@, j as int, depth as nat) == word_end(s@, i as int, 0),
        decreases n - j,
    {
        let c = s[j];
        if depth == 0 {
            if is_space_exec(c) || is_quote_exec(c) || c == '\\' || is_op_char_exec(c) {
                return j;
            } else if c == '$' && j + 1 < n && s[j + 1] == '(' {
                depth = 1;
                j = j + 2;
            } else {
                j = j + 1;
            }
        } else if c == '(' {
            depth = depth + 1;
            j = j + 1;
        } else if c == ')' {
            depth = depth - 1;
            j = j + 1;
        } else {
            j = j + 1;
        }
    }
    j
}

proof fn lemma_push_token(out: Seq<Token>, t: Token)
    ensures
        tokens_view(out.push(t)) == tokens_view(out).push((t.0@, t.1@)),
{
    assert(tokens_view(out.push(t)) =~= tokens_view(out).push((t.0@, t.1@)));
}

/// Splits `line` into tokens: whitespace outside quotes separates words;
/// operators stand alone; quoted runs and backslash escapes carry their
/// separator; a `$(...)` group stays inside its word.
pub fn cmd_to_tokens(line: &str) -> (r: Tokens)
    ensures
        tokens_view(r@) == lex(line@),
{
    let s = chars_of(line);
    let n = s.len();
    let mut out: Tokens = Vec::new();
    let mut i: usize = 0;
    assert(tokens_view(out@) =~= Seq::<TokenView>::empty());
    while i < n
        invariant
            i <= n,
            n == s@.len(),
            s@ == line@,
            tokens_view(out@) + lex_from(s@, i as int) == lex(s@),
        decreases n - i,
    {
        let c = s[i];
        let ghost before = tokens_view(out@);
        if is_space_exec(c) {
            i = i + 1;
        } else if is_quote_exec(c) {
            let e = quote_end_exec(&s, i + 1, c);
            proof {
                lemma_quote_end_bounds(s@, i + 1, c);
            }
            let next = if e < n { e + 1 } else { e };
            let sep = string_of_range(&s, i, i + 1);
            let word = string_of_range(&s, i + 1, e);
            assert(sep@ =~= seq![c]);
            proof {
                lemma_push_token(out@, (sep, word));
            }
            out.push((sep, word));
            assert(before + lex_from(s@, i as int) =~= tokens_view(out@) + lex_from(
                s@,
                next as int,
            ));
            i = next;
        } else if c == '\\' {
            if i + 1 < n {
                let sep = owned("\\");
                let word = string_of_range(&s, i + 1, i + 2);
                proof {
                    reveal_strlit("\\");
                    lemma_push_token(out@, (sep, word));
                }
                assert(sep@ =~= seq!['\\']);
                assert(word@ =~= seq![s@[i + 1]]);
                out.push((sep, word));
                assert(before + lex_from(s@, i as int) =~= tokens_view(out@) + lex_from(
                    s@,
                    i + 2,
                ));
                i = i + 2;
            } else {
                let sep = owned("\\");
                let word = String::new();
                proof {
                    reveal_strlit("\\");
                    lemma_push_token(out@, (sep, word));
                }
                assert(sep@ =~= seq!['\\']);
                assert(word@ =~= Seq::<char>::empty());
                assert(lex_from(s@, n as int) =~= Seq::<TokenView>::empty());
                out.push((sep, word));
                assert(before + lex_from(s@, i as int) =~= tokens_view(out@) + lex_from(
                    s@,
                    n as int,
                ));
                i = n;
            }
        } else {
            let k = op_len_exec(&s, i);
            if k > 0 {
                let sep = String::new();
                let word = string_of_range(&s, i, i + k);
                proof {
                    lemma_push_token(out@, (sep, word));
                }
                out.push((sep, word));
                assert(before + lex_from(s@, i as int) =~= tokens_view(out@) + lex_from(
                    s@,
                    i + k,
                ));
                i = i + k;
            } else {
                let e = word_end_exec(&s, i);
                proof {
                    lemma_word_end_bounds(s@, i as int, 0);
                }
                let sep = String::new();
                let word = string_of_range(&s, i, e);
                proof {
                    lemma_push_token(out@, (sep, word));
                }
                out.push((sep, word));
                assert(before + lex_from(s@, i as int) =~= tokens_view(out@) + lex_from(
                    s@,
                    e as int,
                ));
                i = e;
            }
        }
    }
    assert(tokens_view(out@) =~= lex(line@));
    out
}

/// The closing quote of a quoted separator; nothing for the others.
pub open spec fn closer(sep: Seq<char>) -> Seq<char> {
    if sep.len() == 1 && is_quote(sep[0]) {
        sep
    } else {
        Seq::empty()
    }
}

/// A token written back as text: separator, word, closing quote.
pub open spec fn render(t: TokenView) -> Seq<char> {
    t.0 + t.1 + closer(t.0)
}

/// The tokens written back in order, with `gaps[k]` before token `k` and
/// the last gap after them all.
pub open spec fn spaced(ts: Seq<TokenView>, gaps: Seq<Seq<char>>) -> Seq<char>
    decreases ts.len(),
{
    if gaps.len() == 0 {
        Seq::empty()
    } else if ts.len() == 0 {
        gaps[0]
    } else {
        gaps[0] + render(ts[0]) + spaced(ts.drop_first(), gaps.drop_first())
    }
}

pub open spec fn all_space(g: Seq<char>) -> bool {
    forall|i: int| 0 <= i < g.len() ==> is_space(#[trigger] g[i])
}

/// `line` is the tokens `ts` written back and separated by runs of
/// whitespace (possibly empty), with one closing quote added when the line
/// leaves its last quote open.
pub open spec fn spaced_as(ts: Seq<TokenView>, gaps: Seq<Seq<char>>, line: Seq<char>) -> bool {
    &&& gaps.len() == ts.len() + 1
    &&& forall|k: int| 0 <= k < gaps.len() ==> all_space(#[trigger] gaps[k])
    &&& spaced(ts, gaps) == line || exists|q: char|
        is_quote(q) && spaced(ts, gaps) == line + seq![q]
}

proof fn lemma_spaced_cons(t: TokenView, rest: Seq<TokenView>, g: Seq<Seq<char>>)
    requires
        g.len() >= 1,
    ensures
        spaced(seq![t] + rest, seq![Seq::<char>::empty()] + g) == render(t) + spaced(rest, g),
{
    let ts = seq![t] + rest;
    let gs = seq![Seq::<char>::empty()] + g;
    assert(ts.drop_first() =~= rest);
    assert(gs.drop_first() =~= g);
    assert(ts[0] == t);
    assert(gs[0] == Seq::<char>::empty());
    assert(spaced(ts, gs) =~= render(t) + spaced(rest, g));
}

proof fn lemma_spaced_prefix(ts: Seq<TokenView>, g: Seq<Seq<char>>, p: Seq<char>)
    requires
        g.len() >= 1,
    ensures
        spaced(ts, g.update(0, p + g[0])) == p + spaced(ts, g),
{
    let g2 = g.update(0, p + g[0]);
    assert(g2.drop_first() =~= g.drop_first());
    if ts.len() == 0 {
        assert(spaced(ts, g2) == g2[0]);
    } else {
        assert(spaced(ts, g2) =~= p + spaced(ts, g));
    }
}

/// A token that renders as `s[i..j]`, before the tokens of `s[j..]`.
proof fn lemma_spaced_token(s: Seq<char>, i: int, j: int, t: TokenView, g: Seq<Seq<char>>)
    requires
        0 <= i <= j <= s.len(),
        render(t) == s.subrange(i, j),
        spaced_as(lex_from(s, j), g, s.subrange(j, s.len() as int)),
    ensures
        spaced_as(seq![t] + lex_from(s, j), seq![Seq::<char>::empty()] + g, s.subrange(i, s.len() as int)),
{
    let n = s.len() as int;
    let gaps = seq![Seq::<char>::empty()] + g;
    lemma_spaced_cons(t, lex_from(s, j), g);
    assert forall|k: int| 0 <= k < gaps.len() implies all_space(#[trigger] gaps[k]) by {
        if k > 0 {
            assert(gaps[k] == g[k - 1]);
        }
    }
    assert(s.subrange(i, n) =~= s.subrange(i, j) + s.subrange(j, n));
    if spaced(lex_from(s, j), g) != s.subrange(j, n) {
        let q = choose|q: char|
            is_quote(q) && spaced(lex_from(s, j), g) == s.subrange(j, n) + seq![q];
        assert(spaced(seq![t] + lex_from(s, j), gaps) =~= s.subrange(i, n) + seq![q]);
    } else {
        assert(spaced(seq![t] + lex_from(s, j), gaps) =~= s.subrange(i, n));
    }
}

/// Whitespace at `s[i]`, before the tokens of `s[i + 1..]`.
proof fn lemma_spaced_space(s: Seq<char>, i: int, g: Seq<Seq<char>>)
    requires
        0 <= i < s.len(),
        is_space(s[i]),
        spaced_as(lex_from(s, i + 1), g, s.subrange(i + 1, s.len() as int)),
    ensures
        spaced_as(lex_from(s, i + 1), g.update(0, seq![s[i]] + g[0]), s.subrange(i, s.len() as int)),
{
    let n = s.len() as int;
    let c = s[i];
    let gaps = g.update(0, seq![c] + g[0]);
    lemma_spaced_prefix(lex_from(s, i + 1), g, seq![c]);
    assert(s.subrange(i, n) =~= seq![c] + s.subrange(i + 1, n));
    assert forall|k: int| 0 <= k < gaps.len() implies all_space(#[trigger] gaps[k]) by {
        if k == 0 {
            assert(all_space(g[0]));
            assert forall|m: int| 0 <= m < gaps[0].len() implies is_space(#[trigger] gaps[0][m]) by {
                if m > 0 {
                    assert(gaps[0][m] == g[0][m - 1]);
                }
            }
        } else {
            assert(gaps[k] == g[k]);
        }
    }
    if spaced(lex_from(s, i + 1), g) != s.subrange(i + 1, n) {
        let q = choose|q: char|
            is_quote(q) && spaced(lex_from(s, i + 1), g) == s.subrange(i + 1, n) + seq![q];
        assert(spaced(lex_from(s, i + 1), gaps) =~= s.subrange(i, n) + seq![q]);
    }
}

/// A quote at `s[i]` that nothing closes.
proof fn lemma_spaced_open_quote(s: Seq<char>, i: int)
    requires
        0 <= i < s.len(),
        is_quote(s[i]),
        quote_end(s, i + 1, s[i]) == s.len(),
    ensures
        spaced_as(lex_from(s, i), seq![Seq::<char>::empty(), Seq::<char>::empty()], s.subrange(i, s.len() as int)),
{
    let n = s.len() as int;
    let c = s[i];
    let e0 = Seq::<char>::empty();
    let t = (seq![c], s.subrange(i + 1, n));
    lemma_quote_end_bounds(s, i + 1, c);
    assert(lex_from(s, n) =~= Seq::<TokenView>::empty());
    assert(lex_from(s, i) == seq![t] + lex_from(s, n));
    lemma_spaced_cons(t, lex_from(s, n), seq![e0]);
    assert(seq![e0] + seq![e0] =~= seq![e0, e0]);
    assert(spaced(lex_from(s, n), seq![e0]) == e0);
    assert(closer(seq![c]) =~= seq![c]);
    assert(spaced(lex_from(s, i), seq![e0, e0]) =~= s.subrange(i, n) + seq![c]);
    let gaps = seq![e0, e0];
    assert forall|k: int| 0 <= k < gaps.len() implies all_space(#[trigger] gaps[k]) by {}
}

proof fn lemma_lex_spaced(s: Seq<char>, i: int) -> (gaps: Seq<Seq<char>>)
    requires
        0 <= i <= s.len(),
    ensures
        spaced_as(lex_from(s, i), gaps, s.subrange(i, s.len() as int)),
    decreases s.len() - i,
{
    let n = s.len() as int;
    let e0 = Seq::<char>::empty();
    if i == n {
        let gaps = seq![e0];
        assert(s.subrange(i, n) =~= e0);
        assert(all_space(gaps[0]));
        gaps
    } else {
        let c = s[i];
        if is_space(c) {
            let g = lemma_lex_spaced(s, i + 1);
            lemma_spaced_space(s, i, g);
            g.update(0, seq![c] + g[0])
        } else if is_quote(c) {
            let e = quote_end(s, i + 1, c);
            lemma_quote_end_bounds(s, i + 1, c);
            if e == n {
                lemma_spaced_open_quote(s, i);
                seq![e0, e0]
            } else {
                let t = (seq![c], s.subrange(i + 1, e));
                let g = lemma_lex_spaced(s, e + 1);
                assert(closer(seq![c]) =~= seq![c]);
                assert(render(t) =~= s.subrange(i, e + 1));
                lemma_spaced_token(s, i, e + 1, t, g);
                seq![e0] + g
            }
        } else if c == '\\' {
            if i + 1 < n {
                let t = (seq!['\\'], seq![s[i + 1]]);
                let g = lemma_lex_spaced(s, i + 2);
                assert(closer(seq!['\\']) =~= e0);
                assert(render(t) =~= s.subrange(i, i + 2));
                lemma_spaced_token(s, i, i + 2, t, g);
                seq![e0] + g
            } else {
                let t = (seq!['\\'], e0);
                let g = lemma_lex_spaced(s, n);
                assert(closer(seq!['\\']) =~= e0);
                assert(render(t) =~= s.subrange(i, n));
                assert(lex_from(s, n) =~= Seq::<TokenView>::empty());
                assert(lex_from(s, i) =~= seq![t] + lex_from(s, n));
                lemma_spaced_token(s, i, n, t, g);
                seq![e0] + g
            }
        } else if op_len(s, i) > 0 {
            let k = op_len(s, i);
            let t = (e0, s.subrange(i, i + k));
            let g = lemma_lex_spaced(s, i + k);
            assert(closer(e0) =~= e0);
            assert(render(t) =~= s.subrange(i, i + k));
            lemma_spaced_token(s, i, i + k, t, g);
            seq![e0] + g
        } else {
            let e = word_end(s, i, 0);
            lemma_word_end_bounds(s, i, 0);
            let t = (e0, s.subrange(i, e));
            let g = lemma_lex_spaced(s, e);
            assert(closer(e0) =~= e0);
            assert(render(t) =~= s.subrange(i, e));
            lemma_spaced_token(s, i, e, t, g);
            seq![e0] + g
        }
    }
}

/// Writing each token back as separator, word and closing quote, and
/// putting runs of whitespace between them, gives the line again: the line
/// differs from its tokens only by whitespace outside quotes, and by one
/// closing quote that a line leaving its last quote open lacks.
pub proof fn lemma_tokens_render_line(line: Seq<char>)
    ensures
        exists|gaps: Seq<Seq<char>>| spaced_as(lex(line), gaps, line),
{
    let gaps = lemma_lex_spaced(line, 0);
    assert(line.subrange(0, line.len() as int) =~= line);
    assert(spaced_as(lex(line), gaps, line));
}

} // verus!
