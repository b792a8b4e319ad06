//! Reading back what `Dot` writes: the DOT text of a state machine is
//! read as the tokens it was written from, and those tokens are parsed
//! back into the machine.

use crate::fsm::{Action, Fsm, Transition};
use crate::parse::{
    add_error, edge_statement, expect_at, find_from, install, is_mark, machine, machine_of, machines, marks,
    parsed, statements, transition_of, Machine, Statement, TextTransition,
};
use crate::render::{action_text, dot_edges, dot_states, dot_text, edge_transition, transition_text};
use crate::text::{decimal, digit};
use crate::lexer::{
    digits_end, digraph_word, first_closing, ident_end, is_digit, is_ident_char, is_ident_start,
    is_space, label_word, last_quote, literal_end, number_end, quoted_label_word, token_at, tokens_from,
    unescape, TokenKind, TokenModel,
};
use vstd::prelude::*;

verus! {

/// The kinds and texts of tokens, without the input they were read from.
pub open spec fn kinds_texts(t: Seq<TokenModel>) -> Seq<(TokenKind, Seq<char>)> {
    t.map_values(|m: TokenModel| (m.kind, m.text))
}

proof fn lemma_ident_end_shift(a: Seq<char>, b: Seq<char>, j: int)
    requires
        0 <= j,
    ensures
        ident_end(a + b, a.len() + j) == a.len() + ident_end(b, j),
    decreases b.len() - j,
{
    if j < b.len() {
        assert((a + b)[a.len() + j] == b[j]);
        lemma_ident_end_shift(a, b, j + 1);
    }
}

proof fn lemma_digits_end_shift(a: Seq<char>, b: Seq<char>, j: int)
    requires
        0 <= j,
    ensures
        digits_end(a + b, a.len() + j) == a.len() + digits_end(b, j),
    decreases b.len() - j,
{
    if j < b.len() {
        assert((a + b)[a.len() + j] == b[j]);
        lemma_digits_end_shift(a, b, j + 1);
    }
}

proof fn lemma_number_end_shift(a: Seq<char>, b: Seq<char>, j: int)
    requires
        0 <= j < b.len(),
    ensures
        number_end(a + b, a.len() + j) == match number_end(b, j) {
            Some(e) => Some(a.len() + e),
            None => None::<int>,
        },
{
    let s = a + b;
    assert(forall|k: int| 0 <= k < b.len() ==> s[a.len() + k] == b[k]);
    let jb = if b[j] == '-' {
        j + 1
    } else {
        j
    };
    assert(s[a.len() + j] == b[j]);
    if jb < b.len() {
        assert(s[a.len() + jb] == b[jb]);
        lemma_digits_end_shift(a, b, jb + 1);
        lemma_digits_end_shift(a, b, jb);
        crate::lexer::lemma_digits_end(b, jb);
        let k = digits_end(b, jb);
        if k < b.len() {
            assert(s[a.len() + k] == b[k]);
        }
        lemma_digits_end_shift(a, b, k + 1);
    }
}

proof fn lemma_first_closing_shift(a: Seq<char>, b: Seq<char>, q: int)
    requires
        1 <= q,
    ensures
        first_closing(a + b, a.len() + q) == match first_closing(b, q) {
            Some(e) => Some(a.len() + e),
            None => None::<int>,
        },
    decreases b.len() - q,
{
    if q < b.len() {
        assert((a + b)[a.len() + q] == b[q]);
        assert((a + b)[a.len() + q - 1] == b[q - 1]);
        lemma_first_closing_shift(a, b, q + 1);
    }
}

proof fn lemma_last_quote_shift(a: Seq<char>, b: Seq<char>, q: int)
    requires
        0 <= q,
    ensures
        last_quote(a + b, a.len() + q) == match last_quote(b, q) {
            Some(e) => Some(a.len() + e),
            None => None::<int>,
        },
    decreases b.len() - q,
{
    if q < b.len() {
        assert((a + b)[a.len() + q] == b[q]);
        lemma_last_quote_shift(a, b, q + 1);
    }
}

/// Reading a token depends only on the text from where it starts.
proof fn lemma_token_at_shift(a: Seq<char>, b: Seq<char>, j: int)
    requires
        0 <= j < b.len(),
    ensures
        token_at(a + b, a.len() + j).0 == token_at(b, j).0,
        token_at(a + b, a.len() + j).1 == token_at(b, j).1,
        token_at(a + b, a.len() + j).2 == a.len() + token_at(b, j).2,
{
    let s = a + b;
    let i = a.len() + j;
    assert(forall|k: int| 0 <= k < b.len() ==> s[a.len() + k] == b[k]);
    assert(forall|x: int, y: int| 0 <= x <= y <= b.len() ==> #[trigger] s.subrange(a.len() + x, a.len() + y) =~= b.subrange(x, y));
    lemma_first_closing_shift(a, b, j + 1);
    lemma_last_quote_shift(a, b, j + 1);
    lemma_ident_end_shift(a, b, j + 1);
    lemma_number_end_shift(a, b, j);
    if b[j] == '"' {
        match literal_end(b, j) {
            Some(e) => {
                crate::lexer::lemma_literal_end(b, j);
                assert(s.subrange(i, a.len() + e) == b.subrange(j, e));
                assert(s.subrange(i + 1, a.len() + e - 1) == b.subrange(j + 1, e - 1));
            },
            None => {},
        }
    } else if crate::lexer::is_ident_start(b[j]) {
        crate::lexer::lemma_ident_end(b, j + 1);
        assert(s.subrange(i, a.len() + ident_end(b, j + 1)) == b.subrange(j, ident_end(b, j + 1)));
    } else {
        match number_end(b, j) {
            Some(e) => {
                crate::lexer::lemma_number_end(b, j);
                assert(s.subrange(i, a.len() + e) == b.subrange(j, e));
            },
            None => {},
        }
    }
}

/// A token ends after where it starts, within the text.
pub proof fn lemma_token_at_range(s: Seq<char>, i: int)
    requires
        0 <= i < s.len(),
    ensures
        i < token_at(s, i).2 <= s.len(),
{
    crate::lexer::lemma_literal_end(s, i);
    crate::lexer::lemma_number_end(s, i);
    if i + 1 <= s.len() {
        crate::lexer::lemma_ident_end(s, i + 1);
    }
}

/// Reading tokens depends only on the text from where reading starts.
pub proof fn lemma_tokens_shift(a: Seq<char>, b: Seq<char>, j: int)
    requires
        0 <= j,
    ensures
        tokens_from(a + b, a.len() + j) == tokens_from(b, j),
    decreases b.len() - j,
{
    let s = a + b;
    let i = a.len() + j;
    if j < b.len() {
        assert(s[i] == b[j]);
        if is_space(b[j]) {
            lemma_tokens_shift(a, b, j + 1);
        } else {
            lemma_token_at_shift(a, b, j);
            let (kind, text, e) = token_at(b, j);
            lemma_token_at_range(b, j);
            assert(s.subrange(i, a.len() + e) =~= b.subrange(j, e));
            lemma_tokens_shift(a, b, e);
        }
    }
}

/// The kinds and texts of the tokens of `s`.
pub open spec fn kt(s: Seq<char>) -> Seq<(TokenKind, Seq<char>)> {
    kinds_texts(tokens_from(s, 0))
}

/// A token read from the front of a text: what follows is read as if the
/// token had not been there.
proof fn lemma_front(p: Seq<char>, r: Seq<char>, kind: TokenKind, text: Seq<char>)
    requires
        p.len() > 0,
        !is_space((p + r)[0]),
        token_at(p + r, 0) == (kind, text, p.len() as int),
    ensures
        kt(p + r) == seq![(kind, text)] + kt(r),
{
    let u = p + r;
    lemma_tokens_shift(p, r, 0);
    assert(u.subrange(0, p.len() as int) =~= p);
    let first = TokenModel { kind, text, raw: p };
    assert(tokens_from(u, 0) == seq![first] + tokens_from(u, p.len() as int));
    assert(kinds_texts(seq![first] + tokens_from(r, 0)) =~= seq![(kind, text)] + kinds_texts(
        tokens_from(r, 0),
    ));
}

/// A space in front of a text is skipped.
proof fn lemma_space(c: char, r: Seq<char>)
    requires
        is_space(c),
    ensures
        kt(seq![c] + r) == kt(r),
{
    let u = seq![c] + r;
    assert(u[0] == c);
    lemma_tokens_shift(seq![c], r, 0);
}

/// A character that is a token by itself, in front of a text.
proof fn lemma_single(c: char, r: Seq<char>, kind: TokenKind)
    requires
        (c == '{' && kind == TokenKind::LeftBrace) || (c == '}' && kind == TokenKind::RightBrace) || (c
            == '[' && kind == TokenKind::LeftSquare) || (c == ']' && kind == TokenKind::RightSquare) || (c
            == '=' && kind == TokenKind::Equal) || (c == ';' && kind == TokenKind::Semicolon),
    ensures
        kt(seq![c] + r) == seq![(kind, Seq::<char>::empty())] + kt(r),
{
    let u = seq![c] + r;
    assert(u[0] == c);
    lemma_front(seq![c], r, kind, Seq::empty());
}

/// An arrow in front of a text.
proof fn lemma_arrow(r: Seq<char>)
    ensures
        kt(seq!['-', '>'] + r) == seq![(TokenKind::Arrow, Seq::<char>::empty())] + kt(r),
{
    let u = seq!['-', '>'] + r;
    assert(u[0] == '-' && u[1] == '>');
    lemma_front(seq!['-', '>'], r, TokenKind::Arrow, Seq::empty());
}

/// A name that reads as one word: a letter or underscore first, then
/// letters, digits and underscores.
pub open spec fn plain_word(w: Seq<char>) -> bool {
    &&& w.len() > 0
    &&& is_ident_start(w[0])
    &&& forall|k: int| 1 <= k < w.len() ==> is_ident_char(#[trigger] w[k])
}

/// The token that a plain word is read as: a keyword, or an identifier.
pub open spec fn word_token(w: Seq<char>) -> (TokenKind, Seq<char>) {
    if w == digraph_word() {
        (TokenKind::Digraph, Seq::empty())
    } else if w == label_word() {
        (TokenKind::Label, Seq::empty())
    } else {
        (TokenKind::Identifier, w)
    }
}

proof fn lemma_ident_run(u: Seq<char>, k: int, end: int)
    requires
        1 <= k <= end <= u.len(),
        forall|m: int| k <= m < end ==> is_ident_char(#[trigger] u[m]),
        end == u.len() || !is_ident_char(u[end]),
    ensures
        ident_end(u, k) == end,
    decreases end - k,
{
    if k < end {
        lemma_ident_run(u, k + 1, end);
    }
}

proof fn lemma_digit_run(u: Seq<char>, k: int, end: int)
    requires
        0 <= k <= end <= u.len(),
        forall|m: int| k <= m < end ==> is_digit(#[trigger] u[m]),
        end == u.len() || !is_digit(u[end]),
    ensures
        digits_end(u, k) == end,
    decreases end - k,
{
    if k < end {
        lemma_digit_run(u, k + 1, end);
    }
}

/// A plain word in front of a text that does not go on with the word.
proof fn lemma_word(w: Seq<char>, r: Seq<char>)
    requires
        plain_word(w),
        r.len() == 0 || !is_ident_char(r[0]),
    ensures
        kt(w + r) == seq![word_token(w)] + kt(r),
{
    let u = w + r;
    assert(forall|m: int| 0 <= m < w.len() ==> u[m] == w[m]);
    if r.len() > 0 {
        assert(u[w.len() as int] == r[0]);
    }
    lemma_ident_run(u, 1, w.len() as int);
    assert(u.subrange(0, w.len() as int) =~= w);
    lemma_front(w, r, word_token(w).0, word_token(w).1);
}

/// Digits, none of them a sign, a point or a quote.
pub open spec fn all_digits(d: Seq<char>) -> bool {
    &&& d.len() > 0
    &&& forall|k: int| 0 <= k < d.len() ==> is_digit(#[trigger] d[k])
}

/// A number in front of a text that does not go on with the number.
proof fn lemma_number(d: Seq<char>, r: Seq<char>)
    requires
        all_digits(d),
        r.len() == 0 || (!is_digit(r[0]) && r[0] != '.'),
    ensures
        kt(d + r) == seq![(TokenKind::Identifier, d)] + kt(r),
{
    let u = d + r;
    assert(forall|m: int| 0 <= m < d.len() ==> u[m] == d[m]);
    if r.len() > 0 {
        assert(u[d.len() as int] == r[0]);
    }
    assert(is_digit(u[0]));
    lemma_digit_run(u, 0, d.len() as int);
    assert(u.subrange(0, d.len() as int) =~= d);
    lemma_front(d, r, TokenKind::Identifier, d);
}

/// Text that can stand between quotes as it is: no quote and no
/// backslash in it.
pub open spec fn quotable(x: Seq<char>) -> bool {
    forall|k: int| 0 <= k < x.len() ==> #[trigger] x[k] != '"' && x[k] != '\\'
}

proof fn lemma_unescape_plain(c: Seq<char>)
    requires
        quotable(c),
    ensures
        unescape(c) == c,
    decreases c.len(),
{
    if c.len() >= 2 {
        let rest = c.subrange(1, c.len() as int);
        assert(quotable(rest)) by {
            assert forall|k: int| 0 <= k < rest.len() implies #[trigger] rest[k] != '"' && rest[k] != '\\' by {
                assert(rest[k] == c[k + 1]);
            }
        }
        lemma_unescape_plain(rest);
        assert(c =~= seq![c[0]] + rest);
    }
}

proof fn lemma_closing_run(u: Seq<char>, q: int, end: int)
    requires
        1 <= q <= end < u.len(),
        forall|m: int| 1 <= m < end ==> #[trigger] u[m] != '"',
        u[end] == '"',
        u[end - 1] != '\\',
    ensures
        first_closing(u, q) == Some(end),
    decreases end - q,
{
    if q < end {
        lemma_closing_run(u, q + 1, end);
    }
}

/// Quoted text in front of a text.
proof fn lemma_quoted(x: Seq<char>, r: Seq<char>)
    requires
        quotable(x),
        x != label_word(),
    ensures
        kt(seq!['"'] + x + seq!['"'] + r) == seq![(TokenKind::Identifier, x)] + kt(r),
{
    let p = seq!['"'] + x + seq!['"'];
    let u = p + r;
    let n = x.len() as int;
    assert(forall|m: int| 1 <= m <= n ==> u[m] == x[m - 1]);
    assert(u[0] == '"');
    assert(u[n + 1] == '"');
    if n > 0 {
        assert(u[n] == x[n - 1]);
    }
    lemma_closing_run(u, 1, n + 1);
    assert(literal_end(u, 0) == Some(n + 2));
    assert(u.subrange(0, n + 2) =~= p);
    if p == quoted_label_word() {
        assert(x =~= p.subrange(1, n + 1));
        assert(x =~= label_word());
    }
    assert(u.subrange(1, n + 1) =~= x);
    lemma_unescape_plain(x);
    lemma_front(p, r, TokenKind::Identifier, x);
}

/// Four spaces in front of a text are skipped.
proof fn lemma_indent(r: Seq<char>)
    ensures
        kt("    "@ + r) == kt(r),
{
    reveal_strlit("    ");
    let sp = seq![' '];
    assert("    "@ + r =~= sp + (sp + (sp + (sp + r))));
    lemma_space(' ', sp + (sp + (sp + r)));
    lemma_space(' ', sp + (sp + r));
    lemma_space(' ', sp + r);
    lemma_space(' ', r);
}

/// The characters of a number written in decimal are digits.
proof fn lemma_decimal_digits(n: nat)
    ensures
        all_digits(decimal(n)),
    decreases n,
{
    if n >= 10 {
        lemma_decimal_digits(n / 10);
        let d = decimal(n);
        assert forall|k: int| 0 <= k < d.len() implies is_digit(#[trigger] d[k]) by {
            if k < d.len() - 1 {
                assert(d[k] == decimal(n / 10)[k]);
            }
        }
    }
}

/// The line that declares state `k`.
pub open spec fn state_line(k: nat) -> Seq<char> {
    "    "@ + decimal(k) + ";\n"@
}

/// The lines that declare the states from `k` to `n`.
pub open spec fn states_from(k: nat, n: nat) -> Seq<char>
    decreases n - k,
{
    if k >= n {
        Seq::empty()
    } else {
        state_line(k) + states_from(k + 1, n)
    }
}

/// The tokens of the lines that declare the states from `k` to `n`.
pub open spec fn state_tokens(k: nat, n: nat) -> Seq<(TokenKind, Seq<char>)>
    decreases n - k,
{
    if k >= n {
        Seq::empty()
    } else {
        seq![(TokenKind::Identifier, decimal(k)), (TokenKind::Semicolon, Seq::empty())] + state_tokens(
            k + 1,
            n,
        )
    }
}

proof fn lemma_states_from(k: nat, n: nat)
    requires
        k <= n,
    ensures
        dot_states(k) + states_from(k, n) == dot_states(n),
    decreases n - k,
{
    if k < n {
        lemma_states_from(k + 1, n);
        assert(dot_states(k + 1) == dot_states(k) + "    "@ + decimal(k) + ";\n"@);
        assert(dot_states(k) + states_from(k, n) =~= dot_states(k + 1) + states_from(k + 1, n));
    } else {
        assert(dot_states(k) + states_from(k, n) =~= dot_states(k));
    }
}

proof fn lemma_state_lines(k: nat, n: nat, r: Seq<char>)
    ensures
        kt(states_from(k, n) + r) == state_tokens(k, n) + kt(r),
    decreases n - k,
{
    if k < n {
        reveal_strlit(";\n");
        lemma_state_lines(k + 1, n, r);
        let rest = states_from(k + 1, n) + r;
        let d = decimal(k);
        lemma_decimal_digits(k);
        assert(states_from(k, n) + r =~= "    "@ + (d + (seq![';'] + (seq!['\n'] + rest))));
        lemma_indent(d + (seq![';'] + (seq!['\n'] + rest)));
        lemma_number(d, seq![';'] + (seq!['\n'] + rest));
        lemma_single(';', seq!['\n'] + rest, TokenKind::Semicolon);
        lemma_space('\n', rest);
        assert(state_tokens(k, n) + kt(r) =~= seq![(TokenKind::Identifier, d)] + (seq![
            (TokenKind::Semicolon, Seq::<char>::empty()),
        ] + (state_tokens(k + 1, n) + kt(r))));
    } else {
        assert(states_from(k, n) + r =~= r);
        assert(state_tokens(k, n) + kt(r) =~= kt(r));
    }
}

/// The text of the transition of the `i`-th edge.
pub open spec fn edge_text(fsm: Fsm<String, String>, i: int) -> Seq<char> {
    transition_text(edge_transition(fsm, i))
}

/// The line that declares the `i`-th edge.
pub open spec fn edge_line(fsm: Fsm<String, String>, i: int) -> Seq<char> {
    let e = fsm.spec_edges()[i];
    "    "@ + decimal(e.0) + " -> "@ + decimal(e.2) + " [label=\""@ + edge_text(fsm, i) + "\"];\n"@
}

/// The lines that declare the edges from the `k`-th to the `m`-th.
pub open spec fn edges_from(fsm: Fsm<String, String>, k: nat, m: nat) -> Seq<char>
    decreases m - k,
{
    if k >= m {
        Seq::empty()
    } else {
        edge_line(fsm, k as int) + edges_from(fsm, k + 1, m)
    }
}

/// The tokens of the `i`-th edge line.
pub open spec fn edge_line_tokens(fsm: Fsm<String, String>, i: int) -> Seq<(TokenKind, Seq<char>)> {
    let e = fsm.spec_edges()[i];
    seq![
        (TokenKind::Identifier, decimal(e.0)),
        (TokenKind::Arrow, Seq::empty()),
        (TokenKind::Identifier, decimal(e.2)),
        (TokenKind::LeftSquare, Seq::empty()),
        (TokenKind::Label, Seq::empty()),
        (TokenKind::Equal, Seq::empty()),
        (TokenKind::Identifier, edge_text(fsm, i)),
        (TokenKind::RightSquare, Seq::empty()),
        (TokenKind::Semicolon, Seq::empty()),
    ]
}

/// The tokens of the edge lines from the `k`-th to the `m`-th.
pub open spec fn edge_tokens(fsm: Fsm<String, String>, k: nat, m: nat) -> Seq<(TokenKind, Seq<char>)>
    decreases m - k,
{
    if k >= m {
        Seq::empty()
    } else {
        edge_line_tokens(fsm, k as int) + edge_tokens(fsm, k + 1, m)
    }
}

proof fn lemma_edges_from(fsm: Fsm<String, String>, k: nat, m: nat)
    requires
        k <= m,
    ensures
        dot_edges(fsm, k) + edges_from(fsm, k, m) == dot_edges(fsm, m),
    decreases m - k,
{
    if k < m {
        lemma_edges_from(fsm, k + 1, m);
        assert(dot_edges(fsm, k) + edges_from(fsm, k, m) =~= dot_edges(fsm, k + 1) + edges_from(
            fsm,
            k + 1,
            m,
        ));
    } else {
        assert(dot_edges(fsm, k) + edges_from(fsm, k, m) =~= dot_edges(fsm, k));
    }
}

proof fn lemma_label_word()
    ensures
        plain_word(label_word()),
        word_token(label_word()) == (TokenKind::Label, Seq::<char>::empty()),
{
    assert(label_word() != digraph_word()) by {
        assert(label_word()[0] != digraph_word()[0]);
    }
}

/// The tokens of an edge line, from its parts.
pub open spec fn edge_parts_tokens(d1: Seq<char>, d2: Seq<char>, x: Seq<char>) -> Seq<(TokenKind, Seq<char>)> {
    seq![
        (TokenKind::Identifier, d1),
        (TokenKind::Arrow, Seq::empty()),
        (TokenKind::Identifier, d2),
        (TokenKind::LeftSquare, Seq::empty()),
        (TokenKind::Label, Seq::empty()),
        (TokenKind::Equal, Seq::empty()),
        (TokenKind::Identifier, x),
        (TokenKind::RightSquare, Seq::empty()),
        (TokenKind::Semicolon, Seq::empty()),
    ]
}

proof fn lemma_edge_tail(x: Seq<char>, rest: Seq<char>)
    requires
        quotable(x),
        x != label_word(),
    ensures
        kt(seq!['['] + (label_word() + (seq!['='] + (seq!['"'] + x + seq!['"'] + (seq![']'] + (seq![';'] + (
            seq!['\n'] + rest))))))) == seq![
            (TokenKind::LeftSquare, Seq::<char>::empty()),
            (TokenKind::Label, Seq::<char>::empty()),
            (TokenKind::Equal, Seq::<char>::empty()),
            (TokenKind::Identifier, x),
            (TokenKind::RightSquare, Seq::<char>::empty()),
            (TokenKind::Semicolon, Seq::<char>::empty()),
        ] + kt(rest),
{
    lemma_label_word();
    let r9 = seq!['\n'] + rest;
    let r8 = seq![';'] + r9;
    let r7 = seq![']'] + r8;
    let r6 = seq!['"'] + x + seq!['"'] + r7;
    let r5 = seq!['='] + r6;
    let r4 = label_word() + r5;
    lemma_single('[', r4, TokenKind::LeftSquare);
    lemma_word(label_word(), r5);
    lemma_single('=', r6, TokenKind::Equal);
    lemma_quoted(x, r7);
    lemma_single(']', r8, TokenKind::RightSquare);
    lemma_single(';', r9, TokenKind::Semicolon);
    lemma_space('\n', rest);
    assert(kt(seq!['['] + r4) =~= seq![
        (TokenKind::LeftSquare, Seq::<char>::empty()),
        (TokenKind::Label, Seq::<char>::empty()),
        (TokenKind::Equal, Seq::<char>::empty()),
        (TokenKind::Identifier, x),
        (TokenKind::RightSquare, Seq::<char>::empty()),
        (TokenKind::Semicolon, Seq::<char>::empty()),
    ] + kt(rest));
}

proof fn lemma_edge_parts(d1: Seq<char>, d2: Seq<char>, x: Seq<char>, rest: Seq<char>)
    requires
        all_digits(d1),
        all_digits(d2),
        quotable(x),
        x != label_word(),
    ensures
        kt("    "@ + d1 + " -> "@ + d2 + " [label=\""@ + x + "\"];\n"@ + rest) == edge_parts_tokens(d1, d2, x)
            + kt(rest),
{
    reveal_strlit(" -> ");
    reveal_strlit(" [label=\"");
    reveal_strlit("\"];\n");
    let r3 = seq!['['] + (label_word() + (seq!['='] + (seq!['"'] + x + seq!['"'] + (seq![']'] + (seq![';'] + (
        seq!['\n'] + rest))))));
    let r2 = seq![' '] + r3;
    let r1 = d2 + r2;
    let q3 = seq![' '] + r1;
    let q2 = seq!['-', '>'] + q3;
    let q1 = seq![' '] + q2;
    let q0 = d1 + q1;
    let whole = "    "@ + d1 + " -> "@ + d2 + " [label=\""@ + x + "\"];\n"@ + rest;
    assert(" -> "@ =~= seq![' ', '-', '>', ' ']);
    assert(" [label=\""@ =~= seq![' ', '['] + label_word() + seq!['=', '"']);
    assert("\"];\n"@ =~= seq!['"', ']', ';', '\n']);
    assert(whole =~= "    "@ + q0);
    lemma_indent(q0);
    lemma_number(d1, q1);
    lemma_space(' ', q2);
    lemma_arrow(q3);
    lemma_space(' ', r1);
    lemma_number(d2, r2);
    lemma_space(' ', r3);
    lemma_edge_tail(x, rest);
    assert(kt(whole) =~= edge_parts_tokens(d1, d2, x) + kt(rest));
}

proof fn lemma_edge_line(fsm: Fsm<String, String>, i: int, rest: Seq<char>)
    requires
        quotable(edge_text(fsm, i)),
        edge_text(fsm, i) != label_word(),
    ensures
        kt(edge_line(fsm, i) + rest) == edge_line_tokens(fsm, i) + kt(rest),
{
    let e = fsm.spec_edges()[i];
    lemma_decimal_digits(e.0);
    lemma_decimal_digits(e.2);
    lemma_edge_parts(decimal(e.0), decimal(e.2), edge_text(fsm, i), rest);
}

proof fn lemma_edge_lines(fsm: Fsm<String, String>, k: nat, m: nat, r: Seq<char>)
    requires
        forall|i: int| k <= i < m ==> quotable(#[trigger] edge_text(fsm, i)) && edge_text(fsm, i) != label_word(),
    ensures
        kt(edges_from(fsm, k, m) + r) == edge_tokens(fsm, k, m) + kt(r),
    decreases m - k,
{
    if k < m {
        lemma_edge_lines(fsm, k + 1, m, r);
        let rest = edges_from(fsm, k + 1, m) + r;
        assert(edges_from(fsm, k, m) + r =~= edge_line(fsm, k as int) + rest);
        assert(quotable(edge_text(fsm, k as int)));
        lemma_edge_line(fsm, k as int, rest);
        assert(edge_tokens(fsm, k, m) + kt(r) =~= edge_line_tokens(fsm, k as int) + (edge_tokens(
            fsm,
            k + 1,
            m,
        ) + kt(r)));
    } else {
        assert(edges_from(fsm, k, m) + r =~= r);
        assert(edge_tokens(fsm, k, m) + kt(r) =~= kt(r));
    }
}

/// A role name that reads back as itself: a plain word that is no keyword.
pub open spec fn plain_name(w: Seq<char>) -> bool {
    plain_word(w) && w != digraph_word() && w != label_word()
}

/// The tokens that the DOT text of `fsm` is read as.
pub open spec fn dot_tokens(fsm: Fsm<String, String>) -> Seq<(TokenKind, Seq<char>)> {
    seq![
        (TokenKind::Digraph, Seq::empty()),
        (TokenKind::Identifier, fsm.spec_role()@),
        (TokenKind::LeftBrace, Seq::empty()),
    ] + state_tokens(0, fsm.num_states()) + edge_tokens(fsm, 0, fsm.spec_edges().len()) + seq![
        (TokenKind::RightBrace, Seq::empty()),
    ]
}

/// A line break where `b` holds, nothing otherwise.
pub open spec fn newline_if(b: bool) -> Seq<char> {
    if b {
        seq!['\n']
    } else {
        Seq::empty()
    }
}

proof fn lemma_newline_if(b: bool, r: Seq<char>)
    ensures
        kt(newline_if(b) + r) == kt(r),
{
    if b {
        lemma_space('\n', r);
    } else {
        assert(Seq::<char>::empty() + r =~= r);
    }
}

/// The DOT text of `fsm`, as the pieces that are read one after the other.
pub open spec fn dot_pieces(fsm: Fsm<String, String>) -> Seq<char> {
    let n = fsm.num_states();
    let m = fsm.spec_edges().len();
    digraph_word() + (seq![' '] + (fsm.spec_role()@ + (seq![' '] + (seq!['{'] + (newline_if(n > 0) + (
    states_from(0, n) + (newline_if(m > 0) + (edges_from(fsm, 0, m) + seq!['}']))))))))
}

proof fn lemma_dot_pieces(fsm: Fsm<String, String>)
    ensures
        dot_text(fsm) == dot_pieces(fsm),
{
    reveal_strlit("digraph ");
    reveal_strlit(" {");
    reveal_strlit("}");
    reveal_strlit("\n");
    let n = fsm.num_states();
    let m = fsm.spec_edges().len();
    lemma_states_from(0, n);
    lemma_edges_from(fsm, 0, m);
    assert(dot_states(0) =~= Seq::<char>::empty());
    assert(dot_edges(fsm, 0) =~= Seq::<char>::empty());
    assert("digraph "@ =~= digraph_word() + seq![' ']);
    assert(" {"@ =~= seq![' ', '{']);
    assert("\n"@ =~= seq!['\n']);
    assert((if n > 0 {
        "\n"@
    } else {
        Seq::<char>::empty()
    }) == newline_if(n > 0));
    assert((if m > 0 {
        "\n"@
    } else {
        Seq::<char>::empty()
    }) == newline_if(m > 0));
    assert(dot_text(fsm) =~= dot_pieces(fsm));
}

proof fn lemma_document(role: Seq<char>, n: nat, fsm: Fsm<String, String>, m: nat)
    requires
        plain_name(role),
        forall|i: int| 0 <= i < m ==> quotable(#[trigger] edge_text(fsm, i)) && edge_text(fsm, i) != label_word(),
    ensures
        kt(digraph_word() + (seq![' '] + (role + (seq![' '] + (seq!['{'] + (newline_if(n > 0) + (
        states_from(0, n) + (newline_if(m > 0) + (edges_from(fsm, 0, m) + seq!['}']))))))))) == seq![
            (TokenKind::Digraph, Seq::<char>::empty()),
            (TokenKind::Identifier, role),
            (TokenKind::LeftBrace, Seq::<char>::empty()),
        ] + state_tokens(0, n) + edge_tokens(fsm, 0, m) + seq![(TokenKind::RightBrace, Seq::<char>::empty())],
{
    let close = seq!['}'];
    let e = edges_from(fsm, 0, m) + close;
    let d = newline_if(m > 0) + e;
    let c = states_from(0, n) + d;
    let b = newline_if(n > 0) + c;
    let a3 = seq!['{'] + b;
    let a2 = seq![' '] + a3;
    let a1 = role + a2;
    let a0 = seq![' '] + a1;
    assert(plain_word(digraph_word()));
    lemma_word(digraph_word(), a0);
    lemma_space(' ', a1);
    lemma_word(role, a2);
    lemma_space(' ', a3);
    lemma_single('{', b, TokenKind::LeftBrace);
    lemma_newline_if(n > 0, c);
    lemma_state_lines(0, n, d);
    lemma_newline_if(m > 0, e);
    lemma_edge_lines(fsm, 0, m, close);
    assert(close =~= seq!['}'] + Seq::<char>::empty());
    lemma_single('}', Seq::<char>::empty(), TokenKind::RightBrace);
    assert(kt(Seq::<char>::empty()) =~= Seq::<(TokenKind, Seq<char>)>::empty());
    assert(kt(digraph_word() + a0) =~= seq![
        (TokenKind::Digraph, Seq::<char>::empty()),
        (TokenKind::Identifier, role),
        (TokenKind::LeftBrace, Seq::<char>::empty()),
    ] + state_tokens(0, n) + edge_tokens(fsm, 0, m) + seq![(TokenKind::RightBrace, Seq::<char>::empty())]);
}

proof fn lemma_dot_text_tokens(fsm: Fsm<String, String>)
    requires
        plain_name(fsm.spec_role()@),
        forall|i: int|
            0 <= i < fsm.spec_edges().len() ==> quotable(#[trigger] edge_text(fsm, i)) && edge_text(fsm, i)
                != label_word(),
    ensures
        kt(dot_text(fsm)) == dot_tokens(fsm),
{
    lemma_dot_pieces(fsm);
    lemma_document(fsm.spec_role()@, fsm.num_states(), fsm, fsm.spec_edges().len());
}

proof fn lemma_decimal_len(n: nat)
    ensures
        decimal(n).len() >= 1,
        n >= 10 ==> decimal(n).len() >= 2,
    decreases n,
{
    if n >= 10 {
        lemma_decimal_len(n / 10);
    }
}

proof fn lemma_digit_injective(a: int, b: int)
    requires
        0 <= a < 10,
        0 <= b < 10,
        digit(a) == digit(b),
    ensures
        a == b,
{
}

/// Numbers written in decimal are equal only when the numbers are.
pub proof fn lemma_decimal_injective(a: nat, b: nat)
    requires
        decimal(a) == decimal(b),
    ensures
        a == b,
    decreases a + b,
{
    lemma_decimal_len(a);
    lemma_decimal_len(b);
    if a < 10 && b < 10 {
        assert(decimal(a) == seq![digit(a as int)]);
        assert(decimal(b) == seq![digit(b as int)]);
        assert(decimal(a)[0] == digit(a as int));
        assert(decimal(b)[0] == digit(b as int));
        lemma_digit_injective(a as int, b as int);
    } else if a >= 10 && b >= 10 {
        let da = decimal(a);
        let db = decimal(b);
        assert(da.last() == digit((a % 10) as int));
        assert(db.last() == digit((b % 10) as int));
        lemma_digit_injective((a % 10) as int, (b % 10) as int);
        assert(da.drop_last() =~= decimal(a / 10));
        assert(db.drop_last() =~= decimal(b / 10));
        lemma_decimal_injective(a / 10, b / 10);
    } else if a < 10 {
        assert(decimal(a).len() == 1);
    } else {
        assert(decimal(b).len() == 1);
    }
}

proof fn lemma_state_tokens_at(k: nat, n: nat)
    requires
        k <= n,
    ensures
        state_tokens(k, n).len() == 2 * (n - k),
        forall|i: int|
            k <= i < n ==> #[trigger] state_tokens(k, n)[2 * (i - k)] == (TokenKind::Identifier, decimal(i as nat))
                && state_tokens(k, n)[2 * (i - k) + 1] == (TokenKind::Semicolon, Seq::<char>::empty()),
    decreases n - k,
{
    if k < n {
        lemma_state_tokens_at(k + 1, n);
        let rest = state_tokens(k + 1, n);
        let head = seq![(TokenKind::Identifier, decimal(k)), (TokenKind::Semicolon, Seq::<char>::empty())];
        let all = state_tokens(k, n);
        assert(all == head + rest);
        assert forall|i: int| k <= i < n implies #[trigger] all[2 * (i - k)] == (TokenKind::Identifier, decimal(
            i as nat,
        )) && all[2 * (i - k) + 1] == (TokenKind::Semicolon, Seq::<char>::empty()) by {
            let idx = 2 * (i - k);
            if i == k {
                assert(idx == 0);
                assert(all[0] == head[0]);
                assert(all[1] == head[1]);
            } else {
                let j = 2 * (i - (k + 1));
                assert(idx == j + 2);
                assert(rest[j] == (TokenKind::Identifier, decimal(i as nat)));
                assert(rest[j + 1] == (TokenKind::Semicolon, Seq::<char>::empty()));
                assert(all[idx] == rest[j]);
                assert(all[idx + 1] == rest[j + 1]);
            }
        }
    } else {
        assert(state_tokens(k, n) =~= Seq::<(TokenKind, Seq<char>)>::empty());
    }
}

proof fn lemma_edge_tokens_at(fsm: Fsm<String, String>, k: nat, m: nat)
    requires
        k <= m,
    ensures
        edge_tokens(fsm, k, m).len() == 9 * (m - k),
        forall|j: int, o: int|
            k <= j < m && 0 <= o < 9 ==> #[trigger] edge_tokens(fsm, k, m)[9 * (j - k) + o]
                == edge_line_tokens(fsm, j)[o],
    decreases m - k,
{
    if k < m {
        lemma_edge_tokens_at(fsm, k + 1, m);
        let rest = edge_tokens(fsm, k + 1, m);
        assert forall|j: int, o: int| k <= j < m && 0 <= o < 9 implies #[trigger] edge_tokens(fsm, k, m)[9 * (j
            - k) + o] == edge_line_tokens(fsm, j)[o] by {
            if j > k {
                assert(edge_tokens(fsm, k, m)[9 * (j - k) + o] == rest[9 * (j - (k + 1)) + o]);
            }
        }
    }
}

/// Where each token of the DOT text of `fsm` stands, and what it is.
pub open spec fn laid_out(t: Seq<TokenModel>, fsm: Fsm<String, String>) -> bool {
    let n = fsm.num_states();
    let m = fsm.spec_edges().len();
    let b = 3 + 2 * (n as int);
    &&& t.len() == 4 + 2 * n + 9 * m
    &&& t[0].kind == TokenKind::Digraph
    &&& t[1].kind == TokenKind::Identifier
    &&& t[1].text == fsm.spec_role()@
    &&& t[2].kind == TokenKind::LeftBrace
    &&& forall|k: int|
        0 <= k < n ==> (#[trigger] t[3 + 2 * k]).kind == TokenKind::Identifier && t[3 + 2 * k].text == decimal(
            k as nat,
        ) && t[4 + 2 * k].kind == TokenKind::Semicolon
    &&& forall|j: int, o: int|
        0 <= j < m && 0 <= o < 9 ==> ((#[trigger] t[b + 9 * j + o]).kind, t[b + 9 * j + o].text)
            == edge_line_tokens(fsm, j)[o]
    &&& t[b + 9 * m].kind == TokenKind::RightBrace
}

proof fn lemma_laid_out(t: Seq<TokenModel>, fsm: Fsm<String, String>)
    requires
        kinds_texts(t) == dot_tokens(fsm),
    ensures
        laid_out(t, fsm),
{
    let n = fsm.num_states();
    let m = fsm.spec_edges().len();
    let b = 3 + 2 * (n as int);
    let head = seq![
        (TokenKind::Digraph, Seq::<char>::empty()),
        (TokenKind::Identifier, fsm.spec_role()@),
        (TokenKind::LeftBrace, Seq::<char>::empty()),
    ];
    let st = state_tokens(0, n);
    let et = edge_tokens(fsm, 0, m);
    let tail = seq![(TokenKind::RightBrace, Seq::<char>::empty())];
    let all = dot_tokens(fsm);
    lemma_state_tokens_at(0, n);
    lemma_edge_tokens_at(fsm, 0, m);
    assert(all == head + st + et + tail);
    assert(t.len() == all.len());
    assert forall|p: int| 0 <= p < t.len() implies (#[trigger] t[p].kind, t[p].text) == all[p] by {
        assert(kinds_texts(t)[p] == (t[p].kind, t[p].text));
    }
    assert((t[0].kind, t[0].text) == all[0]);
    assert((t[1].kind, t[1].text) == all[1]);
    assert((t[2].kind, t[2].text) == all[2]);
    assert forall|k: int| 0 <= k < n implies (#[trigger] t[3 + 2 * k]).kind == TokenKind::Identifier && t[3 + 2
        * k].text == decimal(k as nat) && t[4 + 2 * k].kind == TokenKind::Semicolon by {
        assert((t[3 + 2 * k].kind, t[3 + 2 * k].text) == all[3 + 2 * k]);
        assert((t[4 + 2 * k].kind, t[4 + 2 * k].text) == all[4 + 2 * k]);
        assert(all[3 + 2 * k] == st[2 * (k - 0)]);
        assert(all[4 + 2 * k] == st[2 * (k - 0) + 1]);
    }
    assert forall|j: int, o: int| 0 <= j < m && 0 <= o < 9 implies ((#[trigger] t[b + 9 * j + o]).kind, t[b + 9 * j
        + o].text) == edge_line_tokens(fsm, j)[o] by {
        assert((t[b + 9 * j + o].kind, t[b + 9 * j + o].text) == all[b + 9 * j + o]);
        assert(all[b + 9 * j + o] == et[9 * (j - 0) + o]);
    }
    assert((t[b + 9 * m].kind, t[b + 9 * m].text) == all[b + 9 * m]);
}

/// The names of the first `k` states, as DOT writes them.
pub open spec fn names_upto(k: nat) -> Seq<Seq<char>> {
    Seq::new(k, |i: int| decimal(i as nat))
}

proof fn lemma_names_fresh(k: nat)
    ensures
        !names_upto(k).contains(decimal(k)),
{
    if names_upto(k).contains(decimal(k)) {
        let i = choose|i: int| 0 <= i < names_upto(k).len() && names_upto(k)[i] == decimal(k);
        lemma_decimal_injective(i as nat, k);
    }
}

proof fn lemma_parse_states(t: Seq<TokenModel>, fsm: Fsm<String, String>, k: nat)
    requires
        laid_out(t, fsm),
        k <= fsm.num_states(),
    ensures
        statements(t, (3 + 2 * k) as int, names_upto(k), Seq::empty()) == statements(
            t,
            (3 + 2 * fsm.num_states()) as int,
            names_upto(fsm.num_states()),
            Seq::empty(),
        ),
    decreases fsm.num_states() - k,
{
    let n = fsm.num_states();
    if k < n {
        let p = (3 + 2 * k) as int;
        assert(t[p].kind == TokenKind::Identifier && t[p].text == decimal(k) && t[p + 1].kind
            == TokenKind::Semicolon) by {
            assert(t[3 + 2 * (k as int)].kind == TokenKind::Identifier);
        }
        let first_kinds = seq![TokenKind::RightBrace, TokenKind::Identifier];
        let second_kinds = seq![TokenKind::Semicolon, TokenKind::Arrow];
        assert(first_kinds[1] == TokenKind::Identifier);
        assert(second_kinds[0] == TokenKind::Semicolon);
        assert(expect_at(t, p, first_kinds) == (Ok::<TokenModel, crate::parse::ErrorModel>(t[p]), p + 1));
        assert(expect_at(t, p + 1, second_kinds) == (Ok::<TokenModel, crate::parse::ErrorModel>(t[p + 1]), p + 2));
        lemma_names_fresh(k);
        assert(names_upto(k).push(decimal(k)) =~= names_upto(k + 1));
        assert(statements(t, p, names_upto(k), Seq::empty()) == statements(t, p + 2, names_upto(k + 1), Seq::empty()));
        lemma_parse_states(t, fsm, k + 1);
    }
}

/// No `?` or `!` in the text.
pub open spec fn no_marks(x: Seq<char>) -> bool {
    forall|k: int| 0 <= k < x.len() ==> !is_mark(#[trigger] x[k])
}

proof fn lemma_marks_none(s: Seq<char>, lo: int, hi: int)
    requires
        forall|k: int| lo <= k < hi ==> !is_mark(#[trigger] s[k]),
    ensures
        marks(s, lo, hi) == Seq::<int>::empty(),
    decreases hi - lo,
{
    if lo < hi {
        lemma_marks_none(s, lo + 1, hi);
    }
}

proof fn lemma_marks_one(s: Seq<char>, lo: int, i: int, hi: int)
    requires
        lo <= i < hi,
        is_mark(s[i]),
        forall|k: int| lo <= k < hi && k != i ==> !is_mark(#[trigger] s[k]),
    ensures
        marks(s, lo, hi) == seq![i],
    decreases hi - lo,
{
    if lo < i {
        lemma_marks_one(s, lo + 1, i, hi);
    } else {
        lemma_marks_none(s, i + 1, hi);
        assert(seq![i] + Seq::<int>::empty() =~= seq![i]);
    }
}

/// A transition written as role, mark and label reads back as itself,
/// where neither role nor label is empty or holds a mark.
proof fn lemma_transition_of_parts(r: Seq<char>, a: Action, l: Seq<char>)
    requires
        r.len() > 0,
        l.len() > 0,
        no_marks(r),
        no_marks(l),
    ensures
        transition_of(r + action_text(a) + l) == Some(Transition { role: r, action: a, label: l }),
{
    reveal_strlit("?");
    reveal_strlit("!");
    let mark = action_text(a);
    assert(mark.len() == 1);
    let s = r + mark + l;
    let i = r.len() as int;
    assert(forall|k: int| 0 <= k < r.len() ==> s[k] == r[k]);
    assert(forall|k: int| 0 <= k < l.len() ==> s[i + 1 + k] == l[k]);
    assert(s[i] == mark[0]);
    assert forall|k: int| 1 <= k < s.len() - 1 && k != i implies !is_mark(#[trigger] s[k]) by {
        if k < i {
            assert(s[k] == r[k]);
        } else {
            assert(s[k] == l[k - i - 1]);
        }
    }
    lemma_marks_one(s, 1, i, s.len() - 1);
    assert(s.subrange(0, i) =~= r);
    assert(s.subrange(i + 1, s.len() as int) =~= l);
}

/// The `i`-th edge as a transition of texts.
pub open spec fn text_transition(fsm: Fsm<String, String>, i: int) -> TextTransition {
    let t = edge_transition(fsm, i);
    Transition { role: t.role@, action: t.action, label: t.label@ }
}

/// The `i`-th edge as the statement that reads it.
pub open spec fn statement_of(fsm: Fsm<String, String>, i: int) -> Statement {
    let e = fsm.spec_edges()[i];
    (decimal(e.0), decimal(e.2), text_transition(fsm, i))
}

/// The statements of the first `j` edges.
pub open spec fn statements_upto(fsm: Fsm<String, String>, j: nat) -> Seq<Statement> {
    Seq::new(j, |i: int| statement_of(fsm, i))
}

/// Each transition has a role and a label, neither with a mark, and they
/// can stand between quotes.
pub open spec fn transitions_readable(fsm: Fsm<String, String>) -> bool {
    forall|i: int| 0 <= i < fsm.spec_edges().len() ==> {
        let t = #[trigger] edge_transition(fsm, i);
        &&& t.role@.len() > 0
        &&& t.label@.len() > 0
        &&& no_marks(t.role@)
        &&& no_marks(t.label@)
        &&& quotable(t.role@)
        &&& quotable(t.label@)
    }
}

/// No two edges join the same states with the same label.
pub open spec fn edges_distinct(fsm: Fsm<String, String>) -> bool {
    forall|i: int, j: int|
        0 <= i < j < fsm.spec_edges().len() ==> {
            let a = #[trigger] fsm.spec_edges()[i];
            let b = #[trigger] fsm.spec_edges()[j];
            !(a.0 == b.0 && a.2 == b.2 && a.1@ == b.1@)
        }
}

proof fn lemma_edge_text_readable(fsm: Fsm<String, String>, i: int)
    requires
        transitions_readable(fsm),
        0 <= i < fsm.spec_edges().len(),
    ensures
        quotable(edge_text(fsm, i)),
        edge_text(fsm, i) != label_word(),
        transition_of(edge_text(fsm, i)) == Some(text_transition(fsm, i)),
{
    reveal_strlit("?");
    reveal_strlit("!");
    let t = edge_transition(fsm, i);
    assert(t.role@.len() > 0);
    let mark = action_text(t.action);
    let x = edge_text(fsm, i);
    assert(x == t.role@ + mark + t.label@);
    assert(mark.len() == 1 && is_mark(mark[0]));
    assert(forall|k: int| 0 <= k < t.role@.len() ==> x[k] == t.role@[k]);
    assert(forall|k: int| 0 <= k < t.label@.len() ==> x[t.role@.len() + 1 + k] == t.label@[k]);
    assert(x[t.role@.len() as int] == mark[0]);
    assert forall|k: int| 0 <= k < x.len() implies #[trigger] x[k] != '"' && x[k] != '\\' by {
        if k < t.role@.len() {
        } else if k == t.role@.len() {
        } else {
            assert(x[k] == t.label@[k - t.role@.len() - 1]);
        }
    }
    if x == label_word() {
        assert(is_mark(x[t.role@.len() as int]));
        assert(!is_mark(label_word()[t.role@.len() as int]));
    }
    lemma_transition_of_parts(t.role@, t.action, t.label@);
}

proof fn lemma_statements_fresh(fsm: Fsm<String, String>, j: nat)
    requires
        edges_distinct(fsm),
        j < fsm.spec_edges().len(),
    ensures
        !statements_upto(fsm, j).contains(statement_of(fsm, j as int)),
{
    if statements_upto(fsm, j).contains(statement_of(fsm, j as int)) {
        let i = choose|i: int| 0 <= i < j && statements_upto(fsm, j)[i] == statement_of(fsm, j as int);
        assert(statements_upto(fsm, j)[i] == statement_of(fsm, i));
        let a = fsm.spec_edges()[i];
        let b = fsm.spec_edges()[j as int];
        lemma_decimal_injective(a.0, b.0);
        lemma_decimal_injective(a.2, b.2);
        assert(false);
    }
}

proof fn lemma_edge_token(t: Seq<TokenModel>, fsm: Fsm<String, String>, j: int, o: int)
    requires
        laid_out(t, fsm),
        0 <= j < fsm.spec_edges().len(),
        0 <= o < 9,
    ensures
        (t[3 + 2 * fsm.num_states() + 9 * j + o].kind, t[3 + 2 * fsm.num_states() + 9 * j + o].text)
            == edge_line_tokens(fsm, j)[o],
{
    let n = fsm.num_states();
    let b = 3 + 2 * n;
    assert(((t[b + 9 * j + o]).kind, t[b + 9 * j + o].text) == edge_line_tokens(fsm, j)[o]);
}

proof fn lemma_parse_edge(t: Seq<TokenModel>, fsm: Fsm<String, String>, j: nat)
    requires
        laid_out(t, fsm),
        transitions_readable(fsm),
        edges_distinct(fsm),
        j < fsm.spec_edges().len(),
    ensures
        statements(
            t,
            (3 + 2 * fsm.num_states() + 9 * j) as int,
            names_upto(fsm.num_states()),
            statements_upto(fsm, j),
        ) == statements(
            t,
            (3 + 2 * fsm.num_states() + 9 * (j + 1)) as int,
            names_upto(fsm.num_states()),
            statements_upto(fsm, j + 1),
        ),
{
    let n = fsm.num_states();
    let p = (3 + 2 * n + 9 * j) as int;
    let e = fsm.spec_edges()[j as int];
    let lt = edge_line_tokens(fsm, j as int);
    lemma_edge_token(t, fsm, j as int, 0);
    lemma_edge_token(t, fsm, j as int, 1);
    lemma_edge_token(t, fsm, j as int, 2);
    lemma_edge_token(t, fsm, j as int, 3);
    lemma_edge_token(t, fsm, j as int, 4);
    lemma_edge_token(t, fsm, j as int, 5);
    lemma_edge_token(t, fsm, j as int, 6);
    lemma_edge_token(t, fsm, j as int, 7);
    lemma_edge_token(t, fsm, j as int, 8);
    assert(t[p].kind == TokenKind::Identifier && t[p].text == decimal(e.0));
    assert(t[p + 1].kind == TokenKind::Arrow);
    assert(t[p + 2].kind == TokenKind::Identifier && t[p + 2].text == decimal(e.2));
    assert(t[p + 3].kind == TokenKind::LeftSquare);
    assert(t[p + 4].kind == TokenKind::Label);
    assert(t[p + 5].kind == TokenKind::Equal);
    assert(t[p + 6].kind == TokenKind::Identifier && t[p + 6].text == edge_text(fsm, j as int));
    assert(t[p + 7].kind == TokenKind::RightSquare);
    assert(t[p + 8].kind == TokenKind::Semicolon);
    assert(p + 9 <= t.len());
    lemma_edge_text_readable(fsm, j as int);
    lemma_statements_fresh(fsm, j);
    let names = names_upto(n);
    let before = statements_upto(fsm, j);
    let k1 = seq![TokenKind::RightBrace, TokenKind::Identifier];
    let k2 = seq![TokenKind::Semicolon, TokenKind::Arrow];
    assert(k1[1] == TokenKind::Identifier);
    assert(k2[1] == TokenKind::Arrow);
    assert(seq![TokenKind::Identifier][0] == TokenKind::Identifier);
    assert(seq![TokenKind::LeftSquare][0] == TokenKind::LeftSquare);
    assert(seq![TokenKind::Label][0] == TokenKind::Label);
    assert(seq![TokenKind::Equal][0] == TokenKind::Equal);
    assert(seq![TokenKind::RightSquare][0] == TokenKind::RightSquare);
    assert(seq![TokenKind::Semicolon][0] == TokenKind::Semicolon);
    let statement = statement_of(fsm, j as int);
    assert(edge_statement(t, p + 2, decimal(e.0), before) == (
        Ok::<Statement, crate::parse::ErrorModel>(statement),
        p + 9,
    ));
    assert(before.push(statement) =~= statements_upto(fsm, j + 1));
}

proof fn lemma_parse_edges(t: Seq<TokenModel>, fsm: Fsm<String, String>, j: nat)
    requires
        laid_out(t, fsm),
        transitions_readable(fsm),
        edges_distinct(fsm),
        j <= fsm.spec_edges().len(),
    ensures
        statements(
            t,
            (3 + 2 * fsm.num_states() + 9 * j) as int,
            names_upto(fsm.num_states()),
            statements_upto(fsm, j),
        ) == statements(
            t,
            (3 + 2 * fsm.num_states() + 9 * fsm.spec_edges().len()) as int,
            names_upto(fsm.num_states()),
            statements_upto(fsm, fsm.spec_edges().len()),
        ),
    decreases fsm.spec_edges().len() - j,
{
    if j < fsm.spec_edges().len() {
        lemma_parse_edge(t, fsm, j);
        lemma_parse_edges(t, fsm, j + 1);
    }
}

proof fn lemma_find_decimal(n: nat, x: nat, i: int)
    requires
        0 <= i <= x < n,
    ensures
        find_from(names_upto(n), decimal(x), i) == Some(x),
    decreases x - i,
{
    if i < x {
        if decimal(i as nat) == decimal(x) {
            lemma_decimal_injective(i as nat, x);
        }
        lemma_find_decimal(n, x, i + 1);
    }
}

/// Some edge among the first `j` leaves `state`.
pub open spec fn leaves_among(fsm: Fsm<String, String>, state: nat, j: nat) -> bool {
    exists|i: int| 0 <= i < j && (#[trigger] fsm.spec_edges()[i]).0 == state
}

/// What each state offers once the first `j` edges are read: what the
/// machine says, for a state that one of them leaves.
pub open spec fn choices_after(fsm: Fsm<String, String>, j: nat) -> Seq<Option<(Seq<char>, Action)>> {
    Seq::new(
        fsm.num_states(),
        |s: int|
            if leaves_among(fsm, s as nat, j) {
                Some((fsm.choices_at(s as nat)->Some_0.0@, fsm.choices_at(s as nat)->Some_0.1))
            } else {
                None
            },
    )
}

/// The first `j` edges, as texts.
pub open spec fn added_after(fsm: Fsm<String, String>, j: nat) -> Seq<(nat, Seq<char>, nat)> {
    Seq::new(j, |i: int| (fsm.spec_edges()[i].0, fsm.spec_edges()[i].1@, fsm.spec_edges()[i].2))
}

proof fn lemma_install(fsm: Fsm<String, String>, j: nat)
    requires
        fsm.wf(),
        fsm.talks_to_others(),
        j <= fsm.spec_edges().len(),
    ensures
        install(
            fsm.spec_role()@,
            names_upto(fsm.num_states()),
            statements_upto(fsm, fsm.spec_edges().len()),
            j as int,
            choices_after(fsm, j),
            added_after(fsm, j),
        ) == Ok::<_, crate::parse::ErrorModel>(
            (choices_after(fsm, fsm.spec_edges().len()), added_after(fsm, fsm.spec_edges().len())),
        ),
    decreases fsm.spec_edges().len() - j,
{
    let m = fsm.spec_edges().len();
    let n = fsm.num_states();
    if j < m {
        let e = fsm.spec_edges()[j as int];
        assert(e.0 < n && e.2 < n && fsm.choices_at(e.0) is Some);
        let stmts = statements_upto(fsm, m);
        assert(stmts[j as int] == statement_of(fsm, j as int));
        let tt = text_transition(fsm, j as int);
        lemma_find_decimal(n, e.0, 0);
        lemma_find_decimal(n, e.2, 0);
        let ch = choices_after(fsm, j);
        let c = fsm.choices_at(e.0)->Some_0;
        assert(tt.role == c.0@ && tt.action == c.1 && tt.label == e.1@);
        assert(c.0@ != fsm.spec_role()@);
        assert(add_error(fsm.spec_role()@, ch, e.0, tt) is None);
        let next = if ch[e.0 as int] is None {
            ch.update(e.0 as int, Some((tt.role, tt.action)))
        } else {
            ch
        };
        assert(leaves_among(fsm, e.0, j + 1));
        assert forall|s: int| 0 <= s < n implies #[trigger] next[s] == choices_after(fsm, j + 1)[s] by {
            if s != e.0 {
                if leaves_among(fsm, s as nat, j + 1) {
                    let i = choose|i: int| 0 <= i < j + 1 && (#[trigger] fsm.spec_edges()[i]).0 == s as nat;
                    assert(i != j);
                    assert(leaves_among(fsm, s as nat, j));
                }
                if leaves_among(fsm, s as nat, j) {
                    let i = choose|i: int| 0 <= i < j && (#[trigger] fsm.spec_edges()[i]).0 == s as nat;
                    assert(leaves_among(fsm, s as nat, j + 1));
                }
            }
        }
        assert(next =~= choices_after(fsm, j + 1));
        assert(added_after(fsm, j).push((e.0, tt.label, e.2)) =~= added_after(fsm, j + 1));
        lemma_install(fsm, j + 1);
    }
}

/// Reading back the DOT text that `Dot` writes of a state machine gives
/// that machine, and nothing else: the same role, the same states
/// offering the same choices, and the same edges in the same order.
/// It holds of every machine whose edges join its states, whose states
/// offer choices only where an edge leaves them and never to its own role
/// (what `add_state` and `add_transition` keep), whose role is a plain
/// name, whose transitions have roles and labels that are neither empty
/// nor hold `?`, `!`, quotes or backslashes, and that has no two edges
/// between the same states with the same label.
pub proof fn lemma_dot_read_back(fsm: Fsm<String, String>)
    requires
        fsm.wf(),
        fsm.talks_to_others(),
        fsm.choices_have_edges(),
        plain_name(fsm.spec_role()@),
        transitions_readable(fsm),
        edges_distinct(fsm),
    ensures
        parsed(dot_text(fsm)) == seq![Ok::<Machine, crate::parse::ErrorModel>(machine_of(fsm))],
{
    let n = fsm.num_states();
    let m = fsm.spec_edges().len();
    let text = dot_text(fsm);
    let t = tokens_from(text, 0);
    assert forall|i: int| 0 <= i < m implies quotable(#[trigger] edge_text(fsm, i)) && edge_text(fsm, i)
        != label_word() by {
        lemma_edge_text_readable(fsm, i);
    }
    lemma_dot_text_tokens(fsm);
    lemma_laid_out(t, fsm);
    let role = fsm.spec_role()@;
    assert(seq![TokenKind::Digraph][0] == TokenKind::Digraph);
    assert(seq![TokenKind::Identifier][0] == TokenKind::Identifier);
    assert(seq![TokenKind::LeftBrace][0] == TokenKind::LeftBrace);
    assert(names_upto(0) =~= Seq::<Seq<char>>::empty());
    assert(statements_upto(fsm, 0) =~= Seq::<Statement>::empty());
    lemma_parse_states(t, fsm, 0);
    lemma_parse_edges(t, fsm, 0);
    let end = (3 + 2 * n + 9 * m) as int;
    assert(t[end].kind == TokenKind::RightBrace);
    let k1 = seq![TokenKind::RightBrace, TokenKind::Identifier];
    assert(k1[0] == TokenKind::RightBrace);
    let names = names_upto(n);
    let stmts = statements_upto(fsm, m);
    assert(statements(t, end, names, stmts) == (
        Ok::<(Seq<Seq<char>>, Seq<Statement>), crate::parse::ErrorModel>((names, stmts)),
        end + 1,
    ));
    assert(statements(t, 3, Seq::empty(), Seq::empty()) == statements(t, end, names, stmts));
    let none = Seq::new(names.len(), |i: int| None::<(Seq<char>, Action)>);
    assert forall|s: int| 0 <= s < n implies !#[trigger] leaves_among(fsm, s as nat, 0) by {}
    assert(choices_after(fsm, 0) =~= none);
    assert(added_after(fsm, 0) =~= Seq::<(nat, Seq<char>, nat)>::empty());
    lemma_install(fsm, 0);
    let mac = machine_of(fsm);
    assert forall|s: int| 0 <= s < n implies #[trigger] choices_after(fsm, m)[s] == mac.choices[s] by {
        if fsm.choices_at(s as nat) is Some {
            let i = choose|i: int| 0 <= i < m && (#[trigger] fsm.spec_edges()[i]).0 == s as nat;
            assert(leaves_among(fsm, s as nat, m));
        } else if leaves_among(fsm, s as nat, m) {
            let i = choose|i: int| 0 <= i < m && (#[trigger] fsm.spec_edges()[i]).0 == s as nat;
            assert(fsm.choices_at(fsm.spec_edges()[i].0) is Some);
        }
    }
    assert(choices_after(fsm, m) =~= mac.choices);
    assert(added_after(fsm, m) =~= mac.edges);
    assert(machine(t, 0) == (Ok::<Machine, crate::parse::ErrorModel>(mac), end + 1));
    assert(t.len() == end + 1);
    assert(machines(t, end + 1) =~= Seq::<Result<Machine, crate::parse::ErrorModel>>::empty());
    assert(parsed(text) =~= seq![Ok::<Machine, crate::parse::ErrorModel>(mac)]);
}

} // verus!
