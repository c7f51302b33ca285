//! Caddyfile tokenizer: words, braces and newlines, each with its line.
use vstd::prelude::*;
use vstd::string::*;

use crate::error::{ParseError, ParseErrorView};
use crate::text::{
    lemma_newline_count_flat, lemma_newline_count_prefix, lemma_newline_count_step, newline_count,
    push_char, string_from_chars,
};

verus! {

/// The kind of a token.
#[derive(Debug, Clone, PartialEq)]
pub enum TokenKind {
    /// A word (identifier, path, address, etc.).
    Word(String),
    /// Opening brace `{`.
    OpenBrace,
    /// Closing brace `}`.
    CloseBrace,
    /// A newline (significant in Caddyfile — separates directives).
    Newline,
}

/// A token from the Caddyfile, with the 1-based line it starts on.
#[derive(Debug, Clone, PartialEq)]
pub struct Token {
    pub kind: TokenKind,
    pub line: u32,
}

/// The mathematical content of a [`TokenKind`].
pub enum TokKind {
    Word(Seq<char>),
    Open,
    Close,
    Newline,
}

/// The mathematical content of a [`Token`].
pub struct TokenView {
    pub kind: TokKind,
    pub line: int,
}

impl View for Token {
    type V = TokenView;

    open spec fn view(&self) -> TokenView {
        TokenView {
            kind: match self.kind {
                TokenKind::Word(w) => TokKind::Word(w@),
                TokenKind::OpenBrace => TokKind::Open,
                TokenKind::CloseBrace => TokKind::Close,
                TokenKind::Newline => TokKind::Newline,
            },
            line: self.line as int,
        }
    }
}

/// The mathematical content of a list of tokens.
pub open spec fn tokens_view(t: Seq<Token>) -> Seq<TokenView> {
    t.map_values(|k: Token| k@)
}

// ---------------------------------------------------------------------------
// What the tokenizer computes
// ---------------------------------------------------------------------------

/// Characters that end a word.
pub open spec fn is_word_break(c: char) -> bool {
    c == ' ' || c == '\t' || c == '\n' || c == '\r' || c == '#' || c == '"'
}

pub open spec fn is_brace(c: char) -> bool {
    c == '{' || c == '}'
}

/// 1 for a newline, else 0.
pub open spec fn newlines(c: char) -> int {
    if c == '\n' {
        1
    } else {
        0
    }
}

/// Where the word that starts at `start` ends, scanning from `p`: at a word
/// break, or at a brace that would be its first character; braces inside a
/// word (placeholders such as `{host}`) belong to it.
pub open spec fn word_end(s: Seq<char>, start: int, p: int) -> int
    decreases s.len() - p,
{
    if p < 0 || p >= s.len() {
        p
    } else if is_word_break(s[p]) || (is_brace(s[p]) && p == start) {
        p
    } else {
        word_end(s, start, p + 1)
    }
}

/// Where a comment that reaches position `p` ends: at the next newline (kept) or the end.
pub open spec fn comment_end(s: Seq<char>, p: int) -> int
    decreases s.len() - p,
{
    if p < 0 || p >= s.len() {
        p
    } else if s[p] == '\n' {
        p
    } else {
        comment_end(s, p + 1)
    }
}

/// The rest of a quoted string from position `p` (after the opening quote):
/// its text, the position after the closing quote, and the line there; or,
/// when the input ends first, the line at the end. A backslash takes the
/// next character literally.
pub open spec fn quoted(s: Seq<char>, p: int, line: int, acc: Seq<char>) -> Result<(Seq<char>, int, int), int>
    decreases s.len() - p,
{
    if p < 0 || p >= s.len() {
        Err(line)
    } else if s[p] == '"' {
        Ok((acc, p + 1, line))
    } else if s[p] == '\\' {
        if p + 1 < s.len() {
            quoted(s, p + 2, line + newlines(s[p + 1]), acc.push(s[p + 1]))
        } else {
            Err(line)
        }
    } else {
        quoted(s, p + 1, line + newlines(s[p]), acc.push(s[p]))
    }
}

pub proof fn lemma_word_end(s: Seq<char>, start: int, p: int)
    requires
        0 <= p <= s.len(),
    ensures
        p <= word_end(s, start, p) <= s.len(),
        forall|k: int|
            p <= k < word_end(s, start, p) ==> !is_word_break(#[trigger] s[k]) && !(is_brace(s[k])
                && k == start),
        word_end(s, start, p) < s.len() ==> is_word_break(s[word_end(s, start, p)]) || (is_brace(
            s[word_end(s, start, p)],
        ) && word_end(s, start, p) == start),
    decreases s.len() - p,
{
    if p < s.len() && !(is_word_break(s[p]) || (is_brace(s[p]) && p == start)) {
        lemma_word_end(s, start, p + 1);
    }
}

pub proof fn lemma_comment_end(s: Seq<char>, p: int)
    requires
        0 <= p <= s.len(),
    ensures
        p <= comment_end(s, p) <= s.len(),
        forall|k: int| p <= k < comment_end(s, p) ==> #[trigger] s[k] != '\n',
    decreases s.len() - p,
{
    if p < s.len() && s[p] != '\n' {
        lemma_comment_end(s, p + 1);
    }
}

pub proof fn lemma_quoted(s: Seq<char>, p: int, line: int, acc: Seq<char>)
    requires
        0 <= p <= s.len(),
    ensures
        quoted(s, p, line, acc) matches Ok((w, q, l)) ==> p < q <= s.len(),
    decreases s.len() - p,
{
    if p < s.len() && s[p] != '"' {
        if s[p] == '\\' {
            if p + 1 < s.len() {
                lemma_quoted(s, p + 2, line + newlines(s[p + 1]), acc.push(s[p + 1]));
            }
        } else {
            lemma_quoted(s, p + 1, line + newlines(s[p]), acc.push(s[p]));
        }
    }
}

/// The line a quoted string leaves off at: the line it started on, plus the
/// newlines it spans (to the end of the input where it is left open).
pub proof fn lemma_quoted_lines(s: Seq<char>, p: int, line: int, acc: Seq<char>)
    requires
        0 <= p <= s.len(),
    ensures
        quoted(s, p, line, acc) matches Ok((w, q, l)) ==> p < q <= s.len() && l == line
            + newline_count(s.take(q)) - newline_count(s.take(p)),
        quoted(s, p, line, acc) matches Err(l) ==> l == line + newline_count(s) - newline_count(
            s.take(p),
        ),
    decreases s.len() - p,
{
    if p == s.len() {
        assert(s.take(p) =~= s);
    } else {
        lemma_newline_count_step(s, p);
        if s[p] == '"' {
        } else if s[p] == '\\' {
            if p + 1 < s.len() {
                lemma_newline_count_step(s, p + 1);
                lemma_quoted_lines(s, p + 2, line + newlines(s[p + 1]), acc.push(s[p + 1]));
            } else {
                assert(s.take(p + 1) =~= s);
            }
        } else {
            lemma_quoted_lines(s, p + 1, line + newlines(s[p]), acc.push(s[p]));
        }
    }
}

/// A token of a kind at a line.
pub open spec fn tok(kind: TokKind, line: int) -> TokenView {
    TokenView { kind, line }
}

/// Whether the last token is a newline.
pub open spec fn ends_with_newline(toks: Seq<TokenView>) -> bool {
    toks.len() > 0 && toks.last().kind is Newline
}

/// The tokens of `s` from position `p`, on line `line`, after the tokens
/// `toks` already found; or the line where a quoted string is left open.
///
/// Spaces, tabs and carriage returns separate tokens; `#` starts a comment
/// that runs to the end of the line; a newline is a token unless the last
/// token already is one; `{` and `}` are tokens; `"` starts a quoted word;
/// anything else starts a word.
pub open spec fn lex(s: Seq<char>, p: int, line: int, toks: Seq<TokenView>) -> Result<Seq<TokenView>, int>
    decreases s.len() - p,
{
    if p < 0 || p >= s.len() {
        Ok(toks)
    } else {
        let c = s[p];
        if c == '\n' {
            lex(
                s,
                p + 1,
                line + 1,
                if ends_with_newline(toks) {
                    toks
                } else {
                    toks.push(tok(TokKind::Newline, line))
                },
            )
        } else if c == '\r' || c == ' ' || c == '\t' {
            lex(s, p + 1, line, toks)
        } else if c == '#' {
            proof {
                lemma_comment_end(s, p + 1);
            }
            lex(s, comment_end(s, p + 1), line, toks)
        } else if c == '{' {
            lex(s, p + 1, line, toks.push(tok(TokKind::Open, line)))
        } else if c == '}' {
            lex(s, p + 1, line, toks.push(tok(TokKind::Close, line)))
        } else if c == '"' {
            match quoted(s, p + 1, line, Seq::empty()) {
                Ok((w, q, l)) => if p < q <= s.len() {
                    lex(s, q, l, toks.push(tok(TokKind::Word(w), line)))
                } else {
                    Ok(toks)
                },
                Err(l) => Err(l),
            }
        } else {
            proof {
                lemma_word_end(s, p, p + 1);
            }
            let e = word_end(s, p, p + 1);
            lex(s, e, line, toks.push(tok(TokKind::Word(s.subrange(p, e)), line)))
        }
    }
}

/// The tokens of a whole input, or the line where a quoted string is left open.
pub open spec fn tokenize_spec(s: Seq<char>) -> Result<Seq<TokenView>, int> {
    lex(s, 0, 1, Seq::empty())
}

/// No two newline tokens follow each other, and the lines of the tokens
/// run from 1 upward, never down, to at most `max`.
pub open spec fn tokens_shaped(t: Seq<TokenView>, max: int) -> bool {
    &&& forall|i: int, j: int|
        0 <= i && j == i + 1 && j < t.len() ==> !((#[trigger] t[i]).kind is Newline && (
        #[trigger] t[j]).kind is Newline)
    &&& forall|i: int, j: int|
        0 <= i <= j < t.len() ==> 1 <= (#[trigger] t[i]).line <= (#[trigger] t[j]).line <= max
}

proof fn lemma_shaped_push(t: Seq<TokenView>, x: TokenView, max: int)
    requires
        tokens_shaped(t, max),
        1 <= x.line <= max,
        t.len() > 0 ==> t.last().line <= x.line,
        ends_with_newline(t) ==> !(x.kind is Newline),
    ensures
        tokens_shaped(t.push(x), max),
{
    let u = t.push(x);
    assert forall|i: int, j: int| 0 <= i && j == i + 1 && j < u.len() implies !((#[trigger] u[i]).kind is Newline && (
    #[trigger] u[j]).kind is Newline) by {
        if j < t.len() {
            assert(u[i] == t[i] && u[j] == t[j]);
        } else {
            assert(u[i] == t.last());
        }
    }
    assert forall|i: int, j: int| 0 <= i <= j < u.len() implies 1 <= (#[trigger] u[i]).line <= (
    #[trigger] u[j]).line <= max by {
        if j < t.len() {
            assert(u[i] == t[i] && u[j] == t[j]);
        } else if i < t.len() {
            assert(u[i] == t[i]);
            assert(t[i].line <= t[t.len() - 1].line);
        }
    }
}

proof fn lemma_shaped_wider(t: Seq<TokenView>, a: int, b: int)
    requires
        tokens_shaped(t, a),
        a <= b,
    ensures
        tokens_shaped(t, b),
{
}

/// What lexing from position `p` on line `line` gives keeps the tokens'
/// shape, and an open quoted string is reported on the input's last line.
proof fn lemma_lex_lines(s: Seq<char>, p: int, line: int, toks: Seq<TokenView>)
    requires
        0 <= p <= s.len(),
        line == 1 + newline_count(s.take(p)),
        tokens_shaped(toks, line),
    ensures
        lex(s, p, line, toks) matches Ok(t) ==> tokens_shaped(t, (1 + newline_count(s)) as int),
        lex(s, p, line, toks) matches Err(l) ==> l == 1 + newline_count(s),
    decreases s.len() - p,
{
    if p == s.len() {
        assert(s.take(p) =~= s);
    } else {
        let c = s[p];
        lemma_newline_count_step(s, p);
        if c == '\n' {
            if !ends_with_newline(toks) {
                lemma_shaped_push(toks, tok(TokKind::Newline, line), line);
            }
            let t2 = if ends_with_newline(toks) {
                toks
            } else {
                toks.push(tok(TokKind::Newline, line))
            };
            lemma_shaped_wider(t2, line, line + 1);
            lemma_lex_lines(s, p + 1, line + 1, t2);
        } else if c == '\r' || c == ' ' || c == '\t' {
            lemma_lex_lines(s, p + 1, line, toks);
        } else if c == '#' {
            lemma_comment_end(s, p + 1);
            lemma_newline_count_flat(s, p + 1, comment_end(s, p + 1));
            lemma_lex_lines(s, comment_end(s, p + 1), line, toks);
        } else if c == '{' {
            lemma_shaped_push(toks, tok(TokKind::Open, line), line);
            lemma_lex_lines(s, p + 1, line, toks.push(tok(TokKind::Open, line)));
        } else if c == '}' {
            lemma_shaped_push(toks, tok(TokKind::Close, line), line);
            lemma_lex_lines(s, p + 1, line, toks.push(tok(TokKind::Close, line)));
        } else if c == '"' {
            lemma_quoted_lines(s, p + 1, line, Seq::empty());
            match quoted(s, p + 1, line, Seq::empty()) {
                Ok((w, q, l)) => {
                    lemma_newline_count_prefix(s, q);
                    lemma_newline_count_prefix(s.take(q), p + 1);
                    assert(s.take(q).take(p + 1) =~= s.take(p + 1));
                    lemma_shaped_push(toks, tok(TokKind::Word(w), line), line);
                    lemma_shaped_wider(toks.push(tok(TokKind::Word(w), line)), line, l);
                    lemma_lex_lines(s, q, l, toks.push(tok(TokKind::Word(w), line)));
                },
                Err(l) => {},
            }
        } else {
            lemma_word_end(s, p, p + 1);
            let e = word_end(s, p, p + 1);
            lemma_newline_count_flat(s, p + 1, e);
            lemma_shaped_push(toks, tok(TokKind::Word(s.subrange(p, e)), line), line);
            lemma_lex_lines(s, e, line, toks.push(tok(TokKind::Word(s.subrange(p, e)), line)));
        }
    }
}

/// Where lexing from position `p` puts its tokens' first characters: `st`
/// for the tokens found so far, then one position per token found after.
pub open spec fn lex_starts(s: Seq<char>, p: int, line: int, toks: Seq<TokenView>, st: Seq<int>) -> Seq<int>
    decreases s.len() - p,
{
    if p < 0 || p >= s.len() {
        st
    } else {
        let c = s[p];
        if c == '\n' {
            if ends_with_newline(toks) {
                lex_starts(s, p + 1, line + 1, toks, st)
            } else {
                lex_starts(s, p + 1, line + 1, toks.push(tok(TokKind::Newline, line)), st.push(p))
            }
        } else if c == '\r' || c == ' ' || c == '\t' {
            lex_starts(s, p + 1, line, toks, st)
        } else if c == '#' {
            proof {
                lemma_comment_end(s, p + 1);
            }
            lex_starts(s, comment_end(s, p + 1), line, toks, st)
        } else if c == '{' {
            lex_starts(s, p + 1, line, toks.push(tok(TokKind::Open, line)), st.push(p))
        } else if c == '}' {
            lex_starts(s, p + 1, line, toks.push(tok(TokKind::Close, line)), st.push(p))
        } else if c == '"' {
            match quoted(s, p + 1, line, Seq::empty()) {
                Ok((w, q, l)) => if p < q <= s.len() {
                    lex_starts(s, q, l, toks.push(tok(TokKind::Word(w), line)), st.push(p))
                } else {
                    st
                },
                Err(_) => st,
            }
        } else {
            proof {
                lemma_word_end(s, p, p + 1);
            }
            let e = word_end(s, p, p + 1);
            lex_starts(s, e, line, toks.push(tok(TokKind::Word(s.subrange(p, e)), line)), st.push(p))
        }
    }
}

/// The positions of the first characters of the tokens of `s`.
pub open spec fn token_starts(s: Seq<char>) -> Seq<int> {
    lex_starts(s, 0, 1, Seq::empty(), Seq::empty())
}

/// Whether `c` can be the first character of a token of this kind.
pub open spec fn starts_kind(c: char, k: TokKind) -> bool {
    match k {
        TokKind::Newline => c == '\n',
        TokKind::Open => c == '{',
        TokKind::Close => c == '}',
        TokKind::Word(_) => !(c == ' ' || c == '\t' || c == '\n' || c == '\r' || c == '#'),
    }
}

/// Whether `c` ends an unquoted word: a space, tab, carriage return,
/// newline, `#` or `"`.
pub open spec fn ends_word(c: char) -> bool {
    c == ' ' || c == '\t' || c == '\r' || c == '\n' || c == '#' || c == '"'
}

/// `w` is the unquoted word of `s` at `p`: the longest nonempty run of
/// characters from `p` without a space, tab, carriage return, newline, `#` or
/// `"`.
pub open spec fn unquoted_word_at(s: Seq<char>, p: int, w: Seq<char>) -> bool {
    &&& w.len() > 0
    &&& 0 <= p
    &&& p + w.len() <= s.len()
    &&& s.subrange(p, p + w.len()) == w
    &&& forall|k: int| 0 <= k < w.len() ==> !ends_word(#[trigger] w[k])
    &&& p + w.len() == s.len() || ends_word(s[p + w.len()])
}

/// Positions `st`, before `bound`, rising, one per token of `t`: each holds a
/// first character fit for its token, the token's line is 1 plus the
/// newlines before that position, and a word not started by a quote is the
/// unquoted word there.
pub open spec fn starts_ok(s: Seq<char>, t: Seq<TokenView>, st: Seq<int>, bound: int) -> bool {
    &&& st.len() == t.len()
    &&& forall|i: int|
        0 <= i < t.len() ==> {
            &&& 0 <= #[trigger] st[i] < bound
            &&& bound <= s.len()
            &&& t[i].line == 1 + newline_count(s.take(st[i]))
            &&& starts_kind(s[st[i]], t[i].kind)
            &&& (s[st[i]] != '"' ==> (t[i].kind matches TokKind::Word(w) ==> unquoted_word_at(s, st[i], w)))
        }
    &&& forall|i: int, j: int| 0 <= i < j < t.len() ==> #[trigger] st[i] < #[trigger] st[j]
}

proof fn lemma_starts_push(s: Seq<char>, t: Seq<TokenView>, st: Seq<int>, bound: int, x: TokenView, p: int, nb: int)
    requires
        starts_ok(s, t, st, bound),
        bound <= p + 1 <= nb <= s.len(),
        0 <= p < s.len(),
        bound <= p,
        x.line == 1 + newline_count(s.take(p)),
        starts_kind(s[p], x.kind),
        s[p] != '"' ==> (x.kind matches TokKind::Word(w) ==> unquoted_word_at(s, p, w)),
    ensures
        starts_ok(s, t.push(x), st.push(p), nb),
{
    let t2 = t.push(x);
    let s2 = st.push(p);
    assert forall|i: int| 0 <= i < t2.len() implies {
        &&& 0 <= #[trigger] s2[i] < nb
        &&& nb <= s.len()
        &&& t2[i].line == 1 + newline_count(s.take(s2[i]))
        &&& starts_kind(s[s2[i]], t2[i].kind)
        &&& (s[s2[i]] != '"' ==> (t2[i].kind matches TokKind::Word(w) ==> unquoted_word_at(s, s2[i], w)))
    } by {
        if i < t.len() {
            assert(s2[i] == st[i] && t2[i] == t[i]);
        }
    }
    assert forall|i: int, j: int| 0 <= i < j < t2.len() implies #[trigger] s2[i] < #[trigger] s2[j] by {
        if j < t.len() {
            assert(s2[i] == st[i] && s2[j] == st[j]);
        } else {
            assert(s2[i] == st[i]);
        }
    }
}

proof fn lemma_starts_wider(s: Seq<char>, t: Seq<TokenView>, st: Seq<int>, a: int, b: int)
    requires
        starts_ok(s, t, st, a),
        a <= b <= s.len(),
    ensures
        starts_ok(s, t, st, b),
{
}

proof fn lemma_lex_starts(s: Seq<char>, p: int, line: int, toks: Seq<TokenView>, st: Seq<int>)
    requires
        0 <= p <= s.len(),
        line == 1 + newline_count(s.take(p)),
        starts_ok(s, toks, st, p),
    ensures
        lex(s, p, line, toks) matches Ok(t) ==> starts_ok(s, t, lex_starts(s, p, line, toks, st), s.len() as int),
    decreases s.len() - p,
{
    if p < s.len() {
        let c = s[p];
        lemma_newline_count_step(s, p);
        if c == '\n' {
            if ends_with_newline(toks) {
                lemma_starts_wider(s, toks, st, p, p + 1);
                lemma_lex_starts(s, p + 1, line + 1, toks, st);
            } else {
                lemma_starts_push(s, toks, st, p, tok(TokKind::Newline, line), p, p + 1);
                lemma_lex_starts(s, p + 1, line + 1, toks.push(tok(TokKind::Newline, line)), st.push(p));
            }
        } else if c == '\r' || c == ' ' || c == '\t' {
            lemma_starts_wider(s, toks, st, p, p + 1);
            lemma_lex_starts(s, p + 1, line, toks, st);
        } else if c == '#' {
            lemma_comment_end(s, p + 1);
            lemma_newline_count_flat(s, p + 1, comment_end(s, p + 1));
            lemma_starts_wider(s, toks, st, p, comment_end(s, p + 1));
            lemma_lex_starts(s, comment_end(s, p + 1), line, toks, st);
        } else if c == '{' {
            lemma_starts_push(s, toks, st, p, tok(TokKind::Open, line), p, p + 1);
            lemma_lex_starts(s, p + 1, line, toks.push(tok(TokKind::Open, line)), st.push(p));
        } else if c == '}' {
            lemma_starts_push(s, toks, st, p, tok(TokKind::Close, line), p, p + 1);
            lemma_lex_starts(s, p + 1, line, toks.push(tok(TokKind::Close, line)), st.push(p));
        } else if c == '"' {
            lemma_quoted_lines(s, p + 1, line, Seq::empty());
            match quoted(s, p + 1, line, Seq::empty()) {
                Ok((w, q, l)) => {
                    lemma_starts_push(s, toks, st, p, tok(TokKind::Word(w), line), p, q);
                    lemma_lex_starts(s, q, l, toks.push(tok(TokKind::Word(w), line)), st.push(p));
                },
                Err(_) => {},
            }
        } else {
            lemma_word_end(s, p, p + 1);
            let e = word_end(s, p, p + 1);
            lemma_newline_count_flat(s, p + 1, e);
            let w = s.subrange(p, e);
            assert forall|k: int| 0 <= k < w.len() implies !ends_word(#[trigger] w[k]) by {
                if k > 0 {
                    assert(w[k] == s[p + k]);
                }
            }
            assert(s.subrange(p, p + w.len()) == w);
            lemma_starts_push(s, toks, st, p, tok(TokKind::Word(w), line), p, e);
            lemma_lex_starts(s, e, line, toks.push(tok(TokKind::Word(s.subrange(p, e)), line)), st.push(p));
        }
    }
}

/// Each token of the tokenizer begins at its position in `token_starts`, at
/// a character fit for its kind, the positions rise, and each token's line is
/// 1 plus the newlines before its first character. A word not started by a
/// quote is the longest run of the input there without a space, tab,
/// carriage return, newline, `#` or `"`: no such word holds whitespace.
pub proof fn lemma_token_starts(s: Seq<char>)
    ensures
        tokenize_spec(s) matches Ok(t) ==> starts_ok(s, t, token_starts(s), s.len() as int),
{
    assert(s.take(0) =~= Seq::<char>::empty());
    lemma_lex_starts(s, 0, 1, Seq::empty(), Seq::empty());
}

/// The tokenizer never gives two newline tokens in a row; the lines of its
/// tokens start at 1 and never go down, up to the input's last line; and a
/// quoted string left open is reported on the input's last line, 1 plus the
/// number of newlines.
pub proof fn lemma_tokenize_lines(s: Seq<char>)
    ensures
        tokenize_spec(s) matches Ok(t) ==> tokens_shaped(t, (1 + newline_count(s)) as int),
        tokenize_spec(s) matches Err(l) ==> l == 1 + newline_count(s),
{
    assert(s.take(0) =~= Seq::<char>::empty());
    lemma_lex_lines(s, 0, 1, Seq::empty());
}

// ---------------------------------------------------------------------------
// The tokenizer
// ---------------------------------------------------------------------------

/// Collect a word, including embedded `{placeholder}` braces; returns where it ends.
fn collect_word(chars: &Vec<char>, start: usize) -> (end: usize)
    requires
        start <= chars@.len(),
    ensures
        end as int == word_end(chars@, start as int, start as int),
{
    let mut pos = start;
    while pos < chars.len() && !(chars[pos] == ' ' || chars[pos] == '\t' || chars[pos] == '\n'
        || chars[pos] == '\r' || chars[pos] == '#' || chars[pos] == '"') && !((chars[pos] == '{'
        || chars[pos] == '}') && pos == start)
        invariant
            start <= pos <= chars@.len(),
            word_end(chars@, start as int, pos as int) == word_end(
                chars@,
                start as int,
                start as int,
            ),
        decreases chars@.len() - pos,
    {
        pos = pos + 1;
    }
    pos
}

/// The quoted string whose text starts at `pos`, with the line reached after it.
fn collect_quoted_string(chars: &Vec<char>, pos: usize, line: u32) -> (r: Result<(String, usize, u32), u32>)
    requires
        pos <= chars@.len(),
        line + newline_count(chars@) - newline_count(chars@.take(pos as int)) <= u32::MAX,
    ensures
        match quoted(chars@, pos as int, line as int, Seq::empty()) {
            Ok((w, q, l)) => r matches Ok((rw, rq, rl)) && rw@ == w && rq == q && rl == l,
            Err(l) => r matches Err(rl) && rl == l,
        },
        r matches Ok((_, rq, rl)) ==> rq <= chars@.len() && rl == line + newline_count(
            chars@.take(rq as int),
        ) - newline_count(chars@.take(pos as int)),
        r matches Err(rl) ==> rl == line + newline_count(chars@) - newline_count(
            chars@.take(pos as int),
        ),
{
    let mut result = String::new();
    let mut p = pos;
    let mut ln = line;
    proof {
        lemma_newline_count_prefix(chars@, pos as int);
    }
    while p < chars.len()
        invariant
            pos <= p <= chars@.len(),
            line + newline_count(chars@) - newline_count(chars@.take(pos as int)) <= u32::MAX,
            ln == line + newline_count(chars@.take(p as int)) - newline_count(chars@.take(pos as int)),
            quoted(chars@, p as int, ln as int, result@) == quoted(
                chars@,
                pos as int,
                line as int,
                Seq::empty(),
            ),
        decreases chars@.len() - p,
    {
        let ch = chars[p];
        proof {
            lemma_newline_count_step(chars@, p as int);
            lemma_newline_count_prefix(chars@, p + 1);
        }
        if ch == '"' {
            return Ok((result, p + 1, ln));
        } else if ch == '\\' {
            p = p + 1;
            if p < chars.len() {
                let escaped = chars[p];
                proof {
                    lemma_newline_count_step(chars@, p as int);
                    lemma_newline_count_prefix(chars@, p + 1);
                }
                push_char(&mut result, escaped);
                if escaped == '\n' {
                    ln = ln + 1;
                }
                p = p + 1;
            } else {
                assert(chars@.take(p as int) =~= chars@);
                return Err(ln);
            }
        } else {
            push_char(&mut result, ch);
            if ch == '\n' {
                ln = ln + 1;
            }
            p = p + 1;
        }
    }
    assert(chars@.take(p as int) =~= chars@);
    Err(ln)
}

/// Splits `chars` into tokens.
///
/// Lines are counted in a `u32`, so the input must hold fewer than
/// `u32::MAX` newlines.
pub fn tokenize(chars: &Vec<char>) -> (r: Result<Vec<Token>, ParseError>)
    requires
        newline_count(chars@) < u32::MAX,
    ensures
        match tokenize_spec(chars@) {
            Ok(t) => r matches Ok(rt) && tokens_view(rt@) == t,
            Err(l) => r matches Err(e) && e@ == (ParseErrorView::Syntax {
                message: "unterminated quoted string"@,
                line: l as u32,
            }),
        },
{
    let mut tokens: Vec<Token> = Vec::new();
    let mut pos: usize = 0;
    let mut line: u32 = 1;
    assert(tokens_view(tokens@) =~= Seq::<TokenView>::empty());
    assert(chars@.take(0) =~= Seq::<char>::empty());
    while pos < chars.len()
        invariant
            pos <= chars@.len(),
            newline_count(chars@) < u32::MAX,
            line == 1 + newline_count(chars@.take(pos as int)),
            lex(chars@, pos as int, line as int, tokens_view(tokens@)) == tokenize_spec(chars@),
        decreases chars@.len() - pos,
    {
        let ghost tv = tokens_view(tokens@);
        let tline = line;
        let ch = chars[pos];
        proof {
            lemma_newline_count_step(chars@, pos as int);
            lemma_newline_count_prefix(chars@, pos + 1);
        }
        if ch == '\n' {
            pos = pos + 1;
            line = line + 1;
            let last_is_newline = if tokens.len() > 0 {
                match tokens[tokens.len() - 1].kind {
                    TokenKind::Newline => true,
                    _ => false,
                }
            } else {
                false
            };
            assert(last_is_newline == ends_with_newline(tv));
            if !last_is_newline {
                tokens.push(Token { kind: TokenKind::Newline, line: tline });
                assert(tokens_view(tokens@) =~= tv.push(tok(TokKind::Newline, tline as int)));
            }
        } else if ch == '\r' || ch == ' ' || ch == '\t' {
            pos = pos + 1;
        } else if ch == '#' {
            // Comment: skip to end of line
            pos = pos + 1;
            let ghost after_hash = pos as int;
            proof {
                lemma_comment_end(chars@, pos as int);
            }
            while pos < chars.len() && chars[pos] != '\n'
                invariant
                    after_hash <= pos <= chars@.len(),
                    comment_end(chars@, pos as int) == comment_end(chars@, after_hash),
                    forall|k: int| after_hash <= k < pos ==> #[trigger] chars@[k] != '\n',
                decreases chars@.len() - pos,
            {
                pos = pos + 1;
            }
            proof {
                lemma_newline_count_flat(chars@, after_hash, pos as int);
            }
        } else if ch == '{' {
            pos = pos + 1;
            tokens.push(Token { kind: TokenKind::OpenBrace, line: tline });
            assert(tokens_view(tokens@) =~= tv.push(tok(TokKind::Open, tline as int)));
        } else if ch == '}' {
            pos = pos + 1;
            tokens.push(Token { kind: TokenKind::CloseBrace, line: tline });
            assert(tokens_view(tokens@) =~= tv.push(tok(TokKind::Close, tline as int)));
        } else if ch == '"' {
            proof {
                lemma_quoted(chars@, pos + 1, line as int, Seq::empty());
            }
            match collect_quoted_string(chars, pos + 1, line) {
                Ok((word, next, next_line)) => {
                    let ghost w = word@;
                    tokens.push(Token { kind: TokenKind::Word(word), line: tline });
                    assert(tokens_view(tokens@) =~= tv.push(tok(TokKind::Word(w), tline as int)));
                    pos = next;
                    line = next_line;
                },
                Err(l) => {
                    return Err(ParseError::syntax("unterminated quoted string", l));
                },
            }
        } else {
            let end = collect_word(chars, pos);
            proof {
                lemma_word_end(chars@, pos as int, pos + 1);
                assert(word_end(chars@, pos as int, pos as int) == word_end(chars@, pos as int, pos + 1));
                lemma_newline_count_flat(chars@, pos + 1, end as int);
            }
            let word = string_from_chars(chars, pos, end);
            let ghost w = word@;
            tokens.push(Token { kind: TokenKind::Word(word), line: tline });
            assert(tokens_view(tokens@) =~= tv.push(tok(TokKind::Word(w), tline as int)));
            pos = end;
        }
    }
    Ok(tokens)
}

} // verus!
