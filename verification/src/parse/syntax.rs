//! Caddyfile syntax: site blocks and directives, read from tokens.
use vstd::prelude::*;
use vstd::string::*;

use crate::error::{ParseError, ParseErrorView};
use crate::model::opt_text;
use crate::parse::lexer::{tokens_view, TokKind, Token, TokenKind, TokenView};
use crate::text::str_eq;

verus! {

/// A site block: its addresses and its directives.
#[derive(Debug)]
pub struct SiteBlock {
    pub addresses: Vec<String>,
    pub directives: Vec<Directive>,
}

/// A directive inside a site block.
#[derive(Debug)]
pub enum Directive {
    ReverseProxy { matcher: Option<String>, upstream: String },
    Handle { matcher: Option<String>, directives: Vec<Directive> },
    HandlePath { path: String, directives: Vec<Directive> },
    Rewrite { matcher: Option<String>, to: String },
    Redir { matcher: Option<String>, to: String, code: Option<String> },
    Other { name: String, args: Vec<String> },
}

/// The mathematical content of a [`Directive`].
pub enum DirectiveView {
    ReverseProxy { matcher: Option<Seq<char>>, upstream: Seq<char> },
    Handle { matcher: Option<Seq<char>>, directives: Seq<DirectiveView> },
    HandlePath { path: Seq<char>, directives: Seq<DirectiveView> },
    Rewrite { matcher: Option<Seq<char>>, to: Seq<char> },
    Redir { matcher: Option<Seq<char>>, to: Seq<char>, code: Option<Seq<char>> },
    Other { name: Seq<char>, args: Seq<Seq<char>> },
}

/// The mathematical content of a [`SiteBlock`].
pub struct SiteView {
    pub addresses: Seq<Seq<char>>,
    pub directives: Seq<DirectiveView>,
}

/// The characters of each string.
pub open spec fn strings_view(v: Seq<String>) -> Seq<Seq<char>> {
    v.map_values(|s: String| s@)
}

pub open spec fn directive_view(d: Directive) -> DirectiveView
    decreases d,
{
    match d {
        Directive::ReverseProxy { matcher, upstream } => DirectiveView::ReverseProxy {
            matcher: opt_text(matcher),
            upstream: upstream@,
        },
        Directive::Handle { matcher, directives } => DirectiveView::Handle {
            matcher: opt_text(matcher),
            directives: directives_view(directives@),
        },
        Directive::HandlePath { path, directives } => DirectiveView::HandlePath {
            path: path@,
            directives: directives_view(directives@),
        },
        Directive::Rewrite { matcher, to } => DirectiveView::Rewrite { matcher: opt_text(matcher), to: to@ },
        Directive::Redir { matcher, to, code } => DirectiveView::Redir {
            matcher: opt_text(matcher),
            to: to@,
            code: opt_text(code),
        },
        Directive::Other { name, args } => DirectiveView::Other { name: name@, args: strings_view(args@) },
    }
}

pub open spec fn directives_view(ds: Seq<Directive>) -> Seq<DirectiveView>
    decreases ds,
{
    if ds.len() == 0 {
        Seq::empty()
    } else {
        directives_view(ds.subrange(0, ds.len() - 1)).push(directive_view(ds[ds.len() - 1]))
    }
}

pub open spec fn site_view(b: SiteBlock) -> SiteView {
    SiteView { addresses: strings_view(b.addresses@), directives: directives_view(b.directives@) }
}

pub open spec fn sites_view(v: Seq<SiteBlock>) -> Seq<SiteView> {
    v.map_values(|b: SiteBlock| site_view(b))
}

// ---------------------------------------------------------------------------
// What the parser computes
// ---------------------------------------------------------------------------

/// Whether a matcher looks like a path (starts with `/` or `*`).
pub open spec fn looks_like_path(s: Seq<char>) -> bool {
    s.len() > 0 && (s[0] == '/' || s[0] == '*')
}

/// The position of the first token at or after `p` that is not a newline.
pub open spec fn skip_nl(t: Seq<TokenView>, p: int) -> int
    decreases t.len() - p,
{
    if 0 <= p < t.len() && t[p].kind is Newline {
        skip_nl(t, p + 1)
    } else {
        p
    }
}

/// The position of the first token at or after `p` that is not a word.
pub open spec fn words_end(t: Seq<TokenView>, p: int) -> int
    decreases t.len() - p,
{
    if 0 <= p < t.len() && t[p].kind is Word {
        words_end(t, p + 1)
    } else {
        p
    }
}

/// The text of a word token.
pub open spec fn word_text(k: TokenView) -> Seq<char> {
    match k.kind {
        TokKind::Word(w) => w,
        _ => Seq::empty(),
    }
}

/// The words of tokens `p..q`.
pub open spec fn words(t: Seq<TokenView>, p: int, q: int) -> Seq<Seq<char>> {
    t.subrange(p, q).map_values(|k: TokenView| word_text(k))
}

pub proof fn lemma_skip_nl(t: Seq<TokenView>, p: int)
    requires
        0 <= p <= t.len(),
    ensures
        p <= skip_nl(t, p) <= t.len(),
        skip_nl(t, p) < t.len() ==> !(t[skip_nl(t, p)].kind is Newline),
    decreases t.len() - p,
{
    if p < t.len() && t[p].kind is Newline {
        lemma_skip_nl(t, p + 1);
    }
}

pub proof fn lemma_words_end(t: Seq<TokenView>, p: int)
    requires
        0 <= p <= t.len(),
    ensures
        p <= words_end(t, p) <= t.len(),
        forall|k: int| p <= k < words_end(t, p) ==> #[trigger] t[k].kind is Word,
    decreases t.len() - p,
{
    if p < t.len() && t[p].kind is Word {
        lemma_words_end(t, p + 1);
    }
}

/// The first word, if any.
pub open spec fn first_word(args: Seq<Seq<char>>) -> Option<Seq<char>> {
    if args.len() > 0 {
        Some(args[0])
    } else {
        None
    }
}

/// An optional matcher and a target, from a directive's words: two or more
/// words give both, one word gives the target alone, none an empty target.
pub open spec fn matcher_and_target(args: Seq<Seq<char>>) -> (Option<Seq<char>>, Seq<char>) {
    if args.len() >= 2 {
        (Some(args[0]), args[1])
    } else if args.len() == 1 {
        (None, args[0])
    } else {
        (None, Seq::empty())
    }
}

/// The matcher, target and status code of a `redir` from its words.
pub open spec fn redir_parts(args: Seq<Seq<char>>) -> (Option<Seq<char>>, Seq<char>, Option<Seq<char>>) {
    if args.len() == 0 {
        (None, Seq::empty(), None)
    } else if args.len() == 1 {
        (None, args[0], None)
    } else if args.len() == 2 {
        if looks_like_path(args[0]) {
            (Some(args[0]), args[1], None)
        } else {
            (None, args[0], Some(args[1]))
        }
    } else {
        (Some(args[0]), args[1], Some(args[2]))
    }
}

/// The directive named `name` whose words start at `p`, and where reading stops.
///
/// `handle` and `handle_path` read a following `{ ... }` block of
/// directives; `reverse_proxy`, `handle` and `handle_path` also skip the
/// newlines after them.
pub open spec fn directive(t: Seq<TokenView>, p: int, name: Seq<char>) -> (DirectiveView, int)
    decreases t.len() - p, 0int,
{
    if p < 0 || p > t.len() {
        (DirectiveView::Other { name, args: Seq::empty() }, p)
    } else {
        proof {
            lemma_words_end(t, p);
        }
        let q = words_end(t, p);
        let args = words(t, p, q);
        if name == "reverse_proxy"@ {
            let (m, u) = matcher_and_target(args);
            (DirectiveView::ReverseProxy { matcher: m, upstream: u }, skip_nl(t, q))
        } else if name == "handle"@ || name == "handle_path"@ {
            proof {
                lemma_skip_nl(t, q);
            }
            let r = skip_nl(t, q);
            let (sub, e) = if r < t.len() && t[r].kind is Open {
                let (ds, s) = block(t, r + 1, Seq::empty());
                let s2 = if 0 <= s < t.len() && t[s].kind is Close {
                    s + 1
                } else {
                    s
                };
                (ds, skip_nl(t, s2))
            } else {
                (Seq::empty(), r)
            };
            if name == "handle"@ {
                (DirectiveView::Handle { matcher: first_word(args), directives: sub }, e)
            } else {
                (
                    DirectiveView::HandlePath {
                        path: if args.len() > 0 {
                            args[0]
                        } else {
                            Seq::empty()
                        },
                        directives: sub,
                    },
                    e,
                )
            }
        } else if name == "rewrite"@ {
            let (m, to) = matcher_and_target(args);
            (DirectiveView::Rewrite { matcher: m, to }, q)
        } else if name == "redir"@ {
            let (m, to, code) = redir_parts(args);
            (DirectiveView::Redir { matcher: m, to, code }, q)
        } else {
            (DirectiveView::Other { name, args }, q)
        }
    }
}

/// The directives of a block whose contents start at `p`, after `acc`, and
/// where reading stops (at a `}` or the end). Stray `{` are skipped.
pub open spec fn block(t: Seq<TokenView>, p: int, acc: Seq<DirectiveView>) -> (Seq<DirectiveView>, int)
    decreases t.len() - p, 1int,
{
    if p < 0 || p > t.len() {
        (acc, p)
    } else {
        proof {
            lemma_skip_nl(t, p);
        }
        let q = skip_nl(t, p);
        if q >= t.len() {
            (acc, q)
        } else {
            match t[q].kind {
                TokKind::Close => (acc, q),
                TokKind::Word(name) => {
                    let (d, r) = directive(t, q + 1, name);
                    if q < r <= t.len() {
                        block(t, r, acc.push(d))
                    } else {
                        (acc.push(d), r)
                    }
                },
                _ => block(t, q + 1, acc),
            }
        }
    }
}

/// Directive and block reading move forward and stay within the tokens.
pub proof fn lemma_progress(t: Seq<TokenView>, p: int, name: Seq<char>, acc: Seq<DirectiveView>)
    requires
        0 <= p <= t.len(),
    ensures
        p <= directive(t, p, name).1 <= t.len(),
        p <= block(t, p, acc).1 <= t.len(),
    decreases t.len() - p, 1int,
{
    lemma_words_end(t, p);
    let q = words_end(t, p);
    lemma_skip_nl(t, q);
    let r = skip_nl(t, q);
    if r < t.len() && t[r].kind is Open {
        lemma_progress(t, r + 1, name, Seq::empty());
        let s = block(t, r + 1, Seq::empty()).1;
        let s2 = if 0 <= s < t.len() && t[s].kind is Close {
            s + 1
        } else {
            s
        };
        lemma_skip_nl(t, s2);
    }
    lemma_block_progress(t, p, acc);
}

proof fn lemma_block_progress(t: Seq<TokenView>, p: int, acc: Seq<DirectiveView>)
    requires
        0 <= p <= t.len(),
    ensures
        p <= block(t, p, acc).1 <= t.len(),
    decreases t.len() - p, 0int,
{
    lemma_skip_nl(t, p);
    let q = skip_nl(t, p);
    if q < t.len() {
        match t[q].kind {
            TokKind::Close => {},
            TokKind::Word(name) => {
                lemma_progress(t, q + 1, name, acc);
                let (d, r) = directive(t, q + 1, name);
                if q < r <= t.len() {
                    lemma_block_progress(t, r, acc.push(d));
                }
            },
            _ => {
                lemma_block_progress(t, q + 1, acc);
            },
        }
    }
}

/// What the global options block skips: from `p`, with `depth` blocks open,
/// the position after the brace that closes the outermost one.
pub open spec fn skip_global(t: Seq<TokenView>, p: int, depth: int) -> Option<int>
    decreases t.len() - p,
{
    if depth <= 0 {
        Some(p)
    } else if p < 0 || p >= t.len() {
        None
    } else {
        match t[p].kind {
            TokKind::Open => skip_global(t, p + 1, depth + 1),
            TokKind::Close => skip_global(t, p + 1, depth - 1),
            _ => skip_global(t, p + 1, depth),
        }
    }
}

/// The site blocks from `p`, after `acc`: each is a line of addresses and an
/// optional `{ ... }` block of directives; reading ends at the end of the
/// tokens or where no address is found.
pub open spec fn sites(t: Seq<TokenView>, p: int, acc: Seq<SiteView>) -> Seq<SiteView>
    decreases t.len() - p,
{
    if p < 0 || p > t.len() {
        acc
    } else {
        proof {
            lemma_skip_nl(t, p);
        }
        let q = skip_nl(t, p);
        if q >= t.len() {
            acc
        } else {
            proof {
                lemma_words_end(t, q);
            }
            let e = words_end(t, q);
            if e == q {
                acc
            } else {
                let addrs = words(t, q, e);
                proof {
                    lemma_skip_nl(t, e);
                }
                let r = skip_nl(t, e);
                if r < t.len() && t[r].kind is Open {
                    let (ds, s) = block(t, r + 1, Seq::empty());
                    let s2 = if 0 <= s < t.len() && t[s].kind is Close {
                        s + 1
                    } else {
                        s
                    };
                    let site = SiteView { addresses: addrs, directives: ds };
                    if p < s2 <= t.len() {
                        sites(t, s2, acc.push(site))
                    } else {
                        acc.push(site)
                    }
                } else {
                    sites(t, r, acc.push(SiteView { addresses: addrs, directives: Seq::empty() }))
                }
            }
        }
    }
}

/// The site blocks of a token list, after skipping a leading global options
/// block; fails when that block is not closed.
pub open spec fn parse_sites(t: Seq<TokenView>) -> Result<Seq<SiteView>, int> {
    let p0 = skip_nl(t, 0);
    if 0 <= p0 < t.len() && t[p0].kind is Open {
        match skip_global(t, p0 + 1, 1) {
            Some(q) => Ok(sites(t, skip_nl(t, q), Seq::empty())),
            None => Err(t[p0].line),
        }
    } else {
        Ok(sites(t, p0, Seq::empty()))
    }
}

// ---------------------------------------------------------------------------
// The parser
// ---------------------------------------------------------------------------

fn is_newline(tok: &Token) -> (r: bool)
    ensures
        r == (tok@.kind is Newline),
{
    match tok.kind {
        TokenKind::Newline => true,
        _ => false,
    }
}

fn is_open(tok: &Token) -> (r: bool)
    ensures
        r == (tok@.kind is Open),
{
    match tok.kind {
        TokenKind::OpenBrace => true,
        _ => false,
    }
}

fn is_close(tok: &Token) -> (r: bool)
    ensures
        r == (tok@.kind is Close),
{
    match tok.kind {
        TokenKind::CloseBrace => true,
        _ => false,
    }
}

fn skip_newlines(tokens: &Vec<Token>, pos: usize) -> (r: usize)
    requires
        pos <= tokens@.len(),
    ensures
        r == skip_nl(tokens_view(tokens@), pos as int),
{
    let ghost t = tokens_view(tokens@);
    let mut p = pos;
    while p < tokens.len() && is_newline(&tokens[p])
        invariant
            pos <= p <= tokens@.len(),
            t == tokens_view(tokens@),
            skip_nl(t, p as int) == skip_nl(t, pos as int),
        decreases tokens@.len() - p,
    {
        p = p + 1;
    }
    p
}

/// Collect words until `{`, `}`, or newline.
fn collect_words(tokens: &Vec<Token>, pos: usize) -> (r: (Vec<String>, usize))
    requires
        pos <= tokens@.len(),
    ensures
        r.1 == words_end(tokens_view(tokens@), pos as int),
        strings_view(r.0@) == words(tokens_view(tokens@), pos as int, r.1 as int),
{
    let ghost t = tokens_view(tokens@);
    let mut words_found: Vec<String> = Vec::new();
    let mut p = pos;
    loop
        invariant
            pos <= p <= tokens@.len(),
            t == tokens_view(tokens@),
            words_end(t, p as int) == words_end(t, pos as int),
            strings_view(words_found@) == words(t, pos as int, p as int),
        ensures
            p == words_end(t, pos as int),
            strings_view(words_found@) == words(t, pos as int, p as int),
        decreases tokens@.len() - p,
    {
        if p >= tokens.len() {
            break;
        }
        match &tokens[p].kind {
            TokenKind::Word(w) => {
                let ghost before = words_found@;
                let wc = w.clone();
                assert(wc@ == w@);
                words_found.push(wc);
                assert(t[p as int] == tokens@[p as int]@);
                assert(word_text(t[p as int]) == w@);
                assert(words(t, pos as int, p + 1) =~= words(t, pos as int, p as int).push(
                    word_text(t[p as int]),
                ));
                assert(strings_view(words_found@) =~= strings_view(before).push(w@));
                p = p + 1;
            },
            _ => {
                assert(t[p as int] == tokens@[p as int]@);
                break;
            },
        }
    }
    (words_found, p)
}

fn first_arg(args: &Vec<String>) -> (r: Option<String>)
    ensures
        opt_text(r) == first_word(strings_view(args@)),
{
    if args.len() > 0 {
        Some(args[0].clone())
    } else {
        None
    }
}

/// Whether `s` starts with `/` or `*`.
pub fn exec_looks_like_path(s: &str) -> (r: bool)
    ensures
        r == looks_like_path(s@),
{
    if s.unicode_len() == 0 {
        return false;
    }
    let c = s.get_char(0);
    c == '/' || c == '*'
}

/// Reads a `{ ... }` block that may follow a `handle` or `handle_path` at `r`.
fn parse_sub_block(tokens: &Vec<Token>, r: usize) -> (res: (Vec<Directive>, usize))
    requires
        r <= tokens@.len(),
    ensures
        ({
            let t = tokens_view(tokens@);
            let exp = if r < t.len() && t[r as int].kind is Open {
                let (ds, s) = block(t, r + 1, Seq::empty());
                let s2 = if 0 <= s < t.len() && t[s].kind is Close {
                    s + 1
                } else {
                    s
                };
                (ds, skip_nl(t, s2))
            } else {
                (Seq::empty(), r as int)
            };
            directives_view(res.0@) == exp.0 && res.1 as int == exp.1
        }),
    decreases tokens@.len() - r, 1int,
{
    let ghost t = tokens_view(tokens@);
    if r < tokens.len() && is_open(&tokens[r]) {
        assert(t[r as int] == tokens@[r as int]@);
        let (dirs, s) = parse_block_contents(tokens, r + 1);
        proof {
            lemma_block_progress(t, r + 1, Seq::empty());
        }
        let mut s2 = s;
        if s < tokens.len() && is_close(&tokens[s]) {
            assert(t[s as int] == tokens@[s as int]@);
            s2 = s + 1;
        } else if s < tokens.len() {
            assert(t[s as int] == tokens@[s as int]@);
        }
        let e = skip_newlines(tokens, s2);
        (dirs, e)
    } else {
        if r < tokens.len() {
            assert(t[r as int] == tokens@[r as int]@);
        }
        assert(directives_view(Seq::<Directive>::empty()) =~= Seq::<DirectiveView>::empty());
        (Vec::new(), r)
    }
}

/// Reads the directive named `name` whose words start at `pos`.
fn parse_directive(tokens: &Vec<Token>, pos: usize, name: String) -> (r: (Directive, usize))
    requires
        pos <= tokens@.len(),
    ensures
        (directive_view(r.0), r.1 as int) == directive(tokens_view(tokens@), pos as int, name@),
    decreases tokens@.len() - pos, 2int,
{
    let ghost t = tokens_view(tokens@);
    let (args, q) = collect_words(tokens, pos);
    proof {
        lemma_words_end(t, pos as int);
    }
    let ghost a = strings_view(args@);
    if str_eq(name.as_str(), "reverse_proxy") {
        let (matcher, upstream) = if args.len() >= 2 {
            (Some(args[0].clone()), args[1].clone())
        } else if args.len() == 1 {
            (None, args[0].clone())
        } else {
            (None, String::new())
        };
        let e = skip_newlines(tokens, q);
        (Directive::ReverseProxy { matcher, upstream }, e)
    } else if str_eq(name.as_str(), "handle") {
        let matcher = first_arg(&args);
        proof {
            lemma_skip_nl(t, q as int);
        }
        let r = skip_newlines(tokens, q);
        let (sub, e) = parse_sub_block(tokens, r);
        (Directive::Handle { matcher, directives: sub }, e)
    } else if str_eq(name.as_str(), "handle_path") {
        let path = if args.len() > 0 {
            args[0].clone()
        } else {
            String::new()
        };
        proof {
            lemma_skip_nl(t, q as int);
        }
        let r = skip_newlines(tokens, q);
        let (sub, e) = parse_sub_block(tokens, r);
        (Directive::HandlePath { path, directives: sub }, e)
    } else if str_eq(name.as_str(), "rewrite") {
        let (matcher, to) = if args.len() >= 2 {
            (Some(args[0].clone()), args[1].clone())
        } else if args.len() == 1 {
            (None, args[0].clone())
        } else {
            (None, String::new())
        };
        (Directive::Rewrite { matcher, to }, q)
    } else if str_eq(name.as_str(), "redir") {
        let (matcher, to, code) = if args.len() == 0 {
            (None, String::new(), None)
        } else if args.len() == 1 {
            (None, args[0].clone(), None)
        } else if args.len() == 2 {
            if exec_looks_like_path(args[0].as_str()) {
                (Some(args[0].clone()), args[1].clone(), None)
            } else {
                (None, args[0].clone(), Some(args[1].clone()))
            }
        } else {
            (Some(args[0].clone()), args[1].clone(), Some(args[2].clone()))
        };
        (Directive::Redir { matcher, to, code }, q)
    } else {
        (Directive::Other { name, args }, q)
    }
}

/// Reads the directives of a block whose contents start at `pos`.
fn parse_block_contents(tokens: &Vec<Token>, pos: usize) -> (r: (Vec<Directive>, usize))
    requires
        pos <= tokens@.len(),
    ensures
        (directives_view(r.0@), r.1 as int) == block(tokens_view(tokens@), pos as int, Seq::empty()),
    decreases tokens@.len() - pos, 0int,
{
    let ghost t = tokens_view(tokens@);
    let mut directives: Vec<Directive> = Vec::new();
    let mut p = pos;
    assert(directives_view(directives@) =~= Seq::<DirectiveView>::empty());
    loop
        invariant
            pos <= p <= tokens@.len(),
            t == tokens_view(tokens@),
            block(t, p as int, directives_view(directives@)) == block(t, pos as int, Seq::empty()),
        decreases tokens@.len() - p,
    {
        let ghost dv = directives_view(directives@);
        proof {
            lemma_skip_nl(t, p as int);
        }
        let q = skip_newlines(tokens, p);
        if q >= tokens.len() {
            return (directives, q);
        }
        assert(t[q as int] == tokens@[q as int]@);
        match &tokens[q].kind {
            TokenKind::CloseBrace => {
                return (directives, q);
            },
            TokenKind::Word(name) => {
                let (d, r) = parse_directive(tokens, q + 1, name.clone());
                proof {
                    lemma_progress(t, q + 1, name@, dv);
                }
                let ghost one = directive_view(d);
                let ghost before = directives@;
                directives.push(d);
                proof {
                    let ds = directives@;
                    assert(ds.subrange(0, ds.len() - 1) =~= before);
                    assert(ds[ds.len() - 1] == d);
                    assert(directives_view(ds) == dv.push(one));
                }
                p = r;
            },
            _ => {
                p = q + 1;
            },
        }
    }
}

/// Reads the site blocks of a token list.
pub fn parse_tokens(tokens: &Vec<Token>) -> (r: Result<Vec<SiteBlock>, ParseError>)
    ensures
        match parse_sites(tokens_view(tokens@)) {
            Ok(s) => r matches Ok(v) && sites_view(v@) == s,
            Err(line) => r matches Err(e) && e@ == (ParseErrorView::Syntax {
                message: "unterminated global options block"@,
                line: line as u32,
            }),
        },
{
    let ghost t = tokens_view(tokens@);
    let mut pos = skip_newlines(tokens, 0);
    proof {
        lemma_skip_nl(t, 0);
    }
    if pos < tokens.len() && is_open(&tokens[pos]) {
        assert(t[pos as int] == tokens@[pos as int]@);
        let ghost p0 = pos;
        let open_line = tokens[pos].line;
        pos = pos + 1;
        let mut depth: usize = 1;
        while depth > 0
            invariant
                p0 < pos <= tokens@.len(),
                t == tokens_view(tokens@),
                p0 == skip_nl(t, 0),
                t[p0 as int].kind is Open,
                t[p0 as int].line == open_line,
                1 <= pos - p0,
                depth <= pos - p0,
                skip_global(t, pos as int, depth as int) == skip_global(t, p0 + 1, 1),
            decreases tokens@.len() - pos,
        {
            if pos >= tokens.len() {
                return Err(ParseError::syntax("unterminated global options block", open_line));
            }
            assert(t[pos as int] == tokens@[pos as int]@);
            match tokens[pos].kind {
                TokenKind::OpenBrace => {
                    depth = depth + 1;
                    pos = pos + 1;
                },
                TokenKind::CloseBrace => {
                    depth = depth - 1;
                    pos = pos + 1;
                },
                _ => {
                    pos = pos + 1;
                },
            }
        }
        proof {
            lemma_skip_nl(t, pos as int);
        }
        pos = skip_newlines(tokens, pos);
    } else if pos < tokens.len() {
        assert(t[pos as int] == tokens@[pos as int]@);
    }
    let ghost start = pos as int;
    let mut site_blocks: Vec<SiteBlock> = Vec::new();
    assert(sites_view(site_blocks@) =~= Seq::<SiteView>::empty());
    loop
        invariant
            pos <= tokens@.len(),
            t == tokens_view(tokens@),
            sites(t, pos as int, sites_view(site_blocks@)) == sites(t, start, Seq::empty()),
        ensures
            sites_view(site_blocks@) == sites(t, start, Seq::empty()),
        decreases tokens@.len() - pos,
    {
        let ghost sv = sites_view(site_blocks@);
        proof {
            lemma_skip_nl(t, pos as int);
        }
        let q = skip_newlines(tokens, pos);
        if q >= tokens.len() {
            break;
        }
        proof {
            lemma_words_end(t, q as int);
        }
        let (addresses, e) = collect_words(tokens, q);
        if e == q {
            break;
        }
        proof {
            lemma_skip_nl(t, e as int);
        }
        let r = skip_newlines(tokens, e);
        if r < tokens.len() && is_open(&tokens[r]) {
            assert(t[r as int] == tokens@[r as int]@);
            let (directives, s) = parse_block_contents(tokens, r + 1);
            proof {
                lemma_block_progress(t, r + 1, Seq::empty());
            }
            let mut s2 = s;
            if s < tokens.len() && is_close(&tokens[s]) {
                assert(t[s as int] == tokens@[s as int]@);
                s2 = s + 1;
            } else if s < tokens.len() {
                assert(t[s as int] == tokens@[s as int]@);
            }
            let block = SiteBlock { addresses, directives };
            let ghost one = site_view(block);
            site_blocks.push(block);
            assert(sites_view(site_blocks@) =~= sv.push(one));
            pos = s2;
        } else {
            if r < tokens.len() {
                assert(t[r as int] == tokens@[r as int]@);
            }
            let block = SiteBlock { addresses, directives: Vec::new() };
            let ghost one = site_view(block);
            assert(directives_view(Seq::<Directive>::empty()) =~= Seq::<DirectiveView>::empty());
            site_blocks.push(block);
            assert(sites_view(site_blocks@) =~= sv.push(one));
            pos = r;
        }
    }
    Ok(site_blocks)
}

} // verus!
