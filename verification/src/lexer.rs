//! The character-level lexer: turns one line of text, together with carried
//! multi-line-literal state, into an ordered sequence of lexemes.

use crate::text::{chars_eq_str, chars_to_string, is_ws, is_ws_char, line_chars};
use vstd::prelude::*;

verus! {

/// The abstract value of a `Lexeme`: the same shape over character sequences.
pub enum LexemeV {
    Iri(Seq<char>),
    PrefixedIri(Seq<char>),
    A,
    Prefix(Seq<char>, Seq<char>),
    Base(Seq<char>),
    Literal(Seq<char>),
    LangLiteral(Seq<char>, Seq<char>),
    DataTypeLiteral(Seq<char>, Seq<char>),
    MultilineLiteral(Seq<char>),
    EndToken,
    PredicateListToken,
    ObjectListToken,
    Comment(Seq<char>),
    Unknown(Seq<char>),
}

/// One token of the Turtle-like surface syntax.
#[derive(PartialEq, Eq, Debug)]
pub enum Lexeme {
    /// `<http://example.com>`
    Iri(String),
    /// `ex:foo`
    PrefixedIri(String),
    /// the bare keyword `a`, shorthand for `rdf:type`
    A,
    /// `@prefix` / `PREFIX`: label with its trailing colon, then the namespace
    Prefix(String, String),
    /// `@base` / `BASE`
    Base(String),
    /// `"literal"`
    Literal(String),
    /// `"literal"@en`
    LangLiteral(String, String),
    /// `"literal"^^<iri>`
    DataTypeLiteral(String, String),
    /// `"""literal"""`
    MultilineLiteral(String),
    /// `.`
    EndToken,
    /// `;`
    PredicateListToken,
    /// `,`
    ObjectListToken,
    /// `# comment`
    Comment(String),
    /// anything else, barewords included
    Unknown(String),
}

impl View for Lexeme {
    type V = LexemeV;

    open spec fn view(&self) -> LexemeV {
        match self {
            Lexeme::Iri(t) => LexemeV::Iri(t@),
            Lexeme::PrefixedIri(t) => LexemeV::PrefixedIri(t@),
            Lexeme::A => LexemeV::A,
            Lexeme::Prefix(l, n) => LexemeV::Prefix(l@, n@),
            Lexeme::Base(t) => LexemeV::Base(t@),
            Lexeme::Literal(t) => LexemeV::Literal(t@),
            Lexeme::LangLiteral(t, g) => LexemeV::LangLiteral(t@, g@),
            Lexeme::DataTypeLiteral(t, d) => LexemeV::DataTypeLiteral(t@, d@),
            Lexeme::MultilineLiteral(t) => LexemeV::MultilineLiteral(t@),
            Lexeme::EndToken => LexemeV::EndToken,
            Lexeme::PredicateListToken => LexemeV::PredicateListToken,
            Lexeme::ObjectListToken => LexemeV::ObjectListToken,
            Lexeme::Comment(t) => LexemeV::Comment(t@),
            Lexeme::Unknown(t) => LexemeV::Unknown(t@),
        }
    }
}

/// The abstract value of a sequence of lexemes.
pub open spec fn lexemes_view(v: Seq<Lexeme>) -> Seq<LexemeV> {
    v.map_values(|l: Lexeme| l@)
}

proof fn lemma_lexemes_view_push(ts: Seq<Lexeme>, l: Lexeme)
    ensures
        lexemes_view(ts.push(l)) == lexemes_view(ts).push(l@),
{
    assert(lexemes_view(ts.push(l)) =~= lexemes_view(ts).push(l@));
}

/// The abstract value of the lexer's cross-line state.
pub struct LexerCtxV {
    /// whether a triple-quoted literal is still open
    pub in_multiline: bool,
    /// the text of each line of the open literal read so far
    pub fragments: Seq<Seq<char>>,
}

/// Cross-line lexer state: whether a triple-quoted literal is open, and the
/// line fragments collected for it so far. One instance serves one document.
pub struct LexerContext {
    pub parse_multiline: bool,
    pub parsed_multilines: Vec<String>,
}

impl View for LexerContext {
    type V = LexerCtxV;

    open spec fn view(&self) -> LexerCtxV {
        LexerCtxV { in_multiline: self.parse_multiline, fragments: self.parsed_multilines.deep_view() }
    }
}

impl LexerContext {
    /// A fresh state: no multi-line literal open, no fragments.
    pub fn new() -> (c: LexerContext)
        ensures
            c@ == (LexerCtxV { in_multiline: false, fragments: Seq::<Seq<char>>::empty() }),
    {
        let c = LexerContext { parse_multiline: false, parsed_multilines: Vec::new() };
        proof {
            assert(c@.fragments =~= Seq::<Seq<char>>::empty());
        }
        c
    }
}

/// The position of the first non-whitespace character at or after `i`.
pub open spec fn spec_skip_ws(s: Seq<char>, i: int) -> int
    decreases s.len() - i,
{
    if 0 <= i < s.len() && is_ws_char(s[i]) {
        spec_skip_ws(s, i + 1)
    } else {
        i
    }
}

/// The bareword starting at `i`: everything up to a space or comma.
pub open spec fn spec_read_token(s: Seq<char>, i: int) -> Seq<char>
    decreases s.len() - i,
{
    if 0 <= i < s.len() && !(s[i] == ' ' || s[i] == ',') {
        seq![s[i]] + spec_read_token(s, i + 1)
    } else {
        Seq::empty()
    }
}

/// The prefix label starting at `i`: everything up to and including a colon;
/// the flag says whether the colon was found before the line ended.
pub open spec fn spec_read_prefix(s: Seq<char>, i: int) -> (Seq<char>, bool)
    decreases s.len() - i,
{
    if 0 <= i < s.len() {
        if s[i] == ':' {
            (seq![':'], true)
        } else {
            let r = spec_read_prefix(s, i + 1);
            (seq![s[i]] + r.0, r.1)
        }
    } else {
        (Seq::empty(), false)
    }
}

/// The IRI scan from `i`: angle brackets are consumed but not kept, every
/// other character up to the closing `>` is; without both delimiters the
/// collected text is an `Unknown`. Returns the lexeme and the position after.
pub open spec fn spec_read_iri_from(s: Seq<char>, i: int, acc: Seq<char>, found_start: bool) -> (
    LexemeV,
    int,
)
    decreases s.len() - i,
{
    if 0 <= i < s.len() {
        if s[i] == '<' {
            spec_read_iri_from(s, i + 1, acc, true)
        } else if s[i] == '>' {
            (if found_start { LexemeV::Iri(acc) } else { LexemeV::Unknown(acc) }, i + 1)
        } else {
            spec_read_iri_from(s, i + 1, acc.push(s[i]), found_start)
        }
    } else {
        (LexemeV::Unknown(acc), i)
    }
}

pub open spec fn spec_read_iri(s: Seq<char>, i: int) -> (LexemeV, int) {
    spec_read_iri_from(s, i, Seq::empty(), false)
}

/// The quoted literal body scan: a quote ends the body unless the character
/// just before it was a backslash; backslashes themselves pass through. The
/// flag is false when the line ends before the closing quote, and the body
/// collected so far is still handed back.
pub open spec fn spec_read_lit_from(s: Seq<char>, i: int, acc: Seq<char>, escaped: bool) -> (
    Seq<char>,
    bool,
    int,
)
    decreases s.len() - i,
{
    if 0 <= i < s.len() {
        if s[i] == '"' && !escaped {
            (acc, true, i + 1)
        } else if s[i] == '\\' {
            spec_read_lit_from(s, i + 1, acc.push('\\'), i + 1 < s.len() && s[i + 1] == '"')
        } else {
            spec_read_lit_from(s, i + 1, acc.push(s[i]), false)
        }
    } else {
        (acc, false, i)
    }
}

/// The literal body after the opening quote at `i`.
pub open spec fn spec_read_literal_value(s: Seq<char>, i: int) -> (Seq<char>, bool, int) {
    spec_read_lit_from(s, i + 1, Seq::empty(), false)
}

/// The multi-line fragment scan: collects characters until three consecutive
/// quotes (dropped from the text, flag true) or the end of the line (flag
/// false). `consec` counts the quotes collected just before `i`.
pub open spec fn spec_multiline_from(s: Seq<char>, i: int, acc: Seq<char>, consec: int) -> (
    Seq<char>,
    bool,
    int,
)
    decreases s.len() - i,
{
    if 0 <= i < s.len() {
        if s[i] == '"' {
            if consec == 2 {
                (acc.take(acc.len() - 2), true, i + 1)
            } else {
                spec_multiline_from(s, i + 1, acc.push('"'), consec + 1)
            }
        } else {
            spec_multiline_from(s, i + 1, acc.push(s[i]), 0)
        }
    } else {
        (acc, false, i)
    }
}

/// The multi-line fragment starting at `i`: every character from `i` on
/// belongs to the literal until a closing triple-quote.
pub open spec fn spec_read_multiline_part(s: Seq<char>, i: int) -> (Seq<char>, bool, int) {
    spec_multiline_from(s, i, Seq::empty(), 0)
}

/// The comment text: everything after the `#` at `i`.
pub open spec fn spec_read_comment(s: Seq<char>, i: int) -> Seq<char> {
    if 0 <= i + 1 <= s.len() {
        s.subrange(i + 1, s.len() as int)
    } else {
        Seq::empty()
    }
}

/// How many colons a text holds.
pub open spec fn spec_colon_count(s: Seq<char>) -> int
    decreases s.len(),
{
    if s.len() == 0 {
        0
    } else {
        spec_colon_count(s.drop_last()) + if s.last() == ':' {
            1int
        } else {
            0int
        }
    }
}

/// A prefixed name: exactly one colon, and not in the last position.
pub open spec fn spec_is_prefixed_uri(t: Seq<char>) -> bool {
    t.len() > 0 && spec_colon_count(t) == 1 && t[t.len() - 1] != ':'
}

pub(crate) fn skip_whitespace(chars: &Vec<char>, i: usize) -> (r: usize)
    requires
        i <= chars@.len(),
    ensures
        r == spec_skip_ws(chars@, i as int),
        i <= r <= chars@.len(),
{
    let mut j = i;
    while j < chars.len() && is_ws(chars[j])
        invariant
            i <= j <= chars@.len(),
            spec_skip_ws(chars@, i as int) == spec_skip_ws(chars@, j as int),
        decreases chars@.len() - j,
    {
        j += 1;
    }
    j
}

fn read_token(chars: &Vec<char>, i: usize) -> (r: (Vec<char>, usize))
    requires
        i <= chars@.len(),
    ensures
        r.0@ == spec_read_token(chars@, i as int),
        r.1 == i + r.0@.len(),
        r.1 <= chars@.len(),
{
    let mut tok: Vec<char> = Vec::new();
    let mut j = i;
    while j < chars.len() && !(chars[j] == ' ' || chars[j] == ',')
        invariant
            i <= j <= chars@.len(),
            tok@.len() == j - i,
            spec_read_token(chars@, i as int) == tok@ + spec_read_token(chars@, j as int),
        decreases chars@.len() - j,
    {
        let c = chars[j];
        proof {
            assert(tok@ + spec_read_token(chars@, j as int) =~= tok@.push(c) + spec_read_token(
                chars@,
                j as int + 1,
            ));
        }
        tok.push(c);
        j += 1;
    }
    proof {
        assert(spec_read_token(chars@, j as int) =~= Seq::<char>::empty());
        assert(spec_read_token(chars@, i as int) =~= tok@);
    }
    (tok, j)
}

fn read_prefix(chars: &Vec<char>, i: usize) -> (r: (String, bool, usize))
    requires
        i <= chars@.len(),
    ensures
        r.0@ == spec_read_prefix(chars@, i as int).0,
        r.1 == spec_read_prefix(chars@, i as int).1,
        r.2 == i + r.0@.len(),
        r.2 <= chars@.len(),
{
    let mut tok: Vec<char> = Vec::new();
    let mut found = false;
    let mut j = i;
    while j < chars.len() && !found
        invariant
            i <= j <= chars@.len(),
            tok@.len() == j - i,
            !found ==> spec_read_prefix(chars@, i as int).0 == tok@ + spec_read_prefix(
                chars@,
                j as int,
            ).0 && spec_read_prefix(chars@, i as int).1 == spec_read_prefix(chars@, j as int).1,
            found ==> spec_read_prefix(chars@, i as int) == (tok@, true),
        decreases chars@.len() - j,
    {
        let c = chars[j];
        proof {
            if c == ':' {
                assert(tok@ + spec_read_prefix(chars@, j as int).0 =~= tok@.push(':'));
            } else {
                assert(tok@ + spec_read_prefix(chars@, j as int).0 =~= tok@.push(c)
                    + spec_read_prefix(chars@, j as int + 1).0);
            }
        }
        if c == ':' {
            found = true;
        }
        tok.push(c);
        j += 1;
    }
    proof {
        if !found {
            assert(spec_read_prefix(chars@, j as int).0 =~= Seq::<char>::empty());
            assert(spec_read_prefix(chars@, i as int).0 =~= tok@);
        }
    }
    (chars_to_string(&tok), found, j)
}

fn read_iri(chars: &Vec<char>, i: usize) -> (r: (Lexeme, usize))
    requires
        i <= chars@.len(),
    ensures
        (r.0@, r.1 as int) == spec_read_iri(chars@, i as int),
        i <= r.1 <= chars@.len(),
        i < chars@.len() ==> i < r.1,
{
    let mut acc: Vec<char> = Vec::new();
    let mut found_start = false;
    let mut j = i;
    while j < chars.len()
        invariant
            i <= j <= chars@.len(),
            spec_read_iri(chars@, i as int) == spec_read_iri_from(
                chars@,
                j as int,
                acc@,
                found_start,
            ),
        decreases chars@.len() - j,
    {
        let c = chars[j];
        if c == '<' {
            found_start = true;
            j += 1;
        } else if c == '>' {
            j += 1;
            let text = chars_to_string(&acc);
            if found_start {
                return (Lexeme::Iri(text), j);
            } else {
                return (Lexeme::Unknown(text), j);
            }
        } else {
            acc.push(c);
            j += 1;
        }
    }
    (Lexeme::Unknown(chars_to_string(&acc)), j)
}

pub(crate) fn read_literal_value(chars: &Vec<char>, i: usize) -> (r: (String, bool, usize))
    requires
        i < chars@.len(),
        chars@[i as int] == '"',
    ensures
        ({
            let (sv, cv, jv) = spec_read_literal_value(chars@, i as int);
            r.0@ == sv && r.1 == cv && r.2 == jv
        }),
        i < r.2 <= chars@.len(),
{
    let n = chars.len();
    let mut acc: Vec<char> = Vec::new();
    let mut escaped = false;
    let mut j = i + 1;
    while j < chars.len()
        invariant
            i < j <= chars@.len(),
            spec_read_literal_value(chars@, i as int) == spec_read_lit_from(
                chars@,
                j as int,
                acc@,
                escaped,
            ),
        decreases chars@.len() - j,
    {
        let c = chars[j];
        if c == '"' && !escaped {
            j += 1;
            return (chars_to_string(&acc), true, j);
        } else if c == '\\' {
            acc.push('\\');
            escaped = j + 1 < chars.len() && chars[j + 1] == '"';
            j += 1;
        } else {
            acc.push(c);
            escaped = false;
            j += 1;
        }
    }
    (chars_to_string(&acc), false, j)
}

fn read_multiline_part(chars: &Vec<char>, i: usize) -> (r: (String, bool, usize))
    requires
        i <= chars@.len(),
    ensures
        ({
            let (tv, cv, jv) = spec_read_multiline_part(chars@, i as int);
            r.0@ == tv && r.1 == cv && r.2 == jv
        }),
        i <= r.2 <= chars@.len(),
        !r.1 ==> r.2 == chars@.len(),
{
    let mut j = i;
    let mut acc: Vec<char> = Vec::new();
    let mut consec: usize = 0;
    while j < chars.len()
        invariant
            i <= j <= chars@.len(),
            consec <= 2,
            consec <= acc@.len(),
            spec_read_multiline_part(chars@, i as int) == spec_multiline_from(
                chars@,
                j as int,
                acc@,
                consec as int,
            ),
        decreases chars@.len() - j,
    {
        let c = chars[j];
        if c == '"' {
            if consec == 2 {
                let ghost acc_old = acc@;
                let newlen = acc.len() - 2;
                acc.truncate(newlen);
                proof {
                    assert(acc@ =~= acc_old.take(acc_old.len() - 2));
                }
                j += 1;
                return (chars_to_string(&acc), true, j);
            } else {
                acc.push(c);
                consec += 1;
                j += 1;
            }
        } else {
            acc.push(c);
            consec = 0;
            j += 1;
        }
    }
    (chars_to_string(&acc), false, j)
}

fn read_comment(chars: &Vec<char>, i: usize) -> (r: (Lexeme, usize))
    requires
        i < chars@.len(),
    ensures
        r.0@ == LexemeV::Comment(spec_read_comment(chars@, i as int)),
        r.1 == chars@.len(),
{
    let n = chars.len();
    let mut acc: Vec<char> = Vec::new();
    let mut j = i + 1;
    while j < chars.len()
        invariant
            i + 1 <= j <= chars@.len(),
            acc@ == chars@.subrange(i as int + 1, j as int),
        decreases chars@.len() - j,
    {
        let c = chars[j];
        proof {
            assert(acc@.push(c) =~= chars@.subrange(i as int + 1, j as int + 1));
        }
        acc.push(c);
        j += 1;
    }
    proof {
        assert(acc@ =~= spec_read_comment(chars@, i as int));
    }
    (Lexeme::Comment(chars_to_string(&acc)), j)
}

fn is_prefixed_uri(token: &Vec<char>) -> (r: bool)
    ensures
        r == spec_is_prefixed_uri(token@),
{
    let mut count: usize = 0;
    let mut k: usize = 0;
    while k < token.len()
        invariant
            k <= token@.len(),
            count <= k,
            count == spec_colon_count(token@.take(k as int)),
        decreases token@.len() - k,
    {
        let c = token[k];
        proof {
            assert(token@.take(k as int + 1).drop_last() =~= token@.take(k as int));
            assert(token@.take(k as int + 1).last() == c);
        }
        if c == ':' {
            count += 1;
        }
        k += 1;
    }
    proof {
        assert(token@.take(token@.len() as int) =~= token@);
    }
    if token.len() == 0 {
        return false;
    }
    count == 1 && token[token.len() - 1] != ':'
}

/// A scan position clamped into the open interval after `i` and at most
/// `len`; the scan only ever moves forward, so on reachable inputs this is
/// the identity on `j`.
pub open spec fn adv(len: int, i: int, j: int) -> int {
    if j <= i {
        i + 1
    } else if j >= len {
        len
    } else {
        j
    }
}

/// The lexeme (if any) produced for a quoted literal opening at `i`, the
/// position after it, and the lexer state after it: a closing quote may be
/// followed by `@tag`, a `^^` datatype in angle-bracket or bareword form, or
/// a second quote opening a multi-line literal, which may close on this line
/// or spill over. A literal left open at the end of the line surfaces as an
/// `Unknown` carrying the partial body.
pub open spec fn spec_read_literal(s: Seq<char>, i: int, ctx: LexerCtxV) -> (
    Option<LexemeV>,
    int,
    LexerCtxV,
) {
    let (lit, lit_closed, j) = spec_read_literal_value(s, i);
    if !lit_closed {
        (Some(LexemeV::Unknown(lit)), j, ctx)
    } else {
        {
            if 0 <= j < s.len() && s[j] == '@' {
                let tag = spec_read_token(s, j + 1);
                (Some(LexemeV::LangLiteral(lit, tag)), j + 1 + tag.len(), ctx)
            } else if 0 <= j < s.len() && s[j] == '^' {
                let p = if j + 2 <= s.len() {
                    j + 2
                } else {
                    s.len() as int
                };
                if p < s.len() && s[p] == '<' {
                    let (lex, k) = spec_read_iri(s, p);
                    match lex {
                        LexemeV::Iri(dt) => (Some(LexemeV::DataTypeLiteral(lit, dt)), k, ctx),
                        _ => (Some(LexemeV::Unknown(lit)), k, ctx),
                    }
                } else {
                    let tok = spec_read_token(s, p);
                    if tok.len() > 0 {
                        (Some(LexemeV::DataTypeLiteral(lit, tok)), p + tok.len(), ctx)
                    } else {
                        (Some(LexemeV::Unknown(lit)), p, ctx)
                    }
                }
            } else if 0 <= j < s.len() && s[j] == '"' {
                let (part, closed, k) = spec_read_multiline_part(s, j + 1);
                if closed {
                    (
                        Some(LexemeV::MultilineLiteral(part)),
                        k,
                        LexerCtxV { in_multiline: false, fragments: Seq::empty() },
                    )
                } else {
                    (
                        None,
                        k,
                        LexerCtxV { in_multiline: true, fragments: ctx.fragments.push(part) },
                    )
                }
            } else {
                (Some(LexemeV::Literal(lit)), j, ctx)
            }
        }
    }
}

/// The token scan from position `i`: the lexemes of the rest of the line and
/// the lexer state left behind.
pub open spec fn spec_scan(s: Seq<char>, i: int, ctx: LexerCtxV) -> (Seq<LexemeV>, LexerCtxV)
    decreases s.len() - i,
{
    let len = s.len() as int;
    if !(0 <= i < len) {
        (Seq::empty(), ctx)
    } else {
        let c = s[i];
        if c == '<' {
            let (lex, j) = spec_read_iri(s, i);
            let r = spec_scan(s, adv(len, i, spec_skip_ws(s, j)), ctx);
            (seq![lex] + r.0, r.1)
        } else if c == '"' {
            let (em, j, ctx1) = spec_read_literal(s, i, ctx);
            let r = spec_scan(s, adv(len, i, spec_skip_ws(s, j)), ctx1);
            (
                match em {
                    Some(l) => seq![l] + r.0,
                    None => r.0,
                },
                r.1,
            )
        } else if c == '@' || c == 'P' || c == 'B' {
            let tok = spec_read_token(s, i);
            let j = i + tok.len() as int;
            if tok == "@prefix"@ || tok == "PREFIX"@ {
                let j2 = spec_skip_ws(s, j);
                let (label, with_colon) = spec_read_prefix(s, j2);
                let j3 = j2 + label.len() as int;
                if with_colon {
                    let j4 = spec_skip_ws(s, j3);
                    let (lex, j5) = spec_read_iri(s, j4);
                    let em = match lex {
                        LexemeV::Iri(iri) => LexemeV::Prefix(label, iri),
                        _ => LexemeV::Unknown(label),
                    };
                    let r = spec_scan(s, adv(len, i, spec_skip_ws(s, j5)), ctx);
                    (seq![em] + r.0, r.1)
                } else {
                    let r = spec_scan(s, adv(len, i, spec_skip_ws(s, j3)), ctx);
                    (seq![LexemeV::Unknown(label)] + r.0, r.1)
                }
            } else if tok == "@base"@ || tok == "BASE"@ {
                let j2 = spec_skip_ws(s, j);
                let (lex, j3) = spec_read_iri(s, j2);
                let em = match lex {
                    LexemeV::Iri(iri) => LexemeV::Base(iri),
                    _ => LexemeV::Unknown(tok),
                };
                let r = spec_scan(s, adv(len, i, spec_skip_ws(s, j3)), ctx);
                (seq![em] + r.0, r.1)
            } else {
                let r = spec_scan(s, adv(len, i, spec_skip_ws(s, j)), ctx);
                (seq![LexemeV::Unknown(tok)] + r.0, r.1)
            }
        } else if c == '.' {
            let r = spec_scan(s, adv(len, i, spec_skip_ws(s, i + 1)), ctx);
            (seq![LexemeV::EndToken] + r.0, r.1)
        } else if c == ';' {
            let r = spec_scan(s, adv(len, i, spec_skip_ws(s, i + 1)), ctx);
            (seq![LexemeV::PredicateListToken] + r.0, r.1)
        } else if c == ',' {
            let r = spec_scan(s, adv(len, i, spec_skip_ws(s, i + 1)), ctx);
            (seq![LexemeV::ObjectListToken] + r.0, r.1)
        } else if c == 'a' {
            let r = spec_scan(s, adv(len, i, spec_skip_ws(s, i + 1)), ctx);
            (seq![LexemeV::A] + r.0, r.1)
        } else if c == ' ' || c == '\t' {
            spec_scan(s, adv(len, i, spec_skip_ws(s, i + 1)), ctx)
        } else if c == '#' {
            (seq![LexemeV::Comment(spec_read_comment(s, i))], ctx)
        } else {
            let tok = spec_read_token(s, i);
            let j = i + tok.len() as int;
            let em = if spec_is_prefixed_uri(tok) {
                LexemeV::PrefixedIri(tok)
            } else {
                LexemeV::Unknown(tok)
            };
            let r = spec_scan(s, adv(len, i, spec_skip_ws(s, j)), ctx);
            (seq![em] + r.0, r.1)
        }
    }
}

/// The fragments of a multi-line literal joined with newlines.
pub open spec fn spec_join(frags: Seq<Seq<char>>) -> Seq<char>
    decreases frags.len(),
{
    if frags.len() == 0 {
        Seq::empty()
    } else if frags.len() == 1 {
        frags[0]
    } else {
        spec_join(frags.drop_last()) + seq!['\n'] + frags.last()
    }
}

/// What one call of the lexer produces: if a multi-line literal is open, the
/// line is first taken as its continuation; otherwise the line is scanned
/// from its start.
pub open spec fn spec_tokenize(s: Seq<char>, ctx: LexerCtxV) -> (Seq<LexemeV>, LexerCtxV) {
    if ctx.in_multiline {
        let (part, closed, j) = spec_read_multiline_part(s, 0);
        if closed {
            let joined = spec_join(ctx.fragments.push(part));
            let r = spec_scan(
                s,
                j,
                LexerCtxV { in_multiline: false, fragments: Seq::empty() },
            );
            (seq![LexemeV::MultilineLiteral(joined)] + r.0, r.1)
        } else {
            (Seq::empty(), LexerCtxV { in_multiline: true, fragments: ctx.fragments.push(part) })
        }
    } else {
        spec_scan(s, 0, ctx)
    }
}

fn read_literal(chars: &Vec<char>, i: usize, context: &mut LexerContext) -> (r: (
    Option<Lexeme>,
    usize,
))
    requires
        i < chars@.len(),
        chars@[i as int] == '"',
    ensures
        ({
            let (ov, jv, cv) = spec_read_literal(chars@, i as int, old(context)@);
            &&& match r.0 {
                Some(l) => ov == Some(l@),
                None => ov is None,
            }
            &&& r.1 == jv
            &&& final(context)@ == cv
        }),
        i < r.1 <= chars@.len(),
{
    let n = chars.len();
    let (lit, lit_closed, j) = read_literal_value(chars, i);
    if !lit_closed {
        (Some(Lexeme::Unknown(lit)), j)
    } else {
        {
            if j < n && chars[j] == '@' {
                let (tagv, k) = read_token(chars, j + 1);
                let tag = chars_to_string(&tagv);
                (Some(Lexeme::LangLiteral(lit, tag)), k)
            } else if j < n && chars[j] == '^' {
                let p = if j <= n - 2 {
                    j + 2
                } else {
                    n
                };
                if p < n && chars[p] == '<' {
                    let (lex, k) = read_iri(chars, p);
                    match lex {
                        Lexeme::Iri(dt) => (Some(Lexeme::DataTypeLiteral(lit, dt)), k),
                        _ => (Some(Lexeme::Unknown(lit)), k),
                    }
                } else {
                    let (tokv, k) = read_token(chars, p);
                    if tokv.len() > 0 {
                        (Some(Lexeme::DataTypeLiteral(lit, chars_to_string(&tokv))), k)
                    } else {
                        (Some(Lexeme::Unknown(lit)), p)
                    }
                }
            } else if j < n && chars[j] == '"' {
                let ghost frags0 = context@.fragments;
                let (part, closed, k) = read_multiline_part(chars, j + 1);
                if closed {
                    context.parse_multiline = false;
                    context.parsed_multilines = Vec::new();
                    proof {
                        assert(context@.fragments =~= Seq::<Seq<char>>::empty());
                    }
                    (Some(Lexeme::MultilineLiteral(part)), k)
                } else {
                    context.parse_multiline = true;
                    context.parsed_multilines.push(part);
                    proof {
                        assert(context@.fragments =~= frags0.push(
                            spec_read_multiline_part(chars@, j as int + 1).0,
                        ));
                    }
                    (None, k)
                }
            } else {
                (Some(Lexeme::Literal(lit)), j)
            }
        }
    }
}

fn join_fragments(frags: &Vec<String>) -> (r: String)
    ensures
        r@ == spec_join(frags.deep_view()),
{
    let mut r = String::new();
    let mut k: usize = 0;
    while k < frags.len()
        invariant
            k <= frags@.len(),
            r@ == spec_join(frags.deep_view().take(k as int)),
        decreases frags@.len() - k,
    {
        proof {
            reveal_strlit("\n");
            assert(frags.deep_view().take(k as int + 1).drop_last() =~= frags.deep_view().take(
                k as int,
            ));
            assert(frags.deep_view().take(k as int + 1).last() == frags.deep_view()[k as int]);
            assert(frags.deep_view()[k as int] == frags@[k as int]@);
            assert("\n"@ =~= seq!['\n']);
        }
        if k > 0 {
            r.append("\n");
        }
        r.append(frags[k].as_str());
        k += 1;
    }
    proof {
        assert(frags.deep_view().take(frags.deep_view().len() as int) =~= frags.deep_view());
    }
    r
}

/// One line of input becomes an ordered sequence of lexemes; the carried
/// state picks up and hands over any multi-line literal that crosses this
/// line's boundaries. Statement punctuation and the type shorthand `a` are
/// recognized at character level, so a bareword beginning with `a` splits
/// after that letter; barewords end at a space or comma, not at a tab. The
/// line number is carried for interface compatibility and plays no part in
/// scanning.
#[allow(unused_variables)]
pub fn tokenize(line: &str, line_num: u32, context: &mut LexerContext) -> (tokens: Vec<Lexeme>)
    ensures
        lexemes_view(tokens@) == spec_tokenize(line@, old(context)@).0,
        final(context)@ == spec_tokenize(line@, old(context)@).1,
{
    let ghost s = line@;
    let chars = line_chars(line);
    let n = chars.len();
    let mut tokens: Vec<Lexeme> = Vec::new();
    let mut i: usize = 0;

    if context.parse_multiline {
        let ghost frags0 = context@.fragments;
        let (part, closed, j) = read_multiline_part(&chars, 0);
        context.parsed_multilines.push(part);
        proof {
            assert(context@.fragments =~= frags0.push(spec_read_multiline_part(s, 0).0));
        }
        if closed {
            let joined = join_fragments(&context.parsed_multilines);
            tokens.push(Lexeme::MultilineLiteral(joined));
            context.parse_multiline = false;
            context.parsed_multilines = Vec::new();
            proof {
                assert(context@.fragments =~= Seq::<Seq<char>>::empty());
            }
            i = j;
        } else {
            context.parse_multiline = true;
            i = j;
        }
    }

    let ghost pre = lexemes_view(tokens@);
    let ghost ctx_mid = context@;
    let ghost start_i = i as int;
    let ghost mut emitted: Seq<LexemeV> = Seq::empty();
    proof {
        if old(context)@.in_multiline {
            if spec_read_multiline_part(s, 0).1 {
                assert(pre =~= seq![
                    LexemeV::MultilineLiteral(
                        spec_join(old(context)@.fragments.push(spec_read_multiline_part(s, 0).0)),
                    ),
                ]);
                assert(spec_tokenize(s, old(context)@).0 == pre + spec_scan(s, start_i, ctx_mid).0);
                assert(spec_tokenize(s, old(context)@).1 == spec_scan(s, start_i, ctx_mid).1);
            } else {
                assert(i == n);
                assert(pre =~= Seq::<LexemeV>::empty());
                assert(spec_scan(s, start_i, ctx_mid) == (Seq::<LexemeV>::empty(), ctx_mid));
                assert(spec_tokenize(s, old(context)@).0 =~= pre + spec_scan(s, start_i, ctx_mid).0);
                assert(spec_tokenize(s, old(context)@).1 == spec_scan(s, start_i, ctx_mid).1);
            }
        } else {
            assert(pre =~= Seq::<LexemeV>::empty());
            assert(spec_tokenize(s, old(context)@).0 =~= pre + spec_scan(s, start_i, ctx_mid).0);
            assert(spec_tokenize(s, old(context)@).1 == spec_scan(s, start_i, ctx_mid).1);
        }
        assert(spec_scan(s, start_i, ctx_mid).0 =~= emitted + spec_scan(s, start_i, ctx_mid).0);
    }

    while i < n
        invariant
            n == chars@.len(),
            chars@ == s,
            s == line@,
            i <= n,
            lexemes_view(tokens@) == pre + emitted,
            spec_scan(s, start_i, ctx_mid).0 == emitted + spec_scan(s, i as int, context@).0,
            spec_scan(s, start_i, ctx_mid).1 == spec_scan(s, i as int, context@).1,
            spec_tokenize(s, old(context)@).0 == pre + spec_scan(s, start_i, ctx_mid).0,
            spec_tokenize(s, old(context)@).1 == spec_scan(s, start_i, ctx_mid).1,
        decreases n - i,
    {
        let ghost i0 = i as int;
        let ghost ctx0 = context@;
        let c = chars[i];
        if c == '<' {
            let (lex, j) = read_iri(&chars, i);
            let j2 = skip_whitespace(&chars, j);
            proof {
                assert(adv(n as int, i0, j2 as int) == j2 as int);
                assert(spec_scan(s, i0, ctx0).0 =~= seq![lex@] + spec_scan(s, j2 as int, ctx0).0);
                assert(spec_scan(s, i0, ctx0).1 == spec_scan(s, j2 as int, ctx0).1);
                lemma_lexemes_view_push(tokens@, lex);
                assert((pre + emitted).push(lex@) =~= pre + (emitted + seq![lex@]));
                emitted = emitted + seq![lex@];
                assert(spec_scan(s, start_i, ctx_mid).0 =~= emitted + spec_scan(
                    s,
                    j2 as int,
                    ctx0,
                ).0);
            }
            tokens.push(lex);
            i = j2;
        } else if c == '"' {
            let (opt, j) = read_literal(&chars, i, context);
            let j2 = skip_whitespace(&chars, j);
            proof {
                assert(adv(n as int, i0, j2 as int) == j2 as int);
            }
            match opt {
                Some(l) => {
                    proof {
                        assert(spec_scan(s, i0, ctx0).0 =~= seq![l@] + spec_scan(
                            s,
                            j2 as int,
                            context@,
                        ).0);
                        assert(spec_scan(s, i0, ctx0).1 == spec_scan(s, j2 as int, context@).1);
                        lemma_lexemes_view_push(tokens@, l);
                        assert((pre + emitted).push(l@) =~= pre + (emitted + seq![l@]));
                        emitted = emitted + seq![l@];
                        assert(spec_scan(s, start_i, ctx_mid).0 =~= emitted + spec_scan(
                            s,
                            j2 as int,
                            context@,
                        ).0);
                    }
                    tokens.push(l);
                },
                None => {
                    proof {
                        assert(spec_scan(s, i0, ctx0).0 =~= spec_scan(s, j2 as int, context@).0);
                        assert(spec_scan(s, i0, ctx0).1 == spec_scan(s, j2 as int, context@).1);
                    }
                },
            }
            i = j2;
        } else if c == '@' || c == 'P' || c == 'B' {
            let (tokv, j) = read_token(&chars, i);
            proof {
                assert(spec_read_token(s, i0).len() >= 1);
            }
            if chars_eq_str(&tokv, "@prefix") || chars_eq_str(&tokv, "PREFIX") {
                let j2 = skip_whitespace(&chars, j);
                let (label, with_colon, j3) = read_prefix(&chars, j2);
                if with_colon {
                    let j4 = skip_whitespace(&chars, j3);
                    let (lex, j5) = read_iri(&chars, j4);
                    let em = match lex {
                        Lexeme::Iri(iri) => Lexeme::Prefix(label, iri),
                        _ => Lexeme::Unknown(label),
                    };
                    let j6 = skip_whitespace(&chars, j5);
                    proof {
                        assert(adv(n as int, i0, j6 as int) == j6 as int);
                        assert(spec_scan(s, i0, ctx0).0 =~= seq![em@] + spec_scan(
                            s,
                            j6 as int,
                            ctx0,
                        ).0);
                        assert(spec_scan(s, i0, ctx0).1 == spec_scan(s, j6 as int, ctx0).1);
                        lemma_lexemes_view_push(tokens@, em);
                        assert((pre + emitted).push(em@) =~= pre + (emitted + seq![em@]));
                        emitted = emitted + seq![em@];
                        assert(spec_scan(s, start_i, ctx_mid).0 =~= emitted + spec_scan(
                            s,
                            j6 as int,
                            ctx0,
                        ).0);
                    }
                    tokens.push(em);
                    i = j6;
                } else {
                    let j4 = skip_whitespace(&chars, j3);
                    let em = Lexeme::Unknown(label);
                    proof {
                        assert(adv(n as int, i0, j4 as int) == j4 as int);
                        assert(spec_scan(s, i0, ctx0).0 =~= seq![em@] + spec_scan(
                            s,
                            j4 as int,
                            ctx0,
                        ).0);
                        assert(spec_scan(s, i0, ctx0).1 == spec_scan(s, j4 as int, ctx0).1);
                        lemma_lexemes_view_push(tokens@, em);
                        assert((pre + emitted).push(em@) =~= pre + (emitted + seq![em@]));
                        emitted = emitted + seq![em@];
                        assert(spec_scan(s, start_i, ctx_mid).0 =~= emitted + spec_scan(
                            s,
                            j4 as int,
                            ctx0,
                        ).0);
                    }
                    tokens.push(em);
                    i = j4;
                }
            } else if chars_eq_str(&tokv, "@base") || chars_eq_str(&tokv, "BASE") {
                let j2 = skip_whitespace(&chars, j);
                let (lex, j3) = read_iri(&chars, j2);
                let em = match lex {
                    Lexeme::Iri(iri) => Lexeme::Base(iri),
                    _ => Lexeme::Unknown(chars_to_string(&tokv)),
                };
                let j4 = skip_whitespace(&chars, j3);
                proof {
                    assert(adv(n as int, i0, j4 as int) == j4 as int);
                    assert(spec_scan(s, i0, ctx0).0 =~= seq![em@] + spec_scan(s, j4 as int, ctx0).0);
                    assert(spec_scan(s, i0, ctx0).1 == spec_scan(s, j4 as int, ctx0).1);
                    lemma_lexemes_view_push(tokens@, em);
                    assert((pre + emitted).push(em@) =~= pre + (emitted + seq![em@]));
                    emitted = emitted + seq![em@];
                    assert(spec_scan(s, start_i, ctx_mid).0 =~= emitted + spec_scan(
                        s,
                        j4 as int,
                        ctx0,
                    ).0);
                }
                tokens.push(em);
                i = j4;
            } else {
                let j2 = skip_whitespace(&chars, j);
                let em = Lexeme::Unknown(chars_to_string(&tokv));
                proof {
                    assert(adv(n as int, i0, j2 as int) == j2 as int);
                    assert(spec_scan(s, i0, ctx0).0 =~= seq![em@] + spec_scan(s, j2 as int, ctx0).0);
                    assert(spec_scan(s, i0, ctx0).1 == spec_scan(s, j2 as int, ctx0).1);
                    lemma_lexemes_view_push(tokens@, em);
                    assert((pre + emitted).push(em@) =~= pre + (emitted + seq![em@]));
                    emitted = emitted + seq![em@];
                    assert(spec_scan(s, start_i, ctx_mid).0 =~= emitted + spec_scan(
                        s,
                        j2 as int,
                        ctx0,
                    ).0);
                }
                tokens.push(em);
                i = j2;
            }
        } else if c == '.' || c == ';' || c == ',' || c == 'a' {
            let em = if c == '.' {
                Lexeme::EndToken
            } else if c == ';' {
                Lexeme::PredicateListToken
            } else if c == ',' {
                Lexeme::ObjectListToken
            } else {
                Lexeme::A
            };
            let j2 = skip_whitespace(&chars, i + 1);
            proof {
                assert(adv(n as int, i0, j2 as int) == j2 as int);
                assert(spec_scan(s, i0, ctx0).0 =~= seq![em@] + spec_scan(s, j2 as int, ctx0).0);
                assert(spec_scan(s, i0, ctx0).1 == spec_scan(s, j2 as int, ctx0).1);
                lemma_lexemes_view_push(tokens@, em);
                assert((pre + emitted).push(em@) =~= pre + (emitted + seq![em@]));
                emitted = emitted + seq![em@];
                assert(spec_scan(s, start_i, ctx_mid).0 =~= emitted + spec_scan(
                    s,
                    j2 as int,
                    ctx0,
                ).0);
            }
            tokens.push(em);
            i = j2;
        } else if c == ' ' || c == '\t' {
            let j2 = skip_whitespace(&chars, i + 1);
            proof {
                assert(adv(n as int, i0, j2 as int) == j2 as int);
                assert(spec_scan(s, i0, ctx0).0 =~= spec_scan(s, j2 as int, ctx0).0);
                assert(spec_scan(s, i0, ctx0).1 == spec_scan(s, j2 as int, ctx0).1);
            }
            i = j2;
        } else if c == '#' {
            let (lex, j) = read_comment(&chars, i);
            proof {
                assert(spec_scan(s, i0, ctx0).0 =~= seq![lex@]);
                assert(spec_scan(s, i0, ctx0).1 == ctx0);
                lemma_lexemes_view_push(tokens@, lex);
                assert((pre + emitted).push(lex@) =~= pre + (emitted + seq![lex@]));
                emitted = emitted + seq![lex@];
                assert(spec_scan(s, j as int, ctx0) == (Seq::<LexemeV>::empty(), ctx0));
                assert(spec_scan(s, start_i, ctx_mid).0 =~= emitted + spec_scan(s, j as int, ctx0).0);
            }
            tokens.push(lex);
            i = j;
        } else {
            let (tokv, j) = read_token(&chars, i);
            proof {
                assert(spec_read_token(s, i0).len() >= 1);
            }
            let pu = is_prefixed_uri(&tokv);
            let text = chars_to_string(&tokv);
            let em = if pu {
                Lexeme::PrefixedIri(text)
            } else {
                Lexeme::Unknown(text)
            };
            let j2 = skip_whitespace(&chars, j);
            proof {
                assert(adv(n as int, i0, j2 as int) == j2 as int);
                assert(spec_scan(s, i0, ctx0).0 =~= seq![em@] + spec_scan(s, j2 as int, ctx0).0);
                assert(spec_scan(s, i0, ctx0).1 == spec_scan(s, j2 as int, ctx0).1);
                lemma_lexemes_view_push(tokens@, em);
                assert((pre + emitted).push(em@) =~= pre + (emitted + seq![em@]));
                emitted = emitted + seq![em@];
                assert(spec_scan(s, start_i, ctx_mid).0 =~= emitted + spec_scan(s, j2 as int, ctx0).0);
            }
            tokens.push(em);
            i = j2;
        }
    }
    proof {
        assert(spec_scan(s, i as int, context@) == (Seq::<LexemeV>::empty(), context@));
        assert(spec_tokenize(s, old(context)@).0 =~= lexemes_view(tokens@));
    }
    tokens
}

} // verus!
