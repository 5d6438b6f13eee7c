//! A word-level scanner over one line: words separated by whitespace, and
//! IRI lexemes in either angle-bracket or prefixed form.

use crate::lexer::{read_literal_value, skip_whitespace, spec_read_literal_value, spec_skip_ws};
use crate::text::{chars_to_string, is_ws, is_ws_char};
use vstd::prelude::*;

verus! {

/// The abstract value of a `Token`.
pub enum TokenV {
    RelativeOrAbsoluteIri(Seq<char>),
    PrefixIri(Seq<char>),
    Unknown(Option<Seq<char>>),
}

/// An IRI lexeme: `<...>` text, a prefixed name, or neither.
#[derive(PartialEq, Eq, Debug)]
pub enum Token {
    RelativeOrAbsoluteIri(String),
    PrefixIri(String),
    Unknown(Option<String>),
}

impl View for Token {
    type V = TokenV;

    open spec fn view(&self) -> TokenV {
        match self {
            Token::RelativeOrAbsoluteIri(t) => TokenV::RelativeOrAbsoluteIri(t@),
            Token::PrefixIri(t) => TokenV::PrefixIri(t@),
            Token::Unknown(o) => TokenV::Unknown(
                match o {
                    Some(t) => Some(t@),
                    None => None,
                },
            ),
        }
    }
}

/// The word starting at `i`: characters up to the next whitespace.
pub open spec fn spec_word_chars(s: Seq<char>, i: int) -> Seq<char>
    decreases s.len() - i,
{
    if 0 <= i < s.len() && !is_ws_char(s[i]) {
        seq![s[i]] + spec_word_chars(s, i + 1)
    } else {
        Seq::empty()
    }
}

/// The next whitespace-separated word at or after `i`, if any, and the
/// position just after it; the whitespace that ends it is left unread.
pub open spec fn spec_next_word(s: Seq<char>, i: int) -> (Option<Seq<char>>, int) {
    let j = spec_skip_ws(s, i);
    let w = spec_word_chars(s, j);
    if w.len() > 0 {
        (Some(w), j + w.len())
    } else {
        (None, j)
    }
}

/// The angle-bracket IRI body scan: characters up to `>`; whitespace or the
/// end of the line before the `>` spoils the lexeme.
pub open spec fn spec_abs_scan(s: Seq<char>, i: int, acc: Seq<char>) -> (Option<Seq<char>>, int)
    decreases s.len() - i,
{
    if 0 <= i < s.len() {
        if s[i] == '>' {
            (Some(acc), i + 1)
        } else if is_ws_char(s[i]) {
            (None, i + 1)
        } else {
            spec_abs_scan(s, i + 1, acc.push(s[i]))
        }
    } else {
        (None, i)
    }
}

/// The angle-bracket IRI lexeme at `i`: an opening `<` then the body scan.
pub open spec fn spec_read_abs_iri(s: Seq<char>, i: int) -> (Option<Seq<char>>, int) {
    if 0 <= i < s.len() && s[i] != '<' {
        (None, i + 1)
    } else if 0 <= i < s.len() {
        spec_abs_scan(s, i + 1, Seq::empty())
    } else {
        (None, i)
    }
}

/// The prefixed-name scan: characters up to whitespace or a comma, which is
/// left unread; the lexeme counts only if a colon was seen and a terminator
/// was found before the line ended.
pub open spec fn spec_prefix_scan(s: Seq<char>, i: int, acc: Seq<char>, colon: bool) -> (
    Option<Seq<char>>,
    int,
)
    decreases s.len() - i,
{
    if 0 <= i < s.len() {
        if s[i] == ':' {
            spec_prefix_scan(s, i + 1, acc.push(':'), true)
        } else if is_ws_char(s[i]) || s[i] == ',' {
            (if colon {
                Some(acc)
            } else {
                None
            }, i)
        } else {
            spec_prefix_scan(s, i + 1, acc.push(s[i]), colon)
        }
    } else {
        (None, i)
    }
}

/// The IRI lexeme at or after `i`: whitespace skipped, then an
/// angle-bracket IRI or a prefixed name, and `Unknown` where neither reads.
pub open spec fn spec_read_iri_lexeme(s: Seq<char>, i: int) -> (TokenV, int) {
    let j = spec_skip_ws(s, i);
    if j < s.len() {
        if s[j] == '<' {
            match spec_read_abs_iri(s, j) {
                (Some(t), k) => (TokenV::RelativeOrAbsoluteIri(t), k),
                (None, k) => (TokenV::Unknown(None), k),
            }
        } else {
            match spec_prefix_scan(s, j, Seq::empty(), false) {
                (Some(t), k) => (TokenV::PrefixIri(t), k),
                (None, k) => (TokenV::Unknown(None), k),
            }
        }
    } else {
        (TokenV::Unknown(None), j)
    }
}

/// The next whitespace-separated word, and where reading may continue.
pub fn next_word(chars: &Vec<char>, start: usize) -> (r: (Option<String>, usize))
    requires
        start <= chars@.len(),
    ensures
        ({
            let (wv, jv) = spec_next_word(chars@, start as int);
            &&& match r.0 {
                Some(w) => wv == Some(w@),
                None => wv is None,
            }
            &&& r.1 == jv
        }),
        start <= r.1 <= chars@.len(),
{
    let j = skip_whitespace(chars, start);
    let mut word: Vec<char> = Vec::new();
    let mut k = j;
    while k < chars.len() && !is_ws(chars[k])
        invariant
            j <= k <= chars@.len(),
            word@.len() == k - j,
            spec_word_chars(chars@, j as int) == word@ + spec_word_chars(chars@, k as int),
        decreases chars@.len() - k,
    {
        let c = chars[k];
        proof {
            assert(word@ + spec_word_chars(chars@, k as int) =~= word@.push(c) + spec_word_chars(
                chars@,
                k as int + 1,
            ));
        }
        word.push(c);
        k += 1;
    }
    proof {
        assert(spec_word_chars(chars@, k as int) =~= Seq::<char>::empty());
        assert(spec_word_chars(chars@, j as int) =~= word@);
    }
    if word.len() > 0 {
        (Some(chars_to_string(&word)), k)
    } else {
        (None, k)
    }
}

fn read_absolute_or_relative_iri_lexeme(chars: &Vec<char>, start: usize) -> (r: (
    Option<String>,
    usize,
))
    requires
        start <= chars@.len(),
    ensures
        ({
            let (wv, jv) = spec_read_abs_iri(chars@, start as int);
            &&& match r.0 {
                Some(w) => wv == Some(w@),
                None => wv is None,
            }
            &&& r.1 == jv
        }),
        start <= r.1 <= chars@.len(),
{
    let n = chars.len();
    if start >= n {
        return (None, start);
    }
    if chars[start] != '<' {
        return (None, start + 1);
    }
    let mut acc: Vec<char> = Vec::new();
    let mut k = start + 1;
    while k < n
        invariant
            start < k <= n,
            n == chars@.len(),
            spec_read_abs_iri(chars@, start as int) == spec_abs_scan(chars@, k as int, acc@),
        decreases n - k,
    {
        let c = chars[k];
        if c == '>' {
            return (Some(chars_to_string(&acc)), k + 1);
        } else if is_ws(c) {
            return (None, k + 1);
        } else {
            acc.push(c);
            k += 1;
        }
    }
    (None, k)
}

fn read_prefix_iri_lexeme(chars: &Vec<char>, start: usize) -> (r: (Option<String>, usize))
    requires
        start <= chars@.len(),
    ensures
        ({
            let (wv, jv) = spec_prefix_scan(chars@, start as int, Seq::empty(), false);
            &&& match r.0 {
                Some(w) => wv == Some(w@),
                None => wv is None,
            }
            &&& r.1 == jv
        }),
        start <= r.1 <= chars@.len(),
{
    let n = chars.len();
    let mut acc: Vec<char> = Vec::new();
    let mut colon = false;
    let mut k = start;
    while k < n
        invariant
            start <= k <= n,
            n == chars@.len(),
            spec_prefix_scan(chars@, start as int, Seq::empty(), false) == spec_prefix_scan(
                chars@,
                k as int,
                acc@,
                colon,
            ),
        decreases n - k,
    {
        let c = chars[k];
        if c == ':' {
            acc.push(c);
            colon = true;
            k += 1;
        } else if is_ws(c) || c == ',' {
            if colon {
                return (Some(chars_to_string(&acc)), k);
            } else {
                return (None, k);
            }
        } else {
            acc.push(c);
            k += 1;
        }
    }
    (None, k)
}

/// The quoted literal body opening at `start`, and the position after its
/// closing quote; a body left open by the end of the line is handed back as
/// collected, with reading ending at the line's end.
pub fn read_literal_text(chars: &Vec<char>, start: usize) -> (r: (String, usize))
    requires
        start < chars@.len(),
        chars@[start as int] == '"',
    ensures
        ({
            let (sv, cv, jv) = spec_read_literal_value(chars@, start as int);
            r.0@ == sv && r.1 == jv
        }),
        start < r.1 <= chars@.len(),
{
    let (body, _closed, j) = read_literal_value(chars, start);
    (body, j)
}

/// An annotation tail at `start`: the characters up to a space, tab, comma
/// or period, as a language-tag or datatype annotation reads them.
pub open spec fn spec_annotation(s: Seq<char>, i: int) -> Seq<char>
    decreases s.len() - i,
{
    if 0 <= i < s.len() && !(s[i] == ' ' || s[i] == '\t' || s[i] == ',' || s[i] == '.') {
        seq![s[i]] + spec_annotation(s, i + 1)
    } else {
        Seq::empty()
    }
}

/// The annotation tail at `start`, and the position just after it.
pub fn read_annotation(chars: &Vec<char>, start: usize) -> (r: (String, usize))
    requires
        start <= chars@.len(),
    ensures
        r.0@ == spec_annotation(chars@, start as int),
        r.1 == start + r.0@.len(),
        r.1 <= chars@.len(),
{
    let mut acc: Vec<char> = Vec::new();
    let mut k = start;
    while k < chars.len() && !(chars[k] == ' ' || chars[k] == '\t' || chars[k] == ','
        || chars[k] == '.')
        invariant
            start <= k <= chars@.len(),
            acc@.len() == k - start,
            spec_annotation(chars@, start as int) == acc@ + spec_annotation(chars@, k as int),
        decreases chars@.len() - k,
    {
        let c = chars[k];
        proof {
            assert(acc@ + spec_annotation(chars@, k as int) =~= acc@.push(c) + spec_annotation(
                chars@,
                k as int + 1,
            ));
        }
        acc.push(c);
        k += 1;
    }
    proof {
        assert(spec_annotation(chars@, k as int) =~= Seq::<char>::empty());
        assert(spec_annotation(chars@, start as int) =~= acc@);
    }
    (chars_to_string(&acc), k)
}

/// The IRI lexeme at or after `start`, and where reading may continue.
pub fn read_iri_lexeme(chars: &Vec<char>, start: usize) -> (r: (Token, usize))
    requires
        start <= chars@.len(),
    ensures
        (r.0@, r.1 as int) == spec_read_iri_lexeme(chars@, start as int),
        start <= r.1 <= chars@.len(),
{
    let j = skip_whitespace(chars, start);
    if j < chars.len() {
        if chars[j] == '<' {
            let (o, k) = read_absolute_or_relative_iri_lexeme(chars, j);
            match o {
                Some(t) => (Token::RelativeOrAbsoluteIri(t), k),
                None => (Token::Unknown(None), k),
            }
        } else {
            let (o, k) = read_prefix_iri_lexeme(chars, j);
            match o {
                Some(t) => (Token::PrefixIri(t), k),
                None => (Token::Unknown(None), k),
            }
        }
    } else {
        (Token::Unknown(None), j)
    }
}

} // verus!
