//! The token-level parser: folds a lexeme sequence, together with carried
//! document state (base IRI, prefix table, pending subject), into resolved
//! triples.

use crate::lexer::{Lexeme, LexemeV};
use crate::text::{chars_to_string, line_chars, str_eq};
use vstd::string::StringExecFns;
use vstd::prelude::*;

verus! {

/// The abstract value of an `Object`.
pub enum ObjectV {
    Iri(Seq<char>),
    Literal(Seq<char>),
    LangLiteral(Seq<char>, Seq<char>),
    DataTypeLiteral(Seq<char>, Seq<char>),
    Boolean(bool),
    Integer(i64),
    Decimal(Seq<char>),
    Double(Seq<char>),
    MultilineLiteral(Seq<char>),
}

/// The object position of a triple. Decimal and double barewords keep their
/// lexical text: the classification decides the kind, and the text carries
/// the full precision for whoever consumes it.
#[derive(PartialEq, Debug)]
pub enum Object {
    Iri(String),
    Literal(String),
    LangLiteral(String, String),
    DataTypeLiteral(String, String),
    Boolean(bool),
    Integer(i64),
    Decimal(String),
    Double(String),
    MultilineLiteral(String),
}

impl View for Object {
    type V = ObjectV;

    open spec fn view(&self) -> ObjectV {
        match self {
            Object::Iri(t) => ObjectV::Iri(t@),
            Object::Literal(t) => ObjectV::Literal(t@),
            Object::LangLiteral(t, g) => ObjectV::LangLiteral(t@, g@),
            Object::DataTypeLiteral(t, d) => ObjectV::DataTypeLiteral(t@, d@),
            Object::Boolean(b) => ObjectV::Boolean(*b),
            Object::Integer(n) => ObjectV::Integer(*n),
            Object::Decimal(t) => ObjectV::Decimal(t@),
            Object::Double(t) => ObjectV::Double(t@),
            Object::MultilineLiteral(t) => ObjectV::MultilineLiteral(t@),
        }
    }
}

impl Clone for Object {
    fn clone(&self) -> (r: Self)
        ensures
            r@ == self@,
    {
        match self {
            Object::Iri(t) => Object::Iri(t.clone()),
            Object::Literal(t) => Object::Literal(t.clone()),
            Object::LangLiteral(t, g) => Object::LangLiteral(t.clone(), g.clone()),
            Object::DataTypeLiteral(t, d) => Object::DataTypeLiteral(t.clone(), d.clone()),
            Object::Boolean(b) => Object::Boolean(*b),
            Object::Integer(n) => Object::Integer(*n),
            Object::Decimal(t) => Object::Decimal(t.clone()),
            Object::Double(t) => Object::Double(t.clone()),
            Object::MultilineLiteral(t) => Object::MultilineLiteral(t.clone()),
        }
    }
}

/// An IRI as raw text, unresolved until resolution is asked for explicitly.
#[derive(PartialEq, Debug)]
pub struct Iri(pub String);

impl View for Iri {
    type V = Seq<char>;

    open spec fn view(&self) -> Seq<char> {
        self.0@
    }
}

impl Clone for Iri {
    fn clone(&self) -> (r: Self)
        ensures
            r@ == self@,
    {
        Iri(self.0.clone())
    }
}

/// The abstract value of a `Triple`.
pub struct TripleV {
    pub subject: Seq<char>,
    pub predicate: Seq<char>,
    pub object: ObjectV,
}

/// A fully resolved subject-predicate-object triple.
#[derive(PartialEq, Debug)]
pub struct Triple {
    pub subject: Iri,
    pub predicate: Iri,
    pub object: Object,
}

impl View for Triple {
    type V = TripleV;

    open spec fn view(&self) -> TripleV {
        TripleV { subject: self.subject@, predicate: self.predicate@, object: self.object@ }
    }
}

/// The abstract value of a sequence of triples.
pub open spec fn triples_view(v: Seq<Triple>) -> Seq<TripleV> {
    v.map_values(|t: Triple| t@)
}

proof fn lemma_triples_view_push(ts: Seq<Triple>, t: Triple)
    ensures
        triples_view(ts.push(t)) == triples_view(ts).push(t@),
{
    assert(triples_view(ts.push(t)) =~= triples_view(ts).push(t@));
}

/// The abstract value of the document state: base IRI, prefix table with
/// last-write-wins keys, and the subject carried into the next call.
pub struct PStateV {
    pub base: Option<Seq<char>>,
    pub prefixes: Map<Seq<char>, Seq<char>>,
    pub subject: Option<Seq<char>>,
}

/// The prefix table that a sequence of declarations builds up: a later entry
/// for the same label overwrites the earlier one.
pub open spec fn prefixes_map(s: Seq<(Seq<char>, Seq<char>)>) -> Map<Seq<char>, Seq<char>>
    decreases s.len(),
{
    if s.len() == 0 {
        Map::empty()
    } else {
        prefixes_map(s.drop_last()).insert(s.last().0, s.last().1)
    }
}

/// The abstract value of each prefix declaration pair.
pub open spec fn prefixes_pairs(v: Seq<(String, String)>) -> Seq<(Seq<char>, Seq<char>)> {
    v.map_values(|p: (String, String)| (p.0@, p.1@))
}

/// Document-level parse state. The prefix table is a declaration list in
/// order of arrival; lookup takes the latest declaration of a label.
pub struct ParseContext {
    pub base: Option<String>,
    pub prefixes: Vec<(String, String)>,
    pub subject: Option<Iri>,
}

impl View for ParseContext {
    type V = PStateV;

    open spec fn view(&self) -> PStateV {
        PStateV {
            base: match self.base {
                Some(b) => Some(b@),
                None => None,
            },
            prefixes: prefixes_map(prefixes_pairs(self.prefixes@)),
            subject: match self.subject {
                Some(i) => Some(i@),
                None => None,
            },
        }
    }
}

impl ParseContext {
    /// A fresh document state: no base, no prefixes, no pending subject.
    pub fn new() -> (c: ParseContext)
        ensures
            c@ == (PStateV {
                base: None,
                prefixes: Map::<Seq<char>, Seq<char>>::empty(),
                subject: None,
            }),
    {
        let c = ParseContext { base: None, prefixes: Vec::new(), subject: None };
        proof {
            assert(prefixes_pairs(c.prefixes@) =~= Seq::<(Seq<char>, Seq<char>)>::empty());
        }
        c
    }
}

/// Whether the text parses as a URI reference that carries no scheme part;
/// what `http`'s URI parser decides for the text.
pub uninterp spec fn uri_without_scheme(s: Seq<char>) -> bool;

/// Relies on `http::Uri`'s `FromStr` and `Uri::scheme`: the text either
/// fails to parse or parses with or without a scheme, and the outcome is a
/// function of the text alone.
#[verifier::external_body]
fn is_relative_iri(iri: &str) -> (r: bool)
    ensures
        r == uri_without_scheme(iri@),
{
    match iri.parse::<http::Uri>() {
        Ok(uri) => uri.scheme().is_none(),
        Err(_) => false,
    }
}

/// Where IRI text resolves to: text with a scheme stands as it is; a
/// schemeless reference concatenates onto the base when one is set, and is
/// dropped when none is.
pub open spec fn spec_resolve_iri(base: Option<Seq<char>>, iri: Seq<char>) -> Option<Seq<char>> {
    if uri_without_scheme(iri) {
        match base {
            Some(b) => Some(b + iri),
            None => None,
        }
    } else {
        Some(iri)
    }
}

/// The position of the first occurrence of `c` at or after `i`, or the
/// length when there is none.
pub open spec fn spec_find(t: Seq<char>, c: char, i: int) -> int
    decreases t.len() - i,
{
    if 0 <= i < t.len() {
        if t[i] == c {
            i
        } else {
            spec_find(t, c, i + 1)
        }
    } else {
        t.len() as int
    }
}

/// Where a prefixed name resolves to: the label up to and including the
/// first colon is looked up, and its namespace is extended with the text
/// between the first colon and the second one (or the end).
pub open spec fn spec_resolve_prefixed(
    prefixes: Map<Seq<char>, Seq<char>>,
    t: Seq<char>,
) -> Option<Seq<char>> {
    let f = spec_find(t, ':', 0);
    if f == t.len() {
        None
    } else {
        let key = t.take(f + 1);
        let local = t.subrange(f + 1, spec_find(t, ':', f + 1));
        if prefixes.contains_key(key) {
            Some(prefixes[key] + local)
        } else {
            None
        }
    }
}

/// How a datatype annotation resolves: first as IRI text against the base,
/// then as a prefixed name against the prefix table.
pub open spec fn spec_resolve_datatype(st: PStateV, dt: Seq<char>) -> Option<Seq<char>> {
    match spec_resolve_iri(st.base, dt) {
        Some(x) => Some(x),
        None => spec_resolve_prefixed(st.prefixes, dt),
    }
}

/// The abstract value of an optional IRI.
pub open spec fn opt_iri_view(o: Option<Iri>) -> Option<Seq<char>> {
    match o {
        Some(i) => Some(i@),
        None => None,
    }
}

/// The abstract value of an optional string.
pub open spec fn opt_string_view(o: Option<String>) -> Option<Seq<char>> {
    match o {
        Some(s) => Some(s@),
        None => None,
    }
}

fn find_char_from(chars: &Vec<char>, c: char, i: usize) -> (r: usize)
    requires
        i <= chars@.len(),
    ensures
        r == spec_find(chars@, c, i as int),
        i <= r <= chars@.len(),
        r < chars@.len() ==> chars@[r as int] == c,
{
    let mut j = i;
    while j < chars.len() && chars[j] != c
        invariant
            i <= j <= chars@.len(),
            spec_find(chars@, c, i as int) == spec_find(chars@, c, j as int),
        decreases chars@.len() - j,
    {
        j += 1;
    }
    j
}

fn sub_chars(chars: &Vec<char>, a: usize, b: usize) -> (r: Vec<char>)
    requires
        a <= b <= chars@.len(),
    ensures
        r@ == chars@.subrange(a as int, b as int),
{
    let mut v: Vec<char> = Vec::new();
    let mut j = a;
    while j < b
        invariant
            a <= j <= b <= chars@.len(),
            v@ == chars@.subrange(a as int, j as int),
        decreases b - j,
    {
        let c = chars[j];
        proof {
            assert(v@.push(c) =~= chars@.subrange(a as int, j as int + 1));
        }
        v.push(c);
        j += 1;
    }
    v
}

/// The latest declaration of `key`, if any: what the last-write-wins prefix
/// table holds for it.
fn prefix_lookup(prefixes: &Vec<(String, String)>, key: &String) -> (r: Option<String>)
    ensures
        ({
            let m = prefixes_map(prefixes_pairs(prefixes@));
            match r {
                Some(v) => m.contains_key(key@) && m[key@] == v@,
                None => !m.contains_key(key@),
            }
        }),
{
    let ghost pairs = prefixes_pairs(prefixes@);
    let ghost m = prefixes_map(pairs);
    let mut k = prefixes.len();
    proof {
        assert(pairs.take(k as int) =~= pairs);
    }
    while k > 0
        invariant
            k <= prefixes@.len(),
            pairs == prefixes_pairs(prefixes@),
            m == prefixes_map(pairs),
            m.contains_key(key@) == prefixes_map(pairs.take(k as int)).contains_key(key@),
            m.contains_key(key@) ==> m[key@] == prefixes_map(pairs.take(k as int))[key@],
        decreases k,
    {
        k -= 1;
        proof {
            assert(pairs.take(k as int + 1).drop_last() =~= pairs.take(k as int));
            assert(pairs.take(k as int + 1).last() == pairs[k as int]);
            assert(pairs[k as int] == (prefixes@[k as int].0@, prefixes@[k as int].1@));
        }
        if str_eq(prefixes[k].0.as_str(), key.as_str()) {
            let v = prefixes[k].1.clone();
            return Some(v);
        }
    }
    proof {
        assert(pairs.take(0) =~= Seq::<(Seq<char>, Seq<char>)>::empty());
    }
    None
}

/// Resolution of raw IRI text against the current base.
fn resolve_iri(context: &ParseContext, text: &String) -> (r: Option<Iri>)
    ensures
        opt_iri_view(r) == spec_resolve_iri(context@.base, text@),
{
    if is_relative_iri(text.as_str()) {
        match &context.base {
            Some(b) => {
                let mut full = b.clone();
                full.append(text.as_str());
                Some(Iri(full))
            },
            None => None,
        }
    } else {
        Some(Iri(text.clone()))
    }
}

/// Resolution of a `PrefixedIri` lexeme against the prefix table; any other
/// lexeme resolves to nothing.
fn parse_prefixed_iri(lexeme: Lexeme, context: &ParseContext) -> (r: Option<Iri>)
    ensures
        ({
            match lexeme@ {
                LexemeV::PrefixedIri(t) => opt_iri_view(r) == spec_resolve_prefixed(
                    context@.prefixes,
                    t,
                ),
                _ => r is None,
            }
        }),
{
    match lexeme {
        Lexeme::PrefixedIri(text) => {
            let chars = line_chars(text.as_str());
            let f = find_char_from(&chars, ':', 0);
            if f == chars.len() {
                return None;
            }
            let g = find_char_from(&chars, ':', f + 1);
            let key = sub_chars(&chars, 0, f + 1);
            proof {
                assert(key@ =~= text@.take(f as int + 1));
            }
            let key_str = chars_to_string(&key);
            match prefix_lookup(&context.prefixes, &key_str) {
                Some(ns) => {
                    let local = sub_chars(&chars, f + 1, g);
                    let mut out = ns;
                    out.append(chars_to_string(&local).as_str());
                    Some(Iri(out))
                },
                None => None,
            }
        },
        _ => None,
    }
}

/// Resolution per `parse`: raw IRI text goes against the base, a prefixed
/// name against the prefix table, and any other lexeme resolves to nothing.
pub fn parse_iri(lexeme: &Lexeme, context: &ParseContext) -> (r: Option<Iri>)
    ensures
        ({
            match lexeme@ {
                LexemeV::Iri(t) => opt_iri_view(r) == spec_resolve_iri(context@.base, t),
                LexemeV::PrefixedIri(t) => opt_iri_view(r) == spec_resolve_prefixed(
                    context@.prefixes,
                    t,
                ),
                _ => r is None,
            }
        }),
{
    match lexeme {
        Lexeme::Iri(text) => resolve_iri(context, text),
        Lexeme::PrefixedIri(text) => parse_prefixed_iri(
            Lexeme::PrefixedIri(text.clone()),
            context,
        ),
        _ => None,
    }
}

/// A decimal digit.
pub open spec fn is_digit(c: char) -> bool {
    0x30 <= (c as u32) <= 0x39
}

/// The value of one digit.
pub open spec fn digit_val(c: char) -> int {
    (c as u32) - 0x30
}

pub open spec fn all_digits(t: Seq<char>) -> bool {
    forall|k: int| 0 <= k < t.len() ==> is_digit(#[trigger] t[k])
}

/// The value of a digit string read in base ten.
pub open spec fn digits_value(t: Seq<char>) -> int
    decreases t.len(),
{
    if t.len() == 0 {
        0
    } else {
        digits_value(t.drop_last()) * 10 + digit_val(t.last())
    }
}

/// Ten to the `n`.
pub open spec fn pow10(n: nat) -> int
    decreases n,
{
    if n == 0 {
        1
    } else {
        10 * pow10((n - 1) as nat)
    }
}

proof fn lemma_pow10_pos(n: nat)
    ensures
        pow10(n) >= 1,
    decreases n,
{
    if n > 0 {
        lemma_pow10_pos((n - 1) as nat);
    }
}

proof fn lemma_pow10_mono(a: nat, b: nat)
    requires
        a <= b,
    ensures
        pow10(a) <= pow10(b),
    decreases b,
{
    if a < b {
        lemma_pow10_mono(a, (b - 1) as nat);
        lemma_pow10_pos((b - 1) as nat);
    }
}

proof fn lemma_digits_value_bounds(t: Seq<char>)
    requires
        all_digits(t),
    ensures
        0 <= digits_value(t) < pow10(t.len()),
    decreases t.len(),
{
    if t.len() > 0 {
        assert(all_digits(t.drop_last()));
        lemma_digits_value_bounds(t.drop_last());
    }
}

proof fn lemma_digits_value_lower(t: Seq<char>)
    requires
        all_digits(t),
        t.len() > 0,
        (t[0] as u32) != 0x30,
    ensures
        digits_value(t) >= pow10((t.len() - 1) as nat),
    decreases t.len(),
{
    if t.len() > 1 {
        assert(all_digits(t.drop_last()));
        assert(t.drop_last()[0] == t[0]);
        assert((t.drop_last()[0] as u32) != 0x30);
        lemma_digits_value_lower(t.drop_last());
        assert(is_digit(t.last()));
        assert(digits_value(t) == digits_value(t.drop_last()) * 10 + digit_val(t.last()));
    } else {
        assert(digits_value(t.drop_last()) == 0);
        assert(t.last() == t[0]);
        assert(is_digit(t[0]));
        assert(digit_val(t[0]) >= 1);
    }
}

proof fn lemma_all_zeros(t: Seq<char>)
    requires
        forall|j: int| 0 <= j < t.len() ==> (#[trigger] t[j]) as u32 == 0x30,
    ensures
        digits_value(t) == 0,
    decreases t.len(),
{
    if t.len() > 0 {
        lemma_all_zeros(t.drop_last());
    }
}

proof fn lemma_leading_zeros(t: Seq<char>, k: int)
    requires
        0 <= k <= t.len(),
        forall|j: int| 0 <= j < k ==> (#[trigger] t[j]) as u32 == 0x30,
    ensures
        digits_value(t) == digits_value(t.skip(k)),
    decreases t.len(),
{
    if t.len() == k {
        lemma_all_zeros(t);
        assert(t.skip(k) =~= Seq::<char>::empty());
    } else {
        assert(forall|j: int| 0 <= j < k ==> (#[trigger] t.drop_last()[j]) as u32 == 0x30);
        lemma_leading_zeros(t.drop_last(), k);
        assert(t.drop_last().skip(k) =~= t.skip(k).drop_last());
        assert(t.skip(k).last() == t.last());
    }
}

/// The digits of a signed numeral: the text with any leading sign removed.
pub open spec fn unsigned_part(t: Seq<char>) -> Seq<char> {
    if t.len() > 0 && (t[0] == '+' || t[0] == '-') {
        t.skip(1)
    } else {
        t
    }
}

/// The signed value of an integer numeral.
pub open spec fn int_text_value(t: Seq<char>) -> int {
    if t.len() > 0 && t[0] == '-' {
        -digits_value(unsigned_part(t))
    } else {
        digits_value(unsigned_part(t))
    }
}

/// An integer bareword: optional sign, one or more digits, value in `i64`
/// range.
pub open spec fn spec_is_integer(t: Seq<char>) -> bool {
    unsigned_part(t).len() > 0 && all_digits(unsigned_part(t)) && i64::MIN <= int_text_value(t)
        <= i64::MAX
}

/// Digit-and-dot shape: digits, one dot, digits, with the dot present and at
/// least one digit on one of its sides.
pub open spec fn dec_body_valid(d: Seq<char>) -> bool {
    let p = spec_find(d, '.', 0);
    p < d.len() && all_digits(d.take(p)) && all_digits(d.skip(p + 1)) && (p > 0 || d.len() - p - 1
        > 0)
}

/// A decimal bareword: no exponent marker anywhere, optional sign, and a
/// digit-and-dot body.
pub open spec fn spec_is_decimal(t: Seq<char>) -> bool {
    spec_find(t, 'e', 0) == t.len() && spec_find(t, 'E', 0) == t.len() && dec_body_valid(
        unsigned_part(t),
    )
}

/// The exponent tail: optional sign then one or more digits.
pub open spec fn exp_valid(x: Seq<char>) -> bool {
    let y = if x.len() > 0 && (x[0] == '+' || x[0] == '-') {
        x.skip(1)
    } else {
        x
    };
    y.len() > 0 && all_digits(y)
}

/// A double bareword: optional sign, a mantissa of plain digits or
/// digit-and-dot shape, an exponent marker, then a signed digit exponent.
pub open spec fn spec_is_double(t: Seq<char>) -> bool {
    let d = unsigned_part(t);
    let pe = spec_find(d, 'e', 0);
    let pe2 = spec_find(d, 'E', 0);
    let p = if pe <= pe2 {
        pe
    } else {
        pe2
    };
    p < d.len() && ((p > 0 && all_digits(d.take(p))) || dec_body_valid(d.take(p))) && exp_valid(
        d.skip(p + 1),
    )
}

/// What a bareword stands for: the word `true` or `false`, an integer, a
/// decimal, a double — first match wins — or nothing.
pub open spec fn spec_classify_bareword(t: Seq<char>) -> Option<ObjectV> {
    if t == "true"@ {
        Some(ObjectV::Boolean(true))
    } else if t == "false"@ {
        Some(ObjectV::Boolean(false))
    } else if spec_is_integer(t) {
        Some(ObjectV::Integer(int_text_value(t) as i64))
    } else if spec_is_decimal(t) {
        Some(ObjectV::Decimal(t))
    } else if spec_is_double(t) {
        Some(ObjectV::Double(t))
    } else {
        None
    }
}

fn all_digits_range(chars: &Vec<char>, a: usize, b: usize) -> (r: bool)
    requires
        a <= b <= chars@.len(),
    ensures
        r == all_digits(chars@.subrange(a as int, b as int)),
{
    let ghost sub = chars@.subrange(a as int, b as int);
    let mut j = a;
    while j < b
        invariant
            a <= j <= b <= chars@.len(),
            sub == chars@.subrange(a as int, b as int),
            forall|k: int| 0 <= k < j - a ==> is_digit(#[trigger] sub[k]),
        decreases b - j,
    {
        let c = chars[j];
        let n = c as u32;
        if !(0x30 <= n && n <= 0x39) {
            proof {
                assert(sub[j - a] == c);
            }
            return false;
        }
        j += 1;
    }
    true
}

#[verifier::rlimit(50)]
#[verifier::loop_isolation(false)]
fn parse_integer_text(chars: &Vec<char>) -> (r: Option<i64>)
    ensures
        match r {
            Some(v) => spec_is_integer(chars@) && v == int_text_value(chars@),
            None => !spec_is_integer(chars@),
        },
{
    let n = chars.len();
    let neg = n > 0 && chars[0] == '-';
    let start: usize = if n > 0 && (chars[0] == '+' || chars[0] == '-') {
        1
    } else {
        0
    };
    let ghost d = unsigned_part(chars@);
    proof {
        assert(chars@.skip(start as int) =~= d);
    }
    if start == n {
        return None;
    }
    if !all_digits_range(chars, start, n) {
        proof {
            assert(chars@.subrange(start as int, n as int) =~= d);
        }
        return None;
    }
    proof {
        assert(chars@.subrange(start as int, n as int) =~= d);
        assert(all_digits(d));
    }
    let mut z = start;
    while z < n && chars[z] as u32 == 0x30
        invariant
            start <= z <= n,
            n == chars@.len(),
            forall|k: int| start <= k < z ==> (#[trigger] chars@[k]) as u32 == 0x30,
        decreases n - z,
    {
        z += 1;
    }
    let ghost sig = chars@.skip(z as int);
    proof {
        assert(forall|j: int| 0 <= j < z - start ==> (#[trigger] d[j]) as u32 == 0x30) by {
            assert(forall|j: int| 0 <= j < z - start ==> d[j] == chars@[j + start]);
        }
        lemma_leading_zeros(d, z as int - start as int);
        assert(d.skip(z as int - start as int) =~= sig);
        assert(digits_value(d) == digits_value(sig));
        assert(all_digits(sig));
    }
    let m = n - z;
    if m > 19 {
        proof {
            assert(sig[0] == chars@[z as int]);
            assert((sig[0] as u32) != 0x30);
            lemma_digits_value_lower(sig);
            lemma_pow10_mono(19, (sig.len() - 1) as nat);
            reveal_with_fuel(pow10, 21);
            assert(pow10(19) == 10000000000000000000);
            assert(digits_value(d) >= 10000000000000000000);
        }
        return None;
    }
    let mut acc: u64 = 0;
    let mut k = z;
    proof {
        assert(chars@.subrange(z as int, z as int) =~= Seq::<char>::empty());
        reveal_with_fuel(pow10, 21);
        assert(pow10(18) == 1000000000000000000);
        assert(pow10(19) == 10000000000000000000);
    }
    while k < n
        invariant
            z <= k <= n,
            n == chars@.len(),
            n - z <= 19,
            all_digits(d),
            d == unsigned_part(chars@),
            sig == chars@.skip(z as int),
            digits_value(d) == digits_value(sig),
            all_digits(sig),
            acc == digits_value(chars@.subrange(z as int, k as int)),
            acc < pow10((k - z) as nat),
            pow10(18) == 1000000000000000000,
            pow10(19) == 10000000000000000000,
        decreases n - k,
    {
        let c = chars[k];
        proof {
            assert(d[k - start] == chars@[k as int]);
            assert(is_digit(c));
            lemma_pow10_mono((k - z) as nat, 18);
        }
        let dg = (c as u32 - 0x30) as u64;
        let acc2 = acc * 10 + dg;
        proof {
            let sub1 = chars@.subrange(z as int, k as int + 1);
            assert(sub1.drop_last() =~= chars@.subrange(z as int, k as int));
            assert(sub1.last() == c);
            assert(acc2 == digits_value(sub1));
            assert(all_digits(sub1)) by {
                assert(forall|q: int| 0 <= q < sub1.len() ==> sub1[q] == chars@[z + q]);
                assert(forall|q: int| z <= q < k + 1 ==> chars@[q] == d[q - start]);
            }
            lemma_digits_value_bounds(sub1);
        }
        acc = acc2;
        k += 1;
    }
    proof {
        assert(chars@.subrange(z as int, n as int) =~= sig);
        assert(acc == digits_value(d));
        lemma_digits_value_bounds(d);
    }
    if !neg {
        if acc <= 9223372036854775807u64 {
            let v = acc as i64;
            Some(v)
        } else {
            None
        }
    } else {
        if acc <= 9223372036854775807u64 {
            let v = acc as i64;
            Some(-v)
        } else if acc == 9223372036854775808u64 {
            Some(i64::MIN)
        } else {
            None
        }
    }
}

fn dec_body_check(d: &Vec<char>) -> (r: bool)
    ensures
        r == dec_body_valid(d@),
{
    let n = d.len();
    let p = find_char_from(d, '.', 0);
    if p == n {
        return false;
    }
    let a = all_digits_range(d, 0, p);
    let b = all_digits_range(d, p + 1, n);
    proof {
        assert(d@.subrange(0, p as int) =~= d@.take(p as int));
        assert(d@.subrange(p as int + 1, n as int) =~= d@.skip(p as int + 1));
    }
    a && b && (p > 0 || n - p - 1 > 0)
}

fn is_decimal_text(chars: &Vec<char>) -> (r: bool)
    ensures
        r == spec_is_decimal(chars@),
{
    let n = chars.len();
    let e1 = find_char_from(chars, 'e', 0);
    if e1 != n {
        return false;
    }
    let e2 = find_char_from(chars, 'E', 0);
    if e2 != n {
        return false;
    }
    let start: usize = if n > 0 && (chars[0] == '+' || chars[0] == '-') {
        1
    } else {
        0
    };
    let d = sub_chars(chars, start, n);
    proof {
        assert(d@ =~= unsigned_part(chars@));
    }
    dec_body_check(&d)
}

fn is_double_text(chars: &Vec<char>) -> (r: bool)
    ensures
        r == spec_is_double(chars@),
{
    let n = chars.len();
    let start: usize = if n > 0 && (chars[0] == '+' || chars[0] == '-') {
        1
    } else {
        0
    };
    let d = sub_chars(chars, start, n);
    proof {
        assert(d@ =~= unsigned_part(chars@));
    }
    let m = d.len();
    let pe = find_char_from(&d, 'e', 0);
    let pe2 = find_char_from(&d, 'E', 0);
    let p = if pe <= pe2 {
        pe
    } else {
        pe2
    };
    if p == m {
        return false;
    }
    let mant_plain = p > 0 && all_digits_range(&d, 0, p);
    proof {
        assert(d@.subrange(0, p as int) =~= d@.take(p as int));
    }
    let mant_ok = if mant_plain {
        true
    } else {
        let mant = sub_chars(&d, 0, p);
        proof {
            assert(mant@ =~= d@.take(p as int));
        }
        dec_body_check(&mant)
    };
    if !mant_ok {
        return false;
    }
    let xs: usize = if p + 1 < m && (d[p + 1] == '+' || d[p + 1] == '-') {
        p + 2
    } else {
        p + 1
    };
    let tail_ok = xs < m && all_digits_range(&d, xs, m);
    proof {
        let x = d@.skip(p as int + 1);
        if p + 1 < m && (d@[p as int + 1] == '+' || d@[p as int + 1] == '-') {
            assert(x.len() > 0 && (x[0] == '+' || x[0] == '-'));
            assert(x.skip(1) =~= d@.subrange(xs as int, m as int));
        } else {
            assert(!(x.len() > 0 && (x[0] == '+' || x[0] == '-')));
            assert(x =~= d@.subrange(xs as int, m as int));
        }
    }
    tail_ok
}

/// Bareword classification: `true`/`false`, then integer, then decimal,
/// then double; anything else classifies as nothing.
fn classify_bareword(token: &String) -> (r: Option<Object>)
    ensures
        match r {
            Some(o) => spec_classify_bareword(token@) == Some(o@),
            None => spec_classify_bareword(token@) is None,
        },
{
    if str_eq(token.as_str(), "true") {
        return Some(Object::Boolean(true));
    }
    if str_eq(token.as_str(), "false") {
        return Some(Object::Boolean(false));
    }
    let chars = line_chars(token.as_str());
    match parse_integer_text(&chars) {
        Some(v) => {
            return Some(Object::Integer(v));
        },
        None => {},
    }
    if is_decimal_text(&chars) {
        return Some(Object::Decimal(token.clone()));
    }
    if is_double_text(&chars) {
        return Some(Object::Double(token.clone()));
    }
    None
}

/// The predicate that the bare keyword `a` stands for.
pub open spec fn rdf_type_iri() -> Seq<char> {
    "http://www.w3.org/1999/02/22-rdf-syntax-ns#type"@
}

/// The statement accumulator: subject, predicate and object as they fill.
pub struct AccV {
    pub subject: Option<Seq<char>>,
    pub predicate: Option<Seq<char>>,
    pub object: Option<ObjectV>,
}

/// The abstract value of an optional object.
pub open spec fn opt_object_view(o: Option<Object>) -> Option<ObjectV> {
    match o {
        Some(x) => Some(x@),
        None => None,
    }
}

/// The abstract value of the three accumulator slots.
pub open spec fn acc_view(s: Option<Iri>, p: Option<Iri>, o: Option<Object>) -> AccV {
    AccV { subject: opt_iri_view(s), predicate: opt_iri_view(p), object: opt_object_view(o) }
}

/// What one lexeme does: the triples it emits and the accumulator, document
/// state and statement-open flag it leaves. Resolvable IRIs and prefixed
/// names fill the first empty slot in subject-predicate-object order;
/// literals overwrite the object slot; separators emit a filled accumulator
/// and clear slots; directives update the state; everything unresolvable is
/// dropped and parsing continues.
pub open spec fn spec_parse_step(tok: LexemeV, acc: AccV, st: PStateV, inc: bool) -> (
    Seq<TripleV>,
    AccV,
    PStateV,
    bool,
) {
    match tok {
        LexemeV::Iri(t) => {
            if acc.subject is None && acc.predicate is None && acc.object is None {
                match spec_resolve_iri(st.base, t) {
                    Some(r) => (Seq::empty(), AccV { subject: Some(r), ..acc }, st, inc),
                    None => (Seq::empty(), acc, st, inc),
                }
            } else if acc.subject is Some && acc.predicate is None && acc.object is None {
                match spec_resolve_iri(st.base, t) {
                    Some(r) => (Seq::empty(), AccV { predicate: Some(r), ..acc }, st, inc),
                    None => (Seq::empty(), acc, st, inc),
                }
            } else if acc.subject is Some && acc.predicate is Some && acc.object is None {
                match spec_resolve_iri(st.base, t) {
                    Some(r) => (
                        Seq::empty(),
                        AccV { object: Some(ObjectV::Iri(r)), ..acc },
                        st,
                        inc,
                    ),
                    None => (Seq::empty(), acc, st, inc),
                }
            } else {
                (Seq::empty(), acc, st, inc)
            }
        },
        LexemeV::PrefixedIri(t) => {
            match spec_resolve_prefixed(st.prefixes, t) {
                Some(r) => {
                    if acc.subject is None && acc.predicate is None && acc.object is None {
                        (Seq::empty(), AccV { subject: Some(r), ..acc }, st, inc)
                    } else if acc.subject is Some && acc.predicate is None && acc.object is None {
                        (Seq::empty(), AccV { predicate: Some(r), ..acc }, st, inc)
                    } else if acc.subject is Some && acc.predicate is Some && acc.object is None {
                        (Seq::empty(), AccV { object: Some(ObjectV::Iri(r)), ..acc }, st, inc)
                    } else {
                        (Seq::empty(), acc, st, inc)
                    }
                },
                None => (Seq::empty(), acc, st, inc),
            }
        },
        LexemeV::Literal(t) => (
            Seq::empty(),
            AccV { object: Some(ObjectV::Literal(t)), ..acc },
            st,
            inc,
        ),
        LexemeV::LangLiteral(t, g) => (
            Seq::empty(),
            AccV { object: Some(ObjectV::LangLiteral(t, g)), ..acc },
            st,
            inc,
        ),
        LexemeV::DataTypeLiteral(t, dt) => {
            match spec_resolve_datatype(st, dt) {
                Some(r) => (
                    Seq::empty(),
                    AccV { object: Some(ObjectV::DataTypeLiteral(t, r)), ..acc },
                    st,
                    inc,
                ),
                None => (Seq::empty(), acc, st, inc),
            }
        },
        LexemeV::MultilineLiteral(t) => (
            Seq::empty(),
            AccV { object: Some(ObjectV::MultilineLiteral(t)), ..acc },
            st,
            inc,
        ),
        LexemeV::Prefix(l, ns) => (
            Seq::empty(),
            acc,
            PStateV { prefixes: st.prefixes.insert(l, ns), ..st },
            inc,
        ),
        LexemeV::Base(b) => (Seq::empty(), acc, PStateV { base: Some(b), ..st }, inc),
        LexemeV::A => {
            if acc.subject is Some && acc.predicate is None && acc.object is None {
                (Seq::empty(), AccV { predicate: Some(rdf_type_iri()), ..acc }, st, inc)
            } else {
                (Seq::empty(), acc, st, inc)
            }
        },
        LexemeV::ObjectListToken => {
            match (acc.subject, acc.predicate, acc.object) {
                (Some(s), Some(p), Some(o)) => (
                    seq![TripleV { subject: s, predicate: p, object: o }],
                    AccV { object: None, ..acc },
                    st,
                    inc,
                ),
                _ => (Seq::empty(), acc, st, inc),
            }
        },
        LexemeV::PredicateListToken => {
            match (acc.subject, acc.predicate, acc.object) {
                (Some(s), Some(p), Some(o)) => (
                    seq![TripleV { subject: s, predicate: p, object: o }],
                    AccV { subject: Some(s), predicate: None, object: None },
                    PStateV { subject: Some(s), ..st },
                    inc,
                ),
                _ => (Seq::empty(), acc, st, inc),
            }
        },
        LexemeV::EndToken => {
            let em = match (acc.subject, acc.predicate, acc.object) {
                (Some(s), Some(p), Some(o)) => seq![TripleV { subject: s, predicate: p, object: o }],
                _ => Seq::<TripleV>::empty(),
            };
            (
                em,
                AccV { subject: None, predicate: None, object: None },
                PStateV { subject: None, ..st },
                false,
            )
        },
        LexemeV::Unknown(t) => {
            match spec_classify_bareword(t) {
                Some(o) => (Seq::empty(), AccV { object: Some(o), ..acc }, st, inc),
                None => (Seq::empty(), acc, st, inc),
            }
        },
        LexemeV::Comment(_) => (Seq::empty(), acc, st, inc),
    }
}

/// The fold of `spec_parse_step` over the lexemes from `i` on; at the end a
/// subject standing alone in a still-open statement is carried into the
/// state for the next call.
pub open spec fn spec_parse_from(
    toks: Seq<LexemeV>,
    i: int,
    acc: AccV,
    st: PStateV,
    inc: bool,
) -> (Seq<TripleV>, PStateV)
    decreases toks.len() - i,
{
    if !(0 <= i < toks.len()) {
        let stf = if inc && acc.subject is Some && acc.predicate is None && acc.object is None {
            PStateV { subject: acc.subject, ..st }
        } else {
            st
        };
        (Seq::empty(), stf)
    } else {
        let (em, acc2, st2, inc2) = spec_parse_step(toks[i], acc, st, inc);
        let r = spec_parse_from(toks, i + 1, acc2, st2, inc2);
        (em + r.0, r.1)
    }
}

/// What one call of the parser produces: the triples of this lexeme
/// sequence, and the document state left behind. The accumulator starts from
/// the carried subject, and the statement counts as open until an end token.
pub open spec fn spec_parse(toks: Seq<LexemeV>, st: PStateV) -> (Seq<TripleV>, PStateV) {
    spec_parse_from(
        toks,
        0,
        AccV { subject: st.subject, predicate: None, object: None },
        st,
        true,
    )
}

proof fn lemma_prefixes_push(v: Seq<(String, String)>, k: String, val: String)
    ensures
        prefixes_map(prefixes_pairs(v.push((k, val)))) == prefixes_map(prefixes_pairs(v)).insert(
            k@,
            val@,
        ),
{
    let pn = prefixes_pairs(v.push((k, val)));
    assert(pn.drop_last() =~= prefixes_pairs(v));
    assert(pn.last() == (k@, val@));
    assert(pn.len() == v.len() + 1);
}

/// Datatype annotation resolution: IRI first, prefixed name second.
fn resolve_datatype(context: &ParseContext, dt: &String) -> (r: Option<String>)
    ensures
        opt_string_view(r) == spec_resolve_datatype(context@, dt@),
{
    match resolve_iri(context, dt) {
        Some(iri) => {
            let Iri(x) = iri;
            Some(x)
        },
        None => match parse_prefixed_iri(Lexeme::PrefixedIri(dt.clone()), context) {
            Some(iri) => {
                let Iri(x) = iri;
                Some(x)
            },
            None => None,
        },
    }
}

/// What a lexeme converts to when taken as an object on its own.
pub open spec fn spec_object_of_lexeme(l: LexemeV) -> Option<ObjectV> {
    match l {
        LexemeV::Iri(t) => Some(ObjectV::Iri(t)),
        LexemeV::Literal(t) => Some(ObjectV::Literal(t)),
        LexemeV::LangLiteral(t, g) => Some(ObjectV::LangLiteral(t, g)),
        LexemeV::DataTypeLiteral(t, d) => Some(ObjectV::DataTypeLiteral(t, d)),
        _ => None,
    }
}

impl Object {
    /// The object form of a resolved IRI.
    pub fn from(item: Iri) -> (r: Object)
        ensures
            r@ == ObjectV::Iri(item@),
    {
        let Iri(x) = item;
        Object::Iri(x)
    }

    /// The object a lexeme converts to: IRIs and the single-line literal
    /// forms convert, anything else is refused.
    pub fn try_from(lexeme: Lexeme) -> (r: Result<Object, ()>)
        ensures
            match r {
                Ok(o) => spec_object_of_lexeme(lexeme@) == Some(o@),
                Err(_) => spec_object_of_lexeme(lexeme@) is None,
            },
    {
        match lexeme {
            Lexeme::Iri(iri) => Ok(Object::Iri(iri)),
            Lexeme::Literal(literal) => Ok(Object::Literal(literal)),
            Lexeme::LangLiteral(literal, lang) => Ok(Object::LangLiteral(literal, lang)),
            Lexeme::DataTypeLiteral(literal, datatype) => Ok(
                Object::DataTypeLiteral(literal, datatype),
            ),
            _ => Err(()),
        }
    }
}

impl Iri {
    /// The raw IRI a lexeme carries, for an IRI lexeme alone.
    pub fn try_from(lexeme: Lexeme) -> (r: Result<Iri, ()>)
        ensures
            match r {
                Ok(i) => lexeme@ == LexemeV::Iri(i@),
                Err(_) => !(lexeme@ is Iri),
            },
    {
        match lexeme {
            Lexeme::Iri(iri) => Ok(Iri(iri)),
            _ => Err(()),
        }
    }
}

/// A statement of three resolvable IRI tokens closed by an end token yields
/// exactly one triple, pairing subject, predicate and object in order, and
/// leaves no pending subject behind.
pub proof fn lemma_single_statement(s: Seq<char>, p: Seq<char>, o: Seq<char>, st: PStateV)
    requires
        st.subject is None,
    ensures
        ({
            let toks = seq![
                LexemeV::Iri(s),
                LexemeV::Iri(p),
                LexemeV::Iri(o),
                LexemeV::EndToken,
            ];
            match (
                spec_resolve_iri(st.base, s),
                spec_resolve_iri(st.base, p),
                spec_resolve_iri(st.base, o),
            ) {
                (Some(rs), Some(rp), Some(ro)) => spec_parse(toks, st).0 == seq![
                    TripleV { subject: rs, predicate: rp, object: ObjectV::Iri(ro) },
                ] && spec_parse(toks, st).1 == (PStateV { subject: None, ..st }),
                _ => true,
            }
        }),
{
    reveal_with_fuel(spec_parse_from, 8);
    let toks = seq![LexemeV::Iri(s), LexemeV::Iri(p), LexemeV::Iri(o), LexemeV::EndToken];
    match (
        spec_resolve_iri(st.base, s),
        spec_resolve_iri(st.base, p),
        spec_resolve_iri(st.base, o),
    ) {
        (Some(rs), Some(rp), Some(ro)) => {
            assert(spec_parse(toks, st).0 =~= seq![
                TripleV { subject: rs, predicate: rp, object: ObjectV::Iri(ro) },
            ]);
        },
        _ => {},
    }
}

/// A predicate list shares its subject: `s p1 o1 ; p2 o2 .` yields two
/// triples with the same subject, pairing each predicate with its own
/// object.
pub proof fn lemma_predicate_list(
    s: Seq<char>,
    p1: Seq<char>,
    o1: Seq<char>,
    p2: Seq<char>,
    o2: Seq<char>,
    st: PStateV,
)
    requires
        st.subject is None,
    ensures
        ({
            let toks = seq![
                LexemeV::Iri(s),
                LexemeV::Iri(p1),
                LexemeV::Iri(o1),
                LexemeV::PredicateListToken,
                LexemeV::Iri(p2),
                LexemeV::Iri(o2),
                LexemeV::EndToken,
            ];
            match (
                spec_resolve_iri(st.base, s),
                spec_resolve_iri(st.base, p1),
                spec_resolve_iri(st.base, o1),
                spec_resolve_iri(st.base, p2),
                spec_resolve_iri(st.base, o2),
            ) {
                (Some(rs), Some(rp1), Some(ro1), Some(rp2), Some(ro2)) => spec_parse(toks, st).0
                    == seq![
                    TripleV { subject: rs, predicate: rp1, object: ObjectV::Iri(ro1) },
                    TripleV { subject: rs, predicate: rp2, object: ObjectV::Iri(ro2) },
                ],
                _ => true,
            }
        }),
{
    reveal_with_fuel(spec_parse_from, 10);
    let toks = seq![
        LexemeV::Iri(s),
        LexemeV::Iri(p1),
        LexemeV::Iri(o1),
        LexemeV::PredicateListToken,
        LexemeV::Iri(p2),
        LexemeV::Iri(o2),
        LexemeV::EndToken,
    ];
    match (
        spec_resolve_iri(st.base, s),
        spec_resolve_iri(st.base, p1),
        spec_resolve_iri(st.base, o1),
        spec_resolve_iri(st.base, p2),
        spec_resolve_iri(st.base, o2),
    ) {
        (Some(rs), Some(rp1), Some(ro1), Some(rp2), Some(ro2)) => {
            assert(spec_parse(toks, st).0 =~= seq![
                TripleV { subject: rs, predicate: rp1, object: ObjectV::Iri(ro1) },
                TripleV { subject: rs, predicate: rp2, object: ObjectV::Iri(ro2) },
            ]);
        },
        _ => {},
    }
}

/// An object list shares subject and predicate: `s p o1 , o2 .` yields two
/// triples differing only in their objects.
pub proof fn lemma_object_list(
    s: Seq<char>,
    p: Seq<char>,
    o1: Seq<char>,
    o2: Seq<char>,
    st: PStateV,
)
    requires
        st.subject is None,
    ensures
        ({
            let toks = seq![
                LexemeV::Iri(s),
                LexemeV::Iri(p),
                LexemeV::Iri(o1),
                LexemeV::ObjectListToken,
                LexemeV::Iri(o2),
                LexemeV::EndToken,
            ];
            match (
                spec_resolve_iri(st.base, s),
                spec_resolve_iri(st.base, p),
                spec_resolve_iri(st.base, o1),
                spec_resolve_iri(st.base, o2),
            ) {
                (Some(rs), Some(rp), Some(ro1), Some(ro2)) => spec_parse(toks, st).0 == seq![
                    TripleV { subject: rs, predicate: rp, object: ObjectV::Iri(ro1) },
                    TripleV { subject: rs, predicate: rp, object: ObjectV::Iri(ro2) },
                ],
                _ => true,
            }
        }),
{
    reveal_with_fuel(spec_parse_from, 10);
    let toks = seq![
        LexemeV::Iri(s),
        LexemeV::Iri(p),
        LexemeV::Iri(o1),
        LexemeV::ObjectListToken,
        LexemeV::Iri(o2),
        LexemeV::EndToken,
    ];
    match (
        spec_resolve_iri(st.base, s),
        spec_resolve_iri(st.base, p),
        spec_resolve_iri(st.base, o1),
        spec_resolve_iri(st.base, o2),
    ) {
        (Some(rs), Some(rp), Some(ro1), Some(ro2)) => {
            assert(spec_parse(toks, st).0 =~= seq![
                TripleV { subject: rs, predicate: rp, object: ObjectV::Iri(ro1) },
                TripleV { subject: rs, predicate: rp, object: ObjectV::Iri(ro2) },
            ]);
        },
        _ => {},
    }
}

/// A statement of two resolvable IRI tokens and a bareword closed by an end
/// token yields exactly the one triple whose object is the bareword's
/// classified value — the words `true` and `false`, then integers in `i64`
/// range, then decimals with a dot and no exponent, then doubles with an
/// exponent, first match winning — and no triple at all when the bareword
/// classifies as nothing.
pub proof fn lemma_bareword_statement(s: Seq<char>, p: Seq<char>, w: Seq<char>, st: PStateV)
    requires
        st.subject is None,
    ensures
        ({
            let toks = seq![
                LexemeV::Iri(s),
                LexemeV::Iri(p),
                LexemeV::Unknown(w),
                LexemeV::EndToken,
            ];
            match (spec_resolve_iri(st.base, s), spec_resolve_iri(st.base, p)) {
                (Some(rs), Some(rp)) => match spec_classify_bareword(w) {
                    Some(o) => spec_parse(toks, st).0 == seq![
                        TripleV { subject: rs, predicate: rp, object: o },
                    ],
                    None => spec_parse(toks, st).0 == Seq::<TripleV>::empty(),
                },
                _ => true,
            }
        }),
{
    reveal_with_fuel(spec_parse_from, 8);
    let toks = seq![LexemeV::Iri(s), LexemeV::Iri(p), LexemeV::Unknown(w), LexemeV::EndToken];
    match (spec_resolve_iri(st.base, s), spec_resolve_iri(st.base, p)) {
        (Some(rs), Some(rp)) => match spec_classify_bareword(w) {
            Some(o) => {
                assert(spec_parse(toks, st).0 =~= seq![
                    TripleV { subject: rs, predicate: rp, object: o },
                ]);
            },
            None => {
                assert(spec_parse(toks, st).0 =~= Seq::<TripleV>::empty());
            },
        },
        _ => {},
    }
}

/// Re-declaring a prefix label overwrites its namespace: after two
/// declarations of one label the table holds the later namespace, and a
/// prefixed name with that label resolves against the later namespace.
pub proof fn lemma_prefix_redeclare(
    l: Seq<char>,
    n1: Seq<char>,
    n2: Seq<char>,
    t: Seq<char>,
    st: PStateV,
)
    ensures
        ({
            let toks = seq![LexemeV::Prefix(l, n1), LexemeV::Prefix(l, n2)];
            let st2 = spec_parse(toks, st).1;
            let f = spec_find(t, ':', 0);
            &&& spec_parse(toks, st).0 == Seq::<TripleV>::empty()
            &&& st2.prefixes == st.prefixes.insert(l, n1).insert(l, n2)
            &&& st2.prefixes.contains_key(l) && st2.prefixes[l] == n2
            &&& (f < t.len() && t.take(f + 1) == l) ==> spec_resolve_prefixed(st2.prefixes, t)
                == Some(n2 + t.subrange(f + 1, spec_find(t, ':', f + 1)))
        }),
{
    reveal_with_fuel(spec_parse_from, 6);
    let toks = seq![LexemeV::Prefix(l, n1), LexemeV::Prefix(l, n2)];
    assert(spec_parse(toks, st).0 =~= Seq::<TripleV>::empty());
}

/// With a base IRI in force, a schemeless reference resolves to the plain
/// concatenation of base and reference, with no normalization; text that
/// carries a scheme stands unchanged.
pub proof fn lemma_relative_resolution(b: Seq<char>, t: Seq<char>)
    ensures
        uri_without_scheme(t) ==> spec_resolve_iri(Some(b), t) == Some(b + t),
        !uri_without_scheme(t) ==> spec_resolve_iri(Some(b), t) == Some(t),
        spec_resolve_iri(None, t) is Some <==> !uri_without_scheme(t),
{
}

/// A statement whose subject is a prefixed name with no matching prefix
/// entry emits no triple, and the parser carries on in a clean state.
pub proof fn lemma_unresolved_prefixed_name(x: Seq<char>, p: Seq<char>, o: Seq<char>, st: PStateV)
    requires
        st.subject is None,
    ensures
        ({
            let toks = seq![
                LexemeV::PrefixedIri(x),
                LexemeV::Iri(p),
                LexemeV::Iri(o),
                LexemeV::EndToken,
            ];
            spec_resolve_prefixed(st.prefixes, x) is None ==> spec_parse(toks, st).0
                == Seq::<TripleV>::empty() && spec_parse(toks, st).1 == (PStateV {
                subject: None,
                ..st
            })
        }),
{
    reveal_with_fuel(spec_parse_from, 8);
    let toks = seq![
        LexemeV::PrefixedIri(x),
        LexemeV::Iri(p),
        LexemeV::Iri(o),
        LexemeV::EndToken,
    ];
    if spec_resolve_prefixed(st.prefixes, x) is None {
        assert(spec_parse(toks, st).0 =~= Seq::<TripleV>::empty());
    }
}

/// The parser: folds the lexemes into triples, updating the document state
/// as directives, separators and statement ends go by.
#[verifier::rlimit(100)]
pub fn parse(lexemes: &Vec<Lexeme>, context: &mut ParseContext) -> (triples: Vec<Triple>)
    ensures
        triples_view(triples@) == spec_parse(crate::lexer::lexemes_view(lexemes@), old(context)@).0,
        final(context)@ == spec_parse(crate::lexer::lexemes_view(lexemes@), old(context)@).1,
{
    let ghost toks = crate::lexer::lexemes_view(lexemes@);
    let ghost st0 = context@;
    let mut triples: Vec<Triple> = Vec::new();
    let mut subject: Option<Iri> = match &context.subject {
        Some(s) => Some(s.clone()),
        None => None,
    };
    let mut predicate: Option<Iri> = None;
    let mut object: Option<Object> = None;
    let mut inc = true;
    let ghost mut emitted: Seq<TripleV> = Seq::empty();
    let mut i: usize = 0;
    proof {
        assert(acc_view(subject, predicate, object) == (AccV {
            subject: st0.subject,
            predicate: None,
            object: None,
        }));
        assert(emitted + spec_parse_from(toks, 0, acc_view(subject, predicate, object), st0, true).0
            =~= spec_parse_from(toks, 0, acc_view(subject, predicate, object), st0, true).0);
        assert(triples_view(triples@) =~= emitted);
    }
    while i < lexemes.len()
        invariant
            i <= lexemes@.len(),
            toks == crate::lexer::lexemes_view(lexemes@),
            toks.len() == lexemes@.len(),
            triples_view(triples@) == emitted,
            spec_parse(toks, st0).0 == emitted + spec_parse_from(
                toks,
                i as int,
                acc_view(subject, predicate, object),
                context@,
                inc,
            ).0,
            spec_parse(toks, st0).1 == spec_parse_from(
                toks,
                i as int,
                acc_view(subject, predicate, object),
                context@,
                inc,
            ).1,
        decreases lexemes@.len() - i,
    {
        let ghost i0 = i as int;
        let ghost acc0 = acc_view(subject, predicate, object);
        let ghost stc0 = context@;
        let ghost inc0 = inc;
        proof {
            assert(toks[i0] == lexemes@[i0]@);
        }
        let lex = &lexemes[i];
        match lex {
            Lexeme::Iri(text) => {
                if subject.is_none() && predicate.is_none() && object.is_none() {
                    match resolve_iri(context, text) {
                        Some(r) => {
                            subject = Some(r);
                        },
                        None => {},
                    }
                } else if subject.is_some() && predicate.is_none() && object.is_none() {
                    match resolve_iri(context, text) {
                        Some(r) => {
                            predicate = Some(r);
                        },
                        None => {},
                    }
                } else if subject.is_some() && predicate.is_some() && object.is_none() {
                    match resolve_iri(context, text) {
                        Some(r) => {
                            let Iri(x) = r;
                            object = Some(Object::Iri(x));
                        },
                        None => {},
                    }
                }
            },
            Lexeme::PrefixedIri(text) => {
                let r = parse_prefixed_iri(Lexeme::PrefixedIri(text.clone()), context);
                match r {
                    Some(iri) => {
                        if subject.is_none() && predicate.is_none() && object.is_none() {
                            subject = Some(iri);
                        } else if subject.is_some() && predicate.is_none() && object.is_none() {
                            predicate = Some(iri);
                        } else if subject.is_some() && predicate.is_some() && object.is_none() {
                            let Iri(x) = iri;
                            object = Some(Object::Iri(x));
                        }
                    },
                    None => {},
                }
            },
            Lexeme::Literal(text) => {
                object = Some(Object::Literal(text.clone()));
            },
            Lexeme::LangLiteral(text, lang) => {
                object = Some(Object::LangLiteral(text.clone(), lang.clone()));
            },
            Lexeme::DataTypeLiteral(text, datatype) => {
                match resolve_datatype(context, datatype) {
                    Some(r) => {
                        object = Some(Object::DataTypeLiteral(text.clone(), r));
                    },
                    None => {},
                }
            },
            Lexeme::MultilineLiteral(text) => {
                object = Some(Object::MultilineLiteral(text.clone()));
            },
            Lexeme::Prefix(key, value) => {
                let ghost pv = context.prefixes@;
                let ck = key.clone();
                let cv = value.clone();
                proof {
                    lemma_prefixes_push(pv, ck, cv);
                }
                context.prefixes.push((ck, cv));
            },
            Lexeme::Base(base) => {
                context.base = Some(base.clone());
            },
            Lexeme::A => {
                if subject.is_some() && predicate.is_none() && object.is_none() {
                    predicate = Some(
                        Iri(String::from_str("http://www.w3.org/1999/02/22-rdf-syntax-ns#type")),
                    );
                }
            },
            Lexeme::ObjectListToken => {
                if subject.is_some() && predicate.is_some() && object.is_some() {
                    if let (Some(s), Some(p), Some(o)) = (&subject, &predicate, &object) {
                        let t = Triple { subject: s.clone(), predicate: p.clone(), object: o.clone() };
                        proof {
                            lemma_triples_view_push(triples@, t);
                        }
                        triples.push(t);
                        proof {
                            emitted = emitted + seq![
                                TripleV {
                                    subject: s@,
                                    predicate: p@,
                                    object: o@,
                                },
                            ];
                            assert(triples_view(triples@) =~= emitted);
                        }
                    }
                    object = None;
                }
            },
            Lexeme::PredicateListToken => {
                if subject.is_some() && predicate.is_some() && object.is_some() {
                    if let (Some(s), Some(p), Some(o)) = (&subject, &predicate, &object) {
                        let t = Triple { subject: s.clone(), predicate: p.clone(), object: o.clone() };
                        proof {
                            lemma_triples_view_push(triples@, t);
                        }
                        triples.push(t);
                        proof {
                            emitted = emitted + seq![
                                TripleV {
                                    subject: s@,
                                    predicate: p@,
                                    object: o@,
                                },
                            ];
                            assert(triples_view(triples@) =~= emitted);
                        }
                        context.subject = Some(s.clone());
                    }
                    predicate = None;
                    object = None;
                }
            },
            Lexeme::EndToken => {
                if subject.is_some() && predicate.is_some() && object.is_some() {
                    if let (Some(s), Some(p), Some(o)) = (&subject, &predicate, &object) {
                        let t = Triple { subject: s.clone(), predicate: p.clone(), object: o.clone() };
                        proof {
                            lemma_triples_view_push(triples@, t);
                        }
                        triples.push(t);
                        proof {
                            emitted = emitted + seq![
                                TripleV {
                                    subject: s@,
                                    predicate: p@,
                                    object: o@,
                                },
                            ];
                            assert(triples_view(triples@) =~= emitted);
                        }
                    }
                }
                subject = None;
                predicate = None;
                object = None;
                context.subject = None;
                inc = false;
            },
            Lexeme::Unknown(token) => {
                match classify_bareword(token) {
                    Some(o) => {
                        object = Some(o);
                    },
                    None => {},
                }
            },
            Lexeme::Comment(_) => {},
        }
        proof {
            let step = spec_parse_step(toks[i0], acc0, stc0, inc0);
            assert(step.1 == acc_view(subject, predicate, object));
            assert(step.2 == context@);
            assert(step.3 == inc);
            assert(emitted =~= triples_view(triples@));
            assert(spec_parse_from(toks, i0, acc0, stc0, inc0).0 =~= step.0 + spec_parse_from(
                toks,
                i0 + 1,
                acc_view(subject, predicate, object),
                context@,
                inc,
            ).0);
            assert(spec_parse(toks, st0).0 =~= emitted + spec_parse_from(
                toks,
                i0 + 1,
                acc_view(subject, predicate, object),
                context@,
                inc,
            ).0);
        }
        i += 1;
    }
    if inc && predicate.is_none() && object.is_none() {
        if let Some(s) = &subject {
            context.subject = Some(s.clone());
        }
    }
    proof {
        assert(spec_parse(toks, st0).0 =~= triples_view(triples@));
        assert(spec_parse(toks, st0).1 == context@);
    }
    triples
}

} // verus!
