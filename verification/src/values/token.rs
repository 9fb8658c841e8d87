//! The configuration tokenizer: turns source text into a stream of tokens
//! (numbers, strings, booleans, punctuation, type keywords, identifiers,
//! comments), each with its character span. Whitespace is skipped; the
//! longest match wins, keywords before identifiers; text that starts no
//! token fails the scan with its position.

use vstd::prelude::*;

use crate::values::Decimal;
use crate::diag::Span;

verus! {

/// Whitespace skipped between tokens: space, tab, line feed, form feed.
pub open spec fn is_ws_char(c: char) -> bool {
    c == ' ' || c == '\t' || c == '\n' || c == '\u{c}'
}

/// A decimal digit.
pub open spec fn is_digit_char(c: char) -> bool {
    48 <= c as u32 <= 57
}

/// The value of a decimal digit.
pub open spec fn digit_val(c: char) -> u8 {
    (c as u32 - 48) as u8
}

/// A lowercase letter, the first character of an identifier.
pub open spec fn is_lower_char(c: char) -> bool {
    97 <= c as u32 <= 122
}

/// A character that may continue an identifier: a lowercase letter, a digit
/// or an underscore.
pub open spec fn is_ident_char(c: char) -> bool {
    is_lower_char(c) || is_digit_char(c) || c == '_'
}

/// Case-insensitive match of one character against a lowercase letter.
pub open spec fn ci_eq(a: char, b: char) -> bool {
    a == b || a as u32 + 32 == b as u32
}

/// The end of the whitespace run starting at `i`.
pub open spec fn ws_end(s: Seq<char>, i: int) -> int
    decreases s.len() - i,
{
    if 0 <= i < s.len() && is_ws_char(s[i]) {
        ws_end(s, i + 1)
    } else {
        i
    }
}

/// The end of the digit run starting at `i`.
pub open spec fn digits_end(s: Seq<char>, i: int) -> int
    decreases s.len() - i,
{
    if 0 <= i < s.len() && is_digit_char(s[i]) {
        digits_end(s, i + 1)
    } else {
        i
    }
}

/// The end of the identifier-character run starting at `i`.
pub open spec fn ident_end(s: Seq<char>, i: int) -> int
    decreases s.len() - i,
{
    if 0 <= i < s.len() && is_ident_char(s[i]) {
        ident_end(s, i + 1)
    } else {
        i
    }
}

/// The position of the next quote character `q` at or after `i`, or the text
/// length when there is none.
pub open spec fn quote_end(s: Seq<char>, i: int, q: char) -> int
    decreases s.len() - i,
{
    if 0 <= i < s.len() {
        if s[i] == q {
            i
        } else {
            quote_end(s, i + 1, q)
        }
    } else {
        s.len() as int
    }
}

/// The position of the next line feed at or after `i`, or the text length
/// when there is none.
pub open spec fn line_end(s: Seq<char>, i: int) -> int
    decreases s.len() - i,
{
    if 0 <= i < s.len() {
        if s[i] == '\n' {
            i
        } else {
            line_end(s, i + 1)
        }
    } else {
        s.len() as int
    }
}

/// Run ends lie between their start and the text length.
pub proof fn lemma_run_bounds(s: Seq<char>, i: int)
    requires
        0 <= i <= s.len(),
    ensures
        i <= ws_end(s, i) <= s.len(),
        i <= digits_end(s, i) <= s.len(),
        i <= ident_end(s, i) <= s.len(),
        i <= line_end(s, i) <= s.len(),
    decreases s.len() - i,
{
    if i < s.len() {
        lemma_run_bounds(s, i + 1);
    }
}

fn is_ws(c: char) -> (r: bool)
    ensures
        r == is_ws_char(c),
{
    c == ' ' || c == '\t' || c == '\n' || c == '\u{c}'
}

fn is_digit(c: char) -> (r: bool)
    ensures
        r == is_digit_char(c),
{
    let u = c as u32;
    48 <= u && u <= 57
}

pub(crate) fn is_lower_exec(c: char) -> (r: bool)
    ensures
        r == is_lower_char(c),
{
    let u = c as u32;
    97 <= u && u <= 122
}

fn is_ident(c: char) -> (r: bool)
    ensures
        r == is_ident_char(c),
{
    is_lower_exec(c) || is_digit(c) || c == '_'
}

pub(crate) fn ci_eq_exec(a: char, b: char) -> (r: bool)
    ensures
        r == ci_eq(a, b),
{
    a == b || a as u32 + 32 == b as u32
}

pub(crate) fn find_ws_end(s: &[char], i: usize) -> (r: usize)
    requires
        i <= s@.len(),
    ensures
        r == ws_end(s@, i as int),
        i <= r <= s@.len(),
{
    let mut j = i;
    while j < s.len() && is_ws(s[j])
        invariant
            i <= j <= s@.len(),
            ws_end(s@, i as int) == ws_end(s@, j as int),
        decreases s@.len() - j,
    {
        j = j + 1;
    }
    j
}

pub(crate) fn find_digits_end(s: &[char], i: usize) -> (r: usize)
    requires
        i <= s@.len(),
    ensures
        r == digits_end(s@, i as int),
        i <= r <= s@.len(),
{
    let mut j = i;
    while j < s.len() && is_digit(s[j])
        invariant
            i <= j <= s@.len(),
            digits_end(s@, i as int) == digits_end(s@, j as int),
        decreases s@.len() - j,
    {
        j = j + 1;
    }
    j
}

pub(crate) fn find_ident_end(s: &[char], i: usize) -> (r: usize)
    requires
        i <= s@.len(),
    ensures
        r == ident_end(s@, i as int),
        i <= r <= s@.len(),
{
    let mut j = i;
    while j < s.len() && is_ident(s[j])
        invariant
            i <= j <= s@.len(),
            ident_end(s@, i as int) == ident_end(s@, j as int),
        decreases s@.len() - j,
    {
        j = j + 1;
    }
    j
}

pub(crate) fn find_quote_end(s: &[char], i: usize, q: char) -> (r: usize)
    requires
        i <= s@.len(),
    ensures
        r == quote_end(s@, i as int, q),
        i <= r <= s@.len(),
        r < s@.len() ==> s@[r as int] == q,
{
    let mut j = i;
    while j < s.len() && s[j] != q
        invariant
            i <= j <= s@.len(),
            quote_end(s@, i as int, q) == quote_end(s@, j as int, q),
        decreases s@.len() - j,
    {
        j = j + 1;
    }
    j
}

pub(crate) fn find_line_end(s: &[char], i: usize) -> (r: usize)
    requires
        i <= s@.len(),
    ensures
        r == line_end(s@, i as int),
        i <= r <= s@.len(),
{
    let mut j = i;
    while j < s.len() && s[j] != '\n'
        invariant
            i <= j <= s@.len(),
            line_end(s@, i as int) == line_end(s@, j as int),
        decreases s@.len() - j,
    {
        j = j + 1;
    }
    j
}

/// The mathematical model of a token: digit and character sequences instead
/// of vectors and strings, mathematical integers instead of machine ones.
pub enum TokenModel {
    FNumber(bool, Seq<u8>, Seq<u8>),
    SNumber(int),
    UNumber(int),
    StrLit(Seq<char>),
    BoolLit(bool),
    SqClose,
    SqOpen,
    CyClose,
    CyOpen,
    Comma,
    Semicolon,
    Eq,
    EqD,
    KwNumber,
    KwString,
    KwBool,
    KwObject,
    KwArray,
    KwAny,
    Ident(Seq<char>),
    Comment(Seq<char>),
}

/// One token of the configuration language.
#[derive(Debug, PartialEq)]
pub enum Variant {
    /// A decimal literal, normalized.
    FNumber(Decimal),
    /// An explicitly signed integer literal.
    SNumber(i64),
    /// An unsigned integer literal.
    UNumber(u64),
    /// A quoted string literal, quotes removed, content verbatim.
    String(String),
    /// A boolean literal, case-insensitive.
    Bool(bool),
    SqClose,
    SqOpen,
    CyClose,
    CyOpen,
    Comma,
    Semicolon,
    Eq,
    EqD,
    KwNumber,
    KwString,
    KwBool,
    KwObject,
    KwArray,
    KwAny,
    /// An identifier: a lowercase letter, then lowercase letters, digits or
    /// underscores.
    Ident(String),
    /// A comment, from `#` to the end of the line, kept as a token and
    /// filtered out by the parser.
    Comment(String),
}

impl Variant {
    pub open spec fn model(self) -> TokenModel {
        match self {
            Variant::FNumber(d) => TokenModel::FNumber(d.neg, d.int_digits@, d.frac_digits@),
            Variant::SNumber(v) => TokenModel::SNumber(v as int),
            Variant::UNumber(v) => TokenModel::UNumber(v as int),
            Variant::String(st) => TokenModel::StrLit(st@),
            Variant::Bool(b) => TokenModel::BoolLit(b),
            Variant::SqClose => TokenModel::SqClose,
            Variant::SqOpen => TokenModel::SqOpen,
            Variant::CyClose => TokenModel::CyClose,
            Variant::CyOpen => TokenModel::CyOpen,
            Variant::Comma => TokenModel::Comma,
            Variant::Semicolon => TokenModel::Semicolon,
            Variant::Eq => TokenModel::Eq,
            Variant::EqD => TokenModel::EqD,
            Variant::KwNumber => TokenModel::KwNumber,
            Variant::KwString => TokenModel::KwString,
            Variant::KwBool => TokenModel::KwBool,
            Variant::KwObject => TokenModel::KwObject,
            Variant::KwArray => TokenModel::KwArray,
            Variant::KwAny => TokenModel::KwAny,
            Variant::Ident(st) => TokenModel::Ident(st@),
            Variant::Comment(st) => TokenModel::Comment(st@),
        }
    }

    /// Whether this token may begin a value expression.
    pub open spec fn spec_is_expr_decl(self) -> bool {
        self is String || self is UNumber || self is SNumber || self is FNumber || self is SqOpen
            || self is CyOpen || self is Bool
    }

    /// Whether this token may begin a type expression.
    pub open spec fn spec_is_type_decl(self) -> bool {
        self is KwNumber || self is KwString || self is KwArray || self is KwObject
            || self is KwBool || self is KwAny || self is SqOpen || self is CyOpen
    }

    /// Whether this token may begin a value expression.
    pub fn is_expr_decl(&self) -> (r: bool)
        ensures
            r == self.spec_is_expr_decl(),
    {
        matches!(
            self,
            Variant::String(_) | Variant::UNumber(_) | Variant::SNumber(_) | Variant::FNumber(_)
                | Variant::SqOpen | Variant::CyOpen | Variant::Bool(_),
        )
    }

    /// Whether this token may begin a type expression.
    pub fn is_type_decl(&self) -> (r: bool)
        ensures
            r == self.spec_is_type_decl(),
    {
        matches!(
            self,
            Variant::KwNumber | Variant::KwString | Variant::KwArray | Variant::KwObject
                | Variant::KwBool | Variant::KwAny | Variant::SqOpen | Variant::CyOpen,
        )
    }
}

/// The length of the unsigned-integer match at `i`: a bare zero, or a run
/// led by a nonzero digit.
pub open spec fn unsigned_len(s: Seq<char>, i: int) -> int {
    if s[i] == '0' {
        1
    } else if 49 <= s[i] as u32 <= 57 {
        digits_end(s, i + 1) - i
    } else {
        0
    }
}

/// The length of the signed-integer match at `i`: a sign, then a run led by
/// a nonzero digit.
pub open spec fn signed_len(s: Seq<char>, i: int) -> int {
    if (s[i] == '+' || s[i] == '-') && i + 1 < s.len() && 49 <= s[i + 1] as u32 <= 57 {
        digits_end(s, i + 2) - i
    } else {
        0
    }
}

/// The length of the decimal match at `i`: an optional sign, digits, a
/// mandatory point, digits; either digit group may be empty.
pub open spec fn float_len(s: Seq<char>, i: int) -> int {
    let j = if s[i] == '+' || s[i] == '-' {
        i + 1
    } else {
        i
    };
    let d1 = digits_end(s, j);
    if d1 < s.len() && s[d1] == '.' {
        digits_end(s, d1 + 1) - i
    } else {
        0
    }
}

/// The length of the string-literal match at `i`: a quote, verbatim content
/// without that quote, the closing quote. An unclosed quote matches nothing.
pub open spec fn string_len(s: Seq<char>, i: int) -> int {
    if s[i] == '"' || s[i] == '\'' {
        let e = quote_end(s, i + 1, s[i]);
        if e < s.len() {
            e + 1 - i
        } else {
            0
        }
    } else {
        0
    }
}

/// The length of the comment match at `i`: `#` to the end of the line.
pub open spec fn comment_len(s: Seq<char>, i: int) -> int {
    if s[i] == '#' {
        line_end(s, i) - i
    } else {
        0
    }
}

/// The length of the identifier match at `i`.
pub open spec fn ident_len(s: Seq<char>, i: int) -> int {
    if is_lower_char(s[i]) {
        ident_end(s, i + 1) - i
    } else {
        0
    }
}

pub open spec fn at_true(s: Seq<char>, i: int) -> bool {
    i + 4 <= s.len() && ci_eq(s[i], 't') && ci_eq(s[i + 1], 'r') && ci_eq(s[i + 2], 'u') && ci_eq(
        s[i + 3],
        'e',
    )
}

pub open spec fn at_false(s: Seq<char>, i: int) -> bool {
    i + 5 <= s.len() && ci_eq(s[i], 'f') && ci_eq(s[i + 1], 'a') && ci_eq(s[i + 2], 'l') && ci_eq(
        s[i + 3],
        's',
    ) && ci_eq(s[i + 4], 'e')
}

pub open spec fn at_kw_number(s: Seq<char>, i: int) -> bool {
    i + 6 <= s.len() && ci_eq(s[i], 'n') && ci_eq(s[i + 1], 'u') && ci_eq(s[i + 2], 'm') && ci_eq(
        s[i + 3],
        'b',
    ) && ci_eq(s[i + 4], 'e') && ci_eq(s[i + 5], 'r')
}

pub open spec fn at_kw_string(s: Seq<char>, i: int) -> bool {
    i + 6 <= s.len() && ci_eq(s[i], 's') && ci_eq(s[i + 1], 't') && ci_eq(s[i + 2], 'r') && ci_eq(
        s[i + 3],
        'i',
    ) && ci_eq(s[i + 4], 'n') && ci_eq(s[i + 5], 'g')
}

pub open spec fn at_kw_bool(s: Seq<char>, i: int) -> bool {
    i + 4 <= s.len() && ci_eq(s[i], 'b') && ci_eq(s[i + 1], 'o') && ci_eq(s[i + 2], 'o') && ci_eq(
        s[i + 3],
        'l',
    )
}

pub open spec fn at_kw_object(s: Seq<char>, i: int) -> bool {
    i + 6 <= s.len() && ci_eq(s[i], 'o') && ci_eq(s[i + 1], 'b') && ci_eq(s[i + 2], 'j') && ci_eq(
        s[i + 3],
        'e',
    ) && ci_eq(s[i + 4], 'c') && ci_eq(s[i + 5], 't')
}

pub open spec fn at_kw_array(s: Seq<char>, i: int) -> bool {
    i + 5 <= s.len() && ci_eq(s[i], 'a') && ci_eq(s[i + 1], 'r') && ci_eq(s[i + 2], 'r') && ci_eq(
        s[i + 3],
        'a',
    ) && ci_eq(s[i + 4], 'y')
}

pub open spec fn at_kw_any(s: Seq<char>, i: int) -> bool {
    i + 3 <= s.len() && ci_eq(s[i], 'a') && ci_eq(s[i + 1], 'n') && ci_eq(s[i + 2], 'y')
}

pub open spec fn bool_len(s: Seq<char>, i: int) -> int {
    if at_true(s, i) {
        4
    } else if at_false(s, i) {
        5
    } else {
        0
    }
}

pub open spec fn keyword_len(s: Seq<char>, i: int) -> int {
    if at_kw_number(s, i) || at_kw_string(s, i) || at_kw_object(s, i) {
        6
    } else if at_kw_array(s, i) {
        5
    } else if at_kw_bool(s, i) {
        4
    } else if at_kw_any(s, i) {
        3
    } else {
        0
    }
}

/// The punctuation token a character stands for, if any.
pub open spec fn punct_tok(c: char) -> Option<TokenModel> {
    if c == ']' {
        Some(TokenModel::SqClose)
    } else if c == '[' {
        Some(TokenModel::SqOpen)
    } else if c == '}' {
        Some(TokenModel::CyClose)
    } else if c == '{' {
        Some(TokenModel::CyOpen)
    } else if c == ',' {
        Some(TokenModel::Comma)
    } else if c == ';' {
        Some(TokenModel::Semicolon)
    } else if c == '=' {
        Some(TokenModel::Eq)
    } else if c == ':' {
        Some(TokenModel::EqD)
    } else {
        None
    }
}

/// The digit values written between `a` and `b`.
pub open spec fn digit_seq(s: Seq<char>, a: int, b: int) -> Seq<u8> {
    Seq::new((b - a) as nat, |k: int| digit_val(s[a + k]))
}

/// The integer the digits between `a` and `b` spell.
pub open spec fn digits_value(s: Seq<char>, a: int, b: int) -> int
    decreases b - a,
{
    if b <= a {
        0
    } else {
        digits_value(s, a, b - 1) * 10 + digit_val(s[b - 1])
    }
}

/// Whether every digit is zero.
pub open spec fn all_zero(d: Seq<u8>) -> bool {
    forall|k: int| 0 <= k < d.len() ==> d[k] == 0
}

/// The integer part digits, normalized: leading zeros removed, at least one
/// digit kept, an empty group reading as zero.
pub open spec fn norm_int(d: Seq<u8>) -> Seq<u8>
    decreases d.len(),
{
    if d.len() == 0 {
        seq![0u8]
    } else if d.len() > 1 && d[0] == 0 {
        norm_int(d.drop_first())
    } else {
        d
    }
}

/// The fraction digits, normalized: trailing zeros removed, at least one
/// digit kept, an empty group reading as zero.
pub open spec fn norm_frac(d: Seq<u8>) -> Seq<u8>
    decreases d.len(),
{
    if d.len() == 0 {
        seq![0u8]
    } else if d.len() > 1 && d.last() == 0 {
        norm_frac(d.drop_last())
    } else {
        d
    }
}

/// The decimal token written at `i`, of length `float_len(s, i)`.
pub open spec fn float_tok(s: Seq<char>, i: int) -> TokenModel {
    let j = if s[i] == '+' || s[i] == '-' {
        i + 1
    } else {
        i
    };
    let d1 = digits_end(s, j);
    let fe = digits_end(s, d1 + 1);
    let ints = norm_int(digit_seq(s, j, d1));
    let fracs = norm_frac(digit_seq(s, d1 + 1, fe));
    TokenModel::FNumber(s[i] == '-' && !(all_zero(ints) && all_zero(fracs)), ints, fracs)
}

/// The next token at position `i` (not whitespace, not the end) and the
/// position after it: the longest match wins; literals and keywords beat
/// identifiers at equal length. `None` is a lexical error: either nothing
/// matches, or an integer literal exceeds the machine range.
pub open spec fn spec_next(s: Seq<char>, i: int) -> Option<(TokenModel, int)> {
    let lf = float_len(s, i);
    let ls = signed_len(s, i);
    let lu = unsigned_len(s, i);
    let lstr = string_len(s, i);
    let lb = bool_len(s, i);
    let lk = keyword_len(s, i);
    let lid = ident_len(s, i);
    let lc = comment_len(s, i);
    let lp: int = if punct_tok(s[i]) is Some {
        1
    } else {
        0
    };
    let best = max9(lf, ls, lu, lstr, lb, lk, lid, lc, lp);
    if best <= 0 {
        None
    } else if lf == best {
        Some((float_tok(s, i), i + best))
    } else if ls == best {
        let v = digits_value(s, i + 1, i + best);
        if v <= 0x7fff_ffff_ffff_ffff {
            if s[i] == '-' {
                Some((TokenModel::SNumber(-v), i + best))
            } else {
                Some((TokenModel::SNumber(v), i + best))
            }
        } else {
            None
        }
    } else if lu == best {
        let v = digits_value(s, i, i + best);
        if v <= 0xffff_ffff_ffff_ffff {
            Some((TokenModel::UNumber(v), i + best))
        } else {
            None
        }
    } else if lstr == best {
        Some((TokenModel::StrLit(s.subrange(i + 1, i + best - 1)), i + best))
    } else if lb == best {
        Some((TokenModel::BoolLit(ci_eq(s[i], 't')), i + best))
    } else if lk == best {
        if at_kw_number(s, i) && best == 6 {
            Some((TokenModel::KwNumber, i + best))
        } else if at_kw_string(s, i) && best == 6 {
            Some((TokenModel::KwString, i + best))
        } else if at_kw_object(s, i) && best == 6 {
            Some((TokenModel::KwObject, i + best))
        } else if at_kw_array(s, i) && best == 5 {
            Some((TokenModel::KwArray, i + best))
        } else if at_kw_bool(s, i) && best == 4 {
            Some((TokenModel::KwBool, i + best))
        } else {
            Some((TokenModel::KwAny, i + best))
        }
    } else if lid == best {
        Some((TokenModel::Ident(s.subrange(i, i + best)), i + best))
    } else if lc == best {
        Some((TokenModel::Comment(s.subrange(i, i + best)), i + best))
    } else {
        Some((punct_tok(s[i]).unwrap(), i + best))
    }
}

/// The largest of nine lengths.
pub open spec fn max9(
    a: int,
    b: int,
    c: int,
    d: int,
    e: int,
    f: int,
    g: int,
    h: int,
    i: int,
) -> int {
    let m = if a >= b {
        a
    } else {
        b
    };
    let m = if m >= c {
        m
    } else {
        c
    };
    let m = if m >= d {
        m
    } else {
        d
    };
    let m = if m >= e {
        m
    } else {
        e
    };
    let m = if m >= f {
        m
    } else {
        f
    };
    let m = if m >= g {
        m
    } else {
        g
    };
    let m = if m >= h {
        m
    } else {
        h
    };
    if m >= i {
        m
    } else {
        i
    }
}

/// Digit values are never negative.
pub proof fn lemma_digits_value_nonneg(s: Seq<char>, a: int, b: int)
    ensures
        digits_value(s, a, b) >= 0,
    decreases b - a,
{
    if b > a {
        lemma_digits_value_nonneg(s, a, b - 1);
    }
}

/// A longer digit run spells a number at least as large.
pub proof fn lemma_digits_value_monotone(s: Seq<char>, a: int, b: int, b2: int)
    requires
        b <= b2,
    ensures
        digits_value(s, a, b) <= digits_value(s, a, b2),
    decreases b2 - b,
{
    if b2 > b {
        lemma_digits_value_monotone(s, a, b, b2 - 1);
        lemma_digits_value_nonneg(s, a, b2 - 1);
    }
}

/// Every character of a digit run is a digit.
pub proof fn lemma_digits_run(s: Seq<char>, i: int)
    ensures
        forall|k: int| i <= k < digits_end(s, i) ==> is_digit_char(#[trigger] s[k]),
    decreases s.len() - i,
{
    if 0 <= i < s.len() && is_digit_char(s[i]) {
        lemma_digits_run(s, i + 1);
    }
}

/// Every character of an identifier run may continue an identifier.
pub proof fn lemma_ident_run(s: Seq<char>, i: int)
    ensures
        forall|k: int| i <= k < ident_end(s, i) ==> is_ident_char(#[trigger] s[k]),
    decreases s.len() - i,
{
    if 0 <= i < s.len() && is_ident_char(s[i]) {
        lemma_ident_run(s, i + 1);
    }
}

/// Reads the digits between `a` and `b` as an unsigned machine integer;
/// reports a value out of range instead of wrapping.
pub(crate) fn parse_u64(s: &[char], a: usize, b: usize) -> (r: Option<u64>)
    requires
        a <= b <= s@.len(),
        forall|k: int| a <= k < b ==> is_digit_char(#[trigger] s@[k]),
    ensures
        match r {
            Some(v) => v as int == digits_value(s@, a as int, b as int),
            None => digits_value(s@, a as int, b as int) > u64::MAX,
        },
{
    let mut val: u64 = 0;
    let mut j = a;
    while j < b
        invariant
            a <= j <= b <= s@.len(),
            forall|k: int| a <= k < b ==> is_digit_char(#[trigger] s@[k]),
            val as int == digits_value(s@, a as int, j as int),
        decreases b - j,
    {
        let dv = (s[j] as u32 - 48) as u64;
        let stop: bool;
        match val.checked_mul(10) {
            Some(m) => {
                match m.checked_add(dv) {
                    Some(n) => {
                        val = n;
                        stop = false;
                    },
                    None => {
                        stop = true;
                    },
                }
            },
            None => {
                stop = true;
            },
        }
        if stop {
            proof {
                assert(digits_value(s@, a as int, j + 1) == digits_value(s@, a as int, j as int)
                    * 10 + digit_val(s@[j as int]));
                lemma_digits_value_monotone(s@, a as int, j + 1, b as int);
            }
            return None;
        }
        j = j + 1;
    }
    Some(val)
}

/// Normalizing keeps the digits below ten, keeps at least one digit, leaves
/// no leading zero on a multi-digit result, and keeps zeroness.
pub proof fn lemma_norm_int_props(d: Seq<u8>)
    requires
        forall|k: int| 0 <= k < d.len() ==> d[k] < 10,
    ensures
        norm_int(d).len() >= 1,
        forall|k: int| 0 <= k < norm_int(d).len() ==> norm_int(d)[k] < 10,
        norm_int(d).len() > 1 ==> norm_int(d)[0] != 0,
        all_zero(norm_int(d)) == all_zero(d),
    decreases d.len(),
{
    if d.len() == 0 {
        assert(norm_int(d) == seq![0u8]);
        assert(all_zero(norm_int(d)));
    } else if d.len() > 1 && d[0] == 0 {
        assert(forall|k: int| 0 <= k < d.drop_first().len() ==> d.drop_first()[k] < 10);
        lemma_norm_int_props(d.drop_first());
        assert(all_zero(d.drop_first()) == all_zero(d)) by {
            if all_zero(d.drop_first()) {
                assert forall|k: int| 0 <= k < d.len() implies d[k] == 0 by {
                    if k > 0 {
                        assert(d.drop_first()[k - 1] == 0);
                    }
                }
            }
        }
    }
}

/// The mirror facts for the fraction digits.
pub proof fn lemma_norm_frac_props(d: Seq<u8>)
    requires
        forall|k: int| 0 <= k < d.len() ==> d[k] < 10,
    ensures
        norm_frac(d).len() >= 1,
        forall|k: int| 0 <= k < norm_frac(d).len() ==> norm_frac(d)[k] < 10,
        norm_frac(d).len() > 1 ==> norm_frac(d).last() != 0,
        all_zero(norm_frac(d)) == all_zero(d),
    decreases d.len(),
{
    if d.len() == 0 {
        assert(norm_frac(d) == seq![0u8]);
        assert(all_zero(norm_frac(d)));
    } else if d.len() > 1 && d.last() == 0 {
        lemma_norm_frac_props(d.drop_last());
        assert(all_zero(d.drop_last()) == all_zero(d)) by {
            if all_zero(d.drop_last()) {
                assert forall|k: int| 0 <= k < d.len() implies d[k] == 0 by {
                    if k < d.len() - 1 {
                        assert(d.drop_last()[k] == 0);
                    }
                }
            }
        }
    }
}

/// Skipping the leading zeros is what normalizing does.
pub proof fn lemma_norm_int_skip(d: Seq<u8>, k: int)
    requires
        0 <= k < d.len(),
        forall|p: int| 0 <= p < k ==> d[p] == 0,
        d[k] != 0 || k == d.len() - 1,
    ensures
        norm_int(d) == d.subrange(k, d.len() as int),
    decreases k,
{
    if k == 0 {
        if !(d.len() > 1 && d[0] == 0) {
            assert(norm_int(d) == d);
            assert(d.subrange(0, d.len() as int) =~= d);
        } else {
            assert(d[0] != 0 || 0 == d.len() - 1);
            assert(false);
        }
    } else {
        assert(d[0] == 0 && d.len() > 1);
        assert(norm_int(d) == norm_int(d.drop_first()));
        assert forall|p: int| 0 <= p < k - 1 implies d.drop_first()[p] == 0 by {
            assert(d.drop_first()[p] == d[p + 1]);
        }
        assert(d.drop_first()[k - 1] == d[k]);
        lemma_norm_int_skip(d.drop_first(), k - 1);
        assert(d.drop_first().subrange(k - 1, d.drop_first().len() as int) =~= d.subrange(
            k,
            d.len() as int,
        ));
    }
}

/// Dropping the trailing zeros is what normalizing does.
pub proof fn lemma_norm_frac_skip(d: Seq<u8>, k: int)
    requires
        0 <= k < d.len(),
        forall|p: int| k < p < d.len() ==> d[p] == 0,
        d[k] != 0 || k == 0,
    ensures
        norm_frac(d) == d.subrange(0, k + 1),
    decreases d.len(),
{
    if k == d.len() - 1 {
        if !(d.len() > 1 && d.last() == 0) {
            assert(norm_frac(d) == d);
            assert(d.subrange(0, d.len() as int) =~= d);
        } else {
            assert(false);
        }
    } else {
        assert(d.last() == 0 && d.len() > 1);
        assert(norm_frac(d) == norm_frac(d.drop_last()));
        assert forall|p: int| k < p < d.drop_last().len() implies d.drop_last()[p] == 0 by {
            assert(d.drop_last()[p] == d[p]);
        }
        assert(d.drop_last()[k] == d[k]);
        lemma_norm_frac_skip(d.drop_last(), k);
        assert(d.drop_last().subrange(0, k + 1) =~= d.subrange(0, k + 1));
    }
}

/// The digit values written between `a` and `b`, as a vector.
pub(crate) fn collect_digits(s: &[char], a: usize, b: usize) -> (r: Vec<u8>)
    requires
        a <= b <= s@.len(),
        forall|k: int| a <= k < b ==> is_digit_char(#[trigger] s@[k]),
    ensures
        r@ == digit_seq(s@, a as int, b as int),
{
    let mut r: Vec<u8> = Vec::new();
    let mut j = a;
    while j < b
        invariant
            a <= j <= b <= s@.len(),
            forall|k: int| a <= k < b ==> is_digit_char(#[trigger] s@[k]),
            r@ == digit_seq(s@, a as int, j as int),
        decreases b - j,
    {
        r.push((s[j] as u32 - 48) as u8);
        j = j + 1;
        proof {
            assert(r@ =~= digit_seq(s@, a as int, j as int));
        }
    }
    proof {
        assert(r@ =~= digit_seq(s@, a as int, b as int));
    }
    r
}

/// Strips the leading zeros, keeping at least one digit.
pub(crate) fn strip_leading_zeros(d: Vec<u8>) -> (r: Vec<u8>)
    ensures
        r@ == norm_int(d@),
{
    if d.len() == 0 {
        let mut r: Vec<u8> = Vec::new();
        r.push(0u8);
        proof {
            assert(r@ =~= seq![0u8]);
        }
        return r;
    }
    let mut k: usize = 0;
    while k < d.len() - 1 && d[k] == 0
        invariant
            d@.len() >= 1,
            k < d@.len(),
            forall|p: int| 0 <= p < k ==> d@[p] == 0,
        decreases d@.len() - k,
    {
        k = k + 1;
    }
    proof {
        lemma_norm_int_skip(d@, k as int);
    }
    let mut r: Vec<u8> = Vec::new();
    let mut j = k;
    while j < d.len()
        invariant
            k <= j <= d@.len(),
            r@ == d@.subrange(k as int, j as int),
        decreases d@.len() - j,
    {
        r.push(d[j]);
        j = j + 1;
        proof {
            assert(r@ =~= d@.subrange(k as int, j as int));
        }
    }
    r
}

/// Strips the trailing zeros, keeping at least one digit.
pub(crate) fn strip_trailing_zeros(d: Vec<u8>) -> (r: Vec<u8>)
    ensures
        r@ == norm_frac(d@),
{
    if d.len() == 0 {
        let mut r: Vec<u8> = Vec::new();
        r.push(0u8);
        proof {
            assert(r@ =~= seq![0u8]);
        }
        return r;
    }
    let mut k: usize = d.len() - 1;
    while k > 0 && d[k] == 0
        invariant
            k < d@.len(),
            forall|p: int| k < p < d@.len() ==> d@[p] == 0,
        decreases k,
    {
        k = k - 1;
    }
    proof {
        lemma_norm_frac_skip(d@, k as int);
    }
    let n = d.len();
    let mut r: Vec<u8> = Vec::new();
    let mut j: usize = 0;
    let mut more = true;
    while more
        invariant
            j <= k + 1,
            k < n == d@.len(),
            more == (j <= k),
            r@ == d@.subrange(0, j as int),
        decreases k + 1 - j,
    {
        r.push(d[j]);
        j = j + 1;
        more = j <= k;
        proof {
            assert(r@ =~= d@.subrange(0, j as int));
        }
    }
    r
}

/// Whether every digit is zero.
pub(crate) fn all_zero_exec(d: &Vec<u8>) -> (r: bool)
    ensures
        r == all_zero(d@),
{
    let mut j: usize = 0;
    while j < d.len()
        invariant
            j <= d@.len(),
            forall|p: int| 0 <= p < j ==> d@[p] == 0,
        decreases d@.len() - j,
    {
        if d[j] != 0 {
            return false;
        }
        j = j + 1;
    }
    true
}

pub(crate) fn at_true_exec(s: &[char], i: usize) -> (r: bool)
    requires
        i < s@.len(),
    ensures
        r == at_true(s@, i as int),
{
    s.len() - i >= 4 && ci_eq_exec(s[i], 't') && ci_eq_exec(s[i + 1], 'r') && ci_eq_exec(
        s[i + 2],
        'u',
    ) && ci_eq_exec(s[i + 3], 'e')
}

pub(crate) fn at_false_exec(s: &[char], i: usize) -> (r: bool)
    requires
        i < s@.len(),
    ensures
        r == at_false(s@, i as int),
{
    s.len() - i >= 5 && ci_eq_exec(s[i], 'f') && ci_eq_exec(s[i + 1], 'a') && ci_eq_exec(
        s[i + 2],
        'l',
    ) && ci_eq_exec(s[i + 3], 's') && ci_eq_exec(s[i + 4], 'e')
}

fn at_kw_number_exec(s: &[char], i: usize) -> (r: bool)
    requires
        i < s@.len(),
    ensures
        r == at_kw_number(s@, i as int),
{
    s.len() - i >= 6 && ci_eq_exec(s[i], 'n') && ci_eq_exec(s[i + 1], 'u') && ci_eq_exec(
        s[i + 2],
        'm',
    ) && ci_eq_exec(s[i + 3], 'b') && ci_eq_exec(s[i + 4], 'e') && ci_eq_exec(s[i + 5], 'r')
}

fn at_kw_string_exec(s: &[char], i: usize) -> (r: bool)
    requires
        i < s@.len(),
    ensures
        r == at_kw_string(s@, i as int),
{
    s.len() - i >= 6 && ci_eq_exec(s[i], 's') && ci_eq_exec(s[i + 1], 't') && ci_eq_exec(
        s[i + 2],
        'r',
    ) && ci_eq_exec(s[i + 3], 'i') && ci_eq_exec(s[i + 4], 'n') && ci_eq_exec(s[i + 5], 'g')
}

fn at_kw_bool_exec(s: &[char], i: usize) -> (r: bool)
    requires
        i < s@.len(),
    ensures
        r == at_kw_bool(s@, i as int),
{
    s.len() - i >= 4 && ci_eq_exec(s[i], 'b') && ci_eq_exec(s[i + 1], 'o') && ci_eq_exec(
        s[i + 2],
        'o',
    ) && ci_eq_exec(s[i + 3], 'l')
}

fn at_kw_object_exec(s: &[char], i: usize) -> (r: bool)
    requires
        i < s@.len(),
    ensures
        r == at_kw_object(s@, i as int),
{
    s.len() - i >= 6 && ci_eq_exec(s[i], 'o') && ci_eq_exec(s[i + 1], 'b') && ci_eq_exec(
        s[i + 2],
        'j',
    ) && ci_eq_exec(s[i + 3], 'e') && ci_eq_exec(s[i + 4], 'c') && ci_eq_exec(s[i + 5], 't')
}

fn at_kw_array_exec(s: &[char], i: usize) -> (r: bool)
    requires
        i < s@.len(),
    ensures
        r == at_kw_array(s@, i as int),
{
    s.len() - i >= 5 && ci_eq_exec(s[i], 'a') && ci_eq_exec(s[i + 1], 'r') && ci_eq_exec(
        s[i + 2],
        'r',
    ) && ci_eq_exec(s[i + 3], 'a') && ci_eq_exec(s[i + 4], 'y')
}

fn at_kw_any_exec(s: &[char], i: usize) -> (r: bool)
    requires
        i < s@.len(),
    ensures
        r == at_kw_any(s@, i as int),
{
    s.len() - i >= 3 && ci_eq_exec(s[i], 'a') && ci_eq_exec(s[i + 1], 'n') && ci_eq_exec(
        s[i + 2],
        'y',
    )
}

fn punct_exec(c: char) -> (r: Option<Variant>)
    ensures
        match r {
            Some(v) => punct_tok(c) == Some(v.model()),
            None => punct_tok(c) is None,
        },
{
    if c == ']' {
        Some(Variant::SqClose)
    } else if c == '[' {
        Some(Variant::SqOpen)
    } else if c == '}' {
        Some(Variant::CyClose)
    } else if c == '{' {
        Some(Variant::CyOpen)
    } else if c == ',' {
        Some(Variant::Comma)
    } else if c == ';' {
        Some(Variant::Semicolon)
    } else if c == '=' {
        Some(Variant::Eq)
    } else if c == ':' {
        Some(Variant::EqD)
    } else {
        None
    }
}

impl Variant {
    /// A decimal token carries a normalized decimal; every other token is
    /// unconditionally well-formed.
    pub open spec fn wf(self) -> bool {
        match self {
            Variant::FNumber(d) => d.wf(),
            _ => true,
        }
    }
}

/// The next token at a non-whitespace position, with the position after it.
fn next_token(s: &[char], i: usize) -> (r: Option<(Variant, usize)>)
    requires
        i < s@.len(),
    ensures
        match r {
            Some(p) => spec_next(s@, i as int) == Some((p.0.model(), p.1 as int)) && i < p.1
                <= s@.len() && p.0.wf(),
            None => spec_next(s@, i as int) is None,
        },
{
    let n = s.len();
    let c = s[i];
    let has_sign = c == '+' || c == '-';
    let fj = if has_sign {
        i + 1
    } else {
        i
    };
    let fd1 = find_digits_end(s, fj);
    let lf: usize = if fd1 < n && s[fd1] == '.' {
        find_digits_end(s, fd1 + 1) - i
    } else {
        0
    };
    let ls: usize = if has_sign && i + 1 < n && 49 <= s[i + 1] as u32 && s[i + 1] as u32 <= 57 {
        find_digits_end(s, i + 2) - i
    } else {
        0
    };
    let lu: usize = if c == '0' {
        1
    } else if 49 <= c as u32 && c as u32 <= 57 {
        find_digits_end(s, i + 1) - i
    } else {
        0
    };
    let lstr: usize = if c == '"' || c == '\'' {
        let e = find_quote_end(s, i + 1, c);
        if e < n {
            e + 1 - i
        } else {
            0
        }
    } else {
        0
    };
    let lb: usize = if at_true_exec(s, i) {
        4
    } else if at_false_exec(s, i) {
        5
    } else {
        0
    };
    let lk: usize = if at_kw_number_exec(s, i) || at_kw_string_exec(s, i) || at_kw_object_exec(
        s,
        i,
    ) {
        6
    } else if at_kw_array_exec(s, i) {
        5
    } else if at_kw_bool_exec(s, i) {
        4
    } else if at_kw_any_exec(s, i) {
        3
    } else {
        0
    };
    let lid: usize = if is_lower_exec(c) {
        find_ident_end(s, i + 1) - i
    } else {
        0
    };
    let lc: usize = if c == '#' {
        find_line_end(s, i) - i
    } else {
        0
    };
    let pv = punct_exec(c);
    let lp: usize = if pv.is_some() {
        1
    } else {
        0
    };
    proof {
        assert(lf as int == float_len(s@, i as int));
        assert(ls as int == signed_len(s@, i as int));
        assert(lu as int == unsigned_len(s@, i as int));
        assert(lstr as int == string_len(s@, i as int));
        assert(lb as int == bool_len(s@, i as int));
        assert(lk as int == keyword_len(s@, i as int));
        assert(lid as int == ident_len(s@, i as int));
        assert(lc as int == comment_len(s@, i as int));
    }
    let mut best = lf;
    if ls > best {
        best = ls;
    }
    if lu > best {
        best = lu;
    }
    if lstr > best {
        best = lstr;
    }
    if lb > best {
        best = lb;
    }
    if lk > best {
        best = lk;
    }
    if lid > best {
        best = lid;
    }
    if lc > best {
        best = lc;
    }
    if lp > best {
        best = lp;
    }
    proof {
        assert(best as int == max9(
            lf as int,
            ls as int,
            lu as int,
            lstr as int,
            lb as int,
            lk as int,
            lid as int,
            lc as int,
            lp as int,
        ));
    }
    if best == 0 {
        return None;
    }
    if lf == best {
        proof {
            lemma_digits_run(s@, fj as int);
            lemma_digits_run(s@, fd1 + 1 as int);
            lemma_run_bounds(s@, fd1 + 1);
        }
        let fe = find_digits_end(s, fd1 + 1);
        let ints = strip_leading_zeros(collect_digits(s, fj, fd1));
        let fracs = strip_trailing_zeros(collect_digits(s, fd1 + 1, fe));
        proof {
            assert(forall|k: int|
                0 <= k < digit_seq(s@, fj as int, fd1 as int).len() ==> #[trigger] digit_seq(
                    s@,
                    fj as int,
                    fd1 as int,
                )[k] < 10);
            assert(forall|k: int|
                0 <= k < digit_seq(s@, fd1 + 1, fe as int).len() ==> #[trigger] digit_seq(
                    s@,
                    fd1 + 1,
                    fe as int,
                )[k] < 10);
            lemma_norm_int_props(digit_seq(s@, fj as int, fd1 as int));
            lemma_norm_frac_props(digit_seq(s@, fd1 + 1, fe as int));
        }
        let neg = c == '-' && !(all_zero_exec(&ints) && all_zero_exec(&fracs));
        let d = Decimal { neg, int_digits: ints, frac_digits: fracs };
        return Some((Variant::FNumber(d), i + best));
    }
    if ls == best {
        proof {
            lemma_digits_run(s@, i + 2);
            assert(forall|k: int| i + 1 <= k < i + ls ==> is_digit_char(#[trigger] s@[k]));
        }
        match parse_u64(s, i + 1, i + best) {
            Some(v) => {
                if v <= 9223372036854775807u64 {
                    let sv = v as i64;
                    if c == '-' {
                        return Some((Variant::SNumber(-sv), i + best));
                    } else {
                        return Some((Variant::SNumber(sv), i + best));
                    }
                } else {
                    return None;
                }
            },
            None => {
                return None;
            },
        }
    }
    if lu == best {
        proof {
            lemma_digits_run(s@, i + 1);
            assert(forall|k: int| i <= k < i + lu ==> is_digit_char(#[trigger] s@[k]));
        }
        match parse_u64(s, i, i + best) {
            Some(v) => {
                return Some((Variant::UNumber(v), i + best));
            },
            None => {
                return None;
            },
        }
    }
    if lstr == best {
        let st = crate::text::chars_to_string(vstd::slice::slice_subrange(s, i + 1, i + best - 1));
        return Some((Variant::String(st), i + best));
    }
    if lb == best {
        return Some((Variant::Bool(ci_eq_exec(c, 't')), i + best));
    }
    if lk == best {
        if at_kw_number_exec(s, i) && best == 6 {
            return Some((Variant::KwNumber, i + best));
        } else if at_kw_string_exec(s, i) && best == 6 {
            return Some((Variant::KwString, i + best));
        } else if at_kw_object_exec(s, i) && best == 6 {
            return Some((Variant::KwObject, i + best));
        } else if at_kw_array_exec(s, i) && best == 5 {
            return Some((Variant::KwArray, i + best));
        } else if at_kw_bool_exec(s, i) && best == 4 {
            return Some((Variant::KwBool, i + best));
        } else {
            return Some((Variant::KwAny, i + best));
        }
    }
    if lid == best {
        let st = crate::text::chars_to_string(vstd::slice::slice_subrange(s, i, i + best));
        return Some((Variant::Ident(st), i + best));
    }
    if lc == best {
        let st = crate::text::chars_to_string(vstd::slice::slice_subrange(s, i, i + best));
        return Some((Variant::Comment(st), i + best));
    }
    match punct_exec(c) {
        Some(v) => Some((v, i + best)),
        None => {
            proof {
                assert(false);
            }
            None
        },
    }
}

/// The outcome of scanning a whole text: the token stream with each token's
/// span, or the position where no token matches.
pub enum ScanResult {
    Toks(Seq<(TokenModel, int, int)>),
    Fail(int),
}

/// The scan of the text from position `i`: skip whitespace, read one token,
/// continue after it.
pub open spec fn spec_scan(s: Seq<char>, i: int) -> ScanResult
    decreases s.len() - i,
    via spec_scan_via
{
    let j = ws_end(s, i);
    if j >= s.len() {
        ScanResult::Toks(Seq::empty())
    } else {
        match spec_next(s, j) {
            None => ScanResult::Fail(j),
            Some((t, e)) => if e <= j || e > s.len() {
                ScanResult::Fail(j)
            } else {
                match spec_scan(s, e) {
                    ScanResult::Fail(p) => ScanResult::Fail(p),
                    ScanResult::Toks(rest) => ScanResult::Toks(seq![(t, j, e)] + rest),
                }
            },
        }
    }
}

#[via_fn]
proof fn spec_scan_via(s: Seq<char>, i: int) {
    if 0 <= i <= s.len() {
        lemma_run_bounds(s, i);
    }
}

/// The models and spans of a token vector.
pub open spec fn toks_model(toks: Seq<Variant>, spans: Seq<Span>) -> Seq<(TokenModel, int, int)> {
    Seq::new(
        toks.len(),
        |q: int|
            (
                toks[q].model(),
                if q < spans.len() {
                    spans[q].start as int
                } else {
                    0
                },
                if q < spans.len() {
                    spans[q].end as int
                } else {
                    0
                },
            ),
    )
}

/// A lexical error: the position where the text starts no token.
#[derive(Debug)]
pub struct LexError {
    pub pos: usize,
}

/// Scans a whole text into tokens with their spans. Whitespace separates
/// tokens and is dropped; comments are kept as tokens. Fails at the first
/// position where no token matches, which includes an unclosed quote and an
/// integer literal beyond the machine range.
pub fn tokenize(s: &[char]) -> (r: Result<(Vec<Variant>, Vec<Span>), LexError>)
    ensures
        match r {
            Ok(p) => match spec_scan(s@, 0) {
                ScanResult::Toks(ts) => p.0@.len() == ts.len() && p.1@.len() == ts.len()
                    && toks_model(p.0@, p.1@) == ts && forall|q: int|
                    0 <= q < ts.len() ==> (#[trigger] p.0@[q]).wf(),
                ScanResult::Fail(_) => false,
            },
            Err(e) => spec_scan(s@, 0) == ScanResult::Fail(e.pos as int),
        },
{
    let mut toks: Vec<Variant> = Vec::new();
    let mut spans: Vec<Span> = Vec::new();
    let mut i: usize = 0;
    loop
        invariant
            i <= s@.len(),
            toks@.len() == spans@.len(),
            forall|q: int| 0 <= q < toks@.len() ==> (#[trigger] toks@[q]).wf(),
            forall|q: int|
                0 <= q < spans@.len() ==> (#[trigger] spans@[q]).start <= spans@[q].end
                    <= s@.len(),
            match spec_scan(s@, i as int) {
                ScanResult::Fail(p) => spec_scan(s@, 0) == ScanResult::Fail(p),
                ScanResult::Toks(rest) => spec_scan(s@, 0) == ScanResult::Toks(
                    toks_model(toks@, spans@) + rest,
                ),
            },
        decreases s@.len() - i,
    {
        let j = find_ws_end(s, i);
        if j >= s.len() {
            proof {
                assert(spec_scan(s@, i as int) == ScanResult::Toks(Seq::<(
                    TokenModel,
                    int,
                    int,
                )>::empty()));
                assert(toks_model(toks@, spans@) + Seq::<(TokenModel, int, int)>::empty()
                    =~= toks_model(toks@, spans@));
            }
            return Ok((toks, spans));
        }
        match next_token(s, j) {
            None => {
                proof {
                    assert(spec_scan(s@, i as int) == ScanResult::Fail(j as int));
                }
                return Err(LexError { pos: j });
            },
            Some((v, e)) => {
                let ghost old_toks = toks@;
                let ghost old_spans = spans@;
                toks.push(v);
                spans.push(Span { start: j, end: e });
                proof {
                    assert(toks_model(toks@, spans@) =~= toks_model(old_toks, old_spans).push(
                        (v.model(), j as int, e as int),
                    ));
                    match spec_scan(s@, e as int) {
                        ScanResult::Fail(p) => {
                            assert(spec_scan(s@, i as int) == ScanResult::Fail(p));
                        },
                        ScanResult::Toks(rest) => {
                            assert(spec_scan(s@, i as int) == ScanResult::Toks(
                                seq![(v.model(), j as int, e as int)] + rest,
                            ));
                            assert(toks_model(old_toks, old_spans) + (seq![
                                (v.model(), j as int, e as int),
                            ] + rest) =~= toks_model(toks@, spans@) + rest);
                        },
                    }
                }
                i = e;
            },
        }
    }
}

} // verus!