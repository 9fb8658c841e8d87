//! The template tokenizer: splits a text into raw spans and
//! delimiter-enclosed expression tokens. Outside delimiters everything up to
//! the next opening marker is one raw token; an opening marker without a
//! closing marker after it is a fatal error at the marker; inside delimiters
//! the literal, keyword and identifier grammar applies, extended with dotted
//! field paths.

use vstd::prelude::*;
use vstd::string::StrSliceExecFns;

use crate::delimit::{occurs_at, Delimiters};
use crate::diag::Span;
use crate::values::Decimal;
use crate::values::token::{
    bool_len, ci_eq, comment_len, float_len, float_tok, ident_len, is_lower_char, signed_len,
    string_len, unsigned_len, digits_value, ws_end, TokenModel,
};

verus! {

broadcast use vstd::seq::axiom_seq_index_decreases;

/// Which of the two markers a delimiter token stands for.
#[derive(Debug, PartialEq)]
pub enum DelimiterType {
    DelimitOpen,
    DelimitClose,
}

/// One template token.
#[derive(Debug, PartialEq)]
pub enum Type {
    /// A decimal literal, normalized.
    FNumber(Decimal),
    /// An explicitly signed integer literal.
    SNumber(i64),
    /// An unsigned integer literal.
    UNumber(u64),
    /// A quoted string literal, quotes removed.
    String(String),
    /// A boolean literal, case-insensitive.
    Bool(bool),
    SqClose,
    SqOpen,
    KwIf,
    KwFor,
    KwIn,
    /// The comparison marker `==`.
    Eq,
    /// A plain identifier placeholder.
    Ident(String),
    /// A dotted field path such as `obj.name`.
    IdentWithField(String),
    /// An opening or closing delimiter marker.
    PotentialDelim(DelimiterType),
    /// A comment, from `#` to the end of the line.
    Comment(String),
    /// A literal span of text outside delimiters, kept verbatim.
    Raw(String),
}

/// The mathematical model of a template token.
pub enum TTok {
    FNumber(bool, Seq<u8>, Seq<u8>),
    SNumber(int),
    UNumber(int),
    StrLit(Seq<char>),
    BoolLit(bool),
    SqClose,
    SqOpen,
    KwIf,
    KwFor,
    KwIn,
    EqEq,
    Ident(Seq<char>),
    IdentWithField(Seq<char>),
    DelimOpen,
    DelimClose,
    Comment(Seq<char>),
    Raw(Seq<char>),
}

impl Type {
    pub open spec fn model(self) -> TTok {
        match self {
            Type::FNumber(d) => TTok::FNumber(d.neg, d.int_digits@, d.frac_digits@),
            Type::SNumber(v) => TTok::SNumber(v as int),
            Type::UNumber(v) => TTok::UNumber(v as int),
            Type::String(st) => TTok::StrLit(st@),
            Type::Bool(b) => TTok::BoolLit(b),
            Type::SqClose => TTok::SqClose,
            Type::SqOpen => TTok::SqOpen,
            Type::KwIf => TTok::KwIf,
            Type::KwFor => TTok::KwFor,
            Type::KwIn => TTok::KwIn,
            Type::Eq => TTok::EqEq,
            Type::Ident(st) => TTok::Ident(st@),
            Type::IdentWithField(st) => TTok::IdentWithField(st@),
            Type::PotentialDelim(DelimiterType::DelimitOpen) => TTok::DelimOpen,
            Type::PotentialDelim(DelimiterType::DelimitClose) => TTok::DelimClose,
            Type::Comment(st) => TTok::Comment(st@),
            Type::Raw(st) => TTok::Raw(st@),
        }
    }
}

/// The position of the first occurrence of the pattern at or after `i`, if
/// any.
pub open spec fn find_at(text: Seq<char>, pat: Seq<char>, i: int) -> Option<int>
    decreases text.len() - i,
{
    if i < 0 || i + pat.len() > text.len() {
        None
    } else if occurs_at(text, pat, i) {
        Some(i)
    } else if i >= text.len() {
        None
    } else {
        find_at(text, pat, i + 1)
    }
}

pub open spec fn at_kw_if(s: Seq<char>, i: int) -> bool {
    i + 2 <= s.len() && ci_eq(s[i], 'i') && ci_eq(s[i + 1], 'f')
}

pub open spec fn at_kw_for(s: Seq<char>, i: int) -> bool {
    i + 3 <= s.len() && ci_eq(s[i], 'f') && ci_eq(s[i + 1], 'o') && ci_eq(s[i + 2], 'r')
}

pub open spec fn at_kw_in(s: Seq<char>, i: int) -> bool {
    i + 2 <= s.len() && ci_eq(s[i], 'i') && ci_eq(s[i + 1], 'n')
}

pub open spec fn t_kw_len(s: Seq<char>, i: int) -> int {
    if at_kw_for(s, i) {
        3
    } else if at_kw_if(s, i) || at_kw_in(s, i) {
        2
    } else {
        0
    }
}

/// The end of a run of `.field` extensions starting at `j`.
pub open spec fn dotted_end(s: Seq<char>, j: int) -> int
    decreases s.len() - j,
{
    if 0 <= j && j + 1 < s.len() && s[j] == '.' && is_lower_char(s[j + 1]) {
        let e = crate::values::token::ident_end(s, j + 2);
        if e > j + 1 && e <= s.len() {
            dotted_end(s, e)
        } else {
            j
        }
    } else {
        j
    }
}

/// The length of a dotted path at `i`: an identifier followed by one or more
/// `.field` extensions; zero when there is no extension.
pub open spec fn dotted_len(s: Seq<char>, i: int) -> int {
    if ident_len(s, i) > 0 {
        let e0 = i + ident_len(s, i);
        let e = dotted_end(s, e0);
        if e > e0 {
            e - i
        } else {
            0
        }
    } else {
        0
    }
}

pub open spec fn eq2_len(s: Seq<char>, i: int) -> int {
    if 0 <= i && i + 2 <= s.len() && s[i] == '=' && s[i + 1] == '=' {
        2
    } else {
        0
    }
}

pub open spec fn bracket_len(s: Seq<char>, i: int) -> int {
    if s[i] == '[' || s[i] == ']' {
        1
    } else {
        0
    }
}

/// The largest of the candidate lengths inside a placeholder.
pub open spec fn t_best(s: Seq<char>, i: int) -> int {
    let m = crate::values::token::max9(
        float_len(s, i),
        signed_len(s, i),
        unsigned_len(s, i),
        string_len(s, i),
        bool_len(s, i),
        t_kw_len(s, i),
        dotted_len(s, i),
        ident_len(s, i),
        comment_len(s, i),
    );
    if m >= eq2_len(s, i) && m >= bracket_len(s, i) {
        m
    } else if eq2_len(s, i) >= bracket_len(s, i) {
        eq2_len(s, i)
    } else {
        bracket_len(s, i)
    }
}

/// The next token inside a placeholder: the longest match wins; literals and
/// keywords beat identifiers at equal length; a dotted path beats the bare
/// identifier it starts with.
pub open spec fn spec_next_t(s: Seq<char>, i: int) -> Option<(TTok, int)> {
    let best = t_best(s, i);
    if best <= 0 {
        None
    } else if float_len(s, i) == best {
        Some((to_ttok(float_tok(s, i)), i + best))
    } else if signed_len(s, i) == best {
        let v = digits_value(s, i + 1, i + best);
        if v <= 0x7fff_ffff_ffff_ffff {
            if s[i] == '-' {
                Some((TTok::SNumber(-v), i + best))
            } else {
                Some((TTok::SNumber(v), i + best))
            }
        } else {
            None
        }
    } else if unsigned_len(s, i) == best {
        let v = digits_value(s, i, i + best);
        if v <= 0xffff_ffff_ffff_ffff {
            Some((TTok::UNumber(v), i + best))
        } else {
            None
        }
    } else if string_len(s, i) == best {
        Some((TTok::StrLit(s.subrange(i + 1, i + best - 1)), i + best))
    } else if bool_len(s, i) == best {
        Some((TTok::BoolLit(ci_eq(s[i], 't')), i + best))
    } else if t_kw_len(s, i) == best {
        if at_kw_for(s, i) && best == 3 {
            Some((TTok::KwFor, i + best))
        } else if at_kw_if(s, i) && best == 2 {
            Some((TTok::KwIf, i + best))
        } else {
            Some((TTok::KwIn, i + best))
        }
    } else if dotted_len(s, i) == best {
        Some((TTok::IdentWithField(s.subrange(i, i + best)), i + best))
    } else if ident_len(s, i) == best {
        Some((TTok::Ident(s.subrange(i, i + best)), i + best))
    } else if comment_len(s, i) == best {
        Some((TTok::Comment(s.subrange(i, i + best)), i + best))
    } else if eq2_len(s, i) == best {
        Some((TTok::EqEq, i + best))
    } else if s[i] == '[' {
        Some((TTok::SqOpen, i + 1))
    } else {
        Some((TTok::SqClose, i + 1))
    }
}

/// A configuration token's model carried over into a template token.
pub open spec fn to_ttok(t: TokenModel) -> TTok {
    match t {
        TokenModel::FNumber(neg, ints, fracs) => TTok::FNumber(neg, ints, fracs),
        _ => TTok::Raw(Seq::empty()),
    }
}

/// The outcome of a template scan: the token stream, or the position of the
/// failure.
pub enum TScan {
    Toks(Seq<(TTok, int, int)>),
    Fail(int),
}

/// The scan of one placeholder's inner text: whitespace-separated tokens to
/// the end of the segment.
pub open spec fn spec_scan_inner(s: Seq<char>, i: int) -> TScan
    decreases s.len() - i,
    via spec_scan_inner_via
{
    let j = ws_end(s, i);
    if j >= s.len() {
        TScan::Toks(Seq::empty())
    } else {
        match spec_next_t(s, j) {
            None => TScan::Fail(j),
            Some((t, e)) => if e <= j || e > s.len() {
                TScan::Fail(j)
            } else {
                match spec_scan_inner(s, e) {
                    TScan::Fail(p) => TScan::Fail(p),
                    TScan::Toks(rest) => TScan::Toks(seq![(t, j, e)] + rest),
                }
            },
        }
    }
}

#[via_fn]
proof fn spec_scan_inner_via(s: Seq<char>, i: int) {
    if 0 <= i <= s.len() {
        crate::values::token::lemma_run_bounds(s, i);
    }
}

/// The two-mode scan of a whole template from position `i`: the text before
/// the next opening marker is one raw token; the placeholder between the
/// markers is scanned by the inner grammar; an opening marker with no
/// closing marker after it fails at the opening marker. Spans of inner
/// tokens are absolute positions in the whole text.
pub open spec fn spec_template(text: Seq<char>, open: Seq<char>, close: Seq<char>, i: int) -> TScan
    decreases text.len() - i,
{
    if i < 0 || i >= text.len() {
        TScan::Toks(Seq::empty())
    } else {
        match find_at(text, open, i) {
            None => TScan::Toks(seq![(TTok::Raw(text.subrange(i, text.len() as int)), i, text.len() as int)]),
            Some(p) => match find_at(text, close, p) {
                None => TScan::Fail(p),
                Some(q) => {
                    let inner_lo = if p + open.len() <= q {
                        p + open.len()
                    } else {
                        q
                    };
                    let seg = text.subrange(inner_lo, q);
                    let cont = q + close.len();
                    if cont <= i || cont > text.len() || p < i || q < p {
                        TScan::Fail(p)
                    } else {
                        match spec_scan_inner(seg, 0) {
                            TScan::Fail(e) => TScan::Fail(inner_lo + e),
                            TScan::Toks(inner) => match spec_template(text, open, close, cont) {
                                TScan::Fail(e) => TScan::Fail(e),
                                TScan::Toks(rest) => TScan::Toks(
                                    seq![(TTok::Raw(text.subrange(i, p)), i, p)] + seq![
                                        (TTok::DelimOpen, p, p + open.len() as int),
                                    ] + shift_spans(inner, inner_lo) + seq![
                                        (TTok::DelimClose, q, cont),
                                    ] + rest,
                                ),
                            },
                        }
                    }
                },
            },
        }
    }
}

/// Token spans moved by a fixed offset.
pub open spec fn shift_spans(ts: Seq<(TTok, int, int)>, off: int) -> Seq<(TTok, int, int)> {
    Seq::new(ts.len(), |q: int| (ts[q].0, ts[q].1 + off, ts[q].2 + off))
}

impl Type {
    /// A decimal token carries a normalized decimal; every other token is
    /// unconditionally well-formed.
    pub open spec fn wf(self) -> bool {
        match self {
            Type::FNumber(d) => d.wf(),
            _ => true,
        }
    }
}

fn at_kw_if_exec(s: &[char], i: usize) -> (r: bool)
    requires
        i < s@.len(),
    ensures
        r == at_kw_if(s@, i as int),
{
    s.len() - i >= 2 && crate::values::token::ci_eq_exec(s[i], 'i')
        && crate::values::token::ci_eq_exec(s[i + 1], 'f')
}

fn at_kw_for_exec(s: &[char], i: usize) -> (r: bool)
    requires
        i < s@.len(),
    ensures
        r == at_kw_for(s@, i as int),
{
    s.len() - i >= 3 && crate::values::token::ci_eq_exec(s[i], 'f')
        && crate::values::token::ci_eq_exec(s[i + 1], 'o') && crate::values::token::ci_eq_exec(
        s[i + 2],
        'r',
    )
}

fn at_kw_in_exec(s: &[char], i: usize) -> (r: bool)
    requires
        i < s@.len(),
    ensures
        r == at_kw_in(s@, i as int),
{
    s.len() - i >= 2 && crate::values::token::ci_eq_exec(s[i], 'i')
        && crate::values::token::ci_eq_exec(s[i + 1], 'n')
}

/// The end of the `.field` extensions starting at `j`.
fn find_dotted_end(s: &[char], j: usize) -> (r: usize)
    requires
        j <= s@.len(),
    ensures
        r == dotted_end(s@, j as int),
        j <= r <= s@.len(),
    decreases s@.len() - j,
{
    if j < s.len() && s.len() - j >= 2 && s[j] == '.' && crate::values::token::is_lower_exec(s[j + 1]) {
        let e = crate::values::token::find_ident_end(s, j + 2);
        find_dotted_end(s, e)
    } else {
        j
    }
}

/// The next token inside a placeholder, with the position after it.
#[verifier::rlimit(60)]
fn next_token_t(s: &[char], i: usize) -> (r: Option<(Type, usize)>)
    requires
        i < s@.len(),
    ensures
        match r {
            Some(p) => spec_next_t(s@, i as int) == Some((p.0.model(), p.1 as int)) && i < p.1
                <= s@.len() && p.0.wf(),
            None => spec_next_t(s@, i as int) is None,
        },
{
    let n = s.len();
    let c = s[i];
    let has_sign = c == '+' || c == '-';
    let fj = if has_sign {
        i + 1
    } else {
        i
    };
    let fd1 = crate::values::token::find_digits_end(s, fj);
    let lf: usize = if fd1 < n && s[fd1] == '.' {
        crate::values::token::find_digits_end(s, fd1 + 1) - i
    } else {
        0
    };
    let ls: usize = if has_sign && i + 1 < n && 49 <= s[i + 1] as u32 && s[i + 1] as u32 <= 57 {
        crate::values::token::find_digits_end(s, i + 2) - i
    } else {
        0
    };
    let lu: usize = if c == '0' {
        1
    } else if 49 <= c as u32 && c as u32 <= 57 {
        crate::values::token::find_digits_end(s, i + 1) - i
    } else {
        0
    };
    let lstr: usize = if c == '"' || c == '\'' {
        let e = crate::values::token::find_quote_end(s, i + 1, c);
        if e < n {
            e + 1 - i
        } else {
            0
        }
    } else {
        0
    };
    let lb: usize = if crate::values::token::at_true_exec(s, i) {
        4
    } else if crate::values::token::at_false_exec(s, i) {
        5
    } else {
        0
    };
    let lk: usize = if at_kw_for_exec(s, i) {
        3
    } else if at_kw_if_exec(s, i) || at_kw_in_exec(s, i) {
        2
    } else {
        0
    };
    let lid: usize = if crate::values::token::is_lower_exec(c) {
        crate::values::token::find_ident_end(s, i + 1) - i
    } else {
        0
    };
    let ldot: usize = if lid > 0 {
        let e = find_dotted_end(s, i + lid);
        if e > i + lid {
            e - i
        } else {
            0
        }
    } else {
        0
    };
    let lc: usize = if c == '#' {
        crate::values::token::find_line_end(s, i) - i
    } else {
        0
    };
    let leq: usize = if c == '=' && i + 1 < n && s[i + 1] == '=' {
        2
    } else {
        0
    };
    let lbr: usize = if c == '[' || c == ']' {
        1
    } else {
        0
    };
    proof {
        assert(lf as int == float_len(s@, i as int));
        assert(ls as int == signed_len(s@, i as int));
        assert(lu as int == unsigned_len(s@, i as int));
        assert(lstr as int == string_len(s@, i as int));
        assert(lb as int == bool_len(s@, i as int));
        assert(lk as int == t_kw_len(s@, i as int));
        assert(lid as int == ident_len(s@, i as int));
        assert(ldot as int == dotted_len(s@, i as int));
        assert(lc as int == comment_len(s@, i as int));
        assert(leq as int == eq2_len(s@, i as int));
        assert(lbr as int == bracket_len(s@, i as int));
    }
    let mut best = lf;
    if ls > best {
        best = ls;
    }
    if lu > best {
        best = lu;
    }
    if lstr > best {
        best = lstr;
    }
    if lb > best {
        best = lb;
    }
    if lk > best {
        best = lk;
    }
    if ldot > best {
        best = ldot;
    }
    if lid > best {
        best = lid;
    }
    if lc > best {
        best = lc;
    }
    if leq > best {
        best = leq;
    }
    if lbr > best {
        best = lbr;
    }
    proof {
        assert(best as int == t_best(s@, i as int));
    }
    if best == 0 {
        return None;
    }
    if lf == best {
        proof {
            crate::values::token::lemma_digits_run(s@, fj as int);
            crate::values::token::lemma_digits_run(s@, fd1 + 1 as int);
            crate::values::token::lemma_run_bounds(s@, fd1 + 1);
        }
        let fe = crate::values::token::find_digits_end(s, fd1 + 1);
        let ints = crate::values::token::strip_leading_zeros(
            crate::values::token::collect_digits(s, fj, fd1),
        );
        let fracs = crate::values::token::strip_trailing_zeros(
            crate::values::token::collect_digits(s, fd1 + 1, fe),
        );
        proof {
            assert(forall|k: int|
                0 <= k < crate::values::token::digit_seq(s@, fj as int, fd1 as int).len()
                    ==> #[trigger] crate::values::token::digit_seq(s@, fj as int, fd1 as int)[k]
                    < 10);
            assert(forall|k: int|
                0 <= k < crate::values::token::digit_seq(s@, fd1 + 1, fe as int).len()
                    ==> #[trigger] crate::values::token::digit_seq(s@, fd1 + 1, fe as int)[k]
                    < 10);
            crate::values::token::lemma_norm_int_props(
                crate::values::token::digit_seq(s@, fj as int, fd1 as int),
            );
            crate::values::token::lemma_norm_frac_props(
                crate::values::token::digit_seq(s@, fd1 + 1, fe as int),
            );
        }
        let neg = c == '-' && !(crate::values::token::all_zero_exec(&ints)
            && crate::values::token::all_zero_exec(&fracs));
        let d = Decimal { neg, int_digits: ints, frac_digits: fracs };
        return Some((Type::FNumber(d), i + best));
    }
    if ls == best {
        proof {
            crate::values::token::lemma_digits_run(s@, i + 2);
            assert(forall|k: int| i + 1 <= k < i + ls ==> crate::values::token::is_digit_char(
                #[trigger] s@[k],
            ));
        }
        match crate::values::token::parse_u64(s, i + 1, i + best) {
            Some(v) => {
                if v <= 9223372036854775807u64 {
                    let sv = v as i64;
                    if c == '-' {
                        return Some((Type::SNumber(-sv), i + best));
                    } else {
                        return Some((Type::SNumber(sv), i + best));
                    }
                } else {
                    return None;
                }
            },
            None => {
                return None;
            },
        }
    }
    if lu == best {
        proof {
            crate::values::token::lemma_digits_run(s@, i + 1);
            assert(forall|k: int| i <= k < i + lu ==> crate::values::token::is_digit_char(
                #[trigger] s@[k],
            ));
        }
        match crate::values::token::parse_u64(s, i, i + best) {
            Some(v) => {
                return Some((Type::UNumber(v), i + best));
            },
            None => {
                return None;
            },
        }
    }
    if lstr == best {
        let st = crate::text::chars_to_string(vstd::slice::slice_subrange(s, i + 1, i + best - 1));
        return Some((Type::String(st), i + best));
    }
    if lb == best {
        return Some((Type::Bool(crate::values::token::ci_eq_exec(c, 't')), i + best));
    }
    if lk == best {
        if at_kw_for_exec(s, i) && best == 3 {
            return Some((Type::KwFor, i + best));
        } else if at_kw_if_exec(s, i) && best == 2 {
            return Some((Type::KwIf, i + best));
        } else {
            return Some((Type::KwIn, i + best));
        }
    }
    if ldot == best {
        let st = crate::text::chars_to_string(vstd::slice::slice_subrange(s, i, i + best));
        return Some((Type::IdentWithField(st), i + best));
    }
    if lid == best {
        let st = crate::text::chars_to_string(vstd::slice::slice_subrange(s, i, i + best));
        return Some((Type::Ident(st), i + best));
    }
    if lc == best {
        let st = crate::text::chars_to_string(vstd::slice::slice_subrange(s, i, i + best));
        return Some((Type::Comment(st), i + best));
    }
    if leq == best {
        return Some((Type::Eq, i + best));
    }
    if c == '[' {
        Some((Type::SqOpen, i + 1))
    } else {
        Some((Type::SqClose, i + 1))
    }
}

/// The models and spans of a template token vector.
pub open spec fn t_toks_model(toks: Seq<Type>, spans: Seq<Span>) -> Seq<(TTok, int, int)> {
    Seq::new(
        toks.len(),
        |q: int|
            (
                toks[q].model(),
                if q < spans.len() {
                    spans[q].start as int
                } else {
                    0
                },
                if q < spans.len() {
                    spans[q].end as int
                } else {
                    0
                },
            ),
    )
}

/// Scans one placeholder's inner text, appending the tokens with spans
/// shifted to absolute positions.
fn scan_inner(s: &[char], off: usize, toks: &mut Vec<Type>, spans: &mut Vec<Span>) -> (r: Result<
    (),
    usize,
>)
    requires
        old(toks)@.len() == old(spans)@.len(),
        forall|q: int| 0 <= q < old(toks)@.len() ==> (#[trigger] old(toks)@[q]).wf(),
        off + s@.len() <= usize::MAX,
    ensures
        final(toks)@.len() == final(spans)@.len(),
        forall|q: int| 0 <= q < final(toks)@.len() ==> (#[trigger] final(toks)@[q]).wf(),
        match r {
            Ok(()) => match spec_scan_inner(s@, 0) {
                TScan::Toks(ts) => t_toks_model(final(toks)@, final(spans)@) == t_toks_model(
                    old(toks)@,
                    old(spans)@,
                ) + shift_spans(ts, off as int),
                TScan::Fail(_) => false,
            },
            Err(e) => spec_scan_inner(s@, 0) == TScan::Fail(e as int) && e <= s@.len(),
        },
{
    let ghost mut done = Seq::<(TTok, int, int)>::empty();
    let mut i: usize = 0;
    proof {
        assert(t_toks_model(toks@, spans@) =~= t_toks_model(old(toks)@, old(spans)@) + shift_spans(
            done,
            off as int,
        ));
    }
    loop
        invariant
            i <= s@.len(),
            off + s@.len() <= usize::MAX,
            toks@.len() == spans@.len(),
            forall|q: int| 0 <= q < toks@.len() ==> (#[trigger] toks@[q]).wf(),
            t_toks_model(toks@, spans@) == t_toks_model(old(toks)@, old(spans)@) + shift_spans(
                done,
                off as int,
            ),
            match spec_scan_inner(s@, i as int) {
                TScan::Fail(p) => spec_scan_inner(s@, 0) == TScan::Fail(p),
                TScan::Toks(rest) => spec_scan_inner(s@, 0) == TScan::Toks(done + rest),
            },
        decreases s@.len() - i,
    {
        let j = crate::values::token::find_ws_end(s, i);
        if j >= s.len() {
            proof {
                assert(spec_scan_inner(s@, i as int) == TScan::Toks(Seq::<(TTok, int, int)>::empty()));
                assert(done + Seq::<(TTok, int, int)>::empty() =~= done);
            }
            return Ok(());
        }
        match next_token_t(s, j) {
            None => {
                proof {
                    assert(spec_scan_inner(s@, i as int) == TScan::Fail(j as int));
                }
                return Err(j);
            },
            Some((v, e)) => {
                let ghost old_done = done;
                let ghost pre_toks = toks@;
                let ghost pre_spans = spans@;
                proof {
                    done = done.push((v.model(), j as int, e as int));
                }
                toks.push(v);
                spans.push(Span { start: off + j, end: off + e });
                proof {
                    assert(t_toks_model(toks@, spans@) =~= t_toks_model(pre_toks, pre_spans).push(
                        (toks@.last().model(), (off + j) as int, (off + e) as int),
                    ));
                    assert(shift_spans(done, off as int) =~= shift_spans(old_done, off as int).push(
                        (toks@.last().model(), (off + j) as int, (off + e) as int),
                    ));
                    assert(t_toks_model(old(toks)@, old(spans)@) + shift_spans(done, off as int)
                        =~= (t_toks_model(old(toks)@, old(spans)@) + shift_spans(
                        old_done,
                        off as int,
                    )).push((toks@.last().model(), (off + j) as int, (off + e) as int)));
                    match spec_scan_inner(s@, e as int) {
                        TScan::Fail(p) => {
                            assert(spec_scan_inner(s@, i as int) == TScan::Fail(p));
                        },
                        TScan::Toks(rest) => {
                            assert(spec_scan_inner(s@, i as int) == TScan::Toks(
                                seq![(toks@.last().model(), j as int, e as int)] + rest,
                            ));
                            assert(old_done + (seq![(toks@.last().model(), j as int, e as int)]
                                + rest) =~= done + rest);
                        },
                    }
                }
                i = e;
            },
        }
    }
}

/// What `find_pattern` establishes is exactly `find_at`.
pub proof fn lemma_find_at_some(text: Seq<char>, pat: Seq<char>, from: int, k: int)
    requires
        0 <= from <= k,
        occurs_at(text, pat, k),
        forall|p: int| from <= p < k ==> !occurs_at(text, pat, p),
    ensures
        find_at(text, pat, from) == Some(k),
    decreases k - from,
{
    if from < k {
        lemma_find_at_some(text, pat, from + 1, k);
        assert(from < text.len()) by {
            assert(k + pat.len() <= text.len());
        }
    }
}

/// When nothing occurs at or after `from`, `find_at` finds nothing.
pub proof fn lemma_find_at_none(text: Seq<char>, pat: Seq<char>, from: int)
    requires
        0 <= from,
        forall|p: int| from <= p ==> !occurs_at(text, pat, p),
    ensures
        find_at(text, pat, from) == None::<int>,
    decreases text.len() - from,
{
    if from < text.len() {
        lemma_find_at_none(text, pat, from + 1);
    }
}

/// A template failed to scan: the position of an opening marker with no
/// closing marker after it, or of placeholder text that starts no token.
#[derive(Debug)]
pub struct TemplateError {
    pub pos: usize,
}

/// Scans a whole template into tokens with their spans: raw spans outside
/// the markers, the placeholder grammar between them, each marker its own
/// token. An opening marker with no closing marker after it fails at the
/// opening marker.
#[verifier::rlimit(100)]
pub fn scan_template(content: &str, delims: &Delimiters) -> (r: Result<
    (Vec<Type>, Vec<Span>),
    TemplateError,
>)
    requires
        delims.0.0@.len() >= 1,
        delims.1.0@.len() >= 1,
    ensures
        match r {
            Ok(p) => match spec_template(content@, delims.0.0@, delims.1.0@, 0) {
                TScan::Toks(ts) => p.0@.len() == ts.len() && p.1@.len() == ts.len()
                    && t_toks_model(p.0@, p.1@) == ts && forall|q: int|
                    0 <= q < ts.len() ==> (#[trigger] p.0@[q]).wf(),
                TScan::Fail(_) => false,
            },
            Err(e) => spec_template(content@, delims.0.0@, delims.1.0@, 0) == TScan::Fail(
                e.pos as int,
            ),
        },
{
    let ghost openv = delims.0.0@;
    let ghost closev = delims.1.0@;
    let text = crate::text::to_chars(content);
    let open_pat = crate::text::to_chars(delims.0.0);
    let close_pat = crate::text::to_chars(delims.1.0);
    let mut toks: Vec<Type> = Vec::new();
    let mut spans: Vec<Span> = Vec::new();
    let mut i: usize = 0;
    loop
        invariant
            i <= text@.len(),
            text@ == content@,
            open_pat@ == openv,
            close_pat@ == closev,
            openv == delims.0.0@,
            closev == delims.1.0@,
            openv.len() >= 1,
            closev.len() >= 1,
            toks@.len() == spans@.len(),
            forall|q: int| 0 <= q < toks@.len() ==> (#[trigger] toks@[q]).wf(),
            match spec_template(content@, openv, closev, i as int) {
                TScan::Fail(p) => spec_template(content@, openv, closev, 0) == TScan::Fail(p),
                TScan::Toks(rest) => spec_template(content@, openv, closev, 0) == TScan::Toks(
                    t_toks_model(toks@, spans@) + rest,
                ),
            },
        decreases text@.len() - i,
    {
        if i >= text.len() {
            proof {
                assert(spec_template(content@, openv, closev, i as int) == TScan::Toks(Seq::<(
                    TTok,
                    int,
                    int,
                )>::empty()));
                assert(t_toks_model(toks@, spans@) + Seq::<(TTok, int, int)>::empty()
                    =~= t_toks_model(toks@, spans@));
            }
            return Ok((toks, spans));
        }
        match crate::delimit::find_pattern(&text, &open_pat, i) {
            None => {
                proof {
                    lemma_find_at_none(content@, openv, i as int);
                }
                let tl = text.len();
                let raw = crate::text::chars_to_string(
                    vstd::slice::slice_subrange(text.as_slice(), i, tl),
                );
                let ghost pre_toks = toks@;
                let ghost pre_spans = spans@;
                toks.push(Type::Raw(raw));
                spans.push(Span { start: i, end: tl });
                proof {
                    let item = (
                        TTok::Raw(content@.subrange(i as int, content@.len() as int)),
                        i as int,
                        content@.len() as int,
                    );
                    assert(t_toks_model(toks@, spans@) =~= t_toks_model(pre_toks, pre_spans).push(
                        item,
                    ));
                    assert(t_toks_model(pre_toks, pre_spans) + seq![item] =~= t_toks_model(
                        toks@,
                        spans@,
                    ));
                }
                return Ok((toks, spans));
            },
            Some(p) => {
                proof {
                    lemma_find_at_some(content@, openv, i as int, p as int);
                }
                match crate::delimit::find_pattern(&text, &close_pat, p) {
                    None => {
                        proof {
                            lemma_find_at_none(content@, closev, p as int);
                        }
                        return Err(TemplateError { pos: p });
                    },
                    Some(q) => {
                        proof {
                            lemma_find_at_some(content@, closev, p as int, q as int);
                        }
                        let inner_lo = if p + open_pat.len() <= q {
                            p + open_pat.len()
                        } else {
                            q
                        };
                        let seg = vstd::slice::slice_subrange(text.as_slice(), inner_lo, q);
                        let cont = q + close_pat.len();
                        let ghost pre_toks = toks@;
                        let ghost pre_spans = spans@;
                        let raw = crate::text::chars_to_string(
                            vstd::slice::slice_subrange(text.as_slice(), i, p),
                        );
                        toks.push(Type::Raw(raw));
                        spans.push(Span { start: i, end: p });
                        toks.push(Type::PotentialDelim(DelimiterType::DelimitOpen));
                        let op_end = p + open_pat.len();
                        spans.push(Span { start: p, end: op_end });
                        let ghost after_open_toks = toks@;
                        let ghost after_open_spans = spans@;
                        match scan_inner(seg, inner_lo, &mut toks, &mut spans) {
                            Err(e) => {
                                proof {
                                    assert(spec_template(content@, openv, closev, i as int)
                                        == TScan::Fail(inner_lo + e));
                                }
                                return Err(TemplateError { pos: inner_lo + e });
                            },
                            Ok(()) => {
                                let ghost after_inner_toks = toks@;
                                let ghost after_inner_spans = spans@;
                                toks.push(Type::PotentialDelim(DelimiterType::DelimitClose));
                                spans.push(Span { start: q, end: cont });
                                proof {
                                    let a = (
                                        TTok::Raw(content@.subrange(i as int, p as int)),
                                        i as int,
                                        p as int,
                                    );
                                    let b = (TTok::DelimOpen, p as int, op_end as int);
                                    let cc = (TTok::DelimClose, q as int, cont as int);
                                    let inner_ts = match spec_scan_inner(seg@, 0) {
                                        TScan::Toks(ts) => ts,
                                        TScan::Fail(_) => Seq::empty(),
                                    };
                                    assert(t_toks_model(after_open_toks, after_open_spans)
                                        =~= t_toks_model(pre_toks, pre_spans) + seq![a] + seq![b]);
                                    assert(t_toks_model(toks@, spans@) =~= t_toks_model(
                                        after_inner_toks,
                                        after_inner_spans,
                                    ).push(cc));
                                    assert(t_toks_model(toks@, spans@) =~= t_toks_model(
                                        pre_toks,
                                        pre_spans,
                                    ) + seq![a] + seq![b] + shift_spans(inner_ts, inner_lo as int)
                                        + seq![cc]);
                                    match spec_template(content@, openv, closev, cont as int) {
                                        TScan::Fail(pp) => {
                                            assert(spec_template(
                                                content@,
                                                openv,
                                                closev,
                                                i as int,
                                            ) == TScan::Fail(pp));
                                        },
                                        TScan::Toks(rest) => {
                                            assert(spec_template(
                                                content@,
                                                openv,
                                                closev,
                                                i as int,
                                            ) == TScan::Toks(
                                                seq![a] + seq![b] + shift_spans(
                                                    inner_ts,
                                                    inner_lo as int,
                                                ) + seq![cc] + rest,
                                            ));
                                            assert(t_toks_model(pre_toks, pre_spans) + (seq![a]
                                                + seq![b] + shift_spans(inner_ts, inner_lo as int)
                                                + seq![cc] + rest) =~= t_toks_model(toks@, spans@)
                                                + rest);
                                        },
                                    }
                                }
                                i = cont;
                            },
                        }
                    },
                }
            },
        }
    }
}

/// The decimal digits of a non-negative integer.
pub open spec fn dec_digits(n: int) -> Seq<char>
    decreases n,
{
    if n < 0 {
        Seq::empty()
    } else if n < 10 {
        seq![((48 + n) as u8) as char]
    } else {
        dec_digits(n / 10) + seq![((48 + n % 10) as u8) as char]
    }
}

/// Digit values as the characters that spell them.
pub open spec fn digit_chars(ds: Seq<u8>) -> Seq<char> {
    Seq::new(ds.len(), |i: int| ((48 + ds[i]) as u8) as char)
}

/// A string character in quoted form: quotes and backslashes get a
/// backslash.
pub open spec fn esc_char(c: char) -> Seq<char> {
    if c == '"' || c == '\\' {
        seq!['\\', c]
    } else {
        seq![c]
    }
}

/// A string's characters in quoted form.
pub open spec fn escape(s: Seq<char>) -> Seq<char>
    decreases s.len(),
{
    if s.len() == 0 {
        Seq::empty()
    } else {
        escape(s.drop_last()) + esc_char(s.last())
    }
}

/// The canonical text of a number: the digits, a sign for negatives, a
/// point between the digit groups of a decimal.
pub open spec fn render_number(n: crate::values::Number) -> Seq<char> {
    match n {
        crate::values::Number::UInt(u) => dec_digits(u as int),
        crate::values::Number::Neg(v) => seq!['-'] + dec_digits(-(v as int)),
        crate::values::Number::Dec(d) => (if d.neg {
            seq!['-']
        } else {
            Seq::empty()
        }) + digit_chars(d.int_digits@) + seq!['.'] + digit_chars(d.frac_digits@),
    }
}

/// The canonical text of a value in embedded position: strings quoted,
/// arrays bracketed with comma-separated items, objects braced with
/// `"name":value` fields in written order.
pub open spec fn render_value(v: crate::values::Value) -> Seq<char>
    decreases v,
{
    match v {
        crate::values::Value::Null => seq!['n', 'u', 'l', 'l'],
        crate::values::Value::Bool(b) => if b {
            seq!['t', 'r', 'u', 'e']
        } else {
            seq!['f', 'a', 'l', 's', 'e']
        },
        crate::values::Value::Number(n) => render_number(n),
        crate::values::Value::String(st) => seq!['"'] + escape(st@) + seq!['"'],
        crate::values::Value::Array(items) => seq!['['] + render_items(items@) + seq![']'],
        crate::values::Value::Object(entries) => seq!['{'] + render_entries(entries@) + seq!['}'],
    }
}

/// Array items, comma separated.
pub open spec fn render_items(s: Seq<crate::values::Value>) -> Seq<char>
    decreases s,
{
    if s.len() == 0 {
        Seq::empty()
    } else if s.len() == 1 {
        render_value(s.last())
    } else {
        render_items(s.drop_last()) + seq![','] + render_value(s.last())
    }
}

/// Object fields, comma separated.
pub open spec fn render_entries(s: Seq<(String, crate::values::Value)>) -> Seq<char>
    decreases s,
{
    if s.len() == 0 {
        Seq::empty()
    } else if s.len() == 1 {
        seq!['"'] + escape(s.last().0@) + seq!['"', ':'] + render_value(s.last().1)
    } else {
        render_entries(s.drop_last()) + seq![',', '"'] + escape(s.last().0@) + seq!['"', ':']
            + render_value(s.last().1)
    }
}

/// The digits of a non-negative machine integer.
pub fn u64_digits(n: u64) -> (r: Vec<char>)
    ensures
        r@ == dec_digits(n as int),
    decreases n,
{
    if n < 10 {
        let mut r: Vec<char> = Vec::new();
        r.push((48 + n as u8) as char);
        proof {
            assert(r@ =~= dec_digits(n as int));
        }
        r
    } else {
        let mut r = u64_digits(n / 10);
        r.push((48 + (n % 10) as u8) as char);
        proof {
            assert(r@ =~= dec_digits(n as int));
        }
        r
    }
}

/// The canonical text of a number.
fn render_number_exec(n: &crate::values::Number, out: &mut Vec<char>)
    requires
        n.wf(),
    ensures
        final(out)@ == old(out)@ + render_number(*n),
{
    match n {
        crate::values::Number::UInt(u) => {
            let mut ds = u64_digits(*u);
            let mut k: usize = 0;
            while k < ds.len()
                invariant
                    k <= ds@.len(),
                    ds@ == dec_digits((*n)->UInt_0 as int),
                    n is UInt,
                    out@ == old(out)@ + ds@.subrange(0, k as int),
                decreases ds@.len() - k,
            {
                out.push(ds[k]);
                k = k + 1;
                proof {
                    assert(old(out)@ + ds@.subrange(0, k as int) =~= out@);
                }
            }
            proof {
                assert(ds@.subrange(0, ds@.len() as int) =~= ds@);
            }
        },
        crate::values::Number::Neg(v) => {
            out.push('-');
            let mag: u64 = ((-(*v + 1)) as u64) + 1;
            proof {
                assert(mag as int == -(*v as int));
            }
            let mut ds = u64_digits(mag);
            let ghost base = out@;
            let mut k: usize = 0;
            while k < ds.len()
                invariant
                    k <= ds@.len(),
                    out@ == base + ds@.subrange(0, k as int),
                decreases ds@.len() - k,
            {
                out.push(ds[k]);
                k = k + 1;
                proof {
                    assert(base + ds@.subrange(0, k as int) =~= out@);
                }
            }
            proof {
                assert(ds@.subrange(0, ds@.len() as int) =~= ds@);
                assert(out@ =~= old(out)@ + render_number(*n));
            }
        },
        crate::values::Number::Dec(d) => {
            if d.neg {
                out.push('-');
            }
            let ghost base = out@;
            let mut k: usize = 0;
            while k < d.int_digits.len()
                invariant
                    n is Dec,
                    n->Dec_0 == *d,
                    d.wf(),
                    k <= d.int_digits@.len(),
                    out@ == base + digit_chars(d.int_digits@).subrange(0, k as int),
                decreases d.int_digits@.len() - k,
            {
                out.push((48 + d.int_digits[k]) as char);
                k = k + 1;
                proof {
                    assert(base + digit_chars(d.int_digits@).subrange(0, k as int) =~= out@);
                }
            }
            out.push('.');
            let ghost base2 = out@;
            let mut k2: usize = 0;
            while k2 < d.frac_digits.len()
                invariant
                    n is Dec,
                    n->Dec_0 == *d,
                    d.wf(),
                    k2 <= d.frac_digits@.len(),
                    out@ == base2 + digit_chars(d.frac_digits@).subrange(0, k2 as int),
                decreases d.frac_digits@.len() - k2,
            {
                out.push((48 + d.frac_digits[k2]) as char);
                k2 = k2 + 1;
                proof {
                    assert(base2 + digit_chars(d.frac_digits@).subrange(0, k2 as int) =~= out@);
                }
            }
            proof {
                assert(digit_chars(d.int_digits@).subrange(0, d.int_digits@.len() as int)
                    =~= digit_chars(d.int_digits@));
                assert(digit_chars(d.frac_digits@).subrange(0, d.frac_digits@.len() as int)
                    =~= digit_chars(d.frac_digits@));
                assert(out@ =~= old(out)@ + render_number(*n));
            }
        },
    }
}

/// Appends a string's characters in quoted form.
fn escape_into(st: &str, out: &mut Vec<char>)
    ensures
        final(out)@ == old(out)@ + escape(st@),
{
    let cs = crate::text::to_chars(st);
    let mut k: usize = 0;
    while k < cs.len()
        invariant
            k <= cs@.len(),
            cs@ == st@,
            out@ == old(out)@ + escape(st@.subrange(0, k as int)),
        decreases cs@.len() - k,
    {
        let ghost pre = out@;
        let c = cs[k];
        if c == '"' || c == '\\' {
            out.push('\\');
            out.push(c);
        } else {
            out.push(c);
        }
        k = k + 1;
        proof {
            assert(st@.subrange(0, k as int).drop_last() =~= st@.subrange(0, k - 1));
            assert(out@ =~= old(out)@ + escape(st@.subrange(0, k as int)));
        }
    }
    proof {
        assert(st@.subrange(0, st@.len() as int) =~= st@);
    }
}

/// Appends the canonical text of a value in embedded position.
fn render_into(v: &crate::values::Value, out: &mut Vec<char>)
    requires
        v.wf(),
    ensures
        final(out)@ == old(out)@ + render_value(*v),
    decreases *v,
{
    match v {
        crate::values::Value::Null => {
            out.push('n');
            out.push('u');
            out.push('l');
            out.push('l');
            proof {
                assert(out@ =~= old(out)@ + render_value(*v));
            }
        },
        crate::values::Value::Bool(b) => {
            if *b {
                out.push('t');
                out.push('r');
                out.push('u');
                out.push('e');
            } else {
                out.push('f');
                out.push('a');
                out.push('l');
                out.push('s');
                out.push('e');
            }
            proof {
                assert(out@ =~= old(out)@ + render_value(*v));
            }
        },
        crate::values::Value::Number(n) => {
            render_number_exec(n, out);
        },
        crate::values::Value::String(st) => {
            out.push('"');
            escape_into(st.as_str(), out);
            out.push('"');
            proof {
                assert(out@ =~= old(out)@ + render_value(*v));
            }
        },
        crate::values::Value::Array(items) => {
            proof {
                crate::values::lemma_values_wf(items@);
            }
            out.push('[');
            let mut k: usize = 0;
            while k < items.len()
                invariant
                    v == crate::values::Value::Array(*items),
                    forall|p: int| 0 <= p < items@.len() ==> (#[trigger] items@[p]).wf(),
                    k <= items@.len(),
                    out@ == old(out)@ + seq!['['] + render_items(items@.subrange(0, k as int)),
                decreases items@.len() - k,
            {
                let ghost pre = out@;
                if k > 0 {
                    out.push(',');
                }
                proof {
                    assert(decreases_to!(*v => (*v)->Array_0));
                    assert(decreases_to!((*v)->Array_0 => (*v)->Array_0@));
                    vstd::seq::axiom_seq_index_decreases((*v)->Array_0@, k as int);
                    assert(decreases_to!(*v => items@[k as int]));
                }
                render_into(&items[k], out);
                k = k + 1;
                proof {
                    assert(items@.subrange(0, k as int).drop_last() =~= items@.subrange(0, k - 1));
                    assert(items@.subrange(0, k as int).last() == items@[k - 1]);
                    assert(out@ =~= old(out)@ + seq!['['] + render_items(
                        items@.subrange(0, k as int),
                    ));
                }
            }
            out.push(']');
            proof {
                assert(items@.subrange(0, items@.len() as int) =~= items@);
                assert(out@ =~= old(out)@ + render_value(*v));
            }
        },
        crate::values::Value::Object(entries) => {
            proof {
                crate::values::lemma_value_entries_wf(entries@);
            }
            out.push('{');
            let mut k: usize = 0;
            while k < entries.len()
                invariant
                    v == crate::values::Value::Object(*entries),
                    forall|p: int| 0 <= p < entries@.len() ==> (#[trigger] entries@[p].1).wf(),
                    k <= entries@.len(),
                    out@ == old(out)@ + seq!['{'] + render_entries(entries@.subrange(0, k as int)),
                decreases entries@.len() - k,
            {
                if k > 0 {
                    out.push(',');
                }
                out.push('"');
                escape_into(entries[k].0.as_str(), out);
                out.push('"');
                out.push(':');
                proof {
                    assert(decreases_to!(*v => (*v)->Object_0));
                    assert(decreases_to!((*v)->Object_0 => (*v)->Object_0@));
                    vstd::seq::axiom_seq_index_decreases((*v)->Object_0@, k as int);
                    assert(decreases_to!((*v)->Object_0@[k as int] => (*v)->Object_0@[k as int].1));
                    assert(decreases_to!(*v => entries@[k as int].1));
                }
                render_into(&entries[k].1, out);
                k = k + 1;
                proof {
                    assert(entries@.subrange(0, k as int).drop_last() =~= entries@.subrange(
                        0,
                        k - 1,
                    ));
                    assert(entries@.subrange(0, k as int).last() == entries@[k - 1]);
                    assert(out@ =~= old(out)@ + seq!['{'] + render_entries(
                        entries@.subrange(0, k as int),
                    ));
                }
            }
            out.push('}');
            proof {
                assert(entries@.subrange(0, entries@.len() as int) =~= entries@);
                assert(out@ =~= old(out)@ + render_value(*v));
            }
        },
    }
}

/// One resolution error, carrying the placeholder text involved.
#[derive(Debug, PartialEq)]
pub enum ErrorReplace {
    /// The name is not bound, or its value is null.
    NoValue(String),
    /// The path names a field the object does not have.
    NoField(String, String),
    /// The name is bound to a whole object, which cannot be interpolated.
    ExpectedValue(String),
    /// The path resolves to a whole object.
    UnexpectedObject(String, String),
    /// The path descends into a value that is not an object.
    UnexpectedField(String, String),
}

/// The mathematical model of a resolution error.
pub enum ErrModel {
    NoValue(Seq<char>),
    NoField(Seq<char>, Seq<char>),
    ExpectedValue(Seq<char>),
    UnexpectedObject(Seq<char>, Seq<char>),
    UnexpectedField(Seq<char>, Seq<char>),
}

impl ErrorReplace {
    pub open spec fn model(self) -> ErrModel {
        match self {
            ErrorReplace::NoValue(a) => ErrModel::NoValue(a@),
            ErrorReplace::NoField(a, b) => ErrModel::NoField(a@, b@),
            ErrorReplace::ExpectedValue(a) => ErrModel::ExpectedValue(a@),
            ErrorReplace::UnexpectedObject(a, b) => ErrModel::UnexpectedObject(a@, b@),
            ErrorReplace::UnexpectedField(a, b) => ErrModel::UnexpectedField(a@, b@),
        }
    }
}

/// What one token contributes: an output fragment, a resolution error, or
/// nothing.
pub enum Outcome {
    Frag(Seq<char>),
    Oops(ErrModel),
    Skip,
}

/// The position of the first dot at or after `i`, or the length.
pub open spec fn dot_pos(s: Seq<char>, i: int) -> int
    decreases s.len() - i,
{
    if 0 <= i < s.len() {
        if s[i] == '.' {
            i
        } else {
            dot_pos(s, i + 1)
        }
    } else {
        s.len() as int
    }
}

/// What a value reached at the end of a path contributes: objects cannot be
/// interpolated, null is a missing value, strings go in verbatim, every
/// other value in its canonical text.
pub open spec fn finalize(
    v: crate::values::Value,
    path: Seq<char>,
    root: Seq<char>,
) -> Outcome {
    match v {
        crate::values::Value::Object(_) => Outcome::Oops(
            ErrModel::UnexpectedObject(path, Seq::empty()),
        ),
        crate::values::Value::Null => Outcome::Oops(ErrModel::NoValue(root)),
        crate::values::Value::String(st) => Outcome::Frag(st@),
        _ => Outcome::Frag(render_value(v)),
    }
}

/// Descends through the remaining `.`-separated fields of a path.
pub open spec fn descend(
    v: crate::values::Value,
    fields: Seq<char>,
    path: Seq<char>,
    root: Seq<char>,
) -> Outcome
    decreases fields.len(),
{
    if fields.len() == 0 {
        finalize(v, path, root)
    } else {
        let d = dot_pos(fields, 0);
        let field = fields.subrange(0, if d <= fields.len() {
            d
        } else {
            fields.len() as int
        });
        match v {
            crate::values::Value::Object(entries) => {
                if crate::values::has_key(entries@, field) {
                    let v2 = entries@[crate::values::key_index(entries@, field)].1;
                    let rest = if 0 <= d < fields.len() {
                        fields.subrange(d + 1, fields.len() as int)
                    } else {
                        Seq::empty()
                    };
                    if rest.len() < fields.len() {
                        descend(v2, rest, path, root)
                    } else {
                        Outcome::Skip
                    }
                } else {
                    Outcome::Oops(ErrModel::NoField(path, field))
                }
            },
            _ => Outcome::Oops(ErrModel::UnexpectedField(path, field)),
        }
    }
}

/// What one template token contributes, resolved against the bindings.
pub open spec fn resolve_tok(t: TTok, entries: Seq<(String, crate::values::Value)>) -> Outcome {
    match t {
        TTok::Raw(s) => Outcome::Frag(s),
        TTok::Ident(name) => {
            if !crate::values::has_key(entries, name) {
                Outcome::Oops(ErrModel::NoValue(name))
            } else {
                let v = entries[crate::values::key_index(entries, name)].1;
                match v {
                    crate::values::Value::Object(_) => Outcome::Oops(
                        ErrModel::ExpectedValue(name),
                    ),
                    crate::values::Value::Null => Outcome::Oops(ErrModel::NoValue(name)),
                    crate::values::Value::String(st) => Outcome::Frag(st@),
                    _ => Outcome::Frag(render_value(v)),
                }
            }
        },
        TTok::IdentWithField(path) => {
            let d = dot_pos(path, 0);
            let root = path.subrange(0, if d <= path.len() {
                d
            } else {
                path.len() as int
            });
            if !crate::values::has_key(entries, root) {
                Outcome::Oops(ErrModel::NoValue(root))
            } else {
                let v = entries[crate::values::key_index(entries, root)].1;
                let rest = if 0 <= d < path.len() {
                    path.subrange(d + 1, path.len() as int)
                } else {
                    Seq::empty()
                };
                descend(v, rest, path, root)
            }
        },
        _ => Outcome::Skip,
    }
}

/// The output fragments of a token stream, in order.
pub open spec fn frags_of(
    toks: Seq<TTok>,
    entries: Seq<(String, crate::values::Value)>,
) -> Seq<Seq<char>>
    decreases toks.len(),
{
    if toks.len() == 0 {
        Seq::empty()
    } else {
        let prev = frags_of(toks.drop_last(), entries);
        match resolve_tok(toks.last(), entries) {
            Outcome::Frag(f) => prev.push(f),
            _ => prev,
        }
    }
}

/// The resolution errors of a token stream, in order: one per unresolved
/// placeholder, collected across the whole stream.
pub open spec fn errs_of(
    toks: Seq<TTok>,
    entries: Seq<(String, crate::values::Value)>,
) -> Seq<ErrModel>
    decreases toks.len(),
{
    if toks.len() == 0 {
        Seq::empty()
    } else {
        let prev = errs_of(toks.drop_last(), entries);
        match resolve_tok(toks.last(), entries) {
            Outcome::Oops(e) => prev.push(e),
            _ => prev,
        }
    }
}

/// The models of a template token vector, spans aside.
pub open spec fn t_models(toks: Seq<Type>) -> Seq<TTok> {
    Seq::new(toks.len(), |q: int| toks[q].model())
}

/// The position of the first dot at or after `i`.
fn find_dot(s: &[char], i: usize) -> (r: usize)
    requires
        i <= s@.len(),
    ensures
        r == dot_pos(s@, i as int),
        i <= r <= s@.len(),
{
    let mut j = i;
    while j < s.len() && s[j] != '.'
        invariant
            i <= j <= s@.len(),
            dot_pos(s@, i as int) == dot_pos(s@, j as int),
        decreases s@.len() - j,
    {
        j = j + 1;
    }
    j
}

/// What one reached value contributes, executed.
enum Resolved {
    Frag(String),
    Oops(ErrorReplace),
}

impl Resolved {
    spec fn model(self) -> Outcome {
        match self {
            Resolved::Frag(f) => Outcome::Frag(f@),
            Resolved::Oops(e) => Outcome::Oops(e.model()),
        }
    }
}

/// Descends through the remaining fields of a dotted path.
fn descend_exec(
    v: &crate::values::Value,
    fields: &[char],
    path: &[char],
    root: &[char],
) -> (r: Resolved)
    requires
        v.wf(),
    ensures
        r.model() == descend(*v, fields@, path@, root@),
    decreases fields@.len(),
{
    if fields.len() == 0 {
        match v {
            crate::values::Value::Object(_) => Resolved::Oops(
                ErrorReplace::UnexpectedObject(
                    crate::text::chars_to_string(path),
                    String::new(),
                ),
            ),
            crate::values::Value::Null => Resolved::Oops(
                ErrorReplace::NoValue(crate::text::chars_to_string(root)),
            ),
            crate::values::Value::String(st) => Resolved::Frag(st.clone()),
            _ => {
                let mut out: Vec<char> = Vec::new();
                render_into(v, &mut out);
                proof {
                    assert(out@ =~= render_value(*v));
                }
                Resolved::Frag(crate::text::chars_to_string(out.as_slice()))
            },
        }
    } else {
        let d = find_dot(fields, 0);
        let field = vstd::slice::slice_subrange(fields, 0, d);
        match v {
            crate::values::Value::Object(entries) => {
                let fs = crate::text::chars_to_string(field);
                proof {
                    crate::values::lemma_value_entries_wf(entries@);
                    if crate::values::has_key(entries@, field@) {
                        crate::values::lemma_key_index(entries@, field@);
                    }
                }
                match crate::values::map_get(entries, fs.as_str()) {
                    Option::Some(v2) => {
                        if d < fields.len() {
                            let rest = vstd::slice::slice_subrange(fields, d + 1, fields.len());
                            descend_exec(v2, rest, path, root)
                        } else {
                            let rest = vstd::slice::slice_subrange(fields, 0, 0);
                            proof {
                                assert(rest@ =~= Seq::<char>::empty());
                            }
                            descend_exec(v2, rest, path, root)
                        }
                    },
                    Option::None => Resolved::Oops(
                        ErrorReplace::NoField(crate::text::chars_to_string(path), fs),
                    ),
                }
            },
            _ => Resolved::Oops(
                ErrorReplace::UnexpectedField(
                    crate::text::chars_to_string(path),
                    crate::text::chars_to_string(field),
                ),
            ),
        }
    }
}

/// The resolved output: the ordered fragments that concatenate to the final
/// text.
pub struct Replaced(pub Vec<String>);

impl Replaced {
    /// The fragments, in order.
    pub fn get_iter(&self) -> (r: &Vec<String>)
        ensures
            r == &self.0,
    {
        &self.0
    }

    /// The fragments concatenated into one string.
    pub fn get_string(self) -> (r: String)
        ensures
            r@ == concat_frags(self.0@),
    {
        let mut out = String::new();
        let mut k: usize = 0;
        while k < self.0.len()
            invariant
                k <= self.0@.len(),
                out@ == concat_frags(self.0@.subrange(0, k as int)),
            decreases self.0@.len() - k,
        {
            out.append(self.0[k].as_str());
            k = k + 1;
            proof {
                assert(self.0@.subrange(0, k as int).drop_last() =~= self.0@.subrange(0, k - 1));
                assert(out@ =~= concat_frags(self.0@.subrange(0, k as int)));
            }
        }
        proof {
            assert(self.0@.subrange(0, self.0@.len() as int) =~= self.0@);
        }
        out
    }

    /// Clears the given buffer and writes the concatenated fragments into
    /// it.
    pub fn extend_str(&self, t: &mut String)
        ensures
            final(t)@ == concat_frags(self.0@),
    {
        let mut out = String::new();
        let mut k: usize = 0;
        while k < self.0.len()
            invariant
                k <= self.0@.len(),
                out@ == concat_frags(self.0@.subrange(0, k as int)),
            decreases self.0@.len() - k,
        {
            out.append(self.0[k].as_str());
            k = k + 1;
            proof {
                assert(self.0@.subrange(0, k as int).drop_last() =~= self.0@.subrange(0, k - 1));
                assert(out@ =~= concat_frags(self.0@.subrange(0, k as int)));
            }
        }
        proof {
            assert(self.0@.subrange(0, self.0@.len() as int) =~= self.0@);
        }
        *t = out;
    }
}

/// The fragments joined into one character sequence.
pub open spec fn concat_frags(frags: Seq<String>) -> Seq<char>
    decreases frags.len(),
{
    if frags.len() == 0 {
        Seq::empty()
    } else {
        concat_frags(frags.drop_last()) + frags.last()@
    }
}

impl Replaced {
    /// Resolves a token stream against the bindings: every placeholder is
    /// looked up, and either every token's contribution is produced in
    /// order, or every resolution error across the whole stream is reported,
    /// not only the first.
    pub fn from(tokens: &Vec<Type>, values: &crate::values::Values) -> (r: Result<
        Replaced,
        Vec<ErrorReplace>,
    >)
        requires
            values.wf(),
        ensures
            match r {
                Ok(rep) => {
                    let fs = frags_of(t_models(tokens@), values.value_map.0@);
                    &&& errs_of(t_models(tokens@), values.value_map.0@).len() == 0
                    &&& rep.0@.len() == fs.len()
                    &&& forall|q: int| 0 <= q < fs.len() ==> (#[trigger] rep.0@[q])@ == fs[q]
                },
                Err(es) => {
                    let ms = errs_of(t_models(tokens@), values.value_map.0@);
                    &&& es@.len() == ms.len()
                    &&& es@.len() > 0
                    &&& forall|q: int| 0 <= q < ms.len() ==> (#[trigger] es@[q]).model() == ms[q]
                },
            },
    {
        let ghost ents = values.value_map.0@;
        let ghost tms = t_models(tokens@);
        proof {
            crate::values::lemma_value_entries_wf(ents);
        }
        let mut frags: Vec<String> = Vec::new();
        let mut errs: Vec<ErrorReplace> = Vec::new();
        let mut i: usize = 0;
        while i < tokens.len()
            invariant
                values.wf(),
                ents == values.value_map.0@,
                tms == t_models(tokens@),
                forall|p: int| 0 <= p < ents.len() ==> (#[trigger] ents[p].1).wf(),
                i <= tokens@.len(),
                frags@.len() == frags_of(tms.subrange(0, i as int), ents).len(),
                forall|q: int|
                    0 <= q < frags@.len() ==> (#[trigger] frags@[q])@ == frags_of(
                        tms.subrange(0, i as int),
                        ents,
                    )[q],
                errs@.len() == errs_of(tms.subrange(0, i as int), ents).len(),
                forall|q: int|
                    0 <= q < errs@.len() ==> (#[trigger] errs@[q]).model() == errs_of(
                        tms.subrange(0, i as int),
                        ents,
                    )[q],
            decreases tokens@.len() - i,
        {
            let step: Option<Resolved> = match &tokens[i] {
                Type::Raw(st) => Some(Resolved::Frag(st.clone())),
                Type::Ident(name) => {
                    proof {
                        if crate::values::has_key(ents, name@) {
                            crate::values::lemma_key_index(ents, name@);
                        }
                    }
                    match crate::values::map_get(&values.value_map.0, name.as_str()) {
                        Option::None => Some(
                            Resolved::Oops(ErrorReplace::NoValue(name.clone())),
                        ),
                        Option::Some(v) => match v {
                            crate::values::Value::Object(_) => Some(
                                Resolved::Oops(ErrorReplace::ExpectedValue(name.clone())),
                            ),
                            crate::values::Value::Null => Some(
                                Resolved::Oops(ErrorReplace::NoValue(name.clone())),
                            ),
                            crate::values::Value::String(st) => Some(Resolved::Frag(st.clone())),
                            _ => {
                                let mut out: Vec<char> = Vec::new();
                                render_into(v, &mut out);
                                proof {
                                    assert(out@ =~= render_value(*v));
                                }
                                Some(
                                    Resolved::Frag(
                                        crate::text::chars_to_string(out.as_slice()),
                                    ),
                                )
                            },
                        },
                    }
                },
                Type::IdentWithField(pathstr) => {
                    let path = crate::text::to_chars(pathstr.as_str());
                    let d = find_dot(path.as_slice(), 0);
                    let root = vstd::slice::slice_subrange(path.as_slice(), 0, d);
                    let roots = crate::text::chars_to_string(root);
                    proof {
                        if crate::values::has_key(ents, root@) {
                            crate::values::lemma_key_index(ents, root@);
                        }
                    }
                    match crate::values::map_get(&values.value_map.0, roots.as_str()) {
                        Option::None => Some(Resolved::Oops(ErrorReplace::NoValue(roots))),
                        Option::Some(v) => {
                            if d < path.len() {
                                let rest = vstd::slice::slice_subrange(
                                    path.as_slice(),
                                    d + 1,
                                    path.len(),
                                );
                                Some(descend_exec(v, rest, path.as_slice(), root))
                            } else {
                                let rest = vstd::slice::slice_subrange(path.as_slice(), 0, 0);
                                proof {
                                    assert(rest@ =~= Seq::<char>::empty());
                                }
                                Some(descend_exec(v, rest, path.as_slice(), root))
                            }
                        },
                    }
                },
                _ => None,
            };
            proof {
                assert(tms.subrange(0, i + 1).drop_last() =~= tms.subrange(0, i as int));
                assert(tms.subrange(0, i + 1).last() == tms[i as int]);
            }
            match step {
                Some(Resolved::Frag(f)) => {
                    proof {
                        assert(resolve_tok(tms[i as int], ents) == Outcome::Frag(f@));
                    }
                    frags.push(f);
                },
                Some(Resolved::Oops(e)) => {
                    proof {
                        assert(resolve_tok(tms[i as int], ents) == Outcome::Oops(e.model()));
                    }
                    errs.push(e);
                },
                None => {
                    proof {
                        assert(resolve_tok(tms[i as int], ents) == Outcome::Skip);
                    }
                },
            }
            i = i + 1;
        }
        proof {
            assert(tms.subrange(0, tms.len() as int) =~= tms);
        }
        if errs.len() == 0 {
            Ok(Replaced(frags))
        } else {
            Err(errs)
        }
    }
}

/// `find_at` finds occurrences.
pub proof fn lemma_find_at_occurs(text: Seq<char>, pat: Seq<char>, i: int, p: int)
    requires
        find_at(text, pat, i) == Some(p),
    ensures
        occurs_at(text, pat, p),
        i <= p,
    decreases text.len() - i,
{
    if !(i < 0 || i + pat.len() > text.len()) && !occurs_at(text, pat, i) && i < text.len() {
        lemma_find_at_occurs(text, pat, i + 1, p);
    }
}

/// The unclosed-delimiter law: whenever the scan reaches a position whose
/// next opening marker has no closing marker anywhere after it, the whole
/// scan fails, and the failure points at that opening marker.
pub proof fn lemma_unclosed_delimiter(
    text: Seq<char>,
    open: Seq<char>,
    close: Seq<char>,
    i: int,
    p: int,
)
    requires
        0 <= i,
        find_at(text, open, i) == Some(p),
        find_at(text, close, p) == None::<int>,
        open.len() >= 1,
    ensures
        spec_template(text, open, close, i) == TScan::Fail(p),
{
    lemma_find_at_occurs(text, open, i, p);
    assert(i < text.len()) by {
        assert(p + open.len() <= text.len());
    }
}

/// The number of tokens whose resolution fails.
pub open spec fn oops_count(
    toks: Seq<TTok>,
    entries: Seq<(String, crate::values::Value)>,
) -> int
    decreases toks.len(),
{
    if toks.len() == 0 {
        0
    } else {
        oops_count(toks.drop_last(), entries) + (match resolve_tok(toks.last(), entries) {
            Outcome::Oops(_) => 1int,
            _ => 0int,
        })
    }
}

/// The aggregation law: resolution never stops at the first error; the
/// error list holds exactly one entry for every unresolved placeholder in
/// the whole token stream.
pub proof fn lemma_error_aggregation(toks: Seq<TTok>, entries: Seq<(String, crate::values::Value)>)
    ensures
        errs_of(toks, entries).len() == oops_count(toks, entries),
    decreases toks.len(),
{
    if toks.len() > 0 {
        lemma_error_aggregation(toks.drop_last(), entries);
    }
}

} // verus!
