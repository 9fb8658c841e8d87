//! Spans and diagnostics: byte-offset ranges into source text, line/column
//! computation, and compiler-style error rendering with the offending line
//! and a caret underline.

use vstd::prelude::*;

verus! {

/// A half-open range of character offsets into source text.
#[derive(Clone, Copy, PartialEq, Eq, Structural, Debug)]
pub struct Span {
    pub start: usize,
    pub end: usize,
}

/// A rendered position: the 1-indexed line, and the 1-indexed column range
/// covering the span on that line.
#[derive(Clone, Copy, PartialEq, Eq, Structural, Debug)]
pub struct Location {
    pub line: usize,
    pub col_start: usize,
    pub col_end: usize,
}

/// The 1-indexed line number of offset `n`: one more than the newlines
/// before it.
pub open spec fn line_of(s: Seq<char>, n: int) -> int
    decreases n,
{
    if n <= 0 {
        1
    } else if s[n - 1] == '\n' {
        line_of(s, n - 1) + 1
    } else {
        line_of(s, n - 1)
    }
}

/// The 1-indexed column of offset `n`: one more than the characters since
/// the start of its line.
pub open spec fn col_of(s: Seq<char>, n: int) -> int
    decreases n,
{
    if n <= 0 {
        1
    } else if s[n - 1] == '\n' {
        1
    } else {
        col_of(s, n - 1) + 1
    }
}

/// The line and column range of a span, computed by scanning the source for
/// line breaks up to the span's start.
pub fn get_location(s: &[char], span: Span) -> (r: Location)
    requires
        span.start <= span.end <= s@.len(),
        s@.len() < usize::MAX,
    ensures
        r.line == line_of(s@, span.start as int),
        r.col_start == col_of(s@, span.start as int),
        r.col_end == r.col_start + (span.end - span.start),
{
    let mut line: usize = 1;
    let mut col: usize = 1;
    let mut i: usize = 0;
    while i < span.start
        invariant
            i <= span.start <= span.end <= s@.len(),
            s@.len() < usize::MAX,
            line == line_of(s@, i as int),
            col == col_of(s@, i as int),
        decreases span.start - i,
    {
        proof {
            lemma_line_col_bounds(s@, i + 1);
        }
        if s[i] == '\n' {
            line = line + 1;
            col = 1;
        } else {
            col = col + 1;
        }
        i = i + 1;
    }
    proof {
        lemma_line_col_bounds(s@, span.start as int);
    }
    Location { line, col_start: col, col_end: col + (span.end - span.start) }
}

/// Line and column are at least one and at most the offset plus one.
pub proof fn lemma_line_col_bounds(s: Seq<char>, i: int)
    ensures
        1 <= line_of(s, i),
        1 <= col_of(s, i),
        i >= 0 ==> line_of(s, i) <= i + 1,
        i >= 0 ==> col_of(s, i) <= i + 1,
    decreases i,
{
    if i > 0 {
        lemma_line_col_bounds(s, i - 1);
    }
}


/// The first offset of the line holding offset `n`: one past the last line
/// break before it.
pub open spec fn line_begin(s: Seq<char>, n: int) -> int
    decreases n,
{
    if n <= 0 {
        0
    } else if s[n - 1] == '\n' {
        n
    } else {
        line_begin(s, n - 1)
    }
}

/// `n` spaces.
pub open spec fn spaces(n: int) -> Seq<char> {
    Seq::new(if n >= 0 {
        n as nat
    } else {
        0
    }, |i: int| ' ')
}

/// `n` carets.
pub open spec fn carets(n: int) -> Seq<char> {
    Seq::new(if n >= 0 {
        n as nat
    } else {
        0
    }, |i: int| '^')
}

/// A line number padded on the left to at least three characters.
pub open spec fn pad3(digits: Seq<char>) -> Seq<char> {
    if digits.len() >= 3 {
        digits
    } else {
        spaces(3 - digits.len()) + digits
    }
}

/// The compiler-style rendering of an error: the message, an arrow line with
/// the path and the 1-indexed line and column, the offending source line in
/// a numbered gutter, and a caret underline as wide as the span, aligned to
/// its column.
pub open spec fn rendered_error(
    msg: Seq<char>,
    path: Seq<char>,
    src: Seq<char>,
    start: int,
    end: int,
) -> Seq<char> {
    let line = line_of(src, start);
    let col = col_of(src, start);
    let ln_digits = crate::replacer::dec_digits(line);
    let line_text = src.subrange(
        line_begin(src, start),
        crate::values::token::line_end(src, start),
    );
    msg + seq!['\n', ' ', ' ', ' ', '-', '-', '>', ' '] + path + seq![':'] + ln_digits + seq![':']
        + crate::replacer::dec_digits(col) + seq!['\n', ' ', ' ', ' ', ' ', '|', '\n'] + pad3(
        ln_digits,
    ) + seq![' ', '|', ' '] + line_text + seq!['\n', ' ', ' ', ' ', ' ', '|', ' '] + spaces(
        col - 1,
    ) + carets(end - start) + seq!['\n', ' ', ' ', ' ', ' ', '|']
}

/// Appends a character sequence.
fn push_all(out: &mut Vec<char>, cs: &[char])
    ensures
        final(out)@ == old(out)@ + cs@,
{
    let mut k: usize = 0;
    while k < cs.len()
        invariant
            k <= cs@.len(),
            out@ == old(out)@ + cs@.subrange(0, k as int),
        decreases cs@.len() - k,
    {
        out.push(cs[k]);
        k = k + 1;
        proof {
            assert(old(out)@ + cs@.subrange(0, k as int) =~= out@);
        }
    }
    proof {
        assert(cs@.subrange(0, cs@.len() as int) =~= cs@);
    }
}

/// Appends `n` copies of one character.
fn push_repeat(out: &mut Vec<char>, c: char, n: usize)
    ensures
        final(out)@ == old(out)@ + Seq::new(n as nat, |i: int| c),
{
    let mut k: usize = 0;
    while k < n
        invariant
            k <= n,
            out@ == old(out)@ + Seq::new(k as nat, |i: int| c),
        decreases n - k,
    {
        out.push(c);
        k = k + 1;
        proof {
            assert(old(out)@ + Seq::new(k as nat, |i: int| c) =~= out@);
        }
    }
}

/// Renders an error at a span of the source as a compiler-style message:
/// the line and column computed from the span, the offending line, and a
/// caret underline of the span's width at the span's column.
pub fn error_at(msg: &str, path: &str, source: &str, span: Span) -> (r: String)
    requires
        span.start <= span.end <= source@.len(),
        source@.len() < usize::MAX,
    ensures
        r@ == rendered_error(msg@, path@, source@, span.start as int, span.end as int),
{
    let src = crate::text::to_chars(source);
    let loc = get_location(src.as_slice(), span);
    let ghost target = rendered_error(msg@, path@, source@, span.start as int, span.end as int);
    let mut out: Vec<char> = Vec::new();
    push_all(&mut out, crate::text::to_chars(msg).as_slice());
    push_all(&mut out, &['\n', ' ', ' ', ' ', '-', '-', '>', ' ']);
    push_all(&mut out, crate::text::to_chars(path).as_slice());
    out.push(':');
    let ln_digits = ln_to_digits(loc.line);
    push_all(&mut out, ln_digits.as_slice());
    out.push(':');
    let col_digits = ln_to_digits(loc.col_start);
    push_all(&mut out, col_digits.as_slice());
    push_all(&mut out, &['\n', ' ', ' ', ' ', ' ', '|', '\n']);
    if ln_digits.len() < 3 {
        push_repeat(&mut out, ' ', 3 - ln_digits.len());
        proof {
            assert(spaces(3 - ln_digits@.len()) =~= Seq::new(
                (3 - ln_digits.len()) as nat,
                |i: int| ' ',
            ));
        }
    }
    push_all(&mut out, ln_digits.as_slice());
    push_all(&mut out, &[' ', '|', ' ']);
    let lb = find_line_begin(src.as_slice(), span.start);
    let le = crate::values::token::find_line_end(src.as_slice(), span.start);
    push_all(&mut out, vstd::slice::slice_subrange(src.as_slice(), lb, le));
    push_all(&mut out, &['\n', ' ', ' ', ' ', ' ', '|', ' ']);
    proof {
        lemma_line_col_bounds(source@, span.start as int);
    }
    push_repeat(&mut out, ' ', loc.col_start - 1);
    proof {
        assert(spaces(loc.col_start - 1) =~= Seq::new((loc.col_start - 1) as nat, |i: int| ' '));
    }
    push_repeat(&mut out, '^', span.end - span.start);
    proof {
        assert(carets(span.end as int - span.start as int) =~= Seq::new(
            (span.end - span.start) as nat,
            |i: int| '^',
        ));
    }
    push_all(&mut out, &['\n', ' ', ' ', ' ', ' ', '|']);
    proof {
        assert(out@ =~= target);
    }
    crate::text::chars_to_string(out.as_slice())
}

/// The decimal digits of a line or column number.
fn ln_to_digits(n: usize) -> (r: Vec<char>)
    ensures
        r@ == crate::replacer::dec_digits(n as int),
{
    crate::replacer::u64_digits(n as u64)
}

/// The first offset of the line holding offset `n`.
fn find_line_begin(s: &[char], n: usize) -> (r: usize)
    requires
        n <= s@.len(),
    ensures
        r == line_begin(s@, n as int),
        r <= n,
{
    let mut k = n;
    while k > 0 && s[k - 1] != '\n'
        invariant
            k <= n <= s@.len(),
            line_begin(s@, n as int) == line_begin(s@, k as int),
        decreases k,
    {
        k = k - 1;
    }
    k
}

} // verus!
