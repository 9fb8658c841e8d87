//! The delimiter pair bounding template placeholders: validation of the two
//! marker strings and substring search for either marker.

use vstd::prelude::*;
use vstd::string::StrSliceExecFns;

use crate::values::{Value, Values, ValueModel};

verus! {

/// Whether the pattern occurs in the text at position `p`.
pub open spec fn occurs_at(text: Seq<char>, pat: Seq<char>, p: int) -> bool {
    0 <= p && p + pat.len() <= text.len() && text.subrange(p, p + pat.len()) == pat
}

/// One delimiter marker.
#[derive(Clone, Copy)]
pub struct Delimiter<'a>(pub &'a str);

/// The lowercase form of an ASCII character.
pub open spec fn lower_char(c: char) -> char {
    if 65 <= c as u32 <= 90 {
        ((c as u32 + 32) as u8) as char
    } else {
        c
    }
}

/// The first index that is not a space or tab-like character.
pub open spec fn trim_start_idx(s: Seq<char>) -> int
    decreases s.len(),
{
    if s.len() == 0 {
        0
    } else if crate::values::token::is_ws_char(s.first()) {
        1 + trim_start_idx(s.drop_first())
    } else {
        0
    }
}

/// One past the last index that is not whitespace.
pub open spec fn trim_end_idx(s: Seq<char>) -> int
    decreases s.len(),
{
    if s.len() == 0 {
        0
    } else if crate::values::token::is_ws_char(s.last()) {
        trim_end_idx(s.drop_last())
    } else {
        s.len() as int
    }
}

/// The text with surrounding whitespace removed and every character
/// lowercased: two delimiters that agree under this form conflict.
pub open spec fn folded(s: Seq<char>) -> Seq<char> {
    let a = trim_start_idx(s);
    let b = trim_end_idx(s);
    if a <= b {
        s.subrange(a, b).map_values(|c: char| lower_char(c))
    } else {
        Seq::empty()
    }
}

impl<'a> Delimiter<'a> {
    /// The position, counted from `from`, of the first occurrence of this
    /// marker at or after `from`; nothing when there is none.
    pub fn find_in(&self, slice: &str, from: usize) -> (r: Option<usize>)
        ensures
            match r {
                Some(k) => occurs_at(slice@, self.0@, from + k) && forall|p: int|
                    from <= p < from + k ==> !occurs_at(slice@, self.0@, p),
                None => forall|p: int| from <= p ==> !occurs_at(slice@, self.0@, p),
            },
    {
        let text = crate::text::to_chars(slice);
        let pat = crate::text::to_chars(self.0);
        match find_pattern(&text, &pat, from) {
            Some(abs) => Some(abs - from),
            None => None,
        }
    }
}

/// The absolute position of the first occurrence of the pattern at or after
/// `from`.
pub fn find_pattern(text: &Vec<char>, pat: &Vec<char>, from: usize) -> (r: Option<usize>)
    ensures
        match r {
            Some(k) => from <= k && occurs_at(text@, pat@, k as int) && forall|p: int|
                from <= p < k ==> !occurs_at(text@, pat@, p),
            None => forall|p: int| from <= p ==> !occurs_at(text@, pat@, p),
        },
{
    if pat.len() > text.len() {
        return None;
    }
    let last = text.len() - pat.len();
    let mut p = from;
    if p > last {
        return None;
    }
    let tl = text.len();
    let pl = pat.len();
    loop
        invariant
            from <= p <= last,
            last + pl == tl,
            pl == pat@.len(),
            tl == text@.len(),
            forall|q: int| from <= q < p ==> !occurs_at(text@, pat@, q),
        decreases last - p,
    {
        let mut m: usize = 0;
        while m < pl && text[p + m] == pat[m]
            invariant
                p + pl <= tl,
                pl == pat@.len(),
                tl == text@.len(),
                m <= pl,
                forall|q: int| 0 <= q < m ==> text@[p + q] == pat@[q],
            decreases pl - m,
        {
            m = m + 1;
        }
        if m == pl {
            proof {
                assert(text@.subrange(p as int, p + pat@.len()) =~= pat@);
            }
            return Some(p);
        }
        proof {
            assert(!occurs_at(text@, pat@, p as int)) by {
                if occurs_at(text@, pat@, p as int) {
                    assert(text@.subrange(p as int, p + pat@.len())[m as int] == pat@[m as int]);
                }
            }
        }
        if p == last {
            proof {
                assert forall|q: int| from <= q implies !occurs_at(text@, pat@, q) by {
                    if q > last {
                        assert(q + pat@.len() > text@.len());
                    }
                }
            }
            return None;
        }
        p = p + 1;
    }
}

/// The configured delimiter pair: the opening marker and the closing one.
#[derive(Clone, Copy)]
pub struct Delimiters<'a>(pub Delimiter<'a>, pub Delimiter<'a>);

/// The reasons a delimiter pair is rejected.
#[derive(Debug, PartialEq)]
pub enum DelimiterError {
    /// No `temple_delimiters` binding, or one of the wrong shape.
    NotConfigured,
    /// A marker shorter than two characters.
    TooShort,
    /// A marker with a character outside ASCII.
    NotAscii,
    /// The two markers are the same once trimmed and lowercased.
    SameMarkers,
}

impl<'a> Delimiters<'a> {
    /// The two markers.
    pub fn delimiters(&self) -> (r: (&str, &str))
        ensures
            r.0@ == self.0.0@,
            r.1@ == self.1.0@,
    {
        (self.0.0, self.1.0)
    }

    /// The lengths of the two markers, in characters.
    pub fn sizes(&self) -> (r: (usize, usize))
        ensures
            r.0 == self.0.0@.len(),
            r.1 == self.1.0@.len(),
    {
        (self.0.0.unicode_len(), self.1.0.unicode_len())
    }

    /// The first two characters of the opening marker.
    pub fn first_open_chars(&self) -> (r: (char, char))
        requires
            self.0.0@.len() >= 2,
        ensures
            r.0 == self.0.0@[0],
            r.1 == self.0.0@[1],
    {
        (self.0.0.get_char(0), self.0.0.get_char(1))
    }

    /// The first two characters of the closing marker.
    pub fn first_close_chars(&self) -> (r: (char, char))
        requires
            self.1.0@.len() >= 2,
        ensures
            r.0 == self.1.0@[0],
            r.1 == self.1.0@[1],
    {
        (self.1.0.get_char(0), self.1.0.get_char(1))
    }

    /// The position, counted from `from`, of the next opening marker.
    pub fn find_start(&self, contents: &str, from: usize) -> (r: Option<usize>)
        ensures
            match r {
                Some(k) => occurs_at(contents@, self.0.0@, from + k) && forall|p: int|
                    from <= p < from + k ==> !occurs_at(contents@, self.0.0@, p),
                None => forall|p: int| from <= p ==> !occurs_at(contents@, self.0.0@, p),
            },
    {
        self.0.find_in(contents, from)
    }

    /// The position, counted from `from`, of the next closing marker.
    pub fn find_end(&self, contents: &str, from: usize) -> (r: Option<usize>)
        ensures
            match r {
                Some(k) => occurs_at(contents@, self.1.0@, from + k) && forall|p: int|
                    from <= p < from + k ==> !occurs_at(contents@, self.1.0@, p),
                None => forall|p: int| from <= p ==> !occurs_at(contents@, self.1.0@, p),
            },
    {
        self.1.find_in(contents, from)
    }

    /// Validates a pair of markers: each at least two characters, ASCII
    /// only, and distinct once trimmed and lowercased.
    pub fn new(open: &'a str, close: &'a str) -> (r: Result<Delimiters<'a>, DelimiterError>)
        ensures
            match r {
                Ok(d) => {
                    &&& d.0.0@ == open@
                    &&& d.1.0@ == close@
                    &&& open@.len() >= 2
                    &&& close@.len() >= 2
                    &&& vstd::string::is_ascii(open)
                    &&& vstd::string::is_ascii(close)
                    &&& folded(open@) != folded(close@)
                },
                Err(DelimiterError::TooShort) => open@.len() < 2 || close@.len() < 2,
                Err(DelimiterError::NotAscii) => !vstd::string::is_ascii(open)
                    || !vstd::string::is_ascii(close),
                Err(DelimiterError::SameMarkers) => folded(open@) == folded(close@),
                Err(DelimiterError::NotConfigured) => false,
            },
    {
        if open.unicode_len() < 2 || close.unicode_len() < 2 {
            return Err(DelimiterError::TooShort);
        }
        if !open.is_ascii() || !close.is_ascii() {
            return Err(DelimiterError::NotAscii);
        }
        if folded_eq(open, close) {
            return Err(DelimiterError::SameMarkers);
        }
        Ok(Delimiters(Delimiter(open), Delimiter(close)))
    }
}

/// The delimiter pair a configuration carries under the reserved
/// `temple_delimiters` binding: an object with string fields `open` and
/// `close`; nothing when the binding is absent or shaped otherwise.
pub open spec fn delim_config(m: Map<Seq<char>, ValueModel>) -> Option<(Seq<char>, Seq<char>)> {
    if m.dom().contains("temple_delimiters"@) {
        match m["temple_delimiters"@] {
            ValueModel::Object(o) => {
                if o.dom().contains("open"@) && o.dom().contains("close"@) {
                    match (o["open"@], o["close"@]) {
                        (ValueModel::String(a), ValueModel::String(b)) => Some((a, b)),
                        _ => None,
                    }
                } else {
                    None
                }
            },
            _ => None,
        }
    } else {
        None
    }
}

impl<'a> Delimiters<'a> {
    /// Reads and validates the delimiter pair configured under the reserved
    /// `temple_delimiters` binding. The absence of a well-shaped pair is a
    /// reported error, never a silent default.
    pub fn from_values(config: &'a Values) -> (r: Result<Delimiters<'a>, DelimiterError>)
        requires
            config.wf(),
        ensures
            match r {
                Ok(d) => {
                    &&& delim_config(config.value_map.model()) == Some((d.0.0@, d.1.0@))
                    &&& d.0.0@.len() >= 2
                    &&& d.1.0@.len() >= 2
                    &&& folded(d.0.0@) != folded(d.1.0@)
                },
                Err(DelimiterError::NotConfigured) => delim_config(config.value_map.model())
                    is None,
                Err(_) => delim_config(config.value_map.model()) is Some,
            },
    {
        let binding = match config.value_map.get("temple_delimiters") {
            Some(v) => v,
            None => {
                return Err(DelimiterError::NotConfigured);
            },
        };
        let entries = match binding {
            Value::Object(entries) => entries,
            _ => {
                return Err(DelimiterError::NotConfigured);
            },
        };
        proof {
            crate::values::lemma_value_entries_wf(entries@);
            if crate::values::has_key(entries@, "open"@) {
                crate::values::lemma_key_index(entries@, "open"@);
            }
            if crate::values::has_key(entries@, "close"@) {
                crate::values::lemma_key_index(entries@, "close"@);
            }
            assert(binding.model()->Object_0.dom().contains("open"@) == crate::values::has_key(
                entries@,
                "open"@,
            ));
            assert(binding.model()->Object_0.dom().contains("close"@) == crate::values::has_key(
                entries@,
                "close"@,
            ));
        }
        let open_v = match crate::values::map_get(entries, "open") {
            Some(v) => v,
            None => {
                return Err(DelimiterError::NotConfigured);
            },
        };
        let close_v = match crate::values::map_get(entries, "close") {
            Some(v) => v,
            None => {
                return Err(DelimiterError::NotConfigured);
            },
        };
        proof {
            crate::values::lemma_model_variant(*open_v);
            crate::values::lemma_model_variant(*close_v);
        }
        let open = match open_v {
            Value::String(st) => st.as_str(),
            _ => {
                return Err(DelimiterError::NotConfigured);
            },
        };
        let close = match close_v {
            Value::String(st) => st.as_str(),
            _ => {
                return Err(DelimiterError::NotConfigured);
            },
        };
        Delimiters::new(open, close)
    }
}

/// Whether two strings agree once trimmed and lowercased.
fn folded_eq(a: &str, b: &str) -> (r: bool)
    ensures
        r == (folded(a@) == folded(b@)),
{
    let fa = folded_exec(a);
    let fb = folded_exec(b);
    let r = crate::text::str_eq(fa.as_str(), fb.as_str());
    proof {
        if fa@ == fb@ {
            assert(folded(a@) == folded(b@));
        }
    }
    r
}

/// The trimmed, lowercased form of a string.
fn folded_exec(s: &str) -> (r: String)
    ensures
        r@ == folded(s@),
{
    let cs = crate::text::to_chars(s);
    let n = cs.len();
    let mut a: usize = 0;
    while a < n && is_ws_exec(cs[a])
        invariant
            a <= n,
            n == cs@.len(),
            cs@ == s@,
            forall|p: int| 0 <= p < a ==> crate::values::token::is_ws_char(#[trigger] cs@[p]),
        decreases n - a,
    {
        a = a + 1;
    }
    let mut b: usize = n;
    while b > a && is_ws_exec(cs[b - 1])
        invariant
            a <= b <= n,
            n == cs@.len(),
            cs@ == s@,
            forall|p: int| 0 <= p < a ==> crate::values::token::is_ws_char(#[trigger] cs@[p]),
            forall|p: int| b <= p < n ==> crate::values::token::is_ws_char(#[trigger] cs@[p]),
        decreases b,
    {
        b = b - 1;
    }
    let at_end = b == a;
    proof {
        if !at_end {
            lemma_trim_start(s@, a as int);
            lemma_trim_end(s@, b as int, a as int);
        } else {
            assert(a == n);
            lemma_trim_all_ws(s@);
        }
    }
    let mut out: Vec<char> = Vec::new();
    let mut j = a;
    while j < b
        invariant
            a <= j <= b <= cs@.len(),
            cs@ == s@,
            out@ == s@.subrange(a as int, j as int).map_values(|c: char| lower_char(c)),
        decreases b - j,
    {
        let c = cs[j];
        let u = c as u32;
        let lc: char = if 65 <= u && u <= 90 {
            ((u + 32) as u8) as char
        } else {
            c
        };
        proof {
            assert(lc == lower_char(cs@[j as int]));
        }
        out.push(lc);
        j = j + 1;
        proof {
            assert(out@ =~= s@.subrange(a as int, j as int).map_values(|c: char| lower_char(c)));
        }
    }
    proof {
        if a as int <= trim_end_idx(s@) {
            assert(out@ =~= folded(s@));
        } else {
            assert(out@ =~= folded(s@));
        }
    }
    crate::text::chars_to_string(out.as_slice())
}

fn is_ws_exec(c: char) -> (r: bool)
    ensures
        r == crate::values::token::is_ws_char(c),
{
    c == ' ' || c == '\t' || c == '\n' || c == '\u{c}'
}

/// When the first `a` characters are whitespace and the next is not, `a` is
/// where trimming starts.
proof fn lemma_trim_start(s: Seq<char>, a: int)
    requires
        0 <= a <= s.len(),
        forall|p: int| 0 <= p < a ==> crate::values::token::is_ws_char(#[trigger] s[p]),
        a < s.len() ==> !crate::values::token::is_ws_char(s[a]),
    ensures
        trim_start_idx(s) == if a < s.len() {
            a
        } else {
            s.len() as int
        },
    decreases s.len(),
{
    if s.len() > 0 {
        if crate::values::token::is_ws_char(s.first()) {
            assert(a > 0 || a < s.len() && !crate::values::token::is_ws_char(s[a]));
            if a == 0 {
            } else {
                assert forall|p: int|
                    0 <= p < a - 1 implies crate::values::token::is_ws_char(
                    #[trigger] s.drop_first()[p],
                ) by {
                    assert(s.drop_first()[p] == s[p + 1]);
                }
                assert(a - 1 < s.drop_first().len() ==> s.drop_first()[a - 1] == s[a]);
                lemma_trim_start(s.drop_first(), a - 1);
            }
        } else {
            assert(a == 0);
        }
    }
}

/// When everything from `b` on is whitespace and the character before `b` is
/// not, `b` is where trimming ends.
proof fn lemma_trim_end(s: Seq<char>, b: int, a: int)
    requires
        0 <= a < b <= s.len(),
        forall|p: int| b <= p < s.len() ==> crate::values::token::is_ws_char(#[trigger] s[p]),
        !crate::values::token::is_ws_char(s[b - 1]),
    ensures
        trim_end_idx(s) == b,
    decreases s.len(),
{
    if b < s.len() {
        assert(crate::values::token::is_ws_char(s.last()));
        assert forall|p: int|
            b <= p < s.drop_last().len() implies crate::values::token::is_ws_char(
            #[trigger] s.drop_last()[p],
        ) by {
            assert(s.drop_last()[p] == s[p]);
        }
        assert(s.drop_last()[b - 1] == s[b - 1]);
        lemma_trim_end(s.drop_last(), b, a);
    }
}

/// When the whole text is whitespace, trimming leaves nothing.
proof fn lemma_trim_all_ws(s: Seq<char>)
    requires
        forall|p: int| 0 <= p < s.len() ==> crate::values::token::is_ws_char(#[trigger] s[p]),
    ensures
        trim_end_idx(s) == 0,
        trim_start_idx(s) == s.len(),
        folded(s).len() == 0,
    decreases s.len(),
{
    if s.len() > 0 {
        assert forall|p: int|
            0 <= p < s.drop_last().len() implies crate::values::token::is_ws_char(
            #[trigger] s.drop_last()[p],
        ) by {
            assert(s.drop_last()[p] == s[p]);
        }
        lemma_trim_all_ws(s.drop_last());
        assert(crate::values::token::is_ws_char(s.last()));
        assert(crate::values::token::is_ws_char(s.first()));
        assert forall|p: int|
            0 <= p < s.drop_first().len() implies crate::values::token::is_ws_char(
            #[trigger] s.drop_first()[p],
        ) by {
            assert(s.drop_first()[p] == s[p + 1]);
        }
        lemma_trim_all_ws(s.drop_first());
    }
    if s.len() == 0 {
        assert(folded(s) =~= Seq::<char>::empty());
    }
}

} // verus!
