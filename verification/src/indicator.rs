//! A single substitution marker: a plain string searched for inside text.

use vstd::prelude::*;
use vstd::string::StrSliceExecFns;

use crate::delimit::occurs_at;

verus! {

/// One marker string.
#[derive(Clone, Copy)]
pub struct Indicator<'a>(&'a str);

impl<'a> Indicator<'a> {
    /// Wraps a marker string.
    pub fn new(s: &'a str) -> (r: Indicator<'a>)
        ensures
            r@ == s@,
    {
        Indicator(s)
    }

    /// The marker's text.
    pub closed spec fn view(self) -> Seq<char> {
        self.0@
    }

    /// The position, counted from `from`, of the first occurrence of the
    /// marker at or after `from`; nothing when there is none.
    pub fn find_in(&self, slice: &str, from: usize) -> (r: Option<usize>)
        ensures
            match r {
                Some(k) => occurs_at(slice@, self@, from + k) && forall|p: int|
                    from <= p < from + k ==> !occurs_at(slice@, self@, p),
                None => forall|p: int| from <= p ==> !occurs_at(slice@, self@, p),
            },
    {
        let text = crate::text::to_chars(slice);
        let pat = crate::text::to_chars(self.0);
        match crate::delimit::find_pattern(&text, &pat, from) {
            Some(abs) => Some(abs - from),
            None => None,
        }
    }

    /// The marker's text.
    pub fn text(&self) -> (r: &str)
        ensures
            r@ == self@,
    {
        self.0
    }

    /// The marker's first character, when it has one.
    pub fn first_char(&self) -> (r: Option<char>)
        ensures
            match r {
                Some(c) => self@.len() > 0 && c == self@[0],
                None => self@.len() == 0,
            },
    {
        if self.0.unicode_len() > 0 {
            Some(self.0.get_char(0))
        } else {
            None
        }
    }

    /// The marker's length in characters.
    pub fn size(&self) -> (r: usize)
        ensures
            r == self@.len(),
    {
        self.0.unicode_len()
    }
}

} // verus!
