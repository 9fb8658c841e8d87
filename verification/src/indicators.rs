//! The substitution marker pair: the start marker and the end marker.

use vstd::prelude::*;

use crate::delimit::occurs_at;
use crate::indicator::Indicator;

verus! {

/// The start and end markers bounding a key.
#[derive(Clone, Copy)]
pub struct Indicators<'a> {
    pub start: Indicator<'a>,
    pub end: Indicator<'a>,
}

impl<'a> Indicators<'a> {
    /// Wraps a marker pair.
    pub fn new(start: &'a str, end: &'a str) -> (r: Result<Indicators<'a>, ()>)
        ensures
            match r {
                Ok(p) => p.start@ == start@ && p.end@ == end@,
                Err(()) => false,
            },
    {
        Ok(Indicators { start: Indicator::new(start), end: Indicator::new(end) })
    }

    /// The position, counted from `from`, of the next start marker.
    pub fn find_start(&self, contents: &str, from: usize) -> (r: Option<usize>)
        ensures
            match r {
                Some(k) => occurs_at(contents@, self.start@, from + k) && forall|p: int|
                    from <= p < from + k ==> !occurs_at(contents@, self.start@, p),
                None => forall|p: int| from <= p ==> !occurs_at(contents@, self.start@, p),
            },
    {
        self.start.find_in(contents, from)
    }

    /// The position, counted from `from`, of the next end marker.
    pub fn find_end(&self, contents: &str, from: usize) -> (r: Option<usize>)
        ensures
            match r {
                Some(k) => occurs_at(contents@, self.end@, from + k) && forall|p: int|
                    from <= p < from + k ==> !occurs_at(contents@, self.end@, p),
                None => forall|p: int| from <= p ==> !occurs_at(contents@, self.end@, p),
            },
    {
        self.end.find_in(contents, from)
    }

    /// The start marker's first character, when it has one.
    pub fn start_char(&self) -> (r: Option<char>)
        ensures
            match r {
                Some(c) => self.start@.len() > 0 && c == self.start@[0],
                None => self.start@.len() == 0,
            },
    {
        self.start.first_char()
    }

    /// The start marker's length in characters.
    pub fn start_size(&self) -> (r: usize)
        ensures
            r == self.start@.len(),
    {
        self.start.size()
    }

    /// The end marker's length in characters.
    pub fn end_size(&self) -> (r: usize)
        ensures
            r == self.end@.len(),
    {
        self.end.size()
    }
}

} // verus!
