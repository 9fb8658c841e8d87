//! Plain substitution keys: parallel lists of names and replacement values,
//! parsed from `name=value` statements separated by commas.

use vstd::prelude::*;
use vstd::string::StrSliceExecFns;

verus! {

/// The keys and their replacement values, in matching positions.
pub struct Keys {
    pub keys: Vec<String>,
    pub values: Vec<String>,
    pub ignore_list: Vec<String>,
}

/// The first position bound to the key, if any.
pub open spec fn key_pos(keys: Seq<String>, k: Seq<char>) -> Option<int>
    decreases keys.len(),
{
    if keys.len() == 0 {
        None
    } else {
        match key_pos(keys.drop_last(), k) {
            Some(i) => Some(i),
            None => if keys.last()@ == k {
                Some(keys.len() - 1)
            } else {
                None
            },
        }
    }
}

/// The statements of a key file: the text with line breaks removed, split at
/// commas, each statement split at its equals signs into a name and a value;
/// a statement with an empty name or value binds nothing.
pub open spec fn spec_keys(s: Seq<char>) -> Seq<(Seq<char>, Seq<char>)>
    decreases s.len(),
{
    spec_stmts(strip_newlines(s), 0)
}

/// The text with line breaks removed.
pub open spec fn strip_newlines(s: Seq<char>) -> Seq<char>
    decreases s.len(),
{
    if s.len() == 0 {
        Seq::empty()
    } else if s.last() == '\n' {
        strip_newlines(s.drop_last())
    } else {
        strip_newlines(s.drop_last()).push(s.last())
    }
}

/// The position of the first occurrence of `c` at or after `i`, or the
/// length.
pub open spec fn char_pos(s: Seq<char>, i: int, c: char) -> int
    decreases s.len() - i,
{
    if 0 <= i < s.len() {
        if s[i] == c {
            i
        } else {
            char_pos(s, i + 1, c)
        }
    } else {
        s.len() as int
    }
}

/// The `name=value` pairs of the comma-separated statements from `i` on.
pub open spec fn spec_stmts(s: Seq<char>, i: int) -> Seq<(Seq<char>, Seq<char>)>
    decreases s.len() - i,
    via spec_stmts_via
{
    if i < 0 || i > s.len() {
        Seq::empty()
    } else {
        let c = char_pos(s, i, ',');
        let stmt = s.subrange(i, if i <= c <= s.len() {
            c
        } else {
            i
        });
        let rest: Seq<(Seq<char>, Seq<char>)> = if c < s.len() {
            spec_stmts(s, c + 1)
        } else {
            Seq::empty()
        };
        match stmt_pair(stmt) {
            Some(p) => seq![p] + rest,
            None => rest,
        }
    }
}

#[via_fn]
proof fn spec_stmts_via(s: Seq<char>, i: int) {
    if 0 <= i <= s.len() {
        lemma_char_pos_bounds(s, i, ',');
    }
}

/// The position found lies between the start and the length.
pub proof fn lemma_char_pos_bounds(s: Seq<char>, i: int, c: char)
    requires
        0 <= i <= s.len(),
    ensures
        i <= char_pos(s, i, c) <= s.len(),
        char_pos(s, i, c) < s.len() ==> s[char_pos(s, i, c)] == c,
    decreases s.len() - i,
{
    if i < s.len() && s[i] != c {
        lemma_char_pos_bounds(s, i + 1, c);
    }
}

/// One statement's binding: the text before the first equals sign and the
/// text between the first and the second; nothing when either is empty.
pub open spec fn stmt_pair(stmt: Seq<char>) -> Option<(Seq<char>, Seq<char>)> {
    let e = char_pos(stmt, 0, '=');
    if 0 <= e < stmt.len() {
        let k = stmt.subrange(0, e);
        let e2 = char_pos(stmt, e + 1, '=');
        let v = stmt.subrange(e + 1, if e + 1 <= e2 <= stmt.len() {
            e2
        } else {
            e + 1
        });
        if k.len() > 0 && v.len() > 0 {
            Some((k, v))
        } else {
            None
        }
    } else {
        None
    }
}

impl Keys {
    /// The keys and values in matching positions, as one sequence of pairs.
    pub open spec fn pairs(self) -> Seq<(Seq<char>, Seq<char>)> {
        Seq::new(
            self.keys@.len(),
            |i: int|
                (
                    self.keys@[i]@,
                    if i < self.values@.len() {
                        self.values@[i]@
                    } else {
                        Seq::empty()
                    },
                ),
        )
    }

    /// Appends the other set's keys and values after this set's.
    pub fn add(&mut self, other: Keys)
        ensures
            final(self).keys@ == old(self).keys@ + other.keys@,
            final(self).values@ == old(self).values@ + other.values@,
            final(self).ignore_list@ == old(self).ignore_list@,
    {
        let Keys { keys: mut ok, values: mut ov, ignore_list: _ } = other;
        self.keys.append(&mut ok);
        self.values.append(&mut ov);
    }

    /// The replacement value of the first binding of the key, if any.
    pub fn get_match(&self, key: &str) -> (r: Option<&str>)
        requires
            self.keys@.len() == self.values@.len(),
        ensures
            match r {
                Some(v) => match key_pos(self.keys@, key@) {
                    Some(i) => 0 <= i < self.values@.len() && v@ == self.values@[i]@,
                    None => false,
                },
                None => key_pos(self.keys@, key@) is None,
            },
    {
        let mut i: usize = 0;
        while i < self.keys.len()
            invariant
                i <= self.keys@.len(),
                self.keys@.len() == self.values@.len(),
                key_pos(self.keys@.subrange(0, i as int), key@) is None,
            decreases self.keys@.len() - i,
        {
            if crate::text::str_eq(self.keys[i].as_str(), key) {
                proof {
                    lemma_key_pos_extend(self.keys@, key@, i as int);
                }
                return Some(self.values[i].as_str());
            }
            i = i + 1;
            proof {
                assert(self.keys@.subrange(0, i as int).drop_last() =~= self.keys@.subrange(
                    0,
                    i - 1,
                ));
                assert(key_pos(self.keys@.subrange(0, i as int), key@) is None);
            }
        }
        proof {
            assert(self.keys@.subrange(0, self.keys@.len() as int) =~= self.keys@);
        }
        None
    }
}

/// When no earlier position binds the key and position `i` does, `i` is the
/// first binding.
pub proof fn lemma_key_pos_extend(keys: Seq<String>, k: Seq<char>, i: int)
    requires
        0 <= i < keys.len(),
        keys[i]@ == k,
        key_pos(keys.subrange(0, i), k) is None,
    ensures
        key_pos(keys, k) == Some(i),
    decreases keys.len(),
{
    if i == keys.len() - 1 {
        assert(keys.subrange(0, i) =~= keys.drop_last());
    } else {
        assert(keys.drop_last()[i]@ == k);
        assert(keys.subrange(0, i) =~= keys.drop_last().subrange(0, i));
        lemma_key_pos_extend(keys.drop_last(), k, i);
    }
}

/// The statements parsed so far, as key/value views.
pub open spec fn pairs_of(keys: Seq<String>, values: Seq<String>) -> Seq<(Seq<char>, Seq<char>)> {
    Seq::new(
        keys.len(),
        |i: int|
            (
                keys[i]@,
                if i < values.len() {
                    values[i]@
                } else {
                    Seq::empty()
                },
            ),
    )
}

/// The position of the first occurrence of `c` at or after `i`.
fn find_char(s: &[char], i: usize, c: char) -> (r: usize)
    requires
        i <= s@.len(),
    ensures
        r == char_pos(s@, i as int, c),
        i <= r <= s@.len(),
        r < s@.len() ==> s@[r as int] == c,
{
    let mut j = i;
    while j < s.len() && s[j] != c
        invariant
            i <= j <= s@.len(),
            char_pos(s@, i as int, c) == char_pos(s@, j as int, c),
        decreases s@.len() - j,
    {
        j = j + 1;
    }
    proof {
        lemma_char_pos_bounds(s@, j as int, c);
    }
    j
}

impl Keys {
    /// Parses a key file: line breaks are dropped, the text splits at
    /// commas, and each statement binds the text before its first equals
    /// sign to the text between the first and the second; statements with an
    /// empty name or value bind nothing.
    pub fn from(string: &str) -> (r: Keys)
        ensures
            r.keys@.len() == r.values@.len(),
            pairs_of(r.keys@, r.values@) == spec_keys(string@),
            r.ignore_list@.len() == 0,
    {
        let cs0 = crate::text::to_chars(string);
        let mut ns: Vec<char> = Vec::new();
        let mut k: usize = 0;
        while k < cs0.len()
            invariant
                k <= cs0@.len(),
                cs0@ == string@,
                ns@ == strip_newlines(cs0@.subrange(0, k as int)),
            decreases cs0@.len() - k,
        {
            proof {
                assert(cs0@.subrange(0, k + 1).drop_last() =~= cs0@.subrange(0, k as int));
            }
            if cs0[k] != '\n' {
                ns.push(cs0[k]);
            }
            k = k + 1;
        }
        proof {
            assert(cs0@.subrange(0, cs0@.len() as int) =~= cs0@);
        }
        let mut keys: Vec<String> = Vec::new();
        let mut values: Vec<String> = Vec::new();
        let mut i: usize = 0;
        let mut more = true;
        proof {
            assert(pairs_of(keys@, values@) =~= Seq::<(Seq<char>, Seq<char>)>::empty());
        }
        while more
            invariant
                i <= ns@.len() + 1,
                more ==> i <= ns@.len(),
                ns@ == strip_newlines(string@),
                keys@.len() == values@.len(),
                more ==> (match spec_stmts(ns@, i as int) {
                    rest => spec_keys(string@) == pairs_of(keys@, values@) + rest,
                }),
                !more ==> spec_keys(string@) == pairs_of(keys@, values@),
            decreases
                    ns@.len() + 1 - i,
                    (if more {
                        1int
                    } else {
                        0int
                    }),
        {
            let ghost pre_pairs = pairs_of(keys@, values@);
            let c = find_char(ns.as_slice(), i, ',');
            let stmt = vstd::slice::slice_subrange(ns.as_slice(), i, c);
            let e = find_char(stmt, 0, '=');
            if e < stmt.len() {
                let kpart = vstd::slice::slice_subrange(stmt, 0, e);
                let e2 = find_char(stmt, e + 1, '=');
                let vpart = vstd::slice::slice_subrange(stmt, e + 1, e2);
                if kpart.len() > 0 && vpart.len() > 0 {
                    keys.push(crate::text::chars_to_string(kpart));
                    values.push(crate::text::chars_to_string(vpart));
                    proof {
                        assert(stmt_pair(stmt@) == Some((kpart@, vpart@)));
                        assert(pairs_of(keys@, values@) =~= pre_pairs.push((kpart@, vpart@)));
                        assert(pre_pairs + (seq![(kpart@, vpart@)] + spec_stmts_after(ns@, c as int))
                            =~= pairs_of(keys@, values@) + spec_stmts_after(ns@, c as int));
                    }
                } else {
                    proof {
                        assert(stmt_pair(stmt@) is None);
                    }
                }
            } else {
                proof {
                    assert(stmt_pair(stmt@) is None);
                }
            }
            if c < ns.len() {
                i = c + 1;
            } else {
                more = false;
                i = c;
            }
        }
        Keys { keys, values, ignore_list: Vec::new() }
    }
}

/// The statements after the comma at `c`, or none at the end of the text.
pub open spec fn spec_stmts_after(s: Seq<char>, c: int) -> Seq<(Seq<char>, Seq<char>)> {
    if c < s.len() {
        spec_stmts(s, c + 1)
    } else {
        Seq::empty()
    }
}

} // verus!
