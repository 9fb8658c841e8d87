//! Plain marker substitution over a text: everything between a start marker
//! and the next end marker is a key, looked up verbatim in a key list, and
//! the text around it is kept as it is. A start marker with no end marker
//! after it is kept verbatim.

use vstd::prelude::*;

use crate::indicators::Indicators;
use crate::keys::{key_pos, Keys};
use crate::replacer::find_at;

verus! {

/// A text to substitute in, with the path it came from for error messages.
pub struct Contents {
    pub contents: String,
    pub origin: String,
}

/// One piece of the split text: literal text, or a key to replace.
pub enum Piece {
    Lit(Seq<char>),
    Key(Seq<char>),
}

/// The text split at marker pairs: literal text up to a start marker, the
/// key between the markers, and so on; a start marker with no end marker
/// after it stays literal text.
pub open spec fn pieces(text: Seq<char>, start: Seq<char>, end: Seq<char>, i: int) -> Seq<Piece>
    decreases text.len() - i,
{
    if i < 0 || i >= text.len() {
        Seq::empty()
    } else {
        match find_at(text, start, i) {
            None => seq![Piece::Lit(text.subrange(i, text.len() as int))],
            Some(p) => {
                let ks = p + start.len();
                match find_at(text, end, ks) {
                    None => seq![Piece::Lit(text.subrange(i, text.len() as int))],
                    Some(q) => {
                        let cont = q + end.len();
                        if cont <= i || cont > text.len() || p < i || ks > q {
                            seq![Piece::Lit(text.subrange(i, text.len() as int))]
                        } else {
                            seq![Piece::Lit(text.subrange(i, p)), Piece::Key(
                                text.subrange(ks, q),
                            )] + pieces(text, start, end, cont)
                        }
                    },
                }
            },
        }
    }
}

/// The replacement of each piece: literal text stays, a key becomes its
/// first bound value; nothing when some key is unbound.
pub open spec fn replaced_pieces(ps: Seq<Piece>, keys: Keys) -> Option<Seq<Seq<char>>>
    decreases ps.len(),
{
    if ps.len() == 0 {
        Some(Seq::empty())
    } else {
        match replaced_pieces(ps.drop_last(), keys) {
            None => None,
            Some(prev) => match ps.last() {
                Piece::Lit(t) => Some(prev.push(t)),
                Piece::Key(k) => match key_pos(keys.keys@, k) {
                    Some(i) => if 0 <= i < keys.values@.len() {
                        Some(prev.push(keys.values@[i]@))
                    } else {
                        None
                    },
                    None => None,
                },
            },
        }
    }
}

/// The resolved output fragments, in order.
#[derive(Debug)]
pub struct Replaced(pub Vec<String>);

impl Replaced {
    /// The fragments, in order.
    pub fn get_iter(&self) -> (r: &Vec<String>)
        ensures
            r == &self.0,
    {
        &self.0
    }

    /// The fragments concatenated into one string.
    pub fn get_string(self) -> (r: String)
        ensures
            r@ == crate::replacer::concat_frags(self.0@),
    {
        let rep = crate::replacer::Replaced(self.0);
        rep.get_string()
    }

    /// Clears the given buffer and writes the concatenated fragments into
    /// it.
    pub fn extend_str(&self, t: &mut String)
        ensures
            final(t)@ == crate::replacer::concat_frags(self.0@),
    {
        let mut out = String::new();
        let mut k: usize = 0;
        while k < self.0.len()
            invariant
                k <= self.0@.len(),
                out@ == crate::replacer::concat_frags(self.0@.subrange(0, k as int)),
            decreases self.0@.len() - k,
        {
            crate::text::append_str(&mut out, self.0[k].as_str());
            k = k + 1;
            proof {
                assert(self.0@.subrange(0, k as int).drop_last() =~= self.0@.subrange(0, k - 1));
                assert(out@ =~= crate::replacer::concat_frags(self.0@.subrange(0, k as int)));
            }
        }
        proof {
            assert(self.0@.subrange(0, self.0@.len() as int) =~= self.0@);
        }
        *t = out;
    }
}

/// A key between the markers has no bound value.
#[derive(Debug)]
pub struct MissingKey {
    pub key: String,
}

/// Replacement distributes over splitting the pieces in two.
pub proof fn lemma_replaced_concat(a: Seq<Piece>, b: Seq<Piece>, keys: Keys)
    ensures
        replaced_pieces(a + b, keys) == (match (replaced_pieces(a, keys), replaced_pieces(
            b,
            keys,
        )) {
            (Some(x), Some(y)) => Some(x + y),
            (Some(x), None) => None::<Seq<Seq<char>>>,
            (None, _) => None::<Seq<Seq<char>>>,
        }),
    decreases b.len(),
{
    if b.len() == 0 {
        assert(a + b =~= a);
        match replaced_pieces(a, keys) {
            Some(x) => {
                assert(x + Seq::<Seq<char>>::empty() =~= x);
            },
            None => {},
        }
    } else {
        lemma_replaced_concat(a, b.drop_last(), keys);
        assert((a + b).drop_last() =~= a + b.drop_last());
        assert((a + b).last() == b.last());
        match (replaced_pieces(a, keys), replaced_pieces(b.drop_last(), keys)) {
            (Some(x), Some(y)) => {
                match b.last() {
                    Piece::Lit(t) => {
                        assert((x + y).push(t) =~= x + y.push(t));
                    },
                    Piece::Key(k) => {
                        match key_pos(keys.keys@, k) {
                            Some(i) => {
                                if 0 <= i < keys.values@.len() {
                                    assert((x + y).push(keys.values@[i]@) =~= x + y.push(
                                        keys.values@[i]@,
                                    ));
                                }
                            },
                            None => {},
                        }
                    },
                }
            },
            _ => {},
        }
    }
}

impl Contents {
    /// Wraps a text.
    pub fn from(s: &str) -> (r: Contents)
        ensures
            r.contents@ == s@,
    {
        Contents { contents: crate::text::chars_to_string(crate::text::to_chars(s).as_slice()), origin: String::new() }
    }

    /// Substitutes every key between the markers with its first bound value,
    /// keeping the surrounding text verbatim. Fails on the first key with no
    /// bound value.
    pub fn replace(&self, indicators: Indicators<'_>, keys: &Keys) -> (r: Result<
        Replaced,
        MissingKey,
    >)
        requires
            keys.keys@.len() == keys.values@.len(),
        ensures
            ({
                let ps = pieces(self.contents@, indicators.start@, indicators.end@, 0);
                match r {
                    Ok(rep) => match replaced_pieces(ps, *keys) {
                        Some(fs) => rep.0@.len() == fs.len() && forall|q: int|
                            0 <= q < fs.len() ==> (#[trigger] rep.0@[q])@ == fs[q],
                        None => false,
                    },
                    Err(_) => replaced_pieces(ps, *keys) is None,
                }
            }),
    {
        let ghost startv = indicators.start@;
        let ghost endv = indicators.end@;
        let text = crate::text::to_chars(self.contents.as_str());
        let start_pat = crate::text::to_chars(indicators.start.text());
        let end_pat = crate::text::to_chars(indicators.end.text());
        let mut frags: Vec<String> = Vec::new();
        let ghost mut done = Seq::<Seq<char>>::empty();
        let mut i: usize = 0;
        proof {
            assert(done + Seq::<Seq<char>>::empty() =~= done);
        }
        loop
            invariant
                i <= text@.len(),
                text@ == self.contents@,
                start_pat@ == startv,
                end_pat@ == endv,
                startv == indicators.start@,
                endv == indicators.end@,
                keys.keys@.len() == keys.values@.len(),
                frags@.len() == done.len(),
                forall|q: int| 0 <= q < done.len() ==> (#[trigger] frags@[q])@ == done[q],
                ({
                    let ps = pieces(self.contents@, startv, endv, i as int);
                    match replaced_pieces(ps, *keys) {
                        None => replaced_pieces(
                            pieces(self.contents@, startv, endv, 0),
                            *keys,
                        ) is None,
                        Some(rest) => match replaced_pieces(
                            pieces(self.contents@, startv, endv, 0),
                            *keys,
                        ) {
                            Some(all) => all == done + rest,
                            None => false,
                        },
                    }
                }),
            decreases text@.len() - i,
        {
            if i >= text.len() {
                proof {
                    assert(pieces(self.contents@, startv, endv, i as int) =~= Seq::<Piece>::empty());
                    assert(done + Seq::<Seq<char>>::empty() =~= done);
                }
                return Ok(Replaced(frags));
            }
            let tail_lit: bool;
            let mut p: usize = 0;
            let mut q: usize = 0;
            match crate::delimit::find_pattern(&text, &start_pat, i) {
                None => {
                    proof {
                        crate::replacer::lemma_find_at_none(self.contents@, startv, i as int);
                    }
                    tail_lit = true;
                },
                Some(pp) => {
                    proof {
                        crate::replacer::lemma_find_at_some(
                            self.contents@,
                            startv,
                            i as int,
                            pp as int,
                        );
                    }
                    let ks = pp + start_pat.len();
                    if ks > text.len() {
                        proof {
                            assert(false);
                        }
                        tail_lit = true;
                    } else {
                        match crate::delimit::find_pattern(&text, &end_pat, ks) {
                            None => {
                                proof {
                                    crate::replacer::lemma_find_at_none(
                                        self.contents@,
                                        endv,
                                        ks as int,
                                    );
                                }
                                tail_lit = true;
                            },
                            Some(qq) => {
                                proof {
                                    crate::replacer::lemma_find_at_some(
                                        self.contents@,
                                        endv,
                                        ks as int,
                                        qq as int,
                                    );
                                }
                                tail_lit = false;
                                p = pp;
                                q = qq;
                            },
                        }
                    }
                },
            }
            if tail_lit {
                let tl = text.len();
                let raw = crate::text::chars_to_string(
                    vstd::slice::slice_subrange(text.as_slice(), i, tl),
                );
                frags.push(raw);
                proof {
                    let tail = self.contents@.subrange(i as int, self.contents@.len() as int);
                    let ps = pieces(self.contents@, startv, endv, i as int);
                    assert(ps =~= seq![Piece::Lit(tail)]);
                    assert(ps.drop_last() =~= Seq::<Piece>::empty());
                    assert(replaced_pieces(Seq::<Piece>::empty(), *keys) == Some(
                        Seq::<Seq<char>>::empty(),
                    ));
                    assert(replaced_pieces(ps, *keys) == Some(
                        Seq::<Seq<char>>::empty().push(tail),
                    ));
                    match replaced_pieces(pieces(self.contents@, startv, endv, 0), *keys) {
                        Some(all) => {
                            done = done.push(tail);
                            assert(all =~= done);
                        },
                        None => {
                            assert(false);
                        },
                    }
                }
                return Ok(Replaced(frags));
            }
            let ks = p + start_pat.len();
            let cont = q + end_pat.len();
            if cont <= i {
                let tl = text.len();
                let raw = crate::text::chars_to_string(
                    vstd::slice::slice_subrange(text.as_slice(), i, tl),
                );
                frags.push(raw);
                proof {
                    let tail = self.contents@.subrange(i as int, self.contents@.len() as int);
                    let ps = pieces(self.contents@, startv, endv, i as int);
                    assert(ps =~= seq![Piece::Lit(tail)]);
                    assert(ps.drop_last() =~= Seq::<Piece>::empty());
                    assert(replaced_pieces(Seq::<Piece>::empty(), *keys) == Some(
                        Seq::<Seq<char>>::empty(),
                    ));
                    assert(replaced_pieces(ps, *keys) == Some(
                        Seq::<Seq<char>>::empty().push(tail),
                    ));
                    match replaced_pieces(pieces(self.contents@, startv, endv, 0), *keys) {
                        Some(all) => {
                            done = done.push(tail);
                            assert(all =~= done);
                        },
                        None => {
                            assert(false);
                        },
                    }
                }
                return Ok(Replaced(frags));
            }
            let ghost ps_i = pieces(self.contents@, startv, endv, i as int);
            proof {
                assert(ps_i =~= seq![
                    Piece::Lit(self.contents@.subrange(i as int, p as int)),
                    Piece::Key(self.contents@.subrange(ks as int, q as int)),
                ] + pieces(self.contents@, startv, endv, cont as int));
                lemma_replaced_concat(
                    seq![
                        Piece::Lit(self.contents@.subrange(i as int, p as int)),
                        Piece::Key(self.contents@.subrange(ks as int, q as int)),
                    ],
                    pieces(self.contents@, startv, endv, cont as int),
                    *keys,
                );
            }
            let raw = crate::text::chars_to_string(
                vstd::slice::slice_subrange(text.as_slice(), i, p),
            );
            let keyname = crate::text::chars_to_string(
                vstd::slice::slice_subrange(text.as_slice(), ks, q),
            );
            match keys.get_match(keyname.as_str()) {
                None => {
                    proof {
                        let two = seq![
                            Piece::Lit(self.contents@.subrange(i as int, p as int)),
                            Piece::Key(self.contents@.subrange(ks as int, q as int)),
                        ];
                        assert(two.drop_last() =~= seq![
                            Piece::Lit(self.contents@.subrange(i as int, p as int)),
                        ]);
                        assert(two.drop_last().drop_last() =~= Seq::<Piece>::empty());
                        assert(replaced_pieces(Seq::<Piece>::empty(), *keys) == Some(
                            Seq::<Seq<char>>::empty(),
                        ));
                        assert(replaced_pieces(two, *keys) is None);
                    }
                    return Err(MissingKey { key: keyname });
                },
                Some(v) => {
                    let vs = crate::text::chars_to_string(crate::text::to_chars(v).as_slice());
                    frags.push(raw);
                    frags.push(vs);
                    proof {
                        let two = seq![
                            Piece::Lit(self.contents@.subrange(i as int, p as int)),
                            Piece::Key(self.contents@.subrange(ks as int, q as int)),
                        ];
                        assert(two.drop_last() =~= seq![
                            Piece::Lit(self.contents@.subrange(i as int, p as int)),
                        ]);
                        assert(two.drop_last().drop_last() =~= Seq::<Piece>::empty());
                        assert(replaced_pieces(Seq::<Piece>::empty(), *keys) == Some(
                            Seq::<Seq<char>>::empty(),
                        ));
                        assert(replaced_pieces(two.drop_last(), *keys) == Some(
                            Seq::<Seq<char>>::empty().push(
                                self.contents@.subrange(i as int, p as int),
                            ),
                        ));
                        let kp = key_pos(keys.keys@, self.contents@.subrange(ks as int, q as int));
                        assert(replaced_pieces(two, *keys) == Some(
                            Seq::<Seq<char>>::empty().push(
                                self.contents@.subrange(i as int, p as int),
                            ).push(keys.values@[kp.unwrap()]@),
                        ));
                        done = done.push(self.contents@.subrange(i as int, p as int)).push(
                            keys.values@[kp.unwrap()]@,
                        );
                        match replaced_pieces(pieces(self.contents@, startv, endv, cont as int), *keys) {
                            Some(rest) => {
                                match replaced_pieces(
                                    pieces(self.contents@, startv, endv, 0),
                                    *keys,
                                ) {
                                    Some(all) => {
                                        assert(all =~= done + rest);
                                    },
                                    None => {},
                                }
                            },
                            None => {},
                        }
                    }
                    i = cont;
                },
            }
        }
    }
}

} // verus!
