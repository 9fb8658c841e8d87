//! The value and type model shared by the configuration language and the
//! template engine: a tagged value tree, a parallel declared-type tree, and
//! the structural equivalence, inference and merge rules over them.

use vstd::prelude::*;

pub mod parser;
pub mod token;

verus! {

broadcast use vstd::seq::axiom_seq_index_decreases, vstd::seq::axiom_seq_subrange_decreases;

/// A numeric value. Integer literals keep their machine value; a decimal
/// literal is kept in its normalized decimal form (sign, integer digits,
/// fraction digits) so that equality is structural on the written number.
/// A signed literal that is not negative is normalized to `UInt`.
#[derive(Debug, PartialEq)]
pub enum Number {
    /// An unsigned integer literal, or a signed one that is not negative.
    UInt(u64),
    /// A strictly negative integer literal.
    Neg(i64),
    /// A decimal literal, kept exactly as a normalized decimal.
    Dec(Decimal),
}

/// A decimal literal kept exactly: a sign, the digits before the point and
/// the digits after it, each digit a value below ten. Well-formed decimals
/// are normalized: no leading zero on a multi-digit integer part, no
/// trailing zero on a multi-digit fraction, at least one digit on each side,
/// and zero is never negative.
#[derive(Debug, PartialEq)]
pub struct Decimal {
    pub neg: bool,
    pub int_digits: Vec<u8>,
    pub frac_digits: Vec<u8>,
}

/// A configuration value: a tagged union over scalars, arrays and objects.
#[derive(Debug)]
pub enum Value {
    Null,
    Bool(bool),
    Number(Number),
    String(String),
    Array(Vec<Value>),
    Object(Vec<(String, Value)>),
}

/// The declared type of a binding: scalars, containers, the wildcard `Any`
/// and the transient `Unknown` used while checking nested declarations.
#[derive(Debug)]
pub enum Type {
    Number,
    String,
    Bool,
    Object(Vec<(String, Type)>),
    Array(Box<Type>),
    Unknown,
    Any,
}

/// The mathematical model of a `Number`: integers collapse to their value,
/// decimals to their sign and digit sequences.
pub enum NumberModel {
    Int(int),
    Dec(bool, Seq<u8>, Seq<u8>),
}

/// The mathematical model of a `Value`: text as character sequences, arrays
/// as sequences, objects as maps from name to model.
pub enum ValueModel {
    Null,
    Bool(bool),
    Number(NumberModel),
    String(Seq<char>),
    Array(Seq<ValueModel>),
    Object(Map<Seq<char>, ValueModel>),
}

/// The mathematical model of a `Type`: object fields as a map from name to
/// model.
pub enum TypeModel {
    Number,
    String,
    Bool,
    Object(Map<Seq<char>, TypeModel>),
    Array(Box<TypeModel>),
    Unknown,
    Any,
}

/// Whether some entry of an association list carries the given key.
pub open spec fn has_key<T>(entries: Seq<(String, T)>, k: Seq<char>) -> bool {
    exists|i: int| 0 <= i < entries.len() && entries[i].0@ == k
}

/// The index of the last entry carrying the given key: redefinition
/// overwrites, so the last entry is the one that counts.
pub open spec fn key_index<T>(entries: Seq<(String, T)>, k: Seq<char>) -> int
    decreases entries.len(),
{
    if entries.len() == 0 {
        0
    } else if entries.last().0@ == k {
        entries.len() - 1
    } else {
        key_index(entries.drop_last(), k)
    }
}

/// No two entries of the association list carry the same key.
pub open spec fn keys_unique<T>(entries: Seq<(String, T)>) -> bool {
    forall|i: int, j: int|
        0 <= i < j < entries.len() ==> entries[i].0@ != entries[j].0@
}

/// The index returned by `key_index` is in range and carries the key.
pub proof fn lemma_key_index<T>(entries: Seq<(String, T)>, k: Seq<char>)
    requires
        has_key(entries, k),
    ensures
        0 <= key_index(entries, k) < entries.len(),
        entries[key_index(entries, k)].0@ == k,
    decreases entries.len(),
{
    if entries.len() > 0 && entries.last().0@ != k {
        assert(has_key(entries.drop_last(), k)) by {
            let i = choose|i: int| 0 <= i < entries.len() && entries[i].0@ == k;
            assert(entries.drop_last()[i] == entries[i]);
        }
        lemma_key_index(entries.drop_last(), k);
    }
}

/// When keys are unique, any entry carrying the key is the entry found.
pub proof fn lemma_key_index_unique<T>(entries: Seq<(String, T)>, i: int)
    requires
        keys_unique(entries),
        0 <= i < entries.len(),
    ensures
        key_index(entries, entries[i].0@) == i,
{
    lemma_key_index(entries, entries[i].0@);
}

impl Decimal {
    /// The model of a decimal: its sign and its two digit sequences.
    pub open spec fn model(self) -> NumberModel {
        NumberModel::Dec(self.neg, self.int_digits@, self.frac_digits@)
    }

    /// Every digit is below ten; the integer part has no leading zero unless
    /// it is the single digit zero; the fraction has no trailing zero unless
    /// it is the single digit zero; both parts have at least one digit; a
    /// decimal whose digits are all zero is not negative.
    pub open spec fn wf(self) -> bool {
        &&& forall|i: int| 0 <= i < self.int_digits@.len() ==> self.int_digits@[i] < 10
        &&& forall|i: int| 0 <= i < self.frac_digits@.len() ==> self.frac_digits@[i] < 10
        &&& self.int_digits@.len() >= 1
        &&& self.frac_digits@.len() >= 1
        &&& (self.int_digits@.len() > 1 ==> self.int_digits@[0] != 0)
        &&& (self.frac_digits@.len() > 1 ==> self.frac_digits@.last() != 0)
        &&& (self.neg ==> !(forall|i: int|
            0 <= i < self.int_digits@.len() ==> self.int_digits@[i] == 0) || !(forall|i: int|
            0 <= i < self.frac_digits@.len() ==> self.frac_digits@[i] == 0))
    }
}

impl Number {
    pub open spec fn model(self) -> NumberModel {
        match self {
            Number::UInt(u) => NumberModel::Int(u as int),
            Number::Neg(s) => NumberModel::Int(s as int),
            Number::Dec(d) => d.model(),
        }
    }

    /// A negative integer is strictly negative (a non-negative signed
    /// literal is stored as `UInt`), and a decimal is normalized.
    pub open spec fn wf(self) -> bool {
        match self {
            Number::UInt(_) => true,
            Number::Neg(s) => s < 0,
            Number::Dec(d) => d.wf(),
        }
    }
}

impl Value {
    pub open spec fn model(self) -> ValueModel
        decreases self,
        via Self::model_via
    {
        match self {
            Value::Null => ValueModel::Null,
            Value::Bool(b) => ValueModel::Bool(b),
            Value::Number(n) => ValueModel::Number(n.model()),
            Value::String(s) => ValueModel::String(s@),
            Value::Array(items) => ValueModel::Array(
                Seq::new(
                    items@.len(),
                    |i: int|
                        if 0 <= i < items@.len() {
                            items@[i].model()
                        } else {
                            ValueModel::Null
                        },
                ),
            ),
            Value::Object(entries) => ValueModel::Object(
                Map::new(
                    |k: Seq<char>| has_key(entries@, k),
                    |k: Seq<char>|
                        if has_key(entries@, k) {
                            entries@[key_index(entries@, k)].1.model()
                        } else {
                            ValueModel::Null
                        },
                ),
            ),
        }
    }

    #[via_fn]
    proof fn model_via(self) {
        if let Value::Object(entries) = self {
            assert forall|k: Seq<char>| has_key(entries@, k) implies 0 <= key_index(entries@, k)
                < entries@.len() by {
                lemma_key_index(entries@, k);
            }
        }
    }

    /// Numbers are normalized and every object has unique field names,
    /// recursively.
    pub open spec fn wf(self) -> bool
        decreases self,
    {
        match self {
            Value::Null => true,
            Value::Bool(_) => true,
            Value::Number(n) => n.wf(),
            Value::String(_) => true,
            Value::Array(items) => values_wf(items@),
            Value::Object(entries) => keys_unique(entries@) && value_entries_wf(entries@),
        }
    }
}

/// Every value of the sequence is well-formed.
pub open spec fn values_wf(s: Seq<Value>) -> bool
    decreases s,
{
    if s.len() == 0 {
        true
    } else {
        s.last().wf() && values_wf(s.drop_last())
    }
}

/// Every value carried by the entries is well-formed.
pub open spec fn value_entries_wf(s: Seq<(String, Value)>) -> bool
    decreases s,
{
    if s.len() == 0 {
        true
    } else {
        s.last().1.wf() && value_entries_wf(s.drop_last())
    }
}

/// A sequence is well-formed exactly when each of its values is.
pub proof fn lemma_values_wf(s: Seq<Value>)
    ensures
        values_wf(s) == (forall|i: int| 0 <= i < s.len() ==> (#[trigger] s[i]).wf()),
    decreases s.len(),
{
    if s.len() > 0 {
        lemma_values_wf(s.drop_last());
        if s.last().wf() && values_wf(s.drop_last()) {
            assert forall|i: int| 0 <= i < s.len() implies (#[trigger] s[i]).wf() by {
                if i < s.len() - 1 {
                    assert(s.drop_last()[i].wf());
                }
            }
        }
        if forall|i: int| 0 <= i < s.len() ==> (#[trigger] s[i]).wf() {
            assert forall|i: int| 0 <= i < s.drop_last().len() implies (#[trigger] s.drop_last()[i]).wf() by {
                assert(s.drop_last()[i] == s[i]);
            }
        }
    }
}

/// An entry sequence is well-formed exactly when each of its values is.
pub proof fn lemma_value_entries_wf(s: Seq<(String, Value)>)
    ensures
        value_entries_wf(s) == (forall|i: int| 0 <= i < s.len() ==> (#[trigger] s[i].1).wf()),
    decreases s.len(),
{
    if s.len() > 0 {
        lemma_value_entries_wf(s.drop_last());
        if s.last().1.wf() && value_entries_wf(s.drop_last()) {
            assert forall|i: int| 0 <= i < s.len() implies (#[trigger] s[i].1).wf() by {
                if i < s.len() - 1 {
                    assert(s.drop_last()[i].1.wf());
                }
            }
        }
        if forall|i: int| 0 <= i < s.len() ==> (#[trigger] s[i].1).wf() {
            assert forall|i: int| 0 <= i < s.drop_last().len() implies (#[trigger] s.drop_last()[i].1).wf() by {
                assert(s.drop_last()[i] == s[i]);
            }
        }
    }
}

impl Type {
    pub open spec fn model(self) -> TypeModel
        decreases self,
        via Self::model_via
    {
        match self {
            Type::Number => TypeModel::Number,
            Type::String => TypeModel::String,
            Type::Bool => TypeModel::Bool,
            Type::Object(entries) => TypeModel::Object(
                Map::new(
                    |k: Seq<char>| has_key(entries@, k),
                    |k: Seq<char>|
                        if has_key(entries@, k) {
                            entries@[key_index(entries@, k)].1.model()
                        } else {
                            TypeModel::Unknown
                        },
                ),
            ),
            Type::Array(t) => TypeModel::Array(Box::new((*t).model())),
            Type::Unknown => TypeModel::Unknown,
            Type::Any => TypeModel::Any,
        }
    }

    #[via_fn]
    proof fn model_via(self) {
        if let Type::Object(entries) = self {
            assert forall|k: Seq<char>| has_key(entries@, k) implies 0 <= key_index(entries@, k)
                < entries@.len() by {
                lemma_key_index(entries@, k);
            }
        }
    }

    /// Every object type has unique field names, recursively.
    pub open spec fn wf(self) -> bool
        decreases self,
    {
        match self {
            Type::Object(entries) => keys_unique(entries@) && type_entries_wf(entries@),
            Type::Array(t) => (*t).wf(),
            _ => true,
        }
    }
}

/// Every type carried by the entries is well-formed.
pub open spec fn type_entries_wf(s: Seq<(String, Type)>) -> bool
    decreases s,
{
    if s.len() == 0 {
        true
    } else {
        s.last().1.wf() && type_entries_wf(s.drop_last())
    }
}

/// An entry sequence is well-formed exactly when each of its types is.
pub proof fn lemma_type_entries_wf(s: Seq<(String, Type)>)
    ensures
        type_entries_wf(s) == (forall|i: int| 0 <= i < s.len() ==> (#[trigger] s[i].1).wf()),
    decreases s.len(),
{
    if s.len() > 0 {
        lemma_type_entries_wf(s.drop_last());
        if s.last().1.wf() && type_entries_wf(s.drop_last()) {
            assert forall|i: int| 0 <= i < s.len() implies (#[trigger] s[i].1).wf() by {
                if i < s.len() - 1 {
                    assert(s.drop_last()[i].1.wf());
                }
            }
        }
        if forall|i: int| 0 <= i < s.len() ==> (#[trigger] s[i].1).wf() {
            assert forall|i: int| 0 <= i < s.drop_last().len() implies (#[trigger] s.drop_last()[i].1).wf() by {
                assert(s.drop_last()[i] == s[i]);
            }
        }
    }
}

/// When an entry carries the key and no later entry does, it is the entry
/// that `key_index` finds.
pub proof fn lemma_key_index_last<T>(entries: Seq<(String, T)>, i: int)
    requires
        0 <= i < entries.len(),
        forall|j: int| i < j < entries.len() ==> entries[j].0@ != entries[i].0@,
    ensures
        key_index(entries, entries[i].0@) == i,
    decreases entries.len(),
{
    if entries.len() - 1 > i {
        assert(entries.drop_last()[i] == entries[i]);
        lemma_key_index_last(entries.drop_last(), i);
    }
}

/// Looks a key up in an association list; the last entry carrying the key is
/// the one returned.
pub fn map_get<'a, T>(entries: &'a Vec<(String, T)>, key: &str) -> (r: Option<&'a T>)
    ensures
        match r {
            Some(t) => has_key(entries@, key@) && *t == entries@[key_index(entries@, key@)].1,
            None => !has_key(entries@, key@),
        },
{
    let mut i: usize = entries.len();
    while i > 0
        invariant
            i <= entries@.len(),
            forall|j: int| i <= j < entries@.len() ==> entries@[j].0@ != key@,
        decreases i,
    {
        i = i - 1;
        if crate::text::str_eq(entries[i].0.as_str(), key) {
            proof {
                lemma_key_index_last(entries@, i as int);
            }
            return Some(&entries[i].1);
        }
    }
    None
}

/// Whether two byte vectors hold the same bytes.
fn bytes_eq(a: &Vec<u8>, b: &Vec<u8>) -> (r: bool)
    ensures
        r == (a@ == b@),
{
    if a.len() != b.len() {
        proof {
            assert(a@.len() != b@.len());
        }
        return false;
    }
    let mut i: usize = 0;
    while i < a.len()
        invariant
            i <= a@.len(),
            a@.len() == b@.len(),
            forall|j: int| 0 <= j < i ==> a@[j] == b@[j],
        decreases a@.len() - i,
    {
        if a[i] != b[i] {
            return false;
        }
        i = i + 1;
    }
    proof {
        assert(a@ =~= b@);
    }
    true
}

/// Whether two numbers are the same number.
pub fn number_eq(a: &Number, b: &Number) -> (r: bool)
    requires
        a.wf(),
        b.wf(),
    ensures
        r == (a.model() == b.model()),
{
    match (a, b) {
        (Number::UInt(x), Number::UInt(y)) => *x == *y,
        (Number::Neg(x), Number::Neg(y)) => *x == *y,
        (Number::Dec(x), Number::Dec(y)) => {
            x.neg == y.neg && bytes_eq(&x.int_digits, &y.int_digits) && bytes_eq(
                &x.frac_digits,
                &y.frac_digits,
            )
        },
        _ => false,
    }
}

/// Whether two types are structurally identical. Object fields compare as
/// mappings: the order the fields were written in does not matter.
pub fn type_eq(a: &Type, b: &Type) -> (r: bool)
    requires
        a.wf(),
        b.wf(),
    ensures
        r == (a.model() == b.model()),
    decreases *a,
{
    match (a, b) {
        (Type::Number, Type::Number) => true,
        (Type::String, Type::String) => true,
        (Type::Bool, Type::Bool) => true,
        (Type::Unknown, Type::Unknown) => true,
        (Type::Any, Type::Any) => true,
        (Type::Array(ta), Type::Array(tb)) => type_eq(ta, tb),
        (Type::Object(ea), Type::Object(eb)) => {
            let ghost ma = Map::new(
                |k: Seq<char>| has_key(ea@, k),
                |k: Seq<char>|
                    if has_key(ea@, k) {
                        ea@[key_index(ea@, k)].1.model()
                    } else {
                        TypeModel::Unknown
                    },
            );
            let ghost mb = Map::new(
                |k: Seq<char>| has_key(eb@, k),
                |k: Seq<char>|
                    if has_key(eb@, k) {
                        eb@[key_index(eb@, k)].1.model()
                    } else {
                        TypeModel::Unknown
                    },
            );
            proof {
                assert(a.model()->Object_0 =~= ma);
                assert(b.model()->Object_0 =~= mb);
                assert(a.model() == TypeModel::Object(ma));
                assert(b.model() == TypeModel::Object(mb));
                lemma_type_entries_wf(ea@);
                lemma_type_entries_wf(eb@);
            }
            let mut i: usize = 0;
            while i < ea.len()
                invariant
                    a.wf(),
                    b.wf(),
                    a == Type::Object(*ea),
                    b == Type::Object(*eb),
                    keys_unique(ea@),
                    forall|p: int| 0 <= p < ea@.len() ==> (#[trigger] ea@[p].1).wf(),
                    forall|p: int| 0 <= p < eb@.len() ==> (#[trigger] eb@[p].1).wf(),
                    i <= ea@.len(),
                    a.model() == TypeModel::Object(ma),
                    b.model() == TypeModel::Object(mb),
                    ma == Map::new(
                        |k: Seq<char>| has_key(ea@, k),
                        |k: Seq<char>|
                            if has_key(ea@, k) {
                                ea@[key_index(ea@, k)].1.model()
                            } else {
                                TypeModel::Unknown
                            },
                    ),
                    mb == Map::new(
                        |k: Seq<char>| has_key(eb@, k),
                        |k: Seq<char>|
                            if has_key(eb@, k) {
                                eb@[key_index(eb@, k)].1.model()
                            } else {
                                TypeModel::Unknown
                            },
                    ),
                    forall|j: int|
                        0 <= j < i ==> mb.dom().contains(#[trigger] ea@[j].0@) && mb[ea@[j].0@]
                            == ea@[j].1.model(),
                decreases ea@.len() - i,
            {
                proof {
                    lemma_key_index_unique(ea@, i as int);
                }
                match map_get(eb, ea[i].0.as_str()) {
                    Option::Some(t) => {
                        proof {
                            lemma_key_index(eb@, ea@[i as int].0@);
                        }
                        if !type_eq(&ea[i].1, t) {
                            proof {
                                assert(ma[ea@[i as int].0@] != mb[ea@[i as int].0@]);
                            }
                            return false;
                        }
                    },
                    Option::None => {
                        proof {
                            assert(ma.dom().contains(ea@[i as int].0@));
                            assert(!mb.dom().contains(ea@[i as int].0@));
                        }
                        return false;
                    },
                }
                i = i + 1;
            }
            let mut j: usize = 0;
            while j < eb.len()
                invariant
                    a.wf(),
                    b.wf(),
                    a == Type::Object(*ea),
                    b == Type::Object(*eb),
                    j <= eb@.len(),
                    forall|p: int| 0 <= p < ea@.len() ==> (#[trigger] ea@[p].1).wf(),
                    forall|p: int| 0 <= p < eb@.len() ==> (#[trigger] eb@[p].1).wf(),
                    a.model() == TypeModel::Object(ma),
                    b.model() == TypeModel::Object(mb),
                    ma == Map::new(
                        |k: Seq<char>| has_key(ea@, k),
                        |k: Seq<char>|
                            if has_key(ea@, k) {
                                ea@[key_index(ea@, k)].1.model()
                            } else {
                                TypeModel::Unknown
                            },
                    ),
                    mb == Map::new(
                        |k: Seq<char>| has_key(eb@, k),
                        |k: Seq<char>|
                            if has_key(eb@, k) {
                                eb@[key_index(eb@, k)].1.model()
                            } else {
                                TypeModel::Unknown
                            },
                    ),
                    forall|p: int|
                        0 <= p < ea@.len() ==> mb.dom().contains(#[trigger] ea@[p].0@)
                            && mb[ea@[p].0@] == ea@[p].1.model(),
                    forall|q: int| 0 <= q < j ==> ma.dom().contains(#[trigger] eb@[q].0@),
                decreases eb@.len() - j,
            {
                match map_get(ea, eb[j].0.as_str()) {
                    Option::Some(_) => {},
                    Option::None => {
                        proof {
                            assert(mb.dom().contains(eb@[j as int].0@));
                            assert(!ma.dom().contains(eb@[j as int].0@));
                        }
                        return false;
                    },
                }
                j = j + 1;
            }
            proof {
                assert forall|k: Seq<char>| ma.dom().contains(k) implies mb.dom().contains(k)
                    && mb[k] == ma[k] by {
                    lemma_key_index(ea@, k);
                }
                assert forall|k: Seq<char>| mb.dom().contains(k) implies ma.dom().contains(k) by {
                    lemma_key_index(eb@, k);
                }
                assert(ma =~= mb);
            }
            true
        },
        _ => false,
    }
}

/// Whether two values are the same value. Object fields compare as
/// mappings: the order the fields were written in does not matter.
pub fn value_eq(a: &Value, b: &Value) -> (r: bool)
    requires
        a.wf(),
        b.wf(),
    ensures
        r == (a.model() == b.model()),
    decreases *a,
{
    match (a, b) {
        (Value::Null, Value::Null) => true,
        (Value::Bool(x), Value::Bool(y)) => *x == *y,
        (Value::Number(x), Value::Number(y)) => number_eq(x, y),
        (Value::String(x), Value::String(y)) => crate::text::str_eq(x.as_str(), y.as_str()),
        (Value::Array(xs), Value::Array(ys)) => {
            let ghost sa = a.model()->Array_0;
            let ghost sb = b.model()->Array_0;
            proof {
                lemma_values_wf(xs@);
                lemma_values_wf(ys@);
            }
            if xs.len() != ys.len() {
                proof {
                    assert(sa.len() != sb.len());
                }
                return false;
            }
            let mut i: usize = 0;
            while i < xs.len()
                invariant
                    a.wf(),
                    b.wf(),
                    a == Value::Array(*xs),
                    b == Value::Array(*ys),
                    forall|j: int| 0 <= j < xs@.len() ==> (#[trigger] xs@[j]).wf(),
                    forall|j: int| 0 <= j < ys@.len() ==> (#[trigger] ys@[j]).wf(),
                    i <= xs@.len(),
                    xs@.len() == ys@.len(),
                    sa == a.model()->Array_0,
                    sb == b.model()->Array_0,
                    sa.len() == xs@.len(),
                    sb.len() == ys@.len(),
                    forall|j: int| 0 <= j < i ==> sa[j] == sb[j],
                decreases xs@.len() - i,
            {
                if !value_eq(&xs[i], &ys[i]) {
                    proof {
                        assert(sa[i as int] != sb[i as int]);
                    }
                    return false;
                }
                i = i + 1;
            }
            proof {
                assert(sa =~= sb);
                assert(a.model() == ValueModel::Array(sa));
                assert(b.model() == ValueModel::Array(sb));
            }
            true
        },
        (Value::Object(ea), Value::Object(eb)) => {
            let ghost ma = a.model()->Object_0;
            let ghost mb = b.model()->Object_0;
            proof {
                lemma_value_entries_wf(ea@);
                lemma_value_entries_wf(eb@);
            }
            let mut i: usize = 0;
            while i < ea.len()
                invariant
                    a.wf(),
                    b.wf(),
                    a == Value::Object(*ea),
                    b == Value::Object(*eb),
                    keys_unique(ea@),
                    forall|p: int| 0 <= p < ea@.len() ==> (#[trigger] ea@[p].1).wf(),
                    forall|p: int| 0 <= p < eb@.len() ==> (#[trigger] eb@[p].1).wf(),
                    i <= ea@.len(),
                    ma == a.model()->Object_0,
                    mb == b.model()->Object_0,
                    forall|j: int|
                        0 <= j < i ==> mb.dom().contains(#[trigger] ea@[j].0@) && mb[ea@[j].0@]
                            == ea@[j].1.model(),
                decreases ea@.len() - i,
            {
                proof {
                    lemma_key_index_unique(ea@, i as int);
                }
                match map_get(eb, ea[i].0.as_str()) {
                    Option::Some(t) => {
                        proof {
                            lemma_key_index(eb@, ea@[i as int].0@);
                        }
                        if !value_eq(&ea[i].1, t) {
                            proof {
                                assert(ma[ea@[i as int].0@] != mb[ea@[i as int].0@]);
                            }
                            return false;
                        }
                    },
                    Option::None => {
                        proof {
                            assert(ma.dom().contains(ea@[i as int].0@));
                            assert(!mb.dom().contains(ea@[i as int].0@));
                        }
                        return false;
                    },
                }
                i = i + 1;
            }
            let mut j: usize = 0;
            while j < eb.len()
                invariant
                    a.wf(),
                    b.wf(),
                    a == Value::Object(*ea),
                    b == Value::Object(*eb),
                    j <= eb@.len(),
                    forall|p: int| 0 <= p < ea@.len() ==> (#[trigger] ea@[p].1).wf(),
                    forall|p: int| 0 <= p < eb@.len() ==> (#[trigger] eb@[p].1).wf(),
                    ma == a.model()->Object_0,
                    mb == b.model()->Object_0,
                    forall|p: int|
                        0 <= p < ea@.len() ==> mb.dom().contains(#[trigger] ea@[p].0@)
                            && mb[ea@[p].0@] == ea@[p].1.model(),
                    forall|q: int| 0 <= q < j ==> ma.dom().contains(#[trigger] eb@[q].0@),
                decreases eb@.len() - j,
            {
                match map_get(ea, eb[j].0.as_str()) {
                    Option::Some(_) => {},
                    Option::None => {
                        proof {
                            assert(mb.dom().contains(eb@[j as int].0@));
                            assert(!ma.dom().contains(eb@[j as int].0@));
                        }
                        return false;
                    },
                }
                j = j + 1;
            }
            proof {
                assert forall|k: Seq<char>| ma.dom().contains(k) implies mb.dom().contains(k)
                    && mb[k] == ma[k] by {
                    lemma_key_index(ea@, k);
                }
                assert forall|k: Seq<char>| mb.dom().contains(k) implies ma.dom().contains(k) by {
                    lemma_key_index(eb@, k);
                }
                assert(ma =~= mb);
                assert(a.model() == ValueModel::Object(ma));
                assert(b.model() == ValueModel::Object(mb));
            }
            true
        },
        _ => false,
    }
}

/// Structural type equivalence: `Any` is equivalent to everything, on either
/// side; two concrete types are equivalent only when structurally identical.
pub open spec fn type_equivalent(a: TypeModel, b: TypeModel) -> bool {
    a == TypeModel::Any || b == TypeModel::Any || a == b
}

/// The relaxed variant: `Unknown` on the right-hand side always satisfies
/// the left-hand type.
pub open spec fn type_equivalent_or_empty(a: TypeModel, b: TypeModel) -> bool {
    type_equivalent(a, b) || b == TypeModel::Unknown
}

/// Type equivalence is reflexive.
pub proof fn lemma_equivalent_reflexive(t: TypeModel)
    ensures
        type_equivalent(t, t),
{
}

/// `Any` is equivalent to every type, as the left- or the right-hand side.
pub proof fn lemma_any_equivalent(t: TypeModel)
    ensures
        type_equivalent(TypeModel::Any, t),
        type_equivalent(t, TypeModel::Any),
{
}

impl Type {
    /// Whether this type is equivalent to the other.
    pub fn is_equivalent(&self, other: &Type) -> (r: bool)
        requires
            self.wf(),
            other.wf(),
        ensures
            r == type_equivalent(self.model(), other.model()),
    {
        if matches!(self, Type::Any) || matches!(other, Type::Any) {
            true
        } else {
            type_eq(self, other)
        }
    }

    /// Whether this type is equivalent to the other under the relaxed rule.
    pub fn is_equivalent_or_empty(&self, other: &Type) -> (r: bool)
        requires
            self.wf(),
            other.wf(),
        ensures
            r == type_equivalent_or_empty(self.model(), other.model()),
    {
        self.is_equivalent(other) || matches!(other, Type::Unknown)
    }
}


/// Updating the entry that carries a key keeps every other lookup as it
/// was and makes the key's lookup find the new entry.
pub proof fn lemma_assoc_update<T>(s: Seq<(String, T)>, i: int, e: (String, T))
    requires
        keys_unique(s),
        0 <= i < s.len(),
        s[i].0@ == e.0@,
    ensures
        keys_unique(s.update(i, e)),
        forall|k: Seq<char>| has_key(s.update(i, e), k) == has_key(s, k),
        key_index(s.update(i, e), e.0@) == i,
        forall|k: Seq<char>|
            k != e.0@ && has_key(s, k) ==> key_index(s.update(i, e), k) == key_index(s, k),
{
    let s2 = s.update(i, e);
    assert forall|k: Seq<char>| has_key(s2, k) == has_key(s, k) by {
        if has_key(s2, k) {
            let j = choose|j: int| 0 <= j < s2.len() && s2[j].0@ == k;
            if j == i {
                assert(s[i].0@ == k);
            } else {
                assert(s[j].0@ == k);
            }
        }
        if has_key(s, k) {
            let j = choose|j: int| 0 <= j < s.len() && s[j].0@ == k;
            if j == i {
                assert(s2[i].0@ == k);
            } else {
                assert(s2[j].0@ == k);
            }
        }
    }
    lemma_key_index_last(s2, i);
    assert forall|k: Seq<char>| k != e.0@ && has_key(s, k) implies key_index(s2, k) == key_index(
        s,
        k,
    ) by {
        lemma_key_index(s, k);
        let j = key_index(s, k);
        assert(s2[j].0@ == k);
        assert forall|p: int| j < p < s2.len() implies s2[p].0@ != k by {
            if p != i {
                assert(s2[p] == s[p]);
            }
        }
        lemma_key_index_last(s2, j);
    }
}

/// Pushing an entry with a fresh key keeps every other lookup as it was and
/// makes the key's lookup find the new entry.
pub proof fn lemma_assoc_push<T>(s: Seq<(String, T)>, e: (String, T))
    requires
        keys_unique(s),
        !has_key(s, e.0@),
    ensures
        keys_unique(s.push(e)),
        forall|k: Seq<char>| k != e.0@ ==> has_key(s.push(e), k) == has_key(s, k),
        has_key(s.push(e), e.0@),
        key_index(s.push(e), e.0@) == s.len(),
        forall|k: Seq<char>|
            k != e.0@ && has_key(s, k) ==> key_index(s.push(e), k) == key_index(s, k) && s.push(
                e,
            )[key_index(s, k)] == s[key_index(s, k)],
{
    let s2 = s.push(e);
    assert forall|k: Seq<char>| k != e.0@ implies has_key(s2, k) == has_key(s, k) by {
        if has_key(s2, k) {
            let j = choose|j: int| 0 <= j < s2.len() && s2[j].0@ == k;
            assert(j < s.len());
            assert(s[j].0@ == k);
        }
        if has_key(s, k) {
            let j = choose|j: int| 0 <= j < s.len() && s[j].0@ == k;
            assert(s2[j].0@ == k);
        }
    }
    assert(s2[s.len() as int].0@ == e.0@);
    assert forall|i: int, j: int| 0 <= i < j < s2.len() implies s2[i].0@ != s2[j].0@ by {
        if j < s.len() {
            assert(s2[i] == s[i] && s2[j] == s[j]);
        } else {
            assert(s2[i] == s[i]);
            assert(!has_key(s, e.0@));
        }
    }
    lemma_key_index_last(s2, s.len() as int);
    assert forall|k: Seq<char>| k != e.0@ && has_key(s, k) implies key_index(s2, k) == key_index(
        s,
        k,
    ) && s2[key_index(s, k)] == s[key_index(s, k)] by {
        lemma_key_index(s, k);
        let j = key_index(s, k);
        assert(s2[j].0@ == k);
        assert forall|p: int| j < p < s2.len() implies s2[p].0@ != k by {
            if p < s.len() {
                assert(s2[p] == s[p]);
            } else {
                assert(s2[p].0@ == e.0@);
            }
        }
        lemma_key_index_last(s2, j);
    }
}

/// The mapping an association list of values stands for: the last entry for
/// a name wins.
pub open spec fn value_assoc_model(s: Seq<(String, Value)>) -> Map<Seq<char>, ValueModel> {
    Map::new(
        |k: Seq<char>| has_key(s, k),
        |k: Seq<char>|
            if has_key(s, k) {
                s[key_index(s, k)].1.model()
            } else {
                ValueModel::Null
            },
    )
}

/// The mapping an association list of types stands for: the last entry for
/// a name wins.
pub open spec fn type_assoc_model(s: Seq<(String, Type)>) -> Map<Seq<char>, TypeModel> {
    Map::new(
        |k: Seq<char>| has_key(s, k),
        |k: Seq<char>|
            if has_key(s, k) {
                s[key_index(s, k)].1.model()
            } else {
                TypeModel::Unknown
            },
    )
}

/// Dropping the last entry of a unique-keyed association list keeps the keys
/// unique, and the dropped key is no longer present.
pub proof fn lemma_assoc_drop_last<T>(s: Seq<(String, T)>)
    requires
        keys_unique(s),
        s.len() > 0,
    ensures
        keys_unique(s.drop_last()),
        !has_key(s.drop_last(), s.last().0@),
        s.drop_last().push(s.last()) == s,
{
    assert forall|i: int, j: int|
        0 <= i < j < s.drop_last().len() implies s.drop_last()[i].0@ != s.drop_last()[j].0@ by {
        assert(s.drop_last()[i] == s[i] && s.drop_last()[j] == s[j]);
    }
    assert(!has_key(s.drop_last(), s.last().0@)) by {
        if has_key(s.drop_last(), s.last().0@) {
            let i = choose|i: int|
                0 <= i < s.drop_last().len() && s.drop_last()[i].0@ == s.last().0@;
            assert(s[i].0@ == s[s.len() - 1].0@);
        }
    }
    assert(s.drop_last().push(s.last()) =~= s);
}

/// The named values of one configuration source: a mapping from binding
/// name to value.
pub struct ValueMap(pub Vec<(String, Value)>);

/// The declared types of one configuration source: a mapping from binding
/// name to declared type.
pub struct TypeMap(pub Vec<(String, Type)>);

impl ValueMap {
    /// The mapping the entries stand for.
    pub open spec fn model(self) -> Map<Seq<char>, ValueModel> {
        value_assoc_model(self.0@)
    }

    /// Binding names are unique and every value is well-formed.
    pub open spec fn wf(self) -> bool {
        keys_unique(self.0@) && value_entries_wf(self.0@)
    }

    /// An empty map.
    pub fn new() -> (r: ValueMap)
        ensures
            r.wf(),
            r.model() == Map::<Seq<char>, ValueModel>::empty(),
    {
        let r = ValueMap(Vec::new());
        proof {
            assert(r.model() =~= Map::<Seq<char>, ValueModel>::empty());
        }
        r
    }

    /// Binds a name to a value, overwriting any earlier binding; reports
    /// whether one was overwritten.
    pub fn insert(&mut self, k: String, v: Value) -> (had: bool)
        requires
            old(self).wf(),
            v.wf(),
        ensures
            final(self).wf(),
            final(self).model() == old(self).model().insert(k@, v.model()),
            had == old(self).model().dom().contains(k@),
    {
        let ghost s0 = self.0@;
        proof {
            lemma_value_entries_wf(s0);
        }
        let mut i: usize = 0;
        while i < self.0.len()
            invariant
                self.0@ == s0,
                old(self).0@ == s0,
                keys_unique(s0),
                value_entries_wf(s0),
                forall|j: int| 0 <= j < s0.len() ==> (#[trigger] s0[j].1).wf(),
                v.wf(),
                i <= s0.len(),
                forall|j: int| 0 <= j < i ==> s0[j].0@ != k@,
            decreases s0.len() - i,
        {
            if crate::text::str_eq(self.0[i].0.as_str(), k.as_str()) {
                let ghost s1 = s0.update(i as int, (k, v));
                proof {
                    lemma_assoc_update(s0, i as int, (k, v));
                    lemma_value_entries_wf(s1);
                }
                self.0[i] = (k, v);
                proof {
                    let m1 = self.model();
                    let tgt = old(self).model().insert(k@, v.model());
                    assert(has_key(s0, k@));
                    assert forall|k2: Seq<char>| m1.dom().contains(k2) implies m1[k2] == tgt[k2] by {
                        if k2 == k@ {
                            assert(m1[k2] == v.model());
                        } else {
                            lemma_key_index(s0, k2);
                            assert(s1[key_index(s0, k2)] == s0[key_index(s0, k2)]);
                        }
                    }
                    assert(m1 =~= tgt);
                }
                return true;
            }
            i = i + 1;
        }
        proof {
            assert(!has_key(s0, k@));
            lemma_assoc_push(s0, (k, v));
            lemma_value_entries_wf(s0.push((k, v)));
        }
        self.0.push((k, v));
        proof {
            let m1 = self.model();
            let tgt = old(self).model().insert(k@, v.model());
            assert forall|k2: Seq<char>| m1.dom().contains(k2) implies m1[k2] == tgt[k2] by {
                if k2 != k@ {
                    lemma_key_index(s0, k2);
                }
            }
            assert(m1 =~= tgt);
        }
        false
    }

    /// Looks a binding up by name.
    pub fn get(&self, k: &str) -> (r: Option<&Value>)
        requires
            self.wf(),
        ensures
            match r {
                Option::Some(v) => self.model().dom().contains(k@) && v.model() == self.model()[k@]
                    && v.wf(),
                Option::None => !self.model().dom().contains(k@),
            },
    {
        proof {
            lemma_value_entries_wf(self.0@);
            if has_key(self.0@, k@) {
                lemma_key_index(self.0@, k@);
            }
        }
        map_get(&self.0, k)
    }

    /// The number of bindings.
    pub fn len(&self) -> (n: usize)
        ensures
            n == self.0@.len(),
    {
        self.0.len()
    }
}

impl TypeMap {
    /// The mapping the entries stand for.
    pub open spec fn model(self) -> Map<Seq<char>, TypeModel> {
        type_assoc_model(self.0@)
    }

    /// Binding names are unique and every type is well-formed.
    pub open spec fn wf(self) -> bool {
        keys_unique(self.0@) && type_entries_wf(self.0@)
    }

    /// An empty map.
    pub fn new() -> (r: TypeMap)
        ensures
            r.wf(),
            r.model() == Map::<Seq<char>, TypeModel>::empty(),
    {
        let r = TypeMap(Vec::new());
        proof {
            assert(r.model() =~= Map::<Seq<char>, TypeModel>::empty());
            assert(keys_unique(r.0@));
            assert(type_entries_wf(r.0@));
        }
        r
    }

    /// Binds a name to a declared type, overwriting any earlier declaration;
    /// reports whether one was overwritten.
    pub fn insert(&mut self, k: String, t: Type) -> (had: bool)
        requires
            old(self).wf(),
            t.wf(),
        ensures
            final(self).wf(),
            final(self).model() == old(self).model().insert(k@, t.model()),
            had == old(self).model().dom().contains(k@),
    {
        let ghost s0 = self.0@;
        proof {
            lemma_type_entries_wf(s0);
        }
        let mut i: usize = 0;
        while i < self.0.len()
            invariant
                self.0@ == s0,
                old(self).0@ == s0,
                keys_unique(s0),
                type_entries_wf(s0),
                forall|j: int| 0 <= j < s0.len() ==> (#[trigger] s0[j].1).wf(),
                t.wf(),
                i <= s0.len(),
                forall|j: int| 0 <= j < i ==> s0[j].0@ != k@,
            decreases s0.len() - i,
        {
            if crate::text::str_eq(self.0[i].0.as_str(), k.as_str()) {
                let ghost s1 = s0.update(i as int, (k, t));
                proof {
                    lemma_assoc_update(s0, i as int, (k, t));
                    lemma_type_entries_wf(s1);
                }
                self.0[i] = (k, t);
                proof {
                    let m1 = self.model();
                    let tgt = old(self).model().insert(k@, t.model());
                    assert(has_key(s0, k@));
                    assert forall|k2: Seq<char>| m1.dom().contains(k2) implies m1[k2] == tgt[k2] by {
                        if k2 == k@ {
                            assert(m1[k2] == t.model());
                        } else {
                            lemma_key_index(s0, k2);
                            assert(s1[key_index(s0, k2)] == s0[key_index(s0, k2)]);
                        }
                    }
                    assert(m1 =~= tgt);
                }
                return true;
            }
            i = i + 1;
        }
        proof {
            assert(!has_key(s0, k@));
            lemma_assoc_push(s0, (k, t));
            lemma_type_entries_wf(s0.push((k, t)));
        }
        self.0.push((k, t));
        proof {
            let m1 = self.model();
            let tgt = old(self).model().insert(k@, t.model());
            assert forall|k2: Seq<char>| m1.dom().contains(k2) implies m1[k2] == tgt[k2] by {
                if k2 != k@ {
                    lemma_key_index(s0, k2);
                }
            }
            assert(m1 =~= tgt);
        }
        false
    }

    /// Looks a declared type up by name.
    pub fn get(&self, k: &str) -> (r: Option<&Type>)
        requires
            self.wf(),
        ensures
            match r {
                Option::Some(t) => self.model().dom().contains(k@) && t.model() == self.model()[k@]
                    && t.wf(),
                Option::None => !self.model().dom().contains(k@),
            },
    {
        proof {
            lemma_type_entries_wf(self.0@);
            if has_key(self.0@, k@) {
                lemma_key_index(self.0@, k@);
            }
        }
        map_get(&self.0, k)
    }

    /// The number of declarations.
    pub fn len(&self) -> (n: usize)
        ensures
            n == self.0@.len(),
    {
        self.0.len()
    }
}

/// The unit exchanged between components: the values of one configuration
/// source beside their declared types. Every name bound in the value map has
/// exactly one entry in the type map.
pub struct Values {
    pub value_map: ValueMap,
    pub type_map: TypeMap,
}

impl Values {
    /// Both maps are well-formed and bind exactly the same names.
    pub open spec fn wf(self) -> bool {
        &&& self.value_map.wf()
        &&& self.type_map.wf()
        &&& self.value_map.model().dom() == self.type_map.model().dom()
    }

    /// An empty configuration.
    pub fn new() -> (r: Values)
        ensures
            r.wf(),
            r.value_map.model() == Map::<Seq<char>, ValueModel>::empty(),
            r.type_map.model() == Map::<Seq<char>, TypeModel>::empty(),
    {
        let r = Values { value_map: ValueMap::new(), type_map: TypeMap::new() };
        proof {
            assert(r.value_map.model().dom() =~= r.type_map.model().dom());
        }
        r
    }

    /// Merges two configurations: for values the right side wins, for
    /// declared types the side that declared first, which is the left one.
    pub fn stash(self, other: Values) -> (r: Values)
        requires
            self.wf(),
            other.wf(),
        ensures
            r.wf(),
            r.value_map.model() == self.value_map.model().union_prefer_right(
                other.value_map.model(),
            ),
            r.type_map.model() == other.type_map.model().union_prefer_right(
                self.type_map.model(),
            ),
    {
        let ghost m_self_v = self.value_map.model();
        let ghost m_self_t = self.type_map.model();
        let ghost m_other_v = other.value_map.model();
        let ghost m_other_t = other.type_map.model();
        let Values { mut value_map, mut type_map } = self;
        let Values { value_map: mut ovm, type_map: mut otm } = other;
        proof {
            lemma_value_entries_wf(ovm.0@);
            lemma_type_entries_wf(otm.0@);
        }
        loop
            invariant
                value_map.wf(),
                keys_unique(ovm.0@),
                value_entries_wf(ovm.0@),
                forall|j: int| 0 <= j < ovm.0@.len() ==> (#[trigger] ovm.0@[j].1).wf(),
                value_map.model().union_prefer_right(value_assoc_model(ovm.0@))
                    == m_self_v.union_prefer_right(m_other_v),
                value_map.model().dom().union(value_assoc_model(ovm.0@).dom())
                    == m_self_v.dom().union(m_other_v.dom()),
            ensures
                value_map.wf(),
                value_map.model() == m_self_v.union_prefer_right(m_other_v),
                value_map.model().dom() == m_self_v.dom().union(m_other_v.dom()),
            decreases ovm.0@.len(),
        {
            let ghost s_pre = ovm.0@;
            match ovm.0.pop() {
                Option::Some((k, v)) => {
                    proof {
                        lemma_assoc_drop_last(s_pre);
                        lemma_assoc_push(s_pre.drop_last(), s_pre.last());
                        assert(value_assoc_model(s_pre) =~= value_assoc_model(
                            s_pre.drop_last(),
                        ).insert(s_pre.last().0@, s_pre.last().1.model())) by {
                            assert forall|k2: Seq<char>|
                                has_key(s_pre, k2) implies value_assoc_model(s_pre)[k2]
                                == value_assoc_model(s_pre.drop_last()).insert(
                                s_pre.last().0@,
                                s_pre.last().1.model(),
                            )[k2] by {
                                if k2 != s_pre.last().0@ {
                                    lemma_key_index(s_pre.drop_last(), k2);
                                }
                            }
                        }
                    }
                    let ghost vm_pre = value_map.model();
                    value_map.insert(k, v);
                    proof {
                        assert(value_map.model().union_prefer_right(value_assoc_model(ovm.0@))
                            =~= vm_pre.union_prefer_right(value_assoc_model(s_pre)));
                        assert(value_map.model().dom().union(value_assoc_model(ovm.0@).dom())
                            =~= vm_pre.dom().union(value_assoc_model(s_pre).dom()));
                    }
                },
                Option::None => {
                    proof {
                        assert(value_assoc_model(ovm.0@) =~= Map::<Seq<char>, ValueModel>::empty());
                        assert(value_map.model() =~= m_self_v.union_prefer_right(m_other_v)) by {
                            assert(value_map.model().union_prefer_right(value_assoc_model(ovm.0@))
                                =~= value_map.model());
                        }
                        assert(value_map.model().dom() =~= m_self_v.dom().union(m_other_v.dom()))
                            by {
                            assert(value_map.model().dom().union(value_assoc_model(ovm.0@).dom())
                                =~= value_map.model().dom());
                        }
                    }
                    break;
                },
            }
        }
        loop
            invariant
                type_map.wf(),
                keys_unique(otm.0@),
                type_entries_wf(otm.0@),
                forall|j: int| 0 <= j < otm.0@.len() ==> (#[trigger] otm.0@[j].1).wf(),
                type_assoc_model(otm.0@).union_prefer_right(type_map.model())
                    == m_other_t.union_prefer_right(m_self_t),
                type_assoc_model(otm.0@).dom().union(type_map.model().dom())
                    == m_other_t.dom().union(m_self_t.dom()),
            ensures
                type_map.wf(),
                type_map.model() == m_other_t.union_prefer_right(m_self_t),
                type_map.model().dom() == m_other_t.dom().union(m_self_t.dom()),
            decreases otm.0@.len(),
        {
            let ghost s_pre = otm.0@;
            match otm.0.pop() {
                Option::Some((k, t)) => {
                    proof {
                        lemma_assoc_drop_last(s_pre);
                        lemma_assoc_push(s_pre.drop_last(), s_pre.last());
                        assert(type_assoc_model(s_pre) =~= type_assoc_model(
                            s_pre.drop_last(),
                        ).insert(s_pre.last().0@, s_pre.last().1.model())) by {
                            assert forall|k2: Seq<char>|
                                has_key(s_pre, k2) implies type_assoc_model(s_pre)[k2]
                                == type_assoc_model(s_pre.drop_last()).insert(
                                s_pre.last().0@,
                                s_pre.last().1.model(),
                            )[k2] by {
                                if k2 != s_pre.last().0@ {
                                    lemma_key_index(s_pre.drop_last(), k2);
                                }
                            }
                        }
                    }
                    let ghost tm_pre = type_map.model();
                    let absent = type_map.get(k.as_str()).is_none();
                    if absent {
                        type_map.insert(k, t);
                    }
                    proof {
                        assert(type_assoc_model(otm.0@).union_prefer_right(type_map.model())
                            =~= type_assoc_model(s_pre).union_prefer_right(tm_pre));
                        assert(type_assoc_model(otm.0@).dom().union(type_map.model().dom())
                            =~= type_assoc_model(s_pre).dom().union(tm_pre.dom()));
                    }
                },
                Option::None => {
                    proof {
                        assert(type_assoc_model(otm.0@) =~= Map::<Seq<char>, TypeModel>::empty());
                        assert(type_map.model() =~= m_other_t.union_prefer_right(m_self_t)) by {
                            assert(type_assoc_model(otm.0@).union_prefer_right(type_map.model())
                                =~= type_map.model());
                        }
                        assert(type_map.model().dom() =~= m_other_t.dom().union(m_self_t.dom()))
                            by {
                            assert(type_assoc_model(otm.0@).dom().union(type_map.model().dom())
                                =~= type_map.model().dom());
                        }
                    }
                    break;
                },
            }
        }
        let r = Values { value_map, type_map };
        proof {
            assert(r.value_map.model().dom() =~= r.type_map.model().dom()) by {
                assert(m_self_v.dom() == m_self_t.dom());
                assert(m_other_v.dom() == m_other_t.dom());
                assert(m_self_v.dom().union(m_other_v.dom()) =~= m_other_t.dom().union(
                    m_self_t.dom(),
                ));
            }
        }
        r
    }
}

/// The merge-precedence law. Folding four sources left to right with
/// `stash` gives value maps `((g + l) + t) + c` with the right side winning
/// and type maps with the left side winning. A key bound by all four sources
/// ends up with the last source's value and the first source's declared
/// type; in general the last source binding the key gives its value, the
/// first source declaring it gives its type.
pub proof fn lemma_stash_precedence(
    gv: Map<Seq<char>, ValueModel>,
    gt: Map<Seq<char>, TypeModel>,
    lv: Map<Seq<char>, ValueModel>,
    lt: Map<Seq<char>, TypeModel>,
    tv: Map<Seq<char>, ValueModel>,
    tt: Map<Seq<char>, TypeModel>,
    cv: Map<Seq<char>, ValueModel>,
    ct: Map<Seq<char>, TypeModel>,
    k: Seq<char>,
)
    requires
        gv.dom().contains(k),
        lv.dom().contains(k),
        tv.dom().contains(k),
        cv.dom().contains(k),
        gt.dom().contains(k),
    ensures
        gv.union_prefer_right(lv).union_prefer_right(tv).union_prefer_right(cv)[k] == cv[k],
        ct.union_prefer_right(tt.union_prefer_right(lt.union_prefer_right(gt)))[k] == gt[k],
{
}

/// The field hint for a named field: the declared object type's field when
/// there is one, else `Unknown`.
pub open spec fn field_hint(decl: TypeModel, k: Seq<char>) -> TypeModel {
    if decl is Object && decl->Object_0.dom().contains(k) {
        decl->Object_0[k]
    } else {
        TypeModel::Unknown
    }
}

/// The type inferred for a value, given the declared type as a hint:
/// `Null` infers to the hint (a deferred value), scalars infer directly, an
/// empty array infers to the declared element type (else `Unknown`), a
/// non-empty array whose elements do not all infer equivalently to the first
/// element degrades to an array of `Any`, and an object infers per field
/// with the declared field as the hint.
pub open spec fn infer_type(v: Value, decl: TypeModel) -> TypeModel
    decreases v,
{
    match v {
        Value::Null => decl,
        Value::Bool(_) => TypeModel::Bool,
        Value::Number(_) => TypeModel::Number,
        Value::String(_) => TypeModel::String,
        Value::Array(items) => {
            let inner = if decl is Array {
                *decl->Array_0
            } else {
                TypeModel::Unknown
            };
            if items@.len() == 0 {
                TypeModel::Array(Box::new(inner))
            } else {
                let first_t = infer_type(items@[0], inner);
                if elems_infer_equiv(items@, inner, first_t) {
                    TypeModel::Array(Box::new(first_t))
                } else {
                    TypeModel::Array(Box::new(TypeModel::Any))
                }
            }
        },
        Value::Object(entries) => TypeModel::Object(obj_infer(entries@, decl)),
    }
}

/// Whether every element's inferred type is equivalent, under the relaxed
/// rule, to the first element's.
pub open spec fn elems_infer_equiv(s: Seq<Value>, inner: TypeModel, first_t: TypeModel) -> bool
    decreases s,
{
    if s.len() == 0 {
        true
    } else {
        type_equivalent_or_empty(infer_type(s.last(), inner), first_t) && elems_infer_equiv(
            s.drop_last(),
            inner,
            first_t,
        )
    }
}

/// The inferred field types of an object, one per field.
pub open spec fn obj_infer(entries: Seq<(String, Value)>, decl: TypeModel) -> Map<
    Seq<char>,
    TypeModel,
>
    decreases entries,
{
    if entries.len() == 0 {
        Map::empty()
    } else {
        obj_infer(entries.drop_last(), decl).insert(
            entries.last().0@,
            infer_type(entries.last().1, field_hint(decl, entries.last().0@)),
        )
    }
}

/// The elements infer equivalently exactly when each one does.
pub proof fn lemma_elems_infer_equiv(s: Seq<Value>, inner: TypeModel, first_t: TypeModel)
    ensures
        elems_infer_equiv(s, inner, first_t) == (forall|i: int|
            0 <= i < s.len() ==> type_equivalent_or_empty(
                infer_type(#[trigger] s[i], inner),
                first_t,
            )),
    decreases s.len(),
{
    if s.len() > 0 {
        lemma_elems_infer_equiv(s.drop_last(), inner, first_t);
        if elems_infer_equiv(s, inner, first_t) {
            assert forall|i: int|
                0 <= i < s.len() implies type_equivalent_or_empty(
                infer_type(#[trigger] s[i], inner),
                first_t,
            ) by {
                if i < s.len() - 1 {
                    assert(s.drop_last()[i] == s[i]);
                    assert(type_equivalent_or_empty(infer_type(s.drop_last()[i], inner), first_t));
                }
            }
        }
        if forall|i: int|
            0 <= i < s.len() ==> type_equivalent_or_empty(
                infer_type(#[trigger] s[i], inner),
                first_t,
            ) {
            assert forall|i: int|
                0 <= i < s.drop_last().len() implies type_equivalent_or_empty(
                infer_type(#[trigger] s.drop_last()[i], inner),
                first_t,
            ) by {
                assert(s.drop_last()[i] == s[i]);
            }
            assert(type_equivalent_or_empty(infer_type(s[s.len() - 1], inner), first_t));
        }
    }
}

/// A copy of a type, equal to the one given.
pub fn type_clone(t: &Type) -> (r: Type)
    requires
        t.wf(),
    ensures
        r.model() == t.model(),
        r.wf(),
    decreases *t,
{
    match t {
        Type::Number => Type::Number,
        Type::String => Type::String,
        Type::Bool => Type::Bool,
        Type::Unknown => Type::Unknown,
        Type::Any => Type::Any,
        Type::Array(inner) => Type::Array(Box::new(type_clone(inner))),
        Type::Object(entries) => {
            proof {
                lemma_type_entries_wf(entries@);
            }
            let mut res: Vec<(String, Type)> = Vec::new();
            let mut i: usize = 0;
            while i < entries.len()
                invariant
                    t.wf(),
                    t == Type::Object(*entries),
                    keys_unique(entries@),
                    forall|p: int| 0 <= p < entries@.len() ==> (#[trigger] entries@[p].1).wf(),
                    i <= entries@.len(),
                    res@.len() == i,
                    forall|p: int|
                        0 <= p < i ==> (#[trigger] res@[p]).0@ == entries@[p].0@ && res@[p].1.wf()
                            && res@[p].1.model() == entries@[p].1.model(),
                decreases entries@.len() - i,
            {
                let k2 = entries[i].0.clone();
                let t2 = type_clone(&entries[i].1);
                res.push((k2, t2));
                i = i + 1;
            }
            let r = Type::Object(res);
            proof {
                assert(keys_unique(res@));
                lemma_type_entries_wf(res@);
                assert(r.model()->Object_0 =~= t.model()->Object_0) by {
                    assert forall|k: Seq<char>| has_key(res@, k) == has_key(entries@, k) by {
                        if has_key(res@, k) {
                            let p = choose|p: int| 0 <= p < res@.len() && res@[p].0@ == k;
                            assert(entries@[p].0@ == k);
                        }
                        if has_key(entries@, k) {
                            let p = choose|p: int|
                                0 <= p < entries@.len() && entries@[p].0@ == k;
                            assert(res@[p].0@ == k);
                        }
                    }
                    assert forall|k: Seq<char>| has_key(res@, k) implies r.model()->Object_0[k]
                        == t.model()->Object_0[k] by {
                        lemma_key_index(res@, k);
                        lemma_key_index(entries@, k);
                        lemma_key_index_unique(entries@, key_index(res@, k));
                    }
                }
                assert(r.model() == t.model());
            }
            r
        },
    }
}

/// What `obj_infer` holds at each key: the inferred type of the last entry
/// carrying the key.
pub proof fn lemma_obj_infer(s: Seq<(String, Value)>, decl: TypeModel)
    ensures
        forall|k: Seq<char>| obj_infer(s, decl).dom().contains(k) == has_key(s, k),
        forall|k: Seq<char>|
            has_key(s, k) ==> obj_infer(s, decl)[k] == infer_type(
                s[key_index(s, k)].1,
                field_hint(decl, k),
            ),
    decreases s.len(),
{
    if s.len() > 0 {
        lemma_obj_infer(s.drop_last(), decl);
        let e = s.last();
        assert forall|k: Seq<char>| obj_infer(s, decl).dom().contains(k) == has_key(s, k) by {
            if k == e.0@ {
                assert(s[s.len() - 1].0@ == k);
            } else {
                assert(has_key(s.drop_last(), k) == has_key(s, k)) by {
                    if has_key(s.drop_last(), k) {
                        let j = choose|j: int|
                            0 <= j < s.drop_last().len() && s.drop_last()[j].0@ == k;
                        assert(s[j].0@ == k);
                    }
                    if has_key(s, k) {
                        let j = choose|j: int| 0 <= j < s.len() && s[j].0@ == k;
                        assert(j < s.len() - 1);
                        assert(s.drop_last()[j].0@ == k);
                    }
                }
            }
        }
        assert forall|k: Seq<char>| has_key(s, k) implies obj_infer(s, decl)[k] == infer_type(
            s[key_index(s, k)].1,
            field_hint(decl, k),
        ) by {
            if k == e.0@ {
                assert(key_index(s, k) == s.len() - 1);
            } else {
                assert(has_key(s.drop_last(), k)) by {
                    let j = choose|j: int| 0 <= j < s.len() && s[j].0@ == k;
                    assert(j < s.len() - 1);
                    assert(s.drop_last()[j].0@ == k);
                }
                assert(key_index(s, k) == key_index(s.drop_last(), k));
                lemma_key_index(s.drop_last(), k);
                assert(s.drop_last()[key_index(s.drop_last(), k)] == s[key_index(s, k)]);
            }
        }
    }
}

/// The type inferred from a value, the declared type serving as the hint.
pub fn from_value(value: &Value, decl: &Type) -> (r: Type)
    requires
        value.wf(),
        decl.wf(),
    ensures
        r.wf(),
        r.model() == infer_type(*value, decl.model()),
    decreases *value,
{
    match value {
        Value::Null => type_clone(decl),
        Value::Bool(_) => Type::Bool,
        Value::Number(_) => Type::Number,
        Value::String(_) => Type::String,
        Value::Array(items) => {
            let unk = Type::Unknown;
            let inner: &Type = match decl {
                Type::Array(d) => d,
                _ => &unk,
            };
            proof {
                lemma_values_wf(items@);
            }
            if items.len() == 0 {
                Type::Array(Box::new(type_clone(inner)))
            } else {
                let first_t = from_value(&items[0], inner);
                let ghost ftm = first_t.model();
                let ghost im = inner.model();
                let mut i: usize = 0;
                while i < items.len()
                    invariant
                        value.wf(),
                        value == Value::Array(*items),
                        items@.len() > 0,
                        forall|p: int| 0 <= p < items@.len() ==> (#[trigger] items@[p]).wf(),
                        inner.wf(),
                        first_t.wf(),
                        ftm == first_t.model(),
                        im == inner.model(),
                        im == (if decl.model() is Array {
                            *decl.model()->Array_0
                        } else {
                            TypeModel::Unknown
                        }),
                        ftm == infer_type(items@[0], im),
                        i <= items@.len(),
                        forall|p: int|
                            0 <= p < i ==> type_equivalent_or_empty(
                                infer_type(#[trigger] items@[p], inner.model()),
                                ftm,
                            ),
                    decreases items@.len() - i,
                {
                    let et = from_value(&items[i], inner);
                    if !et.is_equivalent_or_empty(&first_t) {
                        proof {
                            lemma_elems_infer_equiv(items@, im, ftm);
                            assert(!elems_infer_equiv(items@, im, ftm));
                            reveal_with_fuel(Type::wf, 2);
                            reveal_with_fuel(Type::model, 2);
                            assert(Type::Array(Box::new(Type::Any)).wf());
                            assert(Type::Array(Box::new(Type::Any)).model() == TypeModel::Array(
                                Box::new(TypeModel::Any),
                            ));
                            assert(infer_type(*value, decl.model()) == TypeModel::Array(
                                Box::new(TypeModel::Any),
                            ));
                        }
                        return Type::Array(Box::new(Type::Any));
                    }
                    i = i + 1;
                }
                proof {
                    lemma_elems_infer_equiv(items@, inner.model(), ftm);
                }
                Type::Array(Box::new(first_t))
            }
        },
        Value::Object(entries) => {
            let ghost dm = decl.model();
            proof {
                lemma_value_entries_wf(entries@);
            }
            let mut res: Vec<(String, Type)> = Vec::new();
            let mut i: usize = 0;
            while i < entries.len()
                invariant
                    value.wf(),
                    value == Value::Object(*entries),
                    keys_unique(entries@),
                    forall|p: int| 0 <= p < entries@.len() ==> (#[trigger] entries@[p].1).wf(),
                    decl.wf(),
                    dm == decl.model(),
                    i <= entries@.len(),
                    res@.len() == i,
                    forall|p: int|
                        0 <= p < i ==> (#[trigger] res@[p]).0@ == entries@[p].0@ && res@[p].1.wf()
                            && res@[p].1.model() == infer_type(
                            entries@[p].1,
                            field_hint(dm, entries@[p].0@),
                        ),
                decreases entries@.len() - i,
            {
                let k2 = entries[i].0.clone();
                let unk = Type::Unknown;
                let hint: &Type = match decl {
                    Type::Object(dents) => {
                        proof {
                            lemma_type_entries_wf(dents@);
                            if has_key(dents@, entries@[i as int].0@) {
                                lemma_key_index(dents@, entries@[i as int].0@);
                            }
                        }
                        match map_get(dents, entries[i].0.as_str()) {
                            Option::Some(h) => h,
                            Option::None => &unk,
                        }
                    },
                    _ => &unk,
                };
                proof {
                    assert(hint.model() == field_hint(dm, entries@[i as int].0@));
                }
                let t2 = from_value(&entries[i].1, hint);
                res.push((k2, t2));
                i = i + 1;
            }
            let r = Type::Object(res);
            proof {
                assert(keys_unique(res@));
                lemma_type_entries_wf(res@);
                lemma_obj_infer(entries@, dm);
                assert(r.model()->Object_0 =~= obj_infer(entries@, dm)) by {
                    assert forall|k: Seq<char>| has_key(res@, k) == has_key(entries@, k) by {
                        if has_key(res@, k) {
                            let p = choose|p: int| 0 <= p < res@.len() && res@[p].0@ == k;
                            assert(entries@[p].0@ == k);
                        }
                        if has_key(entries@, k) {
                            let p = choose|p: int|
                                0 <= p < entries@.len() && entries@[p].0@ == k;
                            assert(res@[p].0@ == k);
                        }
                    }
                    assert forall|k: Seq<char>| has_key(res@, k) implies r.model()->Object_0[k]
                        == obj_infer(entries@, dm)[k] by {
                        lemma_key_index(res@, k);
                        lemma_key_index(entries@, k);
                        lemma_key_index_unique(entries@, key_index(res@, k));
                    }
                }
                assert(r.model() == infer_type(*value, decl.model()));
            }
            r
        },
    }
}

/// One reported type inconsistency: the binding's name, its declared type
/// and the type inferred from its value.
#[derive(Debug)]
pub struct TypeMismatch {
    pub key: String,
    pub declared: Type,
    pub inferred: Type,
}

/// The mismatching bindings among the entries, in entry order: those whose
/// declared type is not equivalent, under the relaxed rule, to the type
/// inferred from their value.
pub open spec fn mismatch_seq(entries: Seq<(String, Value)>, tm: Map<Seq<char>, TypeModel>) -> Seq<
    (Seq<char>, TypeModel, TypeModel),
>
    decreases entries,
{
    if entries.len() == 0 {
        Seq::empty()
    } else {
        let prev = mismatch_seq(entries.drop_last(), tm);
        let e = entries.last();
        let d = tm[e.0@];
        let inf = infer_type(e.1, d);
        if type_equivalent_or_empty(d, inf) {
            prev
        } else {
            prev.push((e.0@, d, inf))
        }
    }
}

impl Values {
    /// Checks every binding's value against its declared type. Succeeds when
    /// every inferred type is equivalent, under the relaxed rule, to the
    /// declared one; otherwise reports every mismatching binding, not only
    /// the first.
    pub fn verify_types(&self) -> (r: Result<(), Vec<TypeMismatch>>)
        requires
            self.wf(),
        ensures
            match r {
                Result::Ok(()) => mismatch_seq(self.value_map.0@, self.type_map.model()).len()
                    == 0,
                Result::Err(es) => {
                    let ms = mismatch_seq(self.value_map.0@, self.type_map.model());
                    &&& es@.len() == ms.len()
                    &&& es@.len() > 0
                    &&& forall|j: int|
                        0 <= j < ms.len() ==> (#[trigger] es@[j]).key@ == ms[j].0
                            && es@[j].declared.model() == ms[j].1 && es@[j].inferred.model()
                            == ms[j].2
                },
            },
    {
        let ghost tm = self.type_map.model();
        let ghost ents = self.value_map.0@;
        proof {
            lemma_value_entries_wf(ents);
        }
        let mut res: Vec<TypeMismatch> = Vec::new();
        let mut i: usize = 0;
        while i < self.value_map.0.len()
            invariant
                self.wf(),
                tm == self.type_map.model(),
                ents == self.value_map.0@,
                forall|p: int| 0 <= p < ents.len() ==> (#[trigger] ents[p].1).wf(),
                i <= ents.len(),
                res@.len() == mismatch_seq(ents.subrange(0, i as int), tm).len(),
                forall|j: int|
                    0 <= j < res@.len() ==> {
                        let ms = mismatch_seq(ents.subrange(0, i as int), tm);
                        (#[trigger] res@[j]).key@ == ms[j].0 && res@[j].declared.model() == ms[j].1
                            && res@[j].inferred.model() == ms[j].2
                    },
            decreases ents.len() - i,
        {
            let entry_key = &self.value_map.0[i].0;
            let entry_val = &self.value_map.0[i].1;
            proof {
                assert(has_key(ents, ents[i as int].0@));
                assert(self.value_map.model().dom().contains(ents[i as int].0@));
            }
            let unk = Type::Unknown;
            let declared: &Type = match self.type_map.get(entry_key.as_str()) {
                Option::Some(d) => d,
                Option::None => {
                    proof {
                        assert(false);
                    }
                    &unk
                },
            };
            let inferred = from_value(entry_val, declared);
            if !declared.is_equivalent_or_empty(&inferred) {
                let m = TypeMismatch {
                    key: entry_key.clone(),
                    declared: type_clone(declared),
                    inferred,
                };
                res.push(m);
            }
            proof {
                assert(ents.subrange(0, i + 1 as int).drop_last() =~= ents.subrange(0, i as int));
                assert(ents.subrange(0, i + 1 as int).last() == ents[i as int]);
            }
            i = i + 1;
        }
        proof {
            assert(ents.subrange(0, ents.len() as int) =~= ents);
        }
        if res.len() == 0 {
            Ok(())
        } else {
            Err(res)
        }
    }
}

impl Default for Values {
    /// An empty configuration.
    fn default() -> (r: Values)
        ensures
            r.wf(),
            r.value_map.model() == Map::<Seq<char>, ValueModel>::empty(),
            r.type_map.model() == Map::<Seq<char>, TypeModel>::empty(),
    {
        Values::new()
    }
}

/// The token stream with comments removed: comments never contribute to the
/// value or type trees.
pub open spec fn drop_comments(ts: Seq<(token::TokenModel, int, int)>) -> Seq<
    (token::TokenModel, int, int),
>
    decreases ts.len(),
{
    if ts.len() == 0 {
        Seq::empty()
    } else if ts.last().0 is Comment {
        drop_comments(ts.drop_last())
    } else {
        drop_comments(ts.drop_last()).push(ts.last())
    }
}

/// The tokens alone, spans dropped.
pub open spec fn just_toks(ts: Seq<(token::TokenModel, int, int)>) -> Seq<token::TokenModel> {
    Seq::new(ts.len(), |q: int| ts[q].0)
}

/// The span of the token a parse error points at: the token's own span, or
/// the end of the text when the parser stopped at the end of the stream.
pub open spec fn spec_err_span(
    ts: Seq<(token::TokenModel, int, int)>,
    p: int,
    text_len: int,
) -> crate::diag::Span {
    if 0 <= p < ts.len() {
        crate::diag::Span { start: ts[p].1 as usize, end: ts[p].2 as usize }
    } else {
        crate::diag::Span { start: text_len as usize, end: text_len as usize }
    }
}

/// A configuration source failed to load: the text starts no token at the
/// span (`Lex`), or the token stream does not form bindings (`Syntax`).
#[derive(Debug)]
pub enum ConfigError {
    Lex(crate::diag::Span),
    Syntax(crate::diag::Span),
}

impl Values {
    /// Parses one configuration source. The text is tokenized, comments are
    /// dropped, and the bindings are parsed into a value map and a type map.
    pub fn from_str(s: &str, path: &str) -> (r: Result<Values, ConfigError>)
        ensures
            match r {
                Ok(vals) => {
                    &&& vals.wf()
                    &&& match token::spec_scan(s@, 0) {
                        token::ScanResult::Toks(ts) => parser::spec_config(
                            just_toks(drop_comments(ts)),
                            0,
                            Map::empty(),
                            Map::empty(),
                        ) == parser::PRes::Done(
                            (vals.value_map.model(), vals.type_map.model()),
                            drop_comments(ts).len() as int,
                        ),
                        token::ScanResult::Fail(_) => false,
                    }
                },
                Err(ConfigError::Lex(sp)) => token::spec_scan(s@, 0)
                    == token::ScanResult::Fail(sp.start as int),
                Err(ConfigError::Syntax(sp)) => match token::spec_scan(s@, 0) {
                    token::ScanResult::Toks(ts) => match parser::spec_config(
                        just_toks(drop_comments(ts)),
                        0,
                        Map::empty(),
                        Map::empty(),
                    ) {
                        parser::PRes::Done(_, _) => false,
                        parser::PRes::Fault(p) => sp == spec_err_span(
                            drop_comments(ts),
                            p,
                            s@.len() as int,
                        ),
                    },
                    token::ScanResult::Fail(_) => false,
                },
            },
    {
        let cs = crate::text::to_chars(s);
        let (toks, spans) = match token::tokenize(cs.as_slice()) {
            Ok(p) => p,
            Err(e) => {
                return Err(ConfigError::Lex(crate::diag::Span { start: e.pos, end: e.pos }));
            },
        };
        let ghost all = token::toks_model(toks@, spans@);
        let mut ftoks: Vec<token::Variant> = Vec::new();
        let mut fspans: Vec<crate::diag::Span> = Vec::new();
        let mut k: usize = 0;
        while k < toks.len()
            invariant
                k <= toks@.len(),
                toks@.len() == spans@.len(),
                all == token::toks_model(toks@, spans@),
                forall|q: int| 0 <= q < toks@.len() ==> (#[trigger] toks@[q]).wf(),
                ftoks@.len() == fspans@.len(),
                forall|q: int| 0 <= q < ftoks@.len() ==> (#[trigger] ftoks@[q]).wf(),
                token::toks_model(ftoks@, fspans@) == drop_comments(all.subrange(0, k as int)),
            decreases toks@.len() - k,
        {
            let ghost pre = all.subrange(0, k as int);
            proof {
                assert(all.subrange(0, k + 1).drop_last() =~= pre);
                assert(all.subrange(0, k + 1).last() == all[k as int]);
            }
            if !matches!(&toks[k], token::Variant::Comment(_)) {
                let ghost oldf = token::toks_model(ftoks@, fspans@);
                let tcopy = token_clone(&toks[k]);
                ftoks.push(tcopy);
                fspans.push(spans[k]);
                proof {
                    assert(!(all[k as int].0 is Comment));
                    assert(token::toks_model(ftoks@, fspans@) =~= oldf.push(all[k as int]));
                }
            } else {
                proof {
                    assert(all[k as int].0 is Comment);
                }
            }
            k = k + 1;
        }
        proof {
            assert(all.subrange(0, all.len() as int) =~= all);
        }
        let ghost fm = drop_comments(all);
        proof {
            assert(parser::models(ftoks@) =~= just_toks(fm));
            assert(parser::toks_wf(ftoks@));
        }
        match parser::parse_config(&ftoks) {
            Ok((value_map, type_map)) => Ok(Values { value_map, type_map }),
            Err(pe) => {
                let sp: crate::diag::Span = if pe.cursor < fspans.len() {
                    proof {
                        assert(fm[pe.cursor as int].1 == fspans@[pe.cursor as int].start as int);
                        assert(fm[pe.cursor as int].2 == fspans@[pe.cursor as int].end as int);
                    }
                    fspans[pe.cursor]
                } else {
                    crate::diag::Span { start: s.unicode_len(), end: s.unicode_len() }
                };
                Err(ConfigError::Syntax(sp))
            },
        }
    }
}

/// A copy of one token.
fn token_clone(t: &token::Variant) -> (r: token::Variant)
    ensures
        r.model() == t.model(),
        r.wf() == t.wf(),
{
    match t {
        token::Variant::FNumber(d) => {
            let mut ints: Vec<u8> = Vec::new();
            let mut fracs: Vec<u8> = Vec::new();
            let mut j: usize = 0;
            while j < d.int_digits.len()
                invariant
                    j <= d.int_digits@.len(),
                    ints@ == d.int_digits@.subrange(0, j as int),
                decreases d.int_digits@.len() - j,
            {
                ints.push(d.int_digits[j]);
                j = j + 1;
                proof {
                    assert(ints@ =~= d.int_digits@.subrange(0, j as int));
                }
            }
            let mut j2: usize = 0;
            while j2 < d.frac_digits.len()
                invariant
                    j2 <= d.frac_digits@.len(),
                    fracs@ == d.frac_digits@.subrange(0, j2 as int),
                decreases d.frac_digits@.len() - j2,
            {
                fracs.push(d.frac_digits[j2]);
                j2 = j2 + 1;
                proof {
                    assert(fracs@ =~= d.frac_digits@.subrange(0, j2 as int));
                }
            }
            proof {
                assert(ints@ =~= d.int_digits@);
                assert(fracs@ =~= d.frac_digits@);
            }
            token::Variant::FNumber(Decimal { neg: d.neg, int_digits: ints, frac_digits: fracs })
        },
        token::Variant::SNumber(v) => token::Variant::SNumber(*v),
        token::Variant::UNumber(v) => token::Variant::UNumber(*v),
        token::Variant::String(st) => token::Variant::String(st.clone()),
        token::Variant::Bool(b) => token::Variant::Bool(*b),
        token::Variant::SqClose => token::Variant::SqClose,
        token::Variant::SqOpen => token::Variant::SqOpen,
        token::Variant::CyClose => token::Variant::CyClose,
        token::Variant::CyOpen => token::Variant::CyOpen,
        token::Variant::Comma => token::Variant::Comma,
        token::Variant::Semicolon => token::Variant::Semicolon,
        token::Variant::Eq => token::Variant::Eq,
        token::Variant::EqD => token::Variant::EqD,
        token::Variant::KwNumber => token::Variant::KwNumber,
        token::Variant::KwString => token::Variant::KwString,
        token::Variant::KwBool => token::Variant::KwBool,
        token::Variant::KwObject => token::Variant::KwObject,
        token::Variant::KwArray => token::Variant::KwArray,
        token::Variant::KwAny => token::Variant::KwAny,
        token::Variant::Ident(st) => token::Variant::Ident(st.clone()),
        token::Variant::Comment(st) => token::Variant::Comment(st.clone()),
    }
}

/// A value's model has the constructor the value has.
pub proof fn lemma_model_variant(v: Value)
    ensures
        (v.model() is String) == (v is String),
        (v.model() is Object) == (v is Object),
        (v.model() is Null) == (v is Null),
        (v.model() is Array) == (v is Array),
{
    match v {
        Value::Null => {
            assert(v.model() is Null);
        },
        Value::Bool(_) => {
            assert(v.model() is Bool);
        },
        Value::Number(_) => {
            assert(v.model() is Number);
        },
        Value::String(_) => {
            assert(v.model() is String);
        },
        Value::Array(_) => {
            assert(v.model() is Array);
        },
        Value::Object(_) => {
            assert(v.model() is Object);
        },
    }
}

} // verus!
