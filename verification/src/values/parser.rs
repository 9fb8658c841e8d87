//! The configuration parser: recursive descent over the token stream,
//! producing a value map and a declared-type map. The grammar: a sequence of
//! bindings `ident = expr`, `ident: type` or `ident: type = expr`, each
//! optionally followed by a comma or semicolon; arrays tolerate one trailing
//! comma; a comma directly after a comma, an unclosed bracket and a leftover
//! token are hard errors.

use vstd::prelude::*;

use crate::values::token::{TokenModel, Variant};
use crate::values::{Decimal, Number, Type, TypeModel, Value, ValueModel, NumberModel};

verus! {

/// The outcome of one parsing step: the parsed result and the cursor after
/// it, or the cursor where parsing failed.
pub enum PRes<T> {
    Done(T, int),
    Fault(int),
}

/// The value a scalar token stands for.
pub open spec fn tok_value(t: TokenModel) -> ValueModel {
    match t {
        TokenModel::UNumber(v) => ValueModel::Number(NumberModel::Int(v)),
        TokenModel::SNumber(v) => ValueModel::Number(NumberModel::Int(v)),
        TokenModel::FNumber(neg, ints, fracs) => ValueModel::Number(
            NumberModel::Dec(neg, ints, fracs),
        ),
        TokenModel::StrLit(cs) => ValueModel::String(cs),
        TokenModel::BoolLit(b) => ValueModel::Bool(b),
        _ => ValueModel::Null,
    }
}

/// Whether a scalar token stands for a value by itself.
pub open spec fn is_scalar_tok(t: TokenModel) -> bool {
    t is UNumber || t is SNumber || t is FNumber || t is StrLit || t is BoolLit
}

/// Whether a token may begin a value expression.
pub open spec fn starts_expr(t: TokenModel) -> bool {
    is_scalar_tok(t) || t is SqOpen || t is CyOpen
}

/// Whether a token may begin a type expression.
pub open spec fn starts_type(t: TokenModel) -> bool {
    t is KwNumber || t is KwString || t is KwBool || t is KwObject || t is KwArray || t is KwAny
        || t is SqOpen || t is CyOpen
}

/// Whether a closing bracket stands anywhere at or after `i`.
pub open spec fn has_sq_close(toks: Seq<TokenModel>, i: int) -> bool {
    exists|k: int| i <= k < toks.len() && toks[k] is SqClose
}

/// Parses one value expression at `i`: a scalar literal, an array or an
/// object.
pub open spec fn spec_value(toks: Seq<TokenModel>, i: int) -> PRes<ValueModel>
    decreases toks.len() - i, 2int,
{
    if i < 0 || i >= toks.len() {
        PRes::Fault(i)
    } else if is_scalar_tok(toks[i]) {
        PRes::Done(tok_value(toks[i]), i + 1)
    } else if toks[i] is SqOpen {
        if !has_sq_close(toks, i + 1) {
            PRes::Fault(i + 1)
        } else if i + 1 < toks.len() && toks[i + 1] is SqClose {
            PRes::Done(ValueModel::Array(Seq::empty()), i + 2)
        } else {
            spec_list_items(toks, i + 1, Seq::empty())
        }
    } else if toks[i] is CyOpen {
        if i + 1 < toks.len() && toks[i + 1] is CyClose {
            PRes::Done(ValueModel::Object(Map::empty()), i + 2)
        } else {
            spec_obj_items(toks, i + 1, Map::empty())
        }
    } else {
        PRes::Fault(i)
    }
}

/// Parses the elements of an array after its opening bracket: values and
/// single commas until the closing bracket; two commas in a row are an
/// error.
pub open spec fn spec_list_items(toks: Seq<TokenModel>, i: int, acc: Seq<ValueModel>) -> PRes<
    ValueModel,
>
    decreases toks.len() - i, 3int,
{
    if i < 0 || i >= toks.len() {
        PRes::Fault(i)
    } else if starts_expr(toks[i]) {
        match spec_value(toks, i) {
            PRes::Fault(p) => PRes::Fault(p),
            PRes::Done(v, i2) => if i2 <= i || i2 > toks.len() {
                PRes::Fault(i)
            } else {
                spec_list_items(toks, i2, acc.push(v))
            },
        }
    } else if toks[i] is Comma && i + 1 < toks.len() && toks[i + 1] is Comma {
        PRes::Fault(i)
    } else if toks[i] is SqClose {
        PRes::Done(ValueModel::Array(acc), i + 1)
    } else if toks[i] is Comma {
        spec_list_items(toks, i + 1, acc)
    } else {
        PRes::Fault(i)
    }
}

/// Parses the fields of an object after its opening brace: `ident = expr` or
/// `ident: expr`, each optionally followed by a comma, until the closing
/// brace. A repeated field name overwrites the earlier one.
pub open spec fn spec_obj_items(
    toks: Seq<TokenModel>,
    i: int,
    acc: Map<Seq<char>, ValueModel>,
) -> PRes<ValueModel>
    decreases toks.len() - i, 3int,
{
    if i < 0 || i >= toks.len() {
        PRes::Fault(i)
    } else if i + 1 < toks.len() && toks[i] is Ident && (toks[i + 1] is Eq || toks[i + 1] is EqD) {
        match spec_value(toks, i + 2) {
            PRes::Fault(p) => PRes::Fault(p),
            PRes::Done(v, i2) => if i2 <= i + 2 || i2 > toks.len() {
                PRes::Fault(i)
            } else {
                let acc2 = acc.insert(toks[i]->Ident_0, v);
                if i2 < toks.len() && toks[i2] is Comma {
                    spec_obj_items(toks, i2 + 1, acc2)
                } else {
                    spec_obj_items(toks, i2, acc2)
                }
            },
        }
    } else if toks[i] is CyClose {
        PRes::Done(ValueModel::Object(acc), i + 1)
    } else {
        PRes::Fault(i)
    }
}

/// Parses one type expression at `i`: a type keyword, an array type or an
/// object type.
pub open spec fn spec_type(toks: Seq<TokenModel>, i: int) -> PRes<TypeModel>
    decreases toks.len() - i, 2int,
{
    if i < 0 || i >= toks.len() {
        PRes::Fault(i)
    } else if toks[i] is KwAny {
        PRes::Done(TypeModel::Any, i + 1)
    } else if toks[i] is KwNumber {
        PRes::Done(TypeModel::Number, i + 1)
    } else if toks[i] is KwString {
        PRes::Done(TypeModel::String, i + 1)
    } else if toks[i] is KwBool {
        PRes::Done(TypeModel::Bool, i + 1)
    } else if toks[i] is KwArray {
        spec_array_type(toks, i + 1)
    } else if toks[i] is KwObject {
        spec_obj_type(toks, i + 1)
    } else if toks[i] is SqOpen {
        spec_array_type(toks, i)
    } else if toks[i] is CyOpen {
        spec_obj_type(toks, i)
    } else {
        PRes::Fault(i)
    }
}

/// Parses a bracketed array type: `[ type ]`.
pub open spec fn spec_array_type(toks: Seq<TokenModel>, i: int) -> PRes<TypeModel>
    decreases toks.len() - i, 1int,
{
    if 0 <= i < toks.len() && toks[i] is SqOpen {
        match spec_type(toks, i + 1) {
            PRes::Fault(p) => PRes::Fault(p),
            PRes::Done(t, i2) => if i2 < toks.len() && toks[i2] is SqClose {
                PRes::Done(TypeModel::Array(Box::new(t)), i2 + 1)
            } else {
                PRes::Fault(i2)
            },
        }
    } else {
        PRes::Fault(i)
    }
}

/// Parses a braced object type: `{ (ident : type ,?)* }`. A repeated field
/// name overwrites the earlier one.
pub open spec fn spec_obj_type(toks: Seq<TokenModel>, i: int) -> PRes<TypeModel>
    decreases toks.len() - i, 1int,
{
    if 0 <= i < toks.len() && toks[i] is CyOpen {
        if i + 1 < toks.len() && toks[i + 1] is CyClose {
            PRes::Done(TypeModel::Object(Map::empty()), i + 2)
        } else {
            spec_obj_type_items(toks, i + 1, Map::empty())
        }
    } else {
        PRes::Fault(i)
    }
}

/// Parses the fields of an object type after its opening brace.
pub open spec fn spec_obj_type_items(
    toks: Seq<TokenModel>,
    i: int,
    acc: Map<Seq<char>, TypeModel>,
) -> PRes<TypeModel>
    decreases toks.len() - i, 3int,
{
    if i < 0 || i >= toks.len() {
        PRes::Fault(i)
    } else if i + 1 < toks.len() && toks[i] is Ident && toks[i + 1] is EqD {
        match spec_type(toks, i + 2) {
            PRes::Fault(p) => PRes::Fault(p),
            PRes::Done(t, i2) => if i2 <= i + 2 || i2 > toks.len() {
                PRes::Fault(i)
            } else {
                let acc2 = acc.insert(toks[i]->Ident_0, t);
                if i2 < toks.len() && toks[i2] is Comma {
                    spec_obj_type_items(toks, i2 + 1, acc2)
                } else {
                    spec_obj_type_items(toks, i2, acc2)
                }
            },
        }
    } else if toks[i] is CyClose {
        PRes::Done(TypeModel::Object(acc), i + 1)
    } else {
        PRes::Fault(i)
    }
}

/// Parses a whole configuration: a sequence of bindings. An untyped binding
/// declares type `Any`; a binding without a value stores `Null`; a repeated
/// name overwrites the earlier value.
pub open spec fn spec_config(
    toks: Seq<TokenModel>,
    i: int,
    vacc: Map<Seq<char>, ValueModel>,
    tacc: Map<Seq<char>, TypeModel>,
) -> PRes<(Map<Seq<char>, ValueModel>, Map<Seq<char>, TypeModel>)>
    decreases toks.len() - i,
{
    if i < 0 {
        PRes::Fault(i)
    } else if i >= toks.len() {
        PRes::Done((vacc, tacc), i)
    } else if i + 1 < toks.len() && toks[i] is Ident && (toks[i + 1] is Eq || toks[i + 1] is EqD) {
        let key = toks[i]->Ident_0;
        let j = i + 1;
        // the declared type, when one is written
        let typed = j + 1 < toks.len() && toks[j] is EqD && starts_type(toks[j + 1]);
        if j + 1 < toks.len() && toks[j] is EqD && !starts_type(toks[j + 1]) {
            PRes::Fault(j)
        } else {
            match (if typed {
                spec_type(toks, j + 1)
            } else {
                PRes::Done(TypeModel::Any, j)
            }) {
                PRes::Fault(p) => PRes::Fault(p),
                PRes::Done(t, jj) => {
                    if jj < j || jj > toks.len() {
                        PRes::Fault(i)
                    } else {
                        let tacc2 = tacc.insert(key, t);
                        match (if jj < toks.len() && toks[jj] is Eq {
                            spec_value(toks, jj + 1)
                        } else {
                            PRes::Done(ValueModel::Null, jj)
                        }) {
                            PRes::Fault(p) => PRes::Fault(p),
                            PRes::Done(v, i2) => {
                                if i2 < jj || i2 > toks.len() {
                                    PRes::Fault(i)
                                } else {
                                    let vacc2 = vacc.insert(key, v);
                                    let i3 = if i2 < toks.len() && (toks[i2] is Comma
                                        || toks[i2] is Semicolon) {
                                        i2 + 1
                                    } else {
                                        i2
                                    };
                                    if i3 <= i {
                                        PRes::Fault(i)
                                    } else {
                                        spec_config(toks, i3, vacc2, tacc2)
                                    }
                                }
                            },
                        }
                    }
                },
            }
        }
    } else {
        PRes::Fault(i)
    }
}

/// The models of a token vector.
pub open spec fn models(toks: Seq<Variant>) -> Seq<TokenModel> {
    Seq::new(toks.len(), |q: int| toks[q].model())
}

/// Every decimal token is normalized.
pub open spec fn toks_wf(toks: Seq<Variant>) -> bool {
    forall|q: int| 0 <= q < toks.len() ==> (#[trigger] toks[q]).wf()
}

/// A parse error, pointing at the token the parser stopped on.
#[derive(Debug)]
pub struct ParseError {
    pub cursor: usize,
}

/// A copy of a digit vector.
fn clone_digits(v: &Vec<u8>) -> (r: Vec<u8>)
    ensures
        r@ == v@,
{
    let mut r: Vec<u8> = Vec::new();
    let mut j: usize = 0;
    while j < v.len()
        invariant
            j <= v@.len(),
            r@ == v@.subrange(0, j as int),
        decreases v@.len() - j,
    {
        r.push(v[j]);
        j = j + 1;
        proof {
            assert(r@ =~= v@.subrange(0, j as int));
        }
    }
    proof {
        assert(r@ =~= v@);
    }
    r
}

/// Whether a closing bracket stands anywhere at or after `i`.
fn find_sq_close(toks: &Vec<Variant>, i: usize) -> (r: bool)
    requires
        i <= toks@.len(),
    ensures
        r == has_sq_close(models(toks@), i as int),
{
    let mut k = i;
    while k < toks.len()
        invariant
            i <= k <= toks@.len(),
            forall|p: int| i <= p < k ==> !(#[trigger] models(toks@)[p] is SqClose),
        decreases toks@.len() - k,
    {
        if matches!(&toks[k], Variant::SqClose) {
            proof {
                assert(models(toks@)[k as int] is SqClose);
            }
            return true;
        }
        k = k + 1;
    }
    false
}

/// Parses one value expression at cursor `i`: a scalar literal, an array or
/// an object.
pub fn try_value_from(toks: &Vec<Variant>, i: usize) -> (r: Result<(Value, usize), ParseError>)
    requires
        toks_wf(toks@),
        i <= toks@.len(),
    ensures
        match r {
            Ok(p) => p.0.wf() && spec_value(models(toks@), i as int) == PRes::Done(
                p.0.model(),
                p.1 as int,
            ) && i < p.1 <= toks@.len(),
            Err(pe) => spec_value(models(toks@), i as int) == PRes::<ValueModel>::Fault(pe.cursor as int),
        },
    decreases toks@.len() - i,
{
    let ghost ms = models(toks@);
    if i >= toks.len() {
        return Err(ParseError { cursor: i });
    }
    match &toks[i] {
        Variant::String(st) => Ok((Value::String(st.clone()), i + 1)),
        Variant::UNumber(v) => Ok((Value::Number(Number::UInt(*v)), i + 1)),
        Variant::SNumber(v) => {
            if *v < 0 {
                Ok((Value::Number(Number::Neg(*v)), i + 1))
            } else {
                Ok((Value::Number(Number::UInt(*v as u64)), i + 1))
            }
        },
        Variant::FNumber(d) => {
            let d2 = Decimal {
                neg: d.neg,
                int_digits: clone_digits(&d.int_digits),
                frac_digits: clone_digits(&d.frac_digits),
            };
            proof {
                assert(toks@[i as int].wf());
            }
            Ok((Value::Number(Number::Dec(d2)), i + 1))
        },
        Variant::Bool(b) => Ok((Value::Bool(*b), i + 1)),
        Variant::SqOpen => {
            if !find_sq_close(toks, i + 1) {
                return Err(ParseError { cursor: i + 1 });
            }
            if i + 1 < toks.len() && matches!(&toks[i + 1], Variant::SqClose) {
                proof {
                    assert(ms[i + 1] is SqClose);
                }
                let items: Vec<Value> = Vec::new();
                proof {
                    assert(Value::Array(items).model()->Array_0 =~= Seq::<ValueModel>::empty());
                }
                return Ok((Value::Array(items), i + 2));
            }
            proof {
                if i + 1 < toks@.len() {
                    assert(!(ms[i + 1] is SqClose));
                }
            }
            let mut acc: Vec<Value> = Vec::new();
            let ghost mut accm = Seq::<ValueModel>::empty();
            let mut j = i + 1;
            proof {
                assert(spec_value(ms, i as int) == spec_list_items(ms, j as int, accm));
            }
            loop
                invariant
                    toks_wf(toks@),
                    ms == models(toks@),
                    i + 1 <= j <= toks@.len(),
                    forall|p: int| 0 <= p < acc@.len() ==> (#[trigger] acc@[p]).wf(),
                    accm.len() == acc@.len(),
                    forall|q: int| 0 <= q < accm.len() ==> accm[q] == (#[trigger] acc@[q]).model(),
                    spec_value(ms, i as int) == spec_list_items(ms, j as int, accm),
                decreases toks@.len() - j,
            {
                if j >= toks.len() {
                    return Err(ParseError { cursor: j });
                }
                let step_expr = toks[j].is_expr_decl();
                proof {
                    assert(starts_expr(ms[j as int]) == toks@[j as int].spec_is_expr_decl());
                }
                if step_expr {
                    match try_value_from(toks, j) {
                        Ok((v, j2)) => {
                            proof {
                                accm = accm.push(v.model());
                            }
                            acc.push(v);
                            j = j2;
                        },
                        Err(pe) => {
                            return Err(pe);
                        },
                    }
                } else if matches!(&toks[j], Variant::Comma) && j + 1 < toks.len() && matches!(
                    &toks[j + 1],
                    Variant::Comma,
                ) {
                    return Err(ParseError { cursor: j });
                } else if matches!(&toks[j], Variant::SqClose) {
                    let r = Value::Array(acc);
                    proof {
                        assert(r.model()->Array_0 =~= accm);
                        assert(r.model() == ValueModel::Array(accm));
                        crate::values::lemma_values_wf(r->Array_0@);
                        assert(r.wf());
                    }
                    return Ok((r, j + 1));
                } else if matches!(&toks[j], Variant::Comma) {
                    j = j + 1;
                } else {
                    return Err(ParseError { cursor: j });
                }
            }
        },
        Variant::CyOpen => {
            if i + 1 < toks.len() && matches!(&toks[i + 1], Variant::CyClose) {
                proof {
                    assert(ms[i + 1] is CyClose);
                }
                let entries: Vec<(String, Value)> = Vec::new();
                proof {
                    assert(Value::Object(entries).model()->Object_0 =~= Map::<
                        Seq<char>,
                        ValueModel,
                    >::empty());
                    assert(crate::values::value_entries_wf(entries@));
                }
                return Ok((Value::Object(entries), i + 2));
            }
            proof {
                if i + 1 < toks@.len() {
                    assert(!(ms[i + 1] is CyClose));
                }
            }
            let mut acc = crate::values::ValueMap::new();
            let mut j = i + 1;
            loop
                invariant
                    toks_wf(toks@),
                    ms == models(toks@),
                    i + 1 <= j <= toks@.len(),
                    acc.wf(),
                    spec_value(ms, i as int) == spec_obj_items(ms, j as int, acc.model()),
                decreases toks@.len() - j,
            {
                if j >= toks.len() {
                    return Err(ParseError { cursor: j });
                }
                let is_entry = j + 1 < toks.len() && matches!(&toks[j], Variant::Ident(_))
                    && (matches!(&toks[j + 1], Variant::Eq) || matches!(
                    &toks[j + 1],
                    Variant::EqD,
                ));
                if is_entry {
                    let key = match &toks[j] {
                        Variant::Ident(st) => st.clone(),
                        _ => {
                            proof {
                                assert(false);
                            }
                            String::new()
                        },
                    };
                    proof {
                        assert(key@ == ms[j as int]->Ident_0);
                    }
                    match try_value_from(toks, j + 2) {
                        Ok((v, j2)) => {
                            acc.insert(key, v);
                            if j2 < toks.len() && matches!(&toks[j2], Variant::Comma) {
                                j = j2 + 1;
                            } else {
                                j = j2;
                            }
                        },
                        Err(pe) => {
                            return Err(pe);
                        },
                    }
                } else if matches!(&toks[j], Variant::CyClose) {
                    let r = Value::Object(acc.0);
                    proof {
                        assert(r.model()->Object_0 =~= crate::values::value_assoc_model(
                            r->Object_0@,
                        ));
                    }
                    return Ok((r, j + 1));
                } else {
                    return Err(ParseError { cursor: j });
                }
            }
        },
        _ => Err(ParseError { cursor: i }),
    }
}

/// Parses one type expression at cursor `i`.
pub fn try_type_from(toks: &Vec<Variant>, i: usize) -> (r: Result<(Type, usize), ParseError>)
    requires
        toks_wf(toks@),
        i <= toks@.len(),
    ensures
        match r {
            Ok(p) => p.0.wf() && spec_type(models(toks@), i as int) == PRes::Done(
                p.0.model(),
                p.1 as int,
            ) && i < p.1 <= toks@.len(),
            Err(pe) => spec_type(models(toks@), i as int) == PRes::<TypeModel>::Fault(
                pe.cursor as int,
            ),
        },
    decreases toks@.len() - i, 2int,
{
    if i >= toks.len() {
        return Err(ParseError { cursor: i });
    }
    match &toks[i] {
        Variant::KwAny => Ok((Type::Any, i + 1)),
        Variant::KwNumber => Ok((Type::Number, i + 1)),
        Variant::KwString => Ok((Type::String, i + 1)),
        Variant::KwBool => Ok((Type::Bool, i + 1)),
        Variant::KwArray => parse_array_type(toks, i + 1),
        Variant::KwObject => parse_object_type(toks, i + 1),
        Variant::SqOpen => parse_array_type(toks, i),
        Variant::CyOpen => parse_object_type(toks, i),
        _ => Err(ParseError { cursor: i }),
    }
}

/// Parses a bracketed array type at cursor `i`: `[ type ]`.
pub fn parse_array_type(toks: &Vec<Variant>, i: usize) -> (r: Result<(Type, usize), ParseError>)
    requires
        toks_wf(toks@),
        i <= toks@.len(),
    ensures
        match r {
            Ok(p) => p.0.wf() && spec_array_type(models(toks@), i as int) == PRes::Done(
                p.0.model(),
                p.1 as int,
            ) && i < p.1 <= toks@.len(),
            Err(pe) => spec_array_type(models(toks@), i as int) == PRes::<TypeModel>::Fault(
                pe.cursor as int,
            ),
        },
    decreases toks@.len() - i, 1int,
{
    if i >= toks.len() || !matches!(&toks[i], Variant::SqOpen) {
        return Err(ParseError { cursor: i });
    }
    match try_type_from(toks, i + 1) {
        Ok((t, i2)) => {
            if i2 < toks.len() && matches!(&toks[i2], Variant::SqClose) {
                Ok((Type::Array(Box::new(t)), i2 + 1))
            } else {
                Err(ParseError { cursor: i2 })
            }
        },
        Err(pe) => Err(pe),
    }
}

/// Parses a braced object type at cursor `i`: `{ (ident : type ,?)* }`.
pub fn parse_object_type(toks: &Vec<Variant>, i: usize) -> (r: Result<(Type, usize), ParseError>)
    requires
        toks_wf(toks@),
        i <= toks@.len(),
    ensures
        match r {
            Ok(p) => p.0.wf() && spec_obj_type(models(toks@), i as int) == PRes::Done(
                p.0.model(),
                p.1 as int,
            ) && i < p.1 <= toks@.len(),
            Err(pe) => spec_obj_type(models(toks@), i as int) == PRes::<TypeModel>::Fault(
                pe.cursor as int,
            ),
        },
    decreases toks@.len() - i, 1int,
{
    let ghost ms = models(toks@);
    if i >= toks.len() || !matches!(&toks[i], Variant::CyOpen) {
        return Err(ParseError { cursor: i });
    }
    if i + 1 < toks.len() && matches!(&toks[i + 1], Variant::CyClose) {
        proof {
            assert(ms[i + 1] is CyClose);
        }
        let entries: Vec<(String, Type)> = Vec::new();
        proof {
            assert(Type::Object(entries).model()->Object_0 =~= Map::<Seq<char>, TypeModel>::empty());
            assert(crate::values::type_entries_wf(entries@));
        }
        return Ok((Type::Object(entries), i + 2));
    }
    proof {
        if i + 1 < toks@.len() {
            assert(!(ms[i + 1] is CyClose));
        }
    }
    let mut acc = crate::values::TypeMap::new();
    let mut j = i + 1;
    loop
        invariant
            toks_wf(toks@),
            ms == models(toks@),
            i + 1 <= j <= toks@.len(),
            acc.wf(),
            spec_obj_type(ms, i as int) == spec_obj_type_items(ms, j as int, acc.model()),
        decreases toks@.len() - j,
    {
        if j >= toks.len() {
            return Err(ParseError { cursor: j });
        }
        let is_entry = j + 1 < toks.len() && matches!(&toks[j], Variant::Ident(_)) && matches!(
            &toks[j + 1],
            Variant::EqD,
        );
        if is_entry {
            let key = match &toks[j] {
                Variant::Ident(st) => st.clone(),
                _ => {
                    proof {
                        assert(false);
                    }
                    String::new()
                },
            };
            proof {
                assert(key@ == ms[j as int]->Ident_0);
            }
            match try_type_from(toks, j + 2) {
                Ok((t, j2)) => {
                    acc.insert(key, t);
                    if j2 < toks.len() && matches!(&toks[j2], Variant::Comma) {
                        j = j2 + 1;
                    } else {
                        j = j2;
                    }
                },
                Err(pe) => {
                    return Err(pe);
                },
            }
        } else if matches!(&toks[j], Variant::CyClose) {
            let r = Type::Object(acc.0);
            proof {
                assert(r.model()->Object_0 =~= crate::values::type_assoc_model(r->Object_0@));
            }
            return Ok((r, j + 1));
        } else {
            return Err(ParseError { cursor: j });
        }
    }
}

/// Parses a whole configuration at cursor zero: bindings `ident = expr`,
/// `ident: type` and `ident: type = expr`, each optionally followed by a
/// comma or semicolon. An untyped binding declares `Any`; one without a
/// value stores `Null`; a repeated name overwrites the earlier value.
pub fn parse_config(toks: &Vec<Variant>) -> (r: Result<
    (crate::values::ValueMap, crate::values::TypeMap),
    ParseError,
>)
    requires
        toks_wf(toks@),
    ensures
        match r {
            Ok(p) => p.0.wf() && p.1.wf() && spec_config(
                models(toks@),
                0,
                Map::empty(),
                Map::empty(),
            ) == PRes::Done((p.0.model(), p.1.model()), toks@.len() as int)
                && p.0.model().dom() == p.1.model().dom(),
            Err(pe) => spec_config(models(toks@), 0, Map::empty(), Map::empty()) == PRes::<
                (Map<Seq<char>, ValueModel>, Map<Seq<char>, TypeModel>),
            >::Fault(pe.cursor as int),
        },
{
    let ghost ms = models(toks@);
    let mut values = crate::values::ValueMap::new();
    let mut types = crate::values::TypeMap::new();
    let mut i: usize = 0;
    proof {
        assert(values.model().dom() =~= types.model().dom());
    }
    loop
        invariant
            toks_wf(toks@),
            ms == models(toks@),
            i <= toks@.len(),
            values.wf(),
            types.wf(),
            values.model().dom() == types.model().dom(),
            spec_config(ms, 0, Map::empty(), Map::empty()) == spec_config(
                ms,
                i as int,
                values.model(),
                types.model(),
            ),
        decreases toks@.len() - i,
    {
        if i >= toks.len() {
            return Ok((values, types));
        }
        let is_binding = i + 1 < toks.len() && matches!(&toks[i], Variant::Ident(_)) && (matches!(
            &toks[i + 1],
            Variant::Eq,
        ) || matches!(&toks[i + 1], Variant::EqD));
        if !is_binding {
            return Err(ParseError { cursor: i });
        }
        let key = match &toks[i] {
            Variant::Ident(st) => st.clone(),
            _ => {
                proof {
                    assert(false);
                }
                String::new()
            },
        };
        proof {
            assert(key@ == ms[i as int]->Ident_0);
        }
        let j = i + 1;
        let typed = j + 1 < toks.len() && matches!(&toks[j], Variant::EqD)
            && toks[j + 1].is_type_decl();
        proof {
            if j + 1 < toks@.len() {
                assert(starts_type(ms[j + 1]) == toks@[j + 1].spec_is_type_decl());
            }
        }
        if j + 1 < toks.len() && matches!(&toks[j], Variant::EqD) && !toks[j + 1].is_type_decl() {
            return Err(ParseError { cursor: j });
        }
        let jj: usize;
        if typed {
            match try_type_from(toks, j + 1) {
                Ok((t, j2)) => {
                    types.insert(key.clone(), t);
                    jj = j2;
                },
                Err(pe) => {
                    return Err(pe);
                },
            }
        } else {
            types.insert(key.clone(), Type::Any);
            jj = j;
        }
        let i2: usize;
        if jj < toks.len() && matches!(&toks[jj], Variant::Eq) {
            match try_value_from(toks, jj + 1) {
                Ok((v, i2v)) => {
                    values.insert(key, v);
                    i2 = i2v;
                },
                Err(pe) => {
                    return Err(pe);
                },
            }
        } else {
            values.insert(key, Value::Null);
            i2 = jj;
        }
        let i3: usize = if i2 < toks.len() && (matches!(&toks[i2], Variant::Comma) || matches!(
            &toks[i2],
            Variant::Semicolon,
        )) {
            i2 + 1
        } else {
            i2
        };
        proof {
            assert(values.model().dom() =~= types.model().dom());
        }
        i = i3;
    }
}

/// The round-trip law for scalar literals: parsing the single binding
/// `k = v`, for any identifier `k` and any scalar literal token `v`, yields
/// a value map binding `k` to the literal's semantic value and a type map
/// declaring `k` as `Any`.
pub proof fn lemma_scalar_binding_round_trip(toks: Seq<TokenModel>, k: Seq<char>, lit: TokenModel)
    requires
        toks.len() == 3,
        toks[0] == TokenModel::Ident(k),
        toks[1] == TokenModel::Eq,
        toks[2] == lit,
        is_scalar_tok(lit),
    ensures
        spec_config(toks, 0, Map::empty(), Map::empty()) == PRes::Done(
            (
                Map::<Seq<char>, ValueModel>::empty().insert(k, tok_value(lit)),
                Map::<Seq<char>, TypeModel>::empty().insert(k, TypeModel::Any),
            ),
            3int,
        ),
{
    reveal_with_fuel(spec_config, 3);
    reveal_with_fuel(spec_value, 2);
    assert(spec_value(toks, 2) == PRes::Done(tok_value(lit), 3int));
}

} // verus!
