//! Types as they are inferred.

use crate::runtime::ast::model::FieldM;
use crate::runtime::ast::Field;
use crate::runtime::interner::Symbol;
use crate::runtime::table::Plain;
use vstd::prelude::*;

verus! {

/// An inferred type.
#[derive(Debug, PartialEq, Eq)]
pub enum Type {
    Int,
    String,
    Bool,
    Action,
    /// A type that is not known yet.
    TypeVar(u64),
    Fun(Vec<Type>, Box<Type>),
    Vector(Vec<Type>),
    Table(Vec<Field>),
}

/// The model of a [`Type`].
pub enum TyM {
    Int,
    String,
    Bool,
    Action,
    TypeVar(u64),
    Fun(Seq<TyM>, Box<TyM>),
    Vector(Seq<TyM>),
    Table(Seq<FieldM<Symbol>>),
}

/// What a type is.
pub open spec fn ty_model(t: Type) -> TyM
    decreases t,
{
    match t {
        Type::Int => TyM::Int,
        Type::String => TyM::String,
        Type::Bool => TyM::Bool,
        Type::Action => TyM::Action,
        Type::TypeVar(x) => TyM::TypeVar(x),
        Type::Fun(v, r) => TyM::Fun(
            Seq::new(
                v@.len(),
                |i: int|
                    if 0 <= i < v@.len() {
                        ty_model(v@[i])
                    } else {
                        arbitrary()
                    },
            ),
            Box::new(ty_model(*r)),
        ),
        Type::Vector(v) => TyM::Vector(
            Seq::new(
                v@.len(),
                |i: int|
                    if 0 <= i < v@.len() {
                        ty_model(v@[i])
                    } else {
                        arbitrary()
                    },
            ),
        ),
        Type::Table(fields) => TyM::Table(fields.deep_view()),
    }
}

impl DeepView for Type {
    type V = TyM;

    open spec fn deep_view(&self) -> TyM {
        ty_model(*self)
    }
}

/// The parts of a type's model are the models of its parts.
pub proof fn lemma_ty_model(t: Type)
    ensures
        t matches Type::Vector(v) ==> ty_model(t) == TyM::Vector(v.deep_view()),
        t matches Type::Fun(v, r) ==> ty_model(t) == TyM::Fun(
            v.deep_view(),
            Box::new(r.deep_view()),
        ),
{
    match t {
        Type::Vector(v) => {
            assert(ty_model(t)->Vector_0 =~= v.deep_view());
        },
        Type::Fun(v, r) => {
            assert(ty_model(t)->Fun_0 =~= v.deep_view());
        },
        _ => {},
    }
}

fn dup_type(t: &Type) -> (r: Type)
    ensures
        r.deep_view() == t.deep_view(),
    decreases t,
{
    let r = match t {
        Type::Int => Type::Int,
        Type::String => Type::String,
        Type::Bool => Type::Bool,
        Type::Action => Type::Action,
        Type::TypeVar(x) => Type::TypeVar(*x),
        Type::Fun(v, q) => Type::Fun(dup_types(v), Box::new(dup_type(q))),
        Type::Vector(v) => Type::Vector(dup_types(v)),
        Type::Table(fields) => Type::Table(fields.dup()),
    };
    proof {
        lemma_ty_model(*t);
        lemma_ty_model(r);
    }
    r
}

fn dup_types(v: &Vec<Type>) -> (r: Vec<Type>)
    ensures
        r.deep_view() == v.deep_view(),
    decreases v,
{
    let mut out: Vec<Type> = Vec::new();
    for i in 0..v.len()
        invariant
            out@.len() == i,
            forall|j: int| 0 <= j < i ==> (#[trigger] out@[j]).deep_view() == v@[j].deep_view(),
    {
        assert(decreases_to!(v => v@[i as int]));
        out.push(dup_type(&v[i]));
    }
    assert(out.deep_view() =~= v.deep_view());
    out
}

fn same_type(a: &Type, b: &Type) -> (r: bool)
    ensures
        r == (a.deep_view() == b.deep_view()),
    decreases a,
{
    proof {
        lemma_ty_model(*a);
        lemma_ty_model(*b);
    }
    match (a, b) {
        (Type::Int, Type::Int) => true,
        (Type::String, Type::String) => true,
        (Type::Bool, Type::Bool) => true,
        (Type::Action, Type::Action) => true,
        (Type::TypeVar(x), Type::TypeVar(y)) => *x == *y,
        (Type::Fun(v, q), Type::Fun(w, p)) => same_types(v, w) && same_type(q, p),
        (Type::Vector(v), Type::Vector(w)) => same_types(v, w),
        (Type::Table(f), Type::Table(g)) => f.same(g),
        _ => false,
    }
}

fn same_types(v: &Vec<Type>, w: &Vec<Type>) -> (r: bool)
    ensures
        r == (v.deep_view() == w.deep_view()),
    decreases v,
{
    if v.len() != w.len() {
        assert(v.deep_view().len() != w.deep_view().len());
        return false;
    }
    for i in 0..v.len()
        invariant
            v@.len() == w@.len(),
            forall|j: int| 0 <= j < i ==> (#[trigger] v@[j]).deep_view() == w@[j].deep_view(),
    {
        assert(decreases_to!(v => v@[i as int]));
        if !same_type(&v[i], &w[i]) {
            assert(v.deep_view()[i as int] != w.deep_view()[i as int]);
            return false;
        }
    }
    assert(v.deep_view() =~= w.deep_view());
    true
}

impl Clone for Type {
    fn clone(&self) -> (r: Self)
        ensures
            r.deep_view() == self.deep_view(),
    {
        dup_type(self)
    }
}

impl Plain for Type {
    fn dup(&self) -> (r: Self) {
        dup_type(self)
    }

    fn same(&self, other: &Self) -> (r: bool) {
        same_type(self, other)
    }
}

} // verus!
