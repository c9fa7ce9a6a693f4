//! Types of the language, and typed parameters.

use crate::runtime::interner::Symbol;
use crate::runtime::table::Plain;
use vstd::prelude::*;

verus! {

/// A type as it is written in a program.
#[derive(Debug, PartialEq, Eq, Hash)]
pub enum Type {
    Int,
    String,
    Bool,
    Unit,
    Tuple(Vec<Type>),
    Func(Box<Type>, Box<Type>),
}

/// The model of a [`Type`].
pub enum TypeM {
    Int,
    String,
    Bool,
    Unit,
    Tuple(Seq<TypeM>),
    Func(Box<TypeM>, Box<TypeM>),
}

/// A parameter of a function.
#[derive(Debug, PartialEq, Eq, Hash)]
pub struct Param {
    pub name: Symbol,
    pub ty: Option<Type>,
}

/// The model of a [`Param`], with names of type `N`.
pub struct ParamM<N> {
    pub name: N,
    pub ty: Option<TypeM>,
}

/// What a type is.
pub open spec fn type_model(t: Type) -> TypeM
    decreases t,
{
    match t {
        Type::Int => TypeM::Int,
        Type::String => TypeM::String,
        Type::Bool => TypeM::Bool,
        Type::Unit => TypeM::Unit,
        Type::Tuple(v) => TypeM::Tuple(
            Seq::new(
                v@.len(),
                |i: int|
                    if 0 <= i < v@.len() {
                        type_model(v@[i])
                    } else {
                        arbitrary()
                    },
            ),
        ),
        Type::Func(a, b) => TypeM::Func(Box::new(type_model(*a)), Box::new(type_model(*b))),
    }
}

impl DeepView for Type {
    type V = TypeM;

    open spec fn deep_view(&self) -> TypeM {
        type_model(*self)
    }
}

impl DeepView for Param {
    type V = ParamM<Symbol>;

    open spec fn deep_view(&self) -> ParamM<Symbol> {
        ParamM { name: self.name, ty: self.ty.deep_view() }
    }
}

/// The model of a tuple type is the tuple of its parts' models.
pub proof fn lemma_type_model(t: Type)
    ensures
        t matches Type::Tuple(v) ==> type_model(t) == TypeM::Tuple(v.deep_view()),
{
    if let Type::Tuple(v) = t {
        assert(type_model(t)->Tuple_0 =~= v.deep_view());
    }
}

fn dup_type(t: &Type) -> (r: Type)
    ensures
        r.deep_view() == t.deep_view(),
    decreases t,
{
    let r = match t {
        Type::Int => Type::Int,
        Type::String => Type::String,
        Type::Bool => Type::Bool,
        Type::Unit => Type::Unit,
        Type::Tuple(v) => Type::Tuple(dup_types(v)),
        Type::Func(a, b) => Type::Func(Box::new(dup_type(a)), Box::new(dup_type(b))),
    };
    proof {
        lemma_type_model(*t);
        lemma_type_model(r);
    }
    r
}

fn dup_types(v: &Vec<Type>) -> (r: Vec<Type>)
    ensures
        r.deep_view() == v.deep_view(),
    decreases v,
{
    let mut out: Vec<Type> = Vec::new();
    for i in 0..v.len()
        invariant
            out@.len() == i,
            forall|j: int| 0 <= j < i ==> (#[trigger] out@[j]).deep_view() == v@[j].deep_view(),
    {
        assert(decreases_to!(v => v@[i as int]));
        out.push(dup_type(&v[i]));
    }
    assert(out.deep_view() =~= v.deep_view());
    out
}

fn same_type(a: &Type, b: &Type) -> (r: bool)
    ensures
        r == (a.deep_view() == b.deep_view()),
    decreases a,
{
    proof {
        lemma_type_model(*a);
        lemma_type_model(*b);
    }
    match (a, b) {
        (Type::Int, Type::Int) => true,
        (Type::String, Type::String) => true,
        (Type::Bool, Type::Bool) => true,
        (Type::Unit, Type::Unit) => true,
        (Type::Tuple(v), Type::Tuple(w)) => same_types(v, w),
        (Type::Func(a1, b1), Type::Func(a2, b2)) => same_type(a1, a2) && same_type(b1, b2),
        _ => false,
    }
}

fn same_types(v: &Vec<Type>, w: &Vec<Type>) -> (r: bool)
    ensures
        r == (v.deep_view() == w.deep_view()),
    decreases v,
{
    if v.len() != w.len() {
        assert(v.deep_view().len() != w.deep_view().len());
        return false;
    }
    for i in 0..v.len()
        invariant
            v@.len() == w@.len(),
            forall|j: int| 0 <= j < i ==> (#[trigger] v@[j]).deep_view() == w@[j].deep_view(),
    {
        assert(decreases_to!(v => v@[i as int]));
        if !same_type(&v[i], &w[i]) {
            assert(v.deep_view()[i as int] != w.deep_view()[i as int]);
            return false;
        }
    }
    assert(v.deep_view() =~= w.deep_view());
    true
}

impl Clone for Type {
    fn clone(&self) -> (r: Self)
        ensures
            r.deep_view() == self.deep_view(),
    {
        dup_type(self)
    }
}

impl Clone for Param {
    fn clone(&self) -> (r: Self)
        ensures
            r.deep_view() == self.deep_view(),
    {
        self.dup()
    }
}

impl Plain for Type {
    fn dup(&self) -> (r: Self) {
        dup_type(self)
    }

    fn same(&self, other: &Self) -> (r: bool) {
        same_type(self, other)
    }
}

impl Plain for Param {
    fn dup(&self) -> (r: Self) {
        Param { name: self.name, ty: self.ty.dup() }
    }

    fn same(&self, other: &Self) -> (r: bool) {
        self.name == other.name && self.ty.same(&other.ty)
    }
}

} // verus!
