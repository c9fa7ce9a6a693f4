//! Making types equal.

use crate::runtime::semantic_analysis::typecheck::types;
use crate::runtime::semantic_analysis::typecheck::types::{TyM, Type};
use crate::runtime::table;
use crate::runtime::table::{Plain, Table};
use vstd::prelude::*;

verus! {

/// What is known of type variables.
pub type SubstM = Seq<(u64, TyM)>;

/// The type with each variable `x` replaced by `f(x)`.
#[verifier::opaque]
pub open spec fn subst(f: spec_fn(u64) -> TyM, t: TyM) -> TyM
    decreases t, 0nat,
{
    match t {
        TyM::TypeVar(x) => f(x),
        TyM::Fun(v, r) => TyM::Fun(subst_all(f, v, v.len()), Box::new(subst(f, *r))),
        TyM::Vector(v) => TyM::Vector(subst_all(f, v, v.len())),
        _ => t,
    }
}

/// The first `n` types with their variables replaced.
#[verifier::opaque]
pub open spec fn subst_all(f: spec_fn(u64) -> TyM, v: Seq<TyM>, n: nat) -> Seq<TyM>
    decreases v, n,
{
    if n == 0 || n > v.len() {
        seq![]
    } else {
        subst_all(f, v, (n - 1) as nat).push(subst(f, v[n - 1]))
    }
}

/// What is known of each variable; one of which nothing is known stands for
/// itself.
pub open spec fn known(s: SubstM) -> spec_fn(u64) -> TyM {
    |x: u64|
        match table::get(s, x) {
            Some(t) => t,
            None => TyM::TypeVar(x),
        }
}

/// One variable stands for `t`, the others for themselves.
pub open spec fn only(y: u64, t: TyM) -> spec_fn(u64) -> TyM {
    |x: u64|
        if x == y {
            t
        } else {
            TyM::TypeVar(x)
        }
}

/// The type as far as it is known.
pub open spec fn found(s: SubstM, t: TyM) -> TyM {
    subst(known(s), t)
}

/// Whether the variable occurs in the type.
#[verifier::opaque]
pub open spec fn occurs(x: u64, t: TyM) -> bool
    decreases t,
{
    match t {
        TyM::TypeVar(y) => x == y,
        TyM::Fun(v, r) => occurs_in_any(x, v) || occurs(x, *r),
        TyM::Vector(v) => occurs_in_any(x, v),
        _ => false,
    }
}

/// Whether the variable occurs in one of the types.
#[verifier::opaque]
pub open spec fn occurs_in_any(x: u64, v: Seq<TyM>) -> bool
    decreases v,
{
    exists|i: int| 0 <= i < v.len() && occurs(x, #[trigger] v[i])
}

/// The size of a type.
#[verifier::opaque]
pub open spec fn size(t: TyM) -> nat
    decreases t, 0nat,
{
    match t {
        TyM::Fun(v, r) => 1 + sizes(v, v.len()) + size(*r),
        TyM::Vector(v) => 1 + sizes(v, v.len()),
        _ => 1,
    }
}

/// The size of the first `n` types together.
#[verifier::opaque]
pub open spec fn sizes(v: Seq<TyM>, n: nat) -> nat
    decreases v, n,
{
    if n == 0 || n > v.len() {
        0
    } else {
        sizes(v, (n - 1) as nat) + size(v[n - 1])
    }
}

/// Pairs of types that are to become equal.
pub type PairsM = Seq<(TyM, TyM)>;

/// The size of pairs of types.
pub open spec fn weight(eqs: PairsM) -> nat
    decreases eqs.len(),
{
    if eqs.len() == 0 {
        0
    } else {
        weight(eqs.drop_last()) + size(eqs.last().0) + size(eqs.last().1)
    }
}

/// How many of the first `n` variables nothing is known of.
pub open spec fn unknown(s: SubstM, n: nat) -> nat
    decreases n,
{
    if n == 0 {
        0
    } else {
        unknown(s, (n - 1) as nat) + (if table::bound(s, (n - 1) as u64) {
            0nat
        } else {
            1
        })
    }
}

/// A variable becomes known to be `t`.
pub open spec fn bind(s: SubstM, x: u64, t: TyM) -> SubstM {
    Seq::new(s.len(), |i: int| (s[i].0, subst(only(x, t), s[i].1))).push((x, t))
}

/// Pairs of types with a variable replaced.
pub open spec fn replaced_in(x: u64, t: TyM, eqs: PairsM) -> PairsM {
    Seq::new(eqs.len(), |i: int| (subst(only(x, t), eqs[i].0), subst(only(x, t), eqs[i].1)))
}

/// The pairs of what stands in the same place.
pub open spec fn paired(v: Seq<TyM>, w: Seq<TyM>) -> PairsM {
    Seq::new(v.len(), |i: int| (v[i], w[i]))
}

/// What is known once all pairs are equal, or nothing where they cannot be.
/// There are `n` variables.
pub open spec fn solve(n: u64, s: SubstM, eqs: PairsM) -> Option<SubstM>
    decreases unknown(s, n as nat), weight(eqs),
{
    if eqs.len() == 0 {
        Some(s)
    } else {
        let (a, b) = eqs.last();
        let rest = eqs.drop_last();
        proof {
            lemma_size_positive(a);
            lemma_size_positive(b);
        }
        if a == b {
            solve(n, s, rest)
        } else {
            match (a, b) {
                (TyM::TypeVar(x), _) => if can_bind(n, s, x, b) {
                    proof {
                        lemma_bind_unknown(s, x, b, n as nat);
                    }
                    solve(n, bind(s, x, b), replaced_in(x, b, rest))
                } else {
                    None
                },
                (_, TyM::TypeVar(x)) => if can_bind(n, s, x, a) {
                    proof {
                        lemma_bind_unknown(s, x, a, n as nat);
                    }
                    solve(n, bind(s, x, a), replaced_in(x, a, rest))
                } else {
                    None
                },
                (TyM::Fun(v, r), TyM::Fun(w, q)) => if v.len() == w.len() {
                    proof {
                        lemma_weight_paired(rest, v, w);
                        lemma_weight_push(rest + paired(v, w), *r, *q);
                        reveal(size);
                        reveal(sizes);
                    }
                    solve(n, s, (rest + paired(v, w)).push((*r, *q)))
                } else {
                    None
                },
                (TyM::Vector(v), TyM::Vector(w)) => if v.len() == w.len() {
                    proof {
                        lemma_weight_paired(rest, v, w);
                        reveal(size);
                        reveal(sizes);
                    }
                    solve(n, s, rest + paired(v, w))
                } else {
                    None
                },
                _ => None,
            }
        }
    }
}

/// Whether a variable can become known to be `t`: it is one of the `n`
/// variables, nothing is known of it, and it does not occur in `t`.
pub open spec fn can_bind(n: u64, s: SubstM, x: u64, t: TyM) -> bool {
    x < n && !table::bound(s, x) && !occurs(x, t)
}

/// What is known once two types are equal, or nothing where they cannot be.
pub open spec fn unified(n: u64, s: SubstM, a: TyM, b: TyM) -> Option<SubstM> {
    solve(n, s, seq![(found(s, a), found(s, b))])
}

/// A type has a size.
pub proof fn lemma_size_positive(t: TyM)
    ensures
        size(t) > 0,
{
    reveal(size);
}

/// One more pair.
pub proof fn lemma_weight_push(eqs: PairsM, a: TyM, b: TyM)
    ensures
        weight(eqs.push((a, b))) == weight(eqs) + size(a) + size(b),
{
    assert(eqs.push((a, b)).drop_last() =~= eqs);
}

/// The pairs of what stands in the same place.
pub proof fn lemma_weight_paired(eqs: PairsM, v: Seq<TyM>, w: Seq<TyM>)
    requires
        v.len() == w.len(),
    ensures
        weight(eqs + paired(v, w)) == weight(eqs) + sizes(v, v.len()) + sizes(w, w.len()),
{
    lemma_weight_first(eqs, v, w, v.len());
    assert(paired(v, w).take(v.len() as int) =~= paired(v, w));
}

proof fn lemma_weight_first(eqs: PairsM, v: Seq<TyM>, w: Seq<TyM>, n: nat)
    requires
        v.len() == w.len(),
        n <= v.len(),
    ensures
        weight(eqs + paired(v, w).take(n as int)) == weight(eqs) + sizes(v, n) + sizes(w, n),
    decreases n,
{
    reveal(sizes);
    reveal(size);
    if n == 0 {
        assert(eqs + paired(v, w).take(0) =~= eqs);
    } else {
        lemma_weight_first(eqs, v, w, (n - 1) as nat);
        let p = eqs + paired(v, w).take(n - 1);
        assert(eqs + paired(v, w).take(n as int) =~= p.push((v[n - 1], w[n - 1])));
        lemma_weight_push(p, v[n - 1], w[n - 1]);
    }
}

/// What a variable that becomes known adds.
pub proof fn lemma_bind_slot(s: SubstM, x: u64, t: TyM, y: u64)
    requires
        !table::bound(s, x),
    ensures
        table::bound(bind(s, x, t), y) == (y == x || table::bound(s, y)),
        y == x ==> table::get(bind(s, x, t), y) == Some(t),
        table::bound(s, y) ==> table::get(bind(s, x, t), y) == Some(
            subst(only(x, t), table::get(s, y)->Some_0),
        ),
{
    let z = bind(s, x, t);
    table::lemma_slot(s, y);
    table::lemma_slot(s, x);
    if table::bound(s, y) {
        let i = table::slot(s, y) as int;
        assert forall|j: int| 0 <= j < i implies (#[trigger] z[j]).0 != y by {
            assert(s[j].0 != y);
        }
        table::lemma_slot_is(z, y, i);
    } else if y == x {
        assert forall|j: int| 0 <= j < s.len() implies (#[trigger] z[j]).0 != y by {
            assert(s[j].0 != y);
        }
        table::lemma_slot_is(z, y, s.len() as int);
    } else {
        assert forall|j: int| 0 <= j < z.len() implies (#[trigger] z[j]).0 != y by {
            if j < s.len() {
                assert(s[j].0 != y);
            }
        }
        table::lemma_slot_is(z, y, z.len() as int);
    }
}

/// A variable that becomes known is one less to know.
pub proof fn lemma_bind_unknown(s: SubstM, x: u64, t: TyM, n: nat)
    requires
        !table::bound(s, x),
        n <= u64::MAX,
    ensures
        x < n ==> unknown(bind(s, x, t), n) == unknown(s, n) - 1,
        x >= n ==> unknown(bind(s, x, t), n) == unknown(s, n),
    decreases n,
{
    if n > 0 {
        lemma_bind_unknown(s, x, t, (n - 1) as nat);
        lemma_bind_slot(s, x, t, (n - 1) as u64);
    }
}

/// The type as far as it is known.
pub fn find(s: &Table<u64, Type>, t: &Type) -> (r: Type)
    ensures
        r.deep_view() == found(s.deep_view(), t.deep_view()),
    decreases t, 0nat,
{
    proof {
        types::lemma_ty_model(*t);
        reveal(subst);
        reveal(subst_all);
    }
    let r = match t {
        Type::TypeVar(x) => match s.get(x) {
            Some(u) => u.dup(),
            None => Type::TypeVar(*x),
        },
        Type::Fun(v, q) => Type::Fun(find_all(s, v), Box::new(find(s, q))),
        Type::Vector(v) => Type::Vector(find_all(s, v)),
        _ => t.dup(),
    };
    proof {
        types::lemma_ty_model(r);
    }
    r
}

fn find_all(s: &Table<u64, Type>, v: &Vec<Type>) -> (r: Vec<Type>)
    ensures
        r.deep_view() == subst_all(known(s.deep_view()), v.deep_view(), v.deep_view().len()),
    decreases v, 0nat,
{
    let ghost t = v.deep_view();
    let mut out: Vec<Type> = Vec::new();
    proof {
        reveal(subst_all);
        assert(out.deep_view() =~= Seq::<TyM>::empty());
    }
    for i in 0..v.len()
        invariant
            t == v.deep_view(),
            out.deep_view() == subst_all(known(s.deep_view()), t, i as nat),
    {
        assert(decreases_to!(v => v@[i as int]));
        let ghost before = out.deep_view();
        let one = find(s, &v[i]);
        out.push(one);
        proof {
            reveal(subst_all);
            reveal(subst);
            assert(out.deep_view() =~= before.push(one.deep_view()));
        }
    }
    out
}

/// The type with a variable replaced.
fn replace(x: u64, r: &Type, t: &Type) -> (out: Type)
    ensures
        out.deep_view() == subst(only(x, r.deep_view()), t.deep_view()),
    decreases t, 0nat,
{
    proof {
        types::lemma_ty_model(*t);
        reveal(subst);
        reveal(subst_all);
    }
    let out = match t {
        Type::TypeVar(y) => if *y == x {
            r.dup()
        } else {
            Type::TypeVar(*y)
        },
        Type::Fun(v, q) => Type::Fun(replace_all(x, r, v), Box::new(replace(x, r, q))),
        Type::Vector(v) => Type::Vector(replace_all(x, r, v)),
        _ => t.dup(),
    };
    proof {
        types::lemma_ty_model(out);
    }
    out
}

fn replace_all(x: u64, r: &Type, v: &Vec<Type>) -> (out: Vec<Type>)
    ensures
        out.deep_view() == subst_all(only(x, r.deep_view()), v.deep_view(), v.deep_view().len()),
    decreases v, 0nat,
{
    let ghost t = v.deep_view();
    let mut out: Vec<Type> = Vec::new();
    proof {
        reveal(subst_all);
        assert(out.deep_view() =~= Seq::<TyM>::empty());
    }
    for i in 0..v.len()
        invariant
            t == v.deep_view(),
            out.deep_view() == subst_all(only(x, r.deep_view()), t, i as nat),
    {
        assert(decreases_to!(v => v@[i as int]));
        let ghost before = out.deep_view();
        let one = replace(x, r, &v[i]);
        out.push(one);
        proof {
            reveal(subst_all);
            reveal(subst);
            assert(out.deep_view() =~= before.push(one.deep_view()));
        }
    }
    out
}

/// Whether the variable occurs in the type.
fn occurs_in(x: u64, t: &Type) -> (r: bool)
    ensures
        r == occurs(x, t.deep_view()),
    decreases t, 0nat,
{
    proof {
        types::lemma_ty_model(*t);
        reveal(occurs);
        reveal(occurs_in_any);
    }
    match t {
        Type::TypeVar(y) => x == *y,
        Type::Fun(v, q) => occurs_among(x, v) || occurs_in(x, q),
        Type::Vector(v) => occurs_among(x, v),
        _ => false,
    }
}

fn occurs_among(x: u64, v: &Vec<Type>) -> (r: bool)
    ensures
        r == occurs_in_any(x, v.deep_view()),
    decreases v, 0nat,
{
    let ghost t = v.deep_view();
    for i in 0..v.len()
        invariant
            t == v.deep_view(),
            forall|j: int| 0 <= j < i ==> !occurs(x, #[trigger] t[j]),
    {
        assert(decreases_to!(v => v@[i as int]));
        let one = occurs_in(x, &v[i]);
        assert(t[i as int] == v@[i as int].deep_view());
        if one {
            proof {
                reveal(occurs_in_any);
                reveal(occurs);
                assert(occurs(x, t[i as int]));
            }
            return true;
        }
    }
    proof {
        reveal(occurs_in_any);
        reveal(occurs);
    }
    false
}

/// A variable becomes known to be `t`.
fn bind_var(s: &mut Table<u64, Type>, x: u64, t: Type)
    ensures
        final(s).deep_view() == bind(old(s).deep_view(), x, t.deep_view()),
{
    let ghost s0 = s.deep_view();
    let mut out: Vec<(u64, Type)> = Vec::new();
    for i in 0..s.entries.len()
        invariant
            s0 == s.deep_view(),
            s0.len() == s.entries@.len(),
            out@.len() == i,
            forall|j: int|
                0 <= j < i ==> (#[trigger] out@[j]).deep_view() == (
                    s0[j].0,
                    subst(only(x, t.deep_view()), s0[j].1),
                ),
    {
        let u = replace(x, &t, &s.entries[i].1);
        assert(s0[i as int] == s.entries@[i as int].deep_view());
        out.push((s.entries[i].0, u));
    }
    out.push((x, t));
    s.entries = out;
    assert(s.deep_view() =~= bind(s0, x, t.deep_view()));
}

/// Pairs of types with a variable replaced.
fn replace_pairs(x: u64, t: &Type, eqs: &Vec<(Type, Type)>) -> (r: Vec<(Type, Type)>)
    ensures
        r.deep_view() == replaced_in(x, t.deep_view(), eqs.deep_view()),
{
    let ghost e = eqs.deep_view();
    let mut out: Vec<(Type, Type)> = Vec::new();
    for i in 0..eqs.len()
        invariant
            e == eqs.deep_view(),
            out@.len() == i,
            forall|j: int|
                0 <= j < i ==> (#[trigger] out@[j]).deep_view() == (
                    subst(only(x, t.deep_view()), e[j].0),
                    subst(only(x, t.deep_view()), e[j].1),
                ),
    {
        let a = replace(x, t, &eqs[i].0);
        let b = replace(x, t, &eqs[i].1);
        assert(e[i as int] == eqs@[i as int].deep_view());
        out.push((a, b));
    }
    assert(out.deep_view() =~= replaced_in(x, t.deep_view(), e));
    out
}

/// Puts the pairs of what stands in the same place behind the others.
fn push_pairs(eqs: &mut Vec<(Type, Type)>, v: &Vec<Type>, w: &Vec<Type>)
    requires
        v@.len() == w@.len(),
    ensures
        final(eqs).deep_view() == old(eqs).deep_view() + paired(v.deep_view(), w.deep_view()),
{
    let ghost e = eqs.deep_view();
    let ghost p = paired(v.deep_view(), w.deep_view());
    proof {
        assert(e + p.take(0) =~= e);
    }
    for i in 0..v.len()
        invariant
            v@.len() == w@.len(),
            p == paired(v.deep_view(), w.deep_view()),
            eqs.deep_view() == e + p.take(i as int),
    {
        let ghost before = eqs.deep_view();
        eqs.push((v[i].dup(), w[i].dup()));
        proof {
            assert(eqs.deep_view() =~= before.push(p[i as int]));
            assert(p.take(i + 1) =~= p.take(i as int).push(p[i as int]));
            assert(e + p.take(i + 1) =~= before.push(p[i as int]));
        }
    }
    assert(p.take(v@.len() as int) =~= p);
}

/// Makes two types equal: tells whether they can be, and then holds in `s` what
/// has become known of the `n` variables.
pub fn unify(n: u64, s: &mut Table<u64, Type>, a: &Type, b: &Type) -> (r: bool)
    ensures
        match unified(n, old(s).deep_view(), a.deep_view(), b.deep_view()) {
            Some(z) => r && final(s).deep_view() == z,
            None => !r,
        },
{
    let mut eqs: Vec<(Type, Type)> = Vec::new();
    eqs.push((find(s, a), find(s, b)));
    let ghost whole = unified(n, s.deep_view(), a.deep_view(), b.deep_view());
    proof {
        assert(eqs.deep_view() =~= seq![
            (found(s.deep_view(), a.deep_view()), found(s.deep_view(), b.deep_view())),
        ]);
    }
    while eqs.len() > 0
        invariant
            whole == unified(n, old(s).deep_view(), a.deep_view(), b.deep_view()),
            whole == solve(n, s.deep_view(), eqs.deep_view()),
        decreases unknown(s.deep_view(), n as nat), weight(eqs.deep_view()),
    {
        let ghost e = eqs.deep_view();
        let ghost s0 = s.deep_view();
        let (x, y) = eqs.pop().unwrap();
        let ghost rest = eqs.deep_view();
        proof {
            assert(rest =~= e.drop_last());
            assert(e.last() == (x.deep_view(), y.deep_view()));
            types::lemma_ty_model(x);
            types::lemma_ty_model(y);
            lemma_size_positive(x.deep_view());
            lemma_size_positive(y.deep_view());
        }
        if x.same(&y) {
            continue;
        }
        match (x, y) {
            (Type::TypeVar(v), t) => {
                if v < n && !s.contains_key(&v) && !occurs_in(v, &t) {
                    proof {
                        lemma_bind_unknown(s0, v, t.deep_view(), n as nat);
                    }
                    eqs = replace_pairs(v, &t, &eqs);
                    bind_var(s, v, t);
                } else {
                    return false;
                }
            },
            (t, Type::TypeVar(v)) => {
                if v < n && !s.contains_key(&v) && !occurs_in(v, &t) {
                    proof {
                        lemma_bind_unknown(s0, v, t.deep_view(), n as nat);
                    }
                    eqs = replace_pairs(v, &t, &eqs);
                    bind_var(s, v, t);
                } else {
                    return false;
                }
            },
            (Type::Fun(v, r), Type::Fun(w, q)) => {
                if v.len() != w.len() {
                    return false;
                }
                proof {
                    let v1 = v.deep_view();
                    let w1 = w.deep_view();
                    lemma_weight_paired(rest, v1, w1);
                    lemma_weight_push(rest + paired(v1, w1), r.deep_view(), q.deep_view());
                    reveal(size);
                    reveal(sizes);
                }
                push_pairs(&mut eqs, &v, &w);
                let ghost before = eqs.deep_view();
                let ghost last = (r.deep_view(), q.deep_view());
                eqs.push((*r, *q));
                assert(eqs.deep_view() =~= before.push(last));
            },
            (Type::Vector(v), Type::Vector(w)) => {
                if v.len() != w.len() {
                    return false;
                }
                proof {
                    lemma_weight_paired(rest, v.deep_view(), w.deep_view());
                    reveal(size);
                    reveal(sizes);
                }
                push_pairs(&mut eqs, &v, &w);
            },
            _ => {
                return false;
            },
        }
    }
    true
}

} // verus!
