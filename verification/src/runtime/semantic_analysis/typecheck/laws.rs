//! Laws of making types equal.

use crate::runtime::semantic_analysis::typecheck::types::TyM;
use crate::runtime::semantic_analysis::typecheck::unify;
use crate::runtime::semantic_analysis::typecheck::unify::{PairsM, SubstM};
use crate::runtime::table;
use vstd::prelude::*;

verus! {

/// Whether a choice of types for the variables agrees with what is known.
pub open spec fn satisfies(u: spec_fn(u64) -> TyM, s: SubstM) -> bool {
    forall|x: u64| #[trigger]
        table::bound(s, x) ==> u(x) == unify::subst(u, table::get(s, x)->Some_0)
}

/// Whether a choice of types for the variables makes all pairs equal.
pub open spec fn equates(u: spec_fn(u64) -> TyM, eqs: PairsM) -> bool {
    forall|i: int|
        0 <= i < eqs.len() ==> unify::subst(u, (#[trigger] eqs[i]).0) == unify::subst(
            u,
            eqs[i].1,
        )
}

/// Whether a type has only the first `n` variables, and none of which something
/// is known.
#[verifier::opaque]
pub open spec fn open_in(n: u64, s: SubstM, t: TyM) -> bool {
    forall|x: u64| #[trigger] unify::occurs(x, t) ==> x < n && !table::bound(s, x)
}

/// Whether what is known of variables does not itself hold such variables, and
/// holds only the first `n`.
pub open spec fn solved_form(n: u64, s: SubstM) -> bool {
    forall|x: u64| #[trigger]
        table::bound(s, x) ==> x < n && open_in(n, s, table::get(s, x)->Some_0)
}

/// Whether all pairs are made of such types.
pub open spec fn pairs_open(n: u64, s: SubstM, eqs: PairsM) -> bool {
    forall|i: int|
        0 <= i < eqs.len() ==> open_in(n, s, (#[trigger] eqs[i]).0) && open_in(n, s, eqs[i].1)
}

/// What the places of replaced types hold.
pub proof fn lemma_subst_all(f: spec_fn(u64) -> TyM, v: Seq<TyM>, n: nat)
    requires
        n <= v.len(),
    ensures
        unify::subst_all(f, v, n).len() == n,
        forall|i: int|
            0 <= i < n ==> #[trigger] unify::subst_all(f, v, n)[i] == unify::subst(f, v[i]),
    decreases n,
{
    reveal(unify::subst_all);
    reveal(unify::subst);
    if n > 0 {
        lemma_subst_all(f, v, (n - 1) as nat);
    }
}

/// Choices that agree on the variables of a type give the same type.
pub proof fn lemma_subst_agree(f: spec_fn(u64) -> TyM, g: spec_fn(u64) -> TyM, t: TyM)
    requires
        forall|x: u64| #[trigger] unify::occurs(x, t) ==> f(x) == g(x),
    ensures
        unify::subst(f, t) == unify::subst(g, t),
    decreases t, 0nat,
{
    reveal(unify::subst);
    reveal(unify::subst_all);
    reveal(unify::occurs);
    reveal(unify::occurs_in_any);
    match t {
        TyM::TypeVar(x) => {
            assert(unify::occurs(x, t));
        },
        TyM::Fun(v, r) => {
            assert forall|x: u64| #[trigger] unify::occurs(x, *r) implies f(x) == g(x) by {
                assert(unify::occurs(x, t));
            }
            lemma_subst_agree(f, g, *r);
            assert forall|x: u64| #[trigger] unify::occurs_in_any(x, v) implies f(x) == g(x) by {
                assert(unify::occurs(x, t));
            }
            lemma_agree_all(f, g, v);
        },
        TyM::Vector(v) => {
            assert forall|x: u64| #[trigger] unify::occurs_in_any(x, v) implies f(x) == g(x) by {
                assert(unify::occurs(x, t));
            }
            lemma_agree_all(f, g, v);
        },
        _ => {},
    }
}

proof fn lemma_agree_all(f: spec_fn(u64) -> TyM, g: spec_fn(u64) -> TyM, v: Seq<TyM>)
    requires
        forall|x: u64| #[trigger] unify::occurs_in_any(x, v) ==> f(x) == g(x),
    ensures
        unify::subst_all(f, v, v.len()) == unify::subst_all(g, v, v.len()),
    decreases v, 0nat,
{
    lemma_subst_all(f, v, v.len());
    lemma_subst_all(g, v, v.len());
    assert forall|i: int| 0 <= i < v.len() implies unify::subst(f, #[trigger] v[i])
        == unify::subst(g, v[i]) by {
        assert forall|x: u64| #[trigger] unify::occurs(x, v[i]) implies f(x) == g(x) by {
            reveal(unify::occurs_in_any);
            reveal(unify::occurs);
            assert(unify::occurs_in_any(x, v));
        }
        lemma_subst_agree(f, g, v[i]);
    }
    assert(unify::subst_all(f, v, v.len()) =~= unify::subst_all(g, v, v.len()));
}

/// Each variable standing for itself changes nothing.
pub proof fn lemma_subst_identity(t: TyM)
    ensures
        unify::subst(|x: u64| TyM::TypeVar(x), t) == t,
    decreases t, 0nat,
{
    reveal(unify::subst);
    reveal(unify::subst_all);
    match t {
        TyM::Fun(v, r) => {
            lemma_subst_identity(*r);
            lemma_identity_all(v);
        },
        TyM::Vector(v) => {
            lemma_identity_all(v);
        },
        _ => {},
    }
}

proof fn lemma_identity_all(v: Seq<TyM>)
    ensures
        unify::subst_all(|x: u64| TyM::TypeVar(x), v, v.len()) == v,
    decreases v, 0nat,
{
    lemma_subst_all(|x: u64| TyM::TypeVar(x), v, v.len());
    assert forall|i: int| 0 <= i < v.len() implies unify::subst(
        |x: u64| TyM::TypeVar(x),
        #[trigger] v[i],
    ) == v[i] by {
        lemma_subst_identity(v[i]);
    }
    assert(unify::subst_all(|x: u64| TyM::TypeVar(x), v, v.len()) =~= v);
}

/// One choice after another is a choice.
pub open spec fn after(g: spec_fn(u64) -> TyM, f: spec_fn(u64) -> TyM) -> spec_fn(u64) -> TyM {
    |x: u64| unify::subst(g, f(x))
}

/// Replacing twice is replacing once, by one choice after another.
pub proof fn lemma_subst_twice(g: spec_fn(u64) -> TyM, f: spec_fn(u64) -> TyM, t: TyM)
    ensures
        unify::subst(g, unify::subst(f, t)) == unify::subst(after(g, f), t),
    decreases t, 0nat,
{
    reveal(unify::subst);
    reveal(unify::subst_all);
    match t {
        TyM::Fun(v, r) => {
            lemma_subst_twice(g, f, *r);
            lemma_twice_all(g, f, v);
        },
        TyM::Vector(v) => {
            lemma_twice_all(g, f, v);
        },
        _ => {},
    }
}

proof fn lemma_twice_all(g: spec_fn(u64) -> TyM, f: spec_fn(u64) -> TyM, v: Seq<TyM>)
    ensures
        ({
            let w = unify::subst_all(f, v, v.len());
            unify::subst_all(g, w, w.len()) == unify::subst_all(after(g, f), v, v.len())
        }),
    decreases v, 0nat,
{
    let w = unify::subst_all(f, v, v.len());
    lemma_subst_all(f, v, v.len());
    lemma_subst_all(g, w, w.len());
    lemma_subst_all(after(g, f), v, v.len());
    assert forall|i: int| 0 <= i < v.len() implies unify::subst(g, unify::subst(f, #[trigger] v[i]))
        == unify::subst(after(g, f), v[i]) by {
        lemma_subst_twice(g, f, v[i]);
    }
    assert forall|i: int| 0 <= i < v.len() implies #[trigger] unify::subst_all(g, w, w.len())[i]
        == unify::subst_all(after(g, f), v, v.len())[i] by {
        assert(w[i] == unify::subst(f, v[i]));
    }
    assert(unify::subst_all(g, w, w.len()) =~= unify::subst_all(after(g, f), v, v.len()));
}

/// A type in which nothing is known is found to be itself.
pub proof fn lemma_found_open(n: u64, s: SubstM, t: TyM)
    requires
        open_in(n, s, t),
    ensures
        unify::found(s, t) == t,
{
    reveal(open_in);
    lemma_subst_agree(unify::known(s), |y: u64| TyM::TypeVar(y), t);
    lemma_subst_identity(t);
}

/// A choice that makes one variable what it is known to be does not see whether
/// that variable was replaced.
pub proof fn lemma_through(u: spec_fn(u64) -> TyM, x: u64, r: TyM, t: TyM)
    requires
        u(x) == unify::subst(u, r),
    ensures
        unify::subst(u, unify::subst(unify::only(x, r), t)) == unify::subst(u, t),
{
    reveal(unify::subst);
    lemma_subst_twice(u, unify::only(x, r), t);
    assert(after(u, unify::only(x, r)) =~= u) by {
        assert forall|y: u64| #[trigger] after(u, unify::only(x, r))(y) == u(y) by {}
    }
}

/// A choice that agrees with what is known does not see whether it was put in.
pub proof fn lemma_through_found(u: spec_fn(u64) -> TyM, s: SubstM, t: TyM)
    requires
        satisfies(u, s),
    ensures
        unify::subst(u, unify::found(s, t)) == unify::subst(u, t),
{
    reveal(unify::subst);
    lemma_subst_twice(u, unify::known(s), t);
    assert(after(u, unify::known(s)) =~= u) by {
        assert forall|y: u64| #[trigger] after(u, unify::known(s))(y) == u(y) by {
            assert(table::bound(s, y) || !table::bound(s, y));
        }
    }
}

/// What occurs in a type with a variable replaced.
pub proof fn lemma_occurs_only(y: u64, x: u64, r: TyM, t: TyM)
    requires
        unify::occurs(y, unify::subst(unify::only(x, r), t)),
    ensures
        unify::occurs(y, r) || (y != x && unify::occurs(y, t)),
        unify::occurs(y, r) || unify::occurs(y, t),
    decreases t, 0nat,
{
    reveal(unify::subst);
    reveal(unify::subst_all);
    reveal(unify::occurs);
    reveal(unify::occurs_in_any);
    match t {
        TyM::Fun(v, q) => {
            if unify::occurs(y, unify::subst(unify::only(x, r), *q)) {
                lemma_occurs_only(y, x, r, *q);
            } else {
                lemma_occurs_among(y, x, r, v);
            }
        },
        TyM::Vector(v) => {
            lemma_occurs_among(y, x, r, v);
        },
        _ => {},
    }
}

proof fn lemma_occurs_among(y: u64, x: u64, r: TyM, v: Seq<TyM>)
    requires
        unify::occurs_in_any(y, unify::subst_all(unify::only(x, r), v, v.len())),
    ensures
        unify::occurs(y, r) || (y != x && unify::occurs_in_any(y, v)),
    decreases v, 0nat,
{
    reveal(unify::occurs);
    reveal(unify::occurs_in_any);
    let w = unify::subst_all(unify::only(x, r), v, v.len());
    lemma_subst_all(unify::only(x, r), v, v.len());
    let i = choose|i: int| 0 <= i < w.len() && unify::occurs(y, #[trigger] w[i]);
    assert(w[i] == unify::subst(unify::only(x, r), v[i]));
    lemma_occurs_only(y, x, r, v[i]);
}

/// Binding a variable keeps types open, once it is replaced in them.
proof fn lemma_open_bound(n: u64, s: SubstM, x: u64, r: TyM, t: TyM)
    requires
        unify::can_bind(n, s, x, r),
        open_in(n, s, r),
        open_in(n, s, t),
    ensures
        open_in(n, unify::bind(s, x, r), unify::subst(unify::only(x, r), t)),
        open_in(n, unify::bind(s, x, r), r),
{
    reveal(open_in);
    let z = unify::bind(s, x, r);
    let w = unify::subst(unify::only(x, r), t);
    assert forall|y: u64| #[trigger] unify::occurs(y, w) implies y < n && !table::bound(z, y) by {
        lemma_occurs_only(y, x, r, t);
        unify::lemma_bind_slot(s, x, r, y);
    }
    assert forall|y: u64| #[trigger] unify::occurs(y, r) implies y < n && !table::bound(z, y) by {
        unify::lemma_bind_slot(s, x, r, y);
    }
}

/// Binding a variable says that it is what it is bound to, and nothing else.
proof fn lemma_bind_satisfied(n: u64, s: SubstM, x: u64, r: TyM, u: spec_fn(u64) -> TyM)
    requires
        unify::can_bind(n, s, x, r),
    ensures
        satisfies(u, unify::bind(s, x, r)) <==> satisfies(u, s) && u(x) == unify::subst(u, r),
{
    let z = unify::bind(s, x, r);
    if satisfies(u, z) {
        unify::lemma_bind_slot(s, x, r, x);
        assert(table::bound(z, x));
        assert(u(x) == unify::subst(u, r));
        assert forall|y: u64| #[trigger] table::bound(s, y) implies u(y) == unify::subst(
            u,
            table::get(s, y)->Some_0,
        ) by {
            unify::lemma_bind_slot(s, x, r, y);
            assert(table::bound(z, y));
            lemma_through(u, x, r, table::get(s, y)->Some_0);
        }
    }
    if satisfies(u, s) && u(x) == unify::subst(u, r) {
        assert forall|y: u64| #[trigger] table::bound(z, y) implies u(y) == unify::subst(
            u,
            table::get(z, y)->Some_0,
        ) by {
            unify::lemma_bind_slot(s, x, r, y);
            if y != x {
                assert(table::bound(s, y));
                lemma_through(u, x, r, table::get(s, y)->Some_0);
            }
        }
    }
}

/// Binding a variable keeps what is known in solved form.
proof fn lemma_bind_solved(n: u64, s: SubstM, x: u64, r: TyM)
    requires
        solved_form(n, s),
        unify::can_bind(n, s, x, r),
        open_in(n, s, r),
    ensures
        solved_form(n, unify::bind(s, x, r)),
{
    let z = unify::bind(s, x, r);
    assert forall|y: u64| #[trigger] table::bound(z, y) implies y < n && open_in(
        n,
        z,
        table::get(z, y)->Some_0,
    ) by {
        unify::lemma_bind_slot(s, x, r, y);
        if y == x {
            lemma_open_bound(n, s, x, r, r);
        } else {
            assert(table::bound(s, y));
            lemma_open_bound(n, s, x, r, table::get(s, y)->Some_0);
        }
    }
}

/// A type that holds a variable is larger than what stands for the variable.
pub proof fn lemma_larger(u: spec_fn(u64) -> TyM, x: u64, t: TyM)
    requires
        unify::occurs(x, t),
    ensures
        unify::size(unify::subst(u, t)) >= unify::size(u(x)),
        t != TyM::TypeVar(x) ==> unify::size(unify::subst(u, t)) > unify::size(u(x)),
    decreases t, 0nat,
{
    reveal(unify::subst);
    reveal(unify::subst_all);
    reveal(unify::occurs);
    reveal(unify::occurs_in_any);
    reveal(unify::size);
    reveal(unify::sizes);
    match t {
        TyM::Fun(v, r) => {
            if unify::occurs(x, *r) {
                lemma_larger(u, x, *r);
            } else {
                lemma_larger_among(u, x, v);
            }
        },
        TyM::Vector(v) => {
            lemma_larger_among(u, x, v);
        },
        _ => {},
    }
}

proof fn lemma_larger_among(u: spec_fn(u64) -> TyM, x: u64, v: Seq<TyM>)
    requires
        unify::occurs_in_any(x, v),
    ensures
        ({
            let w = unify::subst_all(u, v, v.len());
            unify::sizes(w, w.len()) >= unify::size(u(x))
        }),
    decreases v, 0nat,
{
    reveal(unify::occurs);
    reveal(unify::occurs_in_any);
    let w = unify::subst_all(u, v, v.len());
    lemma_subst_all(u, v, v.len());
    let i = choose|i: int| 0 <= i < v.len() && unify::occurs(x, #[trigger] v[i]);
    assert(w[i] == unify::subst(u, v[i]));
    lemma_larger(u, x, v[i]);
    lemma_size_at(w, i, w.len());
}

/// A list of types is at least as large as each of them.
proof fn lemma_size_at(v: Seq<TyM>, i: int, n: nat)
    requires
        0 <= i < n <= v.len(),
    ensures
        unify::sizes(v, n) >= unify::size(v[i]),
    decreases n,
{
    reveal(unify::sizes);
    reveal(unify::size);
    if i < n - 1 {
        lemma_size_at(v, i, (n - 1) as nat);
    }
}

/// The last of several pairs, and the others.
proof fn lemma_equates_last(u: spec_fn(u64) -> TyM, eqs: PairsM)
    requires
        eqs.len() > 0,
    ensures
        equates(u, eqs) <==> equates(u, eqs.drop_last()) && unify::subst(u, eqs.last().0)
            == unify::subst(u, eqs.last().1),
{
    let rest = eqs.drop_last();
    if equates(u, eqs) {
        assert forall|i: int| 0 <= i < rest.len() implies unify::subst(u, (#[trigger] rest[i]).0)
            == unify::subst(u, rest[i].1) by {
            assert(rest[i] == eqs[i]);
        }
        assert(eqs[eqs.len() - 1] == eqs.last());
    }
    if equates(u, rest) && unify::subst(u, eqs.last().0) == unify::subst(u, eqs.last().1) {
        assert forall|i: int| 0 <= i < eqs.len() implies unify::subst(u, (#[trigger] eqs[i]).0)
            == unify::subst(u, eqs[i].1) by {
            if i < rest.len() {
                assert(rest[i] == eqs[i]);
            }
        }
    }
}

/// Pairs of parts.
proof fn lemma_equates_paired(u: spec_fn(u64) -> TyM, eqs: PairsM, v: Seq<TyM>, w: Seq<TyM>)
    requires
        v.len() == w.len(),
    ensures
        equates(u, eqs + unify::paired(v, w)) <==> equates(u, eqs) && unify::subst_all(
            u,
            v,
            v.len(),
        ) == unify::subst_all(u, w, w.len()),
{
    let p = unify::paired(v, w);
    let all = eqs + p;
    lemma_subst_all(u, v, v.len());
    lemma_subst_all(u, w, w.len());
    let a = unify::subst_all(u, v, v.len());
    let b = unify::subst_all(u, w, w.len());
    if equates(u, all) {
        assert forall|i: int| 0 <= i < eqs.len() implies unify::subst(u, (#[trigger] eqs[i]).0)
            == unify::subst(u, eqs[i].1) by {
            assert(all[i] == eqs[i]);
        }
        assert forall|i: int| 0 <= i < v.len() implies #[trigger] a[i] == b[i] by {
            assert(all[eqs.len() + i] == (v[i], w[i]));
        }
        assert(a =~= b);
    }
    if equates(u, eqs) && a == b {
        assert forall|i: int| 0 <= i < all.len() implies unify::subst(u, (#[trigger] all[i]).0)
            == unify::subst(u, all[i].1) by {
            if i < eqs.len() {
                assert(all[i] == eqs[i]);
            } else {
                let j = i - eqs.len();
                assert(all[i] == (v[j], w[j]));
                assert(a[j] == b[j]);
            }
        }
    }
}

/// Pairs with a variable replaced by what it is.
proof fn lemma_equates_replaced(u: spec_fn(u64) -> TyM, x: u64, r: TyM, eqs: PairsM)
    requires
        u(x) == unify::subst(u, r),
    ensures
        equates(u, unify::replaced_in(x, r, eqs)) <==> equates(u, eqs),
{
    let z = unify::replaced_in(x, r, eqs);
    assert forall|i: int| 0 <= i < eqs.len() implies unify::subst(u, (#[trigger] z[i]).0)
        == unify::subst(u, eqs[i].0) && unify::subst(u, z[i].1) == unify::subst(u, eqs[i].1) by {
        lemma_through(u, x, r, eqs[i].0);
        lemma_through(u, x, r, eqs[i].1);
    }
    if equates(u, z) {
        assert forall|i: int| 0 <= i < eqs.len() implies unify::subst(u, (#[trigger] eqs[i]).0)
            == unify::subst(u, eqs[i].1) by {
            assert(unify::subst(u, z[i].0) == unify::subst(u, z[i].1));
        }
    }
    if equates(u, eqs) {
        assert forall|i: int| 0 <= i < z.len() implies unify::subst(u, (#[trigger] z[i]).0)
            == unify::subst(u, z[i].1) by {
            assert(unify::subst(u, eqs[i].0) == unify::subst(u, eqs[i].1));
        }
    }
}

/// The parts of an open type are open.
proof fn lemma_open_parts(n: u64, s: SubstM, t: TyM)
    requires
        open_in(n, s, t),
    ensures
        t matches TyM::Vector(v) ==> forall|i: int|
            0 <= i < v.len() ==> open_in(n, s, #[trigger] v[i]),
        t matches TyM::Fun(v, r) ==> open_in(n, s, *r) && forall|i: int|
            0 <= i < v.len() ==> open_in(n, s, #[trigger] v[i]),
{
    reveal(open_in);
    reveal(unify::occurs);
    reveal(unify::occurs_in_any);
    match t {
        TyM::Vector(v) => {
            assert forall|i: int| 0 <= i < v.len() implies open_in(n, s, #[trigger] v[i]) by {
                assert forall|x: u64| #[trigger] unify::occurs(x, v[i]) implies x < n
                    && !table::bound(s, x) by {
                    assert(unify::occurs_in_any(x, v));
                    assert(unify::occurs(x, t));
                }
            }
        },
        TyM::Fun(v, r) => {
            assert forall|i: int| 0 <= i < v.len() implies open_in(n, s, #[trigger] v[i]) by {
                assert forall|x: u64| #[trigger] unify::occurs(x, v[i]) implies x < n
                    && !table::bound(s, x) by {
                    assert(unify::occurs_in_any(x, v));
                    assert(unify::occurs(x, t));
                }
            }
            assert forall|x: u64| #[trigger] unify::occurs(x, *r) implies x < n && !table::bound(
                s,
                x,
            ) by {
                assert(unify::occurs(x, t));
            }
        },
        _ => {},
    }
}

/// Binding a variable keeps pairs open.
proof fn lemma_pairs_bound(n: u64, s: SubstM, x: u64, r: TyM, eqs: PairsM)
    requires
        unify::can_bind(n, s, x, r),
        open_in(n, s, r),
        pairs_open(n, s, eqs),
    ensures
        pairs_open(n, unify::bind(s, x, r), unify::replaced_in(x, r, eqs)),
{
    let z = unify::replaced_in(x, r, eqs);
    assert forall|i: int| 0 <= i < z.len() implies open_in(
        n,
        unify::bind(s, x, r),
        (#[trigger] z[i]).0,
    ) && open_in(n, unify::bind(s, x, r), z[i].1) by {
        assert(open_in(n, s, eqs[i].0) && open_in(n, s, eqs[i].1));
        lemma_open_bound(n, s, x, r, eqs[i].0);
        lemma_open_bound(n, s, x, r, eqs[i].1);
    }
}

/// Whether the outcome is right for a choice: what is known afterwards agrees
/// with it just where what was known does and the pairs are equal.
pub open spec fn right_for(
    z: Option<SubstM>,
    s: SubstM,
    eqs: PairsM,
    u: spec_fn(u64) -> TyM,
) -> bool {
    match z {
        Some(z) => satisfies(u, z) <==> satisfies(u, s) && equates(u, eqs),
        None => !(satisfies(u, s) && equates(u, eqs)),
    }
}

/// Solving finds what makes all pairs equal and nothing more, and fails only
/// where nothing makes them equal.
pub proof fn law_solve(n: u64, s: SubstM, eqs: PairsM, u: spec_fn(u64) -> TyM)
    requires
        solved_form(n, s),
        pairs_open(n, s, eqs),
    ensures
        right_for(unify::solve(n, s, eqs), s, eqs, u),
        unify::solve(n, s, eqs) matches Some(z) ==> solved_form(n, z),
    decreases unify::unknown(s, n as nat), unify::weight(eqs),
{
    if eqs.len() > 0 {
        let (a, b) = eqs.last();
        let rest = eqs.drop_last();
        unify::lemma_size_positive(a);
        unify::lemma_size_positive(b);
        lemma_equates_last(u, eqs);
        assert(eqs[eqs.len() - 1] == eqs.last());
        assert(open_in(n, s, a) && open_in(n, s, b));
        assert(pairs_open(n, s, rest)) by {
            assert forall|i: int| 0 <= i < rest.len() implies open_in(n, s, (#[trigger] rest[i]).0)
                && open_in(n, s, rest[i].1) by {
                assert(rest[i] == eqs[i]);
            }
        }
        if a == b {
            law_solve(n, s, rest, u);
        } else {
            lemma_open_parts(n, s, a);
            lemma_open_parts(n, s, b);
            match (a, b) {
                (TyM::TypeVar(x), _) => {
                    lemma_solve_var(n, s, rest, x, b, u);
                },
                (_, TyM::TypeVar(x)) => {
                    lemma_solve_var(n, s, rest, x, a, u);
                },
                (TyM::Fun(v, r), TyM::Fun(w, q)) => {
                    lemma_subst_all(u, v, v.len());
                    lemma_subst_all(u, w, w.len());
                    reveal(unify::subst);
                    reveal(unify::subst_all);
                    if v.len() == w.len() {
                        unify::lemma_weight_paired(rest, v, w);
                        let p = rest + unify::paired(v, w);
                        unify::lemma_weight_push(p, *r, *q);
                        reveal(unify::size);
                        reveal(unify::sizes);
                        let all = p.push((*r, *q));
                        lemma_equates_paired(u, rest, v, w);
                        lemma_equates_last(u, all);
                        assert(all.drop_last() =~= p);
                        assert(pairs_open(n, s, all)) by {
                            assert forall|i: int| 0 <= i < all.len() implies open_in(
                                n,
                                s,
                                (#[trigger] all[i]).0,
                            ) && open_in(n, s, all[i].1) by {
                                if i < rest.len() {
                                    assert(all[i] == rest[i]);
                                } else if i < p.len() {
                                    let j = i - rest.len();
                                    assert(all[i] == (v[j], w[j]));
                                }
                            }
                        }
                        law_solve(n, s, all, u);
                    }
                },
                (TyM::Vector(v), TyM::Vector(w)) => {
                    lemma_subst_all(u, v, v.len());
                    lemma_subst_all(u, w, w.len());
                    reveal(unify::subst);
                    reveal(unify::subst_all);
                    if v.len() == w.len() {
                        unify::lemma_weight_paired(rest, v, w);
                        let p = rest + unify::paired(v, w);
                        reveal(unify::size);
                        reveal(unify::sizes);
                        lemma_equates_paired(u, rest, v, w);
                        assert(pairs_open(n, s, p)) by {
                            assert forall|i: int| 0 <= i < p.len() implies open_in(
                                n,
                                s,
                                (#[trigger] p[i]).0,
                            ) && open_in(n, s, p[i].1) by {
                                if i < rest.len() {
                                    assert(p[i] == rest[i]);
                                } else {
                                    let j = i - rest.len();
                                    assert(p[i] == (v[j], w[j]));
                                }
                            }
                        }
                        law_solve(n, s, p, u);
                    }
                },
                _ => {
                    reveal(unify::subst);
                },
            }
        }
    }
}

/// A variable meets another type.
proof fn lemma_solve_var(
    n: u64,
    s: SubstM,
    rest: PairsM,
    x: u64,
    r: TyM,
    u: spec_fn(u64) -> TyM,
)
    requires
        solved_form(n, s),
        pairs_open(n, s, rest),
        open_in(n, s, TyM::TypeVar(x)),
        open_in(n, s, r),
        r != TyM::TypeVar(x),
    ensures
        ({
            let z = if unify::can_bind(n, s, x, r) {
                unify::solve(n, unify::bind(s, x, r), unify::replaced_in(x, r, rest))
            } else {
                None
            };
            &&& match z {
                Some(z) => satisfies(u, z) <==> satisfies(u, s) && equates(u, rest)
                    && unify::subst(u, TyM::TypeVar(x)) == unify::subst(u, r),
                None => !(satisfies(u, s) && equates(u, rest) && unify::subst(
                    u,
                    TyM::TypeVar(x),
                ) == unify::subst(u, r)),
            }
            &&& z matches Some(z) ==> solved_form(n, z)
        }),
    decreases unify::unknown(s, n as nat), 0nat,
{
    assert(unify::subst(u, TyM::TypeVar(x)) == u(x)) by {
        reveal(unify::subst);
    }
    assert(unify::occurs(x, TyM::TypeVar(x))) by {
        reveal(unify::occurs);
    }
    assert(x < n && !table::bound(s, x)) by {
        reveal(open_in);
    }
    if unify::occurs(x, r) {
        lemma_larger(u, x, r);
    } else {
        unify::lemma_bind_unknown(s, x, r, n as nat);
        lemma_bind_solved(n, s, x, r);
        lemma_pairs_bound(n, s, x, r, rest);
        lemma_bind_satisfied(n, s, x, r, u);
        law_solve(n, unify::bind(s, x, r), unify::replaced_in(x, r, rest), u);
        if u(x) == unify::subst(u, r) {
            lemma_equates_replaced(u, x, r, rest);
        }
    }
}

/// What is known agrees with itself.
pub proof fn lemma_known_satisfies(n: u64, s: SubstM)
    requires
        solved_form(n, s),
    ensures
        satisfies(unify::known(s), s),
{
    assert forall|x: u64| #[trigger] table::bound(s, x) implies unify::known(s)(x) == unify::subst(
        unify::known(s),
        table::get(s, x)->Some_0,
    ) by {
        lemma_found_open(n, s, table::get(s, x)->Some_0);
    }
}

/// Whether a type has only the first `n` variables.
pub open spec fn within(n: u64, t: TyM) -> bool {
    forall|x: u64| #[trigger] unify::occurs(x, t) ==> x < n
}

/// What is found of a type is open.
pub proof fn lemma_found_is_open(n: u64, s: SubstM, t: TyM)
    requires
        solved_form(n, s),
        within(n, t),
    ensures
        open_in(n, s, unify::found(s, t)),
    decreases t, 0nat,
{
    reveal(open_in);
    let z = unify::found(s, t);
    assert forall|x: u64| #[trigger] unify::occurs(x, z) implies x < n && !table::bound(s, x) by {
        lemma_occurs_found(n, s, t, x);
    }
}

proof fn lemma_occurs_found(n: u64, s: SubstM, t: TyM, x: u64)
    requires
        solved_form(n, s),
        within(n, t),
        unify::occurs(x, unify::found(s, t)),
    ensures
        x < n,
        !table::bound(s, x),
    decreases t, 0nat,
{
    reveal(unify::subst);
    reveal(unify::subst_all);
    reveal(unify::occurs);
    reveal(unify::occurs_in_any);
    match t {
        TyM::TypeVar(y) => {
            assert(unify::occurs(y, t));
            if table::bound(s, y) {
                reveal(open_in);
                assert(open_in(n, s, table::get(s, y)->Some_0));
            }
        },
        TyM::Fun(v, r) => {
            if unify::occurs(x, unify::found(s, *r)) {
                assert forall|y: u64| #[trigger] unify::occurs(y, *r) implies y < n by {
                    assert(unify::occurs(y, t));
                }
                lemma_occurs_found(n, s, *r, x);
            } else {
                assert forall|y: u64| #[trigger] unify::occurs_in_any(y, v) implies y < n by {
                    assert(unify::occurs(y, t));
                }
                lemma_found_among(n, s, v, x);
            }
        },
        TyM::Vector(v) => {
            assert forall|y: u64| #[trigger] unify::occurs_in_any(y, v) implies y < n by {
                assert(unify::occurs(y, t));
            }
            lemma_found_among(n, s, v, x);
        },
        _ => {},
    }
}

proof fn lemma_found_among(n: u64, s: SubstM, v: Seq<TyM>, x: u64)
    requires
        solved_form(n, s),
        forall|y: u64| #[trigger] unify::occurs_in_any(y, v) ==> y < n,
        unify::occurs_in_any(x, unify::subst_all(unify::known(s), v, v.len())),
    ensures
        x < n,
        !table::bound(s, x),
    decreases v, 0nat,
{
    let w = unify::subst_all(unify::known(s), v, v.len());
    lemma_subst_all(unify::known(s), v, v.len());
    reveal(unify::occurs);
    reveal(unify::occurs_in_any);
    let i = choose|i: int| 0 <= i < w.len() && unify::occurs(x, #[trigger] w[i]);
    assert(w[i] == unify::subst(unify::known(s), v[i]));
    assert forall|y: u64| #[trigger] unify::occurs(y, v[i]) implies y < n by {
        assert(unify::occurs_in_any(y, v));
    }
    lemma_occurs_found(n, s, v[i], x);
}

/// Making two types equal finds the most general way: a choice of types for the
/// variables agrees with what is known afterwards just where it agrees with
/// what was known and makes the two types equal. It fails only where no choice
/// does.
pub proof fn law_unify_is_most_general(
    n: u64,
    s: SubstM,
    a: TyM,
    b: TyM,
    u: spec_fn(u64) -> TyM,
)
    requires
        solved_form(n, s),
        within(n, a),
        within(n, b),
    ensures
        match unify::unified(n, s, a, b) {
            Some(z) => solved_form(n, z) && (satisfies(u, z) <==> satisfies(u, s)
                && unify::subst(u, a) == unify::subst(u, b)),
            None => !(satisfies(u, s) && unify::subst(u, a) == unify::subst(u, b)),
        },
{
    let eqs = seq![(unify::found(s, a), unify::found(s, b))];
    lemma_found_is_open(n, s, a);
    lemma_found_is_open(n, s, b);
    law_solve(n, s, eqs, u);
    if satisfies(u, s) {
        lemma_through_found(u, s, a);
        lemma_through_found(u, s, b);
        assert(equates(u, eqs) <==> unify::subst(u, eqs[0].0) == unify::subst(u, eqs[0].1));
    }
}

/// Types that were made equal are found to be the same.
pub proof fn law_unified_are_equal(n: u64, s: SubstM, a: TyM, b: TyM)
    requires
        solved_form(n, s),
        within(n, a),
        within(n, b),
    ensures
        unify::unified(n, s, a, b) matches Some(z) ==> unify::found(z, a) == unify::found(z, b),
{
    if let Some(z) = unify::unified(n, s, a, b) {
        law_unify_is_most_general(n, s, a, b, unify::known(z));
        lemma_known_satisfies(n, z);
    }
}

} // verus!
