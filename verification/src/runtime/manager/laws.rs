//! Laws of transactions and services.

use crate::runtime::ast::model::{ActionStmtM, ValueM};
use crate::runtime::interner::Symbol;
use crate::runtime::interpreter::evaluator::ErrM;
use crate::runtime::manager::isolation;
use crate::runtime::manager::model;
use crate::runtime::manager::model::{EnvM, KeyM, ManagerM, ParkedM, ServiceM, World};
use crate::runtime::manager::quiet;
use crate::runtime::manager::semantics;
use crate::runtime::manager::state;
use crate::runtime::manager::transactions;
use crate::runtime::manager::transactions::MAX_WAIT_DIE_RETRIES;
use crate::runtime::table;
use crate::runtime::txn;
use crate::runtime::txn::{LockM, TxnId, TxnM, VarStateM};
use vstd::prelude::*;

verus! {

/// Whether no two services have the same name or the same identity, and no two
/// members of a service have the same name.
pub open spec fn well_formed(m: ManagerM) -> bool {
    &&& table::keys_distinct(m.services)
    &&& forall|i: int, j: int|
        0 <= i < j < m.services.len() ==> (#[trigger] m.services[i]).1.id != (
        #[trigger] m.services[j]).1.id
    &&& forall|i: int|
        0 <= i < m.services.len() ==> table::keys_distinct((#[trigger] m.services[i]).1.vars)
}

/// Whether two identities are those of one transaction, tried several times.
pub open spec fn same_origin(a: TxnId, b: TxnId) -> bool {
    a.timestamp == b.timestamp && a.node_id == b.node_id
}

/// Whether the transaction holds no lock, whatever the round.
pub open spec fn holds_nothing(m: ManagerM, t: TxnId) -> bool {
    forall|i: int, j: int, q: TxnId|
        #![trigger m.services[i].1.vars[j], same_origin(q, t)]
        0 <= i < m.services.len() && 0 <= j < m.services[i].1.vars.len() && same_origin(q, t)
            ==> !m.services[i].1.vars[j].1.lock.holders().contains(q)
}

/// The shape of a node carries over.
proof fn lemma_well_formed_kept(a: ManagerM, b: ManagerM, t: Option<TxnId>)
    requires
        isolation::kept(a, b, t),
        well_formed(a),
    ensures
        well_formed(b),
{
    reveal(isolation::kept);
    assert forall|i: int, j: int| 0 <= i < j < b.services.len() implies (
    #[trigger] b.services[i]).0 != (#[trigger] b.services[j]).0 by {
        assert(a.services[i].0 != a.services[j].0);
    }
    assert forall|i: int, j: int| 0 <= i < j < b.services.len() implies (
    #[trigger] b.services[i]).1.id != (#[trigger] b.services[j]).1.id by {
        assert(isolation::service_kept(a.services[i].1, b.services[i].1, t));
        assert(isolation::service_kept(a.services[j].1, b.services[j].1, t));
        assert(a.services[i].1.id != a.services[j].1.id);
    }
    assert forall|i: int| 0 <= i < b.services.len() implies table::keys_distinct(
        (#[trigger] b.services[i]).1.vars,
    ) by {
        let x = a.services[i].1;
        let y = b.services[i].1;
        assert(isolation::service_kept(x, y, t));
        assert(table::keys_distinct(x.vars));
        assert forall|j: int, k: int| 0 <= j < k < y.vars.len() implies (#[trigger] y.vars[j]).0
            != (#[trigger] y.vars[k]).0 by {
            assert(x.vars[j].0 != x.vars[k].0);
        }
    }
}

/// Letting go of locks frees the transaction's own on the listed members, and
/// changes nothing else.
proof fn lemma_release_all(m: ManagerM, locked: Seq<KeyM>, t: TxnId, n: nat)
    requires
        well_formed(m),
        n <= locked.len(),
    ensures
        ({
            let w = model::release_all(m, locked, t, n);
            &&& isolation::kept(m, w, Some(t))
            &&& forall|i: int, j: int|
                #![trigger w.services[i].1.vars[j]]
                0 <= i < w.services.len() && 0 <= j < w.services[i].1.vars.len()
                    && w.services[i].1.vars[j].1.lock.holders().contains(t)
                    ==> m.services[i].1.vars[j].1.lock.holders().contains(t) && !locked.take(
                    n as int,
                ).contains((w.services[i].1.id, w.services[i].1.vars[j].0))
        }),
    decreases n,
{
    let w = model::release_all(m, locked, t, n);
    if n == 0 {
        isolation::lemma_kept_refl(m, Some(t));
        assert(locked.take(0) =~= seq![]);
    } else {
        let p = (n - 1) as nat;
        lemma_release_all(m, locked, t, p);
        let u = model::release_all(m, locked, t, p);
        lemma_well_formed_kept(m, u, Some(t));
        let key = locked[n - 1];
        let k = model::place_of_id(u.services, key.0) as int;
        state::lemma_place_of_id(u.services, key.0);
        isolation::lemma_kept_refl(u, Some(t));
        if k < u.services.len() {
            let s = u.services[k].1;
            table::lemma_slot(s.vars, key.1);
            if let Some(v) = table::get(s.vars, key.1) {
                let v1 = VarStateM { lock: v.lock.released(t), ..v };
                let b = table::slot(s.vars, key.1) as int;
                assert forall|q: TxnId| Some(q) != Some(t) implies (
                #[trigger] v1.lock.holders().contains(q) <==> v.lock.holders().contains(q)) by {
                    txn::law_release_frees(v.lock, t, q);
                }
                txn::law_release_frees(v.lock, t, t);
                let s1 = ServiceM { vars: table::put(s.vars, key.1, v1), ..s };
                assert(isolation::service_kept(s, s1, Some(t)));
                assert(isolation::kept(u, w, Some(t))) by {
                    reveal(isolation::kept);
                }
            }
        }
        isolation::lemma_kept_trans(m, u, w, Some(t));
        assert forall|i: int, j: int|
            #![trigger w.services[i].1.vars[j]]
            0 <= i < w.services.len() && 0 <= j < w.services[i].1.vars.len()
                && w.services[i].1.vars[j].1.lock.holders().contains(
                t,
            ) implies m.services[i].1.vars[j].1.lock.holders().contains(t) && !locked.take(
            n as int,
        ).contains((w.services[i].1.id, w.services[i].1.vars[j].0)) by {
            reveal(isolation::kept);
            let mine = (w.services[i].1.id, w.services[i].1.vars[j].0);
            assert(isolation::service_kept(u.services[i].1, w.services[i].1, Some(t)));
            assert(u.services[i].1.vars[j].1.lock.holders().contains(t)) by {
                if k < u.services.len() && i == k {
                    let s = u.services[k].1;
                    if let Some(v) = table::get(s.vars, key.1) {
                        txn::law_release_frees(v.lock, t, t);
                    }
                }
            }
            if mine == key {
                assert(u.services[i].1.id == key.0);
                assert(k <= i);
                if k < i {
                    assert(u.services[k].1.id == u.services[i].1.id);
                }
                let s = u.services[k].1;
                assert(s.vars[j].0 == key.1);
                table::lemma_bound(s.vars, key.1, j);
                let b = table::slot(s.vars, key.1) as int;
                if b < j {
                    assert(s.vars[b].0 != s.vars[j].0);
                }
                let v = table::get(s.vars, key.1)->Some_0;
                txn::law_release_frees(v.lock, t, t);
                assert(false);
            }
            if locked.take(n as int).contains(mine) {
                let x = choose|x: int| 0 <= x < n && locked.take(n as int)[x] == mine;
                assert(locked.take(p as int)[x] == mine);
                assert(locked.take(p as int).contains(mine));
            }
        }
    }
}

/// A transaction whose list of locks is complete holds none once they are let
/// go of, and nothing else has changed.
proof fn lemma_unlock(a: ManagerM, m: ManagerM, t: TxnM)
    requires
        well_formed(a),
        isolation::kept(a, m, Some(t.id)),
        isolation::covered(m, t),
        holds_nothing(a, t.id),
    ensures
        isolation::kept(a, transactions::unlock(m, t), None),
{
    let w = transactions::unlock(m, t);
    lemma_well_formed_kept(a, m, Some(t.id));
    lemma_release_all(m, t.locked, t.id, t.locked.len());
    isolation::lemma_kept_trans(a, m, w, Some(t.id));
    assert(t.locked.take(t.locked.len() as int) =~= t.locked);
    reveal(isolation::kept);
    reveal(isolation::covered);
    assert forall|i: int| 0 <= i < a.services.len() implies (#[trigger] w.services[i]).0
        == a.services[i].0 && isolation::service_kept(
        a.services[i].1,
        w.services[i].1,
        None,
    ) by {
        let x = a.services[i].1;
        let y = w.services[i].1;
        assert(isolation::service_kept(x, y, Some(t.id)));
        assert(isolation::service_kept(m.services[i].1, y, Some(t.id)));
        assert forall|j: int| 0 <= j < x.vars.len() implies (#[trigger] y.vars[j]).0
            == x.vars[j].0 && isolation::var_kept(
            x.vars[j].1,
            y.vars[j].1,
            table::bound(x.defs, x.vars[j].0),
            None,
        ) by {
            assert(same_origin(t.id, t.id));
            assert(!a.services[i].1.vars[j].1.lock.holders().contains(t.id));
            assert(!w.services[i].1.vars[j].1.lock.holders().contains(t.id)) by {
                if w.services[i].1.vars[j].1.lock.holders().contains(t.id) {
                    assert(m.services[i].1.vars[j].1.lock.holders().contains(t.id));
                    assert(t.locked.contains((m.services[i].1.id, m.services[i].1.vars[j].0)));
                }
            }
        }
    }
}

/// Asking participants to abort keeps what is to be kept.
pub proof fn keep_abort_all(n: nat, addrs: Seq<Seq<char>>, i: nat, tid: TxnId, m: ManagerM)
    ensures
        isolation::kept(m, transactions::abort_all(n, addrs, i, tid, m).1, None),
    decreases addrs.len() - i,
{
    isolation::lemma_kept_refl(m, None);
    if i < addrs.len() {
        let rid = m.next_abort_id;
        let m0 = ManagerM { next_abort_id: rid.wrapping_add(1), ..m };
        isolation::lemma_kept_fields(m, m0, None);
        let msg = crate::net::messages::MessageM::Abort {
            request_id: rid,
            txn_id: tid,
            reply_to: model::reply_addr(m),
        };
        let late = "Timeout waiting for abort acknowledgement"@;
        isolation::keep_send_and_await(n, addrs[i as int], msg, rid, late, m0);
        let (r, m1) = transactions::send_abort(n, addrs[i as int], tid, m);
        isolation::lemma_kept_trans(m, m0, m1, None);
        if r is Ok {
            keep_abort_all(n, addrs, i + 1, tid, m1);
            isolation::lemma_kept_trans(
                m,
                m1,
                transactions::abort_all(n, addrs, i + 1, tid, m1).1,
                None,
            );
        }
    }
}

/// Asking participants to commit keeps what is to be kept.
pub proof fn keep_commit_all(
    n: nat,
    addrs: Seq<Seq<char>>,
    i: nat,
    tid: TxnId,
    failed: Option<ErrM>,
    m: ManagerM,
)
    ensures
        isolation::kept(m, transactions::commit_all(n, addrs, i, tid, failed, m).1, None),
    decreases addrs.len() - i,
{
    isolation::lemma_kept_refl(m, None);
    if i < addrs.len() {
        let rid = m.next_commit_id;
        let m0 = ManagerM { next_commit_id: rid.wrapping_add(1), ..m };
        isolation::lemma_kept_fields(m, m0, None);
        let msg = crate::net::messages::MessageM::Commit {
            request_id: rid,
            txn_id: tid,
            reply_to: model::reply_addr(m),
        };
        let late = "Timeout waiting for commit acknowledgement"@;
        isolation::keep_send_and_await(n, addrs[i as int], msg, rid, late, m0);
        let (r, m1) = transactions::send_commit(n, addrs[i as int], tid, m);
        isolation::lemma_kept_trans(m, m0, m1, None);
        match r {
            Err(ErrM::Suspended) => {},
            Err(x) => {
                keep_commit_all(n, addrs, i + 1, tid, Some(x), m1);
                isolation::lemma_kept_trans(
                    m,
                    m1,
                    transactions::commit_all(n, addrs, i + 1, tid, Some(x), m1).1,
                    None,
                );
            },
            Ok(_) => {
                keep_commit_all(n, addrs, i + 1, tid, failed, m1);
                isolation::lemma_kept_trans(
                    m,
                    m1,
                    transactions::commit_all(n, addrs, i + 1, tid, failed, m1).1,
                    None,
                );
            },
        }
    }
}

/// Where a variable stands.
pub open spec fn var_at(m: ManagerM, i: int, j: int) -> VarStateM {
    m.services[i].1.vars[j].1
}

/// The member at a place.
pub open spec fn key_at(m: ManagerM, i: int, j: int) -> KeyM {
    (m.services[i].1.id, m.services[i].1.vars[j].0)
}

/// Whether there is a variable at a place.
pub open spec fn at(m: ManagerM, i: int, j: int) -> bool {
    0 <= i < m.services.len() && 0 <= j < m.services[i].1.vars.len()
}

/// Whether the variable at a place is the value of a definition.
pub open spec fn is_def_at(m: ManagerM, i: int, j: int) -> bool {
    table::bound(m.services[i].1.defs, m.services[i].1.vars[j].0)
}

/// Whether the writes `writes` by `tid` were applied: each variable has the
/// value and the writer that they say, and the others have what they had. Of
/// the locks only those of `tid` are gone. The values of definitions are left
/// open.
pub open spec fn applied(
    a: ManagerM,
    b: ManagerM,
    writes: Seq<(KeyM, ValueM<Symbol>)>,
    tid: TxnId,
) -> bool {
    &&& b.services.len() == a.services.len()
    &&& forall|i: int|
        0 <= i < a.services.len() ==> (#[trigger] b.services[i]).0 == a.services[i].0
            && b.services[i].1.id == a.services[i].1.id && b.services[i].1.defs
            == a.services[i].1.defs && b.services[i].1.vars.len() == a.services[i].1.vars.len()
    &&& forall|i: int, j: int|
        #![trigger var_at(b, i, j)]
        at(a, i, j) ==> {
            &&& key_at(b, i, j) == key_at(a, i, j)
            &&& forall|q: TxnId| #[trigger]
                var_at(b, i, j).lock.holders().contains(q) <==> q != tid && var_at(
                    a,
                    i,
                    j,
                ).lock.holders().contains(q)
            &&& match table::get(writes, key_at(a, i, j)) {
                Some(v) => var_at(b, i, j).latest_write_txn == Some(tid) && (!is_def_at(a, i, j)
                    ==> var_at(b, i, j).value == v),
                None => var_at(b, i, j).latest_write_txn == var_at(a, i, j).latest_write_txn && (
                !is_def_at(a, i, j) ==> var_at(b, i, j).value == var_at(a, i, j).value),
            }
        }
}

/// Whether writes were stored, and nothing else has changed.
pub open spec fn stored(
    a: ManagerM,
    b: ManagerM,
    writes: Seq<(KeyM, ValueM<Symbol>)>,
    tid: TxnId,
) -> bool {
    &&& b == ManagerM { services: b.services, ..a }
    &&& b.services.len() == a.services.len()
    &&& forall|i: int|
        0 <= i < a.services.len() ==> (#[trigger] b.services[i]).0 == a.services[i].0
            && b.services[i].1 == (ServiceM { vars: b.services[i].1.vars, ..a.services[i].1 })
            && b.services[i].1.vars.len() == a.services[i].1.vars.len()
    &&& forall|i: int, j: int|
        #![trigger b.services[i].1.vars[j]]
        at(a, i, j) ==> b.services[i].1.vars[j].0 == a.services[i].1.vars[j].0 && var_at(b, i, j)
            == (match table::get(writes, key_at(a, i, j)) {
            Some(v) => VarStateM { value: v, latest_write_txn: Some(tid), ..var_at(a, i, j) },
            None => var_at(a, i, j),
        })
}

/// What one more entry adds to a table.
proof fn lemma_get_take<K, V>(s: Seq<(K, V)>, n: nat, q: K)
    requires
        table::keys_distinct(s),
        0 < n <= s.len(),
    ensures
        table::get(s.take(n as int), q) == (if q == s[n - 1].0 {
            Some(s[n - 1].1)
        } else {
            table::get(s.take(n - 1), q)
        }),
{
    let a = s.take(n - 1);
    let b = s.take(n as int);
    table::lemma_slot(a, q);
    table::lemma_slot(b, q);
    if q == s[n - 1].0 {
        assert forall|j: int| 0 <= j < n - 1 implies (#[trigger] b[j]).0 != q by {
            assert(s[j].0 != s[n - 1].0);
        }
        table::lemma_slot_is(b, q, n - 1);
    } else if table::bound(a, q) {
        let k = table::slot(a, q) as int;
        assert forall|j: int| 0 <= j < k implies (#[trigger] b[j]).0 != q by {
            assert(a[j].0 != q);
        }
        assert(b[k] == a[k]);
        table::lemma_slot_is(b, q, k);
    } else {
        assert forall|j: int| 0 <= j < n implies (#[trigger] b[j]).0 != q by {
            if j < n - 1 {
                assert(a[j].0 != q);
            }
        }
        table::lemma_slot_is(b, q, n as int);
    }
}

/// Writes are stored where they belong.
proof fn lemma_store_writes(
    m: ManagerM,
    writes: Seq<(KeyM, ValueM<Symbol>)>,
    tid: TxnId,
    n: nat,
)
    requires
        well_formed(m),
        table::keys_distinct(writes),
        n <= writes.len(),
    ensures
        stored(m, transactions::store_writes(m, writes, tid, n), writes.take(n as int), tid),
    decreases n,
{
    let w = transactions::store_writes(m, writes, tid, n);
    if n == 0 {
        assert forall|i: int, j: int|
            #![trigger w.services[i].1.vars[j]]
            at(m, i, j) implies w.services[i].1.vars[j].0 == m.services[i].1.vars[j].0 && var_at(
            w,
            i,
            j,
        ) == (match table::get(writes.take(0), key_at(m, i, j)) {
            Some(v) => VarStateM { value: v, latest_write_txn: Some(tid), ..var_at(m, i, j) },
            None => var_at(m, i, j),
        }) by {
            table::lemma_slot(writes.take(0), key_at(m, i, j));
        }
    } else {
        let p = (n - 1) as nat;
        lemma_store_writes(m, writes, tid, p);
        let u = transactions::store_writes(m, writes, tid, p);
        let (key, value) = writes[n - 1];
        let k = model::place_of_id(u.services, key.0) as int;
        state::lemma_place_of_id(u.services, key.0);
        assert(w == transactions::store_one(u, writes[n - 1], tid));
        assert forall|i: int| 0 <= i < m.services.len() implies (#[trigger] w.services[i]).0
            == m.services[i].0 && w.services[i].1 == (ServiceM {
            vars: w.services[i].1.vars,
            ..m.services[i].1
        }) && w.services[i].1.vars.len() == m.services[i].1.vars.len() by {
            assert(u.services[i].0 == m.services[i].0);
            if i == k {
                table::lemma_slot(u.services[k].1.vars, key.1);
            }
        }
        assert forall|i: int, j: int|
            #![trigger w.services[i].1.vars[j]]
            at(m, i, j) implies w.services[i].1.vars[j].0 == m.services[i].1.vars[j].0 && var_at(
            w,
            i,
            j,
        ) == (match table::get(writes.take(n as int), key_at(m, i, j)) {
            Some(v) => VarStateM { value: v, latest_write_txn: Some(tid), ..var_at(m, i, j) },
            None => var_at(m, i, j),
        }) by {
            lemma_get_take(writes, n, key_at(m, i, j));
            assert(u.services[i].0 == m.services[i].0);
            assert(u.services[i].1.vars[j].0 == m.services[i].1.vars[j].0);
            let s = u.services[i].1;
            if key_at(m, i, j) == key {
                assert(s.id == key.0);
                if k < i {
                    assert(u.services[k].0 == m.services[k].0);
                    assert(m.services[k].1.id != m.services[i].1.id);
                }
                assert(k == i);
                table::lemma_bound(s.vars, key.1, j);
                table::lemma_slot(s.vars, key.1);
                let b = table::slot(s.vars, key.1) as int;
                if b < j {
                    assert(u.services[i].1.vars[b].0 == m.services[i].1.vars[b].0);
                    assert(m.services[i].1.vars[b].0 != m.services[i].1.vars[j].0);
                }
                assert(b == j);
            } else if i == k {
                table::lemma_slot(s.vars, key.1);
                if table::bound(s.vars, key.1) {
                    let b = table::slot(s.vars, key.1) as int;
                    if b == j {
                        assert(s.id == key.0);
                    }
                }
            }
        }
    }
}

/// Passing on the changes of writes keeps what is to be kept.
pub proof fn keep_propagate_writes(
    n: nat,
    writes: Seq<(KeyM, ValueM<Symbol>)>,
    i: nat,
    m: ManagerM,
)
    ensures
        isolation::kept(m, transactions::propagate_writes(n, writes, i, m).1, None),
    decreases writes.len() - i,
{
    isolation::lemma_kept_refl(m, None);
    if i < writes.len() {
        match model::name_for_id(m, writes[i as int].0.0) {
            None => {
                keep_propagate_writes(n, writes, i + 1, m);
            },
            Some(svc) => {
                let work = seq![(svc, writes[i as int].0.1)];
                isolation::keep_propagate(n, work, m);
                let (r, m1) = semantics::propagate(n, work, m);
                keep_propagate_writes(n, writes, i + 1, m1);
                isolation::lemma_kept_trans(
                    m,
                    m1,
                    transactions::propagate_writes(n, writes, i + 1, m1).1,
                    None,
                );
            },
        }
    }
}

/// Storing writes leaves the shape of a node and the locks alone.
proof fn lemma_stored_shape(
    a: ManagerM,
    b: ManagerM,
    writes: Seq<(KeyM, ValueM<Symbol>)>,
    t: TxnM,
)
    requires
        stored(a, b, writes, t.id),
        well_formed(a),
        isolation::covered(a, t),
    ensures
        well_formed(b),
        isolation::covered(b, t),
{
    reveal(isolation::covered);
    assert forall|i: int, j: int| 0 <= i < j < b.services.len() implies (
    #[trigger] b.services[i]).0 != (#[trigger] b.services[j]).0 && b.services[i].1.id
        != b.services[j].1.id by {
        assert(a.services[i].0 != a.services[j].0);
        assert(a.services[i].1.id != a.services[j].1.id);
    }
    assert forall|i: int| 0 <= i < b.services.len() implies table::keys_distinct(
        (#[trigger] b.services[i]).1.vars,
    ) by {
        assert(table::keys_distinct(a.services[i].1.vars));
        assert forall|j: int, k: int| 0 <= j < k < b.services[i].1.vars.len() implies (
        #[trigger] b.services[i].1.vars[j]).0 != (#[trigger] b.services[i].1.vars[k]).0 by {
            assert(at(a, i, j) && at(a, i, k));
            assert(a.services[i].1.vars[j].0 != a.services[i].1.vars[k].0);
        }
    }
    assert forall|i: int, j: int|
        #![trigger b.services[i].1.vars[j]]
        0 <= i < b.services.len() && 0 <= j < b.services[i].1.vars.len()
            && b.services[i].1.vars[j].1.lock.holders().contains(t.id) implies t.locked.contains(
        (b.services[i].1.id, b.services[i].1.vars[j].0),
    ) by {
        assert(b.services[i].0 == a.services[i].0);
        assert(at(a, i, j));
        assert(var_at(b, i, j).lock == var_at(a, i, j).lock);
        assert(a.services[i].1.vars[j].1.lock.holders().contains(t.id));
    }
}

/// The writes of a transaction have been stored, what follows from them has
/// been computed, and its locks are let go of.
proof fn lemma_applied_unlocked(a: ManagerM, m: ManagerM, m1: ManagerM, m3: ManagerM, t: TxnM)
    requires
        well_formed(a),
        isolation::kept(a, m, Some(t.id)),
        isolation::covered(m, t),
        stored(m, m1, t.written, t.id),
        isolation::kept(m1, m3, None),
    ensures
        applied(a, transactions::unlock(m3, t), t.written, t.id),
{
    lemma_well_formed_kept(a, m, Some(t.id));
    lemma_stored_shape(m, m1, t.written, t);
    lemma_well_formed_kept(m1, m3, None);
    isolation::lemma_covered_kept(m1, m3, t);
    let z = transactions::unlock(m3, t);
    lemma_release_all(m3, t.locked, t.id, t.locked.len());
    assert(t.locked.take(t.locked.len() as int) =~= t.locked);
    reveal(isolation::kept);
    reveal(isolation::covered);
    assert forall|i: int| 0 <= i < a.services.len() implies (#[trigger] z.services[i]).0
        == a.services[i].0 && z.services[i].1.id == a.services[i].1.id && z.services[i].1.defs
        == a.services[i].1.defs && z.services[i].1.vars.len()
        == a.services[i].1.vars.len() by {
        assert(isolation::service_kept(a.services[i].1, m.services[i].1, Some(t.id)));
        assert(m1.services[i].0 == m.services[i].0);
        assert(isolation::service_kept(m1.services[i].1, m3.services[i].1, None));
        assert(isolation::service_kept(m3.services[i].1, z.services[i].1, Some(t.id)));
    }
    assert forall|i: int, j: int|
        #![trigger var_at(z, i, j)]
        at(a, i, j) implies {
        &&& key_at(z, i, j) == key_at(a, i, j)
        &&& forall|q: TxnId| #[trigger]
            var_at(z, i, j).lock.holders().contains(q) <==> q != t.id && var_at(
                a,
                i,
                j,
            ).lock.holders().contains(q)
        &&& match table::get(t.written, key_at(a, i, j)) {
            Some(v) => var_at(z, i, j).latest_write_txn == Some(t.id) && (!is_def_at(a, i, j)
                ==> var_at(z, i, j).value == v),
            None => var_at(z, i, j).latest_write_txn == var_at(a, i, j).latest_write_txn && (
            !is_def_at(a, i, j) ==> var_at(z, i, j).value == var_at(a, i, j).value),
        }
    } by {
        assert(isolation::service_kept(a.services[i].1, m.services[i].1, Some(t.id)));
        assert(m1.services[i].0 == m.services[i].0);
        assert(isolation::service_kept(m1.services[i].1, m3.services[i].1, None));
        assert(isolation::service_kept(m3.services[i].1, z.services[i].1, Some(t.id)));
        assert(m.services[i].1.vars[j].0 == a.services[i].1.vars[j].0);
        assert(at(m, i, j));
        assert(m1.services[i].1.vars[j].0 == m.services[i].1.vars[j].0);
        assert(m3.services[i].1.vars[j].0 == m1.services[i].1.vars[j].0);
        assert(z.services[i].1.vars[j].0 == m3.services[i].1.vars[j].0);
        assert(key_at(m, i, j) == key_at(a, i, j));
        assert forall|q: TxnId| #[trigger]
            var_at(z, i, j).lock.holders().contains(q) <==> q != t.id && var_at(
                a,
                i,
                j,
            ).lock.holders().contains(q) by {
            if q == t.id {
                if z.services[i].1.vars[j].1.lock.holders().contains(t.id) {
                    assert(m3.services[i].1.vars[j].1.lock.holders().contains(t.id));
                    assert(t.locked.contains((m3.services[i].1.id, m3.services[i].1.vars[j].0)));
                }
            } else {
                assert(z.services[i].1.vars[j].1.lock.holders().contains(q)
                    <==> m3.services[i].1.vars[j].1.lock.holders().contains(q));
                assert(m3.services[i].1.vars[j].1.lock.holders().contains(q)
                    <==> m1.services[i].1.vars[j].1.lock.holders().contains(q));
                assert(var_at(m1, i, j).lock == var_at(m, i, j).lock);
                assert(m.services[i].1.vars[j].1.lock.holders().contains(q)
                    <==> a.services[i].1.vars[j].1.lock.holders().contains(q));
            }
        }
    }
}

/// A transaction that commits: its writes are applied, and it holds no lock
/// any more.
proof fn lemma_commit(n: nat, a: ManagerM, m: ManagerM, t: TxnM)
    requires
        well_formed(a),
        isolation::kept(a, m, Some(t.id)),
        isolation::covered(m, t),
        table::keys_distinct(t.written),
        transactions::commit(n, t, m).0 is Ok,
    ensures
        applied(a, transactions::commit(n, t, m).1, t.written, t.id),
{
    lemma_well_formed_kept(a, m, Some(t.id));
    let m1 = transactions::store_writes(m, t.written, t.id, t.written.len());
    lemma_store_writes(m, t.written, t.id, t.written.len());
    assert(t.written.take(t.written.len() as int) =~= t.written);
    let m2 = transactions::propagate_writes(n, t.written, 0, m1).1;
    keep_propagate_writes(n, t.written, 0, m1);
    let m3 = transactions::commit_all(n, t.participants, 0, t.id, None, m2).1;
    keep_commit_all(n, t.participants, 0, t.id, None, m2);
    isolation::lemma_kept_trans(m1, m2, m3, None);
    lemma_applied_unlocked(a, m, m1, m3, t);
}

/// A transaction that has done nothing has a complete list of locks.
proof fn lemma_fresh(m: ManagerM, tid: TxnId)
    requires
        holds_nothing(m, tid),
    ensures
        isolation::covered(m, txn::fresh_txn(tid)),
{
    reveal(isolation::covered);
    assert forall|i: int, j: int|
        #![trigger m.services[i].1.vars[j]]
        0 <= i < m.services.len() && 0 <= j < m.services[i].1.vars.len() implies
        !m.services[i].1.vars[j].1.lock.holders().contains(tid) by {
        assert(same_origin(tid, tid));
    }
}

/// A transaction holds nothing where nothing has changed.
proof fn lemma_holds_nothing_kept(a: ManagerM, b: ManagerM, t: TxnId, u: TxnId)
    requires
        isolation::kept(a, b, None),
        holds_nothing(a, t),
        same_origin(t, u),
    ensures
        holds_nothing(b, u),
{
    reveal(isolation::kept);
    assert forall|i: int, j: int, q: TxnId|
        #![trigger b.services[i].1.vars[j], same_origin(q, u)]
        0 <= i < b.services.len() && 0 <= j < b.services[i].1.vars.len() && same_origin(
            q,
            u,
        ) implies !b.services[i].1.vars[j].1.lock.holders().contains(q) by {
        assert(isolation::service_kept(a.services[i].1, b.services[i].1, None));
        assert(same_origin(q, t));
        assert(!a.services[i].1.vars[j].1.lock.holders().contains(q));
        assert(b.services[i].1.vars[j].1.lock.holders().contains(q)
            <==> a.services[i].1.vars[j].1.lock.holders().contains(q));
    }
}

/// An action either takes place as a whole or leaves no trace.
///
/// Where it succeeds, exactly the values that its last try wrote have been
/// stored, with that try as their writer. Where it fails, every variable has
/// the value and the writer that it had, and every definition has the value that
/// it had, unless an event was handled meanwhile. Either way it holds no lock
/// afterwards, and the locks of other transactions are as they were.
pub proof fn law_action_is_atomic(
    n: nat,
    svc: Symbol,
    stmts: Seq<ActionStmtM<Symbol>>,
    env: EnvM,
    tid: TxnId,
    m: ManagerM,
)
    requires
        well_formed(m),
        holds_nothing(m, tid),
    ensures
        ({
            let (r, z) = transactions::run_txn(n, svc, stmts, env, tid, m);
            match r {
                Ok(_) => exists|t: TxnM|
                    #![trigger t.written]
                    same_origin(t.id, tid) && table::keys_distinct(t.written) && applied(
                        m,
                        z,
                        t.written,
                        t.id,
                    ),
                Err(e) => !(e is Suspended) ==> isolation::kept(m, z, None) && (quiet::unheard(
                    m,
                    z,
                ) ==> quiet::same_values(m, z)),
            }
        }),
    decreases MAX_WAIT_DIE_RETRIES - tid.iteration,
{
    if transactions::run_txn(n, svc, stmts, env, tid, m).0 matches Err(e) && !(e is Suspended) {
        quiet::stay_run(n, svc, stmts, env, tid, m);
    }
    let w0 = World { m, t: Some(txn::fresh_txn(tid)) };
    lemma_fresh(m, tid);
    isolation::keep_block(n, stmts, 0, env, svc, w0);
    let (r, w) = semantics::exec_block(n, stmts, 0, env, svc, w0);
    let t = transactions::txn_or(w.t, tid);
    match r {
        Ok(_) => {
            if transactions::commit(n, t, w.m).0 is Ok {
                lemma_commit(n, m, w.m, t);
                assert(same_origin(t.id, tid) && table::keys_distinct(t.written));
            } else {
                lemma_commit_suspends(n, t, w.m);
            }
        },
        Err(ErrM::Suspended) => {},
        Err(e) => {
            let (x, m1) = transactions::abort_all(n, t.participants, 0, t.id, w.m);
            keep_abort_all(n, t.participants, 0, t.id, w.m);
            isolation::lemma_covered_kept(w.m, m1, t);
            isolation::lemma_kept_weaken(w.m, m1, Some(tid));
            isolation::lemma_kept_trans(m, w.m, m1, Some(tid));
            match x {
                Err(_) => {
                    lemma_abort_suspends(n, t.participants, 0, t.id, w.m);
                },
                Ok(_) => {
                    lemma_unlock(m, m1, t);
                    let m2 = transactions::unlock(m1, t);
                    if e is WaitDieAbort && tid.iteration < MAX_WAIT_DIE_RETRIES {
                        let again = TxnId { iteration: (tid.iteration + 1) as u32, ..tid };
                        lemma_well_formed_kept(m, m2, None);
                        lemma_holds_nothing_kept(m, m2, tid, again);
                        law_action_is_atomic(n, svc, stmts, env, again, m2);
                        let (r2, z) = transactions::run_txn(n, svc, stmts, env, again, m2);
                        match r2 {
                            Ok(_) => {
                                let t2 = choose|t2: TxnM|
                                    #![trigger t2.written]
                                    same_origin(t2.id, again) && table::keys_distinct(t2.written)
                                        && applied(m2, z, t2.written, t2.id);
                                lemma_applied_after(m, m2, z, t2.written, t2.id);
                                assert(same_origin(t2.id, tid) && table::keys_distinct(
                                    t2.written,
                                ));
                            },
                            Err(e2) => {
                                if !(e2 is Suspended) {
                                    isolation::lemma_kept_trans(m, m2, z, None);
                                }
                            },
                        }
                    }
                },
            }
        },
    }
}

/// Writes applied after a run that kept everything are applied to what was
/// there before it.
proof fn lemma_applied_after(
    a: ManagerM,
    b: ManagerM,
    z: ManagerM,
    writes: Seq<(KeyM, ValueM<Symbol>)>,
    tid: TxnId,
)
    requires
        isolation::kept(a, b, None),
        applied(b, z, writes, tid),
    ensures
        applied(a, z, writes, tid),
{
    reveal(isolation::kept);
    assert forall|i: int| 0 <= i < a.services.len() implies (#[trigger] z.services[i]).0
        == a.services[i].0 && z.services[i].1.id == a.services[i].1.id && z.services[i].1.defs
        == a.services[i].1.defs && z.services[i].1.vars.len()
        == a.services[i].1.vars.len() by {
        assert(isolation::service_kept(a.services[i].1, b.services[i].1, None));
    }
    assert forall|i: int, j: int|
        #![trigger var_at(z, i, j)]
        at(a, i, j) implies {
        &&& key_at(z, i, j) == key_at(a, i, j)
        &&& forall|q: TxnId| #[trigger]
            var_at(z, i, j).lock.holders().contains(q) <==> q != tid && var_at(
                a,
                i,
                j,
            ).lock.holders().contains(q)
        &&& match table::get(writes, key_at(a, i, j)) {
            Some(v) => var_at(z, i, j).latest_write_txn == Some(tid) && (!is_def_at(a, i, j)
                ==> var_at(z, i, j).value == v),
            None => var_at(z, i, j).latest_write_txn == var_at(a, i, j).latest_write_txn && (
            !is_def_at(a, i, j) ==> var_at(z, i, j).value == var_at(a, i, j).value),
        }
    } by {
        assert(isolation::service_kept(a.services[i].1, b.services[i].1, None));
        assert(b.services[i].1.vars[j].0 == a.services[i].1.vars[j].0);
        assert(at(b, i, j));
        assert(key_at(b, i, j) == key_at(a, i, j));
    }
}

/// Writes that were applied stay so in a run that keeps everything.
proof fn lemma_applied_before(
    a: ManagerM,
    b: ManagerM,
    z: ManagerM,
    writes: Seq<(KeyM, ValueM<Symbol>)>,
    tid: TxnId,
)
    requires
        applied(a, b, writes, tid),
        isolation::kept(b, z, None),
    ensures
        applied(a, z, writes, tid),
{
    reveal(isolation::kept);
    assert forall|i: int| 0 <= i < a.services.len() implies (#[trigger] z.services[i]).0
        == a.services[i].0 && z.services[i].1.id == a.services[i].1.id && z.services[i].1.defs
        == a.services[i].1.defs && z.services[i].1.vars.len()
        == a.services[i].1.vars.len() by {
        assert(b.services[i].0 == a.services[i].0);
        assert(isolation::service_kept(b.services[i].1, z.services[i].1, None));
    }
    assert forall|i: int, j: int|
        #![trigger var_at(z, i, j)]
        at(a, i, j) implies {
        &&& key_at(z, i, j) == key_at(a, i, j)
        &&& forall|q: TxnId| #[trigger]
            var_at(z, i, j).lock.holders().contains(q) <==> q != tid && var_at(
                a,
                i,
                j,
            ).lock.holders().contains(q)
        &&& match table::get(writes, key_at(a, i, j)) {
            Some(v) => var_at(z, i, j).latest_write_txn == Some(tid) && (!is_def_at(a, i, j)
                ==> var_at(z, i, j).value == v),
            None => var_at(z, i, j).latest_write_txn == var_at(a, i, j).latest_write_txn && (
            !is_def_at(a, i, j) ==> var_at(z, i, j).value == var_at(a, i, j).value),
        }
    } by {
        assert(b.services[i].0 == a.services[i].0);
        assert(isolation::service_kept(b.services[i].1, z.services[i].1, None));
        assert(key_at(b, i, j) == key_at(a, i, j));
        assert(var_at(b, i, j).lock.holders() == b.services[i].1.vars[j].1.lock.holders());
        assert(z.services[i].1.vars[j].0 == b.services[i].1.vars[j].0);
        assert forall|q: TxnId| #[trigger]
            var_at(z, i, j).lock.holders().contains(q) <==> q != tid && var_at(
                a,
                i,
                j,
            ).lock.holders().contains(q) by {
            assert(z.services[i].1.vars[j].1.lock.holders().contains(q)
                <==> b.services[i].1.vars[j].1.lock.holders().contains(q));
            assert(var_at(b, i, j).lock.holders().contains(q) <==> q != tid && var_at(
                a,
                i,
                j,
            ).lock.holders().contains(q));
        }
    }
}

/// Whether what a node holds of a transaction is complete: its writes, once
/// each, and all the locks that it has here.
pub open spec fn held_well(m: ManagerM, tid: TxnId, t: TxnM) -> bool {
    &&& t.id == tid
    &&& table::keys_distinct(t.written)
    &&& isolation::covered(m, t)
}

/// A node without its list of held transactions, to compare the rest.
pub open spec fn besides_held(m: ManagerM) -> ManagerM {
    ManagerM { pending_txns: seq![], ..m }
}

/// The part of a transaction of another node that runs here changes no value
/// and no writer before it commits, and no lock but its own. What is held of it
/// afterwards is complete. Where it fails, other than by having to wait, none
/// of its locks is left.
pub proof fn law_participant_waits_for_commit(
    n: nat,
    svc: Symbol,
    stmts: Seq<ActionStmtM<Symbol>>,
    env: EnvM,
    tid: TxnId,
    m: ManagerM,
)
    requires
        well_formed(m),
        table::keys_distinct(m.pending_txns),
        held_well(m, tid, transactions::txn_or(table::get(m.pending_txns, tid), tid)),
    ensures
        ({
            let (r, z) = transactions::participate(n, svc, stmts, env, tid, m);
            &&& isolation::kept(besides_held(m), besides_held(z), Some(tid))
            &&& match table::get(z.pending_txns, tid) {
                Some(t) => held_well(z, tid, t) && (r is Ok || r->Err_0 is WaitOn),
                None => !(r is Ok) && !(r->Err_0 is WaitOn) && forall|i: int, j: int|
                    at(z, i, j) ==> !(#[trigger] var_at(z, i, j)).lock.holders().contains(tid),
            }
        }),
{
    let (t, m1) = transactions::take_held(m, tid);
    lemma_same_services(m, m1, t);
    table::lemma_without(m.pending_txns, tid, tid);
    let w0 = World { m: m1, t: Some(t) };
    isolation::keep_block(n, stmts, 0, env, svc, w0);
    let (r, w) = semantics::exec_block(n, stmts, 0, env, svc, w0);
    let u = transactions::txn_or(w.t, tid);
    assert(w.m.pending_txns == m1.pending_txns) by {
        reveal(isolation::kept);
    }
    lemma_besides(m1, w.m, Some(tid));
    if r is Ok || r->Err_0 is WaitOn {
        let z = transactions::hold(w.m, tid, u);
        table::lemma_put(w.m.pending_txns, tid, u, tid);
        lemma_same_services(w.m, z, u);
    } else {
        lemma_well_formed_kept(m1, w.m, Some(tid));
        lemma_let_go(w.m, u);
        let z = transactions::unlock(w.m, u);
        isolation::lemma_kept_trans(m1, w.m, z, Some(tid));
        lemma_besides(m1, z, Some(tid));
        assert(z.pending_txns == m1.pending_txns) by {
            reveal(isolation::kept);
        }
    }
}

/// A held transaction that commits is applied, and nothing is held of it any
/// more.
pub proof fn law_held_commit(n: nat, tid: TxnId, m: ManagerM)
    requires
        well_formed(m),
        table::keys_distinct(m.pending_txns),
        table::get(m.pending_txns, tid) matches Some(t) && held_well(m, tid, t),
        transactions::commit_held(n, tid, m).0 is Ok,
    ensures
        ({
            let z = transactions::commit_held(n, tid, m).1;
            &&& applied(m, z, table::get(m.pending_txns, tid)->Some_0.written, tid)
            &&& !table::bound(z.pending_txns, tid)
        }),
{
    let t = table::get(m.pending_txns, tid)->Some_0;
    let m1 = ManagerM { pending_txns: table::without(m.pending_txns, tid), ..m };
    table::lemma_without(m.pending_txns, tid, tid);
    lemma_same_services(m, m1, t);
    isolation::lemma_kept_refl(m1, Some(tid));
    let ms = transactions::store_writes(m1, t.written, tid, t.written.len());
    lemma_store_writes(m1, t.written, tid, t.written.len());
    assert(t.written.take(t.written.len() as int) =~= t.written);
    keep_propagate_writes(n, t.written, 0, ms);
    let m2 = transactions::apply_writes(n, t, m1).1;
    lemma_applied_unlocked(m1, m1, ms, m2, t);
    let m3 = transactions::unlock(m2, t);
    let z = transactions::commit_all(n, t.participants, 0, tid, None, m3).1;
    keep_commit_all(n, t.participants, 0, tid, None, m3);
    lemma_applied_before(m1, m3, z, t.written, tid);
    assert(applied(m, z, t.written, tid)) by {
        assert forall|i: int, j: int|
            #![trigger var_at(z, i, j)]
            at(m, i, j) implies at(m1, i, j) && key_at(m1, i, j) == key_at(m, i, j) && var_at(
            m1,
            i,
            j,
        ) == var_at(m, i, j) && is_def_at(m1, i, j) == is_def_at(m, i, j) by {}
    }
    assert(m2.pending_txns == m1.pending_txns) by {
        reveal(isolation::kept);
    }
    lemma_stored_shape(m1, ms, t.written, t);
    lemma_well_formed_kept(ms, m2, None);
    lemma_release_all(m2, t.locked, t.id, t.locked.len());
    assert(z.pending_txns == m1.pending_txns) by {
        reveal(isolation::kept);
    }
}

/// A held transaction that is given up leaves no trace: no value and no writer
/// changes, none of its locks is left, and nothing is held of it.
pub proof fn law_held_abort(n: nat, tid: TxnId, m: ManagerM)
    requires
        well_formed(m),
        table::keys_distinct(m.pending_txns),
        table::get(m.pending_txns, tid) matches Some(t) && held_well(m, tid, t),
        transactions::abort_held(n, tid, m).0 is Ok,
    ensures
        ({
            let z = transactions::abort_held(n, tid, m).1;
            &&& isolation::kept(besides_held(m), besides_held(z), Some(tid))
            &&& !table::bound(z.pending_txns, tid)
            &&& forall|i: int, j: int|
                at(z, i, j) ==> !(#[trigger] var_at(z, i, j)).lock.holders().contains(tid)
        }),
{
    let t = table::get(m.pending_txns, tid)->Some_0;
    let m1 = ManagerM { pending_txns: table::without(m.pending_txns, tid), ..m };
    table::lemma_without(m.pending_txns, tid, tid);
    lemma_same_services(m, m1, t);
    lemma_let_go(m1, t);
    let m2 = transactions::unlock(m1, t);
    keep_abort_all(n, t.participants, 0, tid, m2);
    let z = transactions::abort_held(n, tid, m).1;
    isolation::lemma_kept_weaken(m2, z, Some(tid));
    isolation::lemma_kept_trans(m1, m2, z, Some(tid));
    lemma_besides(m1, z, Some(tid));
    reveal(isolation::kept);
    assert forall|i: int, j: int| at(z, i, j) implies !(#[trigger] var_at(
        z,
        i,
        j,
    )).lock.holders().contains(tid) by {
        assert(isolation::service_kept(m2.services[i].1, z.services[i].1, None));
        assert(z.services[i].1.vars[j].1.lock.holders().contains(tid)
            <==> m2.services[i].1.vars[j].1.lock.holders().contains(tid));
        assert(!var_at(m2, i, j).lock.holders().contains(tid));
    }
}

/// What is said of the services alone carries over.
proof fn lemma_same_services(a: ManagerM, b: ManagerM, t: TxnM)
    requires
        b.services == a.services,
    ensures
        well_formed(a) ==> well_formed(b),
        isolation::covered(a, t) ==> isolation::covered(b, t),
{
    reveal(isolation::covered);
}

/// Leaving out what is held.
proof fn lemma_besides(a: ManagerM, b: ManagerM, t: Option<TxnId>)
    requires
        isolation::kept(a, b, t),
    ensures
        isolation::kept(besides_held(a), besides_held(b), t),
{
    reveal(isolation::kept);
}

/// A transaction whose list of locks is complete holds none once they are let
/// go of.
proof fn lemma_let_go(m: ManagerM, t: TxnM)
    requires
        well_formed(m),
        isolation::covered(m, t),
    ensures
        isolation::kept(m, transactions::unlock(m, t), Some(t.id)),
        forall|i: int, j: int|
            at(transactions::unlock(m, t), i, j) ==> !(#[trigger] var_at(
                transactions::unlock(m, t),
                i,
                j,
            )).lock.holders().contains(t.id),
{
    let z = transactions::unlock(m, t);
    lemma_release_all(m, t.locked, t.id, t.locked.len());
    assert(t.locked.take(t.locked.len() as int) =~= t.locked);
    reveal(isolation::kept);
    reveal(isolation::covered);
    assert forall|i: int, j: int| at(z, i, j) implies !(#[trigger] var_at(
        z,
        i,
        j,
    )).lock.holders().contains(t.id) by {
        if z.services[i].1.vars[j].1.lock.holders().contains(t.id) {
            assert(isolation::service_kept(m.services[i].1, z.services[i].1, Some(t.id)));
            assert(m.services[i].1.vars[j].1.lock.holders().contains(t.id));
            assert(t.locked.contains((m.services[i].1.id, m.services[i].1.vars[j].0)));
        }
    }
}

/// A commit fails only by being suspended.
pub proof fn lemma_commit_suspends(n: nat, t: TxnM, m: ManagerM)
    requires
        transactions::commit(n, t, m).0 is Err,
    ensures
        transactions::commit(n, t, m).0 == Err::<(), ErrM>(ErrM::Suspended),
{
    let m1 = transactions::store_writes(m, t.written, t.id, t.written.len());
    lemma_writes_suspend(n, t.written, 0, m1);
    let (r, m2) = transactions::apply_writes(n, t, m);
    if r is Ok {
        lemma_commits_suspend(n, t.participants, 0, t.id, None, m2);
    }
}

/// Passing on changes fails only by being suspended.
pub proof fn lemma_writes_suspend(
    n: nat,
    writes: Seq<(KeyM, ValueM<Symbol>)>,
    i: nat,
    m: ManagerM,
)
    ensures
        transactions::propagate_writes(n, writes, i, m).0 matches Err(e) ==> e is Suspended,
    decreases writes.len() - i,
{
    if i < writes.len() {
        match model::name_for_id(m, writes[i as int].0.0) {
            None => {
                lemma_writes_suspend(n, writes, i + 1, m);
            },
            Some(svc) => {
                let m1 = semantics::propagate(n, seq![(svc, writes[i as int].0.1)], m).1;
                lemma_writes_suspend(n, writes, i + 1, m1);
            },
        }
    }
}

/// Asking participants to commit fails only by being suspended.
pub proof fn lemma_commits_suspend(
    n: nat,
    addrs: Seq<Seq<char>>,
    i: nat,
    tid: TxnId,
    failed: Option<ErrM>,
    m: ManagerM,
)
    ensures
        transactions::commit_all(n, addrs, i, tid, failed, m).0 matches Err(e) ==> e is Suspended,
    decreases addrs.len() - i,
{
    if i < addrs.len() {
        let (r, m1) = transactions::send_commit(n, addrs[i as int], tid, m);
        match r {
            Err(x) => {
                lemma_commits_suspend(n, addrs, i + 1, tid, Some(x), m1);
            },
            Ok(_) => {
                lemma_commits_suspend(n, addrs, i + 1, tid, failed, m1);
            },
        }
    }
}

/// Asking participants to abort fails only by being suspended.
pub proof fn lemma_abort_suspends(n: nat, addrs: Seq<Seq<char>>, i: nat, tid: TxnId, m: ManagerM)
    ensures
        transactions::abort_all(n, addrs, i, tid, m).0 matches Err(e) ==> e is Suspended,
    decreases addrs.len() - i,
{
    if i < addrs.len() {
        let m1 = transactions::send_abort(n, addrs[i as int], tid, m).1;
        lemma_abort_suspends(n, addrs, i + 1, tid, m1);
    }
}

/// A transaction reads what it has written.
pub proof fn law_reads_own_write(
    svc: Symbol,
    var: Symbol,
    value: ValueM<Symbol>,
    m: ManagerM,
    t: TxnM,
)
    requires
        model::buffer_write(svc, var, value, m, t).0 is Ok,
    ensures
        ({
            let w = model::buffer_write(svc, var, value, m, t).1;
            model::local_read(var, svc, w) == (Ok::<ValueM<Symbol>, ErrM>(value), w)
        }),
{
    let w = model::buffer_write(svc, var, value, m, t).1;
    let key = (model::net_id(m, svc), var);
    let s = table::get(m.services, svc)->Some_0;
    let s1 = table::get(w.m.services, svc)->Some_0;
    table::lemma_slot(m.services, svc);
    let i = table::slot(m.services, svc) as int;
    assert forall|j: int| 0 <= j < i implies (#[trigger] w.m.services[j]).0 != svc by {
        assert(m.services[j].0 != svc);
    }
    table::lemma_slot_is(w.m.services, svc, i);
    table::lemma_put(t.read_cache, key, value, key);
}

/// What a transaction has read stays what it reads.
pub proof fn law_reads_repeat(var: Symbol, svc: Symbol, w: World)
    requires
        w.t is Some,
        model::local_read(var, svc, w).0 is Ok,
    ensures
        ({
            let (r, z) = model::local_read(var, svc, w);
            model::local_read(var, svc, z) == (r, z)
        }),
{
    let (r, z) = model::local_read(var, svc, w);
    let t = w.t->Some_0;
    let key = (model::net_id(w.m, svc), var);
    if table::get(t.read_cache, key) is None {
        table::lemma_slot(w.m.services, svc);
        let i = table::slot(w.m.services, svc) as int;
        assert forall|j: int| 0 <= j < i implies (#[trigger] z.m.services[j]).0 != svc by {
            assert(w.m.services[j].0 != svc);
        }
        table::lemma_slot_is(z.m.services, svc, i);
        table::lemma_put(t.read_cache, key, r->Ok_0, key);
    }
}

/// What a transaction has written no other one can lock until it ends.
pub proof fn law_written_is_locked(
    svc: Symbol,
    var: Symbol,
    value: ValueM<Symbol>,
    m: ManagerM,
    t: TxnM,
    q: TxnId,
    wish: model::Wish,
)
    requires
        model::buffer_write(svc, var, value, m, t).0 is Ok,
        q != t.id,
    ensures
        ({
            let z = model::buffer_write(svc, var, value, m, t).1.m;
            model::acquire(z, svc, var, q, wish).0 is Err && model::acquire(z, svc, var, q, wish).1
                == z
        }),
{
    let z = model::buffer_write(svc, var, value, m, t).1.m;
    let s = table::get(m.services, svc)->Some_0;
    let v = table::get(s.vars, var)->Some_0;
    let v1 = VarStateM { lock: LockM::WriteLocked(t.id), ..v };
    let s1 = ServiceM { vars: table::put(s.vars, var, v1), ..s };
    table::lemma_put(s.vars, var, v1, var);
    table::lemma_put(m.services, svc, s1, svc);
    txn::law_writer_is_alone(v1.lock, t.id, q);
}

/// Of the requests that wait for a member the oldest is served first.
pub proof fn law_oldest_first(q: Seq<ParkedM>, n: nat)
    requires
        0 < n <= q.len(),
    ensures
        transactions::oldest(q, n) < n,
        forall|i: int|
            0 <= i < n ==> !txn::older(
                (#[trigger] q[i]).tid(),
                q[transactions::oldest(q, n) as int].tid(),
            ),
    decreases n,
{
    if n > 1 {
        law_oldest_first(q, (n - 1) as nat);
    }
}

/// The requests that are woken together are the same ones in another order, in
/// which none comes before one that is older.
pub proof fn law_woken_by_age(q: Seq<ParkedM>, n: nat)
    requires
        n <= q.len(),
    ensures
        transactions::by_age(q, n).to_multiset() == q.take(n as int).to_multiset(),
        forall|i: int, j: int|
            0 <= i < j < transactions::by_age(q, n).len() ==> !txn::older(
                (#[trigger] transactions::by_age(q, n)[j]).tid(),
                (#[trigger] transactions::by_age(q, n)[i]).tid(),
            ),
    decreases n,
{
    broadcast use vstd::seq_lib::group_to_multiset_ensures;

    if n > 0 {
        let r = transactions::by_age(q, (n - 1) as nat);
        let p = q[n - 1];
        let z = transactions::by_age(q, n);
        law_woken_by_age(q, (n - 1) as nat);
        lemma_age_place(r, r.len(), p);
        let k = transactions::age_place(r, r.len(), p) as int;
        assert(q.take(n as int) =~= q.take(n - 1).push(p));
        assert(z.remove(k) =~= r);
        assert(z[k] == p);
        assert(z.to_multiset() =~= r.to_multiset().insert(p)) by {
            assert(z =~= r.take(k).push(p) + r.skip(k));
            vstd::seq_lib::lemma_multiset_commutative(r.take(k), r.skip(k));
            vstd::seq_lib::lemma_multiset_commutative(r.take(k).push(p), r.skip(k));
            assert(r =~= r.take(k) + r.skip(k));
        }
        assert forall|i: int, j: int| 0 <= i < j < z.len() implies !txn::older(
            (#[trigger] z[j]).tid(),
            (#[trigger] z[i]).tid(),
        ) by {
            let a = if i < k {
                i
            } else {
                i - 1
            };
            let b = if j < k {
                j
            } else {
                j - 1
            };
            if i != k && j != k {
                assert(z[i] == r[a] && z[j] == r[b]);
            } else if i == k {
                assert(z[j] == r[b]);
                txn::law_age_is_total_order(z[j].tid(), p.tid(), p.tid());
            } else {
                assert(z[i] == r[a]);
                if k > 0 {
                    txn::law_age_is_total_order(p.tid(), z[i].tid(), r[k - 1].tid());
                }
            }
        }
    } else {
        assert(q.take(0) =~= Seq::<ParkedM>::empty());
    }
}

/// All behind the place of a request are younger, and the one before it is not.
proof fn lemma_age_place(q: Seq<ParkedM>, n: nat, p: ParkedM)
    requires
        n <= q.len(),
    ensures
        transactions::age_place(q, n, p) <= n,
        forall|i: int|
            transactions::age_place(q, n, p) <= i < n ==> txn::older(
                p.tid(),
                (#[trigger] q[i]).tid(),
            ),
        transactions::age_place(q, n, p) > 0 ==> !txn::older(
            p.tid(),
            q[transactions::age_place(q, n, p) - 1].tid(),
        ),
    decreases n,
{
    if n > 0 && txn::older(p.tid(), q[n - 1].tid()) {
        lemma_age_place(q, (n - 1) as nat, p);
    }
}

/// Of a transaction that is given up no request waits any more.
pub proof fn law_purged(queue: Seq<(KeyM, Seq<ParkedM>)>, tid: TxnId, n: nat)
    requires
        n <= queue.len(),
    ensures
        forall|i: int|
            0 <= i < transactions::purge(queue, tid, n).0.len() ==> (#[trigger] transactions::purge(
                queue,
                tid,
                n,
            ).0[i]).tid() == tid,
        forall|i: int, j: int|
            #![trigger transactions::purge(queue, tid, n).1[i].1[j]]
            0 <= i < transactions::purge(queue, tid, n).1.len() && 0 <= j < transactions::purge(
                queue,
                tid,
                n,
            ).1[i].1.len() ==> transactions::purge(queue, tid, n).1[i].1[j].tid() != tid,
    decreases n,
{
    if n > 0 {
        law_purged(queue, tid, (n - 1) as nat);
        let ws = queue[n - 1].1;
        lemma_parted(ws, tid, ws.len());
        let (gone, left) = transactions::purge(queue, tid, (n - 1) as nat);
        let mine = transactions::own(ws, tid, ws.len());
        let z = transactions::purge(queue, tid, n);
        assert forall|i: int| 0 <= i < z.0.len() implies (#[trigger] z.0[i]).tid() == tid by {
            if i < gone.len() {
                assert(z.0[i] == gone[i]);
            } else {
                assert(z.0[i] == mine[i - gone.len()]);
            }
        }
        assert forall|i: int, j: int|
            #![trigger z.1[i].1[j]]
            0 <= i < z.1.len() && 0 <= j < z.1[i].1.len() implies z.1[i].1[j].tid() != tid by {
            if i < left.len() {
                assert(z.1[i] == left[i]);
            }
        }
    }
}

/// The requests of a transaction and the others are told apart.
proof fn lemma_parted(ws: Seq<ParkedM>, tid: TxnId, n: nat)
    requires
        n <= ws.len(),
    ensures
        forall|i: int|
            0 <= i < transactions::own(ws, tid, n).len() ==> (#[trigger] transactions::own(
                ws,
                tid,
                n,
            )[i]).tid() == tid,
        forall|i: int|
            0 <= i < transactions::others(ws, tid, n).len() ==> (#[trigger] transactions::others(
                ws,
                tid,
                n,
            )[i]).tid() != tid,
    decreases n,
{
    if n > 0 {
        lemma_parted(ws, tid, (n - 1) as nat);
        let a = transactions::own(ws, tid, (n - 1) as nat);
        let b = transactions::others(ws, tid, (n - 1) as nat);
        assert forall|i: int| 0 <= i < transactions::own(ws, tid, n).len() implies (
        #[trigger] transactions::own(ws, tid, n)[i]).tid() == tid by {
            if i < a.len() {
                assert(a[i].tid() == tid);
            }
        }
        assert forall|i: int| 0 <= i < transactions::others(ws, tid, n).len() implies (
        #[trigger] transactions::others(ws, tid, n)[i]).tid() != tid by {
            if i < b.len() {
                assert(b[i].tid() != tid);
            }
        }
    }
}

/// A request of another transaction goes on waiting for the same member.
pub proof fn law_others_wait_on(
    queue: Seq<(KeyM, Seq<ParkedM>)>,
    tid: TxnId,
    i: int,
    j: int,
)
    requires
        0 <= i < queue.len(),
        0 <= j < queue[i].1.len(),
        queue[i].1[j].tid() != tid,
    ensures
        exists|a: int, b: int|
            #![trigger transactions::purge(queue, tid, queue.len()).1[a].1[b]]
            0 <= a < transactions::purge(queue, tid, queue.len()).1.len() && 0 <= b
                < transactions::purge(queue, tid, queue.len()).1[a].1.len() && transactions::purge(
                queue,
                tid,
                queue.len(),
            ).1[a].0 == queue[i].0 && transactions::purge(queue, tid, queue.len()).1[a].1[b]
                == queue[i].1[j],
{
    lemma_waits_on(queue, tid, i, j, queue.len());
}

proof fn lemma_waits_on(
    queue: Seq<(KeyM, Seq<ParkedM>)>,
    tid: TxnId,
    i: int,
    j: int,
    n: nat,
)
    requires
        0 <= i < n <= queue.len(),
        0 <= j < queue[i].1.len(),
        queue[i].1[j].tid() != tid,
    ensures
        exists|a: int, b: int|
            #![trigger transactions::purge(queue, tid, n).1[a].1[b]]
            0 <= a < transactions::purge(queue, tid, n).1.len() && 0 <= b < transactions::purge(
                queue,
                tid,
                n,
            ).1[a].1.len() && transactions::purge(queue, tid, n).1[a].0 == queue[i].0
                && transactions::purge(queue, tid, n).1[a].1[b] == queue[i].1[j],
    decreases n,
{
    let z = transactions::purge(queue, tid, n).1;
    let left = transactions::purge(queue, tid, (n - 1) as nat).1;
    let ws = queue[n - 1].1;
    if i == n - 1 {
        let b = lemma_among_others(ws, tid, j, ws.len());
        assert(z[left.len() as int].1[b] == ws[j]);
    } else {
        lemma_waits_on(queue, tid, i, j, (n - 1) as nat);
        let (a, b) = choose|a: int, b: int|
            #![trigger left[a].1[b]]
            0 <= a < left.len() && 0 <= b < left[a].1.len() && left[a].0 == queue[i].0
                && left[a].1[b] == queue[i].1[j];
        assert(z[a].1[b] == left[a].1[b]);
    }
}

/// Where a request of another transaction is among those that are left.
proof fn lemma_among_others(ws: Seq<ParkedM>, tid: TxnId, j: int, n: nat) -> (b: int)
    requires
        0 <= j < n <= ws.len(),
        ws[j].tid() != tid,
    ensures
        0 <= b < transactions::others(ws, tid, n).len(),
        transactions::others(ws, tid, n)[b] == ws[j],
    decreases n,
{
    if j == n - 1 {
        transactions::others(ws, tid, (n - 1) as nat).len() as int
    } else {
        lemma_among_others(ws, tid, j, (n - 1) as nat)
    }
}

/// A node gives out its identities in the order of their age.
pub proof fn law_identities_age(m: ManagerM)
    requires
        m.clock < u128::MAX,
    ensures
        txn::older(
            transactions::next_txn_id(m),
            transactions::next_txn_id(transactions::ticked(m)),
        ),
{
}

} // verus!
