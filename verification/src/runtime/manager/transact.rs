//! Transactions, services and waiting requests.

use crate::net::types::ServiceNetId;
use crate::runtime::interner::{Interner, Symbol};
use crate::runtime::interpreter::evaluator::{ErrM, EvalError};
use crate::runtime::manager::model;
use crate::runtime::manager::model::{ManagerM, ParkedM};
use crate::runtime::manager::state;
use crate::runtime::manager::transactions;
use crate::runtime::manager::{Manager, ParkedRequest, DEFAULT_DEPTH_LIMIT};
use crate::runtime::table;
use crate::runtime::table::Table;
use crate::runtime::txn::TxnId;
use vstd::prelude::*;

verus! {

/// The model of a list of failures that counts the last one.
pub open spec fn failure(r: Result<Option<EvalError>, EvalError>) -> Result<Option<ErrM>, ErrM> {
    match r {
        Ok(Some(e)) => Ok(Some(e.deep_view())),
        Ok(None) => Ok(None),
        Err(e) => Err(e.deep_view()),
    }
}

impl Default for Manager {
    /// A node without services, names or a network.
    fn default() -> (r: Manager)
        ensures
            r.deep_view() == new_manager(seq![Seq::<char>::empty()], 0),
    {
        Manager::new(Interner::new())
    }
}

impl Manager {
    /// A node that knows the names of `interner` and nothing else.
    pub fn new(interner: Interner) -> (r: Manager)
        ensures
            r.deep_view() == new_manager(interner@, 0),
    {
        Manager::with_node_id(interner, 0)
    }

    /// A node with a number of its own.
    pub fn with_node_id(interner: Interner, node_id: u64) -> (r: Manager)
        ensures
            r.deep_view() == new_manager(interner@, node_id),
    {
        Manager {
            services: Table::new(),
            remote_services: Table::new(),
            network: None,
            pending_replies: Table::new(),
            channels: Table::new(),
            next_channel: 0,
            node_id,
            clock: 0,
            pending_txns: Table::new(),
            wait_queue: Table::new(),
            local_address: None,
            outbound_ip: None,
            local: false,
            interner,
            reactive_cache: None,
            listener_addrs: Table::new(),
            next_lookup_id: 1,
            next_action_id: 1,
            next_commit_id: 1,
            next_abort_id: 1,
            next_sub_id: 1,
            depth_limit: DEFAULT_DEPTH_LIMIT,
        }
    }

    /// Moves the clock forward to `now`, and never back.
    pub fn advance_clock(&mut self, now: u128)
        ensures
            final(self).deep_view() == (ManagerM {
                clock: if now > old(self).deep_view().clock {
                    now
                } else {
                    old(self).deep_view().clock
                },
                ..old(self).deep_view()
            }),
    {
        if now > self.clock {
            self.clock = now;
        }
    }

    /// The identity of a new transaction.
    pub fn next_txn_id(&mut self) -> (r: TxnId)
        ensures
            r == transactions::next_txn_id(old(self).deep_view()),
            final(self).deep_view() == transactions::ticked(old(self).deep_view()),
    {
        let id = TxnId::new(self.clock, self.node_id);
        self.clock = self.clock.wrapping_add(1);
        id
    }

    /// Puts a request on the queue for a member's lock.
    pub fn park_request(&mut self, service: Symbol, var: Symbol, parked: ParkedRequest)
        ensures
            final(self).deep_view() == transactions::park(
                old(self).deep_view(),
                service,
                var,
                parked.deep_view(),
            ),
    {
        let key = (self.service_net_id_for_name(service), var);
        let ghost q = self.wait_queue.deep_view();
        if self.wait_queue.contains_key(&key) {
            match self.wait_queue.get_mut(&key) {
                Some(ws) => {
                    let ghost before = ws.deep_view();
                    ws.push(parked);
                    assert(ws.deep_view() =~= before.push(parked.deep_view()));
                },
                None => {},
            }
        } else {
            let mut ws: Vec<ParkedRequest> = Vec::new();
            ws.push(parked);
            assert(ws.deep_view() =~= Seq::<ParkedM>::empty().push(parked.deep_view()));
            self.wait_queue.insert(key, ws);
        }
    }

    /// Takes the oldest request that waits for each of the freed members out of
    /// its queue. The oldest goes first, so that no stream of younger requests
    /// keeps it waiting.
    pub fn take_ready_waiters(&mut self, freed: &Vec<(ServiceNetId, Symbol)>) -> (r: Vec<
        ParkedRequest,
    >)
        ensures
            ({
                let (ready, q) = transactions::take_ready(
                    old(self).deep_view().wait_queue,
                    freed.deep_view(),
                    freed.deep_view().len(),
                );
                r.deep_view() == ready && final(self).deep_view() == (ManagerM {
                    wait_queue: q,
                    ..old(self).deep_view()
                })
            }),
    {
        let ghost m0 = self.deep_view();
        let ghost f = freed.deep_view();
        let mut ready: Vec<ParkedRequest> = Vec::new();
        assert(ready.deep_view() =~= Seq::<ParkedM>::empty());
        for i in 0..freed.len()
            invariant
                f == freed.deep_view(),
                (ready.deep_view(), self.deep_view().wait_queue) == transactions::take_ready(
                    m0.wait_queue,
                    f,
                    i as nat,
                ),
                self.deep_view() == (ManagerM { wait_queue: self.deep_view().wait_queue, ..m0 }),
        {
            assert(f[i as int] == freed@[i as int].deep_view());
            let ghost q0 = self.wait_queue.deep_view();
            let mut empty_now = false;
            let ghost mut left: Seq<ParkedM> = seq![];
            match self.wait_queue.get_mut(&freed[i]) {
                None => {},
                Some(ws) => {
                    let ghost ws0 = ws.deep_view();
                    if ws.len() > 0 {
                        let k = oldest_of(ws);
                        let p = ws.remove(k);
                        let ghost before = ready.deep_view();
                        ready.push(p);
                        proof {
                            assert(ws.deep_view() =~= ws0.remove(k as int));
                            assert(ready.deep_view() =~= before.push(ws0[k as int]));
                        }
                        empty_now = ws.len() == 0;
                        proof {
                            left = ws.deep_view();
                        }
                    } else {
                        proof {
                            assert(ws.deep_view().len() == 0);
                            state::lemma_put_same(q0, f[i as int]);
                        }
                    }
                },
            }
            if empty_now {
                let _ = self.wait_queue.remove(&freed[i]);
                proof {
                    lemma_put_without(q0, f[i as int], left);
                }
            }
        }
        ready
    }

    /// Takes all waiting requests of a transaction out of their queues, so that
    /// none of them wakes after the transaction was given up.
    pub fn purge_parked_txn(&mut self, tid: &TxnId) -> (r: Vec<ParkedRequest>)
        ensures
            ({
                let q0 = old(self).deep_view().wait_queue;
                let (gone, kept) = transactions::purge(q0, *tid, q0.len());
                r.deep_view() == gone && final(self).deep_view() == (ManagerM {
                    wait_queue: kept,
                    ..old(self).deep_view()
                })
            }),
    {
        let ghost m0 = self.deep_view();
        let ghost q0 = m0.wait_queue;
        let mut gone: Vec<ParkedRequest> = Vec::new();
        let mut kept: Vec<((ServiceNetId, Symbol), Vec<ParkedRequest>)> = Vec::new();
        let mut entries: Vec<((ServiceNetId, Symbol), Vec<ParkedRequest>)> = Vec::new();
        std::mem::swap(&mut entries, &mut self.wait_queue.entries);
        assert(entries.deep_view() == q0);
        assert(gone.deep_view() =~= Seq::<ParkedM>::empty());
        assert(kept.deep_view() =~= Seq::<(model::KeyM, Seq<ParkedM>)>::empty());
        for e in it: entries
            invariant
                it.seq() == entries@,
                entries.deep_view() == q0,
                (gone.deep_view(), kept.deep_view()) == transactions::purge(
                    q0,
                    *tid,
                    it.index() as nat,
                ),
                self.deep_view() == (ManagerM { wait_queue: self.deep_view().wait_queue, ..m0 }),
        {
            assert(q0[it.index() as int] == e.deep_view());
            let (key, ws) = e;
            let (mut mine, rest) = split_by_txn(ws, tid);
            let ghost g0 = gone.deep_view();
            let ghost mine0 = mine.deep_view();
            gone.append(&mut mine);
            assert(gone.deep_view() =~= g0 + mine0);
            if rest.len() > 0 {
                let ghost k0 = kept.deep_view();
                kept.push((key, rest));
                assert(kept.deep_view() =~= k0.push((key.deep_view(), rest.deep_view())));
            } else {
                assert(rest.deep_view().len() == 0);
            }
        }
        self.wait_queue.entries = kept;
        gone
    }

    /// The number and the address of every request that waits, so that its
    /// sender can be told that it is still queued.
    pub fn parked_keepalive_targets(&self) -> (r: Vec<(u64, String)>)
        ensures
            r.deep_view() == transactions::targets(
                self.deep_view().wait_queue,
                self.deep_view().wait_queue.len(),
            ),
    {
        let ghost q = self.deep_view().wait_queue;
        let mut out: Vec<(u64, String)> = Vec::new();
        assert(out.deep_view() =~= Seq::<(u64, Seq<char>)>::empty());
        for i in 0..self.wait_queue.entries.len()
            invariant
                q == self.deep_view().wait_queue,
                out.deep_view() == transactions::targets(q, i as nat),
        {
            let ws = &self.wait_queue.entries[i].1;
            let ghost w = q[i as int].1;
            assert(w == ws.deep_view());
            let ghost before = out.deep_view();
            for j in 0..ws.len()
                invariant
                    w == ws.deep_view(),
                    out.deep_view() == before + Seq::new(j as nat, |k: int| w[k].target()),
            {
                let ghost prior = out.deep_view();
                let t = ws[j].target();
                out.push(t);
                proof {
                    assert(w[j as int] == ws@[j as int].deep_view());
                    assert(out.deep_view() =~= prior.push(w[j as int].target()));
                    assert(out.deep_view() =~= before + Seq::new(
                        (j + 1) as nat,
                        |k: int| w[k].target(),
                    ));
                }
            }
        }
        out
    }
}

/// The place of the oldest request.
fn oldest_of(ws: &Vec<ParkedRequest>) -> (r: usize)
    requires
        ws@.len() > 0,
    ensures
        r == transactions::oldest(ws.deep_view(), ws.deep_view().len()),
        r < ws@.len(),
{
    let ghost w = ws.deep_view();
    let mut k: usize = 0;
    let mut i: usize = 1;
    while i < ws.len()
        invariant
            w == ws.deep_view(),
            1 <= i <= ws@.len(),
            k < i,
            k == transactions::oldest(w, i as nat),
        decreases ws@.len() - i,
    {
        assert(w[i as int] == ws@[i as int].deep_view());
        assert(w[k as int] == ws@[k as int].deep_view());
        if ws[i].tid().is_older(ws[k].tid()) {
            k = i;
        }
        i = i + 1;
    }
    k
}

/// The requests, the oldest first.
pub fn oldest_first(ready: Vec<ParkedRequest>) -> (r: Vec<ParkedRequest>)
    ensures
        r.deep_view() == transactions::by_age(ready.deep_view(), ready.deep_view().len()),
{
    let ghost q = ready.deep_view();
    let mut out: Vec<ParkedRequest> = Vec::new();
    assert(out.deep_view() =~= Seq::<ParkedM>::empty());
    for p in it: ready
        invariant
            it.seq() == ready@,
            q == ready.deep_view(),
            out.deep_view() == transactions::by_age(q, it.index() as nat),
    {
        let ghost o = out.deep_view();
        let ghost x = p.deep_view();
        assert(q[it.index() as int] == x);
        let mut k: usize = out.len();
        while k > 0 && p.tid().is_older(out[k - 1].tid())
            invariant
                k <= out@.len(),
                o == out.deep_view(),
                x == p.deep_view(),
                transactions::age_place(o, o.len(), x) == transactions::age_place(o, k as nat, x),
            decreases k,
        {
            assert(o[k - 1] == out@[k - 1].deep_view());
            k = k - 1;
        }
        proof {
            if k > 0 {
                assert(o[k - 1] == out@[k - 1].deep_view());
            }
        }
        out.insert(k, p);
        assert(out.deep_view() =~= o.insert(k as int, x));
    }
    out
}

/// The requests of a transaction, and the others.
fn split_by_txn(ws: Vec<ParkedRequest>, tid: &TxnId) -> (r: (
    Vec<ParkedRequest>,
    Vec<ParkedRequest>,
))
    ensures
        r.0.deep_view() == transactions::own(ws.deep_view(), *tid, ws.deep_view().len()),
        r.1.deep_view() == transactions::others(ws.deep_view(), *tid, ws.deep_view().len()),
{
    let ghost w = ws.deep_view();
    let mut mine: Vec<ParkedRequest> = Vec::new();
    let mut rest: Vec<ParkedRequest> = Vec::new();
    assert(mine.deep_view() =~= Seq::<ParkedM>::empty());
    assert(rest.deep_view() =~= Seq::<ParkedM>::empty());
    for p in it: ws
        invariant
            w == ws.deep_view(),
            it.seq() == ws@,
            mine.deep_view() == transactions::own(w, *tid, it.index() as nat),
            rest.deep_view() == transactions::others(w, *tid, it.index() as nat),
    {
        assert(w[it.index() as int] == p.deep_view());
        if *p.tid() == *tid {
            let ghost before = mine.deep_view();
            mine.push(p);
            assert(mine.deep_view() =~= before.push(p.deep_view()));
        } else {
            let ghost before = rest.deep_view();
            rest.push(p);
            assert(rest.deep_view() =~= before.push(p.deep_view()));
        }
    }
    (mine, rest)
}

/// Taking out what was put is taking out what was there.
proof fn lemma_put_without<K, V>(s: Seq<(K, V)>, k: K, v: V)
    requires
        table::bound(s, k),
    ensures
        table::without(table::put(s, k, v), k) == table::without(s, k),
{
    table::lemma_slot(s, k);
    let t = table::put(s, k, v);
    table::lemma_slot_is(t, k, table::slot(s, k) as int);
    assert(table::without(t, k) =~= table::without(s, k));
}

/// A new node.
pub open spec fn new_manager(names: Seq<Seq<char>>, node_id: u64) -> ManagerM {
    ManagerM {
        services: seq![],
        remote_services: seq![],
        network: None,
        pending_replies: seq![],
        channels: seq![],
        next_channel: 0,
        node_id,
        clock: 0,
        pending_txns: seq![],
        wait_queue: seq![],
        local_address: None,
        outbound_ip: None,
        local: false,
        interner: names,
        reactive_cache: None,
        listener_addrs: seq![],
        next_lookup_id: 1,
        next_action_id: 1,
        next_commit_id: 1,
        next_abort_id: 1,
        next_sub_id: 1,
        depth_limit: DEFAULT_DEPTH_LIMIT,
    }
}

} // verus!
