//! Telling other nodes of changes.

use crate::net::messages::MessageM;
use crate::net::wire;
use crate::runtime::ast::model::{ExprM, ValueM};
use crate::runtime::ast::renaming;
use crate::runtime::interner;
use crate::runtime::interner::Symbol;
use crate::runtime::interpreter::evaluator::ErrM;
use crate::runtime::manager::endings::sent;
use crate::runtime::manager::model;
use crate::runtime::manager::model::{KeyM, ManagerM, ServiceM, SlotM, World};
use crate::runtime::manager::reactive;
use crate::runtime::manager::semantics;
use crate::runtime::table;
use crate::runtime::txn::VarStateM;
use vstd::prelude::*;

verus! {

/// Whether a message tells a definition of another node the value that a member
/// of a service has on this one.
pub open spec fn tells_value(
    x: MessageM,
    m: ManagerM,
    listener: KeyM,
    svc: Symbol,
    member: Symbol,
) -> bool {
    x matches MessageM::Update {
        listener_service,
        listener_def,
        source_service,
        member: source_member,
        value,
    } && {
        &&& listener_service == listener.0
        &&& listener_def == model::name(m, listener.1)
        &&& source_service == model::name(m, svc)
        &&& source_member == model::name(m, member)
        &&& reactive::kept_value(m, (svc, member)) is Ok
        &&& value == model::wire_value(m, reactive::kept_value(m, (svc, member))->Ok_0)
    }
}

/// A definition of another node that asks for the changes of a member listens to
/// it from then on, at the address that it gave, and is told the value that the
/// member has. No value changes by that.
pub proof fn law_subscriber_listens(
    m: ManagerM,
    svc: Symbol,
    member: Symbol,
    listener: KeyM,
    reply_to: Seq<char>,
)
    requires
        m.network is Some,
        model::var_of(m, svc, member) is Some,
    ensures
        ({
            let z = model::request_updates(m, svc, member, listener.0, listener.1, reply_to);
            let v = model::var_of(m, svc, member)->Some_0.value;
            &&& model::listeners_of(z, svc, member).contains(listener)
            &&& table::get(z.listener_addrs, listener.0) == Some(reply_to)
            &&& reactive::kept_value(z, (svc, member)) == reactive::kept_value(m, (svc, member))
            &&& model::wire_ok(m, v) ==> exists|x: MessageM|
                sent(z) == sent(m).push((reply_to, x)) && #[trigger] tells_value(
                    x,
                    m,
                    listener,
                    svc,
                    member,
                )
            &&& !model::wire_ok(m, v) ==> sent(z) == sent(m)
        }),
{
    let z = model::request_updates(m, svc, member, listener.0, listener.1, reply_to);
    let s = table::get(m.services, svc)->Some_0;
    let v = table::get(s.vars, member)->Some_0.value;
    let s1 = model::with_listener(s, member, listener);
    let have = match table::get(s.listeners, member) {
        None => seq![],
        Some(x) => x,
    };
    table::lemma_put(m.services, svc, s1, svc);
    table::lemma_put(s.listeners, member, table::added(have, listener), member);
    table::lemma_put(m.listener_addrs, listener.0, reply_to, listener.0);
    let all = table::added(have, listener);
    if !have.contains(listener) {
        assert(all[have.len() as int] == listener);
    }
    assert(all.contains(listener));
    let w = ManagerM {
        services: table::put(m.services, svc, s1),
        listener_addrs: table::put(m.listener_addrs, listener.0, reply_to),
        ..m
    };
    let x = model::update_msg(
        w,
        listener.0,
        listener.1,
        svc,
        member,
        model::wire_value(w, v),
    );
    assert(tells_value(x, m, listener, svc, member));
}

/// Whether a listener is on another node, at a known address.
pub open spec fn away(m: ManagerM, l: KeyM) -> bool {
    model::name_for_id(m, l.0) is None && table::get(m.listener_addrs, l.0) is Some
}

/// When a member changes, each definition of another node that listens to it is
/// told its value, at its own address and in order, and nothing else happens here.
pub proof fn law_listeners_away_are_told(
    n: nat,
    ls: Seq<KeyM>,
    i: nat,
    svc: Symbol,
    member: Symbol,
    work: Seq<(Symbol, Symbol)>,
    m: ManagerM,
)
    requires
        m.network is Some,
        i <= ls.len(),
        forall|k: int| 0 <= k < ls.len() ==> away(m, #[trigger] ls[k]),
        model::var_of(m, svc, member) matches Some(v) && model::wire_ok(m, v.value),
    ensures
        ({
            let (r, z) = semantics::notify(n, ls, i, svc, member, work, m);
            &&& r == Ok::<Seq<(Symbol, Symbol)>, ErrM>(work)
            &&& z == (ManagerM { network: z.network, ..m })
            &&& sent(z).len() == sent(m).len() + ls.len() - i
            &&& forall|k: int| 0 <= k < sent(m).len() ==> #[trigger] sent(z)[k] == sent(m)[k]
            &&& forall|k: int|
                i <= k < ls.len() ==> {
                    let x = sent(z)[sent(m).len() + k - i];
                    &&& Some(x.0) == table::get(m.listener_addrs, (#[trigger] ls[k]).0)
                    &&& tells_value(x.1, m, ls[k], svc, member)
                }
        }),
    decreases ls.len() - i,
{
    reveal(semantics::notify);
    reveal(semantics::recompute_def);
    if i < ls.len() {
        let l = ls[i as int];
        assert(away(m, l));
        let m1 = model::emit_update(m, l.0, l.1, svc, member);
        assert forall|k: int| 0 <= k < ls.len() implies away(m1, #[trigger] ls[k]) by {
            assert(away(m, ls[k]));
        }
        assert(model::var_of(m1, svc, member) == model::var_of(m, svc, member));
        law_listeners_away_are_told(n, ls, i + 1, svc, member, work, m1);
        let z = semantics::notify(n, ls, i + 1, svc, member, work, m1).1;
        let q = sent(m).len() as int;
        assert(sent(m1)[q].0 == table::get(m.listener_addrs, l.0)->Some_0);
        assert(tells_value(sent(m1)[q].1, m, l, svc, member));
        assert(sent(z)[q] == sent(m1)[q]);
        assert forall|k: int| 0 <= k < sent(m).len() implies #[trigger] sent(z)[k] == sent(
            m,
        )[k] by {
            assert(sent(m1)[k] == sent(m)[k]);
        }
        assert forall|k: int| i <= k < ls.len() implies {
            let x = sent(z)[sent(m).len() + k - i];
            &&& Some(x.0) == table::get(m.listener_addrs, (#[trigger] ls[k]).0)
            &&& tells_value(x.1, m, ls[k], svc, member)
        } by {
            if k > i {
                let x = sent(z)[sent(m1).len() + k - (i + 1)];
                assert(tells_value(x.1, m1, ls[k], svc, member));
                assert(reactive::kept_value(m1, (svc, member)) == reactive::kept_value(
                    m,
                    (svc, member),
                ));
            }
        }
    }
}

/// A definition that uses a member of another node asks that node to be told: the
/// message goes to the address of the service, names both and says where to
/// answer.
pub proof fn law_subscription_is_sent(
    m: ManagerM,
    owner: Symbol,
    member: Symbol,
    this_id: Seq<char>,
    def: Symbol,
)
    requires
        m.network is Some,
    ensures
        ({
            let z = model::subscribe(m, owner, member, this_id, def);
            match model::remote_addr(m, owner) {
                Err(_) => z == m,
                Ok(addr) => sent(z).len() == sent(m).len() + 1 && sent(z).drop_last() == sent(m)
                    && sent(z).last().0 == addr && (sent(z).last().1 matches MessageM::RequestUpdates {
                    request_id,
                    service,
                    member: wanted,
                    listener_service,
                    listener_def,
                    reply_to,
                } && service == model::name(m, owner) && wanted == model::name(m, member)
                    && listener_service == this_id && listener_def == model::name(m, def)
                    && reply_to == model::reply_addr(m)),
            }
        }),
{
    let z = model::subscribe(m, owner, member, this_id, def);
    if model::remote_addr(m, owner) is Ok {
        assert(sent(z).drop_last() =~= sent(m));
    }
}

/// A reply reaches the one who waits for it, and nobody waits for it any more. A
/// reply to another request leaves them waiting.
pub proof fn law_reply_is_delivered(m: ManagerM, rid: u64, msg: MessageM, other: MessageM)
    requires
        msg.replies_to() == Some(rid),
        other.replies_to() != Some(rid),
        table::keys_distinct(m.pending_replies),
        forall|r: u64| #[trigger]
            table::get(m.pending_replies, r) != Some(m.next_channel),
    ensures
        ({
            let m1 = model::register(m, rid);
            let m2 = model::deliver(m1, msg);
            let m3 = model::deliver(m1, other);
            &&& model::awaited(m1) is Some
            &&& table::get(m2.channels, m.next_channel) == Some(SlotM::Full(msg))
            &&& !table::bound(m2.pending_replies, rid)
            &&& table::get(m3.channels, m.next_channel) == Some(SlotM::Open)
            &&& model::deliver(m3, msg).pending_replies == table::without(m3.pending_replies, rid)
            &&& table::get(model::deliver(m3, msg).channels, m.next_channel) == Some(
                SlotM::Full(msg),
            )
        }),
{
    let c = m.next_channel;
    let m1 = model::register(m, rid);
    let m3 = model::deliver(m1, other);
    table::lemma_put(m.pending_replies, rid, c, rid);
    table::lemma_slot(m1.pending_replies, rid);
    table::lemma_put(m1.channels, c, SlotM::Full(msg), c);
    let closed = match table::get(m.pending_replies, rid) {
        Some(x) => table::put(m.channels, x, SlotM::Closed),
        None => m.channels,
    };
    table::lemma_put(closed, c, SlotM::Open, c);
    table::lemma_without(m1.pending_replies, rid, rid);
    if let Some(r) = other.replies_to() {
        table::lemma_put(m.pending_replies, rid, c, r);
        if let Some(x) = table::get(m1.pending_replies, r) {
            assert(x != c);
            table::lemma_put(m1.channels, x, SlotM::Full(other), c);
            table::lemma_without(m1.pending_replies, r, rid);
        }
    }
    table::lemma_put(m3.channels, c, SlotM::Full(msg), c);
}

/// A definition that is a member of another node is computed anew from its cached
/// value.
proof fn lemma_recomputed(n: nat, svc: Symbol, def: Symbol, far: (Symbol, Symbol), m: ManagerM)
    requires
        n >= 2,
        model::def_of(m, svc, def) == Some(
            ExprM::MemberAccess { service_name: far.0, member_name: far.1 },
        ),
        model::var_of(m, svc, def) is Some,
        m.reactive_cache is None,
        table::get(model::cache_of(table::get(m.services, svc)->Some_0, def), far) is Some,
    ensures
        ({
            let v = table::get(
                model::cache_of(table::get(m.services, svc)->Some_0, def),
                far,
            )->Some_0;
            let state = model::var_of(m, svc, def)->Some_0;
            semantics::recompute_def(n, svc, def, m) == (
                Ok::<bool, ErrM>(state.value != v),
                model::with_var(m, svc, def, VarStateM { value: v, ..state }),
            )
        }),
{
    let e = ExprM::MemberAccess { service_name: far.0, member_name: far.1 };
    let s = table::get(m.services, svc)->Some_0;
    let m1 = ManagerM { reactive_cache: Some(model::cache_of(s, def)), ..m };
    reactive::lemma_eval_steps(
        (n - 1) as nat,
        e,
        model::var_env(s),
        svc,
        World { m: m1, t: None },
    );
    reveal(semantics::recompute_def);
    assert(ManagerM { reactive_cache: None, ..m1 } == m);
}

/// Without listeners there is nobody to tell.
proof fn lemma_nobody(n: nat, svc: Symbol, def: Symbol, m: ManagerM)
    requires
        n >= 1,
        model::listeners_of(m, svc, def).len() == 0,
    ensures
        semantics::propagate(n, seq![(svc, def)], m) == (Ok::<(), ErrM>(()), m),
{
    reveal(semantics::propagate);
    reveal(semantics::pass_on);
    reveal(semantics::notify);
    reveal(semantics::recompute_def);
    let work = seq![(svc, def)];
    let none = Seq::<(Symbol, Symbol)>::empty();
    assert(work.drop_last() =~= none);
    let left = semantics::CHANGE_LIMIT as nat;
    assert(semantics::pass_on(n, (left - 1) as nat, none, m) == (Ok::<(), ErrM>(()), m));
    assert(semantics::notify(
        (n - 1) as nat,
        model::listeners_of(m, svc, def),
        0,
        svc,
        def,
        none,
        m,
    ) == (Ok::<Seq<(Symbol, Symbol)>, ErrM>(none), m));
    assert(semantics::pass_on(n, left, work, m) == (Ok::<(), ErrM>(()), m));
}

/// A definition that is a member of another node takes on each new value that the
/// other node tells of, and no other variable of the service changes.
pub proof fn law_update_is_followed(
    n: nat,
    listener: Seq<char>,
    svc: Symbol,
    def: Symbol,
    far: (Symbol, Symbol),
    value: ValueM<Seq<char>>,
    m: ManagerM,
    other: Symbol,
)
    requires
        n >= 2,
        wire::value_log(value).err is None,
        model::name_for_id(m, listener) == Some(svc),
        model::def_of(m, svc, def) == Some(
            ExprM::MemberAccess { service_name: far.0, member_name: far.1 },
        ),
        model::var_of(m, svc, def) is Some,
        model::listeners_of(m, svc, def).len() == 0,
        m.reactive_cache is None,
        other != def,
    ensures
        ({
            let (r, z) = semantics::handle_update(n, listener, def, far.0, far.1, value, m);
            let names = interner::interned_all(m.interner, wire::value_log(value).names);
            &&& r is Ok
            &&& model::var_of(z, svc, def) is Some
            &&& model::var_of(z, svc, def)->Some_0.value == renaming::map_value(
                wire::symbolizing(names),
                value,
            )
            &&& model::var_of(z, svc, other) == model::var_of(m, svc, other)
        }),
{
    let names = interner::interned_all(m.interner, wire::value_log(value).names);
    let v = renaming::map_value(wire::symbolizing(names), value);
    let m1 = ManagerM { interner: names, ..m };
    let s = table::get(m.services, svc)->Some_0;
    let cache = table::put(model::cache_of(s, def), far, v);
    let s2 = ServiceM { dep_cache: table::put(s.dep_cache, def, cache), ..s };
    let m2 = model::with_service(m1, svc, s2);
    table::lemma_put(m1.services, svc, s2, svc);
    table::lemma_put(s.dep_cache, def, cache, def);
    table::lemma_put(model::cache_of(s, def), far, v, far);
    lemma_recomputed(n, svc, def, far, m2);
    let state = model::var_of(m2, svc, def)->Some_0;
    let s3 = ServiceM {
        vars: table::put(s2.vars, def, VarStateM { value: v, ..state }),
        ..s2
    };
    let m3 = model::with_service(m2, svc, s3);
    table::lemma_put(m2.services, svc, s3, svc);
    table::lemma_put(s2.vars, def, VarStateM { value: v, ..state }, other);
    lemma_nobody(n, svc, def, m3);
    reveal(semantics::handle_update);
    reveal(semantics::recompute_def);
    reveal(semantics::propagate);
    reveal(semantics::pass_on);
}

} // verus!
