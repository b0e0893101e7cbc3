//! A dispatch on a concurrent runtime is all or nothing: where it fails, no value of the
//! state changes.

use vstd::prelude::*;
use crate::outer_call::{concurrent_outcome, OuterCall};
use crate::runtime::{
    ConcurrentModel, ConcurrentRuntime, DispatchError, Dispatchable, ModuleRuntime, RuntimeModel, SequentialModel,
    SequentialRuntime,
};
use crate::balances::BalanceOf;
use crate::primitives::AccountId;
use crate::storage::map_key;
use crate::state::value_or;
use crate::{balances, staking};

verus! {

/// What each key of a state reads as: its value, or nothing where it has none.
pub open spec fn values_of(s: RuntimeModel) -> Map<Seq<u8>, Seq<u8>> {
    Map::new(|k: Seq<u8>| true, |k: Seq<u8>| value_or(s, k, Seq::<u8>::empty()))
}

/// A read or a write through a concurrent runtime changes no value of the state: a read at
/// most makes the thread owner of the key, and a write goes to the cache.
proof fn lemma_steps_keep_values()
    ensures
        forall|m: ConcurrentModel, k: Seq<u8>|
            #[trigger] values_of(ConcurrentRuntime::read_step(m, k).1.state) == values_of(m.state),
        forall|m: ConcurrentModel, k: Seq<u8>, v: Seq<u8>|
            #[trigger] values_of(ConcurrentRuntime::write_step(m, k, v).1.state) == values_of(m.state),
{
    assert forall|m: ConcurrentModel, k: Seq<u8>|
        #[trigger] values_of(ConcurrentRuntime::read_step(m, k).1.state) == values_of(m.state) by {
        assert(values_of(ConcurrentRuntime::read_step(m, k).1.state) =~= values_of(m.state));
    }
    assert forall|m: ConcurrentModel, k: Seq<u8>, v: Seq<u8>|
        #[trigger] values_of(ConcurrentRuntime::write_step(m, k, v).1.state) == values_of(m.state) by {
        assert(values_of(ConcurrentRuntime::read_step(m, k).1.state) =~= values_of(m.state));
        assert(values_of(ConcurrentRuntime::write_step(m, k, v).1.state) =~= values_of(m.state));
    }
}

proof fn lemma_transfer_keeps_values(m: ConcurrentModel, origin: Seq<u8>, dest: Seq<u8>, value: u128)
    ensures
        values_of(balances::transfer_spec::<ConcurrentRuntime>(m, origin, dest, value).1.state) == values_of(m.state),
        balances::transfer_spec::<ConcurrentRuntime>(m, origin, dest, value).1.id == m.id,
{
    lemma_steps_keep_values();
}

proof fn lemma_bond_keeps_values(m: ConcurrentModel, stash: Seq<u8>, amount: u128, ctrl: Seq<u8>)
    ensures
        values_of(staking::bond_spec::<ConcurrentRuntime>(m, stash, amount, ctrl).1.state) == values_of(m.state),
        staking::bond_spec::<ConcurrentRuntime>(m, stash, amount, ctrl).1.id == m.id,
{
    lemma_steps_keep_values();
}

proof fn lemma_bond_extra_keeps_values(m: ConcurrentModel, stash: Seq<u8>, amount: u128)
    ensures
        values_of(staking::bond_extra_spec::<ConcurrentRuntime>(m, stash, amount).1.state) == values_of(m.state),
        staking::bond_extra_spec::<ConcurrentRuntime>(m, stash, amount).1.id == m.id,
{
    lemma_steps_keep_values();
}

proof fn lemma_unbond_keeps_values(m: ConcurrentModel, stash: Seq<u8>, amount: u128)
    ensures
        values_of(staking::unbond_spec::<ConcurrentRuntime>(m, stash, amount).1.state) == values_of(m.state),
        staking::unbond_spec::<ConcurrentRuntime>(m, stash, amount).1.id == m.id,
{
    lemma_steps_keep_values();
}

proof fn lemma_set_controller_keeps_values(m: ConcurrentModel, stash: Seq<u8>, ctrl: Seq<u8>)
    ensures
        values_of(staking::set_controller_spec::<ConcurrentRuntime>(m, stash, ctrl).1.state) == values_of(m.state),
        staking::set_controller_spec::<ConcurrentRuntime>(m, stash, ctrl).1.id == m.id,
{
    lemma_steps_keep_values();
}

proof fn lemma_validate_keeps_values(m: ConcurrentModel, ctrl: Seq<u8>)
    ensures
        values_of(staking::validate_spec::<ConcurrentRuntime>(m, ctrl).1.state) == values_of(m.state),
        staking::validate_spec::<ConcurrentRuntime>(m, ctrl).1.id == m.id,
{
    lemma_steps_keep_values();
}

proof fn lemma_nominate_keeps_values(m: ConcurrentModel, ctrl: Seq<u8>, targets: Seq<Seq<u8>>)
    ensures
        values_of(staking::nominate_spec::<ConcurrentRuntime>(m, ctrl, targets).1.state) == values_of(m.state),
        staking::nominate_spec::<ConcurrentRuntime>(m, ctrl, targets).1.id == m.id,
{
    lemma_steps_keep_values();
}

proof fn lemma_chill_keeps_values(m: ConcurrentModel, ctrl: Seq<u8>)
    ensures
        values_of(staking::chill_spec::<ConcurrentRuntime>(m, ctrl).1.state) == values_of(m.state),
        staking::chill_spec::<ConcurrentRuntime>(m, ctrl).1.id == m.id,
{
    lemma_steps_keep_values();
}

/// Until it commits, a dispatch on a concurrent runtime changes no value of the state.
proof fn lemma_dispatch_keeps_values(c: &OuterCall, m: ConcurrentModel, origin: Seq<u8>)
    ensures
        values_of(<OuterCall as Dispatchable<ConcurrentRuntime>>::dispatch_spec(c, m, origin).1.state) == values_of(
            m.state,
        ),
        <OuterCall as Dispatchable<ConcurrentRuntime>>::dispatch_spec(c, m, origin).1.id == m.id,
{
    match c {
        OuterCall::Balances(balances::Call::Transfer(to, value)) => lemma_transfer_keeps_values(m, origin, to.0@, *value),
        OuterCall::Staking(sc) => match sc {
            staking::Call::TxBond(amount, ctrl) => lemma_bond_keeps_values(m, origin, *amount, ctrl.0@),
            staking::Call::TxBondExtra(amount) => lemma_bond_extra_keeps_values(m, origin, *amount),
            staking::Call::TxUnbond(amount) => lemma_unbond_keeps_values(m, origin, *amount),
            staking::Call::TxSetController(ctrl) => lemma_set_controller_keeps_values(m, origin, ctrl.0@),
            staking::Call::TxValidate() => lemma_validate_keeps_values(m, origin),
            staking::Call::TxNominate(targets) => lemma_nominate_keeps_values(
                m,
                origin,
                staking::accounts_model(targets@),
            ),
            staking::Call::TxChill() => lemma_chill_keeps_values(m, origin),
        },
    }
}

/// A dispatch on a concurrent runtime is all or nothing. Where it fails, by a logic error or
/// by a key that another thread owns, it writes nothing: every key of the state reads as it
/// did before. Where it succeeds, the state reads as before except for the writes of the
/// dispatch, which were cached until then, each now owned by the thread of the runtime.
/// Either way the cache ends empty.
pub proof fn law_dispatch_is_all_or_nothing(c: &OuterCall, m: ConcurrentModel, origin: Seq<u8>)
    ensures
        ({
            let (r, m1) = <OuterCall as Dispatchable<ConcurrentRuntime>>::dispatch_spec(c, m, origin);
            let after = concurrent_outcome(r, m1);
            &&& r is Err ==> values_of(after.state) == values_of(m.state)
            &&& r is Ok ==> values_of(after.state) == values_of(m.state).union_prefer_right(m1.cache)
            &&& r is Ok ==> forall|k: Seq<u8>|
                #[trigger] m1.cache.contains_key(k) ==> after.state.contains_key(k) && after.state[k] == (
                    m1.cache[k],
                    Some(m.id),
                )
            &&& after.cache == Map::<Seq<u8>, Seq<u8>>::empty()
            &&& after.id == m.id
        }),
{
    lemma_dispatch_keeps_values(c, m, origin);
    let (r, m1) = <OuterCall as Dispatchable<ConcurrentRuntime>>::dispatch_spec(c, m, origin);
    let after = concurrent_outcome(r, m1);
    if r is Ok {
        assert(values_of(after.state) =~= values_of(m1.state).union_prefer_right(m1.cache));
    }
}

/// Two models of a concurrent runtime agree outside the keys `keys`: in the state, owners
/// included, and in the cache.
pub open spec fn same_outside(keys: Set<Seq<u8>>, a: ConcurrentModel, b: ConcurrentModel) -> bool {
    &&& a.state.remove_keys(keys) == b.state.remove_keys(keys)
    &&& a.cache.remove_keys(keys) == b.cache.remove_keys(keys)
    &&& a.id == b.id
}

/// A read or a write through a concurrent runtime touches its key and no other.
proof fn lemma_steps_stay_inside(keys: Set<Seq<u8>>)
    ensures
        forall|m: ConcurrentModel, k: Seq<u8>|
            keys.contains(k) ==> same_outside(keys, #[trigger] ConcurrentRuntime::read_step(m, k).1, m),
        forall|m: ConcurrentModel, k: Seq<u8>, v: Seq<u8>|
            keys.contains(k) ==> same_outside(keys, #[trigger] ConcurrentRuntime::write_step(m, k, v).1, m),
{
    assert forall|m: ConcurrentModel, k: Seq<u8>|
        keys.contains(k) implies same_outside(keys, #[trigger] ConcurrentRuntime::read_step(m, k).1, m) by {
        let m1 = ConcurrentRuntime::read_step(m, k).1;
        assert(m1.state.remove_keys(keys) =~= m.state.remove_keys(keys));
        assert(m1.cache.remove_keys(keys) =~= m.cache.remove_keys(keys));
    }
    assert forall|m: ConcurrentModel, k: Seq<u8>, v: Seq<u8>|
        keys.contains(k) implies same_outside(keys, #[trigger] ConcurrentRuntime::write_step(m, k, v).1, m) by {
        let m1 = ConcurrentRuntime::read_step(m, k).1;
        assert(m1.state.remove_keys(keys) =~= m.state.remove_keys(keys));
        assert(m1.cache.remove_keys(keys) =~= m.cache.remove_keys(keys));
        let m2 = ConcurrentRuntime::write_step(m, k, v).1;
        assert(m2.state.remove_keys(keys) =~= m.state.remove_keys(keys));
        assert(m2.cache.remove_keys(keys) =~= m.cache.remove_keys(keys));
    }
}

/// A transfer on a concurrent runtime touches no key but the two it declares, those of the
/// balances of its origin and of its destination: every other key of the state keeps its
/// value and its owner, whether the transfer commits or not. This is what lets transfers that
/// declare no common key run on different workers.
pub proof fn law_transfer_touches_only_declared_keys(m: ConcurrentModel, origin: Seq<u8>, to: AccountId, value: u128)
    requires
        m.cache == Map::<Seq<u8>, Seq<u8>>::empty(),
    ensures
        ({
            let c = OuterCall::Balances(balances::Call::Transfer(to, value));
            let keys = <OuterCall as Dispatchable<ConcurrentRuntime>>::validate_spec(&c, origin).to_set();
            let (r, m1) = <OuterCall as Dispatchable<ConcurrentRuntime>>::dispatch_spec(&c, m, origin);
            concurrent_outcome(r, m1).state.remove_keys(keys) == m.state.remove_keys(keys)
        }),
{
    let c = OuterCall::Balances(balances::Call::Transfer(to, value));
    let keys = <OuterCall as Dispatchable<ConcurrentRuntime>>::validate_spec(&c, origin).to_set();
    let ko = map_key::<ConcurrentRuntime, BalanceOf<ConcurrentRuntime>>(origin);
    let kd = map_key::<ConcurrentRuntime, BalanceOf<ConcurrentRuntime>>(to.0@);
    assert(keys.contains(ko)) by {
        assert(seq![ko, kd][0] == ko);
    }
    assert(keys.contains(kd)) by {
        assert(seq![ko, kd][1] == kd);
    }
    lemma_steps_stay_inside(keys);
    let (r, m1) = <OuterCall as Dispatchable<ConcurrentRuntime>>::dispatch_spec(&c, m, origin);
    assert(same_outside(keys, m1, m));
    assert(m1.cache.remove_keys(keys) =~= Map::<Seq<u8>, Seq<u8>>::empty());
    let after = concurrent_outcome(r, m1);
    if r is Ok {
        assert forall|k: Seq<u8>| #[trigger] m1.cache.contains_key(k) implies keys.contains(k) by {
            if !keys.contains(k) {
                assert(m1.cache.remove_keys(keys).contains_key(k));
            }
        }
        assert(after.state.remove_keys(keys) =~= m1.state.remove_keys(keys));
    }
}

/// Every key of `after` that some thread owns holds what it held in `before`: whatever was
/// written or created in between is owned by no one.
pub open spec fn owned_kept(after: RuntimeModel, before: RuntimeModel) -> bool {
    forall|k: Seq<u8>|
        #[trigger] after.contains_key(k) && after[k].1 is Some ==> before.contains_key(k) && before[k] == after[k]
}

/// A read or a write through a sequential runtime keeps every owned key: a write leaves its
/// key owned by no one. Keeping owned keys is transitive.
proof fn lemma_sequential_steps_keep_owned()
    ensures
        forall|m: SequentialModel, k: Seq<u8>| #[trigger] owned_kept(SequentialRuntime::read_step(m, k).1.state, m.state),
        forall|m: SequentialModel, k: Seq<u8>, v: Seq<u8>|
            #[trigger] owned_kept(SequentialRuntime::write_step(m, k, v).1.state, m.state),
        forall|a: RuntimeModel, b: RuntimeModel, c: RuntimeModel|
            #![trigger owned_kept(a, b), owned_kept(b, c)]
            owned_kept(a, b) && owned_kept(b, c) ==> owned_kept(a, c),
        forall|a: RuntimeModel| #[trigger] owned_kept(a, a),
{
}

proof fn lemma_sequential_call_keeps_owned(c: &OuterCall, m: SequentialModel, origin: Seq<u8>)
    ensures
        owned_kept(<OuterCall as Dispatchable<SequentialRuntime>>::dispatch_spec(c, m, origin).1.state, m.state),
{
    lemma_sequential_steps_keep_owned();
    match c {
        OuterCall::Balances(balances::Call::Transfer(to, value)) => {
            let r = balances::transfer_spec::<SequentialRuntime>(m, origin, to.0@, *value);
            assert(owned_kept(r.1.state, m.state));
        },
        OuterCall::Staking(sc) => match sc {
            staking::Call::TxBond(amount, ctrl) => {
                assert(owned_kept(staking::bond_spec::<SequentialRuntime>(m, origin, *amount, ctrl.0@).1.state, m.state));
            },
            staking::Call::TxBondExtra(amount) => {
                assert(owned_kept(staking::bond_extra_spec::<SequentialRuntime>(m, origin, *amount).1.state, m.state));
            },
            staking::Call::TxUnbond(amount) => {
                assert(owned_kept(staking::unbond_spec::<SequentialRuntime>(m, origin, *amount).1.state, m.state));
            },
            staking::Call::TxSetController(ctrl) => {
                assert(owned_kept(staking::set_controller_spec::<SequentialRuntime>(m, origin, ctrl.0@).1.state, m.state));
            },
            staking::Call::TxValidate() => {
                assert(owned_kept(staking::validate_spec::<SequentialRuntime>(m, origin).1.state, m.state));
            },
            staking::Call::TxNominate(targets) => {
                assert(owned_kept(
                    staking::nominate_spec::<SequentialRuntime>(m, origin, staking::accounts_model(targets@)).1.state,
                    m.state,
                ));
            },
            staking::Call::TxChill() => {
                assert(owned_kept(staking::chill_spec::<SequentialRuntime>(m, origin).1.state, m.state));
            },
        },
    }
}

/// A dispatch on a sequential runtime is never refused for a key that another thread owns:
/// it succeeds or fails by a logic error. Every key that it writes or creates ends owned by no
/// one; every key that some thread owns afterwards holds what it held before.
pub proof fn law_sequential_dispatch_never_tainted(c: &OuterCall, m: SequentialModel, origin: Seq<u8>)
    ensures
        ({
            let (r, m1) = <OuterCall as Dispatchable<SequentialRuntime>>::dispatch_spec(c, m, origin);
            &&& (r is Ok || r matches Err(DispatchError::LogicError(_)))
            &&& owned_kept(m1.state, m.state)
            &&& m1.id == m.id
        }),
{
    crate::executor::lemma_sequential_untainted(c, m, origin);
    crate::executor::lemma_sequential_keeps_id(c, m, origin);
    lemma_sequential_call_keeps_owned(c, m, origin);
}

} // verus!
