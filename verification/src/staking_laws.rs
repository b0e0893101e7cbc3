//! What the staking calls do to the balances and bindings they touch, stated over the values
//! that the keys read as afterwards.

use vstd::prelude::*;
use crate::balances::{balance_in, AccountBalance, BalanceOf};
use crate::codec::Codec;
use crate::primitives::{zero_bytes, Public};
use crate::runtime::ModuleRuntime;
use crate::safety::{lemma_balance_ledger_keys_differ, lemma_map_read, lemma_map_write};
use crate::staking::{self, default_ledger, Bonded, LedgerModel, Ledger, StakingLedger};
use crate::storage::{decode_or_default, map_key, map_read, map_write};

verus! {

/// The ledger of `stash` as it reads in `m`.
pub open spec fn ledger_in<R: ModuleRuntime>(m: R::Model, stash: Seq<u8>) -> LedgerModel {
    decode_or_default::<StakingLedger>(R::value_of(m, map_key::<R, Ledger<R>>(stash)))
}

/// The stash that `ctrl` reads as bonded to in `m` (the zero account where none).
pub open spec fn bonded_in<R: ModuleRuntime>(m: R::Model, ctrl: Seq<u8>) -> Seq<u8> {
    decode_or_default::<Public>(R::value_of(m, map_key::<R, Bonded<R>>(ctrl)))
}

/// A ledger read back from storage has a controller of 32 bytes.
proof fn lemma_ledger_encodable(b: Seq<u8>)
    ensures
        StakingLedger::model_encodable(decode_or_default::<StakingLedger>(b)),
{
}

/// Unbonding releases what it unbonds. After a successful unbond of `amount`, the reserved
/// balance of the stash is lower by `amount` and its free balance higher by `amount`, so its
/// total is unchanged; and the bonded value of its ledger is lower by `amount`, so a reserve
/// that matched the bonded value still does.
pub proof fn law_unbond_releases<R: ModuleRuntime>(m: R::Model, stash: Seq<u8>, amount: u128)
    requires
        stash.len() == 32,
        staking::unbond_safe::<R>(m, stash, amount),
        staking::unbond_spec::<R>(m, stash, amount).0 is Ok,
    ensures
        ({
            let after = staking::unbond_spec::<R>(m, stash, amount).1;
            let b = balance_in::<R>(m, stash);
            &&& balance_in::<R>(after, stash) == ((b.0 + amount) as u128, (b.1 - amount) as u128)
            &&& b.0 + amount <= u128::MAX
            &&& b.1 >= amount
            &&& balance_in::<R>(after, stash).0 + balance_in::<R>(after, stash).1 == b.0 + b.1
            &&& ledger_in::<R>(after, stash).0 == ledger_in::<R>(m, stash).0 - amount
        }),
{
    let lk = map_key::<R, Ledger<R>>(stash);
    let bk = map_key::<R, BalanceOf<R>>(stash);
    lemma_balance_ledger_keys_differ::<R>(stash, stash);
    lemma_map_read::<R, Ledger<R>>(m, stash);
    let (r1, m1) = map_read::<R, Ledger<R>>(m, stash);
    let l = r1->Ok_0;
    assert(l == ledger_in::<R>(m, stash));
    let nl = ((l.0 - amount) as u128, l.1, l.2);
    lemma_ledger_encodable(R::value_of(m, lk));
    lemma_map_write::<R, Ledger<R>>(m1, stash, nl);
    let m2 = map_write::<R, Ledger<R>>(m1, stash, nl).1;
    lemma_map_read::<R, BalanceOf<R>>(m2, stash);
    let (r3, m3) = map_read::<R, BalanceOf<R>>(m2, stash);
    let b = r3->Ok_0;
    assert(b == balance_in::<R>(m, stash));
    let nb = ((b.0 + amount) as u128, (b.1 - amount) as u128);
    lemma_map_write::<R, BalanceOf<R>>(m3, stash, nb);
    let after = map_write::<R, BalanceOf<R>>(m3, stash, nb).1;
    AccountBalance::lemma_roundtrip(nb, Seq::empty());
    assert(AccountBalance::encoding(nb) + Seq::<u8>::empty() =~= AccountBalance::encoding(nb));
    StakingLedger::lemma_roundtrip(nl, Seq::empty());
    assert(StakingLedger::encoding(nl) + Seq::<u8>::empty() =~= StakingLedger::encoding(nl));
    assert(R::value_of(after, lk) == StakingLedger::encoding(nl));
}

/// The storage keys of bindings and of ledgers are apart, and so are the bindings of two
/// controllers.
proof fn lemma_bonded_keys<R: ModuleRuntime>(a: Seq<u8>, b: Seq<u8>, s: Seq<u8>)
    ensures
        map_key::<R, Bonded<R>>(a) != map_key::<R, Ledger<R>>(s),
        a != b ==> map_key::<R, Bonded<R>>(a) != map_key::<R, Bonded<R>>(b),
{
    reveal_strlit("staking:bonded");
    reveal_strlit("staking:ledger_of");
    assert(map_key::<R, Bonded<R>>(a)[8] != map_key::<R, Ledger<R>>(s)[8]);
    if a != b && map_key::<R, Bonded<R>>(a) == map_key::<R, Bonded<R>>(b) {
        let p = <Bonded<R> as crate::storage::StorageMap<R>>::spec_prefix();
        assert(map_key::<R, Bonded<R>>(a).skip(p.len() as int) =~= a);
        assert(map_key::<R, Bonded<R>>(b).skip(p.len() as int) =~= b);
    }
}

/// Setting a new controller moves the binding. After a successful `set_controller` of `stash`
/// to a controller `ctrl` other than its previous one `p`, `p` reads as bonded to nothing (the
/// zero account), `ctrl` reads as bonded to the stash, and the ledger of the stash names
/// `ctrl`, keeping its bonded value and role: exactly one controller is bound to the stash.
pub proof fn law_set_controller_moves_binding<R: ModuleRuntime>(m: R::Model, stash: Seq<u8>, ctrl: Seq<u8>)
    requires
        stash.len() == 32,
        ctrl.len() == 32,
        staking::set_controller_spec::<R>(m, stash, ctrl).0 is Ok,
        ledger_in::<R>(m, stash).1 != ctrl,
    ensures
        ({
            let after = staking::set_controller_spec::<R>(m, stash, ctrl).1;
            let p = ledger_in::<R>(m, stash).1;
            &&& bonded_in::<R>(after, p) == zero_bytes()
            &&& bonded_in::<R>(after, ctrl) == stash
            &&& ledger_in::<R>(after, stash) == (ledger_in::<R>(m, stash).0, ctrl, ledger_in::<R>(m, stash).2)
        }),
{
    let lk = map_key::<R, Ledger<R>>(stash);
    lemma_map_read::<R, Ledger<R>>(m, stash);
    let (r1, m1) = map_read::<R, Ledger<R>>(m, stash);
    let l = r1->Ok_0;
    assert(l == ledger_in::<R>(m, stash));
    let p = l.1;
    lemma_bonded_keys::<R>(p, ctrl, stash);
    lemma_bonded_keys::<R>(ctrl, p, stash);
    R::lemma_write_step(m1, map_key::<R, Bonded<R>>(p), Public::encoding(zero_bytes()));
    lemma_map_write::<R, Bonded<R>>(m1, p, zero_bytes());
    let m2 = map_write::<R, Bonded<R>>(m1, p, zero_bytes()).1;
    R::lemma_write_step(m2, map_key::<R, Bonded<R>>(ctrl), Public::encoding(stash));
    lemma_map_write::<R, Bonded<R>>(m2, ctrl, stash);
    let m3 = map_write::<R, Bonded<R>>(m2, ctrl, stash).1;
    assert(l != default_ledger());
    assert(map_write::<R, Bonded<R>>(m1, p, zero_bytes()).0 is Ok);
    assert(map_write::<R, Bonded<R>>(m2, ctrl, stash).0 is Ok);
    assert(R::blocked_by(m2, map_key::<R, Bonded<R>>(ctrl)) is None);
    assert(R::value_of(m3, map_key::<R, Bonded<R>>(ctrl)) == Public::encoding(stash));
    let nl = (l.0, ctrl, l.2);
    lemma_map_write::<R, Ledger<R>>(m3, stash, nl);
    let after = map_write::<R, Ledger<R>>(m3, stash, nl).1;
    assert(R::value_of(after, map_key::<R, Bonded<R>>(p)) == zero_bytes());
    assert(R::value_of(after, map_key::<R, Bonded<R>>(ctrl)) == stash);
    assert(zero_bytes().take(32) =~= zero_bytes());
    assert(stash.take(32) =~= stash);
    StakingLedger::lemma_roundtrip(nl, Seq::empty());
    assert(StakingLedger::encoding(nl) + Seq::<u8>::empty() =~= StakingLedger::encoding(nl));
}

} // verus!
