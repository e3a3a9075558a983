//! Deposit pricing and the balance service that holds deposits in reserve.
use crate::error::Error;
use crate::info::{IdentityInfo, IdentityInfoView};
use vstd::prelude::*;

verus! {

/// The registry's configuration.
#[derive(Clone, Copy, Debug, PartialEq, Eq, Structural)]
pub struct Config {
    /// The amount held on deposit for a registered identity.
    pub basic_deposit: u128,
    /// The amount held on deposit per encoded byte for a registered identity.
    pub byte_deposit: u128,
    /// Maximum number of judgements allowed for a single identity, on each
    /// storage path.
    pub max_judgements: u32,
    /// Maximum length for identity field data.
    pub max_field_length: u32,
}

/// `a + b`, clamped at `u128::MAX`.
pub open spec fn sat_add(a: nat, b: nat) -> nat {
    if a + b > u128::MAX {
        u128::MAX as nat
    } else {
        a + b
    }
}

/// `a * b`, clamped at `u128::MAX`.
pub open spec fn sat_mul(a: nat, b: nat) -> nat {
    if a * b > u128::MAX {
        u128::MAX as nat
    } else {
        a * b
    }
}

impl Config {
    /// The deposit owed for identity data of `size` encoded bytes:
    /// `basic_deposit + byte_deposit * size`, with saturating arithmetic.
    pub open spec fn deposit_for(self, size: nat) -> nat {
        sat_add(self.basic_deposit as nat, sat_mul(self.byte_deposit as nat, size))
    }

    /// Calculate the deposit required for an identity.
    pub fn calculate_identity_deposit(&self, info: &IdentityInfo) -> (r: u128)
        requires
            info@.encodable(),
        ensures
            r == self.deposit_for(info@.encoded_size()),
    {
        let bytes = info.encoded_size() as u128;
        let byte_deposit = match self.byte_deposit.checked_mul(bytes) {
            Some(d) => d,
            None => u128::MAX,
        };
        self.basic_deposit.saturating_add(byte_deposit)
    }
}

/// A larger identity costs a larger deposit, while the per-byte deposit is
/// positive and the larger deposit does not reach the saturation bound.
pub proof fn lemma_deposit_monotonic(c: Config, a: IdentityInfoView, b: IdentityInfoView)
    requires
        a.encoded_size() < b.encoded_size(),
        c.byte_deposit > 0,
        c.basic_deposit + c.byte_deposit * b.encoded_size() <= u128::MAX,
    ensures
        c.deposit_for(a.encoded_size()) < c.deposit_for(b.encoded_size()),
{
    let x = a.encoded_size();
    let y = b.encoded_size();
    let k = c.byte_deposit as nat;
    assert(k * x < k * y) by (nonlinear_arith)
        requires
            x < y,
            k > 0,
    ;
}

/// The balance service could not reserve the amount asked for.
#[derive(Clone, Copy, Debug, PartialEq, Eq, Structural)]
pub struct InsufficientBalance;

/// `a` or `b`, whichever is smaller.
pub open spec fn min_nat(a: nat, b: nat) -> nat {
    if a <= b {
        a
    } else {
        b
    }
}

/// The balance service that holds deposits. Each account has a spendable
/// (free) and a reserved balance; the registry asks the service to move
/// amounts between the two, or to confiscate reserved balance.
pub trait ReservableCurrency: Sized {
    /// The service's own invariant.
    spec fn inv(&self) -> bool;

    /// The spendable balance of `who`.
    spec fn free_of(&self, who: u64) -> nat;

    /// The reserved balance of `who`.
    spec fn reserved_of(&self, who: u64) -> nat;

    /// Whether the service accepts to reserve `value` more for `who`; each
    /// service sets its own terms.
    spec fn can_reserve(&self, who: u64, value: u128) -> bool;

    /// The smallest balance the service keeps an account at.
    fn minimum_balance(&self) -> u128;

    /// Moves `value` from the spendable balance of `who` into its reserve,
    /// or fails, changing nothing, when the service does not accept it.
    fn reserve(&mut self, who: u64, value: u128) -> (r: Result<(), InsufficientBalance>)
        requires
            old(self).inv(),
        ensures
            final(self).inv(),
            r is Ok <==> old(self).can_reserve(who, value),
            forall|a: u64|
                #![trigger final(self).free_of(a)]
                #![trigger final(self).reserved_of(a)]
                (a != who || r is Err) ==> final(self).free_of(a) == old(self).free_of(a)
                    && final(self).reserved_of(a) == old(self).reserved_of(a),
            r is Ok ==> old(self).free_of(who) >= value && final(self).free_of(who) == old(self).free_of(who) - value && final(self).reserved_of(who) == old(self).reserved_of(who)
                + value,
    ;

    /// Moves up to `value` from the reserve of `who` back to its spendable
    /// balance; returns the part of `value` that could not be moved.
    fn unreserve(&mut self, who: u64, value: u128) -> (r: u128)
        requires
            old(self).inv(),
        ensures
            final(self).inv(),
            forall|a: u64|
                #![trigger final(self).free_of(a)]
                #![trigger final(self).reserved_of(a)]
                a != who ==> final(self).free_of(a) == old(self).free_of(a) && final(self).reserved_of(a) == old(self).reserved_of(a),
            final(self).reserved_of(who) == old(self).reserved_of(who) - min_nat(
                value as nat,
                old(self).reserved_of(who),
            ),
            final(self).free_of(who) == old(self).free_of(who) + min_nat(
                value as nat,
                old(self).reserved_of(who),
            ),
            r == value - min_nat(value as nat, old(self).reserved_of(who)),
    ;

    /// Removes up to `value` from the reserve of `who` for good; returns the
    /// part of `value` that could not be removed.
    fn slash_reserved(&mut self, who: u64, value: u128) -> (r: u128)
        requires
            old(self).inv(),
        ensures
            final(self).inv(),
            forall|a: u64|
                #![trigger final(self).free_of(a)]
                #![trigger final(self).reserved_of(a)]
                a != who ==> final(self).free_of(a) == old(self).free_of(a) && final(self).reserved_of(a) == old(self).reserved_of(a),
            final(self).reserved_of(who) == old(self).reserved_of(who) - min_nat(
                value as nat,
                old(self).reserved_of(who),
            ),
            final(self).free_of(who) == old(self).free_of(who),
            r == value - min_nat(value as nat, old(self).reserved_of(who)),
    ;
}

/// No balance of any account differs between `before` and `after`.
pub open spec fn balances_unchanged<C: ReservableCurrency>(before: C, after: C) -> bool {
    forall|a: u64|
        #![trigger after.free_of(a)]
        #![trigger after.reserved_of(a)]
        after.free_of(a) == before.free_of(a) && after.reserved_of(a) == before.reserved_of(a)
}

/// The balances of every account but `who` are the same.
pub open spec fn others_unchanged<C: ReservableCurrency>(before: C, after: C, who: u64) -> bool {
    forall|a: u64|
        #![trigger after.free_of(a)]
        #![trigger after.reserved_of(a)]
        a != who ==> after.free_of(a) == before.free_of(a) && after.reserved_of(a)
            == before.reserved_of(a)
}

/// `value` went from the spendable balance of `who` into its reserve.
pub open spec fn reserved_more<C: ReservableCurrency>(before: C, after: C, who: u64, value: nat) -> bool {
    &&& others_unchanged(before, after, who)
    &&& before.free_of(who) >= value
    &&& after.free_of(who) == before.free_of(who) - value
    &&& after.reserved_of(who) == before.reserved_of(who) + value
}

/// `value`, all of it, went from the reserve of `who` back to its spendable
/// balance.
pub open spec fn released<C: ReservableCurrency>(before: C, after: C, who: u64, value: nat) -> bool {
    &&& others_unchanged(before, after, who)
    &&& before.reserved_of(who) >= value
    &&& after.reserved_of(who) == before.reserved_of(who) - value
    &&& after.free_of(who) == before.free_of(who) + value
}

/// `value`, all of it, was removed from the reserve of `who` for good.
pub open spec fn slashed<C: ReservableCurrency>(before: C, after: C, who: u64, value: nat) -> bool {
    &&& others_unchanged(before, after, who)
    &&& before.reserved_of(who) >= value
    &&& after.reserved_of(who) == before.reserved_of(who) - value
    &&& after.free_of(who) == before.free_of(who)
}

/// What moving a held deposit from `current` to `new` asks of the balance
/// service, as a relation between its balances before and after.
pub open spec fn rejigged<C: ReservableCurrency>(before: C, after: C, who: u64, current: nat, new: nat) -> bool {
    if new > current {
        reserved_more(before, after, who, (new - current) as nat)
    } else {
        released(before, after, who, (current - new) as nat)
    }
}

/// Moving a held deposit from `a` to `b` and then back from `b` to `a`
/// leaves every balance as it was.
pub proof fn lemma_rejig_round_trip<C: ReservableCurrency>(c0: C, c1: C, c2: C, who: u64, a: nat, b: nat)
    requires
        rejigged(c0, c1, who, a, b),
        rejigged(c1, c2, who, b, a),
    ensures
        balances_unchanged(c0, c2),
{
    assert forall|x: u64|
        c2.free_of(x) == c0.free_of(x) && c2.reserved_of(x) == c0.reserved_of(x) by {
        if x != who {
            assert(c1.free_of(x) == c0.free_of(x) && c1.reserved_of(x) == c0.reserved_of(x));
        }
    }
}

/// The change to a held deposit.
#[derive(Clone, Copy, Debug, PartialEq, Eq, Structural)]
pub enum DepositChange {
    /// Reserve this much more.
    Reserve(u128),
    /// Release this much.
    Release(u128),
    /// Nothing to do.
    Keep,
}

/// The change that takes a held deposit from `current` to `new`.
pub fn deposit_change(current: u128, new: u128) -> (r: DepositChange)
    ensures
        r == (if new > current {
            DepositChange::Reserve((new - current) as u128)
        } else if new < current {
            DepositChange::Release((current - new) as u128)
        } else {
            DepositChange::Keep
        }),
{
    if new > current {
        DepositChange::Reserve(new - current)
    } else if new < current {
        DepositChange::Release(current - new)
    } else {
        DepositChange::Keep
    }
}

/// Take the `current` deposit that `who` is holding, and update it to a `new`
/// one: reserve the difference when it grows, release it when it shrinks,
/// ask nothing when it stays. The reserve of `who` must cover what is
/// released: a shortfall would be an accounting fault, not a user error. Only a growth can fail, when the balance
/// service refuses the reserve, and then no balance changes.
pub fn rejig_deposit<C: ReservableCurrency>(currency: &mut C, who: u64, current: u128, new: u128) -> (r:
    Result<(), Error>)
    requires
        old(currency).inv(),
        new >= current || old(currency).reserved_of(who) >= current - new,
    ensures
        final(currency).inv(),
        r is Ok <==> (new <= current || old(currency).can_reserve(who, (new - current) as u128)),
        r is Ok ==> rejigged(*old(currency), *final(currency), who, current as nat, new as nat),
        r is Err ==> r == Err::<(), Error>(Error::InsufficientBalance) && balances_unchanged(
            *old(currency),
            *final(currency),
        ),
{
    match deposit_change(current, new) {
        DepositChange::Reserve(amount) => match currency.reserve(who, amount) {
            Ok(()) => Ok(()),
            Err(_) => Err(Error::InsufficientBalance),
        },
        DepositChange::Release(amount) => {
            let shortfall = currency.unreserve(who, amount);
            // The reserve covers the deposit held, so all of it comes back.
            assert(shortfall == 0);
            Ok(())
        },
        DepositChange::Keep => Ok(()),
    }
}

} // verus!
