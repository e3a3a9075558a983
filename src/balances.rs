//! An in-memory balance ledger that can serve as the registry's balance
//! service.
use crate::deposit::{min_nat, InsufficientBalance, ReservableCurrency};
use std::collections::HashMap;
use vstd::prelude::*;

verus! {

broadcast use vstd::std_specs::hash::group_hash_axioms;

/// Spendable and reserved balances by account; an account that was never
/// funded has nothing. A reserve must leave at least the minimum balance
/// spendable.
pub struct Balances {
    minimum: u128,
    free: HashMap<u64, u128>,
    reserved: HashMap<u64, u128>,
}

impl Balances {
    /// The spendable balance of `who` in the ledger's model.
    pub closed spec fn spec_free(&self, who: u64) -> nat {
        if self.free@.contains_key(who) {
            self.free@[who] as nat
        } else {
            0
        }
    }

    /// The reserved balance of `who` in the ledger's model.
    pub closed spec fn spec_reserved(&self, who: u64) -> nat {
        if self.reserved@.contains_key(who) {
            self.reserved@[who] as nat
        } else {
            0
        }
    }

    /// Every account's total balance fits in a `u128`.
    pub closed spec fn totals_fit(&self) -> bool {
        forall|a: u64| #[trigger] self.spec_free(a) + self.spec_reserved(a) <= u128::MAX
    }

    /// The minimum balance in the ledger's model.
    pub closed spec fn spec_minimum(&self) -> u128 {
        self.minimum
    }

    /// An empty ledger without a minimum balance.
    pub fn new() -> (r: Balances)
        ensures
            r.inv(),
            r.spec_minimum() == 0,
            forall|a: u64|
                #![trigger r.free_of(a)]
                #![trigger r.reserved_of(a)]
                r.free_of(a) == 0 && r.reserved_of(a) == 0,
    {
        Balances::with_minimum_balance(0)
    }

    /// An empty ledger whose reserves must leave `minimum` spendable.
    pub fn with_minimum_balance(minimum: u128) -> (r: Balances)
        ensures
            r.inv(),
            r.spec_minimum() == minimum,
            forall|a: u64|
                #![trigger r.free_of(a)]
                #![trigger r.reserved_of(a)]
                r.free_of(a) == 0 && r.reserved_of(a) == 0,
    {
        Balances { minimum, free: HashMap::new(), reserved: HashMap::new() }
    }

    /// The spendable balance of `who`.
    pub fn free_balance(&self, who: u64) -> (r: u128)
        ensures
            r == self.free_of(who),
    {
        match self.free.get(&who) {
            Some(v) => *v,
            None => 0,
        }
    }

    /// The reserved balance of `who`.
    pub fn reserved_balance(&self, who: u64) -> (r: u128)
        ensures
            r == self.reserved_of(who),
    {
        match self.reserved.get(&who) {
            Some(v) => *v,
            None => 0,
        }
    }

    /// Sets the spendable balance of `who` to `amount`, as far as its total
    /// balance stays within a `u128`.
    pub fn make_free_balance_be(&mut self, who: u64, amount: u128)
        requires
            old(self).inv(),
        ensures
            final(self).inv(),
            final(self).free_of(who) == min_nat(
                amount as nat,
                (u128::MAX - old(self).reserved_of(who)) as nat,
            ),
            final(self).reserved_of(who) == old(self).reserved_of(who),
            forall|a: u64|
                #![trigger final(self).free_of(a)]
                #![trigger final(self).reserved_of(a)]
                a != who ==> final(self).free_of(a) == old(self).free_of(a)
                    && final(self).reserved_of(a) == old(self).reserved_of(a),
    {
        let ghost before = *self;
        let room = u128::MAX - self.reserved_balance(who);
        let value = if amount <= room {
            amount
        } else {
            room
        };
        self.free.insert(who, value);
        proof {
            assert forall|a: u64| #[trigger] self.spec_free(a) + self.spec_reserved(a) <= u128::MAX by {
                if a != who {
                    assert(before.spec_free(a) + before.spec_reserved(a) <= u128::MAX);
                }
            }
        }
    }
}

impl ReservableCurrency for Balances {
    open spec fn inv(&self) -> bool {
        self.totals_fit()
    }

    open spec fn free_of(&self, who: u64) -> nat {
        self.spec_free(who)
    }

    open spec fn reserved_of(&self, who: u64) -> nat {
        self.spec_reserved(who)
    }

    /// A reserve is accepted when the spendable balance covers it and the
    /// minimum balance.
    open spec fn can_reserve(&self, who: u64, value: u128) -> bool {
        value + self.spec_minimum() <= self.spec_free(who)
    }

    fn minimum_balance(&self) -> u128 {
        self.minimum
    }

    fn reserve(&mut self, who: u64, value: u128) -> (r: Result<(), InsufficientBalance>) {
        let ghost before = *self;
        let free = self.free_balance(who);
        if value > free || free - value < self.minimum {
            return Err(InsufficientBalance);
        }
        let reserved = self.reserved_balance(who);
        self.free.insert(who, free - value);
        self.reserved.insert(who, reserved + value);
        proof {
            assert forall|a: u64| #[trigger] self.spec_free(a) + self.spec_reserved(a) <= u128::MAX by {
                if a != who {
                    assert(before.spec_free(a) + before.spec_reserved(a) <= u128::MAX);
                }
            }
        }
        Ok(())
    }

    fn unreserve(&mut self, who: u64, value: u128) -> (r: u128) {
        let ghost before = *self;
        proof {
            assert(before.spec_free(who) + before.spec_reserved(who) <= u128::MAX);
        }
        let reserved = self.reserved_balance(who);
        let moved = if value <= reserved {
            value
        } else {
            reserved
        };
        let free = self.free_balance(who);
        self.reserved.insert(who, reserved - moved);
        self.free.insert(who, free + moved);
        proof {
            assert forall|a: u64| #[trigger] self.spec_free(a) + self.spec_reserved(a) <= u128::MAX by {
                if a != who {
                    assert(before.spec_free(a) + before.spec_reserved(a) <= u128::MAX);
                }
            }
        }
        value - moved
    }

    fn slash_reserved(&mut self, who: u64, value: u128) -> (r: u128) {
        let ghost before = *self;
        proof {
            assert(before.spec_free(who) + before.spec_reserved(who) <= u128::MAX);
        }
        let reserved = self.reserved_balance(who);
        let gone = if value <= reserved {
            value
        } else {
            reserved
        };
        self.reserved.insert(who, reserved - gone);
        proof {
            assert forall|a: u64| #[trigger] self.spec_free(a) + self.spec_reserved(a) <= u128::MAX by {
                if a != who {
                    assert(before.spec_free(a) + before.spec_reserved(a) <= u128::MAX);
                }
            }
        }
        value - gone
    }
}

} // verus!
