//! The registry: identity records keyed by account, with judgements held
//! either inline in the record or in a keyed store outside it.
use crate::deposit::{
    balances_unchanged, rejig_deposit, rejigged, released, slashed, Config, ReservableCurrency,
};
use crate::error::Error;
use crate::info::{IdentityInfo, IdentityInfoView};
use crate::inline::{
    ids_increasing, inline_insert, insert_or_replace, lemma_inline_insert_keeps_order, retain_sticky,
    sticky_only,
};
use crate::judgement::Judgement;
use std::collections::HashMap;
use vstd::prelude::*;

verus! {

broadcast use vstd::std_specs::hash::group_hash_axioms;

/// Information concerning the identity of the controller of an account.
#[derive(Debug)]
pub struct Registration {
    /// Information about the identity.
    pub info: IdentityInfo,
    /// Judgements on this identity, as `(judgement_id, judgement)` pairs
    /// ordered by id.
    pub judgements: Vec<(u32, Judgement)>,
    /// Number of judgements on this identity held in the keyed store outside
    /// the record.
    pub judgements_count_double_map: u32,
    /// Amount reserved for the identity information.
    pub deposit: u128,
}

/// The contents of a [`Registration`].
pub struct RegistrationView {
    pub info: IdentityInfoView,
    pub judgements: Seq<(u32, Judgement)>,
    pub judgements_count_double_map: u32,
    pub deposit: u128,
}

impl View for Registration {
    type V = RegistrationView;

    open spec fn view(&self) -> RegistrationView {
        RegistrationView {
            info: self.info@,
            judgements: self.judgements@,
            judgements_count_double_map: self.judgements_count_double_map,
            deposit: self.deposit,
        }
    }
}

impl RegistrationView {
    /// The same record with its inline judgements replaced by `s`.
    pub open spec fn with_judgements(self, s: Seq<(u32, Judgement)>) -> RegistrationView {
        RegistrationView { judgements: s, ..self }
    }
}

impl Registration {
    /// The total deposit held for this registration.
    pub fn total_deposit(&self) -> (r: u128)
        ensures
            r == self.deposit,
    {
        self.deposit
    }
}

/// Notifications of what the registry did.
#[derive(Clone, Copy, Debug, PartialEq, Eq, Structural)]
pub enum Event {
    /// A name was set or reset (which removes non-sticky inline judgements).
    IdentitySet { who: u64 },
    /// A name was cleared, and the given balance returned.
    IdentityCleared { who: u64, deposit: u128 },
    /// A name was removed by force, and the given balance confiscated.
    IdentityKilled { who: u64, deposit: u128 },
    /// A judgement was given.
    JudgementGiven { target: u64 },
}

/// The record that setting `info` leaves for an account whose record was
/// `prev`: sticky inline judgements stay, the count of outside judgements
/// stays, and the deposit is the one that `info` costs.
pub open spec fn record_after_set(
    prev: Option<RegistrationView>,
    info: IdentityInfoView,
    config: Config,
) -> RegistrationView {
    let deposit = config.deposit_for(info.encoded_size()) as u128;
    match prev {
        Some(r) => RegistrationView {
            info,
            judgements: sticky_only(r.judgements),
            judgements_count_double_map: r.judgements_count_double_map,
            deposit,
        },
        None => RegistrationView {
            info,
            judgements: Seq::empty(),
            judgements_count_double_map: 0,
            deposit,
        },
    }
}

/// Insert-or-replace of `(id, v)` in the outside judgements `m` of one
/// account, which may hold at most `max` of them: a sticky value is never
/// replaced, another value is overwritten, and a new id is added unless the
/// account already has `max`.
pub open spec fn external_insert(m: Map<u32, Judgement>, id: u32, v: Judgement, max: nat) -> Result<
    Map<u32, Judgement>,
    Error,
> {
    if m.contains_key(id) {
        if m[id].spec_is_sticky() {
            Err(Error::StickyJudgement)
        } else {
            Ok(m.insert(id, v))
        }
    } else if m.len() >= max {
        Err(Error::TooManyJudgements)
    } else {
        Ok(m.insert(id, v))
    }
}

/// The identity registry.
pub struct Pallet {
    config: Config,
    identities: HashMap<u64, Registration>,
    judgements_double_map: HashMap<u64, HashMap<u32, Judgement>>,
    events: Vec<Event>,
}

impl Pallet {
    /// The configuration the registry was made with.
    pub closed spec fn spec_config(&self) -> Config {
        self.config
    }

    /// The identity record of each account that has one.
    pub closed spec fn records(&self) -> Map<u64, RegistrationView> {
        self.identities@.map_values(|r: Registration| r@)
    }

    /// The judgements held outside the records, by account and id.
    pub closed spec fn external(&self) -> Map<u64, Map<u32, Judgement>> {
        self.judgements_double_map@.map_values(|m: HashMap<u32, Judgement>| m@)
    }

    /// The notifications emitted so far, oldest first.
    pub closed spec fn events(&self) -> Seq<Event> {
        self.events@
    }

    /// The outside judgements of account `who`.
    pub open spec fn entries_of(&self, who: u64) -> Map<u32, Judgement> {
        if self.external().contains_key(who) {
            self.external()[who]
        } else {
            Map::empty()
        }
    }

    /// The record of `who`, if any.
    pub open spec fn record_of(&self, who: u64) -> Option<RegistrationView> {
        if self.records().contains_key(who) {
            Some(self.records()[who])
        } else {
            None
        }
    }

    /// `self` holds what `other` holds.
    pub open spec fn same_state(&self, other: &Pallet) -> bool {
        &&& self.spec_config() == other.spec_config()
        &&& self.records() == other.records()
        &&& self.external() == other.external()
        &&& self.events() == other.events()
    }

    /// What every record satisfies: inline judgements ordered by id and
    /// within bounds, fields within bounds, the deposit that the info costs,
    /// and a count of outside judgements that matches the outside store and
    /// stays within the bound.
    pub open spec fn record_wf(&self, who: u64, r: RegistrationView) -> bool {
        let c = self.spec_config();
        &&& ids_increasing(r.judgements)
        &&& r.judgements.len() <= c.max_judgements
        &&& r.info.fields_within(c.max_field_length as nat)
        &&& r.deposit == c.deposit_for(r.info.encoded_size())
        &&& r.judgements_count_double_map == self.entries_of(who).len()
        &&& r.judgements_count_double_map <= c.max_judgements
    }

    /// The registry's invariant.
    pub open spec fn wf(&self) -> bool {
        &&& forall|a: u64| #[trigger]
            self.records().contains_key(a) ==> self.record_wf(a, self.records()[a])
        &&& forall|a: u64| #[trigger]
            self.external().contains_key(a) ==> self.records().contains_key(a)
                && self.external()[a].dom().finite()
    }

    /// A registry that holds what a well-formed one holds is well-formed.
    proof fn lemma_wf_same_state(p: &Pallet, q: &Pallet)
        requires
            p.wf(),
            q.same_state(p),
        ensures
            q.wf(),
    {
        assert forall|a: u64| #[trigger] q.records().contains_key(a) implies q.record_wf(
            a,
            q.records()[a],
        ) by {
            assert(p.record_wf(a, p.records()[a]));
        }
    }

    /// Set an account's identity information and reserve the appropriate
    /// deposit. If the account already has a record, its non-sticky inline
    /// judgements are dropped, its outside judgements are kept as they are,
    /// and the deposit already held counts towards the new one.
    pub fn set_identity<C: ReservableCurrency>(
        &mut self,
        currency: &mut C,
        who: u64,
        display: Vec<u8>,
        legal: Vec<u8>,
        web: Vec<u8>,
        email: Vec<u8>,
    ) -> (r: Result<(), Error>)
        requires
            old(self).wf(),
            old(currency).inv(),
            old(self).record_of(who) matches Some(held) ==> old(currency).reserved_of(who) >= held.deposit,
        ensures
            final(self).wf(),
            final(currency).inv(),
            ({
                let info = IdentityInfoView {
                    display: display@,
                    legal: legal@,
                    web: web@,
                    email: email@,
                };
                let c = old(self).spec_config();
                let prev = old(self).record_of(who);
                let held: nat = match prev {
                    Some(p) => p.deposit as nat,
                    None => 0,
                };
                &&& (r == Err::<(), Error>(Error::FieldTooLong) <==> !info.fields_within(
                    c.max_field_length as nat,
                ))
                &&& (r == Err::<(), Error>(Error::InsufficientBalance) <==> info.fields_within(
                    c.max_field_length as nat,
                ) && c.deposit_for(info.encoded_size()) > held && !old(currency).can_reserve(
                    who,
                    (c.deposit_for(info.encoded_size()) - held) as u128,
                ))
                &&& match r {
                    Ok(_) => {
                        &&& rejigged(
                            *old(currency),
                            *final(currency),
                            who,
                            held,
                            c.deposit_for(info.encoded_size()),
                        )
                        &&& final(self).spec_config() == c
                        &&& final(self).records() == old(self).records().insert(
                            who,
                            record_after_set(prev, info, c),
                        )
                        &&& final(self).external() == old(self).external()
                        &&& final(self).events() == old(self).events().push(
                            Event::IdentitySet { who },
                        )
                    },
                    Err(e) => {
                        &&& final(self).same_state(old(self))
                        &&& balances_unchanged(*old(currency), *final(currency))
                        &&& (e == Error::FieldTooLong || e == Error::InsufficientBalance)
                    },
                }
            }),
    {
        let max = self.config.max_field_length as usize;
        if display.len() > max || legal.len() > max || web.len() > max || email.len() > max {
            return Err(Error::FieldTooLong);
        }
        let info = IdentityInfo { display, legal, web, email };
        let new_deposit = self.config.calculate_identity_deposit(&info);
        let current = match self.identities.get(&who) {
            Some(reg) => reg.deposit,
            None => 0,
        };
        let rejigged = rejig_deposit(currency, who, current, new_deposit);
        if rejigged.is_err() {
            return Err(Error::InsufficientBalance);
        }
        let ghost before = *self;
        let mut id = match self.identities.remove(&who) {
            Some(mut id) => {
                retain_sticky(&mut id.judgements);
                id.info = info;
                id
            },
            None => Registration {
                info,
                judgements: Vec::new(),
                judgements_count_double_map: 0,
                deposit: 0,
            },
        };
        id.deposit = new_deposit;
        self.identities.insert(who, id);
        self.events.push(Event::IdentitySet { who });
        proof {
            let prev = before.record_of(who);
            let info_v = id.info@;
            assert(self.records() =~= before.records().insert(
                who,
                record_after_set(prev, info_v, self.config),
            ));
            assert(self.external() =~= before.external());
            assert forall|a: u64| #[trigger] self.records().contains_key(a) implies self.record_wf(
                a,
                self.records()[a],
            ) by {
                if a != who {
                    assert(before.record_wf(a, before.records()[a]));
                }
            }
        }
        Ok(())
    }

    /// Provide a judgement on `target`'s identity, held inline in its record.
    /// The caller is the party that the dispatch layer allowed to judge.
    ///
    /// - `judgement_id`: the id under which the judgement is kept.
    /// - `target`: the account judged; it must have a record.
    /// - `judgement_type`: the judgement's code (0 = Unknown, 1 = Reasonable,
    ///   2 = KnownGood, 3 = Erroneous, 4 = LowQuality).
    pub fn provide_judgement_inline(&mut self, judgement_id: u32, target: u64, judgement_type: u8) -> (r:
        Result<(), Error>)
        requires
            old(self).wf(),
        ensures
            final(self).wf(),
            match Judgement::spec_from_code(judgement_type) {
                None => r == Err::<(), Error>(Error::InvalidJudgement) && final(self).same_state(
                    old(self),
                ),
                Some(v) => match old(self).record_of(target) {
                    None => r == Err::<(), Error>(Error::InvalidTarget) && final(self).same_state(
                        old(self),
                    ),
                    Some(reg) => match inline_insert(
                        reg.judgements,
                        judgement_id,
                        v,
                        old(self).spec_config().max_judgements as nat,
                    ) {
                        Ok(s) => {
                            &&& r == Ok::<(), Error>(())
                            &&& final(self).spec_config() == old(self).spec_config()
                            &&& final(self).records() == old(self).records().insert(
                                target,
                                reg.with_judgements(s),
                            )
                            &&& final(self).external() == old(self).external()
                            &&& final(self).events() == old(self).events().push(
                                Event::JudgementGiven { target },
                            )
                        },
                        Err(e) => r == Err::<(), Error>(e) && final(self).same_state(old(self)),
                    },
                },
            },
    {
        let judgement = match Judgement::from_code(judgement_type) {
            Some(j) => j,
            None => return Err(Error::InvalidJudgement),
        };
        let ghost before = *self;
        let mut reg = match self.identities.remove(&target) {
            Some(reg) => reg,
            None => {
                proof {
                    assert(self.records() =~= before.records());
                    assert(self.external() == before.external());
                    assert forall|a: u64| #[trigger] self.records().contains_key(a) implies self.record_wf(
                        a,
                        self.records()[a],
                    ) by {
                        assert(before.record_wf(a, before.records()[a]));
                    }
                }
                return Err(Error::InvalidTarget);
            },
        };
        let ghost old_reg = reg@;
        proof {
            assert(before.record_wf(target, old_reg));
            lemma_inline_insert_keeps_order(
                old_reg.judgements,
                judgement_id,
                judgement,
                before.config.max_judgements as nat,
            );
        }
        let max = self.config.max_judgements;
        let res = insert_or_replace(&mut reg.judgements, judgement_id, judgement, max);
        self.identities.insert(target, reg);
        proof {
            assert forall|a: u64| #[trigger] self.records().contains_key(a) implies self.record_wf(
                a,
                self.records()[a],
            ) by {
                if a != target {
                    assert(before.record_wf(a, before.records()[a]));
                }
            }
        }
        match res {
            Ok(()) => {
                self.events.push(Event::JudgementGiven { target });
                proof {
                    assert(self.records() =~= before.records().insert(target, reg@));
                }
                Ok(())
            },
            Err(e) => {
                proof {
                    assert(self.records() =~= before.records());
                }
                Err(e)
            },
        }
    }

    /// Provide a judgement on `target`'s identity, held in the keyed store
    /// outside its record; the record counts the judgements kept there. The
    /// caller is the party that the dispatch layer allowed to judge.
    ///
    /// - `judgement_id`: the id under which the judgement is kept.
    /// - `target`: the account judged; it must have a record.
    /// - `judgement_type`: the judgement's code (0 = Unknown, 1 = Reasonable,
    ///   2 = KnownGood, 3 = Erroneous, 4 = LowQuality).
    pub fn provide_judgement_double_map(
        &mut self,
        judgement_id: u32,
        target: u64,
        judgement_type: u8,
    ) -> (r: Result<(), Error>)
        requires
            old(self).wf(),
        ensures
            final(self).wf(),
            match Judgement::spec_from_code(judgement_type) {
                None => r == Err::<(), Error>(Error::InvalidJudgement) && final(self).same_state(
                    old(self),
                ),
                Some(v) => match old(self).record_of(target) {
                    None => r == Err::<(), Error>(Error::InvalidTarget) && final(self).same_state(
                        old(self),
                    ),
                    Some(reg) => match external_insert(
                        old(self).entries_of(target),
                        judgement_id,
                        v,
                        old(self).spec_config().max_judgements as nat,
                    ) {
                        Ok(m) => {
                            &&& r == Ok::<(), Error>(())
                            &&& final(self).spec_config() == old(self).spec_config()
                            &&& final(self).external() == old(self).external().insert(target, m)
                            &&& final(self).records() == old(self).records().insert(
                                target,
                                RegistrationView { judgements_count_double_map: m.len() as u32, ..reg },
                            )
                            &&& final(self).events() == old(self).events().push(
                                Event::JudgementGiven { target },
                            )
                        },
                        Err(e) => r == Err::<(), Error>(e) && final(self).same_state(old(self)),
                    },
                },
            },
    {
        let judgement = match Judgement::from_code(judgement_type) {
            Some(j) => j,
            None => return Err(Error::InvalidJudgement),
        };
        if !self.identities.contains_key(&target) {
            return Err(Error::InvalidTarget);
        }
        let ghost before = *self;
        proof {
            assert(before.record_wf(target, before.records()[target]));
        }
        let existing = match self.judgements_double_map.get(&target) {
            Some(m) => match m.get(&judgement_id) {
                Some(j) => Some(*j),
                None => None,
            },
            None => None,
        };
        let count = match self.identities.get(&target) {
            Some(reg) => reg.judgements_count_double_map,
            None => 0,
        };
        match existing {
            Some(j) => {
                if j.is_sticky() {
                    return Err(Error::StickyJudgement);
                }
            },
            None => {
                if count >= self.config.max_judgements {
                    return Err(Error::TooManyJudgements);
                }
            },
        }
        let mut entries = match self.judgements_double_map.remove(&target) {
            Some(m) => m,
            None => HashMap::new(),
        };
        let ghost old_entries = entries@;
        proof {
            assert(old_entries == before.entries_of(target));
            assert(old_entries.dom().finite());
        }
        entries.insert(judgement_id, judgement);
        self.judgements_double_map.insert(target, entries);
        let mut reg = match self.identities.remove(&target) {
            Some(reg) => reg,
            None => {
                proof {
                    assert(false);
                }
                return Err(Error::InvalidTarget);
            },
        };
        if existing.is_none() {
            reg.judgements_count_double_map = count + 1;
        }
        self.identities.insert(target, reg);
        self.events.push(Event::JudgementGiven { target });
        proof {
            let m = old_entries.insert(judgement_id, judgement);
            assert(self.external() =~= before.external().insert(target, m));
            assert(m.len() == reg.judgements_count_double_map);
            assert(self.records() =~= before.records().insert(
                target,
                RegistrationView {
                    judgements_count_double_map: m.len() as u32,
                    ..before.records()[target]
                },
            ));
            assert forall|a: u64| #[trigger] self.records().contains_key(a) implies self.record_wf(
                a,
                self.records()[a],
            ) by {
                if a != target {
                    assert(before.record_wf(a, before.records()[a]));
                    assert(self.entries_of(a) == before.entries_of(a));
                }
            }
        }
        Ok(())
    }

    /// Removes every outside judgement on `who` and returns how many there
    /// were.
    fn clear_judgements_double_map(&mut self, who: u64) -> (r: u32)
        requires
            old(self).entries_of(who).len() <= u32::MAX,
        ensures
            r == old(self).entries_of(who).len(),
            final(self).spec_config() == old(self).spec_config(),
            final(self).records() == old(self).records(),
            final(self).external() == old(self).external().remove(who),
            final(self).events() == old(self).events(),
    {
        let ghost before = *self;
        let r = match self.judgements_double_map.remove(&who) {
            Some(m) => m.len() as u32,
            None => 0,
        };
        proof {
            assert(self.external() =~= before.external().remove(who));
        }
        r
    }

    /// Removes the record of `who` and its outside judgements; returns the
    /// record.
    fn take_identity(&mut self, who: u64) -> (r: Option<Registration>)
        requires
            old(self).wf(),
        ensures
            final(self).wf(),
            final(self).spec_config() == old(self).spec_config(),
            final(self).events() == old(self).events(),
            match r {
                None => old(self).record_of(who) is None && final(self).same_state(old(self)),
                Some(reg) => {
                    &&& old(self).record_of(who) == Some(reg@)
                    &&& final(self).records() == old(self).records().remove(who)
                    &&& final(self).external() == old(self).external().remove(who)
                },
            },
    {
        let ghost before = *self;
        let id = match self.identities.remove(&who) {
            Some(id) => id,
            None => {
                proof {
                    assert(self.records() =~= before.records());
                    Self::lemma_wf_same_state(&before, self);
                }
                return None;
            },
        };
        proof {
            assert(before.record_wf(who, id@));
        }
        let ghost mid = *self;
        let cleared = self.clear_judgements_double_map(who);
        // The count kept in the record is exact, so draining the outside
        // store removes exactly that many judgements.
        assert(cleared == id.judgements_count_double_map);
        proof {
            assert(self.records() =~= before.records().remove(who));
            assert forall|a: u64| #[trigger] self.records().contains_key(a) implies self.record_wf(
                a,
                self.records()[a],
            ) by {
                assert(before.record_wf(a, before.records()[a]));
                assert(self.entries_of(a) == before.entries_of(a));
            }
        }
        Some(id)
    }

    /// Clear an account's identity info and return its deposit. The record
    /// goes, and with it the inline judgements; the outside judgements on
    /// the account are removed from their store.
    pub fn clear_identity<C: ReservableCurrency>(&mut self, currency: &mut C, who: u64) -> (r:
        Result<(), Error>)
        requires
            old(self).wf(),
            old(currency).inv(),
            old(self).record_of(who) matches Some(held) ==> old(currency).reserved_of(who) >= held.deposit,
        ensures
            final(self).wf(),
            final(currency).inv(),
            match old(self).record_of(who) {
                None => {
                    &&& r == Err::<(), Error>(Error::NoIdentity)
                    &&& final(self).same_state(old(self))
                    &&& balances_unchanged(*old(currency), *final(currency))
                },
                Some(reg) => {
                    &&& r == Ok::<(), Error>(())
                    &&& released(*old(currency), *final(currency), who, reg.deposit as nat)
                    &&& final(self).spec_config() == old(self).spec_config()
                    &&& final(self).records() == old(self).records().remove(who)
                    &&& final(self).external() == old(self).external().remove(who)
                    &&& final(self).events() == old(self).events().push(
                        Event::IdentityCleared { who, deposit: reg.deposit },
                    )
                },
            },
    {
        let id = match self.take_identity(who) {
            Some(id) => id,
            None => return Err(Error::NoIdentity),
        };
        let deposit = id.total_deposit();
        let shortfall = currency.unreserve(who, deposit);
        // The reserve covers the deposit, so all of it comes back.
        assert(shortfall == 0);
        self.events.push(Event::IdentityCleared { who, deposit });
        Ok(())
    }

    /// Remove an account's identity by force, confiscating its deposit. The
    /// caller is the party that the dispatch layer allowed to do so. The
    /// outside judgements on the account are removed as for
    /// [`Pallet::clear_identity`].
    pub fn kill_identity<C: ReservableCurrency>(&mut self, currency: &mut C, target: u64) -> (r:
        Result<(), Error>)
        requires
            old(self).wf(),
            old(currency).inv(),
            old(self).record_of(target) matches Some(held) ==> old(currency).reserved_of(target) >= held.deposit,
        ensures
            final(self).wf(),
            final(currency).inv(),
            match old(self).record_of(target) {
                None => {
                    &&& r == Err::<(), Error>(Error::NoIdentity)
                    &&& final(self).same_state(old(self))
                    &&& balances_unchanged(*old(currency), *final(currency))
                },
                Some(reg) => {
                    &&& r == Ok::<(), Error>(())
                    &&& slashed(*old(currency), *final(currency), target, reg.deposit as nat)
                    &&& final(self).spec_config() == old(self).spec_config()
                    &&& final(self).records() == old(self).records().remove(target)
                    &&& final(self).external() == old(self).external().remove(target)
                    &&& final(self).events() == old(self).events().push(
                        Event::IdentityKilled { who: target, deposit: reg.deposit },
                    )
                },
            },
    {
        let id = match self.take_identity(target) {
            Some(id) => id,
            None => return Err(Error::NoIdentity),
        };
        let deposit = id.total_deposit();
        let remainder = currency.slash_reserved(target, deposit);
        // The reserve covers the deposit, so all of it is confiscated.
        assert(remainder == 0);
        self.events.push(Event::IdentityKilled { who: target, deposit });
        Ok(())
    }

    /// An empty registry with configuration `config`.
    pub fn new(config: Config) -> (r: Pallet)
        ensures
            r.wf(),
            r.spec_config() == config,
            r.records() == Map::<u64, RegistrationView>::empty(),
            r.external() == Map::<u64, Map<u32, Judgement>>::empty(),
            r.events() == Seq::<Event>::empty(),
    {
        let r = Pallet {
            config,
            identities: HashMap::new(),
            judgements_double_map: HashMap::new(),
            events: Vec::new(),
        };
        proof {
            assert(r.records() =~= Map::<u64, RegistrationView>::empty());
            assert(r.external() =~= Map::<u64, Map<u32, Judgement>>::empty());
        }
        r
    }

    /// The configuration the registry was made with.
    pub fn config(&self) -> (r: Config)
        ensures
            r == self.spec_config(),
    {
        self.config
    }

    /// Get the identity information for an account.
    pub fn identity_of(&self, who: &u64) -> (r: Option<&Registration>)
        ensures
            match r {
                Some(reg) => self.record_of(*who) == Some(reg@),
                None => self.record_of(*who) is None,
            },
    {
        self.identities.get(who)
    }

    /// The judgement with id `id` on `who` in the outside store, if any.
    pub fn double_map_judgement(&self, who: &u64, id: u32) -> (r: Option<Judgement>)
        ensures
            r == (if self.entries_of(*who).contains_key(id) {
                Some(self.entries_of(*who)[id])
            } else {
                None
            }),
    {
        match self.judgements_double_map.get(who) {
            Some(m) => match m.get(&id) {
                Some(j) => Some(*j),
                None => None,
            },
            None => None,
        }
    }

    /// The most recent notification, if any.
    pub fn last_event(&self) -> (r: Option<Event>)
        ensures
            r == (if self.events().len() > 0 {
                Some(self.events().last())
            } else {
                None
            }),
    {
        if self.events.len() > 0 {
            Some(self.events[self.events.len() - 1])
        } else {
            None
        }
    }
}

/// Inserts `(id, v)` into the outside judgements `m` for each id of `ids` in
/// turn, stopping at the first failure.
pub open spec fn external_insert_ids(m: Map<u32, Judgement>, ids: Seq<u32>, v: Judgement, max: nat) -> Result<
    Map<u32, Judgement>,
    Error,
>
    decreases ids.len(),
{
    if ids.len() == 0 {
        Ok(m)
    } else {
        match external_insert_ids(m, ids.drop_last(), v, max) {
            Ok(t) => external_insert(t, ids.last(), v, max),
            Err(e) => Err(e),
        }
    }
}

/// Up to `max` distinct ids inserted one by one into an account without
/// outside judgements all fit, and the result holds exactly those ids.
proof fn lemma_external_distinct_ids_fit(ids: Seq<u32>, v: Judgement, max: nat)
    requires
        ids.no_duplicates(),
        ids.len() <= max,
    ensures
        external_insert_ids(Map::empty(), ids, v, max) matches Ok(m) && m.dom().finite() && m.len()
            == ids.len() && forall|x: u32| #[trigger] m.contains_key(x) <==> ids.contains(x),
    decreases ids.len(),
{
    if ids.len() > 0 {
        let init = ids.drop_last();
        assert(init.no_duplicates());
        lemma_external_distinct_ids_fit(init, v, max);
        let m = external_insert_ids(Map::empty(), init, v, max)->Ok_0;
        assert(!init.contains(ids.last())) by {
            if init.contains(ids.last()) {
                let j = choose|j: int| 0 <= j < init.len() && init[j] == ids.last();
                assert(ids[j] == ids[ids.len() - 1]);
            }
        }
        let u = m.insert(ids.last(), v);
        assert forall|x: u32| #[trigger] u.contains_key(x) <==> ids.contains(x) by {
            if ids.contains(x) && x != ids.last() {
                let j = choose|j: int| 0 <= j < ids.len() && ids[j] == x;
                assert(init[j] == x);
            }
            if init.contains(x) {
                let j = choose|j: int| 0 <= j < init.len() && init[j] == x;
                assert(ids[j] == x);
            }
            if x == ids.last() {
                assert(ids[ids.len() - 1] == x);
            }
        }
    } else {
        assert forall|x: u32| #[trigger]
            Map::<u32, Judgement>::empty().contains_key(x) <==> ids.contains(x) by {}
    }
}

/// The bound on outside judgements is exact: of `max + 1` distinct ids
/// inserted one by one for an account without outside judgements, the first
/// `max` fit and the last fails with `TooManyJudgements`.
pub proof fn lemma_external_capacity(ids: Seq<u32>, v: Judgement, max: nat)
    requires
        ids.no_duplicates(),
        ids.len() == max + 1,
    ensures
        external_insert_ids(Map::empty(), ids.drop_last(), v, max) is Ok,
        external_insert_ids(Map::empty(), ids, v, max) == Err::<Map<u32, Judgement>, Error>(
            Error::TooManyJudgements,
        ),
{
    let init = ids.drop_last();
    assert(init.no_duplicates());
    lemma_external_distinct_ids_fit(init, v, max);
    assert(!init.contains(ids.last())) by {
        if init.contains(ids.last()) {
            let j = choose|j: int| 0 <= j < init.len() && init[j] == ids.last();
            assert(ids[j] == ids[ids.len() - 1]);
        }
    }
}

/// Once an id holds a sticky judgement in the outside store, any later
/// insertion at that id fails with `StickyJudgement`.
pub proof fn lemma_external_sticky_rejects(
    m: Map<u32, Judgement>,
    id: u32,
    sticky: Judgement,
    v: Judgement,
    max: nat,
)
    requires
        sticky.spec_is_sticky(),
        external_insert(m, id, sticky, max) is Ok,
    ensures
        external_insert(external_insert(m, id, sticky, max)->Ok_0, id, v, max) == Err::<
            Map<u32, Judgement>,
            Error,
        >(Error::StickyJudgement),
{
}

/// In a well-formed registry the count of outside judgements that a record
/// keeps equals the number of its entries in the outside store, and an
/// account without a record has no entries there.
pub proof fn lemma_external_count_exact(p: &Pallet, who: u64)
    requires
        p.wf(),
    ensures
        match p.record_of(who) {
            Some(r) => r.judgements_count_double_map == p.entries_of(who).len(),
            None => p.entries_of(who) == Map::<u32, Judgement>::empty(),
        },
{
    if p.records().contains_key(who) {
        assert(p.record_wf(who, p.records()[who]));
    }
}

} // verus!
