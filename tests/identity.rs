use pallet_identity::{
    deposit_change, Balances, Config, DepositChange, Error, Event, IdentityInfo, InsufficientBalance,
    Judgement, Pallet, ReservableCurrency,
};

fn config() -> Config {
    Config { basic_deposit: 10, byte_deposit: 1, max_judgements: 20, max_field_length: 64 }
}

/// A registry, and a ledger in which accounts 1 to 5 hold 1000 each.
fn new_test_ext() -> (Pallet, Balances) {
    let mut balances = Balances::new();
    for who in 1..=5u64 {
        balances.make_free_balance_be(who, 1000);
    }
    (Pallet::new(config()), balances)
}

fn set(
    identity: &mut Pallet,
    balances: &mut Balances,
    who: u64,
    info: &IdentityInfo,
) -> Result<(), Error> {
    identity.set_identity(
        balances,
        who,
        info.display.clone(),
        info.legal.clone(),
        info.web.clone(),
        info.email.clone(),
    )
}

fn display_only(display: &[u8]) -> IdentityInfo {
    IdentityInfo {
        display: display.to_vec(),
        legal: Vec::new(),
        web: Vec::new(),
        email: Vec::new(),
    }
}

#[test]
fn set_identity_works() {
    let (mut identity, mut balances) = new_test_ext();
    let info = IdentityInfo {
        display: b"display".to_vec(),
        legal: b"legal".to_vec(),
        web: b"web".to_vec(),
        email: b"email".to_vec(),
    };

    assert_eq!(set(&mut identity, &mut balances, 1, &info), Ok(()));

    let registration = identity.identity_of(&1).unwrap();
    assert_eq!(registration.info, info);
    assert!(registration.deposit != 0);
    assert_eq!(registration.judgements.len(), 0);
    assert_eq!(registration.judgements_count_double_map, 0);

    assert_eq!(identity.last_event(), Some(Event::IdentitySet { who: 1 }));
}

#[test]
fn clear_identity_works() {
    let (mut identity, mut balances) = new_test_ext();
    let info = display_only(b"display");

    assert_eq!(set(&mut identity, &mut balances, 1, &info), Ok(()));
    let deposit = identity.identity_of(&1).unwrap().deposit;

    assert_eq!(identity.clear_identity(&mut balances, 1), Ok(()));

    assert!(identity.identity_of(&1).is_none());

    assert_eq!(identity.last_event(), Some(Event::IdentityCleared { who: 1, deposit }));
}

#[test]
fn clear_identity_fails_without_identity() {
    let (mut identity, mut balances) = new_test_ext();
    assert_eq!(identity.clear_identity(&mut balances, 1), Err(Error::NoIdentity));
    assert_eq!(identity.last_event(), None);
}

#[test]
fn provide_judgement_inline_works() {
    let (mut identity, mut balances) = new_test_ext();
    let info = display_only(b"display");
    assert_eq!(set(&mut identity, &mut balances, 1, &info), Ok(()));

    // 2 = KnownGood, with judgement id 0, on account 1.
    assert_eq!(identity.provide_judgement_inline(0, 1, 2), Ok(()));

    let registration = identity.identity_of(&1).unwrap();
    assert_eq!(registration.judgements.len(), 1);
    assert_eq!(registration.judgements[0], (0, Judgement::KnownGood));

    assert_eq!(identity.last_event(), Some(Event::JudgementGiven { target: 1 }));
}

#[test]
fn provide_judgement_inline_fails_without_identity() {
    let (mut identity, _balances) = new_test_ext();
    assert_eq!(identity.provide_judgement_inline(0, 1, 2), Err(Error::InvalidTarget));
    assert!(identity.identity_of(&1).is_none());
}

#[test]
fn provide_judgement_inline_respects_sticky_judgements() {
    let (mut identity, mut balances) = new_test_ext();
    let info = display_only(b"display");
    assert_eq!(set(&mut identity, &mut balances, 1, &info), Ok(()));

    assert_eq!(identity.provide_judgement_inline(0, 1, 2), Ok(()));

    assert_eq!(identity.provide_judgement_inline(0, 1, 1), Err(Error::StickyJudgement));
    let registration = identity.identity_of(&1).unwrap();
    assert_eq!(registration.judgements, vec![(0, Judgement::KnownGood)]);
}

#[test]
fn set_identity_clears_non_sticky_judgement() {
    let (mut identity, mut balances) = new_test_ext();
    let info = display_only(b"display");
    assert_eq!(set(&mut identity, &mut balances, 1, &info), Ok(()));

    assert_eq!(identity.provide_judgement_inline(0, 1, 1), Ok(()));
    let registration = identity.identity_of(&1).unwrap();
    assert_eq!(registration.judgements.len(), 1);
    assert_eq!(registration.judgements[0], (0, Judgement::Reasonable));

    let new_info = IdentityInfo { display: b"new_display".to_vec(), ..info };
    assert_eq!(set(&mut identity, &mut balances, 1, &new_info), Ok(()));

    let registration = identity.identity_of(&1).unwrap();
    assert_eq!(registration.judgements.len(), 0);
}

#[test]
fn set_identity_preserves_sticky_judgement() {
    let (mut identity, mut balances) = new_test_ext();
    let info = display_only(b"display");
    assert_eq!(set(&mut identity, &mut balances, 1, &info), Ok(()));

    assert_eq!(identity.provide_judgement_inline(0, 1, 2), Ok(()));
    let registration = identity.identity_of(&1).unwrap();
    assert_eq!(registration.judgements.len(), 1);
    assert_eq!(registration.judgements[0], (0, Judgement::KnownGood));

    let new_info = IdentityInfo { display: b"new_display".to_vec(), ..info };
    assert_eq!(set(&mut identity, &mut balances, 1, &new_info), Ok(()));

    let registration = identity.identity_of(&1).unwrap();
    assert_eq!(registration.judgements.len(), 1);
    assert_eq!(registration.judgements[0], (0, Judgement::KnownGood));
}

#[test]
fn deposit_calculation_works() {
    let (mut identity, mut balances) = new_test_ext();
    let small_info = display_only(b"a");
    let large_info = IdentityInfo {
        display: b"a_much_longer_display_name_that_takes_up_more_bytes".to_vec(),
        legal: b"legal_name".to_vec(),
        web: b"https://example.com".to_vec(),
        email: b"test@example.com".to_vec(),
    };

    assert_eq!(set(&mut identity, &mut balances, 1, &small_info), Ok(()));
    let small_deposit = identity.identity_of(&1).unwrap().deposit;

    assert_eq!(identity.clear_identity(&mut balances, 1), Ok(()));
    assert_eq!(set(&mut identity, &mut balances, 1, &large_info), Ok(()));
    let large_deposit = identity.identity_of(&1).unwrap().deposit;

    assert!(large_deposit > small_deposit);
}

#[test]
fn multiple_judgements_work() {
    let (mut identity, mut balances) = new_test_ext();
    let info = display_only(b"display");
    assert_eq!(set(&mut identity, &mut balances, 1, &info), Ok(()));

    assert_eq!(identity.provide_judgement_inline(5, 1, 1), Ok(())); // Reasonable
    assert_eq!(identity.provide_judgement_inline(1, 1, 2), Ok(())); // KnownGood
    assert_eq!(identity.provide_judgement_inline(10, 1, 3), Ok(())); // Erroneous
    assert_eq!(identity.provide_judgement_inline(0, 1, 4), Ok(())); // LowQuality

    let registration = identity.identity_of(&1).unwrap();
    assert_eq!(registration.judgements.len(), 4);
    assert_eq!(registration.judgements[0], (0, Judgement::LowQuality));
    assert_eq!(registration.judgements[1], (1, Judgement::KnownGood));
    assert_eq!(registration.judgements[2], (5, Judgement::Reasonable));
    assert_eq!(registration.judgements[3], (10, Judgement::Erroneous));
}

#[test]
fn judgement_update_works() {
    let (mut identity, mut balances) = new_test_ext();
    let info = display_only(b"display");
    assert_eq!(set(&mut identity, &mut balances, 1, &info), Ok(()));

    assert_eq!(identity.provide_judgement_inline(5, 1, 1), Ok(())); // Reasonable
    let registration = identity.identity_of(&1).unwrap();
    assert_eq!(registration.judgements.len(), 1);
    assert_eq!(registration.judgements[0], (5, Judgement::Reasonable));

    assert_eq!(identity.provide_judgement_inline(5, 1, 4), Ok(())); // LowQuality
    let registration = identity.identity_of(&1).unwrap();
    assert_eq!(registration.judgements.len(), 1);
    assert_eq!(registration.judgements[0], (5, Judgement::LowQuality));
}

#[test]
fn mixed_sticky_non_sticky_judgements() {
    let (mut identity, mut balances) = new_test_ext();
    let info = display_only(b"display");
    assert_eq!(set(&mut identity, &mut balances, 1, &info), Ok(()));

    assert_eq!(identity.provide_judgement_inline(1, 1, 1), Ok(())); // Reasonable
    assert_eq!(identity.provide_judgement_inline(2, 1, 2), Ok(())); // KnownGood
    assert_eq!(identity.provide_judgement_inline(3, 1, 3), Ok(())); // Erroneous
    assert_eq!(identity.provide_judgement_inline(4, 1, 4), Ok(())); // LowQuality

    let registration = identity.identity_of(&1).unwrap();
    assert_eq!(registration.judgements.len(), 4);

    let new_info = IdentityInfo { display: b"new_display".to_vec(), ..info };
    assert_eq!(set(&mut identity, &mut balances, 1, &new_info), Ok(()));

    let registration = identity.identity_of(&1).unwrap();
    assert_eq!(registration.judgements.len(), 2);
    assert_eq!(registration.judgements[0], (2, Judgement::KnownGood));
    assert_eq!(registration.judgements[1], (3, Judgement::Erroneous));
}

#[test]
fn too_many_judgements_error() {
    let (mut identity, mut balances) = new_test_ext();
    let info = display_only(b"display");
    assert_eq!(set(&mut identity, &mut balances, 1, &info), Ok(()));

    for i in 0..20 {
        assert_eq!(identity.provide_judgement_inline(i, 1, 1), Ok(()));
    }

    let registration = identity.identity_of(&1).unwrap();
    assert_eq!(registration.judgements.len(), 20);

    assert_eq!(identity.provide_judgement_inline(20, 1, 1), Err(Error::TooManyJudgements));
    assert_eq!(identity.identity_of(&1).unwrap().judgements.len(), 20);
}

#[test]
fn inline_storage_pattern_works() {
    let (mut identity, mut balances) = new_test_ext();
    let info = display_only(b"display");
    assert_eq!(set(&mut identity, &mut balances, 1, &info), Ok(()));

    assert_eq!(identity.provide_judgement_inline(5, 1, 1), Ok(())); // Reasonable
    assert_eq!(identity.provide_judgement_inline(1, 1, 2), Ok(())); // KnownGood
    assert_eq!(identity.provide_judgement_inline(10, 1, 3), Ok(())); // Erroneous

    let registration = identity.identity_of(&1).unwrap();
    assert_eq!(registration.judgements.len(), 3);
    assert_eq!(registration.judgements[0], (1, Judgement::KnownGood));
    assert_eq!(registration.judgements[1], (5, Judgement::Reasonable));
    assert_eq!(registration.judgements[2], (10, Judgement::Erroneous));

    // The outside store is untouched by the inline path.
    assert_eq!(identity.double_map_judgement(&1, 1), None);
    assert_eq!(identity.double_map_judgement(&1, 5), None);
    assert_eq!(identity.double_map_judgement(&1, 10), None);

    assert_eq!(identity.clear_identity(&mut balances, 1), Ok(()));

    assert!(identity.identity_of(&1).is_none());
}

#[test]
fn double_map_storage_pattern_works() {
    let (mut identity, mut balances) = new_test_ext();
    let info = display_only(b"display");
    assert_eq!(set(&mut identity, &mut balances, 1, &info), Ok(()));

    assert_eq!(identity.provide_judgement_double_map(5, 1, 1), Ok(())); // Reasonable
    assert_eq!(identity.provide_judgement_double_map(1, 1, 2), Ok(())); // KnownGood
    assert_eq!(identity.provide_judgement_double_map(10, 1, 3), Ok(())); // Erroneous

    assert_eq!(identity.double_map_judgement(&1, 1), Some(Judgement::KnownGood));
    assert_eq!(identity.double_map_judgement(&1, 5), Some(Judgement::Reasonable));
    assert_eq!(identity.double_map_judgement(&1, 10), Some(Judgement::Erroneous));
    assert_eq!(identity.double_map_judgement(&1, 99), None);

    // The inline list is untouched by the outside path.
    let registration = identity.identity_of(&1).unwrap();
    assert_eq!(registration.judgements.len(), 0);

    assert_eq!(identity.clear_identity(&mut balances, 1), Ok(()));

    assert!(identity.identity_of(&1).is_none());
    assert_eq!(identity.double_map_judgement(&1, 1), None);
    assert_eq!(identity.double_map_judgement(&1, 5), None);
    assert_eq!(identity.double_map_judgement(&1, 10), None);
}

#[test]
fn double_map_counter_tracks_correctly() {
    let (mut identity, mut balances) = new_test_ext();
    let info = display_only(b"display");
    assert_eq!(set(&mut identity, &mut balances, 1, &info), Ok(()));

    let registration = identity.identity_of(&1).unwrap();
    assert_eq!(registration.judgements_count_double_map, 0);

    assert_eq!(identity.provide_judgement_double_map(1, 1, 1), Ok(())); // new
    assert_eq!(identity.provide_judgement_double_map(2, 1, 2), Ok(())); // new
    assert_eq!(identity.provide_judgement_double_map(3, 1, 3), Ok(())); // new

    let registration = identity.identity_of(&1).unwrap();
    assert_eq!(registration.judgements_count_double_map, 3);

    assert_eq!(identity.provide_judgement_double_map(1, 1, 4), Ok(())); // replaces

    let registration = identity.identity_of(&1).unwrap();
    assert_eq!(registration.judgements_count_double_map, 3);

    assert_eq!(identity.double_map_judgement(&1, 1), Some(Judgement::LowQuality));
    assert_eq!(identity.double_map_judgement(&1, 2), Some(Judgement::KnownGood));
    assert_eq!(identity.double_map_judgement(&1, 3), Some(Judgement::Erroneous));
}

#[test]
fn scenario_sticky_judgement_survives_and_clear_drains() {
    let (mut identity, mut balances) = new_test_ext();
    let info = display_only(b"display");
    assert_eq!(set(&mut identity, &mut balances, 1, &info), Ok(()));
    // "display" encodes to 1 + 7 bytes, each empty field to 1 byte.
    let deposit = identity.identity_of(&1).unwrap().deposit;
    assert_eq!(deposit, 10 + 11);
    assert_eq!(balances.reserved_balance(1), 21);

    assert_eq!(identity.provide_judgement_inline(0, 1, 2), Ok(()));
    assert_eq!(identity.identity_of(&1).unwrap().judgements, vec![(0, Judgement::KnownGood)]);

    assert_eq!(identity.provide_judgement_inline(0, 1, 1), Err(Error::StickyJudgement));
    assert_eq!(identity.identity_of(&1).unwrap().judgements, vec![(0, Judgement::KnownGood)]);

    assert_eq!(set(&mut identity, &mut balances, 1, &display_only(b"new")), Ok(()));
    let registration = identity.identity_of(&1).unwrap();
    assert_eq!(registration.judgements, vec![(0, Judgement::KnownGood)]);
    assert_eq!(registration.deposit, 10 + 7);
    assert_eq!(balances.reserved_balance(1), 17);
    assert_eq!(balances.free_balance(1), 1000 - 17);

    assert_eq!(identity.clear_identity(&mut balances, 1), Ok(()));
    assert!(identity.identity_of(&1).is_none());
    assert_eq!(identity.last_event(), Some(Event::IdentityCleared { who: 1, deposit: 17 }));
    assert_eq!(balances.reserved_balance(1), 0);
    assert_eq!(balances.free_balance(1), 1000);
}

#[test]
fn encoded_size_counts_compact_length_prefixes() {
    assert_eq!(IdentityInfo::default().encoded_size(), 4);
    assert_eq!(display_only(b"display").encoded_size(), 11);
    // 63 bytes take a one-byte prefix, 64 bytes a two-byte one.
    assert_eq!(display_only(&[7u8; 63]).encoded_size(), 1 + 63 + 3);
    assert_eq!(display_only(&[7u8; 64]).encoded_size(), 2 + 64 + 3);
    let info = IdentityInfo {
        display: b"display".to_vec(),
        legal: b"legal".to_vec(),
        web: b"web".to_vec(),
        email: b"email".to_vec(),
    };
    assert_eq!(info.encoded_size(), 8 + 6 + 4 + 6);
}

#[test]
fn deposit_formula_and_saturation() {
    let c = config();
    assert_eq!(c.calculate_identity_deposit(&IdentityInfo::default()), 14);
    assert_eq!(c.calculate_identity_deposit(&display_only(b"display")), 21);
    let dear = Config { basic_deposit: 100, byte_deposit: 3, max_judgements: 20, max_field_length: 64 };
    assert_eq!(dear.calculate_identity_deposit(&display_only(b"display")), 100 + 3 * 11);
    let saturated =
        Config { basic_deposit: 5, byte_deposit: u128::MAX / 2, max_judgements: 20, max_field_length: 64 };
    assert_eq!(saturated.calculate_identity_deposit(&display_only(b"display")), u128::MAX);
}

#[test]
fn larger_identity_costs_more() {
    let c = config();
    let a = display_only(b"abc");
    let b = display_only(b"abcdef");
    assert!(b.encoded_size() > a.encoded_size());
    assert!(c.calculate_identity_deposit(&b) > c.calculate_identity_deposit(&a));
}

#[test]
fn set_identity_rejects_long_fields() {
    let (mut identity, mut balances) = new_test_ext();
    assert_eq!(set(&mut identity, &mut balances, 1, &display_only(&[1u8; 64])), Ok(()));
    let too_long = IdentityInfo { email: vec![1u8; 65], ..display_only(b"x") };
    assert_eq!(set(&mut identity, &mut balances, 2, &too_long), Err(Error::FieldTooLong));
    assert!(identity.identity_of(&2).is_none());
}

#[test]
fn set_identity_fails_on_insufficient_balance() {
    let (mut identity, mut balances) = new_test_ext();
    let poor = Config { basic_deposit: 990, byte_deposit: 1, max_judgements: 20, max_field_length: 64 };
    let mut identity_poor = Pallet::new(poor);
    assert_eq!(set(&mut identity_poor, &mut balances, 1, &display_only(b"display")), Err(Error::InsufficientBalance));
    assert!(identity_poor.identity_of(&1).is_none());
    assert_eq!(identity_poor.last_event(), None);
    assert_eq!(balances.free_balance(1), 1000);
    // Account 9 has no funds at all.
    assert_eq!(set(&mut identity, &mut balances, 9, &display_only(b"d")), Err(Error::InsufficientBalance));
}

#[test]
fn smaller_identity_releases_deposit() {
    let (mut identity, mut balances) = new_test_ext();
    assert_eq!(set(&mut identity, &mut balances, 1, &display_only(b"display")), Ok(()));
    assert_eq!(balances.reserved_balance(1), 21);
    assert_eq!(set(&mut identity, &mut balances, 1, &IdentityInfo::default()), Ok(()));
    assert_eq!(identity.identity_of(&1).unwrap().total_deposit(), 14);
    assert_eq!(balances.reserved_balance(1), 14);
    assert_eq!(balances.free_balance(1), 1000 - 14);
}

#[test]
fn invalid_judgement_code_is_rejected() {
    let (mut identity, mut balances) = new_test_ext();
    assert_eq!(set(&mut identity, &mut balances, 1, &display_only(b"display")), Ok(()));
    assert_eq!(identity.provide_judgement_inline(0, 1, 5), Err(Error::InvalidJudgement));
    assert_eq!(identity.provide_judgement_double_map(0, 1, 255), Err(Error::InvalidJudgement));
    // The code is checked before the target.
    assert_eq!(identity.provide_judgement_inline(0, 7, 9), Err(Error::InvalidJudgement));
    assert_eq!(identity.identity_of(&1).unwrap().judgements.len(), 0);
    assert_eq!(identity.double_map_judgement(&1, 0), None);
}

#[test]
fn judgement_codes_decode() {
    assert_eq!(Judgement::from_code(0), Some(Judgement::Unknown));
    assert_eq!(Judgement::from_code(1), Some(Judgement::Reasonable));
    assert_eq!(Judgement::from_code(2), Some(Judgement::KnownGood));
    assert_eq!(Judgement::from_code(3), Some(Judgement::Erroneous));
    assert_eq!(Judgement::from_code(4), Some(Judgement::LowQuality));
    assert_eq!(Judgement::from_code(5), None);
    assert!(Judgement::KnownGood.is_sticky());
    assert!(Judgement::Erroneous.is_sticky());
    assert!(!Judgement::Unknown.is_sticky());
    assert!(!Judgement::Reasonable.is_sticky());
    assert!(!Judgement::LowQuality.is_sticky());
}

#[test]
fn double_map_rejects_missing_target() {
    let (mut identity, _balances) = new_test_ext();
    assert_eq!(identity.provide_judgement_double_map(0, 1, 1), Err(Error::InvalidTarget));
    assert_eq!(identity.double_map_judgement(&1, 0), None);
}

#[test]
fn double_map_respects_sticky_judgements() {
    let (mut identity, mut balances) = new_test_ext();
    assert_eq!(set(&mut identity, &mut balances, 1, &display_only(b"display")), Ok(()));
    assert_eq!(identity.provide_judgement_double_map(4, 1, 2), Ok(()));
    for code in 0..5u8 {
        assert_eq!(identity.provide_judgement_double_map(4, 1, code), Err(Error::StickyJudgement));
    }
    assert_eq!(identity.double_map_judgement(&1, 4), Some(Judgement::KnownGood));
    assert_eq!(identity.identity_of(&1).unwrap().judgements_count_double_map, 1);
}

#[test]
fn double_map_capacity_boundary() {
    let (mut identity, mut balances) = new_test_ext();
    assert_eq!(set(&mut identity, &mut balances, 1, &display_only(b"display")), Ok(()));
    for i in 0..20 {
        assert_eq!(identity.provide_judgement_double_map(100 + i, 1, 1), Ok(()));
    }
    assert_eq!(identity.identity_of(&1).unwrap().judgements_count_double_map, 20);
    assert_eq!(identity.provide_judgement_double_map(7, 1, 1), Err(Error::TooManyJudgements));
    assert_eq!(identity.double_map_judgement(&1, 7), None);
    // Replacing an existing id still works when full.
    assert_eq!(identity.provide_judgement_double_map(100, 1, 4), Ok(()));
    assert_eq!(identity.double_map_judgement(&1, 100), Some(Judgement::LowQuality));
    assert_eq!(identity.identity_of(&1).unwrap().judgements_count_double_map, 20);
}

#[test]
fn inline_full_list_still_replaces() {
    let (mut identity, mut balances) = new_test_ext();
    assert_eq!(set(&mut identity, &mut balances, 1, &display_only(b"display")), Ok(()));
    for i in (0..40).rev().step_by(2) {
        assert_eq!(identity.provide_judgement_inline(i, 1, 1), Ok(()));
    }
    let judgements = identity.identity_of(&1).unwrap().judgements.clone();
    assert_eq!(judgements.len(), 20);
    for w in judgements.windows(2) {
        assert!(w[0].0 < w[1].0);
    }
    // Ids 1, 3, ..., 39 are held; 0 is new, 39 already there.
    assert_eq!(judgements[0].0, 1);
    assert_eq!(identity.provide_judgement_inline(0, 1, 1), Err(Error::TooManyJudgements));
    assert_eq!(identity.provide_judgement_inline(39, 1, 3), Ok(()));
    assert_eq!(identity.identity_of(&1).unwrap().judgements[19], (39, Judgement::Erroneous));
}

#[test]
fn set_identity_keeps_double_map_judgements() {
    let (mut identity, mut balances) = new_test_ext();
    assert_eq!(set(&mut identity, &mut balances, 1, &display_only(b"display")), Ok(()));
    assert_eq!(identity.provide_judgement_double_map(3, 1, 1), Ok(()));
    assert_eq!(identity.provide_judgement_inline(3, 1, 1), Ok(()));
    assert_eq!(set(&mut identity, &mut balances, 1, &display_only(b"other")), Ok(()));
    let registration = identity.identity_of(&1).unwrap();
    assert_eq!(registration.judgements.len(), 0);
    assert_eq!(registration.judgements_count_double_map, 1);
    assert_eq!(identity.double_map_judgement(&1, 3), Some(Judgement::Reasonable));
}

#[test]
fn kill_identity_confiscates_deposit() {
    let (mut identity, mut balances) = new_test_ext();
    assert_eq!(identity.kill_identity(&mut balances, 1), Err(Error::NoIdentity));
    assert_eq!(set(&mut identity, &mut balances, 1, &display_only(b"display")), Ok(()));
    assert_eq!(identity.provide_judgement_double_map(1, 1, 2), Ok(()));
    assert_eq!(identity.kill_identity(&mut balances, 1), Ok(()));
    assert!(identity.identity_of(&1).is_none());
    assert_eq!(identity.double_map_judgement(&1, 1), None);
    assert_eq!(identity.last_event(), Some(Event::IdentityKilled { who: 1, deposit: 21 }));
    assert_eq!(balances.reserved_balance(1), 0);
    assert_eq!(balances.free_balance(1), 1000 - 21);
}

#[test]
fn records_are_per_account() {
    let (mut identity, mut balances) = new_test_ext();
    assert_eq!(set(&mut identity, &mut balances, 1, &display_only(b"one")), Ok(()));
    assert_eq!(set(&mut identity, &mut balances, 2, &display_only(b"two")), Ok(()));
    assert_eq!(identity.provide_judgement_double_map(1, 2, 1), Ok(()));
    assert_eq!(identity.clear_identity(&mut balances, 1), Ok(()));
    assert!(identity.identity_of(&1).is_none());
    assert_eq!(identity.identity_of(&2).unwrap().judgements_count_double_map, 1);
    assert_eq!(identity.double_map_judgement(&2, 1), Some(Judgement::Reasonable));
    assert_eq!(identity.config(), config());
}

#[test]
fn deposit_change_matches_direction() {
    assert_eq!(deposit_change(10, 25), DepositChange::Reserve(15));
    assert_eq!(deposit_change(25, 10), DepositChange::Release(15));
    assert_eq!(deposit_change(7, 7), DepositChange::Keep);
}

#[test]
fn ledger_moves_balances() {
    let mut balances = Balances::new();
    balances.make_free_balance_be(1, 100);
    assert_eq!(balances.reserve(1, 101), Err(InsufficientBalance));
    assert_eq!(balances.free_balance(1), 100);
    assert_eq!(balances.reserve(1, 40), Ok(()));
    assert_eq!((balances.free_balance(1), balances.reserved_balance(1)), (60, 40));
    assert_eq!(balances.unreserve(1, 50), 10);
    assert_eq!((balances.free_balance(1), balances.reserved_balance(1)), (100, 0));
    assert_eq!(balances.reserve(1, 30), Ok(()));
    assert_eq!(balances.slash_reserved(1, 20), 0);
    assert_eq!((balances.free_balance(1), balances.reserved_balance(1)), (70, 10));
    assert_eq!(balances.free_balance(2), 0);
}

#[test]
fn same_identity_again_asks_nothing() {
    let (mut identity, mut balances) = new_test_ext();
    assert_eq!(set(&mut identity, &mut balances, 1, &display_only(b"display")), Ok(()));
    assert_eq!(set(&mut identity, &mut balances, 1, &display_only(b"display")), Ok(()));
    assert_eq!(balances.reserved_balance(1), 21);
    assert_eq!(balances.free_balance(1), 1000 - 21);
}

#[test]
fn ledger_keeps_minimum_balance() {
    let mut balances = Balances::with_minimum_balance(500);
    assert_eq!(balances.minimum_balance(), 500);
    balances.make_free_balance_be(1, 1000);
    assert_eq!(balances.reserve(1, 501), Err(InsufficientBalance));
    assert_eq!(balances.reserve(1, 500), Ok(()));
    assert_eq!((balances.free_balance(1), balances.reserved_balance(1)), (500, 500));
}

#[test]
fn deposit_round_trip_restores_balances() {
    let (mut identity, mut balances) = new_test_ext();
    assert_eq!(set(&mut identity, &mut balances, 1, &display_only(b"display")), Ok(()));
    assert_eq!(set(&mut identity, &mut balances, 1, &display_only(b"a_longer_display")), Ok(()));
    assert_eq!(balances.reserved_balance(1), 10 + 17 + 3);
    assert_eq!(set(&mut identity, &mut balances, 1, &display_only(b"display")), Ok(()));
    assert_eq!((balances.free_balance(1), balances.reserved_balance(1)), (1000 - 21, 21));
}
