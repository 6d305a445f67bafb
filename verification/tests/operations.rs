use seasonal_wishlist::errors::ContractError;
use seasonal_wishlist::events::{Event, WishAddedEvent, WishFulfilledEvent};
use seasonal_wishlist::identity::{Address, AuthContext};
use seasonal_wishlist::storage::{DataKey, Renewal};
use seasonal_wishlist::wishlist::{SeasonalWishlist, DEFAULT_CHRISTMAS_DEADLINE};

fn auth_for(a: Address) -> AuthContext {
    let mut ctx = AuthContext::new();
    ctx.approve(a);
    ctx
}

#[test]
fn ids_increase_by_exactly_one() {
    let admin = Address(1);
    let user = Address(2);
    let mut state = SeasonalWishlist::new(admin, 1_000, Vec::new());
    let user_auth = auth_for(user);
    for expected in 1..=4u32 {
        let got = state.add_wish(&user_auth, 10, expected, user, format!("wish {expected}"));
        assert_eq!(got, Ok(expected));
    }
    assert_eq!(state.next_wish_id(user), 5);
    let list = state.get_list(user);
    assert_eq!(list.len(), 4);
    for (i, w) in list.iter().enumerate() {
        assert_eq!(w.id as usize, i + 1);
    }
}

#[test]
fn counters_are_per_user() {
    let admin = Address(1);
    let alice = Address(2);
    let bob = Address(3);
    let mut state = SeasonalWishlist::new(admin, 1_000, Vec::new());
    assert_eq!(state.add_wish(&auth_for(alice), 10, 1, alice, String::from("a1")), Ok(1));
    assert_eq!(state.add_wish(&auth_for(bob), 11, 2, bob, String::from("b1")), Ok(1));
    assert_eq!(state.add_wish(&auth_for(alice), 12, 3, alice, String::from("a2")), Ok(2));
    assert_eq!(state.get_list(alice).len(), 2);
    assert_eq!(state.get_list(bob).len(), 1);
}

#[test]
fn deadline_boundary_is_exclusive() {
    let admin = Address(1);
    let user = Address(2);
    let mut state = SeasonalWishlist::new(admin, 1_000, Vec::new());
    let user_auth = auth_for(user);
    assert_eq!(state.add_wish(&user_auth, 999, 1, user, String::from("just in time")), Ok(1));
    assert_eq!(
        state.add_wish(&user_auth, 1_000, 2, user, String::from("too late")),
        Err(ContractError::DeadlineExceeded)
    );
    // the failed addition moved neither the counter nor the list
    assert_eq!(state.next_wish_id(user), 2);
    assert_eq!(state.get_list(user).len(), 1);
}

#[test]
fn addition_needs_the_users_own_approval() {
    let admin = Address(1);
    let user = Address(2);
    let mut state = SeasonalWishlist::new(admin, 1_000, Vec::new());
    let nobody = AuthContext::new();
    assert_eq!(
        state.add_wish(&nobody, 10, 1, user, String::from("w")),
        Err(ContractError::Unauthorized)
    );
    // even the administrator cannot add to someone else's list
    let admin_auth = auth_for(admin);
    assert_eq!(
        state.add_wish(&admin_auth, 10, 1, user, String::from("w")),
        Err(ContractError::Unauthorized)
    );
    assert!(state.get_list(user).is_empty());
}

#[test]
fn gates_run_in_order() {
    let admin = Address(1);
    let user = Address(2);
    let mut state = SeasonalWishlist::new(admin, 1_000, vec![user]);
    // past the deadline the denylist is never consulted
    let user_auth = auth_for(user);
    assert_eq!(
        state.add_wish(&user_auth, 2_000, 1, user, String::from("w")),
        Err(ContractError::DeadlineExceeded)
    );
    // before the deadline, missing authorization is reported before naughtiness
    let nobody = AuthContext::new();
    assert_eq!(
        state.add_wish(&nobody, 10, 1, user, String::from("w")),
        Err(ContractError::Unauthorized)
    );
    // authorized and before the deadline: the denylist decides
    assert_eq!(
        state.add_wish(&user_auth, 10, 1, user, String::from("w")),
        Err(ContractError::Forbidden)
    );
}

#[test]
fn deadline_update_is_admin_only() {
    let admin = Address(1);
    let user = Address(2);
    let mut state = SeasonalWishlist::new(admin, 1_000, Vec::new());
    let user_auth = auth_for(user);
    assert_eq!(state.set_christmas_deadline(&user_auth, 5_000), Err(ContractError::Unauthorized));
    assert_eq!(state.deadline_value(), 1_000);

    let admin_auth = auth_for(admin);
    assert_eq!(state.set_christmas_deadline(&admin_auth, 5_000), Ok(()));
    assert_eq!(state.deadline_value(), 5_000);

    // an addition late for the old deadline now passes
    assert_eq!(state.add_wish(&user_auth, 3_000, 1, user, String::from("w")), Ok(1));
}

#[test]
fn admin_operations_fail_before_bootstrap() {
    let user = Address(2);
    let mut state = SeasonalWishlist::uninitialized();
    let user_auth = auth_for(user);
    assert_eq!(
        state.mark_fulfilled(&user_auth, user, 1),
        Err(ContractError::PreconditionMissing)
    );
    assert_eq!(
        state.set_christmas_deadline(&user_auth, 5),
        Err(ContractError::PreconditionMissing)
    );
    // additions do not read the administrator and fall back to the fixed deadline
    assert_eq!(state.deadline_value(), DEFAULT_CHRISTMAS_DEADLINE);
    assert_eq!(state.add_wish(&user_auth, 0, 1, user, String::from("early")), Ok(1));
    assert_eq!(
        state.add_wish(&user_auth, DEFAULT_CHRISTMAS_DEADLINE, 2, user, String::from("late")),
        Err(ContractError::DeadlineExceeded)
    );
}

#[test]
fn fulfillment_is_idempotent() {
    let admin = Address(1);
    let user = Address(2);
    let mut state = SeasonalWishlist::new(admin, 1_000, Vec::new());
    let admin_auth = auth_for(admin);
    assert_eq!(state.add_wish(&auth_for(user), 10, 1, user, String::from("w")), Ok(1));
    assert_eq!(state.mark_fulfilled(&admin_auth, user, 1), Ok(()));
    assert_eq!(state.mark_fulfilled(&admin_auth, user, 1), Ok(()));
    let list = state.get_list(user);
    assert_eq!(list.len(), 1);
    assert!(list[0].fulfilled);
}

#[test]
fn fulfillment_needs_the_admins_approval() {
    let admin = Address(1);
    let user = Address(2);
    let mut state = SeasonalWishlist::new(admin, 1_000, Vec::new());
    let user_auth = auth_for(user);
    assert_eq!(state.add_wish(&user_auth, 10, 1, user, String::from("w")), Ok(1));
    // the user cannot fulfill his own wish
    assert_eq!(state.mark_fulfilled(&user_auth, user, 1), Err(ContractError::Unauthorized));
    assert!(!state.get_list(user)[0].fulfilled);
}

#[test]
fn events_and_renewals_are_logged() {
    let admin = Address(1);
    let user = Address(2);
    let mut state = SeasonalWishlist::new(admin, 1_000, Vec::new());
    assert!(state.event_log.is_empty());
    assert!(state.renewal_log.is_empty());

    assert_eq!(state.add_wish(&auth_for(user), 10, 1, user, String::from("w")), Ok(1));
    assert_eq!(state.event_log, vec![Event::Added(WishAddedEvent { user, add: 1 })]);
    assert_eq!(
        state.renewal_log,
        vec![Renewal::Persistent(DataKey::Wishes(user)), Renewal::Instance]
    );

    let _ = state.get_list(user);
    assert_eq!(state.renewal_log.len(), 3);
    assert_eq!(state.renewal_log[2], Renewal::Persistent(DataKey::Wishes(user)));
    assert_eq!(state.event_log.len(), 1);

    assert_eq!(state.mark_fulfilled(&auth_for(admin), user, 1), Ok(()));
    assert_eq!(state.event_log.len(), 2);
    assert_eq!(
        state.event_log[1],
        Event::Fulfilled(WishFulfilledEvent { user, wish_id: 1 })
    );
    assert_eq!(state.renewal_log.len(), 4);
    assert_eq!(state.renewal_log[3], Renewal::Persistent(DataKey::Wishes(user)));

    // failed operations log nothing
    assert_eq!(
        state.add_wish(&AuthContext::new(), 10, 2, user, String::from("x")),
        Err(ContractError::Unauthorized)
    );
    assert_eq!(
        state.mark_fulfilled(&auth_for(admin), user, 9),
        Err(ContractError::WishNotFound)
    );
    assert_eq!(state.event_log.len(), 2);
    assert_eq!(state.renewal_log.len(), 4);
}

#[test]
fn creation_marker_and_text_survive_fulfillment() {
    let admin = Address(1);
    let user = Address(2);
    let mut state = SeasonalWishlist::new(admin, 1_000, Vec::new());
    assert_eq!(state.add_wish(&auth_for(user), 10, 77, user, String::from("train")), Ok(1));
    assert_eq!(state.mark_fulfilled(&auth_for(admin), user, 1), Ok(()));
    let list = state.get_list(user);
    assert_eq!(list[0].created_at_ledger, 77);
    assert_eq!(list[0].text, "train");
    assert_eq!(list[0].id, 1);
}
