use seasonal_wishlist::errors::ContractError;
use seasonal_wishlist::identity::{Address, AuthContext};
use seasonal_wishlist::wishlist::SeasonalWishlist;

fn auth_for(a: Address) -> AuthContext {
    let mut ctx = AuthContext::new();
    ctx.approve(a);
    ctx
}

#[test]
fn bike_added_fulfilled_then_frozen() {
    let admin = Address(1);
    let user = Address(2);
    let deadline: u64 = 1_000;
    let mut state = SeasonalWishlist::new(admin, deadline, Vec::new());
    let user_auth = auth_for(user);
    let admin_auth = auth_for(admin);

    let id = state.add_wish(&user_auth, 500, 42, user, String::from("bike"));
    assert_eq!(id, Ok(1));

    let list = state.get_list(user);
    assert_eq!(list.len(), 1);
    assert_eq!(list[0].id, 1);
    assert_eq!(list[0].text, "bike");
    assert_eq!(list[0].created_at_ledger, 42);
    assert!(!list[0].fulfilled);

    assert_eq!(state.mark_fulfilled(&admin_auth, user, 1), Ok(()));
    let list = state.get_list(user);
    assert_eq!(list.len(), 1);
    assert_eq!(list[0].id, 1);
    assert!(list[0].fulfilled);

    let late = state.add_wish(&user_auth, deadline, 43, user, String::from("scooter"));
    assert_eq!(late, Err(ContractError::DeadlineExceeded));
    let later = state.add_wish(&user_auth, deadline + 500, 44, user, String::from("scooter"));
    assert_eq!(later, Err(ContractError::DeadlineExceeded));
    assert_eq!(state.get_list(user).len(), 1);
}

#[test]
fn denylisted_user_gets_coal_refused() {
    let admin = Address(1);
    let user = Address(2);
    let mut state = SeasonalWishlist::new(admin, 1_000, vec![user]);
    let user_auth = auth_for(user);

    let refused = state.add_wish(&user_auth, 10, 1, user, String::from("coal"));
    assert_eq!(refused, Err(ContractError::Forbidden));
    assert!(state.get_list(user).is_empty());
    assert_eq!(state.next_wish_id(user), 1);
}

#[test]
fn missing_wish_id_leaves_sequence_unchanged() {
    let admin = Address(1);
    let user = Address(2);
    let mut state = SeasonalWishlist::new(admin, 1_000, Vec::new());
    let user_auth = auth_for(user);
    let admin_auth = auth_for(admin);

    assert_eq!(state.add_wish(&user_auth, 10, 7, user, String::from("sled")), Ok(1));
    assert_eq!(state.mark_fulfilled(&admin_auth, user, 999), Err(ContractError::WishNotFound));

    let list = state.get_list(user);
    assert_eq!(list.len(), 1);
    assert_eq!(list[0].id, 1);
    assert_eq!(list[0].text, "sled");
    assert_eq!(list[0].created_at_ledger, 7);
    assert!(!list[0].fulfilled);
    assert_eq!(state.next_wish_id(user), 2);
}

#[test]
fn empty_list_for_unknown_user() {
    let admin = Address(1);
    let mut state = SeasonalWishlist::new(admin, 1_000, Vec::new());
    assert!(state.get_list(Address(77)).is_empty());
    let mut fresh = SeasonalWishlist::uninitialized();
    assert!(fresh.get_list(Address(77)).is_empty());
}
