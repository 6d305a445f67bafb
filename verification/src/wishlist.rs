use vstd::prelude::*;

use crate::errors::ContractError;
use crate::events::Event;
use crate::events::WishAddedEvent;
use crate::events::WishFulfilledEvent;
use crate::identity::Address;
use crate::identity::AuthContext;
use crate::identity::contains_address;
use crate::storage::DataKey;
use crate::storage::Renewal;

verus! {

/// Fallback cutover instant (Unix seconds) used when no deadline was ever
/// stored.
pub const DEFAULT_CHRISTMAS_DEADLINE: u64 = 1_766_620_800;

/// A single registered wish. Ids are allocated per user, monotonically
/// increasing from 1, and never reused; `created_at_ledger` is the ledger
/// sequence number at creation and never changes; `fulfilled` starts false and
/// only ever rises to true.
#[derive(Debug)]
pub struct Wish {
    pub id: u32,
    pub text: String,
    pub created_at_ledger: u32,
    pub fulfilled: bool,
}

impl Clone for Wish {
    fn clone(&self) -> (other: Self)
        ensures
            other == *self,
    {
        Wish {
            id: self.id,
            text: self.text.clone(),
            created_at_ledger: self.created_at_ledger,
            fulfilled: self.fulfilled,
        }
    }
}

/// How a stored wish may evolve: everything is frozen at creation except the
/// fulfilled flag, which can only rise.
pub open spec fn wish_preserved(before: Wish, after: Wish) -> bool {
    &&& after.id == before.id
    &&& after.text == before.text
    &&& after.created_at_ledger == before.created_at_ledger
    &&& (before.fulfilled ==> after.fulfilled)
}

/// Some wish in the sequence carries this id.
pub open spec fn seq_has_wish(wishes: Seq<Wish>, wish_id: u32) -> bool {
    exists|k: int| 0 <= k < wishes.len() && (#[trigger] wishes[k]).id == wish_id
}

/// The position of the wish carrying this id (unique in a well-formed entry).
pub open spec fn seq_wish_index(wishes: Seq<Wish>, wish_id: u32) -> int {
    choose|k: int| 0 <= k < wishes.len() && (#[trigger] wishes[k]).id == wish_id
}

/// One user's slice of the ledger store: the ordered wish sequence and the
/// private id counter, kept under separate storage keys by the host but owned
/// together by that user's operations.
pub struct UserEntry {
    pub user: Address,
    pub wishes: Vec<Wish>,
    pub next_id: u32,
}

impl UserEntry {
    /// Ids are handed out 1, 2, ... in insertion order and the counter sits
    /// one past the last allocated id.
    pub open spec fn wf(self) -> bool {
        &&& self.next_id as int == self.wishes@.len() + 1
        &&& forall|k: int|
            0 <= k < self.wishes@.len() ==> (#[trigger] self.wishes@[k]).id as int == k + 1
    }

    pub open spec fn has_wish(self, wish_id: u32) -> bool {
        seq_has_wish(self.wishes@, wish_id)
    }

    pub open spec fn wish_index(self, wish_id: u32) -> int {
        seq_wish_index(self.wishes@, wish_id)
    }

    /// Allocate the next id, append the new wish and advance the counter.
    fn add(&mut self, text: String, created_at_ledger: u32) -> (id: u32)
        requires
            old(self).wf(),
            old(self).next_id < u32::MAX,
        ensures
            final(self).wf(),
            final(self).user == old(self).user,
            id == old(self).next_id,
            final(self).next_id as int == id as int + 1,
            final(self).wishes@ == old(self).wishes@.push(
                (Wish { id, text, created_at_ledger, fulfilled: false }),
            ),
    {
        let id = self.next_id;
        self.next_id = id + 1;
        self.wishes.push(Wish { id, text, created_at_ledger, fulfilled: false });
        proof {
            assert forall|k: int|
                0 <= k < self.wishes@.len() implies (#[trigger] self.wishes@[k]).id as int == k
                + 1 by {
                if k < old(self).wishes@.len() {
                    assert(self.wishes@[k] == old(self).wishes@[k]);
                }
            };
        }
        id
    }

    /// Scan in order for the first wish with this id and set its fulfilled
    /// flag (idempotently); report whether one was found.
    fn fulfill(&mut self, wish_id: u32) -> (found: bool)
        requires
            old(self).wf(),
        ensures
            final(self).wf(),
            final(self).user == old(self).user,
            final(self).next_id == old(self).next_id,
            found == old(self).has_wish(wish_id),
            !found ==> final(self).wishes@ == old(self).wishes@,
            found ==> ({
                let k = old(self).wish_index(wish_id);
                &&& 0 <= k < old(self).wishes@.len()
                &&& old(self).wishes@[k].id == wish_id
                &&& final(self).wishes@ == old(self).wishes@.update(
                    k,
                    (Wish { fulfilled: true, ..old(self).wishes@[k] }),
                )
            }),
    {
        let n = self.wishes.len();
        let mut i: usize = 0;
        while i < n
            invariant
                old(self).wf(),
                *self == *old(self),
                n == self.wishes@.len(),
                i <= n,
                forall|j: int| 0 <= j < i ==> (#[trigger] self.wishes@[j]).id != wish_id,
            decreases n - i,
        {
            if self.wishes[i].id == wish_id {
                proof {
                    lemma_wish_id_unique(*old(self), wish_id, i as int);
                }
                let w = &mut self.wishes[i];
                w.fulfilled = true;
                assert(self.wishes@ == old(self).wishes@.update(
                    i as int,
                    (Wish { fulfilled: true, ..old(self).wishes@[i as int] }),
                ));
                assert forall|k: int|
                    0 <= k < self.wishes@.len() implies (#[trigger] self.wishes@[k]).id as int == k
                    + 1 by {
                    if k != i as int {
                        assert(self.wishes@[k] == old(self).wishes@[k]);
                    }
                };
                return true;
            }
            i += 1;
        }
        proof {
            if old(self).has_wish(wish_id) {
                let k = seq_wish_index(old(self).wishes@, wish_id);
                assert(false);
            }
        }
        false
    }
}

/// No two entries belong to the same user: per-user keys are disjoint.
pub open spec fn users_distinct(users: Seq<UserEntry>) -> bool {
    forall|i: int, j: int|
        0 <= i < users.len() && 0 <= j < users.len() && i != j ==> (#[trigger] users[i]).user != (
        #[trigger] users[j]).user
}

/// The whole per-user store is well formed: keys are disjoint and every entry
/// is internally consistent.
pub open spec fn users_wf(users: Seq<UserEntry>) -> bool {
    &&& users_distinct(users)
    &&& forall|i: int| 0 <= i < users.len() ==> (#[trigger] users[i]).wf()
}

/// Some entry belongs to this user.
pub open spec fn has_entry(users: Seq<UserEntry>, user: Address) -> bool {
    exists|i: int| 0 <= i < users.len() && (#[trigger] users[i]).user == user
}

/// The position of this user's entry (unique when keys are disjoint).
pub open spec fn entry_index(users: Seq<UserEntry>, user: Address) -> int {
    choose|i: int| 0 <= i < users.len() && (#[trigger] users[i]).user == user
}

/// The user's stored wish sequence; empty when no entry exists.
pub open spec fn wishes_in(users: Seq<UserEntry>, user: Address) -> Seq<Wish> {
    if has_entry(users, user) {
        users[entry_index(users, user)].wishes@
    } else {
        Seq::empty()
    }
}

/// The user's id counter; counters start at 1 before any addition.
pub open spec fn next_id_in(users: Seq<UserEntry>, user: Address) -> u32 {
    if has_entry(users, user) {
        users[entry_index(users, user)].next_id
    } else {
        1
    }
}

/// When keys are disjoint, finding this user's entry at position `i` pins the
/// whole view of that user down to that entry.
pub proof fn lemma_entry_index(users: Seq<UserEntry>, user: Address, i: int)
    requires
        users_distinct(users),
        0 <= i < users.len(),
        users[i].user == user,
    ensures
        has_entry(users, user),
        entry_index(users, user) == i,
        wishes_in(users, user) == users[i].wishes@,
        next_id_in(users, user) == users[i].next_id,
{
    assert(has_entry(users, user));
    let j = entry_index(users, user);
    assert(0 <= j < users.len() && users[j].user == user);
    if j != i {
        assert(users[i].user != users[j].user);
    }
}

/// A user without an entry reads back the empty sequence and the initial
/// counter.
pub proof fn lemma_no_entry(users: Seq<UserEntry>, user: Address)
    requires
        !has_entry(users, user),
    ensures
        wishes_in(users, user) == Seq::<Wish>::empty(),
        next_id_in(users, user) == 1,
{
}

/// Appending a fresh user's entry leaves every other user's view alone.
pub proof fn lemma_push_entry(users: Seq<UserEntry>, e: UserEntry)
    requires
        users_wf(users),
        !has_entry(users, e.user),
        e.wf(),
    ensures
        users_wf(users.push(e)),
        has_entry(users.push(e), e.user),
        entry_index(users.push(e), e.user) == users.len(),
        wishes_in(users.push(e), e.user) == e.wishes@,
        next_id_in(users.push(e), e.user) == e.next_id,
        forall|u: Address|
            u != e.user ==> #[trigger] wishes_in(users.push(e), u) == wishes_in(users, u),
        forall|u: Address|
            u != e.user ==> #[trigger] next_id_in(users.push(e), u) == next_id_in(users, u),
{
    let post = users.push(e);
    lemma_push_wf(users, e);
    lemma_entry_index(post, e.user, users.len() as int);
    assert forall|u: Address| u != e.user implies #[trigger] wishes_in(users.push(e), u)
        == wishes_in(users, u) by {
        lemma_other_entry_after_push(users, e, u);
    };
    assert forall|u: Address| u != e.user implies #[trigger] next_id_in(users.push(e), u)
        == next_id_in(users, u) by {
        lemma_other_entry_after_push(users, e, u);
    };
}

/// Appending a fresh user's entry keeps the store well formed.
proof fn lemma_push_wf(users: Seq<UserEntry>, e: UserEntry)
    requires
        users_wf(users),
        !has_entry(users, e.user),
        e.wf(),
    ensures
        users_wf(users.push(e)),
{
    let post = users.push(e);
    assert(post[users.len() as int] == e);
    assert forall|p: int, q: int|
        0 <= p < post.len() && 0 <= q < post.len() && p != q implies (#[trigger] post[p]).user != (
    #[trigger] post[q]).user by {
        if p < users.len() && q < users.len() {
            assert(post[p] == users[p] && post[q] == users[q]);
        } else if p == users.len() {
            assert(post[q] == users[q]);
            if post[q].user == e.user {
                assert(has_entry(users, e.user));
            }
        } else {
            assert(post[p] == users[p]);
            if post[p].user == e.user {
                assert(has_entry(users, e.user));
            }
        }
    };
    assert forall|p: int| 0 <= p < post.len() implies (#[trigger] post[p]).wf() by {
        if p < users.len() {
            assert(post[p] == users[p]);
        }
    };
}

/// One other user's view is untouched by appending a fresh entry.
proof fn lemma_other_entry_after_push(users: Seq<UserEntry>, e: UserEntry, u: Address)
    requires
        users_wf(users),
        !has_entry(users, e.user),
        e.wf(),
        u != e.user,
    ensures
        wishes_in(users.push(e), u) == wishes_in(users, u),
        next_id_in(users.push(e), u) == next_id_in(users, u),
{
    let post = users.push(e);
    lemma_push_wf(users, e);
    assert(post[users.len() as int] == e);
    {
        if has_entry(users, u) {
            let k = entry_index(users, u);
            assert(0 <= k < users.len() && users[k].user == u);
            assert(post[k] == users[k]);
            lemma_entry_index(users, u, k);
            lemma_entry_index(post, u, k);
        } else {
            if has_entry(post, u) {
                let k = choose|k: int| 0 <= k < post.len() && (#[trigger] post[k]).user == u;
                if k < users.len() {
                    assert(users[k].user == u);
                    assert(false);
                } else {
                    assert(post[k] == e);
                    assert(false);
                }
            }
            lemma_no_entry(users, u);
            lemma_no_entry(post, u);
        }
    };
}

/// Replacing one user's entry by another entry of the same user leaves every
/// other user's view alone.
pub proof fn lemma_update_entry(users: Seq<UserEntry>, i: int, e: UserEntry)
    requires
        users_wf(users),
        0 <= i < users.len(),
        e.user == users[i].user,
        e.wf(),
    ensures
        users_wf(users.update(i, e)),
        has_entry(users.update(i, e), e.user),
        entry_index(users.update(i, e), e.user) == i,
        wishes_in(users.update(i, e), e.user) == e.wishes@,
        next_id_in(users.update(i, e), e.user) == e.next_id,
        forall|u: Address|
            u != e.user ==> #[trigger] wishes_in(users.update(i, e), u) == wishes_in(users, u),
        forall|u: Address|
            u != e.user ==> #[trigger] next_id_in(users.update(i, e), u) == next_id_in(users, u),
{
    let post = users.update(i, e);
    lemma_update_wf(users, i, e);
    lemma_entry_index(post, e.user, i);
    assert forall|u: Address| u != e.user implies #[trigger] wishes_in(users.update(i, e), u)
        == wishes_in(users, u) by {
        lemma_other_entry_after_update(users, i, e, u);
    };
    assert forall|u: Address| u != e.user implies #[trigger] next_id_in(users.update(i, e), u)
        == next_id_in(users, u) by {
        lemma_other_entry_after_update(users, i, e, u);
    };
}

/// Replacing an entry by a well-formed one of the same user keeps the store
/// well formed.
proof fn lemma_update_wf(users: Seq<UserEntry>, i: int, e: UserEntry)
    requires
        users_wf(users),
        0 <= i < users.len(),
        e.user == users[i].user,
        e.wf(),
    ensures
        users_wf(users.update(i, e)),
{
    let post = users.update(i, e);
    assert(post[i] == e);
    assert forall|p: int, q: int|
        0 <= p < post.len() && 0 <= q < post.len() && p != q implies (#[trigger] post[p]).user != (
    #[trigger] post[q]).user by {
        assert(post[p].user == users[p].user);
        assert(post[q].user == users[q].user);
    };
    assert forall|p: int| 0 <= p < post.len() implies (#[trigger] post[p]).wf() by {
        if p != i {
            assert(post[p] == users[p]);
        }
    };
}

/// One other user's view is untouched by replacing this user's entry.
proof fn lemma_other_entry_after_update(users: Seq<UserEntry>, i: int, e: UserEntry, u: Address)
    requires
        users_wf(users),
        0 <= i < users.len(),
        e.user == users[i].user,
        e.wf(),
        u != e.user,
    ensures
        wishes_in(users.update(i, e), u) == wishes_in(users, u),
        next_id_in(users.update(i, e), u) == next_id_in(users, u),
{
    let post = users.update(i, e);
    lemma_update_wf(users, i, e);
    assert(post[i] == e);
    if has_entry(users, u) {
        let k = entry_index(users, u);
        assert(0 <= k < users.len() && users[k].user == u);
        assert(k != i);
        assert(post[k] == users[k]);
        lemma_entry_index(users, u, k);
        lemma_entry_index(post, u, k);
    } else {
        if has_entry(post, u) {
            let k = choose|k: int| 0 <= k < post.len() && (#[trigger] post[k]).user == u;
            assert(k != i);
            assert(users[k].user == u);
            assert(false);
        }
        lemma_no_entry(users, u);
        lemma_no_entry(post, u);
    }
}

/// The wishlist state machine: the entire persistent contents of the
/// contract's storage namespace as plain values, plus the outward actions
/// (notifications and storage-lifetime renewals) that successful operations
/// owe to the host. The host reads the two logs after each call and performs
/// what they name; on a failed call nothing is appended, so nothing is
/// persisted or emitted.
pub struct SeasonalWishlist {
    /// The administrator singleton; absent before the one-time bootstrap.
    pub admin: Option<Address>,
    /// The mutation cutover instant; absent means the fixed fallback.
    pub christmas_deadline: Option<u64>,
    /// Principals barred from adding wishes.
    pub naughty_list: Vec<Address>,
    /// One entry per user, keys disjoint.
    pub users: Vec<UserEntry>,
    /// Notifications owed to the host's event sink, oldest first.
    pub event_log: Vec<Event>,
    /// Retention renewals owed to the host's store, oldest first.
    pub renewal_log: Vec<Renewal>,
}

impl SeasonalWishlist {
    /// The per-user store is well formed; every operation preserves this.
    pub open spec fn wf(self) -> bool {
        users_wf(self.users@)
    }

    /// The one-time bootstrap has run.
    pub open spec fn initialized(self) -> bool {
        self.admin.is_some()
    }

    /// The instant from which additions are rejected.
    pub open spec fn deadline(self) -> u64 {
        match self.christmas_deadline {
            Some(d) => d,
            None => DEFAULT_CHRISTMAS_DEADLINE,
        }
    }

    /// The user is barred from adding wishes.
    pub open spec fn is_naughty(self, user: Address) -> bool {
        self.naughty_list@.contains(user)
    }

    /// The user's stored wish sequence, insertion order preserved.
    pub open spec fn wishes_of(self, user: Address) -> Seq<Wish> {
        wishes_in(self.users@, user)
    }

    /// The id the user's next successful addition will receive.
    pub open spec fn next_id_of(self, user: Address) -> u32 {
        next_id_in(self.users@, user)
    }

    /// The user's list holds a wish with this id.
    pub open spec fn has_wish(self, user: Address, wish_id: u32) -> bool {
        seq_has_wish(self.wishes_of(user), wish_id)
    }

    /// Where that wish sits in the user's list.
    pub open spec fn wish_index(self, user: Address, wish_id: u32) -> int {
        seq_wish_index(self.wishes_of(user), wish_id)
    }

    /// What an addition returns, decided by the three gates in order: the
    /// deadline first (whoever asks), then authorization by the acting user
    /// himself, then the denylist; past all three the next id is owed.
    pub open spec fn add_wish_outcome(
        pre: SeasonalWishlist,
        auth: AuthContext,
        now: u64,
        user: Address,
    ) -> Result<u32, ContractError> {
        if now >= pre.deadline() {
            Err(ContractError::DeadlineExceeded)
        } else if !auth.approves(user) {
            Err(ContractError::Unauthorized)
        } else if pre.is_naughty(user) {
            Err(ContractError::Forbidden)
        } else {
            Ok(pre.next_id_of(user))
        }
    }

    /// What a deadline update returns: the administrator singleton must exist
    /// and must have authorized the call.
    pub open spec fn set_deadline_outcome(pre: SeasonalWishlist, auth: AuthContext) -> Result<
        (),
        ContractError,
    > {
        match pre.admin {
            None => Err(ContractError::PreconditionMissing),
            Some(a) => if auth.approves(a) {
                Ok(())
            } else {
                Err(ContractError::Unauthorized)
            },
        }
    }

    /// What a fulfillment returns: administrator present and authorizing,
    /// then the id must exist in the target user's list.
    pub open spec fn mark_fulfilled_outcome(
        pre: SeasonalWishlist,
        auth: AuthContext,
        user: Address,
        wish_id: u32,
    ) -> Result<(), ContractError> {
        match pre.admin {
            None => Err(ContractError::PreconditionMissing),
            Some(a) => if !auth.approves(a) {
                Err(ContractError::Unauthorized)
            } else if !pre.has_wish(user, wish_id) {
                Err(ContractError::WishNotFound)
            } else {
                Ok(())
            },
        }
    }
}

impl SeasonalWishlist {
    /// One-time bootstrap: store the administrator, the deadline and the
    /// denylist. Re-initialization is rejected by construction: this is the
    /// only way to set the administrator, and it builds a fresh state.
    pub fn new(admin: Address, christmas_deadline: u64, naughty_list: Vec<Address>) -> (s:
        SeasonalWishlist)
        ensures
            s.wf(),
            s.initialized(),
            s.admin == Some(admin),
            s.christmas_deadline == Some(christmas_deadline),
            s.deadline() == christmas_deadline,
            s.naughty_list@ == naughty_list@,
            forall|u: Address| #[trigger] s.wishes_of(u) == Seq::<Wish>::empty(),
            forall|u: Address| #[trigger] s.next_id_of(u) == 1,
            s.event_log@ == Seq::<Event>::empty(),
            s.renewal_log@ == Seq::<Renewal>::empty(),
    {
        let s = SeasonalWishlist {
            admin: Some(admin),
            christmas_deadline: Some(christmas_deadline),
            naughty_list,
            users: Vec::new(),
            event_log: Vec::new(),
            renewal_log: Vec::new(),
        };
        proof {
            assert forall|u: Address|
                #[trigger] s.wishes_of(u) == Seq::<Wish>::empty() && s.next_id_of(u) == 1 by {
                assert(!has_entry(s.users@, u));
                lemma_no_entry(s.users@, u);
            };
        }
        s
    }

    /// The pre-bootstrap phase: no configuration singleton exists. Operations
    /// that read the administrator fail with `PreconditionMissing` here.
    pub fn uninitialized() -> (s: SeasonalWishlist)
        ensures
            s.wf(),
            !s.initialized(),
            s.admin.is_none(),
            s.christmas_deadline.is_none(),
            s.deadline() == DEFAULT_CHRISTMAS_DEADLINE,
            s.naughty_list@ == Seq::<Address>::empty(),
            forall|u: Address| #[trigger] s.wishes_of(u) == Seq::<Wish>::empty(),
            forall|u: Address| #[trigger] s.next_id_of(u) == 1,
            s.event_log@ == Seq::<Event>::empty(),
            s.renewal_log@ == Seq::<Renewal>::empty(),
    {
        let s = SeasonalWishlist {
            admin: None,
            christmas_deadline: None,
            naughty_list: Vec::new(),
            users: Vec::new(),
            event_log: Vec::new(),
            renewal_log: Vec::new(),
        };
        proof {
            assert forall|u: Address|
                #[trigger] s.wishes_of(u) == Seq::<Wish>::empty() && s.next_id_of(u) == 1 by {
                assert(!has_entry(s.users@, u));
                lemma_no_entry(s.users@, u);
            };
        }
        s
    }

    /// The deadline in force: the stored instant, or the fallback.
    pub fn deadline_value(&self) -> (d: u64)
        ensures
            d == self.deadline(),
    {
        match self.christmas_deadline {
            Some(d) => d,
            None => DEFAULT_CHRISTMAS_DEADLINE,
        }
    }

    /// The id the user's next successful addition will receive.
    pub fn next_wish_id(&self, user: Address) -> (n: u32)
        requires
            self.wf(),
        ensures
            n == self.next_id_of(user),
    {
        match self.find_user(user) {
            Some(i) => {
                proof {
                    lemma_entry_index(self.users@, user, i as int);
                }
                self.users[i].next_id
            },
            None => {
                proof {
                    lemma_no_entry(self.users@, user);
                }
                1
            },
        }
    }

    /// Where this user's entry sits, if one exists.
    fn find_user(&self, user: Address) -> (r: Option<usize>)
        ensures
            match r {
                Some(i) => i < self.users@.len() && self.users@[i as int].user == user,
                None => !has_entry(self.users@, user),
            },
    {
        let mut i: usize = 0;
        while i < self.users.len()
            invariant
                i <= self.users@.len(),
                forall|j: int| 0 <= j < i ==> (#[trigger] self.users@[j]).user != user,
            decreases self.users@.len() - i,
        {
            if self.users[i].user == user {
                return Some(i);
            }
            i += 1;
        }
        proof {
            if has_entry(self.users@, user) {
                let k = entry_index(self.users@, user);
                assert(0 <= k < self.users@.len() && self.users@[k].user == user);
                assert(false);
            }
        }
        None
    }

    /// Overwrite the deadline singleton; administrator-only, no other effect.
    pub fn set_christmas_deadline(&mut self, auth: &AuthContext, christmas_deadline: u64) -> (r:
        Result<(), ContractError>)
        requires
            old(self).wf(),
        ensures
            final(self).wf(),
            r == SeasonalWishlist::set_deadline_outcome(*old(self), *auth),
            r matches Err(_) ==> unchanged(*old(self), *final(self)),
            r matches Ok(_) ==> ({
                &&& final(self).christmas_deadline == Some(christmas_deadline)
                &&& final(self).deadline() == christmas_deadline
                &&& final(self).admin == old(self).admin
                &&& final(self).naughty_list@ == old(self).naughty_list@
                &&& forall|u: Address|
                    #[trigger] final(self).wishes_of(u) == old(self).wishes_of(u)
                &&& forall|u: Address|
                    #[trigger] final(self).next_id_of(u) == old(self).next_id_of(u)
                &&& final(self).event_log@ == old(self).event_log@
                &&& final(self).renewal_log@ == old(self).renewal_log@
            }),
            extends(*old(self), *final(self)),
    {
        let admin = match self.admin {
            None => {
                proof {
                    lemma_same_users(*old(self), *self);
                }
                return Err(ContractError::PreconditionMissing);
            },
            Some(a) => a,
        };
        if !auth.is_approved(admin) {
            proof {
                lemma_same_users(*old(self), *self);
            }
            return Err(ContractError::Unauthorized);
        }
        self.christmas_deadline = Some(christmas_deadline);
        proof {
            lemma_same_users(*old(self), *self);
        }
        Ok(())
    }

    /// Public read of a user's wish sequence: empty when none exists, never an
    /// error. Reading still owes the host a retention renewal for the entry —
    /// access is the renewal signal — which is why the state moves.
    pub fn get_list(&mut self, user: Address) -> (r: Vec<Wish>)
        requires
            old(self).wf(),
        ensures
            final(self).wf(),
            r@ == old(self).wishes_of(user),
            forall|u: Address| #[trigger] final(self).wishes_of(u) == old(self).wishes_of(u),
            forall|u: Address| #[trigger] final(self).next_id_of(u) == old(self).next_id_of(u),
            final(self).admin == old(self).admin,
            final(self).christmas_deadline == old(self).christmas_deadline,
            final(self).naughty_list@ == old(self).naughty_list@,
            final(self).event_log@ == old(self).event_log@,
            final(self).renewal_log@ == old(self).renewal_log@.push(
                Renewal::Persistent(DataKey::Wishes(user)),
            ),
            extends(*old(self), *final(self)),
    {
        let r = match self.find_user(user) {
            Some(i) => {
                proof {
                    lemma_entry_index(self.users@, user, i as int);
                }
                clone_wishes(&self.users[i].wishes)
            },
            None => {
                proof {
                    lemma_no_entry(self.users@, user);
                }
                Vec::new()
            },
        };
        self.renewal_log.push(Renewal::Persistent(DataKey::Wishes(user)));
        proof {
            lemma_same_users(*old(self), *self);
        }
        r
    }

    /// Find this user's entry, creating the initial one (empty list, counter
    /// at 1) when the user has none yet; no user's view moves.
    fn ensure_entry(&mut self, user: Address) -> (idx: usize)
        requires
            old(self).wf(),
        ensures
            final(self).wf(),
            idx < final(self).users@.len(),
            final(self).users@[idx as int].user == user,
            final(self).users@[idx as int].wishes@ == old(self).wishes_of(user),
            final(self).users@[idx as int].next_id == old(self).next_id_of(user),
            entry_index(final(self).users@, user) == idx as int,
            forall|u: Address| #[trigger] final(self).wishes_of(u) == old(self).wishes_of(u),
            forall|u: Address| #[trigger] final(self).next_id_of(u) == old(self).next_id_of(u),
            final(self).admin == old(self).admin,
            final(self).christmas_deadline == old(self).christmas_deadline,
            final(self).naughty_list@ == old(self).naughty_list@,
            final(self).event_log@ == old(self).event_log@,
            final(self).renewal_log@ == old(self).renewal_log@,
    {
        match self.find_user(user) {
            Some(i) => {
                proof {
                    lemma_entry_index(self.users@, user, i as int);
                    lemma_same_users(*old(self), *self);
                }
                i
            },
            None => {
                let i = self.users.len();
                let e = UserEntry { user, wishes: Vec::new(), next_id: 1 };
                proof {
                    assert(e.wishes@.len() == 0);
                    assert(e.wf());
                    lemma_no_entry(old(self).users@, user);
                    lemma_push_entry(old(self).users@, e);
                }
                self.users.push(e);
                proof {
                    assert(self.users@ == old(self).users@.push(e));
                    assert forall|u: Address|
                        #[trigger] self.wishes_of(u) == old(self).wishes_of(u) by {
                        if u != user {
                        } else {
                            assert(wishes_in(self.users@, user) == e.wishes@);
                            assert(e.wishes@ =~= Seq::<Wish>::empty());
                        }
                    };
                    assert forall|u: Address|
                        #[trigger] self.next_id_of(u) == old(self).next_id_of(u) by {
                        if u != user {
                        }
                    };
                }
                i
            },
        }
    }

    /// Add a wish to the acting user's own list. The gates run in order:
    /// deadline first, then the user's own authorization, then the denylist;
    /// only then is the next id allocated, the wish appended with the current
    /// ledger sequence marker and an unfulfilled flag, the retention renewals
    /// recorded for the user's entry and the configuration namespace, and the
    /// added notification logged. On failure nothing moves.
    pub fn add_wish(
        &mut self,
        auth: &AuthContext,
        now: u64,
        ledger_sequence: u32,
        user: Address,
        text: String,
    ) -> (r: Result<u32, ContractError>)
        requires
            old(self).wf(),
            old(self).next_id_of(user) < u32::MAX,
        ensures
            final(self).wf(),
            r == SeasonalWishlist::add_wish_outcome(*old(self), *auth, now, user),
            r matches Err(_) ==> unchanged(*old(self), *final(self)),
            r matches Ok(id) ==> ({
                &&& id == old(self).next_id_of(user)
                &&& final(self).wishes_of(user) == old(self).wishes_of(user).push(
                    (Wish { id, text, created_at_ledger: ledger_sequence, fulfilled: false }),
                )
                &&& final(self).next_id_of(user) as int == id as int + 1
                &&& forall|u: Address|
                    u != user ==> #[trigger] final(self).wishes_of(u) == old(self).wishes_of(u)
                &&& forall|u: Address|
                    u != user ==> #[trigger] final(self).next_id_of(u) == old(self).next_id_of(u)
                &&& final(self).admin == old(self).admin
                &&& final(self).christmas_deadline == old(self).christmas_deadline
                &&& final(self).naughty_list@ == old(self).naughty_list@
                &&& final(self).renewal_log@ == old(self).renewal_log@.push(
                    Renewal::Persistent(DataKey::Wishes(user)),
                ).push(Renewal::Instance)
                &&& final(self).event_log@ == old(self).event_log@.push(
                    Event::Added((WishAddedEvent { user, add: id })),
                )
                &&& add_transition(*old(self), *final(self), user, id)
            }),
            extends(*old(self), *final(self)),
    {
        if now >= self.deadline_value() {
            proof {
                lemma_same_users(*old(self), *self);
            }
            return Err(ContractError::DeadlineExceeded);
        }
        if !auth.is_approved(user) {
            proof {
                lemma_same_users(*old(self), *self);
            }
            return Err(ContractError::Unauthorized);
        }
        if contains_address(&self.naughty_list, user) {
            proof {
                lemma_same_users(*old(self), *self);
            }
            return Err(ContractError::Forbidden);
        }
        let idx = self.ensure_entry(user);
        let ghost s1 = *self;
        let entry = &mut self.users[idx];
        let id = entry.add(text, ledger_sequence);
        proof {
            let e2 = self.users@[idx as int];
            assert(self.users@ == s1.users@.update(idx as int, e2));
            assert(e2.user == user);
            lemma_update_entry(s1.users@, idx as int, e2);
            assert(self.wishes_of(user) == old(self).wishes_of(user).push(
                (Wish { id, text, created_at_ledger: ledger_sequence, fulfilled: false }),
            ));
            assert forall|u: Address|
                u != user implies #[trigger] self.wishes_of(u) == old(self).wishes_of(u) by {
                assert(wishes_in(s1.users@.update(idx as int, e2), u) == wishes_in(s1.users@, u));
                assert(s1.wishes_of(u) == wishes_in(s1.users@, u));
                assert(s1.wishes_of(u) == old(self).wishes_of(u));
            };
            assert forall|u: Address|
                u != user implies #[trigger] self.next_id_of(u) == old(self).next_id_of(u) by {
                assert(next_id_in(s1.users@.update(idx as int, e2), u) == next_id_in(s1.users@, u));
                assert(s1.next_id_of(u) == next_id_in(s1.users@, u));
                assert(s1.next_id_of(u) == old(self).next_id_of(u));
            };
        }
        let ghost s2 = *self;
        self.renewal_log.push(Renewal::Persistent(DataKey::Wishes(user)));
        self.renewal_log.push(Renewal::Instance);
        self.event_log.push(Event::Added(WishAddedEvent { user, add: id }));
        proof {
            lemma_same_users(s2, *self);
            let pre = *old(self);
            let post = *self;
            assert forall|u: Address|
                #![trigger post.wishes_of(u)]
                pre.wishes_of(u).len() <= post.wishes_of(u).len() && (forall|k: int|
                    0 <= k < pre.wishes_of(u).len() ==> wish_preserved(
                        pre.wishes_of(u)[k],
                        #[trigger] post.wishes_of(u)[k],
                    )) by {
                if u == user {
                    assert(post.wishes_of(u).len() == pre.wishes_of(u).len() + 1);
                    assert forall|k: int| 0 <= k < pre.wishes_of(u).len() implies wish_preserved(
                        pre.wishes_of(u)[k],
                        #[trigger] post.wishes_of(u)[k],
                    ) by {
                        assert(post.wishes_of(u)[k] == pre.wishes_of(u)[k]);
                    };
                } else {
                    assert(post.wishes_of(u) == pre.wishes_of(u));
                    assert forall|k: int| 0 <= k < pre.wishes_of(u).len() implies wish_preserved(
                        pre.wishes_of(u)[k],
                        #[trigger] post.wishes_of(u)[k],
                    ) by {
                        assert(post.wishes_of(u)[k] == pre.wishes_of(u)[k]);
                    };
                }
            };
        }
        Ok(id)
    }

    /// Mark a wish on the target user's list fulfilled; administrator-only,
    /// with no deadline gate. The list is scanned in order and the first entry
    /// carrying the id has its flag set (idempotently if it was already set);
    /// an absent id fails with `WishNotFound` and nothing is persisted or
    /// emitted. On success the entry's retention renewal and the fulfilled
    /// notification are logged for the host.
    pub fn mark_fulfilled(&mut self, auth: &AuthContext, user: Address, wish_id: u32) -> (r: Result<
        (),
        ContractError,
    >)
        requires
            old(self).wf(),
        ensures
            final(self).wf(),
            r == SeasonalWishlist::mark_fulfilled_outcome(*old(self), *auth, user, wish_id),
            r matches Err(_) ==> unchanged(*old(self), *final(self)),
            r matches Ok(_) ==> ({
                let k = old(self).wish_index(user, wish_id);
                let w0 = old(self).wishes_of(user)[k];
                &&& 0 <= k < old(self).wishes_of(user).len()
                &&& w0.id == wish_id
                &&& final(self).wishes_of(user) == old(self).wishes_of(user).update(
                    k,
                    (Wish { fulfilled: true, ..w0 }),
                )
                &&& forall|u: Address|
                    u != user ==> #[trigger] final(self).wishes_of(u) == old(self).wishes_of(u)
                &&& forall|u: Address|
                    #[trigger] final(self).next_id_of(u) == old(self).next_id_of(u)
                &&& final(self).admin == old(self).admin
                &&& final(self).christmas_deadline == old(self).christmas_deadline
                &&& final(self).naughty_list@ == old(self).naughty_list@
                &&& final(self).renewal_log@ == old(self).renewal_log@.push(
                    Renewal::Persistent(DataKey::Wishes(user)),
                )
                &&& final(self).event_log@ == old(self).event_log@.push(
                    Event::Fulfilled((WishFulfilledEvent { user, wish_id })),
                )
            }),
            extends(*old(self), *final(self)),
    {
        let admin = match self.admin {
            None => {
                proof {
                    lemma_same_users(*old(self), *self);
                }
                return Err(ContractError::PreconditionMissing);
            },
            Some(a) => a,
        };
        if !auth.is_approved(admin) {
            proof {
                lemma_same_users(*old(self), *self);
            }
            return Err(ContractError::Unauthorized);
        }
        let idx = match self.find_user(user) {
            None => {
                proof {
                    lemma_no_entry(self.users@, user);
                    if old(self).has_wish(user, wish_id) {
                        let k = seq_wish_index(old(self).wishes_of(user), wish_id);
                        assert(false);
                    }
                    lemma_same_users(*old(self), *self);
                }
                return Err(ContractError::WishNotFound);
            },
            Some(i) => i,
        };
        proof {
            lemma_entry_index(self.users@, user, idx as int);
        }
        let ghost e1 = self.users@[idx as int];
        let entry = &mut self.users[idx];
        let found = entry.fulfill(wish_id);
        proof {
            let e2 = self.users@[idx as int];
            assert(self.users@ == old(self).users@.update(idx as int, e2));
            assert(e2.user == user);
            lemma_update_entry(old(self).users@, idx as int, e2);
            assert(e1.wishes@ == old(self).wishes_of(user));
            assert(found == old(self).has_wish(user, wish_id));
            assert forall|u: Address|
                u != user implies #[trigger] self.wishes_of(u) == old(self).wishes_of(u) by {
                assert(wishes_in(old(self).users@.update(idx as int, e2), u) == wishes_in(
                    old(self).users@,
                    u,
                ));
            };
            assert forall|u: Address|
                #[trigger] self.next_id_of(u) == old(self).next_id_of(u) by {
                if u != user {
                    assert(next_id_in(old(self).users@.update(idx as int, e2), u) == next_id_in(
                        old(self).users@,
                        u,
                    ));
                } else {
                    assert(next_id_in(old(self).users@.update(idx as int, e2), u) == e2.next_id);
                    assert(old(self).next_id_of(user) == e1.next_id);
                }
            };
        }
        if !found {
            proof {
                assert(self.wishes_of(user) == old(self).wishes_of(user));
                lemma_unchanged_extends(*old(self), *self);
            }
            return Err(ContractError::WishNotFound);
        }
        let ghost s2 = *self;
        self.renewal_log.push(Renewal::Persistent(DataKey::Wishes(user)));
        self.event_log.push(Event::Fulfilled(WishFulfilledEvent { user, wish_id }));
        proof {
            lemma_same_users(s2, *self);
            let pre = *old(self);
            let post = *self;
            let k = pre.wish_index(user, wish_id);
            assert(e1.wish_index(wish_id) == k);
            assert(post.wishes_of(user) == pre.wishes_of(user).update(
                k,
                (Wish { fulfilled: true, ..pre.wishes_of(user)[k] }),
            ));
            assert forall|u: Address|
                #![trigger post.wishes_of(u)]
                pre.wishes_of(u).len() <= post.wishes_of(u).len() && (forall|kk: int|
                    0 <= kk < pre.wishes_of(u).len() ==> wish_preserved(
                        pre.wishes_of(u)[kk],
                        #[trigger] post.wishes_of(u)[kk],
                    )) by {
                if u == user {
                    assert forall|kk: int| 0 <= kk < pre.wishes_of(u).len() implies wish_preserved(
                        pre.wishes_of(u)[kk],
                        #[trigger] post.wishes_of(u)[kk],
                    ) by {
                        if kk != k {
                            assert(post.wishes_of(u)[kk] == pre.wishes_of(u)[kk]);
                        }
                    };
                } else {
                    assert(post.wishes_of(u) == pre.wishes_of(u));
                    assert forall|kk: int| 0 <= kk < pre.wishes_of(u).len() implies wish_preserved(
                        pre.wishes_of(u)[kk],
                        #[trigger] post.wishes_of(u)[kk],
                    ) by {
                        assert(post.wishes_of(u)[kk] == pre.wishes_of(u)[kk]);
                    };
                }
            };
        }
        Ok(())
    }
}

/// A successful addition, seen purely at the level of one user's views: the
/// returned id is the counter the user had, the counter advances by exactly
/// one, and the list grows by exactly the wish carrying that id.
pub open spec fn add_transition(
    pre: SeasonalWishlist,
    post: SeasonalWishlist,
    user: Address,
    id: u32,
) -> bool {
    &&& id == pre.next_id_of(user)
    &&& post.next_id_of(user) as int == id as int + 1
    &&& post.wishes_of(user).len() == pre.wishes_of(user).len() + 1
    &&& post.wishes_of(user)[pre.wishes_of(user).len() as int].id == id
}

/// In any well-formed state a user's wish ids are exactly 1, 2, ... in
/// insertion order: strictly increasing and never repeated, whatever sequence
/// of operations built the state.
pub proof fn lemma_wish_ids_consecutive(s: SeasonalWishlist, user: Address)
    requires
        s.wf(),
    ensures
        forall|k: int|
            0 <= k < s.wishes_of(user).len() ==> (#[trigger] s.wishes_of(user)[k]).id as int == k
                + 1,
        forall|p: int, q: int|
            0 <= p < q < s.wishes_of(user).len() ==> s.wishes_of(user)[p].id < s.wishes_of(
                user,
            )[q].id,
{
    if has_entry(s.users@, user) {
        let i = entry_index(s.users@, user);
        assert(0 <= i < s.users@.len() && s.users@[i].user == user);
        assert(s.users@[i].wf());
        assert(s.wishes_of(user) == s.users@[i].wishes@);
    } else {
        lemma_no_entry(s.users@, user);
    }
    assert forall|p: int, q: int|
        0 <= p < q < s.wishes_of(user).len() implies s.wishes_of(user)[p].id < s.wishes_of(
        user,
    )[q].id by {
        assert(s.wishes_of(user)[p].id as int == p + 1);
        assert(s.wishes_of(user)[q].id as int == q + 1);
    };
}

/// Two successful additions by the same user, one after the other, return ids
/// that increase by exactly one; ids never repeat or fall back.
pub proof fn lemma_ids_increase_by_one(
    s0: SeasonalWishlist,
    s1: SeasonalWishlist,
    s2: SeasonalWishlist,
    user: Address,
    first: u32,
    second: u32,
)
    requires
        add_transition(s0, s1, user, first),
        add_transition(s1, s2, user, second),
    ensures
        second as int == first as int + 1,
{
}

/// Once a wish shows fulfilled, no state the operations can reach from there
/// shows it unfulfilled again: it stays at its position with its flag up.
pub proof fn lemma_fulfilled_is_permanent(
    pre: SeasonalWishlist,
    post: SeasonalWishlist,
    user: Address,
    k: int,
)
    requires
        extends(pre, post),
        0 <= k < pre.wishes_of(user).len(),
        pre.wishes_of(user)[k].fulfilled,
    ensures
        k < post.wishes_of(user).len(),
        post.wishes_of(user)[k].fulfilled,
        post.wishes_of(user)[k].id == pre.wishes_of(user)[k].id,
{
    assert(wish_preserved(pre.wishes_of(user)[k], post.wishes_of(user)[k]));
}

/// Extension chains: what each operation guarantees step by step therefore
/// holds across any run of operations.
pub proof fn lemma_extends_trans(a: SeasonalWishlist, b: SeasonalWishlist, c: SeasonalWishlist)
    requires
        extends(a, b),
        extends(b, c),
    ensures
        extends(a, c),
{
    assert forall|u: Address|
        #![trigger c.wishes_of(u)]
        a.wishes_of(u).len() <= c.wishes_of(u).len() && (forall|k: int|
            0 <= k < a.wishes_of(u).len() ==> wish_preserved(
                a.wishes_of(u)[k],
                #[trigger] c.wishes_of(u)[k],
            )) by {
        assert(a.wishes_of(u).len() <= b.wishes_of(u).len());
        assert(b.wishes_of(u).len() <= c.wishes_of(u).len());
        assert forall|k: int| 0 <= k < a.wishes_of(u).len() implies wish_preserved(
            a.wishes_of(u)[k],
            #[trigger] c.wishes_of(u)[k],
        ) by {
            assert(wish_preserved(a.wishes_of(u)[k], b.wishes_of(u)[k]));
            assert(wish_preserved(b.wishes_of(u)[k], c.wishes_of(u)[k]));
        };
    };
}

/// At or past the deadline every addition is refused with `DeadlineExceeded`,
/// whoever asks, however the call was authorized, and whatever the denylist
/// says; the deadline gate runs before every other check.
pub proof fn lemma_deadline_gate_first(
    pre: SeasonalWishlist,
    auth: AuthContext,
    now: u64,
    user: Address,
)
    requires
        now >= pre.deadline(),
    ensures
        SeasonalWishlist::add_wish_outcome(pre, auth, now, user) == Err::<u32, ContractError>(
            ContractError::DeadlineExceeded,
        ),
{
}

/// Before the deadline, a denylisted identity that did authorize its call is
/// refused with `Forbidden`: the denylist is consulted only after the deadline
/// and authorization gates, and before any mutation.
pub proof fn lemma_denylist_gate(
    pre: SeasonalWishlist,
    auth: AuthContext,
    now: u64,
    user: Address,
)
    requires
        now < pre.deadline(),
        auth.approves(user),
        pre.is_naughty(user),
    ensures
        SeasonalWishlist::add_wish_outcome(pre, auth, now, user) == Err::<u32, ContractError>(
            ContractError::Forbidden,
        ),
{
}

/// An element-wise copy of a stored wish sequence, handed to the caller while
/// the stored one stays in place.
fn clone_wishes(wishes: &Vec<Wish>) -> (r: Vec<Wish>)
    ensures
        r@ == wishes@,
{
    let mut r: Vec<Wish> = Vec::new();
    let mut i: usize = 0;
    while i < wishes.len()
        invariant
            i <= wishes@.len(),
            r@ == wishes@.subrange(0, i as int),
        decreases wishes@.len() - i,
    {
        r.push(wishes[i].clone());
        proof {
            assert(r@ =~= wishes@.subrange(0, i as int + 1));
        }
        i += 1;
    }
    proof {
        assert(wishes@.subrange(0, wishes@.len() as int) =~= wishes@);
    }
    r
}

/// Nothing observable moved: configuration, every user's view, and both
/// outward logs read back the same.
pub open spec fn unchanged(pre: SeasonalWishlist, post: SeasonalWishlist) -> bool {
    &&& post.admin == pre.admin
    &&& post.christmas_deadline == pre.christmas_deadline
    &&& post.naughty_list@ == pre.naughty_list@
    &&& forall|u: Address| #[trigger] post.wishes_of(u) == pre.wishes_of(u)
    &&& forall|u: Address| #[trigger] post.next_id_of(u) == pre.next_id_of(u)
    &&& post.event_log@ == pre.event_log@
    &&& post.renewal_log@ == pre.renewal_log@
}

/// How one state may follow another under the contract's operations: lists
/// only grow, stored wishes keep their id, text and creation marker, and a
/// fulfilled flag never falls back to false.
pub open spec fn extends(pre: SeasonalWishlist, post: SeasonalWishlist) -> bool {
    forall|u: Address|
        #![trigger post.wishes_of(u)]
        {
            &&& pre.wishes_of(u).len() <= post.wishes_of(u).len()
            &&& forall|k: int|
                0 <= k < pre.wishes_of(u).len() ==> wish_preserved(
                    pre.wishes_of(u)[k],
                    #[trigger] post.wishes_of(u)[k],
                )
        }
}

/// Two states over the same per-user store show every user the same views,
/// and the later one extends the earlier.
pub proof fn lemma_same_users(pre: SeasonalWishlist, post: SeasonalWishlist)
    requires
        post.users@ == pre.users@,
    ensures
        forall|u: Address| #[trigger] post.wishes_of(u) == pre.wishes_of(u),
        forall|u: Address| #[trigger] post.next_id_of(u) == pre.next_id_of(u),
        extends(pre, post),
{
    assert forall|u: Address| #[trigger] post.wishes_of(u) == pre.wishes_of(u) by {
        assert(wishes_in(post.users@, u) == wishes_in(pre.users@, u));
    };
    assert forall|u: Address| #[trigger] next_id_in(post.users@, u) == next_id_in(pre.users@, u) by {
    };
    assert forall|u: Address|
        #![trigger post.wishes_of(u)]
        pre.wishes_of(u).len() <= post.wishes_of(u).len() && (forall|k: int|
            0 <= k < pre.wishes_of(u).len() ==> wish_preserved(
                pre.wishes_of(u)[k],
                #[trigger] post.wishes_of(u)[k],
            )) by {
        assert(post.wishes_of(u) == pre.wishes_of(u));
        assert forall|k: int| 0 <= k < pre.wishes_of(u).len() implies wish_preserved(
            pre.wishes_of(u)[k],
            #[trigger] post.wishes_of(u)[k],
        ) by {
            assert(post.wishes_of(u)[k] == pre.wishes_of(u)[k]);
        };
    };
}

/// A state nothing observable moved in extends the one it came from.
pub proof fn lemma_unchanged_extends(pre: SeasonalWishlist, post: SeasonalWishlist)
    requires
        unchanged(pre, post),
    ensures
        extends(pre, post),
{
    assert forall|u: Address|
        #![trigger post.wishes_of(u)]
        pre.wishes_of(u).len() <= post.wishes_of(u).len() && (forall|k: int|
            0 <= k < pre.wishes_of(u).len() ==> wish_preserved(
                pre.wishes_of(u)[k],
                #[trigger] post.wishes_of(u)[k],
            )) by {
        assert(post.wishes_of(u) == pre.wishes_of(u));
        assert forall|k: int| 0 <= k < pre.wishes_of(u).len() implies wish_preserved(
            pre.wishes_of(u)[k],
            #[trigger] post.wishes_of(u)[k],
        ) by {
            assert(post.wishes_of(u)[k] == pre.wishes_of(u)[k]);
        };
    };
}

/// In a well-formed entry the id pins down the position: ids are k + 1 at
/// position k, so two positions cannot carry the same id.
pub proof fn lemma_wish_id_unique(e: UserEntry, wish_id: u32, k: int)
    requires
        e.wf(),
        0 <= k < e.wishes@.len(),
        e.wishes@[k].id == wish_id,
    ensures
        e.has_wish(wish_id),
        e.wish_index(wish_id) == k,
{
    assert(e.has_wish(wish_id));
    let j = e.wish_index(wish_id);
    assert(0 <= j < e.wishes@.len() && e.wishes@[j].id == wish_id);
    assert(e.wishes@[j].id as int == j + 1);
    assert(e.wishes@[k].id as int == k + 1);
}

} // verus!
