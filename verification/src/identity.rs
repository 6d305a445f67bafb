use vstd::prelude::*;

verus! {

/// A principal on the ledger, reduced to the plain identifier the core
/// compares. Authentication of the principal itself is the host's business;
/// the core only asks whether two identities are the same one.
#[derive(Clone, Copy, Debug, PartialEq, Eq, Structural)]
pub struct Address(pub u64);

/// The set of principals that authorized the current invocation. The host's
/// signature-verification substrate fills it in; the core consults it for the
/// one identity each operation requires (the acting user for additions, the
/// administrator for admin operations).
pub struct AuthContext {
    pub approved: Vec<Address>,
}

impl AuthContext {
    /// The invocation carries an authorization by `a`.
    pub open spec fn approves(self, a: Address) -> bool {
        self.approved@.contains(a)
    }

    /// An invocation nobody authorized.
    pub fn new() -> (ctx: AuthContext)
        ensures
            forall|a: Address| !ctx.approves(a),
    {
        AuthContext { approved: Vec::new() }
    }

    /// Record that `a` authorized the invocation.
    pub fn approve(&mut self, a: Address)
        ensures
            forall|b: Address|
                #[trigger] final(self).approves(b) <==> old(self).approves(b) || b == a,
    {
        self.approved.push(a);
        proof {
            let pre = old(self).approved@;
            let post = self.approved@;
            assert forall|b: Address| #[trigger] post.contains(b) implies pre.contains(b) || b
                == a by {
                let i = choose|i: int| 0 <= i < post.len() && post[i] == b;
                if i < pre.len() {
                    assert(pre[i] == b);
                }
            };
            assert forall|b: Address| pre.contains(b) implies #[trigger] post.contains(b) by {
                let i = choose|i: int| 0 <= i < pre.len() && pre[i] == b;
                assert(post[i] == b);
            };
            assert(post[pre.len() as int] == a);
            assert(post.contains(a));
        }
    }

    /// Did `a` authorize the invocation?
    pub fn is_approved(&self, a: Address) -> (r: bool)
        ensures
            r == self.approves(a),
    {
        contains_address(&self.approved, a)
    }
}

/// Linear membership scan over a list of identities, the way the denylist is
/// consulted: fine at the denylist's small scale.
pub fn contains_address(list: &Vec<Address>, a: Address) -> (r: bool)
    ensures
        r == list@.contains(a),
{
    let mut i: usize = 0;
    while i < list.len()
        invariant
            i <= list@.len(),
            forall|j: int| 0 <= j < i ==> list@[j] != a,
        decreases list@.len() - i,
    {
        if list[i] == a {
            assert(list@.contains(a));
            return true;
        }
        i += 1;
    }
    proof {
        if list@.contains(a) {
            let k = choose|k: int| 0 <= k < list@.len() && list@[k] == a;
            assert(false);
        }
    }
    false
}

} // verus!
