//! Identity records and the store that keeps them, one per name.

use vstd::prelude::*;
use crate::text::{chars_of, range_eq};

verus! {

/// One git identity: who commits, and through which host and protocol.
#[derive(Debug)]
pub struct User {
    pub name: String,
    pub email: String,
    pub git_host: String,
    pub use_https: bool,
}

/// The identities that are known, in the order in which their names were
/// first stored. No name occurs twice.
#[derive(Debug)]
pub struct UsersConfig {
    pub users: Vec<User>,
}

/// The first position at or after `from` whose identity is called `name`, or
/// `users.len()`.
pub open spec fn position_from(users: Seq<User>, name: Seq<char>, from: int) -> int
    decreases users.len() - from,
{
    if from < 0 || from >= users.len() {
        users.len() as int
    } else if users[from].name@ == name {
        from
    } else {
        position_from(users, name, from + 1)
    }
}

/// Whether no two identities of `users` share a name.
pub open spec fn distinct_names(users: Seq<User>) -> bool {
    forall|i: int, j: int|
        0 <= i < j < users.len() ==> (#[trigger] users[i]).name@ != (#[trigger] users[j]).name@
}

/// `position_from` stays within the identities, passes none called `name`,
/// and stands on one unless it is the end.
pub proof fn lemma_position_from(users: Seq<User>, name: Seq<char>, from: int)
    requires
        0 <= from <= users.len(),
    ensures
        from <= position_from(users, name, from) <= users.len(),
        forall|j: int|
            from <= j < position_from(users, name, from) ==> (#[trigger] users[j]).name@ != name,
        position_from(users, name, from) < users.len() ==> users[position_from(
            users,
            name,
            from,
        )].name@ == name,
    decreases users.len() - from,
{
    if from < users.len() && users[from].name@ != name {
        lemma_position_from(users, name, from + 1);
    }
}

/// Whether `a` and `b` are the same text.
fn same_text(a: &str, b: &str) -> (r: bool)
    ensures
        r == (a@ == b@),
{
    let x = chars_of(a);
    let y = chars_of(b);
    assert(x@.subrange(0, x.len() as int) =~= x@);
    range_eq(&x, 0, x.len(), &y)
}

impl UsersConfig {
    /// Whether no name occurs twice.
    pub open spec fn well_formed(&self) -> bool {
        distinct_names(self.users@)
    }

    /// Where the identity called `name` stands, or the number of identities
    /// where there is none.
    pub open spec fn position(&self, name: Seq<char>) -> int {
        position_from(self.users@, name, 0)
    }

    /// Whether an identity called `name` is stored.
    pub open spec fn holds(&self, name: Seq<char>) -> bool {
        self.position(name) < self.users.len()
    }

    /// A store without identities.
    pub fn new() -> (config: UsersConfig)
        ensures
            config.users@.len() == 0,
            config.well_formed(),
    {
        UsersConfig { users: Vec::new() }
    }

    /// The number of identities.
    pub fn len(&self) -> (n: usize)
        ensures
            n == self.users@.len(),
    {
        self.users.len()
    }

    /// Whether no identity is stored.
    pub fn is_empty(&self) -> (r: bool)
        ensures
            r == (self.users@.len() == 0),
    {
        self.users.len() == 0
    }

    /// Where the identity called `name` stands.
    pub fn find(&self, name: &str) -> (i: usize)
        ensures
            i == self.position(name@),
            i <= self.users.len(),
    {
        let mut i: usize = 0;
        while i < self.users.len()
            invariant
                i <= self.users.len(),
                self.position(name@) == position_from(self.users@, name@, i as int),
            decreases self.users.len() - i,
        {
            if same_text(self.users[i].name.as_str(), name) {
                return i;
            }
            i += 1;
        }
        i
    }

    /// The identity called `name`, if one is stored.
    pub fn get(&self, name: &str) -> (found: Option<&User>)
        ensures
            self.holds(name@) ==> found == Some(&self.users@[self.position(name@)]),
            !self.holds(name@) ==> found is None,
    {
        let i: usize = self.find(name);
        if i < self.users.len() {
            Some(&self.users[i])
        } else {
            None
        }
    }

    /// Stores `user` under its name: in place of the identity that had the
    /// name, or behind all others.
    pub fn insert(&mut self, user: User)
        requires
            old(self).well_formed(),
        ensures
            final(self).well_formed(),
            old(self).holds(user.name@) ==> final(self).users@ == old(self).users@.update(
                old(self).position(user.name@),
                user,
            ),
            !old(self).holds(user.name@) ==> final(self).users@ == old(self).users@.push(user),
            final(self).holds(user.name@),
            final(self).users@[final(self).position(user.name@)] == user,
    {
        let i: usize = self.find(user.name.as_str());
        proof {
            lemma_position_from(self.users@, user.name@, 0);
        }
        let ghost name = user.name@;
        if i < self.users.len() {
            self.users.set(i, user);
        } else {
            self.users.push(user);
        }
        proof {
            lemma_position_from(self.users@, name, 0);
            let p = self.position(name);
            if p < i {
                assert(self.users@[p] == old(self).users@[p]);
            }
            assert(self.users@[i as int].name@ == name);
        }
    }

    /// Takes out the identity called `name`; says whether there was one.
    pub fn remove(&mut self, name: &str) -> (removed: bool)
        requires
            old(self).well_formed(),
        ensures
            final(self).well_formed(),
            removed == old(self).holds(name@),
            removed ==> final(self).users@ == old(self).users@.remove(old(self).position(name@)),
            !removed ==> final(self).users@ == old(self).users@,
            !final(self).holds(name@),
    {
        let i: usize = self.find(name);
        proof {
            lemma_position_from(self.users@, name@, 0);
        }
        if i < self.users.len() {
            self.users.remove(i);
            proof {
                lemma_position_from(self.users@, name@, 0);
                let p = self.position(name@);
                if p < self.users.len() {
                    if p < i {
                        assert(self.users@[p] == old(self).users@[p]);
                    } else {
                        assert(self.users@[p] == old(self).users@[p + 1]);
                    }
                }
            }
            true
        } else {
            false
        }
    }
}

} // verus!
