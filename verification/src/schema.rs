//! The records of the three relations: items, users and ballot entries.

use vstd::prelude::*;

verus! {

/// A registered voter.
#[derive(Debug, PartialEq, Eq)]
pub struct User {
    pub id: i32,
    pub username: String,
}

/// A candidate of the catalog. An item that is `done` is closed: it takes no
/// part in any election.
#[derive(Debug, PartialEq, Eq)]
pub struct Item {
    pub id: i32,
    pub title: String,
    pub body: String,
    pub done: bool,
}

/// One entry of a ballot: `user_id` ranks `item_id` at place `ordinal`, where
/// place 0 is the most preferred.
#[derive(Debug, Clone, Copy, PartialEq, Eq, Structural)]
pub struct Vote {
    pub user_id: i32,
    pub item_id: i32,
    pub ordinal: i32,
}

/// A ranking as a voter hands it in: item ids, most preferred first.
#[derive(Debug, PartialEq, Eq)]
pub struct Ballot {
    pub votes: Vec<i32>,
}

/// A username on its way to becoming, or finding, a user.
#[derive(Debug, PartialEq, Eq)]
pub struct NewUser {
    pub username: String,
}

impl Clone for User {
    fn clone(&self) -> (copy: Self)
        ensures
            copy == *self,
    {
        User { id: self.id, username: self.username.clone() }
    }
}

impl Clone for Item {
    fn clone(&self) -> (copy: Self)
        ensures
            copy == *self,
    {
        Item { id: self.id, title: self.title.clone(), body: self.body.clone(), done: self.done }
    }
}

} // verus!
