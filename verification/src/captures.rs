//! The text captured by each group during one match attempt.
use vstd::prelude::*;
use crate::model::{Caps, captured, occurs_at};

verus! {

/// One slot per capturing group, holding the text that the group captured.
#[derive(Debug)]
pub struct Captures {
    slots: Vec<Option<Vec<char>>>,
}

impl View for Captures {
    type V = Caps;

    closed spec fn view(&self) -> Caps {
        Seq::new(
            self.slots@.len(),
            |i: int|
                match self.slots@[i] {
                    Some(text) => Some(text@),
                    None => None,
                },
        )
    }
}

impl Captures {
    /// Captures for `groups` groups, none of which has matched.
    pub fn new(groups: usize) -> (r: Captures)
        ensures
            r@ == crate::model::no_captures(groups as nat),
    {
        let mut slots: Vec<Option<Vec<char>>> = Vec::new();
        let mut i: usize = 0;
        while i < groups
            invariant
                i <= groups,
                slots@.len() == i,
                forall|k: int| 0 <= k < i ==> slots@[k] is None,
            decreases groups - i,
        {
            slots.push(None);
            i += 1;
        }
        let r = Captures { slots };
        assert(r@ =~= crate::model::no_captures(groups as nat));
        r
    }

    /// The number of groups.
    pub fn len(&self) -> (n: usize)
        ensures
            n == self@.len(),
    {
        self.slots.len()
    }

    /// The text captured by group `id`, if it has matched.
    pub fn get(&self, id: usize) -> (r: Option<Vec<char>>)
        ensures
            match r {
                Some(text) => captured(self@, id as nat) == Some(text@),
                None => captured(self@, id as nat) is None,
            },
    {
        if id < self.slots.len() {
            match &self.slots[id] {
                Some(text) => {
                    let mut copy: Vec<char> = Vec::new();
                    let mut i: usize = 0;
                    while i < text.len()
                        invariant
                            i <= text.len(),
                            copy@ == text@.take(i as int),
                        decreases text.len() - i,
                    {
                        copy.push(text[i]);
                        i += 1;
                    }
                    assert(copy@ =~= text@);
                    Some(copy)
                },
                None => None,
            }
        } else {
            None
        }
    }

    /// Puts `slot` in place of what group `id` holds and returns what it held.
    /// A group number beyond the captures changes nothing and returns `slot`.
    pub fn swap_slot(&mut self, id: usize, slot: Option<Vec<char>>) -> (held: Option<Vec<char>>)
        ensures
            final(self)@ == record_slot(old(self)@, id as nat, slot_view(slot)),
            slot_view(held) == (if id < old(self)@.len() {
                old(self)@[id as int]
            } else {
                slot_view(slot)
            }),
    {
        if id < self.slots.len() {
            self.slots.push(slot);
            let held = self.slots.swap_remove(id);
            assert(self@ =~= old(self)@.update(id as int, slot_view(slot)));
            held
        } else {
            slot
        }
    }

    /// If the text of group `id` stands in `subject` at `pos`, its length.
    pub fn length_if_here(&self, id: usize, subject: &Vec<char>, pos: usize) -> (r: Option<usize>)
        ensures
            r == here(self@, id as nat, subject@, pos as int),
    {
        if id >= self.slots.len() {
            return None;
        }
        match &self.slots[id] {
            None => None,
            Some(text) => {
                let n = text.len();
                if pos > subject.len() || n > subject.len() - pos {
                    return None;
                }
                assert(captured(self@, id as nat) == Some(text@));
                let mut i: usize = 0;
                while i < n
                    invariant
                        i <= n,
                        n == text@.len(),
                        pos + n <= subject.len(),
                        captured(self@, id as nat) == Some(text@),
                        forall|k: int| 0 <= k < i ==> subject@[pos + k] == text@[k],
                    decreases n - i,
                {
                    if subject[pos + i] != text[i] {
                        assert(subject@.subrange(pos as int, pos + n)[i as int] == subject@[pos + i]);
                        return None;
                    }
                    i += 1;
                }
                assert(subject@.subrange(pos as int, pos + n) =~= text@);
                Some(n)
            },
        }
    }
}

/// What [`Captures::length_if_here`] returns: the length of the text of group
/// `id` if the group has matched and its text stands in `s` at `pos`.
pub open spec fn here(caps: Caps, id: nat, s: Seq<char>, pos: int) -> Option<usize> {
    match captured(caps, id) {
        Some(text) => if occurs_at(s, pos, text) {
            Some(text.len() as usize)
        } else {
            None
        },
        None => None,
    }
}

/// The captures with `slot` in place of what group `id` holds.
pub open spec fn record_slot(caps: Caps, id: nat, slot: Option<Seq<char>>) -> Caps {
    if id < caps.len() {
        caps.update(id as int, slot)
    } else {
        caps
    }
}

/// The text in a slot.
pub open spec fn slot_view(slot: Option<Vec<char>>) -> Option<Seq<char>> {
    match slot {
        Some(text) => Some(text@),
        None => None,
    }
}

} // verus!
