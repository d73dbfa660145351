//! The per-subject debounce registry.
//!
//! Bursts of presence events for one `(group, subject)` key collapse into a
//! single reconciliation: every new event cancels the key's pending unit of
//! work and registers a fresh one, identified by a token that no earlier
//! unit ever held.  A unit acts only while its token is still current, and
//! removes its own entry only if the entry still carries its token — a
//! compare-and-remove, so a unit that was replaced mid-flight never removes
//! its successor's entry.
//!
//! The registry is a pure state machine; the surrounding runtime owns the
//! actual timers and tasks and consults it under its own lock.

use vstd::prelude::*;

verus! {

/// One pending unit of work: the key it serves and its token.
#[derive(Debug, Clone, Copy, PartialEq, Eq, Structural)]
pub struct DebounceEntry {
    pub guild_id: u64,
    pub user_id: u64,
    pub token: u64,
}

/// The token of the pending unit for the key, if any.
pub open spec fn spec_lookup(entries: Seq<DebounceEntry>, guild_id: u64, user_id: u64) -> Option<
    u64,
>
    decreases entries.len(),
{
    if entries.len() == 0 {
        None
    } else if entries[0].guild_id == guild_id && entries[0].user_id == user_id {
        Some(entries[0].token)
    } else {
        spec_lookup(entries.drop_first(), guild_id, user_id)
    }
}

/// At most one live unit of work per key.
pub struct DebounceRegistry {
    pub entries: Vec<DebounceEntry>,
    /// The next token to hand out; every token ever handed out is below it.
    pub next_token: u64,
}

impl DebounceRegistry {
    /// Keys are unique and every stored token was handed out earlier.
    pub open spec fn wf(self) -> bool {
        &&& forall|i: int, j: int|
            0 <= i < j < self.entries@.len() ==> !((#[trigger] self.entries@[i]).guild_id
                == (#[trigger] self.entries@[j]).guild_id && self.entries@[i].user_id
                == self.entries@[j].user_id)
        &&& forall|i: int|
            0 <= i < self.entries@.len() ==> (#[trigger] self.entries@[i]).token < self.next_token
    }

    /// An empty registry.
    pub fn new() -> (r: DebounceRegistry)
        ensures
            r.entries@.len() == 0,
            r.next_token == 0,
            r.wf(),
    {
        DebounceRegistry { entries: Vec::new(), next_token: 0 }
    }

    /// The token of the pending unit for the key, if any.
    pub fn current(&self, guild_id: u64, user_id: u64) -> (r: Option<u64>)
        ensures
            r == spec_lookup(self.entries@, guild_id, user_id),
    {
        let ghost all = self.entries@;
        proof {
            assert(all.skip(0) =~= all);
        }
        let mut i: usize = 0;
        loop
            invariant
                0 <= i <= self.entries@.len(),
                all == self.entries@,
                spec_lookup(all.skip(i as int), guild_id, user_id) == spec_lookup(
                    all,
                    guild_id,
                    user_id,
                ),
                forall|t: int|
                    0 <= t < i ==> !((#[trigger] all[t]).guild_id == guild_id && all[t].user_id
                        == user_id),
            ensures
                0 <= i <= all.len(),
                all == self.entries@,
                spec_lookup(all.skip(i as int), guild_id, user_id) == spec_lookup(
                    all,
                    guild_id,
                    user_id,
                ),
                i < all.len() ==> all[i as int].guild_id == guild_id && all[i as int].user_id
                    == user_id,
            decreases self.entries@.len() - i,
        {
            if i == self.entries.len() {
                break;
            }
            if self.entries[i].guild_id == guild_id && self.entries[i].user_id == user_id {
                break;
            }
            proof {
                assert(all.skip(i as int).drop_first() =~= all.skip(i + 1));
            }
            i += 1;
        }
        if i < self.entries.len() {
            proof {
                assert(all.skip(i as int)[0] == all[i as int]);
            }
            Some(self.entries[i].token)
        } else {
            proof {
                assert(all.skip(i as int).len() == 0);
            }
            None
        }
    }

    /// Whether the unit holding `token` is still the key's pending unit.
    /// A unit checks this before any externally visible action.
    pub fn is_current(&self, guild_id: u64, user_id: u64, token: u64) -> (r: bool)
        ensures
            r == (spec_lookup(self.entries@, guild_id, user_id) == Some(token)),
    {
        match self.current(guild_id, user_id) {
            Some(t) => t == token,
            None => false,
        }
    }

    /// Registers a fresh unit of work for the key, cancelling the pending
    /// one: the fresh token alone is current afterwards, and it is distinct
    /// from every token the registry ever handed out.  Other keys are
    /// untouched.
    pub fn on_event(&mut self, guild_id: u64, user_id: u64) -> (token: u64)
        requires
            old(self).wf(),
            old(self).next_token < u64::MAX,
        ensures
            final(self).wf(),
            token == old(self).next_token,
            final(self).next_token == old(self).next_token + 1,
            spec_lookup(final(self).entries@, guild_id, user_id) == Some(token),
            forall|g2: u64, u2: u64|
                !(g2 == guild_id && u2 == user_id) ==> spec_lookup(final(self).entries@, g2, u2)
                    == spec_lookup(old(self).entries@, g2, u2),
    {
        let ghost all = self.entries@;
        let token = self.next_token;
        self.next_token = self.next_token + 1;
        let mut i: usize = 0;
        loop
            invariant
                0 <= i <= self.entries@.len(),
                all == self.entries@,
                forall|t: int|
                    0 <= t < i ==> !((#[trigger] all[t]).guild_id == guild_id && all[t].user_id
                        == user_id),
            ensures
                0 <= i <= all.len(),
                all == self.entries@,
                forall|t: int|
                    0 <= t < i ==> !((#[trigger] all[t]).guild_id == guild_id && all[t].user_id
                        == user_id),
                i < all.len() ==> all[i as int].guild_id == guild_id && all[i as int].user_id
                    == user_id,
            decreases self.entries@.len() - i,
        {
            if i == self.entries.len() {
                break;
            }
            if self.entries[i].guild_id == guild_id && self.entries[i].user_id == user_id {
                break;
            }
            i += 1;
        }
        let entry = DebounceEntry { guild_id, user_id, token };
        if i < self.entries.len() {
            self.entries.set(i, entry);
            proof {
                lemma_lookup_at(self.entries@, guild_id, user_id, i as int);
                assert forall|g2: u64, u2: u64| !(g2 == guild_id && u2 == user_id) implies
                    spec_lookup(self.entries@, g2, u2) == spec_lookup(all, g2, u2) by {
                    lemma_lookup_update_other(all, i as int, entry, g2, u2);
                }
            }
        } else {
            self.entries.push(entry);
            proof {
                assert(self.entries@.drop_last() =~= all);
                lemma_lookup_at(self.entries@, guild_id, user_id, i as int);
                assert forall|g2: u64, u2: u64| !(g2 == guild_id && u2 == user_id) implies
                    spec_lookup(self.entries@, g2, u2) == spec_lookup(all, g2, u2) by {
                    lemma_lookup_push_other(all, entry, g2, u2);
                }
            }
        }
        token
    }

    /// Compare-and-remove: removes the key's entry only if it still carries
    /// `token`, so a replaced unit never removes its successor's entry.
    pub fn complete(&mut self, guild_id: u64, user_id: u64, token: u64) -> (removed: bool)
        requires
            old(self).wf(),
        ensures
            final(self).wf(),
            final(self).next_token == old(self).next_token,
            removed == (spec_lookup(old(self).entries@, guild_id, user_id) == Some(token)),
            removed ==> spec_lookup(final(self).entries@, guild_id, user_id) is None,
            !removed ==> final(self).entries@ == old(self).entries@,
            forall|g2: u64, u2: u64|
                !(g2 == guild_id && u2 == user_id) ==> spec_lookup(final(self).entries@, g2, u2)
                    == spec_lookup(old(self).entries@, g2, u2),
    {
        let ghost all = self.entries@;
        let mut i: usize = 0;
        loop
            invariant
                0 <= i <= self.entries@.len(),
                all == self.entries@,
                forall|t: int|
                    0 <= t < i ==> !((#[trigger] all[t]).guild_id == guild_id && all[t].user_id
                        == user_id),
            ensures
                0 <= i <= all.len(),
                all == self.entries@,
                forall|t: int|
                    0 <= t < i ==> !((#[trigger] all[t]).guild_id == guild_id && all[t].user_id
                        == user_id),
                i < all.len() ==> all[i as int].guild_id == guild_id && all[i as int].user_id
                    == user_id,
            decreases self.entries@.len() - i,
        {
            if i == self.entries.len() {
                break;
            }
            if self.entries[i].guild_id == guild_id && self.entries[i].user_id == user_id {
                break;
            }
            i += 1;
        }
        if i < self.entries.len() {
            proof {
                lemma_lookup_at(all, guild_id, user_id, i as int);
            }
            if self.entries[i].token == token {
                self.entries.remove(i);
                proof {
                    assert forall|g2: u64, u2: u64| !(g2 == guild_id && u2 == user_id) implies
                        spec_lookup(self.entries@, g2, u2) == spec_lookup(all, g2, u2) by {
                        lemma_lookup_remove_other(all, i as int, g2, u2);
                    }
                    assert forall|t: int|
                        0 <= t < self.entries@.len() implies !((#[trigger] self.entries@[t]).guild_id
                        == guild_id && self.entries@[t].user_id == user_id) by {
                        if t < i {
                        } else {
                            assert(self.entries@[t] == all[t + 1]);
                        }
                    }
                    lemma_lookup_none(self.entries@, guild_id, user_id);
                }
                true
            } else {
                false
            }
        } else {
            proof {
                lemma_lookup_none(all, guild_id, user_id);
            }
            false
        }
    }
}

/// When the key sits at position `i` and nowhere earlier, the lookup finds
/// exactly that entry's token.
proof fn lemma_lookup_at(entries: Seq<DebounceEntry>, guild_id: u64, user_id: u64, i: int)
    requires
        0 <= i < entries.len(),
        entries[i].guild_id == guild_id && entries[i].user_id == user_id,
        forall|t: int|
            0 <= t < i ==> !((#[trigger] entries[t]).guild_id == guild_id && entries[t].user_id
                == user_id),
    ensures
        spec_lookup(entries, guild_id, user_id) == Some(entries[i].token),
    decreases i,
{
    if i > 0 {
        lemma_lookup_at(entries.drop_first(), guild_id, user_id, i - 1);
    }
}

/// A list without the key is searched in vain.
proof fn lemma_lookup_none(entries: Seq<DebounceEntry>, guild_id: u64, user_id: u64)
    requires
        forall|t: int|
            0 <= t < entries.len() ==> !((#[trigger] entries[t]).guild_id == guild_id
                && entries[t].user_id == user_id),
    ensures
        spec_lookup(entries, guild_id, user_id) is None,
    decreases entries.len(),
{
    if entries.len() > 0 {
        lemma_lookup_none(entries.drop_first(), guild_id, user_id);
    }
}

/// Updating one position does not change the lookup of a different key,
/// provided neither the old nor the new entry carries that key.
proof fn lemma_lookup_update_other(
    entries: Seq<DebounceEntry>,
    i: int,
    e: DebounceEntry,
    g2: u64,
    u2: u64,
)
    requires
        0 <= i < entries.len(),
        !(e.guild_id == g2 && e.user_id == u2),
        !(entries[i].guild_id == g2 && entries[i].user_id == u2),
    ensures
        spec_lookup(entries.update(i, e), g2, u2) == spec_lookup(entries, g2, u2),
    decreases i,
{
    if i == 0 {
        assert(entries.update(0, e).drop_first() =~= entries.drop_first());
    } else {
        lemma_lookup_update_other(entries.drop_first(), i - 1, e, g2, u2);
        assert(entries.update(i, e).drop_first() =~= entries.drop_first().update(i - 1, e));
        assert(entries.update(i, e)[0] == entries[0]);
    }
}

/// Appending an entry for another key does not change the lookup.
proof fn lemma_lookup_push_other(entries: Seq<DebounceEntry>, e: DebounceEntry, g2: u64, u2: u64)
    requires
        !(e.guild_id == g2 && e.user_id == u2),
    ensures
        spec_lookup(entries.push(e), g2, u2) == spec_lookup(entries, g2, u2),
    decreases entries.len(),
{
    if entries.len() == 0 {
        assert(entries.push(e)[0] == e);
        assert(entries.push(e).drop_first() =~= entries);
    } else {
        lemma_lookup_push_other(entries.drop_first(), e, g2, u2);
        assert(entries.push(e).drop_first() =~= entries.drop_first().push(e));
        assert(entries.push(e)[0] == entries[0]);
    }
}

/// Removing one position does not change the lookup of a different key.
proof fn lemma_lookup_remove_other(entries: Seq<DebounceEntry>, i: int, g2: u64, u2: u64)
    requires
        0 <= i < entries.len(),
        !(entries[i].guild_id == g2 && entries[i].user_id == u2),
    ensures
        spec_lookup(entries.remove(i), g2, u2) == spec_lookup(entries, g2, u2),
    decreases i,
{
    if i == 0 {
        assert(entries.remove(0) =~= entries.drop_first());
    } else {
        lemma_lookup_remove_other(entries.drop_first(), i - 1, g2, u2);
        assert(entries.remove(i).drop_first() =~= entries.drop_first().remove(i - 1));
        assert(entries.remove(i)[0] == entries[0]);
    }
}

/// Debounce collapse: when three events for the same key arrive in a burst,
/// the tokens of the first two units differ from the third's, the third
/// token alone is current, and so the first two units, each checking
/// `is_current` before acting, observe their cancellation.
pub proof fn lemma_debounce_collapse(
    r0: DebounceRegistry,
    r1: DebounceRegistry,
    r2: DebounceRegistry,
    r3: DebounceRegistry,
    guild_id: u64,
    user_id: u64,
    t1: u64,
    t2: u64,
    t3: u64,
)
    requires
        t1 == r0.next_token && r1.next_token == t1 + 1,
        t2 == r1.next_token && r2.next_token == t2 + 1,
        t3 == r2.next_token && r3.next_token == t3 + 1,
        spec_lookup(r3.entries@, guild_id, user_id) == Some(t3),
    ensures
        t1 != t3 && t2 != t3,
        spec_lookup(r3.entries@, guild_id, user_id) != Some(t1),
        spec_lookup(r3.entries@, guild_id, user_id) != Some(t2),
{
}

} // verus!
