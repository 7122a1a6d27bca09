//! Cancelling an in-flight OCR read.
//!
//! The background pre-warm and an on-demand hint share one OCR-at-a-time lock so
//! they never fire `tesseract` together and thrash the cores. The price is a
//! *collision*: if a hint is triggered while the pre-warm is mid-read, the hint
//! would have to wait out the whole pre-warm OCR (up to ~1s) before it could even
//! plan its own scan.
//!
//! [`Cancel`] lets the daemon preempt that. When an interaction starts it
//! [`abort`](Cancel::abort)s the pre-warm's token, which kills every running
//! `tesseract` child, so the pre-warm drops the cache lock at once and the hint
//! proceeds. The aborted read returns an error and — because the cache only
//! adopts a band into its baseline when that band is actually spliced in (see
//! [`cache`](super::cache)) — leaves no stale words behind. The on-demand path
//! carries its own token that is never aborted.
//!
//! The token knows the children by their registration ids; whoever holds the
//! processes kills the ones it names.

use vstd::prelude::*;

verus! {

/// The state of a cancellation token over a set of OCR subprocesses.
#[derive(Debug)]
pub struct Cancel {
    pub aborted: bool,
    pub next_id: u64,
    /// Children currently running under this token, by registration id.
    pub children: Vec<u64>,
}

impl Cancel {
    pub fn new() -> (c: Self)
        ensures
            !c.aborted,
            c.next_id == 0,
            c.children@.len() == 0,
    {
        Cancel { aborted: false, next_id: 0, children: Vec::new() }
    }

    /// True once [`abort`](Cancel::abort) has been called and before the next
    /// [`reset`](Cancel::reset).
    pub fn aborted(&self) -> (b: bool)
        ensures
            b == self.aborted,
    {
        self.aborted
    }

    /// Name every currently-running child, to be killed, and refuse further reads
    /// until reset.
    pub fn abort(&mut self) -> (kill: Vec<u64>)
        ensures
            kill@ == old(self).children@,
            *final(self) == (Cancel { aborted: true, ..*old(self) }),
    {
        self.aborted = true;
        let kill = self.children.clone();
        assert(kill@ == self.children@);
        kill
    }

    /// Clear the aborted flag so the token can drive the next read.
    pub fn reset(&mut self)
        ensures
            *final(self) == (Cancel { aborted: false, ..*old(self) }),
    {
        self.aborted = false;
    }

    /// Register a running child so [`abort`](Cancel::abort) can name it, returning
    /// an id to [`unregister`](Cancel::unregister) it once reaped, and whether to
    /// kill it at once: if an abort already landed, it must die now — this closes
    /// the window where a child is spawned just after `abort` walked its list.
    pub fn register(&mut self) -> (r: (u64, bool))
        ensures
            r.0 == old(self).next_id,
            r.1 == old(self).aborted,
            final(self).aborted == old(self).aborted,
            final(self).next_id == if old(self).next_id == u64::MAX {
                0
            } else {
                (old(self).next_id + 1) as u64
            },
            final(self).children@ == old(self).children@.push(r.0),
    {
        let id = self.next_id;
        self.next_id = if id == u64::MAX {
            0
        } else {
            id + 1
        };
        self.children.push(id);
        (id, self.aborted)
    }

    /// Drop a child from the kill set once it has exited.
    pub fn unregister(&mut self, id: u64)
        ensures
            final(self).aborted == old(self).aborted,
            final(self).next_id == old(self).next_id,
            final(self).children@ == old(self).children@.filter(|i: u64| i != id),
    {
        let mut kept: Vec<u64> = Vec::new();
        let mut i: usize = 0;
        let ghost given = self.children@;
        let ghost other = |i: u64| i != id;
        proof {
            reveal(Seq::filter);
        }
        while i < self.children.len()
            invariant
                i <= self.children@.len(),
                self.children@ == given,
                self.aborted == old(self).aborted,
                self.next_id == old(self).next_id,
                given == old(self).children@,
                other == (|i: u64| i != id),
                kept@ == given.take(i as int).filter(other),
            decreases self.children@.len() - i,
        {
            proof {
                reveal(Seq::filter);
                assert(given.take(i + 1).drop_last() == given.take(i as int));
                assert(given.take(i + 1).last() == given[i as int]);
            }
            let c = self.children[i];
            if c != id {
                kept.push(c);
            }
            i += 1;
        }
        assert(given.take(i as int) == given);
        self.children = kept;
    }
}

impl Default for Cancel {
    fn default() -> (c: Self)
        ensures
            !c.aborted,
            c.next_id == 0,
            c.children@.len() == 0,
    {
        Self::new()
    }
}

// --- Laws -----------------------------------------------------------------

/// What can happen to a token.
#[derive(Debug, Clone, Copy, PartialEq, Eq, Structural)]
pub enum TokenEvent {
    Abort,
    Reset,
    /// A child was registered under this id.
    Register(u64),
    /// The child of this id has exited.
    Unregister(u64),
}

/// The running children after `events`, one after the other.
pub open spec fn children_after(children: Seq<u64>, events: Seq<TokenEvent>) -> Seq<u64>
    decreases events.len(),
{
    if events.len() == 0 {
        children
    } else {
        let before = children_after(children, events.drop_last());
        match events.last() {
            TokenEvent::Register(id) => before.push(id),
            TokenEvent::Unregister(id) => before.filter(|i: u64| i != id),
            _ => before,
        }
    }
}

/// No child escapes an abort: once registered, it is among the children that any
/// later abort names, whatever else happens to the token, until it has exited
/// itself. (One that is registered after an abort is to be killed at once.)
pub proof fn law_no_child_escapes_an_abort(children: Seq<u64>, id: u64, events: Seq<TokenEvent>)
    requires
        forall|k: int| 0 <= k < events.len() ==> #[trigger] events[k] != TokenEvent::Unregister(id),
    ensures
        children_after(children.push(id), events).contains(id),
    decreases events.len(),
{
    if events.len() == 0 {
        assert(children.push(id)[children.len() as int] == id);
    } else {
        let rest = events.drop_last();
        assert forall|k: int| 0 <= k < rest.len() implies #[trigger] rest[k]
            != TokenEvent::Unregister(id) by {
            assert(rest[k] == events[k]);
        }
        law_no_child_escapes_an_abort(children, id, rest);
        let before = children_after(children.push(id), rest);
        let at = choose|k: int| 0 <= k < before.len() && before[k] == id;
        match events.last() {
            TokenEvent::Register(other) => {
                assert(before.push(other)[at] == id);
            },
            TokenEvent::Unregister(other) => {
                assert(events[events.len() - 1] != TokenEvent::Unregister(id));
                before.lemma_filter_contains(|i: u64| i != other, at);
            },
            _ => {},
        }
    }
}

/// Removing an id that is not registered changes nothing.
pub proof fn law_unregistering_a_stranger_is_harmless(children: Seq<u64>, id: u64)
    requires
        !children.contains(id),
    ensures
        children.filter(|i: u64| i != id) == children,
    decreases children.len(),
{
    reveal(Seq::filter);
    if children.len() > 0 {
        let t = children.drop_last();
        assert forall|i: u64| #[trigger] t.contains(i) implies children.contains(i) by {
            let k = choose|k: int| 0 <= k < t.len() && t[k] == i;
            assert(children[k] == i);
        }
        law_unregistering_a_stranger_is_harmless(t, id);
        assert(children[children.len() - 1] == children.last());
        assert(children.contains(children.last()));
        assert(t.push(children.last()) == children);
    }
}

} // verus!
