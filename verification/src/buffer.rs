//! The bounded message store: an insertion-ordered sequence of the
//! most recent messages, newest first, with the oldest evicted when
//! the configured capacity would be exceeded.

use vstd::prelude::*;
use crate::message::ChatMessage;

verus! {

/// The contents after inserting one message at the front of `s` in a
/// buffer of capacity `cap`: the oldest entry leaves when the new
/// length would exceed the capacity.
pub open spec fn inserted(s: Seq<ChatMessage>, m: ChatMessage, cap: nat) -> Seq<ChatMessage> {
    let grown = seq![m] + s;
    if grown.len() > cap {
        grown.drop_last()
    } else {
        grown
    }
}

/// The contents of a buffer of capacity `cap` after inserting the
/// messages of `msgs` in order, starting from empty.
pub open spec fn buffer_after(msgs: Seq<ChatMessage>, cap: nat) -> Seq<ChatMessage>
    decreases msgs.len(),
{
    if msgs.len() == 0 {
        Seq::empty()
    } else {
        inserted(buffer_after(msgs.drop_last(), cap), msgs.last(), cap)
    }
}

/// A bounded, insertion-ordered store of the most recent chat
/// messages, newest first.
pub struct MessageBuffer {
    items: Vec<ChatMessage>,
    capacity: usize,
}

impl MessageBuffer {
    /// The stored messages, newest first.
    pub closed spec fn view(&self) -> Seq<ChatMessage> {
        self.items@
    }

    /// The fixed capacity.
    pub closed spec fn spec_capacity(&self) -> nat {
        self.capacity as nat
    }

    /// The buffer never outgrows its capacity, which is positive.
    pub open spec fn wf(&self) -> bool {
        1 <= self.spec_capacity() && self@.len() <= self.spec_capacity()
    }

    /// An empty buffer with the given capacity.
    pub fn new(capacity: usize) -> (r: MessageBuffer)
        requires
            capacity >= 1,
        ensures
            r.wf(),
            r@ == Seq::<ChatMessage>::empty(),
            r.spec_capacity() == capacity,
    {
        let r = MessageBuffer { items: Vec::new(), capacity };
        proof {
            assert(r@ =~= Seq::<ChatMessage>::empty());
        }
        r
    }

    /// The capacity the buffer was created with.
    pub fn capacity(&self) -> (r: usize)
        ensures
            r == self.spec_capacity(),
    {
        self.capacity
    }

    /// The number of stored messages.
    pub fn len(&self) -> (r: usize)
        ensures
            r == self@.len(),
    {
        self.items.len()
    }

    /// Adds a message at the front; evicts the back entry if the
    /// buffer would outgrow its capacity.
    pub fn insert(&mut self, m: ChatMessage)
        requires
            old(self).wf(),
        ensures
            final(self).wf(),
            final(self)@ == inserted(old(self)@, m, old(self).spec_capacity()),
            final(self).spec_capacity() == old(self).spec_capacity(),
    {
        self.items.insert(0, m);
        proof {
            assert(self.items@ =~= seq![m] + old(self).items@);
        }
        if self.items.len() > self.capacity {
            self.items.pop();
            proof {
                assert(self.items@ =~= (seq![m] + old(self).items@).drop_last());
            }
        }
    }

    /// The current contents without mutation, newest first: the input
    /// to a redraw pass.
    pub fn messages(&self) -> (r: &Vec<ChatMessage>)
        ensures
            r@ == self@,
    {
        &self.items
    }
}

/// Eviction keeps exactly the most recent messages: after inserting
/// any list of messages in order into an empty buffer of capacity
/// `cap`, the buffer holds the last `min(cap, N)` of them, newest
/// first.
pub proof fn lemma_buffer_eviction(msgs: Seq<ChatMessage>, cap: nat)
    requires
        cap >= 1,
    ensures
        buffer_after(msgs, cap) == msgs.skip(
            if msgs.len() <= cap { 0 } else { msgs.len() - cap },
        ).reverse(),
    decreases msgs.len(),
{
    let n = msgs.len() as int;
    let lo: int = if msgs.len() <= cap { 0 } else { n - cap };
    if msgs.len() == 0 {
        assert(buffer_after(msgs, cap) =~= msgs.skip(lo).reverse());
    } else {
        let prev = msgs.drop_last();
        lemma_buffer_eviction(prev, cap);
        let plo: int = if prev.len() <= cap { 0 } else { n - 1 - cap };
        let tail = prev.skip(plo).reverse();
        let grown = seq![msgs.last()] + tail;
        assert forall|i: int| 0 <= i < tail.len() implies tail[i] == msgs[n - 2 - i] by {
            assert(tail[i] == prev.skip(plo)[prev.skip(plo).len() - 1 - i]);
        }
        if grown.len() > cap {
            assert(buffer_after(msgs, cap) == grown.drop_last());
            assert(grown.drop_last() =~= msgs.skip(lo).reverse());
        } else {
            assert(buffer_after(msgs, cap) == grown);
            assert(grown =~= msgs.skip(lo).reverse());
        }
    }
}

} // verus!
