//! The relay's state: the clients that receive broadcasts, in the order they
//! connected, and the queue of inbound messages awaiting broadcast.
use vstd::prelude::*;

use crate::codec::{
    decoded_text, encode, encoded_frame, lemma_relayed_text_preserved, CodecError, FRAME_SIZE,
};

verus! {

/// The clients of `clients` whose entry in `delivered` is true, in order.
pub open spec fn survivors<C>(clients: Seq<C>, delivered: Seq<bool>) -> Seq<C>
    decreases clients.len(),
{
    if clients.len() == 0 {
        seq![]
    } else {
        let kept = survivors(clients.drop_last(), delivered.drop_last());
        if delivered.last() {
            kept.push(clients.last())
        } else {
            kept
        }
    }
}

/// No more clients survive than there were.
pub proof fn lemma_survivors_len<C>(clients: Seq<C>, delivered: Seq<bool>)
    ensures
        survivors(clients, delivered).len() <= clients.len(),
    decreases clients.len(),
{
    if clients.len() > 0 {
        lemma_survivors_len(clients.drop_last(), delivered.drop_last());
    }
}

/// What the next dispatch does with a queue: `None` when it is empty,
/// otherwise the frame for the message at its front, or why it has none.
pub open spec fn front_frame(pending: Seq<Seq<char>>) -> Option<Result<Seq<u8>, CodecError>> {
    if pending.len() == 0 {
        None
    } else {
        match encoded_frame(pending[0]) {
            Some(f) => Some(Ok(f)),
            None => Some(Err(CodecError::FrameTooLarge)),
        }
    }
}

/// The positions `i` at which `delivered[i]` is true, in increasing order.
pub open spec fn delivered_positions(delivered: Seq<bool>) -> Seq<int>
    decreases delivered.len(),
{
    if delivered.len() == 0 {
        seq![]
    } else {
        let kept = delivered_positions(delivered.drop_last());
        if delivered.last() {
            kept.push(delivered.len() - 1)
        } else {
            kept
        }
    }
}

/// Pruning: after a broadcast the relay keeps exactly the clients whose write
/// succeeded, in the order they had. The `x`-th client kept is the client at
/// the `x`-th position whose write succeeded; a client whose write failed is
/// at no kept position, so no later broadcast, which goes to the kept clients
/// alone, writes to it again.
pub proof fn lemma_pruning<C>(clients: Seq<C>, delivered: Seq<bool>)
    requires
        delivered.len() == clients.len(),
    ensures
        survivors(clients, delivered).len() == delivered_positions(delivered).len(),
        forall|x: int|
            0 <= x < delivered_positions(delivered).len() ==> {
                let i = #[trigger] delivered_positions(delivered)[x];
                &&& 0 <= i < clients.len()
                &&& delivered[i]
                &&& survivors(clients, delivered)[x] == clients[i]
            },
        forall|x: int, y: int|
            0 <= x < y < delivered_positions(delivered).len() ==> delivered_positions(delivered)[x]
                < delivered_positions(delivered)[y],
        forall|i: int|
            0 <= i < delivered.len() ==> (delivered_positions(delivered).contains(i)
                <==> delivered[i]),
    decreases clients.len(),
{
    if clients.len() > 0 {
        let n = clients.len() - 1;
        let c0 = clients.drop_last();
        let d0 = delivered.drop_last();
        lemma_pruning(c0, d0);
        let k0 = delivered_positions(d0);
        let k = delivered_positions(delivered);
        assert forall|x: int| 0 <= x < k0.len() implies 0 <= #[trigger] k0[x] < n by {}
        assert forall|i: int| 0 <= i < delivered.len() implies (k.contains(i) <==> delivered[i]) by {
            if i < n {
                assert(d0[i] == delivered[i]);
                if k0.contains(i) {
                    let x = choose|x: int| 0 <= x < k0.len() && k0[x] == i;
                    assert(k[x] == i);
                }
                if k.contains(i) {
                    let x = choose|x: int| 0 <= x < k.len() && k[x] == i;
                    assert(x < k0.len());
                    assert(k0[x] == i);
                }
            } else {
                if delivered[i] {
                    assert(k[k.len() - 1] == i);
                } else {
                    if k.contains(i) {
                        let x = choose|x: int| 0 <= x < k.len() && k[x] == i;
                        assert(k0[x] == i);
                    }
                }
            }
        }
    }
}

/// Fan-out: a message that a reader decoded from a full frame, once it is at
/// the front of the queue, is sent as one frame that decodes to that same
/// message, whatever is queued behind it; the message then leaves the queue,
/// so it is sent once. Every client whose write succeeds stays for the next
/// broadcast.
pub proof fn lemma_fan_out<C>(clients: Seq<C>, frame: Seq<u8>, behind: Seq<Seq<char>>)
    requires
        frame.len() == FRAME_SIZE,
        decoded_text(frame) is Some,
    ensures
        ({
            let queue = seq![decoded_text(frame)->Some_0] + behind;
            &&& front_frame(queue) matches Some(Ok(out))
            &&& decoded_text(out) == decoded_text(frame)
            &&& queue.drop_first() == behind
        }),
        survivors(clients, Seq::new(clients.len(), |_i: int| true)) == clients,
{
    lemma_relayed_text_preserved(frame);
    let queue = seq![decoded_text(frame)->Some_0] + behind;
    assert(queue[0] == decoded_text(frame)->Some_0);
    assert(queue.drop_first() =~= behind);
    lemma_all_delivered_keeps_all(clients);
}

/// With every write successful, no client is dropped.
proof fn lemma_all_delivered_keeps_all<C>(clients: Seq<C>)
    ensures
        survivors(clients, Seq::new(clients.len(), |_i: int| true)) == clients,
    decreases clients.len(),
{
    if clients.len() > 0 {
        let all = Seq::new(clients.len(), |_i: int| true);
        let c0 = clients.drop_last();
        assert(all.drop_last() =~= Seq::new(c0.len(), |_i: int| true));
        lemma_all_delivered_keeps_all(c0);
        assert(c0.push(clients.last()) =~= clients);
    }
}

/// Order per sender: when a sender's `first` is queued before its `second`,
/// with `earlier` queued before both and `between` between them, each
/// dispatch takes one message off the front, and `first`'s frame is
/// dispatched at an earlier step than `second`'s.
pub proof fn lemma_order_per_sender(
    earlier: Seq<Seq<char>>,
    first: Seq<char>,
    between: Seq<Seq<char>>,
    second: Seq<char>,
)
    ensures
        ({
            let queue = earlier.push(first) + between.push(second);
            let at_first = earlier.len() as int;
            let at_second = (earlier.len() + between.len() + 1) as int;
            &&& at_first < at_second
            &&& forall|k: int|
                0 <= k < queue.len() ==> #[trigger] queue.skip(k).drop_first() == queue.skip(k + 1)
            &&& front_frame(queue.skip(at_first)) == front_frame(seq![first])
            &&& front_frame(queue.skip(at_second)) == front_frame(seq![second])
        }),
{
    let queue = earlier.push(first) + between.push(second);
    assert forall|k: int| 0 <= k < queue.len() implies #[trigger] queue.skip(k).drop_first()
        == queue.skip(k + 1) by {
        assert(queue.skip(k).drop_first() =~= queue.skip(k + 1));
    }
    assert(queue.skip(earlier.len() as int)[0] == first);
    assert(queue.skip((earlier.len() + between.len() + 1) as int)[0] == second);
}

/// The client set and the aggregated message queue of a relay. `C` is
/// whatever the caller writes frames to.
pub struct Relay<C> {
    clients: Vec<C>,
    pending: Vec<String>,
}

impl<C> Relay<C> {
    /// The clients that receive broadcasts, oldest first.
    pub closed spec fn clients(&self) -> Seq<C> {
        self.clients@
    }

    /// The messages waiting to be broadcast, oldest first.
    pub closed spec fn pending(&self) -> Seq<Seq<char>> {
        self.pending@.map_values(|s: String| s@)
    }

    /// A relay with no clients and nothing queued.
    pub fn new() -> (r: Self)
        ensures
            r.clients() == Seq::<C>::empty(),
            r.pending() == Seq::<Seq<char>>::empty(),
    {
        let r = Relay { clients: Vec::new(), pending: Vec::new() };
        assert(r.pending() =~= Seq::<Seq<char>>::empty());
        r
    }

    /// Registers a newly accepted client; it receives every later broadcast.
    pub fn connect(&mut self, client: C)
        ensures
            final(self).clients() == old(self).clients().push(client),
            final(self).pending() == old(self).pending(),
    {
        self.clients.push(client);
    }

    /// Queues a message that a reader decoded; it is broadcast after every
    /// message queued before it.
    pub fn submit(&mut self, msg: String)
        ensures
            final(self).pending() == old(self).pending().push(msg@),
            final(self).clients() == old(self).clients(),
    {
        let ghost before = self.pending@;
        self.pending.push(msg);
        assert(self.pending@.map_values(|s: String| s@) =~= before.map_values(
            |s: String| s@,
        ).push(msg@));
    }

    /// Takes the oldest queued message, if any, and returns the frame to
    /// write to every current client. A message too long for a frame is
    /// taken off the queue and reported instead of being sent.
    pub fn next_frame(&mut self) -> (r: Option<Result<Vec<u8>, CodecError>>)
        ensures
            final(self).clients() == old(self).clients(),
            final(self).pending() == if old(self).pending().len() == 0 {
                old(self).pending()
            } else {
                old(self).pending().drop_first()
            },
            match r {
                None => front_frame(old(self).pending()) is None,
                Some(Ok(f)) => front_frame(old(self).pending()) == Some(
                    Ok::<Seq<u8>, CodecError>(f@),
                ),
                Some(Err(e)) => front_frame(old(self).pending()) == Some(
                    Err::<Seq<u8>, CodecError>(e),
                ),
            },
    {
        if self.pending.len() == 0 {
            return None;
        }
        let ghost before = self.pending@;
        let msg = self.pending.remove(0);
        assert(self.pending@.map_values(|s: String| s@) =~= before.map_values(
            |s: String| s@,
        ).drop_first());
        match encode(msg.as_str()) {
            Ok(f) => Some(Ok(f)),
            Err(e) => Some(Err(e)),
        }
    }

    /// Drops the clients whose write of the last frame failed: `delivered[i]`
    /// tells whether the write to the `i`-th client succeeded.
    pub fn retain_delivered(&mut self, delivered: &Vec<bool>)
        requires
            delivered@.len() == old(self).clients().len(),
        ensures
            final(self).clients() == survivors(old(self).clients(), delivered@),
            final(self).pending() == old(self).pending(),
    {
        let ghost start = self.clients@;
        let mut i: usize = 0;
        let mut j: usize = 0;
        while j < delivered.len()
            invariant
                delivered@.len() == start.len(),
                j <= start.len(),
                i == survivors(start.take(j as int), delivered@.take(j as int)).len(),
                self.clients@ == survivors(start.take(j as int), delivered@.take(j as int))
                    + start.skip(j as int),
                self.pending@ == old(self).pending@,
            decreases delivered.len() - j,
        {
            let ghost kept = survivors(start.take(j as int), delivered@.take(j as int));
            assert(start.take(j + 1).drop_last() =~= start.take(j as int));
            assert(delivered@.take(j + 1).drop_last() =~= delivered@.take(j as int));
            if delivered[j] {
                proof {
                    lemma_survivors_len(start.take(j as int), delivered@.take(j as int));
                }
                assert(self.clients@ =~= kept.push(start[j as int]) + start.skip(j + 1));
                i += 1;
            } else {
                self.clients.remove(i);
                assert(self.clients@ =~= kept + start.skip(j + 1));
            }
            j += 1;
        }
        assert(start.take(start.len() as int) =~= start);
        assert(delivered@.take(start.len() as int) =~= delivered@);
        assert(self.clients@ =~= survivors(start, delivered@));
    }

    /// The `i`-th client, for writing a frame to it.
    pub fn client(&self, i: usize) -> (r: &C)
        requires
            i < self.clients().len(),
        ensures
            *r == self.clients()[i as int],
    {
        &self.clients[i]
    }

    /// How many clients receive broadcasts.
    pub fn client_count(&self) -> (r: usize)
        ensures
            r == self.clients().len(),
    {
        self.clients.len()
    }

    /// How many messages wait to be broadcast.
    pub fn pending_count(&self) -> (r: usize)
        ensures
            r == self.pending().len(),
    {
        self.pending.len()
    }
}

} // verus!
