//! Properties of the bridge as a whole, stated over the models of the
//! connection and the registry and proved from them.
use vstd::prelude::*;

use crate::connection::{
    lemma_enqueue_appends, lemma_take_splits, lemma_write_accounting, Leg, ReadEvent, WriteEvent,
};
use crate::registry::{lemma_key_unique, Action, Table};
use crate::session::{next_open, to_client, to_upstream, Event};

verus! {

/// One thing that can happen on the way from leg `a` to leg `b`.
pub enum Move {
    /// A read outcome on `a`.
    Read(ReadEvent),
    /// The oldest inbound message of `a` goes to `b`.
    Forward,
    /// A write outcome on `b`.
    Write(WriteEvent),
}

/// The data bytes a read outcome carries.
pub open spec fn carried(ev: ReadEvent) -> Seq<u8> {
    match ev {
        ReadEvent::Bytes(b) => b@,
        ReadEvent::Frame(op, p) => if op == crate::codec::Opcode::Close {
            Seq::empty()
        } else {
            p@
        },
        _ => Seq::empty(),
    }
}

/// The bytes that a read outcome takes from the stream: none once the
/// connection is closed.
pub open spec fn taken_by(a: Leg, ev: ReadEvent) -> Seq<u8> {
    if a.closed {
        Seq::empty()
    } else {
        carried(ev)
    }
}

/// The bytes read from `a` and not yet written by `b`, in order.
pub open spec fn transit(a: Leg, b: Leg) -> Seq<u8> {
    b.unsent() + a.received()
}

/// The two legs after the oldest inbound message of `a` went to `b`.
pub open spec fn forward(a: Leg, b: Leg) -> (Leg, Leg) {
    if a.read_buffer.len() > 0 {
        (a.after_take(), b.after_enqueue(a.read_buffer[0]))
    } else {
        (a, b)
    }
}

/// One move on the direction from `a` to `b`: the legs after it, the bytes
/// it took from `a`'s stream and the bytes it put on `b`'s stream.
pub open spec fn apply(a: Leg, b: Leg, m: Move) -> (Leg, Leg, Seq<u8>, Seq<u8>) {
    match m {
        Move::Read(ev) => (a.after_read(ev), b, taken_by(a, ev), Seq::empty()),
        Move::Forward => (forward(a, b).0, forward(a, b).1, Seq::empty(), Seq::empty()),
        Move::Write(ev) => (a, b.after_write(ev), Seq::empty(), b.sent_by(ev)),
    }
}

/// Plays moves on the direction from `a` to `b`; gives the final legs, the
/// bytes taken from `a`'s stream and the bytes put on `b`'s stream.
pub open spec fn run(a: Leg, b: Leg, moves: Seq<Move>) -> (Leg, Leg, Seq<u8>, Seq<u8>)
    decreases moves.len(),
{
    if moves.len() == 0 {
        (a, b, Seq::empty(), Seq::empty())
    } else {
        let (a1, b1, t1, d1) = apply(a, b, moves[0]);
        let (a2, b2, t2, d2) = run(a1, b1, moves.drop_first());
        (a2, b2, t1 + t2, d1 + d2)
    }
}

/// A read outcome keeps a connection well formed and appends what it took
/// to the received bytes.
pub proof fn lemma_read_appends(a: Leg, ev: ReadEvent)
    requires
        a.wf(),
    ensures
        a.after_read(ev).wf(),
        a.after_read(ev).received() == a.received() + taken_by(a, ev),
        a.after_read(ev).id == a.id && a.after_read(ev).peer_id == a.peer_id,
        a.after_read(ev).side == a.side,
        a.closed ==> a.after_read(ev).closed,
{
    let n = a.after_read(ev);
    if !a.closed {
        match ev {
            ReadEvent::WouldBlock => {
                if a.gathered.len() > 0 {
                    a.read_buffer.lemma_flatten_push(a.gathered);
                    assert forall|i: int| 0 <= i < n.read_buffer.len() implies #[trigger] n.read_buffer[i].len() > 0 by {
                        if i < a.read_buffer.len() {
                            assert(n.read_buffer[i] == a.read_buffer[i]);
                        }
                    }
                }
            },
            _ => {},
        }
    }
    assert(n.received() =~= a.received() + taken_by(a, ev));
}

/// Handing a message to the peer keeps both legs well formed and moves no
/// byte out of order.
pub proof fn lemma_forward_keeps_transit(a: Leg, b: Leg)
    requires
        a.wf(),
        b.wf(),
        !b.closed,
    ensures
        forward(a, b).0.wf(),
        forward(a, b).1.wf(),
        !forward(a, b).1.closed,
        transit(forward(a, b).0, forward(a, b).1) == transit(a, b),
{
    if a.read_buffer.len() > 0 {
        let m = a.read_buffer[0];
        let (a1, b1) = forward(a, b);
        lemma_take_splits(a);
        lemma_enqueue_appends(b, m);
        assert forall|i: int| 0 <= i < a1.read_buffer.len() implies #[trigger] a1.read_buffer[i].len() > 0 by {
            assert(a1.read_buffer[i] == a.read_buffer[i + 1]);
        }
        assert forall|i: int| 0 <= i < b1.write_queue.len() implies #[trigger] b1.write_queue[i].len() > 0 by {
            if i < b.write_queue.len() {
                assert(b1.write_queue[i] == b.write_queue[i]);
            }
        }
        assert(transit(a1, b1) =~= transit(a, b));
    }
}

/// Order preservation: whatever the moves, and however the streams split
/// the bytes into reads and writes, the bytes taken from `a` come out of `b`
/// in the same order, with nothing lost or repeated: what went in, after
/// what was already in transit, equals what came out followed by what is
/// still in transit, for as long as `b` is open.
pub proof fn lemma_order_preserved(a: Leg, b: Leg, moves: Seq<Move>)
    requires
        a.wf(),
        b.wf(),
    ensures
        ({
            let (a2, b2, taken, delivered) = run(a, b, moves);
            &&& a2.wf()
            &&& b2.wf()
            &&& (b.closed ==> b2.closed)
            &&& (!b2.closed ==> transit(a, b) + taken == delivered + transit(a2, b2))
        }),
    decreases moves.len(),
{
    if moves.len() > 0 {
        let (a1, b1, t1, d1) = apply(a, b, moves[0]);
        lemma_move(a, b, moves[0]);
        lemma_order_preserved(a1, b1, moves.drop_first());
        let (a2, b2, t2, d2) = run(a1, b1, moves.drop_first());
        if !b2.closed {
            let x = transit(a, b);
            let y = transit(a1, b1);
            let z = transit(a2, b2);
            assert(x + (t1 + t2) =~= (x + t1) + t2);
            assert((d1 + y) + t2 =~= d1 + (y + t2));
            assert(d1 + (d2 + z) =~= (d1 + d2) + z);
        }
    }
}

/// One move keeps both legs well formed, never reopens `b`, and keeps the
/// bytes in transit in order.
proof fn lemma_move(a: Leg, b: Leg, m: Move)
    requires
        a.wf(),
        b.wf(),
    ensures
        ({
            let (a1, b1, t1, d1) = apply(a, b, m);
            &&& a1.wf()
            &&& b1.wf()
            &&& (b.closed ==> b1.closed)
            &&& (!b1.closed ==> transit(a, b) + t1 == d1 + transit(a1, b1))
        }),
{
    let (a1, b1, t1, d1) = apply(a, b, m);
    match m {
        Move::Read(ev) => {
            lemma_read_appends(a, ev);
        },
        Move::Forward => {
            if !b.closed {
                lemma_forward_keeps_transit(a, b);
            } else if a.read_buffer.len() > 0 {
                assert forall|i: int| 0 <= i < a1.read_buffer.len() implies #[trigger] a1.read_buffer[i].len() > 0 by {
                    assert(a1.read_buffer[i] == a.read_buffer[i + 1]);
                }
            }
        },
        Move::Write(ev) => {
            lemma_write_accounting(b, ev);
        },
    }
    if !b1.closed {
        assert(transit(a, b) + t1 =~= d1 + transit(a1, b1));
    }
}

/// Pairing atomicity: in a well-formed registry every registered leg's
/// peer is registered too, is another leg, and has it as its own peer.
pub proof fn lemma_pairing_atomic(t: Table, id: u64)
    requires
        t.wf(),
        t.has(id),
    ensures
        t.has(t.leg(id).peer_id),
        t.leg(id).peer_id != id,
        t.leg(t.leg(id).peer_id).peer_id == id,
{
    let k = t.key_of(id);
    let p = t.pairs[k];
    assert(p.wf());
    let peer = t.leg(id).peer_id;
    assert(p.holds(peer));
    lemma_key_unique(t, peer, k);
}

/// Cascading teardown: once a leg of a registered pair is closed, the next
/// settle of either leg removes both legs and drops both endpoints.
pub proof fn lemma_teardown(t: Table, id: u64)
    requires
        t.wf(),
        t.has(id),
        t.leg(id).closed || t.leg(t.leg(id).peer_id).closed,
    ensures
        !t.after_settle(id).has(id),
        !t.after_settle(id).has(t.leg(id).peer_id),
        t.after_settle(id).wf(),
        t.settle_actions(id) == seq![Action::Drop(t.link(id).client.id), Action::Drop(t.link(id).upstream.id)],
{
    let k = t.key_of(id);
    let p = t.pairs[k];
    assert(p.wf());
    let peer = t.leg(id).peer_id;
    assert(p.holds(peer));
    lemma_key_unique(t, peer, k);
    assert(p.closing());
    crate::registry::lemma_remove_pair(t, k);
}

/// A read outcome that ends the stream (zero bytes, a close frame, a
/// failure) closes the leg, so the pass that follows tears its pair down.
pub proof fn lemma_read_end_tears_down(t: Table, id: u64, ev: ReadEvent)
    requires
        t.wf(),
        t.has(id),
        !t.leg(id).closed,
        match ev {
            ReadEvent::Bytes(b) => b@.len() == 0,
            ReadEvent::Frame(op, _) => op == crate::codec::Opcode::Close,
            ReadEvent::Failed => true,
            _ => false,
        },
    ensures
        ({
            let t1 = t.after_read(id, ev);
            &&& t1.wf()
            &&& t1.has(id)
            &&& t1.leg(id).closed
            &&& !t1.after_settle(id).has(id)
            &&& !t1.after_settle(id).has(t.leg(id).peer_id)
        }),
{
    let k = t.key_of(id);
    let p = t.pairs[k];
    assert(p.wf());
    let l1 = p.leg(id).after_read(ev);
    let closed_pair = p.with_legs(id, l1, p.peer(id));
    crate::registry::lemma_replace_pair(t, k, closed_pair);
    let t1 = t.after_read(id, ev);
    assert(t1.pairs[k] == closed_pair);
    lemma_key_unique(t1, id, k);
    lemma_teardown(t1, id);
}

/// Isolation: reads, writes and settles on one leg leave every pair that
/// does not hold that leg in place and unchanged.
pub proof fn lemma_isolation(t: Table, id: u64, rev: ReadEvent, wev: WriteEvent, k: u64)
    requires
        t.wf(),
        t.pairs.contains_key(k),
        !t.pairs[k].holds(id),
    ensures
        t.after_read(id, rev).pairs.contains_key(k),
        t.after_read(id, rev).pairs[k] == t.pairs[k],
        t.after_write(id, wev).pairs.contains_key(k),
        t.after_write(id, wev).pairs[k] == t.pairs[k],
        t.after_settle(id).pairs.contains_key(k),
        t.after_settle(id).pairs[k] == t.pairs[k],
{
    if t.has(id) {
        let j = t.key_of(id);
        assert(j != k);
    }
}

/// The registry's operations on a pair are the moves of its legs: a read or
/// a write outcome on leg `id` changes that leg alone as the leg's own model
/// says, and settling an open pair forwards from `id` to its peer as
/// `forward` says. So order preservation holds of the registry's traffic.
pub proof fn lemma_cluster_moves(t: Table, id: u64, rev: ReadEvent, wev: WriteEvent)
    requires
        t.wf(),
        t.has(id),
    ensures
        ({
            let peer = t.leg(id).peer_id;
            let tr = t.after_read(id, rev);
            let tw = t.after_write(id, wev);
            let ts = t.after_settle(id);
            &&& tr.has(id) && tr.has(peer)
            &&& tr.leg(id) == t.leg(id).after_read(rev)
            &&& tr.leg(peer) == t.leg(peer)
            &&& tw.has(id) && tw.has(peer)
            &&& tw.leg(id) == t.leg(id).after_write(wev)
            &&& tw.leg(peer) == t.leg(peer)
            &&& (!t.link(id).closing() ==> ts.has(id) && ts.has(peer) && (ts.leg(id), ts.leg(peer))
                == forward(t.leg(id), t.leg(peer)))
        }),
{
    let k = t.key_of(id);
    let p = t.pairs[k];
    assert(p.wf());
    let peer = t.leg(id).peer_id;
    assert(p.holds(peer));
    lemma_key_unique(t, peer, k);

    let pr = p.with_legs(id, p.leg(id).after_read(rev), p.peer(id));
    crate::registry::lemma_replace_pair(t, k, pr);
    let tr = t.after_read(id, rev);
    assert(tr.pairs[k] == pr);
    lemma_key_unique(tr, id, k);
    lemma_key_unique(tr, peer, k);

    let pw = p.with_legs(id, p.leg(id).after_write(wev), p.peer(id));
    lemma_write_accounting(p.leg(id), wev);
    crate::registry::lemma_replace_pair(t, k, pw);
    let tw = t.after_write(id, wev);
    assert(tw.pairs[k] == pw);
    lemma_key_unique(tw, id, k);
    lemma_key_unique(tw, peer, k);

    if !p.closing() {
        let pf = p.forward_from(id);
        lemma_forward_keeps_transit(p.leg(id), p.peer(id));
        crate::registry::lemma_replace_pair(t, k, pf);
        let ts = t.after_settle(id);
        assert(ts.pairs[k] == pf);
        lemma_key_unique(ts, id, k);
        lemma_key_unique(ts, peer, k);
    }
}

/// A whole read pass: the read outcomes in order.
pub open spec fn read_all(a: Leg, evs: Seq<ReadEvent>) -> Leg
    decreases evs.len(),
{
    if evs.len() == 0 {
        a
    } else {
        read_all(a.after_read(evs[0]), evs.drop_first())
    }
}

/// The bytes the read outcomes carry, in order.
pub open spec fn read_bytes(evs: Seq<ReadEvent>) -> Seq<u8>
    decreases evs.len(),
{
    if evs.len() == 0 {
        Seq::empty()
    } else {
        carried(evs[0]) + read_bytes(evs.drop_first())
    }
}

/// An outcome that neither ends the stream nor ends the pass: bytes, a
/// data frame, or an interrupt.
pub open spec fn keeps_reading(ev: ReadEvent) -> bool {
    match ev {
        ReadEvent::Bytes(b) => b@.len() > 0,
        ReadEvent::Frame(op, _) => op != crate::codec::Opcode::Close,
        ReadEvent::Interrupted => true,
        _ => false,
    }
}

/// Reads that neither end the stream nor the pass only gather bytes, in
/// the order they arrive.
pub proof fn lemma_read_gathers(a: Leg, evs: Seq<ReadEvent>)
    requires
        a.wf(),
        !a.closed,
        forall|i: int| 0 <= i < evs.len() ==> keeps_reading(#[trigger] evs[i]),
    ensures
        read_all(a, evs) == (Leg { gathered: a.gathered + read_bytes(evs), ..a }),
    decreases evs.len(),
{
    if evs.len() == 0 {
        assert(a.gathered + read_bytes(evs) =~= a.gathered);
    } else {
        let a1 = a.after_read(evs[0]);
        assert(keeps_reading(evs[0]));
        assert(forall|i: int| 0 <= i < evs.drop_first().len() ==> evs.drop_first()[i] == evs[i + 1]);
        assert(a1 == (Leg { gathered: a.gathered + taken_by(a, evs[0]), ..a }));
        lemma_read_gathers(a1, evs.drop_first());
        assert(a1.gathered + read_bytes(evs.drop_first()) =~= a.gathered + read_bytes(evs));
    }
}

/// A read pass that starts with nothing gathered, takes some bytes
/// (with interrupts anywhere) and ends on would-block adds exactly one
/// inbound message: every byte it read, in arrival order.
pub proof fn lemma_read_pass(a: Leg, evs: Seq<ReadEvent>)
    requires
        a.wf(),
        !a.closed,
        a.gathered.len() == 0,
        forall|i: int| 0 <= i < evs.len() ==> keeps_reading(#[trigger] evs[i]),
        read_bytes(evs).len() > 0,
    ensures
        read_all(a, evs).after_read(ReadEvent::WouldBlock) == (Leg {
            read_buffer: a.read_buffer.push(read_bytes(evs)),
            gathered: Seq::empty(),
            ..a
        }),
{
    lemma_read_gathers(a, evs);
    assert(a.gathered + read_bytes(evs) =~= read_bytes(evs));
}

/// Queues the payloads in order.
pub open spec fn enqueue_all(l: Leg, data: Seq<Seq<u8>>) -> Leg
    decreases data.len(),
{
    if data.len() == 0 {
        l
    } else {
        enqueue_all(l.after_enqueue(data[0]), data.drop_first())
    }
}

/// Payloads queued on an open connection go out after what was already
/// queued, in the order they were queued, each exactly once.
pub proof fn lemma_enqueue_in_order(l: Leg, data: Seq<Seq<u8>>)
    requires
        l.wf(),
        !l.closed,
    ensures
        enqueue_all(l, data).wf(),
        !enqueue_all(l, data).closed,
        enqueue_all(l, data).unsent() == l.unsent() + data.flatten(),
    decreases data.len(),
{
    if data.len() == 0 {
        assert(l.unsent() + data.flatten() =~= l.unsent());
    } else {
        let l1 = l.after_enqueue(data[0]);
        lemma_enqueue_appends(l, data[0]);
        assert forall|i: int| 0 <= i < l1.write_queue.len() implies #[trigger] l1.write_queue[i].len() > 0 by {
            if i < l.write_queue.len() {
                assert(l1.write_queue[i] == l.write_queue[i]);
            }
        }
        lemma_enqueue_in_order(l1, data.drop_first());
        assert(data.flatten() == data[0] + data.drop_first().flatten());
        assert(l.unsent() + data[0] + data.drop_first().flatten() =~= l.unsent() + data.flatten());
    }
}

/// A write that takes the whole pending part sends exactly what is left
/// of the first queued payload (the whole payload when none of it was
/// sent yet) and drops it from the front of the queue.
pub proof fn lemma_flush_first(l: Leg, k: usize)
    requires
        l.wf(),
        !l.closed,
        l.write_queue.len() > 0,
        k >= l.pending().len(),
    ensures
        l.sent_by(WriteEvent::Sent(k)) == l.write_queue[0].subrange(l.written as int, l.write_queue[0].len() as int),
        l.written == 0 ==> l.sent_by(WriteEvent::Sent(k)) == l.write_queue[0],
        l.after_write(WriteEvent::Sent(k)).write_queue == l.write_queue.drop_first(),
        !l.after_write(WriteEvent::Sent(k)).closed,
{
    assert(l.write_queue[0].subrange(0, l.write_queue[0].len() as int) =~= l.write_queue[0]);
}

/// Plays events on a pair's session from the given state; gives whether
/// the pair is still open, the bytes written to the upstream and the
/// payload sent to the client.
pub open spec fn run_session(open: bool, evs: Seq<Event>) -> (bool, Seq<u8>, Seq<u8>)
    decreases evs.len(),
{
    if evs.len() == 0 {
        (open, Seq::empty(), Seq::empty())
    } else {
        let (o, up, down) = run_session(next_open(open, evs[0]), evs.drop_first());
        (o, to_upstream(open, evs[0]) + up, to_client(open, evs[0]) + down)
    }
}

/// An event that carries data and ends nothing: a client frame other than
/// close, or a non-empty upstream read.
pub open spec fn carries_data(ev: Event) -> bool {
    match ev {
        Event::ClientFrame(op, _) => op != crate::codec::Opcode::Close,
        Event::UpstreamRead(b) => b@.len() > 0,
        _ => false,
    }
}

/// The client's data payloads, in order.
pub open spec fn client_payloads(evs: Seq<Event>) -> Seq<u8>
    decreases evs.len(),
{
    if evs.len() == 0 {
        Seq::empty()
    } else {
        to_upstream(true, evs[0]) + client_payloads(evs.drop_first())
    }
}

/// The bytes the upstream sent, in order.
pub open spec fn upstream_payloads(evs: Seq<Event>) -> Seq<u8>
    decreases evs.len(),
{
    if evs.len() == 0 {
        Seq::empty()
    } else {
        to_client(true, evs[0]) + upstream_payloads(evs.drop_first())
    }
}

/// Order preservation in the task-based variant: while no event ends the
/// pair, the upstream receives exactly the client's payloads, and the
/// client exactly the upstream's bytes, each in order; and a close frame
/// after them ends the pair without writing anything more.
pub proof fn lemma_session_order(evs: Seq<Event>, last: Event)
    requires
        forall|i: int| 0 <= i < evs.len() ==> carries_data(#[trigger] evs[i]),
    ensures
        run_session(true, evs) == (true, client_payloads(evs), upstream_payloads(evs)),
        last matches Event::ClientFrame(op, _) && op == crate::codec::Opcode::Close ==> run_session(true, evs.push(last))
            == (false, client_payloads(evs), upstream_payloads(evs)),
    decreases evs.len(),
{
    if evs.len() == 0 {
        let one = seq![last];
        assert(evs.push(last) =~= one);
        assert(one.drop_first() =~= Seq::<Event>::empty());
        assert(run_session(false, one.drop_first()) == (false, Seq::<u8>::empty(), Seq::<u8>::empty()));
        if last matches Event::ClientFrame(op, _) && op == crate::codec::Opcode::Close {
            assert(to_upstream(true, last) =~= Seq::<u8>::empty() + Seq::<u8>::empty());
            assert(to_client(true, last) =~= Seq::<u8>::empty() + Seq::<u8>::empty());
        }
    } else {
        let rest = evs.drop_first();
        assert(carries_data(evs[0]));
        assert forall|i: int| 0 <= i < rest.len() implies carries_data(#[trigger] rest[i]) by {
            assert(rest[i] == evs[i + 1]);
        }
        lemma_session_order(rest, last);
        assert(evs.push(last).drop_first() =~= rest.push(last));
        assert(evs.push(last)[0] == evs[0]);
    }
}

} // verus!
