//! One leg of a pair: a byte stream (or WebSocket) with its inbound buffer,
//! its outbound queue and its closed flag.
//!
//! The caller performs each I/O call and hands its outcome to the
//! connection, which says whether to call again (`Step::Again`) or to stop
//! until the next readiness event (`Step::Stop`).
use vstd::prelude::*;

use crate::codec::Opcode;

verus! {

/// Which side of a pair a connection stands on.
#[derive(Clone, Copy, Debug, PartialEq, Eq, Structural)]
pub enum Side {
    Client,
    Upstream,
}

/// The outcome of one read call on a connection's endpoint.
pub enum ReadEvent {
    /// A read on a byte stream returned these bytes; none means the peer
    /// shut down its write side.
    Bytes(Vec<u8>),
    /// A whole frame arrived on a WebSocket.
    Frame(Opcode, Vec<u8>),
    /// The endpoint has nothing more to give for now.
    WouldBlock,
    /// The call was interrupted by a signal.
    Interrupted,
    /// Any other failure.
    Failed,
}

/// The outcome of one write call on a connection's endpoint.
pub enum WriteEvent {
    /// The endpoint accepted this many bytes of the pending data.
    Sent(usize),
    WouldBlock,
    Interrupted,
    Failed,
}

/// What the caller does after handing an outcome in.
#[derive(Clone, Copy, Debug, PartialEq, Eq, Structural)]
pub enum Step {
    /// Make the same kind of call again.
    Again,
    /// Stop until the next readiness event.
    Stop,
}

/// The readiness a connection waits for.
#[derive(Clone, Copy, Debug, PartialEq, Eq, Structural)]
pub enum Interest {
    Readable,
    Writable,
}

/// The mathematical model of a connection.
pub struct Leg {
    pub id: u64,
    pub peer_id: u64,
    pub side: Side,
    /// Inbound messages not yet handed to the peer, oldest first.
    pub read_buffer: Seq<Seq<u8>>,
    /// Outbound payloads not yet fully written, oldest first.
    pub write_queue: Seq<Seq<u8>>,
    /// How many bytes of the first queued payload were already written.
    pub written: nat,
    /// Bytes gathered by the read pass in progress.
    pub gathered: Seq<u8>,
    pub closed: bool,
}

pub open spec fn chunks(q: Seq<Vec<u8>>) -> Seq<Seq<u8>> {
    q.map_values(|v: Vec<u8>| v@)
}

impl Leg {
    pub open spec fn wf(self) -> bool {
        &&& (self.write_queue.len() == 0 ==> self.written == 0)
        &&& (self.write_queue.len() > 0 ==> self.written < self.write_queue[0].len())
        &&& forall|i: int| 0 <= i < self.write_queue.len() ==> #[trigger] self.write_queue[i].len() > 0
        &&& forall|i: int| 0 <= i < self.read_buffer.len() ==> #[trigger] self.read_buffer[i].len() > 0
    }

    /// The unwritten part of the first queued payload: what the next write
    /// call is given. A closed connection is given nothing more to write.
    pub open spec fn pending(self) -> Seq<u8> {
        if self.closed || self.write_queue.len() == 0 {
            Seq::empty()
        } else {
            self.write_queue[0].subrange(self.written as int, self.write_queue[0].len() as int)
        }
    }

    /// Every queued byte not yet written, in the order it goes out.
    pub open spec fn unsent(self) -> Seq<u8> {
        if self.write_queue.len() == 0 {
            Seq::empty()
        } else {
            self.write_queue[0].subrange(self.written as int, self.write_queue[0].len() as int)
                + self.write_queue.drop_first().flatten()
        }
    }

    /// Every byte read and not yet handed to the peer, oldest first.
    pub open spec fn received(self) -> Seq<u8> {
        self.read_buffer.flatten() + self.gathered
    }

    pub open spec fn close(self) -> Leg {
        Leg { closed: true, ..self }
    }

    /// The connection after one read outcome.
    pub open spec fn after_read(self, ev: ReadEvent) -> Leg {
        if self.closed {
            self
        } else {
            match ev {
                ReadEvent::Bytes(b) => if b@.len() == 0 {
                    self.close()
                } else {
                    Leg { gathered: self.gathered + b@, ..self }
                },
                ReadEvent::Frame(op, p) => if op == Opcode::Close {
                    self.close()
                } else {
                    Leg { gathered: self.gathered + p@, ..self }
                },
                ReadEvent::WouldBlock => if self.gathered.len() > 0 {
                    Leg {
                        read_buffer: self.read_buffer.push(self.gathered),
                        gathered: Seq::empty(),
                        ..self
                    }
                } else {
                    self
                },
                ReadEvent::Interrupted => self,
                ReadEvent::Failed => self.close(),
            }
        }
    }

    /// Whether the read pass goes on after this outcome.
    pub open spec fn read_again(self, ev: ReadEvent) -> bool {
        !self.closed && match ev {
            ReadEvent::Bytes(b) => b@.len() > 0,
            ReadEvent::Frame(op, _) => op != Opcode::Close,
            ReadEvent::Interrupted => true,
            _ => false,
        }
    }

    /// The connection after one write outcome. A failure closes it whether or
    /// not anything is queued; a write of zero bytes closes it only while
    /// data is pending. An endpoint that accepts the whole pending part (or
    /// claims more) has flushed the first payload.
    pub open spec fn after_write(self, ev: WriteEvent) -> Leg {
        if self.closed {
            self
        } else {
            match ev {
                WriteEvent::Sent(k) => if self.write_queue.len() == 0 {
                    self
                } else if k == 0 {
                    self.close()
                } else if k < self.pending().len() {
                    Leg { written: (self.written + k) as nat, ..self }
                } else {
                    Leg { write_queue: self.write_queue.drop_first(), written: 0, ..self }
                },
                WriteEvent::WouldBlock => self,
                WriteEvent::Interrupted => self,
                WriteEvent::Failed => self.close(),
            }
        }
    }

    /// Whether the write pass goes on after this outcome.
    pub open spec fn write_again(self, ev: WriteEvent) -> bool {
        !self.closed && self.write_queue.len() > 0 && match ev {
            WriteEvent::Sent(k) => 0 < k < self.pending().len(),
            WriteEvent::Interrupted => true,
            _ => false,
        }
    }

    /// The bytes that one write outcome put on the wire.
    pub open spec fn sent_by(self, ev: WriteEvent) -> Seq<u8> {
        if self.closed || self.write_queue.len() == 0 {
            Seq::empty()
        } else {
            match ev {
                WriteEvent::Sent(k) => if k < self.pending().len() {
                    self.pending().subrange(0, k as int)
                } else {
                    self.pending()
                },
                _ => Seq::empty(),
            }
        }
    }

    /// The connection after a payload was queued for it. A closed
    /// connection takes nothing more; an empty payload adds nothing.
    pub open spec fn after_enqueue(self, data: Seq<u8>) -> Leg {
        if self.closed || data.len() == 0 {
            self
        } else {
            Leg { write_queue: self.write_queue.push(data), ..self }
        }
    }

    /// The connection after the oldest inbound message was taken out.
    pub open spec fn after_take(self) -> Leg {
        if self.read_buffer.len() == 0 {
            self
        } else {
            Leg { read_buffer: self.read_buffer.drop_first(), ..self }
        }
    }

    pub open spec fn interest(self) -> Interest {
        if self.write_queue.len() > 0 {
            Interest::Writable
        } else {
            Interest::Readable
        }
    }
}

/// One leg of a pair.
pub struct Connection {
    pub id: u64,
    pub peer_id: u64,
    pub side: Side,
    pub read_buffer: Vec<Vec<u8>>,
    pub write_queue: Vec<Vec<u8>>,
    pub written: usize,
    pub gathered: Vec<u8>,
    pub closed: bool,
}

impl View for Connection {
    type V = Leg;

    open spec fn view(&self) -> Leg {
        Leg {
            id: self.id,
            peer_id: self.peer_id,
            side: self.side,
            read_buffer: chunks(self.read_buffer@),
            write_queue: chunks(self.write_queue@),
            written: self.written as nat,
            gathered: self.gathered@,
            closed: self.closed,
        }
    }
}

impl Connection {
    /// A fresh open connection with nothing buffered.
    pub fn new(id: u64, peer_id: u64, side: Side) -> (r: Connection)
        ensures
            r@ == (Leg {
                id,
                peer_id,
                side,
                read_buffer: Seq::empty(),
                write_queue: Seq::empty(),
                written: 0,
                gathered: Seq::empty(),
                closed: false,
            }),
            r@.wf(),
    {
        let r = Connection {
            id,
            peer_id,
            side,
            read_buffer: Vec::new(),
            write_queue: Vec::new(),
            written: 0,
            gathered: Vec::new(),
            closed: false,
        };
        assert(r@.read_buffer =~= Seq::empty());
        assert(r@.write_queue =~= Seq::empty());
        r
    }

    /// Hands in the outcome of one read call. Bytes are gathered until the
    /// endpoint would block, and then become one inbound message; a read of
    /// zero bytes, a close frame or a failure closes the connection.
    pub fn try_read(&mut self, ev: ReadEvent) -> (r: Step)
        requires
            old(self)@.wf(),
        ensures
            final(self)@ == old(self)@.after_read(ev),
            final(self)@.wf(),
            (r == Step::Again) == old(self)@.read_again(ev),
            // a shut-down peer closes the connection and forwards nothing
            !old(self)@.closed && ev is Bytes && ev->Bytes_0@.len() == 0 ==> final(self)@.closed
                && final(self)@.received() == old(self)@.received(),
    {
        if self.closed {
            return Step::Stop;
        }
        match ev {
            ReadEvent::Bytes(mut b) => {
                if b.len() == 0 {
                    self.closed = true;
                    Step::Stop
                } else {
                    self.gathered.append(&mut b);
                    Step::Again
                }
            },
            ReadEvent::Frame(op, mut p) => {
                if matches!(op, Opcode::Close) {
                    self.closed = true;
                    Step::Stop
                } else {
                    self.gathered.append(&mut p);
                    Step::Again
                }
            },
            ReadEvent::WouldBlock => {
                if self.gathered.len() > 0 {
                    let mut message: Vec<u8> = Vec::new();
                    message.append(&mut self.gathered);
                    let ghost before = self.read_buffer@;
                    self.read_buffer.push(message);
                    assert(chunks(self.read_buffer@) =~= chunks(before).push(message@));
                }
                Step::Stop
            },
            ReadEvent::Interrupted => Step::Again,
            ReadEvent::Failed => {
                self.closed = true;
                Step::Stop
            },
        }
    }
}


impl Connection {
    /// The unwritten part of the first queued payload: what the next write
    /// call is to be given.
    pub fn pending(&self) -> (r: &[u8])
        requires
            self@.wf(),
        ensures
            r@ == self@.pending(),
            self@.closed ==> r@.len() == 0,
    {
        if self.closed || self.write_queue.len() == 0 {
            let empty: &[u8] = &[];
            assert(empty@ =~= Seq::<u8>::empty());
            empty
        } else {
            let first: &[u8] = self.write_queue[0].as_slice();
            vstd::slice::slice_subrange(first, self.written, first.len())
        }
    }

    /// Hands in the outcome of one write call made with `pending()` (or of a
    /// flush of bytes the endpoint already took). A short write is resumed
    /// from the first byte not taken; a write that takes no byte while data
    /// is pending closes the connection, and so does any failure.
    pub fn try_write(&mut self, ev: WriteEvent) -> (r: Step)
        requires
            old(self)@.wf(),
        ensures
            final(self)@ == old(self)@.after_write(ev),
            final(self)@.wf(),
            (r == Step::Again) == old(self)@.write_again(ev),
            old(self)@.unsent() == old(self)@.sent_by(ev) + final(self)@.unsent(),
            // a failure is fatal even with nothing queued
            !old(self)@.closed && ev is Failed ==> final(self)@.closed,
    {
        proof {
            lemma_write_accounting(self@, ev);
        }
        if self.closed {
            return Step::Stop;
        }
        match ev {
            WriteEvent::Sent(k) => {
                if self.write_queue.len() == 0 {
                    return Step::Stop;
                }
                let remaining = self.write_queue[0].len() - self.written;
                if k == 0 {
                    self.closed = true;
                    Step::Stop
                } else if k < remaining {
                    self.written = self.written + k;
                    Step::Again
                } else {
                    let ghost before = self.write_queue@;
                    let _flushed = self.write_queue.remove(0);
                    self.written = 0;
                    assert(chunks(self.write_queue@) =~= chunks(before).drop_first());
                    Step::Stop
                }
            },
            WriteEvent::WouldBlock => Step::Stop,
            WriteEvent::Interrupted => if self.write_queue.len() == 0 {
                Step::Stop
            } else {
                Step::Again
            },
            WriteEvent::Failed => {
                self.closed = true;
                Step::Stop
            },
        }
    }

    /// Queues a payload for writing, behind those already queued.
    pub fn enqueue(&mut self, data: Vec<u8>)
        requires
            old(self)@.wf(),
        ensures
            final(self)@ == old(self)@.after_enqueue(data@),
            final(self)@.wf(),
    {
        if !self.closed && data.len() > 0 {
            let ghost before = self.write_queue@;
            self.write_queue.push(data);
            assert(chunks(self.write_queue@) =~= chunks(before).push(data@));
        }
    }

    /// Takes out the oldest inbound message, if there is one.
    pub fn take_received(&mut self) -> (r: Option<Vec<u8>>)
        requires
            old(self)@.wf(),
        ensures
            final(self)@ == old(self)@.after_take(),
            final(self)@.wf(),
            r is Some <==> old(self)@.read_buffer.len() > 0,
            r is Some ==> r->Some_0@ == old(self)@.read_buffer[0] && r->Some_0@.len() > 0,
    {
        if self.read_buffer.len() == 0 {
            None
        } else {
            let ghost before = self.read_buffer@;
            let first = self.read_buffer.remove(0);
            assert(chunks(self.read_buffer@) =~= chunks(before).drop_first());
            assert(chunks(before)[0] == first@);
            assert(chunks(before)[0].len() > 0);
            Some(first)
        }
    }

    /// The readiness to wait for next: writable while anything is queued,
    /// readable otherwise.
    pub fn interest(&self) -> (r: Interest)
        ensures
            r == self@.interest(),
    {
        if self.write_queue.len() > 0 {
            Interest::Writable
        } else {
            Interest::Readable
        }
    }
}

/// Each write outcome puts a prefix of the unsent bytes on the wire and
/// leaves exactly the rest unsent: a short write resumes from the first
/// byte not taken, with nothing dropped or repeated.
pub proof fn lemma_write_accounting(l: Leg, ev: WriteEvent)
    requires
        l.wf(),
    ensures
        l.unsent() == l.sent_by(ev) + l.after_write(ev).unsent(),
        l.after_write(ev).wf(),
{
    let n = l.after_write(ev);
    if l.closed || l.write_queue.len() == 0 {
        assert(l.unsent() =~= l.sent_by(ev) + n.unsent());
    } else {
        let p = l.pending();
        let rest = l.write_queue.drop_first().flatten();
        match ev {
            WriteEvent::Sent(k) => {
                if k == 0 {
                    assert(l.sent_by(ev) =~= Seq::<u8>::empty());
                    assert(l.unsent() =~= l.sent_by(ev) + n.unsent());
                } else if k < p.len() {
                    assert(n.pending() =~= p.subrange(k as int, p.len() as int));
                    assert(p =~= p.subrange(0, k as int) + p.subrange(k as int, p.len() as int));
                    assert(l.unsent() =~= l.sent_by(ev) + n.unsent());
                } else {
                    let q = l.write_queue.drop_first();
                    assert forall|i: int| 0 <= i < q.len() implies #[trigger] q[i].len() > 0 by {
                        assert(q[i] == l.write_queue[i + 1]);
                    }
                    if q.len() > 0 {
                        assert(q[0].subrange(0, q[0].len() as int) =~= q[0]);
                        assert(q.flatten() == q.first() + q.drop_first().flatten());
                    }
                    assert(n.unsent() =~= rest);
                    assert(l.unsent() =~= l.sent_by(ev) + n.unsent());
                }
            },
            _ => {
                assert(l.unsent() =~= l.sent_by(ev) + n.unsent());
            },
        }
    }
}

/// Queuing a payload on an open connection appends it to the unsent bytes.
pub proof fn lemma_enqueue_appends(l: Leg, data: Seq<u8>)
    requires
        l.wf(),
        !l.closed,
    ensures
        l.after_enqueue(data).unsent() == l.unsent() + data,
{
    let n = l.after_enqueue(data);
    if data.len() == 0 {
        assert(l.unsent() + data =~= l.unsent());
    } else if l.write_queue.len() == 0 {
        assert(n.write_queue.drop_first() =~= Seq::<Seq<u8>>::empty());
        assert(n.unsent() =~= l.unsent() + data);
    } else {
        let q = l.write_queue.drop_first();
        assert(n.write_queue.drop_first() =~= q.push(data));
        q.lemma_flatten_push(data);
        assert(n.unsent() =~= l.unsent() + data);
    }
}

/// Taking out the oldest inbound message removes it from the front of the
/// received bytes.
pub proof fn lemma_take_splits(l: Leg)
    requires
        l.read_buffer.len() > 0,
    ensures
        l.received() == l.read_buffer[0] + l.after_take().received(),
{
    let rb = l.read_buffer;
    assert(rb.flatten() == rb.first() + rb.drop_first().flatten());
    assert(l.received() =~= l.read_buffer[0] + l.after_take().received());
}

} // verus!
