//! The event-stream subscription: composing the streaming request path and
//! cutting the daemon's push feed into newline-delimited frames. The caller
//! performs the I/O and hands every received chunk in; a frame is delivered
//! as soon as its closing newline arrives.
use crate::opts::EventsOpts;
use crate::query::ascii_chars_of;
use crate::query::query_bytes;
use vstd::prelude::*;

verus! {

/// The newline byte that closes a frame.
pub open spec fn newline() -> u8 {
    0x0a
}

/// A byte sequence with no frame boundary inside.
pub open spec fn no_newline(f: Seq<u8>) -> bool {
    forall|i: int| 0 <= i < f.len() ==> f[i] != newline()
}

/// The bytes a sequence of delivered frames stood for on the wire: each
/// frame followed by the newline that closed it.
pub open spec fn frames_bytes(frames: Seq<Seq<u8>>) -> Seq<u8>
    decreases frames.len(),
{
    if frames.len() == 0 {
        Seq::empty()
    } else {
        frames_bytes(frames.drop_last()) + frames.last() + seq![newline()]
    }
}

/// Where a subscription stands.
#[derive(Clone, Copy, PartialEq, Eq, Structural, Debug)]
pub enum StreamState {
    /// The connection is open and frames may still arrive.
    Streaming,
    /// The caller stopped consuming and released the connection.
    ClosedNormally,
    /// The connection failed, the daemon closed it, or the caller cancelled.
    ClosedOnError,
}

/// One subscription to the daemon's event feed. Every frame ever delivered
/// is exactly the newline-delimited decomposition of every byte ever
/// received; an unterminated trailing line waits in the buffer and is
/// dropped if the stream closes before its newline arrives.
pub struct EventStream {
    pub state: StreamState,
    pub buf: Vec<u8>,
    pub received: Ghost<Seq<u8>>,
    pub delivered: Ghost<Seq<Seq<u8>>>,
}

impl EventStream {
    pub open spec fn wf(self) -> bool {
        &&& no_newline(self.buf@)
        &&& frames_bytes(self.delivered@) + self.buf@ == self.received@
        &&& forall|i: int|
            0 <= i < self.delivered@.len() ==> no_newline(#[trigger] self.delivered@[i])
    }

    /// Open a subscription for the given options: the stream starts empty
    /// and streaming, and the request path is the fixed events endpoint with
    /// the serialized query appended when there is one.
    pub fn open(opts: &EventsOpts) -> (r: (EventStream, String))
        requires
            opts.wf(),
        ensures
            r.0.wf(),
            r.0.state == StreamState::Streaming,
            r.0.received@ == Seq::<u8>::empty(),
            r.0.delivered@ == Seq::<Seq<u8>>::empty(),
            opts.params@.len() == 0 ==> r.1@ == "/events"@,
            opts.params@.len() > 0 ==> r.1@ == "/events?"@ + ascii_chars_of(
                query_bytes(opts.params@),
            ),
    {
        let path = match opts.serialize() {
            None => "/events".to_owned(),
            Some(q) => "/events?".to_owned().concat(q.as_str()),
        };
        let stream = EventStream {
            state: StreamState::Streaming,
            buf: Vec::new(),
            received: Ghost(Seq::empty()),
            delivered: Ghost(Seq::empty()),
        };
        proof {
            assert(stream.received@ =~= frames_bytes(stream.delivered@) + stream.buf@);
        }
        (stream, path)
    }

    /// Take one received chunk in and give back the frames it completes, in
    /// arrival order.
    pub fn on_data(&mut self, chunk: &Vec<u8>) -> (r: Vec<Vec<u8>>)
        requires
            old(self).wf(),
            old(self).state == StreamState::Streaming,
        ensures
            final(self).wf(),
            final(self).state == StreamState::Streaming,
            final(self).received@ == old(self).received@ + chunk@,
            final(self).delivered@ == old(self).delivered@ + r.deep_view(),
            frames_bytes(r.deep_view()) + final(self).buf@ == old(self).buf@ + chunk@,
            forall|i: int| 0 <= i < r.deep_view().len() ==> no_newline(#[trigger] r.deep_view()[i]),
    {
        let ghost old_buf = self.buf@;
        let mut frames: Vec<Vec<u8>> = Vec::new();
        let n = chunk.len();
        for i in 0..n
            invariant
                no_newline(self.buf@),
                frames_bytes(frames.deep_view()) + self.buf@ == old_buf + chunk@.take(i as int),
                forall|j: int|
                    0 <= j < frames.deep_view().len() ==> no_newline(
                        #[trigger] frames.deep_view()[j],
                    ),
                self.state == StreamState::Streaming,
                self.received@ == old(self).received@,
                self.delivered@ == old(self).delivered@,
        {
            let ghost fprev = frames.deep_view();
            let ghost bufprev = self.buf@;
            let b = chunk[i];
            proof {
                assert(chunk@.take(i + 1) =~= chunk@.take(i as int).push(b));
            }
            if b == 0x0a {
                let mut frame: Vec<u8> = Vec::new();
                core::mem::swap(&mut frame, &mut self.buf);
                frames.push(frame);
                proof {
                    assert(frames.deep_view() =~~= fprev.push(bufprev));
                    assert(frames.deep_view().drop_last() == fprev);
                    assert(frames.deep_view().last() == bufprev);
                    assert(frames_bytes(frames.deep_view()) == frames_bytes(fprev) + bufprev
                        + seq![newline()]);
                    assert(frames_bytes(frames.deep_view()) + self.buf@ =~= old_buf + chunk@.take(
                        i + 1,
                    ));
                }
            } else {
                self.buf.push(b);
                proof {
                    assert(self.buf@ =~= bufprev.push(b));
                    assert(frames.deep_view() =~~= fprev);
                    assert(frames_bytes(fprev) + bufprev == old_buf + chunk@.take(i as int));
                    assert(frames_bytes(fprev) + bufprev.push(b) =~= (frames_bytes(fprev)
                        + bufprev).push(b));
                    assert(old_buf + chunk@.take(i + 1) =~= (old_buf + chunk@.take(i as int)).push(
                        b,
                    ));
                    assert(frames_bytes(frames.deep_view()) + self.buf@ =~= old_buf + chunk@.take(
                        i + 1,
                    ));
                }
            }
        }
        proof {
            assert(chunk@.take(n as int) =~= chunk@);
            assert(frames_bytes(frames.deep_view()) + self.buf@ == old_buf + chunk@);
            self.received@ = self.received@ + chunk@;
            self.delivered@ = self.delivered@ + frames.deep_view();
            lemma_frames_bytes_concat(old(self).delivered@, frames.deep_view());
            assert(frames_bytes(self.delivered@) == frames_bytes(old(self).delivered@)
                + frames_bytes(frames.deep_view()));
            vstd::seq_lib::lemma_concat_associative(
                frames_bytes(old(self).delivered@),
                frames_bytes(frames.deep_view()),
                self.buf@,
            );
            vstd::seq_lib::lemma_concat_associative(
                frames_bytes(old(self).delivered@),
                old(self).buf@,
                chunk@,
            );
            assert(frames_bytes(self.delivered@) + self.buf@ =~= self.received@);
            assert forall|j: int| 0 <= j < self.delivered@.len() implies no_newline(
                #[trigger] self.delivered@[j],
            ) by {
                if j < old(self).delivered@.len() {
                    assert(self.delivered@[j] == old(self).delivered@[j]);
                } else {
                    assert(self.delivered@[j] == frames.deep_view()[j - old(
                        self,
                    ).delivered@.len()]);
                }
            }
        }
        frames
    }

    /// The connection failed or the daemon closed it: the stream ends in its
    /// terminal error state, and a partial trailing line is dropped.
    pub fn on_disconnect(&mut self)
        requires
            old(self).wf(),
        ensures
            final(self).wf(),
            final(self).state == StreamState::ClosedOnError,
            final(self).received@ == old(self).received@,
            final(self).delivered@ == old(self).delivered@,
    {
        self.state = StreamState::ClosedOnError;
    }

    /// The caller stops consuming: the stream is abandoned, and the caller
    /// releases the underlying connection.
    pub fn abandon(&mut self)
        requires
            old(self).wf(),
        ensures
            final(self).wf(),
            final(self).state == StreamState::ClosedNormally,
            final(self).received@ == old(self).received@,
            final(self).delivered@ == old(self).delivered@,
    {
        self.state = StreamState::ClosedNormally;
    }

    /// Whether the connection is still open and frames may still arrive.
    pub fn is_streaming(&self) -> (r: bool)
        ensures
            r == (self.state == StreamState::Streaming),
    {
        match self.state {
            StreamState::Streaming => true,
            StreamState::ClosedNormally => false,
            StreamState::ClosedOnError => false,
        }
    }
}

pub proof fn lemma_frames_bytes_concat(a: Seq<Seq<u8>>, b: Seq<Seq<u8>>)
    ensures
        frames_bytes(a + b) == frames_bytes(a) + frames_bytes(b),
    decreases b.len(),
{
    if b.len() == 0 {
        assert(a + b =~= a);
        assert(frames_bytes(a) + frames_bytes(b) =~= frames_bytes(a));
    } else {
        lemma_frames_bytes_concat(a, b.drop_last());
        assert((a + b).drop_last() =~= a + b.drop_last());
        assert((a + b).last() == b.last());
        assert(frames_bytes(a + b) =~= frames_bytes(a) + frames_bytes(b));
    }
}

/// The newline framing is unambiguous: a byte sequence decomposes into
/// newline-closed frames and a trailing partial line in exactly one way. So
/// the frames a stream has delivered, and the line still waiting in its
/// buffer, are the only ones its received bytes allow, however the bytes
/// were cut into chunks.
pub proof fn lemma_frames_decomposition_unique(
    f1: Seq<Seq<u8>>,
    b1: Seq<u8>,
    f2: Seq<Seq<u8>>,
    b2: Seq<u8>,
)
    requires
        forall|i: int| 0 <= i < f1.len() ==> no_newline(#[trigger] f1[i]),
        forall|i: int| 0 <= i < f2.len() ==> no_newline(#[trigger] f2[i]),
        no_newline(b1),
        no_newline(b2),
        frames_bytes(f1) + b1 == frames_bytes(f2) + b2,
    ensures
        f1 == f2,
        b1 == b2,
    decreases f1.len(),
{
    let t = frames_bytes(f1) + b1;
    assert(t == frames_bytes(f2) + b2);
    assert forall|i: int| 0 <= i < t.len() implies #[trigger] t[i] == whole_at(
        frames_bytes(f1),
        b1,
        i,
    ) && t[i] == whole_at(frames_bytes(f2), b2, i) by {
        assert(t[i] == (frames_bytes(f2) + b2)[i]);
    }
    if f1.len() == 0 {
        if f2.len() != 0 {
            let p2 = frames_bytes(f2).len() - 1;
            assert(frames_bytes(f2)[p2] == newline());
            assert(t[p2] == b1[p2]);
            assert(false);
        }
        assert(f1 =~= f2);
        assert(b1 =~= b2);
    } else if f2.len() == 0 {
        let p1 = frames_bytes(f1).len() - 1;
        assert(frames_bytes(f1)[p1] == newline());
        assert(t[p1] == b2[p1]);
        assert(false);
    } else {
        let p1 = frames_bytes(f1).len() - 1;
        let p2 = frames_bytes(f2).len() - 1;
        assert(frames_bytes(f1)[p1] == newline());
        assert(frames_bytes(f2)[p2] == newline());
        assert(b1.len() == b2.len()) by {
            if b1.len() < b2.len() {
                assert(t[p1] == b2[p1 - frames_bytes(f2).len()]);
                assert(t[p1] == newline());
                assert(false);
            }
            if b2.len() < b1.len() {
                assert(t[p2] == b1[p2 - frames_bytes(f1).len()]);
                assert(t[p2] == newline());
                assert(false);
            }
        }
        assert forall|i: int| 0 <= i < b1.len() implies b1[i] == b2[i] by {
            let j = frames_bytes(f1).len() + i;
            assert(t[j] == whole_at(frames_bytes(f1), b1, j));
            assert(t[j] == whole_at(frames_bytes(f2), b2, j));
        }
        assert(b1 =~= b2);
        assert forall|i: int| 0 <= i < frames_bytes(f1).len() implies frames_bytes(f1)[i]
            == frames_bytes(f2)[i] by {
            assert(t[i] == whole_at(frames_bytes(f1), b1, i));
            assert(t[i] == whole_at(frames_bytes(f2), b2, i));
        }
        assert(frames_bytes(f1) =~= frames_bytes(f2));
        let fb = frames_bytes(f1);
        let l1 = f1.last();
        let l2 = f2.last();
        let d1 = frames_bytes(f1.drop_last());
        let d2 = frames_bytes(f2.drop_last());
        assert(fb == d1 + l1 + seq![newline()]);
        assert(frames_bytes(f2) == d2 + l2 + seq![newline()]);
        assert forall|i: int| 0 <= i < fb.len() implies #[trigger] fb[i] == tail_at(d1, l1, i)
            && fb[i] == tail_at(d2, l2, i) by {
            assert(fb[i] == ((d1 + l1) + seq![newline()])[i]);
            assert(fb[i] == ((d2 + l2) + seq![newline()])[i]);
        }
        assert(l1.len() == l2.len()) by {
            if l1.len() < l2.len() {
                let q1 = d1.len() - 1;
                assert(d1.len() > d2.len());
                assert(f1.drop_last().len() > 0);
                assert(d1[q1] == newline());
                assert(fb[q1] == newline());
                assert(fb[q1] == l2[q1 - d2.len()]);
                assert(false);
            }
            if l2.len() < l1.len() {
                let q2 = d2.len() - 1;
                assert(d2.len() > d1.len());
                assert(f2.drop_last().len() > 0);
                assert(d2[q2] == newline());
                assert(fb[q2] == newline());
                assert(fb[q2] == l1[q2 - d1.len()]);
                assert(false);
            }
        }
        assert forall|i: int| 0 <= i < l1.len() implies l1[i] == l2[i] by {
            let j = d1.len() + i;
            assert(fb[j] == tail_at(d1, l1, j));
            assert(fb[j] == tail_at(d2, l2, j));
        }
        assert(l1 =~= l2);
        assert forall|i: int| 0 <= i < d1.len() implies d1[i] == d2[i] by {
            assert(fb[i] == tail_at(d1, l1, i));
            assert(fb[i] == tail_at(d2, l2, i));
        }
        assert(d1 =~= d2);
        lemma_frames_decomposition_unique(
            f1.drop_last(),
            Seq::empty(),
            f2.drop_last(),
            Seq::empty(),
        );
        assert forall|i: int| 0 <= i < f1.len() implies f1[i] == f2[i] by {
            if i < f1.len() - 1 {
                assert(f1[i] == f1.drop_last()[i]);
                assert(f2[i] == f2.drop_last()[i]);
            }
        }
        assert(f1 =~= f2);
    }
}

/// Where an index falls in `frames + buffer`.
spec fn whole_at(fb: Seq<u8>, b: Seq<u8>, i: int) -> u8 {
    if i < fb.len() {
        fb[i]
    } else {
        b[i - fb.len()]
    }
}

/// Where an index falls in `earlier frames + last frame + newline`.
spec fn tail_at(d: Seq<u8>, l: Seq<u8>, i: int) -> u8 {
    if i < d.len() {
        d[i]
    } else if i < d.len() + l.len() {
        l[i - d.len()]
    } else {
        newline()
    }
}

} // verus!
