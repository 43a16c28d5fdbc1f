use vstd::prelude::*;

verus! {

use crate::frame::Frame;
use crate::frame::FrameError;
use crate::frame::ARRAY_SIGIL;
use crate::frame::complete_frame;
use crate::frame::frame_decodes;
use crate::frame::frame_well_formed;
use crate::frame::parse_rel;
use crate::frame::partial_frame;
use crate::frame::wire_of;

/// How a closed stream is classified: a close on an empty read buffer
/// is a normal end, a close with buffered bytes means the peer reset
/// in the middle of a frame.
#[derive(Debug, Clone, Copy, PartialEq, Eq, Structural)]
pub enum StreamEnd {
    CleanEof,
    PeerResetIncomplete,
}

/// The buffered, non-blocking half of a connection: an accumulation
/// window for bytes read from the stream, and a write buffer that
/// batches encoded frames until the caller flushes them to the stream.
/// The stream itself, and everything that blocks on it, lives with the
/// caller; every decision over the buffered bytes is made here.
pub struct Connection {
    read_buf: Vec<u8>,
    write_buf: Vec<u8>,
}

impl Connection {
    /// The bytes read from the stream and not yet consumed as frames.
    pub closed spec fn read_view(&self) -> Seq<u8> {
        self.read_buf@
    }

    /// The encoded bytes not yet flushed to the stream.
    pub closed spec fn write_view(&self) -> Seq<u8> {
        self.write_buf@
    }

    /// A fresh connection: both buffers empty.
    pub fn new() -> (c: Connection)
        ensures
            c.read_view().len() == 0,
            c.write_view().len() == 0,
    {
        Connection { read_buf: Vec::new(), write_buf: Vec::new() }
    }

    /// Append bytes that arrived from the stream to the tail of the
    /// read buffer.
    pub fn feed(&mut self, data: &[u8])
        ensures
            final(self).read_view() == old(self).read_view() + data@,
            final(self).write_view() == old(self).write_view(),
    {
        self.read_buf.extend_from_slice(data);
    }

    /// Try to take one frame off the front of the read buffer.
    /// `Ok(Some(f))` consumes exactly the frame's bytes and leaves the
    /// rest in place; `Ok(None)` reports a truncated prefix that one
    /// more read may complete, leaving the buffer untouched; an error
    /// is fatal and also leaves the buffer untouched.  A complete
    /// frame whose line text is not UTF-8 is fatal `Malformed`.
    pub fn parse_frame(&mut self) -> (r: Result<Option<Frame>, FrameError>)
        ensures
            final(self).write_view() == old(self).write_view(),
            (r matches Ok(f) && f is Some) <==> exists|n: int|
                0 <= n <= old(self).read_view().len() && #[trigger] complete_frame(
                    old(self).read_view().subrange(0, n),
                ) && frame_decodes(old(self).read_view().subrange(0, n)),
            forall|n: int|
                0 <= n <= old(self).read_view().len() && #[trigger] complete_frame(
                    old(self).read_view().subrange(0, n),
                ) ==> (match r {
                    Ok(Some(f)) => {
                        &&& frame_decodes(old(self).read_view().subrange(0, n))
                        &&& parse_rel(old(self).read_view().subrange(0, n), f)
                        &&& final(self).read_view() == old(self).read_view().subrange(
                            n,
                            old(self).read_view().len() as int,
                        )
                    },
                    Err(e) => e == FrameError::Malformed && !frame_decodes(
                        old(self).read_view().subrange(0, n),
                    ),
                    _ => false,
                }),
            r == Ok::<Option<Frame>, FrameError>(None) <==> partial_frame(old(self).read_view()),
            r == Ok::<Option<Frame>, FrameError>(None) ==> final(self).read_view() == old(self).read_view(),
            r matches Err(_) ==> final(self).read_view() == old(self).read_view(),
            r == Err::<Option<Frame>, FrameError>(FrameError::UnsupportedVariant) <==> (old(self).read_view().len() > 0 && old(self).read_view()[0] == ARRAY_SIGIL),
            r != Err::<Option<Frame>, FrameError>(FrameError::NeedMoreData),
    {
        let ghost o = self.read_buf@;
        proof {
            assert(o.subrange(0, o.len() as int) =~= o);
        }
        let ghost s2 = o.subrange(0, o.len() as int);
        let res = Frame::check(&self.read_buf, 0);
        match res {
            Ok(n) => {
                let parsed = Frame::parse(&self.read_buf, 0, n);
                proof {
                    assert(s2.subrange(0, n as int) =~= o.subrange(0, n as int));
                    assert(complete_frame(o.subrange(0, n as int)));
                    assert(o == old(self).read_view());
                    assert(complete_frame(old(self).read_view().subrange(0, n as int)));
                    assert(0 <= n as int <= old(self).read_view().len());
                    assert forall|n2: int|
                        0 <= n2 <= o.len() && #[trigger] complete_frame(
                            o.subrange(0, n2),
                        ) implies n2 == n as int by {
                        crate::frame::lemma_frame_prefix_unique(o, n2, n as int);
                    }
                    assert(self.read_buf@.subrange(0 as int, 0 + n as int) == o.subrange(
                        0,
                        n as int,
                    ));
                }
                match parsed {
                    Ok(f) => {
                        let rest = self.read_buf.split_off(n);
                        self.read_buf = rest;
                        Ok(Some(f))
                    },
                    Err(e) => {
                        proof {
                            assert(!frame_decodes(o.subrange(0, n as int)));
                        }
                        Err(e)
                    },
                }
            },
            Err(e) => {
                proof {
                    assert forall|n2: int|
                        0 <= n2 <= o.len() && #[trigger] complete_frame(
                            o.subrange(0, n2),
                        ) implies false by {
                        assert(s2.subrange(0, n2) =~= o.subrange(0, n2));
                        assert(complete_frame(s2.subrange(0, n2)));
                    }
                }
                if matches!(e, FrameError::NeedMoreData) {
                    Ok(None)
                } else {
                    Err(e)
                }
            },
        }
    }

    /// Classify a stream close: a clean end of stream exactly when no
    /// partial frame was left behind in the read buffer.
    pub fn end_of_stream(&self) -> (r: StreamEnd)
        ensures
            r == StreamEnd::CleanEof <==> self.read_view().len() == 0,
    {
        if self.read_buf.is_empty() {
            StreamEnd::CleanEof
        } else {
            StreamEnd::PeerResetIncomplete
        }
    }

    /// Append one frame's wire bytes to the write buffer.  Fails
    /// without touching the buffer on an array frame, whose encoding
    /// is unsupported, or on text that cannot ride in a line frame.
    pub fn write_frame(&mut self, frame: &Frame) -> (r: Result<(), FrameError>)
        ensures
            final(self).read_view() == old(self).read_view(),
            (r matches Ok(_)) <==> frame_well_formed(*frame),
            match r {
                Ok(_) => final(self).write_view() == old(self).write_view() + wire_of(*frame),
                Err(e) => {
                    &&& final(self).write_view() == old(self).write_view()
                    &&& (e == FrameError::UnsupportedVariant <==> frame is Array)
                    &&& (e == FrameError::Malformed <==> !frame_well_formed(*frame) && !(frame
                        is Array))
                    &&& e != FrameError::NeedMoreData
                },
            },
    {
        match frame.encode() {
            Ok(mut v) => {
                self.write_buf.append(&mut v);
                Ok(())
            },
            Err(e) => Err(e),
        }
    }

    /// Hand the batched write-buffer bytes to the caller for one
    /// explicit flush to the stream, leaving the buffer empty: the
    /// peer then sees whole frames, never a partial tail.
    pub fn take_write_buffer(&mut self) -> (v: Vec<u8>)
        ensures
            v@ == old(self).write_view(),
            final(self).write_view().len() == 0,
            final(self).read_view() == old(self).read_view(),
    {
        let rest = self.write_buf.split_off(0);
        proof {
            assert(old(self).write_buf@.subrange(0, old(self).write_buf@.len() as int) =~= old(self).write_buf@);
            assert(self.write_buf@ =~= old(self).write_buf@.subrange(0, 0));
        }
        rest
    }
}

} // verus!
