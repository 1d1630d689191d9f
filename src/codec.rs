//! Cuts an incoming byte stream into text frames, each ended by a separator
//! byte, and writes outgoing text followed by a separator byte.
use vstd::prelude::*;
use vstd::utf8::{decode_utf8, encode_utf8, valid_utf8};

use crate::buffer::{buffer_bytes, buffer_extend, buffer_split_to, buffered, utf8_str};
use crate::error::RpcError;

verus! {

/// The byte that ends a frame in both directions unless configured otherwise.
pub const NEWLINE: u8 = 10;

/// Position of the first `sep` in `s`, if there is one.
pub open spec fn separator_position(s: Seq<u8>, sep: u8) -> Option<nat>
    decreases s.len(),
{
    if s.len() == 0 {
        None
    } else if s[0] == sep {
        Some(0)
    } else {
        match separator_position(s.drop_first(), sep) {
            Some(k) => Some(k + 1),
            None => None,
        }
    }
}

/// The bytes of the first complete frame in `s` and what follows its separator,
/// or `None` while no separator has arrived.
pub open spec fn next_frame(s: Seq<u8>, sep: u8) -> Option<(Seq<u8>, Seq<u8>)> {
    match separator_position(s, sep) {
        Some(i) => Some((s.subrange(0, i as int), s.subrange((i + 1) as int, s.len() as int))),
        None => None,
    }
}

/// Every complete frame in `s`, in order, as decoding it again and again cuts them.
pub open spec fn frames_in(s: Seq<u8>, sep: u8) -> Seq<Seq<u8>>
    decreases s.len(),
{
    match next_frame(s, sep) {
        Some((frame, rest)) => {
            if rest.len() < s.len() {
                seq![frame] + frames_in(rest, sep)
            } else {
                seq![frame]
            }
        },
        None => seq![],
    }
}

/// What is left of `s` once every complete frame has been cut off.
pub open spec fn unframed_tail(s: Seq<u8>, sep: u8) -> Seq<u8>
    decreases s.len(),
{
    match next_frame(s, sep) {
        Some((_, rest)) => {
            if rest.len() < s.len() {
                unframed_tail(rest, sep)
            } else {
                rest
            }
        },
        None => s,
    }
}

/// The frames written one after the other, each followed by `sep`.
pub open spec fn joined(frames: Seq<Seq<u8>>, sep: u8) -> Seq<u8>
    decreases frames.len(),
{
    if frames.len() == 0 {
        seq![]
    } else {
        frames[0].push(sep) + joined(frames.drop_first(), sep)
    }
}

/// The wire bytes of an outgoing message: its UTF-8 encoding and the separator.
pub open spec fn encoded(text: Seq<char>, sep: u8) -> Seq<u8> {
    encode_utf8(text).push(sep)
}

/// `separator_position` finds the first separator: nothing before it is one.
pub proof fn lemma_separator_position(s: Seq<u8>, sep: u8)
    ensures
        match separator_position(s, sep) {
            Some(i) => i < s.len() && s[i as int] == sep && forall|j: int|
                0 <= j < i ==> s[j] != sep,
            None => forall|j: int| 0 <= j < s.len() ==> s[j] != sep,
        },
    decreases s.len(),
{
    if s.len() > 0 && s[0] != sep {
        let t = s.drop_first();
        lemma_separator_position(t, sep);
        assert forall|j: int| 1 <= j < s.len() implies s[j] == t[j - 1] by {}
    }
}

/// Cutting the frames out of whole frames followed by a tail without a
/// separator gives back exactly those frames, and leaves the tail.
pub proof fn lemma_frames_of_joined(frames: Seq<Seq<u8>>, tail: Seq<u8>, sep: u8)
    requires
        forall|k: int| 0 <= k < frames.len() ==> !frames[k].contains(sep),
        !tail.contains(sep),
    ensures
        frames_in(joined(frames, sep) + tail, sep) == frames,
        unframed_tail(joined(frames, sep) + tail, sep) == tail,
    decreases frames.len(),
{
    let s = joined(frames, sep) + tail;
    lemma_separator_position(s, sep);
    if frames.len() == 0 {
        assert(s =~= tail);
        assert(separator_position(s, sep) is None) by {
            if separator_position(s, sep) is Some {
                let i = separator_position(s, sep)->0;
                assert(tail.contains(tail[i as int]));
            }
        }
        assert(frames_in(s, sep) =~= frames);
    } else {
        let f = frames[0];
        let more = frames.drop_first();
        let rest = joined(more, sep) + tail;
        assert(s =~= f.push(sep) + rest);
        assert(s[f.len() as int] == sep);
        assert forall|j: int| 0 <= j < f.len() implies s[j] != sep by {
            assert(s[j] == f[j]);
            assert(f.contains(f[j]));
        }
        assert(separator_position(s, sep) == Some(f.len())) by {
            let i = separator_position(s, sep)->0;
            if i < f.len() {
                assert(s[i as int] != sep);
            }
        }
        assert(s.subrange(0, f.len() as int) =~= f);
        assert(s.subrange((f.len() + 1) as int, s.len() as int) =~= rest);
        lemma_frames_of_joined(more, tail, sep);
        assert(frames_in(s, sep) =~= seq![f] + more);
        assert(frames =~= seq![f] + more);
    }
}

/// No frame that decoding cuts, nor the tail it leaves, holds the separator.
pub proof fn lemma_frames_hold_no_separator(s: Seq<u8>, sep: u8)
    ensures
        forall|k: int| 0 <= k < frames_in(s, sep).len() ==> !(#[trigger] frames_in(s, sep)[k]).contains(sep),
        !unframed_tail(s, sep).contains(sep),
    decreases s.len(),
{
    lemma_separator_position(s, sep);
    match separator_position(s, sep) {
        Some(i) => {
            let frame = s.subrange(0, i as int);
            let rest = s.subrange((i + 1) as int, s.len() as int);
            lemma_frames_hold_no_separator(rest, sep);
            assert(!frame.contains(sep)) by {
                if frame.contains(sep) {
                    let j = choose|j: int| 0 <= j < frame.len() && frame[j] == sep;
                    assert(s[j] == sep);
                }
            }
            assert forall|k: int| 0 <= k < frames_in(s, sep).len() implies !(#[trigger] frames_in(s, sep)[k]).contains(sep) by {
                if k > 0 {
                    assert(frames_in(s, sep)[k] == frames_in(rest, sep)[k - 1]);
                }
            }
        },
        None => {
            assert(!s.contains(sep)) by {
                if s.contains(sep) {
                    let j = choose|j: int| 0 <= j < s.len() && s[j] == sep;
                }
            }
        },
    }
}

/// A frame that arrives as valid UTF-8 followed by the separator is decoded to
/// text that encodes back to the same bytes and the same separator.
pub proof fn lemma_round_trip(frame: Seq<u8>, sep: u8)
    requires
        !frame.contains(sep),
        valid_utf8(frame),
    ensures
        next_frame(frame.push(sep), sep) == Some((frame, Seq::<u8>::empty())),
        encoded(decode_utf8(frame), sep) == frame.push(sep),
{
    lemma_frames_of_joined(seq![frame], Seq::empty(), sep);
    let s = frame.push(sep);
    assert(joined(seq![frame], sep) + Seq::<u8>::empty() =~= s) by {
        let one = seq![frame];
        assert(one.drop_first() =~= Seq::<Seq<u8>>::empty());
        assert(joined(one.drop_first(), sep) =~= Seq::<u8>::empty());
        assert(joined(one, sep) =~= frame.push(sep) + joined(one.drop_first(), sep));
    }
    lemma_separator_position(s, sep);
    assert(separator_position(s, sep) == Some(frame.len())) by {
        let i = separator_position(s, sep)->0;
        if i < frame.len() {
            assert(frame.contains(frame[i as int]));
        }
    }
    assert(s.subrange(0, frame.len() as int) =~= frame);
    assert(s.subrange((frame.len() + 1) as int, s.len() as int) =~= Seq::<u8>::empty());
    vstd::utf8::decode_utf8_encode_utf8(frame);
}

/// Separator bytes for the two directions of a connection.
#[derive(Debug, Clone, Copy)]
pub struct StreamCodec {
    pub incoming_separator: u8,
    pub outgoing_separator: u8,
}

impl StreamCodec {
    /// The codec used on stream connections: newline in both directions.
    pub fn stream_incoming() -> (r: StreamCodec)
        ensures
            r.incoming_separator == NEWLINE,
            r.outgoing_separator == NEWLINE,
    {
        StreamCodec::new(NEWLINE, NEWLINE)
    }

    /// A codec with its own separator for each direction.
    pub fn new(incoming_separator: u8, outgoing_separator: u8) -> (r: StreamCodec)
        ensures
            r.incoming_separator == incoming_separator,
            r.outgoing_separator == outgoing_separator,
    {
        StreamCodec { incoming_separator, outgoing_separator }
    }

    /// Cuts the first complete frame off `buf`. While no separator has arrived
    /// the buffer is left alone and no frame is returned; a frame whose bytes are
    /// not UTF-8 is consumed all the same and reported as a framing error.
    pub fn decode(&self, buf: &mut bytes::BytesMut) -> (r: Result<Option<String>, RpcError>)
        ensures
            match next_frame(buffered(*old(buf)), self.incoming_separator) {
                None => r matches Ok(None) && buffered(*final(buf)) == buffered(*old(buf)),
                Some((frame, rest)) => buffered(*final(buf)) == rest && if valid_utf8(frame) {
                    r matches Ok(Some(t)) && t@ == decode_utf8(frame)
                } else {
                    r matches Err(RpcError::Framing)
                },
            },
    {
        let sep = self.incoming_separator;
        let bytes = buffer_bytes(buf);
        let n = bytes.len();
        let mut i: usize = 0;
        while i < n && bytes[i] != sep
            invariant
                n == bytes@.len(),
                bytes@ == buffered(*buf),
                i <= n,
                forall|j: int| 0 <= j < i ==> bytes@[j] != sep,
            decreases n - i,
        {
            i = i + 1;
        }
        proof {
            lemma_separator_position(bytes@, sep);
            if separator_position(bytes@, sep) is Some {
                let k = separator_position(bytes@, sep)->0;
                if k < i {
                    assert(bytes@[k as int] != sep);
                }
            }
        }
        if i == n {
            return Ok(None);
        }
        let line = buffer_split_to(buf, i);
        let _ = buffer_split_to(buf, 1);
        match utf8_str(buffer_bytes(&line)) {
            Some(s) => Ok(Some(s.to_owned())),
            None => Err(RpcError::Framing),
        }
    }

    /// Appends `msg` and the outgoing separator to `buf`.
    pub fn encode(&self, msg: String, buf: &mut bytes::BytesMut)
        requires
            buffered(*old(buf)).len() + encoded(msg@, self.outgoing_separator).len() <= isize::MAX,
        ensures
            buffered(*final(buf)) == buffered(*old(buf)) + encoded(msg@, self.outgoing_separator),
    {
        let payload = msg.as_str().as_bytes();
        buffer_extend(buf, payload);
        let tail: Vec<u8> = vec![self.outgoing_separator];
        buffer_extend(buf, tail.as_slice());
        proof {
            assert(buffered(*buf) =~= buffered(*old(buf)) + encoded(msg@, self.outgoing_separator));
        }
    }
}

} // verus!
