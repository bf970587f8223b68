//! Stream de-framing for the local transport.
//!
//! The wire format is a 2-byte length prefix (low byte first, at most
//! [`MAX_FRAME_SIZE`]) followed by exactly that many payload bytes, repeated.
//! [`RxBuffer`] consumes one arbitrarily sized chunk of the stream at a time
//! and emits every frame that is complete so far, keeping the incomplete
//! trailing bytes for the next call.  `decode_frames` and `decode_rest` are
//! the specification of that process, and the lemmas at the end of the module
//! state that decoding is exact: however the encoded stream is split into
//! chunks, the frames come back unchanged and in order.

use vstd::arithmetic::div_mod::lemma_div_is_ordered;
use vstd::arithmetic::div_mod::lemma_fundamental_div_mod;
use vstd::arithmetic::div_mod::lemma_fundamental_div_mod_converse;
use vstd::arithmetic::div_mod::lemma_small_mod;
use vstd::prelude::*;

verus! {

/// Number of bytes in the length prefix of every frame.
pub const PREFIX_SIZE: usize = 2;

/// Largest payload a single frame can carry (everything a 2-byte prefix can name).
pub const MAX_FRAME_SIZE: usize = 65535;

/// Low byte of the length prefix for a payload of `len` bytes.
pub open spec fn prefix_lo(len: nat) -> u8 {
    (len % 256) as u8
}

/// High byte of the length prefix for a payload of `len` bytes.
pub open spec fn prefix_hi(len: nat) -> u8 {
    ((len / 256) % 256) as u8
}

/// The payload length announced by the first two bytes of `b`.
pub open spec fn prefix_len_of(b: Seq<u8>) -> nat
    recommends
        b.len() >= PREFIX_SIZE,
{
    (b[0] as nat) + 256 * (b[1] as nat)
}

/// A payload short enough for its length to fit in the prefix.
pub open spec fn valid_frame(p: Seq<u8>) -> bool {
    p.len() <= MAX_FRAME_SIZE
}

/// `b` starts with one whole frame: a full prefix and all announced payload bytes.
pub open spec fn frame_complete(b: Seq<u8>) -> bool {
    b.len() >= PREFIX_SIZE && b.len() >= PREFIX_SIZE + prefix_len_of(b)
}

/// One payload in wire form: its length prefix followed by its bytes.
pub open spec fn encode_frame(p: Seq<u8>) -> Seq<u8> {
    seq![prefix_lo(p.len()), prefix_hi(p.len())] + p
}

/// A sequence of payloads in wire form, one frame after the other.
pub open spec fn encode(frames: Seq<Seq<u8>>) -> Seq<u8>
    decreases frames.len(),
{
    if frames.len() == 0 {
        Seq::empty()
    } else {
        encode_frame(frames[0]) + encode(frames.drop_first())
    }
}

/// The payloads of every whole frame at the front of `b`, in order.
pub open spec fn decode_frames(b: Seq<u8>) -> Seq<Seq<u8>>
    decreases b.len(),
{
    if frame_complete(b) {
        seq![b.subrange(PREFIX_SIZE as int, PREFIX_SIZE + prefix_len_of(b))]
            + decode_frames(b.skip(PREFIX_SIZE + prefix_len_of(b)))
    } else {
        Seq::empty()
    }
}

/// What is left of `b` once every whole frame at its front is removed.
pub open spec fn decode_rest(b: Seq<u8>) -> Seq<u8>
    decreases b.len(),
{
    if frame_complete(b) {
        decode_rest(b.skip(PREFIX_SIZE + prefix_len_of(b)))
    } else {
        b
    }
}

/// Holds the incomplete trailing bytes of the stream between two chunks.
pub struct RxBuffer {
    inner: Vec<u8>,
}

impl View for RxBuffer {
    type V = Seq<u8>;

    closed spec fn view(&self) -> Seq<u8> {
        self.inner@
    }
}

impl RxBuffer {
    /// The buffer never retains a whole frame: frames are emitted as soon as
    /// they are complete.
    pub open spec fn wf(&self) -> bool {
        !frame_complete(self@)
    }

    /// Feeds one chunk of the stream and returns every frame that is complete
    /// so far, in order, keeping the incomplete trailing bytes.
    pub fn process(&mut self, received: Vec<u8>) -> (frames: Vec<Vec<u8>>)
        requires
            old(self).wf(),
        ensures
            frames.deep_view() == decode_frames(old(self)@ + received@),
            final(self)@ == decode_rest(old(self)@ + received@),
            final(self).wf(),
            forall|i: int|
                0 <= i < frames.deep_view().len() ==> valid_frame(
                    #[trigger] frames.deep_view()[i],
                ),
    {
        proof {
            lemma_decode_frames_valid(old(self)@ + received@);
        }
        let ghost total: Seq<u8> = self@ + received@;
        let mut received = received;
        self.inner.append(&mut received);
        assert(self.inner@ == total);
        let mut frames: Vec<Vec<u8>> = Vec::new();
        loop
            invariant
                frames.deep_view() + decode_frames(self.inner@) == decode_frames(total),
                decode_rest(self.inner@) == decode_rest(total),
            ensures
                !frame_complete(self.inner@),
                frames.deep_view() + decode_frames(self.inner@) == decode_frames(total),
                decode_rest(self.inner@) == decode_rest(total),
            decreases self.inner@.len(),
        {
            let ghost before: Seq<u8> = self.inner@;
            let ghost frames_before: Seq<Seq<u8>> = frames.deep_view();
            match read_prefix(&self.inner) {
                None => {
                    break;
                },
                Some(len) => {
                    match take_next(&mut self.inner, len) {
                        None => {
                            break;
                        },
                        Some(payload) => {
                            assert(frame_complete(before));
                            assert(payload@ == before.subrange(
                                PREFIX_SIZE as int,
                                PREFIX_SIZE + prefix_len_of(before),
                            ));
                            assert(self.inner@ == before.skip(
                                PREFIX_SIZE + prefix_len_of(before),
                            ));
                            frames.push(payload);
                            proof {
                                assert(frames.deep_view() =~~= frames_before.push(payload@));
                                assert(decode_frames(before) == seq![payload@] + decode_frames(
                                    self.inner@,
                                ));
                                assert(frames.deep_view() + decode_frames(self.inner@)
                                    =~~= frames_before + decode_frames(before));
                            }
                        },
                    }
                },
            }
        }
        assert(decode_frames(self.inner@) =~= Seq::<Seq<u8>>::empty());
        assert(frames.deep_view() =~~= frames.deep_view() + decode_frames(self.inner@));
        frames
    }
}

impl Default for RxBuffer {
    /// A fresh buffer with nothing pending.
    fn default() -> (r: Self)
        ensures
            r@ == Seq::<u8>::empty(),
            r.wf(),
    {
        RxBuffer { inner: Vec::new() }
    }
}

/// Reads the length prefix at the front of `src`, if a whole prefix is there.
pub fn read_prefix(src: &Vec<u8>) -> (r: Option<u16>)
    ensures
        src@.len() < PREFIX_SIZE ==> r is None,
        src@.len() >= PREFIX_SIZE ==> r == Some((prefix_len_of(src@) as u16)),
{
    if src.len() < PREFIX_SIZE {
        None
    } else {
        Some((src[0] as u16) + 256 * (src[1] as u16))
    }
}

/// Removes the frame announced at the front of `src` (prefix and `len`
/// payload bytes) and returns the payload, or leaves `src` alone when the
/// frame is not yet whole.
pub fn take_next(src: &mut Vec<u8>, len: u16) -> (r: Option<Vec<u8>>)
    ensures
        old(src)@.len() < PREFIX_SIZE + len ==> {
            &&& r is None
            &&& final(src)@ == old(src)@
        },
        old(src)@.len() >= PREFIX_SIZE + len ==> {
            &&& r matches Some(payload) && payload@ == old(src)@.subrange(
                PREFIX_SIZE as int,
                PREFIX_SIZE + len,
            )
            &&& final(src)@ == old(src)@.skip(PREFIX_SIZE + len)
        },
{
    let p_len: usize = PREFIX_SIZE + len as usize;
    if src.len() >= p_len {
        let rest = src.split_off(p_len);
        let mut payload: Vec<u8> = Vec::new();
        let mut i: usize = PREFIX_SIZE;
        while i < src.len()
            invariant
                PREFIX_SIZE <= i <= src@.len(),
                payload@ == src@.subrange(PREFIX_SIZE as int, i as int),
            decreases src@.len() - i,
        {
            payload.push(src[i]);
            assert(payload@ =~= src@.subrange(PREFIX_SIZE as int, i + 1));
            i = i + 1;
        }
        assert(payload@ == src@.subrange(PREFIX_SIZE as int, src@.len() as int));
        *src = rest;
        Some(payload)
    } else {
        None
    }
}

/// Puts the 2-byte length prefix in front of `dst`, turning a payload into
/// its wire form.
pub fn write_prefix(dst: &mut Vec<u8>)
    requires
        old(dst)@.len() <= MAX_FRAME_SIZE,
    ensures
        final(dst)@ == encode_frame(old(dst)@),
{
    let len: usize = dst.len();
    let mut out: Vec<u8> = Vec::new();
    out.push((len % 256) as u8);
    out.push(((len / 256) % 256) as u8);
    out.append(dst);
    assert(out@ =~= encode_frame(old(dst)@));
    *dst = out;
}

/// The prefix bytes of a payload of length `l` announce `l` again.
proof fn lemma_prefix_roundtrip(l: nat)
    requires
        l <= MAX_FRAME_SIZE,
    ensures
        (prefix_lo(l) as nat) + 256 * (prefix_hi(l) as nat) == l,
{
    lemma_fundamental_div_mod(l as int, 256);
    lemma_div_is_ordered(l as int, MAX_FRAME_SIZE as int, 256);
    lemma_small_mod((l / 256) as nat, 256);
}

/// Reading two prefix bytes back from the announced length returns the bytes.
proof fn lemma_prefix_bytes(b0: u8, b1: u8)
    ensures
        prefix_lo((b0 as nat) + 256 * (b1 as nat)) == b0,
        prefix_hi((b0 as nat) + 256 * (b1 as nat)) == b1,
{
    let l: int = b0 as int + 256 * (b1 as int);
    lemma_fundamental_div_mod_converse(l, 256, b1 as int, b0 as int);
    lemma_small_mod(b1 as nat, 256);
}

/// Every payload the decoder hands out fits the wire format's length bound.
pub proof fn lemma_decode_frames_valid(b: Seq<u8>)
    ensures
        forall|i: int|
            0 <= i < decode_frames(b).len() ==> valid_frame(#[trigger] decode_frames(b)[i]),
    decreases b.len(),
{
    if frame_complete(b) {
        let p = prefix_len_of(b);
        let tail = b.skip(PREFIX_SIZE + p);
        lemma_decode_frames_valid(tail);
        assert forall|i: int|
            0 <= i < decode_frames(b).len() implies valid_frame(
            #[trigger] decode_frames(b)[i],
        ) by {
            if i == 0 {
                assert(decode_frames(b)[0].len() == p);
            } else {
                assert(decode_frames(b)[i] == decode_frames(tail)[i - 1]);
            }
        }
    }
}

/// Whatever bytes the decoder keeps back never hold a whole frame.
pub proof fn lemma_decode_rest_incomplete(b: Seq<u8>)
    ensures
        !frame_complete(decode_rest(b)),
    decreases b.len(),
{
    if frame_complete(b) {
        lemma_decode_rest_incomplete(b.skip(PREFIX_SIZE + prefix_len_of(b)));
    }
}

/// Decoding loses no byte: re-encoding the decoded frames and appending the
/// kept-back rest rebuilds the input exactly.
pub proof fn lemma_decode_conservation(b: Seq<u8>)
    ensures
        encode(decode_frames(b)) + decode_rest(b) == b,
    decreases b.len(),
{
    if frame_complete(b) {
        let p = prefix_len_of(b);
        let f = b.subrange(PREFIX_SIZE as int, PREFIX_SIZE + p);
        let tail = b.skip(PREFIX_SIZE + p);
        lemma_decode_conservation(tail);
        lemma_prefix_bytes(b[0], b[1]);
        assert(decode_frames(b) == seq![f] + decode_frames(tail));
        assert((seq![f] + decode_frames(tail)).drop_first() =~= decode_frames(tail));
        assert(encode(decode_frames(b)) =~= encode_frame(f) + encode(decode_frames(tail)));
        assert(encode_frame(f) =~= seq![b[0], b[1]] + f);
        assert(encode(decode_frames(b)) + decode_rest(b) =~= encode_frame(f) + (encode(
            decode_frames(tail),
        ) + decode_rest(tail)));
        assert(encode_frame(f) + tail =~= b);
    } else {
        assert(encode(Seq::<Seq<u8>>::empty()) + b =~= b);
    }
}

/// Round trip: decoding an encoded frame sequence followed by any incomplete
/// tail returns exactly those frames and keeps exactly that tail.
pub proof fn lemma_round_trip(frames: Seq<Seq<u8>>, b: Seq<u8>)
    requires
        forall|i: int| 0 <= i < frames.len() ==> valid_frame(#[trigger] frames[i]),
        !frame_complete(b),
    ensures
        decode_frames(encode(frames) + b) == frames,
        decode_rest(encode(frames) + b) == b,
    decreases frames.len(),
{
    if frames.len() == 0 {
        assert(encode(frames) + b =~= b);
        assert(decode_frames(b) =~= frames);
    } else {
        let f0 = frames[0];
        let rest = frames.drop_first();
        let total = encode(frames) + b;
        lemma_prefix_roundtrip(f0.len());
        assert(total =~= encode_frame(f0) + (encode(rest) + b));
        assert(total[0] == prefix_lo(f0.len()) && total[1] == prefix_hi(f0.len()));
        assert(prefix_len_of(total) == f0.len());
        assert(frame_complete(total));
        assert(total.subrange(PREFIX_SIZE as int, PREFIX_SIZE + f0.len()) =~= f0);
        assert(total.skip(PREFIX_SIZE + f0.len()) =~= encode(rest) + b);
        lemma_round_trip(rest, b);
        assert(decode_frames(total) =~= frames);
    }
}

/// Chunk boundaries do not matter: decoding `x` then `y` (with the kept-back
/// rest of `x` carried over) decodes the same frames as decoding `x + y` at
/// once.
pub proof fn lemma_decode_split(x: Seq<u8>, y: Seq<u8>)
    ensures
        decode_frames(x + y) == decode_frames(x) + decode_frames(decode_rest(x) + y),
        decode_rest(x + y) == decode_rest(decode_rest(x) + y),
    decreases x.len(),
{
    if frame_complete(x) {
        let p = prefix_len_of(x);
        let tail = x.skip(PREFIX_SIZE + p);
        assert((x + y)[0] == x[0] && (x + y)[1] == x[1]);
        assert(prefix_len_of(x + y) == p);
        assert(frame_complete(x + y));
        assert((x + y).subrange(PREFIX_SIZE as int, PREFIX_SIZE + p) =~= x.subrange(
            PREFIX_SIZE as int,
            PREFIX_SIZE + p,
        ));
        assert((x + y).skip(PREFIX_SIZE + p) =~= tail + y);
        lemma_decode_split(tail, y);
        assert(decode_frames(x + y) =~= decode_frames(x) + decode_frames(decode_rest(x) + y));
    } else {
        assert(decode_rest(x) + y =~= x + y);
        assert(decode_frames(x) + decode_frames(x + y) =~= decode_frames(x + y));
    }
}

/// The frames produced by feeding `chunks` one at a time into a decoder whose
/// buffer starts as `buf`.
pub open spec fn feed_frames(buf: Seq<u8>, chunks: Seq<Seq<u8>>) -> Seq<Seq<u8>>
    decreases chunks.len(),
{
    if chunks.len() == 0 {
        Seq::empty()
    } else {
        decode_frames(buf + chunks[0]) + feed_frames(
            decode_rest(buf + chunks[0]),
            chunks.drop_first(),
        )
    }
}

/// The decoder's buffer after feeding `chunks` one at a time, starting from `buf`.
pub open spec fn feed_rest(buf: Seq<u8>, chunks: Seq<Seq<u8>>) -> Seq<u8>
    decreases chunks.len(),
{
    if chunks.len() == 0 {
        buf
    } else {
        feed_rest(decode_rest(buf + chunks[0]), chunks.drop_first())
    }
}

/// Feeding chunk by chunk decodes exactly what decoding all bytes at once would.
pub proof fn lemma_feed_is_decode(buf: Seq<u8>, chunks: Seq<Seq<u8>>)
    requires
        !frame_complete(buf),
    ensures
        feed_frames(buf, chunks) == decode_frames(buf + chunks.flatten()),
        feed_rest(buf, chunks) == decode_rest(buf + chunks.flatten()),
    decreases chunks.len(),
{
    if chunks.len() == 0 {
        assert(buf + chunks.flatten() =~= buf);
        assert(feed_frames(buf, chunks) =~= decode_frames(buf));
    } else {
        let c0 = chunks[0];
        let rest = chunks.drop_first();
        assert(chunks.flatten() == c0 + rest.flatten());
        assert(buf + chunks.flatten() =~= (buf + c0) + rest.flatten());
        lemma_decode_split(buf + c0, rest.flatten());
        lemma_decode_rest_incomplete(buf + c0);
        lemma_feed_is_decode(decode_rest(buf + c0), rest);
        assert(feed_frames(buf, chunks) =~= decode_frames(buf + chunks.flatten()));
    }
}

/// Round-trip framing under arbitrary chunking: encode any sequence of
/// payloads, split the resulting byte stream into chunks wherever you like
/// (inside a prefix included), and feeding the chunks to a fresh decoder
/// reproduces exactly the original payloads, in order, with an empty buffer
/// left behind.
pub proof fn lemma_round_trip_chunked(frames: Seq<Seq<u8>>, chunks: Seq<Seq<u8>>)
    requires
        forall|i: int| 0 <= i < frames.len() ==> valid_frame(#[trigger] frames[i]),
        chunks.flatten() == encode(frames),
    ensures
        feed_frames(Seq::empty(), chunks) == frames,
        feed_rest(Seq::empty(), chunks) == Seq::<u8>::empty(),
{
    lemma_feed_is_decode(Seq::empty(), chunks);
    assert(Seq::empty() + chunks.flatten() =~= encode(frames));
    lemma_round_trip(frames, Seq::empty());
    assert(encode(frames) + Seq::<u8>::empty() =~= encode(frames));
}

/// A frame with length prefix zero decodes to an empty payload and does not
/// desynchronise what follows it in the stream.
pub proof fn lemma_zero_length_frame(frames: Seq<Seq<u8>>, b: Seq<u8>)
    requires
        forall|i: int| 0 <= i < frames.len() ==> valid_frame(#[trigger] frames[i]),
        !frame_complete(b),
    ensures
        decode_frames(seq![0u8, 0u8] + encode(frames) + b) == seq![Seq::<u8>::empty()] + frames,
        decode_rest(seq![0u8, 0u8] + encode(frames) + b) == b,
{
    let all = seq![Seq::<u8>::empty()] + frames;
    assert(forall|i: int| 0 <= i < all.len() ==> valid_frame(#[trigger] all[i]));
    lemma_round_trip(all, b);
    assert(encode_frame(Seq::<u8>::empty()) =~= seq![0u8, 0u8]);
    assert(all.drop_first() =~= frames);
    assert(encode(all) + b =~= seq![0u8, 0u8] + encode(frames) + b);
}

} // verus!
