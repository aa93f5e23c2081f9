//! Length-prefixed framing of byte items.
//!
//! Each item travels as `[prefix: item length, big-endian][item bytes]`, where the
//! width of the prefix is chosen by a [`FrameLen`] type: 8 bytes for `u64`, 4 for
//! `u32`, 2 for `u16`, 1 for `u8`, and none for `()` (raw mode: every chunk of the
//! underlying body is one item).

use std::marker::PhantomData;
use vstd::arithmetic::div_mod::{lemma_breakdown, lemma_small_mod};
use vstd::prelude::*;

verus! {

/// `256` raised to the power `w`.
pub open spec fn pow256(w: nat) -> nat
    decreases w,
{
    if w == 0 {
        1
    } else {
        256 * pow256((w - 1) as nat)
    }
}

/// The `w` low-order bytes of `x`, most significant first.
pub open spec fn be_bytes(x: nat, w: nat) -> Seq<u8>
    decreases w,
{
    if w == 0 {
        Seq::empty()
    } else {
        be_bytes(x / 256, (w - 1) as nat).push((x % 256) as u8)
    }
}

/// The number whose big-endian representation is `b`.
pub open spec fn be_value(b: Seq<u8>) -> nat
    decreases b.len(),
{
    if b.len() == 0 {
        0
    } else {
        be_value(b.drop_last()) * 256 + b.last() as nat
    }
}

/// What reading a length prefix of width `w` from `buf` gives: nothing when `buf`
/// is shorter than the prefix, else the big-endian value of its first `w` bytes.
pub open spec fn decoded_len(buf: Seq<u8>, w: nat) -> Option<usize> {
    if buf.len() >= w {
        Some(be_value(buf.take(w as int)) as usize)
    } else {
        None
    }
}

/// The frame that carries `data` behind a prefix of width `w`.
pub open spec fn frame_of(data: Seq<u8>, w: nat) -> Seq<u8> {
    be_bytes(data.len(), w) + data
}

pub proof fn lemma_pow256_positive(w: nat)
    ensures
        pow256(w) > 0,
    decreases w,
{
    if w > 0 {
        lemma_pow256_positive((w - 1) as nat);
    }
}

pub proof fn lemma_pow256_mono(i: nat, j: nat)
    requires
        i <= j,
    ensures
        pow256(i) <= pow256(j),
    decreases j,
{
    if i < j {
        lemma_pow256_mono(i, (j - 1) as nat);
        lemma_pow256_positive((j - 1) as nat);
    }
}

pub proof fn lemma_be_bytes_len(x: nat, w: nat)
    ensures
        be_bytes(x, w).len() == w,
    decreases w,
{
    if w > 0 {
        lemma_be_bytes_len(x / 256, (w - 1) as nat);
    }
}

pub proof fn lemma_be_value_bound(b: Seq<u8>)
    ensures
        be_value(b) < pow256(b.len()),
    decreases b.len(),
{
    if b.len() > 0 {
        lemma_be_value_bound(b.drop_last());
    }
}

/// Reading back the `w` bytes of `x` gives `x` modulo `256^w`.
pub proof fn lemma_be_roundtrip(x: nat, w: nat)
    ensures
        be_value(be_bytes(x, w)) == x % pow256(w),
    decreases w,
{
    if w > 0 {
        let p = pow256((w - 1) as nat);
        lemma_pow256_positive((w - 1) as nat);
        lemma_be_roundtrip(x / 256, (w - 1) as nat);
        let b = be_bytes(x / 256, (w - 1) as nat);
        assert(be_bytes(x, w).drop_last() =~= b);
        lemma_breakdown(x as int, 256, p as int);
    }
}

/// A prefix of width `w` followed by anything reads back as the length it was
/// written from, as long as that length fits in the prefix.
pub proof fn lemma_decoded_len_of_frame(len: usize, w: nat, rest: Seq<u8>)
    requires
        len < pow256(w),
    ensures
        decoded_len(be_bytes(len as nat, w) + rest, w) == Some(len),
{
    lemma_be_bytes_len(len as nat, w);
    lemma_be_roundtrip(len as nat, w);
    assert((be_bytes(len as nat, w) + rest).take(w as int) =~= be_bytes(len as nat, w));
    lemma_small_mod(len as nat, pow256(w));
}

/// Writes the `w` low-order bytes of `x`, most significant first.
fn encode_be(x: u64, w: usize) -> (r: Vec<u8>)
    requires
        w <= 8,
    ensures
        r@ == be_bytes(x as nat, w as nat),
    decreases w,
{
    if w == 0 {
        Vec::new()
    } else {
        let mut v = encode_be(x / 256, w - 1);
        v.push((x % 256) as u8);
        v
    }
}

/// Reads the big-endian number held in the first `w` bytes of `buf`.
fn decode_be(buf: &[u8], w: usize) -> (r: u64)
    requires
        w <= 8,
        buf@.len() >= w,
    ensures
        r as nat == be_value(buf@.take(w as int)),
{
    let mut v: u64 = 0;
    let mut i: usize = 0;
    while i < w
        invariant
            i <= w <= 8,
            buf@.len() >= w,
            v as nat == be_value(buf@.take(i as int)),
        decreases w - i,
    {
        proof {
            lemma_be_value_bound(buf@.take(i as int));
            lemma_pow256_mono(i as nat, 7);
            reveal_with_fuel(pow256, 8);
            assert(buf@.take(i + 1).drop_last() =~= buf@.take(i as int));
        }
        v = v * 256 + buf[i] as u64;
        i = i + 1;
    }
    v
}

/// The encoding of item lengths as fixed-width prefixes.
///
/// Implemented for `u64`, `u32`, `u16`, `u8` (big-endian) and `()` (no prefix).
pub trait FrameLen {
    /// The number of bytes of the prefix.
    spec fn spec_width() -> nat;

    /// The width is at most eight bytes.
    proof fn lemma_width_bound()
        ensures
            Self::spec_width() <= 8,
    ;

    /// The number of bytes of the prefix.
    fn prefix_len() -> (r: usize)
        ensures
            r == Self::spec_width(),
    ;

    /// Encodes a data length as a length prefix: its low-order bytes, big-endian.
    fn encode_len(len: usize) -> (r: Vec<u8>)
        ensures
            r@ == be_bytes(len as nat, Self::spec_width()),
    ;

    /// Decodes a data length from a buffer prefix.
    /// Returns `None` if the buffer doesn't contain enough bytes for the prefix.
    fn decode_len(buf: &[u8]) -> (r: Option<usize>)
        ensures
            r == decoded_len(buf@, Self::spec_width()),
    ;
}

impl FrameLen for u64 {
    open spec fn spec_width() -> nat {
        8
    }

    proof fn lemma_width_bound() {
    }

    fn prefix_len() -> (r: usize) {
        8
    }

    fn encode_len(len: usize) -> (r: Vec<u8>) {
        encode_be(len as u64, 8)
    }

    fn decode_len(buf: &[u8]) -> (r: Option<usize>) {
        if buf.len() < 8 {
            None
        } else {
            Some(decode_be(buf, 8) as usize)
        }
    }
}

impl FrameLen for u32 {
    open spec fn spec_width() -> nat {
        4
    }

    proof fn lemma_width_bound() {
    }

    fn prefix_len() -> (r: usize) {
        4
    }

    fn encode_len(len: usize) -> (r: Vec<u8>) {
        encode_be(len as u64, 4)
    }

    fn decode_len(buf: &[u8]) -> (r: Option<usize>) {
        if buf.len() < 4 {
            None
        } else {
            let v = decode_be(buf, 4);
            proof {
                lemma_be_value_bound(buf@.take(4));
                reveal_with_fuel(pow256, 5);
            }
            Some(v as usize)
        }
    }
}

impl FrameLen for u16 {
    open spec fn spec_width() -> nat {
        2
    }

    proof fn lemma_width_bound() {
    }

    fn prefix_len() -> (r: usize) {
        2
    }

    fn encode_len(len: usize) -> (r: Vec<u8>) {
        encode_be(len as u64, 2)
    }

    fn decode_len(buf: &[u8]) -> (r: Option<usize>) {
        if buf.len() < 2 {
            None
        } else {
            let v = decode_be(buf, 2);
            proof {
                lemma_be_value_bound(buf@.take(2));
                reveal_with_fuel(pow256, 3);
            }
            Some(v as usize)
        }
    }
}

impl FrameLen for u8 {
    open spec fn spec_width() -> nat {
        1
    }

    proof fn lemma_width_bound() {
    }

    fn prefix_len() -> (r: usize) {
        1
    }

    fn encode_len(len: usize) -> (r: Vec<u8>) {
        encode_be(len as u64, 1)
    }

    fn decode_len(buf: &[u8]) -> (r: Option<usize>) {
        if buf.len() < 1 {
            None
        } else {
            let v = decode_be(buf, 1);
            proof {
                lemma_be_value_bound(buf@.take(1));
                reveal_with_fuel(pow256, 2);
            }
            Some(v as usize)
        }
    }
}

impl FrameLen for () {
    open spec fn spec_width() -> nat {
        0
    }

    proof fn lemma_width_bound() {
    }

    fn prefix_len() -> (r: usize) {
        0
    }

    fn encode_len(len: usize) -> (r: Vec<u8>) {
        Vec::new()
    }

    fn decode_len(buf: &[u8]) -> (r: Option<usize>) {
        assert(buf@.take(0) =~= Seq::<u8>::empty());
        Some(0)
    }
}

/// Frames one item: its length prefix followed by its bytes.
///
/// With a prefix of width zero (raw mode) the frame is the item itself.
pub fn frame_item<N: FrameLen>(data: &[u8]) -> (r: Vec<u8>)
    ensures
        r@ == frame_of(data@, N::spec_width()),
{
    let mut framed = N::encode_len(data.len());
    framed.extend_from_slice(data);
    assert(framed@ =~= frame_of(data@, N::spec_width()));
    framed
}

/// A stream with configurable length-prefix framing.
///
/// `N` (default `u16`) controls the length-prefix size:
/// `u64` gives an 8-byte prefix, `u32` a 4-byte one, `u16` 2 bytes, `u8` 1 byte,
/// and `()` no prefix at all (raw stream: each chunk is one item).
pub struct FramedBox<S: ?Sized, N = u16> {
    inner: Box<S>,
    _len: PhantomData<N>,
}

impl<S: ?Sized, N> FramedBox<S, N> {
    /// The boxed stream.
    pub closed spec fn inner(&self) -> Box<S> {
        self.inner
    }

    /// Wraps an already boxed stream.
    pub fn new(inner: Box<S>) -> (r: Self)
        ensures
            r.inner() == inner,
    {
        FramedBox { inner, _len: PhantomData }
    }

    /// Gives the boxed stream back.
    pub fn into_inner(self) -> (r: Box<S>)
        ensures
            r == self.inner(),
    {
        self.inner
    }
}

impl<S, N> FramedBox<S, N> {
    /// Creates a new `FramedBox` by boxing the given stream.
    pub fn pin(stream: S) -> (r: Self)
        ensures
            *r.inner() == stream,
    {
        FramedBox { inner: Box::new(stream), _len: PhantomData }
    }
}

/// The first complete frame at the front of `buf`, as the item and what follows it.
///
/// There is none in raw mode (`w == 0`), when the prefix is not all there yet, or
/// when fewer bytes than the prefix announces follow it.
pub open spec fn next_frame(buf: Seq<u8>, w: nat) -> Option<(Seq<u8>, Seq<u8>)> {
    if w == 0 {
        None
    } else {
        match decoded_len(buf, w) {
            Some(len) => if len <= buf.len() - w {
                Some((buf.subrange(w as int, w + len), buf.skip(w + len)))
            } else {
                None
            },
            None => None,
        }
    }
}

/// The frames of `items`, one after the other.
pub open spec fn frames_of(items: Seq<Seq<u8>>, w: nat) -> Seq<u8>
    decreases items.len(),
{
    if items.len() == 0 {
        Seq::empty()
    } else {
        frame_of(items[0], w) + frames_of(items.drop_first(), w)
    }
}

/// Every item fits the prefix width (and in memory).
pub open spec fn all_fit(items: Seq<Seq<u8>>, w: nat) -> bool {
    forall|i: int|
        0 <= i < items.len() ==> #[trigger] items[i].len() < pow256(w) && items[i].len()
            <= usize::MAX
}

/// The items obtained by taking frames from the front of `buf` until none is
/// complete, and the bytes left over.
pub open spec fn deframe(buf: Seq<u8>, w: nat) -> (Seq<Seq<u8>>, Seq<u8>)
    decreases buf.len(),
{
    match next_frame(buf, w) {
        Some((item, rest)) => if rest.len() < buf.len() {
            let (items, tail) = deframe(rest, w);
            (seq![item] + items, tail)
        } else {
            (Seq::empty(), buf)
        },
        None => (Seq::empty(), buf),
    }
}

/// A frame followed by anything gives back its item first, then what follows.
pub proof fn lemma_next_frame_of(data: Seq<u8>, rest: Seq<u8>, w: nat)
    requires
        w > 0,
        data.len() < pow256(w),
        data.len() <= usize::MAX,
    ensures
        next_frame(frame_of(data, w) + rest, w) == Some((data, rest)),
{
    let len = data.len();
    lemma_pow256_mono(w, w);
    lemma_be_bytes_len(len, w);
    let buf = frame_of(data, w) + rest;
    assert(buf =~= be_bytes(len, w) + (data + rest));
    lemma_decoded_len_of_frame(len as usize, w, data + rest);
    assert(buf.subrange(w as int, (w + len) as int) =~= data);
    assert(buf.skip((w + len) as int) =~= rest);
}

/// Framing a sequence of items and taking the frames back gives the items, with
/// nothing left over: the wire format of framed streams round-trips.
pub proof fn lemma_deframe_frames(items: Seq<Seq<u8>>, w: nat)
    requires
        w > 0,
        all_fit(items, w),
    ensures
        deframe(frames_of(items, w), w) == (items, Seq::<u8>::empty()),
    decreases items.len(),
{
    if items.len() == 0 {
        assert(next_frame(Seq::<u8>::empty(), w) is None);
    } else {
        let rest = frames_of(items.drop_first(), w);
        assert(all_fit(items.drop_first(), w)) by {
            assert forall|i: int| 0 <= i < items.drop_first().len() implies
                #[trigger] items.drop_first()[i].len() < pow256(w) && items.drop_first()[i].len()
                    <= usize::MAX by {
                assert(items.drop_first()[i] == items[i + 1]);
            }
        }
        assert(items[0].len() < pow256(w) && items[0].len() <= usize::MAX);
        lemma_next_frame_of(items[0], rest, w);
        lemma_be_bytes_len(items[0].len(), w);
        lemma_deframe_frames(items.drop_first(), w);
        assert(seq![items[0]] + items.drop_first() =~= items);
    }
}

/// The frames of the first `k + 1` items: the first frame, then those of the
/// next `k` items.
proof fn lemma_frames_of_take(items: Seq<Seq<u8>>, w: nat, k: int)
    requires
        0 <= k < items.len(),
    ensures
        frames_of(items.take(k + 1), w) == frame_of(items[0], w) + frames_of(
            items.drop_first().take(k),
            w,
        ),
{
    let t = items.take(k + 1);
    assert(t[0] == items[0]);
    assert(t.drop_first() =~= items.drop_first().take(k));
}

/// The bytes of a frame cut short: before the whole prefix is there, or before
/// all of the item is, no frame can be taken.
proof fn lemma_next_frame_cut(data: Seq<u8>, w: nat, n: int)
    requires
        w > 0,
        data.len() < pow256(w),
        data.len() <= usize::MAX,
        0 <= n < frame_of(data, w).len(),
    ensures
        next_frame(frame_of(data, w).take(n), w) is None,
{
    let len = data.len();
    lemma_be_bytes_len(len, w);
    let buf = frame_of(data, w).take(n);
    if n >= w {
        assert(buf =~= be_bytes(len, w) + data.take(n - w));
        lemma_decoded_len_of_frame(len as usize, w, data.take(n - w));
    }
}

/// Framed items arrive whole and in order, however the bytes are cut into
/// chunks: the first `n` bytes of the frames of `items` give exactly the items
/// whose frames lie wholly within them, in order, and nothing more.
pub proof fn lemma_deframe_prefix(items: Seq<Seq<u8>>, w: nat, n: int)
    requires
        w > 0,
        all_fit(items, w),
        0 <= n <= frames_of(items, w).len(),
    ensures
        ({
            let got = deframe(frames_of(items, w).take(n), w).0;
            &&& got.len() <= items.len()
            &&& got == items.take(got.len() as int)
            &&& frames_of(items.take(got.len() as int), w).len() <= n
            &&& got.len() < items.len() ==> frames_of(items.take(got.len() + 1 as int), w).len() > n
        }),
    decreases items.len(),
{
    let all = frames_of(items, w);
    let buf = all.take(n);
    if items.len() == 0 {
        assert(buf =~= Seq::<u8>::empty());
        assert(next_frame(buf, w) is None);
        assert(items.take(0) =~= Seq::<Seq<u8>>::empty());
    } else {
        let first = frame_of(items[0], w);
        let rest_items = items.drop_first();
        let rest = frames_of(rest_items, w);
        assert(items[0].len() < pow256(w) && items[0].len() <= usize::MAX);
        assert(all_fit(rest_items, w)) by {
            assert forall|i: int| 0 <= i < rest_items.len() implies #[trigger] rest_items[i].len()
                < pow256(w) && rest_items[i].len() <= usize::MAX by {
                assert(rest_items[i] == items[i + 1]);
            }
        }
        lemma_be_bytes_len(items[0].len(), w);
        assert(all == first + rest);
        lemma_frames_of_take(items, w, 0);
        assert(items.drop_first().take(0) =~= Seq::<Seq<u8>>::empty());
        assert(items.take(1) =~= seq![items[0]]);
        if n >= first.len() {
            let m = n - first.len();
            assert(buf =~= first + rest.take(m));
            lemma_next_frame_of(items[0], rest.take(m), w);
            lemma_deframe_prefix(rest_items, w, m);
            let sub = deframe(rest.take(m), w).0;
            let got = deframe(buf, w).0;
            assert(got =~= seq![items[0]] + sub);
            assert(got =~= items.take(got.len() as int)) by {
                assert forall|i: int| 0 <= i < got.len() implies got[i] == items.take(
                    got.len() as int,
                )[i] by {
                    if i > 0 {
                        assert(got[i] == sub[i - 1]);
                        assert(sub[i - 1] == rest_items.take(sub.len() as int)[i - 1]);
                    }
                }
            }
            lemma_frames_of_take(items, w, sub.len() as int);
            if got.len() < items.len() {
                lemma_frames_of_take(items, w, (sub.len() + 1) as int);
            }
        } else {
            assert(buf =~= first.take(n));
            lemma_next_frame_cut(items[0], w, n);
            assert(deframe(buf, w).0 =~= Seq::<Seq<u8>>::empty());
            assert(items.take(0) =~= Seq::<Seq<u8>>::empty());
            assert(frames_of(Seq::<Seq<u8>>::empty(), w) =~= Seq::<u8>::empty());
        }
    }
}

/// What polling the body underneath a framed stream gave.
pub enum BodyPoll<E> {
    /// A chunk of bytes.
    Chunk(Vec<u8>),
    /// The body failed.
    Failed(E),
    /// The body has ended.
    End,
    /// Nothing is ready yet.
    Pending,
}

/// What a framed stream yields for one poll.
pub enum FramePoll<E> {
    /// A complete item.
    Item(Vec<u8>),
    /// The body failed with this error.
    Failed(E),
    /// The body ended in the middle of a frame.
    Incomplete,
    /// The stream has ended.
    End,
    /// Nothing to yield now; `rewake` asks to be polled again at once.
    Pending { rewake: bool },
}

/// Reassembles frames of width `N` from chunks that split them arbitrarily.
pub struct FrameBuffer<N> {
    buffer: Vec<u8>,
    _len: PhantomData<N>,
}

impl<N: FrameLen> FrameBuffer<N> {
    /// The bytes received and not yet handed out as items.
    pub closed spec fn pending(&self) -> Seq<u8> {
        self.buffer@
    }

    /// An empty buffer.
    pub fn new() -> (r: Self)
        ensures
            r.pending() == Seq::<u8>::empty(),
    {
        FrameBuffer { buffer: Vec::new(), _len: PhantomData }
    }

    /// Appends a received chunk.
    pub fn push_chunk(&mut self, chunk: &[u8])
        ensures
            final(self).pending() == old(self).pending() + chunk@,
    {
        self.buffer.extend_from_slice(chunk);
        assert(self.buffer@ =~= old(self).pending() + chunk@);
    }

    /// Takes the first complete frame out of the buffer, if there is one.
    pub fn take_frame(&mut self) -> (r: Option<Vec<u8>>)
        ensures
            match next_frame(old(self).pending(), N::spec_width()) {
                Some((item, rest)) => r == Some::<Vec<u8>>(r->0) && r->0@ == item
                    && final(self).pending() == rest,
                None => r is None && final(self).pending() == old(self).pending(),
            },
    {
        let w = N::prefix_len();
        if w == 0 {
            return None;
        }
        match N::decode_len(self.buffer.as_slice()) {
            Some(len) => {
                if len <= self.buffer.len() - w {
                    let rest = self.buffer.split_off(w + len);
                    let item = self.buffer.split_off(w);
                    self.buffer = rest;
                    assert(item@ =~= old(self).pending().subrange(w as int, w + len));
                    Some(item)
                } else {
                    None
                }
            },
            None => None,
        }
    }

    /// One poll of a framed stream, after [`Self::take_frame`] found no complete
    /// frame: handles what the body gave.
    ///
    /// In raw mode every chunk is an item. Otherwise a chunk is buffered and the
    /// stream asks to be polled again; the end of the body ends the stream when
    /// nothing is buffered and reports an incomplete frame otherwise.
    pub fn on_body<E>(&mut self, polled: BodyPoll<E>) -> (r: FramePoll<E>)
        ensures
            N::spec_width() == 0 ==> final(self).pending() == old(self).pending(),
            match polled {
                BodyPoll::Chunk(bytes) => if N::spec_width() == 0 {
                    r == FramePoll::<E>::Item(bytes)
                } else {
                    r == FramePoll::<E>::Pending { rewake: true } && final(self).pending()
                        == old(self).pending() + bytes@
                },
                BodyPoll::Failed(e) => r == FramePoll::<E>::Failed(e) && final(self).pending()
                    == old(self).pending(),
                BodyPoll::End => final(self).pending() == old(self).pending() && if N::spec_width()
                    == 0 || old(self).pending().len() == 0 {
                    r is End
                } else {
                    r is Incomplete
                },
                BodyPoll::Pending => r == FramePoll::<E>::Pending { rewake: false }
                    && final(self).pending() == old(self).pending(),
            },
    {
        let raw = N::prefix_len() == 0;
        match polled {
            BodyPoll::Chunk(bytes) => {
                if raw {
                    FramePoll::Item(bytes)
                } else {
                    self.push_chunk(bytes.as_slice());
                    FramePoll::Pending { rewake: true }
                }
            },
            BodyPoll::Failed(e) => FramePoll::Failed(e),
            BodyPoll::End => {
                if raw || self.buffer.len() == 0 {
                    FramePoll::End
                } else {
                    FramePoll::Incomplete
                }
            },
            BodyPoll::Pending => FramePoll::Pending { rewake: false },
        }
    }
}

} // verus!
