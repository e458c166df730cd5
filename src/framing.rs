//! Message framing: each message travels as a four-byte big-endian length followed by
//! that many bytes. A reader buffers a trailing partial frame until the rest arrives.
use vstd::prelude::*;

verus! {

/// The largest payload that a frame can carry.
pub const MAX_FRAME_LEN: u64 = 0xffff_ffff;

/// The length that a four-byte big-endian header states.
pub open spec fn header_len(b: Seq<u8>) -> int {
    (b[0] as int) * 16777216 + (b[1] as int) * 65536 + (b[2] as int) * 256 + (b[3] as int)
}

/// The four-byte big-endian header for length `n`.
pub open spec fn header_of(n: nat) -> Seq<u8> {
    seq![(n / 16777216) as u8, ((n / 65536) % 256) as u8, ((n / 256) % 256) as u8, (n % 256) as u8]
}

/// One message as a frame.
pub open spec fn frame(m: Seq<u8>) -> Seq<u8> {
    header_of(m.len()) + m
}

/// Messages framed back to back.
pub open spec fn frames(ms: Seq<Seq<u8>>) -> Seq<u8>
    decreases ms.len(),
{
    if ms.len() == 0 {
        Seq::empty()
    } else {
        frame(ms[0]) + frames(ms.drop_first())
    }
}

/// Whether `b` begins with a whole frame.
pub open spec fn has_frame(b: Seq<u8>) -> bool {
    b.len() >= 4 && b.len() >= 4 + header_len(b)
}

/// The payloads of the whole frames at the start of `b`, in order.
pub open spec fn decoded(b: Seq<u8>) -> Seq<Seq<u8>>
    decreases b.len(),
{
    if has_frame(b) {
        seq![b.subrange(4, 4 + header_len(b))] + decoded(b.skip(4 + header_len(b)))
    } else {
        Seq::empty()
    }
}

/// What remains of `b` after its whole frames: the start of an incomplete frame.
pub open spec fn leftover(b: Seq<u8>) -> Seq<u8>
    decreases b.len(),
{
    if has_frame(b) {
        leftover(b.skip(4 + header_len(b)))
    } else {
        b
    }
}

/// All chunks joined in order.
pub open spec fn joined(cs: Seq<Seq<u8>>) -> Seq<u8>
    decreases cs.len(),
{
    if cs.len() == 0 {
        Seq::empty()
    } else {
        cs[0] + joined(cs.drop_first())
    }
}

/// What a reader holding `pending` hands out when fed `cs` chunk by chunk.
pub open spec fn fed(pending: Seq<u8>, cs: Seq<Seq<u8>>) -> Seq<Seq<u8>>
    decreases cs.len(),
{
    if cs.len() == 0 {
        Seq::empty()
    } else {
        decoded(pending + cs[0]) + fed(leftover(pending + cs[0]), cs.drop_first())
    }
}

/// What a reader holding `pending` holds after being fed `cs` chunk by chunk.
pub open spec fn fed_leftover(pending: Seq<u8>, cs: Seq<Seq<u8>>) -> Seq<u8>
    decreases cs.len(),
{
    if cs.len() == 0 {
        pending
    } else {
        fed_leftover(leftover(pending + cs[0]), cs.drop_first())
    }
}

pub proof fn lemma_header_round_trip(n: nat)
    requires
        n <= MAX_FRAME_LEN,
    ensures
        header_of(n).len() == 4,
        header_len(header_of(n)) == n as int,
{
    let h = header_of(n);
    assert(n / 16777216 < 256) by (nonlinear_arith)
        requires n <= 0xffff_ffff;
    assert(h[0] as int == n / 16777216);
    assert(h[1] as int == (n / 65536) % 256);
    assert(h[2] as int == (n / 256) % 256);
    assert(h[3] as int == n % 256);
    assert((n / 16777216) * 16777216 + ((n / 65536) % 256) * 65536 + ((n / 256) % 256) * 256 + n
        % 256 == n) by (nonlinear_arith);
}

/// Bytes appended after a prefix do not change the frames that the prefix completes.
pub proof fn lemma_decoded_append(a: Seq<u8>, c: Seq<u8>)
    ensures
        decoded(a + c) == decoded(a) + decoded(leftover(a) + c),
        leftover(a + c) == leftover(leftover(a) + c),
    decreases a.len(),
{
    if has_frame(a) {
        let n: int = header_len(a);
        assert((a + c).subrange(0, 4) == a.subrange(0, 4));
        assert(header_len(a + c) == n);
        assert((a + c).skip(4 + n) =~= a.skip(4 + n) + c);
        assert((a + c).subrange(4, 4 + n) =~= a.subrange(4, 4 + n));
        lemma_decoded_append(a.skip(4 + n), c);
        assert(decoded(a + c) =~= decoded(a) + decoded(leftover(a) + c));
    } else {
        assert(decoded(a) =~= Seq::empty());
        assert(decoded(a) + decoded(leftover(a) + c) =~= decoded(a + c));
    }
}

/// Framing round trip: messages framed back to back decode to the same messages, in
/// order, with nothing left over.
pub proof fn lemma_frames_round_trip(ms: Seq<Seq<u8>>)
    requires
        forall|i: int| 0 <= i < ms.len() ==> (#[trigger] ms[i]).len() <= MAX_FRAME_LEN,
    ensures
        decoded(frames(ms)) == ms,
        leftover(frames(ms)) == Seq::<u8>::empty(),
    decreases ms.len(),
{
    if ms.len() == 0 {
        assert(!has_frame(Seq::<u8>::empty()));
        assert(decoded(Seq::<u8>::empty()) =~= Seq::empty());
    } else {
        let m = ms[0];
        let k: int = m.len() as int;
        let rest = ms.drop_first();
        assert forall|i: int| 0 <= i < rest.len() implies (#[trigger] rest[i]).len()
            <= MAX_FRAME_LEN by {
            assert(rest[i] == ms[i + 1]);
        }
        lemma_frames_round_trip(rest);
        lemma_header_round_trip(m.len());
        let b = frames(ms);
        assert(b.subrange(0, 4) =~= header_of(m.len()));
        assert(header_len(b) == k);
        assert(b.subrange(4, 4 + k) =~= m);
        assert(b.skip(4 + k) =~= frames(rest));
        assert(decoded(b) =~= seq![m] + rest);
        assert(seq![m] + rest =~= ms);
    }
}

/// What is left over never holds a whole frame.
pub proof fn lemma_leftover_whole(b: Seq<u8>)
    ensures
        !has_frame(leftover(b)),
    decreases b.len(),
{
    if has_frame(b) {
        lemma_leftover_whole(b.skip(4 + header_len(b)));
    }
}

/// Chunking does not matter: feeding chunks one by one hands out the frames of their
/// concatenation and keeps what is left of it.
pub proof fn lemma_fed_chunks(pending: Seq<u8>, cs: Seq<Seq<u8>>)
    requires
        !has_frame(pending),
    ensures
        fed(pending, cs) == decoded(pending + joined(cs)),
        fed_leftover(pending, cs) == leftover(pending + joined(cs)),
    decreases cs.len(),
{
    if cs.len() == 0 {
        assert(pending + joined(cs) =~= pending);
        assert(decoded(pending) =~= Seq::empty());
    } else {
        let c = cs[0];
        let a = pending + c;
        lemma_leftover_whole(a);
        lemma_fed_chunks(leftover(a), cs.drop_first());
        lemma_decoded_append(a, joined(cs.drop_first()));
        assert(pending + joined(cs) =~= a + joined(cs.drop_first()));
    }
}

/// Framing round trip over a stream cut anywhere: N messages framed back to back and fed
/// to a fresh reader in arbitrary chunks come out as exactly those N messages, in order.
pub proof fn lemma_stream_round_trip(ms: Seq<Seq<u8>>, cs: Seq<Seq<u8>>)
    requires
        forall|i: int| 0 <= i < ms.len() ==> (#[trigger] ms[i]).len() <= MAX_FRAME_LEN,
        joined(cs) == frames(ms),
    ensures
        fed(Seq::empty(), cs) == ms,
        fed_leftover(Seq::empty(), cs) == Seq::<u8>::empty(),
{
    assert(!has_frame(Seq::<u8>::empty()));
    lemma_fed_chunks(Seq::empty(), cs);
    assert(Seq::<u8>::empty() + joined(cs) =~= frames(ms));
    lemma_frames_round_trip(ms);
}

/// The views of a list of byte vectors.
pub open spec fn payloads(v: Seq<Vec<u8>>) -> Seq<Seq<u8>> {
    Seq::new(v.len(), |i: int| v[i]@)
}

/// The bytes of `b` from `lo` up to `hi`.
fn copy_range(b: &Vec<u8>, lo: usize, hi: usize) -> (r: Vec<u8>)
    requires
        lo <= hi <= b@.len(),
    ensures
        r@ == b@.subrange(lo as int, hi as int),
{
    let mut r: Vec<u8> = Vec::new();
    let mut i: usize = lo;
    while i < hi
        invariant
            lo <= i <= hi,
            hi <= b@.len(),
            r@ == b@.subrange(lo as int, i as int),
        decreases hi - i,
    {
        r.push(b[i]);
        i = i + 1;
        assert(r@ =~= b@.subrange(lo as int, i as int));
    }
    r
}

/// One message as a frame: its length in four big-endian bytes, then the message.
pub fn encode_frame(payload: &Vec<u8>) -> (r: Vec<u8>)
    requires
        payload@.len() <= MAX_FRAME_LEN,
    ensures
        r@ == frame(payload@),
{
    let n: u64 = payload.len() as u64;
    let mut r: Vec<u8> = Vec::new();
    r.push((n / 16777216) as u8);
    r.push(((n / 65536) % 256) as u8);
    r.push(((n / 256) % 256) as u8);
    r.push((n % 256) as u8);
    let mut i: usize = 0;
    while i < payload.len()
        invariant
            i <= payload@.len(),
            r@ == header_of(payload@.len()) + payload@.subrange(0, i as int),
        decreases payload@.len() - i,
    {
        r.push(payload[i]);
        i = i + 1;
        assert(r@ =~= header_of(payload@.len()) + payload@.subrange(0, i as int));
    }
    assert(payload@.subrange(0, payload@.len() as int) =~= payload@);
    r
}

/// Reassembles frames from a byte stream that arrives in chunks of any size.
pub struct FrameReader {
    pending: Vec<u8>,
}

impl View for FrameReader {
    type V = Seq<u8>;

    /// The bytes received and not yet handed out: the start of an incomplete frame.
    closed spec fn view(&self) -> Seq<u8> {
        self.pending@
    }
}

impl FrameReader {
    pub closed spec fn wf(&self) -> bool {
        !has_frame(self.pending@)
    }

    /// A reader that has received nothing.
    pub fn new() -> (r: FrameReader)
        ensures
            r.wf(),
            r@ == Seq::<u8>::empty(),
    {
        FrameReader { pending: Vec::new() }
    }

    /// Takes the next chunk of the stream and hands out, in order, the payload of each
    /// frame that it completes; keeps the bytes of a frame that is not complete yet.
    pub fn push(&mut self, chunk: &[u8]) -> (r: Vec<Vec<u8>>)
        requires
            old(self).wf(),
        ensures
            final(self).wf(),
            payloads(r@) == decoded(old(self)@ + chunk@),
            final(self)@ == leftover(old(self)@ + chunk@),
    {
        let ghost all = self.pending@ + chunk@;
        let mut buf: Vec<u8> = Vec::new();
        std::mem::swap(&mut buf, &mut self.pending);
        let mut j: usize = 0;
        while j < chunk.len()
            invariant
                j <= chunk@.len(),
                buf@ == old(self)@ + chunk@.subrange(0, j as int),
            decreases chunk@.len() - j,
        {
            buf.push(chunk[j]);
            j = j + 1;
            assert(buf@ =~= old(self)@ + chunk@.subrange(0, j as int));
        }
        assert(chunk@.subrange(0, chunk@.len() as int) =~= chunk@);
        let mut out: Vec<Vec<u8>> = Vec::new();
        let mut pos: usize = 0;
        proof {
            assert(buf@.skip(0) =~= buf@);
            assert(payloads(out@) =~= Seq::<Seq<u8>>::empty());
        }
        while buf.len() - pos >= 4
            invariant
                buf@ == all,
                pos <= buf@.len(),
                decoded(all) == payloads(out@) + decoded(all.skip(pos as int)),
                leftover(all) == leftover(all.skip(pos as int)),
            ensures
                pos <= buf@.len(),
                decoded(all) == payloads(out@) + decoded(all.skip(pos as int)),
                leftover(all) == leftover(all.skip(pos as int)),
                !has_frame(all.skip(pos as int)),
            decreases buf@.len() - pos,
        {
            let ghost b = all.skip(pos as int);
            let n: u64 = (buf[pos] as u64) * 16777216 + (buf[pos + 1] as u64) * 65536 + (buf[pos
                + 2] as u64) * 256 + (buf[pos + 3] as u64);
            assert(n == header_len(b));
            if n > (buf.len() - pos - 4) as u64 {
                assert(!has_frame(b));
                break;
            }
            let end: usize = pos + 4 + n as usize;
            let payload = copy_range(&buf, pos + 4, end);
            proof {
                assert(has_frame(b));
                assert(payload@ =~= b.subrange(4, 4 + header_len(b)));
                assert(b.skip(4 + header_len(b)) =~= all.skip(end as int));
            }
            let ghost seen = payloads(out@);
            out.push(payload);
            proof {
                assert(payloads(out@) =~= seen.push(payload@));
                assert(decoded(all) =~= payloads(out@) + decoded(all.skip(end as int)));
            }
            pos = end;
        }
        proof {
            let b = all.skip(pos as int);
            assert(decoded(b) =~= Seq::empty());
            assert(decoded(all) =~= payloads(out@));
        }
        self.pending = copy_range(&buf, pos, buf.len());
        assert(self.pending@ =~= all.skip(pos as int));
        out
    }
}

} // verus!
