//! Incremental SHA-256.

use vstd::prelude::*;
use vstd::arithmetic::div_mod::lemma_mul_mod_noop_right;
use crate::bytes;
use crate::sha2_laws;
use crate::sha2_model as model;

verus! {

/// A SHA-256 computation in progress. Its view is the message taken in so far.
pub struct Sha256 {
    state: [u32; 8],
    len: u64,
    buf: [u8; 64],
    pos: usize,
    msg: Ghost<Seq<u8>>,
}

fn rotr(x: u32, n: u32) -> (r: u32)
    requires
        0 < n < 32,
    ensures
        r == model::rotr(x, n),
{
    (x >> n) | (x << (32 - n))
}

fn add32(x: u32, y: u32) -> (r: u32)
    ensures
        r == model::add32(x, y),
{
    x.wrapping_add(y)
}

/// The hash value of the first `n` blocks does not depend on what follows them.
pub proof fn lemma_hash_blocks_prefix(data: Seq<u8>, more: Seq<u8>, n: nat)
    requires
        64 * n <= data.len(),
    ensures
        model::hash_blocks(data + more, n) == model::hash_blocks(data, n),
    decreases n,
{
    if n > 0 {
        lemma_hash_blocks_prefix(data, more, (n - 1) as nat);
        assert((data + more).subrange(64 * (n - 1), 64 * n as int) =~= data.subrange(
            64 * (n - 1),
            64 * n as int,
        ));
    }
}

/// The last of `n` bytes of a message to be written to byte `j` of the buffer:
/// the last one whose place in its block is `j`. Negative if there is none.
pub open spec fn last_write(n: nat, j: int) -> int {
    n - 1 - (n - 1 - j) % 64
}

/// The buffer went from `before` to `after` while the message grew from `from`
/// bytes to `msg`: every byte of the buffer that was written since holds what
/// was written there last, and every other byte is as it was.
pub open spec fn buffer_written(
    before: Seq<u8>,
    after: Seq<u8>,
    from: nat,
    msg: Seq<u8>,
) -> bool {
    &&& after.len() == 64
    &&& forall|j: int|
        0 <= j < 64 ==> #[trigger] after[j] == if last_write(msg.len(), j) >= from {
            msg[last_write(msg.len(), j)]
        } else {
            before[j]
        }
}

/// Two stretches of writing one after the other are one.
proof fn lemma_buffer_written_on(
    before: Seq<u8>,
    between: Seq<u8>,
    after: Seq<u8>,
    from: nat,
    msg: Seq<u8>,
    more: Seq<u8>,
)
    requires
        from <= msg.len(),
        buffer_written(before, between, from, msg),
        buffer_written(between, after, msg.len(), msg + more),
    ensures
        buffer_written(before, after, from, msg + more),
{
    let all = msg + more;
    assert forall|j: int| 0 <= j < 64 implies #[trigger] after[j] == if last_write(all.len(), j)
        >= from {
        all[last_write(all.len(), j)]
    } else {
        before[j]
    } by {
        if last_write(all.len(), j) < msg.len() {
            assert(after[j] == between[j]);
            assert(last_write(all.len(), j) == last_write(msg.len(), j));
        }
    }
}

/// Writing `chunk` behind the first `pos` bytes of the buffer keeps the buffer
/// in step with the unfinished block of the message.
proof fn lemma_tail_grows(
    before: Seq<u8>,
    after: Seq<u8>,
    pos: nat,
    msg: Seq<u8>,
    chunk: Seq<u8>,
)
    requires
        before.len() == 64,
        after.len() == 64,
        pos == msg.len() % 64,
        pos + chunk.len() <= 64,
        before.take(pos as int) == msg.skip(64 * (msg.len() / 64) as int),
        forall|j: int| 0 <= j < pos ==> after[j] == before[j],
        forall|j: int| pos <= j < pos + chunk.len() ==> after[j] == chunk[j - pos],
    ensures
        after.take((pos + chunk.len()) as int) == (msg + chunk).skip(
            64 * (msg.len() / 64) as int,
        ),
{
    let base = 64 * (msg.len() / 64) as int;
    assert forall|j: int| 0 <= j < pos + chunk.len() implies after[j] == (msg + chunk)[base
        + j] by {
        if j < pos {
            assert(before.take(pos as int)[j] == msg.skip(base)[j]);
        }
    }
    assert(after.take((pos + chunk.len()) as int) =~= (msg + chunk).skip(base));
}

/// What stands where in a padded message.
pub proof fn lemma_pad(msg: Seq<u8>)
    ensures
        model::pad(msg).len() == 64 * (msg.len() / 64) + if msg.len() % 64 < 56 {
            64int
        } else {
            128
        },
        forall|i: int| 0 <= i < msg.len() ==> model::pad(msg)[i] == msg[i],
        model::pad(msg)[msg.len() as int] == 0x80,
        forall|i: int|
            msg.len() < i < model::pad(msg).len() - 8 ==> model::pad(msg)[i] == 0,
        forall|i: int|
            model::pad(msg).len() - 8 <= i < model::pad(msg).len() ==> model::pad(msg)[i]
                == model::length_field(msg.len())[i - (model::pad(msg).len() - 8)],
{
    bytes::lemma_be_bytes_len((8 * msg.len()) % 0x1_0000_0000_0000_0000, 8);
}

/// Padding leaves the whole blocks of a message as they are.
proof fn lemma_hash_blocks_pad(msg: Seq<u8>)
    ensures
        model::hash_blocks(model::pad(msg), msg.len() / 64) == model::hash_blocks(
            msg,
            msg.len() / 64,
        ),
{
    lemma_pad(msg);
    let more = model::pad(msg).skip(msg.len() as int);
    assert(model::pad(msg) =~= msg + more);
    lemma_hash_blocks_prefix(msg, more, msg.len() / 64);
}

/// The hasher went from `before` to `after` by taking in the first 64 bytes of
/// `block`: the hash value is compressed with them, all else is as it was.
pub open spec fn block_taken(before: Sha256, after: Sha256, block: Seq<u8>) -> bool {
    &&& after.hash_value() == model::compress(before.hash_value(), block.take(64))
    &&& after.byte_count() == before.byte_count()
    &&& after.buffer() == before.buffer()
    &&& after.pending() == before.pending()
    &&& after@ == before@
}

impl View for Sha256 {
    type V = Seq<u8>;

    closed spec fn view(&self) -> Seq<u8> {
        self.msg@
    }
}

impl Sha256 {
    /// The eight words of the hash value.
    pub closed spec fn hash_value(self) -> Seq<u32> {
        self.state@
    }

    /// The number of bytes counted.
    pub closed spec fn byte_count(self) -> u64 {
        self.len
    }

    /// The 64 bytes of the buffer.
    pub closed spec fn buffer(self) -> Seq<u8> {
        self.buf@
    }

    /// How many bytes at the start of the buffer wait to be taken in.
    pub closed spec fn pending(self) -> usize {
        self.pos
    }

    /// The hash value covers the whole blocks of the message, the buffer starts
    /// with the bytes that are left over, and all are counted modulo 2^64.
    pub open spec fn well_formed(self) -> bool {
        let done = self@.len() / 64;
        &&& self.byte_count() == self@.len() % 0x1_0000_0000_0000_0000
        &&& self.pending() == self@.len() % 64
        &&& self.hash_value() == model::hash_blocks(self@, done)
        &&& self.buffer().take(self.pending() as int) == self@.skip(64 * done as int)
    }

    /// Starts on the empty message, with a buffer of zeros.
    pub fn new() -> (h: Self)
        ensures
            h.well_formed(),
            h@ == Seq::<u8>::empty(),
            h.buffer() == Seq::new(64, |i: int| 0u8),
    {
        let h = Sha256 {
            state: model::H,
            len: 0,
            buf: [0u8; 64],
            pos: 0,
            msg: Ghost(Seq::empty()),
        };
        assert(h.buf@.take(0) =~= h@.skip(0));
        h
    }

    /// Appends `data` to the message.
    pub fn update(&mut self, data: &[u8])
        requires
            old(self).well_formed(),
        ensures
            final(self).well_formed(),
            final(self)@ == old(self)@ + data@,
            buffer_written(
                old(self).buffer(),
                final(self).buffer(),
                old(self)@.len(),
                final(self)@,
            ),
    {
        let mut off: usize = 0;
        assert(old(self)@ + data@.take(0) =~= old(self)@);
        while off < data.len()
            invariant
                off <= data@.len(),
                self.well_formed(),
                self@ == old(self)@ + data@.take(off as int),
                buffer_written(old(self).buffer(), self.buffer(), old(self)@.len(), self@),
            decreases data@.len() - off,
        {
            let room: usize = 64 - self.pos;
            let left: usize = data.len() - off;
            let n: usize = if room < left {
                room
            } else {
                left
            };
            let ghost before = *self;
            let end: usize = off + n;
            self.fill(data, off, end);
            assert(before@ + data@.subrange(off as int, end as int) =~= old(self)@ + data@.take(
                end as int,
            ));
            proof {
                lemma_buffer_written_on(
                    old(self).buffer(),
                    before.buffer(),
                    self.buffer(),
                    old(self)@.len(),
                    before@,
                    data@.subrange(off as int, end as int),
                );
            }
            off = end;
        }
        assert(data@.take(data@.len() as int) =~= data@);
    }

    /// Appends the bytes of `data` from `off` to `end`, which must fit in the
    /// buffer, and takes the buffer in if that fills it.
    #[verifier::spinoff_prover]
    fn fill(&mut self, data: &[u8], off: usize, end: usize)
        requires
            old(self).well_formed(),
            off <= end <= data@.len(),
            end - off <= 64 - old(self).pos,
        ensures
            final(self).well_formed(),
            final(self)@ == old(self)@ + data@.subrange(off as int, end as int),
            buffer_written(
                old(self).buffer(),
                final(self).buffer(),
                old(self)@.len(),
                final(self)@,
            ),
    {
        let ghost chunk = data@.subrange(off as int, end as int);
        let ghost start = self.pos;
        let mut i: usize = off;
        while i < end
            invariant
                off <= i <= end <= data@.len(),
                start == old(self).pos,
                start + (end - off) <= 64,
                self.pos == start + (i - off),
                self.state == old(self).state,
                self.len == old(self).len,
                self.msg == old(self).msg,
                forall|j: int|
                    0 <= j < start || self.pos <= j < 64 ==> self.buf[j] == old(self).buf[j],
                forall|j: int|
                    start <= j < self.pos ==> self.buf[j] == data@[off + j - start],
            decreases end - i,
        {
            self.buf[self.pos] = data[i];
            self.pos = self.pos + 1;
            i += 1;
        }
        self.len = self.len.wrapping_add((end - off) as u64);
        self.msg = Ghost(self.msg@ + chunk);
        proof {
            lemma_tail_grows(old(self).buf@, self.buf@, start as nat, old(self)@, chunk);
            lemma_hash_blocks_prefix(old(self)@, chunk, old(self)@.len() / 64);
            assert(buffer_written(old(self).buffer(), self.buffer(), old(self)@.len(), self@));
        }
        if self.pos == 64 {
            let block: [u8; 64] = self.buf;
            self.process_block(&block);
            self.pos = 0;
            proof {
                let done = old(self)@.len() / 64;
                assert(block@.take(64) =~= block@);
                assert(block@ =~= self@.subrange(64 * done as int, 64 * (done + 1) as int));
                assert(self@.len() / 64 == done + 1);
                assert(self.buf@.take(0) =~= self@.skip(64 * (done + 1) as int));
            }
        }
    }

    /// The digest of the message.
    pub fn finalize(self) -> (out: [u8; 32])
        requires
            self.well_formed(),
        ensures
            out@ == model::sha256(self@),
    {
        let mut h = self;
        let ghost padded = model::pad(self@);
        let ghost mut done = self@.len() / 64;
        let bit_len: u64 = h.len << 3;
        proof {
            let len = h.len;
            assert(len << 3 == (len * 8) % 0x1_0000_0000_0000_0000) by (bit_vector);
            lemma_mul_mod_noop_right(8, self@.len() as int, 0x1_0000_0000_0000_0000);
            lemma_pad(self@);
            lemma_hash_blocks_pad(self@);
            assert forall|j: int| 0 <= j < h.pos implies h.buf[j] == padded[64 * done + j] by {
                assert(h.buf@.take(h.pos as int)[j] == self@.skip(64 * done as int)[j]);
            }
        }
        h.buf[h.pos] = 0x80;
        h.pos = h.pos + 1;
        if h.pos > 56 {
            h.zero_until(64);
            let block: [u8; 64] = h.buf;
            h.process_block(&block);
            h.pos = 0;
            proof {
                assert(block@.take(64) =~= block@);
                assert(block@ =~= padded.subrange(64 * done as int, 64 * (done + 1) as int));
                done = done + 1;
            }
        }
        h.zero_until(56);
        let mut i: usize = 0;
        while i < 8
            invariant
                i <= 8,
                forall|j: int| 0 <= j < 56 ==> h.buf[j] == padded[64 * done + j],
                forall|j: int|
                    0 <= j < i ==> h.buf[56 + j] == bytes::be_bytes(bit_len as nat, 8)[j],
                h.state@ == model::hash_blocks(padded, done),
            decreases 8 - i,
        {
            h.buf[56 + i] = bytes::be_byte_of_u64(bit_len, i);
            i += 1;
        }
        let block: [u8; 64] = h.buf;
        h.process_block(&block);
        proof {
            assert forall|j: int| 0 <= j < 64 implies block[j] == padded[64 * done + j] by {
                if j >= 56 {
                    assert(block[56 + (j - 56)] == bytes::be_bytes(bit_len as nat, 8)[j - 56]);
                }
            }
            assert(block@.take(64) =~= block@);
            assert(block@ =~= padded.subrange(64 * done as int, 64 * (done + 1) as int));
            assert(padded.len() / 64 == done + 1);
        }
        let mut out: [u8; 32] = [0u8; 32];
        let mut k: usize = 0;
        while k < 8
            invariant
                k <= 8,
                forall|j: int| 0 <= j < 4 * k ==> out[j] == model::words_to_bytes(h.state@)[j],
            decreases 8 - k,
        {
            let word: [u8; 4] = bytes::be_bytes_of_u32(h.state[k]);
            out[4 * k] = word[0];
            out[4 * k + 1] = word[1];
            out[4 * k + 2] = word[2];
            out[4 * k + 3] = word[3];
            k += 1;
        }
        assert(out@ =~= model::words_to_bytes(h.state@));
        out
    }

    /// Writes zeros into the buffer up to `stop`.
    fn zero_until(&mut self, stop: usize)
        requires
            old(self).pos <= stop <= 64,
        ensures
            final(self).state == old(self).state,
            final(self).pos == stop,
            forall|j: int| 0 <= j < old(self).pos ==> final(self).buf[j] == old(self).buf[j],
            forall|j: int| old(self).pos <= j < stop ==> final(self).buf[j] == 0,
    {
        while self.pos < stop
            invariant
                old(self).pos <= self.pos <= stop <= 64,
                self.state == old(self).state,
                forall|j: int| 0 <= j < old(self).pos ==> self.buf[j] == old(self).buf[j],
                forall|j: int| old(self).pos <= j < self.pos ==> self.buf[j] == 0,
            decreases stop - self.pos,
        {
            self.buf[self.pos] = 0;
            self.pos = self.pos + 1;
        }
    }

    /// Takes one block into the hash value. Bytes past the first 64 are not
    /// looked at.
    fn process_block(&mut self, block: &[u8])
        requires
            block@.len() >= 64,
        ensures
            block_taken(*old(self), *final(self), block@),
            final(self).buf == old(self).buf,
    {
        let ghost h = self.state@;
        let ghost b = block@.take(64);
        let mut w: [u32; 64] = [0u32; 64];
        let mut i: usize = 0;
        while i < 16
            invariant
                i <= 16,
                block@.len() >= 64,
                b == block@.take(64),
                forall|j: int| 0 <= j < i ==> w[j] == model::schedule(b, j as nat),
            decreases 16 - i,
        {
            w[i] = bytes::u32_of_be_bytes(
                block[4 * i],
                block[4 * i + 1],
                block[4 * i + 2],
                block[4 * i + 3],
            );
            assert(b.subrange(4 * i, 4 * i + 4) =~= seq![
                block@[4 * i],
                block@[4 * i + 1],
                block@[4 * i + 2],
                block@[4 * i + 3],
            ]);
            i += 1;
        }
        while i < 64
            invariant
                16 <= i <= 64,
                block@.len() >= 64,
                b == block@.take(64),
                forall|j: int| 0 <= j < i ==> w[j] == model::schedule(b, j as nat),
            decreases 64 - i,
        {
            let s0: u32 = rotr(w[i - 15], 7) ^ rotr(w[i - 15], 18) ^ (w[i - 15] >> 3);
            let s1: u32 = rotr(w[i - 2], 17) ^ rotr(w[i - 2], 19) ^ (w[i - 2] >> 10);
            w[i] = add32(add32(add32(w[i - 16], s0), w[i - 7]), s1);
            i += 1;
        }
        let mut a: [u32; 8] = self.state;
        let mut t: usize = 0;
        while t < 64
            invariant
                t <= 64,
                a@ == model::rounds(h, b, t as nat),
                forall|j: int| 0 <= j < 64 ==> w[j] == model::schedule(b, j as nat),
            decreases 64 - t,
        {
            let ghost v = a@;
            let s1: u32 = rotr(a[4], 6) ^ rotr(a[4], 11) ^ rotr(a[4], 25);
            let ch: u32 = (a[4] & a[5]) ^ ((!a[4]) & a[6]);
            let temp1: u32 = add32(add32(add32(add32(a[7], s1), ch), model::K[t]), w[t]);
            let s0: u32 = rotr(a[0], 2) ^ rotr(a[0], 13) ^ rotr(a[0], 22);
            let maj: u32 = (a[0] & a[1]) ^ (a[0] & a[2]) ^ (a[1] & a[2]);
            let temp2: u32 = add32(s0, maj);
            a[7] = a[6];
            a[6] = a[5];
            a[5] = a[4];
            a[4] = add32(a[3], temp1);
            a[3] = a[2];
            a[2] = a[1];
            a[1] = a[0];
            a[0] = add32(temp1, temp2);
            assert(a@ =~= model::round(v, model::K@[t as int], w[t as int]));
            t += 1;
        }
        let mut i: usize = 0;
        while i < 8
            invariant
                i <= 8,
                a@ == model::rounds(h, b, 64),
                forall|j: int| 0 <= j < i ==> self.state[j] == model::add32(h[j], a[j]),
                forall|j: int| i <= j < 8 ==> self.state[j] == h[j],
                self.len == old(self).len,
                self.buf == old(self).buf,
                self.pos == old(self).pos,
                self.msg == old(self).msg,
            decreases 8 - i,
        {
            self.state[i] = add32(self.state[i], a[i]);
            i += 1;
        }
        reveal(model::compress);
        assert(self.state@ =~= model::compress(h, b));
    }
}

/// A buffer has 64 bytes, a hash value eight words.
pub proof fn law_sizes(h: Sha256)
    ensures
        h.buffer().len() == 64,
        h.hash_value().len() == 8,
{
}

/// A byte of the buffer holds the last byte of the message that was put in its place since
/// the message had `from` bytes: places recur every 64 bytes. A byte in whose place nothing
/// was put is as it was.
pub proof fn law_buffer_holds_the_last_bytes(
    before: Seq<u8>,
    after: Seq<u8>,
    from: nat,
    msg: Seq<u8>,
    j: int,
    k: int,
)
    requires
        buffer_written(before, after, from, msg),
        0 <= j < 64,
    ensures
        after.len() == 64,
        from <= k < msg.len() <= k + 64 && k % 64 == j ==> after[j] == msg[k],
        (forall|i: int| from <= i < msg.len() ==> #[trigger] (i % 64) != j) ==> after[j]
            == before[j],
{
    let n = last_write(msg.len(), j);
    assert(after[j] == if n >= from {
        msg[n]
    } else {
        before[j]
    });
    if n >= from {
        assert(n % 64 == j);
    }
}

/// A block adds its rounds to each word of the hash value, modulo 2^32, and changes nothing
/// else: bytes past the first 64 have no say.
pub proof fn law_block_changes_the_hash_value_only(
    before: Sha256,
    after: Sha256,
    block: Seq<u8>,
    i: int,
)
    requires
        block_taken(before, after, block),
        0 <= i < 8,
    ensures
        (after.hash_value()[i] - (before.hash_value()[i] + model::rounds(
            before.hash_value(),
            block.subrange(0, 64),
            64,
        )[i])) % 0x1_0000_0000 == 0,
        after.byte_count() == before.byte_count(),
        after.buffer() == before.buffer(),
        after.pending() == before.pending(),
        after@ == before@,
{
    sha2_laws::law_block_adds_rounds(before.hash_value(), block.take(64), i);
}

/// What taking in a block makes of the hash value depends on nothing but the
/// hash value and the first 64 bytes of the block.
pub proof fn law_only_the_block_counts(
    g: Sha256,
    g_after: Sha256,
    g_block: Seq<u8>,
    h: Sha256,
    h_after: Sha256,
    h_block: Seq<u8>,
)
    requires
        block_taken(g, g_after, g_block),
        block_taken(h, h_after, h_block),
        g.hash_value() == h.hash_value(),
        g_block.take(64) == h_block.take(64),
    ensures
        g_after.hash_value() == h_after.hash_value(),
{
}

/// One block adds different words to different hash values.
pub proof fn law_block_tells_hashers_apart(
    g: Sha256,
    g_after: Sha256,
    h: Sha256,
    h_after: Sha256,
    block: Seq<u8>,
)
    requires
        block_taken(g, g_after, block),
        block_taken(h, h_after, block),
        g.hash_value() != h.hash_value(),
    ensures
        exists|i: int|
            0 <= i < 8 && #[trigger] g_after.hash_value()[i].wrapping_sub(g.hash_value()[i])
                != h_after.hash_value()[i].wrapping_sub(h.hash_value()[i]),
{
    if forall|i: int|
        0 <= i < 8 ==> #[trigger] g_after.hash_value()[i].wrapping_sub(g.hash_value()[i])
            == h_after.hash_value()[i].wrapping_sub(h.hash_value()[i]) {
        sha2_laws::law_block_tells_states_apart(
            g.hash_value(),
            h.hash_value(),
            block.take(64),
        );
    }
}

/// The digest depends on nothing but the hash value, the byte count and the
/// bytes that wait in the buffer: what earlier blocks left behind them in the
/// buffer has no say.
pub proof fn law_digest_ignores_stale_bytes(g: Sha256, h: Sha256)
    requires
        g.well_formed(),
        h.well_formed(),
        g.hash_value() == h.hash_value(),
        g.byte_count() == h.byte_count(),
        g.pending() == h.pending(),
        g.buffer().take(g.pending() as int) == h.buffer().take(h.pending() as int),
    ensures
        model::sha256(g@) == model::sha256(h@),
{
    let p = model::pad(g@);
    let q = model::pad(h@);
    let m = g@.len() / 64;
    let n = h@.len() / 64;
    lemma_pad(g@);
    lemma_pad(h@);
    lemma_hash_blocks_pad(g@);
    lemma_hash_blocks_pad(h@);
    assert(model::length_field(g@.len()) == model::length_field(h@.len())) by {
        lemma_mul_mod_noop_right(8, g@.len() as int, 0x1_0000_0000_0000_0000);
        lemma_mul_mod_noop_right(8, h@.len() as int, 0x1_0000_0000_0000_0000);
    }
    let rest = p.len() - 64 * m;
    assert(rest == q.len() - 64 * n);
    let p_rest = p.skip(64 * m as int);
    let q_rest = q.skip(64 * n as int);
    assert forall|i: int| 0 <= i < rest implies p_rest[i] == q_rest[i] by {
        if i < g.pending() {
            assert(g@.skip(64 * m as int)[i] == h@.skip(64 * n as int)[i]);
        }
    }
    assert(p.subrange(64 * m as int, 64 * (m + 1) as int) =~= p_rest.subrange(0, 64));
    assert(q.subrange(64 * n as int, 64 * (n + 1) as int) =~= q_rest.subrange(0, 64));
    assert(p_rest =~= q_rest);
    assert(model::hash_blocks(p, m + 1) == model::hash_blocks(q, n + 1));
    if rest == 128 {
        assert(p.subrange(64 * (m + 1) as int, 64 * (m + 2) as int) =~= p_rest.subrange(64, 128));
        assert(q.subrange(64 * (n + 1) as int, 64 * (n + 2) as int) =~= q_rest.subrange(64, 128));
        assert(model::hash_blocks(p, m + 2) == model::hash_blocks(q, n + 2));
    }
}

} // verus!
