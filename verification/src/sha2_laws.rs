//! What holds of SHA-256 messages as a whole.

use vstd::prelude::*;
use vstd::arithmetic::div_mod::lemma_mod_multiples_basic;
use vstd::arithmetic::power2::lemma2_to64_rest;
use crate::bytes;
use crate::sha2;
use crate::sha2_model as model;

verus! {

/// The message after `parts` have been appended to `msg` one by one.
pub open spec fn after_updates(msg: Seq<u8>, parts: Seq<Seq<u8>>) -> Seq<u8>
    decreases parts.len(),
{
    if parts.len() == 0 {
        msg
    } else {
        after_updates(msg, parts.drop_last()) + parts.last()
    }
}

/// Appending a message in parts is appending it at once.
pub proof fn law_updates_concatenate(msg: Seq<u8>, parts: Seq<Seq<u8>>)
    ensures
        after_updates(msg, parts) == msg + parts.flatten(),
    decreases parts.len(),
{
    if parts.len() > 0 {
        law_updates_concatenate(msg, parts.drop_last());
        parts.drop_last().lemma_flatten_push(parts.last());
        assert(parts.drop_last().push(parts.last()) =~= parts);
    }
    assert(after_updates(msg, parts) =~= msg + parts.flatten());
}

/// The digest does not depend on how the message was cut into parts.
pub proof fn law_digest_ignores_cuts(a: Seq<Seq<u8>>, b: Seq<Seq<u8>>)
    requires
        a.flatten() == b.flatten(),
    ensures
        model::sha256(after_updates(Seq::empty(), a)) == model::sha256(
            after_updates(Seq::empty(), b),
        ),
{
    law_updates_concatenate(Seq::empty(), a);
    law_updates_concatenate(Seq::empty(), b);
}

/// A digest has 32 bytes.
pub proof fn law_digest_len(msg: Seq<u8>)
    ensures
        model::sha256(msg).len() == 32,
{
    sha2::lemma_pad(msg);
    reveal(model::compress);
}

/// A padded message is the message, the marker byte, as few zeros as make
/// whole blocks, and the length field.
pub proof fn law_pad_makes_whole_blocks(msg: Seq<u8>)
    ensures
        model::pad(msg).len() % 64 == 0,
        model::pad(msg).take(msg.len() as int) == msg,
        msg.len() + 9 <= model::pad(msg).len() < msg.len() + 9 + 64,
{
    sha2::lemma_pad(msg);
    assert(model::pad(msg).take(msg.len() as int) =~= msg);
}

/// Distinct messages of fewer than 2^64 bits stay distinct under padding.
pub proof fn law_pad_injective(a: Seq<u8>, b: Seq<u8>)
    requires
        8 * a.len() < 0x1_0000_0000_0000_0000,
        8 * b.len() < 0x1_0000_0000_0000_0000,
        model::pad(a) == model::pad(b),
    ensures
        a == b,
{
    sha2::lemma_pad(a);
    sha2::lemma_pad(b);
    bytes::lemma_be_bytes_len(8 * a.len(), 8);
    bytes::lemma_be_bytes_len(8 * b.len(), 8);
    let start = model::pad(a).len() - 8;
    assert(model::length_field(a.len()) =~= model::length_field(b.len())) by {
        assert forall|k: int| 0 <= k < 8 implies model::length_field(a.len())[k]
            == model::length_field(b.len())[k] by {
            assert(model::pad(a)[start + k] == model::length_field(a.len())[k]);
            assert(model::pad(b)[start + k] == model::length_field(b.len())[k]);
        }
    }
    lemma2_to64_rest();
    bytes::law_be_bytes_injective(8 * a.len(), 8 * b.len(), 8);
    law_pad_makes_whole_blocks(a);
    law_pad_makes_whole_blocks(b);
}

/// Addition modulo 2^32 can be undone from either side.
proof fn lemma_add32_undone(x: u32, y: u32)
    ensures
        model::add32(x, y).wrapping_sub(x) == y,
        model::add32(x, y).wrapping_sub(y) == x,
{
}

/// The last working variable can be had back from a round's first temporary.
proof fn lemma_temp1_undone(v: Seq<u32>, k: u32, w: u32)
    ensures
        model::temp1(v, k, w).wrapping_sub(w).wrapping_sub(k).wrapping_sub(
            model::ch(v[4], v[5], v[6]),
        ).wrapping_sub(model::big_sigma1(v[4])) == v[7],
{
    let s = model::big_sigma1(v[4]);
    let c = model::ch(v[4], v[5], v[6]);
    let x = model::add32(v[7], s);
    let y = model::add32(x, c);
    let z = model::add32(y, k);
    lemma_add32_undone(v[7], s);
    lemma_add32_undone(x, c);
    lemma_add32_undone(y, k);
    lemma_add32_undone(z, w);
}

/// Working variables that one round takes to the same variables are the same.
proof fn lemma_round_injective(u: Seq<u32>, v: Seq<u32>, k: u32, w: u32)
    requires
        u.len() == 8,
        v.len() == 8,
        model::round(u, k, w) == model::round(v, k, w),
    ensures
        u == v,
{
    let a = model::round(u, k, w);
    let b = model::round(v, k, w);
    assert(a[1] == u[0] && a[2] == u[1] && a[3] == u[2]);
    assert(b[1] == v[0] && b[2] == v[1] && b[3] == v[2]);
    assert(a[5] == u[4] && a[6] == u[5] && a[7] == u[6]);
    assert(b[5] == v[4] && b[6] == v[5] && b[7] == v[6]);
    let p = model::temp1(u, k, w);
    let q = model::temp1(v, k, w);
    assert(p == q) by {
        assert(a[0] == model::add32(p, model::temp2(u)));
        assert(b[0] == model::add32(q, model::temp2(v)));
        lemma_add32_undone(p, model::temp2(u));
        lemma_add32_undone(q, model::temp2(v));
    }
    assert(u[3] == v[3]) by {
        assert(a[4] == model::add32(u[3], p));
        assert(b[4] == model::add32(v[3], q));
        lemma_add32_undone(u[3], p);
        lemma_add32_undone(v[3], q);
    }
    assert(u[7] == v[7]) by {
        lemma_temp1_undone(u, k, w);
        lemma_temp1_undone(v, k, w);
    }
    assert(u =~= v);
}

/// For a fixed block the rounds permute the working variables: no two come out
/// the same.
pub proof fn law_rounds_permute(g: Seq<u32>, h: Seq<u32>, block: Seq<u8>, t: nat)
    requires
        g.len() == 8,
        h.len() == 8,
        model::rounds(g, block, t) == model::rounds(h, block, t),
    ensures
        g == h,
    decreases t,
{
    if t > 0 {
        let n = (t - 1) as nat;
        lemma_rounds_len(g, block, n);
        lemma_rounds_len(h, block, n);
        lemma_round_injective(
            model::rounds(g, block, n),
            model::rounds(h, block, n),
            model::K@[t - 1],
            model::schedule(block, n),
        );
        law_rounds_permute(g, h, block, n);
    }
}

/// The rounds work on eight variables.
proof fn lemma_rounds_len(h: Seq<u32>, block: Seq<u8>, t: nat)
    requires
        h.len() == 8,
    ensures
        model::rounds(h, block, t).len() == 8,
{
}

/// A word of the hash value after a block.
proof fn lemma_compress_word(h: Seq<u32>, block: Seq<u8>, i: int)
    requires
        0 <= i < 8,
    ensures
        model::compress(h, block)[i] == model::add32(h[i], model::rounds(h, block, 64)[i]),
{
    reveal(model::compress);
}

/// What a block adds to a hash value, word by word, tells hash values apart:
/// if it is the same for two of them, they are the same.
pub proof fn law_block_tells_states_apart(g: Seq<u32>, h: Seq<u32>, block: Seq<u8>)
    requires
        g.len() == 8,
        h.len() == 8,
        forall|i: int|
            0 <= i < 8 ==> #[trigger] model::compress(g, block)[i].wrapping_sub(g[i])
                == model::compress(h, block)[i].wrapping_sub(h[i]),
    ensures
        g == h,
{
    let u = model::rounds(g, block, 64);
    let v = model::rounds(h, block, 64);
    lemma_rounds_len(g, block, 64);
    lemma_rounds_len(h, block, 64);
    assert forall|i: int| 0 <= i < 8 implies u[i] == v[i] by {
        lemma_compress_word(g, block, i);
        lemma_compress_word(h, block, i);
        assert(model::compress(g, block)[i].wrapping_sub(g[i]) == model::compress(
            h,
            block,
        )[i].wrapping_sub(h[i]));
        lemma_add32_undone(g[i], u[i]);
        lemma_add32_undone(h[i], v[i]);
    }
    assert(u =~= v);
    law_rounds_permute(g, h, block, 64);
}

/// The hash value after the whole blocks of a prefix is what the blocks behind
/// it start from: cutting at a block boundary and going on from there gives
/// the hash value of the whole.
pub proof fn law_hash_blocks_continue(a: Seq<u8>, b: Seq<u8>)
    requires
        a.len() % 64 == 0,
        b.len() == 64,
    ensures
        model::hash_blocks(a + b, a.len() / 64 + 1) == model::compress(
            model::hash_blocks(a, a.len() / 64),
            b,
        ),
{
    let n = a.len() / 64;
    sha2::lemma_hash_blocks_prefix(a, b, n);
    assert((a + b).subrange(64 * n as int, 64 * (n + 1) as int) =~= b);
}

/// The padding of a message, byte by byte. The message comes first, then the byte 0x80,
/// then zeros, and the last eight bytes, read most significant byte first, are the
/// number of the message's bits, modulo 2^64.
pub proof fn law_pad_byte_by_byte(msg: Seq<u8>, i: int)
    requires
        0 <= i < model::pad(msg).len(),
    ensures
        ({
            let p = model::pad(msg);
            let n = p.len() as int;
            &&& i < msg.len() ==> p[i] == msg[i]
            &&& i == msg.len() ==> p[i] == 0x80
            &&& msg.len() < i < n - 8 ==> p[i] == 0
            &&& p[n - 8] * 0x100_0000_0000_0000 + p[n - 7] * 0x1_0000_0000_0000 + p[n - 6]
                * 0x100_0000_0000 + p[n - 5] * 0x1_0000_0000 + p[n - 4] * 0x100_0000 + p[n - 3]
                * 0x1_0000 + p[n - 2] * 0x100 + p[n - 1] == (8 * msg.len())
                % 0x1_0000_0000_0000_0000
        }),
{
    let p = model::pad(msg);
    let n = p.len() as int;
    let f = model::length_field(msg.len());
    sha2::lemma_pad(msg);
    bytes::law_eight_bytes_add_up((8 * msg.len()) % 0x1_0000_0000_0000_0000);
    assert(p[n - 8] == f[0] && p[n - 7] == f[1] && p[n - 6] == f[2] && p[n - 5] == f[3]);
    assert(p[n - 4] == f[4] && p[n - 3] == f[5] && p[n - 2] == f[6] && p[n - 1] == f[7]);
}

/// The last eight bytes of the padding of a message of fewer than 2^61 bytes, read most
/// significant byte first, are eight times the message's length.
pub proof fn law_pad_ends_in_bit_length(msg: Seq<u8>)
    requires
        msg.len() < 0x2000_0000_0000_0000,
    ensures
        ({
            let p = model::pad(msg);
            let n = p.len() as int;
            p[n - 8] * 0x100_0000_0000_0000 + p[n - 7] * 0x1_0000_0000_0000 + p[n - 6]
                * 0x100_0000_0000 + p[n - 5] * 0x1_0000_0000 + p[n - 4] * 0x100_0000 + p[n - 3]
                * 0x1_0000 + p[n - 2] * 0x100 + p[n - 1] == 8 * msg.len()
        }),
{
    sha2::lemma_pad(msg);
    law_pad_byte_by_byte(msg, 0);
}

/// A number and the byte behind it can be had back from the number that they make up.
proof fn lemma_last_byte(x: int, b: u8, y: int, c: u8)
    requires
        256 * x + b == 256 * y + c,
    ensures
        x == y,
        b == c,
{
}

/// Eight bytes can be had back from the number that they are the digits of.
proof fn lemma_eight_bytes_determined(a: Seq<u8>, b: Seq<u8>)
    requires
        a.len() == 8,
        b.len() == 8,
        a[0] * 0x100_0000_0000_0000 + a[1] * 0x1_0000_0000_0000 + a[2] * 0x100_0000_0000 + a[3]
            * 0x1_0000_0000 + a[4] * 0x100_0000 + a[5] * 0x1_0000 + a[6] * 0x100 + a[7] == b[0]
            * 0x100_0000_0000_0000 + b[1] * 0x1_0000_0000_0000 + b[2] * 0x100_0000_0000 + b[3]
            * 0x1_0000_0000 + b[4] * 0x100_0000 + b[5] * 0x1_0000 + b[6] * 0x100 + b[7],
    ensures
        a == b,
{
    let x1 = 256 * a[0] + a[1];
    let x2 = 256 * x1 + a[2];
    let x3 = 256 * x2 + a[3];
    let x4 = 256 * x3 + a[4];
    let x5 = 256 * x4 + a[5];
    let x6 = 256 * x5 + a[6];
    let y1 = 256 * b[0] + b[1];
    let y2 = 256 * y1 + b[2];
    let y3 = 256 * y2 + b[3];
    let y4 = 256 * y3 + b[4];
    let y5 = 256 * y4 + b[5];
    let y6 = 256 * y5 + b[6];
    lemma_last_byte(x6, a[7], y6, b[7]);
    lemma_last_byte(x5, a[6], y5, b[6]);
    lemma_last_byte(x4, a[5], y4, b[5]);
    lemma_last_byte(x3, a[4], y3, b[4]);
    lemma_last_byte(x2, a[3], y2, b[3]);
    lemma_last_byte(x1, a[2], y1, b[2]);
    lemma_last_byte(a[0] as int, a[1], b[0] as int, b[1]);
    assert(a =~= b);
}

/// The digest is the hash value after all blocks of the padded message: its 32 bytes,
/// read four by four and most significant byte first, are the eight words. The padded
/// message is any sequence that consists of whole blocks and is the message, the byte
/// 0x80, as few zeros as it takes and the number of the message's bits in eight bytes.
pub proof fn law_digest_is_the_last_hash_value(msg: Seq<u8>, p: Seq<u8>, i: int)
    requires
        p.len() % 64 == 0,
        msg.len() + 9 <= p.len() < msg.len() + 9 + 64,
        p.take(msg.len() as int) == msg,
        p[msg.len() as int] == 0x80,
        forall|k: int| msg.len() < k < p.len() - 8 ==> #[trigger] p[k] == 0,
        p[p.len() - 8] * 0x100_0000_0000_0000 + p[p.len() - 7] * 0x1_0000_0000_0000 + p[p.len()
            - 6] * 0x100_0000_0000 + p[p.len() - 5] * 0x1_0000_0000 + p[p.len() - 4] * 0x100_0000
            + p[p.len() - 3] * 0x1_0000 + p[p.len() - 2] * 0x100 + p[p.len() - 1] == (8
            * msg.len()) % 0x1_0000_0000_0000_0000,
        0 <= i < 8,
    ensures
        model::sha256(msg).len() == 32,
        model::sha256(msg)[4 * i] * 0x100_0000 + model::sha256(msg)[4 * i + 1] * 0x1_0000
            + model::sha256(msg)[4 * i + 2] * 0x100 + model::sha256(msg)[4 * i + 3]
            == model::hash_blocks(p, p.len() / 64)[i],
{
    let q = model::pad(msg);
    let n = p.len() as int;
    law_digest_len(msg);
    law_pad_makes_whole_blocks(msg);
    assert(q.len() == n);
    law_pad_byte_by_byte(msg, 0);
    lemma_eight_bytes_determined(p.skip(n - 8), q.skip(n - 8));
    assert forall|k: int| 0 <= k < n implies p[k] == q[k] by {
        law_pad_byte_by_byte(msg, k);
        if k < msg.len() {
            assert(p.take(msg.len() as int)[k] == p[k]);
        } else if k >= n - 8 {
            assert(p.skip(n - 8)[k - (n - 8)] == p[k]);
            assert(q.skip(n - 8)[k - (n - 8)] == q[k]);
        }
    }
    assert(p =~= q);
    bytes::law_four_bytes_add_up(model::hash_blocks(q, q.len() / 64)[i]);
}

/// Hashing starts from eight fixed words, and each block of 64 bytes is taken into the
/// hash value of the blocks before it.
pub proof fn law_blocks_are_chained(data: Seq<u8>, n: nat)
    ensures
        model::hash_blocks(data, 0) == seq![
            0x6a09e667u32,
            0xbb67ae85u32,
            0x3c6ef372u32,
            0xa54ff53au32,
            0x510e527fu32,
            0x9b05688cu32,
            0x1f83d9abu32,
            0x5be0cd19u32,
        ],
        model::hash_blocks(data, n + 1) == model::compress(
            model::hash_blocks(data, n),
            data.subrange(64 * n as int, 64 * n as int + 64),
        ),
{
    assert(64 * (n + 1) == 64 * n + 64);
}

/// A block adds its 64 rounds to the hash value, word by word modulo 2^32.
pub proof fn law_block_adds_rounds(h: Seq<u32>, block: Seq<u8>, i: int)
    requires
        0 <= i < 8,
    ensures
        model::compress(h, block).len() == 8,
        (model::compress(h, block)[i] - (h[i] + model::rounds(h, block, 64)[i])) % 0x1_0000_0000
            == 0,
{
    reveal(model::compress);
}

/// The rounds start from the hash value, and round `t` takes in the round constant and the
/// word of the schedule with that number.
pub proof fn law_rounds_are_chained(h: Seq<u32>, block: Seq<u8>, t: nat)
    requires
        t < 64,
    ensures
        model::rounds(h, block, 0) == h,
        model::rounds(h, block, t + 1) == model::round(
            model::rounds(h, block, t),
            model::K@[t as int],
            model::schedule(block, t),
        ),
{
}

/// A sum modulo 2^32 falls short of the sum by nothing or by 2^32.
proof fn lemma_carry(x: u32, y: u32) -> (c: int)
    ensures
        model::add32(x, y) == x + y - 0x1_0000_0000 * c,
{
    (x + y) / 0x1_0000_0000
}

/// A round moves six of the eight variables down by one place, and the first and the fifth
/// of what it gives are sums modulo 2^32.
pub proof fn law_round_sums(v: Seq<u32>, k: u32, w: u32)
    requires
        v.len() == 8,
    ensures
        ({
            let r = model::round(v, k, w);
            let t = v[7] + model::big_sigma1(v[4]) + model::ch(v[4], v[5], v[6]) + k + w;
            &&& r.len() == 8
            &&& r.subrange(1, 4) == v.subrange(0, 3)
            &&& r.subrange(5, 8) == v.subrange(4, 7)
            &&& (r[4] - (v[3] + t)) % 0x1_0000_0000 == 0
            &&& (r[0] - (t + model::big_sigma0(v[0]) + model::maj(v[0], v[1], v[2])))
                % 0x1_0000_0000 == 0
        }),
{
    let r = model::round(v, k, w);
    assert(r.subrange(1, 4) =~= v.subrange(0, 3));
    assert(r.subrange(5, 8) =~= v.subrange(4, 7));
    let f = model::big_sigma1(v[4]);
    let g = model::ch(v[4], v[5], v[6]);
    let t1 = model::temp1(v, k, w);
    let t2 = model::temp2(v);
    assert(r[4] == model::add32(v[3], t1));
    assert(r[0] == model::add32(t1, t2));
    let x = model::add32(v[7], f);
    let y = model::add32(x, g);
    let z = model::add32(y, k);
    let c = lemma_carry(v[7], f) + lemma_carry(x, g) + lemma_carry(y, k) + lemma_carry(z, w);
    let d = lemma_carry(model::big_sigma0(v[0]), model::maj(v[0], v[1], v[2]));
    let c4 = lemma_carry(v[3], t1);
    let c0 = lemma_carry(t1, t2);
    lemma_mod_multiples_basic(-(c + c4), 0x1_0000_0000);
    lemma_mod_multiples_basic(-(c + d + c0), 0x1_0000_0000);
}

/// The first 16 words of a block's schedule are the block, four bytes a word and most
/// significant byte first. Each later word is the sum, modulo 2^32, of four terms from the
/// words 16, 15, 7 and 2 places before it.
pub proof fn law_schedule_words(block: Seq<u8>, t: nat)
    requires
        block.len() == 64,
        t < 64,
    ensures
        t < 16 ==> model::schedule(block, t) == block[4 * t as int] * 0x100_0000 + block[4 * t as int + 1]
            * 0x1_0000 + block[4 * t as int + 2] * 0x100 + block[4 * t as int + 3],
        t >= 16 ==> (model::schedule(block, t) - (model::schedule(block, (t - 16) as nat)
            + model::small_sigma0(model::schedule(block, (t - 15) as nat)) + model::schedule(
            block,
            (t - 7) as nat,
        ) + model::small_sigma1(model::schedule(block, (t - 2) as nat)))) % 0x1_0000_0000 == 0,
{
    if t >= 16 {
        lemma_four_sum(
            model::schedule(block, (t - 16) as nat),
            model::small_sigma0(model::schedule(block, (t - 15) as nat)),
            model::schedule(block, (t - 7) as nat),
            model::small_sigma1(model::schedule(block, (t - 2) as nat)),
        );
    }
}

/// Three sums modulo 2^32 make up the sum of four words modulo 2^32.
proof fn lemma_four_sum(a: u32, b: u32, c: u32, d: u32)
    ensures
        (model::add32(model::add32(model::add32(a, b), c), d) - (a + b + c + d)) % 0x1_0000_0000
            == 0,
{
    let x = model::add32(a, b);
    let y = model::add32(x, c);
    let carry = lemma_carry(a, b) + lemma_carry(x, c) + lemma_carry(y, d);
    lemma_mod_multiples_basic(-carry, 0x1_0000_0000);
}

/// Bit by bit, `ch` chooses between its second and its third argument by the first, and
/// `maj` goes by the majority of the three.
pub proof fn law_choice_and_majority(x: u32, y: u32, z: u32, i: u32)
    requires
        i < 32,
    ensures
        (model::ch(x, y, z) >> i) & 1 == if (x >> i) & 1 == 1 {
            (y >> i) & 1
        } else {
            (z >> i) & 1
        },
        (model::maj(x, y, z) >> i) & 1 == if ((x >> i) & 1) + ((y >> i) & 1) + ((z >> i) & 1) >= 2 {
            1u32
        } else {
            0u32
        },
{
    assert((((x & y) ^ (!x & z)) >> i) & 1 == if (x >> i) & 1 == 1 {
        (y >> i) & 1
    } else {
        (z >> i) & 1
    }) by (bit_vector)
        requires
            i < 32,
    ;
    assert((((x & y) ^ (x & z) ^ (y & z)) >> i) & 1 == if ((x >> i) & 1) + ((y >> i) & 1) + ((z
        >> i) & 1) >= 2 {
        1u32
    } else {
        0u32
    }) by (bit_vector)
        requires
            i < 32,
    ;
}

/// Bit `i` of a rotation by `n` is bit `i + n`, counted round.
pub proof fn law_rotation_bits(x: u32, n: u32, i: u32)
    requires
        0 < n < 32,
        i < 32,
    ensures
        (model::rotr(x, n) >> i) & 1 == (x >> ((i + n) % 32) as u32) & 1,
{
    assert((((x >> n) | (x << ((32 - n) as u32))) >> i) & 1 == (x >> ((i + n) % 32) as u32) & 1)
        by (bit_vector)
        requires
            0 < n < 32,
            i < 32,
    ;
}

/// Bit `i` of a big sigma is odd parity of three bits, counted round.
pub proof fn law_big_sigma_bits(x: u32, i: u32)
    requires
        i < 32,
    ensures
        (model::big_sigma0(x) >> i) & 1 == ((x >> ((i + 2) % 32) as u32) & 1) ^ ((x >> ((i + 13)
            % 32) as u32) & 1) ^ ((x >> ((i + 22) % 32) as u32) & 1),
        (model::big_sigma1(x) >> i) & 1 == ((x >> ((i + 6) % 32) as u32) & 1) ^ ((x >> ((i + 11)
            % 32) as u32) & 1) ^ ((x >> ((i + 25) % 32) as u32) & 1),
{
    law_rotation_bits(x, 2, i);
    law_rotation_bits(x, 13, i);
    law_rotation_bits(x, 22, i);
    law_rotation_bits(x, 6, i);
    law_rotation_bits(x, 11, i);
    law_rotation_bits(x, 25, i);
    lemma_xor_bits(model::rotr(x, 2), model::rotr(x, 13), model::rotr(x, 22), i);
    lemma_xor_bits(model::rotr(x, 6), model::rotr(x, 11), model::rotr(x, 25), i);
}

/// Bit `i` of a small sigma is odd parity of two bits, counted round, and of a third that is
/// zero where it would have to be counted round.
pub proof fn law_small_sigma_bits(x: u32, i: u32)
    requires
        i < 32,
    ensures
        (model::small_sigma0(x) >> i) & 1 == ((x >> ((i + 7) % 32) as u32) & 1) ^ ((x >> ((i + 18)
            % 32) as u32) & 1) ^ (if i + 3 < 32 {
            (x >> (i + 3) as u32) & 1
        } else {
            0
        }),
        (model::small_sigma1(x) >> i) & 1 == ((x >> ((i + 17) % 32) as u32) & 1) ^ ((x >> ((i + 19)
            % 32) as u32) & 1) ^ (if i + 10 < 32 {
            (x >> (i + 10) as u32) & 1
        } else {
            0
        }),
{
    law_rotation_bits(x, 7, i);
    law_rotation_bits(x, 18, i);
    law_rotation_bits(x, 17, i);
    law_rotation_bits(x, 19, i);
    lemma_xor_bits(model::rotr(x, 7), model::rotr(x, 18), x >> 3, i);
    lemma_xor_bits(model::rotr(x, 17), model::rotr(x, 19), x >> 10, i);
    lemma_shift_bits(x, 3, i);
    lemma_shift_bits(x, 10, i);
}

/// Exclusive or works bit by bit.
proof fn lemma_xor_bits(x: u32, y: u32, z: u32, i: u32)
    requires
        i < 32,
    ensures
        ((x ^ y ^ z) >> i) & 1 == ((x >> i) & 1) ^ ((y >> i) & 1) ^ ((z >> i) & 1),
{
    assert(((x ^ y ^ z) >> i) & 1 == ((x >> i) & 1) ^ ((y >> i) & 1) ^ ((z >> i) & 1))
        by (bit_vector)
        requires
            i < 32,
    ;
}

/// Bit `i` of a word shifted right by `n` is bit `i + n`, where there is one.
proof fn lemma_shift_bits(x: u32, n: u32, i: u32)
    requires
        n < 32,
        i < 32,
    ensures
        ((x >> n) >> i) & 1 == if i + n < 32 {
            (x >> (i + n) as u32) & 1
        } else {
            0
        },
{
    assert(((x >> n) >> i) & 1 == if i + n < 32 {
        (x >> (i + n) as u32) & 1
    } else {
        0
    }) by (bit_vector)
        requires
            n < 32,
            i < 32,
    ;
}

} // verus!
