//! MD5, as the thumbnail specification names a file by.
//!
//! Written out rather than depended on: it is a hundred lines, it has not
//! changed since 1992, and it is used for a file name rather than for anything
//! that has to be hard to forge. The contract is the digest as RFC 1321
//! defines it — padding, sixty-four steps a block, the state added back —
//! written over sequences of bytes.

use vstd::prelude::*;

use crate::text::string_from;

verus! {

/// The sine table: the integer part of `abs(sin(i + 1)) * 2^32`.
pub const MD5_TABLE: [u32; 64] = [
    0xd76aa478, 0xe8c7b756, 0x242070db, 0xc1bdceee, 0xf57c0faf, 0x4787c62a, 0xa8304613, 0xfd469501,
    0x698098d8, 0x8b44f7af, 0xffff5bb1, 0x895cd7be, 0x6b901122, 0xfd987193, 0xa679438e, 0x49b40821,
    0xf61e2562, 0xc040b340, 0x265e5a51, 0xe9b6c7aa, 0xd62f105d, 0x02441453, 0xd8a1e681, 0xe7d3fbc8,
    0x21e1cde6, 0xc33707d6, 0xf4d50d87, 0x455a14ed, 0xa9e3e905, 0xfcefa3f8, 0x676f02d9, 0x8d2a4c8a,
    0xfffa3942, 0x8771f681, 0x6d9d6122, 0xfde5380c, 0xa4beea44, 0x4bdecfa9, 0xf6bb4b60, 0xbebfbc70,
    0x289b7ec6, 0xeaa127fa, 0xd4ef3085, 0x04881d05, 0xd9d4d039, 0xe6db99e5, 0x1fa27cf8, 0xc4ac5665,
    0xf4292244, 0x432aff97, 0xab9423a7, 0xfc93a039, 0x655b59c3, 0x8f0ccc92, 0xffeff47d, 0x85845dd1,
    0x6fa87e4f, 0xfe2ce6e0, 0xa3014314, 0x4e0811a1, 0xf7537e82, 0xbd3af235, 0x2ad7d2bb, 0xeb86d391,
];

/// How far each step rotates.
pub const MD5_SHIFTS: [u32; 64] = [
    7, 12, 17, 22, 7, 12, 17, 22, 7, 12, 17, 22, 7, 12, 17, 22,
    5, 9, 14, 20, 5, 9, 14, 20, 5, 9, 14, 20, 5, 9, 14, 20,
    4, 11, 16, 23, 4, 11, 16, 23, 4, 11, 16, 23, 4, 11, 16, 23,
    6, 10, 15, 21, 6, 10, 15, 21, 6, 10, 15, 21, 6, 10, 15, 21,
];

/// The lower-case hexadecimal digits.
pub const HEX_LOWER: [char; 16] = [
    '0', '1', '2', '3', '4', '5', '6', '7', '8', '9', 'a', 'b', 'c', 'd', 'e', 'f',
];

/// Addition modulo two to the thirty-two.
pub open spec fn wadd(x: u32, y: u32) -> u32 {
    ((x as int + y as int) % 0x1_0000_0000) as u32
}

/// Rotation to the left by `s`, for `0 < s < 32`.
pub open spec fn rotl(x: u32, s: u32) -> u32 {
    ((x << s) | (x >> ((32 - s) as u32))) as u32
}

/// The mixing function of step `step`.
pub open spec fn mix(step: int, b: u32, c: u32, d: u32) -> u32 {
    if step < 16 {
        (b & c) | (!b & d)
    } else if step < 32 {
        (d & b) | (!d & c)
    } else if step < 48 {
        b ^ c ^ d
    } else {
        c ^ (b | !d)
    }
}

/// Which of the block's sixteen words step `step` reads.
pub open spec fn taken(step: int) -> int {
    if step < 16 {
        step
    } else if step < 32 {
        (5 * step + 1) % 16
    } else if step < 48 {
        (3 * step + 5) % 16
    } else {
        (7 * step) % 16
    }
}

/// The little-endian word at `at`.
pub open spec fn le_word(m: Seq<u8>, at: int) -> u32 {
    (m[at] as int + m[at + 1] as int * 0x100 + m[at + 2] as int * 0x1_0000 + m[at + 3] as int
        * 0x100_0000) as u32
}

/// The first `n` steps over the block that starts at `base`.
pub open spec fn md5_steps(s: (u32, u32, u32, u32), m: Seq<u8>, base: int, n: nat) -> (
    u32,
    u32,
    u32,
    u32,
)
    decreases n,
{
    if n == 0 {
        s
    } else {
        let (a, b, c, d) = md5_steps(s, m, base, (n - 1) as nat);
        let step = n - 1;
        let moved = wadd(
            wadd(wadd(a, mix(step, b, c, d)), MD5_TABLE[step]),
            le_word(m, base + 4 * taken(step)),
        );
        (d, wadd(b, rotl(moved, MD5_SHIFTS[step])), b, c)
    }
}

/// The state after one block.
pub open spec fn md5_block(s: (u32, u32, u32, u32), m: Seq<u8>, base: int) -> (
    u32,
    u32,
    u32,
    u32,
) {
    let (a, b, c, d) = md5_steps(s, m, base, 64);
    (wadd(s.0, a), wadd(s.1, b), wadd(s.2, c), wadd(s.3, d))
}

/// The state after the first `n` blocks of `m`.
pub open spec fn md5_blocks(m: Seq<u8>, n: nat) -> (u32, u32, u32, u32)
    decreases n,
{
    if n == 0 {
        (0x6745_2301, 0xefcd_ab89, 0x98ba_dcfe, 0x1032_5476)
    } else {
        md5_block(md5_blocks(m, (n - 1) as nat), m, 64 * (n - 1))
    }
}

/// The `n` low bytes of `x`, least significant first.
pub open spec fn le_bytes(x: nat, n: nat) -> Seq<u8>
    decreases n,
{
    if n == 0 {
        Seq::empty()
    } else {
        seq![(x % 256) as u8] + le_bytes(x / 256, (n - 1) as nat)
    }
}

/// How many zero bytes follow the marker, so that the message ends eight
/// bytes short of a whole block.
pub open spec fn md5_zeros(len: nat) -> nat {
    ((119 - len % 64) % 64) as nat
}

/// The message as it is hashed: the data, a one bit, zeros, and the length in
/// bits as eight little-endian bytes.
pub open spec fn md5_padded(data: Seq<u8>) -> Seq<u8> {
    data + seq![0x80u8] + Seq::new(md5_zeros(data.len()), |i: int| 0u8) + le_bytes(
        ((data.len() * 8) % 0x1_0000_0000_0000_0000) as nat,
        8,
    )
}

/// The sixteen bytes of the digest.
pub open spec fn md5(data: Seq<u8>) -> Seq<u8> {
    let m = md5_padded(data);
    let (a, b, c, d) = md5_blocks(m, m.len() / 64);
    le_bytes(a as nat, 4) + le_bytes(b as nat, 4) + le_bytes(c as nat, 4) + le_bytes(d as nat, 4)
}

/// Bytes written as lower-case hexadecimal, two digits each.
pub open spec fn hex_lower(bytes: Seq<u8>) -> Seq<char>
    decreases bytes.len(),
{
    if bytes.len() == 0 {
        Seq::empty()
    } else {
        seq![HEX_LOWER[(bytes[0] / 16) as int], HEX_LOWER[(bytes[0] % 16) as int]] + hex_lower(bytes.drop_first())
    }
}

proof fn lemma_hex_lower_push(bytes: Seq<u8>, byte: u8)
    ensures
        hex_lower(bytes.push(byte)) == hex_lower(bytes) + seq![
            HEX_LOWER[(byte / 16) as int],
            HEX_LOWER[(byte % 16) as int],
        ],
    decreases bytes.len(),
{
    if bytes.len() == 0 {
        assert(bytes.push(byte).drop_first() =~= Seq::<u8>::empty());
        assert(hex_lower(Seq::<u8>::empty()) =~= Seq::<char>::empty());
    } else {
        lemma_hex_lower_push(bytes.drop_first(), byte);
        assert(bytes.push(byte).drop_first() =~= bytes.drop_first().push(byte));
        assert(hex_lower(bytes.push(byte)) =~= hex_lower(bytes) + seq![
            HEX_LOWER[(byte / 16) as int],
            HEX_LOWER[(byte % 16) as int],
        ]);
    }
}

proof fn lemma_le_bytes_len(x: nat, n: nat)
    ensures
        le_bytes(x, n).len() == n,
    decreases n,
{
    if n > 0 {
        lemma_le_bytes_len(x / 256, (n - 1) as nat);
    }
}

fn wrapping(x: u32, y: u32) -> (sum: u32)
    ensures
        sum == wadd(x, y),
{
    x.wrapping_add(y)
}

fn rotate(x: u32, s: u32) -> (turned: u32)
    requires
        0 < s < 32,
    ensures
        turned == rotl(x, s),
{
    (x << s) | (x >> (32 - s))
}

/// Append the `count` low bytes of `x`, least significant first.
fn push_le_bytes(out: &mut Vec<u8>, x: u64, count: usize)
    ensures
        final(out)@ == old(out)@ + le_bytes(x as nat, count as nat),
{
    let ghost start = out@;
    let mut v = x;
    let mut i: usize = 0;
    while i < count
        invariant
            i <= count,
            out@ + le_bytes(v as nat, (count - i) as nat) == start + le_bytes(x as nat, count as nat),
        decreases count - i,
    {
        let ghost before = out@;
        out.push((v % 256) as u8);
        assert(le_bytes(v as nat, (count - i) as nat) == seq![(v % 256) as u8] + le_bytes(
            (v / 256) as nat,
            (count - i - 1) as nat,
        ));
        assert(out@ + le_bytes((v / 256) as nat, (count - i - 1) as nat) =~= before + le_bytes(
            v as nat,
            (count - i) as nat,
        ));
        v = v / 256;
        i += 1;
    }
    assert(le_bytes(v as nat, 0) =~= Seq::<u8>::empty());
    assert(out@ =~= start + le_bytes(x as nat, count as nat));
}

/// The message as it is hashed.
fn padded(data: &[u8]) -> (message: Vec<u8>)
    requires
        data@.len() + 72 <= usize::MAX,
    ensures
        message@ == md5_padded(data@),
        message@.len() % 64 == 0,
{
    let mut message: Vec<u8> = Vec::new();
    let mut i: usize = 0;
    while i < data.len()
        invariant
            i <= data@.len(),
            message@ == data@.subrange(0, i as int),
        decreases data@.len() - i,
    {
        message.push(data[i]);
        i += 1;
        assert(message@ =~= data@.subrange(0, i as int));
    }
    assert(message@ =~= data@);
    let length = (data.len() as u64).wrapping_mul(8);
    message.push(0x80);
    let zeros = (119 - data.len() % 64) % 64;
    let mut z: usize = 0;
    while z < zeros
        invariant
            z <= zeros,
            zeros == md5_zeros(data@.len()),
            message@ == data@ + seq![0x80u8] + Seq::new(z as nat, |i: int| 0u8),
        decreases zeros - z,
    {
        message.push(0);
        z += 1;
        assert(message@ =~= data@ + seq![0x80u8] + Seq::new(z as nat, |i: int| 0u8));
    }
    assert(length as nat == ((data@.len() * 8) % 0x1_0000_0000_0000_0000) as nat);
    push_le_bytes(&mut message, length, 8);
    proof {
        lemma_le_bytes_len(length as nat, 8);
    }
    message
}

/// The word of the block at `base` that `step` reads.
fn word_at(message: &Vec<u8>, at: usize) -> (word: u32)
    requires
        at + 4 <= message@.len(),
    ensures
        word == le_word(message@, at as int),
{
    let length = message.len();
    assert(at + 4 <= length);
    message[at] as u32 + (message[at + 1] as u32) * 0x100 + (message[at + 2] as u32) * 0x1_0000
        + (message[at + 3] as u32) * 0x100_0000
}

/// The sixty-four steps over one block.
fn one_block(message: &Vec<u8>, base: usize, state: (u32, u32, u32, u32)) -> (next: (
    u32,
    u32,
    u32,
    u32,
))
    requires
        base + 64 <= message@.len(),
    ensures
        next == md5_block(state, message@, base as int),
{
    let (mut a, mut b, mut c, mut d) = state;
    let length = message.len();
    let mut step: usize = 0;
    while step < 64
        invariant
            step <= 64,
            base + 64 <= message@.len(),
            length == message@.len(),
            (a, b, c, d) == md5_steps(state, message@, base as int, step as nat),
        decreases 64 - step,
    {
        let (mixed, index) = if step < 16 {
            ((b & c) | (!b & d), step)
        } else if step < 32 {
            ((d & b) | (!d & c), (5 * step + 1) % 16)
        } else if step < 48 {
            (b ^ c ^ d, (3 * step + 5) % 16)
        } else {
            (c ^ (b | !d), (7 * step) % 16)
        };
        assert(index < 16 && index == taken(step as int));
        let word = word_at(message, base + 4 * index);
        let moved = wrapping(wrapping(wrapping(a, mixed), MD5_TABLE[step]), word);
        let shift = MD5_SHIFTS[step];
        assert(0 < shift < 32);
        a = d;
        d = c;
        c = b;
        b = wrapping(b, rotate(moved, shift));
        step += 1;
    }
    (wrapping(state.0, a), wrapping(state.1, b), wrapping(state.2, c), wrapping(state.3, d))
}

/// MD5, as the thumbnail specification names a file by: the digest of the
/// data, as thirty-two lower-case hexadecimal digits.
pub fn md5_hex(data: &[u8]) -> (hex: String)
    requires
        data@.len() + 72 <= usize::MAX,
    ensures
        hex@ == hex_lower(md5(data@)),
        hex@.len() == 32,
{
    let message = padded(data);
    let total = message.len();
    let blocks = total / 64;
    let mut state: (u32, u32, u32, u32) = (0x6745_2301, 0xefcd_ab89, 0x98ba_dcfe, 0x1032_5476);
    let mut block: usize = 0;
    while block < blocks
        invariant
            block <= blocks,
            blocks == message@.len() / 64,
            total == message@.len(),
            message@.len() % 64 == 0,
            state == md5_blocks(message@, block as nat),
        decreases blocks - block,
    {
        assert(64 * block + 64 <= message@.len()) by (nonlinear_arith)
            requires
                block < blocks,
                blocks == message@.len() / 64,
                message@.len() % 64 == 0,
        ;
        state = one_block(&message, 64 * block, state);
        block += 1;
    }
    let mut digest: Vec<u8> = Vec::new();
    push_le_bytes(&mut digest, state.0 as u64, 4);
    push_le_bytes(&mut digest, state.1 as u64, 4);
    push_le_bytes(&mut digest, state.2 as u64, 4);
    push_le_bytes(&mut digest, state.3 as u64, 4);
    proof {
        lemma_le_bytes_len(state.0 as nat, 4);
        lemma_le_bytes_len(state.1 as nat, 4);
        lemma_le_bytes_len(state.2 as nat, 4);
        lemma_le_bytes_len(state.3 as nat, 4);
    }
    assert(digest@ == md5(data@));
    let mut out: Vec<char> = Vec::new();
    let mut i: usize = 0;
    while i < digest.len()
        invariant
            i <= digest@.len(),
            digest@.len() == 16,
            out@ == hex_lower(digest@.subrange(0, i as int)),
            out@.len() == 2 * i,
        decreases digest@.len() - i,
    {
        let byte = digest[i];
        out.push(HEX_LOWER[(byte / 16) as usize]);
        out.push(HEX_LOWER[(byte % 16) as usize]);
        proof {
            lemma_hex_lower_push(digest@.subrange(0, i as int), byte);
            assert(digest@.subrange(0, i as int).push(byte) =~= digest@.subrange(0, i + 1));
        }
        i += 1;
    }
    assert(digest@.subrange(0, 16) =~= digest@);
    string_from(&out)
}

/// A lower-case hexadecimal digit.
pub open spec fn lower_hex_char(c: char) -> bool {
    '0' <= c <= '9' || 'a' <= c <= 'f'
}

proof fn lemma_hex_lower_digits(k: int)
    requires
        0 <= k < 16,
    ensures
        lower_hex_char(HEX_LOWER[k]),
{
    assert(HEX_LOWER@ =~= seq!['0', '1', '2', '3', '4', '5', '6', '7', '8', '9', 'a', 'b', 'c', 'd', 'e', 'f']);
}

proof fn lemma_hex_lower_alphabet(bytes: Seq<u8>)
    ensures
        hex_lower(bytes).len() == 2 * bytes.len(),
        forall|i: int| 0 <= i < hex_lower(bytes).len() ==> lower_hex_char(#[trigger] hex_lower(bytes)[i]),
    decreases bytes.len(),
{
    if bytes.len() > 0 {
        lemma_hex_lower_alphabet(bytes.drop_first());
        lemma_hex_lower_digits((bytes[0] / 16) as int);
        lemma_hex_lower_digits((bytes[0] % 16) as int);
        let rest = hex_lower(bytes.drop_first());
        let all = hex_lower(bytes);
        assert forall|i: int| 0 <= i < all.len() implies lower_hex_char(#[trigger] all[i]) by {
            if i >= 2 {
                assert(all[i] == rest[i - 2]);
            }
        }
    }
}

/// A digest is written in thirty-two characters, each a digit or a letter
/// from `a` to `f`: the bytes of RFC 1321's digest of the data, in order,
/// each as two lower-case hexadecimal digits.
pub proof fn law_a_digest_is_lower_hex(data: Seq<u8>)
    ensures
        hex_lower(md5(data)).len() == 32,
        forall|i: int| 0 <= i < 32 ==> lower_hex_char(#[trigger] hex_lower(md5(data))[i]),
{
    lemma_hex_lower_alphabet(md5(data));
    lemma_le_bytes_len(md5_blocks(md5_padded(data), md5_padded(data).len() / 64).0 as nat, 4);
    lemma_le_bytes_len(md5_blocks(md5_padded(data), md5_padded(data).len() / 64).1 as nat, 4);
    lemma_le_bytes_len(md5_blocks(md5_padded(data), md5_padded(data).len() / 64).2 as nat, 4);
    lemma_le_bytes_len(md5_blocks(md5_padded(data), md5_padded(data).len() / 64).3 as nat, 4);
}

} // verus!
