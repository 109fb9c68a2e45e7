//! Byte-level plumbing for the interpreter: big-endian word encoding,
//! zero-padded loads, and the byte-addressable frame memory.

use vstd::prelude::*;
use vstd::arithmetic::power2::pow2;
use crate::word::{U256, pow64, pow128, pow192, pow256, lemma_pow2_val, lemma_val_parts};

verus! {

/// The big-endian value of a byte string: the first byte is the most
/// significant.
pub open spec fn be_val(s: Seq<u8>) -> int
    decreases s.len(),
{
    if s.len() == 0 {
        0
    } else {
        be_val(s.drop_last()) * 256 + s.last()
    }
}

pub proof fn lemma_be_val_bound(s: Seq<u8>)
    ensures
        0 <= be_val(s) < pow2((8 * s.len()) as nat),
    decreases s.len(),
{
    vstd::arithmetic::power2::lemma2_to64();
    if s.len() == 0 {
    } else {
        lemma_be_val_bound(s.drop_last());
        vstd::arithmetic::power2::lemma_pow2_adds((8 * (s.len() - 1)) as nat, 8);
        assert(be_val(s.drop_last()) * 256 + s.last() < pow2((8 * (s.len() - 1)) as nat) * 256)
            by (nonlinear_arith)
            requires
                be_val(s.drop_last()) < pow2((8 * (s.len() - 1)) as nat),
                s.last() < 256,
        ;
    }
}

/// Splitting a byte string splits its value by place value.
pub proof fn lemma_be_val_split(s: Seq<u8>, k: int)
    requires
        0 <= k <= s.len(),
    ensures
        be_val(s) == be_val(s.take(k)) * pow2((8 * (s.len() - k)) as nat) + be_val(s.skip(k)),
    decreases s.len() - k,
{
    vstd::arithmetic::power2::lemma2_to64();
    if k == s.len() {
        assert(s.take(k) =~= s);
        assert(s.skip(k) =~= Seq::<u8>::empty());
        assert(pow2((8 * (s.len() - k)) as nat) == 1);
        assert(be_val(s.take(k)) * 1 == be_val(s)) by (nonlinear_arith)
            requires
                be_val(s.take(k)) == be_val(s),
        ;
    } else {
        let d = s.drop_last();
        lemma_be_val_split(d, k);
        assert(d.take(k) =~= s.take(k));
        assert(s.skip(k).drop_last() =~= d.skip(k));
        assert(s.skip(k).last() == s.last());
        vstd::arithmetic::power2::lemma_pow2_adds((8 * (s.len() - 1 - k)) as nat, 8);
        let p = pow2((8 * (s.len() - 1 - k)) as nat) as int;
        assert(be_val(s) == be_val(d) * 256 + s.last());
        assert(be_val(s.skip(k)) == be_val(d.skip(k)) * 256 + s.last());
        assert(pow2((8 * (s.len() - k)) as nat) == p * 256);
        assert(be_val(d) == be_val(s.take(k)) * p + be_val(d.skip(k)));
        assert((be_val(s.take(k)) * p) * 256 == be_val(s.take(k)) * (p * 256))
            by (nonlinear_arith);
        assert(be_val(s) == (be_val(s.take(k)) * p + be_val(d.skip(k))) * 256 + s.last());
        assert(be_val(s.take(k)) * pow2((8 * (s.len() - k)) as nat) == (be_val(s.take(k)) * p)
            * 256) by (nonlinear_arith)
            requires
                pow2((8 * (s.len() - k)) as nat) == p * 256,
        ;
    }
}

/// Reads eight bytes of `buf` starting at `start`, big endian.
pub fn read_u64_be(buf: &Vec<u8>, start: usize) -> (r: u64)
    requires
        start + 8 <= buf@.len(),
    ensures
        r == be_val(buf@.subrange(start as int, start + 8)),
{
    let n: usize = buf.len();
    let mut r: u64 = 0;
    let mut j: usize = 0;
    proof {
        assert(buf@.subrange(start as int, start as int) =~= Seq::<u8>::empty());
        vstd::arithmetic::power2::lemma2_to64();
    }
    while j < 8
        invariant
            j <= 8,
            start + 8 <= n,
            n == buf@.len(),
            r == be_val(buf@.subrange(start as int, start + j)),
            r < pow2((8 * j) as nat),
        decreases 8 - j,
    {
        proof {
            lemma_be_val_bound(buf@.subrange(start as int, start + j));
            assert(buf@.subrange(start as int, start + j + 1).drop_last() =~= buf@.subrange(
                start as int,
                start + j,
            ));
            vstd::arithmetic::power2::lemma_pow2_adds((8 * j) as nat, 8);
            vstd::arithmetic::power2::lemma2_to64();
            vstd::arithmetic::power2::lemma2_to64_rest();
            assert(r * 256 + buf@[start + j] < pow2((8 * j) as nat) * 256) by (nonlinear_arith)
                requires
                    r < pow2((8 * j) as nat),
                    buf@[start + j] < 256,
            ;
            assert(pow2((8 * (j + 1)) as nat) <= pow2(64)) by {
                if 8 * (j + 1) < 64 {
                    vstd::arithmetic::power2::lemma_pow2_strictly_increases(
                        (8 * (j + 1)) as nat,
                        64,
                    );
                }
            }
        }
        r = r * 256 + buf[start + j] as u64;
        j = j + 1;
    }
    r
}

/// Reads four bytes of `buf` starting at `start`, big endian.
pub fn read_u32_be(buf: &Vec<u8>, start: usize) -> (r: u32)
    requires
        start + 4 <= buf@.len(),
    ensures
        r == be_val(buf@.subrange(start as int, start + 4)),
{
    let n: usize = buf.len();
    let mut r: u32 = 0;
    let mut j: usize = 0;
    proof {
        assert(buf@.subrange(start as int, start as int) =~= Seq::<u8>::empty());
        vstd::arithmetic::power2::lemma2_to64();
    }
    while j < 4
        invariant
            j <= 4,
            start + 4 <= n,
            n == buf@.len(),
            r == be_val(buf@.subrange(start as int, start + j)),
            r < pow2((8 * j) as nat),
        decreases 4 - j,
    {
        proof {
            lemma_be_val_bound(buf@.subrange(start as int, start + j));
            assert(buf@.subrange(start as int, start + j + 1).drop_last() =~= buf@.subrange(
                start as int,
                start + j,
            ));
            vstd::arithmetic::power2::lemma_pow2_adds((8 * j) as nat, 8);
            vstd::arithmetic::power2::lemma2_to64();
            assert(r * 256 + buf@[start + j] < pow2((8 * j) as nat) * 256) by (nonlinear_arith)
                requires
                    r < pow2((8 * j) as nat),
                    buf@[start + j] < 256,
            ;
            assert(pow2((8 * (j + 1)) as nat) <= pow2(32)) by {
                if 8 * (j + 1) < 32 {
                    vstd::arithmetic::power2::lemma_pow2_strictly_increases(
                        (8 * (j + 1)) as nat,
                        32,
                    );
                }
            }
        }
        r = r * 256 + buf[start + j] as u32;
        j = j + 1;
    }
    r
}

/// Decodes a 32-byte big-endian buffer into a word.
pub fn word_from_be32(buf: &Vec<u8>) -> (r: U256)
    requires
        buf@.len() == 32,
    ensures
        r.val() == be_val(buf@),
{
    let l3 = read_u64_be(buf, 0);
    let l2 = read_u64_be(buf, 8);
    let l1 = read_u64_be(buf, 16);
    let l0 = read_u64_be(buf, 24);
    let r = U256 { l0, l1, l2, l3 };
    proof {
        lemma_pow2_val();
        lemma_be_val_split(buf@, 24);
        lemma_be_val_split(buf@.take(24), 16);
        lemma_be_val_split(buf@.take(24).take(16), 8);
        assert(buf@.take(24).take(16) =~= buf@.take(16));
        assert(buf@.take(16).take(8) =~= buf@.subrange(0, 8));
        assert(buf@.take(16).skip(8) =~= buf@.subrange(8, 16));
        assert(buf@.take(24).skip(16) =~= buf@.subrange(16, 24));
        assert(buf@.skip(24) =~= buf@.subrange(24, 32));
        let hi16 = be_val(buf@.take(16));
        assert(hi16 == l3 * pow2(64) + l2);
        let hi24 = be_val(buf@.take(24));
        assert(hi24 == hi16 * pow2(64) + l1);
        assert(be_val(buf@) == hi24 * pow2(64) + l0);
        assert((l3 * pow64() + l2) * pow64() == l3 * pow128() + l2 * pow64())
            by (nonlinear_arith);
        assert((l3 * pow128() + l2 * pow64() + l1) * pow64() == l3 * pow192() + l2 * pow128() + l1
            * pow64()) by (nonlinear_arith);
    }
    r
}

/// Byte `j` (big-endian position) of the 32-byte encoding of `x`.
pub open spec fn wbyte(x: int, j: int) -> int {
    (x / pow2((8 * (31 - j)) as nat) as int) % 256
}

/// One byte out of a limb: `(l / 2^sh) % 256` for a byte-aligned shift.
fn byte_of_limb(l: u64, sh: u64) -> (r: u8)
    requires
        sh < 64,
        sh % 8 == 0,
    ensures
        r == ((l as int) / pow2(sh as nat) as int) % 256,
{
    proof {
        vstd::arithmetic::power2::lemma2_to64();
        vstd::arithmetic::power2::lemma2_to64_rest();
    }
    if sh == 0 {
        (l % 256) as u8
    } else if sh == 8 {
        ((l / 0x100) % 256) as u8
    } else if sh == 16 {
        ((l / 0x1_0000) % 256) as u8
    } else if sh == 24 {
        ((l / 0x100_0000) % 256) as u8
    } else if sh == 32 {
        ((l / 0x1_0000_0000) % 256) as u8
    } else if sh == 40 {
        ((l / 0x100_0000_0000) % 256) as u8
    } else if sh == 48 {
        ((l / 0x1_0000_0000_0000) % 256) as u8
    } else {
        ((l / 0x100_0000_0000_0000) % 256) as u8
    }
}

/// The middle-byte extraction: cutting a value to 64 bits first does
/// not change a byte that lies below bit 64.
proof fn lemma_mid_byte(y: int, sh: nat)
    requires
        0 <= y,
        sh <= 56,
        sh % 8 == 0,
    ensures
        ((y % pow64()) / pow2(sh) as int) % 256 == (y / pow2(sh) as int) % 256,
{
    vstd::arithmetic::power2::lemma2_to64();
    vstd::arithmetic::power2::lemma2_to64_rest();
    lemma_pow2_val();
    let a = pow2(sh) as int;
    let b = pow2((64 - sh) as nat) as int;
    vstd::arithmetic::power2::lemma_pow2_adds(sh, (64 - sh) as nat);
    assert(a * b == pow64());
    vstd::arithmetic::div_mod::lemma_breakdown(y, a, b);
    assert(y % pow64() == a * ((y / a) % b) + y % a);
    vstd::arithmetic::div_mod::lemma_mod_division_less_than_divisor(y, a);
    vstd::arithmetic::div_mod::lemma_mod_bound(y, a);
    vstd::arithmetic::div_mod::lemma_div_multiples_vanish_fancy((y / a) % b, y % a, a);
    assert((y % pow64()) / a == (y / a) % b);
    let c = pow2((56 - sh) as nat) as int;
    vstd::arithmetic::power2::lemma_pow2_adds(8, (56 - sh) as nat);
    assert(256 * c == b);
    vstd::arithmetic::div_mod::lemma_mod_mod(y / a, 256, c);
}

/// Encodes a word as 32 big-endian bytes.
pub fn word_to_be32(w: &U256) -> (r: Vec<u8>)
    ensures
        r@.len() == 32,
        forall|j: int| 0 <= j < 32 ==> r@[j] == wbyte(w.val(), j),
{
    let mut r: Vec<u8> = Vec::new();
    let mut j: usize = 0;
    while j < 32
        invariant
            j <= 32,
            r@.len() == j,
            forall|t: int| 0 <= t < j ==> r@[t] == wbyte(w.val(), t),
        decreases 32 - j,
    {
        let p: u64 = (31 - j) as u64;
        let i: u64 = p / 8;
        let sh: u64 = 8 * (p % 8);
        let limb: u64 = if i == 0 {
            w.l0
        } else if i == 1 {
            w.l1
        } else if i == 2 {
            w.l2
        } else {
            w.l3
        };
        let b = byte_of_limb(limb, sh);
        proof {
            lemma_byte_position(*w, j as int, i as int, sh as int);
        }
        r.push(b);
        j = j + 1;
    }
    r
}

/// Memory after growing to `n` bytes: fresh bytes read zero.
pub open spec fn grown(m: Seq<u8>, n: int) -> Seq<u8> {
    if n <= m.len() {
        m
    } else {
        m + Seq::new((n - m.len()) as nat, |i: int| 0u8)
    }
}

/// Grows `mem` with zero bytes up to `target` bytes.
pub fn mem_grow(mem: &mut Vec<u8>, target: usize)
    ensures
        final(mem)@ == grown(old(mem)@, target as int),
        final(mem)@.len() >= target,
        final(mem)@.len() >= old(mem)@.len(),
{
    while mem.len() < target
        invariant
            grown(mem@, target as int) == grown(old(mem)@, target as int),
            mem@.len() >= old(mem)@.len(),
        decreases target - mem@.len(),
    {
        let ghost pre = mem@;
        mem.push(0);
        proof {
            assert(grown(mem@, target as int) =~= grown(pre, target as int));
        }
    }
    proof {
        assert(grown(mem@, target as int) =~= mem@);
    }
}

/// A 32-byte load from `s` at `off`, zero-padded past the end.
pub open spec fn load32(s: Seq<u8>, off: int) -> Seq<u8> {
    Seq::new(32, |j: int| if off + j < s.len() { s[off + j] } else { 0u8 })
}

/// Builds the zero-padded 32-byte load buffer.
pub fn load32_exec(s: &Vec<u8>, off: u64) -> (r: Vec<u8>)
    ensures
        r@ == load32(s@, off as int),
{
    let mut r: Vec<u8> = Vec::new();
    let mut j: usize = 0;
    let n: usize = s.len();
    while j < 32
        invariant
            j <= 32,
            r@.len() == j,
            n == s@.len(),
            forall|t: int| 0 <= t < j ==> r@[t] == load32(s@, off as int)[t],
        decreases 32 - j,
    {
        let b: u8 = if off < n as u64 && (j as u64) < n as u64 - off {
            s[(off + j as u64) as usize]
        } else {
            0
        };
        r.push(b);
        j = j + 1;
    }
    proof {
        assert(r@ =~= load32(s@, off as int));
    }
    r
}

/// The operand of a push instruction: the `n` code bytes after `pc`,
/// missing bytes read as zero, left-padded to 32 bytes.
pub open spec fn push_arg(code: Seq<u8>, pc: int, n: int) -> Seq<u8> {
    Seq::new(
        32,
        |j: int|
            if j < 32 - n {
                0u8
            } else if pc + 1 + (j - (32 - n)) < code.len() {
                code[pc + 1 + (j - (32 - n))]
            } else {
                0u8
            },
    )
}

/// Builds the push operand buffer.
pub fn push_arg_exec(code: &Vec<u8>, pc: usize, n: usize) -> (r: Vec<u8>)
    requires
        1 <= n <= 32,
        pc < code@.len(),
    ensures
        r@ == push_arg(code@, pc as int, n as int),
{
    let mut r: Vec<u8> = Vec::new();
    let mut j: usize = 0;
    let len: usize = code.len();
    while j < 32
        invariant
            j <= 32,
            r@.len() == j,
            1 <= n <= 32,
            pc < len,
            len == code@.len(),
            forall|t: int| 0 <= t < j ==> r@[t] == push_arg(code@, pc as int, n as int)[t],
        decreases 32 - j,
    {
        let b: u8 = if j < 32 - n {
            0
        } else {
            let k = j - (32 - n);
            let base = pc + 1;
            if k < len - base {
                code[base + k]
            } else {
                0
            }
        };
        r.push(b);
        j = j + 1;
    }
    proof {
        assert(r@ =~= push_arg(code@, pc as int, n as int));
    }
    r
}

/// Memory after a 32-byte store of `x` at `off`.
pub open spec fn stored32(m: Seq<u8>, off: int, x: int) -> Seq<u8> {
    Seq::new(
        m.len(),
        |k: int| if off <= k < off + 32 { (wbyte(x, k - off)) as u8 } else { m[k] },
    )
}

/// Writes the 32-byte big-endian encoding of `w` at `off`.
pub fn mem_write_word(mem: &mut Vec<u8>, off: usize, w: &U256)
    requires
        off + 32 <= old(mem)@.len(),
    ensures
        final(mem)@ == stored32(old(mem)@, off as int, w.val()),
{
    let buf = word_to_be32(w);
    let mut j: usize = 0;
    let mlen: usize = mem.len();
    while j < 32
        invariant
            j <= 32,
            off + 32 <= mlen,
            mlen == mem@.len(),
            mem@.len() == old(mem)@.len(),
            buf@.len() == 32,
            forall|t: int| 0 <= t < 32 ==> buf@[t] == wbyte(w.val(), t),
            forall|k: int|
                0 <= k < mem@.len() ==> mem@[k] == (if off <= k < off + j {
                    (wbyte(w.val(), k - off)) as u8
                } else {
                    old(mem)@[k]
                }),
        decreases 32 - j,
    {
        let b = buf[j];
        mem.set(off + j, b);
        j = j + 1;
    }
    proof {
        assert(mem@ =~= stored32(old(mem)@, off as int, w.val()));
    }
}

/// Reads the 32-byte word stored at `off`.
pub fn mem_read_word(mem: &Vec<u8>, off: usize) -> (r: U256)
    requires
        off + 32 <= mem@.len(),
    ensures
        r.val() == be_val(mem@.subrange(off as int, off + 32)),
{
    let mut buf: Vec<u8> = Vec::new();
    let mut j: usize = 0;
    let mlen: usize = mem.len();
    while j < 32
        invariant
            j <= 32,
            off + 32 <= mlen,
            mlen == mem@.len(),
            buf@.len() == j,
            forall|t: int| 0 <= t < j ==> buf@[t] == mem@[off + t],
        decreases 32 - j,
    {
        buf.push(mem[off + j]);
        j = j + 1;
    }
    proof {
        assert(buf@ =~= mem@.subrange(off as int, off + 32));
    }
    word_from_be32(&buf)
}

/// A copy of `mem[off .. off + n]`.
pub fn mem_slice(mem: &Vec<u8>, off: usize, n: usize) -> (r: Vec<u8>)
    requires
        off + n <= mem@.len(),
    ensures
        r@ == mem@.subrange(off as int, off + n),
{
    let mut r: Vec<u8> = Vec::new();
    let mut j: usize = 0;
    let mlen: usize = mem.len();
    while j < n
        invariant
            j <= n,
            off + n <= mlen,
            mlen == mem@.len(),
            r@.len() == j,
            forall|t: int| 0 <= t < j ==> r@[t] == mem@[off + t],
        decreases n - j,
    {
        r.push(mem[off + j]);
        j = j + 1;
    }
    proof {
        assert(r@ =~= mem@.subrange(off as int, off + n));
    }
    r
}

/// Memory after copying `n` bytes of `src` (from `src_off`, zero-padded
/// past its end) to `dest`.
pub open spec fn copied(m: Seq<u8>, dest: int, src: Seq<u8>, src_off: int, n: int) -> Seq<u8> {
    Seq::new(
        m.len(),
        |k: int|
            if dest <= k < dest + n {
                if src_off + (k - dest) < src.len() {
                    src[src_off + (k - dest)]
                } else {
                    0u8
                }
            } else {
                m[k]
            },
    )
}

/// Copies `n` bytes of `src` starting at `src_off` to `dest`,
/// zero-padding reads past the end of `src`.
pub fn mem_copy_padded(mem: &mut Vec<u8>, dest: usize, src: &Vec<u8>, src_off: u64, n: usize)
    requires
        dest + n <= old(mem)@.len(),
    ensures
        final(mem)@ == copied(old(mem)@, dest as int, src@, src_off as int, n as int),
{
    let mut j: usize = 0;
    let srclen: usize = src.len();
    let mlen: usize = mem.len();
    while j < n
        invariant
            j <= n,
            dest + n <= mlen,
            mlen == mem@.len(),
            mem@.len() == old(mem)@.len(),
            srclen == src@.len(),
            forall|k: int|
                0 <= k < mem@.len() ==> mem@[k] == (if dest <= k < dest + j {
                    if src_off + (k - dest) < src@.len() {
                        src@[src_off + (k - dest)]
                    } else {
                        0u8
                    }
                } else {
                    old(mem)@[k]
                }),
        decreases n - j,
    {
        let b: u8 = if src_off < srclen as u64 && (j as u64) < srclen as u64 - src_off {
            src[(src_off + j as u64) as usize]
        } else {
            0
        };
        mem.set(dest + j, b);
        j = j + 1;
    }
    proof {
        assert(mem@ =~= copied(old(mem)@, dest as int, src@, src_off as int, n as int));
    }
}

/// Byte `j` of a word's encoding comes from limb `i` at shift `sh`.
proof fn lemma_byte_position(w: U256, j: int, i: int, sh: int)
    requires
        0 <= j < 32,
        i == (31 - j) / 8,
        sh == 8 * ((31 - j) % 8),
    ensures
        ({
            let limb: int = if i == 0 {
                w.l0 as int
            } else if i == 1 {
                w.l1 as int
            } else if i == 2 {
                w.l2 as int
            } else {
                w.l3 as int
            };
            (limb / (pow2(sh as nat) as int)) % 256 == wbyte(w.val(), j)
        }),
{
    lemma_pow2_val();
    lemma_val_parts(w);
    let v = w.val();
    let p = 31 - j;
    assert(8 * p == 64 * i + sh);
    vstd::arithmetic::power2::lemma_pow2_adds((64 * i) as nat, sh as nat);
    let big = pow2((64 * i) as nat) as int;
    let small = pow2(sh as nat) as int;
    vstd::arithmetic::power2::lemma_pow2_pos((64 * i) as nat);
    vstd::arithmetic::power2::lemma_pow2_pos(sh as nat);
    vstd::arithmetic::div_mod::lemma_div_denominator(v, big, small);
    assert(v / pow2((8 * p) as nat) as int == (v / big) / small);
    if i == 0 {
        assert(big == 1) by {
            vstd::arithmetic::power2::lemma2_to64();
        }
        assert(v / big == v) by {
            vstd::arithmetic::div_mod::lemma_div_by_self(1);
        }
        lemma_mid_byte(v, sh as nat);
        assert(w.l0 == v % pow64());
    } else if i == 1 {
        lemma_mid_byte(v / pow64(), sh as nat);
    } else if i == 2 {
        lemma_mid_byte(v / pow128(), sh as nat);
    } else {
        assert(w.l3 == v / pow192());
        assert((v / pow192()) / small == ((v / pow192()) % pow64()) / small) by {
            vstd::arithmetic::div_mod::lemma_small_mod((v / pow192()) as nat, pow64() as nat);
        }
        lemma_mid_byte(v / pow192(), sh as nat);
    }
}

} // verus!
