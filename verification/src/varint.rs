//! The variable-length integer encoding of the on-disk record format:
//! base-128 groups, most significant group first, with the top bit of a byte
//! marking continuation. An encoding is one to nine bytes; the ninth byte,
//! when present, carries a full eight bits.
use vstd::prelude::*;
use vstd::arithmetic::div_mod::lemma_div_denominator;
use vstd::arithmetic::power2::lemma2_to64;
use vstd::arithmetic::power2::lemma2_to64_rest;
use vstd::arithmetic::power2::lemma_pow2_adds;
use vstd::arithmetic::power2::pow2;

verus! {

/// How many bytes the varint encoding of `v` occupies.
pub open spec fn varint_len(v: u64) -> int {
    if v < 0x80 {
        1
    } else if v < 0x4000 {
        2
    } else if v < 0x20_0000 {
        3
    } else if v < 0x1000_0000 {
        4
    } else if v < 0x8_0000_0000 {
        5
    } else if v < 0x400_0000_0000 {
        6
    } else if v < 0x2_0000_0000_0000 {
        7
    } else if v < 0x100_0000_0000_0000 {
        8
    } else {
        9
    }
}

/// Byte `i` of an `n`-byte encoding, `n <= 8`: the `(n-1-i)`-th seven-bit
/// group of `v`, with the continuation bit on every byte but the last.
pub open spec fn varint_byte(v: u64, n: int, i: int) -> u8 {
    (((v as nat / pow2((7 * (n - 1 - i)) as nat)) % 0x80) + if i < n - 1 {
        0x80 as nat
    } else {
        0 as nat
    }) as u8
}

/// The varint encoding of `v`.
pub open spec fn varint(v: u64) -> Seq<u8> {
    let n = varint_len(v);
    if n == 9 {
        Seq::new(8, |i: int| (((v as nat / pow2((8 + 7 * (7 - i)) as nat)) % 0x80) + 0x80) as u8)
            .push((v as nat % 0x100) as u8)
    } else {
        Seq::new(n as nat, |i: int| varint_byte(v, n, i))
    }
}

/// `pow2(7 * k)` as a machine word, for the group shifts of an encoding.
fn pow128(k: u64) -> (r: u64)
    requires
        k <= 8,
    ensures
        r == pow2((7 * k) as nat),
        r >= 1,
{
    proof {
        lemma2_to64();
        lemma2_to64_rest();
    }
    if k == 0 {
        1
    } else if k == 1 {
        0x80
    } else if k == 2 {
        0x4000
    } else if k == 3 {
        0x20_0000
    } else if k == 4 {
        0x1000_0000
    } else if k == 5 {
        0x8_0000_0000
    } else if k == 6 {
        0x400_0000_0000
    } else if k == 7 {
        0x2_0000_0000_0000
    } else {
        0x100_0000_0000_0000
    }
}

/// Appends the varint encoding of `v` to `buf`.
pub fn write_varint(buf: &mut Vec<u8>, v: u64)
    ensures
        final(buf)@ == old(buf)@ + varint(v),
{
    proof {
        lemma2_to64();
        lemma2_to64_rest();
    }
    let ghost prior = buf@;
    if v >= 0x100_0000_0000_0000 {
        let hi = v / 0x100;
        let mut i: u64 = 0;
        proof {
            assert(buf@ =~= prior + Seq::new(
                0 as nat,
                |j: int| (((v as nat / pow2((8 + 7 * (7 - j)) as nat)) % 0x80) + 0x80) as u8,
            ));
        }
        while i < 8
            invariant
                hi == v as nat / 0x100,
                0 <= i <= 8,
                buf@ == prior + Seq::new(
                    i as nat,
                    |j: int| (((v as nat / pow2((8 + 7 * (7 - j)) as nat)) % 0x80) + 0x80) as u8,
                ),
            decreases 8 - i,
        {
            let p = pow128(7 - i);
            proof {
                lemma2_to64();
                let m: nat = (7 * (7 - i)) as nat;
                lemma_pow2_adds(8, m);
                assert(pow2(8) == 0x100);
                assert(pow2(8 + m) == pow2(8) * pow2(m));
                assert((8 + 7 * (7 - i)) as nat == 8 + m);
                assert(0x100 * p == pow2((8 + 7 * (7 - i)) as nat));
                lemma_div_denominator(v as int, 0x100, p as int);
                assert((v as int / 0x100) / (p as int) == v as int / (0x100 * p as int));
            }
            let b = ((hi / p) % 0x80) as u8;
            buf.push(b + 0x80);
            i = i + 1;
            proof {
                assert(buf@ =~= prior + Seq::new(
                    i as nat,
                    |j: int| (((v as nat / pow2((8 + 7 * (7 - j)) as nat)) % 0x80) + 0x80) as u8,
                ));
            }
        }
        buf.push((v % 0x100) as u8);
        proof {
            assert(buf@ =~= prior + varint(v));
        }
    } else {
        let n: u64 = if v < 0x80 {
            1
        } else if v < 0x4000 {
            2
        } else if v < 0x20_0000 {
            3
        } else if v < 0x1000_0000 {
            4
        } else if v < 0x8_0000_0000 {
            5
        } else if v < 0x400_0000_0000 {
            6
        } else if v < 0x2_0000_0000_0000 {
            7
        } else {
            8
        };
        let mut i: u64 = 0;
        proof {
            assert(buf@ =~= prior + Seq::new(0 as nat, |j: int| varint_byte(v, n as int, j)));
        }
        while i < n
            invariant
                n == varint_len(v),
                n <= 8,
                v < 0x100_0000_0000_0000,
                0 <= i <= n,
                buf@ == prior + Seq::new(i as nat, |j: int| varint_byte(v, n as int, j)),
            decreases n - i,
        {
            let p = pow128(n - 1 - i);
            proof {
                lemma2_to64();
            }
            let b = ((v / p) % 0x80) as u8;
            if i < n - 1 {
                buf.push(b + 0x80);
            } else {
                buf.push(b);
            }
            i = i + 1;
            proof {
                assert(buf@ =~= prior + Seq::new(i as nat, |j: int| varint_byte(v, n as int, j)));
            }
        }
        proof {
            assert(buf@ =~= prior + varint(v));
        }
    }
}

/// One step of varint decoding: `k` bytes consumed so far, `acc` the value
/// of the groups read. The ninth byte of an encoding contributes eight bits.
pub open spec fn read_varint_at(bytes: Seq<u8>, pos: int, k: int, acc: nat) -> Option<(nat, int)>
    decreases 9 - k,
{
    if !(0 <= pos < bytes.len()) || k >= 9 {
        None
    } else if k == 8 {
        Some(((acc * 0x100 + bytes[pos]) as nat, pos + 1))
    } else if bytes[pos] < 0x80 {
        Some(((acc * 0x80 + bytes[pos]) as nat, pos + 1))
    } else {
        read_varint_at(bytes, pos + 1, k + 1, (acc * 0x80 + (bytes[pos] - 0x80)) as nat)
    }
}

/// The value and end position of the varint starting at `pos`, or `None`
/// when the bytes run out before the encoding ends.
pub open spec fn spec_read_varint(bytes: Seq<u8>, pos: int) -> Option<(nat, int)> {
    read_varint_at(bytes, pos, 0, 0)
}

/// Decoding inverts encoding: a varint written at `pos` reads back as its
/// value, ending right after its last byte, whatever bytes surround it.
pub proof fn lemma_varint_round_trip(bytes: Seq<u8>, pos: int, v: u64)
    requires
        0 <= pos,
        pos + varint_len(v) <= bytes.len(),
        bytes.subrange(pos, pos + varint_len(v)) == varint(v),
    ensures
        spec_read_varint(bytes, pos) == Some((v as nat, pos + varint_len(v))),
{
    lemma2_to64();
    lemma2_to64_rest();
    let n = varint_len(v);
    assert forall|i: int| 0 <= i < n implies #[trigger] bytes[pos + i] == varint(v)[i] by {
        assert(bytes.subrange(pos, pos + n)[i] == bytes[pos + i]);
    }
    if n == 9 {
        let hi = v as nat / 0x100;
        assert forall|i: int| 0 <= i < 8 implies #[trigger] bytes[pos + i] == (((v as nat / pow2(
            (8 + 7 * (7 - i)) as nat,
        )) % 0x80) + 0x80) as u8 by {
            assert(bytes[pos + i] == varint(v)[i]);
        }
        lemma_read_groups_high(bytes, pos, v, 0);
        assert(pow2((7 * 8) as nat) == 0x100_0000_0000_0000);
        assert(hi / pow2((7 * 8) as nat) == 0) by {
            assert(hi < 0x100_0000_0000_0000);
        }
        assert(read_varint_at(bytes, pos, 0, 0) == read_varint_at(bytes, pos + 8, 8, hi));
        assert(bytes[pos + 8] == varint(v)[8]);
        assert(bytes[pos + 8] == (v as nat % 0x100) as u8);
        assert(hi * 0x100 + (v as nat % 0x100) == v);
    } else {
        assert forall|i: int| 0 <= i < n implies #[trigger] bytes[pos + i] == varint_byte(
            v,
            n,
            i,
        ) by {
            assert(bytes[pos + i] == varint(v)[i]);
        }
        lemma_read_groups(bytes, pos, v, 0);
        assert(v as nat / pow2((7 * n) as nat) == 0) by {
            vstd::arithmetic::div_mod::lemma_basic_div(v as int, pow2((7 * n) as nat) as int);
        }
    }
}

/// After `j` bytes of an `n <= 8`-byte encoding starting at `base`, the
/// accumulator holds the top `7*j` bits; reading on yields the value.
proof fn lemma_read_groups(bytes: Seq<u8>, base: int, v: u64, j: int)
    requires
        varint_len(v) <= 8,
        0 <= j < varint_len(v),
        0 <= base,
        base + varint_len(v) <= bytes.len(),
        forall|i: int|
            0 <= i < varint_len(v) ==> #[trigger] bytes[base + i] == varint_byte(
                v,
                varint_len(v),
                i,
            ),
    ensures
        read_varint_at(
            bytes,
            base + j,
            j,
            v as nat / pow2((7 * (varint_len(v) - j)) as nat),
        ) == Some((v as nat, base + varint_len(v))),
    decreases varint_len(v) - j,
{
    lemma2_to64();
    lemma2_to64_rest();
    let n = varint_len(v);
    let acc = v as nat / pow2((7 * (n - j)) as nat);
    let d = v as nat / pow2((7 * (n - 1 - j)) as nat);
    lemma_pow2_adds((7 * (n - 1 - j)) as nat, 7);
    lemma_div_denominator(v as int, pow2((7 * (n - 1 - j)) as nat) as int, 0x80);
    assert(acc == d / 0x80);
    assert(bytes[base + j] == varint_byte(v, n, j));
    if j == n - 1 {
        assert(varint_byte(v, n, j) == (d % 0x80) as u8);
        assert(bytes[base + j] < 0x80);
        assert(pow2(0) == 1);
        vstd::arithmetic::div_mod::lemma_div_basics(v as int);
        assert(d == v);
        assert(acc * 0x80 + (d % 0x80) == d);
    } else {
        assert(varint_byte(v, n, j) == ((d % 0x80) + 0x80) as u8);
        assert(bytes[base + j] >= 0x80);
        assert(acc * 0x80 + (bytes[base + j] - 0x80) == d);
        lemma_read_groups(bytes, base, v, j + 1);
    }
}

/// After `j` continuation bytes of a nine-byte encoding starting at `base`,
/// the accumulator holds the top `7*j` bits of `v / 256`; reading the rest
/// of the continuation bytes leaves the cursor on the ninth byte with the
/// accumulator equal to `v / 256`.
proof fn lemma_read_groups_high(bytes: Seq<u8>, base: int, v: u64, j: int)
    requires
        varint_len(v) == 9,
        0 <= j < 8,
        0 <= base,
        base + 9 <= bytes.len(),
        forall|i: int|
            0 <= i < 8 ==> #[trigger] bytes[base + i] == (((v as nat / pow2(
                (8 + 7 * (7 - i)) as nat,
            )) % 0x80) + 0x80) as u8,
    ensures
        read_varint_at(
            bytes,
            base + j,
            j,
            (v as nat / 0x100) / pow2((7 * (8 - j)) as nat),
        ) == read_varint_at(bytes, base + 8, 8, v as nat / 0x100),
    decreases 8 - j,
{
    lemma2_to64();
    lemma2_to64_rest();
    let hi = v as nat / 0x100;
    let acc = hi / pow2((7 * (8 - j)) as nat);
    let d = hi / pow2((7 * (7 - j)) as nat);
    lemma_pow2_adds((7 * (7 - j)) as nat, 7);
    lemma_div_denominator(hi as int, pow2((7 * (7 - j)) as nat) as int, 0x80);
    assert(acc == d / 0x80);
    lemma_pow2_adds(8, (7 * (7 - j)) as nat);
    lemma_div_denominator(v as int, 0x100, pow2((7 * (7 - j)) as nat) as int);
    assert(d == v as nat / pow2((8 + 7 * (7 - j)) as nat));
    assert(bytes[base + j] == ((d % 0x80) + 0x80) as u8);
    assert(bytes[base + j] >= 0x80);
    assert(acc * 0x80 + (bytes[base + j] - 0x80) == d);
    if j == 7 {
        assert(pow2(0) == 1);
        assert(d == hi);
    } else {
        lemma_read_groups_high(bytes, base, v, j + 1);
    }
}

/// Reading a varint consumes at least one byte and stays inside the bytes.
pub proof fn lemma_read_varint_advances(bytes: Seq<u8>, pos: int, k: int, acc: nat)
    requires
        0 <= k <= 8,
    ensures
        read_varint_at(bytes, pos, k, acc) matches Some(p) ==> pos < p.1 <= bytes.len(),
    decreases 9 - k,
{
    if 0 <= pos < bytes.len() && k < 8 && bytes[pos] >= 0x80 {
        lemma_read_varint_advances(bytes, pos + 1, k + 1, (acc * 0x80 + (bytes[pos] - 0x80)) as nat);
    }
}

/// Reads one varint from `bytes` starting at `pos`. Returns the value and
/// the position just past the encoding, or `None` when the bytes end before
/// the encoding does.
pub fn read_varint(bytes: &[u8], pos: usize) -> (r: Option<(u64, usize)>)
    ensures
        match r {
            Some(p) => spec_read_varint(bytes@, pos as int) == Some((p.0 as nat, p.1 as int)),
            None => spec_read_varint(bytes@, pos as int) is None,
        },
{
    proof {
        lemma2_to64();
        lemma2_to64_rest();
    }
    let len = bytes.len();
    let mut cur = pos;
    let mut acc: u64 = 0;
    let mut k: usize = 0;
    loop
        invariant
            pos <= cur,
            0 <= k <= 8,
            cur <= usize::MAX,
            len == bytes@.len(),
            acc < pow2((7 * k) as nat),
            read_varint_at(bytes@, pos as int, 0, 0) == read_varint_at(
                bytes@,
                cur as int,
                k as int,
                acc as nat,
            ),
        decreases 9 - k,
    {
        proof {
            lemma2_to64();
            lemma2_to64_rest();
        }
        if cur >= len {
            return None;
        }
        let b = bytes[cur];
        if k == 8 {
            proof {
                assert(acc < pow2(56));
                assert(acc * 0x100 + b < pow2(56) * 0x100);
            }
            return Some((acc * 0x100 + (b as u64), cur + 1));
        }
        if b < 0x80 {
            proof {
                lemma_pow2_adds((7 * k) as nat, 7);
                assert(acc * 0x80 + b < pow2((7 * k) as nat) * 0x80);
                vstd::arithmetic::power2::lemma_pow2_strictly_increases((7 * k + 7) as nat, 64);
                assert(pow2(64) == 0x1_0000_0000_0000_0000);
            }
            return Some((acc * 0x80 + (b as u64), cur + 1));
        }
        proof {
            lemma_pow2_adds((7 * k) as nat, 7);
            assert(acc * 0x80 + (b - 0x80) < pow2((7 * (k + 1)) as nat));
            vstd::arithmetic::power2::lemma_pow2_strictly_increases((7 * k + 7) as nat, 64);
            assert(pow2(64) == 0x1_0000_0000_0000_0000);
        }
        acc = acc * 0x80 + ((b - 0x80) as u64);
        cur = cur + 1;
        k = k + 1;
    }
}

} // verus!
