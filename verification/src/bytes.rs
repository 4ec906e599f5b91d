//! Fixed-width integers in byte sequences, in either byte order.

use vstd::arithmetic::power2;
use vstd::prelude::*;

verus! {

/// The integer whose bytes are `b0` to `b3`, least significant first.
pub open spec fn join4(b0: u8, b1: u8, b2: u8, b3: u8) -> u32 {
    (b0 + 0x100 * b1 + 0x1_0000 * b2 + 0x100_0000 * b3) as u32
}

/// The 32-bit integer at `offset`, little-endian if `le`, else big-endian.
pub open spec fn u32_at(data: Seq<u8>, offset: int, le: bool) -> u32
    recommends
        0 <= offset,
        offset + 4 <= data.len(),
{
    if le {
        join4(data[offset], data[offset + 1], data[offset + 2], data[offset + 3])
    } else {
        join4(data[offset + 3], data[offset + 2], data[offset + 1], data[offset])
    }
}

/// The 64-bit integer at `offset`, little-endian if `le`, else big-endian.
pub open spec fn u64_at(data: Seq<u8>, offset: int, le: bool) -> u64
    recommends
        0 <= offset,
        offset + 8 <= data.len(),
{
    if le {
        (u32_at(data, offset, le) + 0x1_0000_0000 * u32_at(data, offset + 4, le)) as u64
    } else {
        (0x1_0000_0000 * u32_at(data, offset, le) + u32_at(data, offset + 4, le)) as u64
    }
}

/// The four bytes of `value`, least significant first if `le`.
pub open spec fn u32_bytes(value: u32, le: bool) -> Seq<u8> {
    let b0 = (value % 0x100) as u8;
    let b1 = (value / 0x100 % 0x100) as u8;
    let b2 = (value / 0x1_0000 % 0x100) as u8;
    let b3 = (value / 0x100_0000) as u8;
    if le {
        seq![b0, b1, b2, b3]
    } else {
        seq![b3, b2, b1, b0]
    }
}

/// The eight bytes of `value`, least significant first if `le`.
pub open spec fn u64_bytes(value: u64, le: bool) -> Seq<u8> {
    let low = (value % 0x1_0000_0000) as u32;
    let high = (value / 0x1_0000_0000) as u32;
    if le {
        u32_bytes(low, le) + u32_bytes(high, le)
    } else {
        u32_bytes(high, le) + u32_bytes(low, le)
    }
}

/// `data` with the bytes from `offset` on replaced by `bytes`.
pub open spec fn overwrite(data: Seq<u8>, offset: int, bytes: Seq<u8>) -> Seq<u8> {
    Seq::new(
        data.len(),
        |i: int|
            if offset <= i < offset + bytes.len() {
                bytes[i - offset]
            } else {
                data[i]
            },
    )
}

/// `data` with `value` written at `offset`.
#[verifier::opaque]
pub open spec fn put32(data: Seq<u8>, offset: int, value: u32, le: bool) -> Seq<u8> {
    overwrite(data, offset, u32_bytes(value, le))
}

/// `data` with `value` written at `offset`.
#[verifier::opaque]
pub open spec fn put64(data: Seq<u8>, offset: int, value: u64, le: bool) -> Seq<u8> {
    overwrite(data, offset, u64_bytes(value, le))
}

/// `count` zero bytes.
pub open spec fn zeros(count: nat) -> Seq<u8> {
    Seq::new(count, |i: int| 0u8)
}

/// Whether the bytes from `start` up to `end` are zero.
pub open spec fn all_zero(data: Seq<u8>, start: int, end: int) -> bool {
    forall|k: int| start <= k < end ==> #[trigger] data[k] == 0
}

/// `data` cut or filled up with zero bytes to `len` bytes.
pub open spec fn resized(data: Seq<u8>, len: nat) -> Seq<u8> {
    if len <= data.len() {
        data.take(len as int)
    } else {
        data + zeros((len - data.len()) as nat)
    }
}

/// The smallest multiple of `step` that is not below `n`.
pub open spec fn round_up(n: int, step: int) -> int
    recommends
        step > 0,
{
    (n + step - 1) / step * step
}

/// The number of pieces of `size` bytes that `n` bytes take, the last of
/// which may be shorter.
pub open spec fn pieces(n: int, size: int) -> int
    recommends
        size > 0,
{
    (n + size - 1) / size
}

/// The bytes of an integer make up that integer again.
pub proof fn lemma_u32_round_trip(value: u32, le: bool)
    ensures
        u32_bytes(value, le).len() == 4,
        u32_at(u32_bytes(value, le), 0, le) == value,
{
    let b0 = value % 0x100;
    let b1 = value / 0x100 % 0x100;
    let b2 = value / 0x1_0000 % 0x100;
    let b3 = value / 0x100_0000;
    assert(value == b0 + 0x100 * b1 + 0x1_0000 * b2 + 0x100_0000 * b3);
    assert(b3 < 0x100);
}

/// The bytes of an integer make up that integer again.
pub proof fn lemma_u64_round_trip(value: u64, le: bool)
    ensures
        u64_bytes(value, le).len() == 8,
        u64_at(u64_bytes(value, le), 0, le) == value,
{
    let low = (value % 0x1_0000_0000) as u32;
    let high = (value / 0x1_0000_0000) as u32;
    lemma_u32_round_trip(low, le);
    lemma_u32_round_trip(high, le);
    let bytes = u64_bytes(value, le);
    if le {
        assert(bytes[0] == u32_bytes(low, le)[0]);
        assert(bytes[4] == u32_bytes(high, le)[0]);
        assert(u32_at(bytes, 0, le) == low);
        assert(u32_at(bytes, 4, le) == high);
    } else {
        assert(u32_at(bytes, 0, le) == high);
        assert(u32_at(bytes, 4, le) == low);
    }
}

/// Equal bytes make up equal integers.
pub proof fn lemma_u32_same(a: Seq<u8>, i: int, b: Seq<u8>, j: int, le: bool)
    requires
        a[i] == b[j],
        a[i + 1] == b[j + 1],
        a[i + 2] == b[j + 2],
        a[i + 3] == b[j + 3],
    ensures
        u32_at(a, i, le) == u32_at(b, j, le),
{
}

/// Equal bytes make up equal integers.
pub proof fn lemma_u64_same(a: Seq<u8>, i: int, b: Seq<u8>, j: int, le: bool)
    requires
        forall|k: int| 0 <= k < 8 ==> #[trigger] a[i + k] == b[j + k],
    ensures
        u64_at(a, i, le) == u64_at(b, j, le),
{
    assert(a[i + 0] == b[j + 0]);
    assert(a[i + 1] == b[j + 1]);
    assert(a[i + 2] == b[j + 2]);
    assert(a[i + 3] == b[j + 3]);
    assert(a[i + 4] == b[j + 4]);
    assert(a[i + 5] == b[j + 5]);
    assert(a[i + 6] == b[j + 6]);
    assert(a[i + 7] == b[j + 7]);
}

/// An integer that was written is read back.
pub proof fn lemma_put32_read(data: Seq<u8>, offset: int, value: u32, le: bool)
    requires
        0 <= offset,
        offset + 4 <= data.len(),
    ensures
        put32(data, offset, value, le).len() == data.len(),
        u32_at(put32(data, offset, value, le), offset, le) == value,
{
    reveal(put32);
    lemma_u32_round_trip(value, le);
    lemma_u32_same(put32(data, offset, value, le), offset, u32_bytes(value, le), 0, le);
}

/// An integer that was written is read back.
pub proof fn lemma_put64_read(data: Seq<u8>, offset: int, value: u64, le: bool)
    requires
        0 <= offset,
        offset + 8 <= data.len(),
    ensures
        put64(data, offset, value, le).len() == data.len(),
        u64_at(put64(data, offset, value, le), offset, le) == value,
{
    reveal(put64);
    lemma_u64_round_trip(value, le);
    lemma_u64_same(put64(data, offset, value, le), offset, u64_bytes(value, le), 0, le);
}

/// Writing an integer changes its four bytes alone.
pub proof fn lemma_put32(data: Seq<u8>, offset: int, value: u32, le: bool)
    requires
        0 <= offset,
        offset + 4 <= data.len(),
    ensures
        put32(data, offset, value, le).len() == data.len(),
        u32_at(put32(data, offset, value, le), offset, le) == value,
        forall|i: int|
            0 <= i < data.len() && !(offset <= i < offset + 4) ==> #[trigger] put32(
                data,
                offset,
                value,
                le,
            )[i] == data[i],
{
    lemma_put32_read(data, offset, value, le);
    reveal(put32);
}

/// Writing an integer changes its eight bytes alone.
pub proof fn lemma_put64(data: Seq<u8>, offset: int, value: u64, le: bool)
    requires
        0 <= offset,
        offset + 8 <= data.len(),
    ensures
        put64(data, offset, value, le).len() == data.len(),
        u64_at(put64(data, offset, value, le), offset, le) == value,
        forall|i: int|
            0 <= i < data.len() && !(offset <= i < offset + 8) ==> #[trigger] put64(
                data,
                offset,
                value,
                le,
            )[i] == data[i],
{
    lemma_put64_read(data, offset, value, le);
    reveal(put64);
}

/// The bytes of the integer that four bytes make up are those bytes.
pub proof fn lemma_split4(b0: u8, b1: u8, b2: u8, b3: u8)
    ensures
        ({
            let value = join4(b0, b1, b2, b3);
            &&& (value % 0x100) as u8 == b0
            &&& (value / 0x100 % 0x100) as u8 == b1
            &&& (value / 0x1_0000 % 0x100) as u8 == b2
            &&& (value / 0x100_0000) as u8 == b3
        }),
{
    let value = b0 + 0x100 * b1 + 0x1_0000 * b2 + 0x100_0000 * b3;
    assert(value / 0x100 == b1 + 0x100 * b2 + 0x1_0000 * b3);
    assert(value / 0x1_0000 == b2 + 0x100 * b3);
    assert(value / 0x100_0000 == b3 as int);
}

/// Writing the integer that stands there already changes nothing.
pub proof fn lemma_put32_same(data: Seq<u8>, offset: int, value: u32, le: bool)
    requires
        0 <= offset,
        offset + 4 <= data.len(),
        u32_at(data, offset, le) == value,
    ensures
        put32(data, offset, value, le) == data,
{
    let (a, b, c, d) = (data[offset], data[offset + 1], data[offset + 2], data[offset + 3]);
    if le {
        lemma_split4(a, b, c, d);
        assert(u32_bytes(value, le) =~= seq![a, b, c, d]);
    } else {
        lemma_split4(d, c, b, a);
        assert(u32_bytes(value, le) =~= seq![a, b, c, d]);
    }
    reveal(put32);
    assert(put32(data, offset, value, le) =~= data);
}

/// Writing the integer that stands there already changes nothing.
pub proof fn lemma_put64_same(data: Seq<u8>, offset: int, value: u64, le: bool)
    requires
        0 <= offset,
        offset + 8 <= data.len(),
        u64_at(data, offset, le) == value,
    ensures
        put64(data, offset, value, le) == data,
{
    reveal(put64);
    let low = (value % 0x1_0000_0000) as u32;
    let high = (value / 0x1_0000_0000) as u32;
    if le {
        assert(u32_at(data, offset, le) == low);
        assert(u32_at(data, offset + 4, le) == high);
        lemma_put32_same(data, offset, low, le);
        lemma_put32_same(data, offset + 4, high, le);
    } else {
        assert(u32_at(data, offset, le) == high);
        assert(u32_at(data, offset + 4, le) == low);
        lemma_put32_same(data, offset, high, le);
        lemma_put32_same(data, offset + 4, low, le);
    }
    reveal(put32);
    assert(put64(data, offset, value, le) =~= data);
}

/// Writing into the front of a sequence leaves the rest alone.
pub proof fn lemma_put32_front(front: Seq<u8>, rest: Seq<u8>, offset: int, value: u32, le: bool)
    requires
        0 <= offset,
        offset + 4 <= front.len(),
    ensures
        put32(front + rest, offset, value, le) == put32(front, offset, value, le) + rest,
        put32(front, offset, value, le).len() == front.len(),
{
    reveal(put32);
    assert(put32(front + rest, offset, value, le) =~= put32(front, offset, value, le) + rest);
}

/// Writing into the front of a sequence leaves the rest alone.
pub proof fn lemma_put64_front(front: Seq<u8>, rest: Seq<u8>, offset: int, value: u64, le: bool)
    requires
        0 <= offset,
        offset + 8 <= front.len(),
    ensures
        put64(front + rest, offset, value, le) == put64(front, offset, value, le) + rest,
        put64(front, offset, value, le).len() == front.len(),
{
    reveal(put64);
    assert(put64(front + rest, offset, value, le) =~= put64(front, offset, value, le) + rest);
}

/// The 32-bit integer at `offset`.
pub fn get_u32(data: &[u8], offset: usize, le: bool) -> (value: u32)
    requires
        offset + 4 <= data.len(),
    ensures
        value == u32_at(data@, offset as int, le),
{
    let a = data[offset] as u32;
    let b = data[offset + 1] as u32;
    let c = data[offset + 2] as u32;
    let d = data[offset + 3] as u32;
    if le {
        a + 0x100 * b + 0x1_0000 * c + 0x100_0000 * d
    } else {
        d + 0x100 * c + 0x1_0000 * b + 0x100_0000 * a
    }
}

/// The 64-bit integer at `offset`.
pub fn get_u64(data: &[u8], offset: usize, le: bool) -> (value: u64)
    requires
        offset + 8 <= data.len(),
    ensures
        value == u64_at(data@, offset as int, le),
{
    let first = get_u32(data, offset, le) as u64;
    let second = get_u32(data, offset + 4, le) as u64;
    if le {
        first + 0x1_0000_0000 * second
    } else {
        0x1_0000_0000 * first + second
    }
}

/// The four bytes of `value`.
pub fn bytes_of_u32(value: u32, le: bool) -> (bytes: [u8; 4])
    ensures
        bytes@ == u32_bytes(value, le),
{
    let b0 = (value % 0x100) as u8;
    let b1 = (value / 0x100 % 0x100) as u8;
    let b2 = (value / 0x1_0000 % 0x100) as u8;
    let b3 = (value / 0x100_0000) as u8;
    if le {
        [b0, b1, b2, b3]
    } else {
        [b3, b2, b1, b0]
    }
}

/// Write `value` at `offset`.
pub fn set_u32(data: &mut Vec<u8>, offset: usize, value: u32, le: bool)
    requires
        offset + 4 <= old(data).len(),
    ensures
        final(data)@ == put32(old(data)@, offset as int, value, le),
        final(data)@.len() == old(data)@.len(),
{
    proof {
        reveal(put32);
    }
    let bytes = bytes_of_u32(value, le);
    data[offset] = bytes[0];
    data[offset + 1] = bytes[1];
    data[offset + 2] = bytes[2];
    data[offset + 3] = bytes[3];
}

/// Write `value` at `offset`.
pub fn set_u64(data: &mut Vec<u8>, offset: usize, value: u64, le: bool)
    requires
        offset + 8 <= old(data).len(),
    ensures
        final(data)@ == put64(old(data)@, offset as int, value, le),
        final(data)@.len() == old(data)@.len(),
{
    proof {
        reveal(put32);
        reveal(put64);
    }
    let low = (value % 0x1_0000_0000) as u32;
    let high = (value / 0x1_0000_0000) as u32;
    if le {
        set_u32(data, offset, low, le);
        set_u32(data, offset + 4, high, le);
    } else {
        set_u32(data, offset, high, le);
        set_u32(data, offset + 4, low, le);
    }
}

/// Whether the bytes from `start` up to `end` are zero.
pub fn is_zero(data: &[u8], start: usize, end: usize) -> (zero: bool)
    requires
        start <= end <= data.len(),
    ensures
        zero == all_zero(data@, start as int, end as int),
{
    let mut i: usize = start;
    while i < end
        invariant
            start <= i <= end <= data.len(),
            all_zero(data@, start as int, i as int),
        decreases end - i,
    {
        if data[i] != 0 {
            return false;
        }
        i += 1;
    }
    true
}

/// Whether two byte slices hold the same bytes.
pub fn same_bytes(a: &[u8], b: &[u8]) -> (same: bool)
    ensures
        same == (a@ == b@),
{
    if a.len() != b.len() {
        return false;
    }
    let mut i: usize = 0;
    while i < a.len()
        invariant
            i <= a@.len(),
            a@.len() == b@.len(),
            forall|k: int| 0 <= k < i ==> a@[k] == b@[k],
        decreases a@.len() - i,
    {
        if a[i] != b[i] {
            return false;
        }
        i += 1;
    }
    assert(a@ =~= b@);
    true
}

/// Two to the power of `exponent`.
pub fn power_of_two(exponent: u32) -> (power: u64)
    requires
        exponent < 32,
    ensures
        power == power2::pow2(exponent as nat),
        0 < power <= 0x8000_0000,
{
    proof {
        power2::lemma_pow2_pos(exponent as nat);
        power2::lemma2_to64();
        if exponent < 31 {
            power2::lemma_pow2_strictly_increases(exponent as nat, 31);
        }
        vstd::bits::lemma_u64_shl_is_mul(1, exponent as u64);
    }
    1u64 << (exponent as u64)
}

/// A rounded number is a multiple of the step, and less than a step above the
/// number.
pub proof fn lemma_round_up(n: int, step: int)
    requires
        step > 0,
    ensures
        n <= round_up(n, step) < n + step,
        round_up(n, step) % step == 0,
        n % step == 0 ==> round_up(n, step) == n,
{
    let q = (n + step - 1) / step;
    vstd::arithmetic::div_mod::lemma_fundamental_div_mod(n + step - 1, step);
    vstd::arithmetic::div_mod::lemma_mod_bound(n + step - 1, step);
    assert(q * step == step * q) by (nonlinear_arith);
    vstd::arithmetic::div_mod::lemma_mod_multiples_basic(q, step);
    if n % step == 0 {
        vstd::arithmetic::div_mod::lemma_fundamental_div_mod(n, step);
        let m = n / step;
        assert(q == m) by (nonlinear_arith)
            requires
                step > 0,
                n == step * m,
                n <= step * q < n + step,
        ;
    }
}

/// A piece starts within the bytes that are split up.
pub proof fn lemma_pieces(n: int, size: int, index: int)
    requires
        size > 0,
        0 <= n,
        0 <= index < pieces(n, size),
    ensures
        0 <= index * size < n,
        index + 1 < pieces(n, size) ==> (index + 1) * size < n,
        index + 1 == pieces(n, size) ==> n <= (index + 1) * size,
{
    lemma_round_up(n, size);
    let count = pieces(n, size);
    assert(0 <= index * size <= (count - 1) * size) by (nonlinear_arith)
        requires
            size > 0,
            0 <= index <= count - 1,
    ;
    assert((count - 1) * size == count * size - size) by (nonlinear_arith);
    if index + 1 < count {
        assert((index + 1) * size <= (count - 1) * size) by (nonlinear_arith)
            requires
                size > 0,
                index + 1 <= count - 1,
        ;
    }
}

/// The smallest multiple of `step` that is not below `n`.
pub fn align_up(n: u64, step: u64) -> (aligned: u64)
    requires
        step > 0,
        n + step <= u64::MAX,
    ensures
        aligned == round_up(n as int, step as int),
        n <= aligned < n + step,
{
    proof {
        lemma_round_up(n as int, step as int);
    }
    (n + (step - 1)) / step * step
}

} // verus!
