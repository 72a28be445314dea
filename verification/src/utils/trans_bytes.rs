//! Conversions between multi-byte integers and big-endian byte strings, as
//! they appear inside frame and segment headers.

use vstd::prelude::*;

verus! {

/// `0x100` raised to `n`: the number of values a string of `n` bytes can take.
pub open spec fn pow256(n: int) -> int
    decreases n,
{
    if n <= 0 {
        1
    } else {
        0x100 * pow256(n - 1)
    }
}

/// The low `n` bytes of `w`, most significant first.
pub open spec fn be_bytes(w: u64, n: int) -> Seq<u8>
    decreases n,
{
    if n <= 0 {
        Seq::empty()
    } else {
        be_bytes(w / 0x100, n - 1).push((w % 0x100) as u8)
    }
}

/// The value read from a big-endian byte string, truncated to 64 bits as
/// each new byte shifts in.
pub open spec fn be_value(s: Seq<u8>) -> u64
    decreases s.len(),
{
    if s.len() == 0 {
        0
    } else {
        (((be_value(s.drop_last()) * 0x100) % 0x1_0000_0000_0000_0000) + s.last()) as u64
    }
}

/// The concatenated big-endian encodings of a run of equally wide integers.
pub open spec fn be_concat<T: WireInt>(s: Seq<T>) -> Seq<u8>
    decreases s.len(),
{
    if s.len() == 0 {
        Seq::empty()
    } else {
        be_concat(s.drop_last()) + be_bytes(s.last().spec_value(), T::spec_width())
    }
}

/// An unsigned integer as it crosses the wire: a fixed byte width, and its
/// numeric value widened to 64 bits.
pub trait WireInt: Copy + Sized {
    spec fn spec_width() -> int;

    spec fn spec_value(self) -> u64;

    /// The width is between one and eight bytes.
    proof fn lemma_width()
        ensures
            1 <= Self::spec_width() <= 8,
    ;

    /// The width is between one and eight bytes and the value fits in it.
    proof fn lemma_wire_fit(self)
        ensures
            1 <= Self::spec_width() <= 8,
            self.spec_value() < pow256(Self::spec_width()),
    ;

    fn width() -> (n: usize)
        ensures
            n == Self::spec_width(),
    ;

    fn value(self) -> (w: u64)
        ensures
            w == self.spec_value(),
    ;
}

impl WireInt for u8 {
    open spec fn spec_width() -> int {
        1
    }

    open spec fn spec_value(self) -> u64 {
        self as u64
    }

    proof fn lemma_width() {
    }

    proof fn lemma_wire_fit(self) {
        reveal_with_fuel(pow256, 9);
    }

    fn width() -> usize {
        1
    }

    fn value(self) -> u64 {
        self as u64
    }
}

impl WireInt for u16 {
    open spec fn spec_width() -> int {
        2
    }

    open spec fn spec_value(self) -> u64 {
        self as u64
    }

    proof fn lemma_width() {
    }

    proof fn lemma_wire_fit(self) {
        reveal_with_fuel(pow256, 9);
    }

    fn width() -> usize {
        2
    }

    fn value(self) -> u64 {
        self as u64
    }
}

impl WireInt for u32 {
    open spec fn spec_width() -> int {
        4
    }

    open spec fn spec_value(self) -> u64 {
        self as u64
    }

    proof fn lemma_width() {
    }

    proof fn lemma_wire_fit(self) {
        reveal_with_fuel(pow256, 9);
    }

    fn width() -> usize {
        4
    }

    fn value(self) -> u64 {
        self as u64
    }
}

impl WireInt for u64 {
    open spec fn spec_width() -> int {
        8
    }

    open spec fn spec_value(self) -> u64 {
        self
    }

    proof fn lemma_width() {
    }

    proof fn lemma_wire_fit(self) {
        reveal_with_fuel(pow256, 9);
    }

    fn width() -> usize {
        8
    }

    fn value(self) -> u64 {
        self
    }
}

/// The big-endian bytes of the low `n` bytes of `w`, built low byte last,
/// exactly as `be_bytes` lays them out.
fn be_bytes_exec(w: u64, n: usize) -> (r: Vec<u8>)
    ensures
        r@ == be_bytes(w, n as int),
    decreases n,
{
    if n == 0 {
        Vec::new()
    } else {
        let mut v = be_bytes_exec(w / 0x100, n - 1);
        v.push((w % 0x100) as u8);
        v
    }
}

/// A multi-byte integer as its big-endian byte string, one byte per byte of
/// the integer's width.
pub fn multi_bytes_to_bytes_vec<T: WireInt>(num: T) -> (r: Vec<u8>)
    ensures
        r@ == be_bytes(num.spec_value(), T::spec_width()),
{
    proof {
        num.lemma_wire_fit();
    }
    be_bytes_exec(num.value(), T::width())
}

/// A run of multi-byte integers as one byte string, each encoded big-endian
/// in order.
pub fn multi_bytes_vec_to_bytes_vec<T: WireInt>(nums: &Vec<T>) -> (r: Vec<u8>)
    ensures
        r@ == be_concat(nums@),
{
    let mut acc: Vec<u8> = Vec::new();
    let mut i: usize = 0;
    while i < nums.len()
        invariant
            i <= nums@.len(),
            acc@ == be_concat(nums@.take(i as int)),
        decreases nums@.len() - i,
    {
        let mut chunk = multi_bytes_to_bytes_vec(nums[i]);
        acc.append(&mut chunk);
        proof {
            assert(nums@.take(i + 1).drop_last() =~= nums@.take(i as int));
            assert(nums@.take(i + 1).last() == nums@[i as int]);
        }
        i += 1;
    }
    proof {
        assert(nums@.take(nums@.len() as int) =~= nums@);
    }
    acc
}

/// The value of a big-endian byte string, high bits shifted out once more
/// than eight bytes have gone in.
pub fn bytes_vec_to_muilt_bytes(bytes: &[u8]) -> (r: u64)
    ensures
        r == be_value(bytes@),
{
    let mut acc: u64 = 0;
    let mut i: usize = 0;
    while i < bytes.len()
        invariant
            i <= bytes@.len(),
            acc == be_value(bytes@.take(i as int)),
        decreases bytes@.len() - i,
    {
        let b = bytes[i];
        assert(acc << 8 == (acc * 0x100) % 0x1_0000_0000_0000_0000) by (bit_vector);
        assert(acc << 8 <= u64::MAX - 0xff) by (bit_vector);
        acc = (acc << 8) + (b as u64);
        proof {
            assert(bytes@.take(i + 1).drop_last() =~= bytes@.take(i as int));
            assert(bytes@.take(i + 1).last() == b);
        }
        i += 1;
    }
    proof {
        assert(bytes@.take(bytes@.len() as int) =~= bytes@);
    }
    acc
}

/// A value read from at most eight bytes is below `0x100` to their count.
pub proof fn lemma_be_value_bound(s: Seq<u8>)
    requires
        s.len() <= 8,
    ensures
        be_value(s) < pow256(s.len() as int),
    decreases s.len(),
{
    lemma_pow256_pos(s.len() as int);
    if s.len() > 0 {
        lemma_be_value_bound(s.drop_last());
        let v = be_value(s.drop_last()) as int;
        let p = pow256(s.len() - 1);
        assert(v * 0x100 <= (p - 1) * 0x100) by (nonlinear_arith)
            requires
                v <= p - 1,
        ;
        assert(pow256(s.len() as int) == 0x100 * pow256(s.len() - 1));
        assert(pow256(s.len() as int) <= pow256(8)) by {
            lemma_pow256_le(s.len() as int, 8);
        }
        assert(pow256(8) == 0x1_0000_0000_0000_0000) by {
            reveal_with_fuel(pow256, 9);
        }
    }
}

/// `pow256` grows with its argument.
pub proof fn lemma_pow256_le(a: int, b: int)
    requires
        a <= b,
        0 <= a,
    ensures
        pow256(a) <= pow256(b),
        0 < pow256(a),
    decreases b,
{
    if a < b {
        lemma_pow256_le(a, b - 1);
    } else {
        lemma_pow256_pos(a);
    }
}

/// `pow256` is positive.
pub proof fn lemma_pow256_pos(n: int)
    ensures
        0 < pow256(n),
    decreases n,
{
    if n > 0 {
        lemma_pow256_pos(n - 1);
    }
}

/// The encoding of the low `n` bytes is `n` bytes long.
pub proof fn lemma_be_bytes_len(w: u64, n: int)
    requires
        0 <= n,
    ensures
        be_bytes(w, n).len() == n,
    decreases n,
{
    if n > 0 {
        lemma_be_bytes_len(w / 0x100, n - 1);
    }
}

/// A run of integers of width `w` encodes to `w` bytes per element.
pub proof fn lemma_be_concat_len<T: WireInt>(s: Seq<T>)
    ensures
        be_concat(s).len() == T::spec_width() * s.len(),
    decreases s.len(),
{
    T::lemma_width();
    if s.len() > 0 {
        lemma_be_concat_len::<T>(s.drop_last());
        lemma_be_bytes_len(s.last().spec_value(), T::spec_width());
        assert(T::spec_width() * s.len() == T::spec_width() * (s.len() - 1) + T::spec_width())
            by (nonlinear_arith);
    }
}

/// Append `src[from..to]` onto `dst`.
pub(crate) fn push_bytes(dst: &mut Vec<u8>, src: &[u8], from: usize, to: usize)
    requires
        from <= to <= src@.len(),
    ensures
        final(dst)@ == old(dst)@ + src@.subrange(from as int, to as int),
{
    let mut i = from;
    proof {
        assert(old(dst)@ + src@.subrange(from as int, from as int) =~= old(dst)@);
    }
    while i < to
        invariant
            from <= i <= to <= src@.len(),
            after_borrow(dst)@ == old(dst)@ + src@.subrange(from as int, i as int),
        decreases to - i,
    {
        dst.push(src[i]);
        proof {
            assert(src@.subrange(from as int, i + 1) =~= src@.subrange(
                from as int,
                i as int,
            ).push(src@[i as int]));
        }
        i += 1;
    }
}

/// A byte string cut into 32-bit big-endian words, any trailing fragment of
/// fewer than four bytes dropped.
pub fn bytes_vec_to_muilt_bytes_vec_u32(bytes: &[u8]) -> (r: Vec<u32>)
    ensures
        r@.len() == bytes@.len() / 4,
        forall|j: int|
            0 <= j < r@.len() ==> r@[j] as u64 == be_value(bytes@.subrange(4 * j, 4 * j + 4)),
{
    let count = bytes.len() / 4;
    let mut result: Vec<u32> = Vec::new();
    let mut k: usize = 0;
    assert(4 * (bytes@.len() as int / 4) <= bytes@.len()) by (nonlinear_arith);
    while k < count
        invariant
            k <= count,
            count == bytes@.len() as int / 4,
            4 * count <= bytes@.len(),
            bytes@.len() <= usize::MAX,
            result@.len() == k,
            forall|j: int|
                0 <= j < k ==> result@[j] as u64 == be_value(bytes@.subrange(4 * j, 4 * j + 4)),
        decreases count - k,
    {
        let word = bytes_vec_to_muilt_bytes(&bytes[4 * k..4 * k + 4]);
        proof {
            lemma_be_value_bound(bytes@.subrange(4 * k as int, 4 * k as int + 4));
            reveal_with_fuel(pow256, 5);
        }
        result.push(word as u32);
        k += 1;
    }
    result
}

} // verus!
