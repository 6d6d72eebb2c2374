//! Capability contract for grid and bin values.
//!
//! The transform is generic over the element type: it needs a neutral value
//! for freshly allocated bins and a self-inverse combine (bitwise XOR) used
//! by the XOR accumulation policy.  The additive policy works on `u64`
//! directly and only needs the neutral value from here.

use vstd::prelude::*;

verus! {

/// An element that the transform can accumulate: it has a neutral value and
/// a self-inverse combine operation (bitwise XOR).
pub trait Element: Sized + Copy {
    /// The neutral value, used to initialize bins and fresh grids.
    spec fn zero_spec() -> Self;

    /// What `xor` returns.
    spec fn xor_spec(self, other: Self) -> Self;

    /// The neutral value as an executable constant.
    fn zero() -> (r: Self)
        ensures
            r == Self::zero_spec(),
    ;

    /// Combine two elements with the self-inverse operation.
    fn xor(self, other: Self) -> (r: Self)
        ensures
            r == self.xor_spec(other),
    ;

    /// The neutral value is the combine's identity.
    proof fn lemma_xor_zero(x: Self)
        ensures
            Self::zero_spec().xor_spec(x) == x,
    ;

    /// The combine is commutative.
    proof fn lemma_xor_comm(x: Self, y: Self)
        ensures
            x.xor_spec(y) == y.xor_spec(x),
    ;

    /// The combine is associative.
    proof fn lemma_xor_assoc(x: Self, y: Self, z: Self)
        ensures
            x.xor_spec(y).xor_spec(z) == x.xor_spec(y.xor_spec(z)),
    ;

    /// The combine is its own inverse.
    proof fn lemma_xor_self(x: Self)
        ensures
            x.xor_spec(x) == Self::zero_spec(),
    ;
}

impl Element for u8 {
    open spec fn zero_spec() -> Self {
        0u8
    }

    open spec fn xor_spec(self, other: Self) -> Self {
        self ^ other
    }

    fn zero() -> Self {
        0
    }

    fn xor(self, other: Self) -> Self {
        self ^ other
    }

    proof fn lemma_xor_zero(x: Self) {
        assert(0u8 ^ x == x) by (bit_vector);
    }

    proof fn lemma_xor_comm(x: Self, y: Self) {
        assert(x ^ y == y ^ x) by (bit_vector);
    }

    proof fn lemma_xor_assoc(x: Self, y: Self, z: Self) {
        assert((x ^ y) ^ z == x ^ (y ^ z)) by (bit_vector);
    }

    proof fn lemma_xor_self(x: Self) {
        assert(x ^ x == 0u8) by (bit_vector);
    }
}

impl Element for u16 {
    open spec fn zero_spec() -> Self {
        0u16
    }

    open spec fn xor_spec(self, other: Self) -> Self {
        self ^ other
    }

    fn zero() -> Self {
        0
    }

    fn xor(self, other: Self) -> Self {
        self ^ other
    }

    proof fn lemma_xor_zero(x: Self) {
        assert(0u16 ^ x == x) by (bit_vector);
    }

    proof fn lemma_xor_comm(x: Self, y: Self) {
        assert(x ^ y == y ^ x) by (bit_vector);
    }

    proof fn lemma_xor_assoc(x: Self, y: Self, z: Self) {
        assert((x ^ y) ^ z == x ^ (y ^ z)) by (bit_vector);
    }

    proof fn lemma_xor_self(x: Self) {
        assert(x ^ x == 0u16) by (bit_vector);
    }
}

impl Element for u32 {
    open spec fn zero_spec() -> Self {
        0u32
    }

    open spec fn xor_spec(self, other: Self) -> Self {
        self ^ other
    }

    fn zero() -> Self {
        0
    }

    fn xor(self, other: Self) -> Self {
        self ^ other
    }

    proof fn lemma_xor_zero(x: Self) {
        assert(0u32 ^ x == x) by (bit_vector);
    }

    proof fn lemma_xor_comm(x: Self, y: Self) {
        assert(x ^ y == y ^ x) by (bit_vector);
    }

    proof fn lemma_xor_assoc(x: Self, y: Self, z: Self) {
        assert((x ^ y) ^ z == x ^ (y ^ z)) by (bit_vector);
    }

    proof fn lemma_xor_self(x: Self) {
        assert(x ^ x == 0u32) by (bit_vector);
    }
}

impl Element for u64 {
    open spec fn zero_spec() -> Self {
        0u64
    }

    open spec fn xor_spec(self, other: Self) -> Self {
        self ^ other
    }

    fn zero() -> Self {
        0
    }

    fn xor(self, other: Self) -> Self {
        self ^ other
    }

    proof fn lemma_xor_zero(x: Self) {
        assert(0u64 ^ x == x) by (bit_vector);
    }

    proof fn lemma_xor_comm(x: Self, y: Self) {
        assert(x ^ y == y ^ x) by (bit_vector);
    }

    proof fn lemma_xor_assoc(x: Self, y: Self, z: Self) {
        assert((x ^ y) ^ z == x ^ (y ^ z)) by (bit_vector);
    }

    proof fn lemma_xor_self(x: Self) {
        assert(x ^ x == 0u64) by (bit_vector);
    }
}

impl Element for usize {
    open spec fn zero_spec() -> Self {
        0usize
    }

    open spec fn xor_spec(self, other: Self) -> Self {
        self ^ other
    }

    fn zero() -> Self {
        0
    }

    fn xor(self, other: Self) -> Self {
        self ^ other
    }

    proof fn lemma_xor_zero(x: Self) {
        assert(0usize ^ x == x) by (bit_vector);
    }

    proof fn lemma_xor_comm(x: Self, y: Self) {
        assert(x ^ y == y ^ x) by (bit_vector);
    }

    proof fn lemma_xor_assoc(x: Self, y: Self, z: Self) {
        assert((x ^ y) ^ z == x ^ (y ^ z)) by (bit_vector);
    }

    proof fn lemma_xor_self(x: Self) {
        assert(x ^ x == 0usize) by (bit_vector);
    }
}

impl Element for isize {
    open spec fn zero_spec() -> Self {
        0isize
    }

    open spec fn xor_spec(self, other: Self) -> Self {
        self ^ other
    }

    fn zero() -> Self {
        0
    }

    fn xor(self, other: Self) -> Self {
        self ^ other
    }

    proof fn lemma_xor_zero(x: Self) {
        assert(0isize ^ x == x) by (bit_vector);
    }

    proof fn lemma_xor_comm(x: Self, y: Self) {
        assert(x ^ y == y ^ x) by (bit_vector);
    }

    proof fn lemma_xor_assoc(x: Self, y: Self, z: Self) {
        assert((x ^ y) ^ z == x ^ (y ^ z)) by (bit_vector);
    }

    proof fn lemma_xor_self(x: Self) {
        assert(x ^ x == 0isize) by (bit_vector);
    }
}

/// A sequence cut or padded to length `n`: existing values keep their flat
/// position, new slots hold the neutral value.
pub open spec fn resize_contents<T: Element>(s: Seq<T>, n: int) -> Seq<T> {
    if n <= s.len() {
        s.take(n)
    } else {
        s + Seq::new((n - s.len()) as nat, |i: int| T::zero_spec())
    }
}

/// Cut or pad a vector to length `n`, padding with the neutral value.
pub fn resize_with_zeros<T: Element>(data: &mut Vec<T>, n: usize)
    ensures
        final(data)@ == resize_contents(old(data)@, n as int),
{
    proof {
        assert(old(data)@.take(old(data)@.len() as int) =~= old(data)@);
    }
    while data.len() > n
        invariant
            data@.len() <= old(data)@.len(),
            data@.len() >= n || data@.len() == old(data)@.len(),
            data@ == old(data)@.take(data@.len() as int),
        decreases data@.len(),
    {
        data.pop();
        proof {
            assert(data@ =~= old(data)@.take(data@.len() as int));
        }
    }
    let ghost base: Seq<T> = data@;
    proof {
        assert(data@.take(base.len() as int) =~= base);
        if old(data)@.len() > n {
            assert(base == old(data)@.take(n as int));
        } else {
            assert(base =~= old(data)@);
        }
    }
    while data.len() < n
        invariant
            base.len() <= data@.len() <= n || data@ == base,
            old(data)@.len() > n ==> base == old(data)@.take(n as int) && base.len() == n,
            old(data)@.len() <= n ==> base == old(data)@,
            data@.take(base.len() as int) == base,
            forall|i: int| base.len() <= i < data@.len() ==> data@[i] == T::zero_spec(),
        decreases n - data@.len(),
    {
        let ghost before: Seq<T> = data@;
        data.push(T::zero());
        proof {
            assert(data@.take(base.len() as int) =~= before.take(base.len() as int));
        }
    }
    proof {
        if n <= old(data)@.len() {
            assert(data@ == old(data)@.take(n as int));
        } else {
            assert(data@ =~= resize_contents(old(data)@, n as int));
        }
    }
}

/// A vector of `n` neutral elements.
pub fn zero_vec<T: Element>(n: usize) -> (r: Vec<T>)
    ensures
        r@.len() == n,
        forall|i: int| 0 <= i < n ==> r@[i] == T::zero_spec(),
{
    let mut r: Vec<T> = Vec::new();
    while r.len() < n
        invariant
            r@.len() <= n,
            forall|i: int| 0 <= i < r@.len() ==> r@[i] == T::zero_spec(),
        decreases n - r@.len(),
    {
        r.push(T::zero());
    }
    r
}

} // verus!
