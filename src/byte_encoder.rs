//! Fixed-width little-endian integers over a byte buffer.
use vstd::prelude::*;

verus! {

/// 256 raised to the power `n`: the number of values that `n` bytes can hold.
pub open spec fn pow256(n: nat) -> nat
    decreases n,
{
    if n == 0 {
        1
    } else {
        256 * pow256((n - 1) as nat)
    }
}

/// The `n` bytes of `v` in little-endian order (lowest byte first).
pub open spec fn le_bytes(v: nat, n: nat) -> Seq<u8>
    decreases n,
{
    if n == 0 {
        Seq::empty()
    } else {
        seq![(v % 256) as u8] + le_bytes(v / 256, (n - 1) as nat)
    }
}

/// The number whose little-endian byte representation is `s`.
pub open spec fn le_value(s: Seq<u8>) -> nat
    decreases s.len(),
{
    if s.len() == 0 {
        0
    } else {
        s[0] as nat + 256 * le_value(s.drop_first())
    }
}

pub proof fn lemma_pow256_values()
    ensures
        pow256(1) == 0x100,
        pow256(2) == 0x1_0000,
        pow256(4) == 0x1_0000_0000,
        pow256(8) == 0x1_0000_0000_0000_0000,
        pow256(16) == 0x1_0000_0000_0000_0000_0000_0000_0000_0000,
{
    reveal_with_fuel(pow256, 17);
}

pub proof fn lemma_pow256_monotonic(a: nat, b: nat)
    requires
        a <= b,
    ensures
        pow256(a) <= pow256(b),
    decreases b,
{
    if a < b {
        lemma_pow256_monotonic(a, (b - 1) as nat);
    }
}

/// `le_bytes` produces exactly `n` bytes.
pub proof fn lemma_le_bytes_len(v: nat, n: nat)
    ensures
        le_bytes(v, n).len() == n,
    decreases n,
{
    if n > 0 {
        lemma_le_bytes_len(v / 256, (n - 1) as nat);
    }
}

/// A number read back from the bytes it was written as is the number itself,
/// provided it fits in that many bytes.
pub proof fn lemma_le_round_trip(v: nat, n: nat)
    requires
        v < pow256(n),
    ensures
        le_value(le_bytes(v, n)) == v,
    decreases n,
{
    lemma_le_bytes_len(v, n);
    if n > 0 {
        let rest = le_bytes(v / 256, (n - 1) as nat);
        assert(le_bytes(v, n).drop_first() =~= rest);
        assert(v / 256 < pow256((n - 1) as nat)) by (nonlinear_arith)
            requires
                v < 256 * pow256((n - 1) as nat),
        ;
        lemma_le_round_trip(v / 256, (n - 1) as nat);
    }
}

/// The value of `s` fits in `s.len()` bytes.
pub proof fn lemma_le_value_bound(s: Seq<u8>)
    ensures
        le_value(s) < pow256(s.len()),
    decreases s.len(),
{
    if s.len() > 0 {
        let t = s.drop_first();
        lemma_le_value_bound(t);
        let a = s[0] as nat;
        let b = le_value(t);
        let p = pow256(t.len());
        assert(a + 256 * b < 256 * p) by (nonlinear_arith)
            requires
                a < 256,
                b < p,
        ;
    }
}

/// Bytes written back from the value they were read as are the bytes themselves.
pub proof fn lemma_le_bytes_of_value(s: Seq<u8>)
    ensures
        le_bytes(le_value(s), s.len()) == s,
    decreases s.len(),
{
    if s.len() > 0 {
        let t = s.drop_first();
        lemma_le_bytes_of_value(t);
        let v = le_value(s);
        assert(v % 256 == s[0] as nat && v / 256 == le_value(t)) by (nonlinear_arith)
            requires
                v == s[0] as nat + 256 * le_value(t),
                s[0] < 256,
        ;
        assert(le_bytes(v, s.len()) =~= s);
    }
}

/// Running out of input before a value was complete.
#[derive(Debug, Clone, Copy, PartialEq, Eq, Structural)]
pub enum CodecError {
    UnexpectedEof,
}

/// Appends integers to a byte buffer in little-endian order.
pub struct ByteEncoder {
    pub inner: Vec<u8>,
}

impl ByteEncoder {
    pub fn new(inner: Vec<u8>) -> (r: Self)
        ensures
            r.inner@ == inner@,
    {
        ByteEncoder { inner }
    }

    /// Appends the `n` low-order bytes of `value`, lowest first.
    fn write_le(&mut self, value: u128, n: usize)
        ensures
            final(self).inner@ == old(self).inner@ + le_bytes(value as nat, n as nat),
    {
        let mut x: u128 = value;
        let mut i: usize = 0;
        while i < n
            invariant
                i <= n,
                self.inner@ + le_bytes(x as nat, (n - i) as nat) == old(self).inner@ + le_bytes(
                    value as nat,
                    n as nat,
                ),
            decreases n - i,
        {
            let ghost before = self.inner@;
            self.inner.push((x % 256) as u8);
            assert(self.inner@ + le_bytes((x / 256) as nat, (n - i - 1) as nat) =~= before
                + le_bytes(x as nat, (n - i) as nat));
            x = x / 256;
            i = i + 1;
        }
    }

    pub fn write_u8(&mut self, value: u8)
        ensures
            final(self).inner@ == old(self).inner@ + le_bytes(value as nat, 1),
    {
        self.write_le(value as u128, 1);
    }

    pub fn write_u16(&mut self, value: u16)
        ensures
            final(self).inner@ == old(self).inner@ + le_bytes(value as nat, 2),
    {
        self.write_le(value as u128, 2);
    }

    pub fn write_u32(&mut self, value: u32)
        ensures
            final(self).inner@ == old(self).inner@ + le_bytes(value as nat, 4),
    {
        self.write_le(value as u128, 4);
    }

    pub fn write_u64(&mut self, value: u64)
        ensures
            final(self).inner@ == old(self).inner@ + le_bytes(value as nat, 8),
    {
        self.write_le(value as u128, 8);
    }

    pub fn write_u128(&mut self, value: u128)
        ensures
            final(self).inner@ == old(self).inner@ + le_bytes(value as nat, 16),
    {
        self.write_le(value, 16);
    }
}

/// Reads little-endian integers from the front of a byte buffer. Its view is
/// the part of the buffer that has not been read yet.
pub struct ByteDecoder {
    inner: Vec<u8>,
    pos: usize,
}

impl View for ByteDecoder {
    type V = Seq<u8>;

    closed spec fn view(&self) -> Seq<u8> {
        self.inner@.subrange(self.pos as int, self.inner@.len() as int)
    }
}

impl ByteDecoder {
    #[verifier::type_invariant]
    spec fn inv(&self) -> bool {
        self.pos <= self.inner.len()
    }

    pub fn new(inner: Vec<u8>) -> (r: Self)
        ensures
            r@ == inner@,
    {
        let r = ByteDecoder { inner, pos: 0 };
        assert(r@ =~= r.inner@);
        r
    }

    /// Reads exactly `n` bytes as a little-endian number, or nothing at all
    /// when fewer than `n` are left.
    fn read_le(&mut self, n: usize) -> (r: Result<u128, CodecError>)
        requires
            n <= 16,
        ensures
            old(self)@.len() >= n ==> r is Ok && r->Ok_0 as nat == le_value(old(self)@.take(n as int))
                && final(self)@ == old(self)@.skip(n as int),
            old(self)@.len() < n ==> r == Err::<u128, CodecError>(CodecError::UnexpectedEof)
                && final(self)@ == old(self)@,
    {
        proof {
            use_type_invariant(&*self);
        }
        if self.inner.len() - self.pos < n {
            return Err(CodecError::UnexpectedEof);
        }
        let ghost bytes = self@.take(n as int);
        let mut acc: u128 = 0;
        let mut j: usize = n;
        while j > 0
            invariant
                j <= n <= 16,
                self.pos + n <= self.inner.len(),
                bytes == self.inner@.subrange(self.pos as int, self.pos + n),
                acc as nat == le_value(bytes.subrange(j as int, n as int)),
            decreases j,
        {
            let ghost tail = bytes.subrange(j as int, n as int);
            let ghost longer = bytes.subrange(j - 1, n as int);
            assert(longer.drop_first() =~= tail);
            proof {
                lemma_le_value_bound(longer);
                lemma_pow256_monotonic(longer.len(), 16);
                lemma_pow256_values();
            }
            j = j - 1;
            acc = acc * 256 + self.inner[self.pos + j] as u128;
        }
        assert(bytes.subrange(0, n as int) =~= bytes);
        let ghost before = self@;
        self.pos = self.pos + n;
        assert(self@ =~= before.skip(n as int));
        Ok(acc)
    }

    pub fn read_u8(&mut self) -> (r: Result<u8, CodecError>)
        ensures
            old(self)@.len() >= 1 ==> r is Ok && r->Ok_0 as nat == le_value(old(self)@.take(1))
                && final(self)@ == old(self)@.skip(1),
            old(self)@.len() < 1 ==> r == Err::<u8, CodecError>(CodecError::UnexpectedEof)
                && final(self)@ == old(self)@,
    {
        match self.read_le(1) {
            Ok(v) => {
                proof {
                    lemma_le_value_bound(old(self)@.take(1));
                    lemma_pow256_values();
                }
                Ok(v as u8)
            },
            Err(e) => Err(e),
        }
    }

    pub fn read_u16(&mut self) -> (r: Result<u16, CodecError>)
        ensures
            old(self)@.len() >= 2 ==> r is Ok && r->Ok_0 as nat == le_value(old(self)@.take(2))
                && final(self)@ == old(self)@.skip(2),
            old(self)@.len() < 2 ==> r == Err::<u16, CodecError>(CodecError::UnexpectedEof)
                && final(self)@ == old(self)@,
    {
        match self.read_le(2) {
            Ok(v) => {
                proof {
                    lemma_le_value_bound(old(self)@.take(2));
                    lemma_pow256_values();
                }
                Ok(v as u16)
            },
            Err(e) => Err(e),
        }
    }

    pub fn read_u32(&mut self) -> (r: Result<u32, CodecError>)
        ensures
            old(self)@.len() >= 4 ==> r is Ok && r->Ok_0 as nat == le_value(old(self)@.take(4))
                && final(self)@ == old(self)@.skip(4),
            old(self)@.len() < 4 ==> r == Err::<u32, CodecError>(CodecError::UnexpectedEof)
                && final(self)@ == old(self)@,
    {
        match self.read_le(4) {
            Ok(v) => {
                proof {
                    lemma_le_value_bound(old(self)@.take(4));
                    lemma_pow256_values();
                }
                Ok(v as u32)
            },
            Err(e) => Err(e),
        }
    }

    pub fn read_u64(&mut self) -> (r: Result<u64, CodecError>)
        ensures
            old(self)@.len() >= 8 ==> r is Ok && r->Ok_0 as nat == le_value(old(self)@.take(8))
                && final(self)@ == old(self)@.skip(8),
            old(self)@.len() < 8 ==> r == Err::<u64, CodecError>(CodecError::UnexpectedEof)
                && final(self)@ == old(self)@,
    {
        match self.read_le(8) {
            Ok(v) => {
                proof {
                    lemma_le_value_bound(old(self)@.take(8));
                    lemma_pow256_values();
                }
                Ok(v as u64)
            },
            Err(e) => Err(e),
        }
    }

    pub fn read_u128(&mut self) -> (r: Result<u128, CodecError>)
        ensures
            old(self)@.len() >= 16 ==> r is Ok && r->Ok_0 as nat == le_value(old(self)@.take(16))
                && final(self)@ == old(self)@.skip(16),
            old(self)@.len() < 16 ==> r == Err::<u128, CodecError>(CodecError::UnexpectedEof)
                && final(self)@ == old(self)@,
    {
        self.read_le(16)
    }
}

} // verus!
