use vstd::math::min;
use vstd::prelude::*;

verus! {

// ------------------------------------------------------------------
// Big-endian 32-bit framing, shared by the raster, QOI and PNG modules.
// ------------------------------------------------------------------

/// The four big-endian bytes of a 32-bit value.
pub open spec fn be32_spec(x: u32) -> Seq<u8> {
    seq![
        (x >> 24) as u8,
        ((x >> 16) & 0xFF) as u8,
        ((x >> 8) & 0xFF) as u8,
        (x & 0xFF) as u8,
    ]
}

/// The 32-bit value held by four big-endian bytes.
pub open spec fn from_be32_spec(b0: u8, b1: u8, b2: u8, b3: u8) -> u32 {
    ((b0 as u32) << 24) | ((b1 as u32) << 16) | ((b2 as u32) << 8) | (b3 as u32)
}

/// Reading back the four big-endian bytes of `x` yields `x`.
pub proof fn lemma_be32_round_trip(x: u32)
    ensures
        from_be32_spec(
            be32_spec(x)[0],
            be32_spec(x)[1],
            be32_spec(x)[2],
            be32_spec(x)[3],
        ) == x,
{
    assert((((x >> 24) as u8 as u32) << 24) | ((((x >> 16) & 0xFF) as u8 as u32) << 16) | ((((
    x >> 8) & 0xFF) as u8 as u32) << 8) | ((x & 0xFF) as u8 as u32) == x) by (bit_vector);
}

/// Append the big-endian bytes of `x` to `out`.
pub fn push_be32(out: &mut Vec<u8>, x: u32)
    ensures
        final(out)@ == old(out)@ + be32_spec(x),
{
    out.push((x >> 24) as u8);
    out.push(((x >> 16) & 0xFF) as u8);
    out.push(((x >> 8) & 0xFF) as u8);
    out.push((x & 0xFF) as u8);
    assert(out@ =~= old(out)@ + be32_spec(x));
}

/// Read a big-endian 32-bit value from `bytes` starting at `i`.
pub fn read_be32(bytes: &[u8], i: usize) -> (r: u32)
    requires
        i + 4 <= bytes@.len(),
    ensures
        r == from_be32_spec(bytes@[i as int], bytes@[i + 1], bytes@[i + 2], bytes@[i + 3]),
{
    ((bytes[i] as u32) << 24) | ((bytes[i + 1] as u32) << 16) | ((bytes[i + 2] as u32) << 8) | (
    bytes[i + 3] as u32)
}

// ------------------------------------------------------------------
// A byte cursor, consumed front to back.
// ------------------------------------------------------------------

/// A cursor over a borrowed byte buffer, consumed front to back.
pub struct ByteStream<'a> {
    pub data: &'a [u8],
    pub pos: usize,
}

/// Sources from which a fixed number of bytes can be taken all at once.
pub trait TakeArray {
    /// The bytes still available to take.
    spec fn takeable(&self) -> Seq<u8>;

    /// Remove exactly `n` bytes from the front, or `None` (and leave the
    /// source unchanged) if fewer than `n` remain.
    fn take_array(&mut self, n: usize) -> (r: Option<Vec<u8>>)
        ensures
            (match r {
                Some(v) => {
                    &&& old(self).takeable().len() >= n
                    &&& v@ == old(self).takeable().take(n as int)
                    &&& final(self).takeable() == old(self).takeable().skip(n as int)
                },
                None => {
                    &&& old(self).takeable().len() < n
                    &&& final(self).takeable() == old(self).takeable()
                },
            }),
    ;
}

/// Sources from which up to a given number of bytes can be drained.
pub trait TakeVec {
    /// The bytes still available to take.
    spec fn takeable_vec(&self) -> Seq<u8>;

    /// Remove up to `n` bytes from the front; fewer are returned only when
    /// the source runs out.
    fn take_vec(&mut self, n: usize) -> (r: Vec<u8>)
        ensures
            r@ == old(self).takeable_vec().take(min(n as int, old(self).takeable_vec().len() as int)),
            final(self).takeable_vec() == old(self).takeable_vec().skip(
                min(n as int, old(self).takeable_vec().len() as int),
            ),
    ;
}

impl<'a> ByteStream<'a> {
    /// The bytes not yet consumed.
    pub open spec fn remaining(&self) -> Seq<u8> {
        if self.pos <= self.data@.len() {
            self.data@.skip(self.pos as int)
        } else {
            Seq::empty()
        }
    }

    pub fn new(data: &'a [u8]) -> (s: ByteStream<'a>)
        ensures
            s.remaining() == data@,
    {
        let s = ByteStream { data, pos: 0 };
        assert(s.remaining() =~= data@);
        s
    }
}

impl<'a> TakeArray for ByteStream<'a> {
    open spec fn takeable(&self) -> Seq<u8> {
        self.remaining()
    }

    fn take_array(&mut self, n: usize) -> (r: Option<Vec<u8>>) {
        if self.pos > self.data.len() {
            if n == 0 {
                let v: Vec<u8> = Vec::new();
                assert(v@ =~= old(self).remaining().take(0));
                return Some(v);
            }
            return None;
        }
        let avail = self.data.len() - self.pos;
        if avail < n {
            return None;
        }
        let mut v: Vec<u8> = Vec::new();
        assert(v@ =~= self.data@.subrange(self.pos as int, self.pos as int));
        let mut k: usize = 0;
        while k < n
            invariant
                k <= n,
                self == old(self),
                self.data@.len() <= usize::MAX,
                self.pos + n <= self.data@.len(),
                v@ == self.data@.subrange(self.pos as int, self.pos + k),
            decreases n - k,
        {
            v.push(self.data[self.pos + k]);
            assert(v@ =~= self.data@.subrange(old(self).pos as int, old(self).pos + k + 1));
            k = k + 1;
        }
        self.pos = self.pos + n;
        assert(v@ =~= old(self).remaining().take(n as int));
        assert(self.remaining() =~= old(self).remaining().skip(n as int));
        Some(v)
    }
}

impl<'a> TakeVec for ByteStream<'a> {
    open spec fn takeable_vec(&self) -> Seq<u8> {
        self.remaining()
    }

    fn take_vec(&mut self, n: usize) -> (r: Vec<u8>) {
        if self.pos > self.data.len() {
            let v: Vec<u8> = Vec::new();
            assert(v@ =~= old(self).remaining().take(0));
            assert(self.remaining() =~= old(self).remaining().skip(0));
            return v;
        }
        let avail = self.data.len() - self.pos;
        let m = if n < avail {
            n
        } else {
            avail
        };
        let mut v: Vec<u8> = Vec::new();
        assert(v@ =~= self.data@.subrange(self.pos as int, self.pos as int));
        let mut k: usize = 0;
        while k < m
            invariant
                k <= m,
                self == old(self),
                self.data@.len() <= usize::MAX,
                self.pos + m <= self.data@.len(),
                v@ == self.data@.subrange(self.pos as int, self.pos + k),
            decreases m - k,
        {
            v.push(self.data[self.pos + k]);
            assert(v@ =~= self.data@.subrange(old(self).pos as int, old(self).pos + k + 1));
            k = k + 1;
        }
        self.pos = self.pos + m;
        assert(v@ =~= old(self).remaining().take(
            min(m as int, old(self).remaining().len() as int),
        ));
        assert(self.remaining() =~= old(self).remaining().skip(
            min(m as int, old(self).remaining().len() as int),
        ));
        v
    }
}

} // verus!
