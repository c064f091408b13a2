use vstd::prelude::*;
use crate::bytes::{le_bytes, le_value, push_le, read_le};
use vstd::string::StringSliceAdditionalSpecFns;

verus! {

/// FNV-1a offset basis.
pub const FNV_OFFSET: u32 = 2166136261;

/// FNV-1a prime.
pub const FNV_PRIME: u32 = 16777619;

/// 32-bit FNV-1a hash of `bytes`.
pub open spec fn fnv1a(bytes: Seq<u8>) -> u32
    decreases bytes.len(),
{
    if bytes.len() == 0 {
        FNV_OFFSET
    } else {
        ((fnv1a(bytes.drop_last()) ^ (bytes.last() as u32)) as u32).wrapping_mul(FNV_PRIME)
    }
}

/// The id a user message is sent under: the FNV-1a hash of its name's UTF-8 bytes.
pub fn hash_usermessage_name(name: &str) -> (hash: u32)
    ensures
        hash == fnv1a(name.spec_bytes()),
{
    let bytes = name.as_bytes();
    let mut hash: u32 = FNV_OFFSET;
    let mut idx: usize = 0;
    while idx < bytes.len()
        invariant
            idx <= bytes@.len(),
            bytes@ == name.spec_bytes(),
            hash == fnv1a(bytes@.subrange(0, idx as int)),
        decreases bytes@.len() - idx,
    {
        proof {
            let next = bytes@.subrange(0, idx + 1);
            assert(next.drop_last() =~= bytes@.subrange(0, idx as int));
        }
        hash = hash ^ (bytes[idx] as u32);
        hash = hash.wrapping_mul(FNV_PRIME);
        idx = idx + 1;
    }
    proof {
        assert(bytes@.subrange(0, bytes@.len() as int) =~= bytes@);
    }
    hash
}

/// Builds the body of a user message, writing integers little-endian.
pub struct UserMsgWriter {
    data: Vec<u8>,
}

impl View for UserMsgWriter {
    type V = Seq<u8>;

    closed spec fn view(&self) -> Seq<u8> {
        self.data@
    }
}

impl UserMsgWriter {
    pub fn new() -> (w: Self)
        ensures
            w@ == Seq::<u8>::empty(),
    {
        Self { data: Vec::new() }
    }

    pub fn with_capacity(capacity: usize) -> (w: Self)
        ensures
            w@ == Seq::<u8>::empty(),
    {
        Self { data: Vec::with_capacity(capacity) }
    }

    /// The bytes written so far.
    pub fn into_bytes(self) -> (bytes: Vec<u8>)
        ensures
            bytes@ == self@,
    {
        self.data
    }

    pub fn write_u8(&mut self, val: u8)
        ensures
            final(self)@ == old(self)@ + le_bytes(val as nat, 1),
    {
        push_le(&mut self.data, val as u64, 1);
    }

    pub fn write_i8(&mut self, val: i8)
        ensures
            final(self)@ == old(self)@ + le_bytes((val as u8) as nat, 1),
    {
        push_le(&mut self.data, (val as u8) as u64, 1);
    }

    pub fn write_u16(&mut self, val: u16)
        ensures
            final(self)@ == old(self)@ + le_bytes(val as nat, 2),
    {
        push_le(&mut self.data, val as u64, 2);
    }

    pub fn write_i16(&mut self, val: i16)
        ensures
            final(self)@ == old(self)@ + le_bytes((val as u16) as nat, 2),
    {
        push_le(&mut self.data, (val as u16) as u64, 2);
    }

    pub fn write_u32(&mut self, val: u32)
        ensures
            final(self)@ == old(self)@ + le_bytes(val as nat, 4),
    {
        push_le(&mut self.data, val as u64, 4);
    }

    pub fn write_i32(&mut self, val: i32)
        ensures
            final(self)@ == old(self)@ + le_bytes((val as u32) as nat, 4),
    {
        push_le(&mut self.data, (val as u32) as u64, 4);
    }

    pub fn write_u64(&mut self, val: u64)
        ensures
            final(self)@ == old(self)@ + le_bytes(val as nat, 8),
    {
        push_le(&mut self.data, val, 8);
    }

    pub fn write_i64(&mut self, val: i64)
        ensures
            final(self)@ == old(self)@ + le_bytes((val as u64) as nat, 8),
    {
        push_le(&mut self.data, val as u64, 8);
    }
}

/// Reads the body of a user message front to back.
pub struct UserMsgReader {
    data: Vec<u8>,
    idx: usize,
}

impl UserMsgReader {
    /// The message bytes.
    pub closed spec fn bytes(&self) -> Seq<u8> {
        self.data@
    }

    /// How many bytes have been consumed.
    pub closed spec fn pos(&self) -> nat {
        self.idx as nat
    }

    #[verifier::type_invariant]
    spec fn within_bounds(&self) -> bool {
        self.idx <= self.data@.len()
    }

    /// The next `n` bytes, when that many remain.
    pub open spec fn next_bytes(&self, n: nat) -> Seq<u8> {
        self.bytes().subrange(self.pos() as int, (self.pos() + n) as int)
    }

    pub fn new(data: Vec<u8>) -> (r: Self)
        ensures
            r.bytes() == data@,
            r.pos() == 0,
    {
        Self { data, idx: 0 }
    }

    /// Reads `n` bytes as a little-endian number, or leaves the reader as it is
    /// and gives `None` when fewer than `n` bytes remain.
    fn read_width(&mut self, n: usize) -> (r: Option<u64>)
        requires
            n <= 8,
        ensures
            final(self).bytes() == old(self).bytes(),
            old(self).pos() + n > old(self).bytes().len() ==> r is None && final(self).pos() == old(self).pos(),
            old(self).pos() + n <= old(self).bytes().len() ==> r == Some(le_value(old(self).next_bytes(n as nat)) as u64)
                && final(self).pos() == old(self).pos() + n,
    {
        proof {
            use_type_invariant(&*self);
        }
        if self.data.len() - self.idx < n {
            return None;
        }
        let val = read_le(self.data.as_slice(), self.idx, n);
        self.idx = self.idx + n;
        Some(val)
    }

    pub fn read_u8(&mut self) -> (r: Option<u8>)
        ensures
            final(self).bytes() == old(self).bytes(),
            old(self).pos() + 1 > old(self).bytes().len() ==> r is None && final(self).pos() == old(self).pos(),
            old(self).pos() + 1 <= old(self).bytes().len() ==> r == Some(le_value(old(self).next_bytes(1)) as u8)
                && final(self).pos() == old(self).pos() + 1,
    {
        match self.read_width(1) {
            Some(v) => {
                proof {
                    crate::bytes::lemma_le_value_bound(old(self).next_bytes(1));
                    crate::bytes::lemma_pow256_values();
                }
                Some(v as u8)
            },
            None => None,
        }
    }

    pub fn read_i8(&mut self) -> (r: Option<i8>)
        ensures
            final(self).bytes() == old(self).bytes(),
            old(self).pos() + 1 > old(self).bytes().len() ==> r is None && final(self).pos() == old(self).pos(),
            old(self).pos() + 1 <= old(self).bytes().len() ==> r == Some((le_value(old(self).next_bytes(1)) as u8) as i8)
                && final(self).pos() == old(self).pos() + 1,
    {
        match self.read_u8() {
            Some(v) => Some(v as i8),
            None => None,
        }
    }

    pub fn read_u16(&mut self) -> (r: Option<u16>)
        ensures
            final(self).bytes() == old(self).bytes(),
            old(self).pos() + 2 > old(self).bytes().len() ==> r is None && final(self).pos() == old(self).pos(),
            old(self).pos() + 2 <= old(self).bytes().len() ==> r == Some(le_value(old(self).next_bytes(2)) as u16)
                && final(self).pos() == old(self).pos() + 2,
    {
        match self.read_width(2) {
            Some(v) => {
                proof {
                    crate::bytes::lemma_le_value_bound(old(self).next_bytes(2));
                    crate::bytes::lemma_pow256_values();
                }
                Some(v as u16)
            },
            None => None,
        }
    }

    pub fn read_i16(&mut self) -> (r: Option<i16>)
        ensures
            final(self).bytes() == old(self).bytes(),
            old(self).pos() + 2 > old(self).bytes().len() ==> r is None && final(self).pos() == old(self).pos(),
            old(self).pos() + 2 <= old(self).bytes().len() ==> r == Some((le_value(old(self).next_bytes(2)) as u16) as i16)
                && final(self).pos() == old(self).pos() + 2,
    {
        match self.read_u16() {
            Some(v) => Some(v as i16),
            None => None,
        }
    }

    pub fn read_u32(&mut self) -> (r: Option<u32>)
        ensures
            final(self).bytes() == old(self).bytes(),
            old(self).pos() + 4 > old(self).bytes().len() ==> r is None && final(self).pos() == old(self).pos(),
            old(self).pos() + 4 <= old(self).bytes().len() ==> r == Some(le_value(old(self).next_bytes(4)) as u32)
                && final(self).pos() == old(self).pos() + 4,
    {
        match self.read_width(4) {
            Some(v) => {
                proof {
                    crate::bytes::lemma_le_value_bound(old(self).next_bytes(4));
                    crate::bytes::lemma_pow256_values();
                }
                Some(v as u32)
            },
            None => None,
        }
    }

    pub fn read_i32(&mut self) -> (r: Option<i32>)
        ensures
            final(self).bytes() == old(self).bytes(),
            old(self).pos() + 4 > old(self).bytes().len() ==> r is None && final(self).pos() == old(self).pos(),
            old(self).pos() + 4 <= old(self).bytes().len() ==> r == Some((le_value(old(self).next_bytes(4)) as u32) as i32)
                && final(self).pos() == old(self).pos() + 4,
    {
        match self.read_u32() {
            Some(v) => Some(v as i32),
            None => None,
        }
    }

    pub fn read_u64(&mut self) -> (r: Option<u64>)
        ensures
            final(self).bytes() == old(self).bytes(),
            old(self).pos() + 8 > old(self).bytes().len() ==> r is None && final(self).pos() == old(self).pos(),
            old(self).pos() + 8 <= old(self).bytes().len() ==> r == Some(le_value(old(self).next_bytes(8)) as u64)
                && final(self).pos() == old(self).pos() + 8,
    {
        self.read_width(8)
    }

    pub fn read_i64(&mut self) -> (r: Option<i64>)
        ensures
            final(self).bytes() == old(self).bytes(),
            old(self).pos() + 8 > old(self).bytes().len() ==> r is None && final(self).pos() == old(self).pos(),
            old(self).pos() + 8 <= old(self).bytes().len() ==> r == Some((le_value(old(self).next_bytes(8)) as u64) as i64)
                && final(self).pos() == old(self).pos() + 8,
    {
        match self.read_u64() {
            Some(v) => Some(v as i64),
            None => None,
        }
    }
}

/// What a writer appended for a value of `n` bytes is read back as that value by
/// a reader positioned where the write began, whatever came before or after it.
pub proof fn lemma_write_then_read(prefix: Seq<u8>, x: nat, n: nat, rest: Seq<u8>)
    requires
        x < crate::bytes::pow256(n),
    ensures
        (prefix + le_bytes(x, n) + rest).subrange(prefix.len() as int, (prefix.len() + n) as int) == le_bytes(x, n),
        le_value((prefix + le_bytes(x, n) + rest).subrange(prefix.len() as int, (prefix.len() + n) as int)) == x,
{
    crate::bytes::lemma_le_bytes_len(x, n);
    crate::bytes::lemma_le_roundtrip(x, n);
    assert((prefix + le_bytes(x, n) + rest).subrange(prefix.len() as int, (prefix.len() + n) as int) =~= le_bytes(x, n));
}

/// Signed values travel as their two's-complement bit patterns and come back unchanged.
pub proof fn lemma_signed_roundtrip(a: i8, b: i16, c: i32, d: i64)
    ensures
        ((a as u8) as i8) == a,
        ((b as u16) as i16) == b,
        ((c as u32) as i32) == c,
        ((d as u64) as i64) == d,
{
    assert(((a as u8) as i8) == a) by (bit_vector);
    assert(((b as u16) as i16) == b) by (bit_vector);
    assert(((c as u32) as i32) == c) by (bit_vector);
    assert(((d as u64) as i64) == d) by (bit_vector);
}

} // verus!
