use crate::error::Error;
use vstd::prelude::*;

verus! {

/// Number the big-endian bytes `s[0], s[1]` stand for.
#[verifier::opaque]
pub open spec fn spec_u16_from_be(s: Seq<u8>) -> int
    recommends
        s.len() == 2,
{
    s[0] as int * 0x100 + s[1] as int
}

/// Number the four big-endian bytes of `s` stand for.
#[verifier::opaque]
pub open spec fn spec_u32_from_be(s: Seq<u8>) -> int
    recommends
        s.len() == 4,
{
    spec_u16_from_be(s.take(2)) * 0x1_0000 + spec_u16_from_be(s.skip(2))
}

/// Number the eight big-endian bytes of `s` stand for.
#[verifier::opaque]
pub open spec fn spec_u64_from_be(s: Seq<u8>) -> int
    recommends
        s.len() == 8,
{
    spec_u32_from_be(s.take(4)) * 0x1_0000_0000 + spec_u32_from_be(s.skip(4))
}

/// The two bytes that stand for `v`, most significant first.
#[verifier::opaque]
pub open spec fn spec_u16_to_be(v: u16) -> Seq<u8> {
    seq![(v / 0x100) as u8, (v % 0x100) as u8]
}

/// The four bytes that stand for `v`, most significant first.
#[verifier::opaque]
pub open spec fn spec_u32_to_be(v: u32) -> Seq<u8> {
    spec_u16_to_be((v / 0x1_0000) as u16) + spec_u16_to_be((v % 0x1_0000) as u16)
}

/// The eight bytes that stand for `v`, most significant first.
#[verifier::opaque]
pub open spec fn spec_u64_to_be(v: u64) -> Seq<u8> {
    spec_u32_to_be((v / 0x1_0000_0000) as u32) + spec_u32_to_be((v % 0x1_0000_0000) as u32)
}

/// The bytes of every number of `values` in turn, eight bytes each.
pub open spec fn spec_u64s_to_be(values: Seq<u64>) -> Seq<u8>
    decreases values.len(),
{
    if values.len() == 0 {
        Seq::empty()
    } else {
        spec_u64s_to_be(values.drop_last()) + spec_u64_to_be(values.last())
    }
}

/// The `count` numbers that the first `8 * count` bytes of `s` stand for.
pub open spec fn spec_u64s_from_be(s: Seq<u8>, count: nat) -> Seq<u64>
    recommends
        s.len() >= 8 * count,
{
    Seq::new(count, |i: int| spec_u64_from_be(s.subrange(8 * i, 8 * i + 8)) as u64)
}

/// Encoding a 16-bit number and decoding the bytes gives the number back.
pub proof fn lemma_u16_round_trip(v: u16)
    ensures
        spec_u16_to_be(v).len() == 2,
        spec_u16_from_be(spec_u16_to_be(v)) == v,
{
    reveal(spec_u16_from_be);
    reveal(spec_u32_from_be);
    reveal(spec_u64_from_be);
    reveal(spec_u16_to_be);
    reveal(spec_u32_to_be);
    reveal(spec_u64_to_be);
}

/// Decoding two bytes and encoding the number gives the bytes back.
pub proof fn lemma_u16_bytes_round_trip(s: Seq<u8>)
    requires
        s.len() == 2,
    ensures
        0 <= spec_u16_from_be(s) <= u16::MAX,
        spec_u16_to_be(spec_u16_from_be(s) as u16) == s,
{
    reveal(spec_u16_from_be);
    reveal(spec_u32_from_be);
    reveal(spec_u64_from_be);
    reveal(spec_u16_to_be);
    reveal(spec_u32_to_be);
    reveal(spec_u64_to_be);
    assert(spec_u16_to_be(spec_u16_from_be(s) as u16) =~= s);
}

/// Encoding a 32-bit number and decoding the bytes gives the number back.
pub proof fn lemma_u32_round_trip(v: u32)
    ensures
        spec_u32_to_be(v).len() == 4,
        spec_u32_from_be(spec_u32_to_be(v)) == v,
{
    reveal(spec_u16_from_be);
    reveal(spec_u32_from_be);
    reveal(spec_u64_from_be);
    reveal(spec_u16_to_be);
    reveal(spec_u32_to_be);
    reveal(spec_u64_to_be);
    let hi = (v / 0x1_0000) as u16;
    let lo = (v % 0x1_0000) as u16;
    let s = spec_u32_to_be(v);
    assert(s.take(2) =~= spec_u16_to_be(hi));
    assert(s.skip(2) =~= spec_u16_to_be(lo));
    lemma_u16_round_trip(hi);
    lemma_u16_round_trip(lo);
}

/// Decoding four bytes and encoding the number gives the bytes back.
pub proof fn lemma_u32_bytes_round_trip(s: Seq<u8>)
    requires
        s.len() == 4,
    ensures
        0 <= spec_u32_from_be(s) <= u32::MAX,
        spec_u32_to_be(spec_u32_from_be(s) as u32) == s,
{
    reveal(spec_u16_from_be);
    reveal(spec_u32_from_be);
    reveal(spec_u64_from_be);
    reveal(spec_u16_to_be);
    reveal(spec_u32_to_be);
    reveal(spec_u64_to_be);
    lemma_u16_bytes_round_trip(s.take(2));
    lemma_u16_bytes_round_trip(s.skip(2));
    let hi = spec_u16_from_be(s.take(2));
    let lo = spec_u16_from_be(s.skip(2));
    let v = (hi * 0x1_0000 + lo) as u32;
    assert(v / 0x1_0000 == hi);
    assert(v % 0x1_0000 == lo);
    assert(spec_u32_to_be(v) =~= s.take(2) + s.skip(2));
    assert(s.take(2) + s.skip(2) =~= s);
}

/// Encoding a 64-bit number and decoding the bytes gives the number back.
pub proof fn lemma_u64_round_trip(v: u64)
    ensures
        spec_u64_to_be(v).len() == 8,
        spec_u64_from_be(spec_u64_to_be(v)) == v,
{
    reveal(spec_u16_from_be);
    reveal(spec_u32_from_be);
    reveal(spec_u64_from_be);
    reveal(spec_u16_to_be);
    reveal(spec_u32_to_be);
    reveal(spec_u64_to_be);
    let hi = (v / 0x1_0000_0000) as u32;
    let lo = (v % 0x1_0000_0000) as u32;
    let s = spec_u64_to_be(v);
    lemma_u32_round_trip(hi);
    lemma_u32_round_trip(lo);
    assert(s.take(4) =~= spec_u32_to_be(hi));
    assert(s.skip(4) =~= spec_u32_to_be(lo));
}

/// Decoding eight bytes and encoding the number gives the bytes back.
pub proof fn lemma_u64_bytes_round_trip(s: Seq<u8>)
    requires
        s.len() == 8,
    ensures
        0 <= spec_u64_from_be(s) <= u64::MAX,
        spec_u64_to_be(spec_u64_from_be(s) as u64) == s,
{
    reveal(spec_u16_from_be);
    reveal(spec_u32_from_be);
    reveal(spec_u64_from_be);
    reveal(spec_u16_to_be);
    reveal(spec_u32_to_be);
    reveal(spec_u64_to_be);
    lemma_u32_bytes_round_trip(s.take(4));
    lemma_u32_bytes_round_trip(s.skip(4));
    let hi = spec_u32_from_be(s.take(4));
    let lo = spec_u32_from_be(s.skip(4));
    let v = (hi * 0x1_0000_0000 + lo) as u64;
    assert(v / 0x1_0000_0000 == hi);
    assert(v % 0x1_0000_0000 == lo);
    assert(spec_u64_to_be(v) =~= s.take(4) + s.skip(4));
    assert(s.take(4) + s.skip(4) =~= s);
}

/// The encoding of a sequence of numbers is eight bytes per number.
pub proof fn lemma_u64s_len(values: Seq<u64>)
    ensures
        spec_u64s_to_be(values).len() == 8 * values.len(),
    decreases values.len(),
{
    if values.len() > 0 {
        lemma_u64s_len(values.drop_last());
        lemma_u64_round_trip(values.last());
    }
}

/// Encoding a sequence of 64-bit numbers and decoding as many numbers from
/// the bytes, whatever follows them, gives the sequence back.
pub proof fn lemma_u64s_round_trip(values: Seq<u64>, rest: Seq<u8>)
    ensures
        spec_u64s_from_be(spec_u64s_to_be(values) + rest, values.len()) == values,
    decreases values.len(),
{
    let bytes = spec_u64s_to_be(values) + rest;
    let back = spec_u64s_from_be(bytes, values.len());
    lemma_u64s_len(values);
    assert forall|i: int| 0 <= i < values.len() implies back[i] == values[i] by {
        lemma_u64s_chunk(values, i);
        assert(bytes.subrange(8 * i, 8 * i + 8) =~= spec_u64s_to_be(values).subrange(
            8 * i,
            8 * i + 8,
        ));
        lemma_u64_round_trip(values[i]);
    }
    assert(back =~= values);
}

/// The `i`-th group of eight bytes in the encoding of `values` encodes
/// `values[i]`.
pub proof fn lemma_u64s_chunk(values: Seq<u64>, i: int)
    requires
        0 <= i < values.len(),
    ensures
        spec_u64s_to_be(values).len() == 8 * values.len(),
        spec_u64s_to_be(values).subrange(8 * i, 8 * i + 8) == spec_u64_to_be(values[i]),
    decreases values.len(),
{
    lemma_u64s_len(values);
    lemma_u64s_len(values.drop_last());
    let all = spec_u64s_to_be(values);
    let front = spec_u64s_to_be(values.drop_last());
    if i == values.len() - 1 {
        assert(all.subrange(8 * i, 8 * i + 8) =~= spec_u64_to_be(values.last()));
    } else {
        lemma_u64s_chunk(values.drop_last(), i);
        assert(all.subrange(8 * i, 8 * i + 8) =~= front.subrange(8 * i, 8 * i + 8));
    }
}

/// A read position in a run of bytes.
#[derive(Clone, Copy)]
pub struct Reader<'a> {
    data: &'a [u8],
    pos: usize,
}

impl<'a> View for Reader<'a> {
    type V = Seq<u8>;

    /// The bytes that have not been read yet.
    closed spec fn view(&self) -> Seq<u8> {
        if self.pos <= self.data@.len() {
            self.data@.skip(self.pos as int)
        } else {
            Seq::empty()
        }
    }
}

impl<'a> Reader<'a> {
    /// A reader at the start of `data`.
    pub fn new(data: &'a [u8]) -> (r: Self)
        ensures
            r@ == data@,
    {
        let r = Reader { data, pos: 0 };
        assert(r@ =~= data@);
        r
    }

    /// A reader that starts `offset` bytes into `data`, or at its end when
    /// `offset` lies beyond it.
    pub fn at(data: &'a [u8], offset: usize) -> (r: Self)
        ensures
            offset <= data@.len() ==> r@ == data@.skip(offset as int),
            offset > data@.len() ==> r@ == Seq::<u8>::empty(),
    {
        Reader { data, pos: offset }
    }

    /// How many bytes are left.
    pub fn remaining(&self) -> (n: usize)
        ensures
            n == self@.len(),
    {
        if self.pos <= self.data.len() {
            self.data.len() - self.pos
        } else {
            0
        }
    }

    /// Takes the next `n` bytes, or none at all when fewer are left.
    pub fn read_bytes(&mut self, n: usize) -> (r: Result<Vec<u8>, Error>)
        ensures
            match r {
                Ok(bytes) => old(self)@.len() >= n && bytes@ == old(self)@.take(n as int)
                    && final(self)@ == old(self)@.skip(n as int),
                Err(e) => old(self)@.len() < n && e == Error::Io && final(self)@ == old(self)@,
            },
    {
        if self.remaining() < n {
            return Err(Error::Io);
        }
        let ghost before = self@;
        let mut out: Vec<u8> = Vec::with_capacity(n);
        if n == 0 {
            assert(out@ =~= before.take(0));
            assert(before.skip(0) =~= before);
            return Ok(out);
        }
        let start = self.pos;
        let total = self.data.len();
        let mut i: usize = 0;
        while i < n
            invariant
                i <= n,
                start + n <= self.data@.len(),
                self.data@.len() == total,
                self.pos == start,
                out@ == self.data@.subrange(start as int, start + i),
            decreases n - i,
        {
            out.push(self.data[start + i]);
            i += 1;
            assert(out@ =~= self.data@.subrange(start as int, start + i));
        }
        self.pos = start + n;
        assert(out@ =~= before.take(n as int));
        assert(self@ =~= before.skip(n as int));
        Ok(out)
    }
}

/// Reads a 16-bit big-endian number.
pub fn read_u16(reader: &mut Reader) -> (r: Result<u16, Error>)
    ensures
        match r {
            Ok(v) => old(reader)@.len() >= 2 && v == spec_u16_from_be(old(reader)@.take(2))
                && final(reader)@ == old(reader)@.skip(2),
            Err(e) => old(reader)@.len() < 2 && e == Error::Io && final(reader)@ == old(reader)@,
        },
{
    reveal(spec_u16_from_be);
    reveal(spec_u32_from_be);
    reveal(spec_u64_from_be);
    reveal(spec_u16_to_be);
    reveal(spec_u32_to_be);
    reveal(spec_u64_to_be);
    let b = reader.read_bytes(2)?;
    Ok(b[0] as u16 * 0x100 + b[1] as u16)
}

/// Reads a 32-bit big-endian number.
pub fn read_u32(reader: &mut Reader) -> (r: Result<u32, Error>)
    ensures
        match r {
            Ok(v) => old(reader)@.len() >= 4 && v == spec_u32_from_be(old(reader)@.take(4))
                && final(reader)@ == old(reader)@.skip(4),
            Err(e) => old(reader)@.len() < 4 && e == Error::Io && final(reader)@ == old(reader)@,
        },
{
    reveal(spec_u16_from_be);
    reveal(spec_u32_from_be);
    reveal(spec_u64_from_be);
    reveal(spec_u16_to_be);
    reveal(spec_u32_to_be);
    reveal(spec_u64_to_be);
    let b = reader.read_bytes(4)?;
    let hi: u32 = b[0] as u32 * 0x100 + b[1] as u32;
    let lo: u32 = b[2] as u32 * 0x100 + b[3] as u32;
    proof {
        assert(b@.take(2) =~= seq![b@[0], b@[1]]);
        assert(b@.skip(2) =~= seq![b@[2], b@[3]]);
    }
    Ok(hi * 0x1_0000 + lo)
}

/// Reads a 64-bit big-endian number.
pub fn read_u64(reader: &mut Reader) -> (r: Result<u64, Error>)
    ensures
        match r {
            Ok(v) => old(reader)@.len() >= 8 && v == spec_u64_from_be(old(reader)@.take(8))
                && final(reader)@ == old(reader)@.skip(8),
            Err(e) => old(reader)@.len() < 8 && e == Error::Io && final(reader)@ == old(reader)@,
        },
{
    reveal(spec_u16_from_be);
    reveal(spec_u32_from_be);
    reveal(spec_u64_from_be);
    reveal(spec_u16_to_be);
    reveal(spec_u32_to_be);
    reveal(spec_u64_to_be);
    let ghost before = reader@;
    if reader.remaining() < 8 {
        return Err(Error::Io);
    }
    let hi = match read_u32(reader) {
        Ok(v) => v,
        Err(e) => {
            return Err(e);
        },
    };
    let lo = match read_u32(reader) {
        Ok(v) => v,
        Err(e) => {
            return Err(e);
        },
    };
    proof {
        assert(before.take(8).take(4) =~= before.take(4));
        assert(before.take(8).skip(4) =~= before.skip(4).take(4));
        assert(before.skip(4).skip(4) =~= before.skip(8));
    }
    Ok(hi as u64 * 0x1_0000_0000 + lo as u64)
}

/// Reads `len` 64-bit big-endian numbers, or nothing when fewer than
/// `8 * len` bytes are left.
pub fn read_vec_u64(reader: &mut Reader, len: usize) -> (r: Result<Vec<u64>, Error>)
    ensures
        match r {
            Ok(v) => old(reader)@.len() >= 8 * len && v@ == spec_u64s_from_be(
                old(reader)@,
                len as nat,
            ) && final(reader)@ == old(reader)@.skip(8 * len),
            Err(e) => old(reader)@.len() < 8 * len && e == Error::Io && final(reader)@ == old(
                reader,
            )@,
        },
{
    if reader.remaining() / 8 < len {
        return Err(Error::Io);
    }
    let ghost before = reader@;
    let mut res: Vec<u64> = Vec::new();
    let mut i: usize = 0;
    while i < len
        invariant
            i <= len,
            before.len() >= 8 * len,
            reader@ == before.skip(8 * i),
            res@ == spec_u64s_from_be(before, i as nat),
        decreases len - i,
    {
        let ghost here = reader@;
        let v = match read_u64(reader) {
            Ok(v) => v,
            Err(e) => {
                assert(false);
                return Err(e);
            },
        };
        assert(here.take(8) =~= before.subrange(8 * i, 8 * i + 8));
        res.push(v);
        i += 1;
        assert(reader@ =~= before.skip(8 * i));
        assert(res@ =~= spec_u64s_from_be(before, i as nat));
    }
    Ok(res)
}

/// A growing run of bytes.
pub struct Writer {
    buf: Vec<u8>,
}

impl View for Writer {
    type V = Seq<u8>;

    /// The bytes written so far.
    closed spec fn view(&self) -> Seq<u8> {
        self.buf@
    }
}

impl Writer {
    /// A writer that holds no bytes.
    pub fn new() -> (w: Self)
        ensures
            w@ == Seq::<u8>::empty(),
    {
        Writer { buf: Vec::new() }
    }

    /// Number of bytes written so far.
    pub fn len(&self) -> (n: usize)
        ensures
            n == self@.len(),
    {
        self.buf.len()
    }

    /// Appends one byte.
    pub fn write_byte(&mut self, b: u8)
        ensures
            final(self)@ == old(self)@.push(b),
    {
        self.buf.push(b);
    }

    /// Appends every byte of `bytes`.
    pub fn write_all(&mut self, bytes: &[u8])
        ensures
            final(self)@ == old(self)@ + bytes@,
    {
        let mut i: usize = 0;
        while i < bytes.len()
            invariant
                i <= bytes@.len(),
                self@ == old(self)@ + bytes@.take(i as int),
            decreases bytes@.len() - i,
        {
            self.buf.push(bytes[i]);
            i += 1;
            assert(self@ =~= old(self)@ + bytes@.take(i as int));
        }
        assert(bytes@.take(i as int) =~= bytes@);
    }

    /// Hands out the bytes written.
    pub fn into_inner(self) -> (bytes: Vec<u8>)
        ensures
            bytes@ == self@,
    {
        self.buf
    }
}

/// Appends `value` as two big-endian bytes.
pub fn write_u16(w: &mut Writer, value: u16)
    ensures
        final(w)@ == old(w)@ + spec_u16_to_be(value),
{
    reveal(spec_u16_from_be);
    reveal(spec_u32_from_be);
    reveal(spec_u64_from_be);
    reveal(spec_u16_to_be);
    reveal(spec_u32_to_be);
    reveal(spec_u64_to_be);
    w.write_byte((value / 0x100) as u8);
    w.write_byte((value % 0x100) as u8);
    assert(w@ =~= old(w)@ + spec_u16_to_be(value));
}

/// Appends `value` as four big-endian bytes.
pub fn write_u32(w: &mut Writer, value: u32)
    ensures
        final(w)@ == old(w)@ + spec_u32_to_be(value),
{
    reveal(spec_u16_from_be);
    reveal(spec_u32_from_be);
    reveal(spec_u64_from_be);
    reveal(spec_u16_to_be);
    reveal(spec_u32_to_be);
    reveal(spec_u64_to_be);
    write_u16(w, (value / 0x1_0000) as u16);
    write_u16(w, (value % 0x1_0000) as u16);
    assert(w@ =~= old(w)@ + spec_u32_to_be(value));
}

/// Appends `value` as eight big-endian bytes.
pub fn write_u64(w: &mut Writer, value: u64)
    ensures
        final(w)@ == old(w)@ + spec_u64_to_be(value),
{
    reveal(spec_u16_from_be);
    reveal(spec_u32_from_be);
    reveal(spec_u64_from_be);
    reveal(spec_u16_to_be);
    reveal(spec_u32_to_be);
    reveal(spec_u64_to_be);
    write_u32(w, (value / 0x1_0000_0000) as u32);
    write_u32(w, (value % 0x1_0000_0000) as u32);
    assert(w@ =~= old(w)@ + spec_u64_to_be(value));
}

/// Appends every number of `values` as eight big-endian bytes.
pub fn write_slice_u64(w: &mut Writer, values: &[u64])
    ensures
        final(w)@ == old(w)@ + spec_u64s_to_be(values@),
{
    let mut i: usize = 0;
    assert(spec_u64s_to_be(values@.take(0)) =~= Seq::<u8>::empty());
    while i < values.len()
        invariant
            i <= values@.len(),
            w@ == old(w)@ + spec_u64s_to_be(values@.take(i as int)),
        decreases values@.len() - i,
    {
        write_u64(w, values[i]);
        i += 1;
        proof {
            let next = values@.take(i as int);
            assert(next.drop_last() =~= values@.take(i - 1));
            assert(w@ =~= old(w)@ + spec_u64s_to_be(next));
        }
    }
    assert(values@.take(i as int) =~= values@);
}

} // verus!
