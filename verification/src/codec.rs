//! Byte-level reading and writing of the primitives that the file formats are made of.
use vstd::prelude::*;
use vstd::utf8::*;
use crate::error::{invalid, Failure, VectLiteError};
use crate::text::concat2;

verus! {

/// `256` to the power `n`.
pub open spec fn pow256(n: nat) -> nat
    decreases n,
{
    if n == 0 {
        1
    } else {
        256 * pow256((n - 1) as nat)
    }
}

/// The `n` low bytes of `v`, least significant first.
pub open spec fn le_bytes(v: nat, n: nat) -> Seq<u8>
    decreases n,
{
    if n == 0 {
        Seq::empty()
    } else {
        seq![(v % 256) as u8] + le_bytes(v / 256, (n - 1) as nat)
    }
}

/// The number that bytes, least significant first, stand for.
pub open spec fn le_value(b: Seq<u8>) -> nat
    decreases b.len(),
{
    if b.len() == 0 {
        0
    } else {
        b[0] as nat + 256 * le_value(b.drop_first())
    }
}

pub proof fn lemma_le_bytes_len(v: nat, n: nat)
    ensures
        le_bytes(v, n).len() == n,
    decreases n,
{
    if n > 0 {
        lemma_le_bytes_len(v / 256, (n - 1) as nat);
    }
}

/// Reading back the bytes of a number that fits gives the number.
pub proof fn lemma_le_roundtrip(v: nat, n: nat)
    requires
        v < pow256(n),
    ensures
        le_value(le_bytes(v, n)) == v,
    decreases n,
{
    if n > 0 {
        let tail = le_bytes(v / 256, (n - 1) as nat);
        assert(v / 256 < pow256((n - 1) as nat));
        lemma_le_roundtrip(v / 256, (n - 1) as nat);
        assert((seq![(v % 256) as u8] + tail).drop_first() =~= tail);
    }
}

pub proof fn lemma_le_value_bound(b: Seq<u8>)
    ensures
        le_value(b) < pow256(b.len()),
    decreases b.len(),
{
    if b.len() > 0 {
        lemma_le_value_bound(b.drop_first());
    }
}

pub proof fn lemma_pow256_values()
    ensures
        pow256(1) == 0x100,
        pow256(2) == 0x1_0000,
        pow256(4) == 0x1_0000_0000,
        pow256(8) == 0x1_0000_0000_0000_0000,
{
    reveal_with_fuel(pow256, 9);
}

/// The outcome of reading a value off the front of a byte sequence: the value and what is left,
/// or the failure.
pub type Parsed<T> = Result<(T, Seq<u8>), Failure>;

/// The failure of reading past the end.
pub open spec fn end_of_input() -> Failure {
    Failure::Io("failed to fill whole buffer"@)
}

/// Reads an unsigned number of `n` bytes.
pub open spec fn parse_le(b: Seq<u8>, n: nat) -> Parsed<nat> {
    if b.len() < n {
        Err(end_of_input())
    } else {
        Ok((le_value(b.take(n as int)), b.skip(n as int)))
    }
}

/// Two's complement of a 64-bit integer.
pub open spec fn twos_complement(v: i64) -> nat {
    if v < 0 {
        (v + 0x1_0000_0000_0000_0000) as nat
    } else {
        v as nat
    }
}

/// The 64-bit integer with the given two's complement.
pub open spec fn from_twos_complement(u: nat) -> i64 {
    if u < 0x8000_0000_0000_0000 {
        u as i64
    } else {
        (u - 0x1_0000_0000_0000_0000) as i64
    }
}

/// A text: the length of its UTF-8 bytes, then the bytes.
pub open spec fn enc_text(s: Seq<char>) -> Seq<u8> {
    le_bytes(encode_utf8(s).len(), 4) + encode_utf8(s)
}

/// The message of the UTF-8 decoder for bytes that are not valid UTF-8.
pub uninterp spec fn utf8_error_text(bytes: Seq<u8>) -> Seq<char>;

/// Reads a text.
pub open spec fn parse_text(b: Seq<u8>) -> Parsed<Seq<char>> {
    match parse_le(b, 4) {
        Err(e) => Err(e),
        Ok((n, rest)) => if rest.len() < n {
            Err(end_of_input())
        } else {
            let bytes = rest.take(n as int);
            if valid_utf8(bytes) {
                Ok((decode_utf8(bytes), rest.skip(n as int)))
            } else {
                Err(Failure::InvalidFormat("invalid utf-8 string: "@ + utf8_error_text(bytes)))
            }
        },
    }
}

/// Whether a text's length fits its length field.
pub open spec fn text_fits(s: Seq<char>) -> bool {
    encode_utf8(s).len() <= 0xffff_ffff
}

pub proof fn lemma_parse_le_roundtrip(v: nat, n: nat, tail: Seq<u8>)
    requires
        v < pow256(n),
    ensures
        parse_le(le_bytes(v, n) + tail, n) == Ok::<(nat, Seq<u8>), Failure>((v, tail)),
{
    lemma_le_bytes_len(v, n);
    lemma_le_roundtrip(v, n);
    let b = le_bytes(v, n) + tail;
    assert(b.take(n as int) =~= le_bytes(v, n));
    assert(b.skip(n as int) =~= tail);
}

/// A text that fits is read back, whatever follows it.
pub proof fn lemma_parse_text_roundtrip(s: Seq<char>, tail: Seq<u8>)
    requires
        text_fits(s),
    ensures
        parse_text(enc_text(s) + tail) == Ok::<(Seq<char>, Seq<u8>), Failure>((s, tail)),
{
    lemma_pow256_values();
    let bytes = encode_utf8(s);
    let b = enc_text(s) + tail;
    assert(b =~= le_bytes(bytes.len(), 4) + (bytes + tail));
    lemma_parse_le_roundtrip(bytes.len(), 4, bytes + tail);
    assert((bytes + tail).take(bytes.len() as int) =~= bytes);
    assert((bytes + tail).skip(bytes.len() as int) =~= tail);
    encode_utf8_valid_utf8(s);
    encode_utf8_decode_utf8(s);
}

/// Decodes UTF-8 through [`String::from_utf8`]: the text of the bytes where they are valid UTF-8,
/// and else the message of its error, which depends on the bytes alone.
#[verifier::external_body]
fn text_from_utf8(bytes: Vec<u8>) -> (r: Result<String, String>)
    ensures
        r is Ok == valid_utf8(bytes@),
        r matches Ok(s) ==> s@ == decode_utf8(bytes@),
        r matches Err(m) ==> m@ == utf8_error_text(bytes@),
{
    String::from_utf8(bytes).map_err(|e| e.to_string())
}

/// Whether the outcome of a read agrees with a parse.
pub open spec fn agrees<T: DeepView>(
    r: Result<T, VectLiteError>,
    rest: Seq<u8>,
    p: Parsed<T::V>,
) -> bool {
    match p {
        Ok((v, tail)) => r matches Ok(x) && x.deep_view() == v && rest == tail,
        Err(e) => r matches Err(x) && x@ == e,
    }
}

/// A cursor into bytes.
pub struct Reader<'a> {
    pub bytes: &'a [u8],
    pub pos: usize,
}

impl<'a> Reader<'a> {
    /// The bytes that are left.
    pub open spec fn rest(&self) -> Seq<u8> {
        self.bytes@.skip(self.pos as int)
    }

    pub open spec fn wf(&self) -> bool {
        self.pos <= self.bytes@.len()
    }

    /// A cursor at the start of `bytes`.
    pub fn new(bytes: &'a [u8]) -> (r: Self)
        ensures
            r.wf(),
            r.rest() == bytes@,
    {
        let r = Reader { bytes, pos: 0 };
        proof {
            assert(r.rest() =~= bytes@);
        }
        r
    }

    /// The number of bytes that are left.
    pub fn left(&self) -> (r: usize)
        requires
            self.wf(),
        ensures
            r == self.rest().len(),
    {
        self.bytes.len() - self.pos
    }

    /// Reads an unsigned number of `n` bytes.
    pub fn le(&mut self, n: usize) -> (r: Result<u64, VectLiteError>)
        requires
            old(self).wf(),
            n <= 8,
        ensures
            final(self).wf(),
            match parse_le(old(self).rest(), n as nat) {
                Ok((v, tail)) => r matches Ok(x) && x == v && v < pow256(n as nat)
                    && final(self).rest() == tail,
                Err(e) => r matches Err(x) && x@ == e,
            },
    {
        if self.left() < n {
            return Err(VectLiteError::Io("failed to fill whole buffer".to_owned()));
        }
        let ghost b = self.rest();
        let ghost front = b.take(n as int);
        let mut i: usize = n;
        let mut v: u64 = 0;
        proof {
            lemma_le_value_bound(front);
            lemma_pow256_values();
            assert(front.skip(n as int) =~= Seq::<u8>::empty());
        }
        while i > 0
            invariant
                self.wf(),
                *self == *old(self),
                b == self.rest(),
                front == b.take(n as int),
                self.pos + n <= self.bytes.len(),
                n <= 8,
                i <= n,
                v == le_value(front.skip(i as int)),
            decreases i,
        {
            i = i - 1;
            proof {
                assert(front.skip(i as int).drop_first() =~= front.skip(i + 1));
                assert(front.skip(i as int)[0] == front[i as int]);
                assert(front[i as int] == self.bytes@[self.pos + i]);
                lemma_le_value_bound(front.skip(i + 1));
                lemma_pow256_bound((n - i - 1) as nat);
            }
            v = self.bytes[self.pos + i] as u64 + 256 * v;
        }
        proof {
            assert(front.skip(0) =~= front);
            assert(self.bytes@.skip(self.pos + n) =~= b.skip(n as int));
        }
        self.pos = self.pos + n;
        Ok(v)
    }

    /// Reads a byte.
    pub fn u8(&mut self) -> (r: Result<u8, VectLiteError>)
        requires
            old(self).wf(),
        ensures
            final(self).wf(),
            match parse_le(old(self).rest(), 1) {
                Ok((v, tail)) => r matches Ok(x) && x == v && final(self).rest() == tail,
                Err(e) => r matches Err(x) && x@ == e,
            },
    {
        proof {
            lemma_pow256_values();
        }
        match self.le(1) {
            Ok(v) => Ok(v as u8),
            Err(e) => Err(e),
        }
    }

    /// Reads a 16-bit number.
    pub fn u16(&mut self) -> (r: Result<u16, VectLiteError>)
        requires
            old(self).wf(),
        ensures
            final(self).wf(),
            match parse_le(old(self).rest(), 2) {
                Ok((v, tail)) => r matches Ok(x) && x == v && final(self).rest() == tail,
                Err(e) => r matches Err(x) && x@ == e,
            },
    {
        proof {
            lemma_pow256_values();
        }
        match self.le(2) {
            Ok(v) => Ok(v as u16),
            Err(e) => Err(e),
        }
    }

    /// Reads a 32-bit number.
    pub fn u32(&mut self) -> (r: Result<u32, VectLiteError>)
        requires
            old(self).wf(),
        ensures
            final(self).wf(),
            match parse_le(old(self).rest(), 4) {
                Ok((v, tail)) => r matches Ok(x) && x == v && final(self).rest() == tail,
                Err(e) => r matches Err(x) && x@ == e,
            },
    {
        proof {
            lemma_pow256_values();
        }
        match self.le(4) {
            Ok(v) => Ok(v as u32),
            Err(e) => Err(e),
        }
    }

    /// Reads a 64-bit number.
    pub fn u64(&mut self) -> (r: Result<u64, VectLiteError>)
        requires
            old(self).wf(),
        ensures
            final(self).wf(),
            match parse_le(old(self).rest(), 8) {
                Ok((v, tail)) => r matches Ok(x) && x == v && final(self).rest() == tail,
                Err(e) => r matches Err(x) && x@ == e,
            },
    {
        self.le(8)
    }

    /// Takes the next `n` bytes.
    pub fn take(&mut self, n: usize) -> (r: Result<Vec<u8>, VectLiteError>)
        requires
            old(self).wf(),
        ensures
            final(self).wf(),
            old(self).rest().len() < n ==> (r matches Err(x) && x@ == end_of_input()),
            old(self).rest().len() >= n ==> (r matches Ok(x) && x@ == old(self).rest().take(
                n as int,
            ) && final(self).rest() == old(self).rest().skip(n as int)),
    {
        if self.left() < n {
            return Err(VectLiteError::Io("failed to fill whole buffer".to_owned()));
        }
        let ghost b = self.rest();
        let mut out: Vec<u8> = Vec::new();
        let mut i: usize = 0;
        while i < n
            invariant
                self.wf(),
                *self == *old(self),
                b == self.rest(),
                self.pos + n <= self.bytes.len(),
                i <= n,
                out@ == b.take(i as int),
            decreases n - i,
        {
            proof {
                assert(b[i as int] == self.bytes@[self.pos + i]);
                assert(b.take(i + 1) =~= b.take(i as int).push(b[i as int]));
            }
            out.push(self.bytes[self.pos + i]);
            i += 1;
        }
        proof {
            assert(self.bytes@.skip(self.pos + n) =~= b.skip(n as int));
        }
        self.pos = self.pos + n;
        Ok(out)
    }

    /// Reads a text.
    pub fn text(&mut self) -> (r: Result<String, VectLiteError>)
        requires
            old(self).wf(),
        ensures
            final(self).wf(),
            agrees(r, final(self).rest(), parse_text(old(self).rest())),
    {
        let n: u32 = match self.u32() {
            Ok(n) => n,
            Err(e) => {
                return Err(e);
            },
        };
        let bytes = match self.take(n as usize) {
            Ok(b) => b,
            Err(e) => {
                return Err(e);
            },
        };
        match text_from_utf8(bytes) {
            Ok(s) => Ok(s),
            Err(m) => Err(
                VectLiteError::InvalidFormat(concat2("invalid utf-8 string: ", m.as_str())),
            ),
        }
    }
}

proof fn lemma_pow256_bound(n: nat)
    requires
        n <= 7,
    ensures
        pow256(n) <= pow256(7),
        pow256(7) == 0x100_0000_0000_0000,
{
    reveal_with_fuel(pow256, 9);
}

/// Appends the `n` low bytes of `v`.
pub fn write_le(out: &mut Vec<u8>, v: u64, n: usize)
    requires
        n <= 8,
    ensures
        final(out)@ == old(out)@ + le_bytes(v as nat, n as nat),
{
    let mut i: usize = 0;
    let mut x: u64 = v;
    proof {
        assert(out@ + le_bytes(v as nat, n as nat) =~= old(out)@ + le_bytes(v as nat, n as nat));
    }
    while i < n
        invariant
            i <= n,
            out@ + le_bytes(x as nat, (n - i) as nat) == old(out)@ + le_bytes(v as nat, n as nat),
        decreases n - i,
    {
        let ghost before = out@;
        out.push((x % 256) as u8);
        proof {
            let tail = le_bytes(x as nat / 256, (n - i - 1) as nat);
            assert(before + (seq![(x as nat % 256) as u8] + tail) =~= out@ + tail);
        }
        x = x / 256;
        i += 1;
    }
    proof {
        assert(out@ + le_bytes(x as nat, 0) =~= out@);
    }
}

/// Appends bytes.
pub fn write_bytes(out: &mut Vec<u8>, bytes: &[u8])
    ensures
        final(out)@ == old(out)@ + bytes@,
{
    let mut i: usize = 0;
    while i < bytes.len()
        invariant
            i <= bytes@.len(),
            out@ == old(out)@ + bytes@.take(i as int),
        decreases bytes@.len() - i,
    {
        proof {
            assert(bytes@.take(i + 1) =~= bytes@.take(i as int).push(bytes@[i as int]));
            assert((old(out)@ + bytes@.take(i as int)).push(bytes@[i as int]) =~= old(out)@
                + bytes@.take(i + 1));
        }
        out.push(bytes[i]);
        i += 1;
    }
    proof {
        assert(bytes@.take(i as int) =~= bytes@);
    }
}

/// The failure of a length that exceeds its 32-bit field.
pub open spec fn too_long() -> Failure {
    Failure::InvalidFormat("value exceeds the u32 storage limit"@)
}

/// Appends a length as a 32-bit number.
pub fn write_len(out: &mut Vec<u8>, n: usize) -> (r: Result<(), VectLiteError>)
    ensures
        n <= 0xffff_ffff ==> r is Ok && final(out)@ == old(out)@ + le_bytes(n as nat, 4),
        n > 0xffff_ffff ==> (r matches Err(e) && e@ == too_long()),
{
    if n as u64 > 0xffff_ffff {
        return Err(invalid("value exceeds the u32 storage limit"));
    }
    write_le(out, n as u64, 4);
    Ok(())
}

/// Appends a text.
pub fn write_text(out: &mut Vec<u8>, s: &str) -> (r: Result<(), VectLiteError>)
    ensures
        text_fits(s@) ==> r is Ok && final(out)@ == old(out)@ + enc_text(s@),
        !text_fits(s@) ==> (r matches Err(e) && e@ == too_long()),
{
    let bytes = s.as_bytes();
    match write_len(out, bytes.len()) {
        Ok(()) => {},
        Err(e) => {
            return Err(e);
        },
    }
    write_bytes(out, bytes);
    proof {
        assert(out@ =~= old(out)@ + enc_text(s@));
    }
    Ok(())
}

/// The two's complement of an integer.
pub fn to_twos_complement(v: i64) -> (r: u64)
    ensures
        r == twos_complement(v),
{
    if v < 0 {
        ((v as i128) + 0x1_0000_0000_0000_0000) as u64
    } else {
        v as u64
    }
}

/// The integer with a given two's complement.
pub fn of_twos_complement(u: u64) -> (r: i64)
    ensures
        r == from_twos_complement(u as nat),
{
    if u < 0x8000_0000_0000_0000 {
        u as i64
    } else {
        ((u as i128) - 0x1_0000_0000_0000_0000) as i64
    }
}

pub proof fn lemma_twos_complement(v: i64)
    ensures
        from_twos_complement(twos_complement(v)) == v,
        twos_complement(v) < 0x1_0000_0000_0000_0000,
{
}

} // verus!
