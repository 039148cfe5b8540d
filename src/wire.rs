//! The primitive encodings of the protocol buffer wire format, and a reader
//! over a byte buffer that decodes them inside nested length limits.
use vstd::prelude::*;

use crate::error::StreamError;

verus! {

/// The encoding kind carried in the low three bits of every tag.
#[derive(Debug, Clone, Copy, PartialEq, Eq, Structural)]
pub enum WireType {
    /// A base-128 varint.
    Varint,
    /// Eight little-endian bytes.
    Fixed64,
    /// A varint length followed by that many bytes.
    LengthDelimited,
    /// The start of a group.
    StartGroup,
    /// The end of a group.
    EndGroup,
    /// Four little-endian bytes.
    Fixed32,
}

/// The wire type with code `n`, if there is one.
pub open spec fn wire_type_spec(n: u32) -> Option<WireType> {
    if n == 0 {
        Some(WireType::Varint)
    } else if n == 1 {
        Some(WireType::Fixed64)
    } else if n == 2 {
        Some(WireType::LengthDelimited)
    } else if n == 3 {
        Some(WireType::StartGroup)
    } else if n == 4 {
        Some(WireType::EndGroup)
    } else if n == 5 {
        Some(WireType::Fixed32)
    } else {
        None
    }
}

impl WireType {
    /// The wire type with code `n`, if there is one.
    pub fn new(n: u32) -> (r: Option<WireType>)
        ensures
            r == wire_type_spec(n),
    {
        match n {
            0 => Some(WireType::Varint),
            1 => Some(WireType::Fixed64),
            2 => Some(WireType::LengthDelimited),
            3 => Some(WireType::StartGroup),
            4 => Some(WireType::EndGroup),
            5 => Some(WireType::Fixed32),
            _ => None,
        }
    }
}

/// `128` to the power `n`.
pub open spec fn pow128(n: nat) -> nat
    decreases n,
{
    if n == 0 {
        1
    } else {
        128 * pow128((n - 1) as nat)
    }
}

/// The number that the low seven bits of the first `n` bytes of `s` spell,
/// least significant group first.
pub open spec fn varint_sum(s: Seq<u8>, n: nat) -> nat
    decreases n,
{
    if n == 0 {
        0
    } else {
        varint_sum(s, (n - 1) as nat) + (s[n - 1] % 128) as nat * pow128((n - 1) as nat)
    }
}

/// The length of the varint at the front of `s`, looking from byte `i` on:
/// it ends at the first byte below 0x80, and may not run over ten bytes.
pub open spec fn varint_scan(s: Seq<u8>, i: nat) -> Result<nat, StreamError>
    decreases 10 - i,
{
    if i >= 10 {
        Err(StreamError::IncorrectVarint)
    } else if i >= s.len() {
        Err(StreamError::Truncated)
    } else if s[i as int] < 128 {
        Ok(i + 1)
    } else {
        varint_scan(s, i + 1)
    }
}

/// The varint at the front of `s`, cut to 64 bits, with the number of bytes it takes.
pub open spec fn varint(s: Seq<u8>) -> Result<(u64, nat), StreamError> {
    match varint_scan(s, 0) {
        Ok(n) => Ok(((varint_sum(s, n) % 0x1_0000_0000_0000_0000) as u64, n)),
        Err(e) => Err(e),
    }
}

/// The little-endian number in the first four bytes of `s`.
pub open spec fn le32(s: Seq<u8>) -> u32 {
    (s[0] as int + s[1] as int * 0x100 + s[2] as int * 0x1_0000 + s[3] as int * 0x100_0000) as u32
}

/// The little-endian number in the first eight bytes of `s`.
pub open spec fn le64(s: Seq<u8>) -> u64 {
    (le32(s) as int + le32(s.subrange(4, 8)) as int * 0x1_0000_0000) as u64
}

/// The signed number that zig-zag encoding maps to `n`.
pub open spec fn zigzag32(n: u32) -> i32 {
    if n % 2 == 0 {
        (n / 2) as i32
    } else {
        (-((n / 2) as int) - 1) as i32
    }
}

/// The signed number that zig-zag encoding maps to `n`.
pub open spec fn zigzag64(n: u64) -> i64 {
    if n % 2 == 0 {
        (n / 2) as i64
    } else {
        (-((n / 2) as int) - 1) as i64
    }
}

/// The tag that the varint `v` holds: its field number and wire type.
pub open spec fn tag_spec(v: u32) -> Result<(u32, WireType), StreamError> {
    match wire_type_spec(v % 8) {
        Some(w) => if v / 8 == 0 {
            Err(StreamError::IncorrectTag(v))
        } else {
            Ok(((v / 8) as u32, w))
        },
        None => Err(StreamError::IncorrectTag(v)),
    }
}

/// A tag at the front of `s`, with the number of bytes it takes.
pub open spec fn tag_at(s: Seq<u8>) -> Result<(u32, WireType, nat), StreamError> {
    match varint(s) {
        Ok((v, n)) => match tag_spec(v as u32) {
            Ok((f, w)) => Ok((f, w, n)),
            Err(e) => Err(e),
        },
        Err(e) => Err(e),
    }
}

/// A fixed-width number of `w` bytes at the front of `s`.
pub open spec fn fixed_at(s: Seq<u8>, w: nat) -> Result<Seq<u8>, StreamError> {
    if s.len() < w {
        Err(StreamError::Truncated)
    } else {
        Ok(s.subrange(0, w as int))
    }
}

/// A length-prefixed run of bytes at the front of `s`, with the number of
/// bytes that prefix and run take together.
pub open spec fn delimited_at(s: Seq<u8>) -> Result<(Seq<u8>, nat), StreamError> {
    match varint(s) {
        Ok((len, n)) => if s.len() - n < len {
            Err(StreamError::Truncated)
        } else {
            Ok((s.subrange(n as int, n + len), (n + len) as nat))
        },
        Err(e) => Err(e),
    }
}

/// The characters that the UTF-8 bytes `b` encode; none where `b` is not UTF-8.
pub uninterp spec fn utf8_decode(b: Seq<u8>) -> Option<Seq<char>>;

/// Relies on `String::from_utf8`: it succeeds exactly on valid UTF-8 and then
/// holds the characters that the bytes encode.
#[verifier::external_body]
pub(crate) fn string_from_utf8(b: Vec<u8>) -> (r: Option<String>)
    ensures
        r is Some <==> utf8_decode(b@) is Some,
        r is Some ==> r->0@ == utf8_decode(b@)->0,
        b@.len() == 0 ==> r is Some && r->0@.len() == 0,
{
    String::from_utf8(b).ok()
}

proof fn lemma_varint_len(s: Seq<u8>, i: nat)
    requires
        varint_scan(s, i) is Ok,
    ensures
        i < varint_scan(s, i)->Ok_0 <= s.len(),
    decreases 10 - i,
{
    if i < 10 && i < s.len() && s[i as int] >= 128 {
        lemma_varint_len(s, i + 1);
    }
}

/// A varint that decodes takes at least one byte and no more than there are.
pub proof fn lemma_varint_bounds(s: Seq<u8>)
    ensures
        varint(s) matches Ok((_, n)) ==> 1 <= n <= s.len(),
{
    if varint_scan(s, 0) is Ok {
        lemma_varint_len(s, 0);
    }
}

proof fn lemma_pow128_bound(n: nat)
    requires
        n <= 10,
    ensures
        1 <= pow128(n) <= pow128(10),
        pow128(10) == 0x40_0000_0000_0000_0000,
    decreases 10 - n,
{
    reveal_with_fuel(pow128, 11);
    if n < 10 {
        lemma_pow128_bound(n + 1);
    }
}

proof fn lemma_varint_sum_bound(s: Seq<u8>, n: nat)
    requires
        n <= s.len(),
    ensures
        varint_sum(s, n) < pow128(n),
    decreases n,
{
    if n > 0 {
        lemma_varint_sum_bound(s, (n - 1) as nat);
        let a = varint_sum(s, (n - 1) as nat);
        let p = pow128((n - 1) as nat);
        let d = (s[n - 1] % 128) as nat;
        assert(a + d * p < 128 * p) by (nonlinear_arith)
            requires
                a < p,
                d <= 127,
        ;
    }
}

/// A buffer of wire data, a position in it, and a limit that the position may
/// not pass: the end of the message being read.
#[derive(Debug)]
pub struct Reader {
    data: Vec<u8>,
    pos: usize,
    limit: usize,
}

impl Reader {
    /// The whole buffer.
    pub closed spec fn data(&self) -> Seq<u8> {
        self.data@
    }

    /// The position of the next byte to read.
    pub closed spec fn pos(&self) -> nat {
        self.pos as nat
    }

    /// The end of the message being read.
    pub closed spec fn limit(&self) -> nat {
        self.limit as nat
    }

    /// The position lies within the limit, and the limit within the buffer.
    pub open spec fn wf(&self) -> bool {
        self.pos() <= self.limit() <= self.data().len()
    }

    /// The bytes that are left before the limit.
    pub open spec fn rest(&self) -> Seq<u8> {
        self.data().subrange(self.pos() as int, self.limit() as int)
    }

    /// The reader was moved on by `n` bytes and is otherwise as `old` was.
    pub open spec fn advanced(&self, old: Reader, n: nat) -> bool {
        &&& self.wf()
        &&& self.data() == old.data()
        &&& self.limit() == old.limit()
        &&& self.pos() == old.pos() + n
    }

    /// A reader at the start of `data`, limited to its end.
    pub fn new(data: Vec<u8>) -> (r: Reader)
        ensures
            r.wf(),
            r.data() == data@,
            r.pos() == 0,
            r.limit() == data@.len(),
    {
        let limit = data.len();
        Reader { data, pos: 0, limit }
    }

    /// The position of the next byte to read.
    pub fn position(&self) -> (r: usize)
        ensures
            r == self.pos(),
    {
        self.pos
    }

    /// Whether the limit has been reached.
    pub fn eof(&self) -> (r: bool)
        requires
            self.wf(),
        ensures
            r == (self.rest().len() == 0),
    {
        self.pos == self.limit
    }

    /// Reads a varint and keeps its low 64 bits.
    pub fn read_raw_varint64(&mut self) -> (r: core::result::Result<u64, StreamError>)
        requires
            old(self).wf(),
        ensures
            final(self).wf(),
            final(self).data() == old(self).data(),
            final(self).limit() == old(self).limit(),
            match varint(old(self).rest()) {
                Ok((v, n)) => r == Ok::<u64, StreamError>(v) && final(self).advanced(*old(self), n),
                Err(e) => r == Err::<u64, StreamError>(e),
            },
    {
        let ghost s = self.rest();
        let mut acc: u128 = 0;
        let mut pw: u128 = 1;
        let mut i: usize = 0;
        while i < 10
            invariant
                self.wf(),
                *self == *old(self),
                s == self.rest(),
                i <= 10,
                acc == varint_sum(s, i as nat),
                pw == pow128(i as nat),
                i <= s.len(),
                varint_scan(s, 0) == varint_scan(s, i as nat),
            decreases 10 - i,
        {
            if i >= self.limit - self.pos {
                return Err(StreamError::Truncated);
            }
            let b = self.data[self.pos + i];
            assert(b == s[i as int]);
            proof {
                lemma_varint_sum_bound(s, i as nat);
                lemma_pow128_bound(i as nat);
                lemma_pow128_bound((i + 1) as nat);
                assert(acc + (b % 128) as nat * pw < 128 * pw) by (nonlinear_arith)
                    requires
                        acc < pw,
                        (b % 128) as nat <= 127,
                ;
            }
            acc = acc + (b % 128) as u128 * pw;
            if b < 128 {
                self.pos = self.pos + i + 1;
                return Ok((acc % 0x1_0000_0000_0000_0000) as u64);
            }
            pw = pw * 128;
            i = i + 1;
        }
        Err(StreamError::IncorrectVarint)
    }
    /// Reads a varint and keeps its low 32 bits.
    pub fn read_raw_varint32(&mut self) -> (r: core::result::Result<u32, StreamError>)
        requires
            old(self).wf(),
        ensures
            final(self).wf(),
            final(self).data() == old(self).data(),
            final(self).limit() == old(self).limit(),
            match varint(old(self).rest()) {
                Ok((v, n)) => r == Ok::<u32, StreamError>(v as u32) && final(self).advanced(*old(self), n),
                Err(e) => r == Err::<u32, StreamError>(e),
            },
    {
        let v = self.read_raw_varint64()?;
        Ok(v as u32)
    }

    /// Reads a tag: a field number and a wire type.
    pub fn read_tag(&mut self) -> (r: core::result::Result<(u32, WireType), StreamError>)
        requires
            old(self).wf(),
        ensures
            final(self).wf(),
            final(self).data() == old(self).data(),
            final(self).limit() == old(self).limit(),
            match tag_at(old(self).rest()) {
                Ok((f, w, n)) => r == Ok::<(u32, WireType), StreamError>((f, w))
                    && final(self).advanced(*old(self), n) && n >= 1,
                Err(e) => r == Err::<(u32, WireType), StreamError>(e),
            },
    {
        proof {
            reveal_with_fuel(varint_scan, 11);
        }
        let v = self.read_raw_varint32()?;
        match WireType::new(v % 8) {
            Some(w) => {
                if v / 8 == 0 {
                    Err(StreamError::IncorrectTag(v))
                } else {
                    Ok((v / 8, w))
                }
            },
            None => Err(StreamError::IncorrectTag(v)),
        }
    }

    /// Reads four little-endian bytes.
    pub fn read_fixed32(&mut self) -> (r: core::result::Result<u32, StreamError>)
        requires
            old(self).wf(),
        ensures
            final(self).wf(),
            final(self).data() == old(self).data(),
            final(self).limit() == old(self).limit(),
            match fixed_at(old(self).rest(), 4) {
                Ok(b) => r == Ok::<u32, StreamError>(le32(b)) && final(self).advanced(*old(self), 4),
                Err(e) => r == Err::<u32, StreamError>(e),
            },
    {
        if self.limit - self.pos < 4 {
            return Err(StreamError::Truncated);
        }
        let p = self.pos;
        let v = self.data[p] as u32 + self.data[p + 1] as u32 * 0x100 + self.data[p + 2] as u32
            * 0x1_0000 + self.data[p + 3] as u32 * 0x100_0000;
        self.pos = p + 4;
        Ok(v)
    }

    /// Reads eight little-endian bytes.
    pub fn read_fixed64(&mut self) -> (r: core::result::Result<u64, StreamError>)
        requires
            old(self).wf(),
        ensures
            final(self).wf(),
            final(self).data() == old(self).data(),
            final(self).limit() == old(self).limit(),
            match fixed_at(old(self).rest(), 8) {
                Ok(b) => r == Ok::<u64, StreamError>(le64(b)) && final(self).advanced(*old(self), 8),
                Err(e) => r == Err::<u64, StreamError>(e),
            },
    {
        if self.limit - self.pos < 8 {
            return Err(StreamError::Truncated);
        }
        let ghost b = self.rest().subrange(0, 8);
        let lo = self.read_fixed32()?;
        let hi = self.read_fixed32()?;
        assert(old(self).rest().subrange(4, 8) == b.subrange(4, 8));
        Ok(lo as u64 + hi as u64 * 0x1_0000_0000)
    }

    /// Reads a varint length and then that many bytes.
    pub fn read_bytes(&mut self) -> (r: core::result::Result<Vec<u8>, StreamError>)
        requires
            old(self).wf(),
        ensures
            final(self).wf(),
            final(self).data() == old(self).data(),
            final(self).limit() == old(self).limit(),
            match delimited_at(old(self).rest()) {
                Ok((b, n)) => r is Ok && r->Ok_0@ == b && final(self).advanced(*old(self), n),
                Err(e) => r == Err::<Vec<u8>, StreamError>(e),
            },
    {
        let len = self.read_raw_varint64()?;
        if len > (self.limit - self.pos) as u64 {
            return Err(StreamError::Truncated);
        }
        let len = len as usize;
        let start = self.pos;
        let mut out: Vec<u8> = Vec::with_capacity(len);
        let mut i: usize = 0;
        while i < len
            invariant
                self.wf(),
                start == self.pos,
                start + len <= self.limit,
                i <= len,
                out@ == self.data().subrange(start as int, start + i),
            decreases len - i,
        {
            out.push(self.data[start + i]);
            i = i + 1;
            assert(out@ =~= self.data().subrange(start as int, start + i));
        }
        self.pos = start + len;
        assert(out@ =~= old(self).rest().subrange(
            (start - old(self).pos()) as int,
            (start - old(self).pos()) + len,
        ));
        Ok(out)
    }

    /// Reads a varint length and then that many bytes of UTF-8 text.
    pub fn read_string(&mut self) -> (r: core::result::Result<String, StreamError>)
        requires
            old(self).wf(),
        ensures
            final(self).wf(),
            final(self).data() == old(self).data(),
            final(self).limit() == old(self).limit(),
            match delimited_at(old(self).rest()) {
                Ok((b, n)) => match utf8_decode(b) {
                    Some(c) => r is Ok && r->Ok_0@ == c && final(self).advanced(*old(self), n),
                    None => r == Err::<String, StreamError>(StreamError::Utf8),
                },
                Err(e) => r == Err::<String, StreamError>(e),
            },
    {
        let b = self.read_bytes()?;
        match string_from_utf8(b) {
            Some(s) => Ok(s),
            None => Err(StreamError::Utf8),
        }
    }

    /// Narrows the limit to the next `len` bytes, and hands back the limit
    /// that was in force, for `pop_limit`.
    pub fn push_limit(&mut self, len: u64) -> (r: core::result::Result<usize, StreamError>)
        requires
            old(self).wf(),
        ensures
            final(self).wf(),
            final(self).data() == old(self).data(),
            final(self).pos() == old(self).pos(),
            len <= old(self).rest().len() ==> r is Ok && r->Ok_0 == old(self).limit()
                && final(self).limit() == old(self).pos() + len,
            len > old(self).rest().len() ==> r == Err::<usize, StreamError>(
                StreamError::LimitOverrun,
            ) && final(self).limit() == old(self).limit(),
    {
        if len > (self.limit - self.pos) as u64 {
            return Err(StreamError::LimitOverrun);
        }
        let old_limit = self.limit;
        self.limit = self.pos + len as usize;
        Ok(old_limit)
    }

    /// A copy of the bytes of the buffer from `from` up to `to`.
    pub fn bytes_between(&self, from: usize, to: usize) -> (r: Vec<u8>)
        requires
            self.wf(),
            from <= to <= self.pos(),
        ensures
            r@ == self.data().subrange(from as int, to as int),
    {
        let mut out: Vec<u8> = Vec::with_capacity(to - from);
        let mut i: usize = from;
        while i < to
            invariant
                self.wf(),
                from <= i <= to <= self.pos(),
                out@ == self.data().subrange(from as int, i as int),
            decreases to - i,
        {
            out.push(self.data[i]);
            i = i + 1;
            assert(out@ =~= self.data().subrange(from as int, i as int));
        }
        out
    }

    /// Restores a limit that `push_limit` handed back.
    pub fn pop_limit(&mut self, old_limit: usize)
        requires
            old(self).wf(),
            old(self).limit() <= old_limit <= old(self).data().len(),
        ensures
            final(self).wf(),
            final(self).data() == old(self).data(),
            final(self).pos() == old(self).pos(),
            final(self).limit() == old_limit,
    {
        self.limit = old_limit;
    }
}

} // verus!
