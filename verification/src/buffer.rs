use vstd::prelude::*;
use crate::DnsError;
use crate::text::{bytes_of_chars, chars_fit_bytes, chars_of_bytes, string_of_bytes};
use vstd::string::StringExecFns;

verus! {

/// A byte-addressed buffer with a read/write cursor.
///
/// `data()` is the buffer's contents, `cursor()` the current position.
/// Writing through the cursor either patches a byte in place or, at the very
/// end, extends the buffer; a buffer that `always_writable()` never refuses
/// a write.
pub trait PacketBuffer: Sized {
    spec fn data(&self) -> Seq<u8>;

    spec fn cursor(&self) -> int;

    spec fn wf(&self) -> bool;

    /// Whether a write through the cursor can ever fail for this shape.
    spec fn always_writable() -> bool;

    fn pos(&self) -> (r: usize)
        requires
            self.wf(),
        ensures
            r == self.cursor(),
            0 <= self.cursor() <= self.data().len(),
    ;

    fn seek(&mut self, p: usize) -> (r: Result<(), DnsError>)
        requires
            old(self).wf(),
        ensures
            final(self).wf(),
            final(self).data() == old(self).data(),
            r is Ok <==> p <= old(self).data().len(),
            r is Ok ==> final(self).cursor() == p,
            r is Err ==> final(self).cursor() == old(self).cursor(),
    ;

    fn step(&mut self, n: usize) -> (r: Result<(), DnsError>)
        requires
            old(self).wf(),
        ensures
            final(self).wf(),
            final(self).data() == old(self).data(),
            r is Ok <==> old(self).cursor() + n <= old(self).data().len(),
            r is Ok ==> final(self).cursor() == old(self).cursor() + n,
            r is Err ==> final(self).cursor() == old(self).cursor(),
    ;

    fn read_u8(&mut self) -> (r: Result<u8, DnsError>)
        requires
            old(self).wf(),
        ensures
            final(self).wf(),
            final(self).data() == old(self).data(),
            r is Ok <==> 0 <= old(self).cursor() < old(self).data().len(),
            r matches Ok(v) ==> v == old(self).data()[old(self).cursor()] && final(self).cursor()
                == old(self).cursor() + 1,
            r is Err ==> final(self).cursor() == old(self).cursor(),
    ;

    fn write_u8(&mut self, v: u8) -> (r: Result<(), DnsError>)
        requires
            old(self).wf(),
        ensures
            final(self).wf(),
            Self::always_writable() ==> r is Ok,
            r is Ok ==> final(self).cursor() == old(self).cursor() + 1 && final(self).data() == (
            if old(self).cursor() < old(self).data().len() {
                old(self).data().update(old(self).cursor(), v)
            } else {
                old(self).data().push(v)
            }),
            r is Err ==> final(self).data() == old(self).data() && final(self).cursor() == old(
                self,
            ).cursor(),
    ;

    /// Back-patches a big-endian 16-bit value at an absolute position,
    /// leaving the cursor alone.
    fn set_u16(&mut self, p: usize, v: u16) -> (r: Result<(), DnsError>)
        requires
            old(self).wf(),
        ensures
            final(self).wf(),
            final(self).cursor() == old(self).cursor(),
            r is Ok <==> p + 2 <= old(self).data().len(),
            r is Ok ==> final(self).data() == old(self).data().update(p as int, (v / 256) as u8)
                .update(p + 1, (v % 256) as u8),
            r is Err ==> final(self).data() == old(self).data(),
    ;

    /// A copy of `len` bytes starting at `start`.
    fn get_range(&self, start: usize, len: usize) -> (r: Result<Vec<u8>, DnsError>)
        requires
            self.wf(),
        ensures
            r is Ok <==> start + len <= self.data().len(),
            r matches Ok(v) ==> v@ == self.data().subrange(start as int, start + len),
    ;
}

/// The number of bytes a UDP datagram buffer holds.
pub const UDP_BUFFER_SIZE: usize = 512;

/// A fixed 512-byte buffer, the shape a UDP datagram is read from.
pub struct BytePacketBuffer {
    pub buf: Vec<u8>,
    pub pos: usize,
}

impl BytePacketBuffer {
    pub fn new() -> (r: BytePacketBuffer)
        ensures
            r.wf(),
            r.data().len() == 512,
            r.data() == Seq::new(512, |i: int| 0u8),
            r.cursor() == 0,
    {
        let buf: Vec<u8> = vec![0u8; UDP_BUFFER_SIZE];
        proof {
            assert(buf@ =~= Seq::new(512, |i: int| 0u8));
        }
        BytePacketBuffer { buf, pos: 0 }
    }

    /// Copies a received datagram into the front of the buffer; the rest
    /// stays zero. Refused when the datagram cannot fit.
    pub fn load(&mut self, bytes: &[u8]) -> (r: Result<(), DnsError>)
        requires
            old(self).wf(),
        ensures
            final(self).wf(),
            r is Ok <==> bytes@.len() <= 512,
            r is Ok ==> final(self).data() == bytes@ + old(self).data().skip(bytes@.len() as int)
                && final(self).cursor() == 0,
            r is Err ==> *final(self) == *old(self),
    {
        if bytes.len() > UDP_BUFFER_SIZE {
            return Err(DnsError::InvalidInput);
        }
        let mut i: usize = 0;
        while i < bytes.len()
            invariant
                bytes@.len() <= 512,
                i <= bytes@.len(),
                self.buf@.len() == 512,
                forall|j: int| 0 <= j < i ==> self.buf@[j] == bytes@[j],
                forall|j: int| i <= j < 512 ==> self.buf@[j] == old(self).buf@[j],
                self.pos == old(self).pos,
            decreases bytes@.len() - i,
        {
            self.buf.set(i, bytes[i]);
            i = i + 1;
        }
        self.pos = 0;
        proof {
            assert(self.buf@ =~= bytes@ + old(self).buf@.skip(bytes@.len() as int));
        }
        Ok(())
    }
}

impl PacketBuffer for BytePacketBuffer {
    open spec fn data(&self) -> Seq<u8> {
        self.buf@
    }

    open spec fn cursor(&self) -> int {
        self.pos as int
    }

    open spec fn wf(&self) -> bool {
        self.buf@.len() == 512 && self.pos <= 512
    }

    open spec fn always_writable() -> bool {
        false
    }

    fn pos(&self) -> usize {
        self.pos
    }

    fn seek(&mut self, p: usize) -> Result<(), DnsError> {
        if p <= self.buf.len() {
            self.pos = p;
            Ok(())
        } else {
            Err(DnsError::Io)
        }
    }

    fn step(&mut self, n: usize) -> Result<(), DnsError> {
        if n <= self.buf.len() - self.pos {
            self.pos = self.pos + n;
            Ok(())
        } else {
            Err(DnsError::Io)
        }
    }

    fn read_u8(&mut self) -> Result<u8, DnsError> {
        if self.pos < self.buf.len() {
            let v = self.buf[self.pos];
            self.pos = self.pos + 1;
            Ok(v)
        } else {
            Err(DnsError::Io)
        }
    }

    fn write_u8(&mut self, v: u8) -> Result<(), DnsError> {
        if self.pos < self.buf.len() {
            self.buf.set(self.pos, v);
            self.pos = self.pos + 1;
            Ok(())
        } else {
            Err(DnsError::Io)
        }
    }

    fn set_u16(&mut self, p: usize, v: u16) -> Result<(), DnsError> {
        if p < self.buf.len() && p + 1 < self.buf.len() {
            self.buf.set(p, (v / 256) as u8);
            self.buf.set(p + 1, (v % 256) as u8);
            Ok(())
        } else {
            Err(DnsError::Io)
        }
    }

    fn get_range(&self, start: usize, len: usize) -> Result<Vec<u8>, DnsError> {
        copy_range(&self.buf, start, len)
    }
}

/// A growable buffer, used to assemble outbound messages and to parse
/// length-framed stream payloads.
pub struct VectorPacketBuffer {
    pub buffer: Vec<u8>,
    pub pos: usize,
}

impl VectorPacketBuffer {
    pub fn new() -> (r: VectorPacketBuffer)
        ensures
            r.wf(),
            r.data() == Seq::<u8>::empty(),
            r.cursor() == 0,
    {
        let buffer: Vec<u8> = Vec::new();
        proof {
            assert(buffer@ =~= Seq::<u8>::empty());
        }
        VectorPacketBuffer { buffer, pos: 0 }
    }

    /// A buffer holding the given bytes, cursor at the start: the shape a
    /// framed stream payload is parsed from.
    pub fn from_bytes(bytes: Vec<u8>) -> (r: VectorPacketBuffer)
        ensures
            r.wf(),
            r.data() == bytes@,
            r.cursor() == 0,
    {
        VectorPacketBuffer { buffer: bytes, pos: 0 }
    }
}

impl PacketBuffer for VectorPacketBuffer {
    open spec fn data(&self) -> Seq<u8> {
        self.buffer@
    }

    open spec fn cursor(&self) -> int {
        self.pos as int
    }

    open spec fn wf(&self) -> bool {
        self.pos <= self.buffer@.len()
    }

    open spec fn always_writable() -> bool {
        true
    }

    fn pos(&self) -> usize {
        self.pos
    }

    fn seek(&mut self, p: usize) -> Result<(), DnsError> {
        if p <= self.buffer.len() {
            self.pos = p;
            Ok(())
        } else {
            Err(DnsError::Io)
        }
    }

    fn step(&mut self, n: usize) -> Result<(), DnsError> {
        if n <= self.buffer.len() - self.pos {
            self.pos = self.pos + n;
            Ok(())
        } else {
            Err(DnsError::Io)
        }
    }

    fn read_u8(&mut self) -> Result<u8, DnsError> {
        if self.pos < self.buffer.len() {
            let v = self.buffer[self.pos];
            self.pos = self.pos + 1;
            Ok(v)
        } else {
            Err(DnsError::Io)
        }
    }

    fn write_u8(&mut self, v: u8) -> Result<(), DnsError> {
        if self.pos < self.buffer.len() {
            self.buffer.set(self.pos, v);
            self.pos = self.pos + 1;
        } else {
            self.buffer.push(v);
            self.pos = self.buffer.len();
        }
        Ok(())
    }

    fn set_u16(&mut self, p: usize, v: u16) -> Result<(), DnsError> {
        if p < self.buffer.len() && p + 1 < self.buffer.len() {
            self.buffer.set(p, (v / 256) as u8);
            self.buffer.set(p + 1, (v % 256) as u8);
            Ok(())
        } else {
            Err(DnsError::Io)
        }
    }

    fn get_range(&self, start: usize, len: usize) -> Result<Vec<u8>, DnsError> {
        copy_range(&self.buffer, start, len)
    }
}

fn copy_range(buf: &Vec<u8>, start: usize, len: usize) -> (r: Result<Vec<u8>, DnsError>)
    ensures
        r is Ok <==> start + len <= buf@.len(),
        r matches Ok(v) ==> v@ == buf@.subrange(start as int, start + len),
{
    if len > buf.len() || start > buf.len() - len {
        return Err(DnsError::Io);
    }
    let mut out: Vec<u8> = Vec::new();
    let mut i: usize = 0;
    while i < len
        invariant
            start + len <= buf@.len(),
            start + len <= usize::MAX,
            i <= len,
            out@ == buf@.subrange(start as int, start + i),
        decreases len - i,
    {
        out.push(buf[start + i]);
        i = i + 1;
        proof {
            assert(out@ =~= buf@.subrange(start as int, start + i));
        }
    }
    Ok(out)
}

/// The two big-endian bytes of a 16-bit value.
pub open spec fn u16_bytes(v: u16) -> Seq<u8> {
    seq![(v / 256) as u8, (v % 256) as u8]
}

/// The four big-endian bytes of a 32-bit value.
pub open spec fn u32_bytes(v: u32) -> Seq<u8> {
    u16_bytes((v / 65536) as u16) + u16_bytes((v % 65536) as u16)
}

/// The 16-bit value at `pos`, and the position after it.
pub open spec fn spec_parse_u16(data: Seq<u8>, pos: int) -> Option<(u16, int)> {
    if 0 <= pos && pos + 2 <= data.len() {
        Some(((data[pos] as u16 * 256 + data[pos + 1] as u16) as u16, pos + 2))
    } else {
        None
    }
}

/// The 32-bit value at `pos`, and the position after it.
pub open spec fn spec_parse_u32(data: Seq<u8>, pos: int) -> Option<(u32, int)> {
    if 0 <= pos && pos + 4 <= data.len() {
        Some(
            ((data[pos] as u32 * 0x1000000 + data[pos + 1] as u32 * 0x10000 + data[pos + 2] as u32
                * 256 + data[pos + 3] as u32) as u32, pos + 4),
        )
    } else {
        None
    }
}

/// Reads a big-endian 16-bit value, advancing the cursor.
pub fn read_u16<T: PacketBuffer>(buf: &mut T) -> (r: Result<u16, DnsError>)
    requires
        old(buf).wf(),
    ensures
        final(buf).wf(),
        final(buf).data() == old(buf).data(),
        match spec_parse_u16(old(buf).data(), old(buf).cursor()) {
            Some((v, p)) => r == Ok::<u16, DnsError>(v) && final(buf).cursor() == p,
            None => r is Err,
        },
{
    let hi = buf.read_u8()?;
    let lo = buf.read_u8()?;
    Ok(hi as u16 * 256 + lo as u16)
}

/// Reads a big-endian 32-bit value, advancing the cursor.
pub fn read_u32<T: PacketBuffer>(buf: &mut T) -> (r: Result<u32, DnsError>)
    requires
        old(buf).wf(),
    ensures
        final(buf).wf(),
        final(buf).data() == old(buf).data(),
        match spec_parse_u32(old(buf).data(), old(buf).cursor()) {
            Some((v, p)) => r == Ok::<u32, DnsError>(v) && final(buf).cursor() == p,
            None => r is Err,
        },
{
    let hi = read_u16(buf)?;
    let lo = read_u16(buf)?;
    Ok(hi as u32 * 65536 + lo as u32)
}

/// Appends a big-endian 16-bit value at the end of the buffer.
pub fn write_u16<T: PacketBuffer>(buf: &mut T, v: u16) -> (r: Result<(), DnsError>)
    requires
        old(buf).wf(),
        old(buf).cursor() == old(buf).data().len(),
    ensures
        final(buf).wf(),
        T::always_writable() ==> r is Ok,
        r is Ok ==> final(buf).data() == old(buf).data() + u16_bytes(v) && final(buf).cursor()
            == final(buf).data().len(),
{
    buf.write_u8((v / 256) as u8)?;
    buf.write_u8((v % 256) as u8)?;
    proof {
        assert(old(buf).data().push((v / 256) as u8).push((v % 256) as u8) =~= old(buf).data()
            + u16_bytes(v));
    }
    Ok(())
}

/// Appends a big-endian 32-bit value at the end of the buffer.
pub fn write_u32<T: PacketBuffer>(buf: &mut T, v: u32) -> (r: Result<(), DnsError>)
    requires
        old(buf).wf(),
        old(buf).cursor() == old(buf).data().len(),
    ensures
        final(buf).wf(),
        T::always_writable() ==> r is Ok,
        r is Ok ==> final(buf).data() == old(buf).data() + u32_bytes(v) && final(buf).cursor()
            == final(buf).data().len(),
{
    write_u16(buf, (v / 65536) as u16)?;
    write_u16(buf, (v % 65536) as u16)?;
    proof {
        assert(old(buf).data() + u16_bytes((v / 65536) as u16) + u16_bytes((v % 65536) as u16) =~= old(
            buf,
        ).data() + u32_bytes(v));
    }
    Ok(())
}

/// Parsing a 16-bit value right after its two bytes were laid down yields the
/// value back.
pub proof fn lemma_parse_u16_roundtrip(prefix: Seq<u8>, v: u16, rest: Seq<u8>)
    ensures
        spec_parse_u16(prefix + u16_bytes(v) + rest, prefix.len() as int) == Some(
            (v, prefix.len() as int + 2),
        ),
{
    let data = prefix + u16_bytes(v) + rest;
    assert(data[prefix.len() as int] == (v / 256) as u8);
    assert(data[prefix.len() as int + 1] == (v % 256) as u8);
}

/// Parsing a 32-bit value right after its four bytes were laid down yields
/// the value back.
pub proof fn lemma_parse_u32_roundtrip(prefix: Seq<u8>, v: u32, rest: Seq<u8>)
    ensures
        spec_parse_u32(prefix + u32_bytes(v) + rest, prefix.len() as int) == Some(
            (v, prefix.len() as int + 4),
        ),
{
    let data = prefix + u32_bytes(v) + rest;
    assert(data[prefix.len() as int] == ((v / 65536) as u16 / 256) as u8);
    assert(data[prefix.len() as int + 1] == ((v / 65536) as u16 % 256) as u8);
    assert(data[prefix.len() as int + 2] == ((v % 65536) as u16 / 256) as u8);
    assert(data[prefix.len() as int + 3] == ((v % 65536) as u16 % 256) as u8);
}


/// How many pointer jumps a single name may follow while being decoded.
pub const MAX_JUMPS: usize = 5;

/// The index of the first dot in a name, or the name's length when there is
/// none.
pub open spec fn first_dot(n: Seq<u8>) -> int
    decreases n.len(),
{
    if n.len() == 0 {
        0
    } else if n[0] == 46 {
        0
    } else {
        1 + first_dot(n.drop_first())
    }
}

pub proof fn lemma_first_dot_le(n: Seq<u8>)
    ensures
        0 <= first_dot(n) <= n.len(),
    decreases n.len(),
{
    if n.len() == 0 {
    } else if n[0] == 46 {
    } else {
        lemma_first_dot_le(n.drop_first());
    }
}

/// `first_dot` is exactly the index of the first 46-byte, found by scanning.
pub proof fn lemma_first_dot_at(n: Seq<u8>, m: int)
    requires
        0 <= m <= n.len(),
        forall|k: int| 0 <= k < m ==> n[k] != 46,
        m == n.len() || n[m] == 46,
    ensures
        first_dot(n) == m,
    decreases m,
{
    if m == 0 {
    } else {
        assert(n[0] != 46);
        let t = n.drop_first();
        assert forall|k: int| 0 <= k < m - 1 implies t[k] != 46 by {
            assert(t[k] == n[k + 1]);
        }
        if m < n.len() {
            assert(t[m - 1] == n[m]);
        }
        lemma_first_dot_at(t, m - 1);
    }
}

/// Every label of the dotted name fits in 63 bytes.
pub open spec fn labels_wf(n: Seq<u8>) -> bool
    decreases n.len(),
    via labels_wf_dec
{
    if n.len() == 0 {
        true
    } else {
        let i = first_dot(n);
        i <= 63 && (if i < n.len() {
            labels_wf(n.skip(i + 1))
        } else {
            true
        })
    }
}

#[via_fn]
proof fn labels_wf_dec(n: Seq<u8>) {
    lemma_first_dot_le(n);
}

/// The wire form of a dotted name: each non-empty label length-prefixed, in
/// order, without the closing zero byte. Empty labels vanish, so `.` and the
/// empty name both encode to nothing.
pub open spec fn labels_bytes(n: Seq<u8>) -> Seq<u8>
    decreases n.len(),
    via labels_bytes_dec
{
    if n.len() == 0 {
        Seq::empty()
    } else {
        let i = first_dot(n);
        let rest = if i < n.len() {
            labels_bytes(n.skip(i + 1))
        } else {
            Seq::<u8>::empty()
        };
        if i == 0 {
            rest
        } else {
            seq![i as u8] + n.subrange(0, i) + rest
        }
    }
}

#[via_fn]
proof fn labels_bytes_dec(n: Seq<u8>) {
    lemma_first_dot_le(n);
}

/// A name the wire format can carry: labels of at most 63 bytes, at most 255
/// bytes encoded.
pub open spec fn qname_encodable(n: Seq<u8>) -> bool {
    labels_wf(n) && labels_bytes(n).len() <= 255
}

/// The full wire form of a name: its labels and the closing zero byte.
pub open spec fn spec_qname(n: Seq<u8>) -> Seq<u8> {
    labels_bytes(n).push(0)
}

/// A string the wire format can carry as a name.
pub open spec fn qname_encodable_chars(s: Seq<char>) -> bool {
    chars_fit_bytes(s) && qname_encodable(bytes_of_chars(s))
}

/// The name starting at `pos`, following compression pointers, and the
/// position right after the name's first pointer or its zero byte. At most
/// `jumps` pointers may be followed.
pub open spec fn spec_parse_name(data: Seq<u8>, pos: int, jumps: nat) -> Option<(Seq<u8>, int)>
    decreases jumps, data.len() - pos,
{
    if !(0 <= pos < data.len()) {
        None
    } else {
        let len = data[pos];
        if len == 0 {
            Some((Seq::empty(), pos + 1))
        } else if len >= 192 {
            if jumps == 0 {
                None
            } else if pos + 2 > data.len() {
                None
            } else {
                let target = (len - 192) * 256 + data[pos + 1];
                if target >= data.len() {
                    None
                } else {
                    match spec_parse_name(data, target as int, (jumps - 1) as nat) {
                        Option::None => None,
                        Option::Some((name, _)) => Some((name, pos + 2)),
                    }
                }
            }
        } else {
            if pos + 1 + len > data.len() {
                None
            } else {
                let label = data.subrange(pos + 1, pos + 1 + len);
                match spec_parse_name(data, pos + 1 + len, jumps) {
                    Option::None => None,
                    Option::Some((rest, p2)) => Some(
                        (
                            if rest.len() == 0 {
                                label
                            } else {
                                label + seq![46u8] + rest
                            },
                            p2,
                        ),
                    ),
                }
            }
        }
    }
}

/// Reads the raw bytes of the dotted name at the cursor, following
/// compression pointers.
fn parse_name_bytes<T: PacketBuffer>(buf: &mut T, jumps: usize) -> (r: Result<Vec<u8>, DnsError>)
    requires
        old(buf).wf(),
    ensures
        final(buf).wf(),
        final(buf).data() == old(buf).data(),
        match spec_parse_name(old(buf).data(), old(buf).cursor(), jumps as nat) {
            Some((name, p2)) => r matches Ok(v) && v@ == name && final(buf).cursor() == p2,
            None => r is Err,
        },
    decreases jumps, buf.data().len() - buf.cursor(),
{
    let len = buf.read_u8()?;
    if len == 0 {
        let empty: Vec<u8> = Vec::new();
        proof {
            assert(empty@ =~= Seq::<u8>::empty());
        }
        return Ok(empty);
    }
    if len >= 192 {
        if jumps == 0 {
            return Err(DnsError::LimitsExceeded);
        }
        let b2 = buf.read_u8()?;
        let target = (len as usize - 192) * 256 + b2 as usize;
        let cur = buf.pos();
        buf.seek(target)?;
        let name = parse_name_bytes(buf, jumps - 1)?;
        buf.seek(cur)?;
        return Ok(name);
    }
    // an ordinary label of `len` bytes
    let ghost c1 = buf.cursor();
    let mut label: Vec<u8> = Vec::new();
    let mut k: usize = 0;
    while k < len as usize
        invariant
            buf.wf(),
            k <= len as usize,
            1 <= len < 192,
            buf.data() == old(buf).data(),
            0 <= old(buf).cursor() < old(buf).data().len(),
            len == old(buf).data()[old(buf).cursor()],
            c1 == old(buf).cursor() + 1,
            buf.cursor() == c1 + k,
            c1 + k <= buf.data().len(),
            label@ == buf.data().subrange(c1, c1 + k),
        decreases len as usize - k,
    {
        let b = match buf.read_u8() {
            Ok(b) => b,
            Err(e) => {
                proof {
                    assert(c1 + k >= buf.data().len());
                }
                return Err(e);
            },
        };
        label.push(b);
        k = k + 1;
        proof {
            assert(label@ =~= buf.data().subrange(c1, c1 + k));
        }
    }
    let rest = parse_name_bytes(buf, jumps)?;
    if rest.len() == 0 {
        Ok(label)
    } else {
        label.push(46);
        let mut rest = rest;
        label.append(&mut rest);
        Ok(label)
    }
}

/// Decodes the name at the cursor and appends it, as text, to `outstr`.
/// A pointer loop deeper than `MAX_JUMPS` or a truncated name fails.
pub fn read_qname<T: PacketBuffer>(buf: &mut T, outstr: &mut String) -> (r: Result<(), DnsError>)
    requires
        old(buf).wf(),
    ensures
        final(buf).wf(),
        final(buf).data() == old(buf).data(),
        match spec_parse_name(old(buf).data(), old(buf).cursor(), MAX_JUMPS as nat) {
            Some((name, p2)) => r is Ok && final(outstr)@ == old(outstr)@ + chars_of_bytes(name)
                && final(buf).cursor() == p2,
            None => r is Err,
        },
{
    let bytes = parse_name_bytes(buf, MAX_JUMPS)?;
    let s = string_of_bytes(bytes.as_slice());
    outstr.append(s.as_str());
    Ok(())
}

/// Appends the label encoding of `b` from `start` on to `out`, keeping the
/// running total within the 255-byte name limit.
fn encode_labels(b: &Vec<u8>, start: usize, out: &mut Vec<u8>) -> (r: Result<(), DnsError>)
    requires
        start <= b@.len(),
        old(out)@.len() <= 255,
    ensures
        r is Ok <==> labels_wf(b@.skip(start as int)) && old(out)@.len() + labels_bytes(
            b@.skip(start as int),
        ).len() <= 255,
        r is Ok ==> final(out)@ == old(out)@ + labels_bytes(b@.skip(start as int))
            && final(out)@.len() <= 255,
    decreases b@.len() - start,
{
    let ghost tail = b@.skip(start as int);
    if start >= b.len() {
        proof {
            assert(tail =~= Seq::<u8>::empty());
            assert(old(out)@ + labels_bytes(tail) =~= old(out)@);
        }
        return Ok(());
    }
    let mut j = start;
    while j < b.len() && b[j] != 46
        invariant
            start <= j <= b@.len(),
            forall|k: int| start <= k < j ==> b@[k] != 46,
        decreases b@.len() - j,
    {
        j = j + 1;
    }
    proof {
        assert forall|k: int| 0 <= k < j - start implies tail[k] != 46 by {
            assert(tail[k] == b@[start + k]);
        }
        if j < b@.len() {
            assert(tail[j - start] == b@[j as int]);
        }
        lemma_first_dot_at(tail, j - start);
    }
    let lab_len = j - start;
    if lab_len > 63 {
        return Err(DnsError::InvalidInput);
    }
    if lab_len > 0 {
        if 255 - out.len() < lab_len + 1 {
            return Err(DnsError::InvalidInput);
        }
        out.push(lab_len as u8);
        let mut k = start;
        while k < j
            invariant
                start <= k <= j <= b@.len(),
                out@ == old(out)@ + seq![(j - start) as u8] + b@.subrange(
                    start as int,
                    k as int,
                ),
            decreases j - k,
        {
            out.push(b[k]);
            k = k + 1;
            proof {
                assert(out@ =~= old(out)@ + seq![(j - start) as u8] + b@.subrange(
                    start as int,
                    k as int,
                ));
            }
        }
    }
    if j < b.len() {
        let r = encode_labels(b, j + 1, out);
        proof {
            let rest = b@.skip(j + 1);
            assert(b@.skip(start as int).skip(j - start + 1) =~= rest);
            assert(tail.subrange(0, j - start) =~= b@.subrange(start as int, j as int));
            if lab_len > 0 {
                assert(old(out)@ + seq![(j - start) as u8] + b@.subrange(start as int, j as int)
                    + labels_bytes(rest) =~= old(out)@ + labels_bytes(tail));
            }
        }
        r
    } else {
        proof {
            assert(tail.subrange(0, j - start) =~= b@.subrange(start as int, j as int));
            assert(old(out)@ + seq![(j - start) as u8] + b@.subrange(start as int, j as int)
                =~= old(out)@ + labels_bytes(tail));
        }
        Ok(())
    }
}

/// The label-and-terminator encoding of a name, or the reason it cannot be
/// encoded: a character beyond one byte, a label beyond 63 bytes, or more
/// than 255 bytes in all.
pub fn encode_name(name: &str) -> (r: Result<Vec<u8>, DnsError>)
    ensures
        r is Ok <==> qname_encodable_chars(name@),
        r matches Ok(v) ==> v@ == spec_qname(bytes_of_chars(name@)),
{
    let bytes = match crate::text::bytes_of_str(name) {
        Some(v) => v,
        None => {
            return Err(DnsError::InvalidInput);
        },
    };
    let mut enc: Vec<u8> = Vec::new();
    proof {
        assert(bytes@.skip(0) =~= bytes@);
    }
    let res = encode_labels(&bytes, 0, &mut enc);
    match res {
        Ok(()) => {
            enc.push(0);
            Ok(enc)
        },
        Err(e) => Err(e),
    }
}

/// Appends bytes one after the other at the end of the buffer.
pub fn append_bytes<T: PacketBuffer>(buf: &mut T, bytes: &Vec<u8>) -> (r: Result<(), DnsError>)
    requires
        old(buf).wf(),
        old(buf).cursor() == old(buf).data().len(),
    ensures
        final(buf).wf(),
        T::always_writable() ==> r is Ok,
        r is Ok ==> final(buf).data() == old(buf).data() + bytes@
            && final(buf).cursor() == final(buf).data().len(),
{
    let mut i: usize = 0;
    while i < bytes.len()
        invariant
            buf.wf(),
            i <= bytes@.len(),
            buf.data() == old(buf).data() + bytes@.take(i as int),
            buf.cursor() == buf.data().len(),
        decreases bytes@.len() - i,
    {
        match buf.write_u8(bytes[i]) {
            Ok(()) => {},
            Err(e) => {
                return Err(e);
            },
        }
        i = i + 1;
        proof {
            assert(old(buf).data() + bytes@.take(i - 1) + seq![bytes@[i - 1]] =~= old(buf).data()
                + bytes@.take(i as int));
        }
    }
    proof {
        assert(bytes@.take(bytes@.len() as int) =~= bytes@);
    }
    Ok(())
}

/// Writes the wire form of `name` at the end of the buffer: length-prefixed
/// labels and a zero byte, without compression.
pub fn write_qname<T: PacketBuffer>(buf: &mut T, name: &str) -> (r: Result<(), DnsError>)
    requires
        old(buf).wf(),
        old(buf).cursor() == old(buf).data().len(),
    ensures
        final(buf).wf(),
        T::always_writable() ==> (r is Ok <==> qname_encodable_chars(name@)),
        r is Ok ==> qname_encodable_chars(name@) && final(buf).data() == old(buf).data()
            + spec_qname(bytes_of_chars(name@)) && final(buf).cursor() == final(buf).data().len(),
{
    let enc = encode_name(name)?;
    append_bytes(buf, &enc)?;
    Ok(())
}

/// The number of bytes `write_qname` emits for `name`.
pub fn qname_len(name: &str) -> (r: usize)
    requires
        qname_encodable_chars(name@),
    ensures
        r == spec_qname(bytes_of_chars(name@)).len(),
{
    let enc = match encode_name(name) {
        Ok(v) => v,
        Err(_) => {
            proof {
                assert(false);
            }
            return 0;
        },
    };
    enc.len()
}


/// Where `first_dot` points: at a dot, with none before it.
pub proof fn lemma_first_dot_spec(n: Seq<u8>)
    ensures
        0 <= first_dot(n) <= n.len(),
        first_dot(n) < n.len() ==> n[first_dot(n)] == 46,
        forall|k: int| 0 <= k < first_dot(n) ==> n[k] != 46,
    decreases n.len(),
{
    if n.len() > 0 && n[0] != 46 {
        lemma_first_dot_spec(n.drop_first());
        assert forall|k: int| 0 <= k < first_dot(n) implies n[k] != 46 by {
            if k > 0 {
                assert(n.drop_first()[k - 1] == n[k]);
            }
        }
        if first_dot(n) < n.len() {
            assert(n.drop_first()[first_dot(n) - 1] == n[first_dot(n)]);
        }
    }
}

/// A name in the canonical dotted form: no leading, trailing or doubled
/// dots. These are exactly the names that survive a trip over the wire
/// letter for letter.
pub open spec fn name_canonical(n: Seq<u8>) -> bool {
    (n.len() > 0 ==> n[0] != 46 && n[n.len() - 1] != 46) && (forall|i: int|
        0 < i < n.len() ==> !((#[trigger] n[i]) == 46 && n[i - 1] == 46))
}

/// Parsing a name right after its uncompressed wire form was laid down
/// yields the name back, for canonical names within the wire limits.
pub proof fn lemma_parse_name_roundtrip(prefix: Seq<u8>, n: Seq<u8>, rest: Seq<u8>, jumps: nat)
    requires
        qname_encodable(n),
        name_canonical(n),
    ensures
        spec_parse_name(prefix + spec_qname(n) + rest, prefix.len() as int, jumps) == Some(
            (n, prefix.len() as int + spec_qname(n).len() as int),
        ),
    decreases n.len(),
{
    let data = prefix + spec_qname(n) + rest;
    let pos = prefix.len() as int;
    lemma_first_dot_spec(n);
    if n.len() == 0 {
        assert(labels_bytes(n) =~= Seq::<u8>::empty());
        assert(data[pos] == 0);
    } else {
        let i = first_dot(n);
        assert(n[0] != 46);
        assert(i >= 1) by {
            if i == 0 {
                assert(n[0] == 46);
            }
        }
        let label = n.subrange(0, i);
        if i < n.len() {
            // an inner dot: the remainder is itself canonical and encodable
            let tail = n.skip(i + 1);
            assert(n[i] == 46);
            assert(tail.len() > 0) by {
                if i + 1 == n.len() {
                    assert(n[n.len() - 1] == 46);
                }
            }
            assert(name_canonical(tail)) by {
                assert(tail[0] != 46) by {
                    assert(tail[0] == n[i + 1]);
                    if n[i + 1] == 46 {
                        assert(n[i + 1] == 46 && n[i] == 46);
                    }
                }
                assert(tail[tail.len() - 1] == n[n.len() - 1]);
                assert forall|k: int| 0 < k < tail.len() implies !((#[trigger] tail[k]) == 46
                    && tail[k - 1] == 46) by {
                    assert(tail[k] == n[i + 1 + k]);
                    assert(tail[k - 1] == n[i + k]);
                }
            }
            assert(qname_encodable(tail)) by {
                assert(labels_wf(tail));
                assert(labels_bytes(n) == seq![i as u8] + label + labels_bytes(tail));
            }
            assert(labels_bytes(n) == seq![i as u8] + label + labels_bytes(tail));
            assert(data =~= (prefix + seq![i as u8] + label) + spec_qname(tail) + rest);
            lemma_parse_name_roundtrip(prefix + seq![i as u8] + label, tail, rest, jumps);
            // the bytes at the cursor: the label length, the label, the tail
            assert(data[pos] == i as u8);
            assert(1 <= i <= 63);
            assert(data.subrange(pos + 1, pos + 1 + i) =~= label);
            assert(pos + 1 + i <= data.len());
            let inner = spec_parse_name(data, pos + 1 + i, jumps);
            assert(inner == Some(
                (tail, (prefix + seq![i as u8] + label).len() as int + spec_qname(tail).len() as int),
            ));
            assert(label + seq![46u8] + tail =~= n);
            assert(pos + 1 + i + spec_qname(tail).len() == pos + spec_qname(n).len());
        } else {
            // no dot: one label and the terminator
            let tail = n.skip(i + 1);
            assert(labels_bytes(n) == seq![i as u8] + label + labels_bytes(
                Seq::<u8>::empty(),
            )) by {
                assert(i == n.len());
            }
            assert(labels_bytes(Seq::<u8>::empty()) =~= Seq::<u8>::empty());
            assert(label =~= n);
            assert(data[pos] == i as u8);
            assert(1 <= i <= 63);
            assert(data.subrange(pos + 1, pos + 1 + i) =~= label);
            assert(data[pos + 1 + i] == 0);
            assert(spec_parse_name(data, pos + 1 + i, jumps) == Some(
                (Seq::<u8>::empty(), pos + 1 + i + 1),
            ));
            assert(pos + 1 + i + 1 == pos + spec_qname(n).len());
        }
    }
}

} // verus!
