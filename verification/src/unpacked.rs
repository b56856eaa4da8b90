//! Unpacked traces: directions one byte each and 64-bit timing deltas, with their own binary
//! format (magic "CHAFF", version 0.1.0) and the conversion of captured packets into them with
//! millisecond deltas.

use vstd::prelude::*;

use crate::capture::{CapturedPacket, ETHERNET, LINUX_SLL, LINUX_SLL2};
pub use crate::trace::Direction;
use crate::trace::{
    from_le_u32, le_u32, le_u32_seq, lemma_le_u32_round_trip, lemma_le_u32_seq_index,
    lemma_le_u32_seq_len, push_le_u32, read_le_u32, trace_magic, trace_version,
};

verus! {

/// Errors of serialising and deserialising unpacked traces.
#[derive(Debug, Clone, PartialEq, Eq)]
pub enum TraceError {
    /// A trace's fields have mismatched lengths (directions, timing deltas, sizes).
    LengthMismatch(usize, usize, usize),
    /// An I/O error, described by its message.
    Io(String),
    /// The trace bytes start with the wrong magic bytes (the five bytes found).
    InvalidMagic(Vec<u8>),
    /// The trace bytes carry an unsupported version (the three bytes found).
    InvalidVersion(Vec<u8>),
    /// A direction byte is neither 0 (send) nor 1 (receive).
    InvalidDirection(u8),
    /// The trace bytes ended before the trace was complete.
    UnexpectedEof,
}

/// The mathematical form of a [`TraceError`].
pub enum TraceErrorView {
    LengthMismatch(usize, usize, usize),
    Io(Seq<char>),
    InvalidMagic(Seq<u8>),
    InvalidVersion(Seq<u8>),
    InvalidDirection(u8),
    UnexpectedEof,
}

impl View for TraceError {
    type V = TraceErrorView;

    open spec fn view(&self) -> TraceErrorView {
        match self {
            TraceError::LengthMismatch(a, b, c) => TraceErrorView::LengthMismatch(*a, *b, *c),
            TraceError::Io(m) => TraceErrorView::Io(m@),
            TraceError::InvalidMagic(m) => TraceErrorView::InvalidMagic(m@),
            TraceError::InvalidVersion(v) => TraceErrorView::InvalidVersion(v@),
            TraceError::InvalidDirection(b) => TraceErrorView::InvalidDirection(*b),
            TraceError::UnexpectedEof => TraceErrorView::UnexpectedEof,
        }
    }
}

/// Errors of capturing unpacked traces. Errors of the capture library and of MAC address lookup
/// are held as their messages.
#[derive(Debug, Clone, PartialEq, Eq)]
pub enum CaptureError {
    /// No suitable capture device was found.
    NoDevice,
    /// The capture thread failed in some way.
    CaptureThreadPanic,
    /// A packet was found to be invalid while determining its direction.
    InvalidPacket(String),
    /// An error from the packet capture library.
    Pcap(String),
    /// An error from MAC address lookup.
    MacAddress(String),
    /// No MAC address could be found for the named device.
    NoMac(String),
}

/// The text of a capture error.
pub open spec fn capture_error_text(e: CaptureError) -> Seq<char> {
    match e {
        CaptureError::NoDevice => "No capture device found."@,
        CaptureError::CaptureThreadPanic => "Capture thread panicked."@,
        CaptureError::InvalidPacket(m) => "Invalid packet found: "@ + m@,
        CaptureError::Pcap(m) => "Error from pcap: "@ + m@,
        CaptureError::MacAddress(m) => "Error from mac_address: "@ + m@,
        CaptureError::NoMac(d) => "Couldn't get MAC address for device: "@ + d@,
    }
}

impl CaptureError {
    /// The error as text.
    pub fn to_string(&self) -> (r: String)
        ensures
            r@ == capture_error_text(*self),
    {
        let mut s = String::new();
        match self {
            CaptureError::NoDevice => s.append("No capture device found."),
            CaptureError::CaptureThreadPanic => s.append("Capture thread panicked."),
            CaptureError::InvalidPacket(m) => {
                s.append("Invalid packet found: ");
                s.append(m.as_str());
            },
            CaptureError::Pcap(m) => {
                s.append("Error from pcap: ");
                s.append(m.as_str());
            },
            CaptureError::MacAddress(m) => {
                s.append("Error from mac_address: ");
                s.append(m.as_str());
            },
            CaptureError::NoMac(d) => {
                s.append("Couldn't get MAC address for device: ");
                s.append(d.as_str());
            },
        }
        s
    }
}

/// A trace: packet directions, the time since the previous packet, and packet sizes, all of
/// the same length.
#[derive(Debug, Clone, PartialEq, Eq)]
pub struct Trace {
    /// The direction in which each packet was sent.
    pub directions: Vec<Direction>,
    /// How long between the previous packet and this one.
    pub timing_deltas: Vec<u64>,
    /// Packet sizes.
    pub sizes: Vec<u32>,
}

/// The mathematical form of a [`Trace`].
pub struct TraceView {
    pub directions: Seq<Direction>,
    pub timing_deltas: Seq<u64>,
    pub sizes: Seq<u32>,
}

impl TraceView {
    /// All three fields have the same length.
    pub open spec fn wf(self) -> bool {
        &&& self.directions.len() == self.timing_deltas.len()
        &&& self.timing_deltas.len() == self.sizes.len()
    }

    /// The number of packets (the length of the directions).
    pub open spec fn len(self) -> nat {
        self.directions.len()
    }
}

impl View for Trace {
    type V = TraceView;

    open spec fn view(&self) -> TraceView {
        TraceView {
            directions: self.directions@,
            timing_deltas: self.timing_deltas@,
            sizes: self.sizes@,
        }
    }
}

/// Eight little-endian bytes of a `u64`.
pub open spec fn le_u64(x: u64) -> Seq<u8> {
    seq![
        (x & 0xff) as u8,
        ((x >> 8) & 0xff) as u8,
        ((x >> 16) & 0xff) as u8,
        ((x >> 24) & 0xff) as u8,
        ((x >> 32) & 0xff) as u8,
        ((x >> 40) & 0xff) as u8,
        ((x >> 48) & 0xff) as u8,
        ((x >> 56) & 0xff) as u8,
    ]
}

/// The `u64` that eight little-endian bytes encode.
pub open spec fn from_le_u64(s: Seq<u8>) -> u64 {
    (s[0] as u64) | ((s[1] as u64) << 8u64) | ((s[2] as u64) << 16u64) | ((s[3] as u64) << 24u64)
        | ((s[4] as u64) << 32u64) | ((s[5] as u64) << 40u64) | ((s[6] as u64) << 48u64) | ((
    s[7] as u64) << 56u64)
}

/// The little-endian encodings of a sequence of `u64`s, one after the other.
pub open spec fn le_u64_seq(xs: Seq<u64>) -> Seq<u8>
    decreases xs.len(),
{
    if xs.len() == 0 {
        Seq::empty()
    } else {
        le_u64_seq(xs.drop_last()) + le_u64(xs.last())
    }
}

/// The byte of a direction: 0 for a sent packet, 1 for a received one.
pub open spec fn dir_byte(d: Direction) -> u8 {
    match d {
        Direction::Send => 0u8,
        Direction::Receive => 1u8,
    }
}

/// The direction of a byte that is 0 or 1.
pub open spec fn byte_dir(b: u8) -> Direction {
    if b == 0 {
        Direction::Send
    } else {
        Direction::Receive
    }
}

/// The first byte that is neither 0 nor 1, if there is one.
pub open spec fn first_invalid_dir(s: Seq<u8>) -> Option<u8>
    decreases s.len(),
{
    if s.len() == 0 {
        None
    } else if s[0] > 1 {
        Some(s[0])
    } else {
        first_invalid_dir(s.drop_first())
    }
}

/// The binary encoding of a trace: magic, version, length (truncated to `u32`), one byte per
/// direction, the timing deltas as little-endian `u64`s, the sizes as little-endian `u32`s.
pub open spec fn encode_trace(t: TraceView) -> Seq<u8> {
    trace_magic() + trace_version() + le_u32(t.directions.len() as u32) + t.directions.map_values(
        |d: Direction| dir_byte(d),
    ) + le_u64_seq(t.timing_deltas) + le_u32_seq(t.sizes)
}

/// The result of decoding trace bytes: the header is checked in order, then the direction
/// bytes are read and checked, then the deltas and sizes are read. Bytes after a complete trace
/// are ignored.
pub open spec fn decode_trace(b: Seq<u8>) -> Result<TraceView, TraceErrorView> {
    if b.len() < 5 {
        Err(TraceErrorView::UnexpectedEof)
    } else if b.subrange(0, 5) != trace_magic() {
        Err(TraceErrorView::InvalidMagic(b.subrange(0, 5)))
    } else if b.len() < 8 {
        Err(TraceErrorView::UnexpectedEof)
    } else if b.subrange(5, 8) != trace_version() {
        Err(TraceErrorView::InvalidVersion(b.subrange(5, 8)))
    } else if b.len() < 12 {
        Err(TraceErrorView::UnexpectedEof)
    } else {
        let n = from_le_u32(b.subrange(8, 12)) as nat;
        let delta_start: int = 12 + n as int;
        let size_start: int = delta_start + 8 * n;
        if b.len() < delta_start {
            Err(TraceErrorView::UnexpectedEof)
        } else if first_invalid_dir(b.subrange(12, delta_start)) is Some {
            Err(TraceErrorView::InvalidDirection(first_invalid_dir(b.subrange(12, delta_start))->Some_0))
        } else if b.len() < size_start + 4 * n {
            Err(TraceErrorView::UnexpectedEof)
        } else {
            Ok(
                TraceView {
                    directions: Seq::new(n, |i: int| byte_dir(b[12 + i])),
                    timing_deltas: Seq::new(
                        n,
                        |i: int| from_le_u64(b.subrange(delta_start + 8 * i, delta_start + 8 * i + 8)),
                    ),
                    sizes: Seq::new(
                        n,
                        |i: int| from_le_u32(b.subrange(size_start + 4 * i, size_start + 4 * i + 4)),
                    ),
                },
            )
        }
    }
}

proof fn lemma_le_u64_round_trip(x: u64)
    ensures
        from_le_u64(le_u64(x)) == x,
        le_u64(x).len() == 8,
{
    let b0 = (x & 0xff) as u8;
    let b1 = ((x >> 8) & 0xff) as u8;
    let b2 = ((x >> 16) & 0xff) as u8;
    let b3 = ((x >> 24) & 0xff) as u8;
    let b4 = ((x >> 32) & 0xff) as u8;
    let b5 = ((x >> 40) & 0xff) as u8;
    let b6 = ((x >> 48) & 0xff) as u8;
    let b7 = ((x >> 56) & 0xff) as u8;
    assert((b0 as u64) | ((b1 as u64) << 8u64) | ((b2 as u64) << 16u64) | ((b3 as u64) << 24u64)
        | ((b4 as u64) << 32u64) | ((b5 as u64) << 40u64) | ((b6 as u64) << 48u64) | ((b7 as u64)
        << 56u64) == x) by (bit_vector)
        requires
            b0 == (x & 0xff) as u8,
            b1 == ((x >> 8) & 0xff) as u8,
            b2 == ((x >> 16) & 0xff) as u8,
            b3 == ((x >> 24) & 0xff) as u8,
            b4 == ((x >> 32) & 0xff) as u8,
            b5 == ((x >> 40) & 0xff) as u8,
            b6 == ((x >> 48) & 0xff) as u8,
            b7 == ((x >> 56) & 0xff) as u8,
    ;
}

proof fn lemma_le_u64_seq_len(xs: Seq<u64>)
    ensures
        le_u64_seq(xs).len() == 8 * xs.len(),
    decreases xs.len(),
{
    if xs.len() > 0 {
        lemma_le_u64_seq_len(xs.drop_last());
    }
}

/// Element `i` of an encoded `u64` sequence is found at bytes `8i .. 8i + 8`.
proof fn lemma_le_u64_seq_index(xs: Seq<u64>, i: int)
    requires
        0 <= i < xs.len(),
    ensures
        le_u64_seq(xs).subrange(8 * i, 8 * i + 8) == le_u64(xs[i]),
    decreases xs.len(),
{
    lemma_le_u64_seq_len(xs.drop_last());
    let prev = le_u64_seq(xs.drop_last());
    if i == xs.len() - 1 {
        assert(le_u64_seq(xs).subrange(8 * i, 8 * i + 8) =~= le_u64(xs[i]));
    } else {
        lemma_le_u64_seq_index(xs.drop_last(), i);
        assert(le_u64_seq(xs).subrange(8 * i, 8 * i + 8) =~= prev.subrange(8 * i, 8 * i + 8));
    }
}

/// No byte of encoded directions is invalid.
proof fn lemma_dir_bytes_valid(s: Seq<u8>)
    requires
        forall|i: int| 0 <= i < s.len() ==> #[trigger] s[i] <= 1,
    ensures
        first_invalid_dir(s) is None,
    decreases s.len(),
{
    if s.len() > 0 {
        assert forall|i: int| 0 <= i < s.drop_first().len() implies #[trigger] s.drop_first()[i] <= 1 by {
            assert(s.drop_first()[i] == s[i + 1]);
        }
        lemma_dir_bytes_valid(s.drop_first());
    }
}

/// Decoding the encoding of a well-formed trace with fewer than 2^32 packets gives back that
/// trace.
pub proof fn lemma_decode_encode(t: TraceView)
    requires
        t.wf(),
        t.len() <= u32::MAX,
    ensures
        decode_trace(encode_trace(t)) == Ok::<TraceView, TraceErrorView>(t),
{
    let n = t.len();
    let b = encode_trace(t);
    let hdr = trace_magic() + trace_version() + le_u32(n as u32);
    let db = t.directions.map_values(|d: Direction| dir_byte(d));
    let ds = le_u64_seq(t.timing_deltas);
    let ss = le_u32_seq(t.sizes);
    lemma_le_u64_seq_len(t.timing_deltas);
    lemma_le_u32_seq_len(t.sizes);
    lemma_le_u32_round_trip(n as u32);
    assert(hdr.len() == 12);
    assert(b == hdr + db + ds + ss);
    assert(b.subrange(0, 5) =~= trace_magic());
    assert(b.subrange(5, 8) =~= trace_version());
    assert(b.subrange(8, 12) =~= le_u32(n as u32));
    assert(from_le_u32(b.subrange(8, 12)) as nat == n);
    let delta_start: int = 12 + n as int;
    let size_start: int = delta_start + 8 * n;
    assert(b.len() == size_start + 4 * n);
    assert(b.subrange(12, delta_start) =~= db);
    assert forall|i: int| 0 <= i < db.len() implies #[trigger] db[i] <= 1 by {}
    lemma_dir_bytes_valid(db);
    let r = decode_trace(b);
    assert(r is Ok);
    let d = r->Ok_0;
    assert forall|i: int| 0 <= i < n implies d.directions[i] == t.directions[i] by {
        assert(b[12 + i] == db[i]);
    }
    assert forall|i: int| 0 <= i < n implies d.timing_deltas[i] == t.timing_deltas[i] by {
        lemma_le_u64_seq_index(t.timing_deltas, i);
        assert(b.subrange(delta_start + 8 * i, delta_start + 8 * i + 8) =~= ds.subrange(
            8 * i,
            8 * i + 8,
        ));
        lemma_le_u64_round_trip(t.timing_deltas[i]);
    }
    assert forall|i: int| 0 <= i < n implies d.sizes[i] == t.sizes[i] by {
        lemma_le_u32_seq_index(t.sizes, i);
        assert(b.subrange(size_start + 4 * i, size_start + 4 * i + 4) =~= ss.subrange(
            4 * i,
            4 * i + 4,
        ));
        lemma_le_u32_round_trip(t.sizes[i]);
    }
    assert(d.directions =~= t.directions);
    assert(d.timing_deltas =~= t.timing_deltas);
    assert(d.sizes =~= t.sizes);
}

/// Pushes the eight little-endian bytes of `x`.
fn push_le_u64(buf: &mut Vec<u8>, x: u64)
    ensures
        final(buf)@ == old(buf)@ + le_u64(x),
{
    buf.push((x & 0xff) as u8);
    buf.push(((x >> 8) & 0xff) as u8);
    buf.push(((x >> 16) & 0xff) as u8);
    buf.push(((x >> 24) & 0xff) as u8);
    buf.push(((x >> 32) & 0xff) as u8);
    buf.push(((x >> 40) & 0xff) as u8);
    buf.push(((x >> 48) & 0xff) as u8);
    buf.push(((x >> 56) & 0xff) as u8);
    assert(final(buf)@ =~= old(buf)@ + le_u64(x));
}

/// Reads the `u64` whose little-endian bytes start at `at`.
fn read_le_u64(bytes: &[u8], at: usize) -> (r: u64)
    requires
        at + 8 <= bytes@.len(),
    ensures
        r == from_le_u64(bytes@.subrange(at as int, at + 8)),
{
    let s = Ghost(bytes@.subrange(at as int, at + 8));
    assert(s@[0] == bytes@[at as int] && s@[1] == bytes@[at + 1] && s@[2] == bytes@[at + 2]
        && s@[3] == bytes@[at + 3] && s@[4] == bytes@[at + 4] && s@[5] == bytes@[at + 5] && s@[6]
        == bytes@[at + 6] && s@[7] == bytes@[at + 7]);
    (bytes[at] as u64) | ((bytes[at + 1] as u64) << 8u64) | ((bytes[at + 2] as u64) << 16u64) | ((
    bytes[at + 3] as u64) << 24u64) | ((bytes[at + 4] as u64) << 32u64) | ((bytes[at + 5] as u64)
        << 40u64) | ((bytes[at + 6] as u64) << 48u64) | ((bytes[at + 7] as u64) << 56u64)
}

impl Trace {
    /// Checks that the three fields have the same length; errs with the three lengths if not.
    pub fn len_check(&self) -> (r: Result<(), TraceError>)
        ensures
            r is Ok <==> self@.wf(),
            r is Err ==> r->Err_0@ == TraceErrorView::LengthMismatch(
                self.directions@.len() as usize,
                self.timing_deltas@.len() as usize,
                self.sizes@.len() as usize,
            ),
    {
        let directions_len = self.directions.len();
        let timing_deltas_len = self.timing_deltas.len();
        let sizes_len = self.sizes.len();
        if directions_len != timing_deltas_len || timing_deltas_len != sizes_len {
            Err(TraceError::LengthMismatch(directions_len, timing_deltas_len, sizes_len))
        } else {
            Ok(())
        }
    }

    /// The bytes of the binary format.
    ///
    /// Header: bytes 0-4 the magic bytes ("CHAFF"), bytes 5-7 the version (0.1.0), bytes 8-11 the
    /// trace length as a little-endian `u32`. Then the directions, one byte each (0 for a sent
    /// packet, 1 for a received one), then the timing deltas as little-endian `u64`s, then the
    /// sizes as little-endian `u32`s. Errs if the field lengths mismatch.
    pub fn to_bytes(&self) -> (r: Result<Vec<u8>, TraceError>)
        ensures
            self@.wf() ==> r is Ok && r->Ok_0@ == encode_trace(self@),
            !self@.wf() ==> r is Err && r->Err_0@ == TraceErrorView::LengthMismatch(
                self.directions@.len() as usize,
                self.timing_deltas@.len() as usize,
                self.sizes@.len() as usize,
            ),
    {
        match self.len_check() {
            Err(e) => return Err(e),
            Ok(()) => {},
        }
        let n = self.directions.len();
        let mut buf: Vec<u8> = Vec::new();
        buf.push(67u8);
        buf.push(72u8);
        buf.push(65u8);
        buf.push(70u8);
        buf.push(70u8);
        buf.push(0u8);
        buf.push(1u8);
        buf.push(0u8);
        assert(buf@ =~= trace_magic() + trace_version());
        push_le_u32(&mut buf, n as u32);
        let ghost hdr = buf@;
        let ghost db = self.directions@.map_values(|d: Direction| dir_byte(d));
        let mut i: usize = 0;
        while i < n
            invariant
                i <= n,
                n == self.directions@.len(),
                db == self.directions@.map_values(|d: Direction| dir_byte(d)),
                buf@ == hdr + db.take(i as int),
            decreases n - i,
        {
            match self.directions[i] {
                Direction::Send => buf.push(0u8),
                Direction::Receive => buf.push(1u8),
            }
            i = i + 1;
            assert(buf@ =~= hdr + db.take(i as int));
        }
        assert(db.take(n as int) =~= db);
        let ghost mid = buf@;
        let mut i: usize = 0;
        while i < n
            invariant
                i <= n,
                n == self.timing_deltas@.len(),
                buf@ == mid + le_u64_seq(self.timing_deltas@.take(i as int)),
            decreases n - i,
        {
            push_le_u64(&mut buf, self.timing_deltas[i]);
            i = i + 1;
            assert(self.timing_deltas@.take(i as int).drop_last() =~= self.timing_deltas@.take(
                (i - 1) as int,
            ));
            assert(buf@ =~= mid + le_u64_seq(self.timing_deltas@.take(i as int)));
        }
        assert(self.timing_deltas@.take(n as int) =~= self.timing_deltas@);
        let ghost mid2 = buf@;
        let mut i: usize = 0;
        while i < n
            invariant
                i <= n,
                n == self.sizes@.len(),
                buf@ == mid2 + le_u32_seq(self.sizes@.take(i as int)),
            decreases n - i,
        {
            push_le_u32(&mut buf, self.sizes[i]);
            i = i + 1;
            assert(self.sizes@.take(i as int).drop_last() =~= self.sizes@.take((i - 1) as int));
            assert(buf@ =~= mid2 + le_u32_seq(self.sizes@.take(i as int)));
        }
        assert(self.sizes@.take(n as int) =~= self.sizes@);
        assert(buf@ =~= encode_trace(self@));
        Ok(buf)
    }

    /// Reads a trace from the bytes of the binary format (see [`Trace::to_bytes`]): the header
    /// is checked first, then every direction byte, then the deltas and sizes are read. Bytes
    /// after a complete trace are ignored.
    pub fn from_bytes(bytes: &[u8]) -> (r: Result<Trace, TraceError>)
        ensures
            r is Ok ==> decode_trace(bytes@) == Ok::<TraceView, TraceErrorView>(r->Ok_0@),
            r is Err ==> decode_trace(bytes@) == Err::<TraceView, TraceErrorView>(r->Err_0@),
    {
        let ghost b = bytes@;
        let blen = bytes.len();
        if blen < 5 {
            return Err(TraceError::UnexpectedEof);
        }
        if !(bytes[0] == 67u8 && bytes[1] == 72u8 && bytes[2] == 65u8 && bytes[3] == 70u8
            && bytes[4] == 70u8) {
            let mut magic: Vec<u8> = Vec::new();
            magic.push(bytes[0]);
            magic.push(bytes[1]);
            magic.push(bytes[2]);
            magic.push(bytes[3]);
            magic.push(bytes[4]);
            assert(magic@ =~= b.subrange(0, 5));
            assert(b.subrange(0, 5) != trace_magic()) by {
                if b.subrange(0, 5) == trace_magic() {
                    assert(b.subrange(0, 5)[0] == b[0]);
                    assert(b.subrange(0, 5)[1] == b[1]);
                    assert(b.subrange(0, 5)[2] == b[2]);
                    assert(b.subrange(0, 5)[3] == b[3]);
                    assert(b.subrange(0, 5)[4] == b[4]);
                }
            }
            return Err(TraceError::InvalidMagic(magic));
        }
        assert(b.subrange(0, 5) =~= trace_magic());
        if blen < 8 {
            return Err(TraceError::UnexpectedEof);
        }
        if !(bytes[5] == 0u8 && bytes[6] == 1u8 && bytes[7] == 0u8) {
            let mut version: Vec<u8> = Vec::new();
            version.push(bytes[5]);
            version.push(bytes[6]);
            version.push(bytes[7]);
            assert(version@ =~= b.subrange(5, 8));
            assert(b.subrange(5, 8) != trace_version()) by {
                if b.subrange(5, 8) == trace_version() {
                    assert(b.subrange(5, 8)[0] == b[5]);
                    assert(b.subrange(5, 8)[1] == b[6]);
                    assert(b.subrange(5, 8)[2] == b[7]);
                }
            }
            return Err(TraceError::InvalidVersion(version));
        }
        assert(b.subrange(5, 8) =~= trace_version());
        if blen < 12 {
            return Err(TraceError::UnexpectedEof);
        }
        let len32 = read_le_u32(bytes, 8);
        assert(b.subrange(8, 12) == bytes@.subrange(8, 12));
        let n = len32 as usize;
        if (blen as u64) < 12 + (n as u64) {
            return Err(TraceError::UnexpectedEof);
        }
        let delta_start: usize = 12 + n;
        let ghost db = b.subrange(12, delta_start as int);
        let mut directions: Vec<Direction> = Vec::new();
        let mut i: usize = 0;
        assert(db.skip(0) =~= db);
        while i < n
            invariant
                i <= n,
                n == len32,
                delta_start == 12 + n,
                delta_start <= bytes@.len(),
                b == bytes@,
                db == b.subrange(12, delta_start as int),
                directions@.len() == i,
                forall|k: int| 0 <= k < i ==> #[trigger] directions@[k] == byte_dir(b[12 + k]),
                first_invalid_dir(db) == first_invalid_dir(db.skip(i as int)),
                b.subrange(0, 5) == trace_magic(),
                b.subrange(5, 8) == trace_version(),
                from_le_u32(b.subrange(8, 12)) == len32,
            decreases n - i,
        {
            let byte = bytes[12 + i];
            assert(db.skip(i as int).len() > 0 && db.skip(i as int)[0] == byte);
            if byte > 1 {
                assert(first_invalid_dir(db.skip(i as int)) == Some(byte));
                return Err(TraceError::InvalidDirection(byte));
            }
            assert(db.skip(i as int).drop_first() =~= db.skip(i + 1));
            if byte == 0 {
                directions.push(Direction::Send);
            } else {
                directions.push(Direction::Receive);
            }
            i = i + 1;
        }
        assert(db.skip(n as int).len() == 0);
        let needed: u64 = 12 + 13 * (n as u64);
        if (blen as u64) < needed {
            return Err(TraceError::UnexpectedEof);
        }
        let size_start: usize = delta_start + 8 * n;
        let mut timing_deltas: Vec<u64> = Vec::new();
        let mut i: usize = 0;
        while i < n
            invariant
                i <= n,
                n == len32,
                size_start == delta_start + 8 * n,
                size_start + 4 * n <= bytes@.len(),
                bytes@.len() == blen,
                b == bytes@,
                timing_deltas@.len() == i,
                forall|k: int|
                    0 <= k < i ==> #[trigger] timing_deltas@[k] == from_le_u64(
                        b.subrange(delta_start + 8 * k, delta_start + 8 * k + 8),
                    ),
            decreases n - i,
        {
            let x = read_le_u64(bytes, delta_start + 8 * i);
            timing_deltas.push(x);
            i = i + 1;
        }
        let mut sizes: Vec<u32> = Vec::new();
        let mut i: usize = 0;
        while i < n
            invariant
                i <= n,
                n == len32,
                size_start + 4 * n <= bytes@.len(),
                bytes@.len() == blen,
                b == bytes@,
                sizes@.len() == i,
                forall|k: int|
                    0 <= k < i ==> #[trigger] sizes@[k] == from_le_u32(
                        b.subrange(size_start + 4 * k, size_start + 4 * k + 4),
                    ),
            decreases n - i,
        {
            let x = read_le_u32(bytes, size_start + 4 * i);
            sizes.push(x);
            i = i + 1;
        }
        let t = Trace { directions, timing_deltas, sizes };
        proof {
            let d = decode_trace(b)->Ok_0;
            assert(d.directions =~= t.directions@);
            assert(d.timing_deltas =~= t.timing_deltas@);
            assert(d.sizes =~= t.sizes@);
        }
        Ok(t)
    }
}

/// The capture time of a packet in milliseconds: its seconds times 1000 plus its microseconds
/// divided by 1000, each read as an unsigned 64-bit number.
pub open spec fn packet_ms(p: CapturedPacket) -> int {
    (p.ts_sec as u64) * 1000 + (p.ts_usec as u64) / 1000
}

/// The direction of a packet from its link-layer header: for Ethernet, sent when the source
/// address is the local address; for Linux cooked captures, received for packet types 0 to 3
/// and sent for any other.
pub open spec fn header_direction(data: Seq<u8>, linktype: i32, local_mac: Seq<u8>) -> Direction {
    if linktype == ETHERNET {
        if data.subrange(6, 12) == local_mac {
            Direction::Send
        } else {
            Direction::Receive
        }
    } else if linktype == LINUX_SLL {
        if data[0] * 256 + data[1] <= 3 {
            Direction::Receive
        } else {
            Direction::Send
        }
    } else if data[10] <= 3 {
        Direction::Receive
    } else {
        Direction::Send
    }
}

/// The number of header bytes the direction is read from for a link type.
pub open spec fn header_len(linktype: i32) -> nat {
    if linktype == ETHERNET {
        12
    } else if linktype == LINUX_SLL {
        2
    } else {
        11
    }
}

/// The packets can be converted: the link type is Ethernet or a Linux cooked capture, every
/// packet holds the header bytes its direction is read from, and every capture time in
/// milliseconds fits in 64 bits.
pub open spec fn packets_convertible(ps: Seq<CapturedPacket>, linktype: i32) -> bool {
    &&& (linktype == ETHERNET || linktype == LINUX_SLL || linktype == LINUX_SLL2)
    &&& forall|i: int|
        0 <= i < ps.len() ==> (#[trigger] ps[i]).data@.len() >= header_len(linktype) && packet_ms(
            ps[i],
        ) <= u64::MAX
}

/// The trace of captured packets: each packet's direction from its header, the time since the
/// previous packet in milliseconds (0 for the first, and 0 when the clock went back), and its
/// length.
pub open spec fn packets_trace(ps: Seq<CapturedPacket>, linktype: i32, local_mac: Seq<u8>) -> TraceView {
    TraceView {
        directions: Seq::new(
            ps.len(),
            |i: int| header_direction(ps[i].data@, linktype, local_mac),
        ),
        timing_deltas: Seq::new(
            ps.len(),
            |i: int|
                if i == 0 || packet_ms(ps[i]) < packet_ms(ps[i - 1]) {
                    0u64
                } else {
                    (packet_ms(ps[i]) - packet_ms(ps[i - 1])) as u64
                },
        ),
        sizes: Seq::new(ps.len(), |i: int| ps[i].len),
    }
}

/// The capture time of a packet in milliseconds.
fn packet_ts_to_ms(p: &CapturedPacket) -> (r: u64)
    requires
        packet_ms(*p) <= u64::MAX,
    ensures
        r == packet_ms(*p),
{
    (p.ts_sec as u64) * 1000 + (p.ts_usec as u64) / 1000
}

/// The direction of one packet (see [`header_direction`]).
fn packet_direction(data: &Vec<u8>, linktype: i32, local_mac: [u8; 6]) -> (r: Direction)
    requires
        linktype == ETHERNET || linktype == LINUX_SLL || linktype == LINUX_SLL2,
        data@.len() >= header_len(linktype),
    ensures
        r == header_direction(data@, linktype, local_mac@),
{
    if linktype == ETHERNET {
        let mut same = true;
        let mut k: usize = 0;
        assert(data@.subrange(6, 6) =~= local_mac@.take(0));
        while k < 6
            invariant
                k <= 6,
                data@.len() >= 12,
                same <==> data@.subrange(6, 6 + k as int) == local_mac@.take(k as int),
            decreases 6 - k,
        {
            proof {
                assert(data@.subrange(6, 7 + k as int) =~= data@.subrange(6, 6 + k as int).push(
                    data@[6 + k as int],
                ));
                assert(local_mac@.take(k + 1) =~= local_mac@.take(k as int).push(local_mac@[k as int]));
                if data@.subrange(6, 7 + k as int) == local_mac@.take(k + 1) {
                    assert(data@.subrange(6, 7 + k as int)[k as int] == data@[6 + k as int]);
                    assert(data@.subrange(6, 6 + k as int) =~= data@.subrange(6, 7 + k as int).drop_last());
                    assert(local_mac@.take(k as int) =~= local_mac@.take(k + 1).drop_last());
                }
            }
            if data[6 + k] != local_mac[k] {
                same = false;
            }
            k = k + 1;
        }
        assert(local_mac@.take(6) =~= local_mac@);
        if same {
            Direction::Send
        } else {
            Direction::Receive
        }
    } else if linktype == LINUX_SLL {
        let packet_type: u16 = ((data[0] as u16) << 8u16) | (data[1] as u16);
        let b0 = data[0];
        let b1 = data[1];
        assert(((b0 as u16) << 8u16) | (b1 as u16) == b0 * 256 + b1) by (bit_vector);
        if packet_type <= 3 {
            Direction::Receive
        } else {
            Direction::Send
        }
    } else {
        if data[10] <= 3 {
            Direction::Receive
        } else {
            Direction::Send
        }
    }
}

/// Converts captured packets into an unpacked trace (see [`packets_trace`]): the directions
/// from the packets' headers and the local MAC address, millisecond deltas between capture
/// times (never negative), and the packets' lengths.
pub fn packets_to_trace(packets: &Vec<CapturedPacket>, linktype: i32, local_mac: [u8; 6]) -> (r: Trace)
    requires
        packets_convertible(packets@, linktype),
    ensures
        r@ == packets_trace(packets@, linktype, local_mac@),
        r@.wf(),
{
    let ghost ps = packets@;
    let ghost spec = packets_trace(ps, linktype, local_mac@);
    let n = packets.len();
    let mut directions: Vec<Direction> = Vec::new();
    let mut timing_deltas: Vec<u64> = Vec::new();
    let mut sizes: Vec<u32> = Vec::new();
    let mut prev: u64 = 0;
    let mut i: usize = 0;
    while i < n
        invariant
            i <= n,
            n == ps.len(),
            ps == packets@,
            spec == packets_trace(ps, linktype, local_mac@),
            packets_convertible(ps, linktype),
            directions@ == spec.directions.take(i as int),
            timing_deltas@ == spec.timing_deltas.take(i as int),
            sizes@ == spec.sizes.take(i as int),
            i > 0 ==> prev == packet_ms(ps[i - 1]),
        decreases n - i,
    {
        let p = &packets[i];
        assert(p.data@.len() >= header_len(linktype) && packet_ms(*p) <= u64::MAX);
        let d = packet_direction(&p.data, linktype, local_mac);
        let ms = packet_ts_to_ms(p);
        let delta: u64 = if i == 0 {
            0
        } else if ms < prev {
            0
        } else {
            ms - prev
        };
        directions.push(d);
        timing_deltas.push(delta);
        sizes.push(p.len);
        prev = ms;
        i = i + 1;
        assert(directions@ =~= spec.directions.take(i as int));
        assert(timing_deltas@ =~= spec.timing_deltas.take(i as int));
        assert(sizes@ =~= spec.sizes.take(i as int));
    }
    assert(spec.directions.take(n as int) =~= spec.directions);
    assert(spec.timing_deltas.take(n as int) =~= spec.timing_deltas);
    assert(spec.sizes.take(n as int) =~= spec.sizes);
    Trace { directions, timing_deltas, sizes }
}

} // verus!
