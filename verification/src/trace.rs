//! Packet traces: a struct-of-arrays of directions, timing deltas and sizes, a builder that
//! records packets one at a time, and the binary trace format.

use vstd::prelude::*;

use crate::event::Event;
use crate::fmt::{byte_list, decimal, push_byte_list, push_decimal};

verus! {

/// Packet direction.
#[derive(Debug, Clone, Copy, PartialEq, Eq, Structural)]
pub enum Direction {
    /// From client to server.
    Send,
    /// From server to client.
    Receive,
}

/// Errors relating to capture devices and packet handling. Errors of the capture library and of
/// MAC address lookup are held as their messages.
#[derive(Debug, Clone, PartialEq, Eq)]
pub enum DeviceError {
    /// No suitable capture device was found.
    NoDevice,
    /// The capture thread failed in some way.
    CaptureThreadPanic,
    /// A packet was found to be invalid while determining its direction.
    InvalidPacket(String),
    /// An error from the packet capture library.
    Pcap(String),
    /// An error from MAC address lookup.
    MacAddress(String),
    /// No MAC address could be found for the named device.
    NoMac(String),
}

/// Errors of capturing and converting traces.
#[derive(Debug, Clone, PartialEq, Eq)]
pub enum CaptureError {
    /// Errors relating to capture devices and packet handling.
    Device(DeviceError),
    /// Errors relating to trace serialisation and deserialisation.
    Trace(TraceError),
    /// Conversion between types is not possible.
    CantConvert,
}

/// Errors relating to trace serialisation and deserialisation.
#[derive(Debug, Clone, PartialEq, Eq)]
pub enum TraceError {
    /// A trace's fields have mismatched lengths (directions, timing deltas, sizes).
    LengthMismatch(usize, usize, usize),
    /// An I/O error, described by its message.
    Io(String),
    /// The trace bytes start with the wrong magic bytes (the five bytes found).
    InvalidMagic(Vec<u8>),
    /// The trace bytes carry an unsupported version (the three bytes found).
    InvalidVersion(Vec<u8>),
    /// The trace bytes ended before the trace was complete.
    UnexpectedEof,
}

/// The mathematical form of a [`TraceError`].
pub enum TraceErrorView {
    LengthMismatch(usize, usize, usize),
    Io(Seq<char>),
    InvalidMagic(Seq<u8>),
    InvalidVersion(Seq<u8>),
    UnexpectedEof,
}

impl View for TraceError {
    type V = TraceErrorView;

    open spec fn view(&self) -> TraceErrorView {
        match self {
            TraceError::LengthMismatch(a, b, c) => TraceErrorView::LengthMismatch(*a, *b, *c),
            TraceError::Io(m) => TraceErrorView::Io(m@),
            TraceError::InvalidMagic(m) => TraceErrorView::InvalidMagic(m@),
            TraceError::InvalidVersion(v) => TraceErrorView::InvalidVersion(v@),
            TraceError::UnexpectedEof => TraceErrorView::UnexpectedEof,
        }
    }
}

/// The text of a trace error.
pub open spec fn trace_error_text(e: TraceErrorView) -> Seq<char> {
    match e {
        TraceErrorView::LengthMismatch(d, t, s) => "mismatched trace field lengths — directions: "@
            + decimal(d as nat) + ", timing_deltas: "@ + decimal(t as nat) + ", sizes: "@ + decimal(
            s as nat,
        ) + "."@,
        TraceErrorView::Io(m) => "io error: "@ + m,
        TraceErrorView::InvalidMagic(b) => "invalid trace file magic bytes: "@ + byte_list(b),
        TraceErrorView::InvalidVersion(b) => "invalid trace file version: "@ + byte_list(b),
        TraceErrorView::UnexpectedEof => "trace file ended unexpectedly."@,
    }
}

impl TraceError {
    /// The error as text.
    pub fn to_string(&self) -> (r: String)
        ensures
            r@ == trace_error_text(self@),
    {
        let mut s = String::new();
        match self {
            TraceError::LengthMismatch(d, t, z) => {
                s.append("mismatched trace field lengths — directions: ");
                push_decimal(&mut s, *d as u64);
                s.append(", timing_deltas: ");
                push_decimal(&mut s, *t as u64);
                s.append(", sizes: ");
                push_decimal(&mut s, *z as u64);
                s.append(".");
            },
            TraceError::Io(m) => {
                s.append("io error: ");
                s.append(m.as_str());
            },
            TraceError::InvalidMagic(b) => {
                s.append("invalid trace file magic bytes: ");
                push_byte_list(&mut s, b);
            },
            TraceError::InvalidVersion(b) => {
                s.append("invalid trace file version: ");
                push_byte_list(&mut s, b);
            },
            TraceError::UnexpectedEof => {
                s.append("trace file ended unexpectedly.");
            },
        }
        s
    }
}

/// The text of a device error.
pub open spec fn device_error_text(e: DeviceError) -> Seq<char> {
    match e {
        DeviceError::NoDevice => "no capture device found."@,
        DeviceError::CaptureThreadPanic => "capture thread panicked."@,
        DeviceError::InvalidPacket(m) => "invalid packet: "@ + m@,
        DeviceError::Pcap(m) => "pcap error: "@ + m@,
        DeviceError::MacAddress(m) => "mac address lookup failed: "@ + m@,
        DeviceError::NoMac(d) => "could not get mac address for device: "@ + d@,
    }
}

impl DeviceError {
    /// The error as text.
    pub fn to_string(&self) -> (r: String)
        ensures
            r@ == device_error_text(*self),
    {
        let mut s = String::new();
        match self {
            DeviceError::NoDevice => s.append("no capture device found."),
            DeviceError::CaptureThreadPanic => s.append("capture thread panicked."),
            DeviceError::InvalidPacket(m) => {
                s.append("invalid packet: ");
                s.append(m.as_str());
            },
            DeviceError::Pcap(m) => {
                s.append("pcap error: ");
                s.append(m.as_str());
            },
            DeviceError::MacAddress(m) => {
                s.append("mac address lookup failed: ");
                s.append(m.as_str());
            },
            DeviceError::NoMac(d) => {
                s.append("could not get mac address for device: ");
                s.append(d.as_str());
            },
        }
        s
    }
}

/// The text of a capture error.
pub open spec fn capture_error_text(e: CaptureError) -> Seq<char> {
    match e {
        CaptureError::Device(d) => "device error: "@ + device_error_text(d),
        CaptureError::Trace(t) => "trace error: "@ + trace_error_text(t@),
        CaptureError::CantConvert => "conversion between types failed"@,
    }
}

impl CaptureError {
    /// The error as text.
    pub fn to_string(&self) -> (r: String)
        ensures
            r@ == capture_error_text(*self),
    {
        let mut s = String::new();
        match self {
            CaptureError::Device(d) => {
                s.append("device error: ");
                let inner = d.to_string();
                s.append(inner.as_str());
            },
            CaptureError::Trace(t) => {
                s.append("trace error: ");
                let inner = t.to_string();
                s.append(inner.as_str());
            },
            CaptureError::CantConvert => s.append("conversion between types failed"),
        }
        s
    }
}

/// A trace: packet directions, the time since the previous packet, and packet sizes. The three
/// fields describe the same packets, so their lengths should match.
#[derive(Debug, Clone, PartialEq, Eq, Default)]
pub struct Trace {
    /// The direction in which each packet was sent.
    pub directions: Vec<Direction>,
    /// How long between the previous packet and this one.
    pub timing_deltas: Vec<u32>,
    /// Packet sizes.
    pub sizes: Vec<u32>,
}

/// The mathematical form of a [`Trace`].
pub struct TraceView {
    pub directions: Seq<Direction>,
    pub timing_deltas: Seq<u32>,
    pub sizes: Seq<u32>,
}

impl TraceView {
    /// All three fields have the same length.
    pub open spec fn wf(self) -> bool {
        &&& self.directions.len() == self.timing_deltas.len()
        &&& self.timing_deltas.len() == self.sizes.len()
    }

    /// The number of packets (the length of the directions).
    pub open spec fn len(self) -> nat {
        self.directions.len()
    }
}

impl View for Trace {
    type V = TraceView;

    open spec fn view(&self) -> TraceView {
        TraceView {
            directions: self.directions@,
            timing_deltas: self.timing_deltas@,
            sizes: self.sizes@,
        }
    }
}

/// The direction of a packet event: `Send` for a sent packet, `Receive` for a received one, and
/// none for the framework's events.
pub open spec fn event_direction(e: Event) -> Option<Direction> {
    match e {
        Event::SendNormal | Event::SendDecoy => Some(Direction::Send),
        Event::ReceiveNormal | Event::ReceiveDecoy => Some(Direction::Receive),
        _ => None,
    }
}

impl Direction {
    /// The direction of a packet event, if it is one.
    pub fn of_event(e: Event) -> (r: Option<Direction>)
        ensures
            r == event_direction(e),
    {
        match e {
            Event::SendNormal | Event::SendDecoy => Some(Direction::Send),
            Event::ReceiveNormal | Event::ReceiveDecoy => Some(Direction::Receive),
            _ => None,
        }
    }
}

impl TryFrom<Event> for Direction {
    type Error = CaptureError;

    fn try_from(value: Event) -> (r: Result<Self, Self::Error>) {
        match Direction::of_event(value) {
            Some(d) => Ok(d),
            None => Err(CaptureError::CantConvert),
        }
    }
}

impl vstd::std_specs::convert::TryFromSpecImpl<Event> for Direction {
    open spec fn obeys_try_from_spec() -> bool {
        true
    }

    open spec fn try_from_spec(v: Event) -> Result<Direction, CaptureError> {
        match event_direction(v) {
            Some(d) => Ok(d),
            None => Err(CaptureError::CantConvert),
        }
    }
}

/// A single packet of a trace: its direction, timing delta and size.
#[derive(Debug, Clone, Copy, PartialEq, Eq, Structural)]
pub struct TracePacket(pub Direction, pub u32, pub u32);

/// A cursor over the packets of a [`Trace`].
pub struct TraceIter<'a> {
    trace: &'a Trace,
    index: usize,
}

impl<'a> TraceIter<'a> {
    /// The trace being walked.
    pub closed spec fn trace(&self) -> &'a Trace {
        self.trace
    }

    /// How many packets have been handed out so far.
    pub closed spec fn position(&self) -> usize {
        self.index
    }

    /// Hands out the next packet, or `None` once every direction has been visited.
    pub fn next(&mut self) -> (r: Option<TracePacket>)
        requires
            old(self).trace()@.wf(),
        ensures
            final(self).trace() == old(self).trace(),
            old(self).position() < old(self).trace()@.len() ==> {
                &&& final(self).position() == old(self).position() + 1
                &&& r == Some(TracePacket(
                    old(self).trace()@.directions[old(self).position() as int],
                    old(self).trace()@.timing_deltas[old(self).position() as int],
                    old(self).trace()@.sizes[old(self).position() as int],
                ))
            },
            old(self).position() >= old(self).trace()@.len() ==> {
                &&& final(self).position() == old(self).position()
                &&& r.is_none()
            },
    {
        if self.index >= self.trace.directions.len() {
            return None;
        }
        let i = self.index;
        self.index = self.index + 1;
        Some(TracePacket(self.trace.directions[i], self.trace.timing_deltas[i], self.trace.sizes[i]))
    }
}

/// The magic bytes at the start of a trace file ("CHAFF").
pub open spec fn trace_magic() -> Seq<u8> {
    seq![67u8, 72u8, 65u8, 70u8, 70u8]
}

/// The trace format version (semantic versioning triple 0.1.0).
pub open spec fn trace_version() -> Seq<u8> {
    seq![0u8, 1u8, 0u8]
}

/// Four little-endian bytes of a `u32`.
pub open spec fn le_u32(x: u32) -> Seq<u8> {
    seq![(x & 0xff) as u8, ((x >> 8) & 0xff) as u8, ((x >> 16) & 0xff) as u8, ((x >> 24) & 0xff) as u8]
}

/// The `u32` that four little-endian bytes encode.
pub open spec fn from_le_u32(s: Seq<u8>) -> u32 {
    (s[0] as u32) | ((s[1] as u32) << 8u32) | ((s[2] as u32) << 16u32) | ((s[3] as u32) << 24u32)
}

/// The little-endian encodings of a sequence of `u32`s, one after the other.
pub open spec fn le_u32_seq(xs: Seq<u32>) -> Seq<u8>
    decreases xs.len(),
{
    if xs.len() == 0 {
        Seq::empty()
    } else {
        le_u32_seq(xs.drop_last()) + le_u32(xs.last())
    }
}

/// Bit `i` of the packed directions: 1 for a received packet, 0 for a sent one or past the end.
pub open spec fn dir_bit(dirs: Seq<Direction>, i: int) -> u8 {
    if 0 <= i < dirs.len() && dirs[i] == Direction::Receive {
        1u8
    } else {
        0u8
    }
}

/// Byte `j` of the packed directions: packet `8j + k` occupies bit `k`.
pub open spec fn packed_byte(dirs: Seq<Direction>, j: int) -> u8 {
    dir_bit(dirs, 8 * j) | (dir_bit(dirs, 8 * j + 1) << 1u8) | (dir_bit(dirs, 8 * j + 2) << 2u8)
        | (dir_bit(dirs, 8 * j + 3) << 3u8) | (dir_bit(dirs, 8 * j + 4) << 4u8) | (dir_bit(
        dirs,
        8 * j + 5,
    ) << 5u8) | (dir_bit(dirs, 8 * j + 6) << 6u8) | (dir_bit(dirs, 8 * j + 7) << 7u8)
}

/// The number of bytes that `n` packed directions take.
pub open spec fn packed_len(n: nat) -> nat {
    ((n + 7) / 8) as nat
}

/// The directions packed LSB-first into bytes.
pub open spec fn packed_dirs(dirs: Seq<Direction>) -> Seq<u8> {
    Seq::new(packed_len(dirs.len()), |j: int| packed_byte(dirs, j))
}

/// The direction that bit `i` of packed bytes encodes.
pub open spec fn unpacked_dir(packed: Seq<u8>, i: int) -> Direction {
    if (packed[i / 8] >> ((i % 8) as u8)) & 1u8 == 1u8 {
        Direction::Receive
    } else {
        Direction::Send
    }
}

/// The binary encoding of a trace: magic, version, length (truncated to `u32`), packed
/// directions, timing deltas, sizes; all little-endian.
pub open spec fn encode_trace(t: TraceView) -> Seq<u8> {
    trace_magic() + trace_version() + le_u32(t.directions.len() as u32) + packed_dirs(t.directions)
        + le_u32_seq(t.timing_deltas) + le_u32_seq(t.sizes)
}

/// The number of bytes a trace of `n` packets takes after the 12 header bytes.
pub open spec fn body_len(n: nat) -> nat {
    packed_len(n) + 8 * n
}

/// The result of decoding trace bytes. Bytes after a complete trace are ignored.
pub open spec fn decode_trace(b: Seq<u8>) -> Result<TraceView, TraceErrorView> {
    if b.len() < 5 {
        Err(TraceErrorView::UnexpectedEof)
    } else if b.subrange(0, 5) != trace_magic() {
        Err(TraceErrorView::InvalidMagic(b.subrange(0, 5)))
    } else if b.len() < 8 {
        Err(TraceErrorView::UnexpectedEof)
    } else if b.subrange(5, 8) != trace_version() {
        Err(TraceErrorView::InvalidVersion(b.subrange(5, 8)))
    } else if b.len() < 12 {
        Err(TraceErrorView::UnexpectedEof)
    } else {
        let n = from_le_u32(b.subrange(8, 12)) as nat;
        let dir_start = 12int;
        let delta_start: int = 12 + packed_len(n) as int;
        let size_start = delta_start + 4 * n;
        if b.len() < 12 + body_len(n) {
            Err(TraceErrorView::UnexpectedEof)
        } else {
            Ok(
                TraceView {
                    directions: Seq::new(
                        n,
                        |i: int| unpacked_dir(b.subrange(dir_start, delta_start), i),
                    ),
                    timing_deltas: Seq::new(
                        n,
                        |i: int| from_le_u32(b.subrange(delta_start + 4 * i, delta_start + 4 * i + 4)),
                    ),
                    sizes: Seq::new(
                        n,
                        |i: int| from_le_u32(b.subrange(size_start + 4 * i, size_start + 4 * i + 4)),
                    ),
                },
            )
        }
    }
}

pub(crate) proof fn lemma_le_u32_round_trip(x: u32)
    ensures
        from_le_u32(le_u32(x)) == x,
        le_u32(x).len() == 4,
{
    let b0 = (x & 0xff) as u8;
    let b1 = ((x >> 8) & 0xff) as u8;
    let b2 = ((x >> 16) & 0xff) as u8;
    let b3 = ((x >> 24) & 0xff) as u8;
    assert((b0 as u32) | ((b1 as u32) << 8u32) | ((b2 as u32) << 16u32) | ((b3 as u32) << 24u32)
        == x) by (bit_vector)
        requires
            b0 == (x & 0xff) as u8,
            b1 == ((x >> 8) & 0xff) as u8,
            b2 == ((x >> 16) & 0xff) as u8,
            b3 == ((x >> 24) & 0xff) as u8,
    ;
}

proof fn lemma_bits_of_byte(b0: u8, b1: u8, b2: u8, b3: u8, b4: u8, b5: u8, b6: u8, b7: u8, x: u8)
    requires
        b0 <= 1 && b1 <= 1 && b2 <= 1 && b3 <= 1 && b4 <= 1 && b5 <= 1 && b6 <= 1 && b7 <= 1,
        x == b0 | (b1 << 1u8) | (b2 << 2u8) | (b3 << 3u8) | (b4 << 4u8) | (b5 << 5u8) | (b6 << 6u8)
            | (b7 << 7u8),
    ensures
        (x >> 0u8) & 1u8 == b0,
        (x >> 1u8) & 1u8 == b1,
        (x >> 2u8) & 1u8 == b2,
        (x >> 3u8) & 1u8 == b3,
        (x >> 4u8) & 1u8 == b4,
        (x >> 5u8) & 1u8 == b5,
        (x >> 6u8) & 1u8 == b6,
        (x >> 7u8) & 1u8 == b7,
{
    assert(((x >> 0u8) & 1u8 == b0) && ((x >> 1u8) & 1u8 == b1) && ((x >> 2u8) & 1u8 == b2) && ((
    x >> 3u8) & 1u8 == b3) && ((x >> 4u8) & 1u8 == b4) && ((x >> 5u8) & 1u8 == b5) && ((x >> 6u8)
        & 1u8 == b6) && ((x >> 7u8) & 1u8 == b7)) by (bit_vector)
        requires
            b0 <= 1 && b1 <= 1 && b2 <= 1 && b3 <= 1 && b4 <= 1 && b5 <= 1 && b6 <= 1 && b7 <= 1,
            x == b0 | (b1 << 1u8) | (b2 << 2u8) | (b3 << 3u8) | (b4 << 4u8) | (b5 << 5u8) | (b6
                << 6u8) | (b7 << 7u8),
    ;
}

/// Unpacking bit `i` of the packed directions gives back direction `i`.
proof fn lemma_unpack_packed(dirs: Seq<Direction>, i: int)
    requires
        0 <= i < dirs.len(),
    ensures
        unpacked_dir(packed_dirs(dirs), i) == dirs[i],
{
    let j = i / 8;
    let k = i % 8;
    assert(0 <= j < packed_len(dirs.len()));
    let x = packed_byte(dirs, j);
    assert(packed_dirs(dirs)[j] == x);
    lemma_bits_of_byte(
        dir_bit(dirs, 8 * j),
        dir_bit(dirs, 8 * j + 1),
        dir_bit(dirs, 8 * j + 2),
        dir_bit(dirs, 8 * j + 3),
        dir_bit(dirs, 8 * j + 4),
        dir_bit(dirs, 8 * j + 5),
        dir_bit(dirs, 8 * j + 6),
        dir_bit(dirs, 8 * j + 7),
        x,
    );
    assert(i == 8 * j + k);
    assert((x >> (k as u8)) & 1u8 == dir_bit(dirs, i));
}

pub(crate) proof fn lemma_le_u32_seq_len(xs: Seq<u32>)
    ensures
        le_u32_seq(xs).len() == 4 * xs.len(),
    decreases xs.len(),
{
    if xs.len() > 0 {
        lemma_le_u32_seq_len(xs.drop_last());
    }
}

/// Element `i` of an encoded `u32` sequence is found at bytes `4i .. 4i + 4`.
pub(crate) proof fn lemma_le_u32_seq_index(xs: Seq<u32>, i: int)
    requires
        0 <= i < xs.len(),
    ensures
        le_u32_seq(xs).subrange(4 * i, 4 * i + 4) == le_u32(xs[i]),
    decreases xs.len(),
{
    lemma_le_u32_seq_len(xs.drop_last());
    let prev = le_u32_seq(xs.drop_last());
    if i == xs.len() - 1 {
        assert(le_u32_seq(xs).subrange(4 * i, 4 * i + 4) =~= le_u32(xs[i]));
    } else {
        lemma_le_u32_seq_index(xs.drop_last(), i);
        assert(le_u32_seq(xs).subrange(4 * i, 4 * i + 4) =~= prev.subrange(4 * i, 4 * i + 4));
    }
}

/// Decoding the encoding of a well-formed trace with fewer than 2^32 packets gives back that
/// trace.
pub proof fn lemma_decode_encode(t: TraceView)
    requires
        t.wf(),
        t.len() <= u32::MAX,
    ensures
        decode_trace(encode_trace(t)) == Ok::<TraceView, TraceErrorView>(t),
{
    let n = t.len();
    let b = encode_trace(t);
    let hdr = trace_magic() + trace_version() + le_u32(n as u32);
    let pd = packed_dirs(t.directions);
    let ds = le_u32_seq(t.timing_deltas);
    let ss = le_u32_seq(t.sizes);
    lemma_le_u32_seq_len(t.timing_deltas);
    lemma_le_u32_seq_len(t.sizes);
    lemma_le_u32_round_trip(n as u32);
    assert(hdr.len() == 12);
    assert(b == hdr + pd + ds + ss);
    assert(b.subrange(0, 5) =~= trace_magic());
    assert(b.subrange(5, 8) =~= trace_version());
    assert(b.subrange(8, 12) =~= le_u32(n as u32));
    assert(from_le_u32(b.subrange(8, 12)) as nat == n);
    let delta_start: int = 12 + packed_len(n) as int;
    let size_start = delta_start + 4 * n;
    assert(b.len() == 12 + body_len(n));
    assert(b.subrange(12, delta_start) =~= pd);
    let r = decode_trace(b);
    assert(r is Ok);
    let d = r->Ok_0;
    assert forall|i: int| 0 <= i < n implies d.directions[i] == t.directions[i] by {
        lemma_unpack_packed(t.directions, i);
    }
    assert forall|i: int| 0 <= i < n implies d.timing_deltas[i] == t.timing_deltas[i] by {
        lemma_le_u32_seq_index(t.timing_deltas, i);
        assert(b.subrange(delta_start + 4 * i, delta_start + 4 * i + 4) =~= ds.subrange(
            4 * i,
            4 * i + 4,
        ));
        lemma_le_u32_round_trip(t.timing_deltas[i]);
    }
    assert forall|i: int| 0 <= i < n implies d.sizes[i] == t.sizes[i] by {
        lemma_le_u32_seq_index(t.sizes, i);
        assert(b.subrange(size_start + 4 * i, size_start + 4 * i + 4) =~= ss.subrange(
            4 * i,
            4 * i + 4,
        ));
        lemma_le_u32_round_trip(t.sizes[i]);
    }
    assert(d.directions =~= t.directions);
    assert(d.timing_deltas =~= t.timing_deltas);
    assert(d.sizes =~= t.sizes);
}


/// Pushes the four little-endian bytes of `x`.
pub(crate) fn push_le_u32(buf: &mut Vec<u8>, x: u32)
    ensures
        final(buf)@ == old(buf)@ + le_u32(x),
{
    buf.push((x & 0xff) as u8);
    buf.push(((x >> 8) & 0xff) as u8);
    buf.push(((x >> 16) & 0xff) as u8);
    buf.push(((x >> 24) & 0xff) as u8);
    assert(final(buf)@ =~= old(buf)@ + le_u32(x));
}

/// Reads the `u32` whose little-endian bytes start at `at`.
pub(crate) fn read_le_u32(bytes: &[u8], at: usize) -> (r: u32)
    requires
        at + 4 <= bytes@.len(),
    ensures
        r == from_le_u32(bytes@.subrange(at as int, at + 4)),
{
    let s = Ghost(bytes@.subrange(at as int, at + 4));
    assert(s@[0] == bytes@[at as int] && s@[1] == bytes@[at + 1] && s@[2] == bytes@[at + 2]
        && s@[3] == bytes@[at + 3]);
    (bytes[at] as u32) | ((bytes[at + 1] as u32) << 8u32) | ((bytes[at + 2] as u32) << 16u32) | ((
    bytes[at + 3] as u32) << 24u32)
}

/// Bit `i` of the packed directions, for `i < dirs.len()` tested without overflow.
fn dir_bit_at(dirs: &Vec<Direction>, base: usize, k: usize) -> (r: u8)
    requires
        base < dirs@.len(),
        k < 8,
    ensures
        r == dir_bit(dirs@, base + k),
{
    if k < dirs.len() - base {
        match dirs[base + k] {
            Direction::Receive => 1,
            Direction::Send => 0,
        }
    } else {
        0
    }
}

/// Byte `j` of the packed directions.
fn pack_byte(dirs: &Vec<Direction>, j: usize) -> (r: u8)
    requires
        j < packed_len(dirs@.len()),
    ensures
        r == packed_byte(dirs@, j as int),
{
    assert(8 * j < dirs@.len()) by (nonlinear_arith)
        requires
            j < (dirs@.len() + 7) / 8,
    ;
    let n = dirs.len();
    assert(8 * j < n);
    let base = 8 * j;
    let b0 = dir_bit_at(dirs, base, 0);
    let b1 = dir_bit_at(dirs, base, 1);
    let b2 = dir_bit_at(dirs, base, 2);
    let b3 = dir_bit_at(dirs, base, 3);
    let b4 = dir_bit_at(dirs, base, 4);
    let b5 = dir_bit_at(dirs, base, 5);
    let b6 = dir_bit_at(dirs, base, 6);
    let b7 = dir_bit_at(dirs, base, 7);
    b0 | (b1 << 1u8) | (b2 << 2u8) | (b3 << 3u8) | (b4 << 4u8) | (b5 << 5u8) | (b6 << 6u8) | (b7
        << 7u8)
}

impl Trace {
    /// Checks that the three fields have the same length; errs with the three lengths if not.
    pub fn len_check(&self) -> (r: Result<(), TraceError>)
        ensures
            r is Ok <==> self@.wf(),
            r is Err ==> r->Err_0@ == TraceErrorView::LengthMismatch(
                self.directions@.len() as usize,
                self.timing_deltas@.len() as usize,
                self.sizes@.len() as usize,
            ),
    {
        let directions_len = self.directions.len();
        let timing_deltas_len = self.timing_deltas.len();
        let sizes_len = self.sizes.len();
        if directions_len != timing_deltas_len || timing_deltas_len != sizes_len {
            Err(TraceError::LengthMismatch(directions_len, timing_deltas_len, sizes_len))
        } else {
            Ok(())
        }
    }

    /// The bytes of the binary trace format.
    ///
    /// Header: bytes 0-4 the magic bytes ("CHAFF"), bytes 5-7 the version (0.1.0), bytes 8-11 the
    /// trace length as a little-endian `u32`. Then the directions, packed LSB-first so that packet
    /// `i` occupies bit `i % 8` of byte `i / 8` (1 for a received packet), then the timing deltas,
    /// then the sizes, each a little-endian `u32`. Errs if the field lengths mismatch.
    pub fn to_bytes(&self) -> (r: Result<Vec<u8>, TraceError>)
        ensures
            self@.wf() ==> r is Ok && r->Ok_0@ == encode_trace(self@),
            !self@.wf() ==> r is Err && r->Err_0@ == TraceErrorView::LengthMismatch(
                self.directions@.len() as usize,
                self.timing_deltas@.len() as usize,
                self.sizes@.len() as usize,
            ),
    {
        match self.len_check() {
            Err(e) => return Err(e),
            Ok(()) => {},
        }
        let n = self.directions.len();
        let mut buf: Vec<u8> = Vec::new();
        buf.push(67u8);
        buf.push(72u8);
        buf.push(65u8);
        buf.push(70u8);
        buf.push(70u8);
        buf.push(0u8);
        buf.push(1u8);
        buf.push(0u8);
        assert(buf@ =~= trace_magic() + trace_version());
        push_le_u32(&mut buf, n as u32);
        let ghost hdr = buf@;
        let nbytes: usize = n / 8 + if n % 8 != 0 {
            1
        } else {
            0
        };
        assert(nbytes == packed_len(n as nat));
        let mut j: usize = 0;
        while j < nbytes
            invariant
                j <= nbytes,
                nbytes == packed_len(self.directions@.len()),
                buf@ == hdr + packed_dirs(self.directions@).take(j as int),
            decreases nbytes - j,
        {
            let byte = pack_byte(&self.directions, j);
            buf.push(byte);
            j = j + 1;
            assert(buf@ =~= hdr + packed_dirs(self.directions@).take(j as int));
        }
        assert(packed_dirs(self.directions@).take(j as int) =~= packed_dirs(self.directions@));
        let ghost mid = buf@;
        let mut i: usize = 0;
        while i < n
            invariant
                i <= n,
                n == self.timing_deltas@.len(),
                buf@ == mid + le_u32_seq(self.timing_deltas@.take(i as int)),
            decreases n - i,
        {
            push_le_u32(&mut buf, self.timing_deltas[i]);
            i = i + 1;
            assert(self.timing_deltas@.take(i as int).drop_last() =~= self.timing_deltas@.take(
                (i - 1) as int,
            ));
            assert(buf@ =~= mid + le_u32_seq(self.timing_deltas@.take(i as int)));
        }
        assert(self.timing_deltas@.take(n as int) =~= self.timing_deltas@);
        let ghost mid2 = buf@;
        let mut i: usize = 0;
        while i < n
            invariant
                i <= n,
                n == self.sizes@.len(),
                buf@ == mid2 + le_u32_seq(self.sizes@.take(i as int)),
            decreases n - i,
        {
            push_le_u32(&mut buf, self.sizes[i]);
            i = i + 1;
            assert(self.sizes@.take(i as int).drop_last() =~= self.sizes@.take((i - 1) as int));
            assert(buf@ =~= mid2 + le_u32_seq(self.sizes@.take(i as int)));
        }
        assert(self.sizes@.take(n as int) =~= self.sizes@);
        assert(buf@ =~= encode_trace(self@));
        Ok(buf)
    }

    /// Reads a trace from the bytes of the binary trace format (see [`Trace::to_bytes`]). Bytes
    /// after a complete trace are ignored.
    pub fn from_bytes(bytes: &[u8]) -> (r: Result<Trace, TraceError>)
        ensures
            r is Ok ==> decode_trace(bytes@) == Ok::<TraceView, TraceErrorView>(r->Ok_0@),
            r is Err ==> decode_trace(bytes@) == Err::<TraceView, TraceErrorView>(r->Err_0@),
    {
        let ghost b = bytes@;
        let blen = bytes.len();
        if blen < 5 {
            return Err(TraceError::UnexpectedEof);
        }
        if !(bytes[0] == 67u8 && bytes[1] == 72u8 && bytes[2] == 65u8 && bytes[3] == 70u8
            && bytes[4] == 70u8) {
            let mut magic: Vec<u8> = Vec::new();
            magic.push(bytes[0]);
            magic.push(bytes[1]);
            magic.push(bytes[2]);
            magic.push(bytes[3]);
            magic.push(bytes[4]);
            assert(magic@ =~= b.subrange(0, 5));
            assert(b.subrange(0, 5) != trace_magic()) by {
                if b.subrange(0, 5) == trace_magic() {
                    assert(b.subrange(0, 5)[0] == b[0]);
                    assert(b.subrange(0, 5)[1] == b[1]);
                    assert(b.subrange(0, 5)[2] == b[2]);
                    assert(b.subrange(0, 5)[3] == b[3]);
                    assert(b.subrange(0, 5)[4] == b[4]);
                }
            }
            return Err(TraceError::InvalidMagic(magic));
        }
        assert(b.subrange(0, 5) =~= trace_magic());
        if blen < 8 {
            return Err(TraceError::UnexpectedEof);
        }
        if !(bytes[5] == 0u8 && bytes[6] == 1u8 && bytes[7] == 0u8) {
            let mut version: Vec<u8> = Vec::new();
            version.push(bytes[5]);
            version.push(bytes[6]);
            version.push(bytes[7]);
            assert(version@ =~= b.subrange(5, 8));
            assert(b.subrange(5, 8) != trace_version()) by {
                if b.subrange(5, 8) == trace_version() {
                    assert(b.subrange(5, 8)[0] == b[5]);
                    assert(b.subrange(5, 8)[1] == b[6]);
                    assert(b.subrange(5, 8)[2] == b[7]);
                }
            }
            return Err(TraceError::InvalidVersion(version));
        }
        assert(b.subrange(5, 8) =~= trace_version());
        if blen < 12 {
            return Err(TraceError::UnexpectedEof);
        }
        let len32 = read_le_u32(bytes, 8);
        let n = len32 as usize;
        let nbytes: usize = n / 8 + if n % 8 != 0 {
            1
        } else {
            0
        };
        assert(nbytes == packed_len(n as nat));
        let needed: u64 = 12 + nbytes as u64 + 8 * (n as u64);
        if (blen as u64) < needed {
            return Err(TraceError::UnexpectedEof);
        }
        let delta_start: usize = 12 + nbytes;
        let size_start: usize = delta_start + 4 * n;
        let ghost dirs_bytes = b.subrange(12, delta_start as int);
        let mut directions: Vec<Direction> = Vec::new();
        let mut i: usize = 0;
        while i < n
            invariant
                i <= n,
                n == len32,
                nbytes == packed_len(n as nat),
                delta_start == 12 + nbytes,
                delta_start <= bytes@.len(),
                b == bytes@,
                dirs_bytes == b.subrange(12, delta_start as int),
                directions@.len() == i,
                forall|k: int| 0 <= k < i ==> directions@[k] == unpacked_dir(dirs_bytes, k),
            decreases n - i,
        {
            let byte = bytes[12 + i / 8];
            assert(byte == dirs_bytes[(i / 8) as int]);
            let bit = (byte >> ((i % 8) as u8)) & 1u8;
            if bit == 1u8 {
                directions.push(Direction::Receive);
            } else {
                directions.push(Direction::Send);
            }
            i = i + 1;
        }
        let mut timing_deltas: Vec<u32> = Vec::new();
        let mut i: usize = 0;
        while i < n
            invariant
                i <= n,
                n == len32,
                size_start == delta_start + 4 * n,
                size_start + 4 * n <= bytes@.len(),
                bytes@.len() == blen,
                b == bytes@,
                timing_deltas@.len() == i,
                forall|k: int|
                    0 <= k < i ==> timing_deltas@[k] == from_le_u32(
                        b.subrange(delta_start + 4 * k, delta_start + 4 * k + 4),
                    ),
            decreases n - i,
        {
            let x = read_le_u32(bytes, delta_start + 4 * i);
            timing_deltas.push(x);
            i = i + 1;
        }
        let mut sizes: Vec<u32> = Vec::new();
        let mut i: usize = 0;
        while i < n
            invariant
                i <= n,
                n == len32,
                size_start + 4 * n <= bytes@.len(),
                bytes@.len() == blen,
                b == bytes@,
                sizes@.len() == i,
                forall|k: int|
                    0 <= k < i ==> sizes@[k] == from_le_u32(
                        b.subrange(size_start + 4 * k, size_start + 4 * k + 4),
                    ),
            decreases n - i,
        {
            let x = read_le_u32(bytes, size_start + 4 * i);
            sizes.push(x);
            i = i + 1;
        }
        let t = Trace { directions, timing_deltas, sizes };
        proof {
            assert(b.subrange(8, 12) == bytes@.subrange(8, 12));
            let d = decode_trace(b)->Ok_0;
            assert(d.directions =~= t.directions@);
            assert(d.timing_deltas =~= t.timing_deltas@);
            assert(d.sizes =~= t.sizes@);
        }
        Ok(t)
    }

    /// A cursor over the packets of the trace, from the first.
    pub fn iter(&self) -> (r: TraceIter<'_>)
        ensures
            r.trace() == self,
            r.position() == 0,
    {
        TraceIter { trace: self, index: 0 }
    }

    /// The number of packets (the length of the directions).
    pub fn len(&self) -> (r: usize)
        ensures
            r == self@.len(),
    {
        self.directions.len()
    }

    /// Whether the trace has no packets (no directions).
    pub fn is_empty(&self) -> (r: bool)
        ensures
            r == (self@.len() == 0),
    {
        self.directions.len() == 0
    }
}

/// The name of a direction, as `Debug` writes it.
pub open spec fn direction_name(d: Direction) -> Seq<char> {
    match d {
        Direction::Send => seq!['S', 'e', 'n', 'd'],
        Direction::Receive => seq!['R', 'e', 'c', 'e', 'i', 'v', 'e'],
    }
}

/// The text line of one packet: `+{delta} {direction}: {size}` and a newline.
pub open spec fn packet_line(d: Direction, delta: u32, size: u32) -> Seq<char> {
    seq!['+'] + decimal(delta as nat) + seq![' '] + direction_name(d) + seq![':', ' ']
        + decimal(size as nat) + seq!['\n']
}

/// The text of the first `n` packets of a trace, one line each.
pub open spec fn trace_text_prefix(t: TraceView, n: nat) -> Seq<char>
    decreases n,
{
    if n == 0 {
        Seq::empty()
    } else {
        trace_text_prefix(t, (n - 1) as nat) + packet_line(
            t.directions[n - 1],
            t.timing_deltas[n - 1],
            t.sizes[n - 1],
        )
    }
}

/// The text of a trace: one line per packet.
pub open spec fn trace_text(t: TraceView) -> Seq<char> {
    trace_text_prefix(t, t.len())
}

impl Trace {
    /// The trace as text, one line per packet: `+{delta} {direction}: {size}`.
    pub fn to_string(&self) -> (r: String)
        requires
            self@.wf(),
        ensures
            r@ == trace_text(self@),
    {
        let mut s = String::new();
        let n = self.directions.len();
        let mut i: usize = 0;
        while i < n
            invariant
                self@.wf(),
                n == self@.len(),
                i <= n,
                s@ == trace_text_prefix(self@, i as nat),
            decreases n - i,
        {
            let ghost before = s@;
            proof {
                reveal_strlit("+");
                reveal_strlit(" ");
                reveal_strlit("Send");
                reveal_strlit("Receive");
                reveal_strlit(": ");
                reveal_strlit("\n");
            }
            s.append("+");
            push_decimal(&mut s, self.timing_deltas[i] as u64);
            s.append(" ");
            match self.directions[i] {
                Direction::Send => s.append("Send"),
                Direction::Receive => s.append("Receive"),
            }
            s.append(": ");
            push_decimal(&mut s, self.sizes[i] as u64);
            s.append("\n");
            assert(s@ =~= before + packet_line(
                self@.directions[i as int],
                self@.timing_deltas[i as int],
                self@.sizes[i as int],
            ));
            i = i + 1;
        }
        s
    }
}

/// Builds a [`Trace`] by recording packets one at a time, each with its absolute timestamp.
#[derive(Debug, Clone, PartialEq, Eq)]
pub struct TraceBuilder {
    directions: Vec<Direction>,
    timing_deltas: Vec<u32>,
    sizes: Vec<u32>,
    last_ts: u64,
}

impl TraceBuilder {
    /// The trace recorded so far.
    pub closed spec fn recorded(&self) -> TraceView {
        TraceView {
            directions: self.directions@,
            timing_deltas: self.timing_deltas@,
            sizes: self.sizes@,
        }
    }

    /// The timestamp of the last packet recorded, or the initial timestamp.
    pub closed spec fn last_ts(&self) -> u64 {
        self.last_ts
    }

    /// A builder with nothing recorded, whose first delta is measured from `initial_ts`.
    pub fn new(initial_ts: u64) -> (r: Self)
        ensures
            r.recorded() == (TraceView {
                directions: Seq::empty(),
                timing_deltas: Seq::empty(),
                sizes: Seq::empty(),
            }),
            r.last_ts() == initial_ts,
            r.recorded().wf(),
    {
        TraceBuilder {
            directions: Vec::new(),
            timing_deltas: Vec::new(),
            sizes: Vec::new(),
            last_ts: initial_ts,
        }
    }

    /// Appends a packet sent at absolute time `time`; its delta is the time since the last packet,
    /// truncated to 32 bits.
    pub fn record(&mut self, dir: Direction, time: u64, size: u32)
        requires
            old(self).recorded().wf(),
            time >= old(self).last_ts(),
        ensures
            final(self).recorded().wf(),
            final(self).recorded() == (TraceView {
                directions: old(self).recorded().directions.push(dir),
                timing_deltas: old(self).recorded().timing_deltas.push(
                    (time - old(self).last_ts()) as u32,
                ),
                sizes: old(self).recorded().sizes.push(size),
            }),
            final(self).last_ts() == time,
    {
        self.directions.push(dir);
        self.timing_deltas.push((time - self.last_ts) as u32);
        self.sizes.push(size);
        self.last_ts = time;
    }

    /// The trace recorded.
    pub fn build(self) -> (r: Trace)
        requires
            self.recorded().wf(),
        ensures
            r@.wf(),
            r@ == self.recorded(),
    {
        Trace { directions: self.directions, timing_deltas: self.timing_deltas, sizes: self.sizes }
    }
}

impl Default for TraceBuilder {
    /// A builder whose first delta is measured from time 0.
    fn default() -> (r: Self)
        ensures
            r.recorded() == (TraceView {
                directions: Seq::empty(),
                timing_deltas: Seq::empty(),
                sizes: Seq::empty(),
            }),
            r.last_ts() == 0,
            r.recorded().wf(),
    {
        TraceBuilder::new(0)
    }
}

} // verus!
