//! Turning captured packets into traces: each packet's direction from its link-layer header, its
//! timestamp in microseconds, and its length.

use vstd::prelude::*;

use crate::fmt::{decimal, push_decimal, push_signed_decimal, signed_decimal};
use crate::trace::{
    CaptureError, DeviceError, Direction, Trace, TraceBuilder, TraceError, TraceView,
};

verus! {

/// The link type of Ethernet frames.
pub const ETHERNET: i32 = 1;

/// The link type of Linux "cooked" capture frames.
pub const LINUX_SLL: i32 = 113;

/// The link type of Linux "cooked" capture frames, version 2.
pub const LINUX_SLL2: i32 = 276;

/// A captured packet: its timestamp (seconds and microseconds), its length on the wire, and the
/// bytes captured from it.
#[derive(Debug, Clone)]
pub struct CapturedPacket {
    /// Seconds of the capture timestamp.
    pub ts_sec: i64,
    /// Microseconds of the capture timestamp.
    pub ts_usec: i64,
    /// The length of the packet on the wire.
    pub len: u32,
    /// The bytes captured.
    pub data: Vec<u8>,
}

/// The mathematical form of a [`DeviceError`] that this module produces.
pub enum DirectionError {
    /// A packet found invalid, with the message.
    InvalidPacket(Seq<char>),
}

/// The direction of a packet from its link-layer header: for Ethernet, sent when the source
/// address is the local address; for Linux cooked captures, by the packet type (0 to 3 received,
/// 4 sent). Other link types, short headers and other packet types are errors.
pub open spec fn packet_direction(data: Seq<u8>, linktype: i32, local_mac: Seq<u8>) -> Result<
    Direction,
    Seq<char>,
> {
    if linktype == ETHERNET {
        if data.len() < 12 {
            Err("Ethernet frame too short"@)
        } else if data.subrange(6, 12) == local_mac {
            Ok(Direction::Send)
        } else {
            Ok(Direction::Receive)
        }
    } else if linktype == LINUX_SLL {
        if data.len() < 2 {
            Err("SLL frame too short"@)
        } else {
            let packet_type = data[0] * 256 + data[1];
            if packet_type <= 3 {
                Ok(Direction::Receive)
            } else if packet_type == 4 {
                Ok(Direction::Send)
            } else {
                Err("Invalid SLL type: "@ + decimal(packet_type as nat))
            }
        }
    } else if linktype == LINUX_SLL2 {
        if data.len() < 11 {
            Err("SLL2 frame too short"@)
        } else if data[10] <= 3 {
            Ok(Direction::Receive)
        } else if data[10] == 4 {
            Ok(Direction::Send)
        } else {
            Err("Invalid SLL2 type: "@ + decimal(data[10] as nat))
        }
    } else {
        Err("Unsupported linktype: Linktype("@ + signed_decimal(linktype as int) + ")"@)
    }
}

/// An Ethernet frame long enough to hold its source address is sent exactly when all six bytes
/// of that address (bytes 6 to 11) are those of the local address, and received otherwise.
pub proof fn lemma_ethernet_direction(data: Seq<u8>, local_mac: Seq<u8>)
    requires
        data.len() >= 12,
        local_mac.len() == 6,
    ensures
        packet_direction(data, ETHERNET, local_mac) is Ok,
        packet_direction(data, ETHERNET, local_mac) == Ok::<Direction, Seq<char>>(Direction::Send) <==> (
        forall|j: int| 0 <= j < 6 ==> #[trigger] data[6 + j] == local_mac[j]),
        packet_direction(data, ETHERNET, local_mac) == Ok::<Direction, Seq<char>>(Direction::Receive) <==> (
        exists|j: int| 0 <= j < 6 && #[trigger] data[6 + j] != local_mac[j]),
{
    if forall|j: int| 0 <= j < 6 ==> #[trigger] data[6 + j] == local_mac[j] {
        assert forall|k: int| 0 <= k < 6 implies data.subrange(6, 12)[k] == local_mac[k] by {
            assert(data[6 + k] == local_mac[k]);
        }
        assert(data.subrange(6, 12) =~= local_mac);
    } else {
        let j = choose|j: int| 0 <= j < 6 && #[trigger] data[6 + j] != local_mac[j];
        assert(data.subrange(6, 12)[j] != local_mac[j]);
    }
}

/// A Linux cooked capture frame is received when its packet type is 0 to 3 and sent when it is
/// 4; other packet types, frames too short to hold the type, and other link types are errors.
pub proof fn lemma_cooked_direction(data: Seq<u8>, linktype: i32, local_mac: Seq<u8>)
    ensures
        linktype == LINUX_SLL && data.len() >= 2 ==> {
            let t = data[0] * 256 + data[1];
            &&& (packet_direction(data, linktype, local_mac) == Ok::<Direction, Seq<char>>(Direction::Send)
                <==> t == 4)
            &&& (packet_direction(data, linktype, local_mac) == Ok::<Direction, Seq<char>>(
                Direction::Receive,
            ) <==> t <= 3)
            &&& (packet_direction(data, linktype, local_mac) is Err <==> t > 4)
        },
        linktype == LINUX_SLL2 && data.len() >= 11 ==> {
            &&& (packet_direction(data, linktype, local_mac) == Ok::<Direction, Seq<char>>(Direction::Send)
                <==> data[10] == 4)
            &&& (packet_direction(data, linktype, local_mac) == Ok::<Direction, Seq<char>>(
                Direction::Receive,
            ) <==> data[10] <= 3)
            &&& (packet_direction(data, linktype, local_mac) is Err <==> data[10] > 4)
        },
        (linktype == LINUX_SLL && data.len() < 2) || (linktype == LINUX_SLL2 && data.len() < 11) || (
        linktype != ETHERNET && linktype != LINUX_SLL && linktype != LINUX_SLL2) || (linktype == ETHERNET
            && data.len() < 12) ==> packet_direction(data, linktype, local_mac) is Err,
{
}

/// Whether `r` is the outcome `spec` describes: the same direction, or an invalid-packet error
/// with the same message.
pub open spec fn direction_outcome(r: Result<Direction, DeviceError>, spec: Result<Direction, Seq<char>>) -> bool {
    match spec {
        Ok(d) => r == Ok::<Direction, DeviceError>(d),
        Err(m) => r matches Err(DeviceError::InvalidPacket(s)) && s@ == m,
    }
}

/// Determines the direction of a packet from its bytes, the capture's link type (Ethernet and
/// both Linux cooked capture types are handled) and the local MAC address (used for Ethernet).
pub fn determine_packet_direction(data: &[u8], linktype: i32, local_mac: [u8; 6]) -> (r: Result<
    Direction,
    DeviceError,
>)
    ensures
        direction_outcome(r, packet_direction(data@, linktype, local_mac@)),
        linktype == ETHERNET && data@.len() >= 12 ==> (r == Ok::<Direction, DeviceError>(Direction::Send)
            <==> (forall|j: int| 0 <= j < 6 ==> #[trigger] data@[6 + j] == local_mac@[j])),
        linktype == ETHERNET && data@.len() >= 12 ==> (r == Ok::<Direction, DeviceError>(Direction::Receive)
            <==> (exists|j: int| 0 <= j < 6 && #[trigger] data@[6 + j] != local_mac@[j])),
{
    proof {
        if linktype == ETHERNET && data@.len() >= 12 {
            lemma_ethernet_direction(data@, local_mac@);
        }
    }
    if linktype == ETHERNET {
        if data.len() < 12 {
            let mut m = String::new();
            m.append("Ethernet frame too short");
            return Err(DeviceError::InvalidPacket(m));
        }
        let mut same = true;
        let mut i: usize = 0;
        while i < 6
            invariant
                data@.len() >= 12,
                local_mac@.len() == 6,
                i <= 6,
                same <==> (forall|j: int| 0 <= j < i ==> data@[6 + j] == local_mac@[j]),
            decreases 6 - i,
        {
            if data[6 + i] != local_mac[i] {
                same = false;
            }
            i = i + 1;
        }
        proof {
            if same {
                assert(data@.subrange(6, 12) =~= local_mac@);
            } else {
                let j = choose|j: int| 0 <= j < 6 && data@[6 + j] != local_mac@[j];
                assert(data@.subrange(6, 12)[j] != local_mac@[j]);
            }
        }
        if same {
            Ok(Direction::Send)
        } else {
            Ok(Direction::Receive)
        }
    } else if linktype == LINUX_SLL {
        if data.len() < 2 {
            let mut m = String::new();
            m.append("SLL frame too short");
            return Err(DeviceError::InvalidPacket(m));
        }
        let packet_type: u16 = (data[0] as u16) * 256 + (data[1] as u16);
        if packet_type <= 3 {
            Ok(Direction::Receive)
        } else if packet_type == 4 {
            Ok(Direction::Send)
        } else {
            let mut m = String::new();
            m.append("Invalid SLL type: ");
            push_decimal(&mut m, packet_type as u64);
            Err(DeviceError::InvalidPacket(m))
        }
    } else if linktype == LINUX_SLL2 {
        if data.len() < 11 {
            let mut m = String::new();
            m.append("SLL2 frame too short");
            return Err(DeviceError::InvalidPacket(m));
        }
        if data[10] <= 3 {
            Ok(Direction::Receive)
        } else if data[10] == 4 {
            Ok(Direction::Send)
        } else {
            let mut m = String::new();
            m.append("Invalid SLL2 type: ");
            push_decimal(&mut m, data[10] as u64);
            Err(DeviceError::InvalidPacket(m))
        }
    } else {
        let mut m = String::new();
        m.append("Unsupported linktype: Linktype(");
        push_signed_decimal(&mut m, linktype as i64);
        m.append(")");
        Err(DeviceError::InvalidPacket(m))
    }
}

/// A signed integer read as an unsigned 64-bit one: negative values wrap around.
pub open spec fn as_unsigned(x: i64) -> nat {
    if x >= 0 {
        x as nat
    } else {
        (x + 0x1_0000_0000_0000_0000) as nat
    }
}

/// The microseconds of a capture timestamp: its seconds and microseconds, each read as unsigned.
pub open spec fn timestamp_us(ts_sec: i64, ts_usec: i64) -> nat {
    as_unsigned(ts_sec) * 1_000_000 + as_unsigned(ts_usec)
}

/// Converts a capture timestamp into microseconds.
pub fn packet_ts_to_us(ts_sec: i64, ts_usec: i64) -> (r: u64)
    requires
        timestamp_us(ts_sec, ts_usec) <= u64::MAX,
    ensures
        r == timestamp_us(ts_sec, ts_usec),
{
    let s = ts_sec as u64;
    let u = ts_usec as u64;
    assert(ts_sec >= 0 ==> s == ts_sec) by (bit_vector)
        requires
            s == ts_sec as u64,
    ;
    assert(ts_sec < 0 ==> s == ts_sec + 0x1_0000_0000_0000_0000) by (bit_vector)
        requires
            s == ts_sec as u64,
    ;
    assert(ts_usec >= 0 ==> u == ts_usec) by (bit_vector)
        requires
            u == ts_usec as u64,
    ;
    assert(ts_usec < 0 ==> u == ts_usec + 0x1_0000_0000_0000_0000) by (bit_vector)
        requires
            u == ts_usec as u64,
    ;
    s * 1_000_000 + u
}

/// The index of the first packet at or after `i` whose direction cannot be determined (the
/// number of packets if there is none).
pub open spec fn first_direction_error(
    ps: Seq<CapturedPacket>,
    linktype: i32,
    local_mac: Seq<u8>,
    i: int,
) -> int
    decreases ps.len() - i,
{
    if 0 <= i < ps.len() && packet_direction(ps[i].data@, linktype, local_mac) is Ok {
        first_direction_error(ps, linktype, local_mac, i + 1)
    } else {
        i
    }
}

/// The microseconds of the `i`th packet's timestamp.
pub open spec fn packet_us(ps: Seq<CapturedPacket>, i: int) -> nat {
    timestamp_us(ps[i].ts_sec, ps[i].ts_usec)
}

/// The trace of packets whose directions can all be determined: their directions, the time
/// since the previous packet (0 for the first, and for a packet captured before the previous
/// one), truncated to 32 bits, and their lengths.
pub open spec fn packets_trace(ps: Seq<CapturedPacket>, linktype: i32, local_mac: Seq<u8>) -> TraceView {
    TraceView {
        directions: Seq::new(
            ps.len(),
            |i: int| packet_direction(ps[i].data@, linktype, local_mac)->Ok_0,
        ),
        timing_deltas: Seq::new(
            ps.len(),
            |i: int|
                if i == 0 {
                    0u32
                } else {
                    (if packet_us(ps, i) >= packet_us(ps, i - 1) {
                        packet_us(ps, i) - packet_us(ps, i - 1)
                    } else {
                        0
                    }) as u32
                },
        ),
        sizes: Seq::new(ps.len(), |i: int| ps[i].len),
    }
}

/// Whether `r` is the error of the packet whose direction cannot be determined.
pub open spec fn direction_error_outcome(r: CaptureError, m: Seq<char>) -> bool {
    r matches CaptureError::Device(DeviceError::InvalidPacket(s)) && s@ == m
}

proof fn lemma_first_direction_error(ps: Seq<CapturedPacket>, linktype: i32, local_mac: Seq<u8>, i: int)
    requires
        0 <= i <= ps.len(),
    ensures
        i <= first_direction_error(ps, linktype, local_mac, i) <= ps.len(),
        first_direction_error(ps, linktype, local_mac, i) < ps.len() ==> packet_direction(
            ps[first_direction_error(ps, linktype, local_mac, i)].data@,
            linktype,
            local_mac,
        ) is Err,
        forall|j: int|
            i <= j < first_direction_error(ps, linktype, local_mac, i) ==> packet_direction(
                #[trigger] ps[j].data@,
                linktype,
                local_mac,
            ) is Ok,
    decreases ps.len() - i,
{
    if i < ps.len() && packet_direction(ps[i].data@, linktype, local_mac) is Ok {
        lemma_first_direction_error(ps, linktype, local_mac, i + 1);
    }
}

/// Converts captured packets into a trace (see `packets_trace`); the first packet whose
/// direction cannot be determined gives its error.
pub fn packets_to_trace(packets: &Vec<CapturedPacket>, linktype: i32, local_mac: [u8; 6]) -> (r: Result<
    Trace,
    CaptureError,
>)
    requires
        first_direction_error(packets@, linktype, local_mac@, 0) == packets@.len() ==> forall|
            i: int,
        |
            0 <= i < packets@.len() ==> timestamp_us(
                #[trigger] packets@[i].ts_sec,
                packets@[i].ts_usec,
            ) <= u64::MAX,
    ensures
        ({
            let k = first_direction_error(packets@, linktype, local_mac@, 0);
            if k < packets@.len() {
                r is Err && direction_error_outcome(
                    r->Err_0,
                    packet_direction(packets@[k].data@, linktype, local_mac@)->Err_0,
                )
            } else {
                r is Ok && r->Ok_0@ == packets_trace(packets@, linktype, local_mac@)
                    && r->Ok_0@.wf()
            }
        }),
{
    let ghost ps = packets@;
    let ghost mac = local_mac@;
    let n = packets.len();
    proof {
        lemma_first_direction_error(ps, linktype, mac, 0);
    }
    let mut directions: Vec<Direction> = Vec::new();
    let mut i: usize = 0;
    while i < n
        invariant
            n == ps.len(),
            ps == packets@,
            mac == local_mac@,
            i <= n,
            directions@.len() == i,
            forall|j: int| 0 <= j < i ==> packet_direction(#[trigger] ps[j].data@, linktype, mac) is Ok,
            forall|j: int|
                0 <= j < i ==> #[trigger] directions@[j] == packet_direction(
                    ps[j].data@,
                    linktype,
                    mac,
                )->Ok_0,
            first_direction_error(ps, linktype, mac, 0) == first_direction_error(ps, linktype, mac, i as int),
        decreases n - i,
    {
        let d = determine_packet_direction(packets[i].data.as_slice(), linktype, local_mac);
        match d {
            Ok(d) => {
                directions.push(d);
            },
            Err(e) => {
                return Err(CaptureError::Device(e));
            },
        }
        i = i + 1;
    }
    let mut timing_deltas: Vec<u32> = Vec::new();
    let mut sizes: Vec<u32> = Vec::new();
    let mut prev: u64 = 0;
    let mut i: usize = 0;
    while i < n
        invariant
            n == ps.len(),
            ps == packets@,
            first_direction_error(ps, linktype, mac, 0) == ps.len(),
            forall|j: int|
                0 <= j < ps.len() ==> timestamp_us(#[trigger] ps[j].ts_sec, ps[j].ts_usec) <= u64::MAX,
            i <= n,
            timing_deltas@.len() == i,
            sizes@.len() == i,
            i > 0 ==> prev == packet_us(ps, i - 1),
            forall|j: int|
                0 <= j < i ==> #[trigger] timing_deltas@[j] == packets_trace(
                    ps,
                    linktype,
                    mac,
                ).timing_deltas[j],
            forall|j: int| 0 <= j < i ==> #[trigger] sizes@[j] == ps[j].len,
        decreases n - i,
    {
        let us = packet_ts_to_us(packets[i].ts_sec, packets[i].ts_usec);
        if i == 0 {
            timing_deltas.push(0);
        } else {
            let diff: u64 = if us >= prev {
                us - prev
            } else {
                0
            };
            timing_deltas.push(diff as u32);
        }
        sizes.push(packets[i].len);
        prev = us;
        i = i + 1;
    }
    let t = Trace { directions, timing_deltas, sizes };
    assert(t@.directions =~= packets_trace(ps, linktype, mac).directions);
    assert(t@.timing_deltas =~= packets_trace(ps, linktype, mac).timing_deltas);
    assert(t@.sizes =~= packets_trace(ps, linktype, mac).sizes);
    Ok(t)
}

/// Whether streaming the packets into a trace stays within what the builder handles: the first
/// timestamp fits in `u64`, and each later packet that is reached (every packet up to it has a
/// direction) has a timestamp that fits and is no earlier than the previous one.
pub open spec fn stream_readable(ps: Seq<CapturedPacket>, linktype: i32, local_mac: Seq<u8>) -> bool {
    &&& ps.len() > 0 ==> packet_us(ps, 0) <= u64::MAX
    &&& forall|i: int|
        1 <= i < ps.len() && first_direction_error(ps, linktype, local_mac, 0) > i ==> {
            &&& #[trigger] packet_us(ps, i) <= u64::MAX
            &&& packet_us(ps, i) >= packet_us(ps, i - 1)
        }
}

/// Streams captured packets into a trace, packet by packet: no packet gives an `UnexpectedEof`
/// error, and the first packet whose direction cannot be determined gives its error.
pub fn capture_to_trace(packets: &Vec<CapturedPacket>, linktype: i32, local_mac: [u8; 6]) -> (r: Result<
    Trace,
    CaptureError,
>)
    requires
        stream_readable(packets@, linktype, local_mac@),
    ensures
        ({
            let k = first_direction_error(packets@, linktype, local_mac@, 0);
            if packets@.len() == 0 {
                r == Err::<Trace, CaptureError>(CaptureError::Trace(TraceError::UnexpectedEof))
            } else if k < packets@.len() {
                r is Err && direction_error_outcome(
                    r->Err_0,
                    packet_direction(packets@[k].data@, linktype, local_mac@)->Err_0,
                )
            } else {
                r is Ok && r->Ok_0@ == packets_trace(packets@, linktype, local_mac@)
                    && r->Ok_0@.wf()
            }
        }),
{
    let ghost ps = packets@;
    let ghost mac = local_mac@;
    let n = packets.len();
    if n == 0 {
        return Err(CaptureError::Trace(TraceError::UnexpectedEof));
    }
    proof {
        lemma_first_direction_error(ps, linktype, mac, 0);
    }
    let first_ts = packet_ts_to_us(packets[0].ts_sec, packets[0].ts_usec);
    let mut builder = TraceBuilder::new(first_ts);
    let mut i: usize = 0;
    while i < n
        invariant
            n == ps.len() > 0,
            ps == packets@,
            mac == local_mac@,
            stream_readable(ps, linktype, mac),
            i <= n,
            builder.recorded().wf(),
            builder.recorded().len() == i,
            first_ts == packet_us(ps, 0),
            i == 0 ==> builder.last_ts() == packet_us(ps, 0),
            i > 0 ==> builder.last_ts() == packet_us(ps, i - 1),
            forall|j: int| 0 <= j < i ==> packet_direction(#[trigger] ps[j].data@, linktype, mac) is Ok,
            forall|j: int|
                0 <= j < i ==> #[trigger] builder.recorded().directions[j]
                    == packets_trace(ps, linktype, mac).directions[j],
            forall|j: int|
                0 <= j < i ==> #[trigger] builder.recorded().timing_deltas[j]
                    == packets_trace(ps, linktype, mac).timing_deltas[j],
            forall|j: int|
                0 <= j < i ==> #[trigger] builder.recorded().sizes[j] == ps[j].len,
            first_direction_error(ps, linktype, mac, 0) == first_direction_error(ps, linktype, mac, i as int),
        decreases n - i,
    {
        let d = match determine_packet_direction(packets[i].data.as_slice(), linktype, local_mac) {
            Ok(d) => d,
            Err(e) => {
                return Err(CaptureError::Device(e));
            },
        };
        proof {
            lemma_first_direction_error(ps, linktype, mac, i as int + 1);
            assert(first_direction_error(ps, linktype, mac, i as int) == first_direction_error(
                ps,
                linktype,
                mac,
                i as int + 1,
            ));
            if i > 0 {
                assert(packet_us(ps, i as int) <= u64::MAX);
                assert(packet_us(ps, i as int) >= packet_us(ps, i - 1));
            }
        }
        let ts = if i == 0 {
            first_ts
        } else {
            packet_ts_to_us(packets[i].ts_sec, packets[i].ts_usec)
        };
        builder.record(d, ts, packets[i].len);
        i = i + 1;
    }
    let t = builder.build();
    assert(t@.directions =~= packets_trace(ps, linktype, mac).directions);
    assert(t@.timing_deltas =~= packets_trace(ps, linktype, mac).timing_deltas);
    assert(t@.sizes =~= packets_trace(ps, linktype, mac).sizes);
    Ok(t)
}

} // verus!
