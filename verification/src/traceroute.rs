//! Probes of a traceroute and their responses.

use std::time::SystemTime;

use vstd::prelude::*;

use crate::clock::{epoch_nanos, nanos_since_epoch, wall_now};
use crate::ip::IpAddr;
use crate::packet::{encode_echo_request, read_be16, read_embedded_offset, stamp};
use crate::packet::{EMBEDDED_IP_OFFSET, MIN_IP_HEADER};
use crate::packet::{
    be16, echo_request, embedded_offset, law_echo_request_verifies, payload_timestamp,
};

verus! {

/// The ICMP responses that a traceroute acts on.
#[derive(Clone, Copy, Debug, PartialEq, Eq, Structural)]
pub enum IcmpResponseType {
    /// Time Exceeded (type 11): an intermediate router answered.
    TimeExceeded,
    /// Echo Reply (type 0): the target answered.
    EchoReply,
}

/// Builds an echo request stamped with the current wall clock time.
pub fn build_icmp_echo_request(ident: u16, seq: u16) -> (r: Vec<u8>)
    ensures
        exists|now: SystemTime|
            r@ == echo_request(
                ident,
                seq,
                payload_timestamp(#[trigger] epoch_nanos(now)),
            ),
{
    let now = wall_now();
    encode_echo_request(ident, seq, stamp(nanos_since_epoch(now)))
}

/// The kind of a response, by its type and code; `None` for a packet shorter than an ICMP header
/// and for every other type.
pub open spec fn response_type(s: Seq<u8>) -> Option<IcmpResponseType> {
    if s.len() < 8 {
        None
    } else if s[0] == 11 && s[1] == 0 {
        Some(IcmpResponseType::TimeExceeded)
    } else if s[0] == 0 && s[1] == 0 {
        Some(IcmpResponseType::EchoReply)
    } else {
        None
    }
}

/// What a response says: its kind, and the identifier and sequence number of the embedded echo
/// request. `None` for an irrelevant kind, and where the packet ends before a full embedded IP
/// header or before the end of the embedded ICMP header, which holds the two numbers.
pub open spec fn parsed_response(s: Seq<u8>) -> Option<(IcmpResponseType, u16, u16)> {
    match response_type(s) {
        None => None,
        Some(kind) => {
            let at = embedded_offset(s);
            if s.len() < EMBEDDED_IP_OFFSET + MIN_IP_HEADER || s.len() < at + 8 {
                None
            } else {
                Some((kind, be16(s[at + 4], s[at + 5]), be16(s[at + 6], s[at + 7])))
            }
        },
    }
}

/// Reads the kind of a response.
fn read_response_type(buffer: &[u8]) -> (r: Option<IcmpResponseType>)
    ensures
        r == response_type(buffer@),
        r == Some(IcmpResponseType::TimeExceeded) <==> buffer@.len() >= 8 && buffer@[0] == 11
            && buffer@[1] == 0,
        r == Some(IcmpResponseType::EchoReply) <==> buffer@.len() >= 8 && buffer@[0] == 0
            && buffer@[1] == 0,
{
    if buffer.len() < 8 {
        return None;
    }
    if buffer[0] == 11 && buffer[1] == 0 {
        Some(IcmpResponseType::TimeExceeded)
    } else if buffer[0] == 0 && buffer[1] == 0 {
        Some(IcmpResponseType::EchoReply)
    } else {
        None
    }
}

/// Parses an ICMP response and finds the probe that it answers.
pub fn parse_icmp_response(buffer: &[u8]) -> (r: Option<(IcmpResponseType, u16, u16)>)
    ensures
        r == parsed_response(buffer@),
        r matches Some((kind, ident, seq)) ==> {
            let at = 8 + (buffer@[8] % 16) * 4;
            &&& buffer@.len() >= at + 8
            &&& buffer@[1] == 0
            &&& kind == IcmpResponseType::TimeExceeded <==> buffer@[0] == 11
            &&& kind == IcmpResponseType::EchoReply <==> buffer@[0] == 0
            &&& ident == 256 * buffer@[at + 4] + buffer@[at + 5]
            &&& seq == 256 * buffer@[at + 6] + buffer@[at + 7]
        },
{
    let kind = match read_response_type(buffer) {
        Some(kind) => kind,
        None => {
            return None;
        },
    };
    if buffer.len() < EMBEDDED_IP_OFFSET + MIN_IP_HEADER {
        return None;
    }
    let at: usize = read_embedded_offset(buffer);
    if buffer.len() < at + 8 {
        return None;
    }
    let ident: u16 = read_be16(buffer, at + 4);
    let seq: u16 = read_be16(buffer, at + 6);
    Some((kind, ident, seq))
}

/// A response names the probe that caused it: where it is an 8-byte ICMP header of type 11
/// or 0 and code 0, whatever else it holds, an IP header of the length that its first byte states (at least 20 bytes), and what it
/// quotes of an echo request that this library built, parsing it gives back its kind and the
/// request's identifier and sequence number. It is enough that the first 8 bytes of the request
/// are quoted; whatever follows them is ignored.
pub proof fn law_response_names_its_probe(
    icmp_header: Seq<u8>,
    ip_header: Seq<u8>,
    quoted: Seq<u8>,
    ident: u16,
    seq: u16,
    timestamp: u64,
)
    requires
        icmp_header.len() == 8,
        icmp_header[0] == 11 || icmp_header[0] == 0,
        icmp_header[1] == 0,
        ip_header.len() >= 20,
        ip_header.len() == (ip_header[0] % 16) * 4,
        quoted.len() >= 8,
        quoted.take(8) == echo_request(ident, seq, timestamp).take(8),
    ensures
        icmp_header[0] == 11 ==> parsed_response(icmp_header + ip_header + quoted) == Some(
            (IcmpResponseType::TimeExceeded, ident, seq),
        ),
        icmp_header[0] == 0 ==> parsed_response(icmp_header + ip_header + quoted) == Some(
            (IcmpResponseType::EchoReply, ident, seq),
        ),
{
    let request = echo_request(ident, seq, timestamp);
    let s = icmp_header + ip_header + quoted;
    law_echo_request_verifies(ident, seq, timestamp);
    assert forall|i: int| 0 <= i < 8 implies quoted[i] == request[i] by {
        assert(quoted.take(8)[i] == request.take(8)[i]);
    }
    assert(s[0] == icmp_header[0] && s[1] == icmp_header[1]);
    assert(s[8] == ip_header[0]);
    let at = embedded_offset(s);
    assert(at == 8 + ip_header.len());
    assert(s[at + 4] == quoted[4]);
    assert(s[at + 5] == quoted[5]);
    assert(s[at + 6] == quoted[6]);
    assert(s[at + 7] == quoted[7]);
}

// ---------------------------------------------------------------------------------------------
// Probes
// ---------------------------------------------------------------------------------------------

/// Why a traceroute cannot be run.
#[derive(Clone, Copy, Debug, PartialEq, Eq, Structural)]
pub enum TracerouteError {
    /// Probes go out over IPv4 only.
    Ipv6Unsupported,
}

impl TracerouteError {
    /// The text shown for the error.
    pub fn message(&self) -> (r: &'static str)
        ensures
            r@ == "IPv6 not yet supported"@,
    {
        "IPv6 not yet supported"
    }
}

/// The IPv4 address that a probe for `target` is sent to.
pub fn probe_address(target: IpAddr) -> (r: Result<u32, TracerouteError>)
    ensures
        r == (match target {
            IpAddr::V4(address) => Ok::<u32, TracerouteError>(address),
            IpAddr::V6(_) => Err(TracerouteError::Ipv6Unsupported),
        }),
{
    match target {
        IpAddr::V4(address) => Ok(address),
        IpAddr::V6(_) => Err(TracerouteError::Ipv6Unsupported),
    }
}

/// What became of a probe on the wire.
#[derive(Clone, Debug)]
pub enum ProbeOutcome {
    /// A packet came in, from the given address and so many nanoseconds after the probe.
    Packet { bytes: Vec<u8>, from: IpAddr, rtt_ns: u64 },
    /// Receiving failed.
    ReceiveError,
    /// Nothing came in within the time limit.
    TimedOut,
}

/// An answer to a probe: who answered, how, and after how many nanoseconds.
#[derive(Clone, Copy, Debug, PartialEq, Eq, Structural)]
pub struct ProbeReply {
    pub ip: IpAddr,
    pub response: IcmpResponseType,
    pub rtt_ns: u64,
}

/// The answer to the probe `(ident, seq)` that an outcome holds: a packet that parses and names
/// this very probe. Anything else is no answer.
pub open spec fn matching_reply(outcome: ProbeOutcome, ident: u16, seq: u16) -> Option<ProbeReply> {
    match outcome {
        ProbeOutcome::Packet { bytes, from, rtt_ns } => match parsed_response(bytes@) {
            Some((response, its_ident, its_seq)) => if its_ident == ident && its_seq == seq {
                Some(ProbeReply { ip: from, response, rtt_ns })
            } else {
                None
            },
            None => None,
        },
        _ => None,
    }
}

/// Decides whether an outcome answers the probe `(ident, seq)`.
pub fn probe_reply(outcome: &ProbeOutcome, ident: u16, seq: u16) -> (r: Option<ProbeReply>)
    ensures
        r == matching_reply(*outcome, ident, seq),
{
    match outcome {
        ProbeOutcome::Packet { bytes, from, rtt_ns } => {
            match parse_icmp_response(bytes.as_slice()) {
                Some((response, its_ident, its_seq)) => {
                    if its_ident == ident && its_seq == seq {
                        Some(ProbeReply { ip: *from, response, rtt_ns: *rtt_ns })
                    } else {
                        None
                    }
                },
                None => None,
            }
        },
        ProbeOutcome::ReceiveError => None,
        ProbeOutcome::TimedOut => None,
    }
}

/// Whether a probe was answered by the target itself.
pub open spec fn from_target(reply: Option<ProbeReply>) -> bool {
    reply matches Some(answer) && answer.response == IcmpResponseType::EchoReply
}

/// Decides whether a probe was answered by the target itself.
pub fn is_from_target(reply: &Option<ProbeReply>) -> (r: bool)
    ensures
        r == from_target(*reply),
{
    match reply {
        Some(answer) => match answer.response {
            IcmpResponseType::EchoReply => true,
            IcmpResponseType::TimeExceeded => false,
        },
        None => false,
    }
}

/// A response answers the probe that caused it, with its sender, its kind and its time, and no
/// other probe: neither one with another identifier nor one with another sequence number. The
/// response quotes at least the first 8 bytes of the probe.
pub proof fn law_response_answers_its_own_probe_only(
    icmp_header: Seq<u8>,
    ip_header: Seq<u8>,
    quoted: Seq<u8>,
    sent_ident: u16,
    sent_seq: u16,
    timestamp: u64,
    outcome: ProbeOutcome,
    ident: u16,
    seq: u16,
)
    requires
        icmp_header.len() == 8,
        icmp_header[0] == 11 || icmp_header[0] == 0,
        icmp_header[1] == 0,
        ip_header.len() >= 20,
        ip_header.len() == (ip_header[0] % 16) * 4,
        quoted.len() >= 8,
        quoted.take(8) == echo_request(sent_ident, sent_seq, timestamp).take(8),
        outcome matches ProbeOutcome::Packet { bytes, .. } && bytes@ == icmp_header + ip_header
            + quoted,
    ensures
        matching_reply(outcome, ident, seq) == if ident == sent_ident && seq == sent_seq {
            Some(
                ProbeReply {
                    ip: outcome->from,
                    response: if icmp_header[0] == 11 {
                        IcmpResponseType::TimeExceeded
                    } else {
                        IcmpResponseType::EchoReply
                    },
                    rtt_ns: outcome->rtt_ns,
                },
            )
        } else {
            None
        },
{
    law_response_names_its_probe(
        icmp_header,
        ip_header,
        quoted,
        sent_ident,
        sent_seq,
        timestamp,
    );
}

/// The kind of a response is decided by its type and code alone, whatever its checksum and its
/// other bytes are.
pub proof fn law_type_and_code_decide_the_kind(s: Seq<u8>)
    ensures
        s.len() < 8 ==> response_type(s) is None,
        s.len() >= 8 ==> {
            &&& response_type(s) == Some(IcmpResponseType::TimeExceeded) <==> s[0] == 11 && s[1]
                == 0
            &&& response_type(s) == Some(IcmpResponseType::EchoReply) <==> s[0] == 0 && s[1] == 0
            &&& response_type(s) is None <==> (s[0] != 11 && s[0] != 0) || s[1] != 0
        },
{
}

/// A packet is a response exactly where it has type 11 or 0 and code 0, a whole embedded IP
/// header of at least 20 bytes, and the 8 bytes after that header, whose length is four times the
/// low half of its first byte. The identifier and the sequence number are then the third and the
/// fourth 16-bit number of those 8 bytes. Nothing else in the packet matters.
pub proof fn law_what_is_read_of_a_response(s: Seq<u8>)
    ensures
        ({
            let at = 8 + (s[8] % 16) * 4;
            let complete = s.len() >= 28 && s.len() >= at + 8;
            &&& parsed_response(s) is Some <==> complete && s[1] == 0 && (s[0] == 11 || s[0] == 0)
            &&& parsed_response(s) matches Some((kind, ident, seq)) ==> {
                &&& kind == IcmpResponseType::TimeExceeded <==> s[0] == 11
                &&& ident == 256 * s[at + 4] + s[at + 5]
                &&& seq == 256 * s[at + 6] + s[at + 7]
            }
        }),
{
}

/// Two responses that agree in type, code and embedded header are read alike: bytes elsewhere,
/// the checksum and what follows among them, change nothing.
pub proof fn law_other_bytes_change_nothing(s: Seq<u8>, t: Seq<u8>)
    requires
        s.len() >= 28,
        t.len() >= 28,
        s[0] == t[0],
        s[1] == t[1],
        s[8] == t[8],
        s.len() >= 8 + (s[8] % 16) * 4 + 8,
        t.len() >= 8 + (s[8] % 16) * 4 + 8,
        forall|i: int|
            8 + (s[8] % 16) * 4 + 4 <= i < 8 + (s[8] % 16) * 4 + 8 ==> #[trigger] s[i] == t[i],
    ensures
        parsed_response(s) == parsed_response(t),
{
    let at = 8 + (s[8] % 16) * 4;
    assert(s[at + 4] == t[at + 4] && s[at + 5] == t[at + 5]);
    assert(s[at + 6] == t[at + 6] && s[at + 7] == t[at + 7]);
}

/// An outcome answers a probe exactly where it is a packet that reads as a response with the
/// probe's identifier and sequence number. The answer has the packet's sender, its time, and the
/// kind of the response; only an echo reply comes from the target.
pub proof fn law_what_answers_a_probe(outcome: ProbeOutcome, ident: u16, seq: u16)
    ensures
        matching_reply(outcome, ident, seq) is Some <==> outcome is Packet && (parsed_response(
            outcome->bytes@,
        ) matches Some((_, its_ident, its_seq)) && its_ident == ident && its_seq == seq),
        matching_reply(outcome, ident, seq) matches Some(reply) ==> {
            &&& reply.ip == outcome->from
            &&& reply.rtt_ns == outcome->rtt_ns
            &&& parsed_response(outcome->bytes@) == Some((reply.response, ident, seq))
            &&& from_target(Some(reply)) <==> outcome->bytes@[0] == 0
        },
        !from_target(None),
{
}

} // verus!
