//! How a node is probed, and what the outcome says of its latency.
use crate::number::decimal;
use crate::number::decimal_text;
use crate::number::law_decimal_reads_back;
use crate::number::read_u64;
use crate::text::ascii_lowercase;
use crate::text::lowercase;
use crate::text::same_text;
use crate::text::to_lowercase;
use vstd::prelude::*;
use vstd::string::StringExecFns;
use vstd::utf8::is_ascii_chars;

verus! {

/// The port that stands behind a host that is only looked up.
pub const LOOKUP_PORT: u16 = 80;

/// `host:port`.
pub open spec fn address(host: Seq<char>, port: u16) -> Seq<char> {
    host + ":"@ + decimal(port as nat)
}

/// `host:port`.
pub fn address_text(host: &str, port: u16) -> (text: String)
    ensures
        text@ == address(host@, port),
{
    let mut text = host.to_owned();
    text.append(":");
    text.append(decimal_text(port as u64).as_str());
    text
}

/// The protocol, in small letters, is one that runs over UDP.
pub open spec fn is_udp(lower: Seq<char>) -> bool {
    lower == "hysteria2"@ || lower == "tuic"@
}

/// The protocol, in small letters, is one that runs over UDP.
pub fn lower_is_udp(lower: &str) -> (udp: bool)
    ensures
        udp == is_udp(lower@),
{
    same_text(lower, "hysteria2") || same_text(lower, "tuic")
}

/// A node of this protocol is probed over UDP, and any other over TCP.
pub fn probes_udp(node_type: &str) -> (udp: bool)
    ensures
        udp == is_udp(lowercase(node_type@)),
        is_ascii_chars(node_type@) ==> udp == is_udp(ascii_lowercase(node_type@)),
{
    let lower = to_lowercase(node_type);
    lower_is_udp(lower.as_str())
}

/// How a probe of a node ended.
#[derive(Debug, Clone, Copy, PartialEq, Eq, Structural)]
pub enum ProbeEnd {
    /// The node's address could not be found.
    Unresolved,
    /// The time was over.
    TimedOut,
    /// The probe could not be sent, or no connection was made.
    NotReached,
    /// The node's host answered that nothing listens there.
    Refused,
    /// The probe was sent, and the answer could not be received for another reason.
    NotReceived,
    /// The node answered, or a connection was made.
    Answered,
}

/// The probe shows that the node is there. It is also taken to be there where a probe got out and
/// was not refused.
pub open spec fn is_alive(end: ProbeEnd) -> bool {
    end == ProbeEnd::Answered || end == ProbeEnd::NotReceived
}

/// The latency that a probe shows which took `millis` milliseconds, counted modulo 2^64.
pub open spec fn measured(end: ProbeEnd, millis: u128) -> Option<u64> {
    if is_alive(end) {
        Some((millis % 0x1_0000_0000_0000_0000) as u64)
    } else {
        None
    }
}

/// The latency that a probe shows which took `millis` milliseconds.
pub fn ping_protocol(end: ProbeEnd, millis: u128) -> (latency: Option<u64>)
    ensures
        latency == measured(end, millis),
{
    match end {
        ProbeEnd::Answered | ProbeEnd::NotReceived => Some(
            (millis % 0x1_0000_0000_0000_0000) as u64,
        ),
        _ => None,
    }
}

/// A node that is there has the time that its probe took as its latency, in full as far as 64
/// bits hold it; one that is not has none, however long it took.
pub proof fn law_latency_is_the_time(millis: u128)
    ensures
        millis <= u64::MAX ==> measured(ProbeEnd::Answered, millis) == Some(millis as u64),
        millis <= u64::MAX ==> measured(ProbeEnd::NotReceived, millis) == Some(millis as u64),
        measured(ProbeEnd::Answered, millis) is Some,
        measured(ProbeEnd::NotReceived, millis) == measured(ProbeEnd::Answered, millis),
        measured(ProbeEnd::Unresolved, millis) is None,
        measured(ProbeEnd::TimedOut, millis) is None,
        measured(ProbeEnd::NotReached, millis) is None,
        measured(ProbeEnd::Refused, millis) is None,
{
}

/// Host and port can be told from an address: it is the whole host, a colon, and the port in
/// digits.
pub proof fn law_address_in_parts(host: Seq<char>, port: u16)
    ensures
        address(host, port).take(host.len() as int) == host,
        address(host, port)[host.len() as int] == ':',
        read_u64(address(host, port).skip(host.len() as int + 1)) == Some(port as u64),
{
    reveal_strlit(":");
    assert(":"@.len() == 1 && ":"@[0] == ':');
    assert(address(host, port).take(host.len() as int) =~= host);
    assert(address(host, port).skip(host.len() as int + 1) =~= decimal(port as nat));
    law_decimal_reads_back(port as u64);
}

/// Two protocols are probed over UDP, and only they.
pub proof fn law_udp_protocols(lower: Seq<char>)
    ensures
        is_udp(lower) <==> lower == seq!['t', 'u', 'i', 'c'] || lower == seq![
            'h',
            'y',
            's',
            't',
            'e',
            'r',
            'i',
            'a',
            '2',
        ],
{
    reveal_strlit("tuic");
    reveal_strlit("hysteria2");
    assert("tuic"@ =~= seq!['t', 'u', 'i', 'c']);
    assert("hysteria2"@ =~= seq!['h', 'y', 's', 't', 'e', 'r', 'i', 'a', '2']);
}

} // verus!
