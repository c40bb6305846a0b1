use crate::backgrounds::DEFAULT_MAX_IN_FLIGHT;
use crate::domain::{ProxyError, SeqNum, SequenceExtractor};
use crate::protocols::moldudp64::moldudp64_sequence;
use crate::protocols::MoldUdp64Extractor;
use vstd::prelude::*;

verus! {

/// `SO_RCVBUF` a scenario asks for when it names none: 4 MiB.
pub fn default_recv_buf() -> (bytes: usize)
    ensures
        bytes == 4 * 1024 * 1024,
{
    4 * 1024 * 1024
}

/// The delay-queue cap a scenario gets when it names none.
pub fn default_max_in_flight() -> (cap: usize)
    ensures
        cap == DEFAULT_MAX_IN_FLIGHT,
        cap > 0,
{
    DEFAULT_MAX_IN_FLIGHT
}

/// Where a feed's sequence numbers come from, as a scenario's `protocol`
/// names it.
#[derive(Debug, Clone, Copy, PartialEq, Eq, Structural)]
pub enum FeedProtocol {
    /// No protocol (`protocol` unset, or `"none"`): packets carry no
    /// sequence number, and sequence-aware operators forward everything.
    Unsequenced,
    /// MoldUDP64 (`"moldudp64"`): the header's big-endian sequence number.
    MoldUdp64,
}

impl SequenceExtractor for FeedProtocol {
    fn extract(&self, payload: &[u8]) -> (seqnum: Option<SeqNum>)
        ensures
            *self == FeedProtocol::Unsequenced ==> seqnum is None,
            *self == FeedProtocol::MoldUdp64 ==> (seqnum is Some <==> moldudp64_sequence(
                payload@,
            ) is Some),
            *self == FeedProtocol::MoldUdp64 ==> (seqnum matches Some(s) ==> moldudp64_sequence(
                payload@,
            ) == Some(s.0)),
    {
        match self {
            FeedProtocol::Unsequenced => None,
            FeedProtocol::MoldUdp64 => MoldUdp64Extractor.extract(payload),
        }
    }
}

/// The protocol a scenario's `protocol` field selects, or why it is rejected.
pub open spec fn protocol_named(name: Option<Seq<char>>) -> Result<FeedProtocol, Seq<char>> {
    match name {
        None => Ok(FeedProtocol::Unsequenced),
        Some(name) => if name == "none"@ {
            Ok(FeedProtocol::Unsequenced)
        } else if name == "moldudp64"@ {
            Ok(FeedProtocol::MoldUdp64)
        } else {
            Err("unknown protocol: "@ + name)
        },
    }
}

/// The sequence extractor for a scenario's `protocol`: none when it is unset
/// or `"none"`, MoldUDP64 for `"moldudp64"`; any other name is a
/// configuration error that names it.
pub fn build_extractor(protocol: Option<&str>) -> (extractor: Result<FeedProtocol, ProxyError>)
    ensures
        match (extractor, protocol_named(
            match protocol {
                Some(name) => Some(name@),
                None => None,
            },
        )) {
            (Ok(found), Ok(expected)) => found == expected,
            (Err(ProxyError::Config(message)), Err(expected)) => message@ == expected,
            _ => false,
        },
{
    proof {
        reveal_strlit("none");
        reveal_strlit("moldudp64");
    }
    match protocol {
        None => Ok(FeedProtocol::Unsequenced),
        Some(name) => {
            let owned = name.to_owned();
            if owned == "none".to_owned() {
                Ok(FeedProtocol::Unsequenced)
            } else if owned == "moldudp64".to_owned() {
                Ok(FeedProtocol::MoldUdp64)
            } else {
                Err(ProxyError::Config("unknown protocol: ".to_owned().concat(name)))
            }
        },
    }
}

} // verus!
