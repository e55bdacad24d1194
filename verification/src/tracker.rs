//! What a tracker answers, and which trackers can be asked.
use crate::error::Error;
use crate::utils::same_bytes;
use vstd::prelude::*;

verus! {

/// A peer as the tracker lists it.
#[derive(Debug)]
pub struct TrackerPeer {
    pub ip: String,
    pub port: u16,
    pub peer_id: Vec<u8>,
}

/// The tracker's answer: the peers to connect to, and the swarm's numbers.
#[derive(Debug)]
pub struct TrackerResponse {
    pub peers: Vec<TrackerPeer>,
    pub complete: i64,
    pub incomplete: i64,
    pub interval: i64,
    pub tracker_id: Option<String>,
    pub warning_message: Option<String>,
    pub min_interval: Option<i64>,
}

/// The ways to reach a tracker that an announce URL can name.
#[derive(Debug, Clone, Copy, PartialEq, Eq, Structural)]
pub enum Transport {
    Https,
    Udp,
}

/// The bytes of `https`.
pub open spec fn https_scheme() -> Seq<u8> {
    seq![104u8, 116, 116, 112, 115]
}

/// The bytes of `udp`.
pub open spec fn udp_scheme() -> Seq<u8> {
    seq![117u8, 100, 112]
}

/// The transport that a URL scheme names, where it names one.
pub fn transport_for(scheme: &[u8]) -> (r: Result<Transport, Error>)
    ensures
        r == if scheme@ == https_scheme() {
            Ok::<Transport, Error>(Transport::Https)
        } else if scheme@ == udp_scheme() {
            Ok::<Transport, Error>(Transport::Udp)
        } else {
            Err::<Transport, Error>(Error::UnsupportedScheme)
        },
{
    let https: [u8; 5] = [104, 116, 116, 112, 115];
    let udp: [u8; 3] = [117, 100, 112];
    assert(https@ =~= https_scheme());
    assert(udp@ =~= udp_scheme());
    if same_bytes(scheme, https.as_slice()) {
        Ok(Transport::Https)
    } else if same_bytes(scheme, udp.as_slice()) {
        Ok(Transport::Udp)
    } else {
        Err(Error::UnsupportedScheme)
    }
}

} // verus!
