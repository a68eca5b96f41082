//! The plain values that devices exchange and the rest of the crate decides on.

use vstd::prelude::*;

use crate::text::str_eq;

verus! {

/// A device's identity, as the text it is shown and ordered by.
#[derive(Debug, Clone, PartialEq, Eq)]
pub struct DeviceId {
    pub text: String,
}

impl DeviceId {
    /// The characters of the identity.
    pub open spec fn view(&self) -> Seq<char> {
        self.text@
    }

    /// A device identity spelled `text`.
    pub fn new(text: &str) -> (r: DeviceId)
        ensures
            r@ == text@,
    {
        DeviceId { text: crate::text::copy_of(text) }
    }

    /// Whether two identities are the same device.
    pub fn is(&self, other: &DeviceId) -> (r: bool)
        ensures
            r == (self@ == other@),
    {
        str_eq(self.text.as_str(), other.text.as_str())
    }

    /// A copy of this identity.
    pub fn dup(&self) -> (r: DeviceId)
        ensures
            r == *self,
    {
        DeviceId { text: self.text.clone() }
    }
}

/// An IP address.
#[derive(Debug, Clone, Copy, PartialEq, Eq, Structural)]
pub enum Ip {
    V4(u32),
    V6(u128),
}

/// An IP address and a port.
#[derive(Debug, Clone, Copy, PartialEq, Eq, Structural)]
pub struct Endpoint {
    pub ip: Ip,
    pub port: u16,
}

/// A file offered by a device: what it is, without its bytes.
#[derive(Debug, Clone, PartialEq, Eq)]
pub struct FileMeta {
    pub id: u64,
    pub name: String,
    pub size: u64,
}

/// What a clipboard holds.
#[derive(Debug, Clone, PartialEq, Eq)]
pub enum ClipContent {
    Text(String),
    Image(Vec<u8>),
    Files(Vec<FileMeta>),
}

/// A device that another device vouches for.
#[derive(Debug, Clone, PartialEq, Eq)]
pub struct PeerIntro {
    pub device: DeviceId,
    pub name: String,
    pub static_public_key: Vec<u8>,
    pub addrs: Vec<Endpoint>,
}

/// What goes over a connection between two devices.
#[derive(Debug, Clone, PartialEq, Eq)]
pub enum SyncMessage {
    /// New clipboard content.
    Clip { origin: DeviceId, seq: u64, content_hash: u64, content: ClipContent },
    /// Asks for a file's bytes from `offset` on.
    FileNeed { generation: u64, file_id: u64, offset: u64 },
    /// A piece of a file; `offset` is its place in the uncompressed file.
    FileChunk {
        generation: u64,
        file_id: u64,
        offset: u64,
        data: Vec<u8>,
        compressed: bool,
        plain_len: u32,
    },
    /// A file is complete; the hash covers all of it.
    FileDone { generation: u64, file_id: u64, content_hash: u64 },
    /// The sender's clipboard has moved on.
    FileAbort { generation: u64 },
    /// The sender cannot provide a file.
    FileUnavailable { generation: u64, file_id: u64, reason: String },
    /// Where the sender can be reached.
    Addresses { addrs: Vec<Endpoint> },
    /// Devices the sender vouches for.
    Peers { peers: Vec<PeerIntro> },
    /// A device was removed from the group.
    Removed { device: DeviceId },
    /// Who the sender is and which protocol it speaks.
    Hello { protocol: u16, device: DeviceId, device_name: String },
    Ping,
    Pong,
}

/// A paired device as it is stored.
#[derive(Debug, Clone, PartialEq, Eq)]
pub struct PairingRecord {
    pub device: DeviceId,
    pub name: String,
    pub static_public_key: Vec<u8>,
    pub addrs: Vec<Endpoint>,
    /// Who vouched for the device; nobody when it was paired by hand.
    pub introduced_by: Option<String>,
}

/// What is needed to recognise a paired device.
#[derive(Debug, Clone, PartialEq, Eq)]
pub struct KnownPeer {
    pub device: DeviceId,
    pub name: String,
    pub static_public_key: Vec<u8>,
}

/// Whether two byte strings are the same.
pub fn bytes_eq(a: &[u8], b: &[u8]) -> (r: bool)
    ensures
        r == (a@ == b@),
{
    if a.len() != b.len() {
        return false;
    }
    let mut i: usize = 0;
    while i < a.len()
        invariant
            i <= a.len(),
            a@.len() == b@.len(),
            forall|k: int| 0 <= k < i ==> a@[k] == b@[k],
        decreases a.len() - i,
    {
        if a[i] != b[i] {
            return false;
        }
        i += 1;
    }
    assert(a@ =~= b@);
    true
}

} // verus!
