//! The tagged-union wire schema: inbound signaling messages and outbound
//! frames.  The JSON encoding of these values lives with the caller; the
//! handler works on the values themselves.

use vstd::prelude::*;
use crate::voice::VoicePeerInfo;
use crate::presence::PresenceUserStatus;

verus! {

/// An opaque encrypted blob broadcast to the subscribers of a signing key;
/// ephemeral, never stored.
pub struct EncryptedServerHint {
    pub encrypted_state: String,
    pub signature: String,
    pub last_updated: u64,
}

/// Inbound messages.  Unknown kinds never reach the handler: the caller
/// ignores them (forward compatibility), and closes the connection on a
/// parse failure.
pub enum SignalingMessage {
    Hello { peer_id: String, server_id: String, signing_pubkey: Option<String> },
    Offer { from: String, to: String, payload: String },
    Answer { from: String, to: String, payload: String },
    Ice { from: String, to: String, payload: String },
    Goodbye { peer_id: String },
    VoiceJoin { peer_id: String, user_id: String, server_id: String, chat_id: String },
    VoiceLeave { peer_id: String, server_id: String, chat_id: String },
    PresenceHello {
        user_id: String,
        signing_pubkeys: Vec<String>,
        active_signing_pubkey: Option<String>,
    },
    PresenceActive { user_id: String, active_signing_pubkey: Option<String> },
    PresenceDisconnect { user_id: String, signing_pubkeys: Vec<String> },
    PresenceSubscribe { signing_pubkey: String },
    ServerHintPublish { signing_pubkey: String, hint: EncryptedServerHint },
}

/// Outbound frames.
pub enum OutFrame {
    Welcome { peers: Vec<String> },
    PeerJoined { peer_id: String },
    PeerLeft { peer_id: String },
    Offer { from: String, to: String, payload: String },
    Answer { from: String, to: String, payload: String },
    Ice { from: String, to: String, payload: String },
    VoicePeers { peers: Vec<VoicePeerInfo> },
    VoicePeerJoined { peer_id: String, user_id: String },
    VoicePeerLeft { peer_id: String, user_id: String },
    PresenceSnapshot { users: Vec<PresenceUserStatus> },
    ServerHintUpdated {
        signing_pubkey: String,
        encrypted_state: String,
        signature: String,
        last_updated: u64,
    },
}

/// One frame to hand to one outbound channel, named by its sender token.
pub struct Emission {
    pub token: u64,
    pub frame: OutFrame,
}

} // verus!
