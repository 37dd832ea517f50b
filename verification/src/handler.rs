//! Per-message dispatch: validates connection identity, mutates the
//! signaling/voice/presence state, and returns the frames to deliver, each
//! named by the sender token it goes to.  The caller performs the actual
//! sends after releasing its lock.

use vstd::prelude::*;
use crate::signaling::{SignalingState, SigModel, reg_model, reg_others, unreg_model, close_fold,
    hint_recipients_ok, server_tokens_ok, tokens_for};
use crate::voice::{VoiceState, vjoin_model, vjoin_others, vleave_model, vleave_user, vdisc_map,
    vdisc_removed, VoicePeerV};
use crate::presence::{MemoryPresence, hello_model, sat_add, UserRecordV, snapshot_shape};
use crate::messages::{SignalingMessage, OutFrame, Emission, EncryptedServerHint};

verus! {

/// The coordination hub: the three state machines behind one lock, plus the
/// presence TTL the handler stamps on presence writes.
pub struct Hub {
    pub signaling: SignalingState,
    pub voice: VoiceState,
    pub presence: MemoryPresence,
    pub presence_ttl: u64,
}

/// A message names a source peer bound to this connection.
pub open spec fn identity_ok(m: SigModel, from: Seq<char>, conn: Seq<char>) -> bool {
    m.peers.contains_key(from) && m.peers[from].conn_id == conn
}

/// A signaling payload may be forwarded: the source is authentic, the
/// destination is registered in the same server and has a live sender.
pub open spec fn route_ok(m: SigModel, from: Seq<char>, to: Seq<char>, conn: Seq<char>) -> bool {
    &&& identity_ok(m, from, conn)
    &&& m.peers.contains_key(to)
    &&& m.peers[to].server_id == m.peers[from].server_id
    &&& m.senders.contains_key(to)
}

/// The tokens of a list of emissions, in order.
pub open spec fn emission_tokens(es: Seq<Emission>) -> Seq<u64> {
    es.map_values(|e: Emission| e.token)
}

/// Some emission carries this token and a `PeerLeft` frame naming this peer.
pub open spec fn emits_peer_left_to(out: Seq<Emission>, tok: u64, p: Seq<char>) -> bool {
    exists|i: int|
        0 <= i < out.len() && (#[trigger] out[i]).token == tok && (out[i].frame matches
        OutFrame::PeerLeft { peer_id: pp } && pp@ == p)
}

/// Some emission carries this token and a `VoicePeerLeft` frame naming this
/// peer and user.
pub open spec fn emits_voice_peer_left_to(
    out: Seq<Emission>,
    tok: u64,
    p: Seq<char>,
    u: Seq<char>,
) -> bool {
    exists|i: int|
        0 <= i < out.len() && (#[trigger] out[i]).token == tok && (out[i].frame matches
        OutFrame::VoicePeerLeft { peer_id: pp, user_id: uu } && pp@ == p && uu@ == u)
}

proof fn lemma_emits_grow(a: Seq<Emission>, b: Seq<Emission>, tok: u64, p: Seq<char>)
    requires
        a.len() <= b.len(),
        forall|i: int| 0 <= i < a.len() ==> a[i] == #[trigger] b[i],
        emits_peer_left_to(a, tok, p),
    ensures
        emits_peer_left_to(b, tok, p),
{
    let i = choose|i: int|
        0 <= i < a.len() && (#[trigger] a[i]).token == tok && (a[i].frame matches
        OutFrame::PeerLeft { peer_id: pp } && pp@ == p);
    assert(b[i] == a[i]);
}

proof fn lemma_emits_voice_grow(a: Seq<Emission>, b: Seq<Emission>, tok: u64, p: Seq<char>, u: Seq<char>)
    requires
        a.len() <= b.len(),
        forall|i: int| 0 <= i < a.len() ==> a[i] == #[trigger] b[i],
        emits_voice_peer_left_to(a, tok, p, u),
    ensures
        emits_voice_peer_left_to(b, tok, p, u),
{
    let i = choose|i: int|
        0 <= i < a.len() && (#[trigger] a[i]).token == tok && (a[i].frame matches
        OutFrame::VoicePeerLeft { peer_id: pp, user_id: uu } && pp@ == p && uu@ == u);
    assert(b[i] == a[i]);
}

/// A peer with a bound sender always has its token in the fan-out list.
proof fn lemma_tokens_for_covers(ids: Seq<Seq<char>>, senders: Map<Seq<char>, u64>, j: int)
    requires
        0 <= j < ids.len(),
        senders.contains_key(ids[j]),
    ensures
        exists|k: int|
            0 <= k < tokens_for(ids, senders).len() && #[trigger] tokens_for(ids, senders)[k]
                == senders[ids[j]],
    decreases ids.len(),
{
    let tk = tokens_for(ids, senders);
    if j == ids.len() - 1 {
        assert(tk[tk.len() - 1] == senders[ids[j]]);
    } else {
        assert(ids.drop_last()[j] == ids[j]);
        lemma_tokens_for_covers(ids.drop_last(), senders, j);
        let rest = tokens_for(ids.drop_last(), senders);
        let k = choose|k: int|
            0 <= k < rest.len() && #[trigger] rest[k] == senders[ids.drop_last()[j]];
        assert(tk[k] == senders[ids[j]]);
    }
}

impl SignalingState {
    /// Build the `ServerHintUpdated` frames for every subscriber of the
    /// signing key with a live sender; the hint itself is never stored, and
    /// the sends are the caller's, best effort.
    pub fn broadcast_server_hint_updated(
        &self,
        signing_pubkey: &String,
        hint: &EncryptedServerHint,
    ) -> (out: Vec<Emission>)
        requires
            self.wf(),
        ensures
            forall|i: int| 0 <= i < out@.len() ==> ((#[trigger] out@[i]).frame matches
                OutFrame::ServerHintUpdated { signing_pubkey: k, encrypted_state: e, signature: g, last_updated: t }
                && k@ == signing_pubkey@ && e@ == hint.encrypted_state@ && g@ == hint.signature@
                && t == hint.last_updated),
            exists|ps: Seq<Seq<char>>| #[trigger] hint_recipients_ok(
                self@,
                signing_pubkey@,
                ps,
                emission_tokens(out@),
            ),
    {
        let toks = self.hint_subscriber_tokens(signing_pubkey);
        let mut out: Vec<Emission> = Vec::new();
        let n = toks.len();
        for i in 0..n
            invariant
                n == toks@.len(),
                out@.len() == i,
                forall|t: int| 0 <= t < out@.len() ==> ((#[trigger] out@[t]).frame matches
                    OutFrame::ServerHintUpdated { signing_pubkey: k, encrypted_state: e, signature: g, last_updated: u }
                    && k@ == signing_pubkey@ && e@ == hint.encrypted_state@ && g@
                    == hint.signature@ && u == hint.last_updated && out@[t].token == toks@[t]),
        {
            out.push(
                Emission {
                    token: toks[i],
                    frame: OutFrame::ServerHintUpdated {
                        signing_pubkey: signing_pubkey.clone(),
                        encrypted_state: hint.encrypted_state.clone(),
                        signature: hint.signature.clone(),
                        last_updated: hint.last_updated,
                    },
                },
            );
        }
        proof {
            assert(emission_tokens(out@) =~= toks@);
        }
        out
    }
}

impl Hub {
    pub open spec fn wf(&self) -> bool {
        self.signaling.wf() && self.voice.wf() && self.presence.wf()
    }

    pub fn new(presence_ttl: u64) -> (r: Self)
        ensures
            r.wf(),
            r.presence_ttl == presence_ttl,
            r.signaling@.peers == Map::<Seq<char>, crate::signaling::PeerConnV>::empty(),
            r.signaling@.conns == Map::<Seq<char>, Set<Seq<char>>>::empty(),
            r.signaling@.senders == Map::<Seq<char>, u64>::empty(),
            r.voice@ == Map::<(Seq<char>, Seq<char>), Seq<VoicePeerV>>::empty(),
            r.presence@.users == Map::<Seq<char>, UserRecordV>::empty(),
            r.presence@.by_key == Map::<Seq<char>, Set<Seq<char>>>::empty(),
    {
        Hub {
            signaling: SignalingState::new(),
            voice: VoiceState::new(),
            presence: MemoryPresence::new(),
            presence_ttl,
        }
    }

    /// The sender token of the destination, when forwarding is allowed.
    fn route_target(&self, from: &String, to: &String, conn_id: &String) -> (r: Option<u64>)
        requires
            self.wf(),
        ensures
            r is Some <==> route_ok(self.signaling@, from@, to@, conn_id@),
            r is Some ==> r->0 == self.signaling@.senders[to@],
    {
        if !self.signaling.validate_peer_connection(from, conn_id) {
            return None;
        }
        let from_server = match self.signaling.get_server(from) {
            Some(s) => s,
            None => {
                return None;
            },
        };
        let to_server = match self.signaling.get_server(to) {
            Some(s) => s,
            None => {
                return None;
            },
        };
        if !(from_server == to_server) {
            return None;
        }
        match self.signaling.peer_senders.get(to) {
            Some(tok) => Some(*tok),
            None => None,
        }
    }

    /// Register the peer, bind its sender, welcome it with the peers already
    /// in its server, and announce it to them.
    pub fn handle_hello(
        &mut self,
        conn_id: &String,
        origin_token: u64,
        peer_id: String,
        server_id: String,
        signing_pubkey: Option<String>,
    ) -> (out: Vec<Emission>)
        requires
            old(self).wf(),
        ensures
            final(self).wf(),
            final(self).voice == old(self).voice,
            final(self).presence == old(self).presence,
            final(self).presence_ttl == old(self).presence_ttl,
            ({
                let reg = reg_model(
                    old(self).signaling@,
                    peer_id@,
                    server_id@,
                    match signing_pubkey {
                        Some(k) => Some(k@),
                        None => None,
                    },
                    conn_id@,
                );
                final(self).signaling@ == (SigModel {
                    senders: reg.senders.insert(peer_id@, origin_token),
                    ..reg
                })
            }),
            out@.len() >= 1,
            out@[0].token == origin_token,
            (out@[0].frame matches OutFrame::Welcome { peers } && peers.deep_view().no_duplicates()
                && peers.deep_view().to_set() == reg_others(
                old(self).signaling@,
                peer_id@,
                server_id@,
            )),
            forall|i: int| 1 <= i < out@.len() ==> ((#[trigger] out@[i]).frame matches
                OutFrame::PeerJoined { peer_id: q } && q@ == peer_id@),
            exists|ps: Seq<Seq<char>>| #[trigger] server_tokens_ok(
                final(self).signaling@,
                server_id@,
                peer_id@,
                ps,
                emission_tokens(out@.skip(1)),
            ),
    {
        let others = self.signaling.register_peer(
            peer_id.clone(),
            server_id.clone(),
            signing_pubkey,
            conn_id.clone(),
        );
        self.signaling.bind_sender(&peer_id, origin_token);
        let toks = self.signaling.server_tokens_except(&server_id, &peer_id);
        let ghost oset = reg_others(old(self).signaling@, peer_id@, server_id@);
        let mut out: Vec<Emission> = Vec::new();
        out.push(Emission { token: origin_token, frame: OutFrame::Welcome { peers: others } });
        let n = toks.len();
        for i in 0..n
            invariant
                n == toks@.len(),
                out@.len() == 1 + i,
                out@[0].token == origin_token,
                (out@[0].frame matches OutFrame::Welcome { peers }
                    && peers.deep_view().no_duplicates() && peers.deep_view().to_set() == oset),
                forall|t: int| 1 <= t < out@.len() ==> ((#[trigger] out@[t]).frame matches
                    OutFrame::PeerJoined { peer_id: q } && q@ == peer_id@ && out@[t].token
                    == toks@[t - 1]),
        {
            out.push(
                Emission {
                    token: toks[i],
                    frame: OutFrame::PeerJoined { peer_id: peer_id.clone() },
                },
            );
        }
        proof {
            assert(emission_tokens(out@.skip(1)) =~= toks@);
        }
        out
    }

    /// Unregister the peer named by an authentic Goodbye and announce the
    /// departure to the peers remaining in its server.  A Goodbye carrying a
    /// peer bound to another connection changes nothing and emits nothing.
    pub fn handle_goodbye(&mut self, conn_id: &String, peer_id: String) -> (out: Vec<Emission>)
        requires
            old(self).wf(),
        ensures
            final(self).wf(),
            final(self).voice == old(self).voice,
            final(self).presence == old(self).presence,
            final(self).presence_ttl == old(self).presence_ttl,
            !identity_ok(old(self).signaling@, peer_id@, conn_id@) ==> final(self).signaling
                == old(self).signaling && out@.len() == 0,
            identity_ok(old(self).signaling@, peer_id@, conn_id@) ==> {
                &&& final(self).signaling@ == unreg_model(old(self).signaling@, peer_id@)
                &&& (forall|i: int| 0 <= i < out@.len() ==> ((#[trigger] out@[i]).frame matches
                    OutFrame::PeerLeft { peer_id: q } && q@ == peer_id@))
                &&& exists|ps: Seq<Seq<char>>| #[trigger] server_tokens_ok(
                    final(self).signaling@,
                    old(self).signaling@.peers[peer_id@].server_id,
                    peer_id@,
                    ps,
                    emission_tokens(out@),
                )
            },
    {
        if !self.signaling.validate_peer_connection(&peer_id, conn_id) {
            return Vec::new();
        }
        let server_id = match self.signaling.get_server(&peer_id) {
            Some(s) => s,
            None => {
                return Vec::new();
            },
        };
        self.signaling.unregister_peer(&peer_id);
        let toks = self.signaling.server_tokens_except(&server_id, &peer_id);
        let mut out: Vec<Emission> = Vec::new();
        let n = toks.len();
        for i in 0..n
            invariant
                n == toks@.len(),
                out@.len() == i,
                forall|t: int| 0 <= t < out@.len() ==> ((#[trigger] out@[t]).frame matches
                    OutFrame::PeerLeft { peer_id: q } && q@ == peer_id@ && out@[t].token
                    == toks@[t]),
        {
            out.push(
                Emission { token: toks[i], frame: OutFrame::PeerLeft { peer_id: peer_id.clone() } },
            );
        }
        proof {
            assert(emission_tokens(out@) =~= toks@);
        }
        out
    }

    /// Join the peer to a voice chat (replacing any prior entry of the same
    /// user), report the other members back, and announce the joiner to
    /// them.  An inauthentic join changes nothing and emits nothing.
    pub fn handle_voice_join(
        &mut self,
        conn_id: &String,
        origin_token: u64,
        peer_id: String,
        user_id: String,
        server_id: String,
        chat_id: String,
    ) -> (out: Vec<Emission>)
        requires
            old(self).wf(),
        ensures
            final(self).wf(),
            final(self).signaling == old(self).signaling,
            final(self).presence == old(self).presence,
            final(self).presence_ttl == old(self).presence_ttl,
            !identity_ok(old(self).signaling@, peer_id@, conn_id@) ==> final(self).voice == old(
                self,
            ).voice && out@.len() == 0,
            identity_ok(old(self).signaling@, peer_id@, conn_id@) ==> {
                let ov = vjoin_others(old(self).voice@, (server_id@, chat_id@), peer_id@, user_id@);
                &&& final(self).voice@ == vjoin_model(
                    old(self).voice@,
                    (server_id@, chat_id@),
                    peer_id@,
                    user_id@,
                    conn_id@,
                )
                &&& out@.len() >= 1
                &&& out@[0].token == origin_token
                &&& (out@[0].frame matches OutFrame::VoicePeers { peers } && peers@.len()
                    == ov.len() && (forall|j: int| 0 <= j < ov.len()
                    ==> (#[trigger] peers@[j]).peer_id@ == ov[j].peer_id && peers@[j].user_id@
                        == ov[j].user_id))
                &&& emission_tokens(out@.skip(1)) == tokens_for(
                    ov.map_values(|vp: VoicePeerV| vp.peer_id),
                    old(self).signaling@.senders,
                )
                &&& (forall|i: int| 1 <= i < out@.len() ==> ((#[trigger] out@[i]).frame matches
                    OutFrame::VoicePeerJoined { peer_id: q, user_id: w } && q@ == peer_id@ && w@
                        == user_id@))
            },
    {
        if !self.signaling.validate_peer_connection(&peer_id, conn_id) {
            return Vec::new();
        }
        let ghost ov = vjoin_others(old(self).voice@, (server_id@, chat_id@), peer_id@, user_id@);
        let others = self.voice.register_voice_peer(
            peer_id.clone(),
            user_id.clone(),
            server_id,
            chat_id,
            conn_id.clone(),
        );
        // Tokens of the other members, to announce the joiner to them.
        let mut ids: Vec<String> = Vec::new();
        let on = others.len();
        for j in 0..on
            invariant
                on == others@.len(),
                others@.len() == ov.len(),
                forall|t: int| 0 <= t < ov.len() ==> (#[trigger] others@[t]).peer_id@
                    == ov[t].peer_id && others@[t].user_id@ == ov[t].user_id,
                ids.deep_view() =~= ov.map_values(|vp: VoicePeerV| vp.peer_id).take(j as int),
        {
            let ghost pre = ids.deep_view();
            ids.push(others[j].peer_id.clone());
            proof {
                assert(ids.deep_view() =~= pre.push(ov[j as int].peer_id));
                assert(ov.map_values(|vp: VoicePeerV| vp.peer_id).take(j + 1) =~= pre.push(
                    ov[j as int].peer_id,
                ));
            }
        }
        proof {
            assert(ov.map_values(|vp: VoicePeerV| vp.peer_id).take(on as int) =~= ov.map_values(
                |vp: VoicePeerV| vp.peer_id,
            ));
        }
        let toks = self.signaling.tokens_for_ids(&ids);
        let mut out: Vec<Emission> = Vec::new();
        out.push(Emission { token: origin_token, frame: OutFrame::VoicePeers { peers: others } });
        let n = toks.len();
        for i in 0..n
            invariant
                n == toks@.len(),
                out@.len() == 1 + i,
                out@[0].token == origin_token,
                (out@[0].frame matches OutFrame::VoicePeers { peers } && peers@.len() == ov.len()
                    && (forall|j: int| 0 <= j < ov.len() ==> (#[trigger] peers@[j]).peer_id@
                    == ov[j].peer_id && peers@[j].user_id@ == ov[j].user_id)),
                forall|t: int| 1 <= t < out@.len() ==> ((#[trigger] out@[t]).frame matches
                    OutFrame::VoicePeerJoined { peer_id: q, user_id: w } && q@ == peer_id@ && w@
                    == user_id@ && out@[t].token == toks@[t - 1]),
        {
            out.push(
                Emission {
                    token: toks[i],
                    frame: OutFrame::VoicePeerJoined {
                        peer_id: peer_id.clone(),
                        user_id: user_id.clone(),
                    },
                },
            );
        }
        proof {
            assert(emission_tokens(out@.skip(1)) =~= toks@);
        }
        out
    }

    /// Remove the peer from a voice chat and announce the departure to the
    /// remaining members.  An inauthentic leave changes nothing.
    pub fn handle_voice_leave(
        &mut self,
        conn_id: &String,
        peer_id: String,
        server_id: String,
        chat_id: String,
    ) -> (out: Vec<Emission>)
        requires
            old(self).wf(),
        ensures
            final(self).wf(),
            final(self).signaling == old(self).signaling,
            final(self).presence == old(self).presence,
            final(self).presence_ttl == old(self).presence_ttl,
            !identity_ok(old(self).signaling@, peer_id@, conn_id@) ==> final(self).voice == old(
                self,
            ).voice && out@.len() == 0,
            identity_ok(old(self).signaling@, peer_id@, conn_id@) ==> {
                let key = (server_id@, chat_id@);
                &&& final(self).voice@ == vleave_model(old(self).voice@, key, peer_id@)
                &&& (vleave_user(old(self).voice@, key, peer_id@) is None ==> out@.len() == 0)
                &&& (vleave_user(old(self).voice@, key, peer_id@) matches Some(u) ==> {
                    &&& (forall|i: int| 0 <= i < out@.len() ==> ((#[trigger] out@[i]).frame
                        matches OutFrame::VoicePeerLeft { peer_id: q, user_id: w } && q@
                        == peer_id@ && w@ == u))
                    &&& emission_tokens(out@) == tokens_for(
                        (if final(self).voice@.contains_key(key) {
                            final(self).voice@[key].map_values(|vp: VoicePeerV| vp.peer_id)
                        } else {
                            Seq::<Seq<char>>::empty()
                        }),
                        old(self).signaling@.senders,
                    )
                })
            },
    {
        if !self.signaling.validate_peer_connection(&peer_id, conn_id) {
            return Vec::new();
        }
        let departed = self.voice.unregister_voice_peer(&peer_id, &server_id, &chat_id);
        match departed {
            None => Vec::new(),
            Some(user_id) => {
                let ids = self.voice.chat_member_ids(&server_id, &chat_id);
                let toks = self.signaling.tokens_for_ids(&ids);
                let mut out: Vec<Emission> = Vec::new();
                let n = toks.len();
                for i in 0..n
                    invariant
                        n == toks@.len(),
                        out@.len() == i,
                        forall|t: int| 0 <= t < out@.len() ==> ((#[trigger] out@[t]).frame
                            matches OutFrame::VoicePeerLeft { peer_id: q, user_id: w } && q@
                            == peer_id@ && w@ == user_id@ && out@[t].token == toks@[t]),
                {
                    out.push(
                        Emission {
                            token: toks[i],
                            frame: OutFrame::VoicePeerLeft {
                                peer_id: peer_id.clone(),
                                user_id: user_id.clone(),
                            },
                        },
                    );
                }
                proof {
                    assert(emission_tokens(out@) =~= toks@);
                }
                out
            },
        }
    }

    /// Dispatch one inbound message.  `origin_token` is the sender token of
    /// the connection the message arrived on; `now` is the caller's clock,
    /// stamped on presence writes.
    pub fn handle_message(
        &mut self,
        conn_id: &String,
        origin_token: u64,
        msg: SignalingMessage,
        now: u64,
    ) -> (out: Vec<Emission>)
        requires
            old(self).wf(),
        ensures
            final(self).wf(),
            final(self).presence_ttl == old(self).presence_ttl,
            // Identity enforcement: a message whose named source peer is not
            // bound to this connection changes nothing and emits nothing.
            (msg matches SignalingMessage::Offer { from, to, payload } ==> {
                &&& final(self).signaling == old(self).signaling
                &&& final(self).voice == old(self).voice
                &&& final(self).presence == old(self).presence
                &&& (route_ok(old(self).signaling@, from@, to@, conn_id@) ==> out@.len() == 1
                    && out@[0].token == old(self).signaling@.senders[to@] && (out@[0].frame
                    matches OutFrame::Offer { from: f, to: t, payload: p } && f@ == from@ && t@
                        == to@ && p@ == payload@))
                &&& (!route_ok(old(self).signaling@, from@, to@, conn_id@) ==> out@.len() == 0)
            }),
            (msg matches SignalingMessage::Answer { from, to, payload } ==> {
                &&& final(self).signaling == old(self).signaling
                &&& final(self).voice == old(self).voice
                &&& final(self).presence == old(self).presence
                &&& (route_ok(old(self).signaling@, from@, to@, conn_id@) ==> out@.len() == 1
                    && out@[0].token == old(self).signaling@.senders[to@] && (out@[0].frame
                    matches OutFrame::Answer { from: f, to: t, payload: p } && f@ == from@ && t@
                        == to@ && p@ == payload@))
                &&& (!route_ok(old(self).signaling@, from@, to@, conn_id@) ==> out@.len() == 0)
            }),
            (msg matches SignalingMessage::Ice { from, to, payload } ==> {
                &&& final(self).signaling == old(self).signaling
                &&& final(self).voice == old(self).voice
                &&& final(self).presence == old(self).presence
                &&& (route_ok(old(self).signaling@, from@, to@, conn_id@) ==> out@.len() == 1
                    && out@[0].token == old(self).signaling@.senders[to@] && (out@[0].frame
                    matches OutFrame::Ice { from: f, to: t, payload: p } && f@ == from@ && t@
                        == to@ && p@ == payload@))
                &&& (!route_ok(old(self).signaling@, from@, to@, conn_id@) ==> out@.len() == 0)
            }),
            (msg matches SignalingMessage::Hello { peer_id, server_id, signing_pubkey } ==> {
                let reg = reg_model(
                    old(self).signaling@,
                    peer_id@,
                    server_id@,
                    match signing_pubkey {
                        Some(k) => Some(k@),
                        None => None,
                    },
                    conn_id@,
                );
                &&& final(self).voice == old(self).voice
                &&& final(self).presence == old(self).presence
                &&& final(self).signaling@ == (SigModel {
                    senders: reg.senders.insert(peer_id@, origin_token),
                    ..reg
                })
                &&& out@.len() >= 1
                &&& out@[0].token == origin_token
                &&& (out@[0].frame matches OutFrame::Welcome { peers }
                    && peers.deep_view().no_duplicates() && peers.deep_view().to_set()
                    == reg_others(old(self).signaling@, peer_id@, server_id@))
                &&& (forall|i: int| 1 <= i < out@.len() ==> ((#[trigger] out@[i]).frame matches
                    OutFrame::PeerJoined { peer_id: q } && q@ == peer_id@))
                &&& exists|ps: Seq<Seq<char>>| #[trigger] server_tokens_ok(
                    final(self).signaling@,
                    server_id@,
                    peer_id@,
                    ps,
                    emission_tokens(out@.skip(1)),
                )
            }),
            (msg matches SignalingMessage::Goodbye { peer_id } ==> {
                &&& final(self).voice == old(self).voice
                &&& final(self).presence == old(self).presence
                &&& (!identity_ok(old(self).signaling@, peer_id@, conn_id@)
                    ==> final(self).signaling == old(self).signaling && out@.len() == 0)
                &&& (identity_ok(old(self).signaling@, peer_id@, conn_id@)
                    ==> final(self).signaling@ == unreg_model(old(self).signaling@, peer_id@)
                    && (forall|i: int|
                    0 <= i < out@.len() ==> ((#[trigger] out@[i]).frame matches
                    OutFrame::PeerLeft { peer_id: q } && q@ == peer_id@))
                    && (exists|ps: Seq<Seq<char>>| #[trigger] server_tokens_ok(
                    final(self).signaling@,
                    old(self).signaling@.peers[peer_id@].server_id,
                    peer_id@,
                    ps,
                    emission_tokens(out@),
                )))
            }),
            (msg matches SignalingMessage::VoiceJoin { peer_id, user_id, server_id, chat_id }
                ==> {
                &&& final(self).signaling == old(self).signaling
                &&& final(self).presence == old(self).presence
                &&& (!identity_ok(old(self).signaling@, peer_id@, conn_id@) ==> final(self).voice
                    == old(self).voice && out@.len() == 0)
                &&& (identity_ok(old(self).signaling@, peer_id@, conn_id@) ==> {
                    let ov = vjoin_others(
                        old(self).voice@,
                        (server_id@, chat_id@),
                        peer_id@,
                        user_id@,
                    );
                    &&& final(self).voice@ == vjoin_model(
                        old(self).voice@,
                        (server_id@, chat_id@),
                        peer_id@,
                        user_id@,
                        conn_id@,
                    )
                    &&& out@.len() >= 1
                    &&& out@[0].token == origin_token
                    &&& (out@[0].frame matches OutFrame::VoicePeers { peers } && peers@.len()
                        == ov.len() && (forall|j: int| 0 <= j < ov.len()
                        ==> (#[trigger] peers@[j]).peer_id@ == ov[j].peer_id
                            && peers@[j].user_id@ == ov[j].user_id))
                    &&& emission_tokens(out@.skip(1)) == tokens_for(
                        ov.map_values(|vp: VoicePeerV| vp.peer_id),
                        old(self).signaling@.senders,
                    )
                    &&& (forall|i: int| 1 <= i < out@.len() ==> ((#[trigger] out@[i]).frame
                        matches OutFrame::VoicePeerJoined { peer_id: q, user_id: w } && q@
                            == peer_id@ && w@ == user_id@))
                })
            }),
            (msg matches SignalingMessage::VoiceLeave { peer_id, server_id, chat_id } ==> {
                &&& final(self).signaling == old(self).signaling
                &&& final(self).presence == old(self).presence
                &&& (!identity_ok(old(self).signaling@, peer_id@, conn_id@) ==> final(self).voice
                    == old(self).voice && out@.len() == 0)
                &&& (identity_ok(old(self).signaling@, peer_id@, conn_id@) ==> {
                    let key = (server_id@, chat_id@);
                    &&& final(self).voice@ == vleave_model(old(self).voice@, key, peer_id@)
                    &&& (vleave_user(old(self).voice@, key, peer_id@) is None ==> out@.len()
                        == 0)
                    &&& (vleave_user(old(self).voice@, key, peer_id@) matches Some(u) ==> {
                        &&& (forall|i: int| 0 <= i < out@.len() ==> ((#[trigger] out@[i]).frame
                            matches OutFrame::VoicePeerLeft { peer_id: q, user_id: w } && q@
                                == peer_id@ && w@ == u))
                        &&& emission_tokens(out@) == tokens_for(
                            (if final(self).voice@.contains_key(key) {
                                final(self).voice@[key].map_values(|vp: VoicePeerV| vp.peer_id)
                            } else {
                                Seq::<Seq<char>>::empty()
                            }),
                            old(self).signaling@.senders,
                        )
                    })
                })
            }),
            (msg matches SignalingMessage::PresenceHello {
                user_id,
                signing_pubkeys,
                active_signing_pubkey,
            } ==> {
                &&& final(self).signaling == old(self).signaling
                &&& final(self).voice == old(self).voice
                &&& out@.len() == 0
                &&& final(self).presence@ == hello_model(
                    old(self).presence@,
                    user_id@,
                    signing_pubkeys.deep_view(),
                    match active_signing_pubkey {
                        Some(k) => Some(k@),
                        None => None,
                    },
                    old(self).presence_ttl,
                    now,
                )
            }),
            (msg matches SignalingMessage::PresenceActive { user_id, active_signing_pubkey }
                ==> {
                &&& final(self).signaling == old(self).signaling
                &&& final(self).voice == old(self).voice
                &&& out@.len() == 0
                &&& final(self).presence@.by_key == old(self).presence@.by_key
                &&& final(self).presence@.users == old(self).presence@.users.insert(
                    user_id@,
                    UserRecordV {
                        active: (match active_signing_pubkey {
                            Some(k) => Some(k@),
                            None => None,
                        }),
                        expires_at: sat_add(now, old(self).presence_ttl),
                    },
                )
            }),
            (msg matches SignalingMessage::PresenceDisconnect { user_id, signing_pubkeys } ==> {
                &&& final(self).signaling == old(self).signaling
                &&& final(self).voice == old(self).voice
                &&& out@.len() == 0
                &&& final(self).presence@.users == old(self).presence@.users.remove(user_id@)
                &&& final(self).presence@.by_key == crate::presence::drop_keys(
                    old(self).presence@.by_key,
                    signing_pubkeys.deep_view(),
                    user_id@,
                )
            }),
            (msg matches SignalingMessage::PresenceSubscribe { signing_pubkey } ==> {
                &&& final(self).signaling == old(self).signaling
                &&& final(self).voice == old(self).voice
                &&& final(self).presence@.users == old(self).presence@.users
                &&& out@.len() == 1
                &&& out@[0].token == origin_token
                &&& (out@[0].frame matches OutFrame::PresenceSnapshot { users } && exists|
                    ms: Seq<Seq<char>>,
                |
                    {
                        &&& ms.no_duplicates()
                        &&& ms.to_set() == (if old(self).presence@.by_key.contains_key(
                            signing_pubkey@,
                        ) {
                            old(self).presence@.by_key[signing_pubkey@]
                        } else {
                            Set::<Seq<char>>::empty()
                        })
                        &&& #[trigger] snapshot_shape(
                            old(self).presence@,
                            final(self).presence@,
                            users@,
                            signing_pubkey@,
                            ms,
                            now,
                        )
                    })
            }),
            (msg matches SignalingMessage::ServerHintPublish { signing_pubkey, hint } ==> {
                &&& final(self).signaling == old(self).signaling
                &&& final(self).voice == old(self).voice
                &&& final(self).presence == old(self).presence
                &&& (forall|i: int| 0 <= i < out@.len() ==> ((#[trigger] out@[i]).frame matches
                    OutFrame::ServerHintUpdated {
                        signing_pubkey: k,
                        encrypted_state: e,
                        signature: g,
                        last_updated: t,
                    } && k@ == signing_pubkey@ && e@ == hint.encrypted_state@ && g@
                        == hint.signature@ && t == hint.last_updated))
                &&& exists|ps: Seq<Seq<char>>| #[trigger] hint_recipients_ok(
                    old(self).signaling@,
                    signing_pubkey@,
                    ps,
                    emission_tokens(out@),
                )
            }),
    {
        match msg {
            SignalingMessage::Hello { peer_id, server_id, signing_pubkey } => self.handle_hello(
                conn_id,
                origin_token,
                peer_id,
                server_id,
                signing_pubkey,
            ),
            SignalingMessage::Offer { from, to, payload } => {
                match self.route_target(&from, &to, conn_id) {
                    Some(tok) => {
                        let mut out: Vec<Emission> = Vec::new();
                        out.push(
                            Emission { token: tok, frame: OutFrame::Offer { from, to, payload } },
                        );
                        out
                    },
                    None => Vec::new(),
                }
            },
            SignalingMessage::Answer { from, to, payload } => {
                match self.route_target(&from, &to, conn_id) {
                    Some(tok) => {
                        let mut out: Vec<Emission> = Vec::new();
                        out.push(
                            Emission { token: tok, frame: OutFrame::Answer { from, to, payload } },
                        );
                        out
                    },
                    None => Vec::new(),
                }
            },
            SignalingMessage::Ice { from, to, payload } => {
                match self.route_target(&from, &to, conn_id) {
                    Some(tok) => {
                        let mut out: Vec<Emission> = Vec::new();
                        out.push(
                            Emission { token: tok, frame: OutFrame::Ice { from, to, payload } },
                        );
                        out
                    },
                    None => Vec::new(),
                }
            },
            SignalingMessage::Goodbye { peer_id } => self.handle_goodbye(conn_id, peer_id),
            SignalingMessage::VoiceJoin { peer_id, user_id, server_id, chat_id } => self
                .handle_voice_join(conn_id, origin_token, peer_id, user_id, server_id, chat_id),
            SignalingMessage::VoiceLeave { peer_id, server_id, chat_id } => self
                .handle_voice_leave(conn_id, peer_id, server_id, chat_id),
            SignalingMessage::PresenceHello { user_id, signing_pubkeys, active_signing_pubkey } => {
                let ttl = self.presence_ttl;
                self.presence.hello(&user_id, &signing_pubkeys, &active_signing_pubkey, ttl, now);
                Vec::new()
            },
            SignalingMessage::PresenceActive { user_id, active_signing_pubkey } => {
                let ttl = self.presence_ttl;
                self.presence.set_active(&user_id, &active_signing_pubkey, ttl, now);
                Vec::new()
            },
            SignalingMessage::PresenceDisconnect { user_id, signing_pubkeys } => {
                self.presence.disconnect(&user_id, &signing_pubkeys);
                Vec::new()
            },
            SignalingMessage::PresenceSubscribe { signing_pubkey } => {
                let ghost pre = self.presence@;
                let users = self.presence.snapshot(&signing_pubkey, now);
                let ghost uv = users@;
                let ghost post = self.presence@;
                let mut out: Vec<Emission> = Vec::new();
                out.push(
                    Emission { token: origin_token, frame: OutFrame::PresenceSnapshot { users } },
                );
                proof {
                    let ms = choose|ms: Seq<Seq<char>>|
                        {
                            &&& ms.no_duplicates()
                            &&& ms.to_set() == (if pre.by_key.contains_key(signing_pubkey@) {
                                pre.by_key[signing_pubkey@]
                            } else {
                                Set::<Seq<char>>::empty()
                            })
                            &&& #[trigger] snapshot_shape(pre, post, uv, signing_pubkey@, ms, now)
                        };
                    assert(out@[0].frame matches OutFrame::PresenceSnapshot { users: u2 } && u2@
                        == uv);
                    assert(snapshot_shape(pre, post, uv, signing_pubkey@, ms, now));
                }
                out
            },
            SignalingMessage::ServerHintPublish { signing_pubkey, hint } => self
                .signaling.broadcast_server_hint_updated(&signing_pubkey, &hint),
        }
    }

    /// Socket-close cleanup: unregister every peer still bound to the dying
    /// connection, drop the connection's entry from the connection index,
    /// and clear its voice memberships; each departure is announced to the
    /// remaining members of its server (`PeerLeft`) or chat
    /// (`VoicePeerLeft`).
    pub fn handle_disconnect(&mut self, conn_id: &String) -> (out: Vec<Emission>)
        requires
            old(self).wf(),
        ensures
            final(self).wf(),
            final(self).presence == old(self).presence,
            final(self).presence_ttl == old(self).presence_ttl,
            exists|taken: Seq<Seq<char>>|
                {
                    &&& taken.no_duplicates()
                    &&& taken.to_set() == (if old(self).signaling@.conns.contains_key(conn_id@) {
                        old(self).signaling@.conns[conn_id@]
                    } else {
                        Set::<Seq<char>>::empty()
                    })
                    &&& final(self).signaling@ == (SigModel {
                        conns: close_fold(
                            old(self).signaling@,
                            conn_id@,
                            taken,
                        ).conns.remove(conn_id@),
                        ..close_fold(old(self).signaling@, conn_id@, taken)
                    })
                },
            final(self).voice@ == vdisc_map(old(self).voice@, conn_id@),
            forall|i: int| 0 <= i < out@.len() ==> ((#[trigger] out@[i]).frame matches
                OutFrame::PeerLeft { .. } || out@[i].frame matches OutFrame::VoicePeerLeft {
                    ..
                }),
            // Each peer that was bound to the dying connection is announced
            // to every remaining member of its former server with a live
            // sender.
            forall|p: Seq<char>, q: Seq<char>|
                (identity_ok(old(self).signaling@, p, conn_id@)
                    && final(self).signaling@.servers.contains_key(
                    old(self).signaling@.peers[p].server_id,
                ) && #[trigger] final(self).signaling@.servers[old(
                    self,
                ).signaling@.peers[p].server_id].contains(q) && q != p
                    && final(self).signaling@.senders.contains_key(q)) ==> emits_peer_left_to(
                    out@,
                    final(self).signaling@.senders[q],
                    p,
                ),
            // Each removed voice membership is announced to every remaining
            // member of its chat with a live sender.
            forall|t: int, j: int|
                (0 <= t < vdisc_removed(old(self).voice.voice_chats@, conn_id@).len()
                    && final(self).voice@.contains_key(
                    (
                        vdisc_removed(old(self).voice.voice_chats@, conn_id@)[t].0,
                        vdisc_removed(old(self).voice.voice_chats@, conn_id@)[t].1,
                    ),
                ) && 0 <= j < final(self).voice@[
                    (
                        vdisc_removed(old(self).voice.voice_chats@, conn_id@)[t].0,
                        vdisc_removed(old(self).voice.voice_chats@, conn_id@)[t].1,
                    )
                ].len() && final(self).signaling@.senders.contains_key(
                    (#[trigger] final(self).voice@[
                        (
                            vdisc_removed(old(self).voice.voice_chats@, conn_id@)[t].0,
                            vdisc_removed(old(self).voice.voice_chats@, conn_id@)[t].1,
                        )
                    ][j]).peer_id,
                )) ==> emits_voice_peer_left_to(
                    out@,
                    final(self).signaling@.senders[final(self).voice@[
                        (
                            vdisc_removed(old(self).voice.voice_chats@, conn_id@)[t].0,
                            vdisc_removed(old(self).voice.voice_chats@, conn_id@)[t].1,
                        )
                    ][j].peer_id],
                    vdisc_removed(old(self).voice.voice_chats@, conn_id@)[t].2,
                    vdisc_removed(old(self).voice.voice_chats@, conn_id@)[t].3,
                ),
    {
        let ghost m_old = old(self).signaling@;
        // Record, before the walk, the server of each peer bound here.
        let walked: Vec<String> = match self.signaling.conn_peers.get_set(conn_id) {
            Some(s) => s.to_vec(),
            None => Vec::new(),
        };
        let mut pairs: Vec<(String, String)> = Vec::new();
        let wn = walked.len();
        for i in 0..wn
            invariant
                *self == *old(self),
                self.signaling@ == m_old,
                self.wf(),
                wn == walked@.len(),
                forall|t: int| 0 <= t < pairs@.len() ==> identity_ok(
                    m_old,
                    (#[trigger] pairs@[t]).0@,
                    conn_id@,
                ) && pairs@[t].1@ == m_old.peers[pairs@[t].0@].server_id,
                forall|p: Seq<char>|
                    (#[trigger] identity_ok(m_old, p, conn_id@) && (exists|j: int|
                        0 <= j < i && walked.deep_view()[j] == p)) ==> (exists|t: int|
                        0 <= t < pairs@.len() && (#[trigger] pairs@[t]).0@ == p),
        {
            let p = &walked[i];
            let ghost pairs0 = pairs@;
            let is_bound = self.signaling.validate_peer_connection(p, conn_id);
            if is_bound {
                match self.signaling.get_server(p) {
                    Some(sid) => {
                        pairs.push((p.clone(), sid));
                    },
                    None => {
                        proof {
                            assert(false);
                        }
                    },
                }
            }
            proof {
                if is_bound {
                    assert(pairs@.len() == pairs0.len() + 1);
                    assert(pairs@[pairs@.len() - 1].0@ == p@);
                }
                assert forall|pp: Seq<char>|
                    (identity_ok(m_old, pp, conn_id@) && (exists|j: int|
                        0 <= j < i + 1 && walked.deep_view()[j] == pp)) implies (exists|t: int|
                        0 <= t < pairs@.len() && (#[trigger] pairs@[t]).0@ == pp) by {
                    let j = choose|j: int| 0 <= j < i + 1 && walked.deep_view()[j] == pp;
                    if j < i {
                        let t = choose|t: int|
                            0 <= t < pairs0.len() && (#[trigger] pairs0[t]).0@ == pp;
                        assert(pairs@[t].0@ == pp);
                    } else {
                        assert(pp == walked@[i as int]@);
                        assert(is_bound);
                        assert(pairs@[pairs@.len() - 1].0@ == pp);
                    }
                }
            }
        }
        let taken = self.signaling.cleanup_connection(conn_id);
        let ghost mid = *self;
        proof {
            // Every peer bound to the dying connection was walked, hence is
            // among the recorded pairs.
            assert forall|p: Seq<char>| #[trigger] identity_ok(m_old, p, conn_id@) implies (
            exists|t: int| 0 <= t < pairs@.len() && (#[trigger] pairs@[t]).0@ == p) by {
                assert(m_old.peers.contains_key(p));
                assert(m_old.conns.contains_key(conn_id@) && m_old.conns[conn_id@].contains(p));
                assert(walked.deep_view().to_set().contains(p));
                assert(walked.deep_view().contains(p));
            }
        }
        let mut out: Vec<Emission> = Vec::new();
        let pn = pairs.len();
        for i in 0..pn
            invariant
                pn == pairs@.len(),
                *self == mid,
                self.wf(),
                forall|t: int| 0 <= t < pairs@.len() ==> identity_ok(
                    m_old,
                    (#[trigger] pairs@[t]).0@,
                    conn_id@,
                ) && pairs@[t].1@ == m_old.peers[pairs@[t].0@].server_id,
                forall|t: int| 0 <= t < out@.len() ==> ((#[trigger] out@[t]).frame matches
                    OutFrame::PeerLeft { .. }),
                forall|t: int, q: Seq<char>|
                    (0 <= t < i && mid.signaling@.servers.contains_key(pairs@[t].1@)
                        && #[trigger] mid.signaling@.servers[pairs@[t].1@].contains(q) && q
                        != pairs@[t].0@ && mid.signaling@.senders.contains_key(q))
                        ==> emits_peer_left_to(out@, mid.signaling@.senders[q], pairs@[t].0@),
        {
            let toks = self.signaling.server_tokens_except(&pairs[i].1, &pairs[i].0);
            let ghost base = out@.len();
            let ghost outb = out@;
            let tn = toks.len();
            for j in 0..tn
                invariant
                    tn == toks@.len(),
                    pn == pairs@.len(),
                    i < pn,
                    out@.len() == base + j,
                    base == outb.len(),
                    forall|idx: int| 0 <= idx < base ==> outb[idx] == #[trigger] out@[idx],
                    forall|k: int| 0 <= k < j ==> (#[trigger] out@[base + k]).token == toks@[k]
                        && (out@[base + k].frame matches OutFrame::PeerLeft { peer_id: pp } && pp@
                        == pairs@[i as int].0@),
                    forall|t: int| 0 <= t < out@.len() ==> ((#[trigger] out@[t]).frame matches
                        OutFrame::PeerLeft { .. }),
            {
                out.push(
                    Emission {
                        token: toks[j],
                        frame: OutFrame::PeerLeft { peer_id: pairs[i].0.clone() },
                    },
                );
            }
            proof {
                assert forall|t: int, q: Seq<char>|
                    (0 <= t < i + 1 && mid.signaling@.servers.contains_key(pairs@[t].1@)
                        && #[trigger] mid.signaling@.servers[pairs@[t].1@].contains(q) && q
                        != pairs@[t].0@ && mid.signaling@.senders.contains_key(q)) implies
                    emits_peer_left_to(out@, mid.signaling@.senders[q], pairs@[t].0@) by {
                    if t < i {
                        lemma_emits_grow(outb, out@, mid.signaling@.senders[q], pairs@[t].0@);
                    } else {
                        let ps = choose|ps: Seq<Seq<char>>|
                            server_tokens_ok(
                                mid.signaling@,
                                pairs@[i as int].1@,
                                pairs@[i as int].0@,
                                ps,
                                toks@,
                            );
                        assert(ps.contains(q));
                        let k = choose|k: int| 0 <= k < ps.len() && #[trigger] ps[k] == q;
                        assert(toks@[k] == mid.signaling@.senders[q]);
                        assert(out@[base + k].token == toks@[k]);
                    }
                }
            }
        }
        let removed = self.voice.handle_voice_disconnect(conn_id);
        let ghost mid2 = *self;
        let ghost rem = vdisc_removed(old(self).voice.voice_chats@, conn_id@);
        proof {
            assert(removed.deep_view() == rem);
            assert(mid2.signaling == mid.signaling);
        }
        let rn = removed.len();
        for i in 0..rn
            invariant
                rn == removed@.len(),
                removed.deep_view() == rem,
                *self == mid2,
                self.wf(),
                mid2.signaling == mid.signaling,
                pn == pairs@.len(),
                forall|t: int| 0 <= t < pairs@.len() ==> identity_ok(
                    m_old,
                    (#[trigger] pairs@[t]).0@,
                    conn_id@,
                ) && pairs@[t].1@ == m_old.peers[pairs@[t].0@].server_id,
                forall|t: int| 0 <= t < out@.len() ==> ((#[trigger] out@[t]).frame matches
                    OutFrame::PeerLeft { .. } || out@[t].frame matches OutFrame::VoicePeerLeft {
                        ..
                    }),
                forall|t: int, q: Seq<char>|
                    (0 <= t < pn && mid.signaling@.servers.contains_key(pairs@[t].1@)
                        && #[trigger] mid.signaling@.servers[pairs@[t].1@].contains(q) && q
                        != pairs@[t].0@ && mid.signaling@.senders.contains_key(q))
                        ==> emits_peer_left_to(out@, mid.signaling@.senders[q], pairs@[t].0@),
                forall|t: int, j: int|
                    (0 <= t < i && mid2.voice@.contains_key((rem[t].0, rem[t].1)) && 0 <= j
                        < mid2.voice@[(rem[t].0, rem[t].1)].len()
                        && mid2.signaling@.senders.contains_key(
                        (#[trigger] mid2.voice@[(rem[t].0, rem[t].1)][j]).peer_id,
                    )) ==> emits_voice_peer_left_to(
                        out@,
                        mid2.signaling@.senders[mid2.voice@[(rem[t].0, rem[t].1)][j].peer_id],
                        rem[t].2,
                        rem[t].3,
                    ),
        {
            proof {
                assert(removed.deep_view()[i as int] == rem[i as int]);
                assert(removed@[i as int].0@ == rem[i as int].0);
                assert(removed@[i as int].1@ == rem[i as int].1);
                assert(removed@[i as int].2@ == rem[i as int].2);
                assert(removed@[i as int].3@ == rem[i as int].3);
            }
            let ghost key_i: (Seq<char>, Seq<char>) = (rem[i as int].0, rem[i as int].1);
            let ids = self.voice.chat_member_ids(&removed[i].0, &removed[i].1);
            let toks = self.signaling.tokens_for_ids(&ids);
            let ghost base = out@.len();
            let ghost outb = out@;
            let tn = toks.len();
            for j in 0..tn
                invariant
                    tn == toks@.len(),
                    rn == removed@.len(),
                    i < rn,
                    removed.deep_view() == rem,
                    out@.len() == base + j,
                    base == outb.len(),
                    forall|idx: int| 0 <= idx < base ==> outb[idx] == #[trigger] out@[idx],
                    forall|k: int| 0 <= k < j ==> (#[trigger] out@[base + k]).token == toks@[k]
                        && (out@[base + k].frame matches OutFrame::VoicePeerLeft {
                        peer_id: pp,
                        user_id: uu,
                    } && pp@ == rem[i as int].2 && uu@ == rem[i as int].3),
                    forall|t: int| 0 <= t < out@.len() ==> ((#[trigger] out@[t]).frame matches
                        OutFrame::PeerLeft { .. } || out@[t].frame matches
                        OutFrame::VoicePeerLeft { .. }),
            {
                out.push(
                    Emission {
                        token: toks[j],
                        frame: OutFrame::VoicePeerLeft {
                            peer_id: removed[i].2.clone(),
                            user_id: removed[i].3.clone(),
                        },
                    },
                );
            }
            proof {
                assert forall|t: int, q: Seq<char>|
                    (0 <= t < pn && mid.signaling@.servers.contains_key(pairs@[t].1@)
                        && #[trigger] mid.signaling@.servers[pairs@[t].1@].contains(q) && q
                        != pairs@[t].0@ && mid.signaling@.senders.contains_key(q)) implies
                    emits_peer_left_to(out@, mid.signaling@.senders[q], pairs@[t].0@) by {
                    lemma_emits_grow(outb, out@, mid.signaling@.senders[q], pairs@[t].0@);
                }
                assert forall|t: int, j2: int|
                    (0 <= t < i + 1 && mid2.voice@.contains_key((rem[t].0, rem[t].1)) && 0 <= j2
                        < mid2.voice@[(rem[t].0, rem[t].1)].len()
                        && mid2.signaling@.senders.contains_key(
                        (#[trigger] mid2.voice@[(rem[t].0, rem[t].1)][j2]).peer_id,
                    )) implies emits_voice_peer_left_to(
                        out@,
                        mid2.signaling@.senders[mid2.voice@[(rem[t].0, rem[t].1)][j2].peer_id],
                        rem[t].2,
                        rem[t].3,
                    ) by {
                    if t < i {
                        lemma_emits_voice_grow(
                            outb,
                            out@,
                            mid2.signaling@.senders[mid2.voice@[(rem[t].0, rem[t].1)][j2].peer_id],
                            rem[t].2,
                            rem[t].3,
                        );
                    } else {
                        let member_pid = mid2.voice@[key_i][j2].peer_id;
                        assert(ids.deep_view()[j2] == member_pid);
                        lemma_tokens_for_covers(ids.deep_view(), mid2.signaling@.senders, j2);
                        let k = choose|k: int|
                            0 <= k < tokens_for(ids.deep_view(), mid2.signaling@.senders).len()
                                && #[trigger] tokens_for(
                                ids.deep_view(),
                                mid2.signaling@.senders,
                            )[k] == mid2.signaling@.senders[ids.deep_view()[j2]];
                        assert(toks@[k] == mid2.signaling@.senders[member_pid]);
                        assert(out@[base + k].token == toks@[k]);
                    }
                }
            }
        }
        proof {
            assert forall|p: Seq<char>, q: Seq<char>|
                (identity_ok(m_old, p, conn_id@) && mid.signaling@.servers.contains_key(
                    m_old.peers[p].server_id,
                ) && #[trigger] mid.signaling@.servers[m_old.peers[p].server_id].contains(q) && q
                    != p && mid.signaling@.senders.contains_key(q)) implies emits_peer_left_to(
                out@,
                mid.signaling@.senders[q],
                p,
            ) by {
                let t = choose|t: int| 0 <= t < pairs@.len() && (#[trigger] pairs@[t]).0@ == p;
                assert(pairs@[t].1@ == m_old.peers[p].server_id);
                assert(mid.signaling@.servers[pairs@[t].1@].contains(q));
            }
        }
        out
    }
}

} // verus!