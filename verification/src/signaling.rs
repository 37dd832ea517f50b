//! The signaling hub's peer index: one owning map from peer id to its
//! connection record, plus derived indexes by server, by signing key and by
//! socket connection, and the outbound-sender bindings.  All mutations keep
//! the five structures mutually consistent (`sig_wf`).

use vstd::prelude::*;
use crate::kv::AList;
use crate::strset::{SetMap, StrSet, mm_add, mm_del};

verus! {

/// The record held for one registered peer.
pub struct PeerConnection {
    pub peer_id: String,
    pub server_id: String,
    pub signing_pubkey: Option<String>,
    pub conn_id: String,
}

/// The mathematical image of a `PeerConnection`.
pub struct PeerConnV {
    pub peer_id: Seq<char>,
    pub server_id: Seq<char>,
    pub signing_pubkey: Option<Seq<char>>,
    pub conn_id: Seq<char>,
}

impl View for PeerConnection {
    type V = PeerConnV;

    open spec fn view(&self) -> PeerConnV {
        PeerConnV {
            peer_id: self.peer_id@,
            server_id: self.server_id@,
            signing_pubkey: match self.signing_pubkey {
                Some(k) => Some(k@),
                None => None,
            },
            conn_id: self.conn_id@,
        }
    }
}

/// The mathematical state of the hub: five finite maps.
#[verifier::ext_equal]
pub struct SigModel {
    pub peers: Map<Seq<char>, PeerConnV>,
    pub servers: Map<Seq<char>, Set<Seq<char>>>,
    pub signing: Map<Seq<char>, Set<Seq<char>>>,
    pub senders: Map<Seq<char>, u64>,
    pub conns: Map<Seq<char>, Set<Seq<char>>>,
}

/// Index consistency: every registered peer appears in the server, signing
/// and connection indexes its record names; the server and signing indexes
/// hold only registered peers, under the right key; no indexed set is empty;
/// senders are bound only for registered peers.
pub open spec fn sig_wf(m: SigModel) -> bool {
    &&& forall|p: Seq<char>| #[trigger] m.peers.contains_key(p) ==> {
        let c = m.peers[p];
        &&& c.peer_id == p
        &&& m.servers.contains_key(c.server_id)
        &&& m.servers[c.server_id].contains(p)
        &&& m.conns.contains_key(c.conn_id)
        &&& m.conns[c.conn_id].contains(p)
        &&& (c.signing_pubkey is Some ==> m.signing.contains_key(c.signing_pubkey->0)
            && m.signing[c.signing_pubkey->0].contains(p))
    }
    &&& forall|s: Seq<char>, p: Seq<char>|
        m.servers.contains_key(s) && #[trigger] m.servers[s].contains(p) ==> m.peers.contains_key(
            p,
        ) && m.peers[p].server_id == s
    &&& forall|s: Seq<char>| #[trigger] m.servers.contains_key(s) ==> !m.servers[s].is_empty()
    &&& forall|k: Seq<char>, p: Seq<char>|
        m.signing.contains_key(k) && #[trigger] m.signing[k].contains(p) ==> m.peers.contains_key(
            p,
        ) && m.peers[p].signing_pubkey == Some(k)
    &&& forall|k: Seq<char>| #[trigger] m.signing.contains_key(k) ==> !m.signing[k].is_empty()
    &&& forall|c: Seq<char>| #[trigger] m.conns.contains_key(c) ==> !m.conns[c].is_empty()
    &&& forall|p: Seq<char>| #[trigger] m.senders.contains_key(p) ==> m.peers.contains_key(p)
}

/// What `unregister_peer` does: drop the record and cascade the removal
/// through the server and signing indexes (deleting sets that empty) and the
/// sender bindings.  The connection index is left alone; socket-close owns
/// that walk.
pub open spec fn unreg_model(m: SigModel, p: Seq<char>) -> SigModel {
    if m.peers.contains_key(p) {
        let c = m.peers[p];
        SigModel {
            peers: m.peers.remove(p),
            servers: mm_del(m.servers, c.server_id, p),
            signing: match c.signing_pubkey {
                Some(k) => mm_del(m.signing, k, p),
                None => m.signing,
            },
            senders: m.senders.remove(p),
            conns: m.conns,
        }
    } else {
        SigModel { senders: m.senders.remove(p), ..m }
    }
}

/// Remove every trace of a peer, the connection index included; used when a
/// peer re-registers, so that the old binding never lingers.
pub open spec fn strip_model(m: SigModel, p: Seq<char>) -> SigModel {
    if m.peers.contains_key(p) {
        let c = m.peers[p];
        let m1 = unreg_model(m, p);
        SigModel { conns: mm_del(m1.conns, c.conn_id, p), ..m1 }
    } else {
        m
    }
}

/// What `register_peer` does: strip any previous binding of the peer, then
/// insert the record and index it by server, signing key and connection.
/// A re-registration from the same connection keeps the peer's sender
/// binding (the socket, and with it the outbound channel, is the same), so
/// re-registering with identical arguments is idempotent; a re-registration
/// from a different connection drops the stale binding with the rest.
pub open spec fn reg_model(
    m: SigModel,
    p: Seq<char>,
    sid: Seq<char>,
    spk: Option<Seq<char>>,
    cid: Seq<char>,
) -> SigModel {
    let m0 = strip_model(m, p);
    SigModel {
        peers: m0.peers.insert(
            p,
            PeerConnV { peer_id: p, server_id: sid, signing_pubkey: spk, conn_id: cid },
        ),
        servers: mm_add(m0.servers, sid, p),
        signing: match spk {
            Some(k) => mm_add(m0.signing, k, p),
            None => m0.signing,
        },
        senders: if m.peers.contains_key(p) && m.peers[p].conn_id == cid {
            m.senders
        } else {
            m0.senders
        },
        conns: mm_add(m0.conns, cid, p),
    }
}

/// The peers already in the server when a newcomer registers.
pub open spec fn reg_others(m: SigModel, p: Seq<char>, sid: Seq<char>) -> Set<Seq<char>> {
    let m0 = strip_model(m, p);
    if m0.servers.contains_key(sid) {
        m0.servers[sid]
    } else {
        Set::empty()
    }
}

pub proof fn lemma_unreg_wf(m: SigModel, p: Seq<char>)
    requires
        sig_wf(m),
    ensures
        sig_wf(unreg_model(m, p)),
{
    let r = unreg_model(m, p);
    if m.peers.contains_key(p) {
        let c = m.peers[p];
        assert forall|q: Seq<char>| #[trigger] r.peers.contains_key(q) implies {
            let d = r.peers[q];
            &&& d.peer_id == q
            &&& r.servers.contains_key(d.server_id)
            &&& r.servers[d.server_id].contains(q)
            &&& r.conns.contains_key(d.conn_id)
            &&& r.conns[d.conn_id].contains(q)
            &&& (d.signing_pubkey is Some ==> r.signing.contains_key(d.signing_pubkey->0)
                && r.signing[d.signing_pubkey->0].contains(q))
        } by {
            assert(m.peers.contains_key(q) && q != p);
            let d = m.peers[q];
            assert(m.servers[d.server_id].contains(q));
            if d.signing_pubkey is Some {
                assert(m.signing[d.signing_pubkey->0].contains(q));
            }
        }
    } else {
        assert(r.peers =~= m.peers);
        assert(r.servers =~= m.servers);
    }
}

pub proof fn lemma_strip_wf(m: SigModel, p: Seq<char>)
    requires
        sig_wf(m),
    ensures
        sig_wf(strip_model(m, p)),
        !strip_model(m, p).peers.contains_key(p),
        forall|s: Seq<char>| #[trigger] strip_model(m, p).servers.contains_key(s)
            ==> !strip_model(m, p).servers[s].contains(p),
        forall|k: Seq<char>| #[trigger] strip_model(m, p).signing.contains_key(k)
            ==> !strip_model(m, p).signing[k].contains(p),
        !strip_model(m, p).senders.contains_key(p),
{
    lemma_unreg_wf(m, p);
    let r = strip_model(m, p);
    let m1 = unreg_model(m, p);
    if m.peers.contains_key(p) {
        assert forall|q: Seq<char>| #[trigger] r.peers.contains_key(q) implies {
            let d = r.peers[q];
            &&& r.conns.contains_key(d.conn_id)
            &&& r.conns[d.conn_id].contains(q)
        } by {
            assert(m1.peers.contains_key(q) && sig_wf(m1));
            assert(m1.conns[m1.peers[q].conn_id].contains(q));
        }
    }
    assert forall|s: Seq<char>| #[trigger] r.servers.contains_key(s) implies !r.servers[s].contains(
        p,
    ) by {
        if r.servers[s].contains(p) {
            assert(r.peers.contains_key(p));
        }
    }
    assert forall|k: Seq<char>| #[trigger] r.signing.contains_key(k) implies !r.signing[k].contains(
        p,
    ) by {
        if r.signing[k].contains(p) {
            assert(r.peers.contains_key(p));
        }
    }
}

pub proof fn lemma_reg_wf(m: SigModel, p: Seq<char>, sid: Seq<char>, spk: Option<Seq<char>>, cid: Seq<char>)
    requires
        sig_wf(m),
    ensures
        sig_wf(reg_model(m, p, sid, spk, cid)),
        reg_model(m, p, sid, spk, cid).peers.contains_key(p),
        !reg_others(m, p, sid).contains(p),
{
    lemma_strip_wf(m, p);
    let m0 = strip_model(m, p);
    let r = reg_model(m, p, sid, spk, cid);
    let c = PeerConnV { peer_id: p, server_id: sid, signing_pubkey: spk, conn_id: cid };
    assert forall|q: Seq<char>| #[trigger] r.peers.contains_key(q) implies {
        let d = r.peers[q];
        &&& d.peer_id == q
        &&& r.servers.contains_key(d.server_id)
        &&& r.servers[d.server_id].contains(q)
        &&& r.conns.contains_key(d.conn_id)
        &&& r.conns[d.conn_id].contains(q)
        &&& (d.signing_pubkey is Some ==> r.signing.contains_key(d.signing_pubkey->0)
            && r.signing[d.signing_pubkey->0].contains(q))
    } by {
        if q == p {
            assert(r.servers[sid].contains(p));
            assert(r.conns[cid].contains(p));
            if spk is Some {
                assert(r.signing[spk->0].contains(p));
            }
        } else {
            assert(m0.peers.contains_key(q));
            let d = m0.peers[q];
            assert(m0.servers[d.server_id].contains(q));
            assert(m0.conns[d.conn_id].contains(q));
            if d.signing_pubkey is Some {
                assert(m0.signing[d.signing_pubkey->0].contains(q));
            }
        }
    }
    assert forall|s: Seq<char>, q: Seq<char>|
        r.servers.contains_key(s) && #[trigger] r.servers[s].contains(q) implies
        r.peers.contains_key(q) && r.peers[q].server_id == s by {
        if !(s == sid && q == p) {
            assert(m0.servers.contains_key(s) && m0.servers[s].contains(q));
            assert(q != p);
        }
    }
    assert forall|k: Seq<char>, q: Seq<char>|
        r.signing.contains_key(k) && #[trigger] r.signing[k].contains(q) implies
        r.peers.contains_key(q) && r.peers[q].signing_pubkey == Some(k) by {
        if !(spk == Some(k) && q == p) {
            assert(m0.signing.contains_key(k) && m0.signing[k].contains(q));
            assert(q != p);
        }
    }
    assert forall|s: Seq<char>| #[trigger] r.servers.contains_key(s) implies !(r.servers[s].is_empty()) by {
        if s == sid {
            assert(r.servers[s].contains(p));
        }
    }
    assert forall|k: Seq<char>| #[trigger] r.signing.contains_key(k) implies !(r.signing[k].is_empty()) by {
        if spk == Some(k) {
            assert(r.signing[k].contains(p));
        }
    }
    assert forall|cc: Seq<char>| #[trigger] r.conns.contains_key(cc) implies !(r.conns[cc].is_empty()) by {
        if cc == cid {
            assert(r.conns[cc].contains(p));
        }
    }
    assert forall|q: Seq<char>| #[trigger] r.senders.contains_key(q) implies r.peers.contains_key(
        q,
    ) by {
        if m.peers.contains_key(p) && m.peers[p].conn_id == cid {
            assert(m.peers.contains_key(q));
        }
    }
}

/// Re-registering a peer under the arguments it is already registered with,
/// from the same connection, is idempotent: the state is unchanged (the
/// sender binding included), and the returned set of other peers is the
/// server's membership besides the peer itself, the same on every repeat.
pub proof fn lemma_register_idempotent(m: SigModel, p: Seq<char>)
    requires
        sig_wf(m),
        m.peers.contains_key(p),
    ensures
        reg_model(m, p, m.peers[p].server_id, m.peers[p].signing_pubkey, m.peers[p].conn_id)
            == m,
        reg_others(m, p, m.peers[p].server_id) == m.servers[m.peers[p].server_id].remove(p),
{
    let c = m.peers[p];
    let r = reg_model(m, p, c.server_id, c.signing_pubkey, c.conn_id);
    assert(c.peer_id == p);
    assert(r.peers =~= m.peers);
    assert(m.servers[c.server_id].contains(p));
    if m.servers[c.server_id].remove(p).is_empty() {
        assert(m.servers[c.server_id] =~= Set::<Seq<char>>::empty().insert(p));
    } else {
        assert(m.servers[c.server_id].remove(p).insert(p) =~= m.servers[c.server_id]);
    }
    assert(r.servers =~~= m.servers);
    match c.signing_pubkey {
        Some(k) => {
            assert(m.signing[k].contains(p));
            if m.signing[k].remove(p).is_empty() {
                assert(m.signing[k] =~= Set::<Seq<char>>::empty().insert(p));
            } else {
                assert(m.signing[k].remove(p).insert(p) =~= m.signing[k]);
            }
            assert(r.signing =~~= m.signing);
        },
        None => {
            assert(r.signing =~~= m.signing);
        },
    }
    assert(m.conns[c.conn_id].contains(p));
    if m.conns[c.conn_id].remove(p).is_empty() {
        assert(m.conns[c.conn_id] =~= Set::<Seq<char>>::empty().insert(p));
    } else {
        assert(m.conns[c.conn_id].remove(p).insert(p) =~= m.conns[c.conn_id]);
    }
    assert(r.conns =~~= m.conns);
    assert(r =~= m);
    if m.servers[c.server_id].remove(p).is_empty() {
        assert(reg_others(m, p, c.server_id) =~= m.servers[c.server_id].remove(p));
    } else {
        assert(reg_others(m, p, c.server_id) =~= m.servers[c.server_id].remove(p));
    }
}

/// Index consistency: the empty state satisfies `sig_wf`, and registering
/// and unregistering each carry `sig_wf` over, so it holds after any
/// sequence of these operations (socket-close cleanup is a sequence of
/// guarded unregistrations plus the removal of the connection's own entry).
pub proof fn lemma_index_consistency_preserved(
    m: SigModel,
    p: Seq<char>,
    sid: Seq<char>,
    spk: Option<Seq<char>>,
    cid: Seq<char>,
)
    requires
        sig_wf(m),
    ensures
        sig_wf(reg_model(m, p, sid, spk, cid)),
        sig_wf(unreg_model(m, p)),
{
    lemma_reg_wf(m, p, sid, spk, cid);
    lemma_unreg_wf(m, p);
}

/// One step of the socket-close walk: unregister the peer only if it is
/// still bound to the closing connection (it may have re-registered on a
/// newer socket since, or be gone already).
pub open spec fn close_step(m: SigModel, cid: Seq<char>, p: Seq<char>) -> SigModel {
    if m.peers.contains_key(p) && m.peers[p].conn_id == cid {
        unreg_model(m, p)
    } else {
        m
    }
}

/// The socket-close walk over a list of peers, first to last.
pub open spec fn close_fold(m: SigModel, cid: Seq<char>, ps: Seq<Seq<char>>) -> SigModel
    decreases ps.len(),
{
    if ps.len() == 0 {
        m
    } else {
        close_fold(close_step(m, cid, ps.first()), cid, ps.drop_first())
    }
}

/// Sequential unregistration of a list of peers, first to last.
pub open spec fn unreg_fold(m: SigModel, ps: Seq<Seq<char>>) -> SigModel
    decreases ps.len(),
{
    if ps.len() == 0 {
        m
    } else {
        unreg_fold(unreg_model(m, ps.first()), ps.drop_first())
    }
}

pub proof fn lemma_close_fold_push(m: SigModel, cid: Seq<char>, ps: Seq<Seq<char>>, x: Seq<char>)
    ensures
        close_fold(m, cid, ps.push(x)) == close_step(close_fold(m, cid, ps), cid, x),
    decreases ps.len(),
{
    if ps.len() == 0 {
        assert(ps.push(x)[0] == x);
        assert(ps.push(x).first() == x);
        assert(ps.push(x).drop_first() =~= ps);
        assert(close_fold(m, cid, ps.push(x)) == close_fold(close_step(m, cid, x), cid, ps));
    } else {
        assert(ps.push(x)[0] == ps[0]);
        assert(ps.push(x).first() == ps.first());
        assert(ps.push(x).drop_first() =~= ps.drop_first().push(x));
        lemma_close_fold_push(close_step(m, cid, ps.first()), cid, ps.drop_first(), x);
    }
}

/// The socket-close walk keeps the state well-formed, removes only peers,
/// leaves the records of survivors alone, does not touch the connection
/// index, and leaves no surviving peer of the walked list bound to the
/// closing connection.
pub proof fn lemma_close_fold_clears(m: SigModel, cid: Seq<char>, ps: Seq<Seq<char>>)
    requires
        sig_wf(m),
    ensures
        sig_wf(close_fold(m, cid, ps)),
        close_fold(m, cid, ps).conns == m.conns,
        forall|q: Seq<char>| #[trigger] close_fold(m, cid, ps).peers.contains_key(q)
            ==> m.peers.contains_key(q) && close_fold(m, cid, ps).peers[q] == m.peers[q],
        forall|q: Seq<char>| #[trigger] close_fold(m, cid, ps).peers.contains_key(q)
            && close_fold(m, cid, ps).peers[q].conn_id == cid ==> !ps.contains(q),
    decreases ps.len(),
{
    if ps.len() > 0 {
        let p = ps.first();
        let m1 = close_step(m, cid, p);
        if m.peers.contains_key(p) && m.peers[p].conn_id == cid {
            lemma_unreg_wf(m, p);
        }
        lemma_close_fold_clears(m1, cid, ps.drop_first());
        let r = close_fold(m, cid, ps);
        assert forall|q: Seq<char>| #[trigger] r.peers.contains_key(q) && r.peers[q].conn_id
            == cid implies !ps.contains(q) by {
            if ps.contains(q) {
                let i = choose|i: int| 0 <= i < ps.len() && ps[i] == q;
                if i == 0 {
                    assert(m1.peers.contains_key(q) && m1.peers[q].conn_id == cid);
                    assert(false);
                } else {
                    assert(ps.drop_first()[i - 1] == q);
                }
            }
        }
    }
}

/// Socket-death cleanup leaves the state exactly as sequential
/// `unregister_peer` calls would, provided every walked peer is either gone
/// or still bound to the closing connection.
pub proof fn lemma_close_is_sequential_unregister(m: SigModel, cid: Seq<char>, ps: Seq<Seq<char>>)
    requires
        sig_wf(m),
        forall|i: int| 0 <= i < ps.len() ==> (m.peers.contains_key(#[trigger] ps[i])
            ==> m.peers[ps[i]].conn_id == cid),
    ensures
        close_fold(m, cid, ps) == unreg_fold(m, ps),
    decreases ps.len(),
{
    if ps.len() > 0 {
        let p = ps.first();
        assert(ps[0] == p);
        let m1 = unreg_model(m, p);
        if m.peers.contains_key(p) {
            assert(close_step(m, cid, p) == m1);
            lemma_unreg_wf(m, p);
        } else {
            assert(!m.senders.contains_key(p));
            assert(m.senders.remove(p) =~= m.senders);
            assert(m1 =~= m);
            assert(close_step(m, cid, p) == m1);
            lemma_unreg_wf(m, p);
        }
        assert forall|i: int| 0 <= i < ps.drop_first().len() implies (m1.peers.contains_key(
            #[trigger] ps.drop_first()[i],
        ) ==> m1.peers[ps.drop_first()[i]].conn_id == cid) by {
            assert(ps.drop_first()[i] == ps[i + 1]);
        }
        lemma_close_is_sequential_unregister(m1, cid, ps.drop_first());
    }
}

/// Recipients of a server-hint broadcast: `ps` is the duplicate-free list of
/// subscribers of the signing key that have a live sender, and `toks` their
/// sender tokens, in the same order.
pub open spec fn hint_recipients_ok(
    m: SigModel,
    k: Seq<char>,
    ps: Seq<Seq<char>>,
    toks: Seq<u64>,
) -> bool {
    &&& ps.no_duplicates()
    &&& forall|p: Seq<char>| #[trigger] ps.contains(p) <==> (m.signing.contains_key(k)
        && m.signing[k].contains(p) && m.senders.contains_key(p))
    &&& toks.len() == ps.len()
    &&& forall|i: int| 0 <= i < ps.len() ==> toks[i] == m.senders[#[trigger] ps[i]]
}

/// Recipients of a same-server announcement: `ps` is the duplicate-free list
/// of members of the server other than `except` that have a live sender, and
/// `toks` their sender tokens, in order.
pub open spec fn server_tokens_ok(
    m: SigModel,
    sid: Seq<char>,
    except: Seq<char>,
    ps: Seq<Seq<char>>,
    toks: Seq<u64>,
) -> bool {
    &&& ps.no_duplicates()
    &&& forall|p: Seq<char>| #[trigger] ps.contains(p) <==> (m.servers.contains_key(sid)
        && m.servers[sid].contains(p) && p != except && m.senders.contains_key(p))
    &&& toks.len() == ps.len()
    &&& forall|i: int| 0 <= i < ps.len() ==> toks[i] == m.senders[#[trigger] ps[i]]
}

/// The sender tokens of a list of peers, in order, skipping peers without a
/// bound sender.
pub open spec fn tokens_for(ids: Seq<Seq<char>>, senders: Map<Seq<char>, u64>) -> Seq<u64>
    decreases ids.len(),
{
    if ids.len() == 0 {
        Seq::empty()
    } else {
        let rest = tokens_for(ids.drop_last(), senders);
        if senders.contains_key(ids.last()) {
            rest.push(senders[ids.last()])
        } else {
            rest
        }
    }
}

/// WebSocket signaling state (peer <-> peer).
pub struct SignalingState {
    pub peers: AList<PeerConnection>,
    pub servers: SetMap,
    pub signing_servers: SetMap,
    pub peer_senders: AList<u64>,
    pub conn_peers: SetMap,
}

impl View for SignalingState {
    type V = SigModel;

    open spec fn view(&self) -> SigModel {
        SigModel {
            peers: self.peers@,
            servers: self.servers@,
            signing: self.signing_servers@,
            senders: self.peer_senders@,
            conns: self.conn_peers@,
        }
    }
}

impl SignalingState {
    /// Structural soundness of the vectors plus index consistency (S1).
    pub open spec fn wf(&self) -> bool {
        &&& self.peers.wf()
        &&& self.servers.wf()
        &&& self.signing_servers.wf()
        &&& self.peer_senders.wf()
        &&& self.conn_peers.wf()
        &&& sig_wf(self@)
    }

    pub fn new() -> (r: Self)
        ensures
            r.wf(),
            r@.peers == Map::<Seq<char>, PeerConnV>::empty(),
            r@.servers == Map::<Seq<char>, Set<Seq<char>>>::empty(),
            r@.signing == Map::<Seq<char>, Set<Seq<char>>>::empty(),
            r@.senders == Map::<Seq<char>, u64>::empty(),
            r@.conns == Map::<Seq<char>, Set<Seq<char>>>::empty(),
    {
        SignalingState {
            peers: AList::new(),
            servers: SetMap::new(),
            signing_servers: SetMap::new(),
            peer_senders: AList::new(),
            conn_peers: SetMap::new(),
        }
    }

    /// True exactly when `peer_id` is registered and bound to `conn_id`:
    /// the authorization primitive for every message naming a source peer.
    pub fn validate_peer_connection(&self, peer_id: &String, conn_id: &String) -> (r: bool)
        requires
            self.wf(),
        ensures
            r == (self@.peers.contains_key(peer_id@) && self@.peers[peer_id@].conn_id
                == conn_id@),
    {
        match self.peers.get(peer_id) {
            Some(conn) => conn.conn_id == *conn_id,
            None => false,
        }
    }

    /// The server a peer is registered in, if any.
    pub fn get_server(&self, peer_id: &String) -> (r: Option<String>)
        requires
            self.wf(),
        ensures
            r is Some <==> self@.peers.contains_key(peer_id@),
            r is Some ==> r->0@ == self@.peers[peer_id@].server_id,
    {
        match self.peers.get(peer_id) {
            Some(conn) => Some(conn.server_id.clone()),
            None => None,
        }
    }

    /// Bind the outbound sender token for a registered peer; a no-op when
    /// the peer is unknown.
    pub fn bind_sender(&mut self, peer_id: &String, token: u64)
        requires
            old(self).wf(),
        ensures
            final(self).wf(),
            final(self)@ == if old(self)@.peers.contains_key(peer_id@) {
                SigModel { senders: old(self)@.senders.insert(peer_id@, token), ..old(self)@ }
            } else {
                old(self)@
            },
    {
        if self.peers.contains_key(peer_id) {
            self.peer_senders.insert(peer_id.clone(), token);
            proof {
                assert(final(self)@ =~= SigModel {
                    senders: old(self)@.senders.insert(peer_id@, token),
                    ..old(self)@
                });
            }
        }
    }

    /// Remove a peer and cascade through the server/signing/sender indexes;
    /// the connection index is the socket-close walk's business.
    pub fn unregister_peer(&mut self, peer_id: &String)
        requires
            old(self).wf(),
        ensures
            final(self).wf(),
            final(self)@ == unreg_model(old(self)@, peer_id@),
    {
        proof {
            lemma_unreg_wf(old(self)@, peer_id@);
        }
        match self.peers.remove(peer_id) {
            Some(conn) => {
                self.servers.remove_elem(&conn.server_id, peer_id);
                match &conn.signing_pubkey {
                    Some(spk) => {
                        self.signing_servers.remove_elem(spk, peer_id);
                    },
                    None => {},
                }
                self.peer_senders.remove(peer_id);
                proof {
                    assert(final(self)@ =~= unreg_model(old(self)@, peer_id@));
                }
            },
            None => {
                self.peer_senders.remove(peer_id);
                proof {
                    assert(final(self)@ =~= unreg_model(old(self)@, peer_id@));
                }
            },
        }
    }

    /// Register (or re-register) a peer and return the other peers already
    /// in the same server, so the caller can announce them to the newcomer.
    pub fn register_peer(
        &mut self,
        peer_id: String,
        server_id: String,
        signing_pubkey: Option<String>,
        conn_id: String,
    ) -> (others: Vec<String>)
        requires
            old(self).wf(),
        ensures
            final(self).wf(),
            final(self)@ == reg_model(
                old(self)@,
                peer_id@,
                server_id@,
                match signing_pubkey {
                    Some(k) => Some(k@),
                    None => None,
                },
                conn_id@,
            ),
            others.deep_view().no_duplicates(),
            others.deep_view().to_set() == reg_others(old(self)@, peer_id@, server_id@),
    {
        let ghost spk_v: Option<Seq<char>> = match &signing_pubkey {
            Some(k) => Some(k@),
            None => None,
        };
        proof {
            lemma_strip_wf(old(self)@, peer_id@);
            lemma_reg_wf(old(self)@, peer_id@, server_id@, spk_v, conn_id@);
        }
        let ghost keeps = old(self)@.peers.contains_key(peer_id@) && old(self)@.peers[
            peer_id@
        ].conn_id == conn_id@;
        // Strip any previous binding of this peer, connection index included;
        // a same-connection re-registration keeps the sender binding.
        match self.peers.get(&peer_id) {
            Some(conn) => {
                let prev_conn_id = conn.conn_id.clone();
                let kept_token: Option<u64> = if prev_conn_id == conn_id {
                    match self.peer_senders.get(&peer_id) {
                        Some(t) => Some(*t),
                        None => None,
                    }
                } else {
                    None
                };
                self.unregister_peer(&peer_id);
                self.conn_peers.remove_elem(&prev_conn_id, &peer_id);
                match kept_token {
                    Some(t) => {
                        self.peer_senders.insert(peer_id.clone(), t);
                        proof {
                            assert(self@.senders =~= old(self)@.senders);
                        }
                    },
                    None => {
                        if prev_conn_id == conn_id {
                            proof {
                                assert(self@.senders =~= old(self)@.senders);
                            }
                        }
                    },
                }
            },
            None => {},
        }
        let ghost mstrip = strip_model(old(self)@, peer_id@);
        proof {
            assert(self@.peers =~= mstrip.peers);
            assert(self@.servers =~= mstrip.servers);
            assert(self@.signing =~= mstrip.signing);
            assert(self@.conns =~= mstrip.conns);
            if keeps {
                assert(self@.senders =~= old(self)@.senders);
            } else {
                assert(self@.senders =~= mstrip.senders);
            }
        }
        let ghost m0 = mstrip;
        // The peers already there, before the newcomer is indexed.
        let others: Vec<String> = match self.servers.get_set(&server_id) {
            Some(s) => s.to_vec(),
            None => Vec::new(),
        };
        proof {
            if !m0.servers.contains_key(server_id@) {
                assert(others.deep_view() =~= Seq::<Seq<char>>::empty());
                assert(others.deep_view().to_set() =~= Set::<Seq<char>>::empty());
            }
        }
        let record = PeerConnection {
            peer_id: peer_id.clone(),
            server_id: server_id.clone(),
            signing_pubkey: match &signing_pubkey {
                Some(k) => Some(k.clone()),
                None => None,
            },
            conn_id: conn_id.clone(),
        };
        self.peers.insert(peer_id.clone(), record);
        self.conn_peers.add_elem(&conn_id, peer_id.clone());
        self.servers.add_elem(&server_id, peer_id.clone());
        match &signing_pubkey {
            Some(k) => {
                self.signing_servers.add_elem(k, peer_id.clone());
            },
            None => {},
        }
        proof {
            assert(final(self)@ =~= reg_model(old(self)@, peer_id@, server_id@, spk_v, conn_id@));
        }
        others
    }

    /// Socket-close cleanup: walk the peers registered on the dying
    /// connection, unregister every one still bound to it, and drop the
    /// connection's entry from the connection index.  Returns the walked
    /// list of peer ids.
    pub fn cleanup_connection(&mut self, conn_id: &String) -> (taken: Vec<String>)
        requires
            old(self).wf(),
        ensures
            final(self).wf(),
            taken.deep_view().no_duplicates(),
            taken.deep_view().to_set() == (if old(self)@.conns.contains_key(conn_id@) {
                old(self)@.conns[conn_id@]
            } else {
                Set::<Seq<char>>::empty()
            }),
            final(self)@ == (SigModel {
                conns: close_fold(old(self)@, conn_id@, taken.deep_view()).conns.remove(conn_id@),
                ..close_fold(old(self)@, conn_id@, taken.deep_view())
            }),
    {
        let members: Vec<String> = match self.conn_peers.get_set(conn_id) {
            Some(s) => s.to_vec(),
            None => Vec::new(),
        };
        proof {
            if !old(self)@.conns.contains_key(conn_id@) {
                assert(members.deep_view() =~= Seq::<Seq<char>>::empty());
                assert(members.deep_view().to_set() =~= Set::<Seq<char>>::empty());
            }
            assert(members.deep_view().take(0) =~= Seq::<Seq<char>>::empty());
        }
        let n = members.len();
        for i in 0..n
            invariant
                self.wf(),
                n == members@.len(),
                members.deep_view().len() == n,
                self@ == close_fold(old(self)@, conn_id@, members.deep_view().take(i as int)),
        {
            let p = &members[i];
            let ghost pre = self@;
            let bound_here = self.validate_peer_connection(p, conn_id);
            if bound_here {
                self.unregister_peer(p);
            }
            proof {
                assert(members.deep_view()[i as int] == members@[i as int]@);
                assert(self@ == close_step(pre, conn_id@, p@));
                lemma_close_fold_push(
                    old(self)@,
                    conn_id@,
                    members.deep_view().take(i as int),
                    p@,
                );
                assert(members.deep_view().take(i as int).push(p@) =~= members.deep_view().take(
                    i + 1,
                ));
            }
        }
        proof {
            assert(members.deep_view().take(n as int) =~= members.deep_view());
            lemma_close_fold_clears(old(self)@, conn_id@, members.deep_view());
        }
        let ghost m1 = self@;
        self.conn_peers.take(conn_id);
        proof {
            assert(self@ =~= SigModel { conns: m1.conns.remove(conn_id@), ..m1 });
            assert forall|q: Seq<char>| #[trigger] self@.peers.contains_key(q) implies {
                let d = self@.peers[q];
                self@.conns.contains_key(d.conn_id) && self@.conns[d.conn_id].contains(q)
            } by {
                let d = m1.peers[q];
                assert(m1.conns.contains_key(d.conn_id) && m1.conns[d.conn_id].contains(q));
                if d.conn_id == conn_id@ {
                    assert(old(self)@.peers.contains_key(q) && old(self)@.peers[q] == d);
                    assert(old(self)@.conns[conn_id@].contains(q));
                    assert(members.deep_view().to_set().contains(q));
                    assert(members.deep_view().contains(q));
                    assert(false);
                }
            }
        }
        members
    }

    /// Sender tokens of the members of a server other than `except` that
    /// have a sender bound: the fan-out of a join or leave announcement.
    pub fn server_tokens_except(&self, server_id: &String, except: &String) -> (r: Vec<u64>)
        requires
            self.wf(),
        ensures
            exists|ps: Seq<Seq<char>>| server_tokens_ok(self@, server_id@, except@, ps, r@),
    {
        match self.servers.get_set(server_id) {
            None => {
                let r: Vec<u64> = Vec::new();
                proof {
                    let ps = Seq::<Seq<char>>::empty();
                    assert forall|p: Seq<char>| !(#[trigger] ps.contains(p)) by {}
                    assert(server_tokens_ok(self@, server_id@, except@, ps, r@));
                }
                r
            },
            Some(subs) => {
                let n = subs.len();
                let mut r: Vec<u64> = Vec::new();
                let ghost mut ps: Seq<Seq<char>> = Seq::empty();
                for i in 0..n
                    invariant
                        self.wf(),
                        subs.wf(),
                        subs@ == self@.servers[server_id@],
                        self@.servers.contains_key(server_id@),
                        n == subs.sseq().len(),
                        ps.no_duplicates(),
                        forall|p: Seq<char>| #[trigger] ps.contains(p) <==> ((exists|j: int|
                            0 <= j < i && subs.sseq()[j] == p) && p != except@
                            && self@.senders.contains_key(p)),
                        r@.len() == ps.len(),
                        forall|t: int| 0 <= t < ps.len() ==> r@[t] == self@.senders[#[trigger] ps[t]],
                {
                    let p = subs.at(i);
                    let mut tok_opt: Option<u64> = None;
                    if !(*p == *except) {
                        match self.peer_senders.get(p) {
                            Some(tok) => {
                                tok_opt = Some(*tok);
                            },
                            None => {},
                        }
                    }
                    match tok_opt {
                        Some(tok) => {
                            r.push(tok);
                            proof {
                                let ps0 = ps;
                                assert forall|j: int| 0 <= j < ps0.len() implies ps0[j] != p@ by {
                                    assert(ps0.contains(ps0[j]));
                                    let jj = choose|jj: int|
                                        0 <= jj < i && subs.sseq()[jj] == ps0[j];
                                    assert(subs.sseq()[jj] != subs.sseq()[i as int]);
                                }
                                ps = ps0.push(p@);
                                assert(ps[ps.len() - 1] == p@);
                                assert forall|a: int, b: int|
                                    0 <= a < ps.len() && 0 <= b < ps.len() && a != b implies ps[a]
                                    != ps[b] by {
                                    if a < ps.len() - 1 && b < ps.len() - 1 {
                                        assert(ps[a] == ps0[a] && ps[b] == ps0[b]);
                                    } else if a == ps.len() - 1 {
                                        assert(ps[b] == ps0[b]);
                                    } else {
                                        assert(ps[a] == ps0[a]);
                                    }
                                }
                                assert forall|q: Seq<char>| #[trigger] ps.contains(q) implies ((
                                exists|j: int| 0 <= j < i + 1 && subs.sseq()[j] == q) && q
                                    != except@ && self@.senders.contains_key(q)) by {
                                    let t = choose|t: int| 0 <= t < ps.len() && ps[t] == q;
                                    if t < ps.len() - 1 {
                                        assert(ps0[t] == q);
                                        assert(ps0.contains(q));
                                    } else {
                                        assert(subs.sseq()[i as int] == q);
                                    }
                                }
                                assert forall|q: Seq<char>| ((exists|j: int|
                                    0 <= j < i + 1 && subs.sseq()[j] == q) && q != except@
                                    && self@.senders.contains_key(q)) implies #[trigger] ps.contains(
                                    q,
                                ) by {
                                    let j = choose|j: int| 0 <= j < i + 1 && subs.sseq()[j] == q;
                                    if j < i {
                                        assert(ps0.contains(q));
                                        let t = choose|t: int| 0 <= t < ps0.len() && ps0[t] == q;
                                        assert(ps[t] == q);
                                    } else {
                                        assert(ps[ps.len() - 1] == q);
                                    }
                                }
                            }
                        },
                        None => {
                            proof {
                                assert forall|q: Seq<char>| ((exists|j: int|
                                    0 <= j < i + 1 && subs.sseq()[j] == q) && q != except@
                                    && self@.senders.contains_key(q)) implies #[trigger] ps.contains(
                                    q,
                                ) by {
                                    let j = choose|j: int| 0 <= j < i + 1 && subs.sseq()[j] == q;
                                    if j == i {
                                        assert(q == p@);
                                        assert(false);
                                    }
                                }
                            }
                        },
                    }
                }
                proof {
                    assert forall|p: Seq<char>| #[trigger] ps.contains(p) <==> (
                    self@.servers.contains_key(server_id@) && self@.servers[server_id@].contains(
                        p,
                    ) && p != except@ && self@.senders.contains_key(p)) by {
                        if self@.servers[server_id@].contains(p) {
                            assert(subs.sseq().contains(p));
                        }
                        if exists|j: int| 0 <= j < n && subs.sseq()[j] == p {
                            assert(subs.sseq().contains(p));
                            assert(subs@.contains(p));
                        }
                    }
                    assert(server_tokens_ok(self@, server_id@, except@, ps, r@));
                }
                r
            },
        }
    }

    /// The sender tokens of the listed peers, in order, skipping those
    /// without a bound sender.
    pub fn tokens_for_ids(&self, ids: &Vec<String>) -> (r: Vec<u64>)
        requires
            self.wf(),
        ensures
            r@ == tokens_for(ids.deep_view(), self@.senders),
    {
        let ghost iv = ids.deep_view();
        let n = ids.len();
        let mut r: Vec<u64> = Vec::new();
        for i in 0..n
            invariant
                self.wf(),
                n == ids@.len(),
                iv == ids.deep_view(),
                r@ == tokens_for(iv.take(i as int), self@.senders),
        {
            match self.peer_senders.get(&ids[i]) {
                Some(tok) => {
                    r.push(*tok);
                },
                None => {},
            }
            proof {
                assert(iv.take(i + 1).drop_last() =~= iv.take(i as int));
                assert(iv.take(i + 1).last() == iv[i as int]);
                assert(iv[i as int] == ids@[i as int]@);
            }
        }
        proof {
            assert(iv.take(n as int) =~= iv);
        }
        r
    }

    /// Sender tokens of every subscriber of a signing key that has a live
    /// sender bound: the exact fan-out of a `ServerHintPublish`.
    pub fn hint_subscriber_tokens(&self, signing_pubkey: &String) -> (r: Vec<u64>)
        requires
            self.wf(),
        ensures
            exists|ps: Seq<Seq<char>>| hint_recipients_ok(self@, signing_pubkey@, ps, r@),
    {
        match self.signing_servers.get_set(signing_pubkey) {
            None => {
                let r: Vec<u64> = Vec::new();
                proof {
                    let ps = Seq::<Seq<char>>::empty();
                    assert forall|p: Seq<char>| !(#[trigger] ps.contains(p)) by {}
                    assert(hint_recipients_ok(self@, signing_pubkey@, ps, r@));
                }
                r
            },
            Some(subs) => {
                let n = subs.len();
                let mut r: Vec<u64> = Vec::new();
                let ghost mut ps: Seq<Seq<char>> = Seq::empty();
                for i in 0..n
                    invariant
                        self.wf(),
                        subs.wf(),
                        subs@ == self@.signing[signing_pubkey@],
                        self@.signing.contains_key(signing_pubkey@),
                        n == subs.sseq().len(),
                        ps.no_duplicates(),
                        forall|p: Seq<char>| #[trigger] ps.contains(p) <==> ((exists|j: int|
                            0 <= j < i && subs.sseq()[j] == p) && self@.senders.contains_key(p)),
                        r@.len() == ps.len(),
                        forall|t: int| 0 <= t < ps.len() ==> r@[t] == self@.senders[#[trigger] ps[t]],
                {
                    let p = subs.at(i);
                    match self.peer_senders.get(p) {
                        Some(tok) => {
                            r.push(*tok);
                            proof {
                                let ps0 = ps;
                                assert forall|j: int| 0 <= j < ps0.len() implies ps0[j] != p@ by {
                                    assert(ps0.contains(ps0[j]));
                                    let jj = choose|jj: int|
                                        0 <= jj < i && subs.sseq()[jj] == ps0[j];
                                    assert(subs.sseq()[jj] != subs.sseq()[i as int]);
                                }
                                ps = ps0.push(p@);
                                assert(ps[ps.len() - 1] == p@);
                                assert forall|a: int, b: int|
                                    0 <= a < ps.len() && 0 <= b < ps.len() && a != b implies ps[a]
                                    != ps[b] by {
                                    if a < ps.len() - 1 && b < ps.len() - 1 {
                                        assert(ps[a] == ps0[a] && ps[b] == ps0[b]);
                                    } else if a == ps.len() - 1 {
                                        assert(ps[b] == ps0[b]);
                                    } else {
                                        assert(ps[a] == ps0[a]);
                                    }
                                }
                                assert forall|q: Seq<char>| #[trigger] ps.contains(q) implies ((
                                exists|j: int| 0 <= j < i + 1 && subs.sseq()[j] == q)
                                    && self@.senders.contains_key(q)) by {
                                    let t = choose|t: int| 0 <= t < ps.len() && ps[t] == q;
                                    if t < ps.len() - 1 {
                                        assert(ps0[t] == q);
                                        assert(ps0.contains(q));
                                    } else {
                                        assert(subs.sseq()[i as int] == q);
                                    }
                                }
                                assert forall|q: Seq<char>| ((exists|j: int|
                                    0 <= j < i + 1 && subs.sseq()[j] == q)
                                    && self@.senders.contains_key(q)) implies #[trigger] ps.contains(
                                    q,
                                ) by {
                                    let j = choose|j: int| 0 <= j < i + 1 && subs.sseq()[j] == q;
                                    if j < i {
                                        assert(ps0.contains(q));
                                        let t = choose|t: int|
                                            0 <= t < ps0.len() && ps0[t] == q;
                                        assert(ps[t] == q);
                                    } else {
                                        assert(ps[ps.len() - 1] == q);
                                    }
                                }
                            }
                        },
                        None => {
                            proof {
                                assert forall|q: Seq<char>| ((exists|j: int|
                                    0 <= j < i + 1 && subs.sseq()[j] == q)
                                    && self@.senders.contains_key(q)) implies #[trigger] ps.contains(
                                    q,
                                ) by {
                                    let j = choose|j: int| 0 <= j < i + 1 && subs.sseq()[j] == q;
                                    if j == i {
                                        assert(q == p@);
                                        assert(false);
                                    }
                                }
                            }
                        },
                    }
                }
                proof {
                    assert forall|p: Seq<char>| #[trigger] ps.contains(p) <==> (
                    self@.signing.contains_key(signing_pubkey@)
                        && self@.signing[signing_pubkey@].contains(p)
                        && self@.senders.contains_key(p)) by {
                        if self@.signing[signing_pubkey@].contains(p) {
                            assert(subs.sseq().contains(p));
                        }
                        if exists|j: int| 0 <= j < n && subs.sseq()[j] == p {
                            assert(subs.sseq().contains(p));
                            assert(subs@.contains(p));
                        }
                    }
                    assert(hint_recipients_ok(self@, signing_pubkey@, ps, r@));
                }
                r
            },
        }
    }
}

} // verus!
