//! Voice chat state: per-(server, chat) membership rosters with
//! reconnect-by-user semantics and connection-scoped cleanup.

use vstd::prelude::*;
use crate::kv::{AList, kv_map, kv_distinct, kv_find2, lemma_kv_get, lemma_kv_remove,
    lemma_kv_push, lemma_kv_contains};

verus! {

/// One member of a voice chat.
pub struct VoicePeer {
    pub peer_id: String,
    pub user_id: String,
    pub conn_id: String,
}

/// The mathematical image of a `VoicePeer`.
pub struct VoicePeerV {
    pub peer_id: Seq<char>,
    pub user_id: Seq<char>,
    pub conn_id: Seq<char>,
}

impl View for VoicePeer {
    type V = VoicePeerV;

    open spec fn view(&self) -> VoicePeerV {
        VoicePeerV { peer_id: self.peer_id@, user_id: self.user_id@, conn_id: self.conn_id@ }
    }
}

impl DeepView for VoicePeer {
    type V = VoicePeerV;

    open spec fn deep_view(&self) -> VoicePeerV {
        self@
    }
}

impl VoicePeer {
    fn duplicate(&self) -> (r: Self)
        ensures
            r@ == self@,
    {
        VoicePeer {
            peer_id: self.peer_id.clone(),
            user_id: self.user_id.clone(),
            conn_id: self.conn_id.clone(),
        }
    }
}

/// Info about a voice peer (returned to clients).
pub struct VoicePeerInfo {
    pub peer_id: String,
    pub user_id: String,
}

/// The ordered members of one chat.
pub struct VoiceRoster {
    pub peers: Vec<VoicePeer>,
}

impl View for VoiceRoster {
    type V = Seq<VoicePeerV>;

    open spec fn view(&self) -> Seq<VoicePeerV> {
        self.peers.deep_view()
    }
}

/// The members of `r` that do not belong to user `u`, in order.
pub open spec fn roster_drop_user(r: Seq<VoicePeerV>, u: Seq<char>) -> Seq<VoicePeerV>
    decreases r.len(),
{
    if r.len() == 0 {
        Seq::empty()
    } else {
        let rest = roster_drop_user(r.drop_last(), u);
        if r.last().user_id == u {
            rest
        } else {
            rest.push(r.last())
        }
    }
}

/// The members of `r` whose peer id is not `p`, in order.
pub open spec fn roster_except_peer(r: Seq<VoicePeerV>, p: Seq<char>) -> Seq<VoicePeerV>
    decreases r.len(),
{
    if r.len() == 0 {
        Seq::empty()
    } else {
        let rest = roster_except_peer(r.drop_last(), p);
        if r.last().peer_id == p {
            rest
        } else {
            rest.push(r.last())
        }
    }
}

/// The members of `r` not registered on connection `c`, in order.
pub open spec fn roster_drop_conn(r: Seq<VoicePeerV>, c: Seq<char>) -> Seq<VoicePeerV>
    decreases r.len(),
{
    if r.len() == 0 {
        Seq::empty()
    } else {
        let rest = roster_drop_conn(r.drop_last(), c);
        if r.last().conn_id == c {
            rest
        } else {
            rest.push(r.last())
        }
    }
}

/// The members of `r` on connection `c`, in order.
pub open spec fn roster_on_conn(r: Seq<VoicePeerV>, c: Seq<char>) -> Seq<VoicePeerV>
    decreases r.len(),
{
    if r.len() == 0 {
        Seq::empty()
    } else {
        let rest = roster_on_conn(r.drop_last(), c);
        if r.last().conn_id == c {
            rest.push(r.last())
        } else {
            rest
        }
    }
}

pub proof fn lemma_roster_drop_user_clears(r: Seq<VoicePeerV>, u: Seq<char>)
    ensures
        forall|j: int| 0 <= j < roster_drop_user(r, u).len()
            ==> roster_drop_user(r, u)[j].user_id != u,
    decreases r.len(),
{
    if r.len() > 0 {
        lemma_roster_drop_user_clears(r.drop_last(), u);
        let rest = roster_drop_user(r.drop_last(), u);
        if r.last().user_id != u {
            assert forall|j: int| 0 <= j < rest.push(r.last()).len() implies rest.push(
                r.last(),
            )[j].user_id != u by {
                if j < rest.len() {
                    assert(rest.push(r.last())[j] == rest[j]);
                }
            }
        }
    }
}

/// The map of voice chats.
pub type VoiceMap = Map<(Seq<char>, Seq<char>), Seq<VoicePeerV>>;

/// What a voice join does to the chat map: any prior entry of the same user
/// in that chat is dropped (reconnect semantics), then the newcomer is
/// appended.
pub open spec fn vjoin_model(
    m: VoiceMap,
    key: (Seq<char>, Seq<char>),
    p: Seq<char>,
    u: Seq<char>,
    c: Seq<char>,
) -> VoiceMap {
    let cur = if m.contains_key(key) {
        m[key]
    } else {
        Seq::empty()
    };
    m.insert(
        key,
        roster_drop_user(cur, u).push(VoicePeerV { peer_id: p, user_id: u, conn_id: c }),
    )
}

/// The list a voice join returns to the joiner: everyone kept in the chat
/// other than the joining peer itself.
pub open spec fn vjoin_others(
    m: VoiceMap,
    key: (Seq<char>, Seq<char>),
    p: Seq<char>,
    u: Seq<char>,
) -> Seq<VoicePeerV> {
    let cur = if m.contains_key(key) {
        m[key]
    } else {
        Seq::empty()
    };
    roster_except_peer(roster_drop_user(cur, u), p)
}

/// Voice reconnect: after a join, the chat holds exactly one entry for the
/// joining user — the new one, as the last member — and nobody else's entry
/// changed.
pub proof fn lemma_voice_reconnect(
    m: VoiceMap,
    key: (Seq<char>, Seq<char>),
    p: Seq<char>,
    u: Seq<char>,
    c: Seq<char>,
)
    ensures
        ({
            let r2 = vjoin_model(m, key, p, u, c)[key];
            &&& r2.len() > 0
            &&& r2.last().user_id == u
            &&& r2.last().peer_id == p
            &&& r2.last().conn_id == c
            &&& forall|j: int| 0 <= j < r2.len() - 1 ==> r2[j].user_id != u
        }),
{
    let cur = if m.contains_key(key) {
        m[key]
    } else {
        Seq::empty()
    };
    lemma_roster_drop_user_clears(cur, u);
}

/// Every member kept by a user-drop was in the roster before.
pub proof fn lemma_roster_drop_user_members(r: Seq<VoicePeerV>, u: Seq<char>)
    ensures
        forall|j: int| 0 <= j < roster_drop_user(r, u).len() ==> r.contains(
            #[trigger] roster_drop_user(r, u)[j],
        ),
    decreases r.len(),
{
    if r.len() > 0 {
        lemma_roster_drop_user_members(r.drop_last(), u);
        let rest = roster_drop_user(r.drop_last(), u);
        let res = roster_drop_user(r, u);
        assert forall|j: int| 0 <= j < res.len() implies r.contains(res[j]) by {
            if r.last().user_id == u || j < rest.len() {
                assert(res[j] == rest[j]);
                assert(r.drop_last().contains(rest[j]));
                let k = choose|k: int|
                    0 <= k < r.drop_last().len() && r.drop_last()[k] == rest[j];
                assert(r[k] == res[j]);
            } else {
                assert(res[j] == r.last());
                assert(r[r.len() - 1] == res[j]);
            }
        }
    }
}

/// Voice reconnect, replacement form: when no other user's entry in the chat
/// shares the replaced peer id, a rejoin by the same user under a new peer
/// id leaves no trace of the old peer id.
pub proof fn lemma_voice_reconnect_replaces(
    m: VoiceMap,
    key: (Seq<char>, Seq<char>),
    p_old: Seq<char>,
    p_new: Seq<char>,
    u: Seq<char>,
    c: Seq<char>,
)
    requires
        p_new != p_old,
        forall|j: int|
            m.contains_key(key) && 0 <= j < m[key].len() && (#[trigger] m[key][j]).peer_id
                == p_old ==> m[key][j].user_id == u,
    ensures
        forall|j: int| 0 <= j < vjoin_model(m, key, p_new, u, c)[key].len() ==> (
        #[trigger] vjoin_model(m, key, p_new, u, c)[key][j]).peer_id != p_old,
{
    let cur = if m.contains_key(key) {
        m[key]
    } else {
        Seq::empty()
    };
    lemma_roster_drop_user_clears(cur, u);
    lemma_roster_drop_user_members(cur, u);
    let kept = roster_drop_user(cur, u);
    let r2 = vjoin_model(m, key, p_new, u, c)[key];
    assert forall|j: int| 0 <= j < r2.len() implies r2[j].peer_id != p_old by {
        if j < kept.len() {
            assert(r2[j] == kept[j]);
            assert(cur.contains(kept[j]));
            let k = choose|k: int| 0 <= k < cur.len() && cur[k] == kept[j];
            if kept[j].peer_id == p_old {
                assert(cur[k].user_id == u);
                assert(false);
            }
        } else {
            assert(r2[j].peer_id == p_new);
        }
    }
}

/// Index of the first member with the given peer id, or -1 when absent.
pub open spec fn roster_first_peer(r: Seq<VoicePeerV>, p: Seq<char>) -> int
    decreases r.len(),
{
    if r.len() == 0 {
        -1
    } else if r.first().peer_id == p {
        0
    } else {
        let t = roster_first_peer(r.drop_first(), p);
        if t < 0 {
            -1
        } else {
            t + 1
        }
    }
}

pub proof fn lemma_roster_first_at(r: Seq<VoicePeerV>, p: Seq<char>, j: int)
    requires
        0 <= j < r.len(),
        r[j].peer_id == p,
        forall|t: int| 0 <= t < j ==> r[t].peer_id != p,
    ensures
        roster_first_peer(r, p) == j,
    decreases j,
{
    if j == 0 {
    } else {
        assert(r.first().peer_id != p);
        let r1 = r.drop_first();
        assert(r1[j - 1].peer_id == p);
        assert forall|t: int| 0 <= t < j - 1 implies r1[t].peer_id != p by {
            assert(r1[t] == r[t + 1]);
        }
        lemma_roster_first_at(r1, p, j - 1);
    }
}

pub proof fn lemma_roster_first_absent(r: Seq<VoicePeerV>, p: Seq<char>)
    requires
        forall|t: int| 0 <= t < r.len() ==> r[t].peer_id != p,
    ensures
        roster_first_peer(r, p) == -1,
    decreases r.len(),
{
    if r.len() > 0 {
        let r1 = r.drop_first();
        assert forall|t: int| 0 <= t < r1.len() implies r1[t].peer_id != p by {
            assert(r1[t] == r[t + 1]);
        }
        lemma_roster_first_absent(r1, p);
    }
}

/// What a voice leave does to the chat map: the first entry with the peer id
/// goes; a chat that empties disappears.
pub open spec fn vleave_model(m: VoiceMap, key: (Seq<char>, Seq<char>), p: Seq<char>) -> VoiceMap {
    if m.contains_key(key) {
        let j = roster_first_peer(m[key], p);
        if j < 0 {
            m
        } else if m[key].len() == 1 {
            m.remove(key)
        } else {
            m.insert(key, m[key].remove(j))
        }
    } else {
        m
    }
}

/// The user id a voice leave reports: that of the removed entry.
pub open spec fn vleave_user(m: VoiceMap, key: (Seq<char>, Seq<char>), p: Seq<char>) -> Option<
    Seq<char>,
> {
    if m.contains_key(key) && roster_first_peer(m[key], p) >= 0 {
        Some(m[key][roster_first_peer(m[key], p)].user_id)
    } else {
        None
    }
}

/// What removing everything a dead connection held does to the chat map:
/// each roster is filtered, chats that empty disappear.
pub open spec fn vdisc_map(m: VoiceMap, c: Seq<char>) -> VoiceMap {
    Map::new(
        |key: (Seq<char>, Seq<char>)|
            m.contains_key(key) && roster_drop_conn(m[key], c).len() > 0,
        |key: (Seq<char>, Seq<char>)| roster_drop_conn(m[key], c),
    )
}

/// The removal records of a connection-death walk, in chat order then member
/// order: (server id, chat id, peer id, user id).
pub open spec fn vdisc_removed(
    s: Seq<((String, String), VoiceRoster)>,
    c: Seq<char>,
) -> Seq<(Seq<char>, Seq<char>, Seq<char>, Seq<char>)>
    decreases s.len(),
{
    if s.len() == 0 {
        Seq::empty()
    } else {
        vdisc_removed(s.drop_last(), c) + roster_on_conn(s.last().1@, c).map_values(
            |vp: VoicePeerV| (s.last().0.0@, s.last().0.1@, vp.peer_id, vp.user_id),
        )
    }
}

/// Voice chat state (chat-scoped).
pub struct VoiceState {
    /// (server id, chat id) -> members of that chat, join order kept.
    pub voice_chats: Vec<((String, String), VoiceRoster)>,
    /// server id -> signing pubkey (for voice presence broadcasting).
    pub server_signing_pubkeys: AList<String>,
}

impl View for VoiceState {
    type V = VoiceMap;

    open spec fn view(&self) -> VoiceMap {
        kv_map(self.voice_chats@)
    }
}

impl VoiceState {
    /// Distinct chat keys, no empty chat kept, signing map sound.
    pub open spec fn wf(&self) -> bool {
        &&& kv_distinct(self.voice_chats@)
        &&& forall|i: int| 0 <= i < self.voice_chats@.len()
            ==> (#[trigger] self.voice_chats@[i]).1@.len() > 0
        &&& self.server_signing_pubkeys.wf()
    }

    pub fn new() -> (r: Self)
        ensures
            r.wf(),
            r@ == Map::<(Seq<char>, Seq<char>), Seq<VoicePeerV>>::empty(),
    {
        VoiceState { voice_chats: Vec::new(), server_signing_pubkeys: AList::new() }
    }

    /// Register a peer for voice in a specific chat; a prior entry of the
    /// same user is replaced.  Returns the other members of the chat.
    pub fn register_voice_peer(
        &mut self,
        peer_id: String,
        user_id: String,
        server_id: String,
        chat_id: String,
        conn_id: String,
    ) -> (others: Vec<VoicePeerInfo>)
        requires
            old(self).wf(),
        ensures
            final(self).wf(),
            final(self).server_signing_pubkeys == old(self).server_signing_pubkeys,
            final(self)@ == vjoin_model(
                old(self)@,
                (server_id@, chat_id@),
                peer_id@,
                user_id@,
                conn_id@,
            ),
            ({
                let ov = vjoin_others(old(self)@, (server_id@, chat_id@), peer_id@, user_id@);
                &&& others@.len() == ov.len()
                &&& forall|j: int| 0 <= j < ov.len() ==> (#[trigger] others@[j]).peer_id@
                    == ov[j].peer_id && others@[j].user_id@ == ov[j].user_id
            }),
    {
        let ghost key: (Seq<char>, Seq<char>) = (server_id@, chat_id@);
        let ghost m0 = self@;
        // Pull the current roster out (empty when the chat does not exist).
        let cur: Vec<VoicePeer> = match kv_find2(&self.voice_chats, &server_id, &chat_id) {
            Some(i) => {
                proof {
                    lemma_kv_get(self.voice_chats@, i as int);
                    lemma_kv_remove(self.voice_chats@, i as int);
                }
                let ghost s0 = self.voice_chats@;
                let (_, roster) = self.voice_chats.remove(i);
                proof {
                    assert(self.voice_chats@ =~= s0.remove(i as int));
                }
                roster.peers
            },
            None => {
                proof {
                    lemma_kv_contains(self.voice_chats@, key);
                    assert(self@ =~= m0.remove(key));
                }
                Vec::new()
            },
        };
        proof {
            assert(self@ =~= m0.remove(key));
        }
        let ghost cur_v: Seq<VoicePeerV> = if m0.contains_key(key) {
            m0[key]
        } else {
            Seq::empty()
        };
        proof {
            if !m0.contains_key(key) {
                assert(cur.deep_view() =~= cur_v);
            }
        }
        // Drop any prior entry of this user (reconnect with a new peer id).
        let n = cur.len();
        let mut kept: Vec<VoicePeer> = Vec::new();
        for j in 0..n
            invariant
                n == cur@.len(),
                cur.deep_view() == cur_v,
                kept.deep_view() =~= roster_drop_user(cur_v.take(j as int), user_id@),
        {
            let ghost pre = kept.deep_view();
            if cur[j].user_id != user_id {
                kept.push(cur[j].duplicate());
                proof {
                    assert(kept.deep_view() =~= pre.push(cur_v[j as int]));
                }
            }
            proof {
                assert(cur_v.take(j + 1).drop_last() =~= cur_v.take(j as int));
                assert(cur_v.take(j + 1).last() == cur_v[j as int]);
            }
        }
        proof {
            assert(cur_v.take(n as int) =~= cur_v);
        }
        // The other members reported back to the joiner.
        let kn = kept.len();
        let mut others: Vec<VoicePeerInfo> = Vec::new();
        let ghost kept_v = kept.deep_view();
        for j in 0..kn
            invariant
                kn == kept@.len(),
                kept.deep_view() == kept_v,
                others@.len() == roster_except_peer(kept_v.take(j as int), peer_id@).len(),
                forall|t: int| 0 <= t < others@.len() ==> {
                    let ov = roster_except_peer(kept_v.take(j as int), peer_id@);
                    (#[trigger] others@[t]).peer_id@ == ov[t].peer_id && others@[t].user_id@
                        == ov[t].user_id
                },
        {
            let ghost ov_pre = roster_except_peer(kept_v.take(j as int), peer_id@);
            if kept[j].peer_id != peer_id {
                others.push(
                    VoicePeerInfo {
                        peer_id: kept[j].peer_id.clone(),
                        user_id: kept[j].user_id.clone(),
                    },
                );
            }
            proof {
                assert(kept_v.take(j + 1).drop_last() =~= kept_v.take(j as int));
                assert(kept_v.take(j + 1).last() == kept_v[j as int]);
            }
        }
        proof {
            assert(kept_v.take(kn as int) =~= kept_v);
        }
        // Append the newcomer and store the roster.
        let ghost pv = peer_id@;
        let ghost uv = user_id@;
        let ghost cv = conn_id@;
        let mut roster = kept;
        roster.push(VoicePeer { peer_id, user_id, conn_id });
        proof {
            assert(roster.deep_view() =~= kept_v.push(
                VoicePeerV { peer_id: pv, user_id: uv, conn_id: cv },
            ));
        }
        let entry = ((server_id, chat_id), VoiceRoster { peers: roster });
        let ghost s1 = self.voice_chats@;
        proof {
            lemma_kv_contains(s1, key);
            assert(entry.0@ == key);
            assert(entry.1@ == kept_v.push(VoicePeerV { peer_id: pv, user_id: uv, conn_id: cv }));
            lemma_kv_push(s1, entry);
        }
        self.voice_chats.push(entry);
        proof {
            assert(self@ =~= vjoin_model(m0, key, pv, uv, cv));
        }
        others
    }

    /// Unregister a peer from a chat; the first entry with that peer id is
    /// removed, and the chat disappears when it empties.  Returns the user
    /// id of the removed entry.
    pub fn unregister_voice_peer(
        &mut self,
        peer_id: &String,
        server_id: &String,
        chat_id: &String,
    ) -> (r: Option<String>)
        requires
            old(self).wf(),
        ensures
            final(self).wf(),
            final(self).server_signing_pubkeys == old(self).server_signing_pubkeys,
            final(self)@ == vleave_model(old(self)@, (server_id@, chat_id@), peer_id@),
            ({
                match r {
                    Some(us) => vleave_user(old(self)@, (server_id@, chat_id@), peer_id@)
                        == Some(us@),
                    None => vleave_user(old(self)@, (server_id@, chat_id@), peer_id@) is None,
                }
            }),
    {
        let ghost key: (Seq<char>, Seq<char>) = (server_id@, chat_id@);
        proof {
            lemma_kv_contains(self.voice_chats@, key);
        }
        match kv_find2(&self.voice_chats, server_id, chat_id) {
            None => None,
            Some(i) => {
                proof {
                    lemma_kv_get(self.voice_chats@, i as int);
                    lemma_kv_remove(self.voice_chats@, i as int);
                }
                let ghost s0 = self.voice_chats@;
                let ghost cur = self@[key];
                let (key_pair, mut roster) = self.voice_chats.remove(i);
                proof {
                    assert(self.voice_chats@ =~= s0.remove(i as int));
                    assert(roster@ == cur);
                }
                // Find the first entry with this peer id.
                let rn = roster.peers.len();
                let mut pos: Option<usize> = None;
                for j in 0..rn
                    invariant
                        rn == roster.peers@.len(),
                        pos is None ==> forall|t: int| 0 <= t < j ==> roster@[t].peer_id
                            != peer_id@,
                        pos matches Some(pp) ==> pp < rn && roster@[pp as int].peer_id == peer_id@
                            && (forall|t: int| 0 <= t < pp ==> roster@[t].peer_id != peer_id@),
                {
                    if pos.is_none() && roster.peers[j].peer_id == *peer_id {
                        pos = Some(j);
                    }
                }
                match pos {
                    None => {
                        // Peer not in the chat: put the roster back unchanged.
                        let ghost s1 = self.voice_chats@;
                        proof {
                            lemma_roster_first_absent(cur, peer_id@);
                            lemma_kv_contains(s1, key);
                            lemma_kv_push(s1, (key_pair, roster));
                        }
                        let entry = (key_pair, roster);
                        self.voice_chats.push(entry);
                        proof {
                            assert(self@ =~= old(self)@);
                        }
                        None
                    },
                    Some(j) => {
                        proof {
                            lemma_roster_first_at(cur, peer_id@, j as int);
                        }
                        let removed = roster.peers.remove(j);
                        let out = Some(removed.user_id);
                        if roster.peers.len() > 0 {
                            let ghost s1 = self.voice_chats@;
                            proof {
                                lemma_kv_contains(s1, key);
                                lemma_kv_push(s1, (key_pair, roster));
                            }
                            let entry = (key_pair, roster);
                            self.voice_chats.push(entry);
                            proof {
                                assert(entry.1@ =~= cur.remove(j as int));
                                assert(self@ =~= old(self)@.insert(key, cur.remove(j as int)));
                            }
                        } else {
                            proof {
                                assert(cur.len() == 1);
                                assert(self@ =~= old(self)@.remove(key));
                            }
                        }
                        out
                    },
                }
            },
        }
    }

    /// The peer ids of a chat's members, in order; empty when the chat does
    /// not exist.
    pub fn chat_member_ids(&self, server_id: &String, chat_id: &String) -> (r: Vec<String>)
        requires
            self.wf(),
        ensures
            r.deep_view() == (if self@.contains_key((server_id@, chat_id@)) {
                self@[(server_id@, chat_id@)].map_values(|vp: VoicePeerV| vp.peer_id)
            } else {
                Seq::<Seq<char>>::empty()
            }),
    {
        let ghost key: (Seq<char>, Seq<char>) = (server_id@, chat_id@);
        proof {
            lemma_kv_contains(self.voice_chats@, key);
        }
        match kv_find2(&self.voice_chats, server_id, chat_id) {
            None => {
                let r: Vec<String> = Vec::new();
                proof {
                    assert(r.deep_view() =~= Seq::<Seq<char>>::empty());
                }
                r
            },
            Some(i) => {
                proof {
                    lemma_kv_get(self.voice_chats@, i as int);
                }
                let roster = &self.voice_chats[i].1;
                let ghost rv = roster@;
                let n = roster.peers.len();
                let mut r: Vec<String> = Vec::new();
                for j in 0..n
                    invariant
                        n == roster.peers@.len(),
                        rv == roster@,
                        r.deep_view() =~= rv.map_values(|vp: VoicePeerV| vp.peer_id).take(
                            j as int,
                        ),
                {
                    let ghost pre = r.deep_view();
                    r.push(roster.peers[j].peer_id.clone());
                    proof {
                        assert(r.deep_view() =~= pre.push(rv[j as int].peer_id));
                        assert(rv.map_values(|vp: VoicePeerV| vp.peer_id).take(j + 1) =~= pre.push(
                            rv[j as int].peer_id,
                        ));
                    }
                }
                proof {
                    assert(rv.map_values(|vp: VoicePeerV| vp.peer_id).take(n as int)
                        =~= rv.map_values(|vp: VoicePeerV| vp.peer_id));
                }
                r
            },
        }
    }

    /// Remove every member registered on a dying connection, across all
    /// chats, dropping chats that empty.  Returns the removal records
    /// (server id, chat id, peer id, user id) for the caller's broadcasts.
    pub fn handle_voice_disconnect(&mut self, conn_id: &String) -> (removed: Vec<
        (String, String, String, String),
    >)
        requires
            old(self).wf(),
        ensures
            final(self).wf(),
            final(self).server_signing_pubkeys == old(self).server_signing_pubkeys,
            final(self)@ == vdisc_map(old(self)@, conn_id@),
            removed.deep_view() == vdisc_removed(old(self).voice_chats@, conn_id@),
    {
        let n = self.voice_chats.len();
        let mut out: Vec<((String, String), VoiceRoster)> = Vec::new();
        let mut removed: Vec<(String, String, String, String)> = Vec::new();
        let ghost s0 = self.voice_chats@;
        for i in 0..n
            invariant
                n == s0.len(),
                self.voice_chats@ == s0,
                old(self).wf(),
                kv_distinct(s0),
                kv_distinct(out@),
                forall|t: int| 0 <= t < out@.len() ==> (#[trigger] out@[t]).1@.len() > 0,
                forall|t: int| 0 <= t < out@.len() ==> exists|jj: int|
                    0 <= jj < i && (#[trigger] out@[t]).0@ == s0[jj].0@,
                kv_map(out@) =~= vdisc_map(kv_map(s0.take(i as int)), conn_id@),
                removed.deep_view() =~= vdisc_removed(s0.take(i as int), conn_id@),
        {
            let ghost pre_map = kv_map(out@);
            let ghost key_i: (Seq<char>, Seq<char>) = s0[i as int].0@;
            let ghost cur_v: Seq<VoicePeerV> = s0[i as int].1@;
            let entry = &self.voice_chats[i];
            let rn = entry.1.peers.len();
            let mut kept: Vec<VoicePeer> = Vec::new();
            let ghost removed0 = removed.deep_view();
            for j in 0..rn
                invariant
                    rn == cur_v.len(),
                    entry.1@ == cur_v,
                    entry.0@ == key_i,
                    kept.deep_view() =~= roster_drop_conn(cur_v.take(j as int), conn_id@),
                    removed.deep_view() =~= removed0 + roster_on_conn(
                        cur_v.take(j as int),
                        conn_id@,
                    ).map_values(
                        |vp: VoicePeerV| (key_i.0, key_i.1, vp.peer_id, vp.user_id),
                    ),
            {
                let ghost pre_kept = kept.deep_view();
                let ghost pre_removed = removed.deep_view();
                let vp = &entry.1.peers[j];
                if vp.conn_id == *conn_id {
                    removed.push(
                        (
                            entry.0.0.clone(),
                            entry.0.1.clone(),
                            vp.peer_id.clone(),
                            vp.user_id.clone(),
                        ),
                    );
                    proof {
                        assert(removed.deep_view() =~= pre_removed.push(
                            (key_i.0, key_i.1, cur_v[j as int].peer_id, cur_v[j as int].user_id),
                        ));
                    }
                } else {
                    kept.push(vp.duplicate());
                    proof {
                        assert(kept.deep_view() =~= pre_kept.push(cur_v[j as int]));
                    }
                }
                proof {
                    assert(cur_v.take(j + 1).drop_last() =~= cur_v.take(j as int));
                    assert(cur_v.take(j + 1).last() == cur_v[j as int]);
                    assert(roster_on_conn(cur_v.take(j + 1), conn_id@).map_values(
                        |vp: VoicePeerV| (key_i.0, key_i.1, vp.peer_id, vp.user_id),
                    ) =~= (if cur_v[j as int].conn_id == conn_id@ {
                        roster_on_conn(cur_v.take(j as int), conn_id@).map_values(
                            |vp: VoicePeerV| (key_i.0, key_i.1, vp.peer_id, vp.user_id),
                        ).push(
                            (key_i.0, key_i.1, cur_v[j as int].peer_id, cur_v[j as int].user_id),
                        )
                    } else {
                        roster_on_conn(cur_v.take(j as int), conn_id@).map_values(
                            |vp: VoicePeerV| (key_i.0, key_i.1, vp.peer_id, vp.user_id),
                        )
                    }));
                }
            }
            proof {
                assert(cur_v.take(rn as int) =~= cur_v);
            }
            if kept.len() > 0 {
                let new_entry = ((entry.0.0.clone(), entry.0.1.clone()), VoiceRoster {
                    peers: kept,
                });
                let ghost out0 = out@;
                proof {
                    assert(new_entry.0@ == key_i);
                    assert forall|t: int| 0 <= t < out0.len() implies out0[t].0@ != key_i by {
                        let jj = choose|jj: int| 0 <= jj < i && out0[t].0@ == s0[jj].0@;
                        assert(s0[jj].0@ != s0[i as int].0@);
                    }
                    lemma_kv_push(out0, new_entry);
                }
                out.push(new_entry);
            }
            proof {
                assert(s0.take(i + 1).drop_last() =~= s0.take(i as int));
                assert(s0.take(i + 1).last() == s0[i as int]);
                assert(kv_map(s0.take(i + 1)) == kv_map(s0.take(i as int)).insert(
                    key_i,
                    cur_v,
                ));
                lemma_kv_contains(s0.take(i as int), key_i);
                assert forall|jj: int| 0 <= jj < i implies s0.take(i as int)[jj].0@ != key_i by {
                    assert(s0[jj].0@ != s0[i as int].0@);
                }
                assert(!kv_map(s0.take(i as int)).contains_key(key_i));
                assert(kv_map(out@) =~= vdisc_map(kv_map(s0.take(i + 1)), conn_id@));
                assert(removed.deep_view() =~= vdisc_removed(s0.take(i + 1), conn_id@));
            }
        }
        proof {
            assert(s0.take(n as int) =~= s0);
        }
        self.voice_chats = out;
        removed
    }
}

} // verus!
