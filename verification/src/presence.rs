//! TTL-bounded user presence: per-user record with an active signing key and
//! an expiry instant, plus a reverse index of users per signing key.  Time is
//! an explicit parameter, so every behaviour here is a function of plain
//! values; the caller supplies the clock.

use vstd::prelude::*;
use crate::kv::AList;
use crate::strset::{SetMap, mm_add, mm_del};

verus! {

/// Key of a user's presence record in an external key-value store.
pub fn redis_user_key(user_id: &str) -> (r: String)
    ensures
        r@ == "presence:user:"@ + user_id@,
{
    String::from_str("presence:user:").concat(user_id)
}

/// Key of a signing key's presence set in an external key-value store.
/// Uses "house" in the key for backward compatibility with existing data.
pub fn redis_server_key(signing_pubkey: &str) -> (r: String)
    ensures
        r@ == "presence:house:"@ + signing_pubkey@,
{
    String::from_str("presence:house:").concat(signing_pubkey)
}

/// The on-wire encoding of an optional active key: the empty string stands
/// for "no active key".
pub fn encode_active_key(active: &Option<String>) -> (r: String)
    ensures
        r@ == (match active {
            Some(k) => k@,
            None => Seq::<char>::empty(),
        }),
{
    match active {
        Some(k) => k.clone(),
        None => String::new(),
    }
}

/// The statuses an external-store snapshot reports: for each member whose
/// record was still there, its user id with the decoded active key.
pub open spec fn reconcile_out(ids: Seq<Seq<char>>, acts: Seq<Option<Seq<char>>>) -> Seq<
    (Seq<char>, Option<Seq<char>>),
>
    decreases ids.len(),
{
    if ids.len() == 0 {
        Seq::empty()
    } else {
        let rest = reconcile_out(ids.drop_last(), acts.drop_last());
        match acts[ids.len() - 1] {
            Some(a) => rest.push((ids.last(), if a.len() == 0 { None } else { Some(a) })),
            None => rest,
        }
    }
}

/// The members an external-store snapshot must prune: those whose record had
/// expired (no field came back).
pub open spec fn reconcile_stale(ids: Seq<Seq<char>>, acts: Seq<Option<Seq<char>>>) -> Seq<
    Seq<char>,
>
    decreases ids.len(),
{
    if ids.len() == 0 {
        Seq::empty()
    } else {
        let rest = reconcile_stale(ids.drop_last(), acts.drop_last());
        match acts[ids.len() - 1] {
            Some(a) => rest,
            None => rest.push(ids.last()),
        }
    }
}

/// The reconcile step of a snapshot against an external key-value store.
/// `user_ids` are the reverse-set members; `actives` the per-member active
/// key fields that came back, in the same order, `None` meaning the record
/// has expired.  Returns the statuses to report (the empty string decoding
/// to "no active key") and the stale members the caller must remove from the
/// reverse set in the same operation.
pub fn snapshot_reconcile(user_ids: &Vec<String>, actives: &Vec<Option<String>>) -> (r: (
    Vec<PresenceUserStatus>,
    Vec<String>,
))
    requires
        user_ids@.len() == actives@.len(),
    ensures
        ({
            let ov = reconcile_out(user_ids.deep_view(), actives.deep_view());
            &&& r.0@.len() == ov.len()
            &&& forall|t: int| 0 <= t < ov.len() ==> (#[trigger] r.0@[t]).user_id@ == ov[t].0 && (
            match r.0@[t].active_signing_pubkey {
                Some(k) => Some(k@),
                None => None::<Seq<char>>,
            }) == ov[t].1
        }),
        r.1.deep_view() == reconcile_stale(user_ids.deep_view(), actives.deep_view()),
{
    let ghost iv = user_ids.deep_view();
    let ghost av = actives.deep_view();
    let n = user_ids.len();
    let mut out: Vec<PresenceUserStatus> = Vec::new();
    let mut stale: Vec<String> = Vec::new();
    for i in 0..n
        invariant
            n == user_ids@.len(),
            n == actives@.len(),
            iv == user_ids.deep_view(),
            av == actives.deep_view(),
            out@.len() == reconcile_out(iv.take(i as int), av.take(i as int)).len(),
            forall|t: int| 0 <= t < out@.len() ==> {
                let ov = reconcile_out(iv.take(i as int), av.take(i as int));
                (#[trigger] out@[t]).user_id@ == ov[t].0 && (match out@[t].active_signing_pubkey {
                    Some(k) => Some(k@),
                    None => None::<Seq<char>>,
                }) == ov[t].1
            },
            stale.deep_view() =~= reconcile_stale(iv.take(i as int), av.take(i as int)),
    {
        let ghost pre_stale = stale.deep_view();
        match &actives[i] {
            Some(a) => {
                let decoded: Option<String> = if a.as_str().is_empty() {
                    None
                } else {
                    Some(a.clone())
                };
                out.push(
                    PresenceUserStatus {
                        user_id: user_ids[i].clone(),
                        active_signing_pubkey: decoded,
                    },
                );
            },
            None => {
                stale.push(user_ids[i].clone());
                proof {
                    assert(stale.deep_view() =~= pre_stale.push(iv[i as int]));
                }
            },
        }
        proof {
            assert(iv.take(i + 1).drop_last() =~= iv.take(i as int));
            assert(av.take(i + 1).drop_last() =~= av.take(i as int));
            assert(iv.take(i + 1).last() == iv[i as int]);
            assert(av.take(i + 1)[iv.take(i + 1).len() - 1] == av[i as int]);
            assert(av[i as int] == actives@[i as int].deep_view());
        }
    }
    proof {
        assert(iv.take(n as int) =~= iv);
        assert(av.take(n as int) =~= av);
    }
    (out, stale)
}

/// Presence record of one user.
pub struct UserRecord {
    /// The key the user is speaking as; `None` when idle.
    pub active_signing_pubkey: Option<String>,
    /// Instant (caller's clock) past which the user counts as gone.
    pub expires_at: u64,
}

/// The mathematical image of a `UserRecord`.
pub struct UserRecordV {
    pub active: Option<Seq<char>>,
    pub expires_at: u64,
}

impl View for UserRecord {
    type V = UserRecordV;

    open spec fn view(&self) -> UserRecordV {
        UserRecordV {
            active: match self.active_signing_pubkey {
                Some(k) => Some(k@),
                None => None,
            },
            expires_at: self.expires_at,
        }
    }
}

/// A user's presence as reported to clients.
pub struct PresenceUserStatus {
    pub user_id: String,
    pub active_signing_pubkey: Option<String>,
}

/// The mathematical state of the presence backend.
#[verifier::ext_equal]
pub struct PresModel {
    pub users: Map<Seq<char>, UserRecordV>,
    pub by_key: Map<Seq<char>, Set<Seq<char>>>,
}

/// Addition that stops at the top of `u64`, for expiry instants.
pub open spec fn sat_add(a: u64, b: u64) -> u64 {
    if a + b > u64::MAX {
        u64::MAX
    } else {
        (a + b) as u64
    }
}

/// A user counts as present at `now` while `now` is before the expiry.
pub open spec fn live(users: Map<Seq<char>, UserRecordV>, u: Seq<char>, now: u64) -> bool {
    users.contains_key(u) && now < users[u].expires_at
}

/// Register `u` under every listed signing key, first to last.
pub open spec fn hello_keys(
    bk: Map<Seq<char>, Set<Seq<char>>>,
    ks: Seq<Seq<char>>,
    u: Seq<char>,
) -> Map<Seq<char>, Set<Seq<char>>>
    decreases ks.len(),
{
    if ks.len() == 0 {
        bk
    } else {
        mm_add(hello_keys(bk, ks.drop_last(), u), ks.last(), u)
    }
}

/// Remove `u` from every listed signing key's set, first to last.
pub open spec fn drop_keys(
    bk: Map<Seq<char>, Set<Seq<char>>>,
    ks: Seq<Seq<char>>,
    u: Seq<char>,
) -> Map<Seq<char>, Set<Seq<char>>>
    decreases ks.len(),
{
    if ks.len() == 0 {
        bk
    } else {
        mm_del(drop_keys(bk, ks.drop_last(), u), ks.last(), u)
    }
}

/// What `hello` does: write the user record with a fresh TTL and index the
/// user under every listed signing key.
pub open spec fn hello_model(
    m: PresModel,
    u: Seq<char>,
    ks: Seq<Seq<char>>,
    act: Option<Seq<char>>,
    ttl: u64,
    now: u64,
) -> PresModel {
    PresModel {
        users: m.users.insert(u, UserRecordV { active: act, expires_at: sat_add(now, ttl) }),
        by_key: hello_keys(m.by_key, ks, u),
    }
}

/// One refresh batch, first to last; each item is (user, keys, active key).
pub open spec fn refresh_fold(
    m: PresModel,
    batch: Seq<(Seq<char>, Seq<Seq<char>>, Option<Seq<char>>)>,
    ttl: u64,
    now: u64,
) -> PresModel
    decreases batch.len(),
{
    if batch.len() == 0 {
        m
    } else {
        hello_model(
            refresh_fold(m, batch.drop_last(), ttl, now),
            batch.last().0,
            batch.last().1,
            batch.last().2,
            ttl,
            now,
        )
    }
}

/// The statuses a snapshot reports, given the reverse-set members in order:
/// the live ones, each with its active key.
pub open spec fn snap_list(
    ms: Seq<Seq<char>>,
    users: Map<Seq<char>, UserRecordV>,
    now: u64,
) -> Seq<(Seq<char>, Option<Seq<char>>)>
    decreases ms.len(),
{
    if ms.len() == 0 {
        Seq::empty()
    } else {
        let rest = snap_list(ms.drop_last(), users, now);
        if live(users, ms.last(), now) {
            rest.push((ms.last(), users[ms.last()].active))
        } else {
            rest
        }
    }
}

/// The members a snapshot repairs away: those no longer live.
pub open spec fn stale_among(
    ms: Seq<Seq<char>>,
    users: Map<Seq<char>, UserRecordV>,
    now: u64,
) -> Seq<Seq<char>>
    decreases ms.len(),
{
    if ms.len() == 0 {
        Seq::empty()
    } else {
        let rest = stale_among(ms.drop_last(), users, now);
        if live(users, ms.last(), now) {
            rest
        } else {
            rest.push(ms.last())
        }
    }
}

/// The records still alive at `now`.
pub open spec fn live_users(users: Map<Seq<char>, UserRecordV>, now: u64) -> Map<
    Seq<char>,
    UserRecordV,
> {
    Map::new(|u: Seq<char>| live(users, u, now), |u: Seq<char>| users[u])
}

/// The users whose record has expired by `now`.
pub open spec fn expired_set(users: Map<Seq<char>, UserRecordV>, now: u64) -> Set<Seq<char>> {
    Set::new(|u: Seq<char>| users.contains_key(u) && now >= users[u].expires_at)
}

/// Remove a whole set of users from every reverse set, dropping keys whose
/// set empties.
pub open spec fn strip_all(
    bk: Map<Seq<char>, Set<Seq<char>>>,
    es: Set<Seq<char>>,
) -> Map<Seq<char>, Set<Seq<char>>> {
    Map::new(
        |k: Seq<char>| bk.contains_key(k) && !(bk[k].difference(es).is_empty()),
        |k: Seq<char>| bk[k].difference(es),
    )
}

/// In-memory presence backend.
pub struct MemoryPresence {
    pub users: AList<UserRecord>,
    pub by_key: SetMap,
}

impl View for MemoryPresence {
    type V = PresModel;

    open spec fn view(&self) -> PresModel {
        PresModel { users: self.users@, by_key: self.by_key@ }
    }
}

impl MemoryPresence {
    pub open spec fn wf(&self) -> bool {
        self.users.wf() && self.by_key.wf()
    }

    pub fn new() -> (r: Self)
        ensures
            r.wf(),
            r@.users == Map::<Seq<char>, UserRecordV>::empty(),
            r@.by_key == Map::<Seq<char>, Set<Seq<char>>>::empty(),
    {
        MemoryPresence { users: AList::new(), by_key: SetMap::new() }
    }

    /// Record the user as present under every listed signing key, set the
    /// active key, and reset the TTL.
    pub fn hello(
        &mut self,
        user_id: &String,
        signing_pubkeys: &Vec<String>,
        active: &Option<String>,
        ttl: u64,
        now: u64,
    )
        requires
            old(self).wf(),
        ensures
            final(self).wf(),
            final(self)@ == hello_model(
                old(self)@,
                user_id@,
                signing_pubkeys.deep_view(),
                match active {
                    Some(k) => Some(k@),
                    None => None,
                },
                ttl,
                now,
            ),
    {
        let record = UserRecord {
            active_signing_pubkey: match active {
                Some(k) => Some(k.clone()),
                None => None,
            },
            expires_at: now.saturating_add(ttl),
        };
        self.users.insert(user_id.clone(), record);
        let ghost ks = signing_pubkeys.deep_view();
        let ghost bk0 = self.by_key@;
        let n = signing_pubkeys.len();
        for i in 0..n
            invariant
                self.users.wf(),
                self.by_key.wf(),
                n == signing_pubkeys@.len(),
                ks == signing_pubkeys.deep_view(),
                self.by_key@ == hello_keys(bk0, ks.take(i as int), user_id@),
                self.users@ == old(self)@.users.insert(
                    user_id@,
                    UserRecordV {
                        active: (match active {
                            Some(k) => Some(k@),
                            None => None,
                        }),
                        expires_at: sat_add(now, ttl),
                    },
                ),
        {
            self.by_key.add_elem(&signing_pubkeys[i], user_id.clone());
            proof {
                assert(ks.take(i + 1).drop_last() =~= ks.take(i as int));
                assert(ks.take(i + 1).last() == ks[i as int]);
                assert(ks[i as int] == signing_pubkeys@[i as int]@);
            }
        }
        proof {
            assert(ks.take(n as int) =~= ks);
            assert(final(self)@ =~= hello_model(
                old(self)@,
                user_id@,
                ks,
                match active {
                    Some(k) => Some(k@),
                    None => None,
                },
                ttl,
                now,
            ));
        }
    }

    /// Update the active key and reset the TTL.  The record is written even
    /// for a user not yet present; such a user shows up in snapshots only
    /// under signing keys it later re-announces.
    pub fn set_active(
        &mut self,
        user_id: &String,
        active: &Option<String>,
        ttl: u64,
        now: u64,
    )
        requires
            old(self).wf(),
        ensures
            final(self).wf(),
            final(self)@.by_key == old(self)@.by_key,
            final(self)@.users == old(self)@.users.insert(
                user_id@,
                UserRecordV {
                    active: (match active {
                        Some(k) => Some(k@),
                        None => None,
                    }),
                    expires_at: sat_add(now, ttl),
                },
            ),
    {
        let record = UserRecord {
            active_signing_pubkey: match active {
                Some(k) => Some(k.clone()),
                None => None,
            },
            expires_at: now.saturating_add(ttl),
        };
        self.users.insert(user_id.clone(), record);
    }

    /// Remove the user from every listed reverse set and delete the record.
    pub fn disconnect(&mut self, user_id: &String, signing_pubkeys: &Vec<String>)
        requires
            old(self).wf(),
        ensures
            final(self).wf(),
            final(self)@.users == old(self)@.users.remove(user_id@),
            final(self)@.by_key == drop_keys(
                old(self)@.by_key,
                signing_pubkeys.deep_view(),
                user_id@,
            ),
    {
        let ghost ks = signing_pubkeys.deep_view();
        let ghost bk0 = self.by_key@;
        let n = signing_pubkeys.len();
        for i in 0..n
            invariant
                self.users.wf(),
                self.by_key.wf(),
                n == signing_pubkeys@.len(),
                ks == signing_pubkeys.deep_view(),
                self.users@ == old(self)@.users,
                self.by_key@ == drop_keys(bk0, ks.take(i as int), user_id@),
        {
            self.by_key.remove_elem(&signing_pubkeys[i], user_id);
            proof {
                assert(ks.take(i + 1).drop_last() =~= ks.take(i as int));
                assert(ks.take(i + 1).last() == ks[i as int]);
                assert(ks[i as int] == signing_pubkeys@[i as int]@);
            }
        }
        self.users.remove(user_id);
        proof {
            assert(ks.take(n as int) =~= ks);
        }
    }

    /// Every live user currently indexed under this signing key, with its
    /// active key.  Stale members found along the way are repaired out of
    /// the reverse set in the same operation; records themselves stay.
    pub fn snapshot(&mut self, signing_pubkey: &String, now: u64) -> (out: Vec<
        PresenceUserStatus,
    >)
        requires
            old(self).wf(),
        ensures
            final(self).wf(),
            final(self)@.users == old(self)@.users,
            exists|ms: Seq<Seq<char>>|
                {
                    &&& ms.no_duplicates()
                    &&& ms.to_set() == (if old(self)@.by_key.contains_key(signing_pubkey@) {
                        old(self)@.by_key[signing_pubkey@]
                    } else {
                        Set::<Seq<char>>::empty()
                    })
                    &&& #[trigger] snapshot_shape(
                        old(self)@,
                        final(self)@,
                        out@,
                        signing_pubkey@,
                        ms,
                        now,
                    )
                },
    {
        let members: Vec<String> = match self.by_key.get_set(signing_pubkey) {
            Some(s) => s.to_vec(),
            None => Vec::new(),
        };
        let ghost ms = members.deep_view();
        proof {
            if !old(self)@.by_key.contains_key(signing_pubkey@) {
                assert(ms =~= Seq::<Seq<char>>::empty());
            }
        }
        let ghost bk0 = self.by_key@;
        let n = members.len();
        let mut out: Vec<PresenceUserStatus> = Vec::new();
        for i in 0..n
            invariant
                self.users.wf(),
                self.by_key.wf(),
                n == members@.len(),
                ms == members.deep_view(),
                self.users@ == old(self)@.users,
                out@.len() == snap_list(ms.take(i as int), self.users@, now).len(),
                forall|t: int| 0 <= t < out@.len() ==> {
                    let sl = snap_list(ms.take(i as int), self.users@, now);
                    (#[trigger] out@[t]).user_id@ == sl[t].0 && (match out@[t].active_signing_pubkey {
                        Some(k) => Some(k@),
                        None => None::<Seq<char>>,
                    }) == sl[t].1
                },
                self.by_key@ == drop_keys_at(
                    bk0,
                    signing_pubkey@,
                    stale_among(ms.take(i as int), self.users@, now),
                ),
        {
            let u = &members[i];
            let mut is_live = false;
            match self.users.get(u) {
                Some(rec) => {
                    if now < rec.expires_at {
                        is_live = true;
                        out.push(
                            PresenceUserStatus {
                                user_id: u.clone(),
                                active_signing_pubkey: match &rec.active_signing_pubkey {
                                    Some(k) => Some(k.clone()),
                                    None => None,
                                },
                            },
                        );
                    }
                },
                None => {},
            }
            if !is_live {
                self.by_key.remove_elem(signing_pubkey, u);
            }
            proof {
                assert(ms.take(i + 1).drop_last() =~= ms.take(i as int));
                assert(ms.take(i + 1).last() == ms[i as int]);
                assert(ms[i as int] == members@[i as int]@);
                let st = stale_among(ms.take(i as int), self.users@, now);
                if !is_live {
                    assert(stale_among(ms.take(i + 1), self.users@, now) == st.push(
                        ms[i as int],
                    ));
                    assert(st.push(ms[i as int]).drop_last() =~= st);
                    assert(st.push(ms[i as int]).last() == ms[i as int]);
                }
            }
        }
        proof {
            assert(ms.take(n as int) =~= ms);
            if old(self)@.by_key.contains_key(signing_pubkey@) {
                assert(ms.to_set() == old(self)@.by_key[signing_pubkey@]);
            } else {
                assert(ms.to_set() =~= Set::<Seq<char>>::empty());
            }
            assert(snapshot_shape(old(self)@, self@, out@, signing_pubkey@, ms, now));
        }
        out
    }

    /// The background sweep: drop every record whose expiry is past and
    /// strip the swept users from all reverse sets, dropping sets that
    /// empty.  Snapshots filter expired users anyway; the sweep reclaims the
    /// space between them.
    pub fn sweep_expired(&mut self, now: u64)
        requires
            old(self).wf(),
        ensures
            final(self).wf(),
            final(self)@.users == live_users(old(self)@.users, now),
            final(self)@.by_key == strip_all(old(self)@.by_key, expired_set(old(self)@.users, now)),
    {
        let ghost s0 = self.users.entries@;
        let n = self.users.entries.len();
        let mut kept: Vec<(String, UserRecord)> = Vec::new();
        let mut expired: Vec<String> = Vec::new();
        for i in 0..n
            invariant
                n == s0.len(),
                self.users.entries@ == s0,
                self.by_key@ == old(self)@.by_key,
                self.by_key.wf(),
                crate::kv::kv_distinct(s0),
                crate::kv::kv_distinct(kept@),
                forall|t: int| 0 <= t < kept@.len() ==> exists|jj: int|
                    0 <= jj < i && #[trigger] kept@[t] == s0[jj],
                crate::kv::kv_map(kept@) =~= live_users(
                    crate::kv::kv_map(s0.take(i as int)),
                    now,
                ),
                expired.deep_view().no_duplicates(),
                expired.deep_view().to_set() =~= expired_set(
                    crate::kv::kv_map(s0.take(i as int)),
                    now,
                ),
                forall|t: int| 0 <= t < expired.deep_view().len() ==> exists|jj: int|
                    0 <= jj < i && #[trigger] expired.deep_view()[t] == s0[jj].0@,
        {
            let ghost key_i = s0[i as int].0@;
            let ghost pre_exp = expired.deep_view();
            proof {
                assert(s0.take(i + 1).drop_last() =~= s0.take(i as int));
                assert(s0.take(i + 1).last() == s0[i as int]);
                crate::kv::lemma_kv_contains(s0.take(i as int), key_i);
                assert forall|jj: int| 0 <= jj < i implies s0.take(i as int)[jj].0@ != key_i by {
                    assert(s0[jj].0@ != s0[i as int].0@);
                }
                assert(!crate::kv::kv_map(s0.take(i as int)).contains_key(key_i));
            }
            let e = &self.users.entries[i];
            if now < e.1.expires_at {
                let new_entry = (
                    e.0.clone(),
                    UserRecord {
                        active_signing_pubkey: match &e.1.active_signing_pubkey {
                            Some(k) => Some(k.clone()),
                            None => None,
                        },
                        expires_at: e.1.expires_at,
                    },
                );
                let ghost kept0 = kept@;
                proof {
                    assert forall|t: int| 0 <= t < kept0.len() implies kept0[t].0@ != key_i by {
                        let jj = choose|jj: int| 0 <= jj < i && kept0[t] == s0[jj];
                        assert(s0[jj].0@ != s0[i as int].0@);
                    }
                    crate::kv::lemma_kv_push(kept0, new_entry);
                    assert(new_entry.1@ == s0[i as int].1@);
                }
                kept.push(new_entry);
                proof {
                    assert(crate::kv::kv_map(kept@) =~= live_users(
                        crate::kv::kv_map(s0.take(i + 1)),
                        now,
                    ));
                    assert(expired.deep_view().to_set() =~= expired_set(
                        crate::kv::kv_map(s0.take(i + 1)),
                        now,
                    ));
                }
            } else {
                expired.push(e.0.clone());
                proof {
                    assert(expired.deep_view() =~= pre_exp.push(key_i));
                    assert forall|t: int| 0 <= t < pre_exp.len() implies pre_exp[t] != key_i by {
                        let jj = choose|jj: int| 0 <= jj < i && pre_exp[t] == s0[jj].0@;
                        assert(s0[jj].0@ != s0[i as int].0@);
                    }
                    assert forall|a: int, b: int|
                        0 <= a < expired.deep_view().len() && 0 <= b < expired.deep_view().len()
                            && a != b implies expired.deep_view()[a]
                        != expired.deep_view()[b] by {
                        let ev = expired.deep_view();
                        if a < ev.len() - 1 && b < ev.len() - 1 {
                            assert(ev[a] == pre_exp[a] && ev[b] == pre_exp[b]);
                        } else if a == ev.len() - 1 {
                            assert(ev[b] == pre_exp[b]);
                        } else {
                            assert(ev[a] == pre_exp[a]);
                        }
                    }
                    assert forall|x: Seq<char>| expired.deep_view().to_set().contains(x) implies
                        expired_set(crate::kv::kv_map(s0.take(i + 1)), now).contains(x) by {
                        if pre_exp.to_set().contains(x) {
                        } else {
                            let t = choose|t: int|
                                0 <= t < expired.deep_view().len() && expired.deep_view()[t] == x;
                            assert(x == key_i);
                        }
                    }
                    assert forall|x: Seq<char>| expired_set(
                        crate::kv::kv_map(s0.take(i + 1)),
                        now,
                    ).contains(x) implies expired.deep_view().to_set().contains(x) by {
                        if x == key_i {
                            assert(expired.deep_view()[pre_exp.len() as int] == x);
                        } else {
                            assert(pre_exp.to_set().contains(x));
                            let t = choose|t: int| 0 <= t < pre_exp.len() && pre_exp[t] == x;
                            assert(expired.deep_view()[t] == x);
                        }
                    }
                    assert(expired.deep_view().to_set() =~= expired_set(
                        crate::kv::kv_map(s0.take(i + 1)),
                        now,
                    ));
                    assert(crate::kv::kv_map(kept@) =~= live_users(
                        crate::kv::kv_map(s0.take(i + 1)),
                        now,
                    ));
                }
            }
        }
        proof {
            assert(s0.take(n as int) =~= s0);
        }
        self.users = AList { entries: kept };
        // Strip the swept users from every reverse set.
        let ghost bk0 = self.by_key@;
        let ghost ev = expired.deep_view();
        let ghost es = expired_set(old(self)@.users, now);
        proof {
            assert(ev.take(0).to_set() =~= Set::<Seq<char>>::empty());
            assert forall|k: Seq<char>| #[trigger] bk0.contains_key(k) implies !(bk0[k].difference(
                ev.take(0).to_set(),
            ).is_empty()) && bk0[k].difference(ev.take(0).to_set()) =~= bk0[k] by {
                self.by_key.lemma_nonempty(k);
                assert(bk0[k].difference(ev.take(0).to_set()) =~= bk0[k]);
            }
            assert(self.by_key@ =~~= strip_all(bk0, ev.take(0).to_set()));
        }
        let m = expired.len();
        for j in 0..m
            invariant
                m == expired@.len(),
                ev == expired.deep_view(),
                ev.to_set() == es,
                self.users@ == live_users(old(self)@.users, now),
                self.users.wf(),
                self.by_key.wf(),
                self.by_key@ =~~= strip_all(bk0, ev.take(j as int).to_set()),
        {
            let ghost pre_set = ev.take(j as int).to_set();
            self.by_key.purge(&expired[j]);
            proof {
                assert(ev.take(j + 1).drop_last() =~= ev.take(j as int));
                assert(ev.take(j + 1).last() == ev[j as int]);
                assert(ev[j as int] == expired@[j as int]@);
                assert(ev.take(j + 1).to_set() =~= pre_set.insert(ev[j as int]));
                assert forall|k: Seq<char>|
                    crate::strset::mm_purge(
                        strip_all(bk0, pre_set),
                        ev[j as int],
                    ).contains_key(k) implies #[trigger] strip_all(
                    bk0,
                    pre_set.insert(ev[j as int]),
                ).contains_key(k) && crate::strset::mm_purge(strip_all(bk0, pre_set), ev[j as int])[k]
                    =~= strip_all(bk0, pre_set.insert(ev[j as int]))[k] by {
                    assert(bk0[k].difference(pre_set).remove(ev[j as int]) =~= bk0[k].difference(
                        pre_set.insert(ev[j as int]),
                    ));
                }
                assert forall|k: Seq<char>| #[trigger] strip_all(
                    bk0,
                    pre_set.insert(ev[j as int]),
                ).contains_key(k) implies crate::strset::mm_purge(
                    strip_all(bk0, pre_set),
                    ev[j as int],
                ).contains_key(k) by {
                    assert(bk0[k].difference(pre_set).remove(ev[j as int]) =~= bk0[k].difference(
                        pre_set.insert(ev[j as int]),
                    ));
                }
                assert(self.by_key@ =~~= strip_all(bk0, ev.take(j + 1).to_set()));
            }
        }
        proof {
            assert(ev.take(m as int) =~= ev);
        }
    }

    /// Batch form of `hello`, used by the periodic refresh tick; a no-op on
    /// an empty batch.
    pub fn refresh(
        &mut self,
        batch: &Vec<(String, Vec<String>, Option<String>)>,
        ttl: u64,
        now: u64,
    )
        requires
            old(self).wf(),
        ensures
            final(self).wf(),
            final(self)@ == refresh_fold(old(self)@, batch.deep_view(), ttl, now),
    {
        let ghost bv = batch.deep_view();
        let n = batch.len();
        for i in 0..n
            invariant
                self.wf(),
                n == batch@.len(),
                bv == batch.deep_view(),
                self@ == refresh_fold(old(self)@, bv.take(i as int), ttl, now),
        {
            let item = &batch[i];
            self.hello(&item.0, &item.1, &item.2, ttl, now);
            proof {
                assert(bv.take(i + 1).drop_last() =~= bv.take(i as int));
                assert(bv.take(i + 1).last() == bv[i as int]);
                assert(bv[i as int] == batch@[i as int].deep_view());
                assert(bv[i as int].0 == batch@[i as int].0@);
                assert(bv[i as int].1 == batch@[i as int].1.deep_view());
            }
        }
        proof {
            assert(bv.take(n as int) =~= bv);
        }
    }
}

/// How a finished snapshot relates the states and its output: the output is
/// exactly the live members in order, and the reverse index equals the old
/// one with the stale members repaired away.
pub open spec fn snapshot_shape(
    m0: PresModel,
    m1: PresModel,
    out: Seq<PresenceUserStatus>,
    k: Seq<char>,
    ms: Seq<Seq<char>>,
    now: u64,
) -> bool {
    let sl = snap_list(ms, m0.users, now);
    &&& out.len() == sl.len()
    &&& forall|t: int| 0 <= t < out.len() ==> (#[trigger] out[t]).user_id@ == sl[t].0 && (
    match out[t].active_signing_pubkey {
        Some(kk) => Some(kk@),
        None => None::<Seq<char>>,
    }) == sl[t].1
    &&& m1.by_key == drop_keys_at(m0.by_key, k, stale_among(ms, m0.users, now))
}

/// Remove each listed user from the set at one key, first to last.
pub open spec fn drop_keys_at(
    bk: Map<Seq<char>, Set<Seq<char>>>,
    k: Seq<char>,
    us: Seq<Seq<char>>,
) -> Map<Seq<char>, Set<Seq<char>>>
    decreases us.len(),
{
    if us.len() == 0 {
        bk
    } else {
        mm_del(drop_keys_at(bk, k, us.drop_last()), k, us.last())
    }
}

/// Saying hello under a list of keys indexes the user under every one.
pub proof fn lemma_hello_keys_adds(
    bk: Map<Seq<char>, Set<Seq<char>>>,
    ks: Seq<Seq<char>>,
    u: Seq<char>,
)
    ensures
        forall|k: Seq<char>| #[trigger] ks.contains(k) ==> hello_keys(bk, ks, u).contains_key(k)
            && hello_keys(bk, ks, u)[k].contains(u),
    decreases ks.len(),
{
    if ks.len() > 0 {
        lemma_hello_keys_adds(bk, ks.drop_last(), u);
        let prev = hello_keys(bk, ks.drop_last(), u);
        assert forall|k: Seq<char>| #[trigger] ks.contains(k) implies hello_keys(
            bk,
            ks,
            u,
        ).contains_key(k) && hello_keys(bk, ks, u)[k].contains(u) by {
            if k != ks.last() {
                let j = choose|j: int| 0 <= j < ks.len() && ks[j] == k;
                assert(ks.drop_last()[j] == k);
                assert(ks.drop_last().contains(k));
            }
        }
    }
}

/// A snapshot reports a live member of the reverse set, with its active key.
pub proof fn lemma_snap_list_live_member(
    ms: Seq<Seq<char>>,
    users: Map<Seq<char>, UserRecordV>,
    now: u64,
    u: Seq<char>,
)
    requires
        ms.contains(u),
        live(users, u, now),
    ensures
        exists|t: int| 0 <= t < snap_list(ms, users, now).len() && #[trigger] snap_list(
            ms,
            users,
            now,
        )[t] == (u, users[u].active),
    decreases ms.len(),
{
    let sl = snap_list(ms, users, now);
    if ms.last() == u {
        assert(sl[sl.len() - 1] == (u, users[u].active));
    } else {
        let j = choose|j: int| 0 <= j < ms.len() && ms[j] == u;
        assert(ms.drop_last()[j] == u);
        assert(ms.drop_last().contains(u));
        lemma_snap_list_live_member(ms.drop_last(), users, now, u);
        let rest = snap_list(ms.drop_last(), users, now);
        let t = choose|t: int| 0 <= t < rest.len() && rest[t] == (u, users[u].active);
        assert(sl[t] == (u, users[u].active));
    }
}

/// A snapshot reports nothing for a user who is not live.
pub proof fn lemma_snap_list_only_live(
    ms: Seq<Seq<char>>,
    users: Map<Seq<char>, UserRecordV>,
    now: u64,
    u: Seq<char>,
)
    requires
        !live(users, u, now),
    ensures
        forall|t: int| 0 <= t < snap_list(ms, users, now).len() ==> (#[trigger] snap_list(
            ms,
            users,
            now,
        )[t]).0 != u,
    decreases ms.len(),
{
    if ms.len() > 0 {
        lemma_snap_list_only_live(ms.drop_last(), users, now, u);
        let rest = snap_list(ms.drop_last(), users, now);
        let sl = snap_list(ms, users, now);
        if live(users, ms.last(), now) {
            assert(ms.last() != u);
            assert forall|t: int| 0 <= t < sl.len() implies sl[t].0 != u by {
                if t < rest.len() {
                    assert(sl[t] == rest[t]);
                } else {
                    assert(sl[t].0 == ms.last());
                }
            }
        }
    }
}

/// A member who is not live is among the repaired (stale) ones.
pub proof fn lemma_stale_member(
    ms: Seq<Seq<char>>,
    users: Map<Seq<char>, UserRecordV>,
    now: u64,
    u: Seq<char>,
)
    requires
        ms.contains(u),
        !live(users, u, now),
    ensures
        stale_among(ms, users, now).contains(u),
    decreases ms.len(),
{
    let st = stale_among(ms, users, now);
    if ms.last() == u {
        assert(st[st.len() - 1] == u);
    } else {
        let j = choose|j: int| 0 <= j < ms.len() && ms[j] == u;
        assert(ms.drop_last()[j] == u);
        assert(ms.drop_last().contains(u));
        lemma_stale_member(ms.drop_last(), users, now, u);
        let rest = stale_among(ms.drop_last(), users, now);
        let t = choose|t: int| 0 <= t < rest.len() && rest[t] == u;
        if live(users, ms.last(), now) {
        } else {
            assert(st[t] == u);
        }
    }
}

/// Repairing a listed user out of a reverse set leaves no trace of it there.
pub proof fn lemma_drop_keys_at_removes(
    bk: Map<Seq<char>, Set<Seq<char>>>,
    k: Seq<char>,
    us: Seq<Seq<char>>,
    u: Seq<char>,
)
    requires
        us.contains(u),
    ensures
        drop_keys_at(bk, k, us).contains_key(k) ==> !drop_keys_at(bk, k, us)[k].contains(u),
    decreases us.len(),
{
    if us.last() != u {
        let j = choose|j: int| 0 <= j < us.len() && us[j] == u;
        assert(us.drop_last()[j] == u);
        assert(us.drop_last().contains(u));
        lemma_drop_keys_at_removes(bk, k, us.drop_last(), u);
    }
}

/// Presence round trip, live half: a user who said hello listing key `k`
/// appears in any snapshot of `k` taken before the TTL elapses, with the
/// active key it announced.
pub proof fn lemma_presence_round_trip_live(
    m: PresModel,
    m1: PresModel,
    out: Seq<PresenceUserStatus>,
    u: Seq<char>,
    k: Seq<char>,
    ks: Seq<Seq<char>>,
    act: Option<Seq<char>>,
    ttl: u64,
    t0: u64,
    tq: u64,
    ms: Seq<Seq<char>>,
)
    requires
        ks.contains(k),
        tq < sat_add(t0, ttl),
        ms.to_set() == hello_model(m, u, ks, act, ttl, t0).by_key[k],
        snapshot_shape(hello_model(m, u, ks, act, ttl, t0), m1, out, k, ms, tq),
    ensures
        exists|t: int| 0 <= t < out.len() && (#[trigger] out[t]).user_id@ == u && (match out[t]
            .active_signing_pubkey {
            Some(kk) => Some(kk@),
            None => None::<Seq<char>>,
        }) == act,
{
    let mh = hello_model(m, u, ks, act, ttl, t0);
    lemma_hello_keys_adds(m.by_key, ks, u);
    assert(mh.by_key[k].contains(u));
    assert(ms.contains(u));
    assert(live(mh.users, u, tq));
    lemma_snap_list_live_member(ms, mh.users, tq, u);
    let sl = snap_list(ms, mh.users, tq);
    let t = choose|t: int| 0 <= t < sl.len() && sl[t] == (u, mh.users[u].active);
    assert(out[t].user_id@ == u);
}

/// Presence round trip, expiry half: once a user's record has expired, a
/// snapshot reports nothing for it and repairs it out of the reverse set.
pub proof fn lemma_presence_round_trip_expired(
    m0: PresModel,
    m1: PresModel,
    out: Seq<PresenceUserStatus>,
    u: Seq<char>,
    k: Seq<char>,
    tq: u64,
    ms: Seq<Seq<char>>,
)
    requires
        !live(m0.users, u, tq),
        snapshot_shape(m0, m1, out, k, ms, tq),
    ensures
        forall|t: int| 0 <= t < out.len() ==> (#[trigger] out[t]).user_id@ != u,
        ms.contains(u) ==> (m1.by_key.contains_key(k) ==> !m1.by_key[k].contains(u)),
{
    lemma_snap_list_only_live(ms, m0.users, tq, u);
    let sl = snap_list(ms, m0.users, tq);
    assert forall|t: int| 0 <= t < out.len() implies (#[trigger] out[t]).user_id@ != u by {
        assert(out[t].user_id@ == sl[t].0);
    }
    if ms.contains(u) {
        lemma_stale_member(ms, m0.users, tq, u);
        lemma_drop_keys_at_removes(m0.by_key, k, stale_among(ms, m0.users, tq), u);
    }
}

/// Refresh keeps a user alive: a batch naming the user resets its expiry to
/// `now + ttl`, so the user stays present strictly until then and counts as
/// gone from then on if no further refresh happens.
pub proof fn lemma_refresh_keeps_alive(
    m: PresModel,
    batch: Seq<(Seq<char>, Seq<Seq<char>>, Option<Seq<char>>)>,
    ttl: u64,
    now: u64,
    u: Seq<char>,
)
    requires
        exists|i: int| 0 <= i < batch.len() && (#[trigger] batch[i]).0 == u,
    ensures
        refresh_fold(m, batch, ttl, now).users.contains_key(u),
        refresh_fold(m, batch, ttl, now).users[u].expires_at == sat_add(now, ttl),
        forall|q: u64| q < sat_add(now, ttl) ==> live(refresh_fold(m, batch, ttl, now).users, u, q),
        forall|q: u64| q >= sat_add(now, ttl) ==> !live(
            refresh_fold(m, batch, ttl, now).users,
            u,
            q,
        ),
    decreases batch.len(),
{
    let i = choose|i: int| 0 <= i < batch.len() && (#[trigger] batch[i]).0 == u;
    if batch.last().0 == u {
    } else {
        assert(batch.drop_last()[i] == batch[i]);
        lemma_refresh_keeps_alive(m, batch.drop_last(), ttl, now, u);
    }
}

} // verus!
