//! Laws of the binding quota engine, stated and proved over the store
//! model.  Binding attempts for one key are totally ordered by the store's
//! serialization point, so a set of concurrent attempts behaves as some
//! sequence of attempts; the laws below hold for every such sequence.

use vstd::prelude::*;

verus! {

use crate::database::BindOutcome;
use crate::database::BindingModel;
use crate::database::LicenceKeyModel;
use crate::database::RejectReason;
use crate::database::StoreModel;
use crate::database::lemma_count_key_push;
use crate::database::lemma_record_update_wf;
use crate::database::record_update;
use crate::database::valid_at;

/// A record whose expiry equals the current instant is already invalid:
/// the validity predicate compares with strict `>`, not `>=`.
pub proof fn lemma_expiry_boundary(r: LicenceKeyModel, now: int)
    ensures
        r.expired_at == now ==> !valid_at(r, now),
        valid_at(r, now) <==> (r.active != 0 && r.expired_at > now),
{
}

/// The store after a sequence of binding attempts for one key, one per
/// element of `peers`, all at time `now`.
pub open spec fn bind_all(m: StoreModel, key: Seq<char>, peers: Seq<Seq<char>>, now: int) -> StoreModel
    decreases peers.len(),
{
    if peers.len() == 0 {
        m
    } else {
        bind_all(m.try_bind_next(key, peers[0], now), key, peers.drop_first(), now)
    }
}

/// The outcomes those attempts return, in order.
pub open spec fn bind_outcomes(
    m: StoreModel,
    key: Seq<char>,
    peers: Seq<Seq<char>>,
    now: int,
) -> Seq<BindOutcome>
    decreases peers.len(),
{
    if peers.len() == 0 {
        Seq::empty()
    } else {
        seq![m.try_bind_outcome(key, peers[0], now)] + bind_outcomes(
            m.try_bind_next(key, peers[0], now),
            key,
            peers.drop_first(),
            now,
        )
    }
}

/// How many of a sequence of outcomes equal `o`.
pub open spec fn count_outcome(os: Seq<BindOutcome>, o: BindOutcome) -> int
    decreases os.len(),
{
    if os.len() == 0 {
        0
    } else {
        (if os[0] == o {
            1int
        } else {
            0int
        }) + count_outcome(os.drop_first(), o)
    }
}

/// What one binding attempt can change: at most the one new binding row,
/// and the counts and bound-pairs exactly as the outcome says.
pub proof fn lemma_try_bind_step(m: StoreModel, key: Seq<char>, peer: Seq<char>, now: int)
    requires
        m.wf(),
    ensures
        ({
            let m1 = m.try_bind_next(key, peer, now);
            let o = m.try_bind_outcome(key, peer, now);
            &&& m1.wf()
            &&& m1.keys == m.keys
            &&& m1.peers == m.peers
            &&& (o != BindOutcome::Admitted ==> m1 == m)
            &&& (o == BindOutcome::Admitted ==> m1.bindings == m.bindings.push(
                BindingModel { key, peer, bound_at: now },
            ))
            &&& m1.bind_count(key) == m.bind_count(key) + (if o == BindOutcome::Admitted {
                1int
            } else {
                0int
            })
            &&& (forall|k2: Seq<char>|
                k2 != key ==> #[trigger] m1.bind_count(k2) == m.bind_count(k2))
            &&& (forall|k2: Seq<char>, p2: Seq<char>|
                #[trigger] m1.is_bound(k2, p2) <==> (m.is_bound(k2, p2) || (o
                    == BindOutcome::Admitted && k2 == key && p2 == peer)))
        }),
{
    let m1 = m.try_bind_next(key, peer, now);
    let o = m.try_bind_outcome(key, peer, now);
    if o == BindOutcome::Admitted {
        let row = BindingModel { key, peer, bound_at: now };
        lemma_count_key_push(m.bindings, row, key);
        assert forall|k2: Seq<char>| k2 != key implies #[trigger] m1.bind_count(k2)
            == m.bind_count(k2) by {
            lemma_count_key_push(m.bindings, row, k2);
        }
        let n = m.bindings.len() as int;
        assert(!m.is_bound(key, peer));
        assert forall|a: int, b: int|
            0 <= a < b < m1.bindings.len() implies !(m1.bindings[a].key == m1.bindings[b].key
            && m1.bindings[a].peer == m1.bindings[b].peer) by {
            if b < n {
                assert(!(m.bindings[a].key == m.bindings[b].key && m.bindings[a].peer
                    == m.bindings[b].peer));
            } else {
                assert(m1.bindings[b] == row);
                assert(m1.bindings[a] == m.bindings[a]);
                if m.bindings[a].key == key && m.bindings[a].peer == peer {
                    assert(m.is_bound(key, peer));
                }
            }
        }
        assert(m1.wf());
        assert forall|k2: Seq<char>, p2: Seq<char>| #[trigger]
            m1.is_bound(k2, p2) <==> (m.is_bound(k2, p2) || (k2 == key && p2 == peer)) by {
            if m.is_bound(k2, p2) {
                let w = choose|i: int|
                    0 <= i < m.bindings.len() && m.bindings[i].key == k2 && m.bindings[i].peer
                        == p2;
                assert(m1.bindings[w].key == k2 && m1.bindings[w].peer == p2);
                assert(m1.is_bound(k2, p2));
            }
            if k2 == key && p2 == peer {
                assert(m1.bindings[n].key == k2 && m1.bindings[n].peer == p2);
                assert(m1.is_bound(k2, p2));
            }
            if m1.is_bound(k2, p2) {
                let w = choose|i: int|
                    0 <= i < m1.bindings.len() && m1.bindings[i].key == k2 && m1.bindings[i].peer
                        == p2;
                if w < n {
                    assert(m.bindings[w].key == k2 && m.bindings[w].peer == p2);
                    assert(m.is_bound(k2, p2));
                } else {
                    assert(m1.bindings[w] == row);
                }
            }
        }
    } else {
        assert(m1 == m);
    }
}

/// LAW (idempotent rebinding): once a device is admitted — or found already
/// bound — a later attempt with the same pair returns `AlreadyBound`, leaves
/// the store exactly as it was, and never raises the bound-device count.
pub proof fn lemma_bind_idempotent(
    m: StoreModel,
    key: Seq<char>,
    peer: Seq<char>,
    now: int,
    later: int,
)
    requires
        m.wf(),
        m.try_bind_outcome(key, peer, now) == BindOutcome::Admitted || m.try_bind_outcome(
            key,
            peer,
            now,
        ) == BindOutcome::AlreadyBound,
    ensures
        ({
            let m1 = m.try_bind_next(key, peer, now);
            &&& m1.wf()
            &&& m1.try_bind_outcome(key, peer, later) == BindOutcome::AlreadyBound
            &&& m1.try_bind_next(key, peer, later) == m1
            &&& m1.bind_count(key) == m.bind_count(key) + (if m.try_bind_outcome(key, peer, now)
                == BindOutcome::Admitted {
                1int
            } else {
                0int
            })
        }),
{
    lemma_try_bind_step(m, key, peer, now);
    let m1 = m.try_bind_next(key, peer, now);
    assert(m1.is_bound(key, peer));
}

/// LAW (idempotent rebinding, any number of repetitions): after the pair is
/// bound, a whole sequence of repeated attempts returns `AlreadyBound` every
/// time and the store never moves.
pub proof fn lemma_rebind_any_times(
    m1: StoreModel,
    key: Seq<char>,
    peer: Seq<char>,
    peers: Seq<Seq<char>>,
    later: int,
)
    requires
        m1.wf(),
        m1.is_bound(key, peer),
        forall|i: int| 0 <= i < peers.len() ==> #[trigger] peers[i] == peer,
    ensures
        bind_all(m1, key, peers, later) == m1,
        bind_outcomes(m1, key, peers, later).len() == peers.len(),
        forall|i: int|
            0 <= i < peers.len() ==> #[trigger] bind_outcomes(m1, key, peers, later)[i]
                == BindOutcome::AlreadyBound,
    decreases peers.len(),
{
    if peers.len() > 0 {
        assert(m1.try_bind_outcome(key, peer, later) == BindOutcome::AlreadyBound);
        assert(m1.try_bind_next(key, peer, later) == m1);
        lemma_rebind_any_times(m1, key, peer, peers.drop_first(), later);
        let os = bind_outcomes(m1, key, peers, later);
        let os_tail = bind_outcomes(m1, key, peers.drop_first(), later);
        assert(peers[0] == peer);
        assert(os =~= seq![BindOutcome::AlreadyBound] + os_tail);
        assert forall|i: int| 0 <= i < peers.len() implies #[trigger] os[i]
            == BindOutcome::AlreadyBound by {
            if i > 0 {
                assert(os[i] == os_tail[i - 1]);
            }
        }
    }
}

/// LAW (deactivation): turning a key inactive leaves every existing binding
/// row in place — already-bound devices still answer `AlreadyBound` — while
/// any device not yet bound is rejected as `KeyInvalid` from then on, at any
/// time and whatever the quota.  The model below is exactly the store that
/// `set_key_active(key, false)` leaves behind.
pub proof fn lemma_deactivation(m: StoreModel, key: Seq<char>, peer: Seq<char>, now: int)
    requires
        m.wf(),
        m.has_key(key),
    ensures
        ({
            let m1 = record_update(m, key, LicenceKeyModel { active: 0, ..m.record(key) });
            &&& m1.wf()
            &&& m1.bindings == m.bindings
            &&& (m1.is_bound(key, peer) <==> m.is_bound(key, peer))
            &&& !m1.is_bound(key, peer) ==> m1.try_bind_outcome(key, peer, now)
                == BindOutcome::Rejected(RejectReason::KeyInvalid)
            &&& m1.is_bound(key, peer) ==> m1.try_bind_outcome(key, peer, now)
                == BindOutcome::AlreadyBound
            &&& m1.try_bind_next(key, peer, now) == m1
        }),
{
    let r2 = LicenceKeyModel { active: 0, ..m.record(key) };
    lemma_record_update_wf(m, key, r2);
    let m1 = record_update(m, key, r2);
    assert(m1.record(key) == r2);
    assert(!valid_at(r2, now));
}

/// LAW (quota linearizability): whatever order a set of distinct, not yet
/// bound devices attempts a valid key in, exactly as many are admitted as
/// the quota has slots free, every other attempt is rejected with
/// `QuotaExceeded`, and the bound-device count ends at exactly the quota
/// consumed.  In particular, `N + k` fresh devices against a fresh key with
/// quota `N` yield exactly `N` admissions and `k` quota rejections.
pub proof fn lemma_quota_linearizable(
    m: StoreModel,
    key: Seq<char>,
    peers: Seq<Seq<char>>,
    now: int,
)
    requires
        m.wf(),
        m.key_valid_at(key, now),
        forall|a: int, b: int| 0 <= a < b < peers.len() ==> peers[a] != peers[b],
        forall|a: int| 0 <= a < peers.len() ==> !m.is_bound(key, #[trigger] peers[a]),
    ensures
        ({
            let n = m.record(key).max_bind_ids;
            let c = m.bind_count(key);
            let avail = if n - c < 0 {
                0int
            } else {
                n - c
            };
            let adm = if peers.len() <= avail {
                peers.len() as int
            } else {
                avail
            };
            let os = bind_outcomes(m, key, peers, now);
            &&& os.len() == peers.len()
            &&& count_outcome(os, BindOutcome::Admitted) == adm
            &&& count_outcome(os, BindOutcome::Rejected(RejectReason::QuotaExceeded)) == peers.len()
                - adm
            &&& forall|i: int|
                0 <= i < os.len() ==> (#[trigger] os[i] == BindOutcome::Admitted || os[i]
                    == BindOutcome::Rejected(RejectReason::QuotaExceeded))
            &&& bind_all(m, key, peers, now).bind_count(key) == c + adm
            &&& bind_all(m, key, peers, now).wf()
        }),
    decreases peers.len(),
{
    let n = m.record(key).max_bind_ids;
    let c = m.bind_count(key);
    let os = bind_outcomes(m, key, peers, now);
    if peers.len() == 0 {
    } else {
        let p0 = peers[0];
        let o0 = m.try_bind_outcome(key, p0, now);
        let m1 = m.try_bind_next(key, p0, now);
        assert(!m.is_bound(key, p0));
        lemma_try_bind_step(m, key, p0, now);
        assert(m1.record(key) == m.record(key));
        assert(m1.key_valid_at(key, now));
        let tail = peers.drop_first();
        assert forall|a: int| 0 <= a < tail.len() implies !m1.is_bound(key, #[trigger] tail[a]) by {
            assert(tail[a] == peers[a + 1]);
            assert(peers[a + 1] != peers[0]);
            assert(!m.is_bound(key, peers[a + 1]));
        }
        lemma_quota_linearizable(m1, key, tail, now);
        let os_tail = bind_outcomes(m1, key, tail, now);
        assert(os =~= seq![o0] + os_tail);
        assert(os[0] == o0);
        assert(os.drop_first() =~= os_tail);
        assert(count_outcome(os, BindOutcome::Admitted) == (if o0 == BindOutcome::Admitted {
            1int
        } else {
            0int
        }) + count_outcome(os_tail, BindOutcome::Admitted));
        assert(count_outcome(os, BindOutcome::Rejected(RejectReason::QuotaExceeded)) == (if o0
            == BindOutcome::Rejected(RejectReason::QuotaExceeded) {
            1int
        } else {
            0int
        }) + count_outcome(os_tail, BindOutcome::Rejected(RejectReason::QuotaExceeded)));
        assert forall|i: int|
            0 <= i < os.len() implies (#[trigger] os[i] == BindOutcome::Admitted || os[i]
            == BindOutcome::Rejected(RejectReason::QuotaExceeded)) by {
            if i > 0 {
                assert(os[i] == os_tail[i - 1]);
            } else {
                if c >= n {
                    assert(o0 == BindOutcome::Rejected(RejectReason::QuotaExceeded));
                } else {
                    assert(o0 == BindOutcome::Admitted);
                }
            }
        }
        assert(bind_all(m, key, peers, now) == bind_all(m1, key, tail, now));
    }
}

/// The exact shape of the headline quota property: a fresh key with quota
/// `n` and no consumed slots, attempted by `n + k` distinct fresh devices,
/// admits exactly `n` of them and rejects exactly `k` with `QuotaExceeded`.
pub proof fn lemma_quota_exact(
    m: StoreModel,
    key: Seq<char>,
    peers: Seq<Seq<char>>,
    now: int,
    n: int,
    k: int,
)
    requires
        m.wf(),
        m.key_valid_at(key, now),
        m.record(key).max_bind_ids == n,
        m.bind_count(key) == 0,
        n >= 0,
        k > 0,
        peers.len() == n + k,
        forall|a: int, b: int| 0 <= a < b < peers.len() ==> peers[a] != peers[b],
        forall|a: int| 0 <= a < peers.len() ==> !m.is_bound(key, #[trigger] peers[a]),
    ensures
        count_outcome(bind_outcomes(m, key, peers, now), BindOutcome::Admitted) == n,
        count_outcome(
            bind_outcomes(m, key, peers, now),
            BindOutcome::Rejected(RejectReason::QuotaExceeded),
        ) == k,
        bind_all(m, key, peers, now).bind_count(key) == n,
{
    lemma_quota_linearizable(m, key, peers, now);
}

} // verus!
