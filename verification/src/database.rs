//! The persistent licence store and the binding quota engine.
//!
//! A [`Database`] holds licence records and the durable `(licence, device)`
//! bindings consumed against each record's quota.  Every operation is a
//! single atomic step on the store; a caller that shares one store between
//! tasks serializes the steps (one writer at a time), which is exactly the
//! serialization point the quota argument needs.
//!
//! All expiry comparisons take the current time as an explicit Unix-epoch
//! argument, so every function here is a pure state transition.

use vstd::prelude::*;

verus! {

use vstd::slice::slice_to_vec;

/// Errors of the peer-registration operations.
#[derive(Clone, Copy, Debug, PartialEq, Eq, Structural)]
pub enum PeerError {
    /// Registering or renaming to a peer id that another row holds.
    DuplicateId,
    /// The freshly drawn guid collides with an existing row.
    DuplicateGuid,
}

/// Errors of the licence-record operations.
#[derive(Clone, Copy, Debug, PartialEq, Eq, Structural)]
pub enum LicenceError {
    /// Issuing a key that already exists.
    DuplicateKey,
    /// Operating on a key that does not exist.
    NotFound,
}

/// Why a binding attempt was rejected.
#[derive(Clone, Copy, Debug, PartialEq, Eq, Structural)]
pub enum RejectReason {
    /// The key is absent, inactive, or expired at the time of the attempt.
    KeyInvalid,
    /// The key's distinct-device quota is already consumed.
    QuotaExceeded,
}

/// Outcome of a binding attempt.
#[derive(Clone, Copy, Debug, PartialEq, Eq, Structural)]
pub enum BindOutcome {
    /// A new binding row was created.
    Admitted,
    /// The pair was already bound; nothing changed.
    AlreadyBound,
    /// No binding was created, for the given reason.
    Rejected(RejectReason),
}

/// A licence record.  `active` is stored as an integer, zero meaning
/// inactive.
#[derive(Debug, Clone)]
pub struct LicenceKey {
    pub licence_key: String,
    pub registered_at: i64,
    pub expired_at: i64,
    pub active: i64,
    pub note: Option<String>,
    pub max_bind_ids: i64,
}

/// A durable record that one device consumed one slot of one licence.
#[derive(Debug, Clone)]
pub struct Binding {
    pub licence_key: String,
    pub peer_id: String,
    pub bound_at: i64,
}

/// A device-registration record; kept beside the licence data but carrying
/// no licensing logic of its own.
#[derive(Debug, Clone)]
pub struct Peer {
    pub guid: Vec<u8>,
    pub id: String,
    pub uuid: Vec<u8>,
    pub pk: Vec<u8>,
    pub user: Option<Vec<u8>>,
    pub info: String,
    pub status: Option<i64>,
}

impl Default for Peer {
    fn default() -> (r: Self)
        ensures
            r@ == (PeerModel {
                guid: Seq::<u8>::empty(),
                id: Seq::<char>::empty(),
                uuid: Seq::<u8>::empty(),
                pk: Seq::<u8>::empty(),
                user: None,
                info: Seq::<char>::empty(),
                status: None,
            }),
    {
        Peer {
            guid: Vec::new(),
            id: String::new(),
            uuid: Vec::new(),
            pk: Vec::new(),
            user: None,
            info: String::new(),
            status: None,
        }
    }
}

/// Mathematical image of a licence record.
#[verifier::ext_equal]
pub ghost struct LicenceKeyModel {
    pub key: Seq<char>,
    pub registered_at: int,
    pub expired_at: int,
    pub active: int,
    pub note: Option<Seq<char>>,
    pub max_bind_ids: int,
}

/// Mathematical image of a binding row.
#[verifier::ext_equal]
pub ghost struct BindingModel {
    pub key: Seq<char>,
    pub peer: Seq<char>,
    pub bound_at: int,
}

/// Mathematical image of a peer row.
#[verifier::ext_equal]
pub ghost struct PeerModel {
    pub guid: Seq<u8>,
    pub id: Seq<char>,
    pub uuid: Seq<u8>,
    pub pk: Seq<u8>,
    pub user: Option<Seq<u8>>,
    pub info: Seq<char>,
    pub status: Option<int>,
}

impl View for LicenceKey {
    type V = LicenceKeyModel;

    open spec fn view(&self) -> LicenceKeyModel {
        LicenceKeyModel {
            key: self.licence_key@,
            registered_at: self.registered_at as int,
            expired_at: self.expired_at as int,
            active: self.active as int,
            note: self.note.deep_view(),
            max_bind_ids: self.max_bind_ids as int,
        }
    }
}

impl View for Binding {
    type V = BindingModel;

    open spec fn view(&self) -> BindingModel {
        BindingModel { key: self.licence_key@, peer: self.peer_id@, bound_at: self.bound_at as int }
    }
}

impl View for Peer {
    type V = PeerModel;

    open spec fn view(&self) -> PeerModel {
        PeerModel {
            guid: self.guid@,
            id: self.id@,
            uuid: self.uuid@,
            pk: self.pk@,
            user: self.user.deep_view(),
            info: self.info@,
            status: match self.status {
                Some(s) => Some(s as int),
                None => None,
            },
        }
    }
}

/// A record is valid at `now` iff it is active and expires strictly later
/// than `now`: a record with `expired_at == now` is already invalid.
pub open spec fn valid_at(r: LicenceKeyModel, now: int) -> bool {
    r.active != 0 && r.expired_at > now
}

/// Number of binding rows held by `key` (rows are unique per `(key, peer)`
/// in a well-formed store, so this is the distinct-device count).
pub open spec fn count_key(bs: Seq<BindingModel>, key: Seq<char>) -> int
    decreases bs.len(),
{
    if bs.len() == 0 {
        0
    } else {
        count_key(bs.drop_last(), key) + if bs.last().key == key {
            1int
        } else {
            0int
        }
    }
}

/// Mathematical image of the whole store.
#[verifier::ext_equal]
pub ghost struct StoreModel {
    pub keys: Seq<LicenceKeyModel>,
    pub bindings: Seq<BindingModel>,
    pub peers: Seq<PeerModel>,
}

impl StoreModel {
    /// Key strings are unique, records are ordered newest first, no
    /// `(key, peer)` pair is bound twice, and peer rows carry unique ids
    /// and unique guids.
    pub open spec fn wf(self) -> bool {
        &&& forall|i: int, j: int|
            0 <= i < j < self.keys.len() ==> self.keys[i].key != self.keys[j].key
        &&& forall|i: int, j: int|
            0 <= i < j < self.keys.len() ==> self.keys[i].registered_at >= self.keys[j].registered_at
        &&& forall|i: int, j: int|
            0 <= i < j < self.bindings.len() ==> !(self.bindings[i].key == self.bindings[j].key
                && self.bindings[i].peer == self.bindings[j].peer)
        &&& forall|i: int, j: int|
            0 <= i < j < self.peers.len() ==> self.peers[i].id != self.peers[j].id
        &&& forall|i: int, j: int|
            0 <= i < j < self.peers.len() ==> self.peers[i].guid != self.peers[j].guid
    }

    pub open spec fn has_peer_id(self, id: Seq<char>) -> bool {
        exists|i: int| 0 <= i < self.peers.len() && self.peers[i].id == id
    }

    /// Index of the peer row for `id`; meaningful only when `has_peer_id`
    /// holds (and then unique, by well-formedness).
    pub open spec fn peer_id_index(self, id: Seq<char>) -> int {
        choose|i: int| 0 <= i < self.peers.len() && self.peers[i].id == id
    }

    /// The peer row for `id`; meaningful only when `has_peer_id` holds.
    pub open spec fn peer_for(self, id: Seq<char>) -> PeerModel {
        self.peers[self.peer_id_index(id)]
    }

    pub open spec fn has_peer_guid(self, guid: Seq<u8>) -> bool {
        exists|i: int| 0 <= i < self.peers.len() && self.peers[i].guid == guid
    }

    /// Index of the peer row for `guid`; meaningful only when
    /// `has_peer_guid` holds.
    pub open spec fn peer_guid_index(self, guid: Seq<u8>) -> int {
        choose|i: int| 0 <= i < self.peers.len() && self.peers[i].guid == guid
    }

    pub open spec fn has_key(self, key: Seq<char>) -> bool {
        exists|i: int| 0 <= i < self.keys.len() && self.keys[i].key == key
    }

    /// Index of the record for `key`; meaningful only when `has_key` holds
    /// (and then unique, by well-formedness).
    pub open spec fn key_index(self, key: Seq<char>) -> int {
        choose|i: int| 0 <= i < self.keys.len() && self.keys[i].key == key
    }

    /// The record stored for `key`; meaningful only when `has_key` holds.
    pub open spec fn record(self, key: Seq<char>) -> LicenceKeyModel {
        self.keys[self.key_index(key)]
    }

    pub open spec fn key_valid_at(self, key: Seq<char>, now: int) -> bool {
        self.has_key(key) && valid_at(self.record(key), now)
    }

    pub open spec fn is_bound(self, key: Seq<char>, peer: Seq<char>) -> bool {
        exists|i: int|
            0 <= i < self.bindings.len() && self.bindings[i].key == key && self.bindings[i].peer
                == peer
    }

    pub open spec fn bind_count(self, key: Seq<char>) -> int {
        count_key(self.bindings, key)
    }

    /// The decision of one binding attempt: an existing pair is reported
    /// bound; an absent, inactive or expired key is rejected; a consumed
    /// quota is rejected; otherwise the device is admitted.
    pub open spec fn try_bind_outcome(self, key: Seq<char>, peer: Seq<char>, now: int) -> BindOutcome {
        if self.is_bound(key, peer) {
            BindOutcome::AlreadyBound
        } else if !self.key_valid_at(key, now) {
            BindOutcome::Rejected(RejectReason::KeyInvalid)
        } else if self.bind_count(key) >= self.record(key).max_bind_ids {
            BindOutcome::Rejected(RejectReason::QuotaExceeded)
        } else {
            BindOutcome::Admitted
        }
    }

    /// The store after one binding attempt: exactly an admission appends the
    /// one new binding row; every other outcome leaves the store untouched.
    pub open spec fn try_bind_next(self, key: Seq<char>, peer: Seq<char>, now: int) -> StoreModel {
        if self.try_bind_outcome(key, peer, now) == BindOutcome::Admitted {
            StoreModel {
                bindings: self.bindings.push(BindingModel { key, peer, bound_at: now }),
                ..self
            }
        } else {
            self
        }
    }

    /// The advisory, read-only view a diagnostic check reports:
    /// `(key_valid, already_bound, would_overuse)`.
    pub open spec fn check_state(self, key: Seq<char>, peer: Seq<char>, now: int) -> (
        bool,
        bool,
        bool,
    ) {
        let already = self.is_bound(key, peer);
        if !self.key_valid_at(key, now) {
            (false, already, false)
        } else {
            (true, already, !already && self.bind_count(key) >= self.record(key).max_bind_ids)
        }
    }
}

/// Appending one row raises the count for exactly its key by one.
pub proof fn lemma_count_key_push(s: Seq<BindingModel>, x: BindingModel, key: Seq<char>)
    ensures
        count_key(s.push(x), key) == count_key(s, key) + if x.key == key {
            1int
        } else {
            0int
        },
{
    assert(s.push(x).drop_last() =~= s);
    assert(s.push(x).last() == x);
}

/// A count of rows is never negative.
pub proof fn lemma_count_key_nonneg(s: Seq<BindingModel>, key: Seq<char>)
    ensures
        0 <= count_key(s, key) <= s.len(),
    decreases s.len(),
{
    if s.len() > 0 {
        lemma_count_key_nonneg(s.drop_last(), key);
    }
}

/// Replacing a record with one that keeps its key and registration time
/// preserves well-formedness and leaves every other record in place.
pub proof fn lemma_record_update_wf(m: StoreModel, key: Seq<char>, r2: LicenceKeyModel)
    requires
        m.wf(),
        m.has_key(key),
        r2.key == m.record(key).key,
        r2.registered_at == m.record(key).registered_at,
    ensures
        record_update(m, key, r2).wf(),
        record_update(m, key, r2).has_key(key),
        record_update(m, key, r2).record(key) == r2,
        record_update(m, key, r2).keys.len() == m.keys.len(),
{
    let i = m.key_index(key);
    let m2 = record_update(m, key, r2);
    assert(0 <= i < m.keys.len() && m.keys[i].key == key);
    assert forall|a: int, b: int| 0 <= a < b < m2.keys.len() implies m2.keys[a].key
        != m2.keys[b].key by {
        assert(m.keys[a].key != m.keys[b].key);
    }
    assert forall|a: int, b: int| 0 <= a < b < m2.keys.len() implies m2.keys[a].registered_at
        >= m2.keys[b].registered_at by {
        assert(m.keys[a].registered_at >= m.keys[b].registered_at);
    }
    assert(m2.wf());
    assert(m2.keys[i].key == key);
    lemma_key_index(m2, key, i);
}

/// Any index holding `key` is the one `key_index` denotes, because key
/// strings are unique in a well-formed store.
pub proof fn lemma_key_index(m: StoreModel, key: Seq<char>, i: int)
    requires
        m.wf(),
        0 <= i < m.keys.len(),
        m.keys[i].key == key,
    ensures
        m.has_key(key),
        m.key_index(key) == i,
        m.record(key) == m.keys[i],
{
    assert(m.has_key(key));
    let j = m.key_index(key);
    assert(0 <= j < m.keys.len() && m.keys[j].key == key);
    if i < j {
        assert(m.keys[i].key != m.keys[j].key);
    } else if j < i {
        assert(m.keys[j].key != m.keys[i].key);
    }
}

/// The record an issuance with these arguments creates.
pub open spec fn new_record(
    key: Seq<char>,
    registered_at: int,
    expired_at: int,
    active: bool,
    note: Option<Seq<char>>,
    max_bind_ids: int,
) -> LicenceKeyModel {
    LicenceKeyModel {
        key,
        registered_at,
        expired_at,
        active: if active {
            1
        } else {
            0
        },
        note,
        max_bind_ids,
    }
}

/// Insertion point that keeps records ordered newest first: the first index
/// whose record is registered no later than `t`.
pub open spec fn insert_pos(keys: Seq<LicenceKeyModel>, t: int) -> int
    decreases keys.len(),
{
    if keys.len() == 0 {
        0
    } else if keys[0].registered_at <= t {
        0
    } else {
        1 + insert_pos(keys.drop_first(), t)
    }
}

/// A forward scan that stops at the first record no newer than `t` lands
/// exactly on `insert_pos`.
proof fn lemma_insert_pos(keys: Seq<LicenceKeyModel>, t: int, p: int)
    requires
        0 <= p <= keys.len(),
        forall|j: int| 0 <= j < p ==> keys[j].registered_at > t,
        p < keys.len() ==> keys[p].registered_at <= t,
    ensures
        insert_pos(keys, t) == p,
    decreases keys.len(),
{
    if keys.len() == 0 {
    } else if p == 0 {
    } else {
        lemma_insert_pos(keys.drop_first(), t, p - 1);
    }
}

/// The store with the record for `key` replaced by `r2` (the bindings and
/// peers untouched).  Meaningful only when `has_key` holds.
pub open spec fn record_update(m: StoreModel, key: Seq<char>, r2: LicenceKeyModel) -> StoreModel {
    StoreModel { keys: m.keys.update(m.key_index(key), r2), ..m }
}

/// Addition on epoch seconds, saturating at the bounds of the storage type.
pub open spec fn sat_add_i64(a: int, b: int) -> int {
    if a + b > i64::MAX {
        i64::MAX as int
    } else if a + b < i64::MIN {
        i64::MIN as int
    } else {
        a + b
    }
}

/// The device quota an operator may set: clamped into `[1, 1000]`.
pub open spec fn clamp_bind(n: int) -> int {
    if n < 1 {
        1
    } else if n > 1000 {
        1000
    } else {
        n
    }
}

/// The slice of a listing page: `offset` clipped into the sequence, then up
/// to `limit` records (none for a non-positive limit).
pub open spec fn page_lo(offset: int, len: int) -> int {
    if offset < 0 {
        0
    } else if offset > len {
        len
    } else {
        offset
    }
}

pub open spec fn page_hi(offset: int, limit: int, len: int) -> int {
    let lo = page_lo(offset, len);
    if limit < 0 {
        lo
    } else if lo + limit > len {
        len
    } else {
        lo + limit
    }
}

/// Any index holding a peer id is the one `peer_id_index` denotes, and
/// likewise for guids, because both are unique in a well-formed store.
pub proof fn lemma_peer_id_index(m: StoreModel, id: Seq<char>, i: int)
    requires
        m.wf(),
        0 <= i < m.peers.len(),
        m.peers[i].id == id,
    ensures
        m.has_peer_id(id),
        m.peer_id_index(id) == i,
        m.peer_for(id) == m.peers[i],
{
    assert(m.has_peer_id(id));
    let j = m.peer_id_index(id);
    assert(0 <= j < m.peers.len() && m.peers[j].id == id);
    if i < j {
        assert(m.peers[i].id != m.peers[j].id);
    } else if j < i {
        assert(m.peers[j].id != m.peers[i].id);
    }
}

pub proof fn lemma_peer_guid_index(m: StoreModel, guid: Seq<u8>, i: int)
    requires
        m.wf(),
        0 <= i < m.peers.len(),
        m.peers[i].guid == guid,
    ensures
        m.has_peer_guid(guid),
        m.peer_guid_index(guid) == i,
{
    assert(m.has_peer_guid(guid));
    let j = m.peer_guid_index(guid);
    assert(0 <= j < m.peers.len() && m.peers[j].guid == guid);
    if i < j {
        assert(m.peers[i].guid != m.peers[j].guid);
    } else if j < i {
        assert(m.peers[j].guid != m.peers[i].guid);
    }
}

/// Relies on uuid::Uuid::new_v4: sixteen fresh random bytes for a row
/// guid.
#[verifier::external_body]
fn new_guid() -> (r: Vec<u8>)
    ensures
        r@.len() == 16,
{
    uuid::Uuid::new_v4().as_bytes().to_vec()
}

/// Byte-for-byte equality of two buffers.
fn bytes_eq(a: &[u8], b: &[u8]) -> (r: bool)
    ensures
        r == (a@ == b@),
{
    let n = a.len();
    if n != b.len() {
        return false;
    }
    let mut i: usize = 0;
    while i < n
        invariant
            n == a@.len(),
            b@.len() == n,
            i <= n,
            forall|j: int| 0 <= j < i ==> a@[j] == b@[j],
        decreases n - i,
    {
        if a[i] != b[i] {
            return false;
        }
        i += 1;
    }
    assert(a@ =~= b@);
    true
}

/// The in-memory licence store: records, bindings, and peer rows.
pub struct Database {
    keys: Vec<LicenceKey>,
    bindings: Vec<Binding>,
    peers: Vec<Peer>,
}

impl View for Database {
    type V = StoreModel;

    closed spec fn view(&self) -> StoreModel {
        StoreModel {
            keys: self.keys@.map_values(|r: LicenceKey| r@),
            bindings: self.bindings@.map_values(|b: Binding| b@),
            peers: self.peers@.map_values(|p: Peer| p@),
        }
    }
}

impl Database {
    pub open spec fn wf(self) -> bool {
        self@.wf()
    }

    /// An empty store.
    pub fn new() -> (db: Database)
        ensures
            db.wf(),
            db@.keys == Seq::<LicenceKeyModel>::empty(),
            db@.bindings == Seq::<BindingModel>::empty(),
            db@.peers == Seq::<PeerModel>::empty(),
    {
        let db = Database { keys: Vec::new(), bindings: Vec::new(), peers: Vec::new() };
        proof {
            assert(db@.keys =~= Seq::<LicenceKeyModel>::empty());
            assert(db@.bindings =~= Seq::<BindingModel>::empty());
            assert(db@.peers =~= Seq::<PeerModel>::empty());
        }
        db
    }

    /// First index whose record holds `key`, if any.
    fn find_key_idx(keys: &Vec<LicenceKey>, key: &String) -> (r: Option<usize>)
        ensures
            match r {
                Some(i) => i < keys.len() && keys@[i as int]@.key == key@,
                None => forall|j: int| 0 <= j < keys@.len() ==> keys@[j]@.key != key@,
            },
    {
        let n = keys.len();
        let mut i: usize = 0;
        while i < n
            invariant
                n == keys.len(),
                i <= n,
                forall|j: int| 0 <= j < i ==> keys@[j]@.key != key@,
            decreases n - i,
        {
            if keys[i].licence_key == *key {
                return Some(i);
            }
            i += 1;
        }
        None
    }

    /// True iff `key` is issued, active, and unexpired at `now`.
    pub fn is_key_valid(&self, key: &str, now: i64) -> (r: bool)
        requires
            self.wf(),
        ensures
            r == self@.key_valid_at(key@, now as int),
    {
        let k = key.to_owned();
        match Self::find_key_idx(&self.keys, &k) {
            None => {
                assert(forall|j: int|
                    0 <= j < self@.keys.len() ==> self@.keys[j] == #[trigger] self.keys@[j]@);
                assert(!self@.has_key(key@));
                false
            },
            Some(i) => {
                proof {
                    assert(self@.keys[i as int] == self.keys@[i as int]@);
                    lemma_key_index(self@, key@, i as int);
                }
                let rec = &self.keys[i];
                rec.active != 0 && rec.expired_at > now
            },
        }
    }

    /// True iff a record for `key` exists, whatever its state.
    pub fn key_exists(&self, key: &str) -> (r: bool)
        requires
            self.wf(),
        ensures
            r == self@.has_key(key@),
    {
        let k = key.to_owned();
        match Self::find_key_idx(&self.keys, &k) {
            None => {
                assert(forall|j: int|
                    0 <= j < self@.keys.len() ==> self@.keys[j] == #[trigger] self.keys@[j]@);
                assert(!self@.has_key(key@));
                false
            },
            Some(i) => {
                proof {
                    assert(self@.keys[i as int] == self.keys@[i as int]@);
                    lemma_key_index(self@, key@, i as int);
                }
                true
            },
        }
    }

    /// Issues a new licence record, registered at `now`.  Fails, changing
    /// nothing, iff the key is already issued.
    pub fn insert_key(
        &mut self,
        key: &str,
        expired_at: i64,
        active: bool,
        note: Option<&str>,
        max_bind_ids: i32,
        now: i64,
    ) -> (r: Result<(), LicenceError>)
        requires
            old(self).wf(),
        ensures
            final(self).wf(),
            old(self)@.has_key(key@) ==> r == Err::<(), LicenceError>(LicenceError::DuplicateKey)
                && final(self)@ == old(self)@,
            !old(self)@.has_key(key@) ==> r == Ok::<(), LicenceError>(()) && final(self)@ == (StoreModel {
                keys: old(self)@.keys.insert(
                    insert_pos(old(self)@.keys, now as int),
                    new_record(
                        key@,
                        now as int,
                        expired_at as int,
                        active,
                        note.deep_view(),
                        max_bind_ids as int,
                    ),
                ),
                ..old(self)@
            }),
    {
        let ghost om = self@;
        let k = key.to_owned();
        if let Some(i) = Self::find_key_idx(&self.keys, &k) {
            proof {
                assert(om.keys[i as int] == self.keys@[i as int]@);
                lemma_key_index(om, key@, i as int);
            }
            return Err(LicenceError::DuplicateKey);
        }
        assert(forall|j: int| 0 <= j < om.keys.len() ==> om.keys[j] == #[trigger] self.keys@[j]@);
        assert(!om.has_key(key@));

        let n = self.keys.len();
        let mut p: usize = 0;
        while p < n && self.keys[p].registered_at > now
            invariant
                n == self.keys.len(),
                p <= n,
                om == self@,
                forall|j: int| 0 <= j < p ==> om.keys[j].registered_at > now as int,
            decreases n - p,
        {
            assert(om.keys[p as int] == self.keys@[p as int]@);
            p += 1;
        }
        proof {
            if p < n {
                assert(om.keys[p as int] == self.keys@[p as int]@);
            }
            lemma_insert_pos(om.keys, now as int, p as int);
        }

        let rec = LicenceKey {
            licence_key: k,
            registered_at: now,
            expired_at,
            active: if active {
                1
            } else {
                0
            },
            note: match note {
                Some(s) => Some(s.to_owned()),
                None => None,
            },
            max_bind_ids: max_bind_ids as i64,
        };
        let ghost recm = rec@;
        assert(recm == new_record(
            key@,
            now as int,
            expired_at as int,
            active,
            note.deep_view(),
            max_bind_ids as int,
        ));
        self.keys.insert(p, rec);
        proof {
            let pi = p as int;
            assert(self@.keys =~= om.keys.insert(pi, recm));
            assert(self@ =~= (StoreModel { keys: om.keys.insert(pi, recm), ..om }));
            let m = self@;
            assert forall|i: int, j: int| 0 <= i < j < m.keys.len() implies m.keys[i].key
                != m.keys[j].key by {
                if i == pi {
                    assert(m.keys[j] == om.keys[j - 1]);
                } else if j == pi {
                    assert(m.keys[i] == om.keys[i]);
                }
            }
            assert forall|i: int, j: int| 0 <= i < j < m.keys.len() implies m.keys[i].registered_at
                >= m.keys[j].registered_at by {
                if i < pi && j > pi {
                    assert(m.keys[i] == om.keys[i]);
                    assert(m.keys[j] == om.keys[j - 1]);
                } else if i == pi && j > pi {
                    assert(m.keys[j] == om.keys[j - 1]);
                    if p < n {
                        assert(om.keys[pi].registered_at <= now as int);
                    }
                } else if i < pi && j == pi {
                    assert(m.keys[i] == om.keys[i]);
                }
            }
            assert(m.wf());
        }
        Ok(())
    }

    /// An owned copy of a record, equal to it in the model.
    fn clone_record(rec: &LicenceKey) -> (r: LicenceKey)
        ensures
            r@ == rec@,
    {
        let r = LicenceKey {
            licence_key: rec.licence_key.clone(),
            registered_at: rec.registered_at,
            expired_at: rec.expired_at,
            active: rec.active,
            note: match &rec.note {
                Some(s) => Some(s.clone()),
                None => None,
            },
            max_bind_ids: rec.max_bind_ids,
        };
        assert(r@ =~= rec@);
        r
    }

    /// The record for `key`, if issued.
    pub fn get_key(&self, key: &str) -> (r: Option<LicenceKey>)
        requires
            self.wf(),
        ensures
            match r {
                Some(rec) => self@.has_key(key@) && rec@ == self@.record(key@),
                None => !self@.has_key(key@),
            },
    {
        let k = key.to_owned();
        match Self::find_key_idx(&self.keys, &k) {
            None => {
                assert(forall|j: int|
                    0 <= j < self@.keys.len() ==> self@.keys[j] == #[trigger] self.keys@[j]@);
                assert(!self@.has_key(key@));
                None
            },
            Some(i) => {
                proof {
                    assert(self@.keys[i as int] == self.keys@[i as int]@);
                    lemma_key_index(self@, key@, i as int);
                }
                Some(Self::clone_record(&self.keys[i]))
            },
        }
    }

    /// Mutates the record for `key` in place through `f`-like updates; the
    /// three public mutators below share this search step.
    fn find_existing(&self, key: &String) -> (r: Option<usize>)
        requires
            self.wf(),
        ensures
            match r {
                Some(i) => self@.has_key(key@) && i == self@.key_index(key@) && i
                    < self@.keys.len(),
                None => !self@.has_key(key@),
            },
    {
        match Self::find_key_idx(&self.keys, key) {
            None => {
                assert(forall|j: int|
                    0 <= j < self@.keys.len() ==> self@.keys[j] == #[trigger] self.keys@[j]@);
                assert(!self@.has_key(key@));
                None
            },
            Some(i) => {
                proof {
                    assert(self@.keys[i as int] == self.keys@[i as int]@);
                    lemma_key_index(self@, key@, i as int);
                }
                Some(i)
            },
        }
    }

    /// Adds `seconds` to the key's expiry (saturating at the bounds of the
    /// storage type).  Fails with `NotFound`, changing nothing, iff the key
    /// is not issued: extending an unknown key is an error a caller can see,
    /// not a silent no-op.
    pub fn extend_key_by(&mut self, key: &str, seconds: i64) -> (r: Result<(), LicenceError>)
        requires
            old(self).wf(),
        ensures
            final(self).wf(),
            !old(self)@.has_key(key@) ==> r == Err::<(), LicenceError>(LicenceError::NotFound)
                && final(self)@ == old(self)@,
            old(self)@.has_key(key@) ==> r == Ok::<(), LicenceError>(()) && final(self)@
                == record_update(
                old(self)@,
                key@,
                LicenceKeyModel {
                    expired_at: sat_add_i64(old(self)@.record(key@).expired_at, seconds as int),
                    ..old(self)@.record(key@)
                },
            ),
    {
        let ghost om = self@;
        let k = key.to_owned();
        match self.find_existing(&k) {
            None => Err(LicenceError::NotFound),
            Some(i) => {
                let mut rec = Self::clone_record(&self.keys[i]);
                rec.expired_at = match rec.expired_at.checked_add(seconds) {
                    Some(v) => v,
                    None => if seconds > 0 {
                        i64::MAX
                    } else {
                        i64::MIN
                    },
                };
                let ghost r2 = rec@;
                self.keys[i] = rec;
                proof {
                    assert(r2 == (LicenceKeyModel {
                        expired_at: sat_add_i64(om.record(key@).expired_at, seconds as int),
                        ..om.record(key@)
                    }));
                    assert(self@.keys =~= om.keys.update(i as int, r2));
                    assert(self@ =~= record_update(om, key@, r2));
                    lemma_record_update_wf(om, key@, r2);
                }
                Ok(())
            },
        }
    }

    /// Sets the key's active flag.  Fails with `NotFound`, changing nothing,
    /// iff the key is not issued.  Idempotent.
    pub fn set_key_active(&mut self, key: &str, active: bool) -> (r: Result<(), LicenceError>)
        requires
            old(self).wf(),
        ensures
            final(self).wf(),
            !old(self)@.has_key(key@) ==> r == Err::<(), LicenceError>(LicenceError::NotFound)
                && final(self)@ == old(self)@,
            old(self)@.has_key(key@) ==> r == Ok::<(), LicenceError>(()) && final(self)@
                == record_update(
                old(self)@,
                key@,
                LicenceKeyModel {
                    active: if active {
                        1
                    } else {
                        0
                    },
                    ..old(self)@.record(key@)
                },
            ),
    {
        let ghost om = self@;
        let k = key.to_owned();
        match self.find_existing(&k) {
            None => Err(LicenceError::NotFound),
            Some(i) => {
                let mut rec = Self::clone_record(&self.keys[i]);
                rec.active = if active {
                    1
                } else {
                    0
                };
                let ghost r2 = rec@;
                self.keys[i] = rec;
                proof {
                    assert(self@.keys =~= om.keys.update(i as int, r2));
                    assert(self@ =~= record_update(om, key@, r2));
                    lemma_record_update_wf(om, key@, r2);
                }
                Ok(())
            },
        }
    }

    /// Sets the key's device quota, clamped into `[1, 1000]`.  Fails with
    /// `NotFound`, changing nothing, iff the key is not issued.  Idempotent.
    pub fn set_key_max_bind(&mut self, key: &str, n: i32) -> (r: Result<(), LicenceError>)
        requires
            old(self).wf(),
        ensures
            final(self).wf(),
            !old(self)@.has_key(key@) ==> r == Err::<(), LicenceError>(LicenceError::NotFound)
                && final(self)@ == old(self)@,
            old(self)@.has_key(key@) ==> r == Ok::<(), LicenceError>(()) && final(self)@
                == record_update(
                old(self)@,
                key@,
                LicenceKeyModel { max_bind_ids: clamp_bind(n as int), ..old(self)@.record(key@) },
            ),
    {
        let ghost om = self@;
        let k = key.to_owned();
        match self.find_existing(&k) {
            None => Err(LicenceError::NotFound),
            Some(i) => {
                let mut rec = Self::clone_record(&self.keys[i]);
                rec.max_bind_ids = if n < 1 {
                    1
                } else if n > 1000 {
                    1000
                } else {
                    n as i64
                };
                let ghost r2 = rec@;
                self.keys[i] = rec;
                proof {
                    assert(self@.keys =~= om.keys.update(i as int, r2));
                    assert(self@ =~= record_update(om, key@, r2));
                    lemma_record_update_wf(om, key@, r2);
                }
                Ok(())
            },
        }
    }

    /// Whether `(key, peer)` already holds a binding row.
    fn bound_in_store(&self, key: &String, peer: &String) -> (r: bool)
        ensures
            r == self@.is_bound(key@, peer@),
    {
        let n = self.bindings.len();
        let mut i: usize = 0;
        while i < n
            invariant
                n == self.bindings.len(),
                i <= n,
                forall|j: int|
                    0 <= j < i ==> !(#[trigger] self@.bindings[j].key == key@
                        && self@.bindings[j].peer == peer@),
            decreases n - i,
        {
            assert(self@.bindings[i as int] == self.bindings@[i as int]@);
            if self.bindings[i].licence_key == *key && self.bindings[i].peer_id == *peer {
                assert(self@.is_bound(key@, peer@));
                return true;
            }
            i += 1;
        }
        assert(!self@.is_bound(key@, peer@));
        false
    }

    /// How many binding rows `key` holds.
    fn bound_count_of(&self, key: &String) -> (r: usize)
        ensures
            r == self@.bind_count(key@),
    {
        let n = self.bindings.len();
        let mut i: usize = 0;
        let mut cnt: usize = 0;
        while i < n
            invariant
                n == self.bindings.len(),
                i <= n,
                cnt <= i,
                cnt == count_key(self@.bindings.subrange(0, i as int), key@),
            decreases n - i,
        {
            let ghost pre = self@.bindings.subrange(0, i as int);
            assert(self@.bindings[i as int] == self.bindings@[i as int]@);
            proof {
                assert(self@.bindings.subrange(0, i + 1) =~= pre.push(self@.bindings[i as int]));
                lemma_count_key_push(pre, self@.bindings[i as int], key@);
            }
            if self.bindings[i].licence_key == *key {
                cnt += 1;
            }
            i += 1;
        }
        assert(self@.bindings.subrange(0, n as int) =~= self@.bindings);
        cnt
    }

    /// One binding attempt, decided and applied as a single atomic step:
    /// an already-bound pair is admitted idempotently (no new row), an
    /// invalid key or a consumed quota is rejected without side effects, and
    /// otherwise the one new binding row is appended.
    pub fn try_bind(&mut self, key: &str, peer_id: &str, now: i64) -> (r: BindOutcome)
        requires
            old(self).wf(),
        ensures
            final(self).wf(),
            r == old(self)@.try_bind_outcome(key@, peer_id@, now as int),
            final(self)@ == old(self)@.try_bind_next(key@, peer_id@, now as int),
    {
        let ghost om = self@;
        let k = key.to_owned();
        let p = peer_id.to_owned();
        if self.bound_in_store(&k, &p) {
            return BindOutcome::AlreadyBound;
        }
        let idx = match self.find_existing(&k) {
            None => {
                return BindOutcome::Rejected(RejectReason::KeyInvalid);
            },
            Some(i) => i,
        };
        let rec = &self.keys[idx];
        proof {
            assert(om.record(key@) == om.keys[idx as int]);
        }
        if !(rec.active != 0 && rec.expired_at > now) {
            return BindOutcome::Rejected(RejectReason::KeyInvalid);
        }
        let cnt = self.bound_count_of(&k);
        let max = self.keys[idx].max_bind_ids;
        proof {
            lemma_count_key_nonneg(om.bindings, key@);
        }
        let quota_full = if max < 0 {
            true
        } else {
            cnt as u64 >= max as u64
        };
        if quota_full {
            return BindOutcome::Rejected(RejectReason::QuotaExceeded);
        }
        let row = Binding { licence_key: k, peer_id: p, bound_at: now };
        let ghost rowm = row@;
        self.bindings.push(row);
        proof {
            assert(self@.bindings =~= om.bindings.push(rowm));
            assert(self@ =~= (StoreModel { bindings: om.bindings.push(rowm), ..om }));
            let m = self@;
            assert forall|a: int, b: int|
                0 <= a < b < m.bindings.len() implies !(m.bindings[a].key == m.bindings[b].key
                && m.bindings[a].peer == m.bindings[b].peer) by {
                if b < om.bindings.len() {
                    assert(!(om.bindings[a].key == om.bindings[b].key && om.bindings[a].peer
                        == om.bindings[b].peer));
                } else {
                    assert(m.bindings[b] == rowm);
                    assert(!(om.bindings[a].key == key@ && om.bindings[a].peer == peer_id@));
                }
            }
            assert(m.wf());
        }
        BindOutcome::Admitted
    }

    /// The boolean surface of the quota engine: true iff the
    /// attempt ends `Admitted` or `AlreadyBound`.  The store changes exactly
    /// as under [`Self::try_bind`].
    pub fn ensure_binding_allowed(&mut self, key: &str, peer_id: &str, now: i64) -> (r: bool)
        requires
            old(self).wf(),
        ensures
            final(self).wf(),
            r == (old(self)@.try_bind_outcome(key@, peer_id@, now as int) == BindOutcome::Admitted
                || old(self)@.try_bind_outcome(key@, peer_id@, now as int)
                == BindOutcome::AlreadyBound),
            final(self)@ == old(self)@.try_bind_next(key@, peer_id@, now as int),
    {
        match self.try_bind(key, peer_id, now) {
            BindOutcome::Admitted => true,
            BindOutcome::AlreadyBound => true,
            BindOutcome::Rejected(_) => false,
        }
    }

    /// The advisory read-only diagnostic: `(key_valid, already_bound,
    /// would_overuse)`.  Mutates nothing and may be stale by the time a real
    /// binding attempt runs.
    pub fn check_binding_state(&self, key: &str, peer_id: &str, now: i64) -> (r: (bool, bool, bool))
        requires
            self.wf(),
        ensures
            r == self@.check_state(key@, peer_id@, now as int),
    {
        let k = key.to_owned();
        let p = peer_id.to_owned();
        let already = self.bound_in_store(&k, &p);
        let idx = match self.find_existing(&k) {
            None => {
                return (false, already, false);
            },
            Some(i) => i,
        };
        let rec = &self.keys[idx];
        proof {
            assert(self@.record(key@) == self@.keys[idx as int]);
        }
        if !(rec.active != 0 && rec.expired_at > now) {
            return (false, already, false);
        }
        let cnt = self.bound_count_of(&k);
        let max = self.keys[idx].max_bind_ids;
        proof {
            lemma_count_key_nonneg(self@.bindings, key@);
        }
        let quota_full = if max < 0 {
            true
        } else {
            cnt as u64 >= max as u64
        };
        (true, already, !already && quota_full)
    }

    /// One page of the listing, newest first: the records from `offset` on,
    /// at most `limit` of them.
    pub fn list_keys(&self, offset: i64, limit: i64) -> (r: Vec<LicenceKey>)
        requires
            self.wf(),
            self@.keys.len() <= i64::MAX,
        ensures
            r@.map_values(|x: LicenceKey| x@) == self@.keys.subrange(
                page_lo(offset as int, self@.keys.len() as int),
                page_hi(offset as int, limit as int, self@.keys.len() as int),
            ),
    {
        let len = self.keys.len();
        let lo: usize = if offset < 0 {
            0
        } else if offset >= len as i64 {
            len
        } else {
            offset as usize
        };
        let take: usize = if limit <= 0 {
            0
        } else {
            let rem = len - lo;
            if limit >= rem as i64 {
                rem
            } else {
                limit as usize
            }
        };
        let ghost glo = page_lo(offset as int, self@.keys.len() as int);
        let ghost ghi = page_hi(offset as int, limit as int, self@.keys.len() as int);
        assert(glo == lo as int);
        assert(ghi == lo + take);
        let mut out: Vec<LicenceKey> = Vec::new();
        assert(out@.map_values(|x: LicenceKey| x@) =~= self@.keys.subrange(glo, glo));
        let mut i: usize = 0;
        while i < take
            invariant
                take <= len - lo,
                len == self.keys.len(),
                i <= take,
                glo == lo as int,
                out@.map_values(|x: LicenceKey| x@) =~= self@.keys.subrange(glo, glo + i),
            decreases take - i,
        {
            let ghost prev = out@.map_values(|x: LicenceKey| x@);
            let rec = Self::clone_record(&self.keys[lo + i]);
            out.push(rec);
            proof {
                assert(self@.keys[glo + i] == self.keys@[glo + i]@);
                assert(out@.map_values(|x: LicenceKey| x@) =~= prev.push(self@.keys[glo + i]));
                assert(self@.keys.subrange(glo, glo + i + 1) =~= self@.keys.subrange(
                    glo,
                    glo + i,
                ).push(self@.keys[glo + i]));
            }
            i += 1;
        }
        out
    }

    /// First index whose row holds the peer id, if any.
    fn find_peer_by_id(peers: &Vec<Peer>, id: &String) -> (r: Option<usize>)
        ensures
            match r {
                Some(i) => i < peers.len() && peers@[i as int]@.id == id@,
                None => forall|j: int| 0 <= j < peers@.len() ==> peers@[j]@.id != id@,
            },
    {
        let n = peers.len();
        let mut i: usize = 0;
        while i < n
            invariant
                n == peers.len(),
                i <= n,
                forall|j: int| 0 <= j < i ==> peers@[j]@.id != id@,
            decreases n - i,
        {
            if peers[i].id == *id {
                return Some(i);
            }
            i += 1;
        }
        None
    }

    /// First index whose row holds the guid, if any.
    fn find_peer_by_guid(peers: &Vec<Peer>, guid: &Vec<u8>) -> (r: Option<usize>)
        ensures
            match r {
                Some(i) => i < peers.len() && peers@[i as int]@.guid == guid@,
                None => forall|j: int| 0 <= j < peers@.len() ==> peers@[j]@.guid != guid@,
            },
    {
        let n = peers.len();
        let mut i: usize = 0;
        while i < n
            invariant
                n == peers.len(),
                i <= n,
                forall|j: int| 0 <= j < i ==> peers@[j]@.guid != guid@,
            decreases n - i,
        {
            if bytes_eq(peers[i].guid.as_slice(), guid.as_slice()) {
                return Some(i);
            }
            i += 1;
        }
        None
    }

    /// An owned copy of a peer row, equal to it in the model.
    fn clone_peer(p: &Peer) -> (r: Peer)
        ensures
            r@ == p@,
    {
        let r = Peer {
            guid: slice_to_vec(p.guid.as_slice()),
            id: p.id.clone(),
            uuid: slice_to_vec(p.uuid.as_slice()),
            pk: slice_to_vec(p.pk.as_slice()),
            user: match &p.user {
                Some(u) => Some(slice_to_vec(u.as_slice())),
                None => None,
            },
            info: p.info.clone(),
            status: p.status,
        };
        assert(r@ =~= p@);
        r
    }

    /// The registration record for a peer id, if any.
    pub fn get_peer(&self, id: &str) -> (r: Option<Peer>)
        requires
            self.wf(),
        ensures
            match r {
                Some(p) => self@.has_peer_id(id@) && p@ == self@.peer_for(id@),
                None => !self@.has_peer_id(id@),
            },
    {
        let target = id.to_owned();
        match Self::find_peer_by_id(&self.peers, &target) {
            Some(i) => {
                proof {
                    assert(self@.peers[i as int] == self.peers@[i as int]@);
                    lemma_peer_id_index(self@, id@, i as int);
                }
                Some(Self::clone_peer(&self.peers[i]))
            },
            None => {
                assert(forall|j: int|
                    0 <= j < self@.peers.len() ==> self@.peers[j] == #[trigger] self.peers@[j]@);
                assert(!self@.has_peer_id(id@));
                None
            },
        }
    }

    /// Registers a peer under a fresh random guid.  Fails, changing
    /// nothing, iff the id is taken — or, vanishingly unlikely, the drawn
    /// guid collides with an existing row.
    pub fn insert_peer(&mut self, id: &str, uuid: &[u8], pk: &[u8], info: &str) -> (r: Result<
        Vec<u8>,
        PeerError,
    >)
        requires
            old(self).wf(),
        ensures
            final(self).wf(),
            match r {
                Ok(guid) => {
                    &&& guid@.len() == 16
                    &&& !old(self)@.has_peer_id(id@)
                    &&& !old(self)@.has_peer_guid(guid@)
                    &&& final(self)@ == (StoreModel {
                        peers: old(self)@.peers.push(
                            PeerModel {
                                guid: guid@,
                                id: id@,
                                uuid: uuid@,
                                pk: pk@,
                                user: None,
                                info: info@,
                                status: None,
                            },
                        ),
                        ..old(self)@
                    })
                },
                Err(PeerError::DuplicateId) => old(self)@.has_peer_id(id@) && final(self)@ == old(
                    self,
                )@,
                Err(PeerError::DuplicateGuid) => !old(self)@.has_peer_id(id@) && final(self)@
                    == old(self)@,
            },
    {
        let ghost om = self@;
        assert(forall|j: int|
            0 <= j < om.peers.len() ==> om.peers[j] == #[trigger] self.peers@[j]@);
        let target = id.to_owned();
        if let Some(i) = Self::find_peer_by_id(&self.peers, &target) {
            proof {
                lemma_peer_id_index(om, id@, i as int);
            }
            return Err(PeerError::DuplicateId);
        }
        assert(!om.has_peer_id(id@));

        let guid = new_guid();
        if let Some(g) = Self::find_peer_by_guid(&self.peers, &guid) {
            assert(om.has_peer_guid(guid@));
            return Err(PeerError::DuplicateGuid);
        }
        assert(!om.has_peer_guid(guid@));

        let row = Peer {
            guid: slice_to_vec(guid.as_slice()),
            id: target,
            uuid: slice_to_vec(uuid),
            pk: slice_to_vec(pk),
            user: None,
            info: info.to_owned(),
            status: None,
        };
        let ghost rowm = row@;
        self.peers.push(row);
        proof {
            assert(self@.peers =~= om.peers.push(rowm));
            assert(self@ =~= (StoreModel { peers: om.peers.push(rowm), ..om }));
            let m = self@;
            let len = om.peers.len() as int;
            assert forall|a: int, b: int| 0 <= a < b < m.peers.len() implies m.peers[a].id
                != m.peers[b].id by {
                if b < len {
                    assert(om.peers[a].id != om.peers[b].id);
                } else {
                    assert(m.peers[b] == rowm);
                    if om.peers[a].id == id@ {
                        assert(om.has_peer_id(id@));
                    }
                }
            }
            assert forall|a: int, b: int| 0 <= a < b < m.peers.len() implies m.peers[a].guid
                != m.peers[b].guid by {
                if b < len {
                    assert(om.peers[a].guid != om.peers[b].guid);
                } else {
                    assert(m.peers[b] == rowm);
                    if om.peers[a].guid == guid@ {
                        assert(om.has_peer_guid(guid@));
                    }
                }
            }
            assert(m.wf());
        }
        Ok(guid)
    }

    /// Repoints the row holding `guid` at a new id, key, and info.  A guid
    /// nobody holds is a silent no-op, as the underlying row update would
    /// be; renaming onto an id another row holds fails, changing nothing.
    pub fn update_pk(&mut self, guid: &Vec<u8>, id: &str, pk: &[u8], info: &str) -> (r: Result<
        (),
        PeerError,
    >)
        requires
            old(self).wf(),
        ensures
            final(self).wf(),
            !old(self)@.has_peer_guid(guid@) ==> r == Ok::<(), PeerError>(()) && final(self)@
                == old(self)@,
            old(self)@.has_peer_guid(guid@) ==> ({
                let i = old(self)@.peer_guid_index(guid@);
                if old(self)@.has_peer_id(id@) && old(self)@.peer_id_index(id@) != i {
                    r == Err::<(), PeerError>(PeerError::DuplicateId) && final(self)@ == old(
                        self,
                    )@
                } else {
                    r == Ok::<(), PeerError>(()) && final(self)@ == (StoreModel {
                        peers: old(self)@.peers.update(
                            i,
                            PeerModel { id: id@, pk: pk@, info: info@, ..old(self)@.peers[i] },
                        ),
                        ..old(self)@
                    })
                }
            }),
    {
        let ghost om = self@;
        assert(forall|j: int|
            0 <= j < om.peers.len() ==> om.peers[j] == #[trigger] self.peers@[j]@);
        let i = match Self::find_peer_by_guid(&self.peers, guid) {
            None => {
                assert(!om.has_peer_guid(guid@));
                return Ok(());
            },
            Some(i) => i,
        };
        proof {
            lemma_peer_guid_index(om, guid@, i as int);
        }

        let target = id.to_owned();
        match Self::find_peer_by_id(&self.peers, &target) {
            Some(j) => {
                proof {
                    lemma_peer_id_index(om, id@, j as int);
                }
                if j != i {
                    return Err(PeerError::DuplicateId);
                }
            },
            None => {
                assert(!om.has_peer_id(id@));
            },
        }
        assert(om.has_peer_id(id@) ==> om.peer_id_index(id@) == i as int);
        assert forall|l: int| 0 <= l < om.peers.len() && l != i as int implies om.peers[l].id
            != id@ by {
            if om.peers[l].id == id@ {
                lemma_peer_id_index(om, id@, l);
            }
        }

        let p = &self.peers[i];
        let row = Peer {
            guid: slice_to_vec(p.guid.as_slice()),
            id: target,
            uuid: slice_to_vec(p.uuid.as_slice()),
            pk: slice_to_vec(pk),
            user: match &p.user {
                Some(u) => Some(slice_to_vec(u.as_slice())),
                None => None,
            },
            info: info.to_owned(),
            status: p.status,
        };
        let ghost rowm = row@;
        assert(rowm == (PeerModel { id: id@, pk: pk@, info: info@, ..om.peers[i as int] }));
        self.peers[i] = row;
        proof {
            assert(self@.peers =~= om.peers.update(i as int, rowm));
            assert(self@ =~= (StoreModel { peers: om.peers.update(i as int, rowm), ..om }));
            let m = self@;
            assert forall|a: int, b: int| 0 <= a < b < m.peers.len() implies m.peers[a].id
                != m.peers[b].id by {
                if a != i as int && b != i as int {
                    assert(om.peers[a].id != om.peers[b].id);
                } else if a == i as int {
                    assert(m.peers[b] == om.peers[b]);
                } else {
                    assert(m.peers[a] == om.peers[a]);
                }
            }
            assert forall|a: int, b: int| 0 <= a < b < m.peers.len() implies m.peers[a].guid
                != m.peers[b].guid by {
                assert(om.peers[a].guid != om.peers[b].guid);
            }
            assert(m.wf());
        }
        Ok(())
    }

    /// How many licence records exist.
    pub fn count_keys(&self) -> (r: i64)
        requires
            self@.keys.len() <= i64::MAX,
        ensures
            r == self@.keys.len() as int,
    {
        let n = self.keys.len();
        n as i64
    }
}

} // verus!
