//! The external key cache: an in-memory snapshot of an operator-edited
//! key/expiry list.
//!
//! The snapshot is rebuilt in full from the source text and swapped in as
//! one step; a source that fails to parse leaves the previous snapshot
//! untouched, so a bad edit can never wipe a good cache.  Readers see either
//! the old snapshot or the new one, never a half-built map.  The file
//! reading and change watching that feed `load_keys` live with the caller;
//! the cache itself is a pure state machine over the text and the clock
//! reading it is handed.

use vstd::prelude::*;

verus! {

/// Errors of the cache-loading operations.
#[derive(Clone, Copy, Debug, PartialEq, Eq, Structural)]
pub enum CacheError {
    /// The source document does not parse; the previous snapshot is kept.
    SourceMalformed,
}

/// One externally provisioned key: an opaque token and the text of its
/// expiry instant.
#[derive(Debug, Clone)]
pub struct CustomKey {
    pub key: String,
    pub expiry: String,
}

impl View for CustomKey {
    type V = (Seq<char>, Seq<char>);

    open spec fn view(&self) -> (Seq<char>, Seq<char>) {
        (self.key@, self.expiry@)
    }
}

/// The whole external source: an ordered list of entries.
#[derive(Debug, Clone)]
pub struct CustomKeyConfig {
    pub keys: Vec<CustomKey>,
}

impl View for CustomKeyConfig {
    type V = Seq<(Seq<char>, Seq<char>)>;

    open spec fn view(&self) -> Seq<(Seq<char>, Seq<char>)> {
        self.keys@.map_values(|k: CustomKey| k@)
    }
}

impl Default for CustomKeyConfig {
    /// The illustrative single-entry source written on first run.
    fn default() -> (r: Self)
        ensures
            r@ =~= seq![("123"@, "2025-10-19"@)],
    {
        let r = CustomKeyConfig {
            keys: vec![CustomKey { key: "123".to_owned(), expiry: "2025-10-19".to_owned() }],
        };
        assert(r@ =~= seq![("123"@, "2025-10-19"@)]);
        r
    }
}

/// What parsing the source text yields: `None` on any structural failure,
/// else the ordered `(key, expiry)` pairs.  The exact JSON grammar is the
/// parser crate's; the same text always yields the same value.
pub uninterp spec fn parsed_config(s: Seq<char>) -> Option<Seq<(Seq<char>, Seq<char>)>>;

/// The instant an RFC 3339 text denotes, as Unix-epoch seconds, or `None`
/// where the text is not a valid timestamp.  Depends on the text alone.
pub uninterp spec fn rfc3339_epoch(s: Seq<char>) -> Option<int>;

/// Relies on serde_json::from_str: parses the whole document, then reads
/// the `keys` array and the `key` and `expiry` string fields of each
/// element, ignoring unknown fields; any structural mismatch fails the
/// whole parse and returns `None`.
#[verifier::external_body]
fn parse_config(content: &str) -> (r: Option<CustomKeyConfig>)
    ensures
        match r {
            Some(cfg) => parsed_config(content@) == Some(cfg@),
            None => parsed_config(content@) is None,
        },
{
    let v: serde_json::Value = serde_json::from_str(content).ok()?;
    let arr = v.get("keys")?.as_array()?;
    let mut keys: Vec<CustomKey> = Vec::new();
    for item in arr {
        let key = item.get("key")?.as_str()?;
        let expiry = item.get("expiry")?.as_str()?;
        keys.push(CustomKey { key: key.to_owned(), expiry: expiry.to_owned() });
    }
    Some(CustomKeyConfig { keys })
}

/// Relies on chrono::DateTime::parse_from_rfc3339 (converted to UTC, then
/// to epoch seconds): whether a text parses, and the instant it denotes,
/// depend on the text alone.
#[verifier::external_body]
fn parse_rfc3339_epoch(s: &str) -> (r: Option<i64>)
    ensures
        match r {
            Some(t) => rfc3339_epoch(s@) == Some(t as int),
            None => rfc3339_epoch(s@) is None,
        },
{
    match chrono::DateTime::parse_from_rfc3339(s) {
        Ok(d) => Some(d.with_timezone(&chrono::Utc).timestamp()),
        Err(_) => None,
    }
}

/// The snapshot a successful load builds from the parsed entries at time
/// `now`: entries are taken in order, a later entry for the same key
/// overwrites an earlier one, and an entry whose expiry fails to parse or
/// is not strictly in the future is dropped.
pub open spec fn load_map(entries: Seq<(Seq<char>, Seq<char>)>, now: int) -> Map<Seq<char>, int>
    decreases entries.len(),
{
    if entries.len() == 0 {
        Map::empty()
    } else {
        let m = load_map(entries.drop_last(), now);
        let e = entries.last();
        match rfc3339_epoch(e.1) {
            Some(t) => if t > now {
                m.insert(e.0, t)
            } else {
                m
            },
            None => m,
        }
    }
}

/// The snapshot a list of stored entries denotes.
pub open spec fn snapshot_map(s: Seq<(String, i64)>) -> Map<Seq<char>, int>
    decreases s.len(),
{
    if s.len() == 0 {
        Map::empty()
    } else {
        snapshot_map(s.drop_last()).insert(s.last().0@, s.last().1 as int)
    }
}

/// Stored entries carry pairwise distinct keys.
pub open spec fn wf_entries(s: Seq<(String, i64)>) -> bool {
    forall|i: int, j: int| 0 <= i < j < s.len() ==> s[i].0@ != s[j].0@
}

/// Each stored entry is in the snapshot under its key, with its expiry.
proof fn lemma_snapshot_lookup(s: Seq<(String, i64)>, i: int)
    requires
        wf_entries(s),
        0 <= i < s.len(),
    ensures
        snapshot_map(s).dom().contains(s[i].0@),
        snapshot_map(s)[s[i].0@] == s[i].1 as int,
    decreases s.len(),
{
    if i < s.len() - 1 {
        assert(wf_entries(s.drop_last()));
        lemma_snapshot_lookup(s.drop_last(), i);
        assert(s[s.len() - 1].0@ != s[i].0@);
    }
}

/// A key no stored entry carries is not in the snapshot.
proof fn lemma_snapshot_absent(s: Seq<(String, i64)>, k: Seq<char>)
    requires
        forall|i: int| 0 <= i < s.len() ==> s[i].0@ != k,
    ensures
        !snapshot_map(s).dom().contains(k),
    decreases s.len(),
{
    if s.len() > 0 {
        lemma_snapshot_absent(s.drop_last(), k);
    }
}

/// With distinct keys, the snapshot holds exactly one pair per entry.
proof fn lemma_snapshot_dom_size(s: Seq<(String, i64)>)
    requires
        wf_entries(s),
    ensures
        snapshot_map(s).dom().finite(),
        snapshot_map(s).dom().len() == s.len(),
    decreases s.len(),
{
    if s.len() > 0 {
        assert(wf_entries(s.drop_last()));
        lemma_snapshot_dom_size(s.drop_last());
        lemma_snapshot_absent(s.drop_last(), s.last().0@);
    }
}

/// Overwriting the one entry that carries a key is, on the snapshot, a map
/// insert for that key.
proof fn lemma_snapshot_update(s: Seq<(String, i64)>, i: int, v: (String, i64))
    requires
        wf_entries(s),
        0 <= i < s.len(),
        v.0@ == s[i].0@,
    ensures
        wf_entries(s.update(i, v)),
        snapshot_map(s.update(i, v)) == snapshot_map(s).insert(v.0@, v.1 as int),
    decreases s.len(),
{
    let s2 = s.update(i, v);
    assert forall|a: int, b: int| 0 <= a < b < s2.len() implies s2[a].0@ != s2[b].0@ by {
        assert(s[a].0@ != s[b].0@);
    }
    if i == s.len() - 1 {
        assert(s2.drop_last() =~= s.drop_last());
        assert(s2.last() == v);
        assert(snapshot_map(s2) == snapshot_map(s.drop_last()).insert(v.0@, v.1 as int));
        assert(snapshot_map(s.drop_last()).insert(s.last().0@, s.last().1 as int).insert(
            v.0@,
            v.1 as int,
        ) =~= snapshot_map(s.drop_last()).insert(v.0@, v.1 as int));
    } else {
        assert(wf_entries(s.drop_last()));
        assert(s2.drop_last() =~= s.drop_last().update(i, v));
        lemma_snapshot_update(s.drop_last(), i, v);
        assert(s2.last() == s.last());
        assert(s.last().0@ != v.0@);
        assert(snapshot_map(s.drop_last()).insert(v.0@, v.1 as int).insert(
            s.last().0@,
            s.last().1 as int,
        ) =~= snapshot_map(s.drop_last()).insert(s.last().0@, s.last().1 as int).insert(
            v.0@,
            v.1 as int,
        ));
    }
}

/// The snapshot restricted to the entries still alive at `now`.
pub open spec fn expired_filter(m: Map<Seq<char>, int>, now: int) -> Map<Seq<char>, int> {
    Map::new(|k: Seq<char>| m.dom().contains(k) && m[k] > now, |k: Seq<char>| m[k])
}

/// The external key cache.  Its model is the map from each cached key to
/// its expiry instant.
pub struct CustomKeyManager {
    entries: Vec<(String, i64)>,
}

impl View for CustomKeyManager {
    type V = Map<Seq<char>, int>;

    closed spec fn view(&self) -> Map<Seq<char>, int> {
        snapshot_map(self.entries@)
    }
}

impl CustomKeyManager {
    pub closed spec fn wf(self) -> bool {
        wf_entries(self.entries@)
    }

    /// An empty cache; a first load fills it.
    pub fn new() -> (r: CustomKeyManager)
        ensures
            r.wf(),
            r@ == Map::<Seq<char>, int>::empty(),
    {
        let r = CustomKeyManager { entries: Vec::new() };
        proof {
            assert(r.entries@ =~= Seq::<(String, i64)>::empty());
        }
        r
    }

    /// Inserts or overwrites one entry, keeping keys distinct.
    fn upsert(entries: &mut Vec<(String, i64)>, key: String, t: i64)
        requires
            wf_entries(old(entries)@),
        ensures
            wf_entries(final(entries)@),
            snapshot_map(final(entries)@) == snapshot_map(old(entries)@).insert(key@, t as int),
    {
        let ghost s0 = entries@;
        let n = entries.len();
        let mut i: usize = 0;
        while i < n
            invariant
                n == entries.len(),
                i <= n,
                entries@ == s0,
                s0 == old(entries)@,
                wf_entries(s0),
                forall|j: int| 0 <= j < i ==> s0[j].0@ != key@,
            decreases n - i,
        {
            if entries[i].0 == key {
                entries[i] = (key, t);
                proof {
                    lemma_snapshot_update(s0, i as int, entries@[i as int]);
                }
                return ;
            }
            i += 1;
        }
        entries.push((key, t));
        proof {
            assert(entries@.drop_last() =~= s0);
            assert(entries@.last() == entries@[s0.len() as int]);
        }
    }

    /// Rebuilds the snapshot in full from the source text, using `now` for
    /// the load-time expiry check, and swaps it in as one step.  If the
    /// text fails to parse, the call fails and the previous snapshot is
    /// left exactly as it was: a malformed source never wipes a good cache.
    pub fn load_keys(&mut self, content: &str, now: i64) -> (r: Result<(), CacheError>)
        requires
            old(self).wf(),
        ensures
            final(self).wf(),
            match parsed_config(content@) {
                Some(es) => r == Ok::<(), CacheError>(()) && final(self)@ == load_map(
                    es,
                    now as int,
                ),
                None => r == Err::<(), CacheError>(CacheError::SourceMalformed) && final(self)@
                    == old(self)@ && *final(self) == *old(self),
            },
    {
        let cfg = match parse_config(content) {
            None => {
                return Err(CacheError::SourceMalformed);
            },
            Some(cfg) => cfg,
        };
        let ghost es = cfg@;
        let mut fresh: Vec<(String, i64)> = Vec::new();
        assert(fresh@ =~= Seq::<(String, i64)>::empty());
        assert(es.subrange(0, 0) =~= Seq::<(Seq<char>, Seq<char>)>::empty());
        let n = cfg.keys.len();
        let mut i: usize = 0;
        while i < n
            invariant
                n == cfg.keys.len(),
                i <= n,
                es == cfg@,
                wf_entries(fresh@),
                snapshot_map(fresh@) == load_map(es.subrange(0, i as int), now as int),
            decreases n - i,
        {
            let ghost pre = es.subrange(0, i as int);
            proof {
                assert(es[i as int] == cfg.keys@[i as int]@);
                assert(es.subrange(0, i + 1) =~= pre.push(es[i as int]));
                assert(es.subrange(0, i + 1).drop_last() =~= pre);
            }
            let entry = &cfg.keys[i];
            match parse_rfc3339_epoch(entry.expiry.as_str()) {
                Some(t) => {
                    if t > now {
                        Self::upsert(&mut fresh, entry.key.clone(), t);
                    }
                },
                None => {},
            }
            i += 1;
        }
        assert(es.subrange(0, n as int) =~= es);
        self.entries = fresh;
        Ok(())
    }

    /// True iff `key` is in the snapshot and its stored expiry is strictly
    /// after `now` (rechecked at read time to bound staleness between
    /// reloads).
    pub fn is_valid_key(&self, key: &str, now: i64) -> (r: bool)
        requires
            self.wf(),
        ensures
            r == (self@.dom().contains(key@) && self@[key@] > now as int),
    {
        let k = key.to_owned();
        let n = self.entries.len();
        let mut i: usize = 0;
        while i < n
            invariant
                n == self.entries.len(),
                i <= n,
                self.wf(),
                k@ == key@,
                forall|j: int| 0 <= j < i ==> self.entries@[j].0@ != key@,
            decreases n - i,
        {
            if self.entries[i].0 == k {
                proof {
                    lemma_snapshot_lookup(self.entries@, i as int);
                }
                return self.entries[i].1 > now;
            }
            i += 1;
        }
        proof {
            lemma_snapshot_absent(self.entries@, key@);
        }
        false
    }

    /// Every cached key, each exactly once, expired or not.
    pub fn get_all_keys(&self) -> (r: Vec<String>)
        requires
            self.wf(),
        ensures
            r.deep_view().no_duplicates(),
            r.deep_view().to_set() == self@.dom(),
            r@.len() == self@.dom().len(),
    {
        let n = self.entries.len();
        let mut out: Vec<String> = Vec::new();
        let mut i: usize = 0;
        while i < n
            invariant
                n == self.entries.len(),
                i <= n,
                self.wf(),
                out@.len() == i,
                forall|j: int| 0 <= j < i ==> out@[j]@ == self.entries@[j].0@,
            decreases n - i,
        {
            out.push(self.entries[i].0.clone());
            i += 1;
        }
        proof {
            let dv = out.deep_view();
            assert(dv.len() == n);
            assert(forall|j: int| 0 <= j < n ==> dv[j] == out@[j]@);
            assert forall|a: int, b: int| 0 <= a < b < dv.len() implies dv[a] != dv[b] by {
                assert(self.entries@[a].0@ != self.entries@[b].0@);
            }
            assert(dv.no_duplicates());
            assert forall|k: Seq<char>| dv.to_set().contains(k) implies self@.dom().contains(
                k,
            ) by {
                let j = choose|j: int| 0 <= j < dv.len() && dv[j] == k;
                lemma_snapshot_lookup(self.entries@, j);
            }
            assert forall|k: Seq<char>| self@.dom().contains(k) implies dv.to_set().contains(
                k,
            ) by {
                if forall|j: int| 0 <= j < n ==> self.entries@[j].0@ != k {
                    lemma_snapshot_absent(self.entries@, k);
                }
                let j = choose|j: int| 0 <= j < n && self.entries@[j].0@ == k;
                assert(dv[j] == k);
            }
            assert(dv.to_set() =~= self@.dom());
            lemma_snapshot_dom_size(self.entries@);
        }
        out
    }

    /// Drops the entries whose expiry is at or before `now` from the
    /// current snapshot, without waiting for the next reload.
    pub fn cleanup_expired_keys(&mut self, now: i64)
        requires
            old(self).wf(),
        ensures
            final(self).wf(),
            final(self)@ == expired_filter(old(self)@, now as int),
    {
        let ghost s0 = self.entries@;
        let n = self.entries.len();
        let mut kept: Vec<(String, i64)> = Vec::new();
        assert(kept@ =~= Seq::<(String, i64)>::empty());
        assert(s0.subrange(0, 0) =~= Seq::<(String, i64)>::empty());
        assert(snapshot_map(kept@) =~= expired_filter(
            snapshot_map(s0.subrange(0, 0)),
            now as int,
        ));
        let mut i: usize = 0;
        while i < n
            invariant
                n == self.entries.len(),
                i <= n,
                self.entries@ == s0,
                wf_entries(s0),
                wf_entries(kept@),
                forall|j: int, l: int|
                    0 <= j < kept@.len() && 0 <= l < i ==> (#[trigger] kept@[j].0@
                        == #[trigger] s0[l].0@ ==> exists|x: int|
                        0 <= x < i && s0[x].0@ == kept@[j].0@),
                forall|j: int|
                    0 <= j < kept@.len() ==> exists|x: int|
                        0 <= x < i && #[trigger] kept@[j].0@ == s0[x].0@,
                snapshot_map(kept@) == expired_filter(
                    snapshot_map(s0.subrange(0, i as int)),
                    now as int,
                ),
            decreases n - i,
        {
            let ghost pre = s0.subrange(0, i as int);
            proof {
                assert(s0.subrange(0, i + 1) =~= pre.push(s0[i as int]));
                assert(s0.subrange(0, i + 1).drop_last() =~= pre);
                assert(forall|j: int| 0 <= j < i ==> pre[j] == s0[j]);
                assert forall|j: int| 0 <= j < i implies s0[j].0@ != s0[i as int].0@ by {}
                lemma_snapshot_absent(pre, s0[i as int].0@);
            }
            let e = &self.entries[i];
            if e.1 > now {
                let ghost kpre = kept@;
                kept.push((e.0.clone(), e.1));
                proof {
                    assert(kept@.drop_last() =~= kpre);
                    assert(kept@.last().0@ == s0[i as int].0@ && kept@.last().1 == s0[i as int].1);
                    assert forall|j: int| 0 <= j < kpre.len() implies kpre[j].0@ != s0[i as int].0@
                    by {
                        let x = choose|x: int| 0 <= x < i && kpre[j].0@ == s0[x].0@;
                        assert(s0[x].0@ != s0[i as int].0@);
                    }
                    assert(wf_entries(kept@));
                    assert(snapshot_map(kept@) =~= expired_filter(
                        snapshot_map(s0.subrange(0, i + 1)),
                        now as int,
                    ));
                }
            } else {
                proof {
                    assert(snapshot_map(kept@) =~= expired_filter(
                        snapshot_map(s0.subrange(0, i + 1)),
                        now as int,
                    ));
                }
            }
            i += 1;
        }
        assert(s0.subrange(0, n as int) =~= s0);
        self.entries = kept;
    }
}

} // verus!
