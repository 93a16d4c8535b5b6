//! The decisions behind the administrative surface: key-format checks,
//! duration options, and the create/extend/list operations the admin
//! endpoints delegate to.  The HTTP layer around them holds no licensing
//! logic of its own.

use vstd::prelude::*;

verus! {

use vstd::string::StrSliceExecFns;
use crate::database::Database;
use crate::database::LicenceError;
use crate::database::LicenceKey;
use crate::database::LicenceKeyModel;
use crate::database::StoreModel;
use crate::database::clamp_bind;
use crate::database::insert_pos;
use crate::database::new_record;
use crate::database::page_hi;
use crate::database::page_lo;
use crate::database::record_update;
use crate::database::sat_add_i64;

/// Why a key could not be created.
#[derive(Clone, Copy, Debug, PartialEq, Eq, Structural)]
pub enum CreateKeyError {
    /// The supplied key is empty (or whitespace only).
    EmptyKey,
    /// The supplied key is not 32 hex digits.
    InvalidFormat,
    /// The key (supplied or generated) is already issued.
    DuplicateKey,
}

// ---------------------------------------------------------------------
// Key format
// ---------------------------------------------------------------------
/// A hexadecimal digit, either case.
pub open spec fn is_hex_char(c: char) -> bool {
    ('0' <= c && c <= '9') || ('a' <= c && c <= 'f') || ('A' <= c && c <= 'F')
}

/// The shape every issued key must have: 32 hex digits, nothing else.
pub open spec fn valid_key_format(s: Seq<char>) -> bool {
    s.len() == 32 && forall|i: int| 0 <= i < s.len() ==> is_hex_char(#[trigger] s[i])
}

/// True iff `s` is exactly 32 hexadecimal digits.
pub fn is_valid_key_format(s: &str) -> (r: bool)
    ensures
        r == valid_key_format(s@),
{
    let n = s.unicode_len();
    if n != 32 {
        return false;
    }
    let mut i: usize = 0;
    while i < 32
        invariant
            n == 32,
            s@.len() == 32,
            i <= 32,
            forall|j: int| 0 <= j < i ==> is_hex_char(#[trigger] s@[j]),
        decreases 32 - i,
    {
        let c = s.get_char(i);
        if !(('0' <= c && c <= '9') || ('a' <= c && c <= 'f') || ('A' <= c && c <= 'F')) {
            return false;
        }
        i += 1;
    }
    true
}

/// A lower-case hexadecimal digit.
pub open spec fn is_lower_hex(c: char) -> bool {
    ('0' <= c && c <= '9') || ('a' <= c && c <= 'f')
}

/// Relies on uuid::Uuid::new_v4 printed in the simple (hyphen-less)
/// format: a fresh random identifier of exactly 32 lower-case hex digits.
#[verifier::external_body]
fn generate_default_key() -> (r: String)
    ensures
        r@.len() == 32,
        forall|i: int| 0 <= i < 32 ==> is_lower_hex(#[trigger] r@[i]),
{
    uuid::Uuid::new_v4().simple().to_string()
}

// ---------------------------------------------------------------------
// Decimal parsing
// ---------------------------------------------------------------------
/// An ASCII decimal digit.
pub open spec fn is_digit(c: char) -> bool {
    '0' <= c && c <= '9'
}

pub open spec fn all_digits(s: Seq<char>) -> bool {
    forall|i: int| 0 <= i < s.len() ==> is_digit(#[trigger] s[i])
}

/// The value a sequence of decimal digits denotes.
pub open spec fn digits_val(s: Seq<char>) -> int
    decreases s.len(),
{
    if s.len() == 0 {
        0
    } else {
        digits_val(s.drop_last()) * 10 + (s.last() as int - '0' as int)
    }
}

/// The signed value of a digit part, or `None` where the part is empty,
/// holds a non-digit, or falls outside the i64 range.
pub open spec fn digits_opt(d: Seq<char>, sign: int) -> Option<int> {
    if d.len() == 0 || !all_digits(d) {
        None
    } else {
        let v = sign * digits_val(d);
        if v < i64::MIN as int || v > i64::MAX as int {
            None
        } else {
            Some(v)
        }
    }
}

/// Exactly the texts the standard decimal parser accepts for i64: an
/// optional sign, then one or more ASCII digits, within range.
pub open spec fn spec_parse_i64(s: Seq<char>) -> Option<int> {
    if s.len() > 0 && s[0] == '+' {
        digits_opt(s.drop_first(), 1)
    } else if s.len() > 0 && s[0] == '-' {
        digits_opt(s.drop_first(), -1)
    } else {
        digits_opt(s, 1)
    }
}

proof fn lemma_digits_val_nonneg(s: Seq<char>)
    requires
        all_digits(s),
    ensures
        digits_val(s) >= 0,
    decreases s.len(),
{
    if s.len() > 0 {
        assert(all_digits(s.drop_last()));
        lemma_digits_val_nonneg(s.drop_last());
        assert(is_digit(s.last()));
    }
}

/// Appending digits never shrinks the value.
proof fn lemma_digits_val_prefix_le(s: Seq<char>, m: int)
    requires
        all_digits(s),
        0 <= m <= s.len(),
    ensures
        digits_val(s.subrange(0, m)) <= digits_val(s),
    decreases s.len(),
{
    if m < s.len() {
        assert(all_digits(s.drop_last()));
        assert(s.subrange(0, m) =~= s.drop_last().subrange(0, m));
        lemma_digits_val_prefix_le(s.drop_last(), m);
        lemma_digits_val_nonneg(s.drop_last());
        assert(is_digit(s.last()));
    } else {
        assert(s.subrange(0, m) =~= s);
    }
}

/// Parses an optionally signed decimal integer exactly as the standard
/// library does: `None` on an empty digit part, any non-digit, or a value
/// outside the i64 range.
pub fn parse_i64(s: &str) -> (r: Option<i64>)
    ensures
        match r {
            Some(v) => spec_parse_i64(s@) == Some(v as int),
            None => spec_parse_i64(s@) is None,
        },
{
    let n = s.unicode_len();
    if n == 0 {
        return None;
    }
    let first = s.get_char(0);
    let neg = first == '-';
    let start: usize = if first == '-' || first == '+' {
        1
    } else {
        0
    };
    let ghost digits = s@.subrange(start as int, n as int);
    proof {
        if start == 1 {
            assert(s@.drop_first() =~= digits);
        } else {
            assert(s@ =~= digits);
        }
    }
    if start == n {
        return None;
    }
    let limit_div: u64 = 922337203685477580;
    let limit_mod: u64 = if neg {
        8
    } else {
        7
    };
    let ghost limit: int = if neg {
        0x8000000000000000int
    } else {
        0x7fffffffffffffffint
    };
    let mut acc: u64 = 0;
    let mut i: usize = start;
    while i < n
        invariant
            s@.len() == n,
            start <= i <= n,
            start <= 1,
            n > start,
            digits == s@.subrange(start as int, n as int),
            neg ==> (start == 1 && s@[0] == '-'),
            !neg && start == 1 ==> s@[0] == '+',
            !neg && start == 0 ==> !(s@[0] == '+' || s@[0] == '-'),
            all_digits(digits.subrange(0, i - start)),
            acc as int == digits_val(digits.subrange(0, i - start)),
            acc as int <= limit,
            limit == if neg {
                0x8000000000000000int
            } else {
                0x7fffffffffffffffint
            },
            limit_mod == if neg {
                8u64
            } else {
                7u64
            },
            limit_div == 922337203685477580u64,
        decreases n - i,
    {
        let c = s.get_char(i);
        let ghost pre = digits.subrange(0, i - start);
        proof {
            assert(digits[i - start] == s@[i as int]);
            assert(digits.subrange(0, i - start + 1) =~= pre.push(s@[i as int]));
            assert(digits.subrange(0, i - start + 1).drop_last() =~= pre);
        }
        if !('0' <= c && c <= '9') {
            proof {
                assert(!is_digit(digits[i - start]));
                assert(!all_digits(digits));
                if start == 1 {
                    assert(s@.drop_first() =~= digits);
                } else {
                    assert(s@ =~= digits);
                }
            }
            return None;
        }
        let d: u64 = (c as u32 - 48) as u64;
        assert(d as int == c as int - '0' as int);
        if acc > limit_div || (acc == limit_div && d > limit_mod) {
            proof {
                assert(digits_val(digits.subrange(0, i - start + 1)) == acc as int * 10
                    + d as int);
                assert(acc as int * 10 + d as int > limit);
                if all_digits(digits) {
                    lemma_digits_val_prefix_le(digits, i - start + 1);
                    assert(digits_val(digits) > limit);
                }
                if start == 1 {
                    assert(s@.drop_first() =~= digits);
                } else {
                    assert(s@ =~= digits);
                }
            }
            return None;
        }
        acc = acc * 10 + d;
        i += 1;
    }
    proof {
        assert(digits.subrange(0, n - start) =~= digits);
    }
    if neg {
        proof {
            assert(s@.drop_first() =~= digits);
        }
        if acc == 9223372036854775808u64 {
            Some(i64::MIN)
        } else {
            Some(-(acc as i64))
        }
    } else {
        proof {
            if start == 1 {
                assert(s@.drop_first() =~= digits);
            } else {
                assert(s@ =~= digits);
            }
        }
        Some(acc as i64)
    }
}

// ---------------------------------------------------------------------
// Duration options
// ---------------------------------------------------------------------
/// The text with leading and trailing whitespace removed, as the standard
/// trim leaves it.  Depends on the text alone.
pub uninterp spec fn trim_of(s: Seq<char>) -> Seq<char>;

/// The Unicode lower-casing the standard library applies.  Depends on the
/// text alone.
pub uninterp spec fn lower_of(s: Seq<char>) -> Seq<char>;

/// Relies on str::trim: strips leading and trailing whitespace, never
/// growing the text.
#[verifier::external_body]
fn str_trim(s: &str) -> (r: String)
    ensures
        r@ == trim_of(s@),
        r@.len() <= s@.len(),
{
    s.trim().to_owned()
}

/// Relies on str::to_lowercase: Unicode lower-casing; the result is empty
/// exactly on empty input.
#[verifier::external_body]
fn str_lowercase(s: &str) -> (r: String)
    ensures
        r@ == lower_of(s@),
        (s@.len() == 0) <==> (r@.len() == 0),
{
    s.to_lowercase()
}

/// String equality, decided through owned buffers.
fn str_eq(a: &str, b: &str) -> (r: bool)
    ensures
        r == (a@ == b@),
{
    let x = a.to_owned();
    let y = b.to_owned();
    x == y
}

/// Seconds per unit letter: day, week, month (30 days), year (365 days);
/// anything else counts zero.
pub open spec fn unit_factor(c: char) -> int {
    if c == 'd' {
        86400
    } else if c == 'w' {
        604800
    } else if c == 'm' {
        2592000
    } else if c == 'y' {
        31536000
    } else {
        0
    }
}

/// What a duration option denotes once trimmed and lower-cased: the
/// permanent words give `None`; otherwise the last character is the unit
/// and the front is the count (a missing, failed, or negative parse counts
/// as zero), the product saturating at the i64 maximum.
pub open spec fn spec_ttl(s: Seq<char>) -> Option<int> {
    if s == "permanent"@ || s == "永久"@ || s == "forever"@ {
        None
    } else if s.len() == 0 {
        Some(0)
    } else {
        let num = s.subrange(0, s.len() - 1);
        let n = match spec_parse_i64(num) {
            Some(v) => if v >= 0 {
                v
            } else {
                0
            },
            None => 0,
        };
        let f = unit_factor(s[s.len() - 1]);
        Some(
            if f * n > i64::MAX as int {
                i64::MAX as int
            } else {
                f * n
            },
        )
    }
}

/// Seconds for a duration option such as `10d`, `2w`, `3m`, `1y`, or
/// `None` for the permanent words: exactly [`spec_ttl`] of the trimmed,
/// lower-cased option text.
pub fn ttl_seconds_for_option(option: &str) -> (r: Option<i64>)
    ensures
        match r {
            Some(v) => spec_ttl(lower_of(trim_of(option@))) == Some(v as int),
            None => spec_ttl(lower_of(trim_of(option@))) is None,
        },
{
    let trimmed = str_trim(option);
    let opt = str_lowercase(trimmed.as_str());
    let ghost sv = opt@;
    if str_eq(opt.as_str(), "permanent") || str_eq(opt.as_str(), "永久") || str_eq(
        opt.as_str(),
        "forever",
    ) {
        return None;
    }
    let n_chars = opt.as_str().unicode_len();
    if n_chars == 0 {
        return Some(0);
    }
    let num_part = opt.as_str().substring_char(0, n_chars - 1);
    let unit = opt.as_str().get_char(n_chars - 1);
    let n_parsed: i64 = match parse_i64(num_part) {
        Some(v) => if v >= 0 {
            v
        } else {
            0
        },
        None => 0,
    };
    let factor: i64 = if unit == 'd' {
        86400
    } else if unit == 'w' {
        604800
    } else if unit == 'm' {
        2592000
    } else if unit == 'y' {
        31536000
    } else {
        0
    };
    assert(factor as int == unit_factor(sv[sv.len() - 1]));
    let secs = match factor.checked_mul(n_parsed) {
        Some(v) => v,
        None => i64::MAX,
    };
    Some(secs)
}

// ---------------------------------------------------------------------
// Creation, extension, listing
// ---------------------------------------------------------------------
/// Subtraction on epoch seconds, saturating at the bounds of the storage
/// type.
pub open spec fn sat_sub_i64(a: int, b: int) -> int {
    if a - b > i64::MAX {
        i64::MAX as int
    } else if a - b < i64::MIN {
        i64::MIN as int
    } else {
        a - b
    }
}

/// Half the i64 range: the expiry that stands for "permanent".
pub open spec fn permanent_expiry() -> int {
    i64::MAX as int / 2
}

/// The expiry a creation request denotes at time `now`: the duration
/// option added to `now` (saturating), the permanent words meaning
/// [`permanent_expiry`], and thirty days when no option is given.
pub open spec fn spec_expiry(duration: Option<Seq<char>>, now: int) -> int {
    match duration {
        Some(d) => match spec_ttl(lower_of(trim_of(d))) {
            Some(sec) => sat_add_i64(now, sec),
            None => permanent_expiry(),
        },
        None => sat_add_i64(now, 2592000),
    }
}

/// Creates a licence key from an admin request: the supplied key — or a
/// freshly generated one — must be 32 hex digits and unused; the expiry
/// comes from the duration option; the quota is clamped into `[1, 1000]`
/// and defaults to 3.  The record is active and registered at `now`.
pub fn create_key(
    db: &mut Database,
    key: Option<String>,
    duration: Option<&str>,
    note: Option<&str>,
    max_bind_ids: Option<i32>,
    now: i64,
) -> (r: Result<String, CreateKeyError>)
    requires
        old(db).wf(),
    ensures
        final(db).wf(),
        match r {
            Ok(kk) => {
                &&& valid_key_format(kk@)
                &&& !old(db)@.has_key(kk@)
                &&& (match key {
                    Some(k0) => kk@ == k0@,
                    None => true,
                })
                &&& final(db)@ == (StoreModel {
                    keys: old(db)@.keys.insert(
                        insert_pos(old(db)@.keys, now as int),
                        new_record(
                            kk@,
                            now as int,
                            spec_expiry(duration.deep_view(), now as int),
                            true,
                            note.deep_view(),
                            clamp_bind(
                                match max_bind_ids {
                                    Some(v) => v as int,
                                    None => 3,
                                },
                            ),
                        ),
                    ),
                    ..old(db)@
                })
            },
            Err(e) => {
                &&& final(db)@ == old(db)@
                &&& match key {
                    Some(k0) => {
                        &&& (e == CreateKeyError::EmptyKey <==> trim_of(k0@).len() == 0)
                        &&& (e == CreateKeyError::InvalidFormat <==> (trim_of(k0@).len() != 0
                            && !valid_key_format(k0@)))
                        &&& (e == CreateKeyError::DuplicateKey <==> (trim_of(k0@).len() != 0
                            && valid_key_format(k0@) && old(db)@.has_key(k0@)))
                    },
                    None => e == CreateKeyError::DuplicateKey,
                }
            },
        },
{
    let k: String = match key {
        Some(k0) => {
            let t = str_trim(k0.as_str());
            if t.as_str().is_empty() {
                return Err(CreateKeyError::EmptyKey);
            }
            if !is_valid_key_format(k0.as_str()) {
                return Err(CreateKeyError::InvalidFormat);
            }
            k0
        },
        None => {
            let g = generate_default_key();
            assert(valid_key_format(g@));
            g
        },
    };
    if db.key_exists(k.as_str()) {
        return Err(CreateKeyError::DuplicateKey);
    }
    let expired_at: i64 = match duration {
        Some(d) => match ttl_seconds_for_option(d) {
            Some(sec) => match now.checked_add(sec) {
                Some(v) => v,
                None => if sec > 0 {
                    i64::MAX
                } else {
                    i64::MIN
                },
            },
            None => i64::MAX / 2,
        },
        None => match now.checked_add(2592000) {
            Some(v) => v,
            None => i64::MAX,
        },
    };
    let maxb: i32 = match max_bind_ids {
        Some(v) => v,
        None => 3,
    };
    let maxc: i32 = if maxb < 1 {
        1
    } else if maxb > 1000 {
        1000
    } else {
        maxb
    };
    match db.insert_key(k.as_str(), expired_at, true, note, maxc, now) {
        Ok(()) => Ok(k),
        Err(_) => {
            proof {
                assert(false);
            }
            Err(CreateKeyError::DuplicateKey)
        },
    }
}

/// Extends a key by a duration option; the permanent words set the expiry
/// near [`permanent_expiry`] by adding what is missing from `now`.  Fails
/// with `NotFound`, changing nothing, iff the key is not issued.
pub fn extend_key(db: &mut Database, key: &str, option: &str, now: i64) -> (r: Result<
    (),
    LicenceError,
>)
    requires
        old(db).wf(),
    ensures
        final(db).wf(),
        !old(db)@.has_key(key@) ==> r == Err::<(), LicenceError>(LicenceError::NotFound)
            && final(db)@ == old(db)@,
        old(db)@.has_key(key@) ==> r == Ok::<(), LicenceError>(()) && final(db)@ == record_update(
            old(db)@,
            key@,
            LicenceKeyModel {
                expired_at: sat_add_i64(
                    old(db)@.record(key@).expired_at,
                    match spec_ttl(lower_of(trim_of(option@))) {
                        Some(sec) => sec,
                        None => sat_sub_i64(permanent_expiry(), now as int),
                    },
                ),
                ..old(db)@.record(key@)
            },
        ),
{
    match ttl_seconds_for_option(option) {
        Some(sec) => db.extend_key_by(key, sec),
        None => {
            let delta: i64 = match (i64::MAX / 2).checked_sub(now) {
                Some(v) => v,
                None => i64::MAX,
            };
            db.extend_key_by(key, delta)
        },
    }
}

/// One page of the admin listing.  A search key (non-blank after trimming)
/// returns just that record and how many matched; otherwise the page at
/// `offset` (default 0) of at most `limit` records (default 20, clamped
/// into `[1, 100]`), with the total count.
pub fn list_keys(
    db: &Database,
    offset: Option<i64>,
    limit: Option<i64>,
    key: Option<&str>,
) -> (r: (i64, Vec<LicenceKey>))
    requires
        db.wf(),
        db@.keys.len() <= i64::MAX,
    ensures
        ({
            let searched = match key {
                Some(k0) => trim_of(k0@).len() != 0,
                None => false,
            };
            if searched {
                let k0v = trim_of(key.unwrap()@);
                if db@.has_key(k0v) {
                    r.0 == 1 && r.1@.map_values(|x: LicenceKey| x@) == seq![db@.record(k0v)]
                } else {
                    r.0 == 0 && r.1@.map_values(|x: LicenceKey| x@) == Seq::<
                        LicenceKeyModel,
                    >::empty()
                }
            } else {
                let off = match offset {
                    Some(v) => v as int,
                    None => 0,
                };
                let lim = clamp_limit(
                    match limit {
                        Some(v) => v as int,
                        None => 20,
                    },
                );
                r.0 == db@.keys.len() && r.1@.map_values(|x: LicenceKey| x@) == db@.keys.subrange(
                    page_lo(off, db@.keys.len() as int),
                    page_hi(off, lim, db@.keys.len() as int),
                )
            }
        }),
{
    if let Some(k0) = key {
        let t = str_trim(k0);
        if !t.as_str().is_empty() {
            let mut items: Vec<LicenceKey> = Vec::new();
            assert(items@.map_values(|x: LicenceKey| x@) =~= Seq::<LicenceKeyModel>::empty());
            match db.get_key(t.as_str()) {
                Some(rec) => {
                    let ghost rm = rec@;
                    items.push(rec);
                    assert(items@.map_values(|x: LicenceKey| x@) =~= seq![rm]);
                    return (1, items);
                },
                None => {
                    return (0, items);
                },
            }
        }
    }
    let off = match offset {
        Some(v) => v,
        None => 0,
    };
    let lim0 = match limit {
        Some(v) => v,
        None => 20,
    };
    let lim = if lim0 < 1 {
        1
    } else if lim0 > 100 {
        100
    } else {
        lim0
    };
    let total = db.count_keys();
    let items = db.list_keys(off, lim);
    (total, items)
}

/// An admin page size, clamped into `[1, 100]`.
pub open spec fn clamp_limit(n: int) -> int {
    if n < 1 {
        1
    } else if n > 100 {
        100
    } else {
        n
    }
}

} // verus!
