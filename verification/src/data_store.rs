//! The keyspace: a mapping from byte-string keys to typed values, each
//! entry optionally carrying an absolute expiry instant in milliseconds.
//!
//! The store is modelled as a `Map` from key bytes to an entry model; every
//! operation's contract says exactly how it transforms that map and what it
//! returns. Time enters as a plain millisecond count so the logic itself is
//! independent of any clock; reading the clock is the one trusted step.

use vstd::prelude::*;

use crate::cmd::{err_model, ErrorModel, ParseError};
use crate::numbers::{fmt_i64, parse_i64, spec_fmt_int, spec_parse_i64};
use crate::text::{bytes_seq, clone_bytes, clone_list, lit_bytes};

verus! {

/// A value held by the keyspace: a byte string, or a list of byte strings.
#[derive(Debug, Clone, PartialEq)]
pub enum DataType {
    String(Vec<u8>),
    List(Vec<Vec<u8>>),
}

/// The mathematical shape of a stored value.
pub enum ValueModel {
    Str(Seq<u8>),
    List(Seq<Seq<u8>>),
}

/// The model of a concrete stored value.
pub open spec fn value_model(v: DataType) -> ValueModel {
    match v {
        DataType::String(s) => ValueModel::Str(s@),
        DataType::List(l) => ValueModel::List(bytes_seq(l@)),
    }
}

/// The model of an optional stored value.
pub open spec fn opt_value_model(v: Option<DataType>) -> Option<ValueModel> {
    match v {
        None => None,
        Some(d) => Some(value_model(d)),
    }
}

impl DataType {
    /// An owned copy with the same model.
    pub fn duplicate(&self) -> (r: DataType)
        ensures
            value_model(r) == value_model(*self),
    {
        match self {
            DataType::String(s) => DataType::String(clone_bytes(s)),
            DataType::List(l) => {
                let r = DataType::List(clone_list(l));
                proof {
                    assert(value_model(r) == value_model(*self));
                }
                r
            },
        }
    }
}

/// One keyspace entry: the key, its value, and the absolute expiry
/// instant in milliseconds, if the key has one.
#[derive(Debug)]
pub struct Entry {
    pub key: Vec<u8>,
    pub value: DataType,
    pub expires_at: Option<i64>,
}

/// The model of an entry: its value and expiry instant.
pub struct EntryModel {
    pub value: ValueModel,
    pub expires_at: Option<int>,
}

/// The model of a concrete entry.
pub open spec fn entry_model(e: Entry) -> EntryModel {
    EntryModel {
        value: value_model(e.value),
        expires_at: match e.expires_at {
            None => None,
            Some(t) => Some(t as int),
        },
    }
}

/// No two entries share a key.
pub open spec fn entries_unique(s: Seq<Entry>) -> bool {
    forall|i: int, j: int|
        #![trigger s[i], s[j]]
        0 <= i < j < s.len() ==> s[i].key@ != s[j].key@
}

/// The mapping an entry sequence denotes.
pub open spec fn store_model(s: Seq<Entry>) -> Map<Seq<u8>, EntryModel>
    decreases s.len(),
{
    if s.len() == 0 {
        Map::empty()
    } else {
        store_model(s.drop_last()).insert(s.last().key@, entry_model(s.last()))
    }
}

pub proof fn lemma_unique_drop_last(s: Seq<Entry>)
    requires
        entries_unique(s),
        s.len() > 0,
    ensures
        entries_unique(s.drop_last()),
{
    assert forall|i: int, j: int|
        #![trigger s.drop_last()[i], s.drop_last()[j]]
        0 <= i < j < s.drop_last().len() implies s.drop_last()[i].key@ != s.drop_last()[j].key@ by {
        assert(s.drop_last()[i] == s[i]);
        assert(s.drop_last()[j] == s[j]);
    }
}

/// A key that no entry carries is not in the model.
pub proof fn lemma_model_absent(s: Seq<Entry>, k: Seq<u8>)
    requires
        forall|j: int| 0 <= j < s.len() ==> (#[trigger] s[j]).key@ != k,
    ensures
        !store_model(s).contains_key(k),
    decreases s.len(),
{
    if s.len() > 0 {
        assert(forall|j: int|
            0 <= j < s.drop_last().len() ==> #[trigger] s.drop_last()[j] == s[j]);
        lemma_model_absent(s.drop_last(), k);
        assert(s.last() == s[s.len() - 1]);
    }
}

/// Under unique keys, the entry at index `i` is what the model holds for
/// its key.
pub proof fn lemma_model_at(s: Seq<Entry>, i: int)
    requires
        entries_unique(s),
        0 <= i < s.len(),
    ensures
        store_model(s).contains_key(s[i].key@),
        store_model(s)[s[i].key@] == entry_model(s[i]),
    decreases s.len(),
{
    if i == s.len() - 1 {
        assert(s.last() == s[i]);
    } else {
        lemma_unique_drop_last(s);
        assert(s.drop_last()[i] == s[i]);
        lemma_model_at(s.drop_last(), i);
        assert(s.last() == s[s.len() - 1]);
        assert(s[i].key@ != s[s.len() - 1].key@);
    }
}

/// Replacing the entry at `i` by one with the same key updates the model
/// at that key.
pub proof fn lemma_model_update(s: Seq<Entry>, i: int, e: Entry)
    requires
        entries_unique(s),
        0 <= i < s.len(),
        e.key@ == s[i].key@,
    ensures
        store_model(s.update(i, e)) == store_model(s).insert(e.key@, entry_model(e)),
        entries_unique(s.update(i, e)),
    decreases s.len(),
{
    let s2 = s.update(i, e);
    assert forall|a: int, b: int|
        #![trigger s2[a], s2[b]]
        0 <= a < b < s2.len() implies s2[a].key@ != s2[b].key@ by {
        assert(s2[a].key@ == s[a].key@);
        assert(s2[b].key@ == s[b].key@);
    }
    if i == s.len() - 1 {
        assert(s2.drop_last() =~= s.drop_last());
        assert(s2.last() == e);
        assert(store_model(s2) == store_model(s.drop_last()).insert(e.key@, entry_model(e)));
        assert(s.last() == s[i]);
        assert(store_model(s) == store_model(s.drop_last()).insert(s[i].key@, entry_model(
            s[i],
        )));
        assert(store_model(s.drop_last()).insert(s[i].key@, entry_model(s[i])).insert(
            e.key@,
            entry_model(e),
        ) =~= store_model(s.drop_last()).insert(e.key@, entry_model(e)));
    } else {
        lemma_unique_drop_last(s);
        assert(s.drop_last()[i] == s[i]);
        lemma_model_update(s.drop_last(), i, e);
        assert(s2.drop_last() =~= s.drop_last().update(i, e));
        assert(s2.last() == s.last());
        assert(s.last() == s[s.len() - 1]);
        assert(e.key@ != s[s.len() - 1].key@);
        assert(store_model(s2) == store_model(s.drop_last()).insert(e.key@, entry_model(
            e,
        )).insert(s.last().key@, entry_model(s.last())));
        assert(store_model(s.drop_last()).insert(e.key@, entry_model(e)).insert(
            s.last().key@,
            entry_model(s.last()),
        ) =~= store_model(s.drop_last()).insert(s.last().key@, entry_model(s.last())).insert(
            e.key@,
            entry_model(e),
        ));
    }
}

/// Appending an entry with a fresh key inserts it into the model.
pub proof fn lemma_model_push(s: Seq<Entry>, e: Entry)
    requires
        entries_unique(s),
        forall|j: int| 0 <= j < s.len() ==> (#[trigger] s[j]).key@ != e.key@,
    ensures
        store_model(s.push(e)) == store_model(s).insert(e.key@, entry_model(e)),
        entries_unique(s.push(e)),
{
    let s2 = s.push(e);
    assert(s2.drop_last() =~= s);
    assert(s2.last() == e);
    assert forall|a: int, b: int|
        #![trigger s2[a], s2[b]]
        0 <= a < b < s2.len() implies s2[a].key@ != s2[b].key@ by {
        if b < s2.len() - 1 {
            assert(s2[a] == s[a]);
            assert(s2[b] == s[b]);
        } else {
            assert(s2[a] == s[a]);
            assert(s2[b] == e);
        }
    }
}

/// Removing the entry at `i` removes its key from the model.
pub proof fn lemma_model_remove(s: Seq<Entry>, i: int)
    requires
        entries_unique(s),
        0 <= i < s.len(),
    ensures
        store_model(s.remove(i)) == store_model(s).remove(s[i].key@),
        entries_unique(s.remove(i)),
    decreases s.len(),
{
    let s2 = s.remove(i);
    let k = s[i].key@;
    assert forall|a: int, b: int|
        #![trigger s2[a], s2[b]]
        0 <= a < b < s2.len() implies s2[a].key@ != s2[b].key@ by {
        assert(s2[a] == (if a < i {
            s[a]
        } else {
            s[a + 1]
        }));
        assert(s2[b] == (if b < i {
            s[b]
        } else {
            s[b + 1]
        }));
    }
    if i == s.len() - 1 {
        assert(s2 =~= s.drop_last());
        lemma_unique_drop_last(s);
        assert(forall|j: int|
            0 <= j < s.drop_last().len() ==> #[trigger] s.drop_last()[j] == s[j]);
        assert(forall|j: int| 0 <= j < s.drop_last().len() ==> s.drop_last()[j].key@ != k);
        lemma_model_absent(s.drop_last(), k);
        assert(s.last() == s[i]);
        assert(store_model(s) == store_model(s.drop_last()).insert(k, entry_model(s[i])));
        assert(store_model(s).remove(k) =~= store_model(s.drop_last()));
    } else {
        lemma_unique_drop_last(s);
        assert(s.drop_last()[i] == s[i]);
        lemma_model_remove(s.drop_last(), i);
        assert(s2.drop_last() =~= s.drop_last().remove(i));
        assert(s2.last() == s[s.len() - 1]);
        assert(s.last() == s[s.len() - 1]);
        assert(k != s[s.len() - 1].key@);
        assert(store_model(s2) == store_model(s.drop_last()).remove(k).insert(
            s.last().key@,
            entry_model(s.last()),
        ));
        assert(store_model(s.drop_last()).remove(k).insert(
            s.last().key@,
            entry_model(s.last()),
        ) =~= store_model(s.drop_last()).insert(s.last().key@, entry_model(s.last())).remove(k));
    }
}

/// `v` clamped into the signed 64-bit range.
pub open spec fn clamp_i64(v: int) -> int {
    if v < i64::MIN {
        i64::MIN as int
    } else if v > i64::MAX {
        i64::MAX as int
    } else {
        v
    }
}

/// The model of an optional millisecond duration.
pub open spec fn dur_model(d: Option<i64>) -> Option<int> {
    match d {
        None => None,
        Some(v) => Some(v as int),
    }
}

/// Saturating signed addition.
fn sat_add_i64(a: i64, b: i64) -> (r: i64)
    ensures
        r as int == clamp_i64(a as int + b as int),
{
    if b >= 0 {
        if a > i64::MAX - b {
            i64::MAX
        } else {
            a + b
        }
    } else {
        if a < i64::MIN - b {
            i64::MIN
        } else {
            a + b
        }
    }
}

/// What `set` does to the store: check the conditional flags, then insert
/// the value, dropping any prior entry (and with it any prior expiry) and
/// installing the new expiry when a duration is given.
pub open spec fn spec_set(
    m: Map<Seq<u8>, EntryModel>,
    k: Seq<u8>,
    v: ValueModel,
    dur: Option<int>,
    nx: bool,
    xx: bool,
    now: int,
) -> Result<(Map<Seq<u8>, EntryModel>, Option<ValueModel>), ErrorModel> {
    if nx && xx {
        Err(ErrorModel::Syntax(crate::text::ascii("NX/XX syntax error"@)))
    } else if nx && m.contains_key(k) {
        Err(ErrorModel::CondNotMet(crate::text::ascii("NX condition not met"@)))
    } else if xx && !m.contains_key(k) {
        Err(ErrorModel::CondNotMet(crate::text::ascii("XX condition not met"@)))
    } else {
        let prior = if m.contains_key(k) {
            Some(m[k].value)
        } else {
            None
        };
        let e = match dur {
            None => None,
            Some(d) => Some(clamp_i64(now + d)),
        };
        Ok((m.insert(k, EntryModel { value: v, expires_at: e }), prior))
    }
}

/// What `get` does to the store: an absent key answers nothing; an
/// expired key is reaped and answers nothing; a live key answers its
/// value.
pub open spec fn spec_get(m: Map<Seq<u8>, EntryModel>, k: Seq<u8>, now: int) -> (
    Map<Seq<u8>, EntryModel>,
    Option<ValueModel>,
) {
    if !m.contains_key(k) {
        (m, None)
    } else {
        match m[k].expires_at {
            Some(e) => if now >= e {
                (m.remove(k), None)
            } else {
                (m, Some(m[k].value))
            },
            None => (m, Some(m[k].value)),
        }
    }
}

/// The model of a `set` outcome.
pub open spec fn set_result_model(r: Result<Option<DataType>, ParseError>) -> Result<
    Option<ValueModel>,
    ErrorModel,
> {
    match r {
        Ok(v) => Ok(opt_value_model(v)),
        Err(e) => Err(err_model(e)),
    }
}

/// How `set` relates the store and result after the call to the store
/// before it, at time `now`.
pub open spec fn set_post(
    m0: Map<Seq<u8>, EntryModel>,
    k: Seq<u8>,
    v: ValueModel,
    dur: Option<int>,
    nx: bool,
    xx: bool,
    now: int,
    m1: Map<Seq<u8>, EntryModel>,
    r: Result<Option<ValueModel>, ErrorModel>,
) -> bool {
    match spec_set(m0, k, v, dur, nx, xx, now) {
        Ok(pair) => r == Ok::<Option<ValueModel>, ErrorModel>(pair.1) && m1 == pair.0,
        Err(e) => r == Err::<Option<ValueModel>, ErrorModel>(e) && m1 == m0,
    }
}

/// How `get` relates the store and result after the call to the store
/// before it, at time `now`.
pub open spec fn get_post(
    m0: Map<Seq<u8>, EntryModel>,
    k: Seq<u8>,
    now: int,
    m1: Map<Seq<u8>, EntryModel>,
    r: Option<ValueModel>,
) -> bool {
    m1 == spec_get(m0, k, now).0 && r == spec_get(m0, k, now).1
}

/// Count of the given keys present in the map, duplicates counted again.
pub open spec fn spec_exists(m: Map<Seq<u8>, EntryModel>, keys: Seq<Seq<u8>>) -> int
    decreases keys.len(),
{
    if keys.len() == 0 {
        0
    } else {
        spec_exists(m, keys.drop_last()) + if m.contains_key(keys.last()) {
            1int
        } else {
            0int
        }
    }
}

/// What `del` does: remove each named key, counting those that were
/// present (a key named twice is counted once, being gone the second
/// time).
pub open spec fn spec_del(m: Map<Seq<u8>, EntryModel>, keys: Seq<Seq<u8>>) -> (
    Map<Seq<u8>, EntryModel>,
    int,
)
    decreases keys.len(),
{
    if keys.len() == 0 {
        (m, 0)
    } else {
        let hit: int = if m.contains_key(keys.first()) {
            1
        } else {
            0
        };
        let rec = spec_del(m.remove(keys.first()), keys.drop_first());
        (rec.0, hit + rec.1)
    }
}

/// What incrementing or decrementing by `amount` does: an absent key is
/// created holding the amount in decimal; a string value that parses as a
/// signed 64-bit integer is replaced by the adjusted value (keeping its
/// expiry) as long as that value is representable; anything else is a
/// typed error.
pub open spec fn spec_adjust(m: Map<Seq<u8>, EntryModel>, k: Seq<u8>, amount: int) -> Result<
    (Map<Seq<u8>, EntryModel>, int),
    ErrorModel,
> {
    if !m.contains_key(k) {
        Ok(
            (
                m.insert(
                    k,
                    EntryModel { value: ValueModel::Str(spec_fmt_int(amount)), expires_at: None },
                ),
                amount,
            ),
        )
    } else {
        match m[k].value {
            ValueModel::Str(s) => match spec_parse_i64(s) {
                Some(n) => if i64::MIN <= n + amount && n + amount <= i64::MAX {
                    Ok(
                        (
                            m.insert(
                                k,
                                EntryModel {
                                    value: ValueModel::Str(spec_fmt_int(n + amount)),
                                    expires_at: m[k].expires_at,
                                },
                            ),
                            n + amount,
                        ),
                    )
                } else {
                    Err(
                        ErrorModel::CondNotMet(
                            crate::text::ascii("ERR value is not an integer or out of range"@),
                        ),
                    )
                },
                None => Err(
                    ErrorModel::CondNotMet(
                        crate::text::ascii("ERR value is not an integer or out of range"@),
                    ),
                ),
            },
            ValueModel::List(_) => Err(
                ErrorModel::CondNotMet(crate::text::ascii("ERR value type is not string"@)),
            ),
        }
    }
}

/// A length clamped into the signed 64-bit range.
pub open spec fn clamp_len(n: nat) -> int {
    if n > i64::MAX {
        i64::MAX as int
    } else {
        n as int
    }
}

/// What pushing `elems` onto the list at `k` does. Pushing to the front
/// treats the input as successive single pushes, so the elements end up
/// reversed in front of the old contents; pushing to the back appends
/// them in order. An absent key gets a fresh list; a non-list value is a
/// typed error. Returns the new list length.
pub open spec fn spec_push(
    m: Map<Seq<u8>, EntryModel>,
    k: Seq<u8>,
    elems: Seq<Seq<u8>>,
    front: bool,
) -> Result<(Map<Seq<u8>, EntryModel>, int), ErrorModel> {
    if !m.contains_key(k) {
        let l = if front {
            elems.reverse()
        } else {
            elems
        };
        Ok(
            (
                m.insert(k, EntryModel { value: ValueModel::List(l), expires_at: None }),
                clamp_len(l.len()),
            ),
        )
    } else {
        match m[k].value {
            ValueModel::List(l0) => {
                let l = if front {
                    elems.reverse() + l0
                } else {
                    l0 + elems
                };
                Ok(
                    (
                        m.insert(
                            k,
                            EntryModel { value: ValueModel::List(l), expires_at: m[k].expires_at },
                        ),
                        clamp_len(l.len()),
                    ),
                )
            },
            ValueModel::Str(_) => Err(
                ErrorModel::CondNotMet(crate::text::ascii("ERR value type is not list"@)),
            ),
        }
    }
}

/// What a range query over the list at `k` answers: an absent key gives
/// an empty answer; a non-list value is a typed error; otherwise negative
/// indices count from the end, an inverted or out-of-range start gives an
/// empty answer, and the answer runs from `start` through `stop`
/// inclusive, clipped to the list's end.
pub open spec fn spec_lrange(
    m: Map<Seq<u8>, EntryModel>,
    k: Seq<u8>,
    start: int,
    stop: int,
) -> Result<Seq<Seq<u8>>, ErrorModel> {
    if !m.contains_key(k) {
        Ok(Seq::empty())
    } else {
        match m[k].value {
            ValueModel::Str(_) => Err(
                ErrorModel::CondNotMet(
                    crate::text::ascii(
                        "WRONGTYPE Operation against a key holding the wrong kind of value"@,
                    ),
                ),
            ),
            ValueModel::List(l) => {
                let len = l.len() as int;
                let s = if start < 0 {
                    len + start
                } else {
                    start
                };
                let e = if stop < 0 {
                    len + stop
                } else {
                    stop
                };
                if s < 0 || s > e || s >= len {
                    Ok(Seq::empty())
                } else {
                    Ok(
                        l.subrange(
                            s,
                            if e + 1 > len {
                                len
                            } else {
                                e + 1
                            },
                        ),
                    )
                }
            },
        }
    }
}

/// What one sampler pass over the given keys does: each named key whose
/// expiry has passed at `now` is removed and counted; the rest stay.
pub open spec fn spec_purge(m: Map<Seq<u8>, EntryModel>, ks: Seq<Seq<u8>>, now: int) -> (
    Map<Seq<u8>, EntryModel>,
    int,
)
    decreases ks.len(),
{
    if ks.len() == 0 {
        (m, 0)
    } else {
        let k = ks.first();
        let expired = m.contains_key(k) && match m[k].expires_at {
            Some(e) => now >= e,
            None => false,
        };
        let m1 = if expired {
            m.remove(k)
        } else {
            m
        };
        let rec = spec_purge(m1, ks.drop_first(), now);
        (rec.0, rec.1 + if expired {
            1int
        } else {
            0int
        })
    }
}

/// A purge pass only removes entries, removes only entries that carry an
/// expiry that has passed, and leaves every surviving entry unchanged.
pub proof fn lemma_spec_purge_props(m: Map<Seq<u8>, EntryModel>, ks: Seq<Seq<u8>>, now: int)
    ensures
        forall|k: Seq<u8>| #[trigger]
            spec_purge(m, ks, now).0.contains_key(k) ==> m.contains_key(k) && spec_purge(
                m,
                ks,
                now,
            ).0[k] == m[k],
        forall|k: Seq<u8>|
            m.contains_key(k) && !(#[trigger] spec_purge(m, ks, now).0.contains_key(k))
                ==> m[k].expires_at is Some && now >= m[k].expires_at.unwrap(),
    decreases ks.len(),
{
    if ks.len() > 0 {
        let k0 = ks.first();
        let expired = m.contains_key(k0) && match m[k0].expires_at {
            Some(e) => now >= e,
            None => false,
        };
        let m1 = if expired {
            m.remove(k0)
        } else {
            m
        };
        lemma_spec_purge_props(m1, ks.drop_first(), now);
        assert(spec_purge(m, ks, now).0 == spec_purge(m1, ks.drop_first(), now).0);
        assert forall|k: Seq<u8>|
            m.contains_key(k) && !(#[trigger] spec_purge(m, ks, now).0.contains_key(k)) implies m[k].expires_at is Some
            && now >= m[k].expires_at.unwrap() by {
            if expired && k == k0 {
            } else {
                assert(m1.contains_key(k));
                assert(m1[k] == m[k]);
            }
        }
    }
}

/// The model of an integer-returning outcome.
pub open spec fn int_result_model(r: Result<i64, ParseError>) -> Result<int, ErrorModel> {
    match r {
        Ok(v) => Ok(v as int),
        Err(e) => Err(err_model(e)),
    }
}

/// The model of a list-returning outcome.
pub open spec fn list_result_model(r: Result<Vec<Vec<u8>>, ParseError>) -> Result<
    Seq<Seq<u8>>,
    ErrorModel,
> {
    match r {
        Ok(v) => Ok(bytes_seq(v@)),
        Err(e) => Err(err_model(e)),
    }
}

/// Reverses a vector of byte strings, reusing its elements.
fn reverse_vec(v: Vec<Vec<u8>>) -> (r: Vec<Vec<u8>>)
    ensures
        r@.len() == v@.len(),
        forall|i: int| 0 <= i < v@.len() ==> #[trigger] r@[i] == v@[v@.len() - 1 - i],
{
    let mut src = v;
    let mut out: Vec<Vec<u8>> = Vec::new();
    let ghost orig = src@;
    while src.len() > 0
        invariant
            src@ == orig.take(src@.len() as int),
            out@.len() + src@.len() == orig.len(),
            forall|i: int| 0 <= i < out@.len() ==> #[trigger] out@[i] == orig[orig.len() - 1 - i],
        decreases src@.len(),
    {
        let x = match src.pop() {
            Some(x) => x,
            None => {
                proof {
                    assert(false);
                }
                Vec::new()
            },
        };
        proof {
            assert(orig.take(src@.len() as int + 1).last() == orig[src@.len() as int]);
            assert(orig.take(src@.len() as int + 1).drop_last() =~= orig.take(src@.len() as int));
        }
        out.push(x);
    }
    proof {
        assert(orig.take(0) =~= Seq::<Vec<u8>>::empty());
    }
    out
}

/// Clamps a length into a signed 64-bit count.
fn len_to_i64(n: usize) -> (r: i64)
    ensures
        r as int == clamp_len(n as nat),
{
    if (n as u64) > 9223372036854775807u64 {
        i64::MAX
    } else {
        n as i64
    }
}

/// Relies on chrono's `Utc::now`, read as whole milliseconds since the
/// Unix epoch (`DateTime::timestamp_millis`). Nothing is promised of a
/// clock reading; `Utc::now` itself aborts when the system clock reads
/// before the epoch.
#[verifier::external_body]
pub(crate) fn now_millis() -> i64 {
    chrono::Utc::now().timestamp_millis()
}

/// Relies on rand's `seq::index::sample`: draws exactly `amount`
/// distinct indices from `0..length` in arbitrary order; it panics when
/// `amount > length`, which the precondition rules out. Which indices
/// come back is random, so only count, range and distinctness are
/// stated.
#[verifier::external_body]
fn sample_indices(length: usize, amount: usize) -> (r: Vec<usize>)
    requires
        amount <= length,
    ensures
        r@.len() == amount,
        forall|i: int| 0 <= i < r@.len() ==> #[trigger] r@[i] < length,
        forall|i: int, j: int|
            #![trigger r@[i], r@[j]]
            0 <= i < j < r@.len() ==> r@[i] != r@[j],
{
    rand::seq::index::sample(&mut rand::thread_rng(), length, amount).into_vec()
}

/// The keyspace itself: a sequence of entries with pairwise distinct
/// keys, viewed as a map from key bytes to entry models.
#[derive(Debug)]
pub struct DataStore {
    entries: Vec<Entry>,
}

impl View for DataStore {
    type V = Map<Seq<u8>, EntryModel>;

    closed spec fn view(&self) -> Map<Seq<u8>, EntryModel> {
        store_model(self.entries@)
    }
}

impl DataStore {
    /// The entry sequence carries no duplicate key.
    pub closed spec fn wf(&self) -> bool {
        entries_unique(self.entries@)
    }

    /// An empty keyspace.
    pub fn new() -> (r: DataStore)
        ensures
            r.wf(),
            r@ == Map::<Seq<u8>, EntryModel>::empty(),
    {
        DataStore { entries: Vec::new() }
    }

    /// Index of the entry holding `key`, if any.
    fn find_index(&self, key: &Vec<u8>) -> (r: Option<usize>)
        ensures
            match r {
                Some(i) => i < self.entries@.len() && self.entries@[i as int].key@ == key@,
                None => forall|j: int|
                    0 <= j < self.entries@.len() ==> (#[trigger] self.entries@[j]).key@ != key@,
            },
    {
        let n = self.entries.len();
        let mut i: usize = 0;
        while i < n
            invariant
                0 <= i <= n,
                n == self.entries@.len(),
                forall|j: int| 0 <= j < i ==> (#[trigger] self.entries@[j]).key@ != key@,
            decreases n - i,
        {
            if crate::numbers::bytes_eq(&self.entries[i].key, key) {
                return Some(i);
            }
            i = i + 1;
        }
        None
    }

    /// Whether the store currently holds `key` (regardless of expiry).
    pub fn contains(&self, key: &Vec<u8>) -> (r: bool)
        requires
            self.wf(),
        ensures
            r == self@.contains_key(key@),
    {
        let idx = self.find_index(key);
        match idx {
            Some(i) => {
                proof {
                    lemma_model_at(self.entries@, i as int);
                }
                true
            },
            None => {
                proof {
                    lemma_model_absent(self.entries@, key@);
                }
                false
            },
        }
    }

    /// Stores `value` under `key` at time `now_ms`, subject to the
    /// conditional flags, installing an expiry `duration_ms` from now when
    /// one is given. Returns the prior value, if the key was present.
    pub fn set_at(
        &mut self,
        key: Vec<u8>,
        value: DataType,
        duration_ms: Option<i64>,
        nx: bool,
        xx: bool,
        now_ms: i64,
    ) -> (r: Result<Option<DataType>, ParseError>)
        requires
            old(self).wf(),
        ensures
            final(self).wf(),
            ({
                let spec_r = spec_set(
                    old(self)@,
                    key@,
                    value_model(value),
                    dur_model(duration_ms),
                    nx,
                    xx,
                    now_ms as int,
                );
                match spec_r {
                    Ok(pair) => set_result_model(r) == Ok::<_, ErrorModel>(pair.1)
                        && final(self)@ == pair.0,
                    Err(e) => set_result_model(r) == Err::<Option<ValueModel>, _>(e)
                        && final(self)@ == old(self)@,
                }
            }),
    {
        if nx && xx {
            proof {
                reveal_strlit("NX/XX syntax error");
            }
            return Err(ParseError::SyntaxError(lit_bytes("NX/XX syntax error")));
        }
        let idx = self.find_index(&key);
        match idx {
            Some(i) => {
                proof {
                    lemma_model_at(self.entries@, i as int);
                }
                if nx {
                    proof {
                        reveal_strlit("NX condition not met");
                    }
                    return Err(ParseError::ConditionNotMet(lit_bytes("NX condition not met")));
                }
                let expires_at = match duration_ms {
                    None => None,
                    Some(d) => Some(sat_add_i64(now_ms, d)),
                };
                let prior = self.entries[i].value.duplicate();
                let e = Entry { key, value, expires_at };
                proof {
                    lemma_model_update(self.entries@, i as int, e);
                }
                self.entries[i] = e;
                Ok(Some(prior))
            },
            None => {
                proof {
                    lemma_model_absent(self.entries@, key@);
                }
                if xx {
                    proof {
                        reveal_strlit("XX condition not met");
                    }
                    return Err(ParseError::ConditionNotMet(lit_bytes("XX condition not met")));
                }
                let expires_at = match duration_ms {
                    None => None,
                    Some(d) => Some(sat_add_i64(now_ms, d)),
                };
                let e = Entry { key, value, expires_at };
                proof {
                    lemma_model_push(self.entries@, e);
                }
                self.entries.push(e);
                Ok(None)
            },
        }
    }

    /// Looks `key` up at time `now_ms`, reaping it first when its expiry
    /// has passed. Returns an owned copy of the live value.
    pub fn get_at(&mut self, key: Vec<u8>, now_ms: i64) -> (r: Option<DataType>)
        requires
            old(self).wf(),
        ensures
            final(self).wf(),
            final(self)@ == spec_get(old(self)@, key@, now_ms as int).0,
            opt_value_model(r) == spec_get(old(self)@, key@, now_ms as int).1,
    {
        let idx = self.find_index(&key);
        match idx {
            None => {
                proof {
                    lemma_model_absent(self.entries@, key@);
                }
                None
            },
            Some(i) => {
                proof {
                    lemma_model_at(self.entries@, i as int);
                }
                let expired = match self.entries[i].expires_at {
                    Some(e) => now_ms >= e,
                    None => false,
                };
                if expired {
                    proof {
                        lemma_model_remove(self.entries@, i as int);
                    }
                    self.entries.remove(i);
                    None
                } else {
                    Some(self.entries[i].value.duplicate())
                }
            },
        }
    }

    /// Counts how many of the given keys are present, duplicates counted
    /// again. Performs no lazy expiry.
    pub fn exists_count(&self, keys: Vec<Vec<u8>>) -> (r: u64)
        requires
            self.wf(),
        ensures
            r as int == spec_exists(self@, bytes_seq(keys@)),
    {
        let n = keys.len();
        let mut count: u64 = 0;
        let mut i: usize = 0;
        proof {
            assert(bytes_seq(keys@).take(0) =~= Seq::<Seq<u8>>::empty());
        }
        while i < n
            invariant
                0 <= i <= n,
                n == keys@.len(),
                self.wf(),
                count <= i,
                count as int == spec_exists(self@, bytes_seq(keys@).take(i as int)),
            decreases n - i,
        {
            proof {
                assert(bytes_seq(keys@).take(i + 1).drop_last() =~= bytes_seq(keys@).take(
                    i as int,
                ));
                assert(bytes_seq(keys@).take(i + 1).last() == keys@[i as int]@);
            }
            if self.contains(&keys[i]) {
                count = count + 1;
            }
            i = i + 1;
        }
        proof {
            assert(bytes_seq(keys@).take(n as int) =~= bytes_seq(keys@));
        }
        count
    }

    /// Removes the given keys, returning how many were present.
    pub fn del(&mut self, keys: Vec<Vec<u8>>) -> (r: u64)
        requires
            old(self).wf(),
        ensures
            final(self).wf(),
            final(self)@ == spec_del(old(self)@, bytes_seq(keys@)).0,
            r as int == spec_del(old(self)@, bytes_seq(keys@)).1,
    {
        let n = keys.len();
        let mut count: u64 = 0;
        let mut i: usize = 0;
        proof {
            assert(bytes_seq(keys@).skip(0) =~= bytes_seq(keys@));
        }
        while i < n
            invariant
                0 <= i <= n,
                n == keys@.len(),
                self.wf(),
                count <= i,
                spec_del(old(self)@, bytes_seq(keys@)).0 == spec_del(
                    self@,
                    bytes_seq(keys@).skip(i as int),
                ).0,
                spec_del(old(self)@, bytes_seq(keys@)).1 == count + spec_del(
                    self@,
                    bytes_seq(keys@).skip(i as int),
                ).1,
            decreases n - i,
        {
            let ghost pre = self@;
            let ghost rest = bytes_seq(keys@).skip(i as int);
            proof {
                assert(rest.first() == keys@[i as int]@);
                assert(rest.drop_first() =~= bytes_seq(keys@).skip(i + 1));
            }
            let idx = self.find_index(&keys[i]);
            match idx {
                Some(j) => {
                    proof {
                        lemma_model_at(self.entries@, j as int);
                        lemma_model_remove(self.entries@, j as int);
                    }
                    self.entries.remove(j);
                    count = count + 1;
                },
                None => {
                    proof {
                        lemma_model_absent(self.entries@, keys@[i as int]@);
                        assert(pre.remove(keys@[i as int]@) =~= pre);
                    }
                },
            }
            i = i + 1;
        }
        proof {
            assert(bytes_seq(keys@).skip(n as int) =~= Seq::<Seq<u8>>::empty());
        }
        count
    }

    /// Adjusts the counter at `key` by `amount`.
    fn adjust_by(&mut self, key: Vec<u8>, amount: i64) -> (r: Result<i64, ParseError>)
        requires
            old(self).wf(),
        ensures
            final(self).wf(),
            ({
                match spec_adjust(old(self)@, key@, amount as int) {
                    Ok(pair) => int_result_model(r) == Ok::<int, ErrorModel>(pair.1)
                        && final(self)@ == pair.0,
                    Err(e) => int_result_model(r) == Err::<int, ErrorModel>(e)
                        && final(self)@ == old(self)@,
                }
            }),
    {
        let idx = self.find_index(&key);
        match idx {
            None => {
                proof {
                    lemma_model_absent(self.entries@, key@);
                }
                let e = Entry {
                    key,
                    value: DataType::String(fmt_i64(amount)),
                    expires_at: None,
                };
                proof {
                    lemma_model_push(self.entries@, e);
                }
                self.entries.push(e);
                Ok(amount)
            },
            Some(i) => {
                proof {
                    lemma_model_at(self.entries@, i as int);
                }
                let is_list = match &self.entries[i].value {
                    DataType::List(_) => true,
                    DataType::String(_) => false,
                };
                if is_list {
                    proof {
                        reveal_strlit("ERR value type is not string");
                    }
                    return Err(
                        ParseError::ConditionNotMet(lit_bytes("ERR value type is not string")),
                    );
                }
                let parsed = match &self.entries[i].value {
                    DataType::String(s) => parse_i64(s.as_slice()),
                    DataType::List(_) => None,
                };
                match parsed {
                    None => {
                        proof {
                            reveal_strlit("ERR value is not an integer or out of range");
                        }
                        Err(
                            ParseError::ConditionNotMet(
                                lit_bytes("ERR value is not an integer or out of range"),
                            ),
                        )
                    },
                    Some(nv) => {
                        let over = if amount >= 0 {
                            nv > i64::MAX - amount
                        } else {
                            nv < i64::MIN - amount
                        };
                        if over {
                            proof {
                                reveal_strlit("ERR value is not an integer or out of range");
                            }
                            return Err(
                                ParseError::ConditionNotMet(
                                    lit_bytes("ERR value is not an integer or out of range"),
                                ),
                            );
                        }
                        let newv = nv + amount;
                        let e = Entry {
                            key,
                            value: DataType::String(fmt_i64(newv)),
                            expires_at: self.entries[i].expires_at,
                        };
                        proof {
                            lemma_model_update(self.entries@, i as int, e);
                        }
                        self.entries[i] = e;
                        Ok(newv)
                    },
                }
            },
        }
    }

    /// Increments the counter at `key`, creating it at one when absent.
    pub fn incr(&mut self, key: Vec<u8>) -> (r: Result<i64, ParseError>)
        requires
            old(self).wf(),
        ensures
            final(self).wf(),
            ({
                match spec_adjust(old(self)@, key@, 1) {
                    Ok(pair) => int_result_model(r) == Ok::<int, ErrorModel>(pair.1)
                        && final(self)@ == pair.0,
                    Err(e) => int_result_model(r) == Err::<int, ErrorModel>(e)
                        && final(self)@ == old(self)@,
                }
            }),
    {
        self.adjust_by(key, 1)
    }

    /// Decrements the counter at `key`, creating it at minus one when
    /// absent.
    pub fn decr(&mut self, key: Vec<u8>) -> (r: Result<i64, ParseError>)
        requires
            old(self).wf(),
        ensures
            final(self).wf(),
            ({
                match spec_adjust(old(self)@, key@, -1) {
                    Ok(pair) => int_result_model(r) == Ok::<int, ErrorModel>(pair.1)
                        && final(self)@ == pair.0,
                    Err(e) => int_result_model(r) == Err::<int, ErrorModel>(e)
                        && final(self)@ == old(self)@,
                }
            }),
    {
        self.adjust_by(key, -1)
    }

    /// Pushes `elements` onto the list at `key`, to the front or the
    /// back.
    fn push_front_or_back(&mut self, key: Vec<u8>, mut elements: Vec<Vec<u8>>, front: bool) -> (r:
        Result<i64, ParseError>)
        requires
            old(self).wf(),
        ensures
            final(self).wf(),
            ({
                match spec_push(old(self)@, key@, bytes_seq(elements@), front) {
                    Ok(pair) => int_result_model(r) == Ok::<int, ErrorModel>(pair.1)
                        && final(self)@ == pair.0,
                    Err(e) => int_result_model(r) == Err::<int, ErrorModel>(e)
                        && final(self)@ == old(self)@,
                }
            }),
    {
        let ghost elems_model = bytes_seq(elements@);
        let idx = self.find_index(&key);
        match idx {
            None => {
                proof {
                    lemma_model_absent(self.entries@, key@);
                }
                let nl = if front {
                    let r = reverse_vec(elements);
                    proof {
                        assert(bytes_seq(r@) =~= elems_model.reverse());
                    }
                    r
                } else {
                    elements
                };
                let length = len_to_i64(nl.len());
                let e = Entry { key, value: DataType::List(nl), expires_at: None };
                proof {
                    lemma_model_push(self.entries@, e);
                }
                self.entries.push(e);
                Ok(length)
            },
            Some(i) => {
                proof {
                    lemma_model_at(self.entries@, i as int);
                }
                let is_str = match &self.entries[i].value {
                    DataType::String(_) => true,
                    DataType::List(_) => false,
                };
                if is_str {
                    proof {
                        reveal_strlit("ERR value type is not list");
                    }
                    return Err(
                        ParseError::ConditionNotMet(lit_bytes("ERR value type is not list")),
                    );
                }
                proof {
                    lemma_model_remove(self.entries@, i as int);
                    assert(forall|j: int|
                        0 <= j < self.entries@.remove(i as int).len() ==> (#[trigger] self.entries@.remove(
                            i as int,
                        )[j]).key@ != key@);
                }
                let old_e = self.entries.remove(i);
                let ghost mid = self@;
                let mut l0 = match old_e.value {
                    DataType::List(l) => l,
                    DataType::String(_) => Vec::new(),
                };
                let nl = if front {
                    let mut r = reverse_vec(elements);
                    proof {
                        assert(bytes_seq(r@) =~= elems_model.reverse());
                    }
                    let ghost rev = bytes_seq(r@);
                    let ghost l0b = bytes_seq(l0@);
                    r.append(&mut l0);
                    proof {
                        assert(bytes_seq(r@) =~= rev + l0b);
                    }
                    r
                } else {
                    let ghost l0b = bytes_seq(l0@);
                    l0.append(&mut elements);
                    proof {
                        assert(bytes_seq(l0@) =~= l0b + elems_model);
                    }
                    l0
                };
                let length = len_to_i64(nl.len());
                let e = Entry {
                    key: old_e.key,
                    value: DataType::List(nl),
                    expires_at: old_e.expires_at,
                };
                proof {
                    lemma_model_push(self.entries@, e);
                    assert(old(self)@.remove(key@).insert(key@, entry_model(e)) =~= old(
                        self,
                    )@.insert(key@, entry_model(e)));
                }
                self.entries.push(e);
                Ok(length)
            },
        }
    }

    /// Pushes `elements` onto the front of the list at `key`, as a series
    /// of single left pushes, creating the list when absent.
    pub fn lpush(&mut self, key: Vec<u8>, elements: Vec<Vec<u8>>) -> (r: Result<i64, ParseError>)
        requires
            old(self).wf(),
        ensures
            final(self).wf(),
            ({
                match spec_push(old(self)@, key@, bytes_seq(elements@), true) {
                    Ok(pair) => int_result_model(r) == Ok::<int, ErrorModel>(pair.1)
                        && final(self)@ == pair.0,
                    Err(e) => int_result_model(r) == Err::<int, ErrorModel>(e)
                        && final(self)@ == old(self)@,
                }
            }),
    {
        self.push_front_or_back(key, elements, true)
    }

    /// Appends `elements` to the back of the list at `key`, creating the
    /// list when absent.
    pub fn rpush(&mut self, key: Vec<u8>, elements: Vec<Vec<u8>>) -> (r: Result<i64, ParseError>)
        requires
            old(self).wf(),
        ensures
            final(self).wf(),
            ({
                match spec_push(old(self)@, key@, bytes_seq(elements@), false) {
                    Ok(pair) => int_result_model(r) == Ok::<int, ErrorModel>(pair.1)
                        && final(self)@ == pair.0,
                    Err(e) => int_result_model(r) == Err::<int, ErrorModel>(e)
                        && final(self)@ == old(self)@,
                }
            }),
    {
        self.push_front_or_back(key, elements, false)
    }

    /// Answers the elements of the list at `key` from `start` through
    /// `stop` inclusive, negative indices counting from the end.
    pub fn lrange(&self, key: Vec<u8>, start: i64, stop: i64) -> (r: Result<
        Vec<Vec<u8>>,
        ParseError,
    >)
        requires
            self.wf(),
        ensures
            list_result_model(r) == spec_lrange(self@, key@, start as int, stop as int),
    {
        let idx = self.find_index(&key);
        match idx {
            None => {
                proof {
                    lemma_model_absent(self.entries@, key@);
                    assert(bytes_seq(Seq::<Vec<u8>>::empty()) =~= Seq::<Seq<u8>>::empty());
                }
                Ok(Vec::new())
            },
            Some(i) => {
                proof {
                    lemma_model_at(self.entries@, i as int);
                }
                match &self.entries[i].value {
                    DataType::String(_) => {
                        proof {
                            reveal_strlit(
                                "WRONGTYPE Operation against a key holding the wrong kind of value",
                            );
                        }
                        Err(
                            ParseError::ConditionNotMet(
                                lit_bytes(
                                    "WRONGTYPE Operation against a key holding the wrong kind of value",
                                ),
                            ),
                        )
                    },
                    DataType::List(l) => {
                        let len128: i128 = l.len() as i128;
                        let s0: i128 = if start < 0 {
                            len128 + start as i128
                        } else {
                            start as i128
                        };
                        let e0: i128 = if stop < 0 {
                            len128 + stop as i128
                        } else {
                            stop as i128
                        };
                        if s0 < 0 || s0 > e0 || s0 >= len128 {
                            proof {
                                assert(bytes_seq(Seq::<Vec<u8>>::empty())
                                    =~= Seq::<Seq<u8>>::empty());
                            }
                            return Ok(Vec::new());
                        }
                        let endx: i128 = if e0 + 1 > len128 {
                            len128
                        } else {
                            e0 + 1
                        };
                        let from: usize = s0 as usize;
                        let to: usize = endx as usize;
                        let mut out: Vec<Vec<u8>> = Vec::new();
                        let mut j: usize = from;
                        while j < to
                            invariant
                                from <= j <= to <= l@.len(),
                                out@.len() == j - from,
                                forall|q: int|
                                    0 <= q < out@.len() ==> #[trigger] out@[q]@ == l@[from
                                        + q]@,
                            decreases to - j,
                        {
                            out.push(clone_bytes(&l[j]));
                            j = j + 1;
                        }
                        proof {
                            assert(bytes_seq(out@) =~= bytes_seq(l@).subrange(
                                from as int,
                                to as int,
                            ));
                        }
                        Ok(out)
                    },
                }
            },
        }
    }

    /// Removes each of the given keys whose expiry has passed at
    /// `now_ms`, returning how many went.
    fn purge_keys(&mut self, keys: &Vec<Vec<u8>>, now_ms: i64) -> (r: u64)
        requires
            old(self).wf(),
        ensures
            final(self).wf(),
            final(self)@ == spec_purge(old(self)@, bytes_seq(keys@), now_ms as int).0,
            r as int == spec_purge(old(self)@, bytes_seq(keys@), now_ms as int).1,
            r <= keys@.len(),
    {
        let n = keys.len();
        let mut count: u64 = 0;
        let mut i: usize = 0;
        proof {
            assert(bytes_seq(keys@).skip(0) =~= bytes_seq(keys@));
        }
        while i < n
            invariant
                0 <= i <= n,
                n == keys@.len(),
                self.wf(),
                count <= i,
                spec_purge(old(self)@, bytes_seq(keys@), now_ms as int).0 == spec_purge(
                    self@,
                    bytes_seq(keys@).skip(i as int),
                    now_ms as int,
                ).0,
                spec_purge(old(self)@, bytes_seq(keys@), now_ms as int).1 == count + spec_purge(
                    self@,
                    bytes_seq(keys@).skip(i as int),
                    now_ms as int,
                ).1,
            decreases n - i,
        {
            let ghost pre = self@;
            let ghost rest = bytes_seq(keys@).skip(i as int);
            proof {
                assert(rest.first() == keys@[i as int]@);
                assert(rest.drop_first() =~= bytes_seq(keys@).skip(i + 1));
            }
            let idx = self.find_index(&keys[i]);
            match idx {
                Some(j) => {
                    proof {
                        lemma_model_at(self.entries@, j as int);
                    }
                    let expired = match self.entries[j].expires_at {
                        Some(e) => now_ms >= e,
                        None => false,
                    };
                    if expired {
                        proof {
                            lemma_model_remove(self.entries@, j as int);
                        }
                        self.entries.remove(j);
                        count = count + 1;
                    }
                },
                None => {
                    proof {
                        lemma_model_absent(self.entries@, keys@[i as int]@);
                    }
                },
            }
            i = i + 1;
        }
        proof {
            assert(bytes_seq(keys@).skip(n as int) =~= Seq::<Seq<u8>>::empty());
        }
        count
    }

    /// One sampler run: repeatedly samples up to
    /// `KEY_EXPIRY_NUM_KEYS_TO_CHECK` keys among those carrying an
    /// expiry and reaps the expired ones, restarting while at least a
    /// quarter of a sample was expired, with a bounded number of
    /// restarts. Only entries whose expiry had passed at some observed
    /// instant are removed; every surviving entry is untouched.
    pub fn purge_expired(&mut self)
        requires
            old(self).wf(),
        ensures
            final(self).wf(),
            forall|k: Seq<u8>| #[trigger]
                final(self)@.contains_key(k) ==> old(self)@.contains_key(k) && final(self)@[k]
                    == old(self)@[k],
            forall|k: Seq<u8>|
                old(self)@.contains_key(k) && !(#[trigger] final(self)@.contains_key(k)) ==> old(
                    self,
                )@[k].expires_at is Some,
    {
        let mut rounds: usize = 0;
        let mut go: bool = true;
        while go
            invariant
                self.wf(),
                rounds <= 16,
                go ==> rounds < 16,
                forall|k: Seq<u8>| #[trigger]
                    self@.contains_key(k) ==> old(self)@.contains_key(k) && self@[k] == old(
                        self,
                    )@[k],
                forall|k: Seq<u8>|
                    old(self)@.contains_key(k) && !(#[trigger] self@.contains_key(k)) ==> old(
                        self,
                    )@[k].expires_at is Some,
            decreases 16 - rounds,
        {
            let mut exp_keys: Vec<Vec<u8>> = Vec::new();
            let n = self.entries.len();
            let mut i: usize = 0;
            while i < n
                invariant
                    0 <= i <= n,
                    n == self.entries@.len(),
                    self.wf(),
                    forall|q: int|
                        0 <= q < exp_keys@.len() ==> exists|j: int|
                            0 <= j < self.entries@.len() && #[trigger] exp_keys@[q]@
                                == self.entries@[j].key@,
                decreases n - i,
            {
                let has_expiry = match self.entries[i].expires_at {
                    Some(_) => true,
                    None => false,
                };
                if has_expiry {
                    let kk = clone_bytes(&self.entries[i].key);
                    proof {
                        assert(kk@ == self.entries@[i as int].key@);
                    }
                    exp_keys.push(kk);
                }
                i = i + 1;
            }
            if exp_keys.len() == 0 {
                go = false;
            } else {
                let avail = exp_keys.len();
                let batch = if avail < crate::KEY_EXPIRY_NUM_KEYS_TO_CHECK {
                    avail
                } else {
                    crate::KEY_EXPIRY_NUM_KEYS_TO_CHECK
                };
                let picked = sample_indices(avail, batch);
                let mut sampled: Vec<Vec<u8>> = Vec::new();
                let mut j: usize = 0;
                while j < batch
                    invariant
                        0 <= j <= batch,
                        picked@.len() == batch,
                        batch <= avail,
                        avail == exp_keys@.len(),
                        forall|q: int| 0 <= q < picked@.len() ==> #[trigger] picked@[q] < avail,
                        sampled@.len() == j,
                    decreases batch - j,
                {
                    sampled.push(clone_bytes(&exp_keys[picked[j]]));
                    j = j + 1;
                }
                let now = now_millis();
                let ghost pre = self@;
                let removed = self.purge_keys(&sampled, now);
                proof {
                    lemma_spec_purge_props(pre, bytes_seq(sampled@), now as int);
                    assert forall|k: Seq<u8>| #[trigger]
                        self@.contains_key(k) implies old(self)@.contains_key(k) && self@[k]
                        == old(self)@[k] by {
                        assert(pre.contains_key(k));
                        assert(pre[k] == self@[k]);
                    }
                    assert forall|k: Seq<u8>|
                        old(self)@.contains_key(k) && !(#[trigger] self@.contains_key(k)) implies old(
                        self,
                    )@[k].expires_at is Some by {
                        if pre.contains_key(k) {
                            assert(pre[k].expires_at is Some);
                            assert(pre[k] == old(self)@[k]);
                        }
                    }
                }
                if removed * 4 < batch as u64 {
                    go = false;
                }
            }
            rounds = rounds + 1;
            if rounds >= 16 {
                go = false;
            }
        }
    }

    /// Stores `value` under `key` at the present instant; see `set_at`.
    /// The clock is read once, so the outcome is that of `set_at` at some
    /// single instant.
    pub fn set(
        &mut self,
        key: Vec<u8>,
        value: DataType,
        duration_ms: Option<i64>,
        nx: bool,
        xx: bool,
    ) -> (r: Result<Option<DataType>, ParseError>)
        requires
            old(self).wf(),
        ensures
            final(self).wf(),
            exists|now: int|
                #[trigger] set_post(
                    old(self)@,
                    key@,
                    value_model(value),
                    dur_model(duration_ms),
                    nx,
                    xx,
                    now,
                    final(self)@,
                    set_result_model(r),
                ),
    {
        let now = now_millis();
        let r = self.set_at(key, value, duration_ms, nx, xx, now);
        proof {
            assert(set_post(
                old(self)@,
                key@,
                value_model(value),
                dur_model(duration_ms),
                nx,
                xx,
                now as int,
                self@,
                set_result_model(r),
            ));
        }
        r
    }

    /// Looks `key` up at the present instant; see `get_at`. The clock is
    /// read once, so the outcome is that of `get_at` at some single
    /// instant.
    pub fn get(&mut self, key: Vec<u8>) -> (r: Option<DataType>)
        requires
            old(self).wf(),
        ensures
            final(self).wf(),
            exists|now: int|
                #[trigger] get_post(old(self)@, key@, now, final(self)@, opt_value_model(r)),
    {
        let now = now_millis();
        let r = self.get_at(key, now);
        proof {
            assert(get_post(old(self)@, key@, now as int, self@, opt_value_model(r)));
        }
        r
    }
}

} // verus!
