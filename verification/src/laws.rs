//! Laws of the keyspace: what chains of operations guarantee, stated over
//! the store model and proved from the operations' specifications.

use vstd::prelude::*;

use crate::data_store::{
    clamp_i64, spec_adjust, spec_del, spec_get, spec_lrange, spec_push, spec_set, EntryModel,
    ValueModel,
};
use crate::numbers::{lemma_parse_fmt_roundtrip, spec_fmt_int, spec_parse_i64};

verus! {

/// Storing a value without conditions and without an expiry always
/// succeeds, and a lookup at any instant afterwards answers that value.
pub proof fn lemma_set_then_get(
    m: Map<Seq<u8>, EntryModel>,
    k: Seq<u8>,
    v: ValueModel,
    now: int,
    later: int,
)
    ensures
        spec_set(m, k, v, None, false, false, now) matches Ok(pair) && spec_get(pair.0, k, later)
            == (pair.0, Some(v)),
{
    match spec_set(m, k, v, None, false, false, now) {
        Ok(pair) => {
            assert(pair.0.contains_key(k));
            assert(pair.0[k].value == v);
            assert(pair.0[k].expires_at is None);
        },
        Err(_) => {
            assert(false);
        },
    }
}

/// Storing a value with a non-positive expiry duration leaves a key that
/// any lookup at or after that instant reaps: the lookup removes the key
/// and answers nothing.
pub proof fn lemma_set_expired(
    m: Map<Seq<u8>, EntryModel>,
    k: Seq<u8>,
    v: ValueModel,
    d: int,
    now: int,
    later: int,
)
    requires
        d <= 0,
        i64::MIN <= now <= i64::MAX,
        later >= now,
    ensures
        spec_set(m, k, v, Some(d), false, false, now) matches Ok(pair) && spec_get(
            pair.0,
            k,
            later,
        ) == (pair.0.remove(k), None::<ValueModel>),
{
    match spec_set(m, k, v, Some(d), false, false, now) {
        Ok(pair) => {
            assert(pair.0[k].expires_at == Some(clamp_i64(now + d)));
            assert(clamp_i64(now + d) <= now);
        },
        Err(_) => {
            assert(false);
        },
    }
}

/// Storing a value with an expiry that lies beyond the instant of a
/// later lookup leaves the value readable: the lookup answers it and
/// changes nothing.
pub proof fn lemma_set_live(
    m: Map<Seq<u8>, EntryModel>,
    k: Seq<u8>,
    v: ValueModel,
    d: int,
    now: int,
    later: int,
)
    requires
        later < clamp_i64(now + d),
    ensures
        spec_set(m, k, v, Some(d), false, false, now) matches Ok(pair) && spec_get(
            pair.0,
            k,
            later,
        ) == (pair.0, Some(v)),
{
    match spec_set(m, k, v, Some(d), false, false, now) {
        Ok(pair) => {
            assert(pair.0[k].expires_at == Some(clamp_i64(now + d)));
        },
        Err(_) => {
            assert(false);
        },
    }
}

/// After an unconditional store of `k`, deleting `k` removes it and
/// counts one; a lookup then answers nothing, and deleting `k` again
/// counts zero.
pub proof fn lemma_del_after_set(
    m: Map<Seq<u8>, EntryModel>,
    k: Seq<u8>,
    v: ValueModel,
    dur: Option<int>,
    now: int,
    later: int,
)
    ensures
        spec_set(m, k, v, dur, false, false, now) matches Ok(pair) && {
            let after_del = spec_del(pair.0, seq![k]);
            &&& after_del.1 == 1
            &&& spec_get(after_del.0, k, later) == (after_del.0, None::<ValueModel>)
            &&& spec_del(after_del.0, seq![k]).1 == 0
        },
{
    match spec_set(m, k, v, dur, false, false, now) {
        Ok(pair) => {
            let m1 = pair.0;
            reveal_with_fuel(spec_del, 3);
            assert(seq![k].first() == k);
            assert(seq![k].drop_first() =~= Seq::<Seq<u8>>::empty());
            assert(m1.contains_key(k));
            let m2 = m1.remove(k);
            assert(spec_del(m1, seq![k]) == (m2, 1int));
            assert(!m2.contains_key(k));
            assert(spec_del(m2, seq![k]) == (m2.remove(k), 0int));
        },
        Err(_) => {
            assert(false);
        },
    }
}

/// One counter step: `true` increments, `false` decrements.
pub open spec fn counter_delta(op: bool) -> int {
    if op {
        1
    } else {
        -1
    }
}

/// The net effect of a run of counter steps.
pub open spec fn balance(ops: Seq<bool>) -> int
    decreases ops.len(),
{
    if ops.len() == 0 {
        0
    } else {
        counter_delta(ops.first()) + balance(ops.drop_first())
    }
}

/// The store after a run of counter steps on `k`. A failing step (which
/// the law's premises rule out) leaves the store unchanged.
pub open spec fn run_counter(m: Map<Seq<u8>, EntryModel>, k: Seq<u8>, ops: Seq<bool>) -> Map<
    Seq<u8>,
    EntryModel,
>
    decreases ops.len(),
{
    if ops.len() == 0 {
        m
    } else {
        match spec_adjust(m, k, counter_delta(ops.first())) {
            Ok(pair) => run_counter(pair.0, k, ops.drop_first()),
            Err(_) => run_counter(m, k, ops.drop_first()),
        }
    }
}

/// Every prefix of the run keeps the counter inside the signed 64-bit
/// range when started from `n`.
pub open spec fn prefixes_in_range(n: int, ops: Seq<bool>) -> bool {
    forall|p: int|
        0 <= p <= ops.len() ==> i64::MIN <= n + balance(#[trigger] ops.take(p)) <= i64::MAX
}

/// Running counter steps on a key that holds the decimal rendering of
/// `n` with no expiry leaves it holding the rendering of `n` plus the
/// run's balance, as long as every prefix stays in range.
pub proof fn lemma_counter_steps(
    m: Map<Seq<u8>, EntryModel>,
    k: Seq<u8>,
    n: int,
    ops: Seq<bool>,
)
    requires
        m.contains_key(k),
        m[k].value == ValueModel::Str(spec_fmt_int(n)),
        m[k].expires_at is None,
        i64::MIN <= n <= i64::MAX,
        prefixes_in_range(n, ops),
    ensures
        ({
            let m1 = run_counter(m, k, ops);
            &&& m1.contains_key(k)
            &&& m1[k].value == ValueModel::Str(spec_fmt_int(n + balance(ops)))
            &&& m1[k].expires_at is None
        }),
    decreases ops.len(),
{
    if ops.len() == 0 {
        assert(ops.take(0) =~= ops);
        assert(balance(ops) == 0);
    } else {
        let amount = counter_delta(ops.first());
        reveal_with_fuel(balance, 2);
        lemma_parse_fmt_roundtrip(n);
        assert(spec_parse_i64(spec_fmt_int(n)) == Some(n));
        assert(ops.take(1).first() == ops.first());
        assert(ops.take(1).drop_first() =~= Seq::<bool>::empty());
        assert(balance(ops.take(1)) == amount);
        assert(i64::MIN <= n + amount <= i64::MAX);
        match spec_adjust(m, k, amount) {
            Ok(pair) => {
                let rest = ops.drop_first();
                assert forall|p: int|
                    0 <= p <= rest.len() implies i64::MIN <= (n + amount) + balance(
                    #[trigger] rest.take(p),
                ) <= i64::MAX by {
                    assert(ops.take(p + 1).first() == ops.first());
                    assert(ops.take(p + 1).drop_first() =~= rest.take(p));
                    assert(balance(ops.take(p + 1)) == amount + balance(rest.take(p)));
                }
                lemma_counter_steps(pair.0, k, n + amount, rest);
                assert(balance(ops) == amount + balance(rest));
            },
            Err(_) => {
                assert(false);
            },
        }
    }
}

/// For any run of increments and decrements starting from an absent key,
/// the final value is the decimal rendering of the number of increments
/// minus the number of decrements, as long as every prefix stays in
/// range.
pub proof fn lemma_counter_from_absent(m: Map<Seq<u8>, EntryModel>, k: Seq<u8>, ops: Seq<bool>)
    requires
        !m.contains_key(k),
        ops.len() > 0,
        prefixes_in_range(0, ops),
    ensures
        ({
            let m1 = run_counter(m, k, ops);
            &&& m1.contains_key(k)
            &&& m1[k].value == ValueModel::Str(spec_fmt_int(balance(ops)))
            &&& m1[k].expires_at is None
        }),
{
    let amount = counter_delta(ops.first());
    reveal_with_fuel(balance, 2);
    assert(ops.take(1).first() == ops.first());
    assert(ops.take(1).drop_first() =~= Seq::<bool>::empty());
    assert(balance(ops.take(1)) == amount);
    assert(i64::MIN <= amount <= i64::MAX);
    match spec_adjust(m, k, amount) {
        Ok(pair) => {
            let rest = ops.drop_first();
            assert forall|p: int|
                0 <= p <= rest.len() implies i64::MIN <= amount + balance(
                #[trigger] rest.take(p),
            ) <= i64::MAX by {
                assert(ops.take(p + 1).first() == ops.first());
                assert(ops.take(p + 1).drop_first() =~= rest.take(p));
                assert(balance(ops.take(p + 1)) == amount + balance(rest.take(p)));
            }
            lemma_counter_steps(pair.0, k, amount, rest);
            assert(balance(ops) == amount + balance(rest));
        },
        Err(_) => {
            assert(false);
        },
    }
}

/// Pushing elements onto an absent key and reading the whole list back:
/// a front push answers the elements reversed, a back push answers them
/// in order.
pub proof fn lemma_push_then_range(m: Map<Seq<u8>, EntryModel>, k: Seq<u8>, es: Seq<Seq<u8>>)
    requires
        !m.contains_key(k),
        es.len() >= 1,
    ensures
        spec_push(m, k, es, true) matches Ok(p1) && spec_lrange(p1.0, k, 0, -1) == Ok::<
            Seq<Seq<u8>>,
            crate::cmd::ErrorModel,
        >(es.reverse()),
        spec_push(m, k, es, false) matches Ok(p2) && spec_lrange(p2.0, k, 0, -1) == Ok::<
            Seq<Seq<u8>>,
            crate::cmd::ErrorModel,
        >(es),
{
    match spec_push(m, k, es, true) {
        Ok(p1) => {
            let l = es.reverse();
            assert(p1.0.contains_key(k));
            assert(p1.0[k].value == ValueModel::List(l));
            assert(l.len() == es.len());
            assert(l.subrange(0, l.len() as int) =~= l);
        },
        Err(_) => {
            assert(false);
        },
    }
    match spec_push(m, k, es, false) {
        Ok(p2) => {
            assert(p2.0.contains_key(k));
            assert(p2.0[k].value == ValueModel::List(es));
            assert(es.subrange(0, es.len() as int) =~= es);
        },
        Err(_) => {
            assert(false);
        },
    }
}

} // verus!
