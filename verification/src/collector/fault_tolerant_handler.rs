use std::collections::HashMap;

use vstd::multiset::Multiset;
use vstd::prelude::*;

use crate::data::encrypted_sensor_value::EncryptedSensorValue;

verus! {

broadcast use vstd::std_specs::hash::group_hash_axioms;

// ---------------------------------------------------------------------------
// Model
// ---------------------------------------------------------------------------

/// The two sweep events of one sensor interval: `-1` where the interval
/// opens and `+1` where it closes. A sensor whose upper bound is not above
/// its lower bound is read the other way round.
pub open spec fn sensor_events(v: EncryptedSensorValue) -> Seq<(u64, i8)> {
    if v.upper_bound > v.lower_bound {
        seq![(v.lower_bound, -1i8), (v.upper_bound, 1i8)]
    } else {
        seq![(v.lower_bound, 1i8), (v.upper_bound, -1i8)]
    }
}

/// The events of all sensors, in the order of the sensors.
pub open spec fn event_list(results: Seq<EncryptedSensorValue>) -> Seq<(u64, i8)>
    decreases results.len(),
{
    if results.len() == 0 {
        Seq::empty()
    } else {
        event_list(results.drop_last()) + sensor_events(results.last())
    }
}

/// Maps each order-preserving ciphertext to the end-to-end ciphertext stored
/// beside it; a later sensor overrides an earlier one.
pub open spec fn ciphertext_cache(results: Seq<EncryptedSensorValue>) -> Map<u64, [u8; 24]>
    decreases results.len(),
{
    if results.len() == 0 {
        Map::empty()
    } else {
        let v = results.last();
        ciphertext_cache(results.drop_last()).insert(v.lower_bound, v.enc_lower_bound).insert(
            v.upper_bound,
            v.enc_upper_bound,
        )
    }
}

/// Where an event with key `key` goes when it is inserted into `t`: after
/// every trailing element whose key is not larger.
pub open spec fn insertion_index(t: Seq<(u64, i8)>, key: u64) -> int
    decreases t.len(),
{
    if t.len() == 0 {
        0
    } else if t.last().0 <= key {
        t.len() as int
    } else {
        insertion_index(t.drop_last(), key)
    }
}

/// The stable sort of `s` by key: each element in turn is inserted behind
/// every earlier element with the same key.
pub open spec fn sort_by_key(s: Seq<(u64, i8)>) -> Seq<(u64, i8)>
    decreases s.len(),
{
    if s.len() == 0 {
        s
    } else {
        let t = sort_by_key(s.drop_last());
        t.insert(insertion_index(t, s.last().0), s.last())
    }
}

/// Keys never decrease along `s`.
pub open spec fn is_sorted_by_key(s: Seq<(u64, i8)>) -> bool {
    forall|i: int, j: int| 0 <= i <= j < s.len() ==> s[i].0 <= s[j].0
}

/// The sweep counter after the first `k` events: each event subtracts its mode.
pub open spec fn running_count(s: Seq<(u64, i8)>, k: int) -> int
    decreases k,
{
    if k <= 0 {
        0
    } else {
        running_count(s, k - 1) - s[k - 1].1
    }
}

/// The sweep counter stays within `i8` along all of `s`.
pub open spec fn counts_fit_i8(s: Seq<(u64, i8)>) -> bool {
    forall|k: int| 0 <= k <= s.len() ==> i8::MIN <= #[trigger] running_count(s, k) <= i8::MAX
}

/// Event `i` is where the counter first reaches its positive maximum, and a
/// next event exists.
pub open spec fn is_best_split(s: Seq<(u64, i8)>, i: int) -> bool {
    &&& 0 <= i
    &&& i + 1 < s.len()
    &&& running_count(s, i + 1) > 0
    &&& forall|j: int| 0 <= j < i ==> #[trigger] running_count(s, j + 1) < running_count(s, i + 1)
    &&& forall|j: int|
        i < j < s.len() ==> #[trigger] running_count(s, j + 1) <= running_count(s, i + 1)
}

/// The interval that Marzullo's sweep picks over the sensors' order-preserving
/// ciphertexts: it runs from the event where the count of open intervals first
/// reaches its maximum to the next event, and carries the end-to-end
/// ciphertexts cached for its two bounds. `None` where no interval is open.
pub open spec fn marzullo(results: Seq<EncryptedSensorValue>) -> Option<EncryptedSensorValue> {
    let s = sort_by_key(event_list(results));
    let cache = ciphertext_cache(results);
    if exists|i: int| is_best_split(s, i) {
        let i = choose|i: int| is_best_split(s, i);
        Some(
            EncryptedSensorValue {
                lower_bound: s[i].0,
                upper_bound: s[i + 1].0,
                enc_lower_bound: cache[s[i].0],
                enc_upper_bound: cache[s[i + 1].0],
            },
        )
    } else {
        None
    }
}

/// Sensor `v` counts for the point `x`: `x` lies above the smaller bound and
/// not above the larger one. A sensor with equal bounds counts for no point.
pub open spec fn covers(v: EncryptedSensorValue, x: int) -> bool {
    if v.upper_bound > v.lower_bound {
        v.lower_bound < x <= v.upper_bound
    } else {
        v.upper_bound < x <= v.lower_bound
    }
}

/// How many of the sensors count for the point `x`.
pub open spec fn coverage(results: Seq<EncryptedSensorValue>, x: int) -> int
    decreases results.len(),
{
    if results.len() == 0 {
        0
    } else {
        coverage(results.drop_last(), x) + if covers(results.last(), x) {
            1int
        } else {
            0int
        }
    }
}

// ---------------------------------------------------------------------------
// Proof helpers
// ---------------------------------------------------------------------------

/// What one event adds to the count of the events below `x`.
spec fn contribution(e: (u64, i8), x: int) -> int {
    if e.0 < x {
        -e.1
    } else {
        0
    }
}

/// Sum of the contributions of all events below `x`.
spec fn net_below(s: Seq<(u64, i8)>, x: int) -> int
    decreases s.len(),
{
    if s.len() == 0 {
        0
    } else {
        net_below(s.drop_last(), x) + contribution(s.last(), x)
    }
}

/// How many leading events of a sorted sequence lie below `x`.
spec fn count_below(s: Seq<(u64, i8)>, x: int) -> int
    decreases s.len(),
{
    if s.len() == 0 {
        0
    } else if s.last().0 < x {
        s.len() as int
    } else {
        count_below(s.drop_last(), x)
    }
}

/// The loop of the sweep: best count so far and where it was first reached.
spec fn sweep(s: Seq<(u64, i8)>, n: int) -> (int, int)
    decreases n,
{
    if n <= 0 {
        (0, -1)
    } else {
        let prev = sweep(s, n - 1);
        if running_count(s, n) > prev.0 {
            (running_count(s, n), n - 1)
        } else {
            prev
        }
    }
}

proof fn lemma_running_count_prefix(s: Seq<(u64, i8)>, t: Seq<(u64, i8)>, k: int)
    requires
        0 <= k <= s.len(),
        k <= t.len(),
        forall|i: int| 0 <= i < k ==> s[i] == t[i],
    ensures
        running_count(s, k) == running_count(t, k),
    decreases k,
{
    if k > 0 {
        lemma_running_count_prefix(s, t, k - 1);
    }
}

proof fn lemma_net_below_concat(a: Seq<(u64, i8)>, b: Seq<(u64, i8)>, x: int)
    ensures
        net_below(a + b, x) == net_below(a, x) + net_below(b, x),
    decreases b.len(),
{
    if b.len() == 0 {
        assert(a + b =~= a);
    } else {
        assert((a + b).drop_last() =~= a + b.drop_last());
        lemma_net_below_concat(a, b.drop_last(), x);
    }
}

proof fn lemma_net_below_insert(t: Seq<(u64, i8)>, p: int, e: (u64, i8), x: int)
    requires
        0 <= p <= t.len(),
    ensures
        net_below(t.insert(p, e), x) == net_below(t, x) + contribution(e, x),
    decreases t.len(),
{
    if p == t.len() {
        assert(t.insert(p, e).drop_last() =~= t);
    } else {
        assert(t.insert(p, e).drop_last() =~= t.drop_last().insert(p, e));
        lemma_net_below_insert(t.drop_last(), p, e, x);
    }
}

proof fn lemma_net_below_sort(s: Seq<(u64, i8)>, x: int)
    ensures
        net_below(sort_by_key(s), x) == net_below(s, x),
    decreases s.len(),
{
    if s.len() > 0 {
        let t = sort_by_key(s.drop_last());
        lemma_sort_len(s.drop_last());
        lemma_insertion_index_range(t, s.last().0);
        lemma_net_below_sort(s.drop_last(), x);
        lemma_net_below_insert(t, insertion_index(t, s.last().0), s.last(), x);
    }
}

proof fn lemma_insertion_index_range(t: Seq<(u64, i8)>, key: u64)
    ensures
        0 <= insertion_index(t, key) <= t.len(),
    decreases t.len(),
{
    if t.len() > 0 && t.last().0 > key {
        lemma_insertion_index_range(t.drop_last(), key);
    }
}

proof fn lemma_sort_len(s: Seq<(u64, i8)>)
    ensures
        sort_by_key(s).len() == s.len(),
    decreases s.len(),
{
    if s.len() > 0 {
        lemma_sort_len(s.drop_last());
        lemma_insertion_index_range(sort_by_key(s.drop_last()), s.last().0);
    }
}

/// In a sorted sequence the insertion index separates the keys not above
/// `key` from those above it.
proof fn lemma_insertion_index_sorted(t: Seq<(u64, i8)>, key: u64)
    requires
        is_sorted_by_key(t),
    ensures
        forall|i: int| 0 <= i < insertion_index(t, key) ==> t[i].0 <= key,
        forall|i: int| insertion_index(t, key) <= i < t.len() ==> t[i].0 > key,
    decreases t.len(),
{
    if t.len() > 0 {
        if t.last().0 <= key {
            assert forall|i: int| 0 <= i < t.len() implies t[i].0 <= key by {
                assert(t[i].0 <= t[t.len() - 1].0);
            }
        } else {
            let d = t.drop_last();
            lemma_sorted_drop_last(t);
            lemma_insertion_index_sorted(d, key);
            lemma_insertion_index_range(d, key);
            assert forall|i: int| insertion_index(t, key) <= i < t.len() implies t[i].0 > key by {
                if i < d.len() {
                    assert(t[i] == d[i]);
                }
            }
            assert forall|i: int| 0 <= i < insertion_index(t, key) implies t[i].0 <= key by {
                assert(t[i] == d[i]);
            }
        }
    }
}

proof fn lemma_sorted_drop_last(s: Seq<(u64, i8)>)
    requires
        is_sorted_by_key(s),
        s.len() > 0,
    ensures
        is_sorted_by_key(s.drop_last()),
{
    let d = s.drop_last();
    assert forall|i: int, j: int| 0 <= i <= j < d.len() implies d[i].0 <= d[j].0 by {
        assert(d[i] == s[i]);
        assert(d[j] == s[j]);
    }
}

/// The stable sort orders the events by key.
pub proof fn lemma_sort_sorted(s: Seq<(u64, i8)>)
    ensures
        is_sorted_by_key(sort_by_key(s)),
        sort_by_key(s).len() == s.len(),
    decreases s.len(),
{
    lemma_sort_len(s);
    if s.len() > 0 {
        let t = sort_by_key(s.drop_last());
        let e = s.last();
        lemma_sort_sorted(s.drop_last());
        lemma_insertion_index_sorted(t, e.0);
        lemma_insertion_index_range(t, e.0);
        let p = insertion_index(t, e.0);
        t.insert_ensures(p, e);
        let r = t.insert(p, e);
        assert forall|i: int, j: int| 0 <= i <= j < r.len() implies r[i].0 <= r[j].0 by {
            if j < p {
            } else if j == p {
            } else if i < p {
                assert(r[j] == t[j - 1]);
            } else if i == p {
                assert(r[j] == t[j - 1]);
            } else {
                assert(r[j] == t[j - 1]);
                assert(r[i] == t[i - 1]);
            }
        }
    }
}

/// The stable sort keeps every event, as often as it occurs.
pub proof fn lemma_sort_permutes(s: Seq<(u64, i8)>)
    ensures
        sort_by_key(s).to_multiset() == s.to_multiset(),
    decreases s.len(),
{
    broadcast use vstd::seq_lib::to_multiset_insert, vstd::seq_lib::to_multiset_build;

    if s.len() > 0 {
        let t = sort_by_key(s.drop_last());
        lemma_sort_permutes(s.drop_last());
        lemma_sort_len(s.drop_last());
        lemma_insertion_index_range(t, s.last().0);
        assert(s =~= s.drop_last().push(s.last()));
        vstd::seq_lib::to_multiset_build(s.drop_last(), s.last());
    }
}

proof fn lemma_sort_contains(s: Seq<(u64, i8)>, e: (u64, i8))
    requires
        sort_by_key(s).contains(e),
    ensures
        s.contains(e),
{
    broadcast use vstd::seq_lib::to_multiset_contains;

    lemma_sort_permutes(s);
    vstd::seq_lib::to_multiset_contains(sort_by_key(s), e);
    vstd::seq_lib::to_multiset_contains(s, e);
}

proof fn lemma_event_keys_cached(results: Seq<EncryptedSensorValue>, e: (u64, i8))
    requires
        event_list(results).contains(e),
    ensures
        ciphertext_cache(results).contains_key(e.0),
    decreases results.len(),
{
    if results.len() > 0 {
        let prev = event_list(results.drop_last());
        let last = sensor_events(results.last());
        let k = choose|k: int| 0 <= k < event_list(results).len() && event_list(results)[k] == e;
        if k < prev.len() {
            assert(prev[k] == e);
            lemma_event_keys_cached(results.drop_last(), e);
        } else {
            assert(last[k - prev.len()] == e);
        }
    }
}

/// The events of the sensors below `x` add up to the coverage of `x`.
proof fn lemma_net_below_events(results: Seq<EncryptedSensorValue>, x: int)
    ensures
        net_below(event_list(results), x) == coverage(results, x),
    decreases results.len(),
{
    if results.len() > 0 {
        let v = results.last();
        lemma_net_below_events(results.drop_last(), x);
        lemma_net_below_concat(event_list(results.drop_last()), sensor_events(v), x);
        let ev = sensor_events(v);
        assert(net_below(ev, x) == contribution(ev[0], x) + contribution(ev[1], x)) by {
            assert(ev.len() == 2);
            assert(ev.drop_last().drop_last() =~= Seq::<(u64, i8)>::empty());
            assert(net_below(ev.drop_last().drop_last(), x) == 0);
            assert(ev.drop_last().last() == ev[0]);
            assert(net_below(ev.drop_last(), x) == contribution(ev[0], x));
            assert(ev.last() == ev[1]);
        }
    }
}

/// Over all events, the count comes back to zero.
proof fn lemma_total_zero(results: Seq<EncryptedSensorValue>)
    ensures
        net_below(event_list(results), 0x1_0000_0000_0000_0000) == 0,
{
    lemma_net_below_events(results, 0x1_0000_0000_0000_0000);
    lemma_no_coverage_above(results);
}

proof fn lemma_no_coverage_above(results: Seq<EncryptedSensorValue>)
    ensures
        coverage(results, 0x1_0000_0000_0000_0000) == 0,
    decreases results.len(),
{
    if results.len() > 0 {
        lemma_no_coverage_above(results.drop_last());
    }
}

/// When every key lies below `x`, the events below `x` are all the events.
proof fn lemma_net_below_all(s: Seq<(u64, i8)>, x: int)
    requires
        forall|i: int| 0 <= i < s.len() ==> s[i].0 < x,
    ensures
        net_below(s, x) == running_count(s, s.len() as int),
    decreases s.len(),
{
    if s.len() > 0 {
        lemma_net_below_all(s.drop_last(), x);
        lemma_running_count_prefix(s, s.drop_last(), s.len() - 1);
    }
}

/// In a sorted sequence the events below `x` are a prefix.
proof fn lemma_net_below_sorted(s: Seq<(u64, i8)>, x: int)
    requires
        is_sorted_by_key(s),
    ensures
        0 <= count_below(s, x) <= s.len(),
        net_below(s, x) == running_count(s, count_below(s, x)),
    decreases s.len(),
{
    if s.len() > 0 {
        if s.last().0 < x {
            lemma_net_below_all(s, x);
        } else {
            lemma_net_below_sorted(s.drop_last(), x);
            lemma_running_count_prefix(s, s.drop_last(), count_below(s.drop_last(), x));
        }
    }
}

proof fn lemma_count_below_gap(s: Seq<(u64, i8)>, k: int, x: int)
    requires
        is_sorted_by_key(s),
        0 < k < s.len(),
        s[k - 1].0 < x <= s[k].0,
    ensures
        count_below(s, x) == k,
    decreases s.len(),
{
    let d = s.drop_last();
    assert(s[s.len() - 1].0 >= s[k].0);
    lemma_sorted_drop_last(s);
    assert(!(s.last().0 < x));
    assert(count_below(s, x) == count_below(d, x));
    if s.len() - 1 > k {
        assert(d[k - 1] == s[k - 1] && d[k] == s[k]);
        lemma_count_below_gap(d, k, x);
    } else {
        assert(d.len() == k);
        assert(d.last() == s[k - 1]);
        assert(d.last().0 < x);
    }
}

proof fn lemma_sweep(s: Seq<(u64, i8)>, n: int)
    requires
        0 <= n <= s.len(),
    ensures
        sweep(s, n).0 >= 0,
        forall|j: int| 0 <= j < n ==> #[trigger] running_count(s, j + 1) <= sweep(s, n).0,
        sweep(s, n).1 == -1 <==> sweep(s, n).0 == 0,
        sweep(s, n).1 != -1 ==> {
            &&& 0 <= sweep(s, n).1 < n
            &&& running_count(s, sweep(s, n).1 + 1) == sweep(s, n).0
            &&& forall|j: int|
                0 <= j < sweep(s, n).1 ==> #[trigger] running_count(s, j + 1) < sweep(s, n).0
        },
    decreases n,
{
    if n > 0 {
        lemma_sweep(s, n - 1);
    }
}

proof fn lemma_best_split_unique(s: Seq<(u64, i8)>, i: int, j: int)
    requires
        is_best_split(s, i),
        is_best_split(s, j),
    ensures
        i == j,
{
    if i < j {
        assert(running_count(s, i + 1) < running_count(s, j + 1));
    } else if j < i {
        assert(running_count(s, j + 1) < running_count(s, i + 1));
    }
}

/// The sweep over the sorted events ends at the split that `marzullo` picks.
proof fn lemma_sweep_is_marzullo(results: Seq<EncryptedSensorValue>)
    ensures
        ({
            let s = sort_by_key(event_list(results));
            let r = sweep(s, s.len() as int);
            &&& r.1 == -1 ==> !(exists|i: int| is_best_split(s, i))
            &&& r.1 != -1 ==> is_best_split(s, r.1)
        }),
{
    let s = sort_by_key(event_list(results));
    let n = s.len() as int;
    lemma_sweep(s, n);
    lemma_sort_sorted(event_list(results));
    lemma_total_zero(results);
    lemma_net_below_sort(event_list(results), 0x1_0000_0000_0000_0000);
    lemma_net_below_all(s, 0x1_0000_0000_0000_0000);
    let r = sweep(s, n);
    if r.1 == -1 {
        if exists|i: int| is_best_split(s, i) {
            let i = choose|i: int| is_best_split(s, i);
            assert(running_count(s, i + 1) <= r.0);
        }
    } else {
        assert(r.1 + 1 != n);
    }
}

// ---------------------------------------------------------------------------
// Laws
// ---------------------------------------------------------------------------

/// Marzullo's guarantee: every point of the chosen interval (above its lower
/// bound, up to its upper bound) is covered by at least one sensor, and by at
/// least as many sensors as any other point at all.
pub proof fn lemma_marzullo_optimal(results: Seq<EncryptedSensorValue>, x: int, y: int)
    requires
        marzullo(results) is Some,
        marzullo(results)->Some_0.lower_bound < y <= marzullo(results)->Some_0.upper_bound,
    ensures
        coverage(results, y) >= 1,
        coverage(results, x) <= coverage(results, y),
{
    let ev = event_list(results);
    let s = sort_by_key(ev);
    lemma_sort_sorted(ev);
    let i = choose|i: int| is_best_split(s, i);
    lemma_net_below_events(results, x);
    lemma_net_below_events(results, y);
    lemma_net_below_sort(ev, x);
    lemma_net_below_sort(ev, y);
    lemma_net_below_sorted(s, x);
    lemma_net_below_sorted(s, y);
    lemma_count_below_gap(s, i + 1, y);
    let kx = count_below(s, x);
    if kx > 0 {
        if kx - 1 < i {
            assert(running_count(s, (kx - 1) + 1) < running_count(s, i + 1));
        } else if kx - 1 > i {
            assert(running_count(s, (kx - 1) + 1) <= running_count(s, i + 1));
        }
    }
}

/// Where Marzullo's sweep finds nothing, no point is covered by any sensor.
pub proof fn lemma_marzullo_none(results: Seq<EncryptedSensorValue>, x: int)
    requires
        marzullo(results) is None,
    ensures
        coverage(results, x) == 0,
{
    let ev = event_list(results);
    let s = sort_by_key(ev);
    lemma_sort_sorted(ev);
    lemma_sweep_is_marzullo(results);
    lemma_sweep(s, s.len() as int);
    lemma_net_below_events(results, x);
    lemma_net_below_sort(ev, x);
    lemma_net_below_sorted(s, x);
    lemma_coverage_nonneg(results, x);
    let kx = count_below(s, x);
    if kx > 0 {
        assert(running_count(s, (kx - 1) + 1) <= sweep(s, s.len() as int).0);
    }
}

proof fn lemma_coverage_nonneg(results: Seq<EncryptedSensorValue>, x: int)
    ensures
        coverage(results, x) >= 0,
    decreases results.len(),
{
    if results.len() > 0 {
        lemma_coverage_nonneg(results.drop_last(), x);
    }
}

/// The chosen interval never runs backwards, and both of its bounds are
/// bounds of some sensor.
pub proof fn lemma_marzullo_bounds(results: Seq<EncryptedSensorValue>)
    requires
        marzullo(results) is Some,
    ensures
        marzullo(results)->Some_0.lower_bound <= marzullo(results)->Some_0.upper_bound,
        exists|a: int|
            0 <= a < results.len() && (results[a].lower_bound == marzullo(
                results,
            )->Some_0.lower_bound || results[a].upper_bound == marzullo(
                results,
            )->Some_0.lower_bound),
        exists|b: int|
            0 <= b < results.len() && (results[b].lower_bound == marzullo(
                results,
            )->Some_0.upper_bound || results[b].upper_bound == marzullo(
                results,
            )->Some_0.upper_bound),
{
    let ev = event_list(results);
    let s = sort_by_key(ev);
    lemma_sort_sorted(ev);
    let i = choose|i: int| is_best_split(s, i);
    assert(s.contains(s[i]));
    assert(s.contains(s[i + 1]));
    lemma_sort_contains(ev, s[i]);
    lemma_sort_contains(ev, s[i + 1]);
    lemma_event_key_from_sensor(results, s[i]);
    lemma_event_key_from_sensor(results, s[i + 1]);
}

proof fn lemma_event_key_from_sensor(results: Seq<EncryptedSensorValue>, e: (u64, i8))
    requires
        event_list(results).contains(e),
    ensures
        exists|a: int|
            0 <= a < results.len() && (results[a].lower_bound == e.0 || results[a].upper_bound
                == e.0),
    decreases results.len(),
{
    let prev = event_list(results.drop_last());
    let k = choose|k: int| 0 <= k < event_list(results).len() && event_list(results)[k] == e;
    if k < prev.len() {
        assert(prev[k] == e);
        lemma_event_key_from_sensor(results.drop_last(), e);
        let a = choose|a: int|
            0 <= a < results.drop_last().len() && (results.drop_last()[a].lower_bound == e.0
                || results.drop_last()[a].upper_bound == e.0);
        assert(results[a] == results.drop_last()[a]);
    } else {
        let last = sensor_events(results.last());
        assert(last[k - prev.len()] == e);
        assert(results[results.len() - 1] == results.last());
    }
}

/// `v` with both order-preserving bounds passed through `f`.
pub open spec fn relabel(v: EncryptedSensorValue, f: spec_fn(u64) -> u64) -> EncryptedSensorValue {
    EncryptedSensorValue { lower_bound: f(v.lower_bound), upper_bound: f(v.upper_bound), ..v }
}

/// The bounds, lower or upper, of the sensors.
pub open spec fn bound_set(results: Seq<EncryptedSensorValue>) -> Set<u64> {
    Set::new(
        |x: u64|
            exists|a: int|
                0 <= a < results.len() && (results[a].lower_bound == x || results[a].upper_bound
                    == x),
    )
}

/// `f` is strictly increasing on `keys`.
pub open spec fn increasing_on(f: spec_fn(u64) -> u64, keys: Set<u64>) -> bool {
    forall|a: u64, b: u64|
        keys.contains(a) && keys.contains(b) && a < b ==> #[trigger] f(a) < #[trigger] f(b)
}

spec fn relabel_event(e: (u64, i8), f: spec_fn(u64) -> u64) -> (u64, i8) {
    (f(e.0), e.1)
}

proof fn lemma_bound_set_drop_last(results: Seq<EncryptedSensorValue>)
    requires
        results.len() > 0,
    ensures
        bound_set(results.drop_last()).subset_of(bound_set(results)),
        bound_set(results).contains(results.last().lower_bound),
        bound_set(results).contains(results.last().upper_bound),
{
    assert forall|x: u64| bound_set(results.drop_last()).contains(x) implies bound_set(
        results,
    ).contains(x) by {
        let a = choose|a: int|
            0 <= a < results.drop_last().len() && (results.drop_last()[a].lower_bound == x
                || results.drop_last()[a].upper_bound == x);
        assert(results[a] == results.drop_last()[a]);
    }
    assert(results[results.len() - 1] == results.last());
}

proof fn lemma_relabel_events(
    results: Seq<EncryptedSensorValue>,
    f: spec_fn(u64) -> u64,
    keys: Set<u64>,
)
    requires
        bound_set(results).subset_of(keys),
        increasing_on(f, keys),
    ensures
        event_list(results.map_values(|v: EncryptedSensorValue| relabel(v, f)))
            == event_list(results).map_values(|e: (u64, i8)| relabel_event(e, f)),
    decreases results.len(),
{
    let h = |v: EncryptedSensorValue| relabel(v, f);
    let g = |e: (u64, i8)| relabel_event(e, f);
    if results.len() == 0 {
        assert(event_list(results.map_values(h)) =~= event_list(results).map_values(g));
    } else {
        let m = results.map_values(h);
        lemma_bound_set_drop_last(results);
        assert(m.drop_last() =~= results.drop_last().map_values(h));
        lemma_relabel_events(results.drop_last(), f, keys);
        let v = results.last();
        assert(m.last() == relabel(v, f));
        assert(f(v.upper_bound) > f(v.lower_bound) <==> v.upper_bound > v.lower_bound) by {
            if v.upper_bound > v.lower_bound {
                assert(f(v.lower_bound) < f(v.upper_bound));
            } else if v.upper_bound < v.lower_bound {
                assert(f(v.upper_bound) < f(v.lower_bound));
            }
        }
        assert(event_list(m) =~= event_list(results).map_values(g));
    }
}

proof fn lemma_relabel_insertion_index(
    t: Seq<(u64, i8)>,
    k: u64,
    f: spec_fn(u64) -> u64,
    keys: Set<u64>,
)
    requires
        increasing_on(f, keys),
        keys.contains(k),
        forall|i: int| 0 <= i < t.len() ==> keys.contains(#[trigger] t[i].0),
    ensures
        insertion_index(t.map_values(|e: (u64, i8)| relabel_event(e, f)), f(k))
            == insertion_index(t, k),
    decreases t.len(),
{
    let g = |e: (u64, i8)| relabel_event(e, f);
    if t.len() > 0 {
        let m = t.map_values(g);
        let d = t.drop_last();
        assert(m.drop_last() =~= d.map_values(g));
        assert forall|i: int| 0 <= i < d.len() implies keys.contains(#[trigger] d[i].0) by {
            assert(d[i] == t[i]);
        }
        lemma_relabel_insertion_index(d, k, f, keys);
        assert(m.last() == relabel_event(t.last(), f));
        assert(keys.contains(t[t.len() - 1].0));
        if t.last().0 < k {
            assert(f(t.last().0) < f(k));
        } else if t.last().0 > k {
            assert(f(k) < f(t.last().0));
        }
    }
}

proof fn lemma_relabel_sort(s: Seq<(u64, i8)>, f: spec_fn(u64) -> u64, keys: Set<u64>)
    requires
        increasing_on(f, keys),
        forall|i: int| 0 <= i < s.len() ==> keys.contains(#[trigger] s[i].0),
    ensures
        sort_by_key(s.map_values(|e: (u64, i8)| relabel_event(e, f))) == sort_by_key(s).map_values(
            |e: (u64, i8)| relabel_event(e, f),
        ),
    decreases s.len(),
{
    let g = |e: (u64, i8)| relabel_event(e, f);
    if s.len() == 0 {
        assert(sort_by_key(s.map_values(g)) =~= sort_by_key(s).map_values(g));
    } else {
        let m = s.map_values(g);
        let d = s.drop_last();
        assert(m.drop_last() =~= d.map_values(g));
        assert forall|i: int| 0 <= i < d.len() implies keys.contains(#[trigger] d[i].0) by {
            assert(d[i] == s[i]);
        }
        lemma_relabel_sort(d, f, keys);
        let t = sort_by_key(d);
        lemma_sort_len(d);
        assert forall|i: int| 0 <= i < t.len() implies keys.contains(#[trigger] t[i].0) by {
            assert(t.contains(t[i]));
            lemma_sort_contains(d, t[i]);
            let j = choose|j: int| 0 <= j < d.len() && d[j] == t[i];
        }
        assert(keys.contains(s[s.len() - 1].0));
        lemma_relabel_insertion_index(t, s.last().0, f, keys);
        lemma_insertion_index_range(t, s.last().0);
        let p = insertion_index(t, s.last().0);
        assert(m.last() == g(s.last()));
        assert(t.map_values(g).insert(p, g(s.last())) =~= t.insert(p, s.last()).map_values(g));
    }
}

proof fn lemma_relabel_running_count(s: Seq<(u64, i8)>, f: spec_fn(u64) -> u64, k: int)
    requires
        0 <= k <= s.len(),
    ensures
        running_count(s.map_values(|e: (u64, i8)| relabel_event(e, f)), k) == running_count(s, k),
    decreases k,
{
    if k > 0 {
        lemma_relabel_running_count(s, f, k - 1);
    }
}

proof fn lemma_relabel_cache(
    results: Seq<EncryptedSensorValue>,
    f: spec_fn(u64) -> u64,
    keys: Set<u64>,
    k: u64,
)
    requires
        bound_set(results).subset_of(keys),
        increasing_on(f, keys),
        keys.contains(k),
        ciphertext_cache(results).contains_key(k),
    ensures
        ciphertext_cache(results.map_values(|v: EncryptedSensorValue| relabel(v, f))).contains_key(
            f(k),
        ),
        ciphertext_cache(results.map_values(|v: EncryptedSensorValue| relabel(v, f)))[f(k)]
            == ciphertext_cache(results)[k],
    decreases results.len(),
{
    let h = |v: EncryptedSensorValue| relabel(v, f);
    let m = results.map_values(h);
    let v = results.last();
    lemma_bound_set_drop_last(results);
    assert(m.drop_last() =~= results.drop_last().map_values(h));
    assert(m.last() == relabel(v, f));
    let lo = v.lower_bound;
    let hi = v.upper_bound;
    if k != hi {
        assert(f(k) != f(hi)) by {
            if k < hi {
                assert(f(k) < f(hi));
            } else {
                assert(f(hi) < f(k));
            }
        }
        if k != lo {
            assert(f(k) != f(lo)) by {
                if k < lo {
                    assert(f(k) < f(lo));
                } else {
                    assert(f(lo) < f(k));
                }
            }
            lemma_relabel_cache(results.drop_last(), f, keys, k);
        }
    }
}

/// Marzullo's algorithm only compares bounds: running it on bounds passed
/// through a map that is strictly increasing on them (such as an
/// order-preserving encryption) picks the same interval, passed through the
/// same map, with the same end-to-end ciphertexts.
pub proof fn lemma_marzullo_order_invariant(
    results: Seq<EncryptedSensorValue>,
    f: spec_fn(u64) -> u64,
)
    requires
        increasing_on(f, bound_set(results)),
    ensures
        marzullo(results.map_values(|v: EncryptedSensorValue| relabel(v, f))) == match marzullo(
            results,
        ) {
            Some(v) => Some(relabel(v, f)),
            None => None,
        },
{
    let keys = bound_set(results);
    let h = |v: EncryptedSensorValue| relabel(v, f);
    let g = |e: (u64, i8)| relabel_event(e, f);
    let m = results.map_values(h);
    let ev = event_list(results);
    let s = sort_by_key(ev);
    let s2 = sort_by_key(event_list(m));
    assert forall|i: int| 0 <= i < ev.len() implies keys.contains(#[trigger] ev[i].0) by {
        assert(ev.contains(ev[i]));
        lemma_event_key_from_sensor(results, ev[i]);
    }
    lemma_relabel_events(results, f, keys);
    lemma_relabel_sort(ev, f, keys);
    lemma_sort_len(ev);
    assert(s2 == s.map_values(g));
    assert forall|i: int| is_best_split(s2, i) <==> is_best_split(s, i) by {
        if 0 <= i && i + 1 < s.len() {
            lemma_relabel_running_count(s, f, i + 1);
            assert forall|j: int|
                #![trigger running_count(s2, j + 1)]
                #![trigger running_count(s, j + 1)]
                0 <= j < s.len() implies running_count(s2, j + 1) == running_count(s, j + 1) by {
                lemma_relabel_running_count(s, f, j + 1);
            }
        }
    }
    if exists|i: int| is_best_split(s, i) {
        let i = choose|i: int| is_best_split(s, i);
        let i2 = choose|i: int| is_best_split(s2, i);
        lemma_best_split_unique(s, i, i2);
        assert(s.contains(s[i]));
        assert(s.contains(s[i + 1]));
        lemma_sort_contains(ev, s[i]);
        lemma_sort_contains(ev, s[i + 1]);
        lemma_event_keys_cached(results, s[i]);
        lemma_event_keys_cached(results, s[i + 1]);
        lemma_event_key_from_sensor(results, s[i]);
        lemma_event_key_from_sensor(results, s[i + 1]);
        lemma_relabel_cache(results, f, keys, s[i].0);
        lemma_relabel_cache(results, f, keys, s[i + 1].0);
    }
}

spec fn count_mode(s: Seq<(u64, i8)>, m: i8) -> int
    decreases s.len(),
{
    if s.len() == 0 {
        0
    } else {
        count_mode(s.drop_last(), m) + if s.last().1 == m {
            1int
        } else {
            0int
        }
    }
}

proof fn lemma_count_mode_insert(t: Seq<(u64, i8)>, p: int, e: (u64, i8), m: i8)
    requires
        0 <= p <= t.len(),
    ensures
        count_mode(t.insert(p, e), m) == count_mode(t, m) + if e.1 == m {
            1int
        } else {
            0int
        },
    decreases t.len(),
{
    if p == t.len() {
        assert(t.insert(p, e).drop_last() =~= t);
    } else {
        assert(t.insert(p, e).drop_last() =~= t.drop_last().insert(p, e));
        lemma_count_mode_insert(t.drop_last(), p, e, m);
    }
}

proof fn lemma_count_mode_sort(s: Seq<(u64, i8)>, m: i8)
    ensures
        count_mode(sort_by_key(s), m) == count_mode(s, m),
    decreases s.len(),
{
    if s.len() > 0 {
        let t = sort_by_key(s.drop_last());
        lemma_sort_len(s.drop_last());
        lemma_insertion_index_range(t, s.last().0);
        lemma_count_mode_sort(s.drop_last(), m);
        lemma_count_mode_insert(t, insertion_index(t, s.last().0), s.last(), m);
    }
}

proof fn lemma_count_mode_events(results: Seq<EncryptedSensorValue>, m: i8)
    requires
        m == 1 || m == -1,
    ensures
        count_mode(event_list(results), m) == results.len(),
    decreases results.len(),
{
    if results.len() > 0 {
        lemma_count_mode_events(results.drop_last(), m);
        let a = event_list(results.drop_last());
        let ev = sensor_events(results.last());
        let c = a + ev;
        assert(c == event_list(results));
        assert(c.drop_last() =~= a.push(ev[0]));
        assert(a.push(ev[0]).drop_last() =~= a);
        assert(c.last() == ev[1]);
        assert(a.push(ev[0]).last() == ev[0]);
        assert(count_mode(a.push(ev[0]), m) == count_mode(a, m) + if ev[0].1 == m {
            1int
        } else {
            0int
        });
        assert(count_mode(c, m) == count_mode(a.push(ev[0]), m) + if ev[1].1 == m {
            1int
        } else {
            0int
        });
    }
}

/// The counter after `k` events lies between minus the closing events and
/// the opening events among them, and those never exceed all of them.
proof fn lemma_running_count_bounds(s: Seq<(u64, i8)>, k: int)
    requires
        0 <= k <= s.len(),
        forall|i: int| 0 <= i < s.len() ==> s[i].1 == 1 || s[i].1 == -1,
    ensures
        -count_mode(s, 1i8) <= running_count(s, k) <= count_mode(s, -1i8),
{
    lemma_running_count_prefix_counts(s, k);
    lemma_count_mode_take(s, k, 1i8);
    lemma_count_mode_take(s, k, -1i8);
}

proof fn lemma_running_count_prefix_counts(s: Seq<(u64, i8)>, k: int)
    requires
        0 <= k <= s.len(),
        forall|i: int| 0 <= i < s.len() ==> s[i].1 == 1 || s[i].1 == -1,
    ensures
        running_count(s, k) == count_mode(s.take(k), -1i8) - count_mode(s.take(k), 1i8),
    decreases k,
{
    if k > 0 {
        lemma_running_count_prefix_counts(s, k - 1);
        assert(s.take(k).drop_last() =~= s.take(k - 1));
    } else {
        assert(s.take(0) =~= Seq::<(u64, i8)>::empty());
    }
}

proof fn lemma_count_mode_take(s: Seq<(u64, i8)>, k: int, m: i8)
    requires
        0 <= k <= s.len(),
    ensures
        0 <= count_mode(s.take(k), m) <= count_mode(s, m),
    decreases s.len() - k,
{
    if k == s.len() {
        assert(s.take(k) =~= s);
        lemma_count_mode_nonneg(s, m);
    } else {
        lemma_count_mode_take(s, k + 1, m);
        assert(s.take(k + 1).drop_last() =~= s.take(k));
        lemma_count_mode_nonneg(s.take(k), m);
    }
}

proof fn lemma_count_mode_nonneg(s: Seq<(u64, i8)>, m: i8)
    ensures
        count_mode(s, m) >= 0,
    decreases s.len(),
{
    if s.len() > 0 {
        lemma_count_mode_nonneg(s.drop_last(), m);
    }
}

proof fn lemma_event_modes(results: Seq<EncryptedSensorValue>, e: (u64, i8))
    requires
        event_list(results).contains(e),
    ensures
        e.1 == 1 || e.1 == -1,
    decreases results.len(),
{
    let prev = event_list(results.drop_last());
    let k = choose|k: int| 0 <= k < event_list(results).len() && event_list(results)[k] == e;
    if k < prev.len() {
        assert(prev[k] == e);
        lemma_event_modes(results.drop_last(), e);
    } else {
        let last = sensor_events(results.last());
        assert(last[k - prev.len()] == e);
    }
}

/// With at most 127 sensors the sweep counter cannot leave `i8`: it never
/// exceeds the number of sensors either way.
pub proof fn lemma_few_sensors_fit(results: Seq<EncryptedSensorValue>)
    requires
        results.len() <= 127,
    ensures
        counts_fit_i8(sort_by_key(event_list(results))),
{
    let ev = event_list(results);
    let s = sort_by_key(ev);
    lemma_sort_len(ev);
    assert forall|i: int| 0 <= i < s.len() implies s[i].1 == 1 || s[i].1 == -1 by {
        assert(s.contains(s[i]));
        lemma_sort_contains(ev, s[i]);
        lemma_event_modes(results, s[i]);
    }
    lemma_count_mode_sort(ev, 1i8);
    lemma_count_mode_sort(ev, -1i8);
    lemma_count_mode_events(results, 1i8);
    lemma_count_mode_events(results, -1i8);
    assert forall|k: int| 0 <= k <= s.len() implies i8::MIN <= #[trigger] running_count(s, k)
        <= i8::MAX by {
        lemma_running_count_bounds(s, k);
    }
}

/// No two bounds of the sensors are equal: each sensor's lower bound differs
/// from its upper bound, and no bound of one sensor is a bound of another.
pub open spec fn distinct_bounds(results: Seq<EncryptedSensorValue>) -> bool {
    forall|a: int, b: int|
        0 <= a < results.len() && 0 <= b < results.len() ==> {
            &&& (#[trigger] results[a]).lower_bound != results[a].upper_bound
            &&& a != b ==> {
                &&& results[a].lower_bound != (#[trigger] results[b]).lower_bound
                &&& results[a].lower_bound != results[b].upper_bound
                &&& results[a].upper_bound != results[b].upper_bound
            }
        }
}

/// No two events share a key.
spec fn distinct_keys(s: Seq<(u64, i8)>) -> bool {
    forall|i: int, j: int| 0 <= i < j < s.len() ==> (#[trigger] s[i]).0 != (#[trigger] s[j]).0
}

proof fn lemma_event_list_index(results: Seq<EncryptedSensorValue>)
    ensures
        event_list(results).len() == 2 * results.len(),
        forall|a: int|
            0 <= a < results.len() ==> event_list(results)[2 * a] == sensor_events(
                #[trigger] results[a],
            )[0] && event_list(results)[2 * a + 1] == sensor_events(results[a])[1],
    decreases results.len(),
{
    if results.len() > 0 {
        let d = results.drop_last();
        lemma_event_list_index(d);
        assert forall|a: int| 0 <= a < results.len() implies event_list(results)[2 * a]
            == sensor_events(#[trigger] results[a])[0] && event_list(results)[2 * a + 1]
            == sensor_events(results[a])[1] by {
            if a < d.len() {
                assert(results[a] == d[a]);
            }
        }
    }
}

proof fn lemma_event_key_at(results: Seq<EncryptedSensorValue>, i: int)
    requires
        0 <= i < 2 * results.len(),
    ensures
        0 <= i / 2 < results.len(),
        i % 2 == 0 ==> event_list(results)[i].0 == results[i / 2].lower_bound,
        i % 2 == 1 ==> event_list(results)[i].0 == results[i / 2].upper_bound,
{
    lemma_event_list_index(results);
    let a = i / 2;
    assert(results[a] == results[a]);
}

proof fn lemma_distinct_bounds_keys(results: Seq<EncryptedSensorValue>)
    requires
        distinct_bounds(results),
    ensures
        distinct_keys(event_list(results)),
{
    let ev = event_list(results);
    lemma_event_list_index(results);
    assert forall|i: int, j: int| 0 <= i < j < ev.len() implies (#[trigger] ev[i]).0 != (
    #[trigger] ev[j]).0 by {
        lemma_event_key_at(results, i);
        lemma_event_key_at(results, j);
        let a = i / 2;
        let b = j / 2;
        assert(results[a] == results[a] && results[b] == results[b]);
    }
}

proof fn lemma_distinct_keys_bounds(results: Seq<EncryptedSensorValue>)
    requires
        distinct_keys(event_list(results)),
    ensures
        distinct_bounds(results),
{
    let ev = event_list(results);
    lemma_event_list_index(results);
    assert forall|a: int, b: int| 0 <= a < results.len() && 0 <= b < results.len() implies {
        &&& (#[trigger] results[a]).lower_bound != results[a].upper_bound
        &&& a != b ==> {
            &&& results[a].lower_bound != (#[trigger] results[b]).lower_bound
            &&& results[a].lower_bound != results[b].upper_bound
            &&& results[a].upper_bound != results[b].upper_bound
        }
    } by {
        lemma_event_key_at(results, 2 * a);
        lemma_event_key_at(results, 2 * a + 1);
        lemma_event_key_at(results, 2 * b);
        lemma_event_key_at(results, 2 * b + 1);
        if a < b {
            assert(ev[2 * a].0 != ev[2 * b].0);
            assert(ev[2 * a].0 != ev[2 * b + 1].0);
            assert(ev[2 * a + 1].0 != ev[2 * b + 1].0);
        } else if b < a {
            assert(ev[2 * b].0 != ev[2 * a].0);
            assert(ev[2 * b + 1].0 != ev[2 * a].0);
            assert(ev[2 * b + 1].0 != ev[2 * a + 1].0);
        }
        assert(ev[2 * a].0 != ev[2 * a + 1].0);
    }
}

spec fn events_multiset(results: Seq<EncryptedSensorValue>) -> Multiset<(u64, i8)>
    decreases results.len(),
{
    if results.len() == 0 {
        Multiset::empty()
    } else {
        events_multiset(results.drop_last()).add(sensor_events(results.last()).to_multiset())
    }
}

proof fn lemma_events_multiset(results: Seq<EncryptedSensorValue>)
    ensures
        event_list(results).to_multiset() == events_multiset(results),
    decreases results.len(),
{
    broadcast use vstd::multiset::group_multiset_axioms;

    if results.len() == 0 {
        vstd::seq_lib::to_multiset_len(event_list(results));
        vstd::multiset::lemma_multiset_empty_len(event_list(results).to_multiset());
    } else {
        lemma_events_multiset(results.drop_last());
        vstd::seq_lib::lemma_multiset_commutative(
            event_list(results.drop_last()),
            sensor_events(results.last()),
        );
    }
}

proof fn lemma_events_multiset_remove(results: Seq<EncryptedSensorValue>, i: int)
    requires
        0 <= i < results.len(),
    ensures
        events_multiset(results) == events_multiset(results.remove(i)).add(
            sensor_events(results[i]).to_multiset(),
        ),
    decreases results.len(),
{
    broadcast use vstd::multiset::group_multiset_axioms;

    if i == results.len() - 1 {
        assert(results.remove(i) =~= results.drop_last());
    } else {
        let d = results.drop_last();
        assert(results.remove(i).drop_last() =~= d.remove(i));
        assert(results.remove(i).last() == results.last());
        assert(d[i] == results[i]);
        lemma_events_multiset_remove(d, i);
        let a = events_multiset(d.remove(i));
        let x = sensor_events(results[i]).to_multiset();
        let y = sensor_events(results.last()).to_multiset();
        assert(a.add(x).add(y) =~= a.add(y).add(x));
    }
}

proof fn lemma_events_multiset_permutation(
    results: Seq<EncryptedSensorValue>,
    results2: Seq<EncryptedSensorValue>,
)
    requires
        results2.to_multiset() == results.to_multiset(),
    ensures
        events_multiset(results2) == events_multiset(results),
    decreases results2.len(),
{
    broadcast use vstd::multiset::group_multiset_axioms;
    broadcast use vstd::seq_lib::to_multiset_contains, vstd::seq_lib::to_multiset_len;

    vstd::seq_lib::to_multiset_len(results);
    vstd::seq_lib::to_multiset_len(results2);
    if results2.len() == 0 {
        assert(results.len() == 0);
    } else {
        let e = results2.last();
        let d2 = results2.drop_last();
        vstd::seq_lib::to_multiset_contains(results2, e);
        assert(results2.contains(e)) by {
            assert(results2[results2.len() - 1] == e);
        }
        vstd::seq_lib::to_multiset_contains(results, e);
        let i = choose|i: int| 0 <= i < results.len() && results[i] == e;
        vstd::seq_lib::to_multiset_remove(results, i);
        vstd::seq_lib::to_multiset_remove(results2, results2.len() - 1);
        assert(results2.remove(results2.len() - 1) =~= d2);
        lemma_events_multiset_permutation(results.remove(i), d2);
        lemma_events_multiset_remove(results, i);
    }
}

proof fn lemma_count_two(t: Seq<(u64, i8)>, i: int, j: int)
    requires
        0 <= i < t.len(),
        0 <= j < t.len(),
        i != j,
        t[i] == t[j],
    ensures
        t.to_multiset().count(t[i]) >= 2,
{
    broadcast use vstd::multiset::group_multiset_axioms;

    vstd::seq_lib::to_multiset_remove(t, j);
    let r = t.remove(j);
    let k = if i < j {
        i
    } else {
        i - 1
    };
    assert(r[k] == t[i]);
    assert(r.contains(t[i]));
    vstd::seq_lib::to_multiset_contains(r, t[i]);
}

proof fn lemma_two_positions(u: Seq<(u64, i8)>, x: (u64, i8))
    requires
        u.to_multiset().count(x) >= 2,
    ensures
        exists|a: int, b: int| 0 <= a < u.len() && 0 <= b < u.len() && a != b && u[a] == x && u[b] == x,
{
    broadcast use vstd::multiset::group_multiset_axioms;

    vstd::seq_lib::to_multiset_contains(u, x);
    let a = choose|a: int| 0 <= a < u.len() && u[a] == x;
    vstd::seq_lib::to_multiset_remove(u, a);
    let r = u.remove(a);
    vstd::seq_lib::to_multiset_contains(r, x);
    let b2 = choose|b: int| 0 <= b < r.len() && r[b] == x;
    let b = if b2 < a {
        b2
    } else {
        b2 + 1
    };
    assert(u[b] == x);
}

proof fn lemma_distinct_keys_permutation(t: Seq<(u64, i8)>, u: Seq<(u64, i8)>)
    requires
        t.to_multiset() == u.to_multiset(),
        distinct_keys(u),
    ensures
        distinct_keys(t),
{
    broadcast use vstd::multiset::group_multiset_axioms;

    assert forall|i: int, j: int| 0 <= i < j < t.len() implies (#[trigger] t[i]).0 != (
    #[trigger] t[j]).0 by {
        if t[i].0 == t[j].0 {
            if t[i] == t[j] {
                lemma_count_two(t, i, j);
                lemma_two_positions(u, t[i]);
                let (a, b) = choose|a: int, b: int|
                    0 <= a < u.len() && 0 <= b < u.len() && a != b && u[a] == t[i] && u[b] == t[i];
                if a < b {
                    assert(u[a].0 != u[b].0);
                } else {
                    assert(u[b].0 != u[a].0);
                }
            } else {
                assert(t.contains(t[i]));
                assert(t.contains(t[j]));
                vstd::seq_lib::to_multiset_contains(t, t[i]);
                vstd::seq_lib::to_multiset_contains(t, t[j]);
                vstd::seq_lib::to_multiset_contains(u, t[i]);
                vstd::seq_lib::to_multiset_contains(u, t[j]);
                let a = choose|a: int| 0 <= a < u.len() && u[a] == t[i];
                let b = choose|b: int| 0 <= b < u.len() && u[b] == t[j];
                if a < b {
                    assert(u[a].0 != u[b].0);
                } else {
                    assert(u[b].0 != u[a].0);
                }
            }
        }
    }
}

/// Two sorted sequences that hold the same events, no two with the same
/// key, are the same sequence.
proof fn lemma_sorted_unique(t: Seq<(u64, i8)>, u: Seq<(u64, i8)>)
    requires
        t.to_multiset() == u.to_multiset(),
        is_sorted_by_key(t),
        is_sorted_by_key(u),
        distinct_keys(t),
    ensures
        t == u,
    decreases t.len(),
{
    broadcast use vstd::multiset::group_multiset_axioms;

    vstd::seq_lib::to_multiset_len(t);
    vstd::seq_lib::to_multiset_len(u);
    if t.len() == 0 {
        assert(t =~= u);
    } else {
        let n = t.len() - 1;
        assert(t.contains(t[n]));
        assert(u.contains(u[n]));
        vstd::seq_lib::to_multiset_contains(t, t[n]);
        vstd::seq_lib::to_multiset_contains(u, t[n]);
        vstd::seq_lib::to_multiset_contains(u, u[n]);
        vstd::seq_lib::to_multiset_contains(t, u[n]);
        let b = choose|b: int| 0 <= b < u.len() && u[b] == t[n];
        let a = choose|a: int| 0 <= a < t.len() && t[a] == u[n];
        assert(u[b].0 <= u[n].0);
        assert(t[a].0 <= t[n].0);
        if a != n {
            assert(t[a].0 != t[n].0);
        }
        assert(t[n] == u[n]);
        vstd::seq_lib::to_multiset_remove(t, n);
        vstd::seq_lib::to_multiset_remove(u, n);
        assert(t.remove(n) =~= t.drop_last());
        assert(u.remove(n) =~= u.drop_last());
        lemma_sorted_drop_last(t);
        lemma_sorted_drop_last(u);
        let td = t.drop_last();
        assert(distinct_keys(td)) by {
            assert forall|i: int, j: int| 0 <= i < j < td.len() implies (#[trigger] td[i]).0 != (
            #[trigger] td[j]).0 by {
                assert(td[i] == t[i] && td[j] == t[j]);
            }
        }
        lemma_sorted_unique(td, u.drop_last());
        assert forall|k: int| 0 <= k < t.len() implies t[k] == u[k] by {
            if k < n {
                assert(t[k] == td[k]);
                assert(u[k] == u.drop_last()[k]);
            }
        }
        assert(t =~= u);
    }
}

proof fn lemma_distinct_bounds_drop_last(results: Seq<EncryptedSensorValue>)
    requires
        distinct_bounds(results),
        results.len() > 0,
    ensures
        distinct_bounds(results.drop_last()),
{
    let d = results.drop_last();
    assert forall|a: int, b: int| 0 <= a < d.len() && 0 <= b < d.len() implies {
        &&& (#[trigger] d[a]).lower_bound != d[a].upper_bound
        &&& a != b ==> {
            &&& d[a].lower_bound != (#[trigger] d[b]).lower_bound
            &&& d[a].lower_bound != d[b].upper_bound
            &&& d[a].upper_bound != d[b].upper_bound
        }
    } by {
        assert(d[a] == results[a] && d[b] == results[b]);
    }
}

/// With distinct bounds, the cache holds each sensor's own ciphertext for
/// each of its bounds.
proof fn lemma_cache_distinct(results: Seq<EncryptedSensorValue>)
    requires
        distinct_bounds(results),
    ensures
        forall|a: int|
            0 <= a < results.len() ==> {
                &&& ciphertext_cache(results).contains_key((#[trigger] results[a]).lower_bound)
                &&& ciphertext_cache(results)[results[a].lower_bound] == results[a].enc_lower_bound
                &&& ciphertext_cache(results).contains_key(results[a].upper_bound)
                &&& ciphertext_cache(results)[results[a].upper_bound] == results[a].enc_upper_bound
            },
    decreases results.len(),
{
    if results.len() > 0 {
        let d = results.drop_last();
        let n = results.len() - 1;
        lemma_distinct_bounds_drop_last(results);
        lemma_cache_distinct(d);
        assert forall|a: int| 0 <= a < results.len() implies {
            &&& ciphertext_cache(results).contains_key((#[trigger] results[a]).lower_bound)
            &&& ciphertext_cache(results)[results[a].lower_bound] == results[a].enc_lower_bound
            &&& ciphertext_cache(results).contains_key(results[a].upper_bound)
            &&& ciphertext_cache(results)[results[a].upper_bound] == results[a].enc_upper_bound
        } by {
            assert(results[n] == results.last());
            if a < n {
                assert(d[a] == results[a]);
                assert(results[a].lower_bound != results[n].lower_bound);
                assert(results[a].lower_bound != results[n].upper_bound);
                assert(results[n].lower_bound != results[a].upper_bound);
                assert(results[a].upper_bound != results[n].upper_bound);
            } else {
                assert(results[n].lower_bound != results[n].upper_bound);
            }
        }
    }
}

proof fn lemma_cache_agree(
    results: Seq<EncryptedSensorValue>,
    results2: Seq<EncryptedSensorValue>,
    e: (u64, i8),
)
    requires
        results2.to_multiset() == results.to_multiset(),
        distinct_bounds(results),
        distinct_bounds(results2),
        event_list(results).contains(e),
    ensures
        ciphertext_cache(results2)[e.0] == ciphertext_cache(results)[e.0],
{
    lemma_event_key_from_sensor(results, e);
    let a = choose|a: int|
        0 <= a < results.len() && (results[a].lower_bound == e.0 || results[a].upper_bound == e.0);
    assert(results.contains(results[a]));
    vstd::seq_lib::to_multiset_contains(results, results[a]);
    vstd::seq_lib::to_multiset_contains(results2, results[a]);
    let b = choose|b: int| 0 <= b < results2.len() && results2[b] == results[a];
    lemma_cache_distinct(results);
    lemma_cache_distinct(results2);
    assert(results[a] == results[a]);
    assert(results2[b] == results2[b]);
}

/// When no two bounds of the sensors are equal, the order in which the
/// sensors answered does not change what Marzullo's algorithm picks.
pub proof fn lemma_marzullo_reorder(
    results: Seq<EncryptedSensorValue>,
    results2: Seq<EncryptedSensorValue>,
)
    requires
        results2.to_multiset() == results.to_multiset(),
        distinct_bounds(results),
    ensures
        marzullo(results2) == marzullo(results),
{
    let ev = event_list(results);
    let ev2 = event_list(results2);
    lemma_events_multiset(results);
    lemma_events_multiset(results2);
    lemma_events_multiset_permutation(results, results2);
    lemma_distinct_bounds_keys(results);
    lemma_distinct_keys_permutation(ev2, ev);
    lemma_distinct_keys_bounds(results2);
    let s = sort_by_key(ev);
    let s2 = sort_by_key(ev2);
    lemma_sort_permutes(ev);
    lemma_sort_permutes(ev2);
    lemma_sort_sorted(ev);
    lemma_sort_sorted(ev2);
    lemma_distinct_keys_permutation(s, ev);
    lemma_sorted_unique(s, s2);
    if exists|i: int| is_best_split(s, i) {
        let i = choose|i: int| is_best_split(s, i);
        assert(s.contains(s[i]));
        assert(s.contains(s[i + 1]));
        lemma_sort_contains(ev, s[i]);
        lemma_sort_contains(ev, s[i + 1]);
        lemma_cache_agree(results, results2, s[i]);
        lemma_cache_agree(results, results2, s[i + 1]);
    }
}

// ---------------------------------------------------------------------------
// Executable code
// ---------------------------------------------------------------------------

/// Sorts the events by key, stably: a verified insertion sort.
fn sort_events_by_key(mapped: &mut Vec<(u64, i8)>)
    ensures
        final(mapped)@ == sort_by_key(old(mapped)@),
{
    let mut out: Vec<(u64, i8)> = Vec::new();
    let mut n: usize = 0;
    while n < mapped.len()
        invariant
            n <= mapped.len(),
            out@ == sort_by_key(mapped@.take(n as int)),
        decreases mapped.len() - n,
    {
        let e = mapped[n];
        proof {
            lemma_sort_len(mapped@.take(n as int));
        }
        let mut p: usize = out.len();
        assert(out@.take(p as int) =~= out@);
        while p > 0 && out[p - 1].0 > e.0
            invariant
                p <= out.len(),
                insertion_index(out@, e.0) == insertion_index(out@.take(p as int), e.0),
            decreases p,
        {
            assert(out@.take(p as int).drop_last() =~= out@.take(p - 1));
            p -= 1;
        }
        proof {
            if p > 0 {
                assert(out@.take(p as int).last() == out@[p - 1]);
            }
            assert(mapped@.take(n + 1).drop_last() =~= mapped@.take(n as int));
        }
        out.insert(p, e);
        n += 1;
    }
    assert(mapped@.take(n as int) =~= mapped@);
    *mapped = out;
}

/// The readings of all sensors that answered.
pub struct FaultTolerantHandler {
    pub results: Vec<EncryptedSensorValue>,
}

impl FaultTolerantHandler {
    /// Runs Marzullo's algorithm over the order-preserving ciphertexts and
    /// returns the interval covered by the most sensors, with the end-to-end
    /// ciphertexts of its bounds; `None` when no interval is open anywhere.
    pub fn calculate_marzullo(&self) -> (r: Option<EncryptedSensorValue>)
        requires
            counts_fit_i8(sort_by_key(event_list(self.results@))),
        ensures
            r == marzullo(self.results@),
    {
        let (mut mapped, cache) = self._populate_map();
        let ghost unsorted = mapped@;
        sort_events_by_key(&mut mapped);
        let ghost s = mapped@;
        proof {
            lemma_sort_sorted(unsorted);
            lemma_total_zero(self.results@);
            lemma_net_below_sort(unsorted, 0x1_0000_0000_0000_0000);
            lemma_net_below_all(s, 0x1_0000_0000_0000_0000);
        }
        let mut best: i8 = 0;
        let mut cnt: i8 = 0;
        let mut best_value: Option<EncryptedSensorValue> = None;
        let mut i: usize = 0;
        while i < mapped.len()
            invariant
                s == mapped@,
                s == sort_by_key(event_list(self.results@)),
                counts_fit_i8(s),
                running_count(s, s.len() as int) == 0,
                i <= s.len(),
                cnt == running_count(s, i as int),
                best == sweep(s, i as int).0,
                sweep(s, i as int).1 == -1 ==> best_value is None,
                sweep(s, i as int).1 != -1 ==> {
                    &&& best_value is Some
                    &&& sweep(s, i as int).1 + 1 < s.len()
                    &&& best_value->Some_0.lower_bound == s[sweep(s, i as int).1].0
                    &&& best_value->Some_0.upper_bound == s[sweep(s, i as int).1 + 1].0
                },
            decreases s.len() - i,
        {
            let (number, mode) = mapped[i];
            proof {
                lemma_sweep(s, i as int);
                assert(i8::MIN <= running_count(s, i + 1) <= i8::MAX);
            }
            cnt = cnt - mode;
            if cnt > best {
                best = cnt;
                best_value = Some(
                    EncryptedSensorValue {
                        lower_bound: number,
                        upper_bound: mapped[i + 1].0,
                        enc_lower_bound: [0;24],
                        enc_upper_bound: [0;24],
                    },
                );
            }
            i += 1;
        }
        proof {
            lemma_sweep_is_marzullo(self.results@);
        }
        match best_value {
            Some(mut unwrapped) => {
                let ghost bi = sweep(s, s.len() as int).1;
                proof {
                    lemma_best_split_unique(s, bi, choose|i: int| is_best_split(s, i));
                    assert(s.contains(s[bi]));
                    assert(s.contains(s[bi + 1]));
                    lemma_sort_contains(unsorted, s[bi]);
                    lemma_sort_contains(unsorted, s[bi + 1]);
                    lemma_event_keys_cached(self.results@, s[bi]);
                    lemma_event_keys_cached(self.results@, s[bi + 1]);
                }
                unwrapped.enc_lower_bound = *cache.get(&unwrapped.lower_bound).unwrap();
                unwrapped.enc_upper_bound = *cache.get(&unwrapped.upper_bound).unwrap();
                Some(unwrapped)
            },
            None => None,
        }
    }

    /// Whether the sweep counter of `calculate_marzullo` stays within `i8`
    /// over these readings, as that function requires.
    pub fn counts_fit(&self) -> (r: bool)
        ensures
            r == counts_fit_i8(sort_by_key(event_list(self.results@))),
    {
        let (mut mapped, _cache) = self._populate_map();
        sort_events_by_key(&mut mapped);
        let ghost s = mapped@;
        let mut cnt: i16 = 0;
        let mut i: usize = 0;
        while i < mapped.len()
            invariant
                s == mapped@,
                s == sort_by_key(event_list(self.results@)),
                i <= s.len(),
                cnt == running_count(s, i as int),
                i8::MIN <= cnt <= i8::MAX,
                forall|k: int| 0 <= k <= i ==> i8::MIN <= #[trigger] running_count(s, k) <= i8::MAX,
            decreases s.len() - i,
        {
            let (_number, mode) = mapped[i];
            cnt = cnt - mode as i16;
            if cnt < -128 || cnt > 127 {
                assert(!(i8::MIN <= running_count(s, i + 1) <= i8::MAX));
                return false;
            }
            i += 1;
        }
        true
    }

    /// Turns each interval into its two sweep events, and caches the
    /// end-to-end ciphertext of every order-preserving ciphertext.
    pub fn _populate_map(&self) -> (r: (Vec<(u64, i8)>, HashMap<u64, [u8; 24]>))
        ensures
            r.0@ == event_list(self.results@),
            r.1@ == ciphertext_cache(self.results@),
    {
        let mut vec: Vec<(u64, i8)> = Vec::new();
        let mut mapping: HashMap<u64, [u8; 24]> = HashMap::new();
        let mut n: usize = 0;
        while n < self.results.len()
            invariant
                n <= self.results.len(),
                vec@ == event_list(self.results@.take(n as int)),
                mapping@ == ciphertext_cache(self.results@.take(n as int)),
            decreases self.results.len() - n,
        {
            let sensor = &self.results[n];
            proof {
                assert(self.results@.take(n + 1).drop_last() =~= self.results@.take(n as int));
            }
            mapping.insert(sensor.lower_bound, sensor.enc_lower_bound);
            mapping.insert(sensor.upper_bound, sensor.enc_upper_bound);

            // Ensure that the bounds are correctly sorted (lower should really be the lower bound)
            if sensor.upper_bound > sensor.lower_bound {
                vec.push((sensor.lower_bound, -1));
                vec.push((sensor.upper_bound, 1));
            } else {
                vec.push((sensor.lower_bound, 1));
                vec.push((sensor.upper_bound, -1));
            }
            proof {
                assert(vec@ =~= event_list(self.results@.take(n + 1)));
            }
            n += 1;
        }
        assert(self.results@.take(n as int) =~= self.results@);
        (vec, mapping)
    }
}

} // verus!
