//! Stable descending orderings: bounties newest first, contests longest first.
use vstd::prelude::*;
use crate::model::Item;
use crate::time::{parse_date_or, parsed_or, Instant};

verus! {

/// `p` lists each index below `n` exactly once.
pub open spec fn is_permutation(p: Seq<int>, n: int) -> bool {
    &&& p.len() == n
    &&& forall|t: int| 0 <= t < n ==> 0 <= #[trigger] p[t] < n
    &&& forall|s: int, t: int| 0 <= s < t < n ==> #[trigger] p[s] != #[trigger] p[t]
}

/// Taking positions in the order `p` gives keys that never increase, and
/// positions with equal keys keep their relative order.
pub open spec fn stable_descending(p: Seq<int>, keys: Seq<int>) -> bool {
    forall|s: int, t: int|
        0 <= s < t < p.len() ==> keys[#[trigger] p[s]] >= keys[#[trigger] p[t]] && (keys[p[s]]
            == keys[p[t]] ==> p[s] < p[t])
}

/// `r` is `items` sorted by `keys` descending, with ties in input order.
pub open spec fn stably_sorted_desc<T>(items: Seq<T>, keys: Seq<int>, r: Seq<T>) -> bool {
    exists|p: Seq<int>|
        is_permutation(p, items.len() as int) && stable_descending(p, keys) && r.len()
            == items.len() && forall|t: int| 0 <= t < r.len() ==> #[trigger] r[t] == items[p[t]]
}

/// Sorts `items` by their `keys`, greatest first; equal keys keep their
/// input order.
pub fn stable_sort_desc<T>(items: Vec<T>, keys: Vec<i128>) -> (r: Vec<T>)
    requires
        items.len() == keys.len(),
    ensures
        stably_sorted_desc(items@, keys@.map_values(|k: i128| k as int), r@),
{
    let ghost orig = items@;
    let ghost ok = keys@.map_values(|k: i128| k as int);
    let n = items.len();
    let mut its = items;
    let mut ks = keys;
    let ghost mut idx: Seq<int> = Seq::new(n as nat, |t: int| t);
    let mut i: usize = 0;
    while i < n
        invariant
            i <= n,
            n == orig.len(),
            ok.len() == n,
            its.len() == n,
            ks.len() == n,
            idx.len() == n,
            forall|t: int| 0 <= t < n ==> #[trigger] its@[t] == orig[idx[t]],
            forall|t: int| 0 <= t < n ==> #[trigger] ks@[t] as int == ok[idx[t]],
            forall|t: int| i <= t < n ==> #[trigger] idx[t] == t,
            forall|t: int| 0 <= t < i ==> 0 <= #[trigger] idx[t] < i,
            forall|s: int, t: int| 0 <= s < t < i ==> #[trigger] idx[s] != #[trigger] idx[t],
            forall|s: int, t: int|
                0 <= s < t < i ==> ok[#[trigger] idx[s]] >= ok[#[trigger] idx[t]] && (ok[idx[s]]
                    == ok[idx[t]] ==> idx[s] < idx[t]),
        decreases n - i,
    {
        let k = ks[i];
        let mut j: usize = i;
        while j > 0 && ks[j - 1] < k
            invariant
                j <= i < n,
                ks.len() == n,
                k == ks@[i as int],
                forall|t: int| j <= t < i ==> #[trigger] ks@[t] < k,
            decreases j,
        {
            j = j - 1;
        }
        let ghost old_idx = idx;
        let ghost old_ks = ks@;
        let ghost old_its = its@;
        let x = its.remove(i);
        its.insert(j, x);
        let kx = ks.remove(i);
        ks.insert(j, kx);
        proof {
            idx = old_idx.remove(i as int).insert(j as int, i as int);
            assert forall|t: int| 0 <= t < n implies #[trigger] its@[t] == orig[idx[t]] by {
                if t < j {
                } else if t == j {
                } else if t <= i {
                    assert(its@[t] == old_its[t - 1]);
                } else {
                }
            }
            assert forall|t: int| 0 <= t < n implies #[trigger] ks@[t] as int == ok[idx[t]] by {
                if t < j {
                } else if t == j {
                } else if t <= i {
                    assert(ks@[t] == old_ks[t - 1]);
                } else {
                }
            }
            assert forall|t: int| 0 <= t < i + 1 implies 0 <= #[trigger] idx[t] < i + 1 by {
                if t > j && t <= i {
                    assert(idx[t] == old_idx[t - 1]);
                }
            }
            assert forall|s: int, t: int| 0 <= s < t < i + 1 implies #[trigger] idx[s]
                != #[trigger] idx[t] by {
                if s > j {
                    assert(idx[s] == old_idx[s - 1]);
                }
                if t > j {
                    assert(idx[t] == old_idx[t - 1]);
                }
            }
            assert forall|s: int, t: int| 0 <= s < t < i + 1 implies ok[#[trigger] idx[s]]
                >= ok[#[trigger] idx[t]] && (ok[idx[s]] == ok[idx[t]] ==> idx[s] < idx[t]) by {
                if s > j {
                    assert(idx[s] == old_idx[s - 1]);
                }
                if t > j {
                    assert(idx[t] == old_idx[t - 1]);
                }
                if s < j && t == j && j > 0 {
                    assert(old_ks[j - 1] >= k);
                    assert(ok[old_idx[s]] >= ok[old_idx[j - 1]] || s == j - 1);
                }
                if s == j && t > j {
                    assert(old_ks[t - 1] < k);
                }
            }
        }
        i = i + 1;
    }
    proof {
        assert(is_permutation(idx, n as int));
        assert(stable_descending(idx, ok));
    }
    its
}

/// A bounty's sort key: its start instant, with `now` for a malformed one.
pub open spec fn bounty_key(it: Item, now: Instant) -> int {
    parsed_or(it.timeframe.start@, now).total()
}

/// A contest's sort key: end minus start, the end standing for the start
/// where there is none, and `now` for a malformed timestamp.
pub open spec fn contest_key(it: Item, now: Instant) -> int {
    let start = parsed_or(it.timeframe.start@, now);
    match it.timeframe.end {
        Some(e) => parsed_or(e@, now).total() - start.total(),
        None => 0,
    }
}

/// Bounties, newest start first; ties keep their input order.
pub fn sort_bounties(items: Vec<Item>, now: Instant) -> (r: Vec<Item>)
    requires
        now.wf(),
    ensures
        stably_sorted_desc(items@, items@.map_values(|it: Item| bounty_key(it, now)), r@),
        forall|a: int, b: int|
            0 <= a < b < r@.len() ==> bounty_key(#[trigger] r@[a], now) >= bounty_key(
                #[trigger] r@[b],
                now,
            ),
{
    let mut keys: Vec<i128> = Vec::new();
    let mut i: usize = 0;
    while i < items.len()
        invariant
            i <= items.len(),
            now.wf(),
            keys.len() == i,
            forall|t: int| 0 <= t < i ==> #[trigger] keys@[t] as int == bounty_key(items@[t], now),
        decreases items.len() - i,
    {
        let s = parse_date_or(items[i].timeframe.start.as_str(), now);
        keys.push(s.nanos_since_epoch());
        i = i + 1;
    }
    let ghost ks = keys@.map_values(|k: i128| k as int);
    let ghost want = items@.map_values(|it: Item| bounty_key(it, now));
    assert(ks =~= want);
    let ghost orig = items@;
    let r = stable_sort_desc(items, keys);
    proof {
        lemma_keys_descend(orig, |it: Item| bounty_key(it, now), r@);
    }
    r
}

/// A stable descending sort by `f` never lets `f` rise along the result.
pub proof fn lemma_keys_descend<T>(items: Seq<T>, f: spec_fn(T) -> int, r: Seq<T>)
    requires
        stably_sorted_desc(items, items.map_values(f), r),
    ensures
        forall|a: int, b: int| 0 <= a < b < r.len() ==> f(#[trigger] r[a]) >= f(#[trigger] r[b]),
{
    let keys = items.map_values(f);
    let p = choose|p: Seq<int>|
        is_permutation(p, items.len() as int) && stable_descending(p, keys) && r.len()
            == items.len() && forall|t: int| 0 <= t < r.len() ==> #[trigger] r[t] == items[p[t]];
    assert forall|a: int, b: int| 0 <= a < b < r.len() implies f(#[trigger] r[a]) >= f(
        #[trigger] r[b],
    ) by {
        assert(r[a] == items[p[a]]);
        assert(r[b] == items[p[b]]);
        assert(keys[p[a]] >= keys[p[b]]);
    }
}

/// In a stable descending sort by `f`, two results with equal keys come from
/// input positions in the same order.
pub proof fn lemma_ties_keep_order<T>(
    items: Seq<T>,
    f: spec_fn(T) -> int,
    r: Seq<T>,
    a: int,
    b: int,
)
    requires
        stably_sorted_desc(items, items.map_values(f), r),
        0 <= a < b < r.len(),
        f(r[a]) == f(r[b]),
    ensures
        exists|p: int, q: int|
            0 <= p < q < items.len() && #[trigger] items[p] == r[a] && #[trigger] items[q] == r[b],
{
    let keys = items.map_values(f);
    let perm = choose|p: Seq<int>|
        is_permutation(p, items.len() as int) && stable_descending(p, keys) && r.len()
            == items.len() && forall|t: int| 0 <= t < r.len() ==> #[trigger] r[t] == items[p[t]];
    assert(r[a] == items[perm[a]]);
    assert(r[b] == items[perm[b]]);
    assert(keys[perm[a]] == keys[perm[b]]);
    assert(perm[a] < perm[b]);
}

/// Contests, longest first; ties keep their input order.
pub fn sort_contests(items: Vec<Item>, now: Instant) -> (r: Vec<Item>)
    requires
        now.wf(),
    ensures
        stably_sorted_desc(items@, items@.map_values(|it: Item| contest_key(it, now)), r@),
        forall|a: int, b: int|
            0 <= a < b < r@.len() ==> contest_key(#[trigger] r@[a], now) >= contest_key(
                #[trigger] r@[b],
                now,
            ),
{
    let mut keys: Vec<i128> = Vec::new();
    let mut i: usize = 0;
    while i < items.len()
        invariant
            i <= items.len(),
            now.wf(),
            keys.len() == i,
            forall|t: int| 0 <= t < i ==> #[trigger] keys@[t] as int == contest_key(items@[t], now),
        decreases items.len() - i,
    {
        let tf = &items[i].timeframe;
        let start = parse_date_or(tf.start.as_str(), now);
        let key = match &tf.end {
            Some(e) => {
                let end = parse_date_or(e.as_str(), now);
                end.nanos_since_epoch() - start.nanos_since_epoch()
            },
            None => 0,
        };
        keys.push(key);
        i = i + 1;
    }
    let ghost want = items@.map_values(|it: Item| contest_key(it, now));
    assert(keys@.map_values(|k: i128| k as int) =~= want);
    let ghost orig = items@;
    let r = stable_sort_desc(items, keys);
    proof {
        lemma_keys_descend(orig, |it: Item| contest_key(it, now), r@);
    }
    r
}

} // verus!
