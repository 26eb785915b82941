//! Listings as the marketplace describes them, and their split into bounties
//! and contests.
use vstd::prelude::*;
use crate::text::{contains, has_substring, lower_of, lowercase};

verus! {

/// A severity level and the largest reward offered for it, as free text.
pub struct Reward {
    pub severity: String,
    pub max_reward: Option<String>,
}

/// One scope partition of a listing, with its own reward schedule.
pub struct AssetGroup {
    pub out_of_scope: bool,
    pub rewards: Vec<Reward>,
}

/// RFC 3339 start and optional end; no end means open-ended.
pub struct Timeframe {
    pub start: String,
    pub end: Option<String>,
}

/// One bounty or contest listing.
pub struct Item {
    pub id: String,
    pub name: String,
    pub kind: String,
    pub timeframe: Timeframe,
    pub status: String,
    pub currency_code: String,
    pub total_reward_pot: String,
    pub total_findings: u32,
    pub asset_groups: Vec<AssetGroup>,
}

/// The kind, lower-cased, names a bounty.
pub open spec fn is_bounty(it: Item) -> bool {
    has_substring(lower_of(it.kind@), "bounty"@)
}

/// The kind, lower-cased, names a contest and not a bounty.
pub open spec fn is_contest(it: Item) -> bool {
    !is_bounty(it) && has_substring(lower_of(it.kind@), "contest"@)
}

/// Which report section a listing belongs to, read from its kind.
#[derive(Clone, Copy, Debug, PartialEq, Eq)]
pub enum Bucket {
    Bounty,
    Contest,
    Unclassified,
}

/// Where a listing goes: a kind that names a bounty wins over one that names
/// a contest; a kind that names neither is unclassified.
pub fn bucket_of(it: &Item) -> (r: Bucket)
    ensures
        r == Bucket::Bounty <==> is_bounty(*it),
        r == Bucket::Contest <==> is_contest(*it),
        r == Bucket::Unclassified <==> !is_bounty(*it) && !is_contest(*it),
{
    let k = lowercase(it.kind.as_str());
    if contains(k.as_str(), "bounty") {
        Bucket::Bounty
    } else if contains(k.as_str(), "contest") {
        Bucket::Contest
    } else {
        Bucket::Unclassified
    }
}

proof fn lemma_filter_push(s: Seq<Item>, x: Item, pred: spec_fn(Item) -> bool)
    ensures
        s.push(x).filter(pred) == if pred(x) { s.filter(pred).push(x) } else { s.filter(pred) },
{
    reveal(Seq::filter);
    assert(s.push(x).drop_last() =~= s);
}

/// Splits listings into bounties and contests, each in input order; a listing
/// whose kind names neither is dropped.
pub fn classify(items: Vec<Item>) -> (r: (Vec<Item>, Vec<Item>))
    ensures
        r.0@ == items@.filter(|it: Item| is_bounty(it)),
        r.1@ == items@.filter(|it: Item| is_contest(it)),
{
    let ghost all = items@;
    let mut rest = items;
    let n: usize = rest.len();
    let mut bounties: Vec<Item> = Vec::new();
    let mut contests: Vec<Item> = Vec::new();
    let mut k: usize = 0;
    assert(all.take(0) =~= Seq::<Item>::empty());
    proof {
        reveal(Seq::filter);
    }
    assert(all.take(0).filter(|it: Item| is_bounty(it)) =~= Seq::<Item>::empty());
    assert(all.take(0).filter(|it: Item| is_contest(it)) =~= Seq::<Item>::empty());
    while rest.len() > 0
        invariant
            k <= all.len(),
            rest@ == all.skip(k as int),
            rest.len() == all.len() - k,
            all.len() == n,
            bounties@ == all.take(k as int).filter(|it: Item| is_bounty(it)),
            contests@ == all.take(k as int).filter(|it: Item| is_contest(it)),
        decreases rest.len(),
    {
        let it = rest.remove(0);
        assert(all.take(k + 1) =~= all.take(k as int).push(it));
        proof {
            lemma_filter_push(all.take(k as int), it, |it: Item| is_bounty(it));
            lemma_filter_push(all.take(k as int), it, |it: Item| is_contest(it));
        }
        match bucket_of(&it) {
            Bucket::Bounty => bounties.push(it),
            Bucket::Contest => contests.push(it),
            Bucket::Unclassified => {},
        }
        assert(rest@ =~= all.skip(k + 1));
        k = k + 1;
    }
    assert(all.take(k as int) =~= all);
    (bounties, contests)
}

/// Classification splits the listings into two buckets with no listing in
/// both; every listing in a bucket comes from the input, and a listing whose
/// kind names neither a bounty nor a contest lands in neither.
pub proof fn lemma_classify_partition(items: Seq<Item>)
    ensures
        ({
            let b = items.filter(|it: Item| is_bounty(it));
            let c = items.filter(|it: Item| is_contest(it));
            &&& b.to_set().disjoint(c.to_set())
            &&& b.to_set().union(c.to_set()).subset_of(items.to_set())
            &&& forall|it: Item|
                !is_bounty(it) && !is_contest(it) ==> !b.contains(it) && !c.contains(it)
        }),
{
    let b = items.filter(|it: Item| is_bounty(it));
    let c = items.filter(|it: Item| is_contest(it));
    broadcast use vstd::seq_lib::group_filter_ensures;
    assert forall|it: Item| b.contains(it) implies is_bounty(it) && items.contains(it) by {
        let i = choose|i: int| 0 <= i < b.len() && b[i] == it;
        items.lemma_filter_pred(|it: Item| is_bounty(it), i);
        items.lemma_filter_contains_rev(|it: Item| is_bounty(it), it);
    }
    assert forall|it: Item| c.contains(it) implies is_contest(it) && items.contains(it) by {
        let i = choose|i: int| 0 <= i < c.len() && c[i] == it;
        items.lemma_filter_pred(|it: Item| is_contest(it), i);
        items.lemma_filter_contains_rev(|it: Item| is_contest(it), it);
    }
    assert(b.to_set().disjoint(c.to_set()));
    assert(b.to_set().union(c.to_set()).subset_of(items.to_set()));
}

/// Every listing is counted once: the bounties, the contests and the
/// listings whose kind names neither add up to all the listings.
pub proof fn lemma_classify_counts(items: Seq<Item>)
    ensures
        items.filter(|it: Item| is_bounty(it)).len() + items.filter(|it: Item| is_contest(it)).len()
            + items.filter(|it: Item| !is_bounty(it) && !is_contest(it)).len() == items.len(),
    decreases items.len(),
{
    if items.len() == 0 {
        reveal(Seq::filter);
    } else {
        let rest = items.drop_last();
        let x = items.last();
        lemma_classify_counts(rest);
        assert(rest.push(x) == items);
        lemma_filter_push(rest, x, |it: Item| is_bounty(it));
        lemma_filter_push(rest, x, |it: Item| is_contest(it));
        lemma_filter_push(rest, x, |it: Item| !is_bounty(it) && !is_contest(it));
    }
}

} // verus!
