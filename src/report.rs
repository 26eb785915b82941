//! The line-oriented text report: one block per listing, bounties first.
use vstd::prelude::*;
use crate::model::{classify, is_bounty, is_contest, Item};
use crate::ordering::{bounty_key, contest_key, sort_bounties, sort_contests, stably_sorted_desc};
use crate::severity::{accepted_severities, severities_of};
use crate::time::{decimal, decimal_of, parse_date_or, parsed_or, time_left, time_left_text, Instant};

verus! {

/// The entries of `v` separated by a comma and a space.
pub open spec fn joined(v: Seq<Seq<char>>) -> Seq<char>
    decreases v.len(),
{
    if v.len() == 0 {
        Seq::empty()
    } else if v.len() == 1 {
        v[0]
    } else {
        joined(v.drop_last()) + ", "@ + v.last()
    }
}

/// The severities as listed in a report: joined, or `None` where there are none.
pub open spec fn severities_text(v: Seq<Seq<char>>) -> Seq<char> {
    if v.len() == 0 {
        "None"@
    } else {
        joined(v)
    }
}

pub open spec fn opt_view(o: Option<String>) -> Option<Seq<char>> {
    match o {
        Some(s) => Some(s@),
        None => None,
    }
}

pub open spec fn end_line(it: Item) -> Seq<char> {
    match it.timeframe.end {
        Some(e) => "End:   "@ + e@ + "\n"@,
        None => Seq::empty(),
    }
}

pub open spec fn time_left_line(remaining: Option<Seq<char>>) -> Seq<char> {
    match remaining {
        Some(t) => "Time Left: "@ + t + "\n"@,
        None => Seq::empty(),
    }
}

/// The block that describes one listing, under the site section `path`.
pub open spec fn item_text(it: Item, path: Seq<char>, remaining: Option<Seq<char>>) -> Seq<char> {
    "Name: "@ + it.name@ + "\n"@ + "Kind: "@ + it.kind@ + "\n"@ + "Start: "@ + it.timeframe.start@
        + "\n"@ + end_line(it) + time_left_line(remaining) + "URL: https://cantina.xyz/"@ + path
        + "/"@ + it.id@ + "\n"@ + "Status: "@ + it.status@ + "\n"@ + "Currency: "@
        + it.currency_code@ + "\n"@ + "Total Reward Pot: "@ + it.total_reward_pot@ + "\n"@
        + "Accepted Severities: "@ + severities_text(severities_of(it.asset_groups@)) + "\n"@
        + "Total Findings: "@ + decimal_of(it.total_findings as nat) + "\n"@ + "---\n"@
}

/// Joins severities for a report line.
pub fn severities_line(sevs: &Vec<String>) -> (r: String)
    ensures
        r@ == severities_text(sevs@.map_values(|s: String| s@)),
{
    let ghost v = sevs@.map_values(|s: String| s@);
    if sevs.len() == 0 {
        return String::from_str("None");
    }
    let mut r = String::new();
    let mut i: usize = 0;
    assert(v.take(0) =~= Seq::<Seq<char>>::empty());
    while i < sevs.len()
        invariant
            i <= sevs.len(),
            v == sevs@.map_values(|s: String| s@),
            r@ == joined(v.take(i as int)),
        decreases sevs.len() - i,
    {
        let ghost prev = r@;
        if i > 0 {
            r.append(", ");
        }
        r.append(sevs[i].as_str());
        assert(v.take(i + 1).drop_last() =~= v.take(i as int));
        if i == 0 {
            assert(r@ =~= v.take(1)[0]);
        }
        i = i + 1;
    }
    assert(v.take(i as int) =~= v);
    r
}

/// The text block for one listing; `remaining` is the time left, shown where
/// given.
pub fn item_report(it: &Item, path: &str, remaining: Option<String>) -> (r: String)
    ensures
        r@ == item_text(*it, path@, opt_view(remaining)),
{
    let sevs = accepted_severities(it.asset_groups.as_slice());
    let mut r = String::from_str("Name: ");
    r.append(it.name.as_str());
    r.append("\n");
    r.append("Kind: ");
    r.append(it.kind.as_str());
    r.append("\n");
    r.append("Start: ");
    r.append(it.timeframe.start.as_str());
    r.append("\n");
    let ghost before_end = r@;
    match &it.timeframe.end {
        Some(e) => {
            r.append("End:   ");
            r.append(e.as_str());
            r.append("\n");
        },
        None => {},
    }
    assert(r@ =~= before_end + end_line(*it));
    let ghost before_left = r@;
    match &remaining {
        Some(t) => {
            r.append("Time Left: ");
            r.append(t.as_str());
            r.append("\n");
        },
        None => {},
    }
    assert(r@ =~= before_left + time_left_line(opt_view(remaining)));
    r.append("URL: https://cantina.xyz/");
    r.append(path);
    r.append("/");
    r.append(it.id.as_str());
    r.append("\n");
    r.append("Status: ");
    r.append(it.status.as_str());
    r.append("\n");
    r.append("Currency: ");
    r.append(it.currency_code.as_str());
    r.append("\n");
    r.append("Total Reward Pot: ");
    r.append(it.total_reward_pot.as_str());
    r.append("\n");
    r.append("Accepted Severities: ");
    let line = severities_line(&sevs);
    r.append(line.as_str());
    r.append("\n");
    r.append("Total Findings: ");
    let n = decimal(it.total_findings as u64);
    r.append(n.as_str());
    r.append("\n");
    r.append("---\n");
    r
}

/// The time left for a contest that has an end, seen at `now`.
pub open spec fn remaining_of(it: Item, now: Instant) -> Option<Seq<char>> {
    match it.timeframe.end {
        Some(e) => Some(time_left_text(parsed_or(e@, now), now)),
        None => None,
    }
}

/// The blocks of the bounties, in order.
pub open spec fn bounties_text(v: Seq<Item>) -> Seq<char>
    decreases v.len(),
{
    if v.len() == 0 {
        Seq::empty()
    } else {
        bounties_text(v.drop_last()) + item_text(v.last(), "bounties"@, None)
    }
}

/// The blocks of the contests, in order, each with its time left.
pub open spec fn contests_text(v: Seq<Item>, now: Instant) -> Seq<char>
    decreases v.len(),
{
    if v.len() == 0 {
        Seq::empty()
    } else {
        contests_text(v.drop_last(), now) + item_text(
            v.last(),
            "competitions"@,
            remaining_of(v.last(), now),
        )
    }
}

/// The whole report for sorted bounties `b` and sorted contests `c`.
pub open spec fn report_text(b: Seq<Item>, c: Seq<Item>, now: Instant) -> Seq<char> {
    "=== BOUNTIES ("@ + decimal_of(b.len()) + ")\n\n"@ + bounties_text(b)
        + "\n=== COMPETITIONS ("@ + decimal_of(c.len()) + ")\n\n"@ + contests_text(c, now)
}

/// Classifies, sorts and renders listings, with `now` standing for a
/// malformed timestamp and giving the time left of each contest.
pub fn render_report(items: Vec<Item>, now: Instant) -> (r: String)
    requires
        now.wf(),
    ensures
        exists|b: Seq<Item>, c: Seq<Item>|
            {
                let bs = items@.filter(|it: Item| is_bounty(it));
                let cs = items@.filter(|it: Item| is_contest(it));
                &&& stably_sorted_desc(bs, bs.map_values(|it: Item| bounty_key(it, now)), b)
                &&& stably_sorted_desc(cs, cs.map_values(|it: Item| contest_key(it, now)), c)
                &&& r@ == #[trigger] report_text(b, c, now)
            },
{
    let (bs, cs) = classify(items);
    let b = sort_bounties(bs, now);
    let c = sort_contests(cs, now);
    let mut r = String::from_str("=== BOUNTIES (");
    let nb = decimal(b.len() as u64);
    r.append(nb.as_str());
    r.append(")\n\n");
    let ghost head = r@;
    let mut i: usize = 0;
    assert(b@.take(0) =~= Seq::<Item>::empty());
    while i < b.len()
        invariant
            i <= b.len(),
            r@ == head + bounties_text(b@.take(i as int)),
        decreases b.len() - i,
    {
        let block = item_report(&b[i], "bounties", None);
        r.append(block.as_str());
        assert(b@.take(i + 1).drop_last() =~= b@.take(i as int));
        assert(r@ =~= head + bounties_text(b@.take(i + 1)));
        i = i + 1;
    }
    assert(b@.take(i as int) =~= b@);
    r.append("\n=== COMPETITIONS (");
    let nc = decimal(c.len() as u64);
    r.append(nc.as_str());
    r.append(")\n\n");
    let ghost mid = r@;
    let mut j: usize = 0;
    assert(c@.take(0) =~= Seq::<Item>::empty());
    while j < c.len()
        invariant
            j <= c.len(),
            now.wf(),
            r@ == mid + contests_text(c@.take(j as int), now),
        decreases c.len() - j,
    {
        let it = &c[j];
        let remaining = match &it.timeframe.end {
            Some(e) => Some(time_left(parse_date_or(e.as_str(), now), now)),
            None => None,
        };
        let block = item_report(it, "competitions", remaining);
        r.append(block.as_str());
        assert(c@.take(j + 1).drop_last() =~= c@.take(j as int));
        assert(r@ =~= mid + contests_text(c@.take(j + 1), now));
        j = j + 1;
    }
    assert(c@.take(j as int) =~= c@);
    assert(r@ =~= report_text(b@, c@, now));
    r
}

} // verus!
