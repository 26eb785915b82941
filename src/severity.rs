//! The severities that a listing accepts: those with a nonzero reward in some
//! in-scope asset group.
use vstd::prelude::*;
use crate::model::{AssetGroup, Reward};
use crate::text::{
    lemma_lex_asymmetric, lemma_lex_irreflexive, lemma_lex_total, lemma_lex_transitive, lex_less,
    str_less, trim_of, trimmed,
};

verus! {

/// A trimmed maximum reward that counts: non-empty and neither the text `0`
/// nor `0.00`. The test is on text, not on the number.
pub open spec fn nonzero_text(t: Seq<char>) -> bool {
    t.len() > 0 && t != "0"@ && t != "0.00"@
}

/// The reward counts: its maximum, trimmed, is a nonzero text.
pub open spec fn pays(r: Reward) -> bool {
    match r.max_reward {
        Some(m) => nonzero_text(trim_of(m@)),
        None => false,
    }
}

/// Reward `k` of group `g` exists, its group is in scope, and it counts.
pub open spec fn counts(groups: Seq<AssetGroup>, g: int, k: int) -> bool {
    &&& 0 <= g < groups.len()
    &&& !groups[g].out_of_scope
    &&& 0 <= k < groups[g].rewards@.len()
    &&& pays(groups[g].rewards@[k])
}

/// `s` is an accepted severity of `groups`.
pub open spec fn accepted(groups: Seq<AssetGroup>, s: Seq<char>) -> bool {
    exists|g: int, k: int| #[trigger] counts(groups, g, k) && groups[g].rewards@[k].severity@ == s
}

/// As `accepted`, over the rewards before reward `kl` of group `gl`.
pub open spec fn accepted_before(groups: Seq<AssetGroup>, gl: int, kl: int, s: Seq<char>) -> bool {
    exists|g: int, k: int|
        #[trigger] counts(groups, g, k) && (g < gl || (g == gl && k < kl))
            && groups[g].rewards@[k].severity@ == s
}

/// Strictly ascending in lexicographic order, hence without repeats.
pub open spec fn sorted_strict(v: Seq<String>) -> bool {
    forall|i: int, j: int| 0 <= i < j < v.len() ==> lex_less(#[trigger] v[i]@, #[trigger] v[j]@)
}

/// Strictly ascending in lexicographic order.
pub open spec fn ascending(v: Seq<Seq<char>>) -> bool {
    forall|i: int, j: int| 0 <= i < j < v.len() ==> lex_less(#[trigger] v[i], #[trigger] v[j])
}

/// The accepted severities of `groups`, ascending.
pub open spec fn severities_of(groups: Seq<AssetGroup>) -> Seq<Seq<char>> {
    choose|v: Seq<Seq<char>>|
        ascending(v) && forall|s: Seq<char>| #[trigger] v.contains(s) <==> accepted(groups, s)
}

/// Two ascending lists with the same elements are the same list.
pub proof fn lemma_ascending_unique(a: Seq<Seq<char>>, b: Seq<Seq<char>>)
    requires
        ascending(a),
        ascending(b),
        forall|s: Seq<char>| #[trigger] a.contains(s) <==> b.contains(s),
    ensures
        a == b,
    decreases a.len(),
{
    if a.len() == 0 || b.len() == 0 {
        if a.len() > 0 {
            assert(a.contains(a[0]));
        }
        if b.len() > 0 {
            assert(b.contains(b[0]));
            assert(a.contains(b[0]));
        }
        assert(a =~= b);
    } else {
        assert(a.contains(a[0]));
        assert(b.contains(b[0]));
        assert(a.contains(b[0]));
        let k = choose|k: int| 0 <= k < b.len() && b[k] == a[0];
        let m = choose|m: int| 0 <= m < a.len() && a[m] == b[0];
        if k > 0 {
            assert(lex_less(b[0], b[k]));
            if m > 0 {
                assert(lex_less(a[0], a[m]));
                lemma_lex_asymmetric(b[0], a[0]);
            } else {
                lemma_lex_irreflexive(a[0]);
            }
        }
        let a1 = a.drop_first();
        let b1 = b.drop_first();
        assert forall|s: Seq<char>| #[trigger] a1.contains(s) implies b1.contains(s) by {
            let i = choose|i: int| 0 <= i < a1.len() && a1[i] == s;
            assert(a[i + 1] == s);
            assert(lex_less(a[0], a[i + 1]));
            lemma_lex_irreflexive(s);
            assert(a.contains(s));
            assert(b.contains(s));
            let j = choose|j: int| 0 <= j < b.len() && b[j] == s;
            assert(b1[j - 1] == s);
        }
        assert forall|s: Seq<char>| #[trigger] b1.contains(s) implies a1.contains(s) by {
            let i = choose|i: int| 0 <= i < b1.len() && b1[i] == s;
            assert(b[i + 1] == s);
            assert(lex_less(b[0], b[i + 1]));
            lemma_lex_irreflexive(s);
            assert(b.contains(s));
            assert(a.contains(s));
            let j = choose|j: int| 0 <= j < a.len() && a[j] == s;
            assert(a1[j - 1] == s);
        }
        assert forall|i: int, j: int| 0 <= i < j < a1.len() implies lex_less(
            #[trigger] a1[i],
            #[trigger] a1[j],
        ) by {
            assert(a1[i] == a[i + 1] && a1[j] == a[j + 1]);
        }
        assert forall|i: int, j: int| 0 <= i < j < b1.len() implies lex_less(
            #[trigger] b1[i],
            #[trigger] b1[j],
        ) by {
            assert(b1[i] == b[i + 1] && b1[j] == b[j + 1]);
        }
        lemma_ascending_unique(a1, b1);
        assert(a =~= b) by {
            assert forall|i: int| 0 <= i < a.len() implies a[i] == b[i] by {
                if i > 0 {
                    assert(a[i] == a1[i - 1]);
                    assert(b[i] == b1[i - 1]);
                }
            }
        }
    }
}

/// Some element of `v` reads `s`.
pub open spec fn holds(v: Seq<String>, s: Seq<char>) -> bool {
    exists|i: int| 0 <= i < v.len() && #[trigger] v[i]@ == s
}

/// Whether a trimmed maximum reward counts.
pub fn is_nonzero_reward(t: &str) -> (r: bool)
    ensures
        r == nonzero_text(t@),
{
    let text = String::from_str(t);
    let zero = String::from_str("0");
    let zero_cents = String::from_str("0.00");
    t.unicode_len() > 0 && !(text == zero) && !(text == zero_cents)
}

/// Whether a reward counts, its maximum trimmed first.
pub fn reward_pays(r: &Reward) -> (b: bool)
    ensures
        b == pays(*r),
{
    match &r.max_reward {
        Some(m) => {
            let t = trimmed(m.as_str());
            is_nonzero_reward(t.as_str())
        },
        None => false,
    }
}

/// Adds `s` to a strictly ascending list, unless it is there already.
fn insert_sorted(v: &mut Vec<String>, s: &String)
    requires
        sorted_strict(old(v)@),
    ensures
        sorted_strict(final(v)@),
        forall|t: Seq<char>| holds(final(v)@, t) <==> (holds(old(v)@, t) || t == s@),
{
    let mut i: usize = 0;
    while i < v.len() && str_less(v[i].as_str(), s.as_str())
        invariant
            i <= v.len(),
            forall|j: int| 0 <= j < i ==> lex_less(#[trigger] v@[j]@, s@),
        decreases v.len() - i,
    {
        i = i + 1;
    }
    if i < v.len() && v[i] == *s {
        return;
    }
    let ghost before = v@;
    proof {
        if i < before.len() {
            lemma_lex_total(before[i as int]@, s@);
        }
        assert forall|j: int| i <= j < before.len() implies lex_less(s@, #[trigger] before[j]@) by {
            if j > i {
                lemma_lex_transitive(s@, before[i as int]@, before[j]@);
            }
        }
    }
    v.insert(i, s.clone());
    proof {
        let after = v@;
        assert forall|a: int, b: int| 0 <= a < b < after.len() implies lex_less(
            #[trigger] after[a]@,
            #[trigger] after[b]@,
        ) by {
            if b < i {
            } else if b == i {
            } else if a < i {
                lemma_lex_transitive(after[a]@, s@, after[b]@);
            } else if a == i {
            } else {
                assert(after[a] == before[a - 1]);
                assert(after[b] == before[b - 1]);
            }
        }
        assert forall|t: Seq<char>| holds(after, t) <==> (holds(before, t) || t == s@) by {
            if holds(after, t) {
                let k = choose|k: int| 0 <= k < after.len() && #[trigger] after[k]@ == t;
                if k < i {
                    assert(before[k]@ == t);
                } else if k > i {
                    assert(before[k - 1]@ == t);
                }
            }
            if holds(before, t) {
                let k = choose|k: int| 0 <= k < before.len() && #[trigger] before[k]@ == t;
                if k < i {
                    assert(after[k]@ == t);
                } else {
                    assert(after[k + 1]@ == t);
                }
            }
            if t == s@ {
                assert(after[i as int]@ == t);
            }
        }
    }
}

/// The accepted severities of an item's asset groups, ascending and without
/// repeats: a severity is listed where an in-scope group offers a reward for
/// it that counts.
pub fn accepted_severities(groups: &[AssetGroup]) -> (r: Vec<String>)
    ensures
        sorted_strict(r@),
        forall|s: Seq<char>| holds(r@, s) <==> accepted(groups@, s),
        r@.map_values(|x: String| x@) == severities_of(groups@),
{
    let mut out: Vec<String> = Vec::new();
    let mut gi: usize = 0;
    while gi < groups.len()
        invariant
            gi <= groups.len(),
            sorted_strict(out@),
            forall|s: Seq<char>| holds(out@, s) <==> accepted_before(groups@, gi as int, 0, s),
        decreases groups.len() - gi,
    {
        let g = &groups[gi];
        if !g.out_of_scope {
            let mut ki: usize = 0;
            while ki < g.rewards.len()
                invariant
                    gi < groups.len(),
                    *g == groups@[gi as int],
                    !g.out_of_scope,
                    ki <= g.rewards.len(),
                    sorted_strict(out@),
                    forall|s: Seq<char>|
                        holds(out@, s) <==> accepted_before(groups@, gi as int, ki as int, s),
                decreases g.rewards.len() - ki,
            {
                let r = &g.rewards[ki];
                let ghost prev = out@;
                if reward_pays(r) {
                    insert_sorted(&mut out, &r.severity);
                }
                assert forall|s: Seq<char>|
                    accepted_before(groups@, gi as int, ki + 1, s) implies holds(out@, s) by {
                    if accepted_before(groups@, gi as int, ki + 1, s) {
                        let (g2, k2) = choose|g2: int, k2: int|
                            #[trigger] counts(groups@, g2, k2) && (g2 < gi || (g2 == gi && k2
                                < ki + 1)) && groups@[g2].rewards@[k2].severity@ == s;
                        if !(g2 == gi && k2 == ki) {
                            assert(accepted_before(groups@, gi as int, ki as int, s));
                        }
                    }
                }
                assert forall|s: Seq<char>|
                    holds(out@, s) implies accepted_before(groups@, gi as int, ki + 1, s) by {
                    if holds(out@, s) {
                        if holds(prev, s) {
                            let (g2, k2) = choose|g2: int, k2: int|
                                #[trigger] counts(groups@, g2, k2) && (g2 < gi || (g2 == gi && k2
                                    < ki)) && groups@[g2].rewards@[k2].severity@ == s;
                            assert(counts(groups@, g2, k2));
                        } else {
                            assert(counts(groups@, gi as int, ki as int));
                        }
                    }
                }
                ki = ki + 1;
            }
        }
        assert forall|s: Seq<char>|
            accepted_before(groups@, gi as int, g.rewards@.len() as int, s)
                <==> accepted_before(groups@, gi + 1, 0, s) by {
            if accepted_before(groups@, gi + 1, 0, s) {
                let (g2, k2) = choose|g2: int, k2: int|
                    #[trigger] counts(groups@, g2, k2) && (g2 < gi + 1 || (g2 == gi + 1 && k2 < 0))
                        && groups@[g2].rewards@[k2].severity@ == s;
                assert(counts(groups@, g2, k2));
            }
            if accepted_before(groups@, gi as int, g.rewards@.len() as int, s) {
                let (g2, k2) = choose|g2: int, k2: int|
                    #[trigger] counts(groups@, g2, k2) && (g2 < gi || (g2 == gi && k2
                        < g.rewards@.len())) && groups@[g2].rewards@[k2].severity@ == s;
                assert(counts(groups@, g2, k2));
            }
        }
        if g.out_of_scope {
            assert forall|s: Seq<char>|
                accepted_before(groups@, gi as int, 0, s)
                    <==> accepted_before(groups@, gi as int, g.rewards@.len() as int, s) by {
                if accepted_before(groups@, gi as int, g.rewards@.len() as int, s) {
                    let (g2, k2) = choose|g2: int, k2: int|
                        #[trigger] counts(groups@, g2, k2) && (g2 < gi || (g2 == gi && k2
                            < g.rewards@.len())) && groups@[g2].rewards@[k2].severity@ == s;
                    assert(counts(groups@, g2, k2));
                }
            }
        }
        gi = gi + 1;
    }
    proof {
        assert forall|s: Seq<char>| accepted(groups@, s) <==> accepted_before(groups@, gi as int, 0, s) by {
            if accepted(groups@, s) {
                let (g2, k2) = choose|g2: int, k2: int|
                    #[trigger] counts(groups@, g2, k2) && groups@[g2].rewards@[k2].severity@ == s;
                assert(counts(groups@, g2, k2));
            }
            if accepted_before(groups@, gi as int, 0, s) {
                let (g2, k2) = choose|g2: int, k2: int|
                    #[trigger] counts(groups@, g2, k2) && (g2 < gi || (g2 == gi && k2 < 0))
                        && groups@[g2].rewards@[k2].severity@ == s;
                assert(counts(groups@, g2, k2));
            }
        }
        let v = out@.map_values(|x: String| x@);
        assert(ascending(v));
        assert forall|s: Seq<char>| #[trigger] v.contains(s) <==> accepted(groups@, s) by {
            if v.contains(s) {
                let i = choose|i: int| 0 <= i < v.len() && v[i] == s;
                assert(out@[i]@ == s);
            }
            if holds(out@, s) {
                let i = choose|i: int| 0 <= i < out@.len() && #[trigger] out@[i]@ == s;
                assert(v[i] == s);
            }
        }
        let w = severities_of(groups@);
        lemma_ascending_unique(v, w);
    }
    out
}

} // verus!
