use vstd::prelude::*;
use crate::clause::{
    absent_from, differs_from, lemma_from_filter, lemma_in_filter, member_of, shared,
    unshared, without,
};
use crate::driver::{
    first_merge_at, first_rule_merge, lemma_pair_merge_shared, merge_at, pair_merge, pair_step,
    reduce, run, size, step, sweep, sweep_clause,
};
use crate::literal::{flipped, is_plain};
use crate::merge::{flip_merge, other_alternative, rule_merge, shrink};
use crate::rule::RuleModel;

verus! {

/// Every literal of clause `c` is true in `env`.
pub open spec fn satisfies(env: spec_fn(Seq<char>) -> bool, c: Seq<Seq<char>>) -> bool {
    forall|k: int| 0 <= k < c.len() ==> #[trigger] env(c[k])
}

/// Some clause of group `g` is true in `env`: the configurations that a group
/// selects.
pub open spec fn denotes(env: spec_fn(Seq<char>) -> bool, g: Seq<Seq<Seq<char>>>) -> bool {
    exists|i: int| 0 <= i < g.len() && satisfies(env, #[trigger] g[i])
}

/// A configuration in which every plain flag and its negation have opposite
/// values.
pub open spec fn respects_negation(env: spec_fn(Seq<char>) -> bool) -> bool {
    forall|t: Seq<char>| is_plain(t) ==> #[trigger] env(flipped(t)) == !env(t)
}

/// The fact a rule states holds in `env`: where the prerequisites hold, a
/// single alternative is true, and exactly one of two alternatives is.
pub open spec fn rule_holds(env: spec_fn(Seq<char>) -> bool, r: RuleModel) -> bool {
    satisfies(env, r.prerequisites) ==> {
        &&& r.alternatives.len() == 1 ==> env(r.alternatives[0])
        &&& r.alternatives.len() == 2 ==> env(r.alternatives[0]) != env(r.alternatives[1])
    }
}

/// Every rule of a catalog holds in `env`.
pub open spec fn catalog_holds(env: spec_fn(Seq<char>) -> bool, rules: Seq<RuleModel>) -> bool {
    forall|i: int| 0 <= i < rules.len() ==> rule_holds(env, #[trigger] rules[i])
}

/// No alternative of any rule is also among its prerequisites.
pub open spec fn catalog_well_formed(rules: Seq<RuleModel>) -> bool {
    forall|i: int, k: int, m: int|
        0 <= i < rules.len() && 0 <= k < rules[i].alternatives.len() && 0 <= m
            < rules[i].prerequisites.len() ==> #[trigger] rules[i].alternatives[k]
            != #[trigger] rules[i].prerequisites[m]
}

/// A clause without repeated literals that holds no plain flag together with
/// its flip, nor both alternatives of a two-alternative rule.
pub open spec fn clause_well_formed(c: Seq<Seq<char>>, rules: Seq<RuleModel>) -> bool {
    &&& c.no_duplicates()
    &&& forall|k: int| 0 <= k < c.len() && is_plain(c[k]) ==> !c.contains(flipped(#[trigger] c[k]))
    &&& forall|i: int|
        0 <= i < rules.len() && (#[trigger] rules[i]).alternatives.len() == 2 ==> !(c.contains(
            rules[i].alternatives[0],
        ) && c.contains(rules[i].alternatives[1]))
}

/// Every clause of a group is well formed.
pub open spec fn group_well_formed(g: Seq<Seq<Seq<char>>>, rules: Seq<RuleModel>) -> bool {
    forall|i: int| 0 <= i < g.len() ==> clause_well_formed(#[trigger] g[i], rules)
}

// ---- sequences ----

/// A filter keeps no element twice.
pub proof fn lemma_filter_no_duplicates(s: Seq<Seq<char>>, p: spec_fn(Seq<char>) -> bool)
    requires
        s.no_duplicates(),
    ensures
        s.filter(p).no_duplicates(),
    decreases s.len(),
{
    broadcast use vstd::seq_lib::group_filter_ensures;

    if s.len() > 0 {
        let t = s.drop_last();
        assert(s =~= t.push(s.last()));
        assert(t.no_duplicates());
        lemma_filter_no_duplicates(t, p);
        t.lemma_filter_push(s.last(), p);
        assert(!t.contains(s.last()));
        if t.filter(p).contains(s.last()) {
            lemma_from_filter(t, p, s.last());
        }
    }
}

/// A literal is either shared with `b` or not.
pub proof fn lemma_shared_partition(a: Seq<Seq<char>>, b: Seq<Seq<char>>)
    ensures
        shared(a, b).len() + unshared(a, b).len() == a.len(),
    decreases a.len(),
{
    if a.len() > 0 {
        let t = a.drop_last();
        assert(a =~= t.push(a.last()));
        lemma_shared_partition(t, b);
        t.lemma_filter_push(a.last(), member_of(b));
        t.lemma_filter_push(a.last(), absent_from(b));
    }
}

/// Two sequences of one length without duplicates, the first inside the
/// second, hold the same elements.
pub proof fn lemma_same_members(s1: Seq<Seq<char>>, s2: Seq<Seq<char>>)
    requires
        s1.no_duplicates(),
        s2.no_duplicates(),
        s1.len() == s2.len(),
        forall|k: int| 0 <= k < s1.len() ==> s2.contains(#[trigger] s1[k]),
    ensures
        forall|k: int| 0 <= k < s2.len() ==> s1.contains(#[trigger] s2[k]),
{
    broadcast use vstd::seq_lib::seq_to_set_is_finite;

    s1.unique_seq_to_set();
    s2.unique_seq_to_set();
    assert(s1.to_set().subset_of(s2.to_set())) by {
        assert forall|e: Seq<char>| s1.to_set().contains(e) implies s2.to_set().contains(e) by {
            let k = s1.lemma_contains_to_index(e);
        }
    }
    vstd::set_lib::lemma_subset_equality(s1.to_set(), s2.to_set());
    assert forall|k: int| 0 <= k < s2.len() implies s1.contains(#[trigger] s2[k]) by {
        assert(s2.to_set().contains(s2[k]));
    }
}

// ---- single clauses ----

/// A sub-clause of a well-formed clause is well formed.
pub proof fn lemma_filter_well_formed(
    c: Seq<Seq<char>>,
    p: spec_fn(Seq<char>) -> bool,
    rules: Seq<RuleModel>,
)
    requires
        clause_well_formed(c, rules),
    ensures
        clause_well_formed(c.filter(p), rules),
{
    let d = c.filter(p);
    lemma_filter_no_duplicates(c, p);
    assert forall|k: int| 0 <= k < d.len() && is_plain(d[k]) implies !d.contains(flipped(#[trigger] d[k])) by {
        assert(d.contains(d[k]));
        lemma_from_filter(c, p, d[k]);
        let k2 = c.lemma_contains_to_index(d[k]);
        if d.contains(flipped(d[k])) {
            lemma_from_filter(c, p, flipped(d[k]));
        }
    }
    assert forall|i: int|
        0 <= i < rules.len() && (#[trigger] rules[i]).alternatives.len() == 2 implies !(d.contains(
            rules[i].alternatives[0],
        ) && d.contains(rules[i].alternatives[1])) by {
        if d.contains(rules[i].alternatives[0]) && d.contains(rules[i].alternatives[1]) {
            lemma_from_filter(c, p, rules[i].alternatives[0]);
            lemma_from_filter(c, p, rules[i].alternatives[1]);
        }
    }
}

/// A single-clause reduction keeps the clause's meaning.
pub proof fn lemma_shrink_sound(
    env: spec_fn(Seq<char>) -> bool,
    c: Seq<Seq<char>>,
    rules: Seq<RuleModel>,
    i: int,
)
    requires
        0 <= i < rules.len(),
        catalog_well_formed(rules),
        catalog_holds(env, rules),
        shrink(c, rules[i]) is Some,
    ensures
        satisfies(env, shrink(c, rules[i])->0) == satisfies(env, c),
{
    broadcast use vstd::seq_lib::group_filter_ensures;

    let r = rules[i];
    let x = r.alternatives[0];
    let d = without(c, x);
    if satisfies(env, d) {
        assert forall|m: int| 0 <= m < r.prerequisites.len() implies #[trigger] env(
            r.prerequisites[m],
        ) by {
            let p = r.prerequisites[m];
            assert(c.contains(p));
            assert(x != p);
            lemma_in_filter(c, differs_from(x), p);
            let k2 = d.lemma_contains_to_index(p);
        }
        assert(rule_holds(env, r));
        assert forall|k: int| 0 <= k < c.len() implies #[trigger] env(c[k]) by {
            if c[k] != x {
                assert(c.contains(c[k]));
                lemma_in_filter(c, differs_from(x), c[k]);
                let k2 = d.lemma_contains_to_index(c[k]);
            }
        }
    }
    if satisfies(env, c) {
        assert forall|k: int| 0 <= k < d.len() implies #[trigger] env(d[k]) by {
            assert(d.contains(d[k]));
            lemma_from_filter(c, differs_from(x), d[k]);
            let k2 = c.lemma_contains_to_index(d[k]);
        }
    }
}

/// The rule through which the catalog merges two clauses.
pub proof fn lemma_merging_rule(
    a: Seq<Seq<char>>,
    b: Seq<Seq<char>>,
    rules: Seq<RuleModel>,
    k: int,
) -> (idx: int)
    requires
        first_rule_merge(a, b, rules, k) is Some,
    ensures
        0 <= idx < k,
        rule_merge(a, b, rules[idx]) is Some,
    decreases k,
{
    if first_rule_merge(a, b, rules, k - 1) is Some {
        lemma_merging_rule(a, b, rules, k - 1)
    } else {
        k - 1
    }
}

/// A pairwise merge selects exactly what the two clauses selected together,
/// and gives a well-formed clause.
pub proof fn lemma_pair_merge_sound(
    env: spec_fn(Seq<char>) -> bool,
    a: Seq<Seq<char>>,
    b: Seq<Seq<char>>,
    rules: Seq<RuleModel>,
)
    requires
        catalog_well_formed(rules),
        catalog_holds(env, rules),
        respects_negation(env),
        clause_well_formed(a, rules),
        clause_well_formed(b, rules),
        pair_merge(a, b, rules) is Some,
    ensures
        satisfies(env, pair_merge(a, b, rules)->0) == (satisfies(env, a) || satisfies(env, b)),
        clause_well_formed(pair_merge(a, b, rules)->0, rules),
{
    lemma_pair_merge_shared(a, b, rules, rules.len() as int);
    let m = shared(a, b);
    let d = unshared(a, b);
    lemma_filter_well_formed(a, member_of(b), rules);
    lemma_shared_partition(a, b);
    if satisfies(env, a) || satisfies(env, b) {
        assert forall|k: int| 0 <= k < m.len() implies #[trigger] env(m[k]) by {
            assert(m.contains(m[k]));
            lemma_from_filter(a, member_of(b), m[k]);
            let ka = a.lemma_contains_to_index(m[k]);
            let kb = b.lemma_contains_to_index(m[k]);
        }
    }
    if satisfies(env, m) {
        // A literal of `a` that `b` lacks is in `d`; every other is in `m`.
        assert forall|x: Seq<char>| a.contains(x) && !d.contains(x) implies env(x) by {
            if !b.contains(x) {
                lemma_in_filter(a, absent_from(b), x);
            }
            lemma_in_filter(a, member_of(b), x);
            let km = m.lemma_contains_to_index(x);
        }
        if d.len() == 0 {
            assert forall|k: int| 0 <= k < a.len() implies #[trigger] env(a[k]) by {
                assert(a.contains(a[k]));
            }
        } else {
            let t = d[0];
            assert(d.contains(t));
            lemma_from_filter(a, absent_from(b), t);
            let mut idx: int = 0;
            if flip_merge(a, b) is None {
                idx = lemma_merging_rule(a, b, rules, rules.len() as int);
            }
            let o = if flip_merge(a, b) is Some {
                flipped(t)
            } else {
                other_alternative(t, rules[idx])->0
            };
            if env(t) {
                assert forall|k: int| 0 <= k < a.len() implies #[trigger] env(a[k]) by {
                    assert(a.contains(a[k]));
                    if d.contains(a[k]) {
                        let kd = d.lemma_contains_to_index(a[k]);
                    }
                }
            } else {
                let kt = a.lemma_contains_to_index(t);
                // The literal that stands in for `t` in `b` is true, and new to `m`.
                if flip_merge(a, b) is Some {
                    assert(env(o));
                    assert(!a.contains(o));
                } else {
                    let r = rules[idx];
                    assert(rule_holds(env, r));
                    assert forall|q: int| 0 <= q < r.prerequisites.len() implies #[trigger] env(
                        r.prerequisites[q],
                    ) by {
                        let p = r.prerequisites[q];
                        assert(a.contains(p));
                        assert(r.alternatives[0] != p && r.alternatives[1] != p);
                        if d.contains(p) {
                            let kd = d.lemma_contains_to_index(p);
                        }
                    }
                    assert(env(o));
                    assert(!a.contains(o));
                }
                assert(!m.contains(o)) by {
                    if m.contains(o) {
                        lemma_from_filter(a, member_of(b), o);
                    }
                }
                let s1 = m.push(o);
                assert(s1.no_duplicates()) by {
                    assert forall|i: int, j: int|
                        0 <= i < s1.len() && 0 <= j < s1.len() && i != j implies s1[i] != s1[j] by {
                        if i < m.len() && j < m.len() {
                        } else if i < m.len() {
                            assert(m.contains(m[i]));
                        } else {
                            assert(m.contains(m[j]));
                        }
                    }
                }
                assert forall|k: int| 0 <= k < s1.len() implies b.contains(#[trigger] s1[k]) by {
                    if k < m.len() {
                        assert(m.contains(m[k]));
                        lemma_from_filter(a, member_of(b), m[k]);
                    }
                }
                lemma_same_members(s1, b);
                assert forall|k: int| 0 <= k < b.len() implies #[trigger] env(b[k]) by {
                    assert(s1.contains(b[k]));
                    let k1 = s1.lemma_contains_to_index(b[k]);
                    if k1 < m.len() {
                        assert(s1[k1] == m[k1]);
                    }
                }
            }
        }
    }
}

/// A sweep of single-clause reductions keeps a clause's meaning and its
/// well-formedness.
pub proof fn lemma_sweep_clause_sound(
    env: spec_fn(Seq<char>) -> bool,
    c: Seq<Seq<char>>,
    rules: Seq<RuleModel>,
    k: int,
)
    requires
        0 <= k <= rules.len(),
        catalog_well_formed(rules),
        catalog_holds(env, rules),
        clause_well_formed(c, rules),
    ensures
        satisfies(env, sweep_clause(c, rules, k)) == satisfies(env, c),
        clause_well_formed(sweep_clause(c, rules, k), rules),
    decreases k,
{
    if k > 0 {
        lemma_sweep_clause_sound(env, c, rules, k - 1);
        let p = sweep_clause(c, rules, k - 1);
        if shrink(p, rules[k - 1]) is Some {
            lemma_shrink_sound(env, p, rules, k - 1);
            lemma_filter_well_formed(p, differs_from(rules[k - 1].alternatives[0]), rules);
        }
    }
}

/// A move of the driver keeps what a well-formed group selects, and keeps it
/// well formed.
pub proof fn lemma_step_sound(
    env: spec_fn(Seq<char>) -> bool,
    g: Seq<Seq<Seq<char>>>,
    rules: Seq<RuleModel>,
)
    requires
        catalog_well_formed(rules),
        catalog_holds(env, rules),
        respects_negation(env),
        group_well_formed(g, rules),
        step(g, rules) is Some,
    ensures
        denotes(env, step(g, rules)->0) == denotes(env, g),
        group_well_formed(step(g, rules)->0, rules),
{
    let h = step(g, rules)->0;
    if pair_step(g, rules) is Some {
        let (i, j) = choose|i: int, j: int| first_merge_at(g, rules, i, j);
        let m = merge_at(g, rules, i, j)->0;
        lemma_pair_merge_sound(env, g[i], g[j], rules);
        assert(h == g.update(j, m).remove(i));
        assert forall|w: int| 0 <= w < h.len() implies #[trigger] h[w] == if w < i {
            if w == j {
                m
            } else {
                g[w]
            }
        } else {
            g[w + 1]
        } by {}
        if denotes(env, g) {
            let w = choose|w: int| 0 <= w < g.len() && satisfies(env, #[trigger] g[w]);
            if w == i || w == j {
                assert(satisfies(env, h[j]));
            } else if w < i {
                assert(satisfies(env, h[w]));
            } else {
                assert(satisfies(env, h[w - 1]));
            }
        }
        if denotes(env, h) {
            let w = choose|w: int| 0 <= w < h.len() && satisfies(env, #[trigger] h[w]);
            if w == j {
                assert(satisfies(env, g[i]) || satisfies(env, g[j]));
            } else if w < i {
                assert(satisfies(env, g[w]));
            } else {
                assert(satisfies(env, g[w + 1]));
            }
        }
        assert forall|w: int| 0 <= w < h.len() implies clause_well_formed(#[trigger] h[w], rules) by {
            if w >= i {
                assert(clause_well_formed(g[w + 1], rules));
            } else if w != j {
                assert(clause_well_formed(g[w], rules));
            }
        }
    } else {
        assert forall|w: int| 0 <= w < g.len() implies satisfies(env, #[trigger] h[w]) == satisfies(
            env,
            g[w],
        ) && clause_well_formed(h[w], rules) by {
            lemma_sweep_clause_sound(env, g[w], rules, rules.len() as int);
        }
        if denotes(env, g) {
            let w = choose|w: int| 0 <= w < g.len() && satisfies(env, #[trigger] g[w]);
            assert(satisfies(env, h[w]));
        }
        if denotes(env, h) {
            let w = choose|w: int| 0 <= w < h.len() && satisfies(env, #[trigger] h[w]);
            assert(satisfies(env, g[w]));
        }
    }
}

/// Any number of moves keeps what a well-formed group selects.
pub proof fn lemma_run_sound(
    env: spec_fn(Seq<char>) -> bool,
    g: Seq<Seq<Seq<char>>>,
    rules: Seq<RuleModel>,
    fuel: nat,
)
    requires
        catalog_well_formed(rules),
        catalog_holds(env, rules),
        respects_negation(env),
        group_well_formed(g, rules),
    ensures
        denotes(env, run(g, rules, fuel)) == denotes(env, g),
        group_well_formed(run(g, rules, fuel), rules),
    decreases fuel,
{
    if fuel > 0 && step(g, rules) is Some {
        lemma_step_sound(env, g, rules);
        lemma_run_sound(env, step(g, rules)->0, rules, (fuel - 1) as nat);
    }
}

/// Reduction keeps meaning: in every configuration where each plain flag and
/// its negation take opposite values and every rule of the catalog holds, a group of
/// well-formed clauses selects the same configurations before and after
/// reduction.
pub proof fn lemma_reduce_equivalent(
    env: spec_fn(Seq<char>) -> bool,
    g: Seq<Seq<Seq<char>>>,
    rules: Seq<RuleModel>,
)
    requires
        catalog_well_formed(rules),
        catalog_holds(env, rules),
        respects_negation(env),
        group_well_formed(g, rules),
    ensures
        denotes(env, reduce(g, rules)) == denotes(env, g),
{
    lemma_run_sound(env, g, rules, size(g));
}

} // verus!
