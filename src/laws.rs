use vstd::prelude::*;
use crate::driver::{
    converged, first_merge_at, lemma_literal_count_remove, lemma_literal_count_update,
    lemma_pair_merge_shared, lemma_reduce_converged, lemma_sweep_clause_len, literal_count,
    merge_at, pair_step, reduce, run, size, step, sweep, sweep_fires,
};
use crate::catalog::{catalog, lemma_catalog_well_formed};
use crate::clause::{differs_from, lemma_in_filter, shared, unshared, without};
use crate::driver::{pair_merge, sweep_clause};
use crate::semantics::{catalog_well_formed, lemma_merging_rule, lemma_shared_partition};
use crate::literal::{flipped, is_negated, is_plain, lemma_flipped_plain};
use crate::merge::{flip_merge, rule_merge, shrink};
use crate::rule::RuleModel;

verus! {

/// The single-clause reductions that fire in a sweep of the whole group.
pub open spec fn sweep_fire_count(g: Seq<Seq<Seq<char>>>, rules: Seq<RuleModel>) -> nat
    decreases g.len(),
{
    if g.len() == 0 {
        0
    } else {
        sweep_fire_count(g.drop_last(), rules) + sweep_fires(
            g.last(),
            rules,
            rules.len() as int,
        )
    }
}

/// The merge operators that fire in one move of the driver: one for a
/// pairwise merge, one per single-clause reduction for a sweep.
pub open spec fn step_applications(g: Seq<Seq<Seq<char>>>, rules: Seq<RuleModel>) -> nat {
    if pair_step(g, rules) is Some {
        1
    } else {
        sweep_fire_count(g, rules)
    }
}

/// Whether the move of the driver joins two empty clauses.
pub open spec fn joins_empty(g: Seq<Seq<Seq<char>>>, rules: Seq<RuleModel>) -> bool {
    pair_step(g, rules) is Some && ({
        let (i, j) = choose|i: int, j: int| first_merge_at(g, rules, i, j);
        g[i].len() == 0
    })
}

/// The merge operators that fire in at most `fuel` moves of the driver.
pub open spec fn applications(g: Seq<Seq<Seq<char>>>, rules: Seq<RuleModel>, fuel: nat) -> nat
    decreases fuel,
{
    if fuel == 0 {
        0
    } else {
        match step(g, rules) {
            Some(h) => step_applications(g, rules) + applications(h, rules, (fuel - 1) as nat),
            None => 0,
        }
    }
}

/// The merges of two empty clauses in at most `fuel` moves of the driver.
pub open spec fn empty_joins(g: Seq<Seq<Seq<char>>>, rules: Seq<RuleModel>, fuel: nat) -> nat
    decreases fuel,
{
    if fuel == 0 {
        0
    } else {
        match step(g, rules) {
            Some(h) => (if joins_empty(g, rules) {
                1nat
            } else {
                0nat
            }) + empty_joins(h, rules, (fuel - 1) as nat),
            None => 0,
        }
    }
}

/// Idempotence: reducing a reduced group changes nothing, and a group at a
/// fixed point is its own reduction.
pub proof fn lemma_reduce_idempotent(g: Seq<Seq<Seq<char>>>, rules: Seq<RuleModel>)
    ensures
        reduce(reduce(g, rules), rules) == reduce(g, rules),
        converged(g, rules) ==> reduce(g, rules) == g,
{
    lemma_reduce_converged(g, rules);
    lemma_reduce_converged(reduce(g, rules), rules);
}

/// Every reduction that fires in a sweep removes at least one literal.
proof fn lemma_sweep_fire_count(g: Seq<Seq<Seq<char>>>, rules: Seq<RuleModel>)
    ensures
        literal_count(sweep(g, rules)) + sweep_fire_count(g, rules) <= literal_count(g),
    decreases g.len(),
{
    if g.len() > 0 {
        assert(sweep(g, rules).drop_last() =~= sweep(g.drop_last(), rules));
        lemma_sweep_fire_count(g.drop_last(), rules);
        lemma_sweep_clause_len(g.last(), rules, rules.len() as int);
    }
}

/// A move removes at least one literal per application, except a merge of
/// two empty clauses; only a pairwise merge removes a clause.
proof fn lemma_step_applications(g: Seq<Seq<Seq<char>>>, rules: Seq<RuleModel>)
    requires
        step(g, rules) is Some,
    ensures
        literal_count(step(g, rules)->0) + step_applications(g, rules) <= literal_count(g) + (
        if joins_empty(g, rules) {
            1int
        } else {
            0int
        }),
        (step(g, rules)->0).len() + (if pair_step(g, rules) is Some {
            1int
        } else {
            0int
        }) == g.len(),
{
    if pair_step(g, rules) is Some {
        let (i, j) = choose|i: int, j: int| first_merge_at(g, rules, i, j);
        let m = merge_at(g, rules, i, j)->0;
        lemma_pair_merge_shared(g[i], g[j], rules, rules.len() as int);
        let u = g.update(j, m);
        lemma_literal_count_update(g, j, m);
        lemma_literal_count_remove(u, i);
    } else {
        lemma_sweep_fire_count(g, rules);
    }
}

/// The counts of a run, move by move.
proof fn lemma_applications_run(g: Seq<Seq<Seq<char>>>, rules: Seq<RuleModel>, fuel: nat)
    ensures
        literal_count(run(g, rules, fuel)) + applications(g, rules, fuel) <= literal_count(g)
            + empty_joins(g, rules, fuel),
        run(g, rules, fuel).len() + empty_joins(g, rules, fuel) <= g.len(),
        g.len() > 0 ==> run(g, rules, fuel).len() > 0,
    decreases fuel,
{
    if fuel > 0 && step(g, rules) is Some {
        let h = step(g, rules)->0;
        lemma_step_applications(g, rules);
        lemma_applications_run(h, rules, (fuel - 1) as nat);
        if pair_step(g, rules) is Some {
            let (i, j) = choose|i: int, j: int| first_merge_at(g, rules, i, j);
            assert(g.len() >= 2);
        }
    }
}

/// `n` clauses of at most `k` literals hold at most `n * k` literals.
proof fn lemma_literal_count_bound(g: Seq<Seq<Seq<char>>>, k: nat)
    requires
        forall|i: int| 0 <= i < g.len() ==> #[trigger] g[i].len() <= k,
    ensures
        literal_count(g) <= g.len() * k,
    decreases g.len(),
{
    if g.len() > 0 {
        let n = g.len();
        lemma_literal_count_bound(g.drop_last(), k);
        assert(g.last().len() <= k);
        assert((n - 1) * k + k == n * k) by (nonlinear_arith);
    }
}

/// Termination bound: a group of `n` clauses with at most `k` literals each
/// reaches its fixed point after at most `n * k` applications of the merge
/// operators, not counting merges of two empty clauses, of which there are
/// fewer than `n`. Every other application removes at least one literal.
pub proof fn lemma_application_bound(g: Seq<Seq<Seq<char>>>, rules: Seq<RuleModel>, n: nat, k: nat)
    requires
        g.len() == n,
        forall|i: int| 0 <= i < g.len() ==> #[trigger] g[i].len() <= k,
    ensures
        applications(g, rules, size(g)) <= n * k + empty_joins(g, rules, size(g)),
        n > 0 ==> empty_joins(g, rules, size(g)) < n,
        converged(run(g, rules, size(g)), rules),
{
    lemma_literal_count_bound(g, k);
    lemma_applications_run(g, rules, size(g));
    lemma_reduce_converged(g, rules);
}

/// Flip merge: clauses `{a, b, not x}` and `{a, b, x}`, for a plain flag `x`
/// and literals `a`, `b` apart from `x` and its flip, merge to `{a, b}`,
/// whichever comes first.
pub proof fn lemma_flip_merge_pair(a: Seq<char>, b: Seq<char>, x: Seq<char>)
    requires
        is_plain(x),
        !is_negated(x),
        a != b,
        a != x && a != flipped(x),
        b != x && b != flipped(x),
    ensures
        flip_merge(seq![a, b, flipped(x)], seq![a, b, x]) == Some(seq![a, b]),
        flip_merge(seq![a, b, x], seq![a, b, flipped(x)]) == Some(seq![a, b]),
{
    reveal_with_fuel(Seq::filter, 4);
    let nx = flipped(x);
    lemma_flipped_plain(x);
    assert(nx != x) by {
        assert(nx.len() != x.len());
    }
    let c1 = seq![a, b, nx];
    let c2 = seq![a, b, x];
    assert(c2.contains(a) && c2.contains(b) && !c2.contains(nx)) by {
        assert(c2[0] == a && c2[1] == b);
    }
    assert(c1.contains(a) && c1.contains(b) && !c1.contains(x)) by {
        assert(c1[0] == a && c1[1] == b);
    }
    assert(c1.drop_last().drop_last().drop_last() =~= Seq::<Seq<char>>::empty());
    assert(c2.drop_last().drop_last().drop_last() =~= Seq::<Seq<char>>::empty());
    assert(c1.drop_last().drop_last() =~= seq![a]);
    assert(c2.drop_last().drop_last() =~= seq![a]);
    assert(c1.drop_last() =~= seq![a, b]);
    assert(c2.drop_last() =~= seq![a, b]);
    assert(shared(c1, c2) =~= seq![a, b]);
    assert(unshared(c1, c2) =~= seq![nx]);
    assert(shared(c2, c1) =~= seq![a, b]);
    assert(unshared(c2, c1) =~= seq![x]);
    assert(c2.contains(flipped(nx))) by {
        assert(c2[2] == x);
    }
    assert(c1.contains(flipped(x))) by {
        assert(c1[2] == nx);
    }
}

/// Flip merge needs the clauses to differ in one literal of the first: with
/// two or more that the second lacks there is no merge.
pub proof fn lemma_flip_merge_two_differences(c1: Seq<Seq<char>>, c2: Seq<Seq<char>>)
    requires
        unshared(c1, c2).len() >= 2,
    ensures
        flip_merge(c1, c2) is None,
{
}

/// Rule-guided merge: under a rule with prerequisite `p` and alternatives
/// `v1`, `v2`, clauses `{p, q, v1}` and `{p, q, v2}` of distinct literals
/// merge to `{p, q}`; with `p` missing from the second clause they do not.
pub proof fn lemma_rule_merge_pair(
    p: Seq<char>,
    q: Seq<char>,
    v1: Seq<char>,
    v2: Seq<char>,
    other: Seq<char>,
)
    requires
        seq![p, q, v1, v2].no_duplicates(),
        other != p,
    ensures
        rule_merge(
            seq![p, q, v1],
            seq![p, q, v2],
            RuleModel { prerequisites: seq![p], alternatives: seq![v1, v2] },
        ) == Some(seq![p, q]),
        rule_merge(
            seq![p, q, v1],
            seq![other, q, v2],
            RuleModel { prerequisites: seq![p], alternatives: seq![v1, v2] },
        ) is None,
{
    reveal_with_fuel(Seq::filter, 4);
    let four = seq![p, q, v1, v2];
    assert(four[0] == p && four[1] == q && four[2] == v1 && four[3] == v2);
    let c1 = seq![p, q, v1];
    let c2 = seq![p, q, v2];
    let c3 = seq![other, q, v2];
    assert(c2.contains(p) && c2.contains(q) && !c2.contains(v1)) by {
        assert(c2[0] == p && c2[1] == q);
    }
    assert(c1.contains(p)) by {
        assert(c1[0] == p);
    }
    assert(c2.contains(v2)) by {
        assert(c2[2] == v2);
    }
    assert(!c3.contains(p));
    assert(c1.drop_last().drop_last().drop_last() =~= Seq::<Seq<char>>::empty());
    assert(c1.drop_last().drop_last() =~= seq![p]);
    assert(c1.drop_last() =~= seq![p, q]);
    assert(shared(c1, c2) =~= seq![p, q]);
    assert(unshared(c1, c2) =~= seq![v1]);
}

/// Single-clause shrink: clause `{p, q, v}` of distinct literals under a rule
/// with prerequisite `p` and the single alternative `v` becomes `{p, q}`.
pub proof fn lemma_shrink_single(p: Seq<char>, q: Seq<char>, v: Seq<char>)
    requires
        seq![p, q, v].no_duplicates(),
    ensures
        shrink(seq![p, q, v], RuleModel { prerequisites: seq![p], alternatives: seq![v] }) == Some(
            seq![p, q],
        ),
{
    reveal_with_fuel(Seq::filter, 4);
    let c = seq![p, q, v];
    assert(c[0] == p && c[1] == q && c[2] == v);
    assert(c.contains(p) && c.contains(v));
    assert(c.drop_last().drop_last().drop_last() =~= Seq::<Seq<char>>::empty());
    assert(c.drop_last().drop_last() =~= seq![p]);
    assert(c.drop_last() =~= seq![p, q]);
    assert(without(c, v) =~= seq![p, q]);
}

/// The number of empty clauses of a group.
pub open spec fn empty_count(g: Seq<Seq<Seq<char>>>) -> nat
    decreases g.len(),
{
    if g.len() == 0 {
        0
    } else {
        empty_count(g.drop_last()) + if g.last().len() == 0 {
            1nat
        } else {
            0nat
        }
    }
}

/// The literals of a group, plus its empty clauses but one: every
/// application of a merge operator lowers it, when every rule has a
/// prerequisite.
pub open spec fn potential(g: Seq<Seq<Seq<char>>>) -> nat {
    literal_count(g) + if empty_count(g) > 0 {
        (empty_count(g) - 1) as nat
    } else {
        0nat
    }
}

/// Every rule of the catalog has at least one prerequisite.
pub open spec fn rules_have_prerequisites(rules: Seq<RuleModel>) -> bool {
    forall|i: int| 0 <= i < rules.len() ==> (#[trigger] rules[i]).prerequisites.len() > 0
}

/// Replacing a clause changes the empty count by the emptiness of the two.
proof fn lemma_empty_count_update(g: Seq<Seq<Seq<char>>>, j: int, c: Seq<Seq<char>>)
    requires
        0 <= j < g.len(),
    ensures
        empty_count(g.update(j, c)) + (if g[j].len() == 0 { 1int } else { 0int }) == empty_count(g)
            + (if c.len() == 0 { 1int } else { 0int }),
    decreases g.len(),
{
    let h = g.update(j, c);
    if j == g.len() - 1 {
        assert(h.drop_last() =~= g.drop_last());
    } else {
        assert(h.drop_last() =~= g.drop_last().update(j, c));
        lemma_empty_count_update(g.drop_last(), j, c);
    }
}

/// Removing a clause removes it from the empty count.
proof fn lemma_empty_count_remove(g: Seq<Seq<Seq<char>>>, i: int)
    requires
        0 <= i < g.len(),
    ensures
        empty_count(g.remove(i)) + (if g[i].len() == 0 { 1int } else { 0int }) == empty_count(g),
    decreases g.len(),
{
    let h = g.remove(i);
    if i == g.len() - 1 {
        assert(h =~= g.drop_last());
    } else {
        assert(h.drop_last() =~= g.drop_last().remove(i));
        assert(h.last() == g.last());
        lemma_empty_count_remove(g.drop_last(), i);
    }
}

/// A group with an empty clause counts at least one.
proof fn lemma_empty_count_positive(g: Seq<Seq<Seq<char>>>, i: int)
    requires
        0 <= i < g.len(),
        g[i].len() == 0,
    ensures
        empty_count(g) >= 1,
    decreases g.len(),
{
    if i < g.len() - 1 {
        assert(g.drop_last()[i] == g[i]);
        lemma_empty_count_positive(g.drop_last(), i);
    }
}

/// Groups whose clauses are empty at the same places count the same.
proof fn lemma_empty_count_same(g: Seq<Seq<Seq<char>>>, h: Seq<Seq<Seq<char>>>)
    requires
        g.len() == h.len(),
        forall|i: int| 0 <= i < g.len() ==> (#[trigger] g[i].len() == 0) == (h[i].len() == 0),
    ensures
        empty_count(g) == empty_count(h),
    decreases g.len(),
{
    if g.len() > 0 {
        assert forall|i: int| 0 <= i < g.len() - 1 implies (#[trigger] g.drop_last()[i].len() == 0) == (
        h.drop_last()[i].len() == 0) by {
            assert(g.drop_last()[i] == g[i] && h.drop_last()[i] == h[i]);
        }
        lemma_empty_count_same(g.drop_last(), h.drop_last());
        assert(g.last().len() == 0 <==> h.last().len() == 0) by {
            assert(g.last() == g[g.len() - 1] && h.last() == h[g.len() - 1]);
        }
    }
}

/// A sweep empties no clause when every rule has a prerequisite apart from
/// its alternatives.
proof fn lemma_sweep_keeps_nonempty(c: Seq<Seq<char>>, rules: Seq<RuleModel>, k: int)
    requires
        0 <= k <= rules.len(),
        rules_have_prerequisites(rules),
        catalog_well_formed(rules),
    ensures
        (sweep_clause(c, rules, k).len() == 0) == (c.len() == 0),
    decreases k,
{
    if k > 0 {
        lemma_sweep_keeps_nonempty(c, rules, k - 1);
        lemma_sweep_clause_len(c, rules, k);
        let p = sweep_clause(c, rules, k - 1);
        let r = rules[k - 1];
        if shrink(p, r) is Some {
            assert(r.prerequisites.len() > 0);
            let q = r.prerequisites[0];
            assert(p.contains(q));
            assert(r.alternatives[0] != q);
            lemma_in_filter(p, differs_from(r.alternatives[0]), q);
        }
    }
}

/// A merged pair of clauses differs in at most one literal.
proof fn lemma_pair_merge_unshared(a: Seq<Seq<char>>, b: Seq<Seq<char>>, rules: Seq<RuleModel>)
    requires
        pair_merge(a, b, rules) is Some,
    ensures
        unshared(a, b).len() <= 1,
{
    if flip_merge(a, b) is None {
        let idx = lemma_merging_rule(a, b, rules, rules.len() as int);
    }
}

/// Each application of a merge operator lowers the potential by at least one.
proof fn lemma_step_potential(g: Seq<Seq<Seq<char>>>, rules: Seq<RuleModel>)
    requires
        step(g, rules) is Some,
        rules_have_prerequisites(rules),
        catalog_well_formed(rules),
    ensures
        potential(step(g, rules)->0) + step_applications(g, rules) <= potential(g),
{
    let h = step(g, rules)->0;
    if pair_step(g, rules) is Some {
        let (i, j) = choose|i: int, j: int| first_merge_at(g, rules, i, j);
        let m = merge_at(g, rules, i, j)->0;
        lemma_pair_merge_shared(g[i], g[j], rules, rules.len() as int);
        lemma_pair_merge_unshared(g[i], g[j], rules);
        lemma_shared_partition(g[i], g[j]);
        let u = g.update(j, m);
        lemma_literal_count_update(g, j, m);
        lemma_literal_count_remove(u, i);
        lemma_empty_count_update(g, j, m);
        lemma_empty_count_remove(u, i);
        assert(u[i] == g[i]);
        assert(h == u.remove(i));
        let len = g[i].len();
        assert(m.len() + unshared(g[i], g[j]).len() == len);
        assert(step_applications(g, rules) == 1);
        assert(literal_count(h) + 2 * len == literal_count(g) + m.len());
        assert(empty_count(h) + (if len == 0 { 2int } else { 0int }) == empty_count(g) + (if m.len() == 0 { 1int } else { 0int }));
        if len == 0 {
            assert(h[j] == m);
            lemma_empty_count_positive(h, j);
        } else if unshared(g[i], g[j]).len() == 0 {
            assert(m.len() == len);
        }
    } else {
        lemma_sweep_fire_count(g, rules);
        let w = sweep(g, rules);
        assert forall|i: int| 0 <= i < g.len() implies (#[trigger] g[i].len() == 0) == (w[i].len()
            == 0) by {
            lemma_sweep_keeps_nonempty(g[i], rules, rules.len() as int);
        }
        lemma_empty_count_same(g, w);
    }
}

proof fn lemma_applications_potential(g: Seq<Seq<Seq<char>>>, rules: Seq<RuleModel>, fuel: nat)
    requires
        rules_have_prerequisites(rules),
        catalog_well_formed(rules),
    ensures
        applications(g, rules, fuel) <= potential(g),
    decreases fuel,
{
    if fuel > 0 && step(g, rules) is Some {
        lemma_step_potential(g, rules);
        lemma_applications_potential(step(g, rules)->0, rules, (fuel - 1) as nat);
    }
}

/// `n` clauses of at most `k >= 1` literals hold, with their empty clauses,
/// at most `n * k`.
proof fn lemma_potential_bound(g: Seq<Seq<Seq<char>>>, k: nat)
    requires
        k >= 1,
        forall|i: int| 0 <= i < g.len() ==> #[trigger] g[i].len() <= k,
    ensures
        literal_count(g) + empty_count(g) <= g.len() * k,
    decreases g.len(),
{
    if g.len() > 0 {
        let n = g.len();
        assert forall|i: int| 0 <= i < n - 1 implies #[trigger] g.drop_last()[i].len() <= k by {
            assert(g.drop_last()[i] == g[i]);
        }
        lemma_potential_bound(g.drop_last(), k);
        assert(g.last().len() <= k);
        assert((n - 1) * k + k == n * k) by (nonlinear_arith);
    }
}

/// Termination bound: when every rule has a prerequisite apart from its
/// alternatives, a group of `n` clauses with at most `k >= 1` literals each
/// reaches its fixed point after at most `n * k` applications of the merge
/// operators.
pub proof fn lemma_application_bound_exact(
    g: Seq<Seq<Seq<char>>>,
    rules: Seq<RuleModel>,
    n: nat,
    k: nat,
)
    requires
        rules_have_prerequisites(rules),
        catalog_well_formed(rules),
        k >= 1,
        g.len() == n,
        forall|i: int| 0 <= i < g.len() ==> #[trigger] g[i].len() <= k,
    ensures
        applications(g, rules, size(g)) <= n * k,
        converged(run(g, rules, size(g)), rules),
{
    lemma_potential_bound(g, k);
    lemma_applications_potential(g, rules, size(g));
    lemma_reduce_converged(g, rules);
}

/// The termination bound for the built-in catalog: `n` clauses of at most
/// `k >= 1` literals reach their fixed point after at most `n * k`
/// applications.
pub proof fn lemma_catalog_application_bound(g: Seq<Seq<Seq<char>>>, n: nat, k: nat)
    requires
        k >= 1,
        g.len() == n,
        forall|i: int| 0 <= i < g.len() ==> #[trigger] g[i].len() <= k,
    ensures
        applications(g, catalog(), size(g)) <= n * k,
{
    lemma_catalog_well_formed();
    let c = catalog();
    assert forall|i: int| 0 <= i < c.len() implies (#[trigger] c[i]).prerequisites.len() > 0 by {}
    lemma_application_bound_exact(g, c, n, k);
}

} // verus!
