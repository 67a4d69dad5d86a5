use vstd::prelude::*;
use crate::clause::{
    differs_from, has_token, lemma_filter_prefix_step, lemma_filter_split, shared,
};
use crate::merge::{flip_merge, rule_merge, shrink, try_collapse, try_collapse2, try_collapse_flip};
use crate::rule::{models, CollapseRule, RuleModel};

verus! {

/// The merge of `a` and `b` by the first of `rules[0..k]` that merges them.
pub open spec fn first_rule_merge(
    a: Seq<Seq<char>>,
    b: Seq<Seq<char>>,
    rules: Seq<RuleModel>,
    k: int,
) -> Option<Seq<Seq<char>>>
    decreases k,
{
    if k <= 0 {
        None
    } else {
        match first_rule_merge(a, b, rules, k - 1) {
            Some(m) => Some(m),
            None => rule_merge(a, b, rules[k - 1]),
        }
    }
}

/// The merge of two clauses: by flipping if that works, else by the first
/// rule of the catalog that merges them.
pub open spec fn pair_merge(a: Seq<Seq<char>>, b: Seq<Seq<char>>, rules: Seq<RuleModel>) -> Option<
    Seq<Seq<char>>,
> {
    match flip_merge(a, b) {
        Some(m) => Some(m),
        None => first_rule_merge(a, b, rules, rules.len() as int),
    }
}

/// The merge of clause `i` of a group into clause `j`.
pub open spec fn merge_at(g: Seq<Seq<Seq<char>>>, rules: Seq<RuleModel>, i: int, j: int) -> Option<
    Seq<Seq<char>>,
> {
    pair_merge(g[i], g[j], rules)
}

/// No pair that the scan visits before `(i, j)` merges. The scan takes `i`
/// upward and, for each, `j` upward from zero below `i`.
pub open spec fn no_merge_before(g: Seq<Seq<Seq<char>>>, rules: Seq<RuleModel>, i: int, j: int) -> bool {
    forall|i1: int, j1: int|
        0 <= j1 < i1 < g.len() && (i1 < i || (i1 == i && j1 < j)) ==> #[trigger] merge_at(
            g,
            rules,
            i1,
            j1,
        ) is None
}

/// `(i, j)` is the first pair of the scan that merges.
pub open spec fn first_merge_at(g: Seq<Seq<Seq<char>>>, rules: Seq<RuleModel>, i: int, j: int) -> bool {
    &&& 0 <= j < i < g.len()
    &&& merge_at(g, rules, i, j) is Some
    &&& no_merge_before(g, rules, i, j)
}

/// The group after the first pairwise merge of the scan: the merged clause
/// takes the place of clause `j`, and clause `i` leaves.
pub open spec fn pair_step(g: Seq<Seq<Seq<char>>>, rules: Seq<RuleModel>) -> Option<
    Seq<Seq<Seq<char>>>,
> {
    if exists|i: int, j: int| first_merge_at(g, rules, i, j) {
        let (i, j) = choose|i: int, j: int| first_merge_at(g, rules, i, j);
        Some(g.update(j, merge_at(g, rules, i, j)->0).remove(i))
    } else {
        None
    }
}

/// A clause after the single-clause reductions of `rules[0..k]`, in order.
pub open spec fn sweep_clause(c: Seq<Seq<char>>, rules: Seq<RuleModel>, k: int) -> Seq<Seq<char>>
    decreases k,
{
    if k <= 0 {
        c
    } else {
        let p = sweep_clause(c, rules, k - 1);
        match shrink(p, rules[k - 1]) {
            Some(q) => q,
            None => p,
        }
    }
}

/// The number of single-clause reductions that fire in `sweep_clause`.
pub open spec fn sweep_fires(c: Seq<Seq<char>>, rules: Seq<RuleModel>, k: int) -> nat
    decreases k,
{
    if k <= 0 {
        0
    } else {
        let p = sweep_clause(c, rules, k - 1);
        sweep_fires(c, rules, k - 1) + if shrink(p, rules[k - 1]) is Some {
            1nat
        } else {
            0nat
        }
    }
}

/// Every clause of a group after a sweep of single-clause reductions.
pub open spec fn sweep(g: Seq<Seq<Seq<char>>>, rules: Seq<RuleModel>) -> Seq<Seq<Seq<char>>> {
    Seq::new(g.len(), |i: int| sweep_clause(g[i], rules, rules.len() as int))
}

/// One move of the driver: the first pairwise merge, or else a sweep that
/// changes something; `None` at a fixed point.
pub open spec fn step(g: Seq<Seq<Seq<char>>>, rules: Seq<RuleModel>) -> Option<Seq<Seq<Seq<char>>>> {
    match pair_step(g, rules) {
        Some(h) => Some(h),
        None => if sweep(g, rules) != g {
            Some(sweep(g, rules))
        } else {
            None
        },
    }
}

/// No merge operator changes the group any more.
pub open spec fn converged(g: Seq<Seq<Seq<char>>>, rules: Seq<RuleModel>) -> bool {
    step(g, rules) is None
}

/// The group after at most `fuel` moves of the driver.
pub open spec fn run(g: Seq<Seq<Seq<char>>>, rules: Seq<RuleModel>, fuel: nat) -> Seq<Seq<Seq<char>>>
    decreases fuel,
{
    if fuel == 0 {
        g
    } else {
        match step(g, rules) {
            Some(h) => run(h, rules, (fuel - 1) as nat),
            None => g,
        }
    }
}

/// The number of literals over all clauses of a group.
pub open spec fn literal_count(g: Seq<Seq<Seq<char>>>) -> nat
    decreases g.len(),
{
    if g.len() == 0 {
        0
    } else {
        literal_count(g.drop_last()) + g.last().len()
    }
}

/// A bound on the number of moves: every move removes a clause or a literal.
pub open spec fn size(g: Seq<Seq<Seq<char>>>) -> nat {
    literal_count(g) + g.len()
}

/// The fixed point that the driver reaches from `g`.
pub open spec fn reduce(g: Seq<Seq<Seq<char>>>, rules: Seq<RuleModel>) -> Seq<Seq<Seq<char>>> {
    run(g, rules, size(g))
}

// ---- lemmas on the model ----

/// Replacing a clause changes the count by the difference of lengths.
pub proof fn lemma_literal_count_update(g: Seq<Seq<Seq<char>>>, j: int, c: Seq<Seq<char>>)
    requires
        0 <= j < g.len(),
    ensures
        literal_count(g.update(j, c)) + g[j].len() == literal_count(g) + c.len(),
    decreases g.len(),
{
    let h = g.update(j, c);
    if j == g.len() - 1 {
        assert(h.drop_last() =~= g.drop_last());
    } else {
        assert(h.drop_last() =~= g.drop_last().update(j, c));
        lemma_literal_count_update(g.drop_last(), j, c);
    }
}

/// Removing a clause removes its literals from the count.
pub proof fn lemma_literal_count_remove(g: Seq<Seq<Seq<char>>>, i: int)
    requires
        0 <= i < g.len(),
    ensures
        literal_count(g.remove(i)) + g[i].len() == literal_count(g),
    decreases g.len(),
{
    let h = g.remove(i);
    if i == g.len() - 1 {
        assert(h =~= g.drop_last());
    } else {
        assert(h.drop_last() =~= g.drop_last().remove(i));
        assert(h.last() == g.last());
        lemma_literal_count_remove(g.drop_last(), i);
    }
}

/// Counts over two groups of one length compare as their clauses' lengths do.
pub proof fn lemma_literal_count_le(g: Seq<Seq<Seq<char>>>, h: Seq<Seq<Seq<char>>>)
    requires
        g.len() == h.len(),
        forall|i: int| 0 <= i < g.len() ==> #[trigger] h[i].len() <= g[i].len(),
    ensures
        literal_count(h) <= literal_count(g),
        literal_count(h) == literal_count(g) ==> forall|i: int|
            0 <= i < g.len() ==> #[trigger] h[i].len() == g[i].len(),
    decreases g.len(),
{
    if g.len() > 0 {
        lemma_literal_count_le(g.drop_last(), h.drop_last());
        assert forall|i: int| 0 <= i < g.len() - 1 implies #[trigger] h.drop_last()[i].len()
            <= g.drop_last()[i].len() by {
            assert(h.drop_last()[i] == h[i]);
        }
        if literal_count(h) == literal_count(g) {
            assert forall|i: int| 0 <= i < g.len() implies #[trigger] h[i].len() == g[i].len() by {
                if i < g.len() - 1 {
                    assert(h.drop_last()[i] == h[i] && g.drop_last()[i] == g[i]);
                }
            }
        }
    }
}

/// A filter that rejects some element is shorter than its sequence.
pub proof fn lemma_filter_drops(s: Seq<Seq<char>>, p: spec_fn(Seq<char>) -> bool, i: int)
    requires
        0 <= i < s.len(),
        !p(s[i]),
    ensures
        s.filter(p).len() < s.len(),
{
    broadcast use vstd::seq_lib::group_filter_ensures;

    lemma_filter_split(s, p, i);
    let t = s.skip(i);
    lemma_filter_split(t, p, 1);
    lemma_filter_prefix_step(t, p, 0);
    assert(t.take(0).filter(p).len() <= t.take(0).len());
    assert(t.take(1).filter(p).len() == 0);
    assert(s.take(i).filter(p).len() <= i);
    assert(t.skip(1).filter(p).len() <= t.skip(1).len());
}

/// A reduction that fires makes the clause shorter.
pub proof fn lemma_shrink_shortens(c: Seq<Seq<char>>, r: RuleModel)
    requires
        shrink(c, r) is Some,
    ensures
        (shrink(c, r)->0).len() < c.len(),
{
    let x = r.alternatives[0];
    let i = c.lemma_contains_to_index(x);
    lemma_filter_drops(c, differs_from(x), i);
}

/// A sweep leaves a clause alone, or shortens it by at least the number of
/// reductions that fired.
pub proof fn lemma_sweep_clause_len(c: Seq<Seq<char>>, rules: Seq<RuleModel>, k: int)
    requires
        0 <= k <= rules.len(),
    ensures
        sweep_clause(c, rules, k).len() + sweep_fires(c, rules, k) <= c.len(),
        sweep_fires(c, rules, k) == 0 ==> sweep_clause(c, rules, k) == c,
    decreases k,
{
    if k > 0 {
        lemma_sweep_clause_len(c, rules, k - 1);
        let p = sweep_clause(c, rules, k - 1);
        if shrink(p, rules[k - 1]) is Some {
            lemma_shrink_shortens(p, rules[k - 1]);
        }
    }
}

/// Whatever merges two clauses gives their common part.
pub proof fn lemma_pair_merge_shared(
    a: Seq<Seq<char>>,
    b: Seq<Seq<char>>,
    rules: Seq<RuleModel>,
    k: int,
)
    requires
        first_rule_merge(a, b, rules, k) is Some || (k == rules.len() && pair_merge(a, b, rules) is Some),
    ensures
        k == rules.len() && pair_merge(a, b, rules) is Some ==> pair_merge(a, b, rules)->0 == shared(a, b) && a.len() == b.len(),
        first_rule_merge(a, b, rules, k) is Some ==> first_rule_merge(a, b, rules, k)->0 == shared(a, b) && a.len() == b.len(),
    decreases k,
{
    if k > 0 && first_rule_merge(a, b, rules, k - 1) is Some {
        lemma_pair_merge_shared(a, b, rules, k - 1);
    }
}

/// The first pair that merges is unique.
pub proof fn lemma_first_merge_unique(
    g: Seq<Seq<Seq<char>>>,
    rules: Seq<RuleModel>,
    i: int,
    j: int,
    i2: int,
    j2: int,
)
    requires
        first_merge_at(g, rules, i, j),
        first_merge_at(g, rules, i2, j2),
    ensures
        i == i2 && j == j2,
{
    if i < i2 || (i == i2 && j < j2) {
        assert(merge_at(g, rules, i, j) is None);
    } else if i2 < i || (i2 == i && j2 < j) {
        assert(merge_at(g, rules, i2, j2) is None);
    }
}

/// Every move of the driver makes the group smaller.
pub proof fn lemma_step_decreases(g: Seq<Seq<Seq<char>>>, rules: Seq<RuleModel>)
    requires
        step(g, rules) is Some,
    ensures
        size(step(g, rules)->0) < size(g),
{
    broadcast use vstd::seq_lib::group_filter_ensures;

    if pair_step(g, rules) is Some {
        let (i, j) = choose|i: int, j: int| first_merge_at(g, rules, i, j);
        let m = merge_at(g, rules, i, j)->0;
        lemma_pair_merge_shared(g[i], g[j], rules, rules.len() as int);
        let u = g.update(j, m);
        lemma_literal_count_update(g, j, m);
        lemma_literal_count_remove(u, i);
    } else {
        let h = sweep(g, rules);
        assert forall|i: int| 0 <= i < g.len() implies #[trigger] h[i].len() <= g[i].len() by {
            lemma_sweep_clause_len(g[i], rules, rules.len() as int);
        }
        lemma_literal_count_le(g, h);
        if literal_count(h) == literal_count(g) {
            assert forall|i: int| 0 <= i < g.len() implies h[i] == g[i] by {
                lemma_sweep_clause_len(g[i], rules, rules.len() as int);
                assert(h[i].len() == g[i].len());
            }
            assert(h =~= g);
        }
    }
}

/// Given enough fuel the driver stops at a fixed point, and more fuel changes
/// nothing.
pub proof fn lemma_run_settles(g: Seq<Seq<Seq<char>>>, rules: Seq<RuleModel>, f1: nat, f2: nat)
    requires
        f1 >= size(g),
        f2 >= size(g),
    ensures
        run(g, rules, f1) == run(g, rules, f2),
        converged(run(g, rules, f1), rules),
    decreases f1,
{
    if step(g, rules) is Some {
        lemma_step_decreases(g, rules);
        let h = step(g, rules)->0;
        lemma_run_settles(h, rules, (f1 - 1) as nat, (f2 - 1) as nat);
    }
}

/// A move of the driver does not change where it ends.
pub proof fn lemma_reduce_step(g: Seq<Seq<Seq<char>>>, rules: Seq<RuleModel>)
    requires
        step(g, rules) is Some,
    ensures
        reduce(step(g, rules)->0, rules) == reduce(g, rules),
{
    let h = step(g, rules)->0;
    lemma_step_decreases(g, rules);
    lemma_run_settles(h, rules, size(h), (size(g) - 1) as nat);
}

/// The driver reaches a fixed point.
pub proof fn lemma_reduce_converged(g: Seq<Seq<Seq<char>>>, rules: Seq<RuleModel>)
    ensures
        converged(reduce(g, rules), rules),
        converged(g, rules) ==> reduce(g, rules) == g,
{
    lemma_run_settles(g, rules, size(g), size(g));
}

/// Once a rule of the catalog merges two clauses, later rules change nothing.
pub proof fn lemma_first_rule_merge_stable(
    a: Seq<Seq<char>>,
    b: Seq<Seq<char>>,
    rules: Seq<RuleModel>,
    k: int,
    n: int,
)
    requires
        0 <= k <= n,
        first_rule_merge(a, b, rules, k) is Some,
    ensures
        first_rule_merge(a, b, rules, n) == first_rule_merge(a, b, rules, k),
    decreases n - k,
{
    if k < n {
        lemma_first_rule_merge_stable(a, b, rules, k, n - 1);
    }
}

// ---- the driver ----

/// The merge of two clauses: by flipping if that works, else by the first
/// rule that merges them.
fn try_merge(a: &Vec<String>, b: &Vec<String>, rules: &Vec<CollapseRule>) -> (r: Option<
    Vec<String>,
>)
    ensures
        r.deep_view() == pair_merge(a.deep_view(), b.deep_view(), models(rules@)),
{
    let by_flip = try_collapse_flip(a, b);
    if by_flip.is_some() {
        return by_flip;
    }
    let ghost rs = models(rules@);
    let mut k: usize = 0;
    while k < rules.len()
        invariant
            k <= rules.len(),
            rs == models(rules@),
            flip_merge(a.deep_view(), b.deep_view()) is None,
            first_rule_merge(a.deep_view(), b.deep_view(), rs, k as int) is None,
        decreases rules.len() - k,
    {
        let m = try_collapse2(a, b, &rules[k]);
        assert(rs[k as int] == rules@[k as int]@);
        if m.is_some() {
            proof {
                lemma_first_rule_merge_stable(a.deep_view(), b.deep_view(), rs, k + 1, rs.len() as int);
            }
            return m;
        }
        k = k + 1;
    }
    None
}

/// The first pair of the scan that merges, with the merged clause.
fn find_merge(g: &Vec<Vec<String>>, rules: &Vec<CollapseRule>) -> (r: Option<
    (usize, usize, Vec<String>),
>)
    ensures
        match r {
            Some((i, j, m)) => first_merge_at(g.deep_view(), models(rules@), i as int, j as int)
                && m.deep_view() == merge_at(g.deep_view(), models(rules@), i as int, j as int)->0,
            None => pair_step(g.deep_view(), models(rules@)) is None,
        },
{
    let ghost gv = g.deep_view();
    let ghost rs = models(rules@);
    let mut i: usize = 0;
    while i < g.len()
        invariant
            i <= g.len(),
            gv == g.deep_view(),
            rs == models(rules@),
            no_merge_before(gv, rs, i as int, 0),
        decreases g.len() - i,
    {
        let mut j: usize = 0;
        while j < i
            invariant
                j <= i < g.len(),
                gv == g.deep_view(),
                rs == models(rules@),
                no_merge_before(gv, rs, i as int, j as int),
            decreases i - j,
        {
            match try_merge(&g[i], &g[j], rules) {
                Some(m) => {
                    return Some((i, j, m));
                },
                None => {},
            }
            j = j + 1;
        }
        i = i + 1;
    }
    assert(!exists|i1: int, j1: int| first_merge_at(gv, rs, i1, j1));
    None
}

/// A clause after one sweep of single-clause reductions, or `None` when no
/// reduction fires.
fn shrink_all(tokenset: &Vec<String>, rules: &Vec<CollapseRule>) -> (r: Option<Vec<String>>)
    ensures
        match r {
            Some(s) => s.deep_view() == sweep_clause(
                tokenset.deep_view(),
                models(rules@),
                rules.len() as int,
            ) && s.deep_view() != tokenset.deep_view(),
            None => sweep_clause(tokenset.deep_view(), models(rules@), rules.len() as int)
                == tokenset.deep_view(),
        },
{
    let ghost c = tokenset.deep_view();
    let ghost rs = models(rules@);
    let mut cur: Option<Vec<String>> = None;
    let mut k: usize = 0;
    while k < rules.len()
        invariant
            k <= rules.len(),
            c == tokenset.deep_view(),
            rs == models(rules@),
            match cur {
                Some(s) => s.deep_view() == sweep_clause(c, rs, k as int) && s.deep_view().len()
                    < c.len(),
                None => sweep_clause(c, rs, k as int) == c,
            },
        decreases rules.len() - k,
    {
        let next = match &cur {
            Some(s) => try_collapse(s, &rules[k]),
            None => try_collapse(tokenset, &rules[k]),
        };
        proof {
            let p = sweep_clause(c, rs, k as int);
            if shrink(p, rs[k as int]) is Some {
                lemma_shrink_shortens(p, rs[k as int]);
            }
        }
        match next {
            Some(s) => {
                cur = Some(s);
            },
            None => {},
        }
        k = k + 1;
    }
    cur
}

/// Applies one sweep of single-clause reductions to every clause; tells
/// whether anything changed.
fn sweep_group(tokensets: &mut Vec<Vec<String>>, rules: &Vec<CollapseRule>) -> (changed: bool)
    ensures
        final(tokensets).deep_view() == sweep(old(tokensets).deep_view(), models(rules@)),
        changed == (sweep(old(tokensets).deep_view(), models(rules@)) != old(
            tokensets,
        ).deep_view()),
{
    let ghost g = tokensets.deep_view();
    let ghost rs = models(rules@);
    let ghost h = sweep(g, rs);
    let mut changed = false;
    let mut i: usize = 0;
    while i < tokensets.len()
        invariant
            i <= tokensets.len() == g.len(),
            rs == models(rules@),
            h == sweep(g, rs),
            forall|k: int| 0 <= k < i ==> #[trigger] tokensets.deep_view()[k] == h[k],
            forall|k: int| i <= k < g.len() ==> #[trigger] tokensets.deep_view()[k] == g[k],
            changed == exists|k: int| 0 <= k < i && #[trigger] h[k] != g[k],
        decreases g.len() - i,
    {
        let ghost before = tokensets.deep_view();
        assert(before[i as int] == g[i as int]);
        assert(h[i as int] == sweep_clause(g[i as int], rs, rs.len() as int));
        match shrink_all(&tokensets[i], rules) {
            Some(s) => {
                let ghost sv = s.deep_view();
                tokensets.set(i, s);
                assert(tokensets.deep_view() =~= before.update(i as int, sv));
                assert(h[i as int] != g[i as int]);
                changed = true;
            },
            None => {
                assert(h[i as int] == g[i as int]);
            },
        }
        i = i + 1;
    }
    assert(tokensets.deep_view() =~= h);
    if !changed {
        assert(h =~= g);
    }
    changed
}

/// Reduces a group to the fixed point of the merge operators under `rules`.
/// It reads no vocabulary: `collapse_checked` is the same reduction guarded
/// by a check of every literal against a known vocabulary.
pub fn collapse(tokensets: &mut Vec<Vec<String>>, rules: &Vec<CollapseRule>)
    ensures
        final(tokensets).deep_view() == reduce(old(tokensets).deep_view(), models(rules@)),
{
    let ghost g0 = tokensets.deep_view();
    let ghost rs = models(rules@);
    loop
        invariant
            rs == models(rules@),
            reduce(tokensets.deep_view(), rs) == reduce(g0, rs),
        ensures
            reduce(tokensets.deep_view(), rs) == reduce(g0, rs),
            converged(tokensets.deep_view(), rs),
        decreases size(tokensets.deep_view()),
    {
        let ghost g = tokensets.deep_view();
        match find_merge(tokensets, rules) {
            Some((i, j, m)) => {
                tokensets.set(j, m);
                let _ = tokensets.remove(i);
                proof {
                    let (i1, j1) = choose|i1: int, j1: int| first_merge_at(g, rs, i1, j1);
                    lemma_first_merge_unique(g, rs, i as int, j as int, i1, j1);
                    assert(tokensets.deep_view() =~= g.update(j as int, m.deep_view()).remove(
                        i as int,
                    ));
                    lemma_reduce_step(g, rs);
                    lemma_step_decreases(g, rs);
                }
            },
            None => {
                let changed = sweep_group(tokensets, rules);
                if !changed {
                    break ;
                }
                proof {
                    lemma_reduce_step(g, rs);
                    lemma_step_decreases(g, rs);
                }
            },
        }
    }
    proof {
        lemma_reduce_converged(tokensets.deep_view(), rs);
    }
}

/// Every literal of group `g` is in the vocabulary `known`.
pub open spec fn group_within(g: Seq<Seq<Seq<char>>>, known: Seq<Seq<char>>) -> bool {
    forall|i: int, k: int| 0 <= i < g.len() && 0 <= k < g[i].len() ==> known.contains(#[trigger] g[i][k])
}

/// Whether every literal of the group is in the vocabulary `known`.
pub fn all_known(tokensets: &Vec<Vec<String>>, known: &Vec<String>) -> (r: bool)
    ensures
        r == group_within(tokensets.deep_view(), known.deep_view()),
{
    let ghost g = tokensets.deep_view();
    let mut i: usize = 0;
    while i < tokensets.len()
        invariant
            i <= tokensets.len(),
            g == tokensets.deep_view(),
            forall|i1: int, k: int|
                0 <= i1 < i && 0 <= k < g[i1].len() ==> known.deep_view().contains(#[trigger] g[i1][k]),
        decreases tokensets.len() - i,
    {
        let set = &tokensets[i];
        let mut k: usize = 0;
        while k < set.len()
            invariant
                i < tokensets.len(),
                k <= set.len(),
                g == tokensets.deep_view(),
                set.deep_view() == g[i as int],
                forall|i1: int, k1: int|
                    0 <= i1 < i && 0 <= k1 < g[i1].len() ==> known.deep_view().contains(
                        #[trigger] g[i1][k1],
                    ),
                forall|k1: int| 0 <= k1 < k ==> known.deep_view().contains(#[trigger] g[i as int][k1]),
            decreases set.len() - k,
        {
            if !has_token(&set[k], known) {
                assert(!known.deep_view().contains(g[i as int][k as int]));
                return false;
            }
            k = k + 1;
        }
        i = i + 1;
    }
    true
}

/// Reduces the group as `collapse` does, unless it holds a literal outside
/// the vocabulary `known`: such a group is left exactly as it was. Tells
/// whether the group was reduced.
pub fn collapse_checked(
    tokensets: &mut Vec<Vec<String>>,
    rules: &Vec<CollapseRule>,
    known: &Vec<String>,
) -> (reduced: bool)
    ensures
        reduced == group_within(old(tokensets).deep_view(), known.deep_view()),
        reduced ==> final(tokensets).deep_view() == reduce(old(tokensets).deep_view(), models(rules@)),
        !reduced ==> *final(tokensets) == *old(tokensets),
{
    if !all_known(tokensets, known) {
        return false;
    }
    collapse(tokensets, rules);
    true
}

} // verus!
