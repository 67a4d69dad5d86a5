use vstd::prelude::*;
use crate::clause::has_token;
use crate::driver::{collapse, reduce};
use crate::literal::{flip, flipped};
use crate::rule::{models, CollapseRule};
use crate::semantics::{denotes, satisfies};

verus! {

/// A configuration in which every literal, equality tests included, takes the
/// opposite value of its flip.
pub open spec fn negation_exact(env: spec_fn(Seq<char>) -> bool) -> bool {
    forall|t: Seq<char>| #[trigger] env(flipped(t)) == !env(t)
}

/// Clause `c` with literal `x` added at the end, unless `c` holds it already.
pub open spec fn with_literal(c: Seq<Seq<char>>, x: Seq<char>) -> Seq<Seq<char>> {
    if c.contains(x) {
        c
    } else {
        c.push(x)
    }
}

/// Clause `r` extended, in turn, by the flip of each literal of `lits`.
pub open spec fn extend_each(r: Seq<Seq<char>>, lits: Seq<Seq<char>>) -> Seq<Seq<Seq<char>>> {
    Seq::new(lits.len(), |k: int| with_literal(r, flipped(lits[k])))
}

/// Every clause of `partial` extended by the flip of each literal of `lits`.
pub open spec fn extend_all(partial: Seq<Seq<Seq<char>>>, lits: Seq<Seq<char>>) -> Seq<
    Seq<Seq<char>>,
>
    decreases partial.len(),
{
    if partial.len() == 0 {
        Seq::empty()
    } else {
        extend_all(partial.drop_last(), lits) + extend_each(partial.last(), lits)
    }
}

/// The complement of a group as clauses: one for each choice of a literal
/// from every clause, holding the flips of the chosen literals.
pub open spec fn complement(g: Seq<Seq<Seq<char>>>) -> Seq<Seq<Seq<char>>>
    decreases g.len(),
{
    if g.len() == 0 {
        seq![Seq::empty()]
    } else {
        extend_all(complement(g.drop_last()), g.last())
    }
}

/// A copy of `c` with `x` added at the end, unless `c` holds it already.
fn add_literal(c: &Vec<String>, x: String) -> (r: Vec<String>)
    ensures
        r.deep_view() == with_literal(c.deep_view(), x@),
{
    let present = has_token(&x, c);
    let mut r: Vec<String> = Vec::new();
    let mut i: usize = 0;
    while i < c.len()
        invariant
            i <= c.len(),
            r.deep_view() =~= c.deep_view().take(i as int),
        decreases c.len() - i,
    {
        let ghost before = r.deep_view();
        r.push(c[i].clone());
        assert(r.deep_view() =~= before.push(c.deep_view()[i as int]));
        i = i + 1;
    }
    assert(c.deep_view().take(c.len() as int) =~= c.deep_view());
    if !present {
        let ghost before = r.deep_view();
        r.push(x);
        assert(r.deep_view() =~= before.push(x@));
    }
    r
}

/// Every clause of `partial` extended by the flip of each literal of `lits`.
fn extend_clauses(partial: &Vec<Vec<String>>, lits: &Vec<String>) -> (r: Vec<Vec<String>>)
    ensures
        r.deep_view() == extend_all(partial.deep_view(), lits.deep_view()),
{
    let ghost p = partial.deep_view();
    let ghost l = lits.deep_view();
    let mut out: Vec<Vec<String>> = Vec::new();
    let mut i: usize = 0;
    while i < partial.len()
        invariant
            i <= partial.len(),
            p == partial.deep_view(),
            l == lits.deep_view(),
            out.deep_view() == extend_all(p.take(i as int), l),
        decreases partial.len() - i,
    {
        let ghost base = out.deep_view();
        let mut k: usize = 0;
        while k < lits.len()
            invariant
                i < partial.len(),
                k <= lits.len(),
                p == partial.deep_view(),
                l == lits.deep_view(),
                out.deep_view() =~= base + extend_each(p[i as int], l).take(k as int),
            decreases lits.len() - k,
        {
            let ghost before = out.deep_view();
            out.push(add_literal(&partial[i], flip(lits[k].as_str())));
            assert(out.deep_view() =~= before.push(with_literal(p[i as int], flipped(l[k as int]))));
            k = k + 1;
        }
        assert(p.take(i + 1).drop_last() =~= p.take(i as int));
        assert(extend_each(p[i as int], l).take(lits.len() as int) =~= extend_each(p[i as int], l));
        i = i + 1;
    }
    assert(p.take(partial.len() as int) =~= p);
    out
}

/// The complement of a group as clauses.
pub fn complement_of(tokensets: &Vec<Vec<String>>) -> (r: Vec<Vec<String>>)
    ensures
        r.deep_view() == complement(tokensets.deep_view()),
{
    let ghost g = tokensets.deep_view();
    let mut cur: Vec<Vec<String>> = Vec::new();
    cur.push(Vec::new());
    assert(cur.deep_view()[0] =~= Seq::<Seq<char>>::empty());
    assert(cur.deep_view() =~= complement(g.take(0)));
    let mut i: usize = 0;
    while i < tokensets.len()
        invariant
            i <= tokensets.len(),
            g == tokensets.deep_view(),
            cur.deep_view() == complement(g.take(i as int)),
        decreases tokensets.len() - i,
    {
        assert(g.take(i + 1).drop_last() =~= g.take(i as int));
        cur = extend_clauses(&cur, &tokensets[i]);
        i = i + 1;
    }
    assert(g.take(tokensets.len() as int) =~= g);
    cur
}

/// The number of clauses that the complement of a group needs once reduced
/// under the same rules: an advisory count for choosing which outcome to
/// state by default.
pub fn inverted_coverage_count(tokensets: &Vec<Vec<String>>, rules: &Vec<CollapseRule>) -> (r:
    usize)
    ensures
        r == reduce(complement(tokensets.deep_view()), models(rules@)).len(),
{
    let mut inverse = complement_of(tokensets);
    collapse(&mut inverse, rules);
    inverse.len()
}

/// An added literal must hold as well.
proof fn lemma_with_literal_satisfies(env: spec_fn(Seq<char>) -> bool, c: Seq<Seq<char>>, x: Seq<char>)
    ensures
        satisfies(env, with_literal(c, x)) == (satisfies(env, c) && env(x)),
{
    if c.contains(x) {
        if satisfies(env, c) {
            let k = c.lemma_contains_to_index(x);
        }
    } else {
        let d = c.push(x);
        if satisfies(env, c) && env(x) {
            assert forall|k: int| 0 <= k < d.len() implies #[trigger] env(d[k]) by {
                if k < c.len() {
                    assert(d[k] == c[k]);
                }
            }
        }
        if satisfies(env, d) {
            assert(env(d[c.len() as int]));
            assert forall|k: int| 0 <= k < c.len() implies #[trigger] env(c[k]) by {
                assert(d[k] == c[k]);
            }
        }
    }
}

/// Two groups side by side select what either selects.
proof fn lemma_denotes_concat(env: spec_fn(Seq<char>) -> bool, a: Seq<Seq<Seq<char>>>, b: Seq<Seq<Seq<char>>>)
    ensures
        denotes(env, a + b) == (denotes(env, a) || denotes(env, b)),
{
    let ab = a + b;
    if denotes(env, ab) {
        let w = choose|w: int| 0 <= w < ab.len() && satisfies(env, #[trigger] ab[w]);
        if w < a.len() {
            assert(satisfies(env, a[w]));
        } else {
            assert(satisfies(env, b[w - a.len()]));
        }
    }
    if denotes(env, a) {
        let w = choose|w: int| 0 <= w < a.len() && satisfies(env, #[trigger] a[w]);
        assert(satisfies(env, ab[w]));
    }
    if denotes(env, b) {
        let w = choose|w: int| 0 <= w < b.len() && satisfies(env, #[trigger] b[w]);
        assert(satisfies(env, ab[w + a.len()]));
    }
}

/// Extending by the flips of a clause's literals selects what the partial
/// group selects and the clause does not.
proof fn lemma_extend_all_denotes(
    env: spec_fn(Seq<char>) -> bool,
    partial: Seq<Seq<Seq<char>>>,
    lits: Seq<Seq<char>>,
)
    requires
        negation_exact(env),
    ensures
        denotes(env, extend_all(partial, lits)) == (denotes(env, partial) && !satisfies(env, lits)),
    decreases partial.len(),
{
    if partial.len() > 0 {
        let front = partial.drop_last();
        let r = partial.last();
        lemma_extend_all_denotes(env, front, lits);
        lemma_denotes_concat(env, extend_all(front, lits), extend_each(r, lits));
        assert(partial =~= front + seq![r]);
        lemma_denotes_concat(env, front, seq![r]);
        assert(denotes(env, seq![r]) == satisfies(env, r)) by {
            if satisfies(env, r) {
                assert(satisfies(env, seq![r][0]));
            }
        }
        let e = extend_each(r, lits);
        assert forall|k: int| 0 <= k < lits.len() implies satisfies(env, #[trigger] e[k]) == (
        satisfies(env, r) && !env(lits[k])) by {
            lemma_with_literal_satisfies(env, r, flipped(lits[k]));
        }
        if denotes(env, e) {
            let w = choose|w: int| 0 <= w < e.len() && satisfies(env, #[trigger] e[w]);
            assert(!env(lits[w]));
        }
        if satisfies(env, r) && !satisfies(env, lits) {
            let k = choose|k: int| 0 <= k < lits.len() && !env(#[trigger] lits[k]);
            assert(satisfies(env, e[k]));
        }
    } else {
        assert(extend_all(partial, lits) =~= Seq::<Seq<Seq<char>>>::empty());
    }
}

/// The complement selects exactly the configurations that the group does
/// not, wherever each literal and its flip take opposite values, equality
/// tests included.
pub proof fn lemma_complement_denotes(env: spec_fn(Seq<char>) -> bool, g: Seq<Seq<Seq<char>>>)
    requires
        negation_exact(env),
    ensures
        denotes(env, complement(g)) == !denotes(env, g),
    decreases g.len(),
{
    if g.len() == 0 {
        let c = complement(g);
        assert(satisfies(env, c[0]));
    } else {
        let front = g.drop_last();
        lemma_complement_denotes(env, front);
        lemma_extend_all_denotes(env, complement(front), g.last());
        assert(g =~= front + seq![g.last()]);
        lemma_denotes_concat(env, front, seq![g.last()]);
        assert(denotes(env, seq![g.last()]) == satisfies(env, g.last())) by {
            if satisfies(env, g.last()) {
                assert(satisfies(env, seq![g.last()][0]));
            }
        }
    }
}

} // verus!
