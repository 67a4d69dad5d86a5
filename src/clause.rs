use vstd::prelude::*;

verus! {

/// Every literal of `ps` occurs in clause `c`.
pub open spec fn contains_all(c: Seq<Seq<char>>, ps: Seq<Seq<char>>) -> bool {
    forall|k: int| 0 <= k < ps.len() ==> c.contains(#[trigger] ps[k])
}

/// Membership in `b`, as a predicate.
pub open spec fn member_of(b: Seq<Seq<char>>) -> spec_fn(Seq<char>) -> bool {
    |t: Seq<char>| b.contains(t)
}

/// Absence from `b`, as a predicate.
pub open spec fn absent_from(b: Seq<Seq<char>>) -> spec_fn(Seq<char>) -> bool {
    |t: Seq<char>| !b.contains(t)
}

/// Difference from `x`, as a predicate.
pub open spec fn differs_from(x: Seq<char>) -> spec_fn(Seq<char>) -> bool {
    |t: Seq<char>| t != x
}

/// Clause `c` with every occurrence of `x` removed.
pub open spec fn without(c: Seq<Seq<char>>, x: Seq<char>) -> Seq<Seq<char>> {
    c.filter(differs_from(x))
}

/// The literals of `a` that `b` also holds, in the order of `a`.
pub open spec fn shared(a: Seq<Seq<char>>, b: Seq<Seq<char>>) -> Seq<Seq<char>> {
    a.filter(member_of(b))
}

/// The literals of `a` that `b` lacks, in the order of `a`.
pub open spec fn unshared(a: Seq<Seq<char>>, b: Seq<Seq<char>>) -> Seq<Seq<char>> {
    a.filter(absent_from(b))
}

/// Filtering the first `k + 1` elements adds the `k`-th when it passes.
pub proof fn lemma_filter_prefix_step(s: Seq<Seq<char>>, p: spec_fn(Seq<char>) -> bool, k: int)
    requires
        0 <= k < s.len(),
    ensures
        s.take(k + 1).filter(p) == if p(s[k]) {
            s.take(k).filter(p).push(s[k])
        } else {
            s.take(k).filter(p)
        },
{
    assert(s.take(k + 1) =~= s.take(k).push(s[k]));
    s.take(k).lemma_filter_push(s[k], p);
}

/// A filter splits at any point of the sequence.
pub proof fn lemma_filter_split(s: Seq<Seq<char>>, p: spec_fn(Seq<char>) -> bool, k: int)
    requires
        0 <= k <= s.len(),
    ensures
        s.filter(p) == s.take(k).filter(p) + s.skip(k).filter(p),
{
    assert(s =~= s.take(k) + s.skip(k));
    Seq::filter_distributes_over_add(s.take(k), s.skip(k), p);
}

/// An element that passes the filter is kept.
pub proof fn lemma_in_filter(s: Seq<Seq<char>>, p: spec_fn(Seq<char>) -> bool, x: Seq<char>)
    requires
        s.contains(x),
        p(x),
    ensures
        s.filter(p).contains(x),
{
    let k = s.lemma_contains_to_index(x);
    s.lemma_filter_contains(p, k);
}

/// An element of a filter comes from the sequence and passes the filter.
pub proof fn lemma_from_filter(s: Seq<Seq<char>>, p: spec_fn(Seq<char>) -> bool, x: Seq<char>)
    requires
        s.filter(p).contains(x),
    ensures
        s.contains(x),
        p(x),
{
    s.lemma_filter_contains_rev(p, x);
    let k = s.filter(p).lemma_contains_to_index(x);
    s.lemma_filter_pred(p, k);
}

/// Whether `token` occurs in `tokenset`.
pub fn has_token(token: &String, tokenset: &Vec<String>) -> (r: bool)
    ensures
        r == tokenset.deep_view().contains(token@),
{
    let ghost c = tokenset.deep_view();
    let mut i: usize = 0;
    while i < tokenset.len()
        invariant
            i <= tokenset.len(),
            c == tokenset.deep_view(),
            forall|j: int| 0 <= j < i ==> c[j] != token@,
        decreases tokenset.len() - i,
    {
        if tokenset[i] == *token {
            assert(c[i as int] == token@);
            return true;
        }
        i = i + 1;
    }
    false
}

/// `tokenset` with every occurrence of `token` removed.
pub fn strip_token(token: &String, tokenset: &Vec<String>) -> (r: Vec<String>)
    ensures
        r.deep_view() == without(tokenset.deep_view(), token@),
{
    let ghost c = tokenset.deep_view();
    let mut r: Vec<String> = Vec::new();
    let mut i: usize = 0;
    while i < tokenset.len()
        invariant
            i <= tokenset.len(),
            c == tokenset.deep_view(),
            r.deep_view() == without(c.take(i as int), token@),
        decreases tokenset.len() - i,
    {
        proof {
            lemma_filter_prefix_step(c, differs_from(token@), i as int);
        }
        if tokenset[i] != *token {
            let ghost before = r.deep_view();
            r.push(tokenset[i].clone());
            assert(r.deep_view() =~= before.push(c[i as int]));
        }
        i = i + 1;
    }
    assert(c.take(c.len() as int) =~= c);
    r
}

} // verus!
