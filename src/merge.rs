use vstd::prelude::*;
use crate::clause::{
    absent_from, contains_all, has_token, lemma_filter_prefix_step, lemma_filter_split,
    member_of, shared, strip_token, unshared, without,
};
use crate::literal::{flip, flipped, is_plain, is_plain_flag};
use crate::rule::{CollapseRule, RuleModel};

verus! {

/// Single-clause reduction: under a one-alternative rule whose prerequisites
/// all hold, the implied alternative is dropped.
pub open spec fn shrink(c: Seq<Seq<char>>, r: RuleModel) -> Option<Seq<Seq<char>>> {
    if r.alternatives.len() == 1 && contains_all(c, r.prerequisites) && c.contains(
        r.alternatives[0],
    ) {
        Some(without(c, r.alternatives[0]))
    } else {
        None
    }
}

/// Flip merge: two clauses of one size that differ at most in one literal of
/// the first, a plain flag or its negation whose flip the second holds, merge
/// into their common part. Equality literals are never flipped.
pub open spec fn flip_merge(a: Seq<Seq<char>>, b: Seq<Seq<char>>) -> Option<Seq<Seq<char>>> {
    let d = unshared(a, b);
    if a.len() == b.len() && (d.len() == 0 || (d.len() == 1 && is_plain(d[0]) && b.contains(flipped(d[0])))) {
        Some(shared(a, b))
    } else {
        None
    }
}

/// The alternative of a two-alternative rule that is not `t`, if `t` is one.
pub open spec fn other_alternative(t: Seq<char>, r: RuleModel) -> Option<Seq<char>> {
    if r.alternatives[0] == t {
        Some(r.alternatives[1])
    } else if r.alternatives[1] == t {
        Some(r.alternatives[0])
    } else {
        None
    }
}

/// Rule-guided merge: two clauses of one size that both hold the rule's
/// prerequisites and differ at most in one literal of the first, which is one
/// of the rule's two alternatives while the second holds the other, merge into
/// their common part.
pub open spec fn rule_merge(a: Seq<Seq<char>>, b: Seq<Seq<char>>, r: RuleModel) -> Option<
    Seq<Seq<char>>,
> {
    let d = unshared(a, b);
    if r.alternatives.len() == 2 && a.len() == b.len() && contains_all(a, r.prerequisites)
        && contains_all(b, r.prerequisites) && (d.len() == 0 || (d.len() == 1 && other_alternative(
        d[0],
        r,
    ) is Some && b.contains(other_alternative(d[0], r)->0))) {
        Some(shared(a, b))
    } else {
        None
    }
}

/// Whether every prerequisite of `rule` occurs in `tokenset`.
pub fn match_prereqs(rule: &CollapseRule, tokenset: &Vec<String>) -> (r: bool)
    ensures
        r == contains_all(tokenset.deep_view(), rule@.prerequisites),
{
    let ghost ps = rule@.prerequisites;
    let mut i: usize = 0;
    while i < rule.prerequisites.len()
        invariant
            i <= rule.prerequisites.len(),
            ps == rule.prerequisites.deep_view(),
            forall|k: int| 0 <= k < i ==> tokenset.deep_view().contains(#[trigger] ps[k]),
        decreases rule.prerequisites.len() - i,
    {
        if !has_token(&rule.prerequisites[i], tokenset) {
            assert(!tokenset.deep_view().contains(ps[i as int]));
            return false;
        }
        i = i + 1;
    }
    true
}

/// Applies a one-alternative rule to a single clause.
pub fn try_collapse(tokenset: &Vec<String>, rule: &CollapseRule) -> (r: Option<Vec<String>>)
    ensures
        r.deep_view() == shrink(tokenset.deep_view(), rule@),
{
    if rule.alternatives.len() != 1 {
        return None;
    }
    if !match_prereqs(rule, tokenset) {
        return None;
    }
    if !has_token(&rule.alternatives[0], tokenset) {
        return None;
    }
    Some(strip_token(&rule.alternatives[0], tokenset))
}

/// Merges two clauses through one flag and its complement.
pub fn try_collapse_flip(a: &Vec<String>, b: &Vec<String>) -> (r: Option<Vec<String>>)
    ensures
        r.deep_view() == flip_merge(a.deep_view(), b.deep_view()),
{
    if a.len() != b.len() {
        return None;
    }
    let ghost av = a.deep_view();
    let ghost bv = b.deep_view();
    let mut result: Vec<String> = Vec::new();
    let mut used_flip = false;
    let mut k: usize = 0;
    while k < a.len()
        invariant
            k <= a.len(),
            av == a.deep_view(),
            bv == b.deep_view(),
            a.len() == b.len(),
            result.deep_view() == shared(av.take(k as int), bv),
            unshared(av.take(k as int), bv).len() <= 1,
            used_flip == (unshared(av.take(k as int), bv).len() == 1),
            used_flip ==> is_plain(unshared(av.take(k as int), bv)[0]) && bv.contains(
                flipped(unshared(av.take(k as int), bv)[0]),
            ),
        decreases a.len() - k,
    {
        proof {
            lemma_filter_prefix_step(av, member_of(bv), k as int);
            lemma_filter_prefix_step(av, absent_from(bv), k as int);
        }
        if has_token(&a[k], b) {
            let ghost before = result.deep_view();
            result.push(a[k].clone());
            assert(result.deep_view() =~= before.push(av[k as int]));
        } else if !used_flip && is_plain_flag(a[k].as_str()) && has_token(&flip(a[k].as_str()), b) {
            used_flip = true;
        } else {
            proof {
                lemma_filter_split(av, absent_from(bv), k + 1);
            }
            return None;
        }
        k = k + 1;
    }
    assert(av.take(a.len() as int) =~= av);
    Some(result)
}

/// The other alternative of a two-alternative rule, if `used_alt` is one.
fn remaining_alt<'a>(used_alt: &String, rule: &'a CollapseRule) -> (r: Option<&'a String>)
    requires
        rule.alternatives.len() == 2,
    ensures
        r.deep_view() == other_alternative(used_alt@, rule@),
{
    if rule.alternatives[0] == *used_alt {
        Some(&rule.alternatives[1])
    } else if rule.alternatives[1] == *used_alt {
        Some(&rule.alternatives[0])
    } else {
        None
    }
}

/// Merges two clauses through the two alternatives of a rule.
pub fn try_collapse2(a: &Vec<String>, b: &Vec<String>, rule: &CollapseRule) -> (r: Option<
    Vec<String>,
>)
    ensures
        r.deep_view() == rule_merge(a.deep_view(), b.deep_view(), rule@),
{
    if rule.alternatives.len() != 2 {
        return None;
    }
    if a.len() != b.len() {
        return None;
    }
    if !match_prereqs(rule, a) {
        return None;
    }
    if !match_prereqs(rule, b) {
        return None;
    }
    let ghost av = a.deep_view();
    let ghost bv = b.deep_view();
    let mut result: Vec<String> = Vec::new();
    let mut matched = false;
    let mut k: usize = 0;
    while k < a.len()
        invariant
            k <= a.len(),
            av == a.deep_view(),
            bv == b.deep_view(),
            a.len() == b.len(),
            rule.alternatives.len() == 2,
            result.deep_view() == shared(av.take(k as int), bv),
            unshared(av.take(k as int), bv).len() <= 1,
            matched == (unshared(av.take(k as int), bv).len() == 1),
            matched ==> ({
                let o = other_alternative(unshared(av.take(k as int), bv)[0], rule@);
                o is Some && bv.contains(o->0)
            }),
        decreases a.len() - k,
    {
        proof {
            lemma_filter_prefix_step(av, member_of(bv), k as int);
            lemma_filter_prefix_step(av, absent_from(bv), k as int);
        }
        if has_token(&a[k], b) {
            let ghost before = result.deep_view();
            result.push(a[k].clone());
            assert(result.deep_view() =~= before.push(av[k as int]));
        } else {
            let alt = remaining_alt(&a[k], rule);
            let usable = !matched && match alt {
                Some(o) => has_token(o, b),
                None => false,
            };
            if !usable {
                proof {
                    lemma_filter_split(av, absent_from(bv), k + 1);
                }
                return None;
            }
            matched = true;
        }
        k = k + 1;
    }
    assert(av.take(a.len() as int) =~= av);
    Some(result)
}

} // verus!
