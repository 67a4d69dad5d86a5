use vstd::prelude::*;

verus! {

/// The separator between the literals of a clause in text.
pub open spec fn and_separator() -> Seq<char> {
    seq![' ', 'a', 'n', 'd', ' ']
}

/// The literals of a clause joined by the separator.
pub open spec fn joined(c: Seq<Seq<char>>) -> Seq<char>
    decreases c.len(),
{
    if c.len() == 0 {
        Seq::empty()
    } else if c.len() == 1 {
        c[0]
    } else {
        joined(c.drop_last()) + and_separator() + c.last()
    }
}

/// The text line of one clause: the prefix, the joined literals, the suffix.
pub open spec fn clause_line(prefix: Seq<char>, c: Seq<Seq<char>>, suffix: Seq<char>) -> Seq<char> {
    prefix + joined(c) + suffix
}

/// Writes one clause as a line of text.
pub fn render_clause(prefix: &str, tokenset: &Vec<String>, suffix: &str) -> (r: String)
    ensures
        r@ == clause_line(prefix@, tokenset.deep_view(), suffix@),
{
    let ghost c = tokenset.deep_view();
    let sep = " and ";
    proof {
        reveal_strlit(" and ");
    }
    assert(sep@ =~= and_separator());
    let mut body = String::new();
    let mut k: usize = 0;
    while k < tokenset.len()
        invariant
            k <= tokenset.len(),
            c == tokenset.deep_view(),
            sep@ == and_separator(),
            body@ == joined(c.take(k as int)),
        decreases tokenset.len() - k,
    {
        if k > 0 {
            body = body.concat(sep);
        }
        body = body.concat(tokenset[k].as_str());
        assert(c.take(k as int + 1).drop_last() =~= c.take(k as int));
        proof {
            if k == 0 {
                assert(body@ =~= joined(c.take(1)));
            }
        }
        k = k + 1;
    }
    assert(c.take(c.len() as int) =~= c);
    String::from_str(prefix).concat(body.as_str()).concat(suffix)
}

/// Writes every clause of a group as a line, in order.
pub fn render_group(tokensets: &Vec<Vec<String>>, prefix: &str, suffix: &str) -> (r: Vec<String>)
    ensures
        r.len() == tokensets.len(),
        forall|i: int|
            0 <= i < r.len() ==> #[trigger] r[i]@ == clause_line(
                prefix@,
                tokensets.deep_view()[i],
                suffix@,
            ),
{
    let mut r: Vec<String> = Vec::new();
    let mut i: usize = 0;
    while i < tokensets.len()
        invariant
            i <= tokensets.len(),
            r.len() == i,
            forall|j: int|
                0 <= j < i ==> #[trigger] r[j]@ == clause_line(
                    prefix@,
                    tokensets.deep_view()[j],
                    suffix@,
                ),
        decreases tokensets.len() - i,
    {
        r.push(render_clause(prefix, &tokensets[i], suffix));
        i = i + 1;
    }
    r
}

} // verus!
