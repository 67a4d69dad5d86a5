use vstd::prelude::*;
use crate::literal::equality_mark;
use crate::render::and_separator;
use crate::text::{
    find_text, first_index, is_first_occurrence, lemma_first_index_occurs,
    lemma_first_occurrence_unique, matches_at,
    occurs_at, trim, trim_start, trimmed,
};

verus! {

/// The keyword that opens a conditional line, with its space.
pub open spec fn if_mark() -> Seq<char> {
    seq!['i', 'f', ' ']
}

/// The character that ends the condition of a line.
pub open spec fn colon_mark() -> Seq<char> {
    seq![':']
}

/// The pieces of `s` between the separators, left to right.
pub open spec fn split_and(s: Seq<char>) -> Seq<Seq<char>>
    decreases s.len(),
{
    match first_index(s, and_separator()) {
        Some(i) => seq![s.take(i)] + split_and(s.skip(i + 5)),
        None => seq![s],
    }
}

/// A literal as the core expects it: an equality that is not in parentheses
/// gets them (around its trimmed text); anything else stays as written.
pub open spec fn normalized(piece: Seq<char>) -> Seq<char> {
    let t = trim(piece);
    if first_index(t, equality_mark()) is Some && (t.len() == 0 || t[0] != '(') {
        seq!['('] + t + seq![')']
    } else {
        piece
    }
}

/// The literals of a condition.
pub open spec fn clause_literals(body: Seq<char>) -> Seq<Seq<char>> {
    split_and(body).map_values(|p: Seq<char>| normalized(p))
}

/// The line holds a condition: after its leading white space it opens with
/// the keyword.
pub open spec fn starts_clause(line: Seq<char>) -> bool {
    trim_start(line).len() >= 3 && trim_start(line).take(3) == if_mark()
}

/// The text of a line up to and including the first keyword.
pub open spec fn prefix_of(line: Seq<char>) -> Option<Seq<char>> {
    match first_index(line, if_mark()) {
        Some(i) => Some(line.take(i + 3)),
        None => None,
    }
}

/// The text of a line from its first colon on.
pub open spec fn suffix_of(line: Seq<char>) -> Option<Seq<char>> {
    match first_index(line, colon_mark()) {
        Some(i) => Some(line.skip(i)),
        None => None,
    }
}

/// A conditional line taken apart: its prefix, its suffix and the literals
/// of the condition between them. A line without a colon after the keyword
/// has no condition.
pub open spec fn parsed_clause(line: Seq<char>) -> Option<(Seq<char>, Seq<char>, Seq<Seq<char>>)> {
    if starts_clause(line) && first_index(line, if_mark()) is Some && first_index(line, colon_mark()) is Some
        && first_index(line, if_mark())->0 + 3 <= first_index(line, colon_mark())->0 {
        let i = first_index(line, if_mark())->0;
        let c = first_index(line, colon_mark())->0;
        Some((line.take(i + 3), line.skip(c), clause_literals(line.subrange(i + 3, c))))
    } else {
        None
    }
}

/// A line belongs to the group being collected: it has a prefix and a suffix,
/// and they match the group's where the group has them.
pub open spec fn continues_group(
    set_prefix: Option<Seq<char>>,
    prefix: Option<Seq<char>>,
    set_suffix: Option<Seq<char>>,
    suffix: Option<Seq<char>>,
) -> bool {
    &&& prefix is Some && (set_prefix is None || set_prefix == prefix)
    &&& suffix is Some && (set_suffix is None || set_suffix == suffix)
}

/// Occurrences in a suffix are occurrences in the whole, shifted.
proof fn lemma_occurs_shift(s: Seq<char>, pat: Seq<char>, st: int)
    requires
        0 <= st <= s.len(),
    ensures
        forall|q: int| 0 <= q ==> #[trigger] occurs_at(s.skip(st), pat, q) == occurs_at(s, pat, q + st),
{
    assert forall|q: int| 0 <= q implies #[trigger] occurs_at(s.skip(st), pat, q) == occurs_at(
        s,
        pat,
        q + st,
    ) by {
        if q + pat.len() <= s.len() - st {
            assert(s.skip(st).subrange(q, q + pat.len()) =~= s.subrange(q + st, q + st + pat.len()));
        }
    }
}

/// Puts an equality literal in parentheses unless it has them.
pub fn normalize_literal(piece: &str) -> (r: String)
    ensures
        r@ == normalized(piece@),
{
    let t = trimmed(piece);
    let has_eq = find_text(t, "==");
    proof {
        reveal_strlit("==");
        assert("=="@ =~= equality_mark());
    }
    let n = t.unicode_len();
    if has_eq.is_some() && (n == 0 || t.get_char(0) != '(') {
        let open = "(";
        let close = ")";
        proof {
            reveal_strlit("(");
            reveal_strlit(")");
        }
        let r = String::from_str(open).concat(t).concat(close);
        assert(r@ =~= seq!['('] + t@ + seq![')']);
        r
    } else {
        String::from_str(piece)
    }
}

/// Splits a condition at each separator and normalizes every literal.
pub fn split_literals(body: &str) -> (r: Vec<String>)
    ensures
        r.deep_view() == clause_literals(body@),
{
    let sep = " and ";
    proof {
        reveal_strlit(" and ");
    }
    assert(sep@ =~= and_separator());
    let ghost s = body@;
    let n = body.unicode_len();
    let mut pieces: Vec<String> = Vec::new();
    let mut start: usize = 0;
    let mut p: usize = 0;
    assert(s.skip(0) =~= s);
    while p < n
        invariant
            n == s.len(),
            s == body@,
            sep@ == and_separator(),
            start <= p <= n,
            clause_literals(s) == pieces.deep_view() + clause_literals(s.skip(start as int)),
            forall|q: int| start <= q < p ==> !#[trigger] occurs_at(s, and_separator(), q),
        decreases n - p,
    {
        if matches_at(body, sep, p) {
            let ghost rest = s.skip(start as int);
            proof {
                lemma_occurs_shift(s, and_separator(), start as int);
                let k = p - start;
                assert(is_first_occurrence(rest, and_separator(), k)) by {
                    assert forall|j: int| 0 <= j < k implies !#[trigger] occurs_at(
                        rest,
                        and_separator(),
                        j,
                    ) by {
                        assert(!occurs_at(s, and_separator(), j + start));
                    }
                }
                let c = choose|c: int| is_first_occurrence(rest, and_separator(), c);
                lemma_first_occurrence_unique(rest, and_separator(), k, c);
                assert(rest.take(k) =~= s.subrange(start as int, p as int));
                assert(rest.skip(k + 5) =~= s.skip(p + 5));
                assert(split_and(rest) == seq![s.subrange(start as int, p as int)] + split_and(
                    s.skip(p + 5),
                ));
                assert(clause_literals(rest) =~= seq![normalized(s.subrange(start as int, p as int))]
                    + clause_literals(s.skip(p + 5)));
            }
            let ghost before = pieces.deep_view();
            pieces.push(normalize_literal(body.substring_char(start, p)));
            assert(pieces.deep_view() =~= before.push(normalized(s.subrange(start as int, p as int))));
            start = p + 5;
            p = start;
        } else {
            p = p + 1;
        }
    }
    proof {
        let rest = s.skip(start as int);
        lemma_occurs_shift(s, and_separator(), start as int);
        assert forall|j: int| !is_first_occurrence(rest, and_separator(), j) by {
            if 0 <= j && j + 5 <= rest.len() {
                assert(!occurs_at(s, and_separator(), j + start));
            }
        }
        assert(split_and(rest) == seq![rest]);
        assert(clause_literals(rest) =~= seq![normalized(rest)]);
        assert(s.subrange(start as int, n as int) =~= rest);
    }
    let ghost before = pieces.deep_view();
    pieces.push(normalize_literal(body.substring_char(start, n)));
    assert(pieces.deep_view() =~= before.push(normalized(s.skip(start as int))));
    assert(clause_literals(s) =~= pieces.deep_view());
    pieces
}

/// The text of a line up to and including the first keyword, if any.
pub fn line_prefix(line: &str) -> (r: Option<String>)
    ensures
        r.deep_view() == prefix_of(line@),
{
    let mark = "if ";
    proof {
        reveal_strlit("if ");
    }
    assert(mark@ =~= if_mark());
    let n = line.unicode_len();
    match find_text(line, mark) {
        Some(i) => {
            proof {
                lemma_first_index_occurs(line@, if_mark());
            }
            Some(String::from_str(line.substring_char(0, i + 3)))
        },
        None => None,
    }
}

/// The text of a line from its first colon on, if any.
pub fn line_suffix(line: &str) -> (r: Option<String>)
    ensures
        r.deep_view() == suffix_of(line@),
{
    let mark = ":";
    proof {
        reveal_strlit(":");
    }
    assert(mark@ =~= colon_mark());
    match find_text(line, mark) {
        Some(i) => {
            let n = line.unicode_len();
            assert(line@.subrange(i as int, n as int) =~= line@.skip(i as int));
            Some(String::from_str(line.substring_char(i, n)))
        },
        None => None,
    }
}

/// Whether the line opens, after its leading white space, with the keyword.
pub fn is_clause_line(line: &str) -> (r: bool)
    ensures
        r == starts_clause(line@),
{
    let t = trimmed_start(line);
    let n = t.unicode_len();
    if n < 3 {
        return false;
    }
    let r = t.get_char(0) == 'i' && t.get_char(1) == 'f' && t.get_char(2) == ' ';
    assert(r == (t@.take(3) =~= if_mark()));
    r
}

/// `s` without its leading white space.
fn trimmed_start(s: &str) -> (r: &str)
    ensures
        r@ == trim_start(s@),
{
    let n = s.unicode_len();
    let mut a: usize = 0;
    assert(s@.skip(0) =~= s@);
    while a < n && crate::text::is_white_char(s.get_char(a))
        invariant
            n == s@.len(),
            a <= n,
            trim_start(s@) == trim_start(s@.skip(a as int)),
        decreases n - a,
    {
        assert(s@.skip(a as int).drop_first() =~= s@.skip(a + 1));
        a = a + 1;
    }
    assert(s@.subrange(a as int, n as int) =~= s@.skip(a as int));
    s.substring_char(a, n)
}

/// Takes a conditional line apart into its prefix, its suffix and the
/// literals of its condition.
pub fn parse_clause(line: &str) -> (r: Option<(String, String, Vec<String>)>)
    ensures
        r.deep_view() == parsed_clause(line@),
{
    if !is_clause_line(line) {
        return None;
    }
    let if_text = "if ";
    let colon_text = ":";
    proof {
        reveal_strlit("if ");
        reveal_strlit(":");
    }
    assert(if_text@ =~= if_mark());
    assert(colon_text@ =~= colon_mark());
    let i = match find_text(line, if_text) {
        Some(i) => i,
        None => {
            return None;
        },
    };
    let c = match find_text(line, colon_text) {
        Some(c) => c,
        None => {
            return None;
        },
    };
    let n = line.unicode_len();
    proof {
        lemma_first_index_occurs(line@, if_mark());
    }
    if i + 3 > c {
        return None;
    }
    assert(line@.subrange(c as int, n as int) =~= line@.skip(c as int));
    let prefix = String::from_str(line.substring_char(0, i + 3));
    let suffix = String::from_str(line.substring_char(c, n));
    let literals = split_literals(line.substring_char(i + 3, c));
    Some((prefix, suffix, literals))
}

/// Whether a line with this prefix and suffix belongs to the group being
/// collected.
pub fn same_context(
    set_prefix: &Option<String>,
    prefix: &Option<String>,
    set_suffix: &Option<String>,
    suffix: &Option<String>,
) -> (r: bool)
    ensures
        r == continues_group(
            set_prefix.deep_view(),
            prefix.deep_view(),
            set_suffix.deep_view(),
            suffix.deep_view(),
        ),
{
    let prefix_fits = match (set_prefix, prefix) {
        (_, None) => false,
        (Some(x), Some(y)) => *x == *y,
        (None, Some(_)) => true,
    };
    let suffix_fits = match (set_suffix, suffix) {
        (_, None) => false,
        (Some(x), Some(y)) => *x == *y,
        (None, Some(_)) => true,
    };
    prefix_fits && suffix_fits
}

} // verus!
