use vstd::prelude::*;
use crate::text::{find_text, lemma_first_index_occurs, occurs_at};

verus! {

/// The four characters that mark a negated flag.
pub open spec fn negation_mark() -> Seq<char> {
    seq!['n', 'o', 't', ' ']
}

/// Whether a literal is written as the negation of a flag.
pub open spec fn is_negated(t: Seq<char>) -> bool {
    t.len() >= 4 && t.subrange(0, 4) == negation_mark()
}

/// The textual complement of a literal: the mark is removed from a negated
/// literal and put in front of any other.
pub open spec fn flipped(t: Seq<char>) -> Seq<char> {
    if is_negated(t) {
        t.subrange(4, t.len() as int)
    } else {
        negation_mark() + t
    }
}

/// The operator of an equality literal.
pub open spec fn equality_mark() -> Seq<char> {
    seq!['=', '=']
}

/// A plain flag or its negation: a literal with no equality test in its text.
/// Only such literals take part in flip merges.
pub open spec fn is_plain(t: Seq<char>) -> bool {
    forall|i: int| !#[trigger] occurs_at(t, equality_mark(), i)
}

/// Whether `token` is a plain flag or its negation.
pub fn is_plain_flag(token: &str) -> (r: bool)
    ensures
        r == is_plain(token@),
{
    let mark = "==";
    proof {
        reveal_strlit("==");
    }
    assert(mark@ =~= equality_mark());
    match find_text(token, mark) {
        Some(_) => {
            proof {
                lemma_first_index_occurs(token@, equality_mark());
            }
            false
        },
        None => true,
    }
}

/// The negation of a plain flag is plain.
pub proof fn lemma_flipped_plain(t: Seq<char>)
    requires
        is_plain(t),
        !is_negated(t),
    ensures
        is_plain(flipped(t)),
        flipped(flipped(t)) == t,
{
    let f = flipped(t);
    assert(f.subrange(0, 4) =~= negation_mark());
    assert(f.subrange(4, f.len() as int) =~= t);
    assert forall|i: int| !#[trigger] occurs_at(f, equality_mark(), i) by {
        if occurs_at(f, equality_mark(), i) {
            if i >= 4 {
                assert(f.subrange(i, i + 2) =~= t.subrange(i - 4, i - 4 + 2));
                assert(occurs_at(t, equality_mark(), i - 4));
            } else {
                assert(f.subrange(i, i + 2)[0] == f[i]);
                assert(f[i] == negation_mark()[i]);
            }
        }
    }
}

/// Computes `flipped(token)`.
pub fn flip(token: &str) -> (r: String)
    ensures
        r@ == flipped(token@),
{
    let n = token.unicode_len();
    if n >= 4 && token.get_char(0) == 'n' && token.get_char(1) == 'o' && token.get_char(2) == 't'
        && token.get_char(3) == ' ' {
        assert(token@.subrange(0, 4) =~= negation_mark());
        String::from_str(token.substring_char(4, n))
    } else {
        let mark = "not ";
        proof {
            reveal_strlit("not ");
        }
        assert(mark@ =~= negation_mark());
        assert(!is_negated(token@)) by {
            if is_negated(token@) {
                assert(token@.subrange(0, 4)[0] == token@[0]);
                assert(token@.subrange(0, 4)[1] == token@[1]);
                assert(token@.subrange(0, 4)[2] == token@[2]);
                assert(token@.subrange(0, 4)[3] == token@[3]);
            }
        }
        String::from_str(mark).concat(token)
    }
}

} // verus!
