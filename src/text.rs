//! Human-readable query expressions: entities as `#id`, pairs as `(#first,#second)`, a fixed
//! source in parentheses after the id, read-only terms marked `[in]`.
use vstd::prelude::*;
use crate::filter::Term;
use crate::ids::{is_pair, is_pair_spec, pair_first, pair_first_spec, pair_second, pair_second_spec, Entity, IdT};

verus! {

/// The decimal digit character for `d`.
pub open spec fn digit_char(d: nat) -> char {
    seq!['0', '1', '2', '3', '4', '5', '6', '7', '8', '9'][d as int]
}

/// Decimal representation of `n`, most significant digit first.
pub open spec fn decimal(n: nat) -> Seq<char>
    decreases n,
{
    if n < 10 {
        seq![digit_char(n)]
    } else {
        decimal(n / 10).push(digit_char(n % 10))
    }
}

/// `#` followed by the entity's number.
pub open spec fn entity_text(e: Entity) -> Seq<char> {
    seq!['#'] + decimal(e as nat)
}

/// An id: an entity, or a pair `(first,second)`.
pub open spec fn id_text(id: IdT) -> Seq<char> {
    if is_pair_spec(id) {
        seq!['('] + entity_text(pair_first_spec(id)) + seq![','] + entity_text(
            pair_second_spec(id),
        ) + seq![')']
    } else {
        entity_text(id)
    }
}

/// A term: `[in] ` when read-only, its id, and its fixed source in parentheses.
pub open spec fn term_text(t: Term) -> Seq<char> {
    (if t.readonly {
        seq!['[', 'i', 'n', ']', ' ']
    } else {
        Seq::empty()
    }) + id_text(t.id) + (if t.src != 0 {
        seq!['('] + entity_text(t.src) + seq![')']
    } else {
        Seq::empty()
    })
}

/// The terms' texts, separated by `, `.
pub open spec fn query_text(terms: Seq<Term>) -> Seq<char>
    decreases terms.len(),
{
    if terms.len() == 0 {
        Seq::empty()
    } else if terms.len() == 1 {
        term_text(terms[0])
    } else {
        query_text(terms.drop_last()) + seq![',', ' '] + term_text(terms.last())
    }
}

/// Relies on std's `FromIterator<char>` for `String`: the string holds the characters in order.
#[verifier::external_body]
fn string_from_chars(chars: &Vec<char>) -> (r: String)
    ensures
        r@ == chars@,
{
    chars.iter().collect()
}

/// Appends `s` to `out`.
fn push_all(out: &mut Vec<char>, s: &[char])
    ensures
        final(out)@ == old(out)@ + s@,
{
    let mut i: usize = 0;
    while i < s.len()
        invariant
            i <= s@.len(),
            out@ == old(out)@ + s@.subrange(0, i as int),
        decreases s@.len() - i,
    {
        out.push(s[i]);
        i += 1;
        assert(out@ =~= old(out)@ + s@.subrange(0, i as int));
    }
    assert(s@.subrange(0, s@.len() as int) =~= s@);
}

/// Appends the decimal digits of `n`.
fn push_decimal(out: &mut Vec<char>, n: u64)
    ensures
        final(out)@ == old(out)@ + decimal(n as nat),
    decreases n,
{
    let digits: [char; 10] = ['0', '1', '2', '3', '4', '5', '6', '7', '8', '9'];
    if n >= 10 {
        push_decimal(out, n / 10);
    }
    let d = (n % 10) as usize;
    assert(digits@ =~= seq!['0', '1', '2', '3', '4', '5', '6', '7', '8', '9']);
    out.push(digits[d]);
    if n >= 10 {
        assert(decimal(n as nat) == decimal((n / 10) as nat).push(digit_char((n % 10) as nat)));
    }
    assert(out@ =~= old(out)@ + decimal(n as nat));
}

/// Appends `#` and the entity's number.
fn push_entity(out: &mut Vec<char>, e: Entity)
    ensures
        final(out)@ == old(out)@ + entity_text(e),
{
    out.push('#');
    push_decimal(out, e);
    assert(out@ =~= old(out)@ + entity_text(e));
}

/// Appends the text of `id`.
fn push_id(out: &mut Vec<char>, id: IdT)
    ensures
        final(out)@ == old(out)@ + id_text(id),
{
    if is_pair(id) {
        let ghost o = out@;
        out.push('(');
        push_entity(out, pair_first(id));
        out.push(',');
        push_entity(out, pair_second(id));
        out.push(')');
        assert(out@ =~= o + id_text(id));
    } else {
        push_entity(out, id);
    }
}

/// Appends the text of `t`.
fn push_term(out: &mut Vec<char>, t: Term)
    ensures
        final(out)@ == old(out)@ + term_text(t),
{
    let ghost o = out@;
    if t.readonly {
        push_all(out, &['[', 'i', 'n', ']', ' ']);
    }
    let ghost a = out@;
    push_id(out, t.id);
    let ghost b = out@;
    if t.src != 0 {
        out.push('(');
        push_entity(out, t.src);
        out.push(')');
    }
    proof {
        let pre: Seq<char> = if t.readonly { seq!['[', 'i', 'n', ']', ' '] } else { Seq::empty() };
        let post: Seq<char> = if t.src != 0 { seq!['('] + entity_text(t.src) + seq![')'] } else { Seq::empty() };
        assert(a =~= o + pre);
        assert(out@ =~= b + post);
        assert(out@ =~= o + term_text(t));
    }
}

/// The expression of a query's terms.
pub fn query_string(terms: &Vec<Term>) -> (r: String)
    ensures
        r@ == query_text(terms@),
{
    let mut out: Vec<char> = Vec::new();
    let mut j: usize = 0;
    while j < terms.len()
        invariant
            j <= terms@.len(),
            out@ == query_text(terms@.subrange(0, j as int)),
        decreases terms@.len() - j,
    {
        let ghost prev = terms@.subrange(0, j as int);
        let ghost next = terms@.subrange(0, j + 1);
        assert(next.drop_last() =~= prev);
        if j > 0 {
            push_all(&mut out, &[',', ' ']);
        }
        push_term(&mut out, terms[j]);
        proof {
            if j == 0 {
                assert(out@ =~= term_text(next[0]));
            } else {
                assert(out@ =~= query_text(prev) + seq![',', ' '] + term_text(next.last()));
            }
        }
        j += 1;
    }
    assert(terms@.subrange(0, terms@.len() as int) =~= terms@);
    string_from_chars(&out)
}

} // verus!
