//! Recency order on events: dates compare byte-wise (lexicographically on
//! their UTF-8 encoding), and among equal dates the earlier id comes first.
use vstd::prelude::*;
use vstd::utf8::encode_utf8;

use crate::event::Event;

verus! {

/// `a` sorts strictly before `b` in lexicographic byte order.
pub open spec fn lex_lt(a: Seq<u8>, b: Seq<u8>) -> bool
    decreases a.len(),
{
    if b.len() == 0 {
        false
    } else if a.len() == 0 {
        true
    } else if a[0] != b[0] {
        a[0] < b[0]
    } else {
        lex_lt(a.drop_first(), b.drop_first())
    }
}

/// The bytes by which an event's date is compared.
pub open spec fn date_key(e: Event) -> Seq<u8> {
    encode_utf8(e.date@)
}

/// `a` comes before `b` in the recency order: a later date, or the same
/// date and a smaller id.
pub open spec fn newer(a: Event, b: Event) -> bool {
    lex_lt(date_key(b), date_key(a)) || (date_key(a) == date_key(b) && a.id < b.id)
}

pub proof fn lemma_lex_lt_irreflexive(a: Seq<u8>)
    ensures
        !lex_lt(a, a),
    decreases a.len(),
{
    if a.len() > 0 {
        assert(a.drop_first() =~= a.drop_first());
        lemma_lex_lt_irreflexive(a.drop_first());
    }
}

pub proof fn lemma_lex_lt_transitive(a: Seq<u8>, b: Seq<u8>, c: Seq<u8>)
    requires
        lex_lt(a, b),
        lex_lt(b, c),
    ensures
        lex_lt(a, c),
    decreases a.len(),
{
    if a.len() > 0 && b.len() > 0 && c.len() > 0 && a[0] == b[0] && b[0] == c[0] {
        lemma_lex_lt_transitive(a.drop_first(), b.drop_first(), c.drop_first());
    }
}

pub proof fn lemma_lex_lt_total(a: Seq<u8>, b: Seq<u8>)
    ensures
        lex_lt(a, b) || lex_lt(b, a) || a == b,
    decreases a.len(),
{
    if a.len() > 0 && b.len() > 0 && a[0] == b[0] {
        lemma_lex_lt_total(a.drop_first(), b.drop_first());
        if a.drop_first() == b.drop_first() {
            assert(a =~= seq![a[0]] + a.drop_first());
            assert(b =~= seq![b[0]] + b.drop_first());
        }
    } else if a.len() == 0 && b.len() == 0 {
        assert(a =~= b);
    }
}

/// Whether `a` sorts strictly before `b` in lexicographic byte order.
pub fn bytes_before(a: &[u8], b: &[u8]) -> (r: bool)
    ensures
        r == lex_lt(a@, b@),
{
    let mut i: usize = 0;
    assert(a@.subrange(0, a@.len() as int) =~= a@);
    assert(b@.subrange(0, b@.len() as int) =~= b@);
    while i < a.len() && i < b.len() && a[i] == b[i]
        invariant
            i <= a@.len(),
            i <= b@.len(),
            lex_lt(a@, b@) == lex_lt(a@.subrange(i as int, a@.len() as int), b@.subrange(i as int, b@.len() as int)),
        decreases a@.len() - i,
    {
        let ghost sa = a@.subrange(i as int, a@.len() as int);
        let ghost sb = b@.subrange(i as int, b@.len() as int);
        assert(sa.drop_first() =~= a@.subrange(i + 1, a@.len() as int));
        assert(sb.drop_first() =~= b@.subrange(i + 1, b@.len() as int));
        i = i + 1;
    }
    if i < a.len() && i < b.len() {
        a[i] < b[i]
    } else {
        i == a.len() && i < b.len()
    }
}

/// Whether `a` comes before `b` in the recency order.
pub fn is_newer(a: &Event, b: &Event) -> (r: bool)
    ensures
        r == newer(*a, *b),
{
    let ka = a.date.as_str().as_bytes();
    let kb = b.date.as_str().as_bytes();
    if bytes_before(kb, ka) {
        true
    } else if bytes_before(ka, kb) {
        false
    } else {
        proof {
            lemma_lex_lt_total(ka@, kb@);
        }
        a.id < b.id
    }
}

pub proof fn lemma_newer_transitive(a: Event, b: Event, c: Event)
    requires
        newer(a, b),
        newer(b, c),
    ensures
        newer(a, c),
{
    if lex_lt(date_key(b), date_key(a)) && lex_lt(date_key(c), date_key(b)) {
        lemma_lex_lt_transitive(date_key(c), date_key(b), date_key(a));
    }
}

pub proof fn lemma_newer_total(a: Event, b: Event)
    requires
        a.id != b.id,
    ensures
        newer(a, b) || newer(b, a),
{
    lemma_lex_lt_total(date_key(a), date_key(b));
}

/// An event newer than another has a date no earlier than the other's.
pub proof fn lemma_newer_date(a: Event, b: Event)
    requires
        newer(a, b),
    ensures
        !lex_lt(date_key(a), date_key(b)),
{
    lemma_lex_lt_irreflexive(date_key(a));
    if lex_lt(date_key(a), date_key(b)) && lex_lt(date_key(b), date_key(a)) {
        lemma_lex_lt_transitive(date_key(a), date_key(b), date_key(a));
    }
}

} // verus!
