//! What holds of the store's answers across operations, stated over the
//! rows of the table: a save appends its event under an id above every
//! earlier one, and the reads answer from the rows.
use vstd::prelude::*;

use crate::event::{stored, Event, NewEvent, StoreError};
use crate::order::{date_key, lemma_newer_date, lex_lt, newer};
use crate::query::{
    grouped_recent, has_id, ids_ascending, lemma_of_source_ascending, lemma_of_source_members,
    lemma_ranked_covers, lemma_ranked_members, lemma_ranked_sorted, lemma_sources_cover, lemma_sources_no_duplicates,
    most_recent, of_source, ranked, sources_of,
};
use crate::repo::id_answer;

verus! {

/// The rows after a save of `input` that the store gave the id `id`.
pub open spec fn after_save(rows: Seq<Event>, input: NewEvent, id: i64) -> Seq<Event> {
    rows.push(stored(input, id))
}

/// `id` is above every id of the rows, as each new id of the store is.
pub open spec fn fresh_id(rows: Seq<Event>, id: i64) -> bool {
    forall|i: int| 0 <= i < rows.len() ==> rows[i].id < id
}

/// A saved event is read back by its id with the source, code, output and
/// date it was saved with; the answers for every other id stay as they were.
pub proof fn lemma_get_after_save(rows: Seq<Event>, input: NewEvent, id: i64)
    requires
        ids_ascending(rows),
        fresh_id(rows, id),
    ensures
        ids_ascending(after_save(rows, input, id)),
        id_answer(after_save(rows, input, id), id) == Ok::<Event, StoreError>(stored(input, id)),
        stored(input, id).source == input.source && stored(input, id).code == input.code
            && stored(input, id).output == input.output && stored(input, id).date == input.date,
        forall|other: i64|
            other != id ==> #[trigger] id_answer(after_save(rows, input, id), other) == id_answer(
                rows,
                other,
            ),
{
    let t = after_save(rows, input, id);
    assert(t[rows.len() as int] == stored(input, id));
    assert(has_id(t, id));
    let c = choose|c: int| 0 <= c < t.len() && t[c].id == id;
    if c < rows.len() {
        assert(t[c] == rows[c]);
    }
    assert forall|other: i64| other != id implies #[trigger] id_answer(t, other) == id_answer(
        rows,
        other,
    ) by {
        if has_id(t, other) {
            let i = choose|i: int| 0 <= i < t.len() && t[i].id == other;
            assert(t[i] == rows[i]);
            assert(has_id(rows, other));
        }
        if has_id(rows, other) {
            let i = choose|i: int| 0 <= i < rows.len() && rows[i].id == other;
            assert(t[i] == rows[i]);
            assert(has_id(t, other));
            let a = choose|a: int| 0 <= a < t.len() && t[a].id == other;
            let b = choose|b: int| 0 <= b < rows.len() && rows[b].id == other;
            assert(t[a] == rows[a]);
            if a < b {
                assert(rows[a].id < rows[b].id);
            } else if b < a {
                assert(rows[b].id < rows[a].id);
            }
        }
    }
}

/// A lookup fails with `NotFound` exactly when no row carries the id.
pub proof fn lemma_not_found_exactly(rows: Seq<Event>, id: i64)
    ensures
        id_answer(rows, id) == Err::<Event, StoreError>(StoreError::NotFound) <==> forall|i: int|
            0 <= i < rows.len() ==> rows[i].id != id,
        id_answer(rows, id) is Ok || id_answer(rows, id) == Err::<Event, StoreError>(
            StoreError::NotFound,
        ),
{
}

/// The history of a source is exactly its rows, in the order of the table,
/// which is the order of saving; a save adds one event to the history of its
/// own source, at the end, and none to any other.
pub proof fn lemma_history_of_source(rows: Seq<Event>, s: Seq<char>, input: NewEvent, id: i64)
    requires
        ids_ascending(rows),
    ensures
        of_source(rows, s) == rows.filter(|e: Event| e.source@ == s),
        ids_ascending(of_source(rows, s)),
        of_source(after_save(rows, input, id), s) == if input.source@ == s {
            of_source(rows, s).push(stored(input, id))
        } else {
            of_source(rows, s)
        },
{
    lemma_of_source_is_filter(rows, s);
    lemma_of_source_ascending(rows, s);
    assert(after_save(rows, input, id).drop_last() =~= rows);
}

proof fn lemma_of_source_is_filter(rows: Seq<Event>, s: Seq<char>)
    ensures
        of_source(rows, s) == rows.filter(|e: Event| e.source@ == s),
    decreases rows.len(),
{
    reveal(Seq::filter);
    if rows.len() > 0 {
        lemma_of_source_is_filter(rows.drop_last(), s);
    }
}

/// The catalog holds each source of the rows once, and nothing else.
pub proof fn lemma_catalog_exact(rows: Seq<Event>)
    ensures
        sources_of(rows).no_duplicates(),
        forall|s: Seq<char>|
            #[trigger] sources_of(rows).contains(s) <==> exists|i: int|
                0 <= i < rows.len() && rows[i].source@ == s,
{
    lemma_sources_no_duplicates(rows);
    assert forall|s: Seq<char>|
        #[trigger] sources_of(rows).contains(s) <==> exists|i: int|
            0 <= i < rows.len() && rows[i].source@ == s by {
        lemma_sources_cover(rows, s);
    }
}

/// The grouped answer for `n`: nothing for `n == 0`; otherwise one entry per
/// source that has events, none for any other string, and in each entry
/// `min(n, m)` events of that source, where it has `m`, dates descending;
/// every event of the source left out is older than every event kept.
pub proof fn lemma_recent_shape(rows: Seq<Event>, n: nat)
    requires
        ids_ascending(rows),
    ensures
        n == 0 ==> grouped_recent(rows, n).len() == 0,
        n > 0 ==> forall|s: Seq<char>|
            (exists|j: int| 0 <= j < grouped_recent(rows, n).len() && #[trigger] grouped_recent(
                rows,
                n,
            )[j].0 == s) <==> of_source(rows, s).len() > 0,
        forall|j: int|
            0 <= j < grouped_recent(rows, n).len() ==> {
                let (s, evs) = #[trigger] grouped_recent(rows, n)[j];
                let m = of_source(rows, s).len();
                &&& evs.len() == if n < m { n } else { m }
                &&& forall|k: int| 0 <= k < evs.len() ==> (#[trigger] evs[k]).source@ == s
                    && rows.contains(evs[k])
                &&& forall|a: int, b: int|
                    0 <= a < b < evs.len() ==> !lex_lt(date_key(evs[a]), date_key(evs[b]))
                &&& forall|i: int, a: int|
                    0 <= i < of_source(rows, s).len() && !evs.contains(
                        #[trigger] of_source(rows, s)[i],
                    ) && 0 <= a < evs.len() ==> newer(#[trigger] evs[a], of_source(rows, s)[i])
            },
{
    let gr = grouped_recent(rows, n);
    if n > 0 {
        assert forall|s: Seq<char>|
            (exists|j: int| 0 <= j < gr.len() && #[trigger] gr[j].0 == s) <==> of_source(
                rows,
                s,
            ).len() > 0 by {
            lemma_sources_cover(rows, s);
            lemma_of_source_members(rows, s);
            if of_source(rows, s).len() == 0 && sources_of(rows).contains(s) {
                let i = choose|i: int| 0 <= i < rows.len() && rows[i].source@ == s;
                lemma_row_in_source(rows, s, i);
            }
            if sources_of(rows).contains(s) {
                let j = choose|j: int| 0 <= j < sources_of(rows).len() && sources_of(rows)[j] == s;
                assert(gr[j].0 == s);
            }
        }
    }
    assert forall|j: int| 0 <= j < gr.len() implies {
        let (s, evs) = #[trigger] gr[j];
        let m = of_source(rows, s).len();
        &&& evs.len() == if n < m { n } else { m }
        &&& forall|k: int| 0 <= k < evs.len() ==> (#[trigger] evs[k]).source@ == s && rows.contains(
            evs[k],
        )
        &&& forall|a: int, b: int|
            0 <= a < b < evs.len() ==> !lex_lt(date_key(evs[a]), date_key(evs[b]))
        &&& forall|i: int, a: int|
            0 <= i < of_source(rows, s).len() && !evs.contains(#[trigger] of_source(rows, s)[i])
                && 0 <= a < evs.len() ==> newer(#[trigger] evs[a], of_source(rows, s)[i])
    } by {
        let s = sources_of(rows)[j];
        let g = of_source(rows, s);
        let evs = most_recent(g, n);
        assert(gr[j] == (s, evs));
        lemma_ranked_members(g);
        lemma_of_source_members(rows, s);
        lemma_of_source_ascending(rows, s);
        lemma_ranked_sorted(g);
        assert forall|k: int| 0 <= k < evs.len() implies (#[trigger] evs[k]).source@ == s
            && rows.contains(evs[k]) by {
            assert(evs[k] == ranked(g)[k]);
            assert(g.contains(ranked(g)[k]));
            let i = choose|i: int| 0 <= i < g.len() && g[i] == ranked(g)[k];
            assert(g[i].source@ == s && rows.contains(g[i]));
        }
        assert forall|a: int, b: int| 0 <= a < b < evs.len() implies !lex_lt(
            date_key(evs[a]),
            date_key(evs[b]),
        ) by {
            assert(evs[a] == ranked(g)[a] && evs[b] == ranked(g)[b]);
            lemma_newer_date(evs[a], evs[b]);
        }
        lemma_ranked_covers(g);
        assert forall|i: int, a: int|
            0 <= i < g.len() && !evs.contains(#[trigger] g[i]) && 0 <= a < evs.len() implies newer(
            #[trigger] evs[a],
            g[i],
        ) by {
            let k = choose|k: int| 0 <= k < ranked(g).len() && ranked(g)[k] == g[i];
            if k < evs.len() {
                assert(evs[k] == g[i]);
            }
            assert(evs[a] == ranked(g)[a]);
        }
    }
}

/// A row of source `s` makes the history of `s` non-empty.
proof fn lemma_row_in_source(rows: Seq<Event>, s: Seq<char>, i: int)
    requires
        0 <= i < rows.len(),
        rows[i].source@ == s,
    ensures
        of_source(rows, s).len() > 0,
    decreases rows.len(),
{
    if i < rows.len() - 1 {
        assert(rows.drop_last()[i] == rows[i]);
        lemma_row_in_source(rows.drop_last(), s, i);
    }
}

} // verus!
