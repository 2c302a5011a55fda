//! The read side of the store, on the rows of the event table taken in id
//! order: point lookup, the history of one source, the source catalog and the
//! most recent events of every source.
use vstd::prelude::*;

use crate::event::{Event, SourceEvents};
use crate::order::{is_newer, lemma_newer_total, lemma_newer_transitive, newer};

verus! {

/// Rows as the table hands them out: ids strictly ascending.
pub open spec fn ids_ascending(rows: Seq<Event>) -> bool {
    forall|i: int, j: int| 0 <= i < j < rows.len() ==> rows[i].id < rows[j].id
}

/// Some row carries the id `id`.
pub open spec fn has_id(rows: Seq<Event>, id: i64) -> bool {
    exists|i: int| 0 <= i < rows.len() && rows[i].id == id
}

/// The row that carries the id `id`, if any.
pub open spec fn lookup(rows: Seq<Event>, id: i64) -> Option<Event> {
    if has_id(rows, id) {
        Some(rows[choose|i: int| 0 <= i < rows.len() && rows[i].id == id])
    } else {
        None
    }
}

/// The rows of source `s`, in their order.
pub open spec fn of_source(rows: Seq<Event>, s: Seq<char>) -> Seq<Event>
    decreases rows.len(),
{
    if rows.len() == 0 {
        Seq::empty()
    } else if rows.last().source@ == s {
        of_source(rows.drop_last(), s).push(rows.last())
    } else {
        of_source(rows.drop_last(), s)
    }
}

/// The distinct sources of the rows, in the order of their first row.
pub open spec fn sources_of(rows: Seq<Event>) -> Seq<Seq<char>>
    decreases rows.len(),
{
    if rows.len() == 0 {
        Seq::empty()
    } else if sources_of(rows.drop_last()).contains(rows.last().source@) {
        sources_of(rows.drop_last())
    } else {
        sources_of(rows.drop_last()).push(rows.last().source@)
    }
}

/// The index at which `e` enters `s`: past every leading element newer than it.
pub open spec fn slot(s: Seq<Event>, e: Event) -> int
    decreases s.len(),
{
    if s.len() == 0 {
        0
    } else if newer(s[0], e) {
        1 + slot(s.drop_first(), e)
    } else {
        0
    }
}

/// `s` with `e` inserted at its slot.
pub open spec fn place(s: Seq<Event>, e: Event) -> Seq<Event> {
    s.insert(slot(s, e), e)
}

/// The events of `g` in recency order (most recent first, ties by id).
pub open spec fn ranked(g: Seq<Event>) -> Seq<Event>
    decreases g.len(),
{
    if g.len() == 0 {
        Seq::empty()
    } else {
        place(ranked(g.drop_last()), g.last())
    }
}

/// The `n` most recent events of `g`, most recent first.
pub open spec fn most_recent(g: Seq<Event>, n: nat) -> Seq<Event> {
    ranked(g).take(if n < g.len() { n as int } else { g.len() as int })
}

/// The grouped answer: for `n > 0`, each source in the order of its first
/// row, with its `n` most recent events; for `n == 0`, nothing.
pub open spec fn grouped_recent(rows: Seq<Event>, n: nat) -> Seq<(Seq<char>, Seq<Event>)> {
    if n == 0 {
        Seq::empty()
    } else {
        sources_of(rows).map_values(|s: Seq<char>| (s, most_recent(of_source(rows, s), n)))
    }
}

impl View for SourceEvents {
    type V = (Seq<char>, Seq<Event>);

    open spec fn view(&self) -> (Seq<char>, Seq<Event>) {
        (self.source@, self.events@)
    }
}

/// The view of a list of groups.
pub open spec fn groups_view(gs: Seq<SourceEvents>) -> Seq<(Seq<char>, Seq<Event>)> {
    gs.map_values(|g: SourceEvents| g@)
}

/// Whether the ids of `rows` ascend strictly.
pub fn check_ids_ascending(rows: &Vec<Event>) -> (r: bool)
    ensures
        r == ids_ascending(rows@),
{
    let mut i: usize = 1;
    if rows.len() == 0 {
        return true;
    }
    while i < rows.len()
        invariant
            1 <= i <= rows@.len(),
            ids_ascending(rows@.take(i as int)),
        decreases rows@.len() - i,
    {
        if rows[i - 1].id >= rows[i].id {
            return false;
        }
        proof {
            let t = rows@.take(i as int + 1);
            assert forall|a: int, b: int| 0 <= a < b < t.len() implies t[a].id < t[b].id by {
                if b < i {
                    assert(rows@.take(i as int)[a] == t[a]);
                    assert(rows@.take(i as int)[b] == t[b]);
                } else if a < i - 1 {
                    assert(rows@.take(i as int)[a] == t[a]);
                    assert(rows@.take(i as int)[i - 1] == t[i - 1]);
                }
            }
        }
        i = i + 1;
    }
    assert(rows@.take(i as int) =~= rows@);
    true
}

/// The row that carries the id `id`, if any.
pub fn find_by_id(rows: &Vec<Event>, id: i64) -> (r: Option<Event>)
    requires
        ids_ascending(rows@),
    ensures
        r == lookup(rows@, id),
{
    let mut i: usize = 0;
    while i < rows.len()
        invariant
            i <= rows@.len(),
            ids_ascending(rows@),
            forall|j: int| 0 <= j < i ==> rows@[j].id != id,
        decreases rows@.len() - i,
    {
        if rows[i].id == id {
            let e = rows[i].clone();
            proof {
                assert(has_id(rows@, id));
                let c = choose|c: int| 0 <= c < rows@.len() && rows@[c].id == id;
                if c > i {
                    assert(rows@[i as int].id < rows@[c].id);
                }
                assert(c == i);
            }
            return Some(e);
        }
        i = i + 1;
    }
    None
}

/// The rows of the source `source`, in their order.
pub fn events_of_source(rows: &Vec<Event>, source: &str) -> (r: Vec<Event>)
    ensures
        r@ == of_source(rows@, source@),
{
    let key: String = source.to_owned();
    let mut out: Vec<Event> = Vec::new();
    let mut i: usize = 0;
    while i < rows.len()
        invariant
            i <= rows@.len(),
            key@ == source@,
            out@ == of_source(rows@.take(i as int), source@),
        decreases rows@.len() - i,
    {
        assert(rows@.take(i as int + 1).drop_last() =~= rows@.take(i as int));
        if rows[i].source.eq(&key) {
            out.push(rows[i].clone());
        }
        i = i + 1;
    }
    assert(rows@.take(i as int) =~= rows@);
    out
}

/// The views of a list of strings.
pub open spec fn names_view(ns: Seq<String>) -> Seq<Seq<char>> {
    ns.map_values(|n: String| n@)
}

pub proof fn lemma_sources_no_duplicates(rows: Seq<Event>)
    ensures
        sources_of(rows).no_duplicates(),
    decreases rows.len(),
{
    if rows.len() > 0 {
        lemma_sources_no_duplicates(rows.drop_last());
    }
}

pub proof fn lemma_sources_cover(rows: Seq<Event>, s: Seq<char>)
    ensures
        sources_of(rows).contains(s) <==> exists|i: int| 0 <= i < rows.len() && rows[i].source@ == s,
    decreases rows.len(),
{
    if rows.len() > 0 {
        let p = rows.drop_last();
        lemma_sources_cover(p, s);
        let sp = sources_of(p);
        if !sp.contains(rows.last().source@) {
            assert(sources_of(rows) == sp.push(rows.last().source@));
            assert(sources_of(rows)[sp.len() as int] == rows.last().source@);
            assert forall|x: Seq<char>| sp.contains(x) implies sources_of(rows).contains(x) by {
                let j = choose|j: int| 0 <= j < sp.len() && sp[j] == x;
                assert(sources_of(rows)[j] == x);
            }
        }
        if exists|i: int| 0 <= i < rows.len() && rows[i].source@ == s {
            let i = choose|i: int| 0 <= i < rows.len() && rows[i].source@ == s;
            if i < rows.len() - 1 {
                assert(p[i] == rows[i]);
            }
        }
        if sources_of(rows).contains(s) {
            if sources_of(p).contains(s) {
                let i = choose|i: int| 0 <= i < p.len() && p[i].source@ == s;
                assert(rows[i] == p[i]);
            } else {
                assert(rows[rows.len() - 1].source@ == s);
            }
        }
    }
}

pub proof fn lemma_absent_source(rows: Seq<Event>, s: Seq<char>)
    requires
        !sources_of(rows).contains(s),
    ensures
        of_source(rows, s) == Seq::<Event>::empty(),
{
    lemma_sources_cover(rows, s);
    lemma_of_source_members(rows, s);
    assert(of_source(rows, s) =~= Seq::<Event>::empty());
}

/// Every member of `of_source(rows, s)` is a row of source `s`, and its
/// length counts them.
pub proof fn lemma_of_source_members(rows: Seq<Event>, s: Seq<char>)
    ensures
        forall|k: int| 0 <= k < of_source(rows, s).len() ==> (#[trigger] of_source(rows, s)[k]).source@ == s
            && rows.contains(of_source(rows, s)[k]),
        of_source(rows, s).len() > 0 ==> exists|i: int| 0 <= i < rows.len() && rows[i].source@ == s,
    decreases rows.len(),
{
    if rows.len() > 0 {
        let p = rows.drop_last();
        lemma_of_source_members(p, s);
        assert forall|k: int| 0 <= k < of_source(rows, s).len() implies (#[trigger] of_source(rows, s)[k]).source@ == s
            && rows.contains(of_source(rows, s)[k]) by {
            if k < of_source(p, s).len() {
                assert(of_source(rows, s)[k] == of_source(p, s)[k]);
                let j = choose|j: int| 0 <= j < p.len() && p[j] == of_source(p, s)[k];
                assert(rows[j] == p[j]);
            } else {
                assert(rows[rows.len() - 1] == rows.last());
            }
        }
        if of_source(rows, s).len() > 0 {
            if of_source(p, s).len() > 0 {
                let i = choose|i: int| 0 <= i < p.len() && p[i].source@ == s;
                assert(rows[i] == p[i]);
            } else {
                assert(rows[rows.len() - 1].source@ == s);
            }
        }
    }
}

pub proof fn lemma_slot_bounds(s: Seq<Event>, e: Event)
    ensures
        0 <= slot(s, e) <= s.len(),
    decreases s.len(),
{
    if s.len() > 0 {
        lemma_slot_bounds(s.drop_first(), e);
    }
}

pub proof fn lemma_ranked_len(g: Seq<Event>)
    ensures
        ranked(g).len() == g.len(),
    decreases g.len(),
{
    if g.len() > 0 {
        lemma_ranked_len(g.drop_last());
        lemma_slot_bounds(ranked(g.drop_last()), g.last());
    }
}

pub proof fn lemma_slot_take(s: Seq<Event>, e: Event, m: int)
    requires
        0 <= m <= s.len(),
    ensures
        slot(s.take(m), e) == if slot(s, e) < m { slot(s, e) } else { m },
    decreases s.len(),
{
    lemma_slot_bounds(s, e);
    if m > 0 {
        assert(s.take(m)[0] == s[0]);
        assert(s.take(m).drop_first() =~= s.drop_first().take(m - 1));
        lemma_slot_take(s.drop_first(), e, m - 1);
    }
}

/// Inserting into the first `min(n, |s|)` elements and keeping `n` gives the
/// same as inserting into all of `s` and keeping `n`.
pub proof fn lemma_place_take(s: Seq<Event>, e: Event, n: int)
    requires
        n > 0,
    ensures
        ({
            let m = if n < s.len() { n } else { s.len() as int };
            let t = if n < s.len() + 1 { n } else { s.len() + 1 as int };
            &&& place(s.take(m), e).len() == m + 1
            &&& place(s, e).len() == s.len() + 1
            &&& place(s.take(m), e).take(t) == place(s, e).take(t)
        }),
{
    let m = if n < s.len() { n } else { s.len() as int };
    let t = if n < s.len() + 1 { n } else { s.len() + 1 as int };
    let p = slot(s, e);
    let q = slot(s.take(m), e);
    lemma_slot_bounds(s, e);
    lemma_slot_take(s, e, m);
    let left = place(s.take(m), e);
    let right = place(s, e);
    s.take(m).insert_ensures(q, e);
    s.insert_ensures(p, e);
    assert forall|j: int| 0 <= j < t implies left[j] == right[j] by {
        if j < q {
            assert(left[j] == s.take(m)[j]);
        } else if j > q {
            assert(left[j] == s.take(m)[j - 1]);
        }
    }
    assert(left.take(t) =~= right.take(t));
}

/// Whether `list` holds a string with the view of `s`.
fn holds_name(list: &Vec<String>, s: &String) -> (r: bool)
    ensures
        r == names_view(list@).contains(s@),
{
    let mut i: usize = 0;
    while i < list.len()
        invariant
            i <= list@.len(),
            forall|j: int| 0 <= j < i ==> list@[j]@ != s@,
        decreases list@.len() - i,
    {
        if list[i].eq(s) {
            assert(names_view(list@)[i as int] == s@);
            return true;
        }
        i = i + 1;
    }
    proof {
        let nv = names_view(list@);
        if nv.contains(s@) {
            let j = choose|j: int| 0 <= j < nv.len() && nv[j] == s@;
            assert(list@[j]@ == s@);
        }
    }
    false
}

/// The distinct sources of the rows, in the order of their first row.
pub fn distinct_sources(rows: &Vec<Event>) -> (r: Vec<String>)
    ensures
        names_view(r@) == sources_of(rows@),
{
    let mut out: Vec<String> = Vec::new();
    let mut i: usize = 0;
    while i < rows.len()
        invariant
            i <= rows@.len(),
            names_view(out@) == sources_of(rows@.take(i as int)),
        decreases rows@.len() - i,
    {
        assert(rows@.take(i as int + 1).drop_last() =~= rows@.take(i as int));
        assert(rows@.take(i as int + 1).last() == rows@[i as int]);
        if !holds_name(&out, &rows[i].source) {
            let ghost before = out@;
            out.push(rows[i].source.clone());
            assert(names_view(out@) =~= names_view(before).push(rows@[i as int].source@));
        }
        i = i + 1;
    }
    assert(rows@.take(i as int) =~= rows@);
    out
}

/// `list` with `e` inserted at its slot, cut to at most `limit` events.
fn insert_bounded(list: &Vec<Event>, e: &Event, limit: usize) -> (r: Vec<Event>)
    ensures
        r@ == place(list@, *e).take(
            if (limit as int) < list@.len() + 1 { limit as int } else { list@.len() + 1 as int },
        ),
{
    let mut p: usize = 0;
    proof {
        assert(list@.subrange(0, list@.len() as int) =~= list@);
    }
    while p < list.len() && is_newer(&list[p], e)
        invariant
            p <= list@.len(),
            slot(list@, *e) == p + slot(list@.subrange(p as int, list@.len() as int), *e),
        decreases list@.len() - p,
    {
        assert(list@.subrange(p as int, list@.len() as int).drop_first() =~= list@.subrange(
            p as int + 1,
            list@.len() as int,
        ));
        p = p + 1;
    }
    let ghost whole = place(list@, *e);
    proof {
        assert(slot(list@, *e) == p);
        list@.insert_ensures(p as int, *e);
    }
    let cap: usize = if list.len() < limit { list.len() + 1 } else { limit };
    let mut out: Vec<Event> = Vec::new();
    let mut j: usize = 0;
    while j < cap
        invariant
            cap <= list@.len() + 1,
            j <= cap,
            whole == place(list@, *e),
            whole.len() == list@.len() + 1,
            slot(list@, *e) == p,
            p <= list@.len(),
            forall|k: int| 0 <= k < p ==> whole[k] == list@[k],
            whole[p as int] == *e,
            forall|k: int| p < k <= list@.len() ==> whole[k] == list@[k - 1],
            out@ == whole.take(j as int),
        decreases cap - j,
    {
        if j < p {
            out.push(list[j].clone());
        } else if j == p {
            out.push(e.clone());
        } else {
            out.push(list[j - 1].clone());
        }
        assert(out@ =~= whole.take(j as int + 1));
        j = j + 1;
    }
    out
}

/// The index of the group of `source`, or the number of groups if none has it.
fn group_index(groups: &Vec<SourceEvents>, source: &String) -> (k: usize)
    ensures
        k <= groups@.len(),
        k < groups@.len() ==> groups@[k as int].source@ == source@,
        forall|j: int| 0 <= j < k ==> groups@[j].source@ != source@,
{
    let mut i: usize = 0;
    while i < groups.len()
        invariant
            i <= groups@.len(),
            forall|j: int| 0 <= j < i ==> groups@[j].source@ != source@,
        decreases groups@.len() - i,
    {
        if groups[i].source.eq(source) {
            return i;
        }
        i = i + 1;
    }
    i
}

/// For every source, its `limit` most recent events, most recent first
/// (equal dates: smaller id first); the sources come in the order of their
/// first row, and no source comes when `limit` is zero. One pass over the
/// rows, keeping at most `limit` events per source.
pub fn recent_by_source(rows: &Vec<Event>, limit: usize) -> (r: Vec<SourceEvents>)
    ensures
        groups_view(r@) == grouped_recent(rows@, limit as nat),
{
    let mut groups: Vec<SourceEvents> = Vec::new();
    if limit == 0 {
        assert(groups_view(groups@) =~= grouped_recent(rows@, limit as nat));
        return groups;
    }
    let ghost n = limit as nat;
    let mut i: usize = 0;
    assert(groups_view(groups@) =~= grouped_recent(rows@.take(0), n));
    while i < rows.len()
        invariant
            n == limit as nat,
            n > 0,
            i <= rows@.len(),
            groups_view(groups@) == grouped_recent(rows@.take(i as int), n),
        decreases rows@.len() - i,
    {
        let ghost pre = rows@.take(i as int);
        let ghost post = rows@.take(i as int + 1);
        let ghost e = rows@[i as int];
        let ghost s = e.source@;
        let ghost before = groups@;
        proof {
            assert(post.drop_last() =~= pre);
            assert(post.last() == e);
            lemma_sources_no_duplicates(pre);
            assert forall|x: Seq<char>| x != s implies of_source(post, x) == of_source(pre, x) by {}
            assert(of_source(post, s) == of_source(pre, s).push(e));
            assert(groups_view(before).len() == sources_of(pre).len());
            assert forall|j: int| 0 <= j < before.len() implies before[j]@ == (
            sources_of(pre)[j],
            most_recent(of_source(pre, sources_of(pre)[j]), n),
            ) by {
                assert(groups_view(before)[j] == before[j]@);
            }
        }
        let k = group_index(&groups, &rows[i].source);
        if k < groups.len() {
            let updated = insert_bounded(&groups[k].events, &rows[i], limit);
            let name = groups[k].source.clone();
            proof {
                let g = of_source(pre, s);
                assert(sources_of(pre)[k as int] == s);
                assert(sources_of(pre).contains(s));
                assert(sources_of(post) == sources_of(pre));
                lemma_ranked_len(g);
                lemma_place_take(ranked(g), e, n as int);
                assert(ranked(g.push(e)) == place(ranked(g), e)) by {
                    assert(g.push(e).drop_last() =~= g);
                }
            }
            groups.set(k, SourceEvents { source: name, events: updated });
            proof {
                assert forall|j: int| 0 <= j < groups@.len() implies groups_view(groups@)[j]
                    == grouped_recent(post, n)[j] by {
                    if j != k {
                        assert(groups@[j] == before[j]);
                        assert(sources_of(pre)[j] != s);
                    }
                }
                assert(groups_view(groups@) =~= grouped_recent(post, n));
            }
        } else {
            let mut fresh: Vec<Event> = Vec::new();
            fresh.push(rows[i].clone());
            groups.push(SourceEvents { source: rows[i].source.clone(), events: fresh });
            proof {
                assert(!sources_of(pre).contains(s)) by {
                    if sources_of(pre).contains(s) {
                        let j = choose|j: int| 0 <= j < sources_of(pre).len() && sources_of(pre)[j] == s;
                        assert(before[j].source@ == s);
                    }
                }
                assert(sources_of(post) == sources_of(pre).push(s));
                lemma_absent_source(pre, s);
                assert(of_source(post, s) =~= seq![e]);
                assert(seq![e].drop_last() =~= Seq::<Event>::empty());
                assert(slot(Seq::<Event>::empty(), e) == 0);
                Seq::<Event>::empty().insert_ensures(0, e);
                assert(ranked(Seq::<Event>::empty()) == Seq::<Event>::empty());
                assert(seq![e].last() == e);
                assert(ranked(seq![e]) == place(Seq::<Event>::empty(), e));
                assert(place(Seq::<Event>::empty(), e) =~= seq![e]);
                assert forall|j: int| 0 <= j < groups@.len() implies groups_view(groups@)[j]
                    == grouped_recent(post, n)[j] by {
                    if j < before.len() {
                        assert(groups@[j] == before[j]);
                        assert(sources_of(pre)[j] != s);
                    } else {
                        assert(most_recent(seq![e], n) =~= seq![e]);
                    }
                }
                assert(groups_view(groups@) =~= grouped_recent(post, n));
            }
        }
        i = i + 1;
    }
    assert(rows@.take(i as int) =~= rows@);
    groups
}

/// Each element newer than the next one.
pub open spec fn recency_sorted(s: Seq<Event>) -> bool {
    forall|a: int, b: int| 0 <= a < b < s.len() ==> newer(s[a], s[b])
}

pub proof fn lemma_slot_prefix(s: Seq<Event>, e: Event)
    ensures
        forall|j: int| 0 <= j < slot(s, e) ==> newer(#[trigger] s[j], e),
        slot(s, e) < s.len() ==> !newer(s[slot(s, e)], e),
    decreases s.len(),
{
    lemma_slot_bounds(s, e);
    if s.len() > 0 && newer(s[0], e) {
        lemma_slot_prefix(s.drop_first(), e);
        assert forall|j: int| 0 <= j < slot(s, e) implies newer(#[trigger] s[j], e) by {
            if j > 0 {
                assert(s[j] == s.drop_first()[j - 1]);
            }
        }
        lemma_slot_bounds(s.drop_first(), e);
        assert(slot(s, e) == 1 + slot(s.drop_first(), e));
        if slot(s, e) < s.len() {
            assert(s[slot(s, e)] == s.drop_first()[slot(s.drop_first(), e)]);
        }
    }
}

pub proof fn lemma_ranked_members(g: Seq<Event>)
    ensures
        ranked(g).len() == g.len(),
        forall|k: int| 0 <= k < ranked(g).len() ==> g.contains(#[trigger] ranked(g)[k]),
    decreases g.len(),
{
    lemma_ranked_len(g);
    if g.len() > 0 {
        let p = g.drop_last();
        let r = ranked(p);
        lemma_ranked_members(p);
        lemma_slot_bounds(r, g.last());
        r.insert_ensures(slot(r, g.last()), g.last());
        assert forall|k: int| 0 <= k < ranked(g).len() implies g.contains(#[trigger] ranked(g)[k]) by {
            let x = ranked(g)[k];
            if x == g.last() {
                assert(g[g.len() - 1] == x);
            } else {
                let sl = slot(r, g.last());
                let i = if k < sl { k } else { k - 1 };
                assert(r[i] == x);
                assert(p.contains(x));
                let j = choose|j: int| 0 <= j < p.len() && p[j] == x;
                assert(g[j] == x);
            }
        }
    }
}

pub proof fn lemma_place_sorted(s: Seq<Event>, e: Event)
    requires
        recency_sorted(s),
        forall|k: int| 0 <= k < s.len() ==> (#[trigger] s[k]).id != e.id,
    ensures
        recency_sorted(place(s, e)),
{
    let p = slot(s, e);
    lemma_slot_bounds(s, e);
    lemma_slot_prefix(s, e);
    s.insert_ensures(p, e);
    if p < s.len() {
        lemma_newer_total(s[p], e);
    }
    assert forall|k: int| p <= k < s.len() implies newer(e, #[trigger] s[k]) by {
        if k > p {
            lemma_newer_transitive(e, s[p], s[k]);
        }
    }
    let t = place(s, e);
    assert forall|a: int, b: int| 0 <= a < b < t.len() implies newer(t[a], t[b]) by {
        if b < p {
        } else if b == p {
            assert(t[a] == s[a]);
        } else if a < p {
            assert(t[a] == s[a]);
            assert(t[b] == s[b - 1]);
        } else if a == p {
            assert(t[b] == s[b - 1]);
        } else {
            assert(t[a] == s[a - 1]);
            assert(t[b] == s[b - 1]);
        }
    }
}

pub proof fn lemma_ranked_sorted(g: Seq<Event>)
    requires
        ids_ascending(g),
    ensures
        recency_sorted(ranked(g)),
    decreases g.len(),
{
    if g.len() > 0 {
        let p = g.drop_last();
        let r = ranked(p);
        lemma_ranked_sorted(p);
        lemma_ranked_members(p);
        assert forall|k: int| 0 <= k < r.len() implies (#[trigger] r[k]).id != g.last().id by {
            assert(p.contains(r[k]));
            let j = choose|j: int| 0 <= j < p.len() && p[j] == r[k];
            assert(g[j] == p[j]);
        }
        lemma_place_sorted(r, g.last());
    }
}

pub proof fn lemma_of_source_ascending(rows: Seq<Event>, s: Seq<char>)
    requires
        ids_ascending(rows),
    ensures
        ids_ascending(of_source(rows, s)),
    decreases rows.len(),
{
    if rows.len() > 0 {
        let p = rows.drop_last();
        lemma_of_source_ascending(p, s);
        lemma_of_source_members(p, s);
        let q = of_source(p, s);
        assert forall|k: int| 0 <= k < q.len() implies (#[trigger] q[k]).id < rows.last().id by {
            let j = choose|j: int| 0 <= j < p.len() && p[j] == q[k];
            assert(rows[j] == p[j]);
        }
    }
}

pub proof fn lemma_ranked_covers(g: Seq<Event>)
    ensures
        forall|i: int| 0 <= i < g.len() ==> ranked(g).contains(#[trigger] g[i]),
    decreases g.len(),
{
    if g.len() > 0 {
        let p = g.drop_last();
        let r = ranked(p);
        let sl = slot(r, g.last());
        lemma_ranked_covers(p);
        lemma_slot_bounds(r, g.last());
        r.insert_ensures(sl, g.last());
        assert forall|i: int| 0 <= i < g.len() implies ranked(g).contains(#[trigger] g[i]) by {
            if i == g.len() - 1 {
                assert(ranked(g)[sl] == g[i]);
            } else {
                assert(p[i] == g[i]);
                assert(r.contains(p[i]));
                let k = choose|k: int| 0 <= k < r.len() && r[k] == p[i];
                if k < sl {
                    assert(ranked(g)[k] == g[i]);
                } else {
                    assert(ranked(g)[k + 1] == g[i]);
                }
            }
        }
    }
}

} // verus!
