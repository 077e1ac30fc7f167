//! Counted references: how often tables name a thing, and what it is counted for.
use crate::keys;
use vstd::prelude::*;

verus! {

/// How many of the listed ids name the thing `g`.
pub open spec fn entries(list: Seq<u64>, ids: Map<u64, usize>, g: int) -> nat
    decreases list.len(),
{
    if list.len() == 0 {
        0
    } else {
        entries(list.drop_last(), ids, g) + if ids[list.last()] == g {
            1nat
        } else {
            0nat
        }
    }
}

/// How often the tables together name the thing `g`.
pub open spec fn total(tables: Seq<Map<u64, usize>>, g: int) -> nat
    decreases tables.len(),
{
    if tables.len() == 0 {
        0
    } else {
        total(tables.drop_last(), g) + entries(keys::listing(tables.last()), tables.last(), g)
    }
}

/// What the thing `g` is counted for; nothing, where there is no such thing.
pub open spec fn counted(c: Seq<usize>, g: int) -> nat {
    if 0 <= g < c.len() {
        c[g] as nat
    } else {
        0
    }
}

/// Everything is counted at least as often as the tables name it. What is counted
/// beyond that is held by others.
pub open spec fn covered(tables: Seq<Map<u64, usize>>, c: Seq<usize>) -> bool {
    forall|g: int| #[trigger] total(tables, g) <= counted(c, g)
}

/// The references after one more for each of the listed ids.
pub open spec fn held_once_more(c: Seq<usize>, list: Seq<u64>, ids: Map<u64, usize>) -> Seq<usize>
    decreases list.len(),
{
    if list.len() == 0 {
        c
    } else {
        let d = held_once_more(c, list.drop_last(), ids);
        let g = ids[list.last()] as int;
        d.update(g, (d[g] + 1) as usize)
    }
}

/// The references after one less for each of the listed ids.
pub open spec fn held_once_less(c: Seq<usize>, list: Seq<u64>, ids: Map<u64, usize>) -> Seq<usize>
    decreases list.len(),
{
    if list.len() == 0 {
        c
    } else {
        let d = held_once_less(c, list.drop_last(), ids);
        let g = ids[list.last()] as int;
        d.update(g, (d[g] - 1) as usize)
    }
}

/// Every listed id names one of `n` things.
pub open spec fn all_below(list: Seq<u64>, ids: Map<u64, usize>, n: nat) -> bool {
    forall|i: int| 0 <= i < list.len() ==> ids[#[trigger] list[i]] < n
}

/// Taking a reference for each of the listed ids raises every count by as many as
/// name the thing.
pub proof fn lemma_more(c: Seq<usize>, list: Seq<u64>, ids: Map<u64, usize>, g: int)
    requires
        all_below(list, ids, c.len()),
        0 <= g < c.len(),
        c[g] + entries(list, ids, g) <= usize::MAX,
    ensures
        held_once_more(c, list, ids).len() == c.len(),
        held_once_more(c, list, ids)[g] == c[g] + entries(list, ids, g),
    decreases list.len(),
{
    if list.len() > 0 {
        let front = list.drop_last();
        assert forall|i: int| 0 <= i < front.len() implies ids[#[trigger] front[i]] < c.len() by {
            assert(front[i] == list[i]);
        }
        lemma_more(c, front, ids, g);
        assert(list[list.len() - 1] == list.last());
    }
}

/// Giving up a reference for each of the listed ids lowers every count by as many as
/// name the thing.
pub proof fn lemma_less(c: Seq<usize>, list: Seq<u64>, ids: Map<u64, usize>, g: int)
    requires
        all_below(list, ids, c.len()),
        0 <= g < c.len(),
        entries(list, ids, g) <= c[g],
    ensures
        held_once_less(c, list, ids).len() == c.len(),
        held_once_less(c, list, ids)[g] == c[g] - entries(list, ids, g),
    decreases list.len(),
{
    if list.len() > 0 {
        let front = list.drop_last();
        assert forall|i: int| 0 <= i < front.len() implies ids[#[trigger] front[i]] < c.len() by {
            assert(front[i] == list[i]);
        }
        lemma_less(c, front, ids, g);
        assert(list[list.len() - 1] == list.last());
    }
}

/// Giving up what was taken leaves every count as it was.
pub proof fn lemma_less_undoes_more(c: Seq<usize>, list: Seq<u64>, ids: Map<u64, usize>)
    requires
        all_below(list, ids, c.len()),
        forall|g: int| 0 <= g < c.len() ==> c[g] + #[trigger] entries(list, ids, g) <= usize::MAX,
    ensures
        held_once_less(held_once_more(c, list, ids), list, ids) == c,
{
    let d = held_once_more(c, list, ids);
    lemma_more_len(c, list, ids);
    lemma_less_len(d, list, ids);
    assert forall|g: int| 0 <= g < c.len() implies held_once_less(d, list, ids)[g] == c[g] by {
        assert(c[g] + entries(list, ids, g) <= usize::MAX);
        lemma_more(c, list, ids, g);
        lemma_less(d, list, ids, g);
    }
    assert(held_once_less(d, list, ids) =~= c);
}

pub proof fn lemma_more_len(c: Seq<usize>, list: Seq<u64>, ids: Map<u64, usize>)
    requires
        all_below(list, ids, c.len()),
    ensures
        held_once_more(c, list, ids).len() == c.len(),
    decreases list.len(),
{
    if list.len() > 0 {
        let front = list.drop_last();
        assert forall|i: int| 0 <= i < front.len() implies ids[#[trigger] front[i]] < c.len() by {
            assert(front[i] == list[i]);
        }
        lemma_more_len(c, front, ids);
        assert(list[list.len() - 1] == list.last());
    }
}

pub proof fn lemma_less_len(c: Seq<usize>, list: Seq<u64>, ids: Map<u64, usize>)
    requires
        all_below(list, ids, c.len()),
    ensures
        held_once_less(c, list, ids).len() == c.len(),
    decreases list.len(),
{
    if list.len() > 0 {
        let front = list.drop_last();
        assert forall|i: int| 0 <= i < front.len() implies ids[#[trigger] front[i]] < c.len() by {
            assert(front[i] == list[i]);
        }
        lemma_less_len(c, front, ids);
        assert(list[list.len() - 1] == list.last());
    }
}

/// The first ids of a list name a thing no more often than the whole list, and one
/// less often than with the next one, if that names it.
pub proof fn lemma_entries_prefix(list: Seq<u64>, ids: Map<u64, usize>, g: int, i: int)
    requires
        0 <= i < list.len(),
    ensures
        entries(list.take(i + 1), ids, g) == entries(list.take(i), ids, g) + if ids[list[i]] == g {
            1nat
        } else {
            0nat
        },
        entries(list.take(i + 1), ids, g) <= entries(list, ids, g),
    decreases list.len() - i,
{
    assert(list.take(i + 1).drop_last() =~= list.take(i));
    assert(list.take(i + 1).last() == list[i]);
    if i + 1 < list.len() {
        lemma_entries_prefix(list, ids, g, i + 1);
    } else {
        assert(list.take(i + 1) =~= list);
    }
}

/// A list names a thing at most as often as it has ids; not at all if no id names
/// it, and at least once if one does.
pub proof fn lemma_entries_bounds(list: Seq<u64>, ids: Map<u64, usize>, g: int)
    ensures
        entries(list, ids, g) <= list.len(),
        forall|i: int| 0 <= i < list.len() && ids[#[trigger] list[i]] == g ==> entries(list, ids, g)
            > 0,
    decreases list.len(),
{
    if list.len() > 0 {
        let front = list.drop_last();
        lemma_entries_bounds(front, ids, g);
        assert forall|i: int| 0 <= i < list.len() && ids[#[trigger] list[i]] == g implies entries(
            list,
            ids,
            g,
        ) > 0 by {
            if i < front.len() {
                assert(front[i] == list[i]);
            }
        }
    }
}

/// An empty table names nothing.
pub proof fn lemma_empty_table(g: int)
    ensures
        entries(
            keys::listing(Map::<u64, usize>::empty()),
            Map::<u64, usize>::empty(),
            g,
        ) == 0,
{
    let m = Map::<u64, usize>::empty();
    let s = Seq::<u64>::empty();
    assert forall|k: u64| #[trigger] s.contains(k) <==> m.contains_key(k) by {}
    keys::lemma_listing(s, m);
}

/// One more table adds what it names.
pub proof fn lemma_total_push(tables: Seq<Map<u64, usize>>, m: Map<u64, usize>, g: int)
    ensures
        total(tables.push(m), g) == total(tables, g) + entries(keys::listing(m), m, g),
{
    assert(tables.push(m).drop_last() =~= tables);
}

/// A table in place of another counts in its place.
pub proof fn lemma_total_update(tables: Seq<Map<u64, usize>>, i: int, m: Map<u64, usize>, g: int)
    requires
        0 <= i < tables.len(),
    ensures
        total(tables.update(i, m), g) + entries(keys::listing(tables[i]), tables[i], g) == total(
            tables,
            g,
        ) + entries(keys::listing(m), m, g),
    decreases tables.len(),
{
    let now = tables.update(i, m);
    if i == tables.len() - 1 {
        assert(now.drop_last() =~= tables.drop_last());
    } else {
        lemma_total_update(tables.drop_last(), i, m, g);
        assert(now.drop_last() =~= tables.drop_last().update(i, m));
    }
}

/// A table names nothing more often than all together.
pub proof fn lemma_one_of_total(tables: Seq<Map<u64, usize>>, i: int, g: int)
    requires
        0 <= i < tables.len(),
    ensures
        entries(keys::listing(tables[i]), tables[i], g) <= total(tables, g),
    decreases tables.len(),
{
    if i < tables.len() - 1 {
        lemma_one_of_total(tables.drop_last(), i, g);
    }
}

/// Every id of a table that is counted for names something.
pub proof fn lemma_table_below(tables: Seq<Map<u64, usize>>, c: Seq<usize>, i: int)
    requires
        covered(tables, c),
        0 <= i < tables.len(),
    ensures
        all_below(keys::listing(tables[i]), tables[i], c.len()),
        forall|g: int| #[trigger]
            entries(keys::listing(tables[i]), tables[i], g) <= counted(c, g),
{
    let m = tables[i];
    let list = keys::listing(m);
    assert forall|g: int| #[trigger] entries(list, m, g) <= counted(c, g) by {
        lemma_one_of_total(tables, i, g);
        assert(total(tables, g) <= counted(c, g));
    }
    assert forall|k: int| 0 <= k < list.len() implies m[#[trigger] list[k]] < c.len() by {
        let g = m[list[k]] as int;
        lemma_entries_bounds(list, m, g);
        assert(entries(list, m, g) <= counted(c, g));
    }
}

/// A copy of a table, with references of its own, is counted for.
pub proof fn lemma_copy_covered(tables: Seq<Map<u64, usize>>, c: Seq<usize>, src: int)
    requires
        covered(tables, c),
        0 <= src < tables.len(),
        forall|g: int|
            0 <= g < c.len() ==> #[trigger] c[g] + keys::listing(tables[src]).len() <= usize::MAX,
    ensures
        covered(
            tables.push(tables[src]),
            held_once_more(c, keys::listing(tables[src]), tables[src]),
        ),
{
    let m = tables[src];
    let list = keys::listing(m);
    let d = held_once_more(c, list, m);
    lemma_table_below(tables, c, src);
    lemma_more_len(c, list, m);
    assert forall|g: int| #[trigger] total(tables.push(m), g) <= counted(d, g) by {
        lemma_total_push(tables, m, g);
        assert(total(tables, g) <= counted(c, g));
        assert(entries(list, m, g) <= counted(c, g));
        if 0 <= g < c.len() {
            assert(c[g] + list.len() <= usize::MAX);
            lemma_entries_bounds(list, m, g);
            lemma_more(c, list, m, g);
        }
    }
}

/// Once a table is emptied and has given up its references, the others are counted
/// for as before.
pub proof fn lemma_emptied_covered(tables: Seq<Map<u64, usize>>, c: Seq<usize>, i: int)
    requires
        covered(tables, c),
        0 <= i < tables.len(),
    ensures
        covered(
            tables.update(i, Map::empty()),
            held_once_less(c, keys::listing(tables[i]), tables[i]),
        ),
{
    let m = tables[i];
    let list = keys::listing(m);
    let d = held_once_less(c, list, m);
    let none = Map::<u64, usize>::empty();
    lemma_table_below(tables, c, i);
    lemma_less_len(c, list, m);
    assert forall|g: int| #[trigger] total(tables.update(i, none), g) <= counted(d, g) by {
        assert(entries(list, m, g) <= counted(c, g));
        assert(total(tables, g) <= counted(c, g));
        lemma_total_update(tables, i, none, g);
        lemma_empty_table(g);
        if 0 <= g < c.len() {
            lemma_less(c, list, m, g);
        }
    }
}

/// Counts that do not fall cover what they covered.
pub proof fn lemma_covered_grows(tables: Seq<Map<u64, usize>>, c: Seq<usize>, d: Seq<usize>)
    requires
        covered(tables, c),
        c.len() <= d.len(),
        forall|g: int| 0 <= g < c.len() ==> #[trigger] d[g] >= c[g],
    ensures
        covered(tables, d),
{
    assert forall|g: int| #[trigger] total(tables, g) <= counted(d, g) by {
        assert(total(tables, g) <= counted(c, g));
        if 0 <= g < c.len() {
            assert(d[g] >= c[g]);
        }
    }
}

/// An empty table more is counted for.
pub proof fn lemma_empty_covered(tables: Seq<Map<u64, usize>>, c: Seq<usize>)
    requires
        covered(tables, c),
    ensures
        covered(tables.push(Map::empty()), c),
{
    let none = Map::<u64, usize>::empty();
    assert forall|g: int| #[trigger] total(tables.push(none), g) <= counted(c, g) by {
        lemma_total_push(tables, none, g);
        lemma_empty_table(g);
        assert(total(tables, g) <= counted(c, g));
    }
}

} // verus!
