//! Properties that hold across the library's operations, stated and proved once.
use vstd::prelude::*;
use crate::field::{element_index, Field};
use crate::filter::{
    batch_order, group_key_of, has_self_term, lemma_batch_tables, table_matches, table_order,
    term_value, Term,
};
use crate::ids::Entity;
use crate::iter::{batch_rows, IterT};
use crate::protocols::{all_tables, each_count, each_rows, table_rows, total_rows};
use crate::world::World;

verus! {

/// When every batch has a table, a per-row protocol visits exactly the stored rows.
proof fn lemma_each_rows_are_table_rows<V>(world: World<V>, batches: Seq<Option<usize>>)
    requires
        all_tables(batches),
    ensures
        each_rows(world, batches) == table_rows(world, batches),
    decreases batches.len(),
{
    if batches.len() > 0 {
        let init = batches.drop_last();
        assert(all_tables(init)) by {
            assert forall|b: int| 0 <= b < init.len() implies (#[trigger] init[b]) is Some by {
                assert(init[b] == batches[b]);
            }
        }
        lemma_each_rows_are_table_rows(world, init);
        assert(batches[batches.len() - 1] is Some);
        assert(each_count(world, batches.last()) == batch_rows(world, batches.last()));
    }
}

/// The stored rows of `batches` number their total.
proof fn lemma_table_rows_len<V>(world: World<V>, batches: Seq<Option<usize>>)
    ensures
        table_rows(world, batches).len() == total_rows(world, batches),
    decreases batches.len(),
{
    if batches.len() > 0 {
        lemma_table_rows_len(world, batches.drop_last());
    }
}

/// A query with a term matched on the entity itself yields only batches with a table.
proof fn lemma_self_term_tables<V>(
    world: World<V>,
    terms: Seq<Term>,
    group_by: Entity,
    batches: Seq<Option<usize>>,
)
    requires
        batch_order(world, terms, group_by, batches),
        has_self_term(terms),
    ensures
        all_tables(batches),
{
    assert forall|b: int| 0 <= b < batches.len() implies (#[trigger] batches[b]) is Some by {
        lemma_batch_tables(world, terms, group_by, batches, b);
    }
}

/// Row coverage: over a pass of a query with a term matched on the iterated entity, the rows a
/// per-row protocol visits are exactly the stored rows of the matched tables, in order, and
/// they are as many as the sum of the tables' row counts (what `count` returns).
pub proof fn lemma_row_coverage<V>(
    world: World<V>,
    terms: Seq<Term>,
    group_by: Entity,
    batches: Seq<Option<usize>>,
)
    requires
        world.wf(),
        batch_order(world, terms, group_by, batches),
        has_self_term(terms),
    ensures
        each_rows(world, batches) == table_rows(world, batches),
        each_rows(world, batches).len() == total_rows(world, batches),
{
    lemma_self_term_tables(world, terms, group_by, batches);
    lemma_each_rows_are_table_rows(world, batches);
    lemma_table_rows_len(world, batches);
}

/// Shared broadcast: every row of a shared field reads the same element, and distinct rows of
/// an owned field read distinct elements.
pub proof fn lemma_shared_broadcast<'a, V>(f: Field<'a, V>, r1: nat, r2: nat)
    requires
        f.wf(),
    ensures
        f.is_shared_spec() ==> element_index(f.offset_spec(), true, r1) == element_index(
            f.offset_spec(),
            true,
            r2,
        ) && f.at(r1) == f.at(r2),
        !f.is_shared_spec() && r1 != r2 ==> element_index(f.offset_spec(), false, r1)
            != element_index(f.offset_spec(), false, r2),
{
}

/// Shared broadcast in the per-row tuples: a term with a fixed source gives every row of a
/// batch the same value.
pub proof fn lemma_shared_term_value<V>(
    world: World<V>,
    term: Term,
    table: Option<usize>,
    r1: int,
    r2: int,
)
    requires
        term.src != 0,
    ensures
        term_value(world, term, table, r1) == term_value(world, term, table, r2),
{
}

/// Group ordering: in a pass of a query, a table with a smaller group key is visited before a
/// table with a larger one, and tables with the same key are visited in creation order.
pub proof fn lemma_group_order<V>(
    world: World<V>,
    terms: Seq<Term>,
    group_by: Entity,
    batches: Seq<Option<usize>>,
    i: int,
    j: int,
)
    requires
        world.wf(),
        batch_order(world, terms, group_by, batches),
        0 <= i < batches.len(),
        0 <= j < batches.len(),
        batches[i] is Some,
        batches[j] is Some,
    ensures
        group_key_of(world, group_by, batches[i]->0 as int) < group_key_of(
            world,
            group_by,
            batches[j]->0 as int,
        ) ==> i < j,
        group_key_of(world, group_by, batches[i]->0 as int) == group_key_of(
            world,
            group_by,
            batches[j]->0 as int,
        ) && batches[i]->0 < batches[j]->0 ==> i < j,
{
    lemma_batch_tables(world, terms, group_by, batches, i);
    if has_self_term(terms) {
        let order = choose|order: Seq<usize>|
            table_order(world, terms, group_by, order) && batches == order.map_values(
                |t: usize| Some(t),
            );
        assert(batches[i]->0 == order[i] && batches[j]->0 == order[j]);
        if j < i {
            assert(crate::filter::visits_before(world, group_by, order[j] as int, order[i] as int));
        }
    } else if batches.len() > 0 {
        assert(batches == seq![None::<usize>]);
        assert(batches[i] is None);
    }
}

/// Lock discipline: a consistent pass state never holds two tables locked, and holds none when
/// no batch is current (after exhaustion or `fini`).
pub proof fn lemma_lock_discipline<'w, V>(it: IterT<'w, V>, t1: usize, t2: usize)
    requires
        it.wf(),
    ensures
        it.locked(t1) && it.locked(t2) ==> t1 == t2,
        !it.valid ==> it.no_locks(),
{
    if it.locked(t1) && it.locked(t2) {
        assert(it.table == Some(t1) && it.table == Some(t2));
    }
}

/// Zero-match behaviour: when a query with a term matched on the iterated entity matches no
/// table, its pass is empty: no row to count, no row for a per-row callback, no first entity.
pub proof fn lemma_zero_match<V>(
    world: World<V>,
    terms: Seq<Term>,
    group_by: Entity,
    batches: Seq<Option<usize>>,
)
    requires
        world.wf(),
        batch_order(world, terms, group_by, batches),
        has_self_term(terms),
        forall|t: int| !table_matches(world, terms, t),
    ensures
        batches.len() == 0,
        total_rows(world, batches) == 0,
        each_rows(world, batches).len() == 0,
        table_rows(world, batches).len() == 0,
{
    if batches.len() > 0 {
        lemma_batch_tables(world, terms, group_by, batches, 0);
    }
}

} // verus!
