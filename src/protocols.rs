//! The iteration protocols: per-row callbacks, per-batch callbacks, searches and counts.
use vstd::prelude::*;
use crate::filter::{
    batch_order, lemma_batch_tables, lemma_pass_of, row_tuple, term_value, Filter, IterOperations,
    Term,
};
use crate::field::Field;
use crate::ids::Entity;
use crate::iter::{batch_rows, EachEntityForward, EachForward, Iter};
use crate::text::{query_string, query_text};
use crate::world::World;

verus! {

/// Rows a per-row protocol visits in the batch of `table`: each of its rows, and one row for the
/// batch without a table.
pub open spec fn each_count<V>(world: World<V>, table: Option<usize>) -> nat {
    match table {
        Some(t) => world.tables@[t as int].entities@.len(),
        None => 1,
    }
}

/// The rows of one batch, as (table, row) pairs.
pub open spec fn batch_seq(table: Option<usize>, n: nat) -> Seq<(Option<usize>, int)> {
    Seq::new(n, |r: int| (table, r))
}

/// The rows a per-row protocol visits over `batches`, in order.
pub open spec fn each_rows<V>(world: World<V>, batches: Seq<Option<usize>>) -> Seq<(Option<usize>, int)>
    decreases batches.len(),
{
    if batches.len() == 0 {
        Seq::empty()
    } else {
        each_rows(world, batches.drop_last()) + batch_seq(
            batches.last(),
            each_count(world, batches.last()),
        )
    }
}

/// The stored rows of `batches`, in order (the batch without a table has none).
pub open spec fn table_rows<V>(world: World<V>, batches: Seq<Option<usize>>) -> Seq<(Option<usize>, int)>
    decreases batches.len(),
{
    if batches.len() == 0 {
        Seq::empty()
    } else {
        table_rows(world, batches.drop_last()) + batch_seq(
            batches.last(),
            batch_rows(world, batches.last()),
        )
    }
}

/// Number of stored rows over `batches`.
pub open spec fn total_rows<V>(world: World<V>, batches: Seq<Option<usize>>) -> nat
    decreases batches.len(),
{
    if batches.len() == 0 {
        0
    } else {
        total_rows(world, batches.drop_last()) + batch_rows(world, batches.last())
    }
}

/// Entity stored at a (table, row) pair.
pub open spec fn entity_of<V>(world: World<V>, row: (Option<usize>, int)) -> Entity {
    world.tables@[row.0->0 as int].entities@[row.1]
}

/// Callback `f` ran once per row of `rows`, in order, from state `states[i]` on the tuple
/// `tuples[i]` of row `rows[i]`.
pub open spec fn each_chain<'w, V: 'w, F: FnMut(Vec<&'w V>)>(
    f: F,
    world: World<V>,
    terms: Seq<Term>,
    rows: Seq<(Option<usize>, int)>,
    states: Seq<F>,
    tuples: Seq<Vec<&'w V>>,
) -> bool {
    &&& states.len() == rows.len() + 1
    &&& tuples.len() == rows.len()
    &&& states[0] == f
    &&& forall|i: int|
        0 <= i < rows.len() ==> row_tuple(world, terms, rows[i].0, rows[i].1, (#[trigger] tuples[i])@)
            && call_ensures(states[i], (tuples[i],), ())
}

/// Callback `f` was invoked exactly on the rows `rows`, in order, each time with the row's tuple.
pub open spec fn rows_visited<'w, V: 'w, F: FnMut(Vec<&'w V>)>(
    f: F,
    world: World<V>,
    terms: Seq<Term>,
    rows: Seq<(Option<usize>, int)>,
) -> bool {
    exists|states: Seq<F>, tuples: Seq<Vec<&'w V>>| each_chain(f, world, terms, rows, states, tuples)
}

/// Callback `f` ran once per row of `rows`, in order, from state `states[i]` on the entity and
/// tuple `args[i]` of row `rows[i]`.
pub open spec fn entity_chain<'w, V: 'w, F: FnMut(Entity, Vec<&'w V>)>(
    f: F,
    world: World<V>,
    terms: Seq<Term>,
    rows: Seq<(Option<usize>, int)>,
    states: Seq<F>,
    args: Seq<(Entity, Vec<&'w V>)>,
) -> bool {
    &&& states.len() == rows.len() + 1
    &&& args.len() == rows.len()
    &&& states[0] == f
    &&& forall|i: int|
        0 <= i < rows.len() ==> (#[trigger] args[i]).0 == entity_of(world, rows[i]) && row_tuple(
            world,
            terms,
            rows[i].0,
            rows[i].1,
            args[i].1@,
        ) && call_ensures(states[i], (args[i].0, args[i].1), ())
}

/// Callback `f` was invoked exactly on the rows `rows`, in order, with each row's entity and tuple.
pub open spec fn entity_rows_visited<'w, V: 'w, F: FnMut(Entity, Vec<&'w V>)>(
    f: F,
    world: World<V>,
    terms: Seq<Term>,
    rows: Seq<(Option<usize>, int)>,
) -> bool {
    exists|states: Seq<F>, args: Seq<(Entity, Vec<&'w V>)>|
        entity_chain(f, world, terms, rows, states, args)
}

/// Predicate `f` ran on the first `n` rows of `rows`, in order, from state `states[i]` on the
/// tuple `tuples[i]`, and answered `answers[i]`.
pub open spec fn find_chain<'w, V: 'w, F: FnMut(Vec<&'w V>) -> bool>(
    f: F,
    world: World<V>,
    terms: Seq<Term>,
    rows: Seq<(Option<usize>, int)>,
    n: int,
    states: Seq<F>,
    tuples: Seq<Vec<&'w V>>,
    answers: Seq<bool>,
) -> bool {
    &&& 0 <= n <= rows.len()
    &&& states.len() == n + 1
    &&& tuples.len() == n
    &&& answers.len() == n
    &&& states[0] == f
    &&& forall|i: int|
        0 <= i < n ==> row_tuple(world, terms, rows[i].0, rows[i].1, (#[trigger] tuples[i])@)
            && call_ensures(states[i], (tuples[i],), answers[i])
}

/// A search with predicate `f` over `rows` gave `r`: the predicate was asked about the rows in
/// order until it first answered true, and `r` is that row's entity; `None` when it answered
/// false on every row.
pub open spec fn search_result<'w, V: 'w, F: FnMut(Vec<&'w V>) -> bool>(
    f: F,
    world: World<V>,
    terms: Seq<Term>,
    rows: Seq<(Option<usize>, int)>,
    r: Option<Entity>,
) -> bool {
    exists|n: int, states: Seq<F>, tuples: Seq<Vec<&'w V>>, answers: Seq<bool>|
        #[trigger] find_chain(f, world, terms, rows, n, states, tuples, answers) && match r {
            Some(e) => n > 0 && answers[n - 1] && e == entity_of(world, rows[n - 1]) && forall|i: int|
                0 <= i < n - 1 ==> !answers[i],
            None => n == rows.len() && forall|i: int| 0 <= i < n ==> !answers[i],
        }
}

/// Predicate `f` ran on the first `n` rows of `rows`, in order, from state `states[i]` on the
/// entity and tuple `args[i]`, and answered `answers[i]`.
pub open spec fn find_entity_chain<'w, V: 'w, F: FnMut(Entity, Vec<&'w V>) -> bool>(
    f: F,
    world: World<V>,
    terms: Seq<Term>,
    rows: Seq<(Option<usize>, int)>,
    n: int,
    states: Seq<F>,
    args: Seq<(Entity, Vec<&'w V>)>,
    answers: Seq<bool>,
) -> bool {
    &&& 0 <= n <= rows.len()
    &&& states.len() == n + 1
    &&& args.len() == n
    &&& answers.len() == n
    &&& states[0] == f
    &&& forall|i: int|
        0 <= i < n ==> (#[trigger] args[i]).0 == entity_of(world, rows[i]) && row_tuple(
            world,
            terms,
            rows[i].0,
            rows[i].1,
            args[i].1@,
        ) && call_ensures(states[i], (args[i].0, args[i].1), answers[i])
}

/// A search with predicate `f`, given each row's entity and tuple, over `rows` gave `r`.
pub open spec fn search_entity_result<'w, V: 'w, F: FnMut(Entity, Vec<&'w V>) -> bool>(
    f: F,
    world: World<V>,
    terms: Seq<Term>,
    rows: Seq<(Option<usize>, int)>,
    r: Option<Entity>,
) -> bool {
    exists|n: int, states: Seq<F>, args: Seq<(Entity, Vec<&'w V>)>, answers: Seq<bool>|
        #[trigger] find_entity_chain(f, world, terms, rows, n, states, args, answers) && match r {
            Some(e) => n > 0 && answers[n - 1] && e == entity_of(world, rows[n - 1]) && forall|i: int|
                0 <= i < n - 1 ==> !answers[i],
            None => n == rows.len() && forall|i: int| 0 <= i < n ==> !answers[i],
        }
}

/// Callback `f`, starting in state `f`, ended in state `last` after running once per row of
/// `rows`, in order, on each row's tuple.
pub open spec fn rows_visited_to<'w, V: 'w, F: FnMut(Vec<&'w V>)>(
    f: F,
    last: F,
    world: World<V>,
    terms: Seq<Term>,
    rows: Seq<(Option<usize>, int)>,
) -> bool {
    exists|states: Seq<F>, tuples: Seq<Vec<&'w V>>|
        each_chain(f, world, terms, rows, states, tuples) && states.last() == last
}

/// Callback `f`, starting in state `f`, ended in state `last` after running once per row of
/// `rows`, in order, on each row's entity and tuple.
pub open spec fn entity_rows_visited_to<'w, V: 'w, F: FnMut(Entity, Vec<&'w V>)>(
    f: F,
    last: F,
    world: World<V>,
    terms: Seq<Term>,
    rows: Seq<(Option<usize>, int)>,
) -> bool {
    exists|states: Seq<F>, args: Seq<(Entity, Vec<&'w V>)>|
        entity_chain(f, world, terms, rows, states, args) && states.last() == last
}

/// The cursor a per-row callback receives: positioned on the batch of `table`, not advanceable,
/// in per-row mode.
pub open spec fn row_cursor<'w, V>(it: Iter<'w, V, ()>, world: World<V>, terms: Seq<Term>, table: Option<usize>) -> bool {
    &&& it.wf()
    &&& !it.is_run
    &&& it.iter.valid
    &&& it.iter.each_mode
    &&& *it.iter.world == world
    &&& it.iter.terms@ == terms
    &&& it.iter.table == table
}

/// Callback `f` ran once per row of `rows`, in order, from state `states[i]`, on a cursor
/// positioned on the row's batch, the row index, and the row's tuple.
pub open spec fn iter_chain<'w, V: 'w, F: for<'a> FnMut(&'a Iter<'w, V, ()>, usize, Vec<&'w V>)>(
    f: F,
    world: World<V>,
    terms: Seq<Term>,
    rows: Seq<(Option<usize>, int)>,
    states: Seq<F>,
    args: Seq<(Iter<'w, V, ()>, usize, Vec<&'w V>)>,
) -> bool {
    &&& states.len() == rows.len() + 1
    &&& args.len() == rows.len()
    &&& states[0] == f
    &&& forall|i: int|
        0 <= i < rows.len() ==> row_cursor((#[trigger] args[i]).0, world, terms, rows[i].0)
            && args[i].1 == rows[i].1 && row_tuple(world, terms, rows[i].0, rows[i].1, args[i].2@)
            && call_ensures(states[i], (&args[i].0, args[i].1, args[i].2), ())
}

/// Callback `f` was invoked exactly on the rows `rows`, in order, with a cursor on the row's
/// batch, the row index and the row's tuple.
pub open spec fn iter_rows_visited<'w, V: 'w, F: for<'a> FnMut(&'a Iter<'w, V, ()>, usize, Vec<&'w V>)>(
    f: F,
    world: World<V>,
    terms: Seq<Term>,
    rows: Seq<(Option<usize>, int)>,
) -> bool {
    exists|states: Seq<F>, args: Seq<(Iter<'w, V, ()>, usize, Vec<&'w V>)>|
        iter_chain(f, world, terms, rows, states, args)
}

/// `fields` are the views of the batch of `table`, one per term, in term order.
pub open spec fn batch_fields<'w, V>(
    world: World<V>,
    terms: Seq<Term>,
    table: Option<usize>,
    count: nat,
    fields: Seq<Field<'w, V>>,
) -> bool {
    &&& fields.len() == terms.len()
    &&& forall|j: int|
        0 <= j < terms.len() ==> {
            &&& (#[trigger] fields[j]).wf()
            &&& fields[j].count_spec() == count
            &&& fields[j].is_shared_spec() == (terms[j].src != 0)
            &&& forall|row: nat|
                fields[j].row_ok(row) ==> #[trigger] fields[j].at(row) == term_value(
                    world,
                    terms[j],
                    table,
                    row as int,
                )
        }
}

/// Callback `f` ran once per batch of `batches`, in order, from state `states[i]`, on a cursor
/// positioned on the batch and the batch's field views.
pub open spec fn batch_chain<'w, V: 'w, F: for<'a> FnMut(&'a Iter<'w, V, ()>, Vec<Field<'w, V>>)>(
    f: F,
    world: World<V>,
    terms: Seq<Term>,
    batches: Seq<Option<usize>>,
    states: Seq<F>,
    args: Seq<(Iter<'w, V, ()>, Vec<Field<'w, V>>)>,
) -> bool {
    &&& states.len() == batches.len() + 1
    &&& args.len() == batches.len()
    &&& states[0] == f
    &&& forall|i: int|
        0 <= i < batches.len() ==> {
            &&& (#[trigger] args[i]).0.wf()
            &&& !args[i].0.is_run
            &&& args[i].0.iter.valid
            &&& !args[i].0.iter.each_mode
            &&& *args[i].0.iter.world == world
            &&& args[i].0.iter.terms@ == terms
            &&& args[i].0.iter.table == batches[i]
            &&& batch_fields(world, terms, batches[i], batch_rows(world, batches[i]), args[i].1@)
            &&& call_ensures(states[i], (&args[i].0, args[i].1), ())
        }
}

/// Callback `f` was invoked exactly once per batch of `batches`, in order.
pub open spec fn batches_visited<'w, V: 'w, F: for<'a> FnMut(&'a Iter<'w, V, ()>, Vec<Field<'w, V>>)>(
    f: F,
    world: World<V>,
    terms: Seq<Term>,
    batches: Seq<Option<usize>>,
) -> bool {
    exists|states: Seq<F>, args: Seq<(Iter<'w, V, ()>, Vec<Field<'w, V>>)>|
        batch_chain(f, world, terms, batches, states, args)
}

/// Predicate `f` ran on the first `n` rows of `rows`, in order, from state `states[i]`, on a
/// cursor on the row's batch, the row index and the row's tuple, and answered `answers[i]`.
pub open spec fn find_iter_chain<'w, V: 'w, F: for<'a> FnMut(&'a Iter<'w, V, ()>, usize, Vec<&'w V>) -> bool>(
    f: F,
    world: World<V>,
    terms: Seq<Term>,
    rows: Seq<(Option<usize>, int)>,
    n: int,
    states: Seq<F>,
    args: Seq<(Iter<'w, V, ()>, usize, Vec<&'w V>)>,
    answers: Seq<bool>,
) -> bool {
    &&& 0 <= n <= rows.len()
    &&& states.len() == n + 1
    &&& args.len() == n
    &&& answers.len() == n
    &&& states[0] == f
    &&& forall|i: int|
        0 <= i < n ==> row_cursor((#[trigger] args[i]).0, world, terms, rows[i].0) && args[i].1
            == rows[i].1 && row_tuple(world, terms, rows[i].0, rows[i].1, args[i].2@)
            && call_ensures(states[i], (&args[i].0, args[i].1, args[i].2), answers[i])
}

/// A search with predicate `f`, given a cursor, the row index and the tuple, over `rows` gave `r`.
pub open spec fn search_iter_result<'w, V: 'w, F: for<'a> FnMut(&'a Iter<'w, V, ()>, usize, Vec<&'w V>) -> bool>(
    f: F,
    world: World<V>,
    terms: Seq<Term>,
    rows: Seq<(Option<usize>, int)>,
    r: Option<Entity>,
) -> bool {
    exists|n: int, states: Seq<F>, args: Seq<(Iter<'w, V, ()>, usize, Vec<&'w V>)>, answers: Seq<bool>|
        #[trigger] find_iter_chain(f, world, terms, rows, n, states, args, answers) && match r {
            Some(e) => n > 0 && answers[n - 1] && e == entity_of(world, rows[n - 1]) && forall|i: int|
                0 <= i < n - 1 ==> !answers[i],
            None => n == rows.len() && forall|i: int| 0 <= i < n ==> !answers[i],
        }
}

/// Callback `f` ran once per term of `terms`, in order, from state `states[i]`.
pub open spec fn terms_visited<F: for<'a> FnMut(&'a Term)>(f: F, terms: Seq<Term>) -> bool {
    exists|states: Seq<F>|
        states.len() == terms.len() + 1 && states[0] == f && forall|i: int|
            0 <= i < terms.len() ==> call_ensures(#[trigger] states[i], (&terms[i],), ())
}

/// Every batch of `batches` has a table.
pub open spec fn all_tables(batches: Seq<Option<usize>>) -> bool {
    forall|b: int| 0 <= b < batches.len() ==> (#[trigger] batches[b]) is Some
}

/// The rows of the pass's first `b` batches followed by the first `r` rows of the next batch.
proof fn lemma_each_rows_step<V>(world: World<V>, batches: Seq<Option<usize>>, b: int)
    requires
        0 <= b < batches.len(),
    ensures
        each_rows(world, batches.take(b + 1)) == each_rows(world, batches.take(b)) + batch_seq(
            batches[b],
            each_count(world, batches[b]),
        ),
        table_rows(world, batches.take(b + 1)) == table_rows(world, batches.take(b)) + batch_seq(
            batches[b],
            batch_rows(world, batches[b]),
        ),
        total_rows(world, batches.take(b + 1)) == total_rows(world, batches.take(b)) + batch_rows(
            world,
            batches[b],
        ),
{
    assert(batches.take(b + 1).drop_last() =~= batches.take(b));
    assert(batches.take(b + 1).last() == batches[b]);
}

impl<'w, V> Filter<'w, V> {
    /// `it` is a cursor in run mode at the start of a pass of this query.
    pub open spec fn starts_pass<E>(&self, it: Iter<'w, V, E>) -> bool {
        &&& it.wf()
        &&& it.is_run
        &&& *it.iter.world == *self.world
        &&& it.iter.terms@ == self.terms@
        &&& it.iter.group_by == self.group_by
        &&& it.iter.batches@ == self.pass()
        &&& it.iter.next == 0
        &&& !it.iter.valid
        &&& !it.iter.each_mode
        &&& it.iter.no_locks()
    }

    /// A cursor in run mode at the start of a pass, carrying `each_fn`.
    fn start_run<E>(&self, each_fn: E) -> (r: Iter<'w, V, E>)
        requires
            self.wf(),
        ensures
            self.starts_pass(r),
            r.each_fn == each_fn,
    {
        let iter = self.retrieve_iter();
        proof {
            lemma_pass_of(*self.world, self.terms@, self.group_by, iter.batches@);
        }
        Iter::new(iter, true, each_fn)
    }

    /// Hands `func` a cursor in run mode at the start of a pass; `func` advances it with
    /// `next_iter` and reads each batch itself.
    pub fn run<F: FnMut(Iter<'w, V, ()>)>(&self, mut func: F)
        requires
            self.wf(),
            forall|g: F, it: Iter<'w, V, ()>| self.starts_pass(it) ==> call_requires(g, (it,)),
        ensures
            exists|it: Iter<'w, V, ()>| self.starts_pass(it) && call_ensures(func, (it,), ()),
    {
        let it = self.start_run(());
        let ghost it0 = it;
        func(it);
        assert(self.starts_pass(it0));
    }

    /// As `run`, with `func_each` as the per-row callback that the cursor's `each` forwards
    /// the rows of the current batch to.
    pub fn run_each<F, G>(&self, mut func: F, func_each: G)
        where
            F: FnMut(Iter<'w, V, EachForward<G>>),
            G: FnMut(Vec<&'w V>),
        requires
            self.wf(),
            forall|g: F, it: Iter<'w, V, EachForward<G>>|
                self.starts_pass(it) && it.each_fn == EachForward(func_each) ==> call_requires(
                    g,
                    (it,),
                ),
        ensures
            exists|it: Iter<'w, V, EachForward<G>>|
                self.starts_pass(it) && it.each_fn == EachForward(func_each) && call_ensures(
                    func,
                    (it,),
                    (),
                ),
    {
        let it = self.start_run(EachForward(func_each));
        let ghost it0 = it;
        func(it);
        assert(self.starts_pass(it0));
    }

    /// As `run`, with `func_each` as the per-row callback, given each row's entity, that the
    /// cursor's `each` forwards the rows of the current batch to.
    pub fn run_each_entity<F, G>(&self, mut func: F, func_each: G)
        where
            F: FnMut(Iter<'w, V, EachEntityForward<G>>),
            G: FnMut(Entity, Vec<&'w V>),
        requires
            self.wf(),
            forall|g: F, it: Iter<'w, V, EachEntityForward<G>>|
                self.starts_pass(it) && it.each_fn == EachEntityForward(func_each)
                    ==> call_requires(g, (it,)),
        ensures
            exists|it: Iter<'w, V, EachEntityForward<G>>|
                self.starts_pass(it) && it.each_fn == EachEntityForward(func_each) && call_ensures(
                    func,
                    (it,),
                    (),
                ),
    {
        let it = self.start_run(EachEntityForward(func_each));
        let ghost it0 = it;
        func(it);
        assert(self.starts_pass(it0));
    }

    /// The query as a human-readable expression of its terms.
    pub fn to_string(&self) -> (r: String)
        ensures
            r@ == query_text(self.terms@),
    {
        query_string(&self.terms)
    }

    /// Invokes `func` once per term, in order.
    pub fn each_term<F: for<'a> FnMut(&'a Term)>(&self, mut func: F)
        requires
            forall|g: F, t: &Term| call_requires(g, (t,)),
        ensures
            terms_visited(func, self.terms@),
    {
        let ghost f0 = func;
        let ghost mut states: Seq<F> = seq![func];
        let mut i: usize = 0;
        while i < self.terms.len()
            invariant
                i <= self.terms@.len(),
                forall|g: F, t: &Term| call_requires(g, (t,)),
                states.len() == i + 1,
                states[0] == f0,
                states.last() == func,
                forall|k: int| 0 <= k < i ==> call_ensures(#[trigger] states[k], (&self.terms@[k],), ()),
            decreases self.terms@.len() - i,
        {
            func(&self.terms[i]);
            proof {
                states = states.push(func);
            }
            i += 1;
        }
    }

    /// Term `index` of the query.
    pub fn term(&self, index: usize) -> (r: Term)
        requires
            index < self.terms@.len(),
        ensures
            r == self.terms@[index as int],
    {
        self.terms[index]
    }

    /// Number of fields the query's batches carry: one per term.
    pub fn field_count(&self) -> (r: usize)
        ensures
            r == self.terms@.len(),
    {
        self.terms.len()
    }

    /// Number of terms of the query.
    pub fn term_count(&self) -> (r: usize)
        ensures
            r == self.terms@.len(),
    {
        self.terms.len()
    }

    /// Total number of entities over the batches of a pass.
    pub fn count(&self) -> (r: usize)
        requires
            self.wf(),
            total_rows(*self.world, self.pass()) <= usize::MAX,
        ensures
            batch_order(*self.world, self.terms@, self.group_by, self.pass()),
            r == total_rows(*self.world, self.pass()),
    {
        let mut it = self.retrieve_iter();
        let ghost batches = it.batches@;
        proof {
            lemma_pass_of(*self.world, self.terms@, self.group_by, batches);
            assert(batches.take(0) =~= Seq::<Option<usize>>::empty());
        }
        let mut result: usize = 0;
        loop
            invariant
                it.wf(),
                it.no_locks(),
                it.batches@ == batches,
                *it.world == *self.world,
                batches == self.pass(),
                total_rows(*self.world, batches) <= usize::MAX,
                result == total_rows(*self.world, batches.take(it.next as int)),
            ensures
                it.next == batches.len(),
                result == total_rows(*self.world, batches.take(it.next as int)),
            decreases batches.len() - it.next,
        {
            let ghost b = it.next as int;
            if !self.iter_next(&mut it) {
                break;
            }
            proof {
                lemma_each_rows_step(*self.world, batches, b);
                lemma_total_prefix(*self.world, batches, b + 1);
            }
            result = result + it.count;
        }
        proof {
            assert(batches.take(batches.len() as int) =~= batches);
        }
        result
    }

    /// Whether a pass yields at least one batch.
    pub fn is_true(&self) -> (r: bool)
        requires
            self.wf(),
        ensures
            batch_order(*self.world, self.terms@, self.group_by, self.pass()),
            r == (self.pass().len() > 0),
    {
        let mut it = self.retrieve_iter();
        proof {
            lemma_pass_of(*self.world, self.terms@, self.group_by, it.batches@);
        }
        let result = self.iter_next(&mut it);
        if result {
            it.fini();
        }
        result
    }

    /// The first entity of the first batch, if that batch has one.
    pub fn first_entity(&self) -> (r: Option<Entity>)
        requires
            self.wf(),
        ensures
            batch_order(*self.world, self.terms@, self.group_by, self.pass()),
            r == (if self.pass().len() > 0 && batch_rows(*self.world, self.pass()[0]) > 0 {
                Some(self.world.tables@[self.pass()[0]->0 as int].entities@[0])
            } else {
                None
            }),
    {
        let mut it = self.retrieve_iter();
        proof {
            lemma_pass_of(*self.world, self.terms@, self.group_by, it.batches@);
        }
        if self.iter_next(&mut it) && it.count > 0 {
            let e = it.entity_at(0);
            it.fini();
            Some(e)
        } else {
            None
        }
    }

    /// Invokes `func` once per row of every batch of a pass, in order, with the row's tuple;
    /// a batch without a table counts as one row. Each batch's table is locked while its rows
    /// are visited.
    pub fn each<F: FnMut(Vec<&'w V>)>(&self, mut func: F)
        requires
            self.wf(),
            forall|g: F, t: Vec<&'w V>| call_requires(g, (t,)),
        ensures
            batch_order(*self.world, self.terms@, self.group_by, self.pass()),
            rows_visited(func, *self.world, self.terms@, each_rows(*self.world, self.pass())),
    {
        let ghost f0 = func;
        let mut it = self.retrieve_iter();
        it.each_mode = true;
        let ghost batches = it.batches@;
        let ghost world = *self.world;
        let ghost terms = self.terms@;
        let ghost mut states: Seq<F> = seq![func];
        let ghost mut tuples: Seq<Vec<&'w V>> = Seq::empty();
        proof {
            lemma_pass_of(world, terms, self.group_by, batches);
            assert(batches.take(0) =~= Seq::<Option<usize>>::empty());
        }
        loop
            invariant
                it.wf(),
                it.no_locks(),
                it.batches@ == batches,
                *it.world == world,
                it.terms@ == terms,
                batches == self.pass(),
                forall|g: F, t: Vec<&'w V>| call_requires(g, (t,)),
                states.last() == func,
                it.group_by == self.group_by,
                each_chain(f0, world, terms, each_rows(world, batches.take(it.next as int)), states, tuples),
            ensures
                it.next == batches.len(),
                each_chain(f0, world, terms, each_rows(world, batches.take(it.next as int)), states, tuples),
            decreases batches.len() - it.next,
        {
            let ghost b = it.next as int;
            let ghost done = each_rows(world, batches.take(b));
            if !self.iter_next(&mut it) {
                break;
            }
            let n: usize = if it.count == 0 && it.table.is_none() {
                1
            } else {
                it.count
            };
            proof {
                lemma_batch_tables(world, terms, self.group_by, batches, b);
                assert(n == each_count(world, batches[b]));
                lemma_each_rows_step(world, batches, b);
            }
            it.lock_table();
            let mut row: usize = 0;
            while row < n
                invariant
                    it.wf(),
                    it.valid,
                    it.batches@ == batches,
                    *it.world == world,
                    it.terms@ == terms,
                    it.next == b + 1,
                    it.table == batches[b],
                    n == each_count(world, batches[b]),
                    n == it.count || (it.table is None),
                    row <= n,
                    forall|g: F, t: Vec<&'w V>| call_requires(g, (t,)),
                    states.last() == func,
                    each_chain(f0, world, terms, done + batch_seq(batches[b], row as nat), states, tuples),
                decreases n - row,
            {
                let tuple = it.row_tuple(row);
                let ghost tv = tuple;
                let ghost before = func;
                func(tuple);
                proof {
                    let rows_before = done + batch_seq(batches[b], row as nat);
                    let rows_after = done + batch_seq(batches[b], (row + 1) as nat);
                    assert(rows_after =~= rows_before.push((batches[b], row as int)));
                    let states2 = states.push(func);
                    let tuples2 = tuples.push(tv);
                    assert forall|i: int| 0 <= i < rows_after.len() implies row_tuple(
                        world,
                        terms,
                        rows_after[i].0,
                        rows_after[i].1,
                        (#[trigger] tuples2[i])@,
                    ) && call_ensures(states2[i], (tuples2[i],), ()) by {
                        if i < rows_before.len() {
                            assert(tuples2[i] == tuples[i]);
                            assert(states2[i] == states[i]);
                        }
                    }
                    states = states2;
                    tuples = tuples2;
                }
                row += 1;
            }
            it.unlock_table();
            proof {
                assert(batch_seq(batches[b], n as nat) =~= batch_seq(batches[b], each_count(world, batches[b])));
            }
        }
        proof {
            assert(batches.take(batches.len() as int) =~= batches);
            assert(each_chain(f0, world, terms, each_rows(world, batches), states, tuples));
        }
    }

    /// Invokes `func` once per row of every batch of a pass, in order, with the row's entity and
    /// tuple. Every batch must have a table.
    pub fn each_entity<F: FnMut(Entity, Vec<&'w V>)>(&self, mut func: F)
        requires
            self.wf(),
            all_tables(self.pass()),
            forall|g: F, e: Entity, t: Vec<&'w V>| call_requires(g, (e, t)),
        ensures
            batch_order(*self.world, self.terms@, self.group_by, self.pass()),
            entity_rows_visited(func, *self.world, self.terms@, table_rows(*self.world, self.pass())),
    {
        let ghost f0 = func;
        let mut it = self.retrieve_iter();
        it.each_mode = true;
        let ghost batches = it.batches@;
        let ghost world = *self.world;
        let ghost terms = self.terms@;
        let ghost mut states: Seq<F> = seq![func];
        let ghost mut args: Seq<(Entity, Vec<&'w V>)> = Seq::empty();
        proof {
            lemma_pass_of(world, terms, self.group_by, batches);
            assert(batches.take(0) =~= Seq::<Option<usize>>::empty());
        }
        loop
            invariant
                it.wf(),
                it.no_locks(),
                it.batches@ == batches,
                *it.world == world,
                it.terms@ == terms,
                it.group_by == self.group_by,
                batches == self.pass(),
                all_tables(batches),
                forall|g: F, e: Entity, t: Vec<&'w V>| call_requires(g, (e, t)),
                states.last() == func,
                entity_chain(f0, world, terms, table_rows(world, batches.take(it.next as int)), states, args),
            ensures
                it.next == batches.len(),
                entity_chain(f0, world, terms, table_rows(world, batches.take(it.next as int)), states, args),
            decreases batches.len() - it.next,
        {
            let ghost b = it.next as int;
            let ghost done = table_rows(world, batches.take(b));
            if !self.iter_next(&mut it) {
                break;
            }
            let n: usize = it.count;
            proof {
                assert(batches[b] is Some);
                lemma_each_rows_step(world, batches, b);
            }
            it.lock_table();
            let mut row: usize = 0;
            while row < n
                invariant
                    it.wf(),
                    it.valid,
                    it.batches@ == batches,
                    *it.world == world,
                    it.terms@ == terms,
                    it.next == b + 1,
                    it.table == batches[b],
                    batches[b] is Some,
                    n == it.count,
                    n == batch_rows(world, batches[b]),
                    row <= n,
                    forall|g: F, e: Entity, t: Vec<&'w V>| call_requires(g, (e, t)),
                    states.last() == func,
                    entity_chain(f0, world, terms, done + batch_seq(batches[b], row as nat), states, args),
                decreases n - row,
            {
                let e = it.entity_at(row);
                let tuple = it.row_tuple(row);
                let ghost tv = tuple;
                func(e, tuple);
                proof {
                    let rows_before = done + batch_seq(batches[b], row as nat);
                    let rows_after = done + batch_seq(batches[b], (row + 1) as nat);
                    assert(rows_after =~= rows_before.push((batches[b], row as int)));
                    let states2 = states.push(func);
                    let args2 = args.push((e, tv));
                    assert forall|i: int| 0 <= i < rows_after.len() implies (#[trigger] args2[i]).0
                        == entity_of(world, rows_after[i]) && row_tuple(
                        world,
                        terms,
                        rows_after[i].0,
                        rows_after[i].1,
                        args2[i].1@,
                    ) && call_ensures(states2[i], (args2[i].0, args2[i].1), ()) by {
                        if i < rows_before.len() {
                            assert(args2[i] == args[i]);
                            assert(states2[i] == states[i]);
                        }
                    }
                    states = states2;
                    args = args2;
                }
                row += 1;
            }
            it.unlock_table();
        }
        proof {
            assert(batches.take(batches.len() as int) =~= batches);
        }
    }

    /// As `each`, and the callback also receives a cursor on the current batch (which it cannot
    /// advance) and the row index.
    pub fn each_iter<F: for<'a> FnMut(&'a Iter<'w, V, ()>, usize, Vec<&'w V>)>(&self, mut func: F)
        requires
            self.wf(),
            forall|g: F, it: &Iter<'w, V, ()>, row: usize, t: Vec<&'w V>| call_requires(g, (it, row, t)),
        ensures
            batch_order(*self.world, self.terms@, self.group_by, self.pass()),
            iter_rows_visited(func, *self.world, self.terms@, each_rows(*self.world, self.pass())),
    {
        let ghost f0 = func;
        let mut it = Iter::new(self.retrieve_iter(), false, ());
        it.iter.each_mode = true;
        let ghost batches = it.iter.batches@;
        let ghost world = *self.world;
        let ghost terms = self.terms@;
        let ghost mut states: Seq<F> = seq![func];
        let ghost mut args: Seq<(Iter<'w, V, ()>, usize, Vec<&'w V>)> = Seq::empty();
        proof {
            lemma_pass_of(world, terms, self.group_by, batches);
            assert(batches.take(0) =~= Seq::<Option<usize>>::empty());
        }
        loop
            invariant
                it.iter.wf(),
                it.iter.no_locks(),
                it.iter.each_mode,
                !it.is_run,
                it.iter.batches@ == batches,
                *it.iter.world == world,
                it.iter.terms@ == terms,
                it.iter.group_by == self.group_by,
                batches == self.pass(),
                forall|g: F, i: &Iter<'w, V, ()>, row: usize, t: Vec<&'w V>| call_requires(g, (i, row, t)),
                states.last() == func,
                iter_chain(f0, world, terms, each_rows(world, batches.take(it.iter.next as int)), states, args),
            ensures
                it.iter.next == batches.len(),
                iter_chain(f0, world, terms, each_rows(world, batches.take(it.iter.next as int)), states, args),
            decreases batches.len() - it.iter.next,
        {
            let ghost b = it.iter.next as int;
            let ghost done = each_rows(world, batches.take(b));
            if !self.iter_next(&mut it.iter) {
                break;
            }
            let n: usize = if it.iter.count == 0 && it.iter.table.is_none() {
                1
            } else {
                it.iter.count
            };
            proof {
                lemma_batch_tables(world, terms, self.group_by, batches, b);
                lemma_each_rows_step(world, batches, b);
            }
            it.iter.lock_table();
            let mut row: usize = 0;
            while row < n
                invariant
                    it.iter.wf(),
                    it.iter.valid,
                    it.iter.each_mode,
                    !it.is_run,
                    it.iter.batches@ == batches,
                    *it.iter.world == world,
                    it.iter.terms@ == terms,
                    it.iter.next == b + 1,
                    it.iter.table == batches[b],
                    n == each_count(world, batches[b]),
                    n == it.iter.count || (it.iter.table is None),
                    row <= n,
                    forall|g: F, i: &Iter<'w, V, ()>, row: usize, t: Vec<&'w V>| call_requires(g, (i, row, t)),
                    states.last() == func,
                    iter_chain(f0, world, terms, done + batch_seq(batches[b], row as nat), states, args),
                decreases n - row,
            {
                let tuple = it.iter.row_tuple(row);
                let ghost tv = tuple;
                func(&it, row, tuple);
                proof {
                    let rows_before = done + batch_seq(batches[b], row as nat);
                    let rows_after = done + batch_seq(batches[b], (row + 1) as nat);
                    assert(rows_after =~= rows_before.push((batches[b], row as int)));
                    let states2 = states.push(func);
                    let args2 = args.push((it, row, tv));
                    assert forall|i: int| 0 <= i < rows_after.len() implies row_cursor(
                        (#[trigger] args2[i]).0,
                        world,
                        terms,
                        rows_after[i].0,
                    ) && args2[i].1 == rows_after[i].1 && row_tuple(
                        world,
                        terms,
                        rows_after[i].0,
                        rows_after[i].1,
                        args2[i].2@,
                    ) && call_ensures(states2[i], (&args2[i].0, args2[i].1, args2[i].2), ()) by {
                        if i < rows_before.len() {
                            assert(args2[i] == args[i]);
                            assert(states2[i] == states[i]);
                        }
                    }
                    states = states2;
                    args = args2;
                }
                row += 1;
            }
            it.iter.unlock_table();
        }
        proof {
            assert(batches.take(batches.len() as int) =~= batches);
        }
    }

    /// Invokes `func` once per batch of a pass, in order, with a cursor on the batch (which it
    /// cannot advance) and the batch's field views, one per term. The batch's table is locked
    /// during the call.
    pub fn run_iter<F: for<'a> FnMut(&'a Iter<'w, V, ()>, Vec<Field<'w, V>>)>(&self, mut func: F)
        requires
            self.wf(),
            forall|g: F, it: &Iter<'w, V, ()>, f: Vec<Field<'w, V>>| call_requires(g, (it, f)),
        ensures
            batch_order(*self.world, self.terms@, self.group_by, self.pass()),
            batches_visited(func, *self.world, self.terms@, self.pass()),
    {
        let ghost f0 = func;
        let mut it = Iter::new(self.retrieve_iter(), false, ());
        let ghost batches = it.iter.batches@;
        let ghost world = *self.world;
        let ghost terms = self.terms@;
        let ghost mut states: Seq<F> = seq![func];
        let ghost mut args: Seq<(Iter<'w, V, ()>, Vec<Field<'w, V>>)> = Seq::empty();
        proof {
            lemma_pass_of(world, terms, self.group_by, batches);
        }
        loop
            invariant
                it.iter.wf(),
                it.iter.no_locks(),
                !it.iter.each_mode,
                !it.is_run,
                it.iter.batches@ == batches,
                *it.iter.world == world,
                it.iter.terms@ == terms,
                it.iter.group_by == self.group_by,
                batches == self.pass(),
                forall|g: F, i: &Iter<'w, V, ()>, f: Vec<Field<'w, V>>| call_requires(g, (i, f)),
                states.last() == func,
                batch_chain(f0, world, terms, batches.take(it.iter.next as int), states, args),
            ensures
                it.iter.next == batches.len(),
                batch_chain(f0, world, terms, batches.take(it.iter.next as int), states, args),
            decreases batches.len() - it.iter.next,
        {
            let ghost b = it.iter.next as int;
            if !self.iter_next(&mut it.iter) {
                break;
            }
            it.iter.lock_table();
            let mut fields: Vec<Field<'w, V>> = Vec::new();
            let mut j: usize = 0;
            while j < it.iter.terms.len()
                invariant
                    it.iter.wf(),
                    it.iter.valid,
                    *it.iter.world == world,
                    it.iter.terms@ == terms,
                    j <= terms.len(),
                    fields@.len() == j,
                    forall|k: int|
                        0 <= k < j ==> {
                            &&& (#[trigger] fields@[k]).wf()
                            &&& fields@[k].count_spec() == it.iter.count
                            &&& fields@[k].is_shared_spec() == (terms[k].src != 0)
                            &&& forall|row: nat|
                                fields@[k].row_ok(row) ==> #[trigger] fields@[k].at(row) == term_value(
                                    world,
                                    terms[k],
                                    it.iter.table,
                                    row as int,
                                )
                        },
                decreases terms.len() - j,
            {
                fields.push(it.iter.field_view(j));
                j += 1;
            }
            let ghost fv = fields;
            func(&it, fields);
            proof {
                let states2 = states.push(func);
                let args2 = args.push((it, fv));
                let bs = batches.take(b + 1);
                assert(bs[b] == batches[b]);
                assert forall|i: int| 0 <= i < bs.len() implies {
                    &&& (#[trigger] args2[i]).0.wf()
                    &&& !args2[i].0.is_run
                    &&& args2[i].0.iter.valid
                    &&& !args2[i].0.iter.each_mode
                    &&& *args2[i].0.iter.world == world
                    &&& args2[i].0.iter.terms@ == terms
                    &&& args2[i].0.iter.table == bs[i]
                    &&& batch_fields(world, terms, bs[i], batch_rows(world, bs[i]), args2[i].1@)
                    &&& call_ensures(states2[i], (&args2[i].0, args2[i].1), ())
                } by {
                    if i < b {
                        assert(args2[i] == args[i]);
                        assert(states2[i] == states[i]);
                        assert(bs[i] == batches.take(b)[i]);
                    }
                }
                states = states2;
                args = args2;
            }
            it.iter.unlock_table();
        }
        proof {
            assert(batches.take(batches.len() as int) =~= batches);
        }
    }

    /// Asks `func` about each row of a pass, in order, with the row's tuple, and stops at the
    /// first row for which it answers true: that row's entity, or `None` when there is none.
    pub fn find<F: FnMut(Vec<&'w V>) -> bool>(&self, mut func: F) -> (r: Option<Entity>)
        requires
            self.wf(),
            forall|g: F, t: Vec<&'w V>| call_requires(g, (t,)),
        ensures
            batch_order(*self.world, self.terms@, self.group_by, self.pass()),
            search_result(func, *self.world, self.terms@, table_rows(*self.world, self.pass()), r),
    {
        let ghost f0 = func;
        let mut it = self.retrieve_iter();
        let ghost batches = it.batches@;
        let ghost world = *self.world;
        let ghost terms = self.terms@;
        let ghost all_rows = table_rows(world, batches);
        let ghost mut states: Seq<F> = seq![func];
        let ghost mut tuples: Seq<Vec<&'w V>> = Seq::empty();
        let ghost mut answers: Seq<bool> = Seq::empty();
        let ghost mut hit_at: int = 0;
        let mut result: Option<Entity> = None;
        proof {
            lemma_pass_of(world, terms, self.group_by, batches);
            assert(batches.take(0) =~= Seq::<Option<usize>>::empty());
            lemma_rows_prefix(world, batches, 0);
        }
        loop
            invariant_except_break
                result.is_none(),
                table_rows(world, batches.take(it.next as int)).len() <= all_rows.len(),
                table_rows(world, batches.take(it.next as int)) =~= all_rows.subrange(
                    0,
                    table_rows(world, batches.take(it.next as int)).len() as int,
                ),
                find_chain(f0, world, terms, all_rows, table_rows(world, batches.take(it.next as int)).len() as int, states, tuples, answers),
                forall|i: int| 0 <= i < answers.len() ==> !answers[i],
            invariant
                it.wf(),
                it.no_locks(),
                it.batches@ == batches,
                *it.world == world,
                it.terms@ == terms,
                it.group_by == self.group_by,
                all_rows == table_rows(world, batches),
                forall|g: F, t: Vec<&'w V>| call_requires(g, (t,)),
                states.last() == func,
            ensures
                result.is_none() ==> find_chain(f0, world, terms, all_rows, all_rows.len() as int, states, tuples, answers)
                    && forall|i: int| 0 <= i < answers.len() ==> !answers[i],
                result matches Some(e) ==> 0 <= hit_at && find_chain(f0, world, terms, all_rows, hit_at + 1, states, tuples, answers)
                    && answers[hit_at] && e == entity_of(world, all_rows[hit_at])
                    && forall|i: int| 0 <= i < hit_at ==> !answers[i],
            decreases batches.len() - it.next,
        {
            let ghost b = it.next as int;
            let ghost done = table_rows(world, batches.take(b));
            if !self.iter_next(&mut it) {
                proof {
                    assert(batches.take(batches.len() as int) =~= batches);
                }
                break;
            }
            let n: usize = it.count;
            proof {
                lemma_batch_tables(world, terms, self.group_by, batches, b);
                lemma_each_rows_step(world, batches, b);
                lemma_rows_prefix(world, batches, b + 1);
            }
            it.lock_table();
            let mut row: usize = 0;
            let mut hit: Option<Entity> = None;
            while row < n
                invariant_except_break
                    hit.is_none(),
                    find_chain(f0, world, terms, all_rows, done.len() + row, states, tuples, answers),
                    forall|i: int| 0 <= i < answers.len() ==> !answers[i],
                invariant
                    it.wf(),
                    it.valid,
                    it.batches@ == batches,
                    *it.world == world,
                    it.terms@ == terms,
                    it.group_by == self.group_by,
                    it.next == b + 1,
                    it.table == batches[b],
                    all_rows == table_rows(world, batches),
                    n == it.count,
                    n == batch_rows(world, batches[b]),
                    row <= n,
                    table_rows(world, batches.take(b + 1)) == done + batch_seq(batches[b], n as nat),
                    table_rows(world, batches.take(b + 1)).len() <= all_rows.len(),
                    table_rows(world, batches.take(b + 1)) =~= all_rows.subrange(
                        0,
                        table_rows(world, batches.take(b + 1)).len() as int,
                    ),
                    forall|g: F, t: Vec<&'w V>| call_requires(g, (t,)),
                    states.last() == func,
                ensures
                    hit.is_none() ==> row == n && find_chain(f0, world, terms, all_rows, done.len() + n, states, tuples, answers)
                        && forall|i: int| 0 <= i < answers.len() ==> !answers[i],
                    hit matches Some(e) ==> 0 <= hit_at && find_chain(f0, world, terms, all_rows, hit_at + 1, states, tuples, answers)
                        && answers[hit_at] && e == entity_of(world, all_rows[hit_at])
                        && forall|i: int| 0 <= i < hit_at ==> !answers[i],
                decreases n - row,
            {
                let tuple = it.row_tuple(row);
                let ghost tv = tuple;
                let found = func(tuple);
                let ghost k = done.len() + row;
                proof {
                    assert(all_rows[k] == (batches[b], row as int)) by {
                        let pre = table_rows(world, batches.take(b + 1));
                        assert(pre.len() == done.len() + n);
                        assert(pre[k] == batch_seq(batches[b], n as nat)[row as int]);
                        assert(pre[k] == all_rows.subrange(0, pre.len() as int)[k]);
                    }
                    let states2 = states.push(func);
                    let tuples2 = tuples.push(tv);
                    let answers2 = answers.push(found);
                    assert forall|i: int| 0 <= i < k + 1 implies row_tuple(
                        world,
                        terms,
                        all_rows[i].0,
                        all_rows[i].1,
                        (#[trigger] tuples2[i])@,
                    ) && call_ensures(states2[i], (tuples2[i],), answers2[i]) by {
                        if i < k {
                            assert(tuples2[i] == tuples[i]);
                            assert(states2[i] == states[i]);
                            assert(answers2[i] == answers[i]);
                        }
                    }
                    states = states2;
                    tuples = tuples2;
                    answers = answers2;
                    assert(find_chain(f0, world, terms, all_rows, k + 1, states, tuples, answers));
                }
                if found {
                    let e = it.entity_at(row);
                    proof {
                        hit_at = k;
                        assert(e == entity_of(world, all_rows[k]));
                    }
                    hit = Some(e);
                    break;
                }
                row += 1;
            }
            it.unlock_table();
            if hit.is_some() {
                it.fini();
                result = hit;
                break;
            }
        }
        proof {
            if let Some(e) = result {
                assert(find_chain(f0, world, terms, all_rows, hit_at + 1, states, tuples, answers)
                    && hit_at + 1 > 0 && answers[hit_at + 1 - 1] && e == entity_of(world, all_rows[hit_at + 1 - 1])
                    && forall|i: int| 0 <= i < hit_at + 1 - 1 ==> !answers[i]);
            } else {
                assert(find_chain(f0, world, terms, all_rows, all_rows.len() as int, states, tuples, answers));
            }
        }
        result
    }

    /// Asks `func` about each row of a pass, in order, with the row's entity and tuple, and stops
    /// at the first row for which it answers true: that row's entity, or `None` when there is none.
    pub fn find_entity<F: FnMut(Entity, Vec<&'w V>) -> bool>(&self, mut func: F) -> (r: Option<Entity>)
        requires
            self.wf(),
            forall|g: F, e: Entity, t: Vec<&'w V>| call_requires(g, (e, t)),
        ensures
            batch_order(*self.world, self.terms@, self.group_by, self.pass()),
            search_entity_result(func, *self.world, self.terms@, table_rows(*self.world, self.pass()), r),
    {
        let ghost f0 = func;
        let mut it = self.retrieve_iter();
        let ghost batches = it.batches@;
        let ghost world = *self.world;
        let ghost terms = self.terms@;
        let ghost all_rows = table_rows(world, batches);
        let ghost mut states: Seq<F> = seq![func];
        let ghost mut args: Seq<(Entity, Vec<&'w V>)> = Seq::empty();
        let ghost mut answers: Seq<bool> = Seq::empty();
        let ghost mut hit_at: int = 0;
        let mut result: Option<Entity> = None;
        proof {
            lemma_pass_of(world, terms, self.group_by, batches);
            assert(batches.take(0) =~= Seq::<Option<usize>>::empty());
            lemma_rows_prefix(world, batches, 0);
        }
        loop
            invariant_except_break
                result.is_none(),
                table_rows(world, batches.take(it.next as int)).len() <= all_rows.len(),
                table_rows(world, batches.take(it.next as int)) =~= all_rows.subrange(
                    0,
                    table_rows(world, batches.take(it.next as int)).len() as int,
                ),
                find_entity_chain(f0, world, terms, all_rows, table_rows(world, batches.take(it.next as int)).len() as int, states, args, answers),
                forall|i: int| 0 <= i < answers.len() ==> !answers[i],
            invariant
                it.wf(),
                it.no_locks(),
                it.batches@ == batches,
                *it.world == world,
                it.terms@ == terms,
                it.group_by == self.group_by,
                all_rows == table_rows(world, batches),
                forall|g: F, e: Entity, t: Vec<&'w V>| call_requires(g, (e, t)),
                states.last() == func,
            ensures
                result.is_none() ==> find_entity_chain(f0, world, terms, all_rows, all_rows.len() as int, states, args, answers)
                    && forall|i: int| 0 <= i < answers.len() ==> !answers[i],
                result matches Some(e) ==> 0 <= hit_at && find_entity_chain(f0, world, terms, all_rows, hit_at + 1, states, args, answers)
                    && answers[hit_at] && e == entity_of(world, all_rows[hit_at])
                    && forall|i: int| 0 <= i < hit_at ==> !answers[i],
            decreases batches.len() - it.next,
        {
            let ghost b = it.next as int;
            let ghost done = table_rows(world, batches.take(b));
            if !self.iter_next(&mut it) {
                proof {
                    assert(batches.take(batches.len() as int) =~= batches);
                }
                break;
            }
            let n: usize = it.count;
            proof {
                lemma_batch_tables(world, terms, self.group_by, batches, b);
                lemma_each_rows_step(world, batches, b);
                lemma_rows_prefix(world, batches, b + 1);
            }
            it.lock_table();
            let mut row: usize = 0;
            let mut hit: Option<Entity> = None;
            while row < n
                invariant_except_break
                    hit.is_none(),
                    find_entity_chain(f0, world, terms, all_rows, done.len() + row, states, args, answers),
                    forall|i: int| 0 <= i < answers.len() ==> !answers[i],
                invariant
                    it.wf(),
                    it.valid,
                    it.batches@ == batches,
                    *it.world == world,
                    it.terms@ == terms,
                    it.group_by == self.group_by,
                    it.next == b + 1,
                    it.table == batches[b],
                    all_rows == table_rows(world, batches),
                    n == it.count,
                    n == batch_rows(world, batches[b]),
                    row <= n,
                    table_rows(world, batches.take(b + 1)) == done + batch_seq(batches[b], n as nat),
                    table_rows(world, batches.take(b + 1)).len() <= all_rows.len(),
                    table_rows(world, batches.take(b + 1)) =~= all_rows.subrange(
                        0,
                        table_rows(world, batches.take(b + 1)).len() as int,
                    ),
                    forall|g: F, e: Entity, t: Vec<&'w V>| call_requires(g, (e, t)),
                    states.last() == func,
                ensures
                    hit.is_none() ==> row == n && find_entity_chain(f0, world, terms, all_rows, done.len() + n, states, args, answers)
                        && forall|i: int| 0 <= i < answers.len() ==> !answers[i],
                    hit matches Some(e) ==> 0 <= hit_at && find_entity_chain(f0, world, terms, all_rows, hit_at + 1, states, args, answers)
                        && answers[hit_at] && e == entity_of(world, all_rows[hit_at])
                        && forall|i: int| 0 <= i < hit_at ==> !answers[i],
                decreases n - row,
            {
                let ent = it.entity_at(row);
                let tuple = it.row_tuple(row);
                let ghost tv = tuple;
                let found = func(ent, tuple);
                let ghost k = done.len() + row;
                proof {
                    assert(all_rows[k] == (batches[b], row as int)) by {
                        let pre = table_rows(world, batches.take(b + 1));
                        assert(pre.len() == done.len() + n);
                        assert(pre[k] == batch_seq(batches[b], n as nat)[row as int]);
                        assert(pre[k] == all_rows.subrange(0, pre.len() as int)[k]);
                    }
                    let states2 = states.push(func);
                    let args2 = args.push((ent, tv));
                    let answers2 = answers.push(found);
                    assert forall|i: int| 0 <= i < k + 1 implies (#[trigger] args2[i]).0 == entity_of(
                        world,
                        all_rows[i],
                    ) && row_tuple(
                        world,
                        terms,
                        all_rows[i].0,
                        all_rows[i].1,
                        args2[i].1@,
                    ) && call_ensures(states2[i], (args2[i].0, args2[i].1), answers2[i]) by {
                        if i < k {
                            assert(args2[i] == args[i]);
                            assert(states2[i] == states[i]);
                            assert(answers2[i] == answers[i]);
                        }
                    }
                    states = states2;
                    args = args2;
                    answers = answers2;
                    assert(find_entity_chain(f0, world, terms, all_rows, k + 1, states, args, answers));
                }
                if found {
                    proof {
                        hit_at = k;
                    }
                    hit = Some(ent);
                    break;
                }
                row += 1;
            }
            it.unlock_table();
            if hit.is_some() {
                it.fini();
                result = hit;
                break;
            }
        }
        proof {
            if let Some(e) = result {
                assert(find_entity_chain(f0, world, terms, all_rows, hit_at + 1, states, args, answers)
                    && hit_at + 1 > 0 && answers[hit_at + 1 - 1] && e == entity_of(world, all_rows[hit_at + 1 - 1])
                    && forall|i: int| 0 <= i < hit_at + 1 - 1 ==> !answers[i]);
            } else {
                assert(find_entity_chain(f0, world, terms, all_rows, all_rows.len() as int, states, args, answers));
            }
        }
        result
    }

    /// Asks `func` about each row of a pass, in order, with a cursor on the row's batch (which it
    /// cannot advance), the row index and the row's tuple, and stops at the first row for which
    /// it answers true: that row's entity, or `None` when there is none.
    pub fn find_iter<F: for<'a> FnMut(&'a Iter<'w, V, ()>, usize, Vec<&'w V>) -> bool>(&self, mut func: F) -> (r: Option<Entity>)
        requires
            self.wf(),
            forall|g: F, i: &Iter<'w, V, ()>, row: usize, t: Vec<&'w V>| call_requires(g, (i, row, t)),
        ensures
            batch_order(*self.world, self.terms@, self.group_by, self.pass()),
            search_iter_result(func, *self.world, self.terms@, table_rows(*self.world, self.pass()), r),
    {
        let ghost f0 = func;
        let mut it = Iter::new(self.retrieve_iter(), false, ());
        it.iter.each_mode = true;
        let ghost batches = it.iter.batches@;
        let ghost world = *self.world;
        let ghost terms = self.terms@;
        let ghost all_rows = table_rows(world, batches);
        let ghost mut states: Seq<F> = seq![func];
        let ghost mut args: Seq<(Iter<'w, V, ()>, usize, Vec<&'w V>)> = Seq::empty();
        let ghost mut answers: Seq<bool> = Seq::empty();
        let ghost mut hit_at: int = 0;
        let mut result: Option<Entity> = None;
        proof {
            lemma_pass_of(world, terms, self.group_by, batches);
            assert(batches.take(0) =~= Seq::<Option<usize>>::empty());
            lemma_rows_prefix(world, batches, 0);
        }
        loop
            invariant_except_break
                result.is_none(),
                table_rows(world, batches.take(it.iter.next as int)).len() <= all_rows.len(),
                table_rows(world, batches.take(it.iter.next as int)) =~= all_rows.subrange(
                    0,
                    table_rows(world, batches.take(it.iter.next as int)).len() as int,
                ),
                find_iter_chain(f0, world, terms, all_rows, table_rows(world, batches.take(it.iter.next as int)).len() as int, states, args, answers),
                forall|i: int| 0 <= i < answers.len() ==> !answers[i],
            invariant
                it.iter.wf(),
                it.iter.no_locks(),
                it.iter.each_mode,
                !it.is_run,
                it.iter.batches@ == batches,
                *it.iter.world == world,
                it.iter.terms@ == terms,
                it.iter.group_by == self.group_by,
                all_rows == table_rows(world, batches),
                forall|g: F, i: &Iter<'w, V, ()>, row: usize, t: Vec<&'w V>| call_requires(g, (i, row, t)),
                states.last() == func,
            ensures
                result.is_none() ==> find_iter_chain(f0, world, terms, all_rows, all_rows.len() as int, states, args, answers)
                    && forall|i: int| 0 <= i < answers.len() ==> !answers[i],
                result matches Some(e) ==> 0 <= hit_at && find_iter_chain(f0, world, terms, all_rows, hit_at + 1, states, args, answers)
                    && answers[hit_at] && e == entity_of(world, all_rows[hit_at])
                    && forall|i: int| 0 <= i < hit_at ==> !answers[i],
            decreases batches.len() - it.iter.next,
        {
            let ghost b = it.iter.next as int;
            let ghost done = table_rows(world, batches.take(b));
            if !self.iter_next(&mut it.iter) {
                proof {
                    assert(batches.take(batches.len() as int) =~= batches);
                }
                break;
            }
            let n: usize = it.iter.count;
            proof {
                lemma_batch_tables(world, terms, self.group_by, batches, b);
                lemma_each_rows_step(world, batches, b);
                lemma_rows_prefix(world, batches, b + 1);
            }
            it.iter.lock_table();
            let mut row: usize = 0;
            let mut hit: Option<Entity> = None;
            while row < n
                invariant_except_break
                    hit.is_none(),
                    find_iter_chain(f0, world, terms, all_rows, done.len() + row, states, args, answers),
                    forall|i: int| 0 <= i < answers.len() ==> !answers[i],
                invariant
                    it.iter.wf(),
                    it.iter.valid,
                    it.iter.each_mode,
                    !it.is_run,
                    it.iter.batches@ == batches,
                    *it.iter.world == world,
                    it.iter.terms@ == terms,
                    it.iter.group_by == self.group_by,
                    it.iter.next == b + 1,
                    it.iter.table == batches[b],
                    all_rows == table_rows(world, batches),
                    n == it.iter.count,
                    n == batch_rows(world, batches[b]),
                    row <= n,
                    table_rows(world, batches.take(b + 1)) == done + batch_seq(batches[b], n as nat),
                    table_rows(world, batches.take(b + 1)).len() <= all_rows.len(),
                    table_rows(world, batches.take(b + 1)) =~= all_rows.subrange(
                        0,
                        table_rows(world, batches.take(b + 1)).len() as int,
                    ),
                    forall|g: F, i: &Iter<'w, V, ()>, row: usize, t: Vec<&'w V>| call_requires(g, (i, row, t)),
                    states.last() == func,
                ensures
                    hit.is_none() ==> row == n && find_iter_chain(f0, world, terms, all_rows, done.len() + n, states, args, answers)
                        && forall|i: int| 0 <= i < answers.len() ==> !answers[i],
                    hit matches Some(e) ==> 0 <= hit_at && find_iter_chain(f0, world, terms, all_rows, hit_at + 1, states, args, answers)
                        && answers[hit_at] && e == entity_of(world, all_rows[hit_at])
                        && forall|i: int| 0 <= i < hit_at ==> !answers[i],
                decreases n - row,
            {
                let ent = it.iter.entity_at(row);
                let tuple = it.iter.row_tuple(row);
                let ghost tv = tuple;
                let found = func(&it, row, tuple);
                let ghost k = done.len() + row;
                proof {
                    assert(all_rows[k] == (batches[b], row as int)) by {
                        let pre = table_rows(world, batches.take(b + 1));
                        assert(pre.len() == done.len() + n);
                        assert(pre[k] == batch_seq(batches[b], n as nat)[row as int]);
                        assert(pre[k] == all_rows.subrange(0, pre.len() as int)[k]);
                    }
                    let states2 = states.push(func);
                    let args2 = args.push((it, row, tv));
                    let answers2 = answers.push(found);
                    assert forall|i: int| 0 <= i < k + 1 implies row_cursor(
                        (#[trigger] args2[i]).0,
                        world,
                        terms,
                        all_rows[i].0,
                    ) && args2[i].1 == all_rows[i].1 && row_tuple(
                        world,
                        terms,
                        all_rows[i].0,
                        all_rows[i].1,
                        args2[i].2@,
                    ) && call_ensures(states2[i], (&args2[i].0, args2[i].1, args2[i].2), answers2[i]) by {
                        if i < k {
                            assert(args2[i] == args[i]);
                            assert(states2[i] == states[i]);
                            assert(answers2[i] == answers[i]);
                        }
                    }
                    states = states2;
                    args = args2;
                    answers = answers2;
                    assert(find_iter_chain(f0, world, terms, all_rows, k + 1, states, args, answers));
                }
                if found {
                    proof {
                        hit_at = k;
                    }
                    hit = Some(ent);
                    break;
                }
                row += 1;
            }
            it.iter.unlock_table();
            if hit.is_some() {
                it.iter.fini();
                result = hit;
                break;
            }
        }
        proof {
            if let Some(e) = result {
                assert(find_iter_chain(f0, world, terms, all_rows, hit_at + 1, states, args, answers)
                    && hit_at + 1 > 0 && answers[hit_at + 1 - 1] && e == entity_of(world, all_rows[hit_at + 1 - 1])
                    && forall|i: int| 0 <= i < hit_at + 1 - 1 ==> !answers[i]);
            } else {
                assert(find_iter_chain(f0, world, terms, all_rows, all_rows.len() as int, states, args, answers));
            }
        }
        result
    }
}

impl<'w, V, E: FnMut(Vec<&'w V>)> Iter<'w, V, EachForward<E>> {
    /// Forwards every row of the current batch, in order, to the per-row callback.
    pub fn each(&mut self)
        requires
            old(self).wf(),
            old(self).iter.valid,
            forall|g: E, t: Vec<&'w V>| call_requires(g, (t,)),
        ensures
            final(self).iter == old(self).iter,
            final(self).is_run == old(self).is_run,
            rows_visited_to(
                old(self).each_fn.0,
                final(self).each_fn.0,
                *old(self).iter.world,
                old(self).iter.terms@,
                batch_seq(old(self).iter.table, old(self).iter.count as nat),
            ),
    {
        let ghost f0 = self.each_fn.0;
        let ghost world = *self.iter.world;
        let ghost terms = self.iter.terms@;
        let ghost table = self.iter.table;
        let ghost it0 = self.iter;
        let ghost run0 = self.is_run;
        let n = self.iter.count;
        let ghost mut states: Seq<E> = seq![self.each_fn.0];
        let ghost mut tuples: Seq<Vec<&'w V>> = Seq::empty();
        let mut row: usize = 0;
        while row < n
            invariant
                self.iter.wf(),
                self.iter.valid,
                n == self.iter.count,
                *self.iter.world == world,
                self.iter.terms@ == terms,
                self.iter.table == table,
                self.iter == it0,
                self.is_run == run0,
                row <= n,
                forall|g: E, t: Vec<&'w V>| call_requires(g, (t,)),
                states.last() == self.each_fn.0,
                each_chain(f0, world, terms, batch_seq(table, row as nat), states, tuples),
            decreases n - row,
        {
            let tuple = self.iter.row_tuple(row);
            let ghost tv = tuple;
            (self.each_fn.0)(tuple);
            proof {
                let rows_before = batch_seq(table, row as nat);
                let rows_after = batch_seq(table, (row + 1) as nat);
                assert(rows_after =~= rows_before.push((table, row as int)));
                let states2 = states.push(self.each_fn.0);
                let tuples2 = tuples.push(tv);
                assert forall|i: int| 0 <= i < rows_after.len() implies row_tuple(
                    world,
                    terms,
                    rows_after[i].0,
                    rows_after[i].1,
                    (#[trigger] tuples2[i])@,
                ) && call_ensures(states2[i], (tuples2[i],), ()) by {
                    if i < rows_before.len() {
                        assert(tuples2[i] == tuples[i]);
                        assert(states2[i] == states[i]);
                    }
                }
                states = states2;
                tuples = tuples2;
            }
            row += 1;
        }
        assert(each_chain(f0, world, terms, batch_seq(table, n as nat), states, tuples));
    }
}

impl<'w, V, E: FnMut(Entity, Vec<&'w V>)> Iter<'w, V, EachEntityForward<E>> {
    /// Forwards every row of the current batch, in order, with its entity, to the per-row
    /// callback.
    pub fn each(&mut self)
        requires
            old(self).wf(),
            old(self).iter.valid,
            forall|g: E, e: Entity, t: Vec<&'w V>| call_requires(g, (e, t)),
        ensures
            final(self).iter == old(self).iter,
            final(self).is_run == old(self).is_run,
            entity_rows_visited_to(
                old(self).each_fn.0,
                final(self).each_fn.0,
                *old(self).iter.world,
                old(self).iter.terms@,
                batch_seq(old(self).iter.table, old(self).iter.count as nat),
            ),
    {
        let ghost f0 = self.each_fn.0;
        let ghost world = *self.iter.world;
        let ghost terms = self.iter.terms@;
        let ghost table = self.iter.table;
        let ghost it0 = self.iter;
        let ghost run0 = self.is_run;
        let n = self.iter.count;
        let ghost mut states: Seq<E> = seq![self.each_fn.0];
        let ghost mut args: Seq<(Entity, Vec<&'w V>)> = Seq::empty();
        let mut row: usize = 0;
        while row < n
            invariant
                self.iter.wf(),
                self.iter.valid,
                n == self.iter.count,
                *self.iter.world == world,
                self.iter.terms@ == terms,
                self.iter.table == table,
                self.iter == it0,
                self.is_run == run0,
                row <= n,
                forall|g: E, e: Entity, t: Vec<&'w V>| call_requires(g, (e, t)),
                states.last() == self.each_fn.0,
                entity_chain(f0, world, terms, batch_seq(table, row as nat), states, args),
            decreases n - row,
        {
            let e = self.iter.entity_at(row);
            let tuple = self.iter.row_tuple(row);
            let ghost tv = tuple;
            (self.each_fn.0)(e, tuple);
            proof {
                let rows_before = batch_seq(table, row as nat);
                let rows_after = batch_seq(table, (row + 1) as nat);
                assert(rows_after =~= rows_before.push((table, row as int)));
                let states2 = states.push(self.each_fn.0);
                let args2 = args.push((e, tv));
                assert forall|i: int| 0 <= i < rows_after.len() implies (#[trigger] args2[i]).0
                    == entity_of(world, rows_after[i]) && row_tuple(
                    world,
                    terms,
                    rows_after[i].0,
                    rows_after[i].1,
                    args2[i].1@,
                ) && call_ensures(states2[i], (args2[i].0, args2[i].1), ()) by {
                    if i < rows_before.len() {
                        assert(args2[i] == args[i]);
                        assert(states2[i] == states[i]);
                    }
                }
                states = states2;
                args = args2;
            }
            row += 1;
        }
        assert(entity_chain(f0, world, terms, batch_seq(table, n as nat), states, args));
    }
}

/// The stored rows of a prefix of the batches are a prefix of all stored rows.
proof fn lemma_rows_prefix<V>(world: World<V>, batches: Seq<Option<usize>>, k: int)
    requires
        0 <= k <= batches.len(),
    ensures
        table_rows(world, batches.take(k)).len() <= table_rows(world, batches).len(),
        table_rows(world, batches.take(k)) =~= table_rows(world, batches).subrange(
            0,
            table_rows(world, batches.take(k)).len() as int,
        ),
    decreases batches.len() - k,
{
    if k < batches.len() {
        lemma_rows_prefix(world, batches, k + 1);
        lemma_each_rows_step(world, batches, k);
        let a = table_rows(world, batches.take(k));
        let c = table_rows(world, batches.take(k + 1));
        let all = table_rows(world, batches);
        assert(a =~= c.subrange(0, a.len() as int));
        assert(c =~= all.subrange(0, c.len() as int));
        assert(a =~= all.subrange(0, a.len() as int));
    } else {
        assert(batches.take(k) =~= batches);
    }
}

/// Total rows of a prefix of the pass fit where the whole pass's total fits.
proof fn lemma_total_prefix<V>(world: World<V>, batches: Seq<Option<usize>>, k: int)
    requires
        0 <= k <= batches.len(),
    ensures
        total_rows(world, batches.take(k)) <= total_rows(world, batches),
    decreases batches.len() - k,
{
    if k < batches.len() {
        lemma_total_prefix(world, batches, k + 1);
        lemma_each_rows_step(world, batches, k);
    } else {
        assert(batches.take(k) =~= batches);
    }
}

} // verus!
