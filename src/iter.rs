//! The iteration cursor: walks the batches of a query pass, holds the lock of the table being
//! visited, and hands out field views, entities and per-row tuples.
use vstd::prelude::*;
use crate::field::Field;
use crate::filter::{
    batch_order, group_key_of, has_self_term, lemma_batch_tables, lemma_col_unique,
    lemma_source_value, matching_tables, resolve_sources, has_self_term_exec, row_tuple, source_at,
    table_matches, term_value, SourceLoc, Term,
};
use crate::ids::{is_pair, is_pair_spec, pair_second, pair_second_spec, Entity, IdT};
use crate::world::{Table, World};

verus! {

/// Rows in the batch of `table`: the table's entity count, 0 for the batch without a table.
pub open spec fn batch_rows<V>(world: World<V>, table: Option<usize>) -> nat {
    match table {
        Some(t) => world.tables@[t as int].entities@.len(),
        None => 0,
    }
}

/// Group key of the batch of `table`.
pub open spec fn batch_key<V>(world: World<V>, group_by: Entity, table: Option<usize>) -> u64 {
    match table {
        Some(t) => group_key_of(world, group_by, t as int),
        None => 0,
    }
}

/// Low-level state of one pass over a query's batches.
pub struct IterT<'w, V> {
    pub world: &'w World<V>,
    pub terms: Vec<Term>,
    /// Per term, where its fixed source keeps the value (`None` for owned terms).
    pub sources: Vec<Option<SourceLoc>>,
    /// The batches of the pass, in visit order; `None` is the batch without a table.
    pub batches: Vec<Option<usize>>,
    pub group_by: Entity,
    /// Number of batches handed out so far.
    pub next: usize,
    pub table: Option<usize>,
    pub count: usize,
    pub group_id: u64,
    /// Whether a batch is current.
    pub valid: bool,
    /// Set while rows are handed to a per-row callback: fields are then read per row.
    pub each_mode: bool,
    /// Set when the current batch's data is declared not modified.
    pub skipped: bool,
    /// Lock count of every table of the world.
    pub locks: Vec<u32>,
    pub system: Entity,
    pub event: Entity,
    pub event_id: IdT,
}

impl<'w, V> IterT<'w, V> {
    /// Every fixed-source term has its location, every owned term none.
    pub open spec fn sources_ok(&self) -> bool {
        &&& self.sources@.len() == self.terms@.len()
        &&& forall|j: int|
            0 <= j < self.terms@.len() ==> match #[trigger] self.sources@[j] {
                Some(loc) => self.terms@[j].src != 0 && source_at(*self.world, self.terms@[j], loc),
                None => self.terms@[j].src == 0,
            }
    }

    /// No table is locked.
    pub open spec fn no_locks(&self) -> bool {
        forall|t: usize| t < self.locks@.len() ==> #[trigger] self.locks@[t as int] == 0
    }

    /// Table `t` is locked.
    pub open spec fn locked(&self, t: usize) -> bool {
        t < self.locks@.len() && self.locks@[t as int] > 0
    }

    /// The state is consistent: the batches are the query's pass, the current batch's facts are
    /// those of its table, and only the current table can be locked, once.
    pub open spec fn wf(&self) -> bool {
        &&& self.world.wf()
        &&& self.locks@.len() == self.world.tables@.len()
        &&& batch_order(*self.world, self.terms@, self.group_by, self.batches@)
        &&& self.batches@.len() > 0 ==> self.sources_ok()
        &&& self.next <= self.batches@.len()
        &&& self.valid ==> {
            &&& self.next > 0
            &&& self.table == self.batches@[self.next - 1]
            &&& self.count == batch_rows(*self.world, self.table)
            &&& self.group_id == batch_key(*self.world, self.group_by, self.table)
        }
        &&& forall|t: usize|
            t < self.locks@.len() ==> #[trigger] self.locks@[t as int] == 0 || (self.locks@[t as int]
                == 1 && self.valid && self.table == Some(t))
    }

    /// Same query and pass as `other`.
    pub open spec fn same_pass(&self, other: IterT<'w, V>) -> bool {
        &&& self.world == other.world
        &&& self.terms == other.terms
        &&& self.sources == other.sources
        &&& self.batches == other.batches
        &&& self.group_by == other.group_by
        &&& self.each_mode == other.each_mode
        &&& self.system == other.system
        &&& self.event == other.event
        &&& self.event_id == other.event_id
    }

    /// Same pass, and the same current batch.
    pub open spec fn same_batch(&self, other: IterT<'w, V>) -> bool {
        &&& self.same_pass(other)
        &&& self.next == other.next
        &&& self.table == other.table
        &&& self.count == other.count
        &&& self.group_id == other.group_id
        &&& self.valid == other.valid
    }

    /// Starts a pass of the query `terms` (grouped by `group_by` when not 0) over `world`.
    pub fn new(world: &'w World<V>, terms: Vec<Term>, group_by: Entity) -> (r: IterT<'w, V>)
        requires
            world.wf(),
        ensures
            r.wf(),
            r.world == world,
            r.terms@ == terms@,
            r.group_by == group_by,
            r.next == 0,
            !r.valid,
            !r.each_mode,
            r.no_locks(),
            r.system == 0 && r.event == 0 && r.event_id == 0,
    {
        let mut locks: Vec<u32> = Vec::new();
        let mut t: usize = 0;
        while t < world.tables.len()
            invariant
                t <= world.tables@.len(),
                locks@.len() == t,
                forall|k: int| 0 <= k < t ==> #[trigger] locks@[k] == 0,
            decreases world.tables@.len() - t,
        {
            locks.push(0);
            t += 1;
        }
        let mut batches: Vec<Option<usize>> = Vec::new();
        let sources = match resolve_sources(world, &terms) {
            None => {
                Vec::new()
            },
            Some(locs) => {
                if has_self_term_exec(&terms) {
                    let order = matching_tables(world, &terms, group_by);
                    let mut b: usize = 0;
                    while b < order.len()
                        invariant
                            b <= order@.len(),
                            batches@ == order@.subrange(0, b as int).map_values(
                                |t: usize| Some(t),
                            ),
                        decreases order@.len() - b,
                    {
                        batches.push(Some(order[b]));
                        b += 1;
                        assert(batches@ =~= order@.subrange(0, b as int).map_values(
                            |t: usize| Some(t),
                        ));
                    }
                    assert(order@.subrange(0, order@.len() as int) =~= order@);
                } else {
                    batches.push(None);
                    assert(batches@ =~= seq![None::<usize>]);
                }
                locs
            },
        };
        IterT {
            world,
            terms,
            sources,
            batches,
            group_by,
            next: 0,
            table: None,
            count: 0,
            group_id: 0,
            valid: false,
            each_mode: false,
            skipped: false,
            locks,
            system: 0,
            event: 0,
            event_id: 0,
        }
    }

    /// Moves to the next batch of the pass; `false`, with no batch current, once the pass is
    /// exhausted.
    pub fn next(&mut self) -> (r: bool)
        requires
            old(self).wf(),
            old(self).no_locks(),
        ensures
            final(self).wf(),
            final(self).no_locks(),
            final(self).same_pass(*old(self)),
            r == (old(self).next < old(self).batches@.len()),
            r ==> final(self).valid && final(self).next == old(self).next + 1,
            !r ==> !final(self).valid && final(self).next == old(self).next,
    {
        if self.next < self.batches.len() {
            let b = self.batches[self.next];
            proof {
                lemma_batch_tables(*self.world, self.terms@, self.group_by, self.batches@, self.next as int);
            }
            self.next = self.next + 1;
            self.table = b;
            self.skipped = false;
            match b {
                Some(t) => {
                    let table: &Table<V> = &self.world.tables[t];
                    self.count = table.count();
                    self.group_id = if self.group_by == 0 {
                        0
                    } else {
                        table.group_key(self.group_by)
                    };
                },
                None => {
                    self.count = 0;
                    self.group_id = 0;
                },
            }
            self.valid = true;
            true
        } else {
            self.valid = false;
            false
        }
    }

    /// Locks the current batch's table against structural changes.
    pub fn lock_table(&mut self)
        requires
            old(self).wf(),
            old(self).valid,
            old(self).no_locks(),
        ensures
            final(self).wf(),
            final(self).same_batch(*old(self)),
            final(self).locks@.len() == old(self).locks@.len(),
            forall|t: usize| final(self).locked(t) <==> final(self).table == Some(t),
    {
        proof {
            lemma_batch_tables(*self.world, self.terms@, self.group_by, self.batches@, self.next - 1);
        }
        if let Some(t) = self.table {
            self.locks.set(t, 1);
        }
    }

    /// Releases the lock of the current table, if one is held.
    pub fn unlock_table(&mut self)
        requires
            old(self).wf(),
        ensures
            final(self).wf(),
            final(self).same_batch(*old(self)),
            final(self).no_locks(),
            final(self).locks@.len() == old(self).locks@.len(),
    {
        if self.valid && self.table.is_some() {
            let t = self.table.unwrap();
            proof {
                lemma_batch_tables(*self.world, self.terms@, self.group_by, self.batches@, self.next - 1);
            }
            let ghost old_locks = self.locks@;
            self.locks.set(t, 0);
            assert forall|k: usize| k < self.locks@.len() implies #[trigger] self.locks@[k as int] == 0 by {
                if k != t {
                    assert(self.locks@[k as int] == old_locks[k as int]);
                }
            }
        }
    }

    /// Ends the pass: releases any held lock, and no batch is current afterwards.
    pub fn fini(&mut self)
        requires
            old(self).wf(),
        ensures
            final(self).wf(),
            final(self).same_pass(*old(self)),
            final(self).no_locks(),
            !final(self).valid,
            final(self).next == old(self).batches@.len(),
    {
        self.unlock_table();
        self.valid = false;
        self.next = self.batches.len();
    }

    /// View of field `j` for the current batch.
    pub fn field_view(&self, j: usize) -> (r: Field<'w, V>)
        requires
            self.wf(),
            self.valid,
            j < self.terms@.len(),
        ensures
            r.wf(),
            r.count_spec() == self.count,
            r.is_shared_spec() == (self.terms@[j as int].src != 0),
            forall|row: nat|
                r.row_ok(row) ==> #[trigger] r.at(row) == term_value(
                    *self.world,
                    self.terms@[j as int],
                    self.table,
                    row as int,
                ),
    {
        let world: &'w World<V> = self.world;
        proof {
            lemma_batch_tables(*world, self.terms@, self.group_by, self.batches@, self.next - 1);
            assert(self.sources@[j as int] is Some || self.terms@[j as int].src == 0);
        }
        match self.sources[j] {
            Some((st, sr, sc)) => {
                proof {
                    lemma_source_value(*world, self.terms@[j as int], (st, sr, sc));
                    assert(world.tables@[st as int].wf());
                }
                Field::new(&world.tables[st].columns[sc], sr, self.count, true)
            },
            None => {
                proof {
                    if self.table is None {
                        assert(has_self_term(self.terms@)) by {
                            assert(self.terms@[j as int].src == 0);
                        }
                    }
                }
                let t = self.table.unwrap();
                let table: &'w Table<V> = &world.tables[t];
                proof {
                    assert(table_matches(*world, self.terms@, t as int));
                    assert(self.terms@[j as int].src == 0);
                    assert(table.has_id(self.terms@[j as int].id));
                    assert(table.wf());
                }
                let c = table.column_index(self.terms[j].id).unwrap();
                proof {
                    lemma_col_unique(*table, self.terms@[j as int].id, c as int);
                }
                Field::new(&table.columns[c], 0, self.count, false)
            },
        }
    }

    /// The tuple of row `row` of the current batch: one reference per term, in term order.
    pub fn row_tuple(&self, row: usize) -> (r: Vec<&'w V>)
        requires
            self.wf(),
            self.valid,
            row < self.count || self.table is None,
        ensures
            row_tuple(*self.world, self.terms@, self.table, row as int, r@),
    {
        let mut tuple: Vec<&'w V> = Vec::new();
        let mut j: usize = 0;
        while j < self.terms.len()
            invariant
                self.wf(),
                self.valid,
                row < self.count || self.table is None,
                j <= self.terms@.len(),
                tuple@.len() == j,
                forall|k: int|
                    0 <= k < j ==> *(#[trigger] tuple@[k]) == term_value(
                        *self.world,
                        self.terms@[k],
                        self.table,
                        row as int,
                    ),
            decreases self.terms@.len() - j,
        {
            let f = self.field_view(j);
            proof {
                if self.table is None {
                    lemma_batch_tables(*self.world, self.terms@, self.group_by, self.batches@, self.next - 1);
                    if self.terms@[j as int].src == 0 {
                        assert(has_self_term(self.terms@));
                    }
                }
                assert(f.row_ok(row as nat));
                assert(f.at(row as nat) == term_value(*self.world, self.terms@[j as int], self.table, row as int));
            }
            tuple.push(f.get(row));
            j += 1;
        }
        tuple
    }

    /// Entity of row `row` of the current batch.
    pub fn entity_at(&self, row: usize) -> (r: Entity)
        requires
            self.wf(),
            self.valid,
            row < self.count,
        ensures
            self.table is Some,
            r == self.world.tables@[self.table->0 as int].entities@[row as int],
    {
        proof {
            lemma_batch_tables(*self.world, self.terms@, self.group_by, self.batches@, self.next - 1);
        }
        let t = self.table.unwrap();
        self.world.tables[t].entities[row]
    }
}

} // verus!

verus! {

/// Per-row callback that a batch callback forwards rows to with `Iter::each`.
pub struct EachForward<E>(pub E);

/// Per-row callback, given the row's entity too, that a batch callback forwards rows to.
pub struct EachEntityForward<E>(pub E);

/// Whether `id`, the id a field matched, can be read as the component `requested`: the same id,
/// or a pair whose target is `requested`.
pub open spec fn id_compatible(id: IdT, requested: IdT) -> bool {
    id == requested || (is_pair_spec(id) && pair_second_spec(id) == requested)
}

/// The cursor handed to callbacks: one pass over the batches of a query. A cursor in run mode
/// is advanced by its holder with `next_iter`; the per-row protocols hand out cursors that are
/// not.
pub struct Iter<'w, V, E> {
    pub iter: IterT<'w, V>,
    /// Whether the holder may advance the cursor.
    pub is_run: bool,
    /// The per-row callback `each` forwards to (`()` when there is none).
    pub each_fn: E,
}

/// Index iterator over the rows of the current batch.
pub struct IterIterator<'a, 'w, V, E> {
    pub iter: &'a Iter<'w, V, E>,
    pub index: usize,
}

impl<'a, 'w, V, E> IterIterator<'a, 'w, V, E> {
    /// The next row index, until the batch's row count is reached.
    pub fn next(&mut self) -> (r: Option<usize>)
        ensures
            final(self).iter == old(self).iter,
            old(self).index < old(self).iter.iter.count ==> r == Some(old(self).index)
                && final(self).index == old(self).index + 1,
            old(self).index >= old(self).iter.iter.count ==> r.is_none() && final(self).index
                == old(self).index,
    {
        if self.index < self.iter.count() {
            let result = self.index;
            self.index = self.index + 1;
            Some(result)
        } else {
            None
        }
    }
}

impl<'w, V, E> Iter<'w, V, E> {
    /// The underlying pass state is consistent.
    pub open spec fn wf(&self) -> bool {
        self.iter.wf()
    }

    /// Wraps a pass state.
    pub fn new(iter: IterT<'w, V>, is_run: bool, each_fn: E) -> (r: Iter<'w, V, E>)
        ensures
            r.iter == iter,
            r.is_run == is_run,
            r.each_fn == each_fn,
    {
        Iter { iter, is_run, each_fn }
    }

    /// The world the pass runs over.
    pub fn world(&self) -> (r: &'w World<V>)
        ensures
            r == self.iter.world,
    {
        self.iter.world
    }

    /// The world the pass runs over (there is no staging world in between).
    pub fn real_world(&self) -> (r: &'w World<V>)
        ensures
            r == self.iter.world,
    {
        self.iter.world
    }

    /// Position, in the current batch's table, of the column that field `index` reads; `None`
    /// for a field shared from a fixed source or a batch without a table.
    pub fn column_index(&self, index: usize) -> (r: Option<usize>)
        requires
            self.wf(),
            self.iter.valid,
            index < self.iter.terms@.len(),
        ensures
            match r {
                Some(c) => {
                    &&& self.iter.terms@[index as int].src == 0
                    &&& self.iter.table is Some
                    &&& c < self.iter.world.tables@[self.iter.table->0 as int].type_ids@.len()
                    &&& self.iter.world.tables@[self.iter.table->0 as int].type_ids@[c as int]
                        == self.iter.terms@[index as int].id
                },
                None => self.iter.terms@[index as int].src != 0 || self.iter.table is None,
            },
    {
        if self.iter.terms[index].src != 0 {
            return None;
        }
        match self.iter.table {
            Some(t) => {
                proof {
                    lemma_batch_tables(*self.iter.world, self.iter.terms@, self.iter.group_by, self.iter.batches@, self.iter.next - 1);
                    assert(self.iter.world.tables@[t as int].has_id(self.iter.terms@[index as int].id));
                }
                self.iter.world.tables[t].column_index(self.iter.terms[index].id)
            },
            None => None,
        }
    }

    /// Iterator over the row indices of the current batch.
    pub fn iter(&self) -> (r: IterIterator<'_, 'w, V, E>)
        ensures
            r.iter == self,
            r.index == 0,
    {
        IterIterator { iter: self, index: 0 }
    }

    /// The system being run (0 outside of a system).
    pub fn system(&self) -> (r: Entity)
        ensures
            r == self.iter.system,
    {
        self.iter.system
    }

    /// The event being delivered (0 outside of an observer).
    pub fn event(&self) -> (r: Entity)
        ensures
            r == self.iter.event,
    {
        self.iter.event
    }

    /// The id the event was raised for (0 outside of an observer).
    pub fn event_id(&self) -> (r: IdT)
        ensures
            r == self.iter.event_id,
    {
        self.iter.event_id
    }

    /// Entity of row `row` of the current batch.
    pub fn entity(&self, row: usize) -> (r: Entity)
        requires
            self.wf(),
            self.iter.valid,
            row < self.iter.count,
        ensures
            self.iter.table is Some,
            r == self.iter.world.tables@[self.iter.table->0 as int].entities@[row as int],
    {
        self.iter.entity_at(row)
    }

    /// The underlying pass state.
    pub fn iter_mut(&mut self) -> (r: &mut IterT<'w, V>)
        ensures
            *r == old(self).iter,
            final(self).iter == *final(r),
            final(self).is_run == old(self).is_run,
            final(self).each_fn == old(self).each_fn,
    {
        &mut self.iter
    }

    /// Number of rows in the current batch.
    pub fn count(&self) -> (r: usize)
        ensures
            r == self.iter.count,
    {
        self.iter.count
    }

    /// Ids of the current batch's table, `None` for a batch without a table.
    pub fn archetype(&self) -> (r: Option<Vec<IdT>>)
        requires
            self.wf(),
            self.iter.valid,
        ensures
            match self.iter.table {
                Some(t) => r matches Some(ids) && ids@ == self.iter.world.tables@[t as int].type_ids@,
                None => r.is_none(),
            },
    {
        match self.iter.table {
            Some(t) => {
                proof {
                    lemma_batch_tables(*self.iter.world, self.iter.terms@, self.iter.group_by, self.iter.batches@, self.iter.next - 1);
                }
                let src = &self.iter.world.tables[t].type_ids;
                let mut ids: Vec<IdT> = Vec::new();
                let mut i: usize = 0;
                while i < src.len()
                    invariant
                        i <= src@.len(),
                        ids@ == src@.subrange(0, i as int),
                    decreases src@.len() - i,
                {
                    ids.push(src[i]);
                    i += 1;
                    assert(ids@ =~= src@.subrange(0, i as int));
                }
                assert(src@.subrange(0, src@.len() as int) =~= src@);
                Some(ids)
            },
            None => None,
        }
    }

    /// The current batch's table, `None` for a batch without a table.
    pub fn table(&self) -> (r: Option<usize>)
        ensures
            r == self.iter.table,
    {
        self.iter.table
    }

    /// Table, first row and row count of the current batch, `None` without a table.
    pub fn table_range(&self) -> (r: Option<(usize, usize, usize)>)
        ensures
            match self.iter.table {
                Some(t) => r == Some((t, 0usize, self.iter.count)),
                None => r.is_none(),
            },
    {
        match self.iter.table {
            Some(t) => Some((t, 0, self.iter.count)),
            None => None,
        }
    }

    /// Number of fields: one per term.
    pub fn field_count(&self) -> (r: usize)
        ensures
            r == self.iter.terms@.len(),
    {
        self.iter.terms.len()
    }

    /// Whether field `index` is owned by the iterated entities (not shared from a fixed source).
    pub fn is_self(&self, index: usize) -> (r: bool)
        requires
            index < self.iter.terms@.len(),
        ensures
            r == (self.iter.terms@[index as int].src == 0),
    {
        self.iter.terms[index].src == 0
    }

    /// Whether field `index` is only read.
    pub fn is_readonly(&self, index: usize) -> (r: bool)
        requires
            index < self.iter.terms@.len(),
        ensures
            r == self.iter.terms@[index as int].readonly,
    {
        self.iter.terms[index].readonly
    }

    /// Source of field `index`: 0 when it is matched on the iterated entities.
    pub fn src(&self, index: usize) -> (r: Entity)
        requires
            index < self.iter.terms@.len(),
        ensures
            r == self.iter.terms@[index as int].src,
    {
        self.iter.terms[index].src
    }

    /// Id matched by field `index`.
    pub fn id(&self, index: usize) -> (r: IdT)
        requires
            index < self.iter.terms@.len(),
        ensures
            r == self.iter.terms@[index as int].id,
    {
        self.iter.terms[index].id
    }

    /// Id matched by field `index` when it is a pair, `None` otherwise.
    pub fn pair(&self, index: usize) -> (r: Option<IdT>)
        requires
            index < self.iter.terms@.len(),
        ensures
            r == (if is_pair_spec(self.iter.terms@[index as int].id) {
                Some(self.iter.terms@[index as int].id)
            } else {
                None
            }),
    {
        let id = self.iter.terms[index].id;
        if is_pair(id) {
            Some(id)
        } else {
            None
        }
    }

    /// Field `index` read as component `id`: `None` when the index is out of range or the field
    /// matched an id that cannot be read as `id`.
    pub fn field(&self, index: usize, id: IdT) -> (r: Option<Field<'w, V>>)
        requires
            self.wf(),
            self.iter.valid,
            !self.iter.each_mode,
        ensures
            r.is_some() == (index < self.iter.terms@.len() && id_compatible(
                self.iter.terms@[index as int].id,
                id,
            )),
            r matches Some(f) ==> {
                &&& f.wf()
                &&& f.count_spec() == self.iter.count
                &&& f.is_shared_spec() == (self.iter.terms@[index as int].src != 0)
                &&& forall|row: nat|
                    f.row_ok(row) ==> #[trigger] f.at(row) == term_value(
                        *self.iter.world,
                        self.iter.terms@[index as int],
                        self.iter.table,
                        row as int,
                    )
            },
    {
        if index >= self.iter.terms.len() {
            return None;
        }
        let term_id = self.iter.terms[index].id;
        if term_id == id || (is_pair(term_id) && pair_second(term_id) == id) {
            Some(self.iter.field_view(index))
        } else {
            None
        }
    }

    /// Field `index` without a check of its id.
    pub fn field_untyped(&self, index: usize) -> (r: Field<'w, V>)
        requires
            self.wf(),
            self.iter.valid,
            !self.iter.each_mode,
            index < self.iter.terms@.len(),
        ensures
            r.wf(),
            r.count_spec() == self.iter.count,
            r.is_shared_spec() == (self.iter.terms@[index as int].src != 0),
            forall|row: nat|
                r.row_ok(row) ==> #[trigger] r.at(row) == term_value(
                    *self.iter.world,
                    self.iter.terms@[index as int],
                    self.iter.table,
                    row as int,
                ),
    {
        self.iter.field_view(index)
    }

    /// Value of field `index`, read as component `id`, for row `row`; a shared field gives its
    /// one value whatever the row. Usable from per-row callbacks.
    pub fn field_at(&self, index: usize, row: usize, id: IdT) -> (r: Option<&'w V>)
        requires
            self.wf(),
            self.iter.valid,
            row < self.iter.count || (index < self.iter.terms@.len()
                && self.iter.terms@[index as int].src != 0),
        ensures
            r.is_some() == (index < self.iter.terms@.len() && id_compatible(
                self.iter.terms@[index as int].id,
                id,
            )),
            r matches Some(v) ==> *v == term_value(
                *self.iter.world,
                self.iter.terms@[index as int],
                self.iter.table,
                row as int,
            ),
    {
        if index >= self.iter.terms.len() {
            return None;
        }
        let term_id = self.iter.terms[index].id;
        if term_id == id || (is_pair(term_id) && pair_second(term_id) == id) {
            let f = self.iter.field_view(index);
            assert(f.row_ok(row as nat));
            Some(f.get(row))
        } else {
            None
        }
    }

    /// Entity ids of the current batch as an owned field, `None` for a batch without a table.
    pub fn entities(&self) -> (r: Option<Field<'w, Entity>>)
        requires
            self.wf(),
            self.iter.valid,
        ensures
            match self.iter.table {
                Some(t) => r matches Some(f) && f.wf() && !f.is_shared_spec() && f.count_spec()
                    == self.iter.count && forall|row: nat|
                    row < self.iter.count ==> #[trigger] f.at(row)
                        == self.iter.world.tables@[t as int].entities@[row as int],
                None => r.is_none(),
            },
    {
        match self.iter.table {
            Some(t) => {
                proof {
                    lemma_batch_tables(*self.iter.world, self.iter.terms@, self.iter.group_by, self.iter.batches@, self.iter.next - 1);
                }
                let world: &'w World<V> = self.iter.world;
                Some(Field::new(&world.tables[t].entities, 0, self.iter.count, false))
            },
            None => None,
        }
    }

    /// Declares that the current batch's data was not modified.
    pub fn skip(&mut self)
        ensures
            final(self).iter.skipped,
            final(self).iter.same_batch(old(self).iter),
            final(self).iter.locks == old(self).iter.locks,
            final(self).is_run == old(self).is_run,
            final(self).each_fn == old(self).each_fn,
    {
        self.iter.skipped = true;
    }

    /// Group key of the current batch's table.
    pub fn group_id(&self) -> (r: u64)
        requires
            self.wf(),
            self.iter.valid,
        ensures
            r == batch_key(*self.iter.world, self.iter.group_by, self.iter.table),
    {
        self.iter.group_id
    }

    /// Advances to the next batch: releases the lock of the batch being left, and locks the
    /// table of the batch reached. `false`, with no table locked, once the pass is exhausted.
    pub fn next_iter(&mut self) -> (r: bool)
        requires
            old(self).wf(),
            old(self).is_run,
        ensures
            final(self).wf(),
            final(self).is_run,
            final(self).each_fn == old(self).each_fn,
            final(self).iter.same_pass(old(self).iter),
            r == (old(self).iter.next < old(self).iter.batches@.len()),
            r ==> final(self).iter.valid && final(self).iter.next == old(self).iter.next + 1,
            r ==> forall|t: usize| final(self).iter.locked(t) <==> final(self).iter.table == Some(t),
            !r ==> !final(self).iter.valid && final(self).iter.no_locks(),
    {
        self.iter.unlock_table();
        let result = self.iter.next();
        if result {
            self.iter.lock_table();
        }
        result
    }

    /// Ends the pass early: releases the held lock, if any.
    pub fn fini(&mut self)
        requires
            old(self).wf(),
        ensures
            final(self).wf(),
            final(self).iter.no_locks(),
            !final(self).iter.valid,
            final(self).is_run == old(self).is_run,
            final(self).each_fn == old(self).each_fn,
    {
        self.iter.fini();
    }
}

} // verus!
