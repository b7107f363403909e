//! Column storage: tables of entities that share one set of ids, each id with a column of values.
use vstd::prelude::*;
use crate::ids::{
    is_pair, is_pair_spec, pair_first, pair_first_spec, pair_second, pair_second_spec, Entity,
    IdT, PAIR_FIRST_BOUND,
};

verus! {

/// Every element is smaller than the next one.
pub open spec fn strictly_ascending(s: Seq<IdT>) -> bool {
    forall|i: int, j: int| 0 <= i < j < s.len() ==> s[i] < s[j]
}

/// Target of the first pair in `ids` whose relationship is `rel`, or 0 when there is none.
pub open spec fn target_of(ids: Seq<IdT>, rel: Entity) -> u64
    decreases ids.len(),
{
    if ids.len() == 0 {
        0
    } else if is_pair_spec(ids[0]) && pair_first_spec(ids[0]) == rel {
        pair_second_spec(ids[0])
    } else {
        target_of(ids.drop_first(), rel)
    }
}

/// Storage shared by all entities with an identical set of ids: one column per id, one row per
/// entity.
pub struct Table<V> {
    pub type_ids: Vec<IdT>,
    pub entities: Vec<Entity>,
    pub columns: Vec<Vec<V>>,
}

impl<V> Table<V> {
    /// One column per id, every column as long as the entity list, ids in ascending order.
    pub open spec fn wf(&self) -> bool {
        &&& self.columns@.len() == self.type_ids@.len()
        &&& forall|c: int|
            0 <= c < self.columns@.len() ==> #[trigger] self.columns@[c]@.len()
                == self.entities@.len()
        &&& strictly_ascending(self.type_ids@)
    }

    /// Whether entities of this table carry `id`.
    pub open spec fn has_id(&self, id: IdT) -> bool {
        self.type_ids@.contains(id)
    }

    /// Number of entities stored in the table.
    pub fn count(&self) -> (r: usize)
        ensures
            r == self.entities@.len(),
    {
        self.entities.len()
    }

    /// Position of the column that holds `id`.
    pub fn column_index(&self, id: IdT) -> (r: Option<usize>)
        ensures
            match r {
                Some(c) => c < self.type_ids@.len() && self.type_ids@[c as int] == id,
                None => !self.has_id(id),
            },
    {
        let mut c: usize = 0;
        while c < self.type_ids.len()
            invariant
                c <= self.type_ids@.len(),
                forall|k: int| 0 <= k < c ==> self.type_ids@[k] != id,
            decreases self.type_ids@.len() - c,
        {
            if self.type_ids[c] == id {
                return Some(c);
            }
            c += 1;
        }
        None
    }

    /// Group key of the table for relationship `rel`: the target of its first `(rel, _)` pair.
    pub fn group_key(&self, rel: Entity) -> (r: u64)
        ensures
            r == target_of(self.type_ids@, rel),
    {
        let ids = &self.type_ids;
        let mut i: usize = 0;
        assert(ids@.subrange(0, ids@.len() as int) =~= ids@);
        while i < ids.len()
            invariant
                ids@ == self.type_ids@,
                i <= ids@.len(),
                target_of(ids@, rel) == target_of(ids@.subrange(i as int, ids@.len() as int), rel),
            decreases ids@.len() - i,
        {
            let ghost rest = ids@.subrange(i as int, ids@.len() as int);
            assert(rest.drop_first() =~= ids@.subrange(i + 1, ids@.len() as int));
            let id = ids[i];
            assert(rest[0] == id);
            if is_pair(id) && pair_first(id) == rel {
                return pair_second(id);
            }
            i += 1;
        }
        assert(ids@.subrange(i as int, ids@.len() as int).len() == 0);
        0
    }
}

/// The store of all tables, in the order in which they were created.
pub struct World<V> {
    pub tables: Vec<Table<V>>,
    /// The highest entity id handed out so far.
    pub last_id: Entity,
}

/// Whether `ids`, `values` describe a new entity that `world` can store.
pub open spec fn spawn_ok<V>(world: World<V>, ids: Seq<IdT>, values: Seq<V>) -> bool {
    &&& ids.len() == values.len()
    &&& strictly_ascending(ids)
    &&& world.last_id + 1 < PAIR_FIRST_BOUND
}

/// `after` is `before` with entity `e` appended to table `t`, whose type is `ids`; `t` is a new
/// table when no table had that type.
pub open spec fn placed<V>(
    before: World<V>,
    after: World<V>,
    t: int,
    ids: Seq<IdT>,
    values: Seq<V>,
    e: Entity,
) -> bool {
    let n = before.tables@.len();
    &&& 0 <= t < after.tables@.len()
    &&& after.tables@[t].type_ids@ == ids
    &&& if t < n {
        &&& after.tables@.len() == n
        &&& before.tables@[t].type_ids@ == ids
        &&& after.tables@[t].entities@ == before.tables@[t].entities@.push(e)
        &&& forall|c: int|
            0 <= c < ids.len() ==> #[trigger] after.tables@[t].columns@[c]@
                == before.tables@[t].columns@[c]@.push(values[c])
    } else {
        &&& t == n
        &&& after.tables@.len() == n + 1
        &&& forall|k: int| 0 <= k < n ==> before.tables@[k].type_ids@ != ids
        &&& after.tables@[t].entities@ == seq![e]
        &&& forall|c: int|
            0 <= c < ids.len() ==> #[trigger] after.tables@[t].columns@[c]@ == seq![values[c]]
    }
    &&& forall|k: int| 0 <= k < n && k != t ==> after.tables@[k] == before.tables@[k]
}

/// `after` is `before` with entity `e`, carrying `ids` with `values`, added to the table of
/// that type.
pub open spec fn spawned<V>(
    before: World<V>,
    after: World<V>,
    ids: Seq<IdT>,
    values: Seq<V>,
    e: Entity,
) -> bool {
    exists|t: int| placed(before, after, t, ids, values, e)
}

impl<V> World<V> {
    /// Every table is well formed, no two tables share a type, ids stay below the pair bound.
    pub open spec fn wf(&self) -> bool {
        &&& forall|t: int| 0 <= t < self.tables@.len() ==> (#[trigger] self.tables@[t]).wf()
        &&& forall|i: int, j: int|
            0 <= i < j < self.tables@.len() ==> self.tables@[i].type_ids@
                != self.tables@[j].type_ids@
        &&& self.last_id < PAIR_FIRST_BOUND
        &&& forall|t: int, r: int|
            0 <= t < self.tables@.len() && 0 <= r < self.tables@[t].entities@.len() ==> 0
                < #[trigger] self.tables@[t].entities@[r] <= self.last_id
        &&& forall|t1: int, r1: int, t2: int, r2: int|
            0 <= t1 < self.tables@.len() && 0 <= r1 < self.tables@[t1].entities@.len() && 0 <= t2
                < self.tables@.len() && 0 <= r2 < self.tables@[t2].entities@.len()
                && #[trigger] self.tables@[t1].entities@[r1] == #[trigger] self.tables@[t2].entities@[r2]
                ==> t1 == t2 && r1 == r2
    }

    /// Whether entity `e` is stored, in a table that carries `id`.
    pub open spec fn entity_has(&self, e: Entity, id: IdT) -> bool {
        exists|t: int, r: int|
            0 <= t < self.tables@.len() && 0 <= r < self.tables@[t].entities@.len()
                && #[trigger] self.tables@[t].entities@[r] == e && self.tables@[t].has_id(id)
    }

    /// An empty store.
    pub fn new() -> (r: World<V>)
        ensures
            r.wf(),
            r.tables@.len() == 0,
            r.last_id == 0,
    {
        World { tables: Vec::new(), last_id: 0 }
    }

    /// Hands out a fresh entity id (for instance to name a component or a relationship target);
    /// `None` once the id space usable in pairs is used up.
    pub fn new_entity(&mut self) -> (r: Option<Entity>)
        requires
            old(self).wf(),
        ensures
            final(self).wf(),
            final(self).tables == old(self).tables,
            match r {
                Some(e) => old(self).last_id + 1 < PAIR_FIRST_BOUND && e == old(self).last_id + 1
                    && final(self).last_id == e,
                None => old(self).last_id + 1 >= PAIR_FIRST_BOUND && final(self).last_id == old(
                    self,
                ).last_id,
            },
    {
        if self.last_id + 1 < PAIR_FIRST_BOUND {
            self.last_id = self.last_id + 1;
            Some(self.last_id)
        } else {
            None
        }
    }

    /// Index of the table whose type is exactly `ids`.
    pub fn table_for(&self, ids: &Vec<IdT>) -> (r: Option<usize>)
        ensures
            match r {
                Some(t) => t < self.tables@.len() && self.tables@[t as int].type_ids@ == ids@,
                None => forall|k: int|
                    0 <= k < self.tables@.len() ==> self.tables@[k].type_ids@ != ids@,
            },
    {
        let mut t: usize = 0;
        while t < self.tables.len()
            invariant
                t <= self.tables@.len(),
                forall|k: int| 0 <= k < t ==> self.tables@[k].type_ids@ != ids@,
            decreases self.tables@.len() - t,
        {
            if same_ids(&self.tables[t].type_ids, ids) {
                return Some(t);
            }
            t += 1;
        }
        None
    }

    /// Creates an entity that carries `ids` (in ascending order) with `values` (one per id), in
    /// the table of that type, which is created when there is none. `None`, with nothing
    /// changed, when the lengths differ, the ids are not strictly ascending, or ids are used up.
    pub fn new_entity_with(&mut self, ids: Vec<IdT>, values: Vec<V>) -> (r: Option<Entity>)
        requires
            old(self).wf(),
        ensures
            final(self).wf(),
            r.is_some() <==> spawn_ok(*old(self), ids@, values@),
            r.is_none() ==> *final(self) == *old(self),
            r matches Some(e) ==> e == old(self).last_id + 1 && final(self).last_id == e,
            r matches Some(e) ==> spawned(*old(self), *final(self), ids@, values@, e),
    {
        if ids.len() != values.len() || !ascending(&ids) || self.last_id + 1 >= PAIR_FIRST_BOUND {
            return None;
        }
        let ghost before = *self;
        let e = self.last_id + 1;
        self.last_id = e;
        let n = ids.len();
        let ghost found = false;
        let t = match self.table_for(&ids) {
            Some(t) => {
                proof {
                    found = true;
                }
                t
            },
            None => {
                let mut columns: Vec<Vec<V>> = Vec::new();
                let mut c: usize = 0;
                while c < n
                    invariant
                        c <= n,
                        columns@.len() == c,
                        forall|k: int| 0 <= k < c ==> (#[trigger] columns@[k])@.len() == 0,
                    decreases n - c,
                {
                    columns.push(Vec::new());
                    c += 1;
                }
                self.tables.push(Table { type_ids: ids, entities: Vec::new(), columns });
                self.tables.len() - 1
            },
        };
        let ghost mid = *self;
        let ghost vals = values@;
        let mut rest = values;
        assert(mid.tables@[t as int].wf());
        assert(found ==> t < before.tables@.len() && mid.tables@ == before.tables@);
        assert(!found ==> t == before.tables@.len() && mid.tables@ == before.tables@.push(
            mid.tables@[t as int],
        ) && mid.tables@[t as int].entities@.len() == 0 && forall|k: int|
            0 <= k < before.tables@.len() ==> before.tables@[k].type_ids@ != ids@);
        assert(mid.tables@[t as int].type_ids@ == ids@);
        let mut c: usize = n;
        while c > 0
            invariant
                t < self.tables@.len(),
                self.tables@.len() == mid.tables@.len(),
                c <= n,
                n == vals.len(),
                rest@ == vals.subrange(0, c as int),
                self.tables@[t as int].type_ids@ == mid.tables@[t as int].type_ids@,
                self.tables@[t as int].entities@ == mid.tables@[t as int].entities@,
                self.tables@[t as int].columns@.len() == n,
                forall|k: int|
                    0 <= k < c ==> #[trigger] self.tables@[t as int].columns@[k]
                        == mid.tables@[t as int].columns@[k],
                forall|k: int|
                    c <= k < n ==> #[trigger] self.tables@[t as int].columns@[k]@
                        == mid.tables@[t as int].columns@[k]@.push(vals[k]),
                forall|k: int|
                    0 <= k < self.tables@.len() && k != t ==> self.tables@[k] == mid.tables@[k],
                self.last_id == e,
            decreases c,
        {
            c -= 1;
            let v = rest.pop().unwrap();
            self.tables[t].columns[c].push(v);
        }
        self.tables[t].entities.push(e);
        proof {
            let tb = self.tables@[t as int];
            let mt = mid.tables@[t as int];
            assert forall|k: int| 0 <= k < n implies #[trigger] tb.columns@[k]@ == mt.columns@[k]@.push(
                vals[k],
            ) by {}
            if !found {
                assert forall|k: int| 0 <= k < n implies #[trigger] tb.columns@[k]@ == seq![vals[k]] by {
                    assert(mt.columns@[k]@.len() == 0);
                    assert(mt.columns@[k]@.push(vals[k]) =~= seq![vals[k]]);
                }
                assert(mt.entities@.push(e) =~= seq![e]);
            }
            assert(tb.wf());
            let nb = before.tables@.len();
            assert forall|k: int| 0 <= k < nb && k != t implies self.tables@[k] == before.tables@[k] by {
                assert(self.tables@[k] == mid.tables@[k]);
                assert(mid.tables@[k] == before.tables@[k]);
            }
            assert forall|k: int, r: int|
                0 <= k < self.tables@.len() && 0 <= r < self.tables@[k].entities@.len() implies 0
                    < #[trigger] self.tables@[k].entities@[r] <= self.last_id by {
                if k != t && k < before.tables@.len() {
                    assert(self.tables@[k] == before.tables@[k]);
                } else if k == t && r < mt.entities@.len() {
                    assert(found);
                    assert(mt.entities@[r] == before.tables@[k].entities@[r]);
                }
            }
            assert forall|t1: int, r1: int, t2: int, r2: int|
                0 <= t1 < self.tables@.len() && 0 <= r1 < self.tables@[t1].entities@.len() && 0
                    <= t2 < self.tables@.len() && 0 <= r2 < self.tables@[t2].entities@.len()
                    && #[trigger] self.tables@[t1].entities@[r1]
                    == #[trigger] self.tables@[t2].entities@[r2] implies t1 == t2 && r1 == r2 by {
                let last = before.last_id;
                let is_new1 = t1 == t && r1 == mt.entities@.len();
                let is_new2 = t2 == t && r2 == mt.entities@.len();
                if !is_new1 {
                    if t1 != t {
                        assert(self.tables@[t1] == before.tables@[t1]);
                        assert(before.tables@[t1].entities@[r1] <= last);
                    } else {
                        assert(found);
                        assert(before.tables@[t1].entities@[r1] <= last);
                    }
                }
                if !is_new2 {
                    if t2 != t {
                        assert(self.tables@[t2] == before.tables@[t2]);
                        assert(before.tables@[t2].entities@[r2] <= last);
                    } else {
                        assert(found);
                        assert(before.tables@[t2].entities@[r2] <= last);
                    }
                }
                if !is_new1 && !is_new2 {
                    assert(before.tables@[t1].entities@[r1] == self.tables@[t1].entities@[r1]);
                    assert(before.tables@[t2].entities@[r2] == self.tables@[t2].entities@[r2]);
                }
            }
            assert(placed(before, *self, t as int, ids@, vals, e));
            assert(vals == values@);
            assert(spawn_ok(*old(self), ids@, values@));
            assert(self.wf());
            assert(spawned(*old(self), *self, ids@, values@, e));
        }
        Some(e)
    }

    /// Table and row that hold entity `e`: the first occurrence, in table order then row order.
    pub fn locate(&self, e: Entity) -> (r: Option<(usize, usize)>)
        ensures
            match r {
                Some((t, row)) => t < self.tables@.len() && row < self.tables@[t as int].entities@.len()
                    && self.tables@[t as int].entities@[row as int] == e,
                None => forall|k: int|
                    0 <= k < self.tables@.len() ==> !self.tables@[k].entities@.contains(e),
            },
    {
        let mut t: usize = 0;
        while t < self.tables.len()
            invariant
                t <= self.tables@.len(),
                forall|k: int| 0 <= k < t ==> !self.tables@[k].entities@.contains(e),
            decreases self.tables@.len() - t,
        {
            let ents = &self.tables[t].entities;
            let mut row: usize = 0;
            while row < ents.len()
                invariant
                    t < self.tables@.len(),
                    row <= ents@.len(),
                    ents@ == self.tables@[t as int].entities@,
                    forall|k: int| 0 <= k < row ==> ents@[k] != e,
                decreases ents@.len() - row,
            {
                if ents[row] == e {
                    return Some((t, row));
                }
                row += 1;
            }
            t += 1;
        }
        None
    }

    /// Value of component `id` on entity `e`, where `e` is stored and carries `id`.
    pub fn get(&self, e: Entity, id: IdT) -> (r: Option<&V>)
        requires
            self.wf(),
        ensures
            match r {
                Some(v) => exists|t: int, row: int, c: int|
                    0 <= t < self.tables@.len() && 0 <= row < self.tables@[t].entities@.len()
                        && self.tables@[t].entities@[row] == e && 0 <= c
                        < self.tables@[t].type_ids@.len() && self.tables@[t].type_ids@[c] == id
                        && *v == self.tables@[t].columns@[c]@[row],
                None => true,
            },
    {
        match self.locate(e) {
            Some((t, row)) => {
                let table = &self.tables[t];
                match table.column_index(id) {
                    Some(c) => {
                        assert(table.wf());
                        assert(table.columns@[c as int]@.len() == table.entities@.len());
                        Some(&table.columns[c][row])
                    },
                    None => None,
                }
            },
            None => None,
        }
    }
}

/// Whether two id lists are equal.
pub fn same_ids(a: &Vec<IdT>, b: &Vec<IdT>) -> (r: bool)
    ensures
        r == (a@ == b@),
{
    if a.len() != b.len() {
        return false;
    }
    let mut i: usize = 0;
    while i < a.len()
        invariant
            i <= a@.len(),
            a@.len() == b@.len(),
            forall|k: int| 0 <= k < i ==> a@[k] == b@[k],
        decreases a@.len() - i,
    {
        if a[i] != b[i] {
            return false;
        }
        i += 1;
    }
    assert(a@ =~= b@);
    true
}

/// Whether the ids are in strictly ascending order.
pub fn ascending(ids: &Vec<IdT>) -> (r: bool)
    ensures
        r == strictly_ascending(ids@),
{
    let mut i: usize = 1;
    if ids.len() == 0 {
        return true;
    }
    while i < ids.len()
        invariant
            1 <= i <= ids@.len(),
            forall|a: int, b: int| 0 <= a < b < i ==> ids@[a] < ids@[b],
        decreases ids@.len() - i,
    {
        if ids[i - 1] >= ids[i] {
            return false;
        }
        i += 1;
    }
    true
}

} // verus!
