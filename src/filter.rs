//! Queries: terms, which tables they match, and in which order the matched tables are visited.
use vstd::prelude::*;
use crate::ids::{Entity, IdT};
use crate::iter::IterT;
use crate::world::{target_of, Table, World};

verus! {

/// One clause of a query: the id it asks for and where the id is looked up.
#[derive(Clone, Copy, Debug)]
pub struct Term {
    /// The component or pair id.
    pub id: IdT,
    /// 0: matched on each iterated entity (an owned field); otherwise the fixed entity that
    /// provides the value to every row (a shared field).
    pub src: Entity,
    /// Whether the field is only read.
    pub readonly: bool,
}

/// Where a fixed-source term's value lives: table, row and column.
pub type SourceLoc = (usize, usize, usize);

/// Table `t` holds entities and carries the id of every term matched on the entity itself.
pub open spec fn table_matches<V>(world: World<V>, terms: Seq<Term>, t: int) -> bool {
    &&& 0 <= t < world.tables@.len()
    &&& world.tables@[t].entities@.len() > 0
    &&& forall|j: int|
        0 <= j < terms.len() && (#[trigger] terms[j]).src == 0 ==> world.tables@[t].has_id(
            terms[j].id,
        )
}

/// Every term with a fixed source names an entity that carries the term's id.
pub open spec fn sources_hold<V>(world: World<V>, terms: Seq<Term>) -> bool {
    forall|j: int|
        0 <= j < terms.len() && (#[trigger] terms[j]).src != 0 ==> world.entity_has(
            terms[j].src,
            terms[j].id,
        )
}

/// Some term is matched on the iterated entity itself.
pub open spec fn has_self_term(terms: Seq<Term>) -> bool {
    exists|j: int| 0 <= j < terms.len() && (#[trigger] terms[j]).src == 0
}

/// Group key of table `t`: the target of its `(group_by, _)` pair; every table is in group 0
/// when the query is not grouped.
pub open spec fn group_key_of<V>(world: World<V>, group_by: Entity, t: int) -> u64 {
    if group_by == 0 {
        0
    } else {
        target_of(world.tables@[t].type_ids@, group_by)
    }
}

/// Table `a` is visited before table `b`: a smaller group key, or the same key and created
/// earlier.
pub open spec fn visits_before<V>(world: World<V>, group_by: Entity, a: int, b: int) -> bool {
    group_key_of(world, group_by, a) < group_key_of(world, group_by, b) || (group_key_of(
        world,
        group_by,
        a,
    ) == group_key_of(world, group_by, b) && a < b)
}

/// `order` holds each matching table once, in visit order.
pub open spec fn table_order<V>(
    world: World<V>,
    terms: Seq<Term>,
    group_by: Entity,
    order: Seq<usize>,
) -> bool {
    &&& forall|t: usize| order.contains(t) <==> table_matches(world, terms, t as int)
    &&& forall|a: int, b: int|
        0 <= a < b < order.len() ==> visits_before(world, group_by, order[a] as int, order[b] as int)
}

/// `batches` is the sequence of batches a pass of the query yields: nothing when a fixed source
/// lacks its id; one batch without a table when no term is matched on the entity itself;
/// otherwise one batch per matching table, in visit order.
pub open spec fn batch_order<V>(
    world: World<V>,
    terms: Seq<Term>,
    group_by: Entity,
    batches: Seq<Option<usize>>,
) -> bool {
    if !sources_hold(world, terms) {
        batches.len() == 0
    } else if !has_self_term(terms) {
        batches == seq![None::<usize>]
    } else {
        exists|order: Seq<usize>|
            table_order(world, terms, group_by, order) && batches == order.map_values(
                |t: usize| Some(t),
            )
    }
}

/// `loc` is where the fixed source of `term` keeps the term's value.
pub open spec fn source_at<V>(world: World<V>, term: Term, loc: SourceLoc) -> bool {
    let (t, r, c) = loc;
    &&& t < world.tables@.len()
    &&& r < world.tables@[t as int].entities@.len()
    &&& c < world.tables@[t as int].type_ids@.len()
    &&& world.tables@[t as int].entities@[r as int] == term.src
    &&& world.tables@[t as int].type_ids@[c as int] == term.id
}

/// Whether table `t` matches the terms.
pub fn table_matches_exec<V>(world: &World<V>, terms: &Vec<Term>, t: usize) -> (r: bool)
    requires
        world.wf(),
        t < world.tables@.len(),
    ensures
        r == table_matches(*world, terms@, t as int),
{
    let table: &Table<V> = &world.tables[t];
    if table.count() == 0 {
        return false;
    }
    let mut j: usize = 0;
    while j < terms.len()
        invariant
            j <= terms@.len(),
            table == world.tables@[t as int],
            forall|k: int|
                0 <= k < j && (#[trigger] terms@[k]).src == 0 ==> table.has_id(terms@[k].id),
        decreases terms@.len() - j,
    {
        if terms[j].src == 0 && table.column_index(terms[j].id).is_none() {
            return false;
        }
        j += 1;
    }
    true
}

/// Whether some term is matched on the iterated entity itself.
pub fn has_self_term_exec(terms: &Vec<Term>) -> (r: bool)
    ensures
        r == has_self_term(terms@),
{
    let mut j: usize = 0;
    while j < terms.len()
        invariant
            j <= terms@.len(),
            forall|k: int| 0 <= k < j ==> (#[trigger] terms@[k]).src != 0,
        decreases terms@.len() - j,
    {
        if terms[j].src == 0 {
            return true;
        }
        j += 1;
    }
    false
}

/// Finds, for each term with a fixed source, where that source keeps the term's value; `None`
/// when some source is not stored or lacks the id.
pub fn resolve_sources<V>(world: &World<V>, terms: &Vec<Term>) -> (r: Option<Vec<Option<SourceLoc>>>)
    requires
        world.wf(),
    ensures
        r.is_some() == sources_hold(*world, terms@),
        r matches Some(locs) ==> locs@.len() == terms@.len() && forall|j: int|
            0 <= j < terms@.len() ==> match #[trigger] locs@[j] {
                Some(loc) => terms@[j].src != 0 && source_at(*world, terms@[j], loc),
                None => terms@[j].src == 0,
            },
{
    let mut locs: Vec<Option<SourceLoc>> = Vec::new();
    let mut j: usize = 0;
    while j < terms.len()
        invariant
            world.wf(),
            j <= terms@.len(),
            locs@.len() == j,
            forall|k: int|
                0 <= k < j ==> match #[trigger] locs@[k] {
                    Some(loc) => terms@[k].src != 0 && source_at(*world, terms@[k], loc),
                    None => terms@[k].src == 0,
                },
            forall|k: int|
                0 <= k < j && (#[trigger] terms@[k]).src != 0 ==> world.entity_has(
                    terms@[k].src,
                    terms@[k].id,
                ),
        decreases terms@.len() - j,
    {
        let term = terms[j];
        if term.src == 0 {
            locs.push(None);
        } else {
            match world.locate(term.src) {
                Some((t, row)) => {
                    match world.tables[t].column_index(term.id) {
                        Some(c) => {
                            assert(world.tables@[t as int].has_id(term.id));
                            locs.push(Some((t, row, c)));
                        },
                        None => {
                            proof {
                                assert(!world.entity_has(term.src, term.id)) by {
                                    if world.entity_has(term.src, term.id) {
                                        let (t2, r2) = choose|t2: int, r2: int|
                                            0 <= t2 < world.tables@.len() && 0 <= r2
                                                < world.tables@[t2].entities@.len()
                                                && #[trigger] world.tables@[t2].entities@[r2]
                                                == term.src && world.tables@[t2].has_id(term.id);
                                        assert(world.tables@[t as int].entities@[row as int]
                                            == world.tables@[t2].entities@[r2]);
                                    }
                                }
                                assert(terms@[j as int] == term);
                            }
                            return None;
                        },
                    }
                },
                None => {
                    proof {
                        assert(!world.entity_has(term.src, term.id)) by {
                            if world.entity_has(term.src, term.id) {
                                let (t2, r2) = choose|t2: int, r2: int|
                                    0 <= t2 < world.tables@.len() && 0 <= r2
                                        < world.tables@[t2].entities@.len()
                                        && #[trigger] world.tables@[t2].entities@[r2] == term.src
                                        && world.tables@[t2].has_id(term.id);
                                assert(world.tables@[t2].entities@.contains(term.src));
                            }
                        }
                        assert(terms@[j as int] == term);
                    }
                    return None;
                },
            }
        }
        j += 1;
    }
    Some(locs)
}

/// The tables that match the terms, in visit order: ascending group key, and creation order
/// within a group.
pub fn matching_tables<V>(world: &World<V>, terms: &Vec<Term>, group_by: Entity) -> (r: Vec<usize>)
    requires
        world.wf(),
    ensures
        table_order(*world, terms@, group_by, r@),
{
    let mut order: Vec<usize> = Vec::new();
    let mut keys: Vec<u64> = Vec::new();
    let mut t: usize = 0;
    while t < world.tables.len()
        invariant
            world.wf(),
            t <= world.tables@.len(),
            keys@.len() == order@.len(),
            forall|i: int|
                0 <= i < order@.len() ==> (#[trigger] order@[i]) < t && keys@[i] == group_key_of(
                    *world,
                    group_by,
                    order@[i] as int,
                ),
            forall|u: usize| order@.contains(u) <==> (u < t && table_matches(*world, terms@, u as int)),
            forall|a: int, b: int|
                0 <= a < b < order@.len() ==> visits_before(
                    *world,
                    group_by,
                    order@[a] as int,
                    order@[b] as int,
                ),
        decreases world.tables@.len() - t,
    {
        if table_matches_exec(world, terms, t) {
            let k: u64 = if group_by == 0 {
                0
            } else {
                world.tables[t].group_key(group_by)
            };
            let mut p: usize = 0;
            while p < keys.len() && keys[p] <= k
                invariant
                    p <= keys@.len(),
                    forall|q: int| 0 <= q < p ==> keys@[q] <= k,
                decreases keys@.len() - p,
            {
                p += 1;
            }
            let ghost old_order = order@;
            let ghost old_keys = keys@;
            proof {
                assert forall|q: int| p <= q < old_keys.len() implies old_keys[q] > k by {
                    if p < old_keys.len() && q > p {
                        assert(visits_before(*world, group_by, old_order[p as int] as int, old_order[q] as int));
                    }
                }
            }
            order.insert(p, t);
            keys.insert(p, k);
            proof {
                assert forall|i: int|
                    0 <= i < order@.len() implies (#[trigger] order@[i]) < t + 1 && keys@[i]
                    == group_key_of(*world, group_by, order@[i] as int) by {
                    if i < p {
                        assert(order@[i] == old_order[i]);
                    } else if i > p {
                        assert(order@[i] == old_order[i - 1]);
                    }
                }
                assert forall|u: usize| order@.contains(u) <==> (u < t + 1 && table_matches(*world, terms@, u as int)) by {
                    if order@.contains(u) {
                        let i = choose|i: int| 0 <= i < order@.len() && order@[i] == u;
                        if i < p {
                            assert(old_order[i] == u);
                            assert(old_order.contains(u));
                        } else if i > p {
                            assert(old_order[i - 1] == u);
                            assert(old_order.contains(u));
                        } else {
                            assert(u == t);
                        }
                    }
                    if u < t + 1 && table_matches(*world, terms@, u as int) {
                        if u == t {
                            assert(order@[p as int] == u);
                        } else {
                            assert(old_order.contains(u));
                            let i = choose|i: int| 0 <= i < old_order.len() && old_order[i] == u;
                            if i < p {
                                assert(order@[i] == u);
                            } else {
                                assert(order@[i + 1] == u);
                            }
                        }
                    }
                }
                assert forall|a: int, b: int|
                    0 <= a < b < order@.len() implies visits_before(
                    *world,
                    group_by,
                    order@[a] as int,
                    order@[b] as int,
                ) by {
                    if a < p && b < p {
                        assert(order@[a] == old_order[a] && order@[b] == old_order[b]);
                    } else if a < p && b == p {
                        assert(order@[a] == old_order[a]);
                        assert(old_order.contains(old_order[a]));
                    } else if a < p && b > p {
                        assert(order@[a] == old_order[a] && order@[b] == old_order[b - 1]);
                    } else if a == p {
                        assert(order@[b] == old_order[b - 1]);
                        assert(old_keys[b - 1] > k);
                    } else {
                        assert(order@[a] == old_order[a - 1] && order@[b] == old_order[b - 1]);
                    }
                }
            }
        } else {
            proof {
                assert forall|u: usize| order@.contains(u) <==> (u < t + 1 && table_matches(*world, terms@, u as int)) by {
                    if order@.contains(u) {
                        let i = choose|i: int| 0 <= i < order@.len() && order@[i] == u;
                        assert(order@[i] < t);
                        assert(table_matches(*world, terms@, u as int));
                        assert(u < t + 1);
                    }
                    if u < t + 1 && table_matches(*world, terms@, u as int) {
                        if u == t {
                            assert(false);
                        }
                        assert(u < t);
                        assert(order@.contains(u));
                    }
                }
            }
        }
        t += 1;
    }
    order
}

} // verus!

verus! {

/// Column of `table` that holds `id` (the only one: type ids are strictly ascending).
pub open spec fn col_of<V>(table: Table<V>, id: IdT) -> int {
    choose|c: int| 0 <= c < table.type_ids@.len() && table.type_ids@[c] == id
}

/// Value of fixed-source `term`: what its source entity holds for the term's id.
pub open spec fn source_value<V>(world: World<V>, term: Term) -> V {
    let loc = choose|loc: SourceLoc| source_at(world, term, loc);
    world.tables@[loc.0 as int].columns@[loc.2 as int]@[loc.1 as int]
}

/// Value that row `row` of the batch of `table` reads for `term`.
pub open spec fn term_value<V>(world: World<V>, term: Term, table: Option<usize>, row: int) -> V {
    if term.src != 0 {
        source_value(world, term)
    } else {
        let t = table->0 as int;
        world.tables@[t].columns@[col_of(world.tables@[t], term.id)]@[row]
    }
}

/// `tuple` holds, in term order, the values that row `row` of the batch of `table` reads.
pub open spec fn row_tuple<V>(
    world: World<V>,
    terms: Seq<Term>,
    table: Option<usize>,
    row: int,
    tuple: Seq<&V>,
) -> bool {
    &&& tuple.len() == terms.len()
    &&& forall|j: int| 0 <= j < terms.len() ==> *tuple[j] == term_value(world, terms[j], table, row)
}

/// The column of `id` in a table with strictly ascending ids is the one `col_of` names.
pub proof fn lemma_col_unique<V>(table: Table<V>, id: IdT, c: int)
    requires
        table.wf(),
        0 <= c < table.type_ids@.len(),
        table.type_ids@[c] == id,
    ensures
        col_of(table, id) == c,
{
    let d = col_of(table, id);
    assert(0 <= d < table.type_ids@.len() && table.type_ids@[d] == id);
    if d < c {
        assert(table.type_ids@[d] < table.type_ids@[c]);
    } else if c < d {
        assert(table.type_ids@[c] < table.type_ids@[d]);
    }
}

/// A fixed source's value is the one stored at any location of the source.
pub proof fn lemma_source_value<V>(world: World<V>, term: Term, loc: SourceLoc)
    requires
        world.wf(),
        source_at(world, term, loc),
    ensures
        source_value(world, term) == world.tables@[loc.0 as int].columns@[loc.2 as int]@[loc.1 as int],
{
    let l2 = choose|l: SourceLoc| source_at(world, term, l);
    assert(source_at(world, term, l2));
    let (t, r, c) = loc;
    let (t2, r2, c2) = l2;
    assert(world.tables@[t as int].entities@[r as int] == world.tables@[t2 as int].entities@[r2 as int]);
    assert(t == t2 && r == r2);
    assert(world.tables@[t as int].wf());
    lemma_col_unique(world.tables@[t as int], term.id, c as int);
    lemma_col_unique(world.tables@[t as int], term.id, c2 as int);
}

/// Every batch of a pass names a matching table, or no table when nothing is matched on the
/// entity itself.
pub proof fn lemma_batch_tables<V>(
    world: World<V>,
    terms: Seq<Term>,
    group_by: Entity,
    batches: Seq<Option<usize>>,
    b: int,
)
    requires
        batch_order(world, terms, group_by, batches),
        0 <= b < batches.len(),
    ensures
        sources_hold(world, terms),
        batches[b] matches Some(t) ==> table_matches(world, terms, t as int),
        batches[b] is None ==> !has_self_term(terms),
{
    if has_self_term(terms) {
        let order = choose|order: Seq<usize>|
            table_order(world, terms, group_by, order) && batches == order.map_values(
                |t: usize| Some(t),
            );
        assert(batches[b] == Some(order[b]));
        assert(order.contains(order[b]));
    }
}

} // verus!

verus! {

/// Each table of `order` is visited before every later one.
pub open spec fn sorted_visits<V>(world: World<V>, group_by: Entity, order: Seq<usize>) -> bool {
    forall|a: int, b: int|
        0 <= a < b < order.len() ==> visits_before(world, group_by, order[a] as int, order[b] as int)
}

/// Two visit-sorted sequences of the same tables are equal.
pub proof fn lemma_sorted_unique<V>(
    world: World<V>,
    group_by: Entity,
    o1: Seq<usize>,
    o2: Seq<usize>,
)
    requires
        sorted_visits(world, group_by, o1),
        sorted_visits(world, group_by, o2),
        forall|x: usize| o1.contains(x) <==> o2.contains(x),
    ensures
        o1 == o2,
    decreases o1.len(),
{
    if o1.len() == 0 {
        if o2.len() > 0 {
            assert(o2.contains(o2[0]));
        }
        assert(o1 =~= o2);
    } else {
        assert(o1.contains(o1[0]));
        assert(o2.len() > 0);
        assert(o2.contains(o2[0]));
        let k1 = choose|k: int| 0 <= k < o1.len() && o1[k] == o2[0];
        let k2 = choose|k: int| 0 <= k < o2.len() && o2[k] == o1[0];
        if o1[0] != o2[0] {
            assert(k1 > 0 && k2 > 0);
            assert(visits_before(world, group_by, o1[0] as int, o1[k1] as int));
            assert(visits_before(world, group_by, o2[0] as int, o2[k2] as int));
            assert(false);
        }
        let t1 = o1.drop_first();
        let t2 = o2.drop_first();
        assert forall|x: usize| t1.contains(x) <==> t2.contains(x) by {
            if t1.contains(x) {
                let i = choose|i: int| 0 <= i < t1.len() && t1[i] == x;
                assert(o1[i + 1] == x);
                assert(visits_before(world, group_by, o1[0] as int, o1[i + 1] as int));
                assert(o1.contains(x));
                let j = choose|j: int| 0 <= j < o2.len() && o2[j] == x;
                assert(j != 0);
                assert(t2[j - 1] == x);
            }
            if t2.contains(x) {
                let i = choose|i: int| 0 <= i < t2.len() && t2[i] == x;
                assert(o2[i + 1] == x);
                assert(visits_before(world, group_by, o2[0] as int, o2[i + 1] as int));
                assert(o2.contains(x));
                let j = choose|j: int| 0 <= j < o1.len() && o1[j] == x;
                assert(j != 0);
                assert(t1[j - 1] == x);
            }
        }
        assert forall|a: int, b: int| 0 <= a < b < t1.len() implies visits_before(
            world,
            group_by,
            t1[a] as int,
            t1[b] as int,
        ) by {
            assert(t1[a] == o1[a + 1] && t1[b] == o1[b + 1]);
        }
        assert forall|a: int, b: int| 0 <= a < b < t2.len() implies visits_before(
            world,
            group_by,
            t2[a] as int,
            t2[b] as int,
        ) by {
            assert(t2[a] == o2[a + 1] && t2[b] == o2[b + 1]);
        }
        lemma_sorted_unique(world, group_by, t1, t2);
        assert(o1 =~= o2) by {
            assert forall|i: int| 0 <= i < o1.len() implies o1[i] == o2[i] by {
                if i > 0 {
                    assert(o1[i] == t1[i - 1]);
                    assert(o2[i] == t2[i - 1]);
                }
            }
        }
    }
}

/// A query's pass is unique: two batch sequences that both meet `batch_order` are equal.
pub proof fn lemma_batch_order_unique<V>(
    world: World<V>,
    terms: Seq<Term>,
    group_by: Entity,
    b1: Seq<Option<usize>>,
    b2: Seq<Option<usize>>,
)
    requires
        batch_order(world, terms, group_by, b1),
        batch_order(world, terms, group_by, b2),
    ensures
        b1 == b2,
{
    if !sources_hold(world, terms) {
        assert(b1 =~= b2);
    } else if has_self_term(terms) {
        let o1 = choose|order: Seq<usize>|
            table_order(world, terms, group_by, order) && b1 == order.map_values(
                |t: usize| Some(t),
            );
        let o2 = choose|order: Seq<usize>|
            table_order(world, terms, group_by, order) && b2 == order.map_values(
                |t: usize| Some(t),
            );
        lemma_sorted_unique(world, group_by, o1, o2);
    }
}

/// The batches one pass of the query yields.
pub open spec fn pass_of<V>(world: World<V>, terms: Seq<Term>, group_by: Entity) -> Seq<
    Option<usize>,
> {
    choose|b: Seq<Option<usize>>| batch_order(world, terms, group_by, b)
}

/// A sequence that meets `batch_order` is the pass.
pub proof fn lemma_pass_of<V>(
    world: World<V>,
    terms: Seq<Term>,
    group_by: Entity,
    b: Seq<Option<usize>>,
)
    requires
        batch_order(world, terms, group_by, b),
    ensures
        pass_of(world, terms, group_by) == b,
{
    let p = pass_of(world, terms, group_by);
    assert(batch_order(world, terms, group_by, p));
    lemma_batch_order_unique(world, terms, group_by, p, b);
}

} // verus!

verus! {

/// What a query is made from: its terms, and the relationship whose target groups the matched
/// tables (0: not grouped).
pub struct QueryDesc {
    pub terms: Vec<Term>,
    pub group_by: Entity,
}

/// A query over a world: its terms and its grouping.
pub struct Filter<'w, V> {
    pub world: &'w World<V>,
    pub terms: Vec<Term>,
    pub group_by: Entity,
}

/// A borrowed view of a query.
pub struct FilterView<'a, V> {
    pub world: &'a World<V>,
    pub filter: &'a Filter<'a, V>,
}

/// Starting and advancing passes of a query.
pub trait IterOperations<'w, V> {
    /// The world the query runs over.
    spec fn world_spec(&self) -> World<V>;

    /// The query's terms.
    spec fn terms_spec(&self) -> Seq<Term>;

    /// The query's grouping relationship.
    spec fn group_by_spec(&self) -> Entity;

    /// The world is well formed.
    spec fn query_wf(&self) -> bool;

    /// Starts a pass: no batch current, no table locked.
    fn retrieve_iter(&self) -> (r: IterT<'w, V>)
        requires
            self.query_wf(),
        ensures
            r.wf(),
            *r.world == self.world_spec(),
            r.terms@ == self.terms_spec(),
            r.group_by == self.group_by_spec(),
            r.next == 0,
            !r.valid,
            !r.each_mode,
            r.no_locks(),
    ;

    /// Advances a pass to its next batch.
    fn iter_next(&self, iter: &mut IterT<'w, V>) -> (r: bool)
        requires
            old(iter).wf(),
            old(iter).no_locks(),
        ensures
            final(iter).wf(),
            final(iter).no_locks(),
            final(iter).same_pass(*old(iter)),
            r == (old(iter).next < old(iter).batches@.len()),
            r ==> final(iter).valid && final(iter).next == old(iter).next + 1,
            !r ==> !final(iter).valid && final(iter).next == old(iter).next,
    ;
}

impl<'w, V> Filter<'w, V> {
    /// The world is well formed.
    pub open spec fn wf(&self) -> bool {
        self.world.wf()
    }

    /// The batches one pass of this query yields.
    pub open spec fn pass(&self) -> Seq<Option<usize>> {
        pass_of(*self.world, self.terms@, self.group_by)
    }

    /// A query whose terms ask for `ids` on the iterated entities, ungrouped.
    pub fn new(world: &'w World<V>, ids: Vec<IdT>) -> (r: Filter<'w, V>)
        ensures
            r.world == world,
            r.group_by == 0,
            r.terms@.len() == ids@.len(),
            forall|j: int|
                0 <= j < ids@.len() ==> (#[trigger] r.terms@[j]).id == ids@[j] && r.terms@[j].src == 0
                    && !r.terms@[j].readonly,
    {
        let mut terms: Vec<Term> = Vec::new();
        let mut j: usize = 0;
        while j < ids.len()
            invariant
                j <= ids@.len(),
                terms@.len() == j,
                forall|k: int|
                    0 <= k < j ==> (#[trigger] terms@[k]).id == ids@[k] && terms@[k].src == 0
                        && !terms@[k].readonly,
            decreases ids@.len() - j,
        {
            terms.push(Term { id: ids[j], src: 0, readonly: false });
            j += 1;
        }
        Filter { world, terms, group_by: 0 }
    }

    /// A query made from a description.
    pub fn new_from_desc(world: &'w World<V>, desc: QueryDesc) -> (r: Filter<'w, V>)
        ensures
            r.world == world,
            r.terms@ == desc.terms@,
            r.group_by == desc.group_by,
    {
        Filter { world, terms: desc.terms, group_by: desc.group_by }
    }
}

impl<'w, V> IterOperations<'w, V> for Filter<'w, V> {
    open spec fn world_spec(&self) -> World<V> {
        *self.world
    }

    open spec fn terms_spec(&self) -> Seq<Term> {
        self.terms@
    }

    open spec fn group_by_spec(&self) -> Entity {
        self.group_by
    }

    open spec fn query_wf(&self) -> bool {
        self.world.wf()
    }

    fn retrieve_iter(&self) -> (r: IterT<'w, V>) {
        IterT::new(self.world, clone_terms(&self.terms), self.group_by)
    }

    fn iter_next(&self, iter: &mut IterT<'w, V>) -> (r: bool) {
        iter.next()
    }
}

impl<'a, V> FilterView<'a, V> {
    /// A view of `filter` that runs over `world`.
    pub fn new(world: &'a World<V>, filter: &'a Filter<'a, V>) -> (r: FilterView<'a, V>)
        ensures
            r.world == world,
            r.filter == filter,
    {
        FilterView { world, filter }
    }
}

impl<'a, V> IterOperations<'a, V> for FilterView<'a, V> {
    open spec fn world_spec(&self) -> World<V> {
        *self.world
    }

    open spec fn terms_spec(&self) -> Seq<Term> {
        self.filter.terms@
    }

    open spec fn group_by_spec(&self) -> Entity {
        self.filter.group_by
    }

    open spec fn query_wf(&self) -> bool {
        self.world.wf()
    }

    fn retrieve_iter(&self) -> (r: IterT<'a, V>) {
        IterT::new(self.world, clone_terms(&self.filter.terms), self.filter.group_by)
    }

    fn iter_next(&self, iter: &mut IterT<'a, V>) -> (r: bool) {
        iter.next()
    }
}

/// A copy of a term list.
pub fn clone_terms(terms: &Vec<Term>) -> (r: Vec<Term>)
    ensures
        r@ == terms@,
{
    let mut out: Vec<Term> = Vec::new();
    let mut j: usize = 0;
    while j < terms.len()
        invariant
            j <= terms@.len(),
            out@ == terms@.subrange(0, j as int),
        decreases terms@.len() - j,
    {
        out.push(terms[j]);
        j += 1;
        assert(out@ =~= terms@.subrange(0, j as int));
    }
    assert(terms@.subrange(0, terms@.len() as int) =~= terms@);
    out
}

} // verus!
