//! Propagation of a change: which cells it reaches, in which order they are
//! recomputed, which cell the worker takes up next, and the commit of a
//! recomputation once its outcome is known.

use crate::cell::{CellExprEvalError, CellIdentifier, CellValue};
use crate::consistency::lemma_reached_is_assigned;
use crate::expression::bound;
use crate::model::{
    dependents_sound, is_update_order, later, lemma_closed_holds_reached,
    lemma_notified_is_reached, lemma_reached_is_notified, lemma_reaches_then_notifies,
    lemma_reaches_transitive, notifies, reaches, reaches_nothing, recomputed, resolved,
    written_by, written_forward, Cells,
};
use crate::reference::{expression_cells, expression_references};
use crate::spreadsheet::{
    cells_of, outcome_value, value_of, Evaluation, SheetView, Spreadsheet,
};
use std::collections::HashMap;
use std::collections::HashSet;
use vstd::prelude::*;

verus! {

/// The producers recorded for each consumer, under the consumer's key.
type Producers = HashMap<u64, HashSet<u64>>;

/// What holds while the cells that a change of `origin` reaches are being
/// searched: `discovered` begins with the origin and holds only cells that it
/// reaches, `seen` holds their keys, and `graph` records under each consumer
/// the producers of the notifications in `edges`, which are those followed so
/// far.
spec fn searching(
    cells: Cells,
    origin: CellIdentifier,
    discovered: Seq<CellIdentifier>,
    seen: Set<u64>,
    graph: Map<u64, HashSet<u64>>,
    edges: Set<(CellIdentifier, CellIdentifier)>,
) -> bool {
    &&& discovered.len() >= 1
    &&& discovered[0] == origin
    &&& discovered.no_duplicates()
    &&& forall|id: CellIdentifier| #[trigger] seen.contains(id.key()) <==> discovered.contains(id)
    &&& forall|i: int|
        1 <= i < discovered.len() ==> reaches(cells, origin, #[trigger] discovered[i])
    &&& forall|u: CellIdentifier, v: CellIdentifier| #[trigger]
        edges.contains((u, v)) ==> notifies(cells, u, v) && discovered.contains(u)
            && discovered.contains(v)
    &&& forall|u: CellIdentifier, v: CellIdentifier|
        #![trigger edges.contains((u, v))]
        #![trigger graph[v.key()]@.contains(u.key())]
        edges.contains((u, v)) <==> graph.contains_key(v.key()) && graph[v.key()]@.contains(
            u.key(),
        )
    &&& forall|v: CellIdentifier| #[trigger]
        graph.contains_key(v.key()) ==> exists|u: CellIdentifier| #[trigger] edges.contains((u, v))
}

/// What the search has found: `discovered` holds the origin and every cell
/// that a change of it reaches; `graph` has an entry for each cell reached,
/// and in it the cells among the discovered ones that notify it.
spec fn searched(
    cells: Cells,
    origin: CellIdentifier,
    discovered: Seq<CellIdentifier>,
    graph: Map<u64, HashSet<u64>>,
) -> bool {
    &&& discovered.len() >= 1
    &&& discovered[0] == origin
    &&& discovered.no_duplicates()
    &&& forall|id: CellIdentifier| #[trigger]
        discovered.contains(id) <==> id == origin || reaches(cells, origin, id)
    &&& forall|v: CellIdentifier| #[trigger]
        graph.contains_key(v.key()) <==> reaches(cells, origin, v)
    &&& forall|u: CellIdentifier, v: CellIdentifier|
        graph.contains_key(v.key()) ==> (#[trigger] graph[v.key()]@.contains(u.key())
            <==> notifies(cells, u, v) && discovered.contains(u))
}

/// A list without repetition whose members, but for the first, all lie in a
/// finite set is at most one longer than the set is large.
proof fn lemma_bounded_by_domain(discovered: Seq<CellIdentifier>, domain: Set<CellIdentifier>)
    requires
        domain.finite(),
        discovered.no_duplicates(),
        discovered.len() >= 1,
        forall|i: int| 1 <= i < discovered.len() ==> domain.contains(#[trigger] discovered[i]),
    ensures
        discovered.len() <= domain.len() + 1,
{
    let rest = discovered.skip(1);
    assert forall|i: int, j: int| 0 <= i < rest.len() && 0 <= j < rest.len() && i != j implies rest[i]
        != rest[j] by {
        assert(rest[i] == discovered[i + 1] && rest[j] == discovered[j + 1]);
    }
    rest.unique_seq_to_set();
    assert forall|id: CellIdentifier| rest.to_set().contains(id) implies domain.contains(id) by {
        let i = choose|i: int| 0 <= i < rest.len() && rest[i] == id;
        assert(rest[i] == discovered[i + 1]);
    }
    vstd::set_lib::lemma_len_subset(rest.to_set(), domain);
}

impl Spreadsheet {
    /// Searches, breadth first, the cells that a change of `origin` reaches,
    /// and records for each of them which of the cells found notify it.
    fn search(&self, origin: CellIdentifier) -> (found: (Vec<CellIdentifier>, Producers))
        requires
            self.wf(),
        ensures
            searched(self@.cells, origin, found.0@, found.1@),
    {
        broadcast use vstd::std_specs::hash::group_hash_axioms;

        let ghost cells = self@.cells;
        let mut graph: Producers = HashMap::new();
        let mut discovered: Vec<CellIdentifier> = Vec::new();
        let mut seen: HashSet<u64> = HashSet::new();
        let ghost mut edges: Set<(CellIdentifier, CellIdentifier)> = Set::empty();
        discovered.push(origin);
        seen.insert(origin.to_key());
        let mut head: usize = 0;
        proof {
            self.lemma_wf();
            assert forall|id: CellIdentifier| #[trigger]
                seen@.contains(id.key()) <==> discovered@.contains(id) by {
                CellIdentifier::lemma_key_injective(id, origin);
                if id == origin {
                    assert(discovered@[0] == id);
                }
            }
            lemma_bounded_by_domain(discovered@, cells.dom());
        }
        while head < discovered.len()
            invariant
                self.wf(),
                cells == self@.cells,
                cells.dom().finite(),
                dependents_sound(cells),
                head <= discovered.len(),
                searching(cells, origin, discovered@, seen@, graph@, edges),
                forall|i: int, v: CellIdentifier|
                    0 <= i < head && #[trigger] notifies(cells, discovered@[i], v)
                        ==> edges.contains((discovered@[i], v)),
                discovered.len() <= cells.dom().len() + 1,
            decreases cells.dom().len() + 1 - head,
        {
            let current = discovered[head];
            let dependents = self.dependents(&current);
            let mut next: usize = 0;
            while next < dependents.len()
                invariant
                    self.wf(),
                    cells == self@.cells,
                    cells.dom().finite(),
                    dependents_sound(cells),
                    head < discovered.len(),
                    current == discovered@[head as int],
                    next <= dependents.len(),
                    dependents@.to_set() == crate::model::dependents_of(cells, current),
                    searching(cells, origin, discovered@, seen@, graph@, edges),
                    forall|i: int, v: CellIdentifier|
                        0 <= i < head && #[trigger] notifies(cells, discovered@[i], v)
                            ==> edges.contains((discovered@[i], v)),
                    forall|j: int|
                        0 <= j < next ==> edges.contains((current, #[trigger] dependents@[j])),
                    discovered.len() <= cells.dom().len() + 1,
                decreases dependents.len() - next,
            {
                let dependent = dependents[next];
                let key = dependent.to_key();
                let ghost old_graph = graph@;
                let ghost old_discovered = discovered@;
                let ghost old_seen = seen@;
                let ghost old_edges = edges;
                proof {
                    assert(dependents@.to_set().contains(dependent));
                    assert(notifies(cells, current, dependent));
                    if head > 0 {
                        lemma_reaches_then_notifies(cells, origin, current, dependent);
                    } else {
                        lemma_notified_is_reached(cells, origin, dependent);
                    }
                }
                let mut producers = match graph.remove(&key) {
                    Some(recorded) => recorded,
                    None => HashSet::new(),
                };
                let ghost old_producers = producers@;
                producers.insert(current.to_key());
                graph.insert(key, producers);
                if seen.insert(key) {
                    discovered.push(dependent);
                }
                proof {
                    edges = edges.insert((current, dependent));
                    assert(old_graph.contains_key(key) ==> old_producers == old_graph[key]@);
                    assert(!old_graph.contains_key(key) ==> old_producers == Set::<u64>::empty());
                    assert forall|id: CellIdentifier| #[trigger]
                        seen@.contains(id.key()) <==> discovered@.contains(id) by {
                        CellIdentifier::lemma_key_injective(id, dependent);
                        if old_discovered.contains(id) {
                            let i = choose|i: int|
                                0 <= i < old_discovered.len() && old_discovered[i] == id;
                            assert(discovered@[i] == id);
                        }
                        if discovered@.contains(id) && !old_discovered.contains(id) {
                            let i = choose|i: int| 0 <= i < discovered@.len() && discovered@[i] == id;
                            assert(i == old_discovered.len());
                        }
                        if id == dependent {
                            if old_seen.contains(key) {
                                assert(old_discovered.contains(dependent));
                            } else {
                                assert(discovered@[old_discovered.len() as int] == dependent);
                            }
                        }
                    }
                    assert(discovered@.no_duplicates()) by {
                        if !old_seen.contains(key) {
                            assert(!old_discovered.contains(dependent));
                        }
                    }
                    assert forall|u: CellIdentifier, v: CellIdentifier| #[trigger]
                        edges.contains((u, v)) implies notifies(cells, u, v)
                        && discovered@.contains(u) && discovered@.contains(v) by {
                        if (u, v) == (current, dependent) {
                            assert(discovered@[head as int] == current);
                            assert(seen@.contains(dependent.key()));
                        } else {
                            assert(old_edges.contains((u, v)));
                            assert(seen@.contains(u.key()));
                            assert(seen@.contains(v.key()));
                        }
                    }
                    assert forall|u: CellIdentifier, v: CellIdentifier|
                        #![trigger edges.contains((u, v))]
                        #![trigger graph@[v.key()]@.contains(u.key())]
                        edges.contains((u, v)) <==> graph@.contains_key(v.key())
                            && graph@[v.key()]@.contains(u.key()) by {
                        CellIdentifier::lemma_key_injective(v, dependent);
                        CellIdentifier::lemma_key_injective(u, current);
                        if v == dependent {
                            assert(graph@[v.key()]@ == old_producers.insert(current.key()));
                            if u != current {
                                assert(old_edges.contains((u, v)) <==> edges.contains((u, v)));
                            }
                        } else {
                            assert(old_edges.contains((u, v)) <==> edges.contains((u, v)));
                            assert(graph@.contains_key(v.key()) <==> old_graph.contains_key(
                                v.key(),
                            ));
                        }
                    }
                    assert forall|v: CellIdentifier| #[trigger]
                        graph@.contains_key(v.key()) implies exists|u: CellIdentifier| #[trigger]
                        edges.contains((u, v)) by {
                        CellIdentifier::lemma_key_injective(v, dependent);
                        if v == dependent {
                            assert(edges.contains((current, v)));
                        } else {
                            assert(old_graph.contains_key(v.key()));
                            let u = choose|u: CellIdentifier| #[trigger]
                                old_edges.contains((u, v));
                            assert(edges.contains((u, v)));
                        }
                    }
                    assert forall|i: int| 1 <= i < discovered@.len() implies reaches(
                        cells,
                        origin,
                        #[trigger] discovered@[i],
                    ) by {
                        if i < old_discovered.len() {
                            assert(discovered@[i] == old_discovered[i]);
                        }
                    }
                    assert forall|i: int| 1 <= i < discovered@.len() implies cells.dom().contains(
                        #[trigger] discovered@[i],
                    ) by {
                        let reached = discovered@[i];
                        let before = lemma_reached_is_notified(cells, origin, reached);
                    }
                    lemma_bounded_by_domain(discovered@, cells.dom());
                    assert forall|i: int, v: CellIdentifier|
                        0 <= i < head && #[trigger] notifies(
                            cells,
                            discovered@[i],
                            v,
                        ) implies edges.contains((discovered@[i], v)) by {
                        assert(discovered@[i] == old_discovered[i]);
                        assert(old_edges.contains((old_discovered[i], v)));
                    }
                }
                next += 1;
            }
            proof {
                assert forall|i: int, v: CellIdentifier|
                    0 <= i < head + 1 && #[trigger] notifies(
                        cells,
                        discovered@[i],
                        v,
                    ) implies edges.contains((discovered@[i], v)) by {
                    if i == head {
                        assert(dependents@.to_set().contains(v));
                        let j = choose|j: int| 0 <= j < dependents@.len() && dependents@[j] == v;
                        assert(edges.contains((current, dependents@[j])));
                    }
                }
            }
            head += 1;
        }
        proof {
            let closed = discovered@.to_set();
            assert forall|id: CellIdentifier| #[trigger]
                discovered@.contains(id) <==> id == origin || reaches(cells, origin, id) by {
                if discovered@.contains(id) {
                    let i = choose|i: int| 0 <= i < discovered@.len() && discovered@[i] == id;
                    if i >= 1 {
                        assert(reaches(cells, origin, discovered@[i]));
                    }
                }
                if id == origin {
                    assert(discovered@[0] == origin);
                }
                if reaches(cells, origin, id) {
                    assert forall|v: CellIdentifier| notifies(cells, origin, v) implies closed.contains(
                        v,
                    ) by {
                        assert(notifies(cells, discovered@[0], v));
                        assert(edges.contains((discovered@[0], v)));
                    }
                    assert forall|u: CellIdentifier, v: CellIdentifier|
                        closed.contains(u) && #[trigger] notifies(
                            cells,
                            u,
                            v,
                        ) implies closed.contains(v) by {
                        let i = choose|i: int| 0 <= i < discovered@.len() && discovered@[i] == u;
                        assert(notifies(cells, discovered@[i], v));
                        assert(edges.contains((discovered@[i], v)));
                    }
                    lemma_closed_holds_reached(cells, origin, closed, id);
                }
            }
            assert forall|v: CellIdentifier| #[trigger]
                graph@.contains_key(v.key()) <==> reaches(cells, origin, v) by {
                if graph@.contains_key(v.key()) {
                    let u = choose|u: CellIdentifier| #[trigger] edges.contains((u, v));
                    assert(discovered@.contains(u));
                    if u == origin {
                        lemma_notified_is_reached(cells, origin, v);
                    } else {
                        lemma_reaches_then_notifies(cells, origin, u, v);
                    }
                }
                if reaches(cells, origin, v) {
                    let before = lemma_reached_is_notified(cells, origin, v);
                    assert(discovered@.contains(before));
                    let i = choose|i: int| 0 <= i < discovered@.len() && discovered@[i] == before;
                    assert(notifies(cells, discovered@[i], v));
                    assert(edges.contains((discovered@[i], v)));
                }
            }
            assert forall|u: CellIdentifier, v: CellIdentifier|
                graph@.contains_key(v.key()) implies (#[trigger] graph@[v.key()]@.contains(
                u.key(),
            ) <==> notifies(cells, u, v) && discovered@.contains(u)) by {
                if notifies(cells, u, v) && discovered@.contains(u) {
                    let i = choose|i: int| 0 <= i < discovered@.len() && discovered@[i] == u;
                    assert(notifies(cells, discovered@[i], v));
                    assert(edges.contains((discovered@[i], v)));
                }
                if graph@[v.key()]@.contains(u.key()) {
                    assert(edges.contains((u, v)));
                }
            }
        }
        (discovered, graph)
    }
}

/// Whether `graph` lists under each of its cells only cells that notify it,
/// and among them every cell that has an entry itself.
spec fn records_producers(cells: Cells, graph: Map<u64, HashSet<u64>>) -> bool {
    &&& forall|u: CellIdentifier, v: CellIdentifier|
        graph.contains_key(v.key()) && #[trigger] graph[v.key()]@.contains(u.key()) ==> notifies(
            cells,
            u,
            v,
        )
    &&& forall|u: CellIdentifier, v: CellIdentifier|
        graph.contains_key(v.key()) && graph.contains_key(u.key()) && #[trigger] notifies(
            cells,
            u,
            v,
        ) ==> graph[v.key()]@.contains(u.key())
}

/// What holds of the order while it is built: `sorted` holds each finished
/// cell once, `done` their keys, no finished cell is still being visited,
/// and every producer of a finished cell that has an entry in `graph` either
/// stands before it or is reached from it, over a cycle.
spec fn ordering(
    cells: Cells,
    graph: Map<u64, HashSet<u64>>,
    done: Set<u64>,
    active: Set<u64>,
    sorted: Seq<CellIdentifier>,
) -> bool {
    &&& sorted.no_duplicates()
    &&& forall|id: CellIdentifier| #[trigger] done.contains(id.key()) <==> sorted.contains(id)
    &&& forall|i: int| 0 <= i < sorted.len() ==> graph.contains_key((#[trigger] sorted[i]).key())
    &&& forall|key: u64| !(#[trigger] done.contains(key) && active.contains(key))
    &&& forall|i: int, u: CellIdentifier|
        0 <= i < sorted.len() && graph.contains_key(u.key()) && #[trigger] notifies(
            cells,
            u,
            sorted[i],
        ) ==> stands_before(sorted, u, i) || reaches(cells, sorted[i], u)
}

/// Whether `id` stands in `sorted` before position `end`.
spec fn stands_before(sorted: Seq<CellIdentifier>, id: CellIdentifier, end: int) -> bool {
    exists|j: int| 0 <= j < end && j < sorted.len() && #[trigger] sorted[j] == id
}

/// The cells with an entry in `graph` that are neither finished nor being
/// visited.
spec fn unvisited(
    graph: Map<u64, HashSet<u64>>,
    done: Set<u64>,
    active: Set<u64>,
) -> Set<u64> {
    graph.dom().filter(|key: u64| !done.contains(key) && !active.contains(key))
}

/// Visits `node`: first the producers that are recorded for it, then the
/// node itself, which is appended to `sorted`. A node that is finished, or
/// that is being visited further up, is left alone: the latter closes a
/// cycle, and the notification that closes it is skipped.
fn visit(
    node: CellIdentifier,
    Ghost(cells): Ghost<Cells>,
    graph: &Producers,
    done: &mut HashSet<u64>,
    active: &mut HashSet<u64>,
    sorted: &mut Vec<CellIdentifier>,
)
    requires
        records_producers(cells, graph@),
        ordering(cells, graph@, old(done)@, old(active)@, old(sorted)@),
        forall|g: CellIdentifier| #[trigger]
            old(active)@.contains(g.key()) ==> reaches(cells, node, g),
    ensures
        ordering(cells, graph@, final(done)@, final(active)@, final(sorted)@),
        final(active)@ == old(active)@,
        old(sorted)@ == final(sorted)@.take(old(sorted)@.len() as int),
        old(sorted)@.len() <= final(sorted)@.len(),
        old(done)@.subset_of(final(done)@),
        graph@.contains_key(node.key()) && !old(active)@.contains(node.key())
            ==> final(done)@.contains(node.key()),
    decreases unvisited(graph@, old(done)@, old(active)@).len(),
{
    broadcast use vstd::std_specs::hash::group_hash_axioms;

    let key = node.to_key();
    if done.contains(&key) || active.contains(&key) {
        proof {
            assert(sorted@.take(sorted@.len() as int) =~= sorted@);
        }
        return ;
    }
    match graph.get(&key) {
        None => {
            proof {
                assert(sorted@.take(sorted@.len() as int) =~= sorted@);
            }
        },
        Some(recorded) => {
            let producers = cells_of(recorded);
            let ghost old_done = done@;
            let ghost old_active = active@;
            let ghost old_sorted = sorted@;
            active.insert(key);
            proof {
                let before = unvisited(graph@, old_done, old_active);
                let after = unvisited(graph@, done@, active@);
                assert(before.contains(key));
                assert(after =~= before.remove(key));
                assert(sorted@.take(sorted@.len() as int) =~= sorted@);
            }
            let mut i: usize = 0;
            while i < producers.len()
                invariant
                    0 <= i <= producers.len(),
                    key == node.key(),
                    graph@.contains_key(key),
                    forall|id: CellIdentifier|
                        producers@.contains(id) <==> graph@[key]@.contains(id.key()),
                    records_producers(cells, graph@),
                    ordering(cells, graph@, done@, active@, sorted@),
                    active@ == old_active.insert(key),
                    !old_active.contains(key),
                    old_done == old(done)@,
                    old_active == old(active)@,
                    old_sorted == sorted@.take(old_sorted.len() as int),
                    old_sorted.len() <= sorted@.len(),
                    old_done.subset_of(done@),
                    forall|g: CellIdentifier| #[trigger]
                        old_active.contains(g.key()) ==> reaches(cells, node, g),
                    forall|k: int|
                        0 <= k < i ==> {
                            let u = #[trigger] producers@[k];
                            done@.contains(u.key()) || active@.contains(u.key())
                                || !graph@.contains_key(u.key())
                        },
                    unvisited(graph@, done@, active@).len() < unvisited(
                        graph@,
                        old_done,
                        old_active,
                    ).len(),
                    graph@.dom().finite(),
                decreases producers.len() - i,
            {
                let producer = producers[i];
                let ghost mid_done = done@;
                let ghost mid_sorted = sorted@;
                proof {
                    assert(producers@.contains(producer));
                    assert(graph@[key]@.contains(producer.key()));
                    assert(notifies(cells, producer, node));
                    lemma_notified_is_reached(cells, producer, node);
                    assert forall|g: CellIdentifier| #[trigger]
                        active@.contains(g.key()) implies reaches(cells, producer, g) by {
                        CellIdentifier::lemma_key_injective(g, node);
                        if g != node {
                            lemma_reaches_transitive(cells, producer, node, g);
                        }
                    }
                }
                visit(producer, Ghost(cells), graph, done, active, sorted);
                proof {
                    assert(unvisited(graph@, done@, active@).subset_of(
                        unvisited(graph@, mid_done, active@),
                    ));
                    vstd::set_lib::lemma_len_subset(
                        unvisited(graph@, done@, active@),
                        unvisited(graph@, mid_done, active@),
                    );
                    assert(old_sorted =~= sorted@.take(old_sorted.len() as int)) by {
                        assert(mid_sorted == sorted@.take(mid_sorted.len() as int));
                    }
                }
                i += 1;
            }
            let ghost loop_done = done@;
            let ghost loop_sorted = sorted@;
            active.remove(&key);
            done.insert(key);
            sorted.push(node);
            proof {
                let n = loop_sorted.len() as int;
                assert(active@ =~= old_active);
                assert(!loop_sorted.contains(node));
                assert(old_sorted =~= sorted@.take(old_sorted.len() as int)) by {
                    assert(old_sorted == loop_sorted.take(old_sorted.len() as int));
                }
                assert forall|id: CellIdentifier| #[trigger]
                    done@.contains(id.key()) <==> sorted@.contains(id) by {
                    CellIdentifier::lemma_key_injective(id, node);
                    if loop_sorted.contains(id) {
                        let j = choose|j: int| 0 <= j < loop_sorted.len() && loop_sorted[j] == id;
                        assert(sorted@[j] == id);
                    }
                    if sorted@.contains(id) {
                        let j = choose|j: int| 0 <= j < sorted@.len() && sorted@[j] == id;
                        if j < n {
                            assert(loop_sorted[j] == id);
                        }
                    }
                    if id == node {
                        assert(sorted@[n] == node);
                    }
                }
                assert forall|i: int, u: CellIdentifier|
                    0 <= i < sorted@.len() && graph@.contains_key(u.key()) && #[trigger] notifies(
                        cells,
                        u,
                        sorted@[i],
                    ) implies stands_before(sorted@, u, i) || reaches(cells, sorted@[i], u) by {
                    if i < n {
                        assert(loop_sorted[i] == sorted@[i]);
                        assert(notifies(cells, u, loop_sorted[i]));
                        if stands_before(loop_sorted, u, i) {
                            let j = choose|j: int|
                                0 <= j < i && j < loop_sorted.len() && #[trigger] loop_sorted[j]
                                    == u;
                            assert(sorted@[j] == u);
                        }
                    } else {
                        assert(sorted@[i] == node);
                        assert(graph@[key]@.contains(u.key()));
                        assert(producers@.contains(u));
                        let k = choose|k: int| 0 <= k < producers@.len() && producers@[k] == u;
                        let found = producers@[k];
                        CellIdentifier::lemma_key_injective(u, node);
                        if loop_done.contains(u.key()) {
                            assert(loop_sorted.contains(u));
                            let j = choose|j: int|
                                0 <= j < loop_sorted.len() && loop_sorted[j] == u;
                            assert(sorted@[j] == u);
                        } else if u == node {
                            lemma_notified_is_reached(cells, node, node);
                        } else {
                            assert(old_active.contains(u.key()));
                        }
                    }
                }
            }
        },
    }
}

impl Spreadsheet {
    /// The cells to recompute after a change of `origin`, in the order of
    /// their recomputation: every cell that the change reaches, once, each
    /// after the cells that notify it. Where notifications run in a cycle,
    /// the one that closes it is skipped. The origin itself is part of the
    /// order only where it lies on a cycle.
    pub fn update_order(&self, origin: CellIdentifier) -> (order: Vec<CellIdentifier>)
        requires
            self.wf(),
        ensures
            is_update_order(self@.cells, origin, order@),
    {
        broadcast use vstd::std_specs::hash::group_hash_axioms;

        let ghost cells = self@.cells;
        let (discovered, graph) = self.search(origin);
        let mut sorted: Vec<CellIdentifier> = Vec::new();
        let mut done: HashSet<u64> = HashSet::new();
        let mut active: HashSet<u64> = HashSet::new();
        proof {
            assert(records_producers(cells, graph@)) by {
                assert forall|u: CellIdentifier, v: CellIdentifier|
                    graph@.contains_key(v.key()) && graph@.contains_key(u.key())
                        && #[trigger] notifies(cells, u, v) implies graph@[v.key()]@.contains(
                    u.key(),
                ) by {
                    assert(discovered@.contains(u));
                }
            }
        }
        let mut i: usize = 0;
        while i < discovered.len()
            invariant
                0 <= i <= discovered.len(),
                searched(cells, origin, discovered@, graph@),
                records_producers(cells, graph@),
                ordering(cells, graph@, done@, active@, sorted@),
                active@ == Set::<u64>::empty(),
                forall|k: int|
                    0 <= k < i && graph@.contains_key((#[trigger] discovered@[k]).key())
                        ==> done@.contains(discovered@[k].key()),
            decreases discovered.len() - i,
        {
            visit(discovered[i], Ghost(cells), &graph, &mut done, &mut active, &mut sorted);
            i += 1;
        }
        proof {
            assert forall|id: CellIdentifier| #[trigger]
                sorted@.contains(id) <==> reaches(cells, origin, id) by {
                if sorted@.contains(id) {
                    let j = choose|j: int| 0 <= j < sorted@.len() && sorted@[j] == id;
                    assert(graph@.contains_key(sorted@[j].key()));
                }
                if reaches(cells, origin, id) {
                    assert(discovered@.contains(id));
                    let k = choose|k: int| 0 <= k < discovered@.len() && discovered@[k] == id;
                    assert(graph@.contains_key(discovered@[k].key()));
                    assert(done@.contains(id.key()));
                }
            }
            assert forall|i: int, j: int|
                0 <= i < sorted@.len() && 0 <= j < sorted@.len() && #[trigger] notifies(
                    cells,
                    sorted@[i],
                    sorted@[j],
                ) implies i < j || reaches(cells, sorted@[j], sorted@[i]) by {
                let u = sorted@[i];
                assert(graph@.contains_key(u.key()));
                if stands_before(sorted@, u, j) {
                    let k = choose|k: int| 0 <= k < j && k < sorted@.len() && #[trigger] sorted@[k] == u;
                    assert(k == i);
                }
            }
        }
        sorted
    }
}

/// Whether `cell` is the cell to recompute next in the spreadsheet `before`,
/// and `after` has the lists that are left. Where cells are still to be
/// recomputed for the change in propagation, it is the first of them. Else
/// it is the first cell of an order of recomputation for the oldest change
/// in the queue that reaches a cell at all; that change and the changes
/// before it leave the queue, and the rest of the order is what is still to
/// be recomputed.
pub open spec fn takes_up(before: SheetView, after: SheetView, cell: CellIdentifier) -> bool {
    if before.remaining.len() > 0 {
        &&& cell == before.remaining[0]
        &&& after.remaining == before.remaining.drop_first()
        &&& after.pending == before.pending
    } else {
        exists|served: int, order: Seq<CellIdentifier>|
            {
                &&& 0 <= served < before.pending.len()
                &&& forall|i: int|
                    0 <= i < served ==> reaches_nothing(before.cells, #[trigger] before.pending[i])
                &&& #[trigger] is_update_order(before.cells, before.pending[served], order)
                &&& order.len() > 0
                &&& cell == order[0]
                &&& after.remaining == order.drop_first()
                &&& after.pending == before.pending.skip(served + 1)
            }
    }
}

impl Spreadsheet {
    /// What the worker does next. Where a cell is to be recomputed, it is
    /// taken up as `takes_up` says and the evaluation of its stored
    /// expression begins, no earlier than the latest time and so no earlier
    /// than the cell was last written. Where none is, no change of the queue
    /// reaches a cell; the queue is emptied and the worker is idle.
    pub fn next_recomputation(&mut self) -> (next: Option<(CellIdentifier, Evaluation)>)
        requires
            old(self).wf(),
        ensures
            final(self).wf(),
            final(self)@.cells == old(self)@.cells,
            match next {
                None => {
                    &&& old(self)@.remaining.len() == 0
                    &&& forall|i: int|
                        0 <= i < old(self)@.pending.len() ==> reaches_nothing(
                            old(self)@.cells,
                            #[trigger] old(self)@.pending[i],
                        )
                    &&& final(self)@.remaining.len() == 0
                    &&& final(self)@.pending.len() == 0
                    &&& final(self)@.latest == old(self)@.latest
                },
                Some((cell, evaluation)) => {
                    &&& takes_up(old(self)@, final(self)@, cell)
                    &&& old(self)@.cells.contains_key(cell)
                    &&& evaluation.expression@ == old(self)@.cells[cell].expression
                    &&& evaluation.dependencies@ == expression_cells(evaluation.expression@)
                    &&& bound(evaluation.scope) == resolved(
                        old(self)@.cells,
                        expression_references(evaluation.expression@),
                    )
                    &&& evaluation.started >= old(self)@.latest
                    &&& evaluation.started >= old(self)@.cells[cell].last_update_time
                    &&& final(self)@.latest == evaluation.started
                },
            },
    {
        let ghost before = self@;
        let ghost mut served: int = 0;
        proof {
            self.lemma_wf();
            assert(before.pending.skip(0) =~= before.pending);
        }
        loop
            invariant
                self.wf(),
                before == old(self)@,
                self@.cells == before.cells,
                self@.latest == before.latest,
                written_by(before.cells, before.latest),
                dependents_sound(before.cells),
                0 <= served <= before.pending.len(),
                self@.pending == before.pending.skip(served),
                forall|i: int|
                    0 <= i < served ==> reaches_nothing(before.cells, #[trigger] before.pending[i]),
                served == 0 ==> self@.remaining == before.remaining,
                served > 0 ==> before.remaining.len() == 0 && self@.remaining.len() == 0,
            decreases self@.pending.len(),
        {
            let ghost waiting = self@.pending;
            match self.take_remaining() {
                Some(cell) => {
                    let expression = self.expression(&cell).unwrap();
                    let evaluation = self.evaluation(expression);
                    proof {
                        assert(served == 0);
                        assert(before.pending.skip(0) =~= before.pending);
                        assert(before.cells.contains_key(cell));
                        assert(before.cells[cell].last_update_time <= before.latest);
                    }
                    return Some((cell, evaluation));
                },
                None => {},
            }
            match self.next_update() {
                None => {
                    return None;
                },
                Some(origin) => {
                    let order = self.update_order(origin);
                    proof {
                        assert(origin == before.pending[served]);
                        assert(self@.pending =~= before.pending.skip(served + 1));
                        assert forall|k: int| 0 <= k < order@.len() implies before.cells.contains_key(
                            #[trigger] order@[k],
                        ) by {
                            assert(order@.contains(order@[k]));
                            lemma_reached_is_assigned(before.cells, origin, order@[k]);
                        }
                    }
                    if order.len() > 0 {
                        let cell = order[0];
                        self.plan(&order, 1);
                        let expression = self.expression(&cell).unwrap();
                        let evaluation = self.evaluation(expression);
                        proof {
                            assert(order@.skip(1) =~= order@.drop_first());
                            assert(is_update_order(before.cells, before.pending[served], order@));
                            assert(before.cells.contains_key(cell));
                            assert(before.cells[cell].last_update_time <= before.latest);
                        }
                        return Some((cell, evaluation));
                    }
                    proof {
                        assert forall|id: CellIdentifier| !#[trigger] reaches(
                            before.cells,
                            origin,
                            id,
                        ) by {
                            if reaches(before.cells, origin, id) {
                                assert(order@.contains(id));
                            }
                        }
                        served = served + 1;
                    }
                },
            }
        }
    }

    /// Commits a recomputation, once it has been made: the value that the
    /// outcome stands for, which is the marker of a tainted input where the
    /// evaluation failed, is written with the time at which the evaluation
    /// began, as `store_recomputed` says. It is written exactly where the
    /// cell is assigned and was last written before that time.
    pub fn recompute(
        &mut self,
        cell_id: &CellIdentifier,
        evaluation: &Evaluation,
        outcome: Result<CellValue, CellExprEvalError>,
    ) -> (written: bool)
        requires
            old(self).wf(),
        ensures
            final(self).wf(),
            final(self)@.pending == old(self)@.pending,
            final(self)@.remaining == old(self)@.remaining,
            final(self)@.latest == later(old(self)@.latest, evaluation.started),
            final(self)@.cells == recomputed(
                old(self)@.cells,
                *cell_id,
                outcome_value(outcome),
                evaluation.started,
            ),
            written == (old(self)@.cells.contains_key(*cell_id) && evaluation.started > old(self)@.cells[*cell_id].last_update_time),
            written ==> final(self)@.cells[*cell_id].value == outcome_value(outcome) && final(self)@.cells[*cell_id].last_update_time == evaluation.started,
            written_forward(old(self)@.cells, final(self)@.cells),
    {
        let value = value_of(outcome);
        self.store_recomputed(cell_id, value, evaluation.started)
    }
}

} // verus!
