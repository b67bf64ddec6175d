//! The graph that the benchmarks walk between table operations.
//!
//! A node of the graph is a flat array in which every `GRAPH_STRIDE`-th byte names the next
//! position. The positions form one cycle in random order, so that a walk touches a new cache
//! line at every hop.
use rand::rngs::StdRng;
use vstd::prelude::*;

use crate::random::{
    next_u32, sample_u32, seed_from_u64, seeded_words, skip_words, uniform_u32, words_left,
};

verus! {

/// Bytes in a node.
pub const ARRAY_ENTRY_SIZE: usize = 8192;

/// Nodes over all servers.
pub const NUM_ARRAY_ENTRIES: usize = 2_097_152;

/// Bytes between two positions.
pub const GRAPH_STRIDE: usize = 64;

/// Positions in a node, and hops in a walk.
pub const GRAPH_HOPS: usize = ARRAY_ENTRY_SIZE / GRAPH_STRIDE;

/// Table operations from one walk to the next.
pub const TRAVERSAL_INTERVAL: usize = 32;

/// The seed of the order of positions.
pub const GRAPH_SEED: u64 = 42;

pub type GraphNode = [u8; ARRAY_ENTRY_SIZE];

/// Compiler hint `core::hint::black_box`: hands its argument back.
pub assume_specification<T>[ core::hint::black_box::<T> ](dummy: T) -> (r: T)
    ensures
        r == dummy,
;

/// `order` lists every position once.
pub open spec fn is_order(order: Seq<u8>) -> bool {
    &&& order.len() == GRAPH_HOPS
    &&& forall|i: int| 0 <= i < GRAPH_HOPS ==> #[trigger] order[i] < GRAPH_HOPS
    &&& forall|i: int, j: int| 0 <= i < j < GRAPH_HOPS ==> order[i] != order[j]
    &&& forall|v: u8| v < GRAPH_HOPS ==> #[trigger] order.contains(v)
}

/// `order` with two elements exchanged.
pub open spec fn exchange(order: Seq<u8>, i: int, j: int) -> Seq<u8> {
    order.update(i, order[j]).update(j, order[i])
}

/// The order of positions after the first `steps` draws of a shuffle that works from the back:
/// each draw picks, modulo the number of positions not yet settled, which of them goes last.
pub open spec fn shuffled(draws: Seq<u32>, steps: nat) -> Seq<u8>
    decreases steps,
{
    if steps == 0 {
        Seq::new(GRAPH_HOPS as nat, |i: int| i as u8)
    } else {
        let i = GRAPH_HOPS - steps;
        exchange(shuffled(draws, (steps - 1) as nat), i, draws[steps - 1] as int % (i + 1))
    }
}

/// In `node`, the position at index `i` of the order leads to the one after it.
pub open spec fn leads_on(node: GraphNode, order: Seq<u8>, i: int) -> bool {
    node@[order[i] * GRAPH_STRIDE] == order[(i + 1) % GRAPH_HOPS as int]
}

/// `node` leads through the positions in the order given, and from the last back to the first.
pub open spec fn links(node: GraphNode, order: Seq<u8>) -> bool {
    &&& forall|i: int| 0 <= i < GRAPH_HOPS ==> #[trigger] leads_on(node, order, i)
    &&& forall|p: int|
        0 <= p < ARRAY_ENTRY_SIZE && p % GRAPH_STRIDE as int != 0 ==> #[trigger] node@[p] == 0
}

/// The position after `hops` hops from position 0.
pub open spec fn position(node: GraphNode, hops: nat) -> int
    decreases hops,
{
    if hops == 0 {
        0
    } else {
        node@[position(node, (hops - 1) as nat) * GRAPH_STRIDE] as int
    }
}

/// Position `p` is passed on a walk of `hops` hops from position 0.
pub open spec fn passes(node: GraphNode, hops: nat, p: int) -> bool {
    exists|k: nat| k < hops && #[trigger] position(node, k) == p
}

/// `visited` marks the positions that a walk of `GRAPH_HOPS` hops through `node` passes.
pub open spec fn marks(node: GraphNode, visited: [u8; GRAPH_HOPS]) -> bool {
    forall|p: int|
        0 <= p < GRAPH_HOPS ==> #[trigger] visited@[p] == (if passes(node, GRAPH_HOPS as nat, p) {
            1u8
        } else {
            0u8
        })
}

/// The node of a graph that a number picks.
pub open spec fn picked(graph: Seq<GraphNode>, pick: u32) -> GraphNode {
    graph[pick as int % graph.len() as int]
}

/// A walk stays inside the node.
pub open spec fn walkable(node: GraphNode) -> bool {
    forall|k: nat| k < GRAPH_HOPS ==> 0 <= #[trigger] position(node, k) < GRAPH_HOPS
}

/// Every walk of `GRAPH_HOPS` hops passes every position once and comes back to position 0.
pub open spec fn is_cycle(node: GraphNode) -> bool {
    &&& walkable(node)
    &&& forall|p: int| 0 <= p < GRAPH_HOPS ==> #[trigger] passes(node, GRAPH_HOPS as nat, p)
    &&& position(node, GRAPH_HOPS as nat) == 0
}

/// Exchanging two elements of an order gives an order.
proof fn lemma_exchange(order: Seq<u8>, i: int, j: int)
    requires
        is_order(order),
        0 <= i < GRAPH_HOPS,
        0 <= j < GRAPH_HOPS,
    ensures
        is_order(exchange(order, i, j)),
{
    let after = exchange(order, i, j);
    assert forall|v: u8| v < GRAPH_HOPS implies #[trigger] after.contains(v) by {
        assert(order.contains(v));
        let k = choose|k: int| 0 <= k < order.len() && order[k] == v;
        let m = if k == i {
            j
        } else if k == j {
            i
        } else {
            k
        };
        assert(after[m] == v);
    }
}

/// A shuffle never loses or repeats a position, whatever is drawn.
pub proof fn law_shuffle_keeps_positions(draws: Seq<u32>, steps: nat)
    requires
        steps < GRAPH_HOPS,
    ensures
        is_order(shuffled(draws, steps)),
    decreases steps,
{
    if steps == 0 {
        let start = shuffled(draws, 0);
        assert forall|v: u8| v < GRAPH_HOPS implies #[trigger] start.contains(v) by {
            assert(start[v as int] == v);
        }
    } else {
        law_shuffle_keeps_positions(draws, (steps - 1) as nat);
        let i = GRAPH_HOPS - steps;
        lemma_exchange(
            shuffled(draws, (steps - 1) as nat),
            i,
            draws[steps - 1] as int % (i + 1),
        );
    }
}

/// The positions in an order drawn at random: a shuffle from the back, with one draw for each
/// position but the first.
pub fn shuffle(draws: &[u32]) -> (order: Vec<u8>)
    requires
        draws@.len() >= GRAPH_HOPS - 1,
    ensures
        order@ == shuffled(draws@, (GRAPH_HOPS - 1) as nat),
        is_order(order@),
{
    let mut order: Vec<u8> = Vec::with_capacity(GRAPH_HOPS);
    let mut v: u8 = 0;
    while (v as usize) < GRAPH_HOPS
        invariant
            v <= GRAPH_HOPS,
            order@ == Seq::new(v as nat, |i: int| i as u8),
        decreases GRAPH_HOPS - v,
    {
        order.push(v);
        v = v + 1;
    }
    let mut i: usize = GRAPH_HOPS - 1;
    while i >= 1
        invariant
            i <= GRAPH_HOPS - 1,
            draws@.len() >= GRAPH_HOPS - 1,
            order@ == shuffled(draws@, (GRAPH_HOPS - 1 - i) as nat),
            order@.len() == GRAPH_HOPS,
        decreases i,
    {
        let j = (draws[GRAPH_HOPS - 1 - i] as usize) % (i + 1);
        let at_i = order[i];
        let at_j = order[j];
        order[i] = at_j;
        order[j] = at_i;
        i = i - 1;
    }
    proof {
        law_shuffle_keeps_positions(draws@, (GRAPH_HOPS - 1) as nat);
    }
    order
}

/// A node that leads through the positions in the order given.
pub fn link(order: &[u8]) -> (node: GraphNode)
    requires
        is_order(order@),
    ensures
        links(node, order@),
{
    let mut node: GraphNode = [0u8; ARRAY_ENTRY_SIZE];
    let mut i: usize = 0;
    while i < GRAPH_HOPS
        invariant
            i <= GRAPH_HOPS,
            is_order(order@),
            forall|k: int| 0 <= k < i ==> #[trigger] leads_on(node, order@, k),
            forall|p: int|
                0 <= p < ARRAY_ENTRY_SIZE && p % GRAPH_STRIDE as int != 0 ==> #[trigger] node@[p]
                    == 0,
        decreases GRAPH_HOPS - i,
    {
        let ghost before = node;
        node[order[i] as usize * GRAPH_STRIDE] = order[(i + 1) % GRAPH_HOPS];
        assert forall|k: int| 0 <= k < i + 1 implies #[trigger] leads_on(node, order@, k) by {
            if k < i {
                assert(leads_on(before, order@, k));
                assert(order@[k] != order@[i as int]);
            }
        }
        i = i + 1;
    }
    node
}

/// After `k` hops the walk is `k` places after position 0 in the order.
proof fn lemma_position(node: GraphNode, order: Seq<u8>, first: int, k: nat)
    requires
        is_order(order),
        links(node, order),
        0 <= first < GRAPH_HOPS,
        order[first] == 0,
    ensures
        position(node, k) == order[(first + k) % GRAPH_HOPS as int],
    decreases k,
{
    if k > 0 {
        lemma_position(node, order, first, (k - 1) as nat);
        let at = (first + k - 1) % GRAPH_HOPS as int;
        assert(leads_on(node, order, at));
        assert((at + 1) % GRAPH_HOPS as int == (first + k) % GRAPH_HOPS as int);
    }
}

/// A node linked in any order of the positions is one cycle through all of them.
pub proof fn law_links_make_cycle(node: GraphNode, order: Seq<u8>)
    requires
        is_order(order),
        links(node, order),
    ensures
        is_cycle(node),
{
    assert(order.contains(0u8));
    let first = choose|i: int| 0 <= i < order.len() && order[i] == 0u8;
    assert forall|k: nat| k < GRAPH_HOPS implies 0 <= #[trigger] position(node, k)
        < GRAPH_HOPS by {
        lemma_position(node, order, first, k);
    }
    assert forall|p: int| 0 <= p < GRAPH_HOPS implies #[trigger] passes(
        node,
        GRAPH_HOPS as nat,
        p,
    ) by {
        assert(order.contains(p as u8));
        let at = choose|i: int| 0 <= i < order.len() && order[i] == p as u8;
        let k = ((at - first) % GRAPH_HOPS as int) as nat;
        lemma_position(node, order, first, k);
        assert(position(node, k) == p);
    }
    lemma_position(node, order, first, GRAPH_HOPS as nat);
}

/// The first words that the graph's seed gives.
pub open spec fn graph_draws() -> Seq<u32> {
    Seq::new((GRAPH_HOPS - 1) as nat, |i: int| seeded_words(GRAPH_SEED)[i as nat])
}

/// The order of positions in every graph.
pub open spec fn graph_order() -> Seq<u8> {
    shuffled(graph_draws(), (GRAPH_HOPS - 1) as nat)
}

/// `num_entries` copies of the node that the graph's seed leads to.
pub fn build_graph(num_entries: usize) -> (graph: Vec<GraphNode>)
    requires
        num_entries * ARRAY_ENTRY_SIZE <= isize::MAX,
    ensures
        graph@.len() == num_entries,
        forall|i: int| 0 <= i < num_entries ==> links(#[trigger] graph@[i], graph_order()),
        forall|i: int| 0 <= i < num_entries ==> is_cycle(#[trigger] graph@[i]),
        forall|i: int, j: int|
            0 <= i < num_entries && 0 <= j < num_entries ==> #[trigger] graph@[i]
                == #[trigger] graph@[j],
{
    let mut rng = seed_from_u64(GRAPH_SEED);
    let mut draws: Vec<u32> = Vec::with_capacity(GRAPH_HOPS - 1);
    let mut i: usize = 0;
    while i < GRAPH_HOPS - 1
        invariant
            i <= GRAPH_HOPS - 1,
            draws@ == Seq::new(i as nat, |j: int| seeded_words(GRAPH_SEED)[j as nat]),
            forall|j: nat| #[trigger] words_left(rng)[j] == seeded_words(GRAPH_SEED)[i as nat + j],
        decreases GRAPH_HOPS - 1 - i,
    {
        draws.push(next_u32(&mut rng));
        i = i + 1;
    }
    let order = shuffle(&draws);
    let sample = link(&order);
    assert(draws@ =~= graph_draws());
    proof {
        law_links_make_cycle(sample, order@);
    }
    let graph = vec![sample; num_entries];
    assert(forall|i: int| 0 <= i < num_entries ==> #[trigger] graph@[i] == sample);
    graph
}

/// Walks `GRAPH_HOPS` hops through the node that `rand_val` picks, and marks the positions
/// passed.
pub fn traverse(graph: &[GraphNode], rand_val: u32) -> (visited: [u8; GRAPH_HOPS])
    requires
        graph@.len() > 0,
        walkable(picked(graph@, rand_val)),
    ensures
        marks(picked(graph@, rand_val), visited),
{
    let entry = &graph[rand_val as usize % graph.len()];
    let mut current: usize = 0;
    let mut visited = [0u8; GRAPH_HOPS];
    let mut k: usize = 0;
    while k < GRAPH_HOPS
        invariant
            k <= GRAPH_HOPS,
            walkable(*entry),
            current == position(*entry, k as nat),
            forall|p: int|
                0 <= p < GRAPH_HOPS ==> #[trigger] visited@[p] == (if passes(
                    *entry,
                    k as nat,
                    p,
                ) {
                    1u8
                } else {
                    0u8
                }),
        decreases GRAPH_HOPS - k,
    {
        let ghost before = visited@;
        visited[current] = 1;
        assert forall|p: int| 0 <= p < GRAPH_HOPS implies #[trigger] visited@[p] == (if passes(
            *entry,
            (k + 1) as nat,
            p,
        ) {
            1u8
        } else {
            0u8
        }) by {
            assert(before[p] == visited@[p] || p == current);
            if p == current {
                assert(position(*entry, k as nat) == p);
            } else if passes(*entry, k as nat, p) {
                let h = choose|h: nat| h < k && #[trigger] position(*entry, h) == p;
                assert(h < k + 1);
            }
        }
        current = entry[current * GRAPH_STRIDE] as usize;
        k = k + 1;
    }
    core::hint::black_box(visited)
}

/// How many of the first `ops` operations are followed by a walk.
pub open spec fn walks_among(ops: int) -> int {
    (ops + TRAVERSAL_INTERVAL - 1) / TRAVERSAL_INTERVAL as int
}

/// The words that are left once `walks` walks have been drawn.
pub open spec fn words_after_walks(words: Map<nat, u32>, walks: nat) -> Map<nat, u32>
    decreases walks,
{
    if walks == 0 {
        words
    } else {
        let left = words_after_walks(words, (walks - 1) as nat);
        skip_words(left, uniform_u32(0, u32::MAX, left).1)
    }
}

/// The picks of the first `n` walks that are drawn from a stream of words.
pub open spec fn picks_from(words: Map<nat, u32>, n: nat) -> Seq<u32> {
    Seq::new(n, |j: int| uniform_u32(0, u32::MAX, words_after_walks(words, j as nat)).0)
}

/// How many of the walks with these picks pass position `p`.
pub open spec fn visits_of(graph: Seq<GraphNode>, picks: Seq<u32>, p: int) -> nat
    decreases picks.len(),
{
    if picks.len() == 0 {
        0
    } else {
        visits_of(graph, picks.drop_last(), p) + (if passes(
            picked(graph, picks.last()),
            GRAPH_HOPS as nat,
            p,
        ) {
            1nat
        } else {
            0nat
        })
    }
}

/// Draws a pick and walks the node that it picks. Gives the pick and the positions passed.
pub fn walk(graph: &[GraphNode], rng: &mut StdRng) -> (walked: (u32, [u8; GRAPH_HOPS]))
    requires
        graph@.len() > 0,
        forall|i: int| 0 <= i < graph@.len() ==> walkable(#[trigger] graph@[i]),
    ensures
        walked.0 == uniform_u32(0, u32::MAX, words_left(*old(rng))).0,
        marks(picked(graph@, walked.0), walked.1),
        words_left(*final(rng)) == skip_words(
            words_left(*old(rng)),
            uniform_u32(0, u32::MAX, words_left(*old(rng))).1,
        ),
{
    let pick = sample_u32(0, u32::MAX, rng);
    (pick, traverse(graph, pick))
}

/// The walks of a run: what was drawn for each, and how many of them passed each position.
pub struct Walks {
    pub picks: Vec<u32>,
    pub visits: [usize; GRAPH_HOPS],
}

impl Walks {
    /// The visits are those of walks over `graph` with these picks.
    pub open spec fn counts(&self, graph: Seq<GraphNode>) -> bool {
        forall|p: int|
            0 <= p < GRAPH_HOPS ==> #[trigger] self.visits@[p] == visits_of(graph, self.picks@, p)
    }

    /// No walks.
    pub fn new() -> (walks: Walks)
        ensures
            walks.picks@ == Seq::<u32>::empty(),
            forall|p: int| 0 <= p < 128 ==> #[trigger] walks.visits@[p] == 0,
            forall|graph: Seq<GraphNode>| #[trigger] walks.counts(graph),
    {
        Walks { picks: Vec::new(), visits: [0usize; GRAPH_HOPS] }
    }

    /// Draws and makes one more walk.
    pub fn walk(&mut self, graph: &[GraphNode], rng: &mut StdRng)
        requires
            old(self).counts(graph@),
            graph@.len() > 0,
            forall|i: int| 0 <= i < graph@.len() ==> walkable(#[trigger] graph@[i]),
        ensures
            final(self).counts(graph@),
            final(self).picks@ == old(self).picks@.push(
                uniform_u32(0, u32::MAX, words_left(*old(rng))).0,
            ),
            words_left(*final(rng)) == skip_words(
                words_left(*old(rng)),
                uniform_u32(0, u32::MAX, words_left(*old(rng))).1,
            ),
    {
        let ghost before = *self;
        let (pick, visited) = walk(graph, rng);
        self.picks.push(pick);
        let total = self.picks.len();
        assert(self.picks@.drop_last() =~= before.picks@);
        let mut p: usize = 0;
        while p < GRAPH_HOPS
            invariant
                p <= GRAPH_HOPS,
                before.counts(graph@),
                self.picks@ == before.picks@.push(pick),
                self.picks@.drop_last() == before.picks@,
                self.picks@.len() == total,
                marks(picked(graph@, pick), visited),
                forall|q: int|
                    0 <= q < GRAPH_HOPS ==> #[trigger] self.visits@[q] == (if q < p {
                        visits_of(graph@, self.picks@, q)
                    } else {
                        visits_of(graph@, before.picks@, q)
                    }),
            decreases GRAPH_HOPS - p,
        {
            proof {
                lemma_visits_bound(graph@, before.picks@, p as int);
                assert(self.visits@[p as int] == visits_of(graph@, before.picks@, p as int));
                assert(visited@[p as int] <= 1);
            }
            let passed = self.visits[p] + visited[p] as usize;
            self.visits[p] = passed;
            p = p + 1;
        }
    }
}

/// A position is not passed more often than there are walks.
proof fn lemma_visits_bound(graph: Seq<GraphNode>, picks: Seq<u32>, p: int)
    ensures
        visits_of(graph, picks, p) <= picks.len(),
    decreases picks.len(),
{
    if picks.len() > 0 {
        lemma_visits_bound(graph, picks.drop_last(), p);
    }
}

/// Drawing walks in two parts is drawing them at once.
pub proof fn lemma_walks_in_parts(words: Map<nat, u32>, first: nat, second: nat)
    ensures
        words_after_walks(words_after_walks(words, first), second) == words_after_walks(
            words,
            first + second,
        ),
        picks_from(words, first) + picks_from(words_after_walks(words, first), second)
            == picks_from(words, first + second),
    decreases second,
{
    if second > 0 {
        lemma_walks_in_parts(words, first, (second - 1) as nat);
    }
    let left = words_after_walks(words, first);
    assert forall|j: int| 0 <= j < second implies #[trigger] words_after_walks(left, j as nat)
        == words_after_walks(words, first + j as nat) by {
        lemma_walks_in_parts(words, first, j as nat);
    }
    assert(picks_from(words, first) + picks_from(left, second) =~= picks_from(
        words,
        first + second,
    ));
}

/// A walk over a node that is one cycle marks every position.
pub proof fn law_walk_visits_all(node: GraphNode, visited: [u8; GRAPH_HOPS])
    requires
        is_cycle(node),
        marks(node, visited),
    ensures
        forall|p: int| 0 <= p < GRAPH_HOPS ==> #[trigger] visited@[p] == 1,
{
}

/// Over a graph of cycles, every walk visits every position.
pub proof fn law_cycles_are_visited_evenly(graph: Seq<GraphNode>, picks: Seq<u32>, p: int)
    requires
        graph.len() > 0,
        forall|i: int| 0 <= i < graph.len() ==> is_cycle(#[trigger] graph[i]),
        0 <= p < GRAPH_HOPS,
    ensures
        visits_of(graph, picks, p) == picks.len(),
    decreases picks.len(),
{
    if picks.len() > 0 {
        law_cycles_are_visited_evenly(graph, picks.drop_last(), p);
        assert(is_cycle(picked(graph, picks.last())));
    }
}

/// The sizes of the graph: nodes of 8 KiB, 2 Mi of them, with one position in every 64 bytes.
pub proof fn law_sizes()
    ensures
        ARRAY_ENTRY_SIZE == 8192,
        NUM_ARRAY_ENTRIES == 2 * 1024 * 1024,
        GRAPH_STRIDE == 64,
        GRAPH_HOPS == 128,
        GRAPH_HOPS * GRAPH_STRIDE == ARRAY_ENTRY_SIZE,
        TRAVERSAL_INTERVAL == 32,
{
}

/// An order lists each of the 128 positions once.
pub proof fn law_order(order: Seq<u8>)
    ensures
        is_order(order) <==> {
            &&& order.len() == 128
            &&& forall|i: int| 0 <= i < 128 ==> #[trigger] order[i] < 128
            &&& forall|i: int, j: int|
                0 <= i < 128 && 0 <= j < 128 && i != j ==> #[trigger] order[i]
                    != #[trigger] order[j]
            &&& forall|v: u8| v < 128 ==> #[trigger] order.contains(v)
        },
{
}

/// A shuffle starts with the positions in ascending order. Its `steps`-th draw exchanges the last
/// position that is not settled with one of those up to it, and no other changes place.
pub proof fn law_shuffle_step(draws: Seq<u32>, steps: nat)
    requires
        0 < steps < 128,
    ensures
        shuffled(draws, 0).len() == 128,
        forall|i: int| 0 <= i < 128 ==> #[trigger] shuffled(draws, 0)[i] == i,
        ({
            let before = shuffled(draws, (steps - 1) as nat);
            let after = shuffled(draws, steps);
            let unsettled = 129 - steps;
            let drawn = draws[steps - 1] as int % unsettled;
            &&& 0 <= drawn < unsettled
            &&& after.len() == 128
            &&& after[unsettled - 1] == before[drawn]
            &&& after[drawn] == before[unsettled - 1]
            &&& forall|i: int|
                0 <= i < 128 && i != unsettled - 1 && i != drawn ==> #[trigger] after[i]
                    == before[i]
        }),
{
    law_shuffle_keeps_positions(draws, (steps - 1) as nat);
}

/// A position that a draw has settled keeps its place under all later draws, and only the draws
/// so far count.
pub proof fn law_shuffle_settles(draws: Seq<u32>, other: Seq<u32>, steps: nat, later: nat, i: int)
    requires
        steps <= later < 128,
        forall|k: int| 0 <= k < steps ==> #[trigger] draws[k] == other[k],
        128 - steps <= i < 128,
    ensures
        shuffled(draws, later)[i] == shuffled(draws, steps)[i],
        shuffled(draws, steps) == shuffled(other, steps),
    decreases later,
{
    if later > steps {
        law_shuffle_settles(draws, other, steps, (later - 1) as nat, i);
        law_shuffle_step(draws, later);
    } else if steps > 0 {
        lemma_draws_so_far(draws, other, steps);
    }
}

/// Equal draws give equal orders.
proof fn lemma_draws_so_far(draws: Seq<u32>, other: Seq<u32>, steps: nat)
    requires
        forall|k: int| 0 <= k < steps ==> #[trigger] draws[k] == other[k],
    ensures
        shuffled(draws, steps) == shuffled(other, steps),
    decreases steps,
{
    if steps > 0 {
        assert(draws[steps - 1] == other[steps - 1]);
        lemma_draws_so_far(draws, other, (steps - 1) as nat);
    }
}

/// Every order of the positions can come out of a shuffle: from the back, the draws that put each
/// position where the order has it.
pub proof fn law_shuffle_reaches_order(order: Seq<u8>, steps: nat) -> (draws: Seq<u32>)
    requires
        is_order(order),
        steps < 128,
    ensures
        draws.len() == steps,
        forall|k: int| 0 <= k < steps ==> #[trigger] draws[k] < 128 - k,
        forall|i: int| 128 - steps <= i < 128 ==> #[trigger] shuffled(draws, steps)[i] == order[i],
    decreases steps,
{
    if steps == 0 {
        Seq::empty()
    } else {
        let earlier = law_shuffle_reaches_order(order, (steps - 1) as nat);
        let before = shuffled(earlier, (steps - 1) as nat);
        let last = 128 - steps;
        law_shuffle_keeps_positions(earlier, (steps - 1) as nat);
        assert(before.contains(order[last]));
        let at = choose|at: int| 0 <= at < before.len() && before[at] == order[last];
        assert(at <= last) by {
            if at > last {
                assert(before[at] == order[at]);
                assert(order[at] != order[last]);
            }
        }
        let draws = earlier.push(at as u32);
        lemma_draws_so_far(earlier, draws, (steps - 1) as nat);
        law_shuffle_step(draws, steps);
        assert(draws[steps - 1] == at);
        assert(at % (129 - steps) == at) by {
            vstd::arithmetic::div_mod::lemma_small_mod(at as nat, (129 - steps) as nat);
        }
        assert forall|i: int| 128 - steps <= i < 128 implies #[trigger] shuffled(draws, steps)[i]
            == order[i] by {
            if i > last {
                assert(shuffled(draws, steps)[i] == before[i]);
            }
        }
        draws
    }
}

/// In a linked node, the first byte of each position's 64 names the position that the order has
/// next, the first one after the last; all other bytes are zero.
pub proof fn law_linked_bytes(node: GraphNode, order: Seq<u8>, i: int, byte: int)
    requires
        is_order(order),
        links(node, order),
        0 <= i < 128,
        0 <= byte < 8192,
    ensures
        node@[order[i] * 64] == order[if i == 127 {
            0
        } else {
            i + 1
        }],
        byte % 64 != 0 ==> node@[byte] == 0,
{
    law_sizes();
    assert(leads_on(node, order, i));
    if i == 127 {
        assert((i + 1) % 128 == 0);
    } else {
        assert((i + 1) % 128 == i + 1);
    }
}

/// Every graph is shuffled with the first 127 words of the same seed.
pub proof fn law_graph_order(i: int)
    requires
        0 <= i < 127,
    ensures
        graph_draws().len() == 127,
        graph_draws()[i] == seeded_words(42)[i as nat],
        graph_order() == shuffled(graph_draws(), 127),
        is_order(graph_order()),
{
    law_shuffle_keeps_positions(graph_draws(), 127);
}

/// A walk starts at position 0, and each hop goes to the position that the byte of the last one
/// names.
pub proof fn law_position_step(node: GraphNode, hops: nat)
    ensures
        position(node, 0) == 0,
        position(node, hops + 1) == node@[position(node, hops) * 64],
{
}

/// A walk stays inside a node where each of its first 127 hops leads to one of the 128 positions.
pub proof fn law_walkable(node: GraphNode)
    ensures
        walkable(node) <==> (forall|k: nat| k < 128 ==> #[trigger] position(node, k) < 128),
{
    assert forall|k: nat| 0 <= #[trigger] position(node, k) by {}
}

/// A node in which every position names one of the 128 positions can be walked.
pub proof fn law_inner_links_are_walkable(node: GraphNode)
    requires
        forall|p: int| 0 <= p < 128 ==> #[trigger] node@[p * 64] < 128,
    ensures
        walkable(node),
{
    assert forall|k: nat| k < 128 implies 0 <= #[trigger] position(node, k) < 128 by {
        lemma_inner_position(node, k);
    }
}

/// A walk over links that stay inside the node stays inside it.
proof fn lemma_inner_position(node: GraphNode, k: nat)
    requires
        forall|p: int| 0 <= p < 128 ==> #[trigger] node@[p * 64] < 128,
    ensures
        0 <= position(node, k) < 128,
    decreases k,
{
    if k > 0 {
        lemma_inner_position(node, (k - 1) as nat);
        let p = position(node, (k - 1) as nat);
        assert(node@[p * 64] < 128);
    }
}

/// The marks of a walk are ones, at the 128 positions of a path that starts at position 0 and
/// follows the node's bytes, and zeros elsewhere.
pub proof fn law_marks_follow_path(node: GraphNode, visited: [u8; GRAPH_HOPS]) -> (path: Seq<int>)
    requires
        marks(node, visited),
    ensures
        path.len() == 128,
        path[0] == 0,
        forall|k: int| 0 < k < 128 ==> #[trigger] path[k] == node@[path[k - 1] * 64],
        forall|p: int| 0 <= p < 128 && path.contains(p) ==> #[trigger] visited@[p] == 1,
        forall|p: int| 0 <= p < 128 && !path.contains(p) ==> #[trigger] visited@[p] == 0,
{
    let path = Seq::new(128, |k: int| position(node, k as nat));
    assert forall|k: int| 0 < k < 128 implies #[trigger] path[k] == node@[path[k - 1] * 64] by {
        assert(path[k - 1] == position(node, (k - 1) as nat));
    }
    assert forall|p: int| 0 <= p < 128 implies (#[trigger] visited@[p] == if path.contains(p) {
        1u8
    } else {
        0u8
    }) by {
        if path.contains(p) {
            let k = choose|k: int| 0 <= k < path.len() && path[k] == p;
            assert(position(node, k as nat) == p);
        } else if passes(node, GRAPH_HOPS as nat, p) {
            let k = choose|k: nat| k < GRAPH_HOPS && #[trigger] position(node, k) == p;
            assert(path[k as int] == p);
        }
    }
    path
}

/// A cycle leads in 128 hops from position 0 through all 128 positions and back.
pub proof fn law_cycle_path(node: GraphNode) -> (path: Seq<int>)
    requires
        is_cycle(node),
    ensures
        path.len() == 129,
        path[0] == 0,
        path[128] == 0,
        forall|k: int| 0 < k <= 128 ==> #[trigger] path[k] == node@[path[k - 1] * 64],
        forall|p: int| 0 <= p < 128 ==> #[trigger] path.take(128).contains(p),
{
    let path = Seq::new(129, |k: int| position(node, k as nat));
    assert forall|k: int| 0 < k <= 128 implies #[trigger] path[k] == node@[path[k - 1] * 64] by {
        assert(path[k - 1] == position(node, (k - 1) as nat));
    }
    assert forall|p: int| 0 <= p < 128 implies #[trigger] path.take(128).contains(p) by {
        assert(passes(node, GRAPH_HOPS as nat, p));
        let k = choose|k: nat| k < GRAPH_HOPS && #[trigger] position(node, k) == p;
        assert(path.take(128)[k as int] == p);
    }
    path
}

/// A number picks the node at the remainder of its division by the number of nodes.
pub proof fn law_picked(graph: Seq<GraphNode>, pick: u32, times: int, i: int)
    requires
        0 <= i < graph.len(),
        pick == times * graph.len() + i,
    ensures
        picked(graph, pick) == graph[i],
{
    vstd::arithmetic::div_mod::lemma_fundamental_div_mod_converse(
        pick as int,
        graph.len() as int,
        times,
        i,
    );
}

/// The first operation is followed by a walk, and so is every 32nd after it.
pub proof fn law_walks_among(ops: int)
    requires
        0 <= ops,
    ensures
        walks_among(0) == 0,
        walks_among(ops + 1) == walks_among(ops) + (if ops % 32 == 0 {
            1int
        } else {
            0
        }),
        walks_among(ops + 32) == walks_among(ops) + 1,
{
}

/// Each walk takes its pick from the words that the walks before it left, over the whole range of
/// picks, and leaves the words after those that the pick used up.
pub proof fn law_walk_draws(words: Map<nat, u32>, walks: nat, j: int)
    requires
        0 <= j < walks,
    ensures
        words_after_walks(words, 0) == words,
        words_after_walks(words, walks + 1) == skip_words(
            words_after_walks(words, walks),
            uniform_u32(0, 0xffff_ffff, words_after_walks(words, walks)).1,
        ),
        picks_from(words, walks).len() == walks,
        picks_from(words, walks)[j] == uniform_u32(
            0,
            0xffff_ffff,
            words_after_walks(words, j as nat),
        ).0,
{
}

/// Every walk adds one visit to each position that it passes within 128 hops, and none to any
/// other; without walks there are no visits.
pub proof fn law_visits_step(graph: Seq<GraphNode>, picks: Seq<u32>, pick: u32, p: int)
    ensures
        visits_of(graph, Seq::<u32>::empty(), p) == 0,
        visits_of(graph, picks.push(pick), p) == visits_of(graph, picks, p) + (if exists|k: nat|
            k < 128 && #[trigger] position(picked(graph, pick), k) == p {
            1nat
        } else {
            0nat
        }),
{
    assert(picks.push(pick).drop_last() =~= picks);
    assert(picks.push(pick).last() == pick);
}

/// The visits of two series of walks add up.
pub proof fn law_visits_add_up(graph: Seq<GraphNode>, first: Seq<u32>, second: Seq<u32>, p: int)
    ensures
        visits_of(graph, first + second, p) == visits_of(graph, first, p) + visits_of(
            graph,
            second,
            p,
        ),
    decreases second.len(),
{
    if second.len() == 0 {
        assert(first + second =~= first);
    } else {
        law_visits_add_up(graph, first, second.drop_last(), p);
        assert((first + second).drop_last() =~= first + second.drop_last());
    }
}

/// The visits that walks report are those that their picks lead to, at every one of the 128
/// positions.
pub proof fn law_reported_visits(walks: Walks, graph: Seq<GraphNode>)
    ensures
        walks.counts(graph) <==> (forall|p: int|
            0 <= p < 128 ==> #[trigger] walks.visits@[p] == visits_of(graph, walks.picks@, p)),
{
}

} // verus!
