//! Reordering by recursive graph bisection: the graph as a collection of documents, and the
//! permutation that their new order stands for.
use crate::beam::closed;
use crate::graph::{lemma_take_push, GraphTrait};
use crate::parallel::{number_le, par_map, par_sort_numbers};
use crate::permutation::{invert_mapping, inverted, is_permutation, law_inverse_takes_back};
use crate::reorder::lemma_push_contains;
use vstd::prelude::*;

verus! {

/// A node as a document whose terms are its neighbours.
pub struct Document {
    pub terms: Vec<u32>,
    pub org_id: u32,
}

/// How the bisection is run.
pub struct BisectionSettings {
    pub iterations: usize,
    pub min_partition_size: usize,
    pub max_depth: usize,
    pub parallel_switch: usize,
    pub depth_limit: usize,
    pub sort_leaf: bool,
    pub id: usize,
}

/// The settings that graphs are reordered with.
pub open spec fn graph_settings() -> BisectionSettings {
    BisectionSettings {
        iterations: 10,
        min_partition_size: 64,
        max_depth: 100,
        parallel_switch: 100,
        depth_limit: 1,
        sort_leaf: true,
        id: 1,
    }
}

/// Each number is smaller than the next.
pub open spec fn increasing(s: Seq<u32>) -> bool {
    forall|i: int, j: int| 0 <= i < j < s.len() ==> #[trigger] s[i] < #[trigger] s[j]
}

/// `x` is a neighbour of some node.
pub open spec fn is_neighbor(adj: Seq<Seq<usize>>, x: u32) -> bool {
    exists|u: int| 0 <= u < adj.len() && (#[trigger] adj[u]).contains(x as usize)
}

/// `table` lists the nodes that are neighbours of some node, in ascending order. The position of
/// a node in it is its term.
pub open spec fn is_term_table(adj: Seq<Seq<usize>>, table: Seq<u32>) -> bool {
    &&& increasing(table)
    &&& forall|x: u32| #[trigger] table.contains(x) <==> is_neighbor(adj, x)
}

/// `document` is node `u`: its terms are those of the neighbours of `u`, in ascending order and
/// each once.
pub open spec fn describes_node(
    adj: Seq<Seq<usize>>,
    table: Seq<u32>,
    document: Document,
    u: int,
) -> bool {
    &&& document.org_id == u
    &&& increasing(document.terms@)
    &&& forall|t: u32| #[trigger]
        document.terms@.contains(t) <==> t < table.len() && adj[u].contains(
            table[t as int] as usize,
        )
}

/// `documents` are the nodes, in order.
pub open spec fn describes(
    adj: Seq<Seq<usize>>,
    table: Seq<u32>,
    documents: Seq<Document>,
) -> bool {
    &&& documents.len() == adj.len()
    &&& forall|u: int|
        0 <= u < documents.len() ==> describes_node(adj, table, #[trigger] documents[u], u)
}

/// `bisect` takes the documents of the graph and returns their original ids in a new order.
pub open spec fn reorders<B: FnOnce(Vec<Document>, usize, BisectionSettings) -> Vec<usize>>(
    adj: Seq<Seq<usize>>,
    bisect: B,
) -> bool {
    &&& forall|documents: Vec<Document>, n_terms: usize|
        (exists|table: Seq<u32>| #[trigger]
            is_term_table(adj, table) && table.len() == n_terms && describes(
                adj,
                table,
                documents@,
            )) ==> #[trigger] bisect.requires((documents, n_terms, graph_settings()))
    &&& forall|documents: Vec<Document>, n_terms: usize, order: Vec<usize>| #[trigger]
        bisect.ensures((documents, n_terms, graph_settings()), order) && documents@.len()
            == adj.len() ==> is_permutation(order@) && order@.len() == adj.len()
}

/// `permutation` takes every node to its place in an order that `bisect` returned for the graph.
pub open spec fn is_bisection<B: FnOnce(Vec<Document>, usize, BisectionSettings) -> Vec<usize>>(
    adj: Seq<Seq<usize>>,
    bisect: B,
    permutation: Seq<usize>,
) -> bool {
    exists|documents: Vec<Document>, n_terms: usize, order: Vec<usize>, table: Seq<u32>|
        {
            &&& #[trigger] is_term_table(adj, table)
            &&& table.len() == n_terms
            &&& describes(adj, table, documents@)
            &&& #[trigger] bisect.ensures((documents, n_terms, graph_settings()), order)
            &&& permutation == inverted(order@)
        }
}

/// The distinct numbers of a sorted vector.
fn dedup(sorted: &Vec<u32>) -> (distinct: Vec<u32>)
    requires
        vstd::relations::sorted_by(sorted@, number_le()),
    ensures
        increasing(distinct@),
        forall|x: u32| #[trigger] distinct@.contains(x) <==> sorted@.contains(x),
        distinct@.len() <= sorted@.len(),
{
    let mut distinct: Vec<u32> = Vec::new();
    let mut i: usize = 0;
    while i < sorted.len()
        invariant
            vstd::relations::sorted_by(sorted@, number_le()),
            i <= sorted@.len(),
            increasing(distinct@),
            distinct@.len() <= i,
            i > 0 ==> distinct@.len() > 0 && distinct@.last() == sorted@[i - 1],
            forall|x: u32| #[trigger]
                distinct@.contains(x) <==> sorted@.take(i as int).contains(x),
        decreases sorted@.len() - i,
    {
        let x: u32 = sorted[i];
        proof {
            lemma_take_push(sorted@, i as int);
            lemma_push_contains(sorted@.take(i as int), x);
            lemma_push_contains(distinct@, x);
            if i > 0 {
                assert(number_le()(sorted@[i - 1], sorted@[i as int]));
                assert(distinct@.contains(distinct@.last()));
            }
        }
        if distinct.len() == 0 || distinct[distinct.len() - 1] != x {
            distinct.push(x);
        }
        i += 1;
    }
    assert(sorted@.take(i as int) =~= sorted@);
    distinct
}

proof fn lemma_same_members(a: Seq<u32>, b: Seq<u32>)
    requires
        a.to_multiset() == b.to_multiset(),
    ensures
        forall|x: u32| #[trigger] a.contains(x) <==> b.contains(x),
        a.len() == b.len(),
{
    a.to_multiset_ensures();
    b.to_multiset_ensures();
    assert forall|x: u32| #[trigger] a.contains(x) <==> b.contains(x) by {
        assert(a.contains(x) <==> a.to_multiset().count(x) > 0);
        assert(b.contains(x) <==> b.to_multiset().count(x) > 0);
    }
}

/// The numbers `0..n`.
pub(crate) fn node_ids(n: usize) -> (ids: Vec<usize>)
    ensures
        ids@ == Seq::new(n as nat, |u: int| u as usize),
{
    let mut ids: Vec<usize> = Vec::new();
    let mut u: usize = 0;
    while u < n
        invariant
            u <= n,
            ids@ == Seq::new(u as nat, |u: int| u as usize),
        decreases n - u,
    {
        ids.push(u);
        u += 1;
        assert(ids@ =~= Seq::new(u as nat, |u: int| u as usize));
    }
    ids
}

/// The neighbours of node `u` as `u32` numbers.
pub open spec fn numbers_of(adj: Seq<Seq<usize>>, u: usize) -> Seq<u32> {
    adj[u as int].map_values(|v: usize| v as u32)
}

/// The neighbours of node `u` as `u32` numbers.
fn neighbor_numbers<G: GraphTrait>(graph: &G, u: usize) -> (numbers: Vec<u32>)
    requires
        graph.wf(),
        closed(graph.model().adj),
        graph.model().adj.len() <= u32::MAX,
        u < graph.model().adj.len(),
    ensures
        numbers@ == numbers_of(graph.model().adj, u),
{
    let nbrs = graph.neighbors(u);
    let ghost wanted = nbrs@.map_values(|v: usize| v as u32);
    let mut numbers: Vec<u32> = Vec::new();
    let mut j: usize = 0;
    while j < nbrs.len()
        invariant
            closed(graph.model().adj),
            u < graph.model().adj.len(),
            graph.model().adj.len() <= u32::MAX,
            nbrs@ == graph.model().adj[u as int],
            wanted == nbrs@.map_values(|v: usize| v as u32),
            j <= nbrs@.len(),
            numbers@ == wanted.take(j as int),
        decreases nbrs@.len() - j,
    {
        assert(nbrs@[j as int] < graph.model().adj.len());
        numbers.push(nbrs[j] as u32);
        j += 1;
        assert(numbers@ =~= wanted.take(j as int));
    }
    assert(wanted.take(j as int) =~= wanted);
    numbers
}

/// The nodes that are neighbours of some node, in ascending order.
fn collect_terms<G: GraphTrait + Sync>(graph: &G) -> (table: Vec<u32>)
    requires
        graph.wf(),
        closed(graph.model().adj),
        graph.model().adj.len() <= u32::MAX,
    ensures
        is_term_table(graph.model().adj, table@),
{
    let ghost adj = graph.model().adj;
    let n: usize = graph.n_nodes();
    let nodes = node_ids(n);
    let number_list = |_i: usize, u: usize| -> (numbers: Vec<u32>)
        requires
            u < graph.model().adj.len(),
        ensures
            numbers@ == numbers_of(graph.model().adj, u),
    {
        neighbor_numbers(graph, u)
    };
    let lists: Vec<Vec<u32>> = par_map(nodes.as_slice(), number_list);
    let mut all_terms: Vec<u32> = Vec::new();
    let mut u: usize = 0;
    while u < n
        invariant
            adj == graph.model().adj,
            closed(adj),
            adj.len() <= u32::MAX,
            n == adj.len(),
            lists@.len() == n,
            forall|v: usize|
                v < n ==> (#[trigger] lists@[v as int])@ == numbers_of(adj, v),
            u <= n,
            forall|x: u32| #[trigger]
                all_terms@.contains(x) <==> is_neighbor(adj.take(u as int), x),
        decreases n - u,
    {
        let list = &lists[u];
        let ghost before = all_terms@;
        let mut j: usize = 0;
        while j < list.len()
            invariant
                j <= list@.len(),
                all_terms@ == before + list@.take(j as int),
            decreases list@.len() - j,
        {
            all_terms.push(list[j]);
            j += 1;
            assert(all_terms@ =~= before + list@.take(j as int));
        }
        proof {
            assert(list@.take(j as int) =~= list@);
            assert(list@ == numbers_of(adj, u));
            lemma_collected(adj, before, u);
        }
        u += 1;
    }
    assert(adj.take(n as int) =~= adj);
    let ghost unsorted = all_terms@;
    par_sort_numbers(&mut all_terms);
    proof {
        lemma_same_members(unsorted, all_terms@);
    }
    let table = dedup(&all_terms);
    assert forall|x: u32| #[trigger] table@.contains(x) <==> is_neighbor(adj, x) by {
        assert(table@.contains(x) <==> all_terms@.contains(x));
        assert(unsorted.contains(x) <==> all_terms@.contains(x));
    }
    table
}

proof fn lemma_collected(adj: Seq<Seq<usize>>, before: Seq<u32>, at: usize)
    requires
        closed(adj),
        adj.len() <= u32::MAX,
        at < adj.len(),
        forall|x: u32| #[trigger] before.contains(x) <==> is_neighbor(adj.take(at as int), x),
    ensures
        forall|x: u32| #[trigger]
            (before + numbers_of(adj, at)).contains(x) <==> is_neighbor(adj.take(at + 1), x),
{
    let u = at as int;
    let list = numbers_of(adj, at);
    let both = before + list;
    assert forall|x: u32| #[trigger] both.contains(x) <==> is_neighbor(adj.take(u + 1), x) by {
        if both.contains(x) {
            let i = choose|i: int| 0 <= i < both.len() && both[i] == x;
            if i < before.len() {
                assert(before.contains(before[i]));
                let v = choose|v: int|
                    0 <= v < u && (#[trigger] adj.take(u)[v]).contains(x as usize);
                assert(adj.take(u + 1)[v].contains(x as usize));
            } else {
                let j = i - before.len();
                assert(adj[u][j] < adj.len());
                assert(list[j] == x);
                assert(adj[u].contains(adj[u][j]));
                assert(adj.take(u + 1)[u].contains(x as usize));
            }
        }
        if is_neighbor(adj.take(u + 1), x) {
            let v = choose|v: int|
                0 <= v < adj.take(u + 1).len() && (#[trigger] adj.take(u + 1)[v]).contains(
                    x as usize,
                );
            if v < u {
                assert(adj.take(u)[v].contains(x as usize));
                assert(before.contains(x));
                let i = choose|i: int| 0 <= i < before.len() && before[i] == x;
                assert(both[i] == x);
            } else {
                let j = choose|j: int| 0 <= j < adj[u].len() && adj[u][j] == x as usize;
                assert(list[j] == x);
                assert(both[before.len() + j] == x);
            }
        }
    }
}

/// The term of every node that has one.
fn map_terms(table: &Vec<u32>, n: usize) -> (term_map: Vec<u32>)
    requires
        increasing(table@),
        table@.len() <= u32::MAX,
        forall|t: int| 0 <= t < table@.len() ==> #[trigger] table@[t] < n,
    ensures
        term_map@.len() == n,
        forall|t: int|
            0 <= t < table@.len() ==> term_map@[(#[trigger] table@[t]) as int] == t,
{
    let mut term_map: Vec<u32> = Vec::new();
    let mut i: usize = 0;
    while i < n
        invariant
            i <= n,
            term_map@.len() == i,
        decreases n - i,
    {
        term_map.push(u32::MAX);
        i += 1;
    }
    let mut t: usize = 0;
    while t < table.len()
        invariant
            increasing(table@),
            table@.len() <= u32::MAX,
            forall|l: int| 0 <= l < table@.len() ==> #[trigger] table@[l] < n,
            t <= table@.len(),
            term_map@.len() == n,
            forall|l: int| 0 <= l < t ==> term_map@[(#[trigger] table@[l]) as int] == l,
        decreases table@.len() - t,
    {
        assert(table@[t as int] < n);
        term_map.set(table[t] as usize, t as u32);
        t += 1;
    }
    term_map
}

/// Puts `x` in its place among increasing numbers, unless it is there already.
fn insert_distinct(numbers: &mut Vec<u32>, x: u32)
    requires
        increasing(old(numbers)@),
    ensures
        increasing(final(numbers)@),
        forall|y: u32| #[trigger]
            final(numbers)@.contains(y) <==> old(numbers)@.contains(y) || y == x,
{
    let ghost before = numbers@;
    let mut at: usize = 0;
    while at < numbers.len() && numbers[at] < x
        invariant
            numbers@ == before,
            increasing(before),
            at <= before.len(),
            forall|i: int| 0 <= i < at ==> #[trigger] before[i] < x,
        decreases before.len() - at,
    {
        at += 1;
    }
    if at < numbers.len() && numbers[at] == x {
        assert(before[at as int] == x);
        return;
    }
    numbers.insert(at, x);
    proof {
        let after = numbers@;
        assert forall|i: int, j: int| 0 <= i < j < after.len() implies #[trigger] after[i]
            < #[trigger] after[j] by {
            let a = if i < at { i } else { i - 1 };
            let b = if j < at { j } else { j - 1 };
            if i != at {
                assert(after[i] == before[a]);
            }
            if j != at {
                assert(after[j] == before[b]);
            }
            if i == at && b > at {
                assert(before[at as int] < before[b]);
            }
        }
        assert forall|y: u32| #[trigger] after.contains(y) <==> before.contains(y) || y == x by {
            if before.contains(y) {
                let i = choose|i: int| 0 <= i < before.len() && before[i] == y;
                if i < at {
                    assert(after[i] == y);
                } else {
                    assert(after[i + 1] == y);
                }
            }
            if y == x {
                assert(after[at as int] == y);
            }
            if after.contains(y) && y != x {
                let i = choose|i: int| 0 <= i < after.len() && after[i] == y;
                let a = if i < at { i } else { i - 1 };
                assert(before[a] == y);
            }
        }
    }
}

/// Node `u` as a document.
fn make_document<G: GraphTrait>(
    graph: &G,
    table: &Vec<u32>,
    term_map: &Vec<u32>,
    u: usize,
) -> (document: Document)
    requires
        graph.wf(),
        closed(graph.model().adj),
        graph.model().adj.len() <= u32::MAX,
        is_term_table(graph.model().adj, table@),
        table@.len() <= u32::MAX,
        term_map@.len() == graph.model().adj.len(),
        forall|t: int|
            0 <= t < table@.len() ==> term_map@[(#[trigger] table@[t]) as int] == t,
        u < graph.model().adj.len(),
    ensures
        describes_node(graph.model().adj, table@, document, u as int),
{
    let ghost adj = graph.model().adj;
    let nbrs = graph.neighbors(u);
    let mut terms: Vec<u32> = Vec::new();
    let mut j: usize = 0;
    while j < nbrs.len()
        invariant
            closed(adj),
            adj.len() <= u32::MAX,
            is_term_table(adj, table@),
            table@.len() <= u32::MAX,
            term_map@.len() == adj.len(),
            forall|t: int|
                0 <= t < table@.len() ==> term_map@[(#[trigger] table@[t]) as int] == t,
            u < adj.len(),
            nbrs@ == adj[u as int],
            j <= nbrs@.len(),
            increasing(terms@),
            forall|t: u32| #[trigger]
                terms@.contains(t) <==> t < table@.len() && nbrs@.take(j as int).contains(
                    table@[t as int] as usize,
                ),
        decreases nbrs@.len() - j,
    {
        let v: usize = nbrs[j];
        assert(v < adj.len());
        let term: u32 = term_map[v];
        proof {
            lemma_take_push(nbrs@, j as int);
            lemma_push_contains(nbrs@.take(j as int), v);
            assert(adj[u as int].contains(v));
            assert(is_neighbor(adj, v as u32));
            assert(table@.contains(v as u32));
            let at = choose|at: int| 0 <= at < table@.len() && table@[at] == v as u32;
            assert(term == at);
            assert forall|t: u32| t < table@.len() && table@[t as int] as usize == v implies t
                == term by {
                assert(term_map@[table@[t as int] as int] == t);
            }
        }
        insert_distinct(&mut terms, term);
        j += 1;
    }
    assert(nbrs@.take(j as int) =~= nbrs@);
    Document { terms, org_id: u as u32 }
}

/// The permutation (old id to new id) that a recursive graph bisection of the adjacency lists
/// gives.
///
/// Every node becomes a document whose terms are its neighbours; `bisect` gets the documents, the
/// number of terms and the settings, and returns the original ids of the documents in their new
/// order.
pub fn compute_egb_permutation<
    G: GraphTrait + Sync,
    B: FnOnce(Vec<Document>, usize, BisectionSettings) -> Vec<usize>,
>(graph: &G, bisect: B) -> (permutation: Vec<usize>)
    requires
        graph.wf(),
        closed(graph.model().adj),
        graph.model().adj.len() <= u32::MAX,
        reorders(graph.model().adj, bisect),
    ensures
        is_bisection(graph.model().adj, bisect, permutation@),
        is_permutation(permutation@),
        permutation@.len() == graph.model().adj.len(),
        exists|documents: Vec<Document>, n_terms: usize, order: Vec<usize>|
            {
                &&& #[trigger] bisect.ensures((documents, n_terms, graph_settings()), order)
                &&& order@.len() == permutation@.len()
                &&& forall|u: int|
                    0 <= u < permutation@.len() ==> order@[#[trigger] permutation@[u] as int] == u
            },
{
    let ghost adj = graph.model().adj;
    let n: usize = graph.n_nodes();
    let table = collect_terms(graph);
    let num_terms: usize = table.len();
    proof {
        lemma_table_bounds(adj, table@);
    }
    let term_map = map_terms(&table, n);
    let nodes = node_ids(n);
    let to_document = |_i: usize, u: usize| -> (document: Document)
        requires
            u < graph.model().adj.len(),
        ensures
            describes_node(graph.model().adj, table@, document, u as int),
    {
        make_document(graph, &table, &term_map, u)
    };
    let documents: Vec<Document> = par_map(nodes.as_slice(), to_document);
    proof {
        assert forall|u: int| 0 <= u < documents@.len() implies describes_node(
            adj,
            table@,
            #[trigger] documents@[u],
            u,
        ) by {
            assert(nodes@[(u as usize) as int] == u as usize);
            assert(documents@[(u as usize) as int] == documents@[u]);
        }
        assert(describes(adj, table@, documents@));
    }
    let settings = BisectionSettings {
        iterations: 10,
        min_partition_size: 64,
        max_depth: 100,
        parallel_switch: 100,
        depth_limit: 1,
        sort_leaf: true,
        id: 1,
    };
    let ghost given = documents;
    let order: Vec<usize> = bisect(documents, num_terms, settings);
    proof {
        assert(bisect.ensures((given, num_terms, graph_settings()), order));
        law_inverse_takes_back(order@);
    }
    let permutation = invert_mapping(order.as_slice());
    proof {
        assert forall|u: int| 0 <= u < permutation@.len() implies order@[
        #[trigger] permutation@[u] as int] == u by {
            assert(order@[inverted(order@)[u] as int] == u);
        }
    }
    permutation
}

/// The terms of a document stand for the neighbours of its node, each once: two documents share a
/// term just where their nodes share a neighbour.
pub proof fn law_terms_stand_for_neighbors(
    adj: Seq<Seq<usize>>,
    table: Seq<u32>,
    documents: Seq<Document>,
    u: int,
    v: int,
)
    requires
        closed(adj),
        adj.len() <= u32::MAX,
        is_term_table(adj, table),
        describes(adj, table, documents),
        0 <= u < adj.len(),
        0 <= v < adj.len(),
    ensures
        documents[u].org_id == u,
        documents[u].terms@.no_duplicates(),
        (exists|t: u32| #[trigger] documents[u].terms@.contains(t) && documents[v].terms@.contains(t))
            <==> (exists|x: usize| #[trigger] adj[u].contains(x) && adj[v].contains(x)),
{
    assert(describes_node(adj, table, documents[u], u));
    assert(describes_node(adj, table, documents[v], v));
    let terms = documents[u].terms@;
    assert forall|i: int, j: int| 0 <= i < terms.len() && 0 <= j < terms.len() && i
        != j implies terms[i] != terms[j] by {
        if i < j {
            assert(terms[i] < terms[j]);
        } else {
            assert(terms[j] < terms[i]);
        }
    }
    if exists|t: u32| #[trigger] terms.contains(t) && documents[v].terms@.contains(t) {
        let t = choose|t: u32| #[trigger] terms.contains(t) && documents[v].terms@.contains(t);
        assert(adj[u].contains(table[t as int] as usize));
    }
    if exists|x: usize| #[trigger] adj[u].contains(x) && adj[v].contains(x) {
        let x = choose|x: usize| #[trigger] adj[u].contains(x) && adj[v].contains(x);
        let j = choose|j: int| 0 <= j < adj[u].len() && adj[u][j] == x;
        assert(adj[u][j] < adj.len());
        lemma_table_bounds(adj, table);
        assert(adj[u].contains((x as u32) as usize));
        assert(is_neighbor(adj, x as u32));
        assert(table.contains(x as u32));
        let t = choose|t: int| 0 <= t < table.len() && table[t] == x as u32;
        assert(documents[u].terms@.contains(t as u32));
        assert(documents[v].terms@.contains(t as u32));
    }
}

/// There are no more terms than nodes.
proof fn lemma_table_bounds(adj: Seq<Seq<usize>>, table: Seq<u32>)
    requires
        closed(adj),
        adj.len() <= u32::MAX,
        is_term_table(adj, table),
    ensures
        forall|t: int| 0 <= t < table.len() ==> #[trigger] table[t] < adj.len(),
        table.len() <= adj.len(),
{
    assert forall|t: int| 0 <= t < table.len() implies #[trigger] table[t] < adj.len() by {
        assert(table.contains(table[t]));
        let u = choose|u: int|
            0 <= u < adj.len() && (#[trigger] adj[u]).contains(table[t] as usize);
        let j = choose|j: int| 0 <= j < adj[u].len() && adj[u][j] == table[t] as usize;
        assert(adj[u][j] < adj.len());
    }
    if table.len() > 0 {
        lemma_increasing_at_least(table, table.len() - 1);
    }
}

proof fn lemma_increasing_at_least(table: Seq<u32>, t: int)
    requires
        increasing(table),
        0 <= t < table.len(),
    ensures
        table[t] >= t,
    decreases t,
{
    if t > 0 {
        lemma_increasing_at_least(table, t - 1);
        assert(table[t - 1] < table[t]);
    }
}

} // verus!
