//! Build orders: a topological sort that reports cycles, and the strata of what
//! can be built at the same time.

use vstd::prelude::*;

use crate::error::Error;
use crate::maps::{NameMap, NameSet};
use crate::order::{law_sorted_list_is_unique, sorted_list_of, sorted_names, strictly_sorted};
use crate::text::{join, join_spec, views};

verus! {

broadcast use {vstd::string::group_string_axioms, crate::seqs::lemma_map_push};

/// A graph: from a node to the nodes that it needs, which need not all be nodes of
/// the graph.
pub type Graph = Map<Seq<char>, Seq<Seq<char>>>;

/// The graph that a table of edges stands for.
pub open spec fn graph(edges: Map<Seq<char>, Vec<String>>) -> Graph {
    edges.map_values(|v: Vec<String>| views(v@))
}

/// What `n` needs.
pub open spec fn deps(g: Graph, n: Seq<char>) -> Seq<Seq<char>> {
    if g.dom().contains(n) {
        g[n]
    } else {
        Seq::empty()
    }
}

/// `a` needs `b`, and both are nodes.
pub open spec fn edge(g: Graph, nodes: Set<Seq<char>>, a: Seq<char>, b: Seq<char>) -> bool {
    nodes.contains(a) && nodes.contains(b) && deps(g, a).contains(b)
}

/// `order` lists every node once, and each after all the nodes that it needs.
pub open spec fn is_build_order(g: Graph, nodes: Set<Seq<char>>, order: Seq<Seq<char>>) -> bool {
    &&& order.no_duplicates()
    &&& forall|n: Seq<char>| nodes.contains(n) <==> #[trigger] order.contains(n)
    &&& needs_first(g, nodes, order)
}

/// Each of `order` comes after all the nodes that it needs.
pub open spec fn needs_first(g: Graph, nodes: Set<Seq<char>>, order: Seq<Seq<char>>) -> bool {
    forall|i: int, d: Seq<char>|
        0 <= i < order.len() && #[trigger] edge(g, nodes, order[i], d) ==> order.take(i).contains(d)
}

/// Each of `path` needs the next.
pub open spec fn is_walk(g: Graph, nodes: Set<Seq<char>>, path: Seq<Seq<char>>) -> bool {
    forall|i: int| 0 <= i < path.len() - 1 ==> edge(g, nodes, #[trigger] path[i], path[i + 1])
}

/// A walk that ends where it has been before.
pub open spec fn is_cycle_report(g: Graph, nodes: Set<Seq<char>>, path: Seq<Seq<char>>) -> bool {
    &&& path.len() >= 2
    &&& is_walk(g, nodes, path)
    &&& path.drop_last().contains(path.last())
}

/// The message for a cycle.
pub open spec fn cycle_text(path: Seq<Seq<char>>) -> Seq<char> {
    "cycle: "@ + join_spec(path, " → "@)
}

/// What a search comes to: an order, or a path on which it met a node again.
pub enum Search {
    Order(Seq<Seq<char>>),
    Cycle(Seq<Seq<char>>),
}

/// How many nodes there are besides those on `stack`.
pub open spec fn room(nodes: Set<Seq<char>>, stack: Seq<Seq<char>>) -> nat {
    if stack.len() <= nodes.len() {
        (nodes.len() - stack.len()) as nat
    } else {
        0
    }
}

/// The search goes to `n`, on the way of `stack` and with `order` behind it: first to
/// what `n` needs, then `n` is done. A stack that holds as many nodes as there are
/// holds them all.
pub open spec fn visited(
    g: Graph,
    nodes: Set<Seq<char>>,
    stack: Seq<Seq<char>>,
    order: Seq<Seq<char>>,
    n: Seq<char>,
) -> Search
    decreases room(nodes, stack), 0nat,
{
    if order.contains(n) {
        Search::Order(order)
    } else if stack.contains(n) || stack.len() >= nodes.len() {
        Search::Cycle(stack.push(n))
    } else {
        match visited_all(g, nodes, stack.push(n), order, deps(g, n)) {
            Search::Order(done) => Search::Order(done.push(n)),
            cycle => cycle,
        }
    }
}

/// The search goes to each node of a list in turn.
pub open spec fn visited_all(
    g: Graph,
    nodes: Set<Seq<char>>,
    stack: Seq<Seq<char>>,
    order: Seq<Seq<char>>,
    list: Seq<Seq<char>>,
) -> Search
    decreases room(nodes, stack), list.len() + 1,
{
    if list.len() == 0 {
        Search::Order(order)
    } else {
        match visited_all(g, nodes, stack, order, list.drop_last()) {
            Search::Order(done) => if nodes.contains(list.last()) {
                visited(g, nodes, stack, done, list.last())
            } else {
                Search::Order(done)
            },
            cycle => cycle,
        }
    }
}

/// The nodes, sorted.
pub open spec fn sorted(nodes: Set<Seq<char>>) -> Seq<Seq<char>> {
    choose|list: Seq<Seq<char>>| #[trigger] sorted_list_of(list, nodes)
}

/// The search through a graph: to every node, in the order of their names.
pub open spec fn search(g: Graph, nodes: Set<Seq<char>>) -> Search {
    visited_all(g, nodes, Seq::empty(), Seq::empty(), sorted(nodes))
}

/// `e` is the error for a search that came to `s`: the message shows its path, which
/// leads into a cycle of the graph.
pub open spec fn shows_cycle(g: Graph, nodes: Set<Seq<char>>, s: Search, e: Error) -> bool {
    &&& s is Cycle
    &&& is_cycle_report(g, nodes, s->Cycle_0)
    &&& e matches Error::Resolve(m)
    &&& m@ == cycle_text(s->Cycle_0)
}

/// A failed sort: the message shows the cycle that the search came to.
pub open spec fn reports_cycle(g: Graph, nodes: Set<Seq<char>>, e: Error) -> bool {
    shows_cycle(g, nodes, search(g, nodes), e)
}

/// A search that has met a cycle does not go on.
proof fn lemma_cycle_stays(
    g: Graph,
    nodes: Set<Seq<char>>,
    stack: Seq<Seq<char>>,
    order: Seq<Seq<char>>,
    list: Seq<Seq<char>>,
    k: int,
)
    requires
        0 <= k <= list.len(),
        visited_all(g, nodes, stack, order, list.take(k)) is Cycle,
    ensures
        visited_all(g, nodes, stack, order, list) == visited_all(
            g,
            nodes,
            stack,
            order,
            list.take(k),
        ),
    decreases list.len(),
{
    if k == list.len() {
        assert(list.take(k) =~= list);
    } else {
        assert(list.drop_last().take(k) =~= list.take(k));
        lemma_cycle_stays(g, nodes, stack, order, list.drop_last(), k);
    }
}

/// Where a node stands in the search: on the way, or done.
const ON_STACK: u8 = 1;

const DONE: u8 = 2;

/// The state of the search is consistent.
spec fn search_ok(
    g: Graph,
    nodes: Set<Seq<char>>,
    color: Map<Seq<char>, u8>,
    stack: Seq<Seq<char>>,
    order: Seq<Seq<char>>,
) -> bool {
    &&& stack.no_duplicates()
    &&& order.no_duplicates()
    &&& forall|n: Seq<char>| #[trigger] stack.contains(n) ==> nodes.contains(n)
    &&& forall|n: Seq<char>| #[trigger] order.contains(n) ==> nodes.contains(n)
    &&& forall|n: Seq<char>| #[trigger]
        color.dom().contains(n) ==> color[n] == ON_STACK || color[n] == DONE
    &&& forall|n: Seq<char>| #[trigger]
        stack.contains(n) <==> color.dom().contains(n) && color[n] == ON_STACK
    &&& forall|n: Seq<char>| #[trigger]
        order.contains(n) <==> color.dom().contains(n) && color[n] == DONE
    &&& is_walk(g, nodes, stack)
    &&& needs_first(g, nodes, order)
}

pub(crate) proof fn lemma_push_contains<A>(s: Seq<A>, x: A)
    ensures
        forall|y: A| #[trigger] s.push(x).contains(y) <==> s.contains(y) || y == x,
{
    assert forall|y: A| #[trigger] s.push(x).contains(y) <==> s.contains(y) || y == x by {
        if s.contains(y) {
            let i = choose|i: int| 0 <= i < s.len() && s[i] == y;
            assert(s.push(x)[i] == y);
        }
        if s.push(x).contains(y) && y != x {
            let i = choose|i: int| 0 <= i < s.push(x).len() && s.push(x)[i] == y;
            assert(s[i] == y);
        }
        assert(s.push(x)[s.len() as int] == x);
    }
}

/// Members of a set that are listed without repetition are not more than a list of
/// the whole set is long.
pub(crate) proof fn lemma_fits(part: Seq<Seq<char>>, whole: Seq<Seq<char>>)
    requires
        part.no_duplicates(),
        forall|n: Seq<char>| #[trigger] part.contains(n) ==> whole.contains(n),
    ensures
        part.len() <= whole.len(),
{
    part.unique_seq_to_set();
    assert(part.to_set().subset_of(whole.to_set())) by {
        assert forall|n: Seq<char>| part.to_set().contains(n) implies whole.to_set().contains(n) by {
            assert(part.contains(n));
        }
    }
    vstd::set_lib::lemma_len_subset(part.to_set(), whole.to_set());
    whole.lemma_cardinality_of_set();
}

/// A list of the members of a set is as long as the set is large.
proof fn lemma_order_len(order: Seq<Seq<char>>, nodes: Set<Seq<char>>)
    requires
        order.no_duplicates(),
        forall|n: Seq<char>| order.contains(n) <==> #[trigger] nodes.contains(n),
    ensures
        nodes.len() == order.len(),
{
    order.unique_seq_to_set();
    assert(order.to_set() =~= nodes) by {
        assert forall|n: Seq<char>| order.to_set().contains(n) <==> nodes.contains(n) by {
            assert(order.contains(n) <==> nodes.contains(n));
        }
    }
}

fn visit(
    node: &str,
    edges: &NameMap<String, Vec<String>>,
    nodes: &NameSet<String>,
    color: &mut NameMap<String, u8>,
    stack: &mut Vec<String>,
    order: &mut Vec<String>,
) -> (r: Result<(), Error>)
    requires
        nodes@.contains(node@),
        nodes.order().no_duplicates(),
        forall|n: Seq<char>| nodes.order().contains(n) <==> #[trigger] nodes@.contains(n),
        search_ok(graph(edges@), nodes@, old(color)@, views(old(stack)@), views(old(order)@)),
        old(stack)@.len() > 0 ==> edge(
            graph(edges@),
            nodes@,
            views(old(stack)@).last(),
            node@,
        ),
    ensures
        match r {
            Ok(_) => {
                &&& search_ok(
                    graph(edges@),
                    nodes@,
                    final(color)@,
                    views(final(stack)@),
                    views(final(order)@),
                )
                &&& views(final(stack)@) == views(old(stack)@)
                &&& views(old(order)@).is_prefix_of(views(final(order)@))
                &&& views(final(order)@).contains(node@)
                &&& visited(
                    graph(edges@),
                    nodes@,
                    views(old(stack)@),
                    views(old(order)@),
                    node@,
                ) == Search::Order(views(final(order)@))
            },
            Err(e) => shows_cycle(
                graph(edges@),
                nodes@,
                visited(
                    graph(edges@),
                    nodes@,
                    views(old(stack)@),
                    views(old(order)@),
                    node@,
                ),
                e,
            ),
        },
    decreases nodes.order().len() - old(stack)@.len(),
{
    let ghost g = graph(edges@);
    let ghost stack0 = views(stack@);
    let ghost order0 = views(order@);
    match color.get(node) {
        Some(c) => {
            if *c == DONE {
                assert(order0.contains(node@));
                return Ok(());
            }
            assert(stack0.contains(node@));
            stack.push(node.to_owned());
            let mut m = String::new();
            m.append("cycle: ");
            m.append(join(stack, " → ").as_str());
            proof {
                let path = views(stack@);
                assert(path == stack0.push(node@));
                assert(path.drop_last() =~= stack0);
                assert forall|i: int| 0 <= i < path.len() - 1 implies edge(
                    g,
                    nodes@,
                    #[trigger] path[i],
                    path[i + 1],
                ) by {
                    assert(path[i] == stack0[i]);
                    if i + 1 < stack0.len() {
                        assert(path[i + 1] == stack0[i + 1]);
                    }
                }
                assert(is_cycle_report(g, nodes@, path));
                assert(m@ =~= cycle_text(path));
            }
            return Err(Error::Resolve(m));
        },
        None => {},
    }
    assert(!stack0.contains(node@) && !order0.contains(node@));
    color.insert(node.to_owned(), ON_STACK);
    stack.push(node.to_owned());
    let ghost stack1 = views(stack@);
    proof {
        assert(stack1 == stack0.push(node@));
        lemma_push_contains(stack0, node@);
        assert forall|i: int| 0 <= i < stack1.len() - 1 implies edge(
            g,
            nodes@,
            #[trigger] stack1[i],
            stack1[i + 1],
        ) by {
            assert(stack1[i] == stack0[i]);
            if i + 1 < stack0.len() {
                assert(stack1[i + 1] == stack0[i + 1]);
            }
        }
        assert(search_ok(g, nodes@, color@, stack1, order0));
        assert forall|n: Seq<char>| #[trigger] stack1.contains(n) implies nodes.order().contains(
            n,
        ) by {
            assert(nodes@.contains(n));
        }
        lemma_fits(stack1, nodes.order());
        lemma_order_len(nodes.order(), nodes@);
    }
    match edges.get(node) {
        Some(ds) => {
            let ghost wanted = views(ds@);
            assert(wanted == deps(g, node@));
            let mut i: usize = 0;
            assert(wanted.take(0) =~= Seq::<Seq<char>>::empty());
            while i < ds.len()
                invariant
                    i <= ds.len(),
                    g == graph(edges@),
                    nodes@.contains(node@),
                    wanted == views(ds@),
                    wanted == deps(g, node@),
                    nodes.order().no_duplicates(),
                    forall|n: Seq<char>| nodes.order().contains(n) <==> #[trigger] nodes@.contains(n),
                    search_ok(g, nodes@, color@, views(stack@), views(order@)),
                    views(stack@) == stack1,
                    stack1 == stack0.push(node@),
                    stack0 == views(old(stack)@),
                    order0 == views(old(order)@),
                    stack1.len() <= nodes.order().len(),
                    order0.is_prefix_of(views(order@)),
                    forall|k: int|
                        0 <= k < i && nodes@.contains(#[trigger] wanted[k]) ==> views(
                            order@,
                        ).contains(wanted[k]),
                    visited_all(g, nodes@, stack1, order0, wanted.take(i as int))
                        == Search::Order(views(order@)),
                    visited(g, nodes@, stack0, order0, node@) == (match visited_all(
                        g,
                        nodes@,
                        stack1,
                        order0,
                        wanted,
                    ) {
                        Search::Order(done) => Search::Order(done.push(node@)),
                        cycle => cycle,
                    }),
                decreases ds.len() - i,
            {
                proof {
                    crate::seqs::lemma_take_succ(wanted, i as int);
                }
                assert(wanted[i as int] == ds@[i as int]@);
                if nodes.contains(ds[i].as_str()) {
                    assert(deps(g, node@).contains(wanted[i as int]));
                    assert(stack1.last() == node@);
                    let ghost order1 = views(order@);
                    match visit(ds[i].as_str(), edges, nodes, color, stack, order) {
                        Ok(_) => {},
                        Err(e) => {
                            proof {
                                assert(visited_all(
                                    g,
                                    nodes@,
                                    stack1,
                                    order0,
                                    wanted.take(i as int + 1),
                                ) == visited(g, nodes@, stack1, order1, wanted[i as int]));
                                lemma_cycle_stays(
                                    g,
                                    nodes@,
                                    stack1,
                                    order0,
                                    wanted,
                                    i as int + 1,
                                );
                            }
                            return Err(e);
                        },
                    }
                    let ghost order2 = views(order@);
                    proof {
                        assert forall|k: int|
                            0 <= k < i + 1 && nodes@.contains(
                                #[trigger] wanted[k],
                            ) implies order2.contains(wanted[k]) by {
                            if k < i {
                                assert(order1.contains(wanted[k]));
                                let w = choose|w: int| 0 <= w < order1.len() && order1[w] == wanted[k];
                                assert(order2[w] == order1[w]);
                            }
                        }
                    }
                }
                i = i + 1;
            }
            assert(wanted.take(i as int) =~= wanted);
            assert forall|d: Seq<char>| #[trigger] edge(g, nodes@, node@, d) implies views(
                order@,
            ).contains(d) by {
                let k = choose|k: int| 0 <= k < wanted.len() && wanted[k] == d;
                assert(nodes@.contains(wanted[k]));
            }
        },
        None => {},
    }
    let ghost color2 = color@;
    let ghost order2 = views(order@);
    assert(search_ok(g, nodes@, color2, stack1, order2));
    assert(forall|d: Seq<char>| #[trigger]
        edge(g, nodes@, node@, d) ==> order2.contains(d));
    assert(stack1[stack1.len() - 1] == node@);
    assert(stack1.contains(node@));
    assert(!order2.contains(node@));
    let ghost full = stack@;
    let _ = stack.pop();
    color.insert(node.to_owned(), DONE);
    order.push(node.to_owned());
    proof {
        let order3 = views(order@);
        assert(stack@ == full.drop_last());
        assert(views(stack@) =~= views(full).drop_last());
        assert(stack1.drop_last() =~= stack0);
        assert(order3 == order2.push(node@));
        lemma_push_contains(order2, node@);
        lemma_push_contains(stack0, node@);
        assert forall|i: int, d: Seq<char>|
            0 <= i < order3.len() && #[trigger] edge(
                g,
                nodes@,
                order3[i],
                d,
            ) implies order3.take(i).contains(d) by {
            if i < order2.len() {
                assert(order3[i] == order2[i]);
                assert(order3.take(i) =~= order2.take(i));
            } else {
                assert(order3.take(i) =~= order2);
            }
        }
        assert forall|i: int| 0 <= i < stack0.len() - 1 implies edge(
            g,
            nodes@,
            #[trigger] stack0[i],
            stack0[i + 1],
        ) by {
            assert(stack1[i] == stack0[i]);
            assert(stack1[i + 1] == stack0[i + 1]);
        }
        assert(order3.no_duplicates());
        assert(stack0.no_duplicates());
        assert forall|n: Seq<char>| #[trigger] stack0.contains(n) <==> color@.dom().contains(n)
            && color@[n] == ON_STACK by {
            assert(stack1.contains(n) <==> stack0.contains(n) || n == node@);
        }
        assert forall|n: Seq<char>| #[trigger] order3.contains(n) <==> color@.dom().contains(n)
            && color@[n] == DONE by {
            assert(order2.contains(n) <==> color2.dom().contains(n) && color2[n] == DONE);
        }
        assert(search_ok(g, nodes@, color@, stack0, order3));
    }
    Ok(())
}

/// Orders the nodes so that each comes after all the nodes that it needs. Edges
/// that lead out of the set of nodes do not matter.
pub fn sort(edges: &NameMap<String, Vec<String>>, nodes: &NameSet<String>) -> (r: Result<
    Vec<String>,
    Error,
>)
    ensures
        match r {
            Ok(order) => {
                &&& is_build_order(graph(edges@), nodes@, views(order@))
                &&& search(graph(edges@), nodes@) == Search::Order(views(order@))
            },
            Err(e) => reports_cycle(graph(edges@), nodes@, e),
        },
{
    let ghost g = graph(edges@);
    let names = sorted_names(nodes);
    let ghost all = views(names@);
    proof {
        assert(sorted_list_of(sorted(nodes@), nodes@));
        law_sorted_list_is_unique(all, sorted(nodes@), nodes@);
        assert(all.take(0) =~= Seq::<Seq<char>>::empty());
    }
    let _ = nodes.len();
    let mut color: NameMap<String, u8> = NameMap::new();
    let mut stack: Vec<String> = Vec::new();
    let mut order: Vec<String> = Vec::new();
    let mut i: usize = 0;
    assert(views(stack@) =~= Seq::<Seq<char>>::empty());
    assert(views(order@) =~= Seq::<Seq<char>>::empty());
    while i < names.len()
        invariant
            g == graph(edges@),
            i <= names.len(),
            sorted_list_of(views(names@), nodes@),
            nodes.order().no_duplicates(),
            forall|n: Seq<char>| nodes.order().contains(n) <==> #[trigger] nodes@.contains(n),
            all == views(names@),
            search(g, nodes@) == visited_all(g, nodes@, Seq::empty(), Seq::empty(), all),
            visited_all(g, nodes@, Seq::empty(), Seq::empty(), all.take(i as int))
                == Search::Order(views(order@)),
            search_ok(g, nodes@, color@, views(stack@), views(order@)),
            stack@.len() == 0,
            forall|k: int|
                0 <= k < i ==> views(order@).contains(#[trigger] views(names@)[k]),
        decreases names.len() - i,
    {
        assert(views(names@)[i as int] == names@[i as int]@);
        assert(views(names@).contains(names@[i as int]@));
        let ghost order1 = views(order@);
        proof {
            crate::seqs::lemma_take_succ(all, i as int);
            assert(views(stack@) =~= Seq::<Seq<char>>::empty());
        }
        match visit(names[i].as_str(), edges, nodes, &mut color, &mut stack, &mut order) {
            Ok(_) => {},
            Err(e) => {
                proof {
                    lemma_cycle_stays(
                        g,
                        nodes@,
                        Seq::empty(),
                        Seq::empty(),
                        all,
                        i as int + 1,
                    );
                }
                return Err(e);
            },
        }
        let ghost order2 = views(order@);
        assert(views(stack@).len() == 0);
        assert forall|k: int| 0 <= k < i + 1 implies order2.contains(
            #[trigger] views(names@)[k],
        ) by {
            if k < i {
                let n = views(names@)[k];
                assert(order1.contains(n));
                let w = choose|w: int| 0 <= w < order1.len() && order1[w] == n;
                assert(order2[w] == order1[w]);
            }
        }
        i = i + 1;
    }
    proof {
        assert(all.take(i as int) =~= all);
        let out = views(order@);
        assert forall|n: Seq<char>| nodes@.contains(n) <==> #[trigger] out.contains(n) by {
            if nodes@.contains(n) {
                assert(views(names@).contains(n));
                let k = choose|k: int| 0 <= k < views(names@).len() && views(names@)[k] == n;
                assert(out.contains(views(names@)[k]));
            }
        }
    }
    Ok(order)
}

/// The level of each node is above those of the nodes that it needs, and no higher
/// than that asks for.
pub open spec fn is_level_map(
    g: Graph,
    nodes: Set<Seq<char>>,
    done: Set<Seq<char>>,
    level: Map<Seq<char>, usize>,
) -> bool {
    &&& forall|n: Seq<char>| #[trigger] level.dom().contains(n) <==> done.contains(n)
    &&& forall|n: Seq<char>, d: Seq<char>|
        done.contains(n) && #[trigger] edge(g, nodes, n, d) ==> done.contains(d) && level[d]
            < level[n]
    &&& forall|n: Seq<char>| #[trigger]
        done.contains(n) && level[n] > 0 ==> exists|d: Seq<char>| #[trigger]
            edge(g, nodes, n, d) && level[d] == level[n] - 1
}

/// The strata of a graph: each node is in one of them, once; what a node needs is
/// in an earlier one; a node in a later stratum than the first needs one out of the
/// stratum just before, so that it could not be earlier. Each stratum is sorted.
pub open spec fn are_strata(
    g: Graph,
    nodes: Set<Seq<char>>,
    strata: Seq<Seq<Seq<char>>>,
) -> bool {
    &&& forall|n: Seq<char>|
        nodes.contains(n) <==> exists|l: int|
            0 <= l < strata.len() && (#[trigger] strata[l]).contains(n)
    &&& forall|l: int, m: int, n: Seq<char>|
        0 <= l < strata.len() && 0 <= m < strata.len() && #[trigger] strata[l].contains(n)
            && #[trigger] strata[m].contains(n) ==> l == m
    &&& forall|l: int| 0 <= l < strata.len() ==> strictly_sorted(#[trigger] strata[l])
    &&& forall|l: int| 0 <= l < strata.len() ==> (#[trigger] strata[l]).len() > 0
    &&& forall|l: int, n: Seq<char>, d: Seq<char>|
        0 <= l < strata.len() && #[trigger] strata[l].contains(n) && #[trigger] edge(
            g,
            nodes,
            n,
            d,
        ) ==> exists|m: int| 0 <= m < l && (#[trigger] strata[m]).contains(d)
    &&& forall|l: int, n: Seq<char>|
        0 < l < strata.len() && #[trigger] strata[l].contains(n) ==> exists|d: Seq<char>|
            #[trigger] edge(g, nodes, n, d) && strata[l - 1].contains(d)
}

/// The views of a list of lists of strings.
pub open spec fn nested_views(v: Seq<Vec<String>>) -> Seq<Seq<Seq<char>>> {
    v.map_values(|l: Vec<String>| views(l@))
}

/// Finds the lowest level that is above those of the nodes that `node` needs.
fn level_above(
    node: &str,
    edges: &NameMap<String, Vec<String>>,
    nodes: &NameSet<String>,
    level: &NameMap<String, usize>,
    Ghost(done): Ghost<Set<Seq<char>>>,
) -> (r: usize)
    requires
        nodes@.contains(node@),
        is_level_map(graph(edges@), nodes@, done, level@),
        forall|d: Seq<char>| #[trigger] edge(graph(edges@), nodes@, node@, d) ==> done.contains(d),
        forall|n: Seq<char>| #[trigger] level@.dom().contains(n) ==> level@[n] < usize::MAX,
    ensures
        forall|d: Seq<char>| #[trigger]
            edge(graph(edges@), nodes@, node@, d) ==> level@[d] < r,
        r > 0 ==> exists|d: Seq<char>| #[trigger]
            edge(graph(edges@), nodes@, node@, d) && level@[d] == r - 1,
{
    let ghost g = graph(edges@);
    let mut r: usize = 0;
    match edges.get(node) {
        Some(ds) => {
            let ghost wanted = views(ds@);
            assert(wanted == deps(g, node@));
            let mut i: usize = 0;
            while i < ds.len()
                invariant
                    g == graph(edges@),
                    nodes@.contains(node@),
                    wanted == views(ds@),
                    wanted == deps(g, node@),
                    is_level_map(g, nodes@, done, level@),
                    forall|d: Seq<char>| #[trigger] edge(g, nodes@, node@, d) ==> done.contains(d),
                    forall|n: Seq<char>| #[trigger]
                        level@.dom().contains(n) ==> level@[n] < usize::MAX,
                    i <= ds.len(),
                    forall|k: int|
                        0 <= k < i && nodes@.contains(#[trigger] wanted[k]) ==> level@[wanted[k]]
                            < r,
                    r > 0 ==> exists|d: Seq<char>| #[trigger]
                        edge(g, nodes@, node@, d) && level@[d] == r - 1,
                decreases ds.len() - i,
            {
                assert(wanted[i as int] == ds@[i as int]@);
                if nodes.contains(ds[i].as_str()) {
                    assert(wanted.contains(wanted[i as int]));
                    assert(edge(g, nodes@, node@, wanted[i as int]));
                    assert(level@.dom().contains(wanted[i as int]));
                    let l: usize = *level.get(ds[i].as_str()).unwrap();
                    if l >= r {
                        r = l + 1;
                    }
                }
                i = i + 1;
            }
            assert forall|d: Seq<char>| #[trigger] edge(g, nodes@, node@, d) implies level@[d]
                < r by {
                let k = choose|k: int| 0 <= k < wanted.len() && wanted[k] == d;
                assert(nodes@.contains(wanted[k]));
            }
        },
        None => {},
    }
    r
}

/// Groups the nodes into strata: each can be built once all earlier ones are.
#[verifier::spinoff_prover]
#[verifier::rlimit(40)]
pub fn strata(edges: &NameMap<String, Vec<String>>, nodes: &NameSet<String>) -> (r: Result<
    Vec<Vec<String>>,
    Error,
>)
    ensures
        match r {
            Ok(levels) => are_strata(graph(edges@), nodes@, nested_views(levels@)),
            Err(e) => reports_cycle(graph(edges@), nodes@, e),
        },
{
    let ghost g = graph(edges@);
    let order = match sort(edges, nodes) {
        Ok(order) => order,
        Err(e) => {
            return Err(e);
        },
    };
    let ghost line = views(order@);
    let mut level: NameMap<String, usize> = NameMap::new();
    let mut height: usize = 0;
    let mut i: usize = 0;
    assert(line.take(0).to_set() =~= Set::<Seq<char>>::empty());
    while i < order.len()
        invariant
            g == graph(edges@),
            line == views(order@),
            is_build_order(g, nodes@, line),
            i <= order.len(),
            height <= i,
            is_level_map(g, nodes@, line.take(i as int).to_set(), level@),
            forall|n: Seq<char>| #[trigger]
                level@.dom().contains(n) ==> level@[n] < height,
            height > 0 ==> exists|n: Seq<char>| #[trigger]
                level@.dom().contains(n) && level@[n] == height - 1,
        decreases order.len() - i,
    {
        let ghost done = line.take(i as int).to_set();
        let ghost before = level@;
        let ghost node = line[i as int];
        assert(node == order@[i as int]@);
        proof {
            assert(line.contains(node));
            assert forall|d: Seq<char>| #[trigger] edge(g, nodes@, node, d) implies done.contains(
                d,
            ) by {
                assert(edge(g, nodes@, line[i as int], d));
                assert(line.take(i as int).contains(d));
            }
            assert(!done.contains(node)) by {
                if line.take(i as int).contains(node) {
                    let w = choose|w: int|
                        0 <= w < line.take(i as int).len() && line.take(i as int)[w] == node;
                    assert(line[w] == line[i as int]);
                }
            }
        }
        let l: usize = level_above(order[i].as_str(), edges, nodes, &level, Ghost(done));
        proof {
            if l > 0 {
                let d = choose|d: Seq<char>| #[trigger]
                    edge(g, nodes@, node, d) && level@[d] == l - 1;
                assert(level@.dom().contains(d));
            }
        }
        let ghost tall = height;
        level.insert(order[i].clone(), l);
        if l >= height {
            height = l + 1;
        }
        proof {
            let next = line.take(i as int + 1).to_set();
            assert(line.take(i as int + 1) =~= line.take(i as int).push(node));
            lemma_push_contains(line.take(i as int), node);
            assert(next =~= done.insert(node));
            assert forall|n: Seq<char>, d: Seq<char>|
                next.contains(n) && #[trigger] edge(g, nodes@, n, d) implies next.contains(d)
                && level@[d] < level@[n] by {
                if n == node {
                    assert(done.contains(d));
                } else {
                    assert(done.contains(n));
                    assert(done.contains(d));
                }
            }
            assert forall|n: Seq<char>| #[trigger]
                next.contains(n) && level@[n] > 0 implies exists|d: Seq<char>| #[trigger]
                edge(g, nodes@, n, d) && level@[d] == level@[n] - 1 by {
                if n == node {
                    let d = choose|d: Seq<char>| #[trigger]
                        edge(g, nodes@, node, d) && before[d] == l - 1;
                    assert(done.contains(d));
                    assert(edge(g, nodes@, n, d) && level@[d] == level@[n] - 1);
                } else {
                    assert(done.contains(n));
                    let d = choose|d: Seq<char>| #[trigger]
                        edge(g, nodes@, n, d) && before[d] == before[n] - 1;
                    assert(done.contains(d));
                    assert(edge(g, nodes@, n, d) && level@[d] == level@[n] - 1);
                }
            }
            if l >= tall {
                assert(level@.dom().contains(node) && level@[node] == height - 1);
            } else {
                let n = choose|n: Seq<char>| #[trigger]
                    before.dom().contains(n) && before[n] == tall - 1;
                assert(done.contains(n));
                assert(level@.dom().contains(n) && level@[n] == height - 1);
            }
        }
        i = i + 1;
    }
    proof {
        assert(line.take(i as int) =~= line);
        assert(line.to_set() =~= nodes@) by {
            assert forall|n: Seq<char>| line.to_set().contains(n) <==> nodes@.contains(n) by {
                assert(line.contains(n) <==> nodes@.contains(n));
            }
        }
    }
    let names = sorted_names(nodes);
    let levels = fill_levels(&names, &level, height, Ghost(nodes@));
    proof {
        lemma_levels_are_strata(g, nodes@, level@, height as int, nested_views(levels@));
    }
    Ok(levels)
}

/// `levels` holds, at each level, the nodes of that level, sorted.
spec fn filled(
    nodes: Set<Seq<char>>,
    level: Map<Seq<char>, usize>,
    height: int,
    levels: Seq<Seq<Seq<char>>>,
) -> bool {
    &&& levels.len() == height
    &&& forall|l: int| 0 <= l < height ==> strictly_sorted(#[trigger] levels[l])
    &&& forall|l: int, n: Seq<char>|
        0 <= l < height ==> (#[trigger] levels[l].contains(n) <==> nodes.contains(n) && level[n]
            == l)
}

fn fill_levels(
    names: &Vec<String>,
    level: &NameMap<String, usize>,
    height: usize,
    Ghost(nodes): Ghost<Set<Seq<char>>>,
) -> (levels: Vec<Vec<String>>)
    requires
        sorted_list_of(views(names@), nodes),
        forall|n: Seq<char>| #[trigger] level@.dom().contains(n) <==> nodes.contains(n),
        forall|n: Seq<char>| #[trigger] level@.dom().contains(n) ==> level@[n] < height,
    ensures
        filled(nodes, level@, height as int, nested_views(levels@)),
{
    let mut levels: Vec<Vec<String>> = Vec::new();
    let ghost all = views(names@);
    let mut l: usize = 0;
    while l < height
        invariant
            l <= height,
            all == views(names@),
            sorted_list_of(all, nodes),
            forall|n: Seq<char>| #[trigger] level@.dom().contains(n) <==> nodes.contains(n),
            levels.len() == l,
            forall|m: int| 0 <= m < l ==> strictly_sorted(#[trigger] nested_views(levels@)[m]),
            forall|m: int, n: Seq<char>|
                0 <= m < l ==> (#[trigger] nested_views(levels@)[m].contains(n) <==> nodes.contains(
                    n,
                ) && level@[n] == m),
        decreases height - l,
    {
        let mut here: Vec<String> = Vec::new();
        let mut i: usize = 0;
        while i < names.len()
            invariant
                i <= names.len(),
                all == views(names@),
                sorted_list_of(all, nodes),
                forall|n: Seq<char>| #[trigger] level@.dom().contains(n) <==> nodes.contains(n),
                strictly_sorted(views(here@)),
                forall|n: Seq<char>| #[trigger]
                    views(here@).contains(n) <==> all.take(i as int).contains(n) && level@[n] == l,
            decreases names.len() - i,
        {
            let ghost x = all[i as int];
            assert(x == names@[i as int]@);
            assert(all.contains(x));
            let ghost before = views(here@);
            let at: usize = *level.get(names[i].as_str()).unwrap();
            if at == l {
                here.push(names[i].clone());
            }
            proof {
                let after = views(here@);
                assert(all.take(i as int + 1) =~= all.take(i as int).push(x));
                lemma_push_contains(all.take(i as int), x);
                if at == l {
                    assert(after =~= before.push(x));
                    lemma_push_contains(before, x);
                    assert forall|a: int, b: int| 0 <= a < b < after.len() implies crate::order::lex_lt(
                        #[trigger] after[a],
                        #[trigger] after[b],
                    ) by {
                        assert(after[a] == before[a]);
                        if b == before.len() {
                            assert(before.contains(before[a]));
                            let w = choose|w: int|
                                0 <= w < all.take(i as int).len() && all.take(i as int)[w]
                                    == before[a];
                            assert(all[w] == before[a]);
                            assert(crate::order::lex_lt(all[w], all[i as int]));
                        } else {
                            assert(after[b] == before[b]);
                        }
                    }
                }
            }
            i = i + 1;
        }
        assert(all.take(i as int) =~= all);
        let ghost lower = nested_views(levels@);
        let ghost mine = views(here@);
        levels.push(here);
        assert(nested_views(levels@) =~= lower.push(mine));
        l = l + 1;
    }
    levels
}

proof fn lemma_level_below(
    g: Graph,
    nodes: Set<Seq<char>>,
    level: Map<Seq<char>, usize>,
    n: Seq<char>,
    l: int,
) -> (m: Seq<char>)
    requires
        is_level_map(g, nodes, nodes, level),
        nodes.contains(n),
        0 <= l <= level[n],
    ensures
        nodes.contains(m),
        level[m] == l,
    decreases level[n],
{
    if level[n] == l {
        n
    } else {
        let d = choose|d: Seq<char>| #[trigger] edge(g, nodes, n, d) && level[d] == level[n] - 1;
        lemma_level_below(g, nodes, level, d, l)
    }
}

proof fn lemma_levels_are_strata(
    g: Graph,
    nodes: Set<Seq<char>>,
    level: Map<Seq<char>, usize>,
    height: int,
    levels: Seq<Seq<Seq<char>>>,
)
    requires
        is_level_map(g, nodes, nodes, level),
        filled(nodes, level, height, levels),
        forall|n: Seq<char>| #[trigger] level.dom().contains(n) ==> level[n] < height,
        height > 0 ==> exists|n: Seq<char>| #[trigger]
            level.dom().contains(n) && level[n] == height - 1,
    ensures
        are_strata(g, nodes, levels),
{
    assert forall|n: Seq<char>|
        nodes.contains(n) <==> exists|l: int|
            0 <= l < levels.len() && (#[trigger] levels[l]).contains(n) by {
        if nodes.contains(n) {
            assert(level.dom().contains(n));
            assert(levels[level[n] as int].contains(n));
        }
        if exists|l: int| 0 <= l < levels.len() && (#[trigger] levels[l]).contains(n) {
            let l = choose|l: int| 0 <= l < levels.len() && (#[trigger] levels[l]).contains(n);
            assert(levels[l].contains(n));
        }
    }
    assert forall|l: int| 0 <= l < levels.len() implies (#[trigger] levels[l]).len() > 0 by {
        let top = choose|n: Seq<char>| #[trigger]
            level.dom().contains(n) && level[n] == height - 1;
        let m = lemma_level_below(g, nodes, level, top, l);
        assert(levels[l].contains(m));
    }
    assert forall|l: int, n: Seq<char>, d: Seq<char>|
        0 <= l < levels.len() && #[trigger] levels[l].contains(n) && #[trigger] edge(
            g,
            nodes,
            n,
            d,
        ) implies exists|m: int| 0 <= m < l && (#[trigger] levels[m]).contains(d) by {
        assert(level[d] < level[n]);
        assert(levels[level[d] as int].contains(d));
    }
    assert forall|l: int, n: Seq<char>|
        0 < l < levels.len() && #[trigger] levels[l].contains(n) implies exists|d: Seq<char>|
        #[trigger] edge(g, nodes, n, d) && levels[l - 1].contains(d) by {
        let d = choose|d: Seq<char>| #[trigger] edge(g, nodes, n, d) && level[d] == level[n] - 1;
        assert(levels[l - 1].contains(d));
        assert(edge(g, nodes, n, d) && levels[l - 1].contains(d));
    }
}

/// A graph that has a build order has no cycle to report, so that a sort fails
/// exactly on the graphs that have one.
pub proof fn law_order_excludes_cycles(
    g: Graph,
    nodes: Set<Seq<char>>,
    order: Seq<Seq<char>>,
    path: Seq<Seq<char>>,
)
    requires
        is_build_order(g, nodes, order),
    ensures
        !is_cycle_report(g, nodes, path),
{
    if is_cycle_report(g, nodes, path) {
        let last = path.len() - 1;
        let k = choose|k: int|
            0 <= k < path.drop_last().len() && path.drop_last()[k] == path.last();
        assert(path[k] == path[last]);
        lemma_walk_goes_back(g, nodes, order, path, k, last);
    }
}

/// Along a walk the places in a build order fall.
proof fn lemma_walk_goes_back(
    g: Graph,
    nodes: Set<Seq<char>>,
    order: Seq<Seq<char>>,
    path: Seq<Seq<char>>,
    from: int,
    to: int,
)
    requires
        is_build_order(g, nodes, order),
        is_walk(g, nodes, path),
        0 <= from < to < path.len(),
    ensures
        exists|i: int, j: int|
            0 <= j < i < order.len() && order[i] == path[from] && order[j] == path[to],
        path[from] != path[to],
    decreases to - from,
{
    assert(edge(g, nodes, path[from], path[from + 1]));
    assert(order.contains(path[from]));
    let i = choose|i: int| 0 <= i < order.len() && order[i] == path[from];
    assert(edge(g, nodes, order[i], path[from + 1]));
    assert(order.take(i).contains(path[from + 1]));
    let j = choose|j: int| 0 <= j < order.take(i).len() && order.take(i)[j] == path[from + 1];
    assert(order[j] == path[from + 1]);
    if from + 1 < to {
        lemma_walk_goes_back(g, nodes, order, path, from + 1, to);
        let (a, b) = choose|a: int, b: int|
            0 <= b < a < order.len() && order[a] == path[from + 1] && order[b] == path[to];
        assert(a == j);
        assert(0 <= b < i < order.len() && order[i] == path[from] && order[b] == path[to]);
    }
}

/// A graph has at most one family of strata.
pub proof fn law_strata_are_unique(
    g: Graph,
    nodes: Set<Seq<char>>,
    a: Seq<Seq<Seq<char>>>,
    b: Seq<Seq<Seq<char>>>,
)
    requires
        are_strata(g, nodes, a),
        are_strata(g, nodes, b),
    ensures
        a == b,
{
    assert forall|l: int, n: Seq<char>| 0 <= l < a.len() && #[trigger] a[l].contains(n) implies l
        < b.len() && b[l].contains(n) by {
        lemma_same_stratum(g, nodes, a, b, l, n);
    }
    assert forall|l: int, n: Seq<char>| 0 <= l < b.len() && #[trigger] b[l].contains(n) implies l
        < a.len() && a[l].contains(n) by {
        lemma_same_stratum(g, nodes, b, a, l, n);
    }
    if a.len() > b.len() {
        assert(a[a.len() - 1].contains(a[a.len() - 1][0]));
    }
    if b.len() > a.len() {
        assert(b[b.len() - 1].contains(b[b.len() - 1][0]));
    }
    assert forall|l: int| 0 <= l < a.len() implies a[l] == b[l] by {
        let set = Set::new(|n: Seq<char>| a[l].contains(n));
        assert(sorted_list_of(a[l], set));
        assert(sorted_list_of(b[l], set));
        law_sorted_list_is_unique(a[l], b[l], set);
    }
    assert(a =~= b);
}

#[verifier::spinoff_prover]
#[verifier::rlimit(30)]
proof fn lemma_same_stratum(
    g: Graph,
    nodes: Set<Seq<char>>,
    a: Seq<Seq<Seq<char>>>,
    b: Seq<Seq<Seq<char>>>,
    l: int,
    n: Seq<char>,
)
    requires
        are_strata(g, nodes, a),
        are_strata(g, nodes, b),
        0 <= l < a.len(),
        a[l].contains(n),
    ensures
        l < b.len(),
        b[l].contains(n),
    decreases l,
{
    assert(nodes.contains(n));
    let m = choose|m: int| 0 <= m < b.len() && (#[trigger] b[m]).contains(n);
    assert(b[m].contains(n));
    if m > l {
        let d = choose|d: Seq<char>| #[trigger] edge(g, nodes, n, d) && b[m - 1].contains(d);
        let k = choose|k: int| 0 <= k < l && (#[trigger] a[k]).contains(d);
        lemma_same_stratum(g, nodes, a, b, k, d);
        assert(b[k].contains(d) && b[m - 1].contains(d));
        assert(k == m - 1);
    } else if m < l {
        let d = choose|d: Seq<char>| #[trigger] edge(g, nodes, n, d) && a[l - 1].contains(d);
        lemma_same_stratum(g, nodes, a, b, l - 1, d);
        let k = choose|k: int| 0 <= k < m && (#[trigger] b[k]).contains(d);
        assert(b[k].contains(d) && b[l - 1].contains(d));
        assert(k == l - 1);
    }
}

} // verus!
