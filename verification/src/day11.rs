use crate::solution::Solution;
use crate::text::{
    chars_vec, copy_range, lines_of, sep_pos, split_lines, split_on, trim, trim_spec, views,
};
use crate::SolutionPair;
use vstd::prelude::*;

verus! {

// ---------------------------------------------------------------------------
// The directed graph of the petgraph crate, under trusted contracts.
// ---------------------------------------------------------------------------

#[verifier::external_type_specification]
#[verifier::external_body]
#[verifier::reject_recursive_types(N)]
#[verifier::reject_recursive_types(E)]
#[verifier::reject_recursive_types(Ty)]
#[verifier::reject_recursive_types(Ix)]
pub struct ExGraph<N, E, Ty, Ix>(petgraph::graph::Graph<N, E, Ty, Ix>);

#[verifier::external_type_specification]
#[verifier::external_body]
pub struct ExDirected(petgraph::Directed);

/// The device graph: plain directed edges between anonymous nodes.
pub type Digraph = petgraph::graph::Graph<(), (), petgraph::Directed, u32>;

/// The edges a graph value holds, as pairs of node indices.
pub uninterp spec fn graph_edges(g: Digraph) -> Set<(int, int)>;

/// How many nodes a graph value holds.
pub uninterp spec fn graph_nodes(g: Digraph) -> nat;

/// How many edges a graph value stores, parallel edges counted separately;
/// the edge index type runs out when this reaches its limit.
pub uninterp spec fn graph_edge_count(g: Digraph) -> nat;

pub open spec fn no_edges() -> Set<(int, int)> {
    Set::empty()
}

/// Relies on petgraph::graph::Graph::new: the empty graph.
#[verifier::external_body]
fn g_new() -> (r: Digraph)
    ensures
        graph_nodes(r) == 0,
        graph_edges(r) == no_edges(),
        graph_edges(r).finite(),
        graph_edge_count(r) == 0,
{
    petgraph::graph::Graph::new()
}

/// Relies on petgraph::graph::Graph::add_node: nodes are numbered in the
/// order they are added.
#[verifier::external_body]
fn g_add_node(g: &mut Digraph) -> (r: usize)
    requires
        graph_nodes(*old(g)) < 0xfffffffe,
    ensures
        graph_nodes(*final(g)) == graph_nodes(*old(g)) + 1,
        graph_edges(*final(g)) == graph_edges(*old(g)),
        graph_edges(*final(g)).finite() == graph_edges(*old(g)).finite(),
        graph_edge_count(*final(g)) == graph_edge_count(*old(g)),
        r == graph_nodes(*old(g)),
{
    g.add_node(()).index()
}

/// Relies on petgraph::graph::Graph::add_edge: one more directed edge; the
/// stored-edge bound excludes the edge-index-limit panic, parallel edges
/// included.
#[verifier::external_body]
fn g_add_edge(g: &mut Digraph, a: usize, b: usize)
    requires
        a < graph_nodes(*old(g)),
        b < graph_nodes(*old(g)),
        graph_edges(*old(g)).finite(),
        graph_edge_count(*old(g)) < 0xfffffffe,
    ensures
        graph_nodes(*final(g)) == graph_nodes(*old(g)),
        graph_edges(*final(g)) == graph_edges(*old(g)).insert((a as int, b as int)),
        graph_edges(*final(g)).finite(),
        graph_edge_count(*final(g)) == graph_edge_count(*old(g)) + 1,
{
    g.add_edge(
        petgraph::graph::NodeIndex::new(a),
        petgraph::graph::NodeIndex::new(b),
        (),
    );
}

/// A run of nodes each step of which follows an edge.
pub open spec fn is_path(p: Seq<int>, edges: Set<(int, int)>) -> bool {
    forall|k: int| 0 <= k < p.len() - 1 ==> edges.contains((#[trigger] p[k], p[k + 1]))
}

/// Some node returns to itself along edges.
pub open spec fn has_cycle(edges: Set<(int, int)>) -> bool {
    exists|p: Seq<int>| p.len() >= 2 && is_path(p, edges) && p[0] == #[trigger] p.last()
}

/// Relies on petgraph::algo::is_cyclic_directed: true exactly when the
/// graph holds a cycle.
#[verifier::external_body]
fn g_is_cyclic(g: &Digraph) -> (r: bool)
    ensures
        r == has_cycle(graph_edges(*g)),
{
    petgraph::algo::is_cyclic_directed(g)
}

/// Relies on petgraph::graph::Graph::reverse: every edge flips direction.
#[verifier::external_body]
fn g_reverse(g: &mut Digraph)
    ensures
        graph_nodes(*final(g)) == graph_nodes(*old(g)),
        graph_edges(*final(g)) == flip(graph_edges(*old(g))),
        graph_edges(*old(g)).finite() ==> graph_edges(*final(g)).finite(),
        graph_edge_count(*final(g)) == graph_edge_count(*old(g)),
{
    g.reverse()
}

/// The same connections, each read the other way.
pub open spec fn flip(edges: Set<(int, int)>) -> Set<(int, int)> {
    Set::new(|e: (int, int)| edges.contains((e.1, e.0)))
}

/// Relies on petgraph::visit::DfsPostOrder: it yields, exactly once each,
/// every node reachable from the start, each only after all nodes its
/// edges lead to have been yielded, when the graph has no cycle.
#[verifier::external_body]
fn g_dfs_postorder(g: &Digraph, start: usize) -> (r: Vec<usize>)
    requires
        start < graph_nodes(*g),
    ensures
        forall|k: int| 0 <= k < r@.len() ==> (#[trigger] r@[k]) < graph_nodes(*g),
        forall|k1: int, k2: int| 0 <= k1 < k2 < r@.len() ==> r@[k1] != r@[k2],
        exists|k: int| 0 <= k < r@.len() && #[trigger] r@[k] == start,
        forall|u: int, v: int|
            #![trigger graph_edges(*g).contains((u, v))]
            graph_edges(*g).contains((u, v)) && (exists|k: int|
                0 <= k < r@.len() && #[trigger] r@[k] == u) ==> exists|k: int|
                0 <= k < r@.len() && #[trigger] r@[k] == v,
        !has_cycle(graph_edges(*g)) ==> forall|k: int, v: int|
            0 <= k < r@.len() && graph_edges(*g).contains((r@[k] as int, v)) ==> exists|k2: int|
                0 <= k2 < k && #[trigger] r@[k2] == v,
{
    let mut dfs = petgraph::visit::DfsPostOrder::new(g, petgraph::graph::NodeIndex::new(start));
    let mut order = Vec::new();
    while let Some(nx) = dfs.next(g) {
        order.push(nx.index());
    }
    order
}

// ---------------------------------------------------------------------------
// Parsing the successor lists
// ---------------------------------------------------------------------------

/// One successor line: the device before the colon, and every
/// space-separated piece after it, empty pieces included.
pub open spec fn line_entry(t: Seq<char>) -> (Seq<char>, Seq<Seq<char>>) {
    let c = sep_pos(t, ':') as int;
    (t.take(c), split_at(t.skip(c + 1), ' '))
}

pub open spec fn split_at(s: Seq<char>, sep: char) -> Seq<Seq<char>> {
    crate::text::split_at(s, sep)
}

/// The successor relation of the input: one entry per nonempty line.
pub open spec fn entries_of(s: Seq<char>) -> Seq<(Seq<char>, Seq<Seq<char>>)> {
    entries_from(lines_of(s))
}

pub open spec fn entries_from(lines: Seq<Seq<char>>) -> Seq<(Seq<char>, Seq<Seq<char>>)>
    decreases lines.len(),
{
    if lines.len() == 0 {
        Seq::empty()
    } else {
        let head: Seq<(Seq<char>, Seq<Seq<char>>)> = if trim_spec(lines[0]).len() == 0 {
            Seq::empty()
        } else {
            seq![line_entry(trim_spec(lines[0]))]
        };
        head + entries_from(lines.skip(1))
    }
}

/// Every nonempty line names a device before a colon.
pub open spec fn input_wf(s: Seq<char>) -> bool {
    forall|i: int|
        0 <= i < lines_of(s).len() ==> trim_spec(#[trigger] lines_of(s)[i]).len() == 0 || sep_pos(
            trim_spec(lines_of(s)[i]),
            ':',
        ) < trim_spec(lines_of(s)[i]).len()
}

/// Read the input as a successors relation, in line order.
pub fn prepare(input: &str) -> (r: Vec<(Vec<char>, Vec<Vec<char>>)>)
    requires
        input_wf(input@),
    ensures
        r@.len() == entries_of(input@).len(),
        forall|i: int|
            0 <= i < r@.len() ==> (#[trigger] r@[i]).0@ == entries_of(input@)[i].0 && views(
                r@[i].1@,
            ) == entries_of(input@)[i].1,
{
    let chars = chars_vec(input);
    let lines = split_lines(&chars);
    let ghost glines = lines_of(input@);
    let mut r: Vec<(Vec<char>, Vec<Vec<char>>)> = Vec::new();
    let mut li: usize = 0;
    proof {
        assert(glines.skip(0) =~= glines);
        assert(entry_views(r@) =~= Seq::<(Seq<char>, Seq<Seq<char>>)>::empty());
        assert(entry_views(r@) + entries_from(glines) =~= entries_from(glines));
    }
    while li < lines.len()
        invariant
            li <= lines@.len(),
            views(lines@) == glines,
            glines == lines_of(input@),
            input_wf(input@),
            entries_from(glines) == entry_views(r@) + entries_from(glines.skip(li as int)),
        decreases lines@.len() - li,
    {
        let line = &lines[li];
        proof {
            assert(line@ == glines[li as int]);
            assert(glines.skip(li as int)[0] == glines[li as int]);
            assert(glines.skip(li as int).skip(1) =~= glines.skip(li + 1));
        }
        let t = trim(line);
        let ghost old_r = r@;
        if t.len() > 0 {
            let c = scan_colon(&t);
            proof {
                assert(trim_spec(line@).len() > 0);
                assert(c < t@.len());
            }
            let pred = copy_range(&t, 0, c);
            let after = copy_range(&t, c + 1, t.len());
            proof {
                assert(after@ =~= t@.skip(c + 1));
            }
            let pieces = split_on(&after, ' ');
            let mut succs: Vec<Vec<char>> = Vec::new();
            let mut w: usize = 0;
            proof {
                assert(views(pieces@) == crate::text::split_at(after@, ' '));
                assert(views(succs@) =~= crate::text::split_at(after@, ' ').take(0));
            }
            while w < pieces.len()
                invariant
                    w <= pieces@.len(),
                    views(pieces@) == crate::text::split_at(after@, ' '),
                    views(succs@) =~= crate::text::split_at(after@, ' ').take(w as int),
                decreases pieces@.len() - w,
            {
                let piece = copy_range(&pieces[w], 0, pieces[w].len());
                proof {
                    assert(piece@ =~= pieces@[w as int]@);
                }
                succs.push(piece);
                proof {
                    let all = crate::text::split_at(after@, ' ');
                    assert(all.take(w + 1) =~= all.take(w as int).push(all[w as int]));
                    assert(views(succs@) =~= all.take(w + 1));
                }
                w = w + 1;
            }
            proof {
                let all = crate::text::split_at(after@, ' ');
                assert(all.take(all.len() as int) =~= all);
                assert(views(succs@) =~= all);
                assert(pred@ =~= t@.take(c as int));
                assert(line_entry(t@).0 == pred@ && line_entry(t@).1 == views(succs@));
            }
            r.push((pred, succs));
            proof {
                assert(entry_views(r@) =~= entry_views(old_r).push(line_entry(trim_spec(line@))));
                assert(entry_views(r@) + entries_from(glines.skip(li + 1)) =~= entry_views(old_r)
                    + entries_from(glines.skip(li as int)));
            }
        } else {
            proof {
                assert(entries_from(glines.skip(li as int)) == entries_from(glines.skip(li + 1)));
            }
        }
        li = li + 1;
    }
    proof {
        assert(glines.skip(li as int) =~= Seq::<Seq<char>>::empty());
        assert(entries_from(glines) =~= entry_views(r@));
    }
    r
}

/// The mathematical values of the stored entries.
pub open spec fn entry_views(r: Seq<(Vec<char>, Vec<Vec<char>>)>) -> Seq<
    (Seq<char>, Seq<Seq<char>>),
> {
    r.map_values(|e: (Vec<char>, Vec<Vec<char>>)| (e.0@, views(e.1@)))
}

fn scan_colon(t: &Vec<char>) -> (r: usize)
    ensures
        r == sep_pos(t@, ':'),
        r <= t@.len(),
{
    let n = t.len();
    let mut p: usize = 0;
    while p < n && t[p] != ':'
        invariant
            p <= n == t@.len(),
            forall|k: int| 0 <= k < p ==> t@[k] != ':',
        decreases n - p,
    {
        p = p + 1;
    }
    proof {
        crate::text::lemma_sep_pos_le(t@, ':');
        if p < n {
            if sep_pos(t@, ':') < p {
                assert(t@[sep_pos(t@, ':') as int] == ':');
            }
        }
    }
    p
}

fn names_eq(a: &Vec<char>, b: &Vec<char>) -> (r: bool)
    ensures
        r == (a@ == b@),
{
    if a.len() != b.len() {
        proof {
            assert(a@.len() != b@.len());
        }
        return false;
    }
    let mut k: usize = 0;
    while k < a.len()
        invariant
            k <= a@.len() == b@.len(),
            forall|q: int| 0 <= q < k ==> a@[q] == b@[q],
        decreases a@.len() - k,
    {
        if a[k] != b[k] {
            return false;
        }
        k = k + 1;
    }
    proof {
        assert(a@ =~= b@);
    }
    true
}

/// Find a name in the node table.
fn lookup(names: &Vec<Vec<char>>, name: &Vec<char>) -> (r: Option<usize>)
    ensures
        match r {
            Some(i) => i < names@.len() && names@[i as int]@ == name@,
            None => forall|q: int| 0 <= q < names@.len() ==> (#[trigger] names@[q])@ != name@,
        },
{
    let mut k: usize = 0;
    while k < names.len()
        invariant
            k <= names@.len(),
            forall|q: int| 0 <= q < k ==> (#[trigger] names@[q])@ != name@,
        decreases names@.len() - k,
    {
        if names_eq(&names[k], name) {
            return Some(k);
        }
        k = k + 1;
    }
    None
}

/// The name table holds exactly this name somewhere.
pub open spec fn in_names(names: Seq<Seq<char>>, x: Seq<char>) -> bool {
    exists|k: int| 0 <= k < names.len() && #[trigger] names[k] == x
}

/// The texts of the stored names.
pub open spec fn name_views(names: Seq<Vec<char>>) -> Seq<Seq<char>> {
    names.map_values(|n: Vec<char>| n@)
}

/// A name present in a prefix stays present as the table grows.
proof fn lemma_in_names_grow(a: Seq<Seq<char>>, b: Seq<Seq<char>>, x: Seq<char>)
    requires
        a.len() <= b.len(),
        forall|k: int| 0 <= k < a.len() ==> a[k] == b[k],
        in_names(a, x),
    ensures
        in_names(b, x),
{
    let k = choose|k: int| 0 <= k < a.len() && #[trigger] a[k] == x;
    assert(b[k] == x);
}

/// The predecessor table lists `u` among the sources into `v`.
pub open spec fn preds_edge(preds: Seq<Vec<usize>>, u: int, v: int) -> bool {
    0 <= v < preds.len() && exists|k: int|
        0 <= k < preds[v]@.len() && (#[trigger] preds[v]@[k]) as int == u
}

/// The entry is the last line naming its device, so its successor list is
/// the one a map keyed by the device keeps.
pub open spec fn surviving(entries: Seq<(Seq<char>, Seq<Seq<char>>)>, i: int) -> bool {
    forall|j: int| i < j < entries.len() ==> (#[trigger] entries[j]).0 != entries[i].0
}

/// The connections the entries describe, as indices of the name table,
/// taking each device's surviving line and each of its listed successors
/// before the given cutoff.
pub open spec fn edge_upto(
    names: Seq<Seq<char>>,
    entries: Seq<(Seq<char>, Seq<Seq<char>>)>,
    u: int,
    v: int,
    i2: int,
    w: int,
) -> bool {
    exists|i: int, w2: int|
        #![trigger entries[i].1[w2]]
        0 <= i < entries.len() && 0 <= w2 < entries[i].1.len() && (i < i2 || (i == i2 && w2 < w))
            && surviving(entries, i) && 0 <= u < names.len() && 0 <= v < names.len() && names[u]
            == entries[i].0 && names[v] == entries[i].1[w2]
}

/// The connections the entries describe, in full.
pub open spec fn entry_edge(
    names: Seq<Seq<char>>,
    entries: Seq<(Seq<char>, Seq<Seq<char>>)>,
    u: int,
    v: int,
) -> bool {
    edge_upto(names, entries, u, v, entries.len() as int, 0)
}

/// Build the device graph: a node per distinct name, an edge per successor
/// of each device's surviving line, and predecessor lists mirroring the
/// edges.
#[verifier::rlimit(100)]
pub fn build_graph(successors: &Vec<(Vec<char>, Vec<Vec<char>>)>) -> (r: (
    Digraph,
    Vec<Vec<char>>,
    Vec<Vec<usize>>,
))
    requires
        successors@.len() <= 10000,
        forall|i: int| 0 <= i < successors@.len() ==> (#[trigger] successors@[i]).1@.len() <= 10000,
    ensures
        graph_nodes(r.0) == r.1@.len(),
        graph_edges(r.0).finite(),
        r.2@.len() == r.1@.len(),
        forall|v: int, k: int|
            0 <= v < r.2@.len() && 0 <= k < r.2@[v]@.len() ==> (#[trigger] r.2@[v]@[k])
                < r.1@.len(),
        forall|k1: int, k2: int| 0 <= k1 < k2 < r.1@.len() ==> (#[trigger] r.1@[k1])@ != (
        #[trigger] r.1@[k2])@,
        forall|q: int|
            0 <= q < successors@.len() ==> in_names(
                name_views(r.1@),
                (#[trigger] successors@[q]).0@,
            ),
        forall|q: int, w: int|
            0 <= q < successors@.len() && 0 <= w < successors@[q].1@.len() ==> in_names(
                name_views(r.1@),
                (#[trigger] successors@[q].1@[w])@,
            ),
        forall|u: int, v: int|
            #![trigger graph_edges(r.0).contains((u, v))]
            graph_edges(r.0).contains((u, v)) <==> preds_edge(r.2@, u, v),
        forall|u: int, v: int|
            #![trigger graph_edges(r.0).contains((u, v))]
            graph_edges(r.0).contains((u, v)) <==> entry_edge(
                name_views(r.1@),
                entry_views(successors@),
                u,
                v,
            ),
{
    let ghost gents = entry_views(successors@);
    proof {
        assert forall|q: int| 0 <= q < successors@.len() implies (#[trigger] gents[q]).0
            == successors@[q].0@ && gents[q].1.len() == successors@[q].1@.len() && forall|
            w2: int,
        | 0 <= w2 < gents[q].1.len() ==> #[trigger] gents[q].1[w2] == successors@[q].1@[w2]@ by {
            assert(gents[q] == (successors@[q].0@, crate::text::views(successors@[q].1@)));
        }
    }
    let mut graph = g_new();
    let mut names: Vec<Vec<char>> = Vec::new();
    let mut preds: Vec<Vec<usize>> = Vec::new();
    let mut i: usize = 0;
    // First pass: a node for every name, predecessors left unfilled.
    while i < successors.len()
        invariant
            i <= successors@.len(),
            successors@.len() <= 10000,
            forall|q: int|
                0 <= q < successors@.len() ==> (#[trigger] successors@[q]).1@.len() <= 10000,
            graph_nodes(graph) == names@.len(),
            graph_edges(graph) == no_edges(),
            graph_edges(graph).finite(),
            graph_edge_count(graph) == 0,
            preds@.len() == names@.len(),
            names@.len() <= i * 10001 + i,
            forall|v: int, k: int|
                0 <= v < preds@.len() && 0 <= k < preds@[v]@.len() ==> (#[trigger] preds@[v]@[k])
                    < names@.len(),
            forall|v: int| 0 <= v < preds@.len() ==> (#[trigger] preds@[v])@.len() == 0,
            forall|k1: int, k2: int|
                0 <= k1 < k2 < names@.len() ==> (#[trigger] names@[k1])@ != (
                #[trigger] names@[k2])@,
            forall|q: int|
                0 <= q < i ==> in_names(name_views(names@), (#[trigger] successors@[q]).0@),
            forall|q: int, w2: int|
                0 <= q < i && 0 <= w2 < successors@[q].1@.len() ==> in_names(
                    name_views(names@),
                    (#[trigger] successors@[q].1@[w2])@,
                ),
        decreases successors@.len() - i,
    {
        let entry = &successors[i];
        match lookup(&names, &entry.0) {
            Some(x) => {
                proof {
                    assert(name_views(names@)[x as int] == entry.0@);
                    assert(in_names(name_views(names@), entry.0@));
                }
            },
            None => {
                proof {
                    assert(names@.len() < 0xfffffffe) by (nonlinear_arith)
                        requires
                            names@.len() <= i * 10001 + i,
                            i <= 10000,
                    ;
                }
                let _ = g_add_node(&mut graph);
                let namecopy = copy_range(&entry.0, 0, entry.0.len());
                let ghost old_nv = name_views(names@);
                proof {
                    assert(namecopy@ =~= entry.0@);
                }
                names.push(namecopy);
                preds.push(Vec::new());
                proof {
                    assert(name_views(names@) =~= old_nv.push(entry.0@));
                    assert(name_views(names@)[names@.len() - 1] == entry.0@);
                    assert(in_names(name_views(names@), entry.0@));
                    assert forall|k1: int, k2: int|
                        0 <= k1 < k2 < names@.len() implies (#[trigger] names@[k1])@ != (
                    #[trigger] names@[k2])@ by {
                        if k2 == names@.len() - 1 {
                            assert(old_nv[k1] != entry.0@);
                        }
                    }
                    assert forall|q: int| 0 <= q < i implies in_names(
                        name_views(names@),
                        (#[trigger] successors@[q]).0@,
                    ) by {
                        lemma_in_names_grow(old_nv, name_views(names@), successors@[q].0@);
                    }
                    assert forall|q: int, w2: int|
                        0 <= q < i && 0 <= w2 < successors@[q].1@.len() implies in_names(
                        name_views(names@),
                        (#[trigger] successors@[q].1@[w2])@,
                    ) by {
                        lemma_in_names_grow(old_nv, name_views(names@), successors@[q].1@[w2]@);
                    }
                }
            },
        }
        let mut w: usize = 0;
        while w < entry.1.len()
            invariant
                w <= entry.1@.len() <= 10000,
                i < successors@.len() <= 10000,
                entry == successors@[i as int],
                graph_nodes(graph) == names@.len(),
                graph_edges(graph) == no_edges(),
                graph_edges(graph).finite(),
                graph_edge_count(graph) == 0,
                preds@.len() == names@.len(),
                names@.len() <= i * 10001 + i + 1 + w,
                forall|v: int, k: int|
                    0 <= v < preds@.len() && 0 <= k < preds@[v]@.len() ==> (
                    #[trigger] preds@[v]@[k]) < names@.len(),
                forall|v: int| 0 <= v < preds@.len() ==> (#[trigger] preds@[v])@.len() == 0,
                forall|k1: int, k2: int|
                    0 <= k1 < k2 < names@.len() ==> (#[trigger] names@[k1])@ != (
                    #[trigger] names@[k2])@,
                in_names(name_views(names@), entry.0@),
                forall|q: int|
                    0 <= q < i ==> in_names(name_views(names@), (#[trigger] successors@[q]).0@),
                forall|q: int, w2: int|
                    0 <= q < i && 0 <= w2 < successors@[q].1@.len() ==> in_names(
                        name_views(names@),
                        (#[trigger] successors@[q].1@[w2])@,
                    ),
                forall|w2: int|
                    0 <= w2 < w ==> in_names(name_views(names@), (#[trigger] entry.1@[w2])@),
            decreases entry.1@.len() - w,
        {
            match lookup(&names, &entry.1[w]) {
                Some(x) => {
                    proof {
                        assert(name_views(names@)[x as int] == entry.1@[w as int]@);
                        assert(in_names(name_views(names@), entry.1@[w as int]@));
                    }
                },
                None => {
                    proof {
                        assert(names@.len() < 0xfffffffe) by (nonlinear_arith)
                            requires
                                names@.len() <= i * 10001 + i + 1 + w,
                                i <= 10000,
                                w <= 10000,
                        ;
                    }
                    let _ = g_add_node(&mut graph);
                    let namecopy = copy_range(&entry.1[w], 0, entry.1[w].len());
                    let ghost old_nv = name_views(names@);
                    proof {
                        assert(namecopy@ =~= entry.1@[w as int]@);
                    }
                    names.push(namecopy);
                    preds.push(Vec::new());
                    proof {
                        assert(name_views(names@) =~= old_nv.push(entry.1@[w as int]@));
                        assert(name_views(names@)[names@.len() - 1] == entry.1@[w as int]@);
                        assert(in_names(name_views(names@), entry.1@[w as int]@));
                        assert forall|k1: int, k2: int|
                            0 <= k1 < k2 < names@.len() implies (#[trigger] names@[k1])@ != (
                        #[trigger] names@[k2])@ by {
                            if k2 == names@.len() - 1 {
                                assert(old_nv[k1] != entry.1@[w as int]@);
                            }
                        }
                        lemma_in_names_grow(old_nv, name_views(names@), entry.0@);
                        assert forall|q: int| 0 <= q < i implies in_names(
                            name_views(names@),
                            (#[trigger] successors@[q]).0@,
                        ) by {
                            lemma_in_names_grow(old_nv, name_views(names@), successors@[q].0@);
                        }
                        assert forall|q: int, w2: int|
                            0 <= q < i && 0 <= w2 < successors@[q].1@.len() implies in_names(
                            name_views(names@),
                            (#[trigger] successors@[q].1@[w2])@,
                        ) by {
                            lemma_in_names_grow(
                                old_nv,
                                name_views(names@),
                                successors@[q].1@[w2]@,
                            );
                        }
                        assert forall|w2: int| 0 <= w2 < w implies in_names(
                            name_views(names@),
                            (#[trigger] entry.1@[w2])@,
                        ) by {
                            lemma_in_names_grow(old_nv, name_views(names@), entry.1@[w2]@);
                        }
                    }
                },
            }
            w = w + 1;
        }
        proof {
            assert(names@.len() <= (i + 1) * 10001 + (i + 1)) by (nonlinear_arith)
                requires
                    names@.len() <= i * 10001 + i + 1 + entry.1@.len(),
                    entry.1@.len() <= 10000,
            ;
        }
        i = i + 1;
    }
    // Second pass: one edge per surviving successor pair, mirrored in the
    // predecessor lists.
    let ghost mut ec: int = 0;
    let mut i2: usize = 0;
    while i2 < successors.len()
        invariant
            i2 <= successors@.len() <= 10000,
            gents == entry_views(successors@),
            gents.len() == successors@.len(),
            forall|q: int|
                0 <= q < successors@.len() ==> (#[trigger] successors@[q]).1@.len() <= 10000,
            forall|q: int|
                0 <= q < successors@.len() ==> (#[trigger] gents[q]).0 == successors@[q].0@
                    && gents[q].1.len() == successors@[q].1@.len() && forall|w2: int|
                    0 <= w2 < gents[q].1.len() ==> #[trigger] gents[q].1[w2] == successors@[
                q].1@[w2]@,
            graph_nodes(graph) == names@.len(),
            graph_edges(graph).finite(),
            graph_edge_count(graph) == ec,
            ec <= i2 * 10000,
            preds@.len() == names@.len(),
            forall|v: int, k: int|
                0 <= v < preds@.len() && 0 <= k < preds@[v]@.len() ==> (#[trigger] preds@[v]@[k])
                    < names@.len(),
            forall|k1: int, k2: int|
                0 <= k1 < k2 < names@.len() ==> (#[trigger] names@[k1])@ != (
                #[trigger] names@[k2])@,
            forall|q: int|
                0 <= q < successors@.len() ==> in_names(
                    name_views(names@),
                    (#[trigger] successors@[q]).0@,
                ),
            forall|q: int, w2: int|
                0 <= q < successors@.len() && 0 <= w2 < successors@[q].1@.len() ==> in_names(
                    name_views(names@),
                    (#[trigger] successors@[q].1@[w2])@,
                ),
            forall|u: int, v: int|
                #![trigger graph_edges(graph).contains((u, v))]
                graph_edges(graph).contains((u, v)) <==> preds_edge(preds@, u, v),
            forall|u: int, v: int|
                #![trigger graph_edges(graph).contains((u, v))]
                graph_edges(graph).contains((u, v)) <==> edge_upto(
                    name_views(names@),
                    gents,
                    u,
                    v,
                    i2 as int,
                    0,
                ),
        decreases successors@.len() - i2,
    {
        let entry = &successors[i2];
        let mut overridden = false;
        let mut j: usize = i2 + 1;
        while j < successors.len()
            invariant
                i2 < j <= successors@.len(),
                entry == successors@[i2 as int],
                gents.len() == successors@.len(),
                forall|q: int|
                    0 <= q < successors@.len() ==> (#[trigger] gents[q]).0 == successors@[q].0@,
                overridden == exists|jj: int|
                    i2 < jj < j && (#[trigger] gents[jj]).0 == gents[i2 as int].0,
            decreases successors@.len() - j,
        {
            if names_eq(&successors[j].0, &entry.0) {
                overridden = true;
                proof {
                    assert(gents[j as int].0 == gents[i2 as int].0);
                }
            }
            j = j + 1;
        }
        if overridden {
            proof {
                let nv = name_views(names@);
                assert forall|u: int, v: int|
                    #![trigger graph_edges(graph).contains((u, v))]
                    graph_edges(graph).contains((u, v)) <==> edge_upto(
                    nv,
                    gents,
                    u,
                    v,
                    i2 + 1,
                    0,
                ) by {
                    if graph_edges(graph).contains((u, v)) {
                        assert(edge_upto(nv, gents, u, v, i2 as int, 0));
                    }
                    if edge_upto(nv, gents, u, v, i2 + 1, 0) {
                        let (ii, w2) = choose|ii: int, w2: int|
                            #![trigger gents[ii].1[w2]]
                            0 <= ii < gents.len() && 0 <= w2 < gents[ii].1.len() && (ii < i2 + 1
                                || (ii == i2 + 1 && w2 < 0)) && surviving(gents, ii) && 0 <= u
                                < nv.len() && 0 <= v < nv.len() && nv[u] == gents[ii].0 && nv[v]
                                == gents[ii].1[w2];
                        assert(ii != i2) by {
                            if ii == i2 {
                                assert(!surviving(gents, ii));
                            }
                        }
                        assert(edge_upto(nv, gents, u, v, i2 as int, 0));
                        assert(graph_edges(graph).contains((u, v)));
                    }
                }
            }
            i2 = i2 + 1;
            continue ;
        }
        proof {
            assert(surviving(gents, i2 as int)) by {
                assert forall|jj: int| i2 < jj < gents.len() implies (#[trigger] gents[jj]).0
                    != gents[i2 as int].0 by {}
            }
        }
        let pi = match lookup(&names, &entry.0) {
            Some(x) => x,
            None => {
                proof {
                    assert(in_names(name_views(names@), entry.0@));
                    let k = choose|k: int|
                        0 <= k < name_views(names@).len() && #[trigger] name_views(names@)[k]
                            == entry.0@;
                    assert(names@[k]@ == entry.0@);
                    assert(false);
                }
                0
            },
        };
        let mut w: usize = 0;
        while w < entry.1.len()
            invariant
                w <= entry.1@.len() <= 10000,
                i2 < successors@.len() <= 10000,
                entry == successors@[i2 as int],
                gents == entry_views(successors@),
                gents.len() == successors@.len(),
                forall|q: int|
                    0 <= q < successors@.len() ==> (#[trigger] gents[q]).0 == successors@[q].0@
                        && gents[q].1.len() == successors@[q].1@.len() && forall|w2: int|
                        0 <= w2 < gents[q].1.len() ==> #[trigger] gents[q].1[w2] == successors@[
                    q].1@[w2]@,
                pi < names@.len(),
                name_views(names@)[pi as int] == entry.0@,
                surviving(gents, i2 as int),
                graph_nodes(graph) == names@.len(),
                graph_edges(graph).finite(),
                graph_edge_count(graph) == ec,
                ec <= i2 * 10000 + w,
                preds@.len() == names@.len(),
                forall|v: int, k: int|
                    0 <= v < preds@.len() && 0 <= k < preds@[v]@.len() ==> (
                    #[trigger] preds@[v]@[k]) < names@.len(),
                forall|k1: int, k2: int|
                    0 <= k1 < k2 < names@.len() ==> (#[trigger] names@[k1])@ != (
                    #[trigger] names@[k2])@,
                forall|q: int, w2: int|
                    0 <= q < successors@.len() && 0 <= w2 < successors@[q].1@.len() ==> in_names(
                        name_views(names@),
                        (#[trigger] successors@[q].1@[w2])@,
                    ),
                forall|u: int, v: int|
                    #![trigger graph_edges(graph).contains((u, v))]
                    graph_edges(graph).contains((u, v)) <==> preds_edge(preds@, u, v),
                forall|u: int, v: int|
                    #![trigger graph_edges(graph).contains((u, v))]
                    graph_edges(graph).contains((u, v)) <==> edge_upto(
                        name_views(names@),
                        gents,
                        u,
                        v,
                        i2 as int,
                        w as int,
                    ),
            decreases entry.1@.len() - w,
        {
            let si = match lookup(&names, &entry.1[w]) {
                Some(x) => x,
                None => {
                    proof {
                        assert(in_names(name_views(names@), entry.1@[w as int]@));
                        let k = choose|k: int|
                            0 <= k < name_views(names@).len() && #[trigger] name_views(names@)[k]
                                == entry.1@[w as int]@;
                        assert(names@[k]@ == entry.1@[w as int]@);
                        assert(false);
                    }
                    0
                },
            };
            proof {
                assert(ec < 100000000) by (nonlinear_arith)
                    requires
                        ec <= i2 * 10000 + w,
                        i2 < 10000,
                        w < 10000,
                ;
            }
            let ghost old_edges = graph_edges(graph);
            let ghost old_preds = preds@;
            g_add_edge(&mut graph, pi, si);
            let mut plist = preds.remove(si);
            plist.push(pi);
            preds.insert(si, plist);
            proof {
                ec = ec + 1;
                assert(preds@ =~= old_preds.update(si as int, preds@[si as int]));
                assert(preds@[si as int]@ =~= old_preds[si as int]@.push(pi));
                assert(graph_edges(graph) == old_edges.insert((pi as int, si as int)));
                let nv = name_views(names@);
                assert(nv[si as int] == entry.1@[w as int]@);
                assert(gents[i2 as int].0 == entry.0@);
                assert(gents[i2 as int].1[w as int] == entry.1@[w as int]@);
                assert forall|u: int, v: int|
                    #![trigger graph_edges(graph).contains((u, v))]
                    graph_edges(graph).contains((u, v)) <==> preds_edge(preds@, u, v) by {
                    if graph_edges(graph).contains((u, v)) {
                        if u == pi as int && v == si as int {
                            assert(preds@[v]@[preds@[v]@.len() - 1] as int == u);
                            assert(preds_edge(preds@, u, v));
                        } else {
                            assert(old_edges.contains((u, v)));
                            assert(preds_edge(old_preds, u, v));
                            let k = choose|k: int|
                                0 <= k < old_preds[v]@.len() && (#[trigger] old_preds[v]@[k]) as int
                                    == u;
                            assert(preds@[v]@[k] as int == u);
                            assert(preds_edge(preds@, u, v));
                        }
                    }
                    if preds_edge(preds@, u, v) {
                        let k = choose|k: int|
                            0 <= k < preds@[v]@.len() && (#[trigger] preds@[v]@[k]) as int == u;
                        if v == si as int && k == preds@[v]@.len() - 1 {
                            assert(u == pi as int);
                            assert(graph_edges(graph).contains((u, v)));
                        } else {
                            assert(old_preds[v]@[k] as int == u);
                            assert(preds_edge(old_preds, u, v));
                            assert(old_edges.contains((u, v)));
                            assert(graph_edges(graph).contains((u, v)));
                        }
                    }
                }
                assert forall|u: int, v: int|
                    #![trigger graph_edges(graph).contains((u, v))]
                    graph_edges(graph).contains((u, v)) <==> edge_upto(
                    nv,
                    gents,
                    u,
                    v,
                    i2 as int,
                    w + 1,
                ) by {
                    if graph_edges(graph).contains((u, v)) {
                        if u == pi as int && v == si as int {
                            assert(0 <= u < nv.len() && 0 <= v < nv.len());
                            assert(nv[u] == gents[i2 as int].0);
                            assert(nv[v] == gents[i2 as int].1[w as int]);
                            assert(edge_upto(nv, gents, u, v, i2 as int, w + 1));
                        } else {
                            assert(old_edges.contains((u, v)));
                            assert(edge_upto(nv, gents, u, v, i2 as int, w as int));
                            let (ii, w2) = choose|ii: int, w2: int|
                                #![trigger gents[ii].1[w2]]
                                0 <= ii < gents.len() && 0 <= w2 < gents[ii].1.len() && (ii
                                    < i2 as int || (ii == i2 as int && w2 < w)) && surviving(
                                    gents,
                                    ii,
                                ) && 0 <= u < nv.len() && 0 <= v < nv.len() && nv[u] == gents[
                                ii].0 && nv[v] == gents[ii].1[w2];
                            assert(edge_upto(nv, gents, u, v, i2 as int, w + 1));
                        }
                    }
                    if edge_upto(nv, gents, u, v, i2 as int, w + 1) {
                        let (ii, w2) = choose|ii: int, w2: int|
                            #![trigger gents[ii].1[w2]]
                            0 <= ii < gents.len() && 0 <= w2 < gents[ii].1.len() && (ii
                                < i2 as int || (ii == i2 as int && w2 < w + 1)) && surviving(
                                gents,
                                ii,
                            ) && 0 <= u < nv.len() && 0 <= v < nv.len() && nv[u] == gents[ii].0
                                && nv[v] == gents[ii].1[w2];
                        if ii == i2 as int && w2 == w as int {
                            assert(nv[u] == entry.0@);
                            assert(nv[pi as int] == entry.0@);
                            assert(u == pi as int) by {
                                if u != pi as int {
                                    assert(names@[u]@ != names@[pi as int]@);
                                }
                            }
                            assert(nv[v] == entry.1@[w as int]@);
                            assert(nv[si as int] == entry.1@[w as int]@);
                            assert(v == si as int) by {
                                if v != si as int {
                                    assert(names@[v]@ != names@[si as int]@);
                                }
                            }
                            assert(graph_edges(graph).contains((u, v)));
                        } else {
                            assert(edge_upto(nv, gents, u, v, i2 as int, w as int));
                            assert(old_edges.contains((u, v)));
                            assert(graph_edges(graph).contains((u, v)));
                        }
                    }
                }
            }
            w = w + 1;
        }
        proof {
            assert(ec <= (i2 + 1) * 10000) by (nonlinear_arith)
                requires
                    ec <= i2 * 10000 + entry.1@.len(),
                    entry.1@.len() <= 10000,
            ;
            let nv = name_views(names@);
            assert forall|u: int, v: int|
                #![trigger graph_edges(graph).contains((u, v))]
                graph_edges(graph).contains((u, v)) <==> edge_upto(
                nv,
                gents,
                u,
                v,
                i2 + 1,
                0,
            ) by {
                if graph_edges(graph).contains((u, v)) {
                    assert(edge_upto(nv, gents, u, v, i2 as int, entry.1@.len() as int));
                    let (ii, w2) = choose|ii: int, w2: int|
                        #![trigger gents[ii].1[w2]]
                        0 <= ii < gents.len() && 0 <= w2 < gents[ii].1.len() && (ii < i2 as int
                            || (ii == i2 as int && w2 < entry.1@.len())) && surviving(gents, ii)
                            && 0 <= u < nv.len() && 0 <= v < nv.len() && nv[u] == gents[ii].0
                            && nv[v] == gents[ii].1[w2];
                    assert(edge_upto(nv, gents, u, v, i2 + 1, 0));
                }
                if edge_upto(nv, gents, u, v, i2 + 1, 0) {
                    let (ii, w2) = choose|ii: int, w2: int|
                        #![trigger gents[ii].1[w2]]
                        0 <= ii < gents.len() && 0 <= w2 < gents[ii].1.len() && (ii < i2 + 1 || (
                        ii == i2 + 1 && w2 < 0)) && surviving(gents, ii) && 0 <= u < nv.len()
                            && 0 <= v < nv.len() && nv[u] == gents[ii].0 && nv[v] == gents[
                        ii].1[w2];
                    if ii == i2 as int {
                        assert(gents[ii].1.len() == entry.1@.len());
                        assert(edge_upto(nv, gents, u, v, i2 as int, entry.1@.len() as int));
                    } else {
                        assert(ii < i2 as int);
                        assert(edge_upto(nv, gents, u, v, i2 as int, 0));
                    }
                    assert(graph_edges(graph).contains((u, v)));
                }
            }
        }
        i2 = i2 + 1;
    }
    proof {
        assert(gents.len() == successors@.len());
    }
    (graph, names, preds)
}

/// Addition that stops at the top of the unsigned 64-bit range.
pub open spec fn sat_add(a: int, b: int) -> int {
    if a + b > u64::MAX {
        u64::MAX as int
    } else {
        a + b
    }
}

/// The incoming contributions of a node: the counts of its listed
/// predecessors, added left to right.
pub open spec fn row_sum(counts: Seq<u64>, row: Seq<usize>, j: int) -> int
    decreases j,
{
    if j <= 0 {
        0
    } else {
        sat_add(row_sum(counts, row, j - 1), counts[row[j - 1] as int] as int)
    }
}

/// The path-count table after the first `k` nodes of the traversal have
/// been filled in: the start holds one path, every other node the sum of
/// its predecessors' counts.
pub open spec fn dp_counts(order: Seq<usize>, preds: Seq<Vec<usize>>, from: int, k: int) -> Seq<
    u64,
>
    decreases k,
{
    if k <= 0 {
        Seq::new(preds.len(), |q: int| 0u64)
    } else {
        let prev = dp_counts(order, preds, from, k - 1);
        let nx = order[k - 1] as int;
        prev.update(
            nx,
            if nx == from {
                1u64
            } else {
                (row_sum(prev, preds[nx]@, preds[nx]@.len() as int)) as u64
            },
        )
    }
}

/// Fill the path-count table along the given traversal and read off the
/// count at the target.
pub fn count_paths_in_order(
    order: &Vec<usize>,
    preds: &Vec<Vec<usize>>,
    from: usize,
    to: usize,
) -> (r: u64)
    requires
        to < preds@.len(),
        forall|k: int| 0 <= k < order@.len() ==> (#[trigger] order@[k]) < preds@.len(),
        forall|v: int, k: int|
            0 <= v < preds@.len() && 0 <= k < preds@[v]@.len() ==> (#[trigger] preds@[v]@[k])
                < preds@.len(),
    ensures
        r == dp_counts(order@, preds@, from as int, order@.len() as int)[to as int],
{
    let n = preds.len();
    let mut counts: Vec<u64> = Vec::new();
    let mut q: usize = 0;
    while q < n
        invariant
            q <= n,
            counts@.len() == q,
            forall|x: int| 0 <= x < q ==> #[trigger] counts@[x] == 0u64,
        decreases n - q,
    {
        counts.push(0);
        q = q + 1;
    }
    proof {
        assert(counts@ =~= dp_counts(order@, preds@, from as int, 0));
    }
    let mut k: usize = 0;
    while k < order.len()
        invariant
            k <= order@.len(),
            n == preds@.len(),
            counts@.len() == n,
            to < n,
            forall|x: int| 0 <= x < order@.len() ==> (#[trigger] order@[x]) < n,
            forall|v: int, x: int|
                0 <= v < preds@.len() && 0 <= x < preds@[v]@.len() ==> (#[trigger] preds@[v]@[x])
                    < n,
            counts@ == dp_counts(order@, preds@, from as int, k as int),
        decreases order@.len() - k,
    {
        let nx = order[k];
        let value: u64 = if nx == from {
            1
        } else {
            let row = &preds[nx];
            let mut s: u64 = 0;
            let mut j: usize = 0;
            while j < row.len()
                invariant
                    j <= row@.len(),
                    counts@.len() == n,
                    row@ == preds@[nx as int]@,
                    nx < n == preds@.len(),
                    forall|v: int, x: int|
                        0 <= v < preds@.len() && 0 <= x < preds@[v]@.len() ==> (
                        #[trigger] preds@[v]@[x]) < n,
                    s as int == row_sum(counts@, row@, j as int),
                decreases row@.len() - j,
            {
                let c = counts[row[j]];
                if s > u64::MAX - c {
                    s = u64::MAX;
                } else {
                    s = s + c;
                }
                j = j + 1;
            }
            s
        };
        counts.set(nx, value);
        proof {
            assert(counts@ =~= dp_counts(order@, preds@, from as int, k + 1));
        }
        k = k + 1;
    }
    counts[to]
}

/// A covering post-order of the reversed graph: it holds the target, is
/// duplicate-free, is closed under reversed edges, and yields every node
/// only after everything its reversed edges lead to.
pub open spec fn covering_postorder(
    edges: Set<(int, int)>,
    n: int,
    to: usize,
    order: Seq<usize>,
) -> bool {
    &&& forall|k: int| 0 <= k < order.len() ==> (#[trigger] order[k]) < n
    &&& forall|k1: int, k2: int| 0 <= k1 < k2 < order.len() ==> order[k1] != order[k2]
    &&& exists|k: int| 0 <= k < order.len() && #[trigger] order[k] == to
    &&& forall|u: int, v: int|
        #![trigger flip(edges).contains((u, v))]
        flip(edges).contains((u, v)) && (exists|k: int|
            0 <= k < order.len() && #[trigger] order[k] as int == u) ==> exists|k: int|
            0 <= k < order.len() && #[trigger] order[k] as int == v
    &&& forall|k: int, v: int|
        0 <= k < order.len() && flip(edges).contains((order[k] as int, v)) ==> exists|k2: int|
            0 <= k2 < k && #[trigger] order[k2] as int == v
}

/// A cycle read backwards is a cycle of the flipped edges.
#[verifier::rlimit(100)]
pub proof fn lemma_cycle_flip(edges: Set<(int, int)>)
    requires
        has_cycle(edges),
    ensures
        has_cycle(flip(edges)),
{
    let p = choose|p: Seq<int>| p.len() >= 2 && is_path(p, edges) && p[0] == #[trigger] p.last();
    let q = Seq::new(p.len(), |i: int| p[p.len() - 1 - i]);
    assert(is_path(q, flip(edges))) by {
        assert forall|k: int| 0 <= k < q.len() - 1 implies flip(edges).contains(
            (#[trigger] q[k], q[k + 1]),
        ) by {
            assert(q[k] == p[p.len() - 1 - k]);
            assert(q[k + 1] == p[p.len() - 2 - k]);
            assert(edges.contains((p[p.len() - 2 - k], p[p.len() - 1 - k])));
        }
    }
    assert(q[0] == q.last());
    assert(q.len() >= 2);
}

/// Count the routes from one device to another: fill counts backwards over
/// a post-order walk of the reversed graph, as long as the graph is
/// acyclic; a cyclic graph counts as zero.
#[verifier::rlimit(100)]
pub fn count_simple_paths(
    graph: Digraph,
    preds: &Vec<Vec<usize>>,
    from: usize,
    to: usize,
) -> (r: u64)
    requires
        graph_nodes(graph) == preds@.len(),
        graph_edges(graph).finite(),
        to < preds@.len(),
        forall|v: int, k: int|
            0 <= v < preds@.len() && 0 <= k < preds@[v]@.len() ==> (#[trigger] preds@[v]@[k])
                < preds@.len(),
        forall|u: int, v: int|
            #![trigger graph_edges(graph).contains((u, v))]
            graph_edges(graph).contains((u, v)) <==> preds_edge(preds@, u, v),
    ensures
        has_cycle(graph_edges(graph)) ==> r == 0,
        !has_cycle(graph_edges(graph)) ==> exists|order: Seq<usize>|
            #![trigger order.len()]
            covering_postorder(graph_edges(graph), preds@.len() as int, to, order) && r
                == dp_counts(order, preds@, from as int, order.len() as int)[to as int],
{
    let ghost edges0 = graph_edges(graph);
    let mut g = graph;
    if g_is_cyclic(&g) {
        return 0;
    }
    g_reverse(&mut g);
    proof {
        assert(graph_edges(g) == flip(edges0));
        if has_cycle(flip(edges0)) {
            let p = choose|p: Seq<int>|
                p.len() >= 2 && is_path(p, flip(edges0)) && p[0] == #[trigger] p.last();
            lemma_cycle_flip(flip(edges0));
            assert(flip(flip(edges0)) =~= edges0);
            assert(has_cycle(edges0));
        }
        assert(!has_cycle(graph_edges(g)));
    }
    let order = g_dfs_postorder(&g, to);
    let r = count_paths_in_order(&order, preds, from, to);
    proof {
        assert(covering_postorder(edges0, preds@.len() as int, to, order@));
    }
    r
}

/// The name table, predecessor lists and edge set model the parsed
/// entries: names pairwise distinct and covering every device mentioned,
/// predecessor lists mirroring the edge set, and the edges exactly the
/// surviving connections the entries describe.
pub open spec fn graph_model(
    ents: Seq<(Seq<char>, Seq<Seq<char>>)>,
    names: Seq<Seq<char>>,
    preds: Seq<Vec<usize>>,
    edges: Set<(int, int)>,
) -> bool {
    &&& preds.len() == names.len()
    &&& forall|k1: int, k2: int|
        0 <= k1 < k2 < names.len() ==> (#[trigger] names[k1]) != (#[trigger] names[k2])
    &&& forall|q: int| 0 <= q < ents.len() ==> in_names(names, (#[trigger] ents[q]).0)
    &&& forall|q: int, w: int|
        0 <= q < ents.len() && 0 <= w < ents[q].1.len() ==> in_names(
            names,
            #[trigger] ents[q].1[w],
        )
    &&& forall|u: int, v: int|
        #![trigger edges.contains((u, v))]
        edges.contains((u, v)) <==> preds_edge(preds, u, v)
    &&& forall|u: int, v: int|
        #![trigger edges.contains((u, v))]
        edges.contains((u, v)) <==> entry_edge(names, ents, u, v)
}

/// `r` counts the routes from `from` to `to`: zero on a cyclic graph, and
/// otherwise the dynamic-programming count over some post-order walk of
/// the reversed graph that covers `to`.
pub open spec fn route_count_ok(
    edges: Set<(int, int)>,
    preds: Seq<Vec<usize>>,
    from: usize,
    to: usize,
    r: u64,
) -> bool {
    &&& (has_cycle(edges) ==> r == 0)
    &&& (!has_cycle(edges) ==> exists|order: Seq<usize>|
        #![trigger order.len()]
        covering_postorder(edges, preds.len() as int, to, order) && r == dp_counts(
            order,
            preds,
            from as int,
            order.len() as int,
        )[to as int])
}

/// The first answer: zero when the player or the exit is unknown, and
/// otherwise the route count between their nodes.
pub open spec fn part1_spec(
    names: Seq<Seq<char>>,
    preds: Seq<Vec<usize>>,
    edges: Set<(int, int)>,
    r: u64,
) -> bool {
    if in_names(names, seq!['y', 'o', 'u']) && in_names(names, seq!['o', 'u', 't']) {
        exists|yi: usize, oi: usize|
            #![trigger names[yi as int], names[oi as int]]
            yi < names.len() && oi < names.len() && names[yi as int] == seq!['y', 'o', 'u']
                && names[oi as int] == seq!['o', 'u', 't'] && route_count_ok(
                edges,
                preds,
                yi,
                oi,
                r,
            )
    } else {
        r == 0
    }
}

/// The three route counts the second answer multiplies: the two required
/// stops are visited in the order the routes allow, so the legs run
/// server, then the stop that can still reach the other, then the exit.
pub open spec fn part2_chain(
    edges: Set<(int, int)>,
    preds: Seq<Vec<usize>>,
    si: usize,
    di: usize,
    fi: usize,
    oi: usize,
    d2f: u64,
    p1: u64,
    p2: u64,
    p3: u64,
    r: u64,
) -> bool {
    &&& route_count_ok(edges, preds, di, fi, d2f)
    &&& if d2f > 0 {
        route_count_ok(edges, preds, si, di, p1) && route_count_ok(edges, preds, di, fi, p2)
            && route_count_ok(edges, preds, fi, oi, p3)
    } else {
        route_count_ok(edges, preds, si, fi, p1) && route_count_ok(edges, preds, fi, di, p2)
            && route_count_ok(edges, preds, di, oi, p3)
    }
    &&& r as int == sat_mul(sat_mul(p1 as int, p2 as int), p3 as int)
}

/// The second answer: zero when any of the four devices is unknown, and
/// otherwise the saturated product of the three leg counts.
pub open spec fn part2_spec(
    names: Seq<Seq<char>>,
    preds: Seq<Vec<usize>>,
    edges: Set<(int, int)>,
    r: u64,
) -> bool {
    if in_names(names, seq!['s', 'v', 'r']) && in_names(names, seq!['d', 'a', 'c']) && in_names(
        names,
        seq!['f', 'f', 't'],
    ) && in_names(names, seq!['o', 'u', 't']) {
        exists|si: usize, di: usize, fi: usize, oi: usize|
            #![trigger names[si as int], names[di as int], names[fi as int], names[oi as int]]
            si < names.len() && di < names.len() && fi < names.len() && oi < names.len()
                && names[si as int] == seq!['s', 'v', 'r'] && names[di as int] == seq![
                'd',
                'a',
                'c',
            ] && names[fi as int] == seq!['f', 'f', 't'] && names[oi as int] == seq![
                'o',
                'u',
                't',
            ] && exists|d2f: u64, p1: u64, p2: u64, p3: u64|
                #[trigger] part2_chain(edges, preds, si, di, fi, oi, d2f, p1, p2, p3, r)
    } else {
        r == 0
    }
}

/// The device names are short fixed words.
fn name_of(chars: &[char; 3]) -> (r: Vec<char>)
    ensures
        r@.len() == 3,
        r@[0] == chars@[0] && r@[1] == chars@[1] && r@[2] == chars@[2],
{
    let mut v: Vec<char> = Vec::new();
    v.push(chars[0]);
    v.push(chars[1]);
    v.push(chars[2]);
    v
}

/// Some graph model of the parsed entries carries the answer.
pub open spec fn part1_holds(input: Seq<char>, r: u64) -> bool {
    exists|names: Seq<Seq<char>>, preds: Seq<Vec<usize>>, edges: Set<(int, int)>|
        #![trigger graph_model(entries_of(input), names, preds, edges)]
        graph_model(entries_of(input), names, preds, edges) && part1_spec(names, preds, edges, r)
}

/// Some graph model of the parsed entries carries the answer.
pub open spec fn part2_holds(input: Seq<char>, r: u64) -> bool {
    exists|names: Seq<Seq<char>>, preds: Seq<Vec<usize>>, edges: Set<(int, int)>|
        #![trigger graph_model(entries_of(input), names, preds, edges)]
        graph_model(entries_of(input), names, preds, edges) && part2_spec(names, preds, edges, r)
}

/// The first answer: how many routes lead from the player to the exit.
pub fn solve_part1(input: &str) -> (r: u64)
    requires
        input_wf(input@),
        entries_of(input@).len() <= 10000,
        forall|i: int| 0 <= i < entries_of(input@).len() ==> (#[trigger] entries_of(
            input@,
        )[i]).1.len() <= 10000,
    ensures
        part1_holds(input@, r),
{
    let successors = prepare(input);
    let ghost ents = entries_of(input@);
    proof {
        assert(entry_views(successors@) =~= ents) by {
            assert forall|i: int| 0 <= i < successors@.len() implies entry_views(successors@)[i]
                == ents[i] by {
                assert(entry_views(successors@)[i] == (successors@[i].0@, views(
                    successors@[i].1@,
                )));
            }
        }
    }
    let (graph, names, preds) = build_graph(&successors);
    let ghost nv = name_views(names@);
    let ghost edges = graph_edges(graph);
    proof {
        assert(graph_model(ents, nv, preds@, edges)) by {
            assert forall|q: int| 0 <= q < ents.len() implies in_names(
                nv,
                (#[trigger] ents[q]).0,
            ) by {
                assert(ents[q].0 == successors@[q].0@);
            }
            assert forall|q: int, w: int|
                0 <= q < ents.len() && 0 <= w < ents[q].1.len() implies in_names(
                nv,
                #[trigger] ents[q].1[w],
            ) by {
                assert(ents[q].1 == views(successors@[q].1@));
                assert(ents[q].1[w] == successors@[q].1@[w]@);
            }
        }
    }
    let you = name_of(&['y', 'o', 'u']);
    let out = name_of(&['o', 'u', 't']);
    proof {
        assert(you@ =~= seq!['y', 'o', 'u']);
        assert(out@ =~= seq!['o', 'u', 't']);
    }
    let yi = match lookup(&names, &you) {
        Some(x) => x,
        None => {
            proof {
                assert(!in_names(nv, seq!['y', 'o', 'u'])) by {
                    if in_names(nv, seq!['y', 'o', 'u']) {
                        let k = choose|k: int|
                            0 <= k < nv.len() && #[trigger] nv[k] == seq!['y', 'o', 'u'];
                        assert(names@[k]@ == you@);
                    }
                }
                assert(part1_spec(nv, preds@, edges, 0u64));
            }
            return 0;
        },
    };
    let oi = match lookup(&names, &out) {
        Some(x) => x,
        None => {
            proof {
                assert(!in_names(nv, seq!['o', 'u', 't'])) by {
                    if in_names(nv, seq!['o', 'u', 't']) {
                        let k = choose|k: int|
                            0 <= k < nv.len() && #[trigger] nv[k] == seq!['o', 'u', 't'];
                        assert(names@[k]@ == out@);
                    }
                }
                assert(part1_spec(nv, preds@, edges, 0u64));
            }
            return 0;
        },
    };
    let c = count_simple_paths(graph, &preds, yi, oi);
    proof {
        assert(nv[yi as int] == seq!['y', 'o', 'u']);
        assert(nv[oi as int] == seq!['o', 'u', 't']);
        assert(in_names(nv, seq!['y', 'o', 'u']));
        assert(in_names(nv, seq!['o', 'u', 't']));
        assert(route_count_ok(edges, preds@, yi, oi, c));
        assert(part1_spec(nv, preds@, edges, c));
    }
    c
}

/// The second answer: the graph being acyclic, every route through the two
/// required devices visits them in one fixed order; count the routes
/// between the consecutive stops and multiply.
pub fn solve_part2(input: &str) -> (r: u64)
    requires
        input_wf(input@),
        entries_of(input@).len() <= 10000,
        forall|i: int| 0 <= i < entries_of(input@).len() ==> (#[trigger] entries_of(
            input@,
        )[i]).1.len() <= 10000,
    ensures
        part2_holds(input@, r),
{
    let successors = prepare(input);
    let ghost ents = entries_of(input@);
    proof {
        assert(entry_views(successors@) =~= ents) by {
            assert forall|i: int| 0 <= i < successors@.len() implies entry_views(successors@)[i]
                == ents[i] by {
                assert(entry_views(successors@)[i] == (successors@[i].0@, views(
                    successors@[i].1@,
                )));
            }
        }
    }
    let (graph, names, preds) = build_graph(&successors);
    let ghost nv = name_views(names@);
    let ghost edges = graph_edges(graph);
    proof {
        assert(graph_model(ents, nv, preds@, edges)) by {
            assert forall|q: int| 0 <= q < ents.len() implies in_names(
                nv,
                (#[trigger] ents[q]).0,
            ) by {
                assert(ents[q].0 == successors@[q].0@);
            }
            assert forall|q: int, w: int|
                0 <= q < ents.len() && 0 <= w < ents[q].1.len() implies in_names(
                nv,
                #[trigger] ents[q].1[w],
            ) by {
                assert(ents[q].1 == views(successors@[q].1@));
                assert(ents[q].1[w] == successors@[q].1@[w]@);
            }
        }
    }
    let svr_name = name_of(&['s', 'v', 'r']);
    let dac_name = name_of(&['d', 'a', 'c']);
    let fft_name = name_of(&['f', 'f', 't']);
    let out_name = name_of(&['o', 'u', 't']);
    proof {
        assert(svr_name@ =~= seq!['s', 'v', 'r']);
        assert(dac_name@ =~= seq!['d', 'a', 'c']);
        assert(fft_name@ =~= seq!['f', 'f', 't']);
        assert(out_name@ =~= seq!['o', 'u', 't']);
    }
    let svr = match lookup(&names, &svr_name) {
        Some(x) => x,
        None => {
            proof {
                assert(!in_names(nv, seq!['s', 'v', 'r'])) by {
                    if in_names(nv, seq!['s', 'v', 'r']) {
                        let k = choose|k: int|
                            0 <= k < nv.len() && #[trigger] nv[k] == seq!['s', 'v', 'r'];
                        assert(names@[k]@ == svr_name@);
                    }
                }
                assert(part2_spec(nv, preds@, edges, 0u64));
            }
            return 0;
        },
    };
    let dac = match lookup(&names, &dac_name) {
        Some(x) => x,
        None => {
            proof {
                assert(!in_names(nv, seq!['d', 'a', 'c'])) by {
                    if in_names(nv, seq!['d', 'a', 'c']) {
                        let k = choose|k: int|
                            0 <= k < nv.len() && #[trigger] nv[k] == seq!['d', 'a', 'c'];
                        assert(names@[k]@ == dac_name@);
                    }
                }
                assert(part2_spec(nv, preds@, edges, 0u64));
            }
            return 0;
        },
    };
    let fft = match lookup(&names, &fft_name) {
        Some(x) => x,
        None => {
            proof {
                assert(!in_names(nv, seq!['f', 'f', 't'])) by {
                    if in_names(nv, seq!['f', 'f', 't']) {
                        let k = choose|k: int|
                            0 <= k < nv.len() && #[trigger] nv[k] == seq!['f', 'f', 't'];
                        assert(names@[k]@ == fft_name@);
                    }
                }
                assert(part2_spec(nv, preds@, edges, 0u64));
            }
            return 0;
        },
    };
    let out = match lookup(&names, &out_name) {
        Some(x) => x,
        None => {
            proof {
                assert(!in_names(nv, seq!['o', 'u', 't'])) by {
                    if in_names(nv, seq!['o', 'u', 't']) {
                        let k = choose|k: int|
                            0 <= k < nv.len() && #[trigger] nv[k] == seq!['o', 'u', 't'];
                        assert(names@[k]@ == out_name@);
                    }
                }
                assert(part2_spec(nv, preds@, edges, 0u64));
            }
            return 0;
        },
    };
    let g1 = clone_graph(&graph);
    let dac_to_fft = count_simple_paths(g1, &preds, dac, fft);
    let (a, b, c) = if dac_to_fft > 0 {
        (svr, dac, fft)
    } else {
        (svr, fft, dac)
    };
    let ga = clone_graph(&graph);
    let p1 = count_simple_paths(ga, &preds, a, b);
    let gb = clone_graph(&graph);
    let p2 = count_simple_paths(gb, &preds, b, c);
    let gc = clone_graph(&graph);
    let p3 = count_simple_paths(gc, &preds, c, out);
    let m1 = mul_sat(p1, p2);
    let m2 = mul_sat(m1, p3);
    proof {
        assert(nv[svr as int] == seq!['s', 'v', 'r']);
        assert(nv[dac as int] == seq!['d', 'a', 'c']);
        assert(nv[fft as int] == seq!['f', 'f', 't']);
        assert(nv[out as int] == seq!['o', 'u', 't']);
        assert(in_names(nv, seq!['s', 'v', 'r']));
        assert(in_names(nv, seq!['d', 'a', 'c']));
        assert(in_names(nv, seq!['f', 'f', 't']));
        assert(in_names(nv, seq!['o', 'u', 't']));
        assert(part2_chain(edges, preds@, svr, dac, fft, out, dac_to_fft, p1, p2, p3, m2));
        assert(part2_spec(nv, preds@, edges, m2));
    }
    m2
}

/// Multiplication that stops at the top of the unsigned 64-bit range.
fn mul_sat(a: u64, b: u64) -> (r: u64)
    ensures
        r as int == sat_mul(a as int, b as int),
{
    if a == 0 {
        0
    } else if b > u64::MAX / a {
        proof {
            vstd::arithmetic::div_mod::lemma_fundamental_div_mod(u64::MAX as int, a as int);
            assert(a as int * (b as int) > u64::MAX) by (nonlinear_arith)
                requires
                    a >= 1,
                    b as int >= (u64::MAX as int) / (a as int) + 1,
                    u64::MAX as int == a as int * ((u64::MAX as int) / (a as int)) + (
                    u64::MAX as int) % (a as int),
                    0 <= (u64::MAX as int) % (a as int) < a as int,
            ;
        }
        u64::MAX
    } else {
        proof {
            vstd::arithmetic::div_mod::lemma_fundamental_div_mod(u64::MAX as int, a as int);
            assert(a as int * (b as int) <= u64::MAX) by (nonlinear_arith)
                requires
                    a >= 1,
                    b as int <= (u64::MAX as int) / (a as int),
                    u64::MAX as int == a as int * ((u64::MAX as int) / (a as int)) + (
                    u64::MAX as int) % (a as int),
                    0 <= (u64::MAX as int) % (a as int) < a as int,
            ;
        }
        a * b
    }
}

/// The product, stopped at the top of the unsigned 64-bit range.
pub open spec fn sat_mul(a: int, b: int) -> int {
    if a * b > u64::MAX {
        u64::MAX as int
    } else {
        a * b
    }
}

/// Relies on petgraph::graph::Graph::clone: an identical graph.
#[verifier::external_body]
fn clone_graph(g: &Digraph) -> (r: Digraph)
    ensures
        graph_nodes(r) == graph_nodes(*g),
        graph_edges(r) == graph_edges(*g),
        graph_edges(r).finite() == graph_edges(*g).finite(),
        graph_edge_count(r) == graph_edge_count(*g),
{
    g.clone()
}

pub fn solve(input: String) -> (r: SolutionPair)
    requires
        input_wf(input@),
        entries_of(input@).len() <= 10000,
        forall|i: int| 0 <= i < entries_of(input@).len() ==> (#[trigger] entries_of(
            input@,
        )[i]).1.len() <= 10000,
    ensures
        r.0 matches Solution::U64(a) && part1_holds(input@, a),
        r.1 matches Solution::U64(b) && part2_holds(input@, b),
{
    let sol1 = solve_part1(&input);
    let sol2 = solve_part2(&input);
    (Solution::from(sol1), Solution::from(sol2))
}

/// Decide the condition the solvers assume of the input: every nonempty
/// line names a device before a colon, and the devices and their successor
/// lists stay within the size caps.
pub fn input_ok(input: &str) -> (r: bool)
    ensures
        r == (input_wf(input@) && entries_of(input@).len() <= 10000 && forall|i: int|
            0 <= i < entries_of(input@).len() ==> (#[trigger] entries_of(input@)[i]).1.len()
                <= 10000),
{
    let chars = chars_vec(input);
    let lines = split_lines(&chars);
    proof {
        assert(views(lines@) == lines_of(input@));
    }
    let mut li: usize = 0;
    while li < lines.len()
        invariant
            li <= lines@.len(),
            views(lines@) == lines_of(input@),
            forall|q: int|
                0 <= q < li ==> trim_spec(#[trigger] lines_of(input@)[q]).len() == 0 || sep_pos(
                    trim_spec(lines_of(input@)[q]),
                    ':',
                ) < trim_spec(lines_of(input@)[q]).len(),
        decreases lines@.len() - li,
    {
        let line = &lines[li];
        proof {
            assert(lines_of(input@)[li as int] == lines@[li as int]@);
        }
        let t = trim(line);
        if t.len() > 0 {
            let p = scan_colon(&t);
            if p >= t.len() {
                return false;
            }
        }
        li = li + 1;
    }
    let successors = prepare(input);
    proof {
        assert(entry_views(successors@) =~= entries_of(input@)) by {
            assert forall|i: int|
                0 <= i < successors@.len() implies entry_views(successors@)[i] == entries_of(
                input@,
            )[i] by {
                assert(entry_views(successors@)[i] == (successors@[i].0@, views(
                    successors@[i].1@,
                )));
            }
        }
    }
    if successors.len() > 10000 {
        return false;
    }
    let mut i: usize = 0;
    while i < successors.len()
        invariant
            i <= successors@.len(),
            entry_views(successors@) == entries_of(input@),
            successors@.len() == entries_of(input@).len() <= 10000,
            forall|q: int|
                0 <= q < i ==> (#[trigger] entries_of(input@)[q]).1.len() <= 10000,
        decreases successors@.len() - i,
    {
        proof {
            assert(entries_of(input@)[i as int].1 == views(successors@[i as int].1@));
        }
        if successors[i].1.len() > 10000 {
            return false;
        }
        i = i + 1;
    }
    true
}

} // verus!
