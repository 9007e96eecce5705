use compiler_lib::reachability::{ExtNodeDataTrait, Reachability, TypeNodeInd};

#[derive(Debug, Clone, PartialEq)]
struct Node {
    name: &'static str,
    truncated_to: Option<usize>,
}

fn node(name: &'static str) -> Node {
    Node { name, truncated_to: None }
}

impl ExtNodeDataTrait for Node {
    fn truncate(&mut self, i: TypeNodeInd) {
        self.truncated_to = Some(i.0);
    }
}

type Graph = Reachability<Node, u64>;

fn graph(n: usize) -> Graph {
    let mut g: Graph = Reachability::new();
    let names = ["a", "b", "c", "d", "e", "f"];
    for k in 0..n {
        g.add_node(node(names[k]));
    }
    g
}

fn t(i: usize) -> TypeNodeInd {
    TypeNodeInd(i)
}

fn pairs(out: &[(TypeNodeInd, TypeNodeInd, u64)]) -> Vec<(usize, usize, u64)> {
    out.iter().map(|(l, r, v)| (l.0, r.0, *v)).collect()
}

fn all_edges(g: &Graph) -> Vec<(usize, usize, u64)> {
    let mut v = Vec::new();
    for l in 0..g.len() {
        for r in 0..g.len() {
            if let Some(w) = g.get_edge(t(l), t(r)) {
                v.push((l, r, *w));
            }
        }
    }
    v
}

#[test]
fn new_graph_is_empty() {
    let g: Graph = Reachability::new();
    assert_eq!(g.len(), 0);
    assert_eq!(g.get(t(0)), None);
    assert_eq!(g.get_edge(t(0), t(0)), None);
}

#[test]
fn add_node_returns_consecutive_indices() {
    let mut g: Graph = Reachability::new();
    assert_eq!(g.add_node(node("a")), t(0));
    assert_eq!(g.add_node(node("b")), t(1));
    assert_eq!(g.len(), 2);
    assert_eq!(g.get(t(1)).map(|n| n.name), Some("b"));
    assert_eq!(g.get(t(2)), None);
    assert_eq!(g.get_edge(t(0), t(1)), None);
}

#[test]
fn get_mut_changes_only_that_node() {
    let mut g = graph(2);
    g.get_mut(t(1)).unwrap().name = "z";
    assert_eq!(g.get(t(1)).map(|n| n.name), Some("z"));
    assert_eq!(g.get(t(0)).map(|n| n.name), Some("a"));
    assert!(g.get_mut(t(2)).is_none());
}

#[test]
fn single_edge_is_reported() {
    let mut g = graph(2);
    let mut out = Vec::new();
    g.add_edge(t(0), t(1), 4, &mut out);
    assert_eq!(pairs(&out), vec![(0, 1, 4)]);
    assert_eq!(g.get_edge(t(0), t(1)), Some(&4));
    assert_eq!(g.get_edge(t(1), t(0)), None);
}

#[test]
fn edges_compose_transitively() {
    let mut g = graph(3);
    let mut out = Vec::new();
    g.add_edge(t(0), t(1), 5, &mut out);
    g.add_edge(t(1), t(2), 9, &mut out);
    assert_eq!(pairs(&out), vec![(0, 1, 5), (1, 2, 9), (0, 2, 9)]);
    assert_eq!(all_edges(&g), vec![(0, 1, 5), (0, 2, 9), (1, 2, 9)]);
}

#[test]
fn joining_two_chains_closes_them() {
    let mut g = graph(4);
    let mut out = Vec::new();
    g.add_edge(t(0), t(1), 1, &mut out);
    g.add_edge(t(2), t(3), 1, &mut out);
    out.clear();
    g.add_edge(t(1), t(2), 1, &mut out);
    let mut added: Vec<(usize, usize)> = pairs(&out).iter().map(|p| (p.0, p.1)).collect();
    added.sort();
    assert_eq!(added, vec![(0, 2), (0, 3), (1, 2), (1, 3)]);
    let es: Vec<(usize, usize)> = all_edges(&g).iter().map(|p| (p.0, p.1)).collect();
    assert_eq!(es, vec![(0, 1), (0, 2), (0, 3), (1, 2), (1, 3), (2, 3)]);
}

#[test]
fn smaller_value_updates_and_propagates() {
    let mut g = graph(3);
    let mut out = Vec::new();
    g.add_edge(t(0), t(1), 5, &mut out);
    g.add_edge(t(1), t(2), 9, &mut out);
    out.clear();
    g.add_edge(t(0), t(1), 2, &mut out);
    assert_eq!(pairs(&out), vec![(0, 1, 2), (0, 2, 2)]);
    assert_eq!(g.get_edge(t(0), t(1)), Some(&2));
    assert_eq!(g.get_edge(t(0), t(2)), Some(&2));
    assert_eq!(g.get_edge(t(1), t(2)), Some(&9));
}

#[test]
fn value_that_changes_nothing_is_not_reported() {
    let mut g = graph(2);
    let mut out = Vec::new();
    g.add_edge(t(0), t(1), 3, &mut out);
    out.clear();
    g.add_edge(t(0), t(1), 7, &mut out);
    assert!(out.is_empty());
    assert_eq!(g.get_edge(t(0), t(1)), Some(&3));
}

#[test]
fn earlier_reports_in_out_are_kept() {
    let mut g = graph(2);
    let mut out = vec![(t(5), t(6), 42)];
    g.add_edge(t(1), t(0), 8, &mut out);
    assert_eq!(pairs(&out), vec![(5, 6, 42), (1, 0, 8)]);
}

#[test]
fn self_loop_and_cycle() {
    let mut g = graph(2);
    let mut out = Vec::new();
    g.add_edge(t(0), t(0), 1, &mut out);
    assert_eq!(pairs(&out), vec![(0, 0, 1)]);
    g.add_edge(t(0), t(1), 1, &mut out);
    g.add_edge(t(1), t(0), 1, &mut out);
    let es: Vec<(usize, usize)> = all_edges(&g).iter().map(|p| (p.0, p.1)).collect();
    assert_eq!(es, vec![(0, 0), (0, 1), (1, 0), (1, 1)]);
}

#[test]
fn revert_undoes_everything_since_save() {
    let mut g = graph(3);
    let mut out = Vec::new();
    g.add_edge(t(0), t(1), 5, &mut out);
    let before = all_edges(&g);
    g.save();
    let d = g.add_node(node("d"));
    assert_eq!(d, t(3));
    g.add_edge(t(1), t(2), 4, &mut out);
    g.add_edge(t(2), d, 4, &mut out);
    g.add_edge(t(0), t(1), 1, &mut out);
    assert_eq!(g.get_edge(t(0), t(1)), Some(&1));
    assert_eq!(g.get_edge(t(0), d), Some(&1));
    g.revert();
    assert_eq!(g.len(), 3);
    assert_eq!(all_edges(&g), before);
    assert_eq!(g.get(d), None);
    assert_eq!(g.get(t(0)).unwrap().truncated_to, Some(3));
    assert_eq!(g.get(t(2)).unwrap().truncated_to, Some(3));
}

#[test]
fn graph_is_usable_after_revert() {
    let mut g = graph(2);
    let mut out = Vec::new();
    g.save();
    g.add_edge(t(0), t(1), 6, &mut out);
    g.revert();
    assert_eq!(g.get_edge(t(0), t(1)), None);
    out.clear();
    g.add_edge(t(1), t(0), 2, &mut out);
    assert_eq!(pairs(&out), vec![(1, 0, 2)]);
    g.save();
    g.revert();
    assert_eq!(g.get_edge(t(1), t(0)), Some(&2));
    assert_eq!(g.len(), 2);
}

#[test]
fn make_permanent_keeps_changes() {
    let mut g = graph(2);
    let mut out = Vec::new();
    g.save();
    g.add_node(node("c"));
    g.add_edge(t(0), t(2), 3, &mut out);
    g.make_permanent();
    assert_eq!(g.len(), 3);
    assert_eq!(g.get_edge(t(0), t(2)), Some(&3));
    g.save();
    g.revert();
    assert_eq!(g.len(), 3);
    assert_eq!(g.get_edge(t(0), t(2)), Some(&3));
}

#[test]
fn revert_without_mark_drops_every_node() {
    let mut g = graph(2);
    let mut out = Vec::new();
    g.add_edge(t(0), t(1), 3, &mut out);
    g.revert();
    assert_eq!(g.len(), 0);
    assert_eq!(g.get_edge(t(0), t(1)), None);
}

#[test]
fn save_on_empty_graph_sets_no_mark() {
    let mut g: Graph = Reachability::new();
    g.save();
    g.add_node(node("a"));
    g.revert();
    assert_eq!(g.len(), 0);
}
