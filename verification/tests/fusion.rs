use onnx_vulkan_core::convex_groups;
use std::collections::HashMap;

fn names(v: &[&str]) -> Vec<String> {
    v.iter().map(|s| s.to_string()).collect()
}

#[test]
fn merges_adjacent_supported_chain() {
    // 0 -> 1 -> 2, all supported: a single group.
    let ins = vec![names(&[]), names(&["a"]), names(&["b"])];
    let outs = vec![names(&["a"]), names(&["b"]), names(&["c"])];
    let sup = vec![true, true, true];
    let g = convex_groups(3, &ins, &outs, &sup);
    assert_eq!(g.len(), 1);
    assert_eq!(g[0], vec![0, 1, 2]);
}

#[test]
fn rejects_non_convex() {
    // 0 -> 1 (unsupported) -> 2, and 0 -> 2 directly: 0 and 2 must stay apart.
    let ins = vec![names(&[]), names(&["a"]), names(&["a", "b"])];
    let outs = vec![names(&["a"]), names(&["b"]), names(&["c"])];
    let sup = vec![true, false, true];
    let g = convex_groups(3, &ins, &outs, &sup);
    assert_eq!(g.len(), 2, "0 and 2 not fusable (1 in between)");
}

/// Whether the graph of groups and unsupported nodes has no cycle.
fn quotient_is_acyclic(
    num_nodes: usize,
    ins: &[Vec<String>],
    outs: &[Vec<String>],
    groups: &[Vec<usize>],
) -> bool {
    let mut cluster: Vec<usize> = (0..num_nodes).collect();
    for (g, members) in groups.iter().enumerate() {
        for &m in members {
            cluster[m] = num_nodes + g;
        }
    }
    let mut producer: HashMap<&str, usize> = HashMap::new();
    for (i, o) in outs.iter().enumerate() {
        for name in o {
            producer.insert(name.as_str(), i);
        }
    }
    let total = num_nodes + groups.len();
    let mut succ: Vec<Vec<usize>> = vec![Vec::new(); total];
    let mut indeg = vec![0usize; total];
    for (v, i) in ins.iter().enumerate() {
        for name in i {
            if let Some(&u) = producer.get(name.as_str()) {
                let (cu, cv) = (cluster[u], cluster[v]);
                if cu != cv {
                    succ[cu].push(cv);
                    indeg[cv] += 1;
                }
            }
        }
    }
    let mut queue: Vec<usize> = (0..total).filter(|&v| indeg[v] == 0).collect();
    let mut seen = 0;
    let mut head = 0;
    while head < queue.len() {
        let u = queue[head];
        head += 1;
        seen += 1;
        for &v in &succ[u].clone() {
            indeg[v] -= 1;
            if indeg[v] == 0 {
                queue.push(v);
            }
        }
    }
    seen == total
}

#[test]
fn keeps_the_quotient_graph_acyclic() {
    // Two groups, each convex on its own, linked in both directions through different
    // unsupported nodes: a1 -> x -> b1 and b2 -> y -> a2.
    let ins = vec![
        names(&[]),           // 0 a1
        names(&["y"]),        // 1 a2
        names(&["a1", "a2"]), // 2 a3
        names(&["x"]),        // 3 b1
        names(&[]),           // 4 b2
        names(&["b1", "b2"]), // 5 b3
        names(&["a1"]),       // 6 x  (unsupported)
        names(&["b2"]),       // 7 y  (unsupported)
    ];
    let outs = vec![
        names(&["a1"]),
        names(&["a2"]),
        names(&["a3"]),
        names(&["b1"]),
        names(&["b2"]),
        names(&["b3"]),
        names(&["x"]),
        names(&["y"]),
    ];
    let sup = vec![true, true, true, true, true, true, false, false];
    let groups = convex_groups(8, &ins, &outs, &sup);
    assert!(
        quotient_is_acyclic(8, &ins, &outs, &groups),
        "groups in a cycle: {groups:?}"
    );
}

#[test]
fn merges_around_unsupported_side_branch() {
    // 0 -> 1 -> 2, and 1 -> 3 (unsupported) on the side: 0, 1 and 2 can run as one.
    let ins = vec![names(&[]), names(&["a"]), names(&["b"]), names(&["b"])];
    let outs = vec![names(&["a"]), names(&["b"]), names(&["c"]), names(&["d"])];
    let sup = vec![true, true, true, false];
    let g = convex_groups(4, &ins, &outs, &sup);
    assert_eq!(g.len(), 1);
    assert_eq!(g[0], vec![0, 1, 2]);
}

#[test]
fn every_supported_node_is_in_one_group() {
    let ins = vec![names(&[]), names(&["a"]), names(&[]), names(&["c", "b"])];
    let outs = vec![names(&["a"]), names(&["b"]), names(&["c"]), names(&["d"])];
    let sup = vec![true, false, true, true];
    let g = convex_groups(4, &ins, &outs, &sup);
    assert_eq!(g, vec![vec![0], vec![2, 3]]);
}

#[test]
fn node_order_does_not_matter() {
    // The consumer stands first: 0 reads what 1 produces.
    let ins = vec![names(&["a"]), names(&[])];
    let outs = vec![names(&["b"]), names(&["a"])];
    assert_eq!(convex_groups(2, &ins, &outs, &[true, true]), vec![vec![0, 1]]);
}

#[test]
fn nodes_of_a_cycle_are_still_grouped() {
    // 0 and 1 feed each other; both are caught in the cycle, and nothing else is.
    let ins = vec![names(&["b"]), names(&["a"]), names(&[])];
    let outs = vec![names(&["a"]), names(&["b"]), names(&["c"])];
    let g = convex_groups(3, &ins, &outs, &[true, true, true]);
    let mut all: Vec<usize> = g.iter().flatten().copied().collect();
    all.sort();
    assert_eq!(all, vec![0, 1, 2]);
}

#[test]
fn no_ring_of_three_groups_forms() {
    // a -> b directly; a -> x1, x2 -> y1 and y2 -> b through the groups {x1, x2, x3} and
    // {y1, y2, y3}, which form first. Joining a and b alone would close a ring of three; with
    // the groups joined first, all can run as one.
    let ins = vec![
        names(&["x1", "x2"]), // 0 x3
        names(&["y1", "y2"]), // 1 y3
        names(&["a", "y2"]),  // 2 b
        names(&["a"]),        // 3 x1
        names(&[]),           // 4 x2
        names(&["x2"]),       // 5 y1
        names(&[]),           // 6 y2
        names(&[]),           // 7 a
    ];
    let outs = vec![
        names(&["x3"]),
        names(&["y3"]),
        names(&["b"]),
        names(&["x1"]),
        names(&["x2"]),
        names(&["y1"]),
        names(&["y2"]),
        names(&["a"]),
    ];
    let g = convex_groups(8, &ins, &outs, &[true; 8]);
    assert_eq!(g, vec![(0..8).collect::<Vec<usize>>()]);
    assert!(quotient_is_acyclic(8, &ins, &outs, &g));
}

#[test]
fn a_ring_through_unsupported_nodes_is_refused() {
    // Three pairs, each linked to the next through an unsupported node, the last to the first.
    let ins = vec![
        names(&[]),
        names(&["a"]), // unsupported
        names(&["u"]),
        names(&[]),
        names(&["c", "d"]),
        names(&["d"]), // unsupported
        names(&["v"]),
        names(&[]),
        names(&["e", "g"]),
        names(&["g"]), // unsupported
        names(&["a", "w"]),
    ];
    let outs: Vec<Vec<String>> =
        ["a", "u", "c", "d", "m", "v", "e", "g", "n", "w", "b"].iter().map(|o| names(&[o])).collect();
    let sup: Vec<bool> = (0..11).map(|i| ![1, 5, 9].contains(&i)).collect();
    let g = convex_groups(11, &ins, &outs, &sup);
    assert!(quotient_is_acyclic(11, &ins, &outs, &g));
    let mut all: Vec<usize> = g.iter().flatten().copied().collect();
    all.sort();
    assert_eq!(all, vec![0, 2, 3, 4, 6, 7, 8, 10]);
}
