use egraphs::cost::CostModel;
use egraphs::extractor::{find_best, ExtractError};
use egraphs::graph::{EClass, EGraph, Extractor, Node, OpKind};

fn node(op: OpKind, children: Vec<usize>) -> Node {
    Node { op, children }
}

fn class(nodes: Vec<Node>) -> EClass {
    EClass { nodes }
}

fn weights(vec_op: u64, structure: u64, literal: u64) -> CostModel {
    CostModel { vec_op, structure, literal }
}

fn is_scalar(op: OpKind) -> bool {
    matches!(
        op,
        OpKind::ScalarAdd | OpKind::ScalarMul | OpKind::ScalarSub | OpKind::ScalarNeg
    )
}

fn op_cost(op: OpKind, w: &CostModel) -> Option<u64> {
    match op {
        OpKind::ScalarAdd | OpKind::ScalarMul | OpKind::ScalarSub | OpKind::ScalarNeg => None,
        OpKind::VecShift => Some(50 * w.vec_op),
        OpKind::VecStructure => Some(w.structure),
        OpKind::VecAdd | OpKind::VecMinus | OpKind::VecNeg => Some(w.vec_op),
        OpKind::VecMul => Some(100 * w.vec_op),
        OpKind::Literal => Some(w.literal),
    }
}

fn acyclic_from(c: usize, g: &EGraph, pick: &[usize], color: &mut [u8]) -> bool {
    if color[c] == 1 {
        return false;
    }
    if color[c] == 2 {
        return true;
    }
    color[c] = 1;
    for i in 0..g.classes[c].nodes[pick[c]].children.len() {
        let ch = g.classes[c].nodes[pick[c]].children[i];
        if !acyclic_from(ch, g, pick, color) {
            return false;
        }
    }
    color[c] = 2;
    true
}

/// Exhaustive reference: try every combination of one candidate per class,
/// keep those whose choices are acyclic, fully vectorized and reach the root,
/// and return the cheapest total cost.
fn brute_force_min(g: &EGraph, root: usize, w: &CostModel) -> Option<u64> {
    let n = g.classes.len();
    let radix: Vec<usize> = g.classes.iter().map(|c| c.nodes.len().max(1)).collect();
    let mut pick = vec![0usize; n];
    let mut best: Option<u64> = None;
    loop {
        // reachable classes from the root under this assignment
        let mut seen = vec![false; n];
        let mut stack = vec![root];
        let mut valid = true;
        while let Some(c) = stack.pop() {
            if seen[c] {
                continue;
            }
            seen[c] = true;
            if g.classes[c].nodes.is_empty() {
                valid = false;
                break;
            }
            let nd = &g.classes[c].nodes[pick[c]];
            if is_scalar(nd.op) {
                valid = false;
                break;
            }
            for &ch in &nd.children {
                stack.push(ch);
            }
        }
        if valid {
            // acyclicity of the reachable choice graph (colored depth-first search)
            let mut color = vec![0u8; n];
            if acyclic_from(root, g, &pick, &mut color) {
                let mut cost = 0u64;
                for c in 0..n {
                    if seen[c] {
                        cost += op_cost(g.classes[c].nodes[pick[c]].op, w).unwrap();
                    }
                }
                best = Some(match best {
                    None => cost,
                    Some(b) => b.min(cost),
                });
            }
        }
        // next assignment
        let mut i: usize = 0;
        loop {
            if i == n {
                return best;
            }
            pick[i] += 1;
            if pick[i] < radix[i] {
                break;
            }
            pick[i] = 0;
            i += 1;
        }
    }
}

/// Checks the output contract on a concrete result: child references precede
/// their parents and name existing positions, and no scalar operation appears.
fn assert_well_formed(b: &egraphs::extractor::BestResult) {
    assert_eq!(b.nodes.len(), b.classes.len());
    assert!(!b.nodes.is_empty());
    for (i, nd) in b.nodes.iter().enumerate() {
        assert!(!is_scalar(nd.op));
        for &ch in &nd.children {
            assert!(ch < i, "child reference {} does not precede node {}", ch, i);
        }
    }
}

/// The extracted expression realizes the root class with its last (topmost) node.
fn assert_rooted(b: &egraphs::extractor::BestResult, root: usize) {
    assert_eq!(b.classes.last().copied(), Some(root));
}

/// The scenario from the cost model: root R = [VecAdd(B, C), scalar add(B, C)],
/// B = [VecMul(D, E)], C, D, E literals. The scalar candidate is excluded and
/// the exact total is VEC_OP + 100*VEC_OP + 3*LITERAL.
#[test]
fn vec_add_over_scalar_exact_cost() {
    let g = EGraph {
        classes: vec![
            class(vec![
                node(OpKind::VecAdd, vec![1, 2]),
                node(OpKind::ScalarAdd, vec![1, 2]),
            ]),
            class(vec![node(OpKind::VecMul, vec![3, 4])]),
            class(vec![node(OpKind::Literal, vec![])]),
            class(vec![node(OpKind::Literal, vec![])]),
            class(vec![node(OpKind::Literal, vec![])]),
        ],
    };
    let w = weights(1, 10, 2);
    let b = find_best(&g, 0, &w).expect("a vectorized expression exists");
    assert_eq!(b.cost, 1 + 100 * 1 + 3 * 2);
    assert_well_formed(&b);
    assert_rooted(&b, 0);
    // the root class is realized, and by a VecAdd, not the scalar add
    let root_pos = b.classes.iter().position(|&c| c == 0).unwrap();
    assert_eq!(b.nodes[root_pos].op, OpKind::VecAdd);
}

/// A two-class mutual dependency (A needs B, B needs A) has no acyclic
/// expression: extraction fails explicitly.
#[test]
fn mutual_dependency_fails() {
    let g = EGraph {
        classes: vec![
            class(vec![node(OpKind::VecAdd, vec![1, 1])]),
            class(vec![node(OpKind::VecNeg, vec![0])]),
        ],
    };
    let w = weights(1, 1, 1);
    match find_best(&g, 0, &w) {
        Err(e) => assert_eq!(e, ExtractError::NoExtractableExpression),
        Ok(b) => panic!("unexpected result with cost {}", b.cost),
    }
}

/// A root whose only candidates are scalar has nothing selectable.
#[test]
fn all_scalar_root_fails() {
    let g = EGraph {
        classes: vec![class(vec![
            node(OpKind::ScalarMul, vec![]),
            node(OpKind::ScalarNeg, vec![]),
        ])],
    };
    let w = weights(3, 4, 5);
    match find_best(&g, 0, &w) {
        Err(e) => assert_eq!(e, ExtractError::NoExtractableExpression),
        Ok(b) => panic!("unexpected result with cost {}", b.cost),
    }
}

/// A cheap candidate that closes a cycle is pruned; the dearer acyclic
/// candidate wins.
#[test]
fn cyclic_candidate_is_pruned() {
    // class 0: VecAdd(1); class 1: either VecNeg(0) (a cycle) or a shift (dear)
    let g = EGraph {
        classes: vec![
            class(vec![node(OpKind::VecAdd, vec![1])]),
            class(vec![
                node(OpKind::VecNeg, vec![0]),
                node(OpKind::VecShift, vec![]),
            ]),
        ],
    };
    let w = weights(1, 1, 1);
    let b = find_best(&g, 0, &w).expect("the shift branch is acyclic");
    assert_eq!(b.cost, 1 + 50);
    assert_well_formed(&b);
}

/// A diamond with a back-reference: class 2 reuses class 1, which was
/// discovered earlier. The output must still be bottom-up.
#[test]
fn shared_class_back_reference() {
    let g = EGraph {
        classes: vec![
            class(vec![node(OpKind::VecAdd, vec![1, 2])]),
            class(vec![node(OpKind::Literal, vec![])]),
            class(vec![node(OpKind::VecNeg, vec![1])]),
        ],
    };
    let w = weights(2, 7, 3);
    let b = find_best(&g, 0, &w).expect("fully vectorized");
    assert_well_formed(&b);
    assert_rooted(&b, 0);
    // VecAdd + VecNeg + one shared literal
    assert_eq!(b.cost, 2 + 2 + 3);
    assert_eq!(b.nodes.len(), 3);
}

/// The returned cost is the true minimum over all acyclic, fully resolved
/// combinations, checked against exhaustive enumeration on small graphs.
#[test]
fn matches_brute_force_minimum() {
    let w = weights(2, 9, 1);
    let graphs = vec![
        // mixed candidates, several viable combinations
        EGraph {
            classes: vec![
                class(vec![
                    node(OpKind::VecAdd, vec![1, 2]),
                    node(OpKind::VecMul, vec![2, 2]),
                ]),
                class(vec![
                    node(OpKind::VecShift, vec![2]),
                    node(OpKind::VecStructure, vec![3]),
                    node(OpKind::ScalarAdd, vec![2]),
                ]),
                class(vec![node(OpKind::Literal, vec![]), node(OpKind::VecNeg, vec![3])]),
                class(vec![node(OpKind::Literal, vec![])]),
            ],
        },
        // a cycle lurking behind the cheap choices
        EGraph {
            classes: vec![
                class(vec![node(OpKind::VecMinus, vec![1])]),
                class(vec![node(OpKind::VecNeg, vec![0]), node(OpKind::VecMul, vec![2])]),
                class(vec![node(OpKind::Literal, vec![]), node(OpKind::ScalarSub, vec![0])]),
            ],
        },
        // only scalar options for a needed class: no result at all
        EGraph {
            classes: vec![
                class(vec![node(OpKind::VecAdd, vec![1])]),
                class(vec![node(OpKind::ScalarNeg, vec![])]),
            ],
        },
    ];
    for g in &graphs {
        let expected = brute_force_min(g, 0, &w);
        match find_best(g, 0, &w) {
            Ok(b) => {
                assert_eq!(Some(b.cost), expected);
                assert_well_formed(&b);
            }
            Err(e) => {
                assert_eq!(e, ExtractError::NoExtractableExpression);
                assert_eq!(expected, None);
            }
        }
    }
}

/// Extraction is deterministic: two runs on an unchanged graph return the
/// identical cost and the identical expression, even with several equal-cost
/// minima (classes 1 and 2 are symmetric).
#[test]
fn repeated_extraction_is_identical() {
    let g = EGraph {
        classes: vec![
            class(vec![
                node(OpKind::VecAdd, vec![1]),
                node(OpKind::VecAdd, vec![2]),
            ]),
            class(vec![node(OpKind::Literal, vec![])]),
            class(vec![node(OpKind::Literal, vec![])]),
        ],
    };
    let w = weights(4, 4, 4);
    let a = find_best(&g, 0, &w).unwrap();
    let b = find_best(&g, 0, &w).unwrap();
    assert_eq!(a.cost, b.cost);
    assert_eq!(a.classes, b.classes);
    assert_eq!(a.nodes.len(), b.nodes.len());
    for (x, y) in a.nodes.iter().zip(b.nodes.iter()) {
        assert_eq!(x.op, y.op);
        assert_eq!(x.children, y.children);
    }
}

/// Every recognized operation contributes its documented cost; unknown
/// operations are literals.
#[test]
fn single_node_costs() {
    let w = weights(3, 7, 2);
    let cases = vec![
        (OpKind::VecShift, 50 * 3),
        (OpKind::VecStructure, 7),
        (OpKind::VecAdd, 3),
        (OpKind::VecMinus, 3),
        (OpKind::VecNeg, 3),
        (OpKind::VecMul, 100 * 3),
        (OpKind::Literal, 2),
    ];
    for (op, expected) in cases {
        let g = EGraph { classes: vec![class(vec![node(op, vec![])])] };
        let b = find_best(&g, 0, &w).unwrap();
        assert_eq!(b.cost, expected);
        assert_eq!(b.nodes.len(), 1);
    }
}

/// The graph handle is handed over and read back unchanged.
#[test]
fn extractor_holds_graph() {
    let g = EGraph {
        classes: vec![class(vec![node(OpKind::Literal, vec![])])],
    };
    let ex = Extractor::new(g);
    let back = ex.get_egraph();
    assert_eq!(back.classes.len(), 1);
    assert_eq!(back.classes[0].nodes.len(), 1);
    let b = find_best(back, 0, &weights(1, 1, 6)).unwrap();
    assert_eq!(b.cost, 6);
}
