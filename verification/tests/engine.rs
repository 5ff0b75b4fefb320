use rustynet::engine::Graph;

/// Build `f = a*b + a^2` with a = -4, b = 2 as the autograd engine records it.
fn sanity_graph() -> (Graph<f64>, usize, usize, usize) {
    let mut g: Graph<f64> = Graph::new();
    let (a, b) = (-4.0, 2.0);
    let ia = g.add_node(a, vec![], vec![], 0.0);
    let ib = g.add_node(b, vec![], vec![], 0.0);
    let iab = g.add_node(a * b, vec![ia, ib], vec![b, a], 0.0);
    let ia2 = g.add_node(a * a, vec![ia], vec![2.0 * a], 0.0);
    let f = g.add_node(a * b + a * a, vec![iab, ia2], vec![1.0, 1.0], 0.0);
    (g, ia, ib, f)
}

#[test]
fn node_ids_count_up_from_zero() {
    let (g, ia, ib, f) = sanity_graph();
    assert_eq!((ia, ib, f), (0, 1, 4));
    assert_eq!(g.len(), 5);
    assert_eq!(g.children(2), &vec![0, 1]);
    assert_eq!(g.local_grads(2), &vec![2.0, -4.0]);
    assert_eq!(*g.data(4), 8.0);
    assert_eq!(*g.grad(4), 0.0);
}

#[test]
fn topological_order_puts_children_first_and_root_last() {
    let (g, _, _, f) = sanity_graph();
    let order = g.topological_order(f);
    assert_eq!(order, vec![0, 1, 2, 3, 4]);
}

#[test]
fn shared_node_appears_once() {
    // y = x + x
    let mut g: Graph<f64> = Graph::new();
    let x = g.add_node(3.0, vec![], vec![], 0.0);
    let y = g.add_node(6.0, vec![x, x], vec![1.0, 1.0], 0.0);
    assert_eq!(g.topological_order(y), vec![x, y]);
}

#[test]
fn only_reachable_nodes_are_ordered() {
    let mut g: Graph<i32> = Graph::new();
    let a = g.add_node(1, vec![], vec![], 0);
    let b = g.add_node(2, vec![], vec![], 0);
    let c = g.add_node(3, vec![b], vec![1], 0);
    let d = g.add_node(4, vec![a], vec![1], 0);
    assert_eq!(g.topological_order(c), vec![b, c]);
    assert_eq!(g.topological_order(d), vec![a, d]);
    assert_eq!(g.topological_order(a), vec![a]);
    // A node only reaches nodes created no later than itself.
    for root in [a, b, c, d] {
        assert!(g.topological_order(root).iter().all(|&u| u <= root));
    }
}

#[test]
fn order_follows_first_child_depth_first() {
    let mut g: Graph<u8> = Graph::new();
    let n0 = g.add_node(0, vec![], vec![], 0);
    let n1 = g.add_node(0, vec![n0], vec![0], 0);
    let n2 = g.add_node(0, vec![], vec![], 0);
    let n3 = g.add_node(0, vec![n2, n1], vec![0, 0], 0);
    let n4 = g.add_node(0, vec![n3, n0, n1], vec![0, 0, 0], 0);
    assert_eq!(g.topological_order(n4), vec![n2, n0, n1, n3, n4]);
}

#[test]
fn backward_gives_chain_rule_gradients() {
    // f = a*b + a^2 ; df/da = b + 2a = -6 ; df/db = a = -4
    let (mut g, ia, ib, f) = sanity_graph();
    g.backward(f, 1.0, |grad: f64, local: f64, up: f64| grad + local * up);
    assert!((*g.grad(ia) - (-6.0)).abs() < 1e-9);
    assert!((*g.grad(ib) - (-4.0)).abs() < 1e-9);
    assert_eq!(*g.grad(f), 1.0);
    assert_eq!(*g.data(f), 8.0);
}

#[test]
fn reused_node_gradient_accumulates() {
    // y = x + x, dy/dx = 2
    let mut g: Graph<f64> = Graph::new();
    let x = g.add_node(3.0, vec![], vec![], 0.0);
    let y = g.add_node(6.0, vec![x, x], vec![1.0, 1.0], 0.0);
    g.backward(y, 1.0, |grad: f64, local: f64, up: f64| grad + local * up);
    assert_eq!(*g.grad(x), 2.0);
}

#[test]
fn backward_updates_each_edge_once_in_reverse_order() {
    // Integer gradients make every update visible: f(g, l, u) = 10 * g + l * u.
    let mut g: Graph<i64> = Graph::new();
    let a = g.add_node(0, vec![], vec![], 0);
    let b = g.add_node(0, vec![a], vec![2], 0);
    let c = g.add_node(0, vec![a, b], vec![3, 5], 0);
    let calls = std::cell::RefCell::new(Vec::new());
    g.backward(c, 1, |grad: i64, local: i64, up: i64| {
        calls.borrow_mut().push((grad, local, up));
        10 * grad + local * up
    });
    // Order is [a, b, c]; walked backwards: c's two edges, then b's, then a's (none).
    assert_eq!(calls.into_inner(), vec![(0, 3, 1), (0, 5, 1), (3, 2, 5)]);
    assert_eq!(*g.grad(c), 1);
    assert_eq!(*g.grad(b), 5);
    assert_eq!(*g.grad(a), 40);
}

#[test]
fn gradients_of_unreached_nodes_are_untouched() {
    let mut g: Graph<i64> = Graph::new();
    let a = g.add_node(0, vec![], vec![], 7);
    let b = g.add_node(0, vec![], vec![], 9);
    let c = g.add_node(0, vec![b], vec![4], 0);
    g.backward(c, 2, |grad: i64, local: i64, up: i64| grad + local * up);
    assert_eq!(*g.grad(a), 7);
    assert_eq!(*g.grad(b), 17);
    assert_eq!(*g.grad(c), 2);
}

#[test]
fn setters_change_one_node_only() {
    let (mut g, ia, ib, _) = sanity_graph();
    g.set_data(ia, 10.0);
    g.set_grad(ib, 5.0);
    assert_eq!(*g.data(ia), 10.0);
    assert_eq!(*g.data(ib), 2.0);
    assert_eq!(*g.grad(ib), 5.0);
    assert_eq!(*g.grad(ia), 0.0);
}

#[test]
fn truncate_keeps_the_oldest_nodes() {
    let (mut g, ia, ib, _) = sanity_graph();
    g.truncate(2);
    assert_eq!(g.len(), 2);
    assert_eq!(*g.data(ia), -4.0);
    assert_eq!(*g.data(ib), 2.0);
    g.truncate(7);
    assert_eq!(g.len(), 2);
    let c = g.add_node(1.0, vec![ia], vec![1.0], 0.0);
    assert_eq!(c, 2);
}

#[test]
fn gradient_is_sum_over_paths_of_local_derivative_products() {
    // Diamond: d depends on b and c, both depend on a; plus a direct edge d -> a.
    let mut g: Graph<i64> = Graph::new();
    let a = g.add_node(0, vec![], vec![], 0);
    let b = g.add_node(0, vec![a], vec![2], 0);
    let c = g.add_node(0, vec![a], vec![3], 0);
    let d = g.add_node(0, vec![b, c, a], vec![5, 7, 11], 0);
    g.backward(d, 1, |grad: i64, local: i64, up: i64| grad + local * up);
    // Paths d->b->a: 5*2, d->c->a: 7*3, d->a: 11.
    assert_eq!(*g.grad(a), 5 * 2 + 7 * 3 + 11);
    assert_eq!(*g.grad(b), 5);
    assert_eq!(*g.grad(c), 7);
    assert_eq!(*g.grad(d), 1);
}
