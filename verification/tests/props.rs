//! Property scenarios: order-independence of the pivot check and pivot
//! itself, progress of the reducing pivot variant, no-op-on-failure of the
//! checked compositions, and the remaining rule triples on small diagrams.

use zx_rules::graph::{EType, Graph, VType};
use zx_rules::param::{Expr, Parity};
use zx_rules::phase::Phase;
use zx_rules::rules;
use zx_rules::scalar::Scalar4;

/// The seven-spider path diagram used by the pivot scenarios.
fn pivot_diagram() -> Graph {
    let mut g = Graph::new();
    for _ in 0..7 {
        g.add_vertex(VType::Z);
    }
    g.set_phase(3, Phase::new(1, 1));
    for i in 0..3 {
        g.add_edge_with_type(i, 3, EType::H);
    }
    g.add_edge_with_type(3, 4, EType::H);
    for i in 5..7 {
        g.add_edge_with_type(4, i, EType::H);
    }
    g
}

#[test]
fn pivot_check_is_symmetric() {
    let g = pivot_diagram();
    for v0 in 0..7 {
        for v1 in 0..7 {
            assert_eq!(
                rules::check_pivot(&g, v0, v1),
                rules::check_pivot(&g, v1, v0),
                "check_pivot must not depend on argument order"
            );
        }
    }
}

#[test]
fn pivot_either_order_same_shape() {
    let g = pivot_diagram();
    let mut a = g.clone();
    let mut b = g.clone();
    assert!(rules::pivot(&mut a, 3, 4));
    assert!(rules::pivot(&mut b, 4, 3));
    assert_eq!(a.num_vertices(), b.num_vertices());
    assert_eq!(a.num_edges(), b.num_edges());
    for v in [0usize, 1, 2, 5, 6] {
        assert_eq!(a.phase(v), b.phase(v));
    }
}

/// The number of interior Pauli vertices of a diagram.
fn interior_pauli_count(g: &Graph) -> usize {
    g.vertices()
        .iter()
        .filter(|&&v| g.vertex_type(v) != VType::B && rules::is_interior_pauli(g, v))
        .count()
}

#[test]
fn reducing_pivot_reduces_interior_pauli_count() {
    let mut g = pivot_diagram();
    // anchor the outer spiders so the pivot pair itself is interior Pauli
    let mut ios: Vec<usize> = Vec::new();
    for v in [0usize, 1, 2, 5, 6] {
        let b = g.add_vertex(VType::B);
        g.add_edge(v, b);
        ios.push(b);
    }
    g.set_inputs(ios);
    assert!(rules::check_gen_pivot_reduce(&g, 3, 4));
    let before = interior_pauli_count(&g);
    assert!(rules::gen_pivot(&mut g, 3, 4));
    let after = interior_pauli_count(&g);
    assert!(after < before, "interior Pauli count must strictly decrease");
}

#[test]
fn failed_checks_leave_the_diagram_untouched() {
    let g = pivot_diagram();
    // stale and ill-typed handles must answer false, never fail
    let mut h = g.clone();
    assert!(!rules::spider_fusion(&mut h, 0, 99));
    assert!(!rules::pivot(&mut h, 0, 1));
    assert!(!rules::local_comp(&mut h, 3));
    assert!(!rules::pi_copy(&mut h, 42));
    assert!(!rules::remove_id(&mut h, 3));
    assert!(!rules::remove_single(&mut h, 3));
    assert!(!rules::remove_pair(&mut h, 3, 4));
    assert!(!rules::gadget_fusion(&mut h, 3, 4));
    assert!(!rules::remove_duplicate(&mut h, 3, 4));
    assert!(!rules::color_change(&mut h, 99));
    assert_eq!(g, h, "a failed check must leave the diagram untouched");
}

#[test]
fn remove_id_joins_neighbors_by_parity() {
    // N + H around the removed identity leaves one Hadamard edge
    let mut g = Graph::new();
    let a = g.add_vertex(VType::Z);
    let v = g.add_vertex(VType::Z);
    let b = g.add_vertex(VType::Z);
    g.add_edge_with_type(a, v, EType::N);
    g.add_edge_with_type(v, b, EType::H);
    assert!(rules::remove_id(&mut g, v));
    assert_eq!(g.num_vertices(), 2);
    assert_eq!(g.edge_type_opt(a, b), Some(EType::H));

    // H + H combine to a plain edge
    let mut g = Graph::new();
    let a = g.add_vertex(VType::Z);
    let v = g.add_vertex(VType::Z);
    let b = g.add_vertex(VType::Z);
    g.add_edge_with_type(a, v, EType::H);
    g.add_edge_with_type(v, b, EType::H);
    assert!(rules::remove_id(&mut g, v));
    assert_eq!(g.edge_type_opt(a, b), Some(EType::N));

    // a phased vertex is not an identity
    let mut g = Graph::new();
    let a = g.add_vertex(VType::Z);
    let v = g.add_vertex_with_phase(VType::Z, Phase::new(1, 4));
    let b = g.add_vertex(VType::Z);
    g.add_edge(a, v);
    g.add_edge(v, b);
    assert!(!rules::remove_id(&mut g, v));
}

#[test]
fn color_change_flips_color_and_edges() {
    let mut g = Graph::new();
    let v = g.add_vertex_with_phase(VType::X, Phase::new(1, 4));
    let a = g.add_vertex(VType::Z);
    let b = g.add_vertex(VType::B);
    g.add_edge_with_type(v, a, EType::N);
    g.add_edge_with_type(v, b, EType::H);
    assert!(rules::color_change(&mut g, v));
    assert_eq!(g.vertex_type(v), VType::Z);
    assert_eq!(g.edge_type_opt(v, a), Some(EType::H));
    assert_eq!(g.edge_type_opt(v, b), Some(EType::N));
    assert_eq!(g.phase(v), Phase::new(1, 4));
    assert!(!rules::color_change(&mut g, b));
}

#[test]
fn phases_are_normalized_and_exact() {
    assert_eq!(Phase::new(1, 4).add(Phase::new(1, 2)), Phase::new(3, 4));
    assert_eq!(Phase::new(-1, 2), Phase::new(3, 2));
    assert_eq!(Phase::new(9, 4), Phase::new(1, 4));
    assert_eq!(Phase::new(1, 1).add(Phase::new(1, 1)), Phase::new(0, 1));
    assert_eq!(Phase::new(1, 4).neg(), Phase::new(7, 4));
    assert!(Phase::new(1, 1).is_pauli());
    assert!(!Phase::new(1, 2).is_pauli());
    assert!(Phase::new(3, 2).is_proper_clifford());
    assert!(!Phase::new(1, 4).is_proper_clifford());
    assert_eq!(Phase::new(3, 2).half(), Phase::new(3, 4));
}

#[test]
fn scalar_ring_arithmetic_is_exact() {
    let w = Scalar4::from_phase(Phase::new(1, 4));
    let mut acc = Scalar4::one();
    for _ in 0..8 {
        acc = acc.times(w);
    }
    assert_eq!(acc, Scalar4::one(), "w is an eighth root of unity");
    assert_eq!(
        Scalar4::from_phase(Phase::new(1, 1)),
        Scalar4::minus_one()
    );
    assert_eq!(
        Scalar4::one_plus_phase(Phase::new(1, 1)),
        Scalar4::one().plus(Scalar4::minus_one())
    );
    let s = Scalar4::sqrt2_pow(3).times(Scalar4::sqrt2_pow(-5));
    assert_eq!(s, Scalar4::sqrt2_pow(-2));
}

#[test]
fn smart_edges_resolve_parallel_pairs() {
    // two Hadamard edges between Z-spiders cancel with a 1/2 scalar
    let mut g = Graph::new();
    let a = g.add_vertex(VType::Z);
    let b = g.add_vertex(VType::Z);
    g.add_edge_with_type(a, b, EType::H);
    g.add_edge_smart(a, b, EType::H);
    assert!(g.edge_type_opt(a, b).is_none());
    assert_eq!(g.scalar(), Scalar4::sqrt2_pow(-2));

    // two plain edges between unlike spiders cancel the same way
    let mut g = Graph::new();
    let a = g.add_vertex(VType::Z);
    let b = g.add_vertex(VType::X);
    g.add_edge_with_type(a, b, EType::N);
    g.add_edge_smart(a, b, EType::N);
    assert!(g.edge_type_opt(a, b).is_none());
    assert_eq!(g.scalar(), Scalar4::sqrt2_pow(-2));

    // a mixed pair between like spiders keeps the plain edge and pushes a pi
    let mut g = Graph::new();
    let a = g.add_vertex(VType::Z);
    let b = g.add_vertex(VType::Z);
    g.add_edge_with_type(a, b, EType::N);
    g.add_edge_smart(a, b, EType::H);
    assert_eq!(g.edge_type_opt(a, b), Some(EType::N));
    assert_eq!(g.phase(a), Phase::new(1, 1));
    assert_eq!(g.scalar(), Scalar4::sqrt2_pow(-1));
}

#[test]
fn boundary_pivot_checks_classify() {
    let mut g = pivot_diagram();
    let b = g.add_vertex(VType::B);
    g.add_edge_with_type(b, 0, EType::N);
    g.set_inputs(vec![b]);
    assert!(rules::is_boundary_pauli(&g, 0));
    assert!(!rules::is_boundary_pauli_with_h(&g, 0));
    assert!(!rules::is_boundary_pauli(&g, 4));
    assert!(!rules::is_interior_pauli(&g, 4));
    assert!(rules::check_boundary_pivot(&g, 0, 3));
    assert!(!rules::check_h_boundary_pivot(&g, 0, 3));
}

#[test]
fn symbolic_pair_removal_minimizes_factors() {
    // A like pairing with variables collapses to two linear factors over
    // the XOR of the variable sets, carrying the two boolean branch values
    // 1 + exp(i*pi/4) and 1 + exp(i*pi*5/4).
    let mut g = Graph::new();
    g.add_vertex_with_phase(VType::Z, Phase::new(1, 4));
    g.add_vertex_with_phase(VType::Z, Phase::new(0, 1));
    g.add_edge_with_type(0, 1, EType::N);
    g.add_to_vars(0, 1);
    assert!(rules::remove_pair(&mut g, 0, 1));
    let fs = g.factors();
    assert_eq!(fs.len(), 2);
    assert_eq!(fs[0].0, Expr::Linear(Parity { mask: 1, neg: true }));
    assert_eq!(fs[0].1, Scalar4 { c0: 1, c1: 1, c2: 0, c3: 0, pow: 0, ok: true });
    assert_eq!(fs[1].0, Expr::Linear(Parity { mask: 1, neg: false }));
    assert_eq!(fs[1].1, Scalar4 { c0: 1, c1: -1, c2: 0, c3: 0, pow: 0, ok: true });

    // An unlike pairing of two phaseless spiders has the branch table
    // (2, 2, 2, -2), whose four values pair up under no single parity: the
    // full quadratic four-term decomposition is emitted, with the sqrt(2)
    // factor folded into the scalar.
    let mut g = Graph::new();
    g.add_vertex_with_phase(VType::Z, Phase::new(0, 1));
    g.add_vertex_with_phase(VType::X, Phase::new(0, 1));
    g.add_edge_with_type(0, 1, EType::N);
    g.add_to_vars(0, 1);
    g.add_to_vars(1, 2);
    assert!(rules::remove_pair(&mut g, 0, 1));
    assert_eq!(g.scalar(), Scalar4 { c0: 1, c1: 0, c2: 0, c3: 0, pow: -1, ok: true });
    let fs = g.factors();
    assert_eq!(fs.len(), 4);
    let two = Scalar4 { c0: 2, c1: 0, c2: 0, c3: 0, pow: 0, ok: true };
    let minus_two = Scalar4 { c0: -2, c1: 0, c2: 0, c3: 0, pow: 0, ok: true };
    for (i, &(neg0, neg1)) in [(true, true), (true, false), (false, true), (false, false)]
        .iter()
        .enumerate()
    {
        let want = Expr::Quadratic(
            Parity { mask: 1, neg: neg0 },
            Parity { mask: 2, neg: neg1 },
        );
        assert_eq!(fs[i].0, want);
        assert_eq!(fs[i].1, if neg0 || neg1 { two } else { minus_two });
    }
}
