//! Ports of the rule-level tests: each rewrite is checked structurally and,
//! where the original does so, against the exact tensor denotation of the
//! diagram before and after, scalar included.

use zx_rules::graph::{EType, Graph, VType};
use zx_rules::phase::Phase;
use zx_rules::rules;
use zx_rules::scalar::Scalar4;

/// An exact complex number `(c0 + c1 w + c2 w^2 + c3 w^3) * sqrt(2)^p` with
/// `w = exp(i pi / 4)`, used to evaluate tensors without rounding.
#[derive(Clone, Copy, Debug)]
struct C4 {
    c: [i128; 4],
    p: i32,
}

const C4_ZERO: C4 = C4 { c: [0, 0, 0, 0], p: 0 };
const C4_ONE: C4 = C4 { c: [1, 0, 0, 0], p: 0 };

fn c4_mul_w(a: C4) -> C4 {
    C4 { c: [-a.c[3], a.c[0], a.c[1], a.c[2]], p: a.p }
}

/// Ring product: sum over `i` of `a_i * (w^i * b)`.
fn c4_mul(a: C4, b: C4) -> C4 {
    let mut r = C4 { c: [0, 0, 0, 0], p: a.p + b.p };
    let mut bb = b;
    for i in 0..4 {
        for k in 0..4 {
            r.c[k] += a.c[i] * bb.c[k];
        }
        bb = c4_mul_w(bb);
    }
    r
}

/// Multiply by sqrt(2) once, staying in the ring: `sqrt(2) = w - w^3`.
fn c4_times_sqrt2(a: C4) -> C4 {
    C4 {
        c: [
            a.c[1] - a.c[3],
            a.c[0] + a.c[2],
            a.c[1] + a.c[3],
            a.c[2] - a.c[0],
        ],
        p: a.p,
    }
}

fn c4_add(a: C4, b: C4) -> C4 {
    let (mut lo, mut hi) = if a.p <= b.p { (a, b) } else { (b, a) };
    while hi.p > lo.p {
        hi = c4_times_sqrt2(hi);
        hi.p -= 1;
    }
    lo.c[0] += hi.c[0];
    lo.c[1] += hi.c[1];
    lo.c[2] += hi.c[2];
    lo.c[3] += hi.c[3];
    lo
}

fn c4_neg(a: C4) -> C4 {
    C4 { c: [-a.c[0], -a.c[1], -a.c[2], -a.c[3]], p: a.p }
}

fn c4_is_zero(a: C4) -> bool {
    a.c == [0, 0, 0, 0]
}

fn c4_eq(a: C4, b: C4) -> bool {
    c4_is_zero(c4_add(a, c4_neg(b)))
}

/// `w^j` for `0 <= j < 8`.
fn c4_w_pow(j: u64) -> C4 {
    let mut r = C4_ONE;
    for _ in 0..(j % 8) {
        r = c4_mul_w(r);
    }
    r
}

fn c4_of_scalar(s: Scalar4) -> C4 {
    assert!(s.ok, "scalar left the representable range");
    C4 {
        c: [s.c0 as i128, s.c1 as i128, s.c2 as i128, s.c3 as i128],
        p: s.pow as i32,
    }
}

/// The eighth index of a phase (which must be a multiple of pi/4).
fn eighth_of(p: Phase) -> u64 {
    assert!(p.exp <= 2, "phase is not a multiple of pi/4");
    p.num << (2 - p.exp)
}

/// The exact tensor of a diagram, indexed by assignments to its boundary
/// vertices in increasing handle order, with the global scalar folded in.
fn tensor_of(g: &Graph) -> Vec<C4> {
    assert!(g.factors().is_empty(), "symbolic factors are not evaluated");
    let verts = g.vertices();
    let n = verts.iter().copied().max().map(|m| m + 1).unwrap_or(0);
    // local copies of the data, with X spiders turned into Z spiders by
    // conjugating their wires with Hadamards
    let mut kind: Vec<Option<VType>> = vec![None; n];
    let mut phase: Vec<Phase> = vec![Phase::zero(); n];
    let mut adj: Vec<Vec<Option<EType>>> = vec![vec![None; n]; n];
    for &v in verts.iter() {
        kind[v] = Some(g.vertex_type(v));
        phase[v] = g.phase(v);
        assert!(g.vars(v) == 0, "symbolic variables are not evaluated");
    }
    for &v in verts.iter() {
        for &w in verts.iter() {
            adj[v][w] = g.edge_type_opt(v, w);
        }
    }
    for &v in verts.iter() {
        if kind[v] == Some(VType::X) {
            kind[v] = Some(VType::Z);
            for &w in verts.iter() {
                if let Some(et) = adj[v][w] {
                    let flipped = match et {
                        EType::N => EType::H,
                        EType::H => EType::N,
                    };
                    adj[v][w] = Some(flipped);
                    adj[w][v] = Some(flipped);
                }
            }
        }
    }
    let bnd: Vec<usize> = verts
        .iter()
        .copied()
        .filter(|&v| kind[v] == Some(VType::B))
        .collect();
    let spiders: Vec<usize> = verts
        .iter()
        .copied()
        .filter(|&v| kind[v] == Some(VType::Z))
        .collect();
    for &v in verts.iter() {
        assert!(
            kind[v] == Some(VType::B) || kind[v] == Some(VType::Z),
            "unsupported vertex kind in tensor evaluation"
        );
    }
    assert!(bnd.len() <= 16 && spiders.len() <= 20, "diagram too large");
    let scalar = c4_of_scalar(g.scalar());
    let mut out: Vec<C4> = Vec::new();
    for bb in 0..(1u32 << bnd.len()) {
        let mut acc = C4_ZERO;
        for ss in 0..(1u32 << spiders.len()) {
            let mut bit: Vec<u8> = vec![0; n];
            for (i, &b) in bnd.iter().enumerate() {
                bit[b] = ((bb >> i) & 1) as u8;
            }
            for (i, &s) in spiders.iter().enumerate() {
                bit[s] = ((ss >> i) & 1) as u8;
            }
            let mut term = C4_ONE;
            let mut dead = false;
            for (i, &s) in spiders.iter().enumerate() {
                let _ = i;
                if bit[s] == 1 {
                    term = c4_mul(term, c4_w_pow(eighth_of(phase[s])));
                }
            }
            for &v in verts.iter() {
                for &w in verts.iter() {
                    if v < w {
                        match adj[v][w] {
                            Some(EType::N) => {
                                if bit[v] != bit[w] {
                                    dead = true;
                                }
                            }
                            Some(EType::H) => {
                                term.p -= 1;
                                if bit[v] == 1 && bit[w] == 1 {
                                    term = c4_neg(term);
                                }
                            }
                            None => {}
                        }
                    }
                }
            }
            if !dead {
                acc = c4_add(acc, term);
            }
        }
        out.push(c4_mul(acc, scalar));
    }
    out
}

fn tensors_equal(a: &[C4], b: &[C4]) -> bool {
    a.len() == b.len() && a.iter().zip(b.iter()).all(|(&x, &y)| c4_eq(x, y))
}

#[test]
fn spider_fusion_simple() {
    let mut g = Graph::new();
    let vs = [
        g.add_vertex(VType::B),
        g.add_vertex(VType::B),
        g.add_vertex(VType::Z),
        g.add_vertex(VType::Z),
        g.add_vertex(VType::B),
        g.add_vertex(VType::B),
        g.add_vertex(VType::B),
    ];
    g.set_phase(vs[2], Phase::new(1, 2));
    g.set_phase(vs[3], Phase::new(1, 4));
    g.add_edge(vs[0], vs[2]);
    g.add_edge(vs[1], vs[2]);
    g.add_edge(vs[2], vs[3]);
    g.add_edge(vs[3], vs[4]);
    g.add_edge(vs[3], vs[5]);
    g.add_edge(vs[3], vs[6]);
    g.set_inputs(vec![vs[0], vs[1]]);
    g.set_outputs(vec![vs[4], vs[5], vs[6]]);

    assert_eq!(g.num_vertices(), 7);
    assert_eq!(g.num_edges(), 6);

    let h = g.clone();
    rules::spider_fusion(&mut g, vs[2], vs[3]);

    assert_eq!(g.num_vertices(), 6);
    assert_eq!(g.num_edges(), 5);
    assert_eq!(g.degree(vs[2]), 5);

    assert!(tensors_equal(&tensor_of(&g), &tensor_of(&h)));

    assert_eq!(g.phase(vs[2]), Phase::new(3, 4));
}

#[test]
fn spider_fusion_smart() {
    // a spider fusion that creates parallel edges, which get
    // removed by complementarity
    let mut g = Graph::new();
    let vs = [
        g.add_vertex(VType::B),
        g.add_vertex(VType::B),
        g.add_vertex(VType::Z),
        g.add_vertex(VType::Z),
        g.add_vertex(VType::X),
        g.add_vertex(VType::B),
        g.add_vertex(VType::B),
    ];
    g.set_phase(vs[2], Phase::new(1, 2));
    g.set_phase(vs[3], Phase::new(1, 4));
    g.add_edge(vs[0], vs[2]);
    g.add_edge(vs[1], vs[2]);
    g.add_edge(vs[2], vs[3]);
    g.add_edge(vs[2], vs[4]);
    g.add_edge(vs[3], vs[4]);
    g.add_edge(vs[3], vs[5]);
    g.add_edge(vs[4], vs[6]);
    g.set_inputs(vec![vs[0], vs[1]]);
    g.set_outputs(vec![vs[5], vs[6]]);

    assert_eq!(g.num_vertices(), 7);
    assert_eq!(g.num_edges(), 7);
    assert_eq!(g.degree(vs[2]), 4);
    assert_eq!(g.degree(vs[4]), 3);
    assert!(g.scalar().is_one());

    let h = g.clone();
    let success = rules::spider_fusion(&mut g, vs[2], vs[3]);
    assert!(success, "Spider fusion should match");

    assert_eq!(g.num_vertices(), 6);
    assert_eq!(g.num_edges(), 4);
    assert_eq!(g.degree(vs[2]), 3);
    assert_eq!(g.degree(vs[4]), 1);
    assert_eq!(g.scalar(), Scalar4::sqrt2_pow(-2));

    let tg = tensor_of(&g);
    let th = tensor_of(&h);
    println!("tg = {tg:?}");
    println!("th = {th:?}");
    assert!(tensors_equal(&tg, &th));

    assert_eq!(g.phase(vs[2]), Phase::new(3, 4));
}

#[test]
fn local_comp_1() {
    let mut g = Graph::new();
    g.add_vertex(VType::Z);
    g.set_phase(0, Phase::new(1, 2));
    g.add_vertex(VType::Z);
    g.add_vertex(VType::Z);
    g.add_vertex(VType::Z);
    g.add_vertex(VType::Z);
    g.add_edge_with_type(0, 1, EType::H);
    g.add_edge_with_type(0, 2, EType::H);
    g.add_edge_with_type(0, 3, EType::H);
    g.add_edge_with_type(0, 4, EType::H);

    let b1 = g.add_vertex(VType::B);
    let b2 = g.add_vertex(VType::B);
    let b3 = g.add_vertex(VType::B);
    let b4 = g.add_vertex(VType::B);
    g.add_edge_with_type(b1, 1, EType::H);
    g.add_edge_with_type(b2, 2, EType::H);
    g.add_edge_with_type(b3, 3, EType::H);
    g.add_edge_with_type(b4, 4, EType::H);
    g.set_inputs(vec![b1, b2]);
    g.set_outputs(vec![b3, b4]);

    assert_eq!(g.num_vertices(), 9);
    assert_eq!(g.num_edges(), 8);

    let h = g.clone();
    let success = rules::local_comp(&mut g, 0);
    assert!(success, "Local comp should match");

    assert_eq!(g.num_vertices(), 8);
    assert_eq!(g.num_edges(), 10);

    let tg = tensor_of(&g);
    let th = tensor_of(&h);
    println!("tg = {tg:?}");
    println!("th = {th:?}");
    assert!(tensors_equal(&tg, &th));

    for i in 1..5 {
        assert_eq!(g.phase(i), Phase::new(-1, 2));
    }

    assert_eq!(
        g.scalar(),
        Scalar4::sqrt2_pow((4 - 1) * (4 - 2) / 2).times(Scalar4::from_phase(Phase::new(1, 4)))
    );

    let h = g.clone();
    let fail = rules::local_comp(&mut g, 1);
    assert!(!fail, "Local comp should not match");
    assert_eq!(g, h);
}

#[test]
fn pivot_1() {
    let mut g = Graph::new();
    for _ in 0..7 {
        g.add_vertex(VType::Z);
    }
    g.set_phase(3, Phase::new(1, 1));
    for i in 0..3 {
        g.add_edge_with_type(i, 3, EType::H);
    }
    g.add_edge_with_type(3, 4, EType::H);
    for i in 5..7 {
        g.add_edge_with_type(4, i, EType::H);
    }

    assert_eq!(g.num_vertices(), 7);
    assert_eq!(g.num_edges(), 6);

    let mut h = g.clone();
    let success = rules::pivot(&mut h, 3, 4);
    assert!(success, "Pivot should match");

    assert!(tensors_equal(&tensor_of(&g), &tensor_of(&h)));

    assert_eq!(h.num_vertices(), 5);
    assert_eq!(h.num_edges(), 6);

    assert_eq!(h.phase(0), Phase::new(0, 1));
    assert_eq!(h.phase(6), Phase::new(1, 1));

    let mut inputs: Vec<usize> = Vec::new();
    let mut outputs: Vec<usize> = Vec::new();
    for i in 0..3 {
        let inp = g.add_vertex(VType::B);
        inputs.push(inp);
        g.add_edge(i, inp);
    }
    for i in 5..7 {
        let outp = g.add_vertex(VType::B);
        outputs.push(outp);
        g.add_edge(i, outp);
    }
    g.set_inputs(inputs);
    g.set_outputs(outputs);

    let mut h = g.clone();
    let success = rules::pivot(&mut h, 3, 4);
    assert!(success, "Second pivot should match");
    assert!(tensors_equal(&tensor_of(&g), &tensor_of(&h)));
}

#[test]
fn pivot_2() {
    let mut g = Graph::new();
    for _ in 0..7 {
        g.add_vertex(VType::Z);
    }
    g.set_phase(3, Phase::new(1, 1));
    g.set_phase(4, Phase::new(1, 1));
    for i in 0..3 {
        g.add_edge_with_type(i, 3, EType::H);
    }
    g.add_edge_with_type(3, 4, EType::H);
    for i in 5..7 {
        g.add_edge_with_type(4, i, EType::H);
    }

    assert_eq!(g.num_vertices(), 7);
    assert_eq!(g.num_edges(), 6);

    let success = rules::pivot(&mut g, 3, 4);
    assert!(success, "Pivot should match");

    assert_eq!(g.num_vertices(), 5);
    assert_eq!(g.num_edges(), 6);

    assert_eq!(g.phase(0), Phase::new(1, 1));
    assert_eq!(g.phase(6), Phase::new(1, 1));
}

#[test]
fn get_pivot_1() {
    let mut g = Graph::new();
    for _ in 0..7 {
        g.add_vertex(VType::Z);
    }
    g.set_vertex_type(0, VType::B);
    for i in 0..3 {
        g.add_edge_with_type(i, 3, EType::H);
    }
    g.add_edge_with_type(3, 4, EType::H);
    for i in 5..7 {
        g.add_edge_with_type(4, i, EType::H);
    }
    g.set_inputs(vec![0]);

    assert_eq!(g.num_vertices(), 7);
    assert_eq!(g.num_edges(), 6);

    let mut h = g.clone();
    let success = rules::pivot(&mut h, 3, 4);
    assert!(!success, "Pivot should not match");

    let mut h = g.clone();
    let success = rules::gen_pivot(&mut h, 3, 4);
    assert!(success, "gen_pivot should match");

    let gt = tensor_of(&g);
    let ht = tensor_of(&h);
    println!("gt = {gt:?}");
    println!("ht = {ht:?}");
    assert!(tensors_equal(&gt, &ht));
}

#[test]
fn get_pivot_2() {
    let mut g = Graph::new();
    for _ in 0..7 {
        g.add_vertex(VType::Z);
    }
    g.set_phase(3, Phase::new(1, 1));
    g.set_phase(4, Phase::new(1, 4));
    for i in 0..3 {
        g.add_edge_with_type(i, 3, EType::H);
    }
    g.add_edge_with_type(3, 4, EType::H);
    for i in 5..7 {
        g.add_edge_with_type(4, i, EType::H);
    }

    assert_eq!(g.num_vertices(), 7);
    assert_eq!(g.num_edges(), 6);

    let mut h = g.clone();
    let success = rules::pivot(&mut h, 3, 4);
    assert!(!success, "Pivot should not match");

    let mut h = g.clone();
    let success = rules::gen_pivot(&mut h, 3, 4);
    assert!(success, "gen_pivot should match");

    let gt = tensor_of(&g);
    let ht = tensor_of(&h);
    println!("gt = {gt:?}");
    println!("ht = {ht:?}");
    assert!(tensors_equal(&gt, &ht));
}

#[test]
fn gadget_fusion_1() {
    // fuse gadgets of various sizes
    for n in 1..5 {
        let mut graph = Graph::new();
        let bs: Vec<usize> = (0..n).map(|_| graph.add_vertex(VType::B)).collect();
        let vs: Vec<usize> = (0..n).map(|_| graph.add_vertex(VType::Z)).collect();
        let gs: Vec<usize> = (0..2).map(|_| graph.add_vertex(VType::Z)).collect();
        let ps: Vec<usize> = (0..2).map(|_| graph.add_vertex(VType::Z)).collect();
        graph.set_inputs(bs.clone());

        for i in 0..n {
            graph.add_edge(bs[i], vs[i]);
        }
        for (&gv, &p) in gs.iter().zip(ps.iter()) {
            graph.add_edge_with_type(gv, p, EType::H);
            for &v in &vs {
                graph.add_edge_with_type(v, gv, EType::H);
            }
        }

        graph.set_phase(ps[0], Phase::new(1, 4));
        graph.set_phase(ps[1], Phase::new(1, 2));

        let h = graph.clone();

        assert!(rules::gadget_fusion(&mut graph, gs[0], gs[1]));
        let verts = graph.vertices();
        assert!(verts.iter().any(|&v| graph.phase(v) == Phase::new(3, 4)));
        assert!(!verts.iter().any(|&v| graph.phase(v) == Phase::new(1, 4)));
        assert!(!verts.iter().any(|&v| graph.phase(v) == Phase::new(1, 2)));
        assert!(tensors_equal(&tensor_of(&graph), &tensor_of(&h)));
    }
}

#[test]
fn scalar_rules() {
    for &t in &[VType::Z, VType::X] {
        let mut g = Graph::new();
        g.add_vertex_with_phase(t, Phase::new(1, 4));
        let mut h = g.clone();
        assert!(rules::remove_single(&mut h, 0));
        assert_eq!(h.num_vertices(), 0, "h still has vertices");
        assert!(tensors_equal(&tensor_of(&g), &tensor_of(&h)));
    }

    for &t0 in &[VType::Z, VType::X] {
        for &t1 in &[VType::Z, VType::X] {
            for &et in &[EType::N, EType::H] {
                let mut g = Graph::new();
                g.add_vertex_with_phase(t0, Phase::new(1, 4));
                g.add_vertex_with_phase(t1, Phase::new(-1, 2));
                g.add_edge_with_type(0, 1, et);
                let mut h = g.clone();
                assert!(rules::remove_pair(&mut h, 0, 1));
                assert_eq!(h.num_vertices(), 0, "h still has vertices");
                assert!(
                    tensors_equal(&tensor_of(&g), &tensor_of(&h)),
                    "Eq failed on case: {t0:?}, {t1:?}, {et:?}"
                );
            }
        }
    }
}

#[test]
fn pi_copy_1() {
    let mut g = Graph::new();
    let vs = [
        g.add_vertex_with_phase(VType::Z, Phase::new(1, 1)),
        g.add_vertex_with_phase(VType::Z, Phase::new(1, 2)),
        g.add_vertex_with_phase(VType::X, Phase::new(1, 4)),
        g.add_vertex_with_phase(VType::Z, Phase::new(0, 1)),
        g.add_vertex_with_phase(VType::X, Phase::new(3, 2)),
        g.add_vertex_with_phase(VType::Z, Phase::new(3, 4)),
        g.add_vertex_with_phase(VType::B, Phase::new(0, 1)),
    ];

    g.set_inputs(vec![vs[6]]);

    g.add_edge_smart(vs[0], vs[1], EType::H);
    g.add_edge_smart(vs[1], vs[2], EType::N);
    g.add_edge_smart(vs[2], vs[3], EType::H);
    g.add_edge_smart(vs[3], vs[4], EType::N);
    g.add_edge_smart(vs[4], vs[5], EType::N);
    g.add_edge_smart(vs[5], vs[6], EType::N);

    assert!(rules::check_pi_copy(&g, vs[0]));
    assert!(rules::check_pi_copy(&g, vs[1]));
    assert!(!rules::check_pi_copy(&g, vs[2]));
    assert!(!rules::check_pi_copy(&g, vs[3]));
    assert!(rules::check_pi_copy(&g, vs[4]));
    assert!(!rules::check_pi_copy(&g, vs[5]));
    assert!(!rules::check_pi_copy(&g, vs[6]));

    let h = g.clone();
    rules::pi_copy(&mut g, vs[0]);
    assert!(tensors_equal(&tensor_of(&g), &tensor_of(&h)));
    rules::pi_copy(&mut g, vs[1]);
    assert!(tensors_equal(&tensor_of(&g), &tensor_of(&h)));
    rules::pi_copy(&mut g, vs[4]);
    assert!(tensors_equal(&tensor_of(&g), &tensor_of(&h)));
}

#[test]
fn remove_duplicate1() {
    let mut g = Graph::new();

    let b0 = g.add_vertex(VType::B);
    let b1 = g.add_vertex(VType::B);
    let b2 = g.add_vertex(VType::B);

    let n0 = g.add_vertex(VType::Z);
    let n1 = g.add_vertex(VType::Z);
    let n2 = g.add_vertex(VType::Z);

    let v0 = g.add_vertex_with_phase(VType::Z, Phase::new(1, 4));
    let v1 = g.add_vertex_with_phase(VType::Z, Phase::new(1, 1));

    g.add_edge(b0, n0);
    g.add_edge(b1, n1);
    g.add_edge(b2, n2);

    g.add_edge_with_type(n0, v0, EType::H);
    g.add_edge_with_type(n1, v0, EType::H);
    g.add_edge_with_type(n2, v0, EType::H);

    g.add_edge_with_type(n0, v1, EType::H);
    g.add_edge_with_type(n1, v1, EType::H);
    g.add_edge_with_type(n2, v1, EType::H);

    g.set_outputs(vec![b0, b1, b2]);

    let h = g.clone();

    assert!(rules::remove_duplicate(&mut g, v0, v1));
    assert!(tensors_equal(&tensor_of(&g), &tensor_of(&h)));
}
