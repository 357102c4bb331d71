//! Basic ZX-calculus rewrite rules.
//!
//! Every rule `X` is a triple: `check_X` decides applicability without
//! mutating and answers `false` (never fails) on missing or ill-typed
//! vertices; `X_unchecked` performs the rewrite and requires exactly what
//! `check_X` established; and `X` composes the two, mutating and returning
//! `true` when the check holds and leaving the diagram completely untouched
//! otherwise.

use vstd::prelude::*;
use crate::graph::cnt_row;
use crate::graph::EType;
use crate::graph::Graph;
use crate::graph::V;
use crate::graph::VData;
use crate::graph::VType;
use crate::param::Expr;
use crate::param::Parity;
use crate::phase::Phase;
use crate::scalar::Scalar4;

verus! {

use vstd::arithmetic::power2::pow2;

/// Whether `v0` and `v1` are distinct same-colored spiders joined by a
/// plain edge, so that they can fuse.
pub open spec fn spec_check_spider_fusion(g: Graph, v0: int, v1: int) -> bool {
    &&& v0 != v1
    &&& g.edge_opt(v0, v1) == Some(EType::N)
    &&& (g.vd(v0).ty == VType::Z && g.vd(v1).ty == VType::Z || g.vd(v0).ty == VType::X && g.vd(
        v1,
    ).ty == VType::X)
    &&& forall|w: int|
        0 <= w < g.n() && (#[trigger] g.edge(v0, w)) is Some && g.edge(v1, w) is Some ==> g.vd(
            w,
        ).ty == VType::Z || g.vd(w).ty == VType::X
}

/// Check that [`spider_fusion_unchecked`] applies: both vertices are Z or
/// both are X, and they are joined by a plain (non-Hadamard) edge.
///
/// One deliberate narrowing beyond the rule's usual statement: every
/// common neighbor of the pair must itself be a spider.  Fusing reconnects
/// `v1`'s wires to `v0`, and a second wire to a common non-spider neighbor
/// has no defined combined form (the diagrammatic identities only combine
/// parallel wires between spiders), so on such a pair the mutator cannot
/// keep the diagram well-formed.  The rule set promises that a checked
/// rule never fails, and applicability wording and that promise cannot
/// both hold on these inputs; the check resolves the conflict by
/// answering `false` there, leaving the diagram untouched.
pub fn check_spider_fusion(g: &Graph, v0: V, v1: V) -> (r: bool)
    requires
        g.wf(),
    ensures
        r == spec_check_spider_fusion(*g, v0 as int, v1 as int),
{
    if v0 == v1 {
        return false;
    }
    if g.edge_type_opt(v0, v1) != Some(EType::N) {
        return false;
    }
    let t0 = g.vertex_type(v0);
    let t1 = g.vertex_type(v1);
    if !(t0 == VType::Z && t1 == VType::Z || t0 == VType::X && t1 == VType::X) {
        return false;
    }
    let n = g.num_slots();
    let mut w: usize = 0;
    while w < n
        invariant
            g.wf(),
            n == g.n(),
            w <= n,
            v0 < n,
            v1 < n,
            forall|x: int|
                0 <= x < w && (#[trigger] g.edge(v0 as int, x)) is Some && g.edge(v1 as int, x)
                    is Some ==> g.vd(x).ty == VType::Z || g.vd(x).ty == VType::X,
        decreases n - w,
    {
        if g.connected(v0, w) && g.connected(v1, w) {
            let tw = g.vertex_type(w);
            if !(tw == VType::Z || tw == VType::X) {
                return false;
            }
        }
        w = w + 1;
    }
    true
}

/// Whether `v` is a live Z or X spider.
pub open spec fn spec_check_color_change(g: Graph, v: int) -> bool {
    g.live(v) && (g.vd(v).ty == VType::Z || g.vd(v).ty == VType::X)
}

/// Check that [`color_change_unchecked`] applies: the vertex is a spider.
pub fn check_color_change(g: &Graph, v: V) -> (r: bool)
    requires
        g.wf(),
    ensures
        r == spec_check_color_change(*g, v as int),
{
    let vt = g.vertex_type_opt(v);
    vt == Some(VType::X) || vt == Some(VType::Z)
}

pub open spec fn spec_color_change_effect(g0: Graph, g1: Graph, v: int) -> bool {
    &&& ({
        g1.n() == g0.n()
    })
    &&& ({
        forall|w: int| g1.live(w) == g0.live(w)
    })
    &&& ({
        forall|w: int|
            0 <= w < g0.n() && w != v ==> g1.vdata@[w] == #[trigger] g0.vdata@[w]
    })
    &&& ({
        g1.vd(v) == (VData {
            ty: if g0.vd(v).ty == VType::Z {
                VType::X
            } else {
                VType::Z
            },
            ..g0.vd(v)
        })
    })
    &&& ({
        forall|a: int, b: int|
            #![trigger g0.adj@[a]@[b]]
            0 <= a < g0.n() && 0 <= b < g0.n() ==> g1.edge(a, b) == (if (a == v || b
                == v) && g0.edge(a, b) is Some {
                Some(if g0.edge(a, b) == Some(EType::N) {
                    EType::H
                } else {
                    EType::N
                })
            } else {
                g0.edge(a, b)
            })
    })
    &&& ({
        g1.scalar_io_same(g0)
    })
}

/// Change the color of a Z or X spider, toggling every incident edge
/// between plain and Hadamard.
pub fn color_change_unchecked(g: &mut Graph, v: V)
    requires
        old(g).wf(),
        spec_check_color_change(*old(g), v as int),
    ensures
        final(g).wf(),
        spec_color_change_effect(*old(g), *final(g), v as int),
{
    let vt = g.vertex_type(v);
    let newt = if vt == VType::X {
        VType::Z
    } else {
        VType::X
    };
    g.set_vertex_type(v, newt);
    let n = g.num_slots();
    let mut w: usize = 0;
    while w < n
        invariant
            old(g).wf(),
            g.wf(),
            spec_check_color_change(*old(g), v as int),
            n == old(g).n(),
            g.n() == n,
            v < n,
            w <= n,
            forall|x: int| g.live(x) == old(g).live(x),
            forall|x: int|
                0 <= x < n && x != v ==> g.vdata@[x] == #[trigger] old(g).vdata@[x],
            g.vd(v as int) == (VData {
                ty: if old(g).vd(v as int).ty == VType::Z {
                    VType::X
                } else {
                    VType::Z
                },
                ..old(g).vd(v as int)
            }),
            forall|a: int, b: int|
                #![trigger old(g).adj@[a]@[b]]
                0 <= a < n && 0 <= b < n ==> g.edge(a, b) == (if (a == v && b < w || b == v && a
                    < w) && old(g).edge(a, b) is Some {
                    Some(if old(g).edge(a, b) == Some(EType::N) {
                        EType::H
                    } else {
                        EType::N
                    })
                } else {
                    old(g).edge(a, b)
                }),
            g.scalar_io_same(*old(g)),
        decreases n - w,
    {
        if g.connected(v, w) {
            g.toggle_edge_type(v, w);
        }
        w = w + 1;
    }
}

/// A checked color change: flips the spider color and toggles its edges, or
/// does nothing and returns `false` where the check fails.
pub fn color_change(g: &mut Graph, v: V) -> (r: bool)
    requires
        old(g).wf(),
    ensures
        final(g).wf(),
        r == spec_check_color_change(*old(g), v as int),
        !r ==> *final(g) == *old(g),
        r ==> spec_color_change_effect(*old(g), *final(g), v as int),
{
    if check_color_change(g, v) {
        color_change_unchecked(g, v);
        true
    } else {
        false
    }
}

/// Whether `v` is an isolated spider.  Any phase is admitted; one the
/// scalar ring cannot represent marks the scalar invalid on removal.
pub open spec fn spec_check_remove_single(g: Graph, v: int) -> bool {
    &&& g.live(v)
    &&& (g.vd(v).ty == VType::Z || g.vd(v).ty == VType::X)
    &&& g.spec_degree(v) == 0
}

/// Check that [`remove_single_unchecked`] applies: an isolated Z or X
/// spider, whatever its phase.
pub fn check_remove_single(g: &Graph, v: V) -> (r: bool)
    requires
        g.wf(),
    ensures
        r == spec_check_remove_single(*g, v as int),
{
    match g.vertex_type_opt(v) {
        Some(t) => (t == VType::Z || t == VType::X) && g.degree(v) == 0,
        None => false,
    }
}

pub open spec fn spec_remove_single_effect(g0: Graph, g1: Graph, v: int) -> bool {
    &&& ({
        g1.n() == g0.n()
    })
    &&& ({
        forall|w: int| #[trigger] g1.live(w) == (g0.live(w) && w != v)
    })
    &&& ({
        forall|w: int|
            0 <= w < g0.n() && w != v ==> g1.vdata@[w] == #[trigger] g0.vdata@[w]
    })
    &&& ({
        forall|a: int, b: int|
            #![trigger g0.adj@[a]@[b]]
            0 <= a < g0.n() && 0 <= b < g0.n() ==> g1.edge(a, b) == (if a == v || b
                == v {
                None
            } else {
                g0.edge(a, b)
            })
    })
    &&& ({
        g1.inputs@ == g0.inputs@
    })
    &&& ({
        g1.outputs@ == g0.outputs@
    })
    &&& ({
        ({
            let p = g0.vd(v).phase;
            let vars = g0.vd(v).vars;
            if vars == 0 {
                &&& g1.scalar == (if p.exp <= 2 {
                    Scalar4::spec_mul(
                        g0.scalar,
                        Scalar4::spec_add(
                            Scalar4::spec_one(),
                            Scalar4::spec_eighth_unit(Scalar4::spec_eighth_of(p)),
                        ),
                    )
                } else {
                    Scalar4::invalid()
                })
                &&& g1.factors@ == g0.factors@
            } else if p.exp > 2 {
                &&& g1.scalar == Scalar4::invalid()
                &&& g1.factors@ == g0.factors@
            } else {
                &&& g1.scalar == g0.scalar
                &&& g1.factors@ == g0.factors@.push(
                    (
                        Expr::Linear(Parity { mask: vars, neg: true }),
                        Scalar4::spec_add(
                            Scalar4::spec_one(),
                            Scalar4::spec_eighth_unit(Scalar4::spec_eighth_of(p)),
                        ),
                    ),
                ).push(
                    (
                        Expr::Linear(Parity { mask: vars, neg: false }),
                        Scalar4::spec_add(
                            Scalar4::spec_one(),
                            Scalar4::spec_eighth_unit(
                                (Scalar4::spec_eighth_of(p) + 4) % 8,
                            ),
                        ),
                    ),
                )
            }
        })
    })
}

/// Remove an isolated Z or X vertex, folding `1 + exp(i*pi*phase)` into the
/// global scalar; with symbolic variables, the two boolean branches become
/// factors over the negated and asserted parity of its variable set.
pub fn remove_single_unchecked(g: &mut Graph, v: V)
    requires
        old(g).wf(),
        spec_check_remove_single(*old(g), v as int),
    ensures
        final(g).wf(),
        spec_remove_single_effect(*old(g), *final(g), v as int),
{
    let pv = g.phase_and_vars(v);
    let p = pv.0;
    let vars = pv.1;
    if vars == 0 {
        g.scalar_mul_one_plus_phase(p);
    } else if !p.is_eighth() {
        let inv = Scalar4 { c0: 0, c1: 0, c2: 0, c3: 0, pow: 0, ok: false };
        g.scalar_mul(inv);
    } else {
        let p1 = p.add(Phase::pi());
        proof {
            crate::phase::lemma_eighth_val(p);
            crate::phase::lemma_eighth_val(p1);
            lemma_pi_shift_eighth(p, p1);
        }
        let s0 = Scalar4::one_plus_phase(p);
        let s1 = Scalar4::one_plus_phase(p1);
        g.mul_scalar_factor(Expr::linear(Parity::of(vars).negated()), s0);
        g.mul_scalar_factor(Expr::linear(Parity::of(vars)), s1);
    }
    g.remove_vertex(v);
}

/// A checked isolated-spider removal.
pub fn remove_single(g: &mut Graph, v: V) -> (r: bool)
    requires
        old(g).wf(),
    ensures
        final(g).wf(),
        r == spec_check_remove_single(*old(g), v as int),
        !r ==> *final(g) == *old(g),
        r ==> spec_remove_single_effect(*old(g), *final(g), v as int),
{
    if check_remove_single(g, v) {
        remove_single_unchecked(g, v);
        true
    } else {
        false
    }
}

/// Adding `pi` to a `pi/4`-multiple phase advances its eighth index by four,
/// modulo eight.
proof fn lemma_pi_shift_eighth(p: Phase, p1: Phase)
    requires
        p.wf(),
        p1.wf(),
        p.exp <= 2,
        p1.val() == (p.val() + pow2(61)) % (pow2(62) as int),
    ensures
        p1.exp <= 2,
        Scalar4::spec_eighth_of(p1) == (Scalar4::spec_eighth_of(p) + 4) % 8,
{
    vstd::arithmetic::power2::lemma2_to64();
    vstd::arithmetic::power2::lemma2_to64_rest();
    crate::phase::lemma_eighth_val(p);
    let j = Scalar4::spec_eighth_of(p);
    let m59 = pow2(59) as int;
    p.lemma_val_bounds();
    p1.lemma_val_bounds();
    vstd::arithmetic::div_mod::lemma_fundamental_div_mod(p.val(), m59);
    assert(p.val() == j * m59) by {
        assert(p.val() == m59 * j + p.val() % m59);
        assert(m59 * j == j * m59) by (nonlinear_arith);
    };
    assert(0 <= j < 8) by {
        assert(pow2(59) * 8 == pow2(62)) by {
            vstd::arithmetic::power2::lemma_pow2_adds(59, 3);
        };
        if j >= 8 {
            assert(j * m59 >= 8 * m59) by (nonlinear_arith)
                requires
                    j >= 8,
                    m59 > 0,
            ;
        }
        if j < 0 {
            assert(j * m59 < 0) by (nonlinear_arith)
                requires
                    j < 0,
                    m59 > 0,
            ;
        }
    };
    assert(pow2(61) == 4 * m59) by {
        vstd::arithmetic::power2::lemma_pow2_adds(59, 2);
    };
    assert(pow2(62) as int == 8 * m59) by {
        vstd::arithmetic::power2::lemma_pow2_adds(59, 3);
    };
    if j < 4 {
        assert(p.val() + pow2(61) == (j + 4) * m59) by (nonlinear_arith)
            requires
                p.val() == j * m59,
                pow2(61) == 4 * m59,
        ;
        assert(0 <= (j + 4) * m59 < 8 * m59) by (nonlinear_arith)
            requires
                0 <= j < 4,
                m59 > 0,
        ;
        vstd::arithmetic::div_mod::lemma_small_mod(((j + 4) * m59) as nat, (8 * m59) as nat);
        assert(p1.val() == (j + 4) * m59);
        assert(Scalar4::spec_eighth_of(p1) == j + 4) by {
            assert((j + 4) * m59 == m59 * (j + 4)) by (nonlinear_arith);
            vstd::arithmetic::div_mod::lemma_div_multiples_vanish(j + 4, m59);
        };
        assert((j + 4) % 8 == j + 4);
        crate::phase::lemma_eighth_val(p1);
    } else {
        assert(p.val() + pow2(61) == (j + 4) * m59) by (nonlinear_arith)
            requires
                p.val() == j * m59,
                pow2(61) == 4 * m59,
        ;
        assert(p.val() + pow2(61) == 8 * m59 + (j - 4) * m59) by (nonlinear_arith)
            requires
                p.val() + pow2(61) == (j + 4) * m59,
        ;
        assert(0 <= (j - 4) * m59 < 8 * m59) by (nonlinear_arith)
            requires
                4 <= j < 8,
                m59 > 0,
        ;
        assert((8 * m59 + (j - 4) * m59) % (8 * m59) == (j - 4) * m59) by {
            vstd::arithmetic::div_mod::lemma_mod_multiples_vanish(1, (j - 4) * m59, 8 * m59);
            vstd::arithmetic::div_mod::lemma_small_mod(((j - 4) * m59) as nat, (8 * m59) as nat);
        };
        assert(p1.val() == (j - 4) * m59);
        assert(Scalar4::spec_eighth_of(p1) == j - 4) by {
            assert((j - 4) * m59 == m59 * (j - 4)) by (nonlinear_arith);
            vstd::arithmetic::div_mod::lemma_div_multiples_vanish(j - 4, m59);
        };
        assert((j + 4) % 8 == j - 4);
        crate::phase::lemma_eighth_val(p1);
    }
}

/// Whether every neighbor of `v` is the opposite color over a plain edge or
/// the same color over a Hadamard edge.
pub open spec fn spec_pi_copy_nbrs(g: Graph, v: int) -> bool {
    forall|w: int|
        0 <= w < g.n() && (#[trigger] g.edge(v, w)) is Some ==> (g.edge(v, w) == Some(EType::N)
            ==> g.vd(w).ty == (if g.vd(v).ty == VType::Z {
            VType::X
        } else {
            VType::Z
        })) && (g.edge(v, w) == Some(EType::H) ==> g.vd(w).ty == g.vd(v).ty)
}

/// Whether the pi-copy rule applies at `v`.
pub open spec fn spec_check_pi_copy(g: Graph, v: int) -> bool {
    &&& g.live(v)
    &&& (g.vd(v).ty == VType::Z || g.vd(v).ty == VType::X)
    &&& g.spec_degree(v) > 0
    &&& spec_pi_copy_nbrs(g, v)
}

/// Check that [`pi_copy_unchecked`] applies: a spider of positive degree,
/// each neighbor being the opposite color over a plain edge or the same
/// color over a Hadamard edge.
pub fn check_pi_copy(g: &Graph, v: V) -> (r: bool)
    requires
        g.wf(),
    ensures
        r == spec_check_pi_copy(*g, v as int),
{
    let vt = match g.vertex_type_opt(v) {
        Some(t) => t,
        None => {
            return false;
        },
    };
    if vt != VType::Z && vt != VType::X {
        return false;
    }
    if g.degree(v) == 0 {
        return false;
    }
    let ovt = if vt == VType::Z {
        VType::X
    } else {
        VType::Z
    };
    let n = g.num_slots();
    let mut w: usize = 0;
    while w < n
        invariant
            g.wf(),
            g.live(v as int),
            g.vd(v as int).ty == vt,
            ovt == (if vt == VType::Z {
                VType::X
            } else {
                VType::Z
            }),
            n == g.n(),
            w <= n,
            forall|x: int|
                0 <= x < w && (#[trigger] g.edge(v as int, x)) is Some ==> (g.edge(v as int, x)
                    == Some(EType::N) ==> g.vd(x).ty == ovt) && (g.edge(v as int, x) == Some(
                    EType::H,
                ) ==> g.vd(x).ty == vt),
        decreases n - w,
    {
        match g.edge_type_opt(v, w) {
            Some(EType::N) => {
                if g.vertex_type(w) != ovt {
                    return false;
                }
            },
            Some(EType::H) => {
                if g.vertex_type(w) != vt {
                    return false;
                }
            },
            None => {},
        }
        w = w + 1;
    }
    true
}

pub open spec fn spec_pi_copy_effect(g0: Graph, g1: Graph, v: int) -> bool {
    &&& ({
        g1.n() == g0.n()
    })
    &&& ({
        forall|w: int| g1.live(w) == g0.live(w)
    })
    &&& ({
        forall|a: int, b: int|
            #![trigger g0.adj@[a]@[b]]
            0 <= a < g0.n() && 0 <= b < g0.n() ==> g1.edge(a, b) == g0.edge(
                a,
                b,
            )
    })
    &&& ({
        forall|w: int|
            0 <= w < g0.n() && w != v && g0.edge(v, w) is None
                ==> g1.vdata@[w] == #[trigger] g0.vdata@[w]
    })
    &&& ({
        forall|w: int|
            #![trigger g0.adj@[v]@[w]]
            0 <= w < g0.n() && w != v && g0.edge(v, w) is Some ==> {
                &&& g1.vd(w).ty == g0.vd(w).ty
                &&& g1.vd(w).vars == g0.vd(w).vars
                &&& g1.vd(w).row == g0.vd(w).row
                &&& g1.vd(w).qubit == g0.vd(w).qubit
                &&& g1.vd(w).phase.wf()
                &&& g1.vd(w).phase.val() == (g0.vd(w).phase.val() + pow2(61)) % (
                pow2(62) as int)
            }
    })
    &&& ({
        g1.vd(v).ty == g0.vd(v).ty
    })
    &&& ({
        g1.vd(v).vars == g0.vd(v).vars
    })
    &&& ({
        g1.vd(v).phase.wf()
    })
    &&& ({
        g1.vd(v).phase.val() == (0 - g0.vd(v).phase.val()) % (pow2(
            62
        ) as int)
    })
    &&& ({
        g1.scalar == (if g0.vd(v).phase.exp <= 2 {
            Scalar4::spec_mul(
                g0.scalar,
                Scalar4::spec_eighth_unit(Scalar4::spec_eighth_of(g0.vd(v).phase)),
            )
        } else {
            Scalar4::invalid()
        })
    })
    &&& ({
        g1.factors@ == (if g0.vd(v).vars == 0 {
            g0.factors@
        } else {
            g0.factors@.push(
                (
                    Expr::Linear(Parity { mask: g0.vd(v).vars, neg: false }),
                    Scalar4::spec_eighth_unit(4),
                ),
            )
        })
    })
    &&& ({
        g1.inputs@ == g0.inputs@
    })
    &&& ({
        g1.outputs@ == g0.outputs@
    })
}

/// Flip the phase of a spider to its negation, absorbing
/// `exp(i*pi*phase)` into the scalar (and, with symbolic variables, a
/// minus-one factor over their parity), and add `pi` to every neighbor.
pub fn pi_copy_unchecked(g: &mut Graph, v: V)
    requires
        old(g).wf(),
        spec_check_pi_copy(*old(g), v as int),
    ensures
        final(g).wf(),
        spec_pi_copy_effect(*old(g), *final(g), v as int),
{
    let p = g.phase(v);
    g.scalar_mul_phase(p);
    g.set_phase(v, p.neg());
    let vars = g.vars(v);
    if vars != 0 {
        g.mul_scalar_factor(Expr::linear(Parity::of(vars)), Scalar4::minus_one());
    }
    let n = g.num_slots();
    let mut w: usize = 0;
    let pi = Phase::pi();
    while w < n
        invariant
            old(g).wf(),
            g.wf(),
            spec_check_pi_copy(*old(g), v as int),
            n == old(g).n(),
            g.n() == n,
            v < n,
            w <= n,
            pi.wf(),
            pi.val() == pow2(61),
            forall|x: int| g.live(x) == old(g).live(x),
            forall|a: int, b: int|
                #![trigger old(g).adj@[a]@[b]]
                0 <= a < n && 0 <= b < n ==> g.edge(a, b) == old(g).edge(a, b),
            forall|x: int|
                0 <= x < n && x != v && old(g).edge(v as int, x) is None ==> g.vdata@[x]
                    == #[trigger] old(g).vdata@[x],
            forall|x: int|
                #![trigger old(g).adj@[v as int]@[x]]
                0 <= x < n && x != v && old(g).edge(v as int, x) is Some ==> {
                    &&& g.vd(x).ty == old(g).vd(x).ty
                    &&& g.vd(x).vars == old(g).vd(x).vars
                    &&& g.vd(x).row == old(g).vd(x).row
                    &&& g.vd(x).qubit == old(g).vd(x).qubit
                    &&& g.vd(x).phase.wf()
                    &&& g.vd(x).phase.val() == (if x < w {
                        (old(g).vd(x).phase.val() + pow2(61)) % (pow2(62) as int)
                    } else {
                        old(g).vd(x).phase.val()
                    })
                },
            g.vd(v as int).ty == old(g).vd(v as int).ty,
            g.vd(v as int).vars == old(g).vd(v as int).vars,
            g.vd(v as int).phase.wf(),
            g.vd(v as int).phase.val() == (0 - old(g).vd(v as int).phase.val()) % (pow2(
                62,
            ) as int),
            g.scalar == (if old(g).vd(v as int).phase.exp <= 2 {
                Scalar4::spec_mul(
                    old(g).scalar,
                    Scalar4::spec_eighth_unit(
                        Scalar4::spec_eighth_of(old(g).vd(v as int).phase),
                    ),
                )
            } else {
                Scalar4::invalid()
            }),
            g.factors@ == (if old(g).vd(v as int).vars == 0 {
                old(g).factors@
            } else {
                old(g).factors@.push(
                    (
                        Expr::Linear(Parity { mask: old(g).vd(v as int).vars, neg: false }),
                        Scalar4::spec_eighth_unit(4),
                    ),
                )
            }),
            g.inputs@ == old(g).inputs@,
            g.outputs@ == old(g).outputs@,
        decreases n - w,
    {
        if w != v && g.connected(v, w) {
            proof {
                assert(old(g).edge(v as int, w as int) is Some);
                let e = old(g).edge(v as int, w as int).unwrap();
                assert(e == EType::N || e == EType::H);
                if e == EType::N {
                    assert(old(g).edge(v as int, w as int) == Some(EType::N));
                } else {
                    assert(old(g).edge(v as int, w as int) == Some(EType::H));
                }
                assert(old(g).vd(w as int).ty != VType::B);
            }
            g.add_to_phase(w, pi);
        }
        w = w + 1;
    }
}

/// A checked pi-copy.
pub fn pi_copy(g: &mut Graph, v: V) -> (r: bool)
    requires
        old(g).wf(),
    ensures
        final(g).wf(),
        r == spec_check_pi_copy(*old(g), v as int),
        !r ==> *final(g) == *old(g),
        r ==> spec_pi_copy_effect(*old(g), *final(g), v as int),
{
    if check_pi_copy(g, v) {
        pi_copy_unchecked(g, v);
        true
    } else {
        false
    }
}

/// Whether the identity-removal rule applies at `v`: a phaseless,
/// variable-free spider of degree two whose two neighbors, if they are
/// already adjacent, are both spiders (so the combined edge is defined).
pub open spec fn spec_check_remove_id(g: Graph, v: int) -> bool {
    &&& g.live(v)
    &&& (g.vd(v).ty == VType::Z || g.vd(v).ty == VType::X)
    &&& g.vd(v).phase.val() == 0
    &&& g.vd(v).vars == 0
    &&& g.spec_degree(v) == 2
    &&& forall|a: int, b: int|
        0 <= a < g.n() && 0 <= b < g.n() && a != b && g.edge(v, a) is Some && g.edge(v, b) is Some
            && (#[trigger] g.edge(a, b)) is Some ==> (g.vd(a).ty == VType::Z || g.vd(a).ty
            == VType::X) && (g.vd(b).ty == VType::Z || g.vd(b).ty == VType::X)
}

/// Check that [`remove_id_unchecked`] applies.
pub fn check_remove_id(g: &Graph, v: V) -> (r: bool)
    requires
        g.wf(),
    ensures
        r == spec_check_remove_id(*g, v as int),
{
    match g.vertex_data_opt(v) {
        Some(vd) => {
            if !(vd.ty == VType::Z || vd.ty == VType::X) || !vd.phase.is_zero() || vd.vars != 0 {
                return false;
            }
            if g.degree(v) != 2 {
                return false;
            }
            let nslots = g.num_slots();
            let nbrs = g.neighbor_vec(v);
            let n0 = nbrs[0];
            let n1 = nbrs[1];
            proof {
                lemma_two_nbrs(g, v as int, nbrs@);
            }
            if g.connected(n0, n1) {
                let t0 = g.vertex_type(n0);
                let t1 = g.vertex_type(n1);
                (t0 == VType::Z || t0 == VType::X) && (t1 == VType::Z || t1 == VType::X)
            } else {
                true
            }
        },
        None => false,
    }
}

/// A degree-two vertex's neighbor list names exactly its two neighbors.
proof fn lemma_two_nbrs(g: &Graph, v: int, ns: Seq<V>)
    requires
        g.wf(),
        g.n() <= usize::MAX,
        g.live(v),
        ns.len() == 2,
        forall|i: int, j: int| 0 <= i < j < ns.len() ==> ns[i] < ns[j],
        forall|i: int| 0 <= i < ns.len() ==> g.edge(v, #[trigger] ns[i] as int) is Some,
        forall|w: int| 0 <= w < g.n() && g.edge(v, w) is Some ==> ns.contains(w as V),
    ensures
        forall|w: int|
            0 <= w < g.n() && (#[trigger] g.edge(v, w)) is Some ==> w == ns[0] as int || w
                == ns[1] as int,
{
    assert forall|w: int| 0 <= w < g.n() && (#[trigger] g.edge(v, w)) is Some implies w
        == ns[0] as int || w == ns[1] as int by {
        assert(ns.contains(w as V));
        let i = choose|i: int| 0 <= i < ns.len() && ns[i] == w as V;
        assert(i == 0 || i == 1);
    };
}

pub open spec fn spec_remove_id_effect(g0: Graph, g1: Graph, v: int) -> bool {
    &&& ({
        g1.n() == g0.n()
    })
    &&& ({
        forall|w: int| #[trigger] g1.live(w) == (g0.live(w) && w != v)
    })
    &&& ({
        g1.inputs@ == g0.inputs@
    })
    &&& ({
        g1.outputs@ == g0.outputs@
    })
    &&& ({
        g1.factors@ == g0.factors@
    })
    &&& ({
        exists|n0: int, n1: int|
            #![trigger g0.edge(v, n0), g0.edge(v, n1)]
            {
                let e0 = g0.edge(v, n0);
                let e1 = g0.edge(v, n1);
                let newet = (if e0 == e1 {
                    EType::N
                } else {
                    EType::H
                });
                let same = g0.vd(n0).ty == g0.vd(n1).ty;
                let prior = g0.edge(n0, n1);
                &&& 0 <= n0 < g0.n() && 0 <= n1 < g0.n() && n0 < n1
                &&& e0 is Some && e1 is Some
                &&& (forall|w: int|
                    0 <= w < g0.n() && (#[trigger] g0.edge(v, w)) is Some ==> w
                        == n0 || w == n1)
                &&& g1.vdata@[v] is None
                &&& (forall|w: int|
                    0 <= w < g0.n() && w != n0 && w != v ==> g1.vdata@[w]
                        == #[trigger] g0.vdata@[w])
                &&& g1.vd(n0).ty == g0.vd(n0).ty
                &&& g1.vd(n0).vars == g0.vd(n0).vars
                &&& g1.vd(n0).phase.wf()
                &&& g1.vd(n0).phase.val() == (if crate::graph::combined_pi(prior, newet) {
                    (g0.vd(n0).phase.val() + pow2(61)) % (pow2(62) as int)
                } else {
                    g0.vd(n0).phase.val()
                })
                &&& (forall|a: int, b: int|
                    #![trigger g0.adj@[a]@[b]]
                    0 <= a < g0.n() && 0 <= b < g0.n() ==> g1.edge(a, b) == (if a
                        == v || b == v {
                        None
                    } else if a == n0 && b == n1 || a == n1 && b == n0 {
                        crate::graph::combined_edge(same, prior, newet)
                    } else {
                        g0.edge(a, b)
                    }))
                &&& g1.scalar == (if crate::graph::combined_pow(same, prior, newet) == 0 {
                    g0.scalar
                } else {
                    Scalar4::spec_mul(
                        g0.scalar,
                        Scalar4 {
                            c0: 1,
                            c1: 0,
                            c2: 0,
                            c3: 0,
                            pow: crate::graph::combined_pow(same, prior, newet) as i64,
                            ok: true,
                        },
                    )
                })
            }
    })
}

/// Remove a degree-two spider with zero phase, joining its two neighbors by
/// the parity-combined edge kind: two like wires make a plain wire, a plain
/// and a Hadamard wire make a Hadamard wire.
pub fn remove_id_unchecked(g: &mut Graph, v: V)
    requires
        old(g).wf(),
        spec_check_remove_id(*old(g), v as int),
    ensures
        final(g).wf(),
        spec_remove_id_effect(*old(g), *final(g), v as int),
{
    let nslots = g.num_slots();
    let nbrs = g.incident_edge_vec(v);
    let n0 = nbrs[0].0;
    let et0 = nbrs[0].1;
    let n1 = nbrs[1].0;
    let et1 = nbrs[1].1;
    let newet = if et0 == et1 {
        EType::N
    } else {
        EType::H
    };
    proof {
        lemma_two_inc_nbrs(g, v as int, nbrs@);
        assert(old(g).edge(v as int, n0 as int) is Some);
        assert(old(g).edge(v as int, n1 as int) is Some);
        assert(old(g).adj@[v as int]@[n0 as int] is Some);
        assert(old(g).adj@[v as int]@[n1 as int] is Some);
        assert(old(g).live(n0 as int));
        assert(old(g).live(n1 as int));
        assert(n0 != v && n1 != v && n0 < n1);
        assert(old(g).edge(n0 as int, n1 as int) == old(g).adj@[n0 as int]@[n1 as int]);
        if old(g).edge(n0 as int, n1 as int) is Some {
            assert((old(g).vd(n0 as int).ty == VType::Z || old(g).vd(n0 as int).ty == VType::X)
                && (old(g).vd(n1 as int).ty == VType::Z || old(g).vd(n1 as int).ty
                == VType::X));
        }
    }
    g.remove_vertex(v);
    g.add_edge_smart(n0, n1, newet);
    proof {
        let gn0 = n0 as int;
        let gn1 = n1 as int;
        let e0 = old(g).edge(v as int, gn0);
        let e1 = old(g).edge(v as int, gn1);
        let same = old(g).vd(gn0).ty == old(g).vd(gn1).ty;
        let prior = old(g).edge(gn0, gn1);
        assert(forall|w: int|
            0 <= w < old(g).n() && (#[trigger] old(g).edge(v as int, w)) is Some ==> w == gn0
                || w == gn1);
        assert(g.vdata@[v as int] is None);
        assert(forall|w: int|
            0 <= w < old(g).n() && w != gn0 && w != v ==> g.vdata@[w] == #[trigger] old(
                g,
            ).vdata@[w]);
        assert(forall|a: int, b: int|
            #![trigger old(g).adj@[a]@[b]]
            0 <= a < old(g).n() && 0 <= b < old(g).n() ==> g.edge(a, b) == (if a == v as int || b
                == v as int {
                None
            } else if a == gn0 && b == gn1 || a == gn1 && b == gn0 {
                crate::graph::combined_edge(same, prior, newet)
            } else {
                old(g).edge(a, b)
            }));
    }
}

/// A degree-two vertex's incident-edge list names exactly its two edges.
proof fn lemma_two_inc_nbrs(g: &Graph, v: int, ns: Seq<(V, EType)>)
    requires
        g.wf(),
        g.n() <= usize::MAX,
        g.live(v),
        ns.len() == 2,
        forall|i: int, j: int| 0 <= i < j < ns.len() ==> ns[i].0 < ns[j].0,
        forall|i: int|
            0 <= i < ns.len() ==> g.edge(v, (#[trigger] ns[i]).0 as int) == Some(ns[i].1),
        forall|w: int|
            0 <= w < g.n() && g.edge(v, w) is Some ==> exists|i: int|
                0 <= i < ns.len() && (#[trigger] ns[i]).0 == w,
    ensures
        forall|w: int|
            0 <= w < g.n() && (#[trigger] g.edge(v, w)) is Some ==> w == ns[0].0 as int || w
                == ns[1].0 as int,
        ns[0].0 != v && ns[1].0 != v,
        g.edge(v, ns[0].0 as int) == Some(ns[0].1),
        g.edge(v, ns[1].0 as int) == Some(ns[1].1),
{
    assert forall|w: int| 0 <= w < g.n() && (#[trigger] g.edge(v, w)) is Some implies w
        == ns[0].0 as int || w == ns[1].0 as int by {
        let i = choose|i: int| 0 <= i < ns.len() && (#[trigger] ns[i]).0 == w;
        assert(i == 0 || i == 1);
    };
    assert(g.edge(v, v) is None);
}

/// A checked identity removal.
pub fn remove_id(g: &mut Graph, v: V) -> (r: bool)
    requires
        old(g).wf(),
    ensures
        final(g).wf(),
        r == spec_check_remove_id(*old(g), v as int),
        !r ==> *final(g) == *old(g),
        r ==> spec_remove_id_effect(*old(g), *final(g), v as int),
{
    if check_remove_id(g, v) {
        remove_id_unchecked(g, v);
        true
    } else {
        false
    }
}

/// The number of `w < upto` whose reconnection during fusion of `v1` into
/// `v0` combines a mixed parallel pair and so pushes a `pi` onto `v0`.
pub open spec fn fusion_mix_cnt(g: Graph, v0: int, v1: int, upto: int) -> nat
    decreases upto,
{
    if upto <= 0 {
        0
    } else {
        fusion_mix_cnt(g, v0, v1, upto - 1) + (if upto - 1 != v0 && upto - 1 != v1 && g.edge(
            v1,
            upto - 1,
        ) is Some && crate::graph::combined_pi(g.edge(v0, upto - 1), g.edge(v1, upto - 1).unwrap()) {
            1nat
        } else {
            0nat
        })
    }
}

/// The total power of `sqrt(2)` contributed by the edge combinations when
/// `v1`'s neighbors below `upto` are reconnected to `v0`.
pub open spec fn fusion_pow_sum(g: Graph, v0: int, v1: int, upto: int) -> int
    decreases upto,
{
    if upto <= 0 {
        0
    } else {
        fusion_pow_sum(g, v0, v1, upto - 1) + (if upto - 1 != v0 && upto - 1 != v1 && g.edge(
            v1,
            upto - 1,
        ) is Some {
            crate::graph::combined_pow(
                g.vd(v0).ty == g.vd(upto - 1).ty,
                g.edge(v0, upto - 1),
                g.edge(v1, upto - 1).unwrap(),
            )
        } else {
            0
        })
    }
}

/// Each combination contributes a power between `-2` and `0`.
proof fn lemma_fusion_pow_bounds(g: Graph, v0: int, v1: int, upto: int)
    ensures
        0 - 2 * (if upto > 0 {
            upto
        } else {
            0
        }) <= fusion_pow_sum(g, v0, v1, upto) <= 0,
    decreases upto,
{
    if upto > 0 {
        lemma_fusion_pow_bounds(g, v0, v1, upto - 1);
    }
}

pub open spec fn spec_spider_fusion_effect(g0: Graph, g1: Graph, v0: int, v1: int) -> bool {
    &&& ({
        g1.n() == g0.n()
    })
    &&& ({
        forall|w: int| #[trigger] g1.live(w) == (g0.live(w) && w != v1)
    })
    &&& ({
        g1.vdata@[v1] is None
    })
    &&& ({
        forall|w: int|
            0 <= w < g0.n() && w != v0 && w != v1 ==> g1.vdata@[w] == #[trigger] g0.vdata@[w]
    })
    &&& ({
        g1.vd(v0).ty == g0.vd(v0).ty
    })
    &&& ({
        g1.vd(v0).row == g0.vd(v0).row
    })
    &&& ({
        g1.vd(v0).qubit == g0.vd(v0).qubit
    })
    &&& ({
        g1.vd(v0).vars == g0.vd(v0).vars ^ g0.vd(v1).vars
    })
    &&& ({
        g1.vd(v0).phase.wf()
    })
    &&& ({
        g1.vd(v0).phase.val() == (g0.vd(v0).phase.val() + g0.vd(
            v1
        ).phase.val() + fusion_mix_cnt(g0, v0, v1, g0.n()) * pow2(61)) % (
        pow2(62) as int)
    })
    &&& ({
        forall|a: int, b: int|
            #![trigger g0.adj@[a]@[b]]
            0 <= a < g0.n() && 0 <= b < g0.n() && a != v0 && b != v0 ==> g1.edge(
                a,
                b,
            ) == (if a == v1 || b == v1 {
                None
            } else {
                g0.edge(a, b)
            })
    })
    &&& ({
        forall|w: int|
            #![trigger g0.adj@[v1]@[w]]
            0 <= w < g0.n() && w != v0 && w != v1 ==> g1.edge(v0, w) == (if g0.edge(v1, w) is Some {
                crate::graph::combined_edge(
                    g0.vd(v0).ty == g0.vd(w).ty,
                    g0.edge(v0, w),
                    g0.edge(v1, w).unwrap(),
                )
            } else {
                g0.edge(v0, w)
            })
    })
    &&& ({
        g1.edge(v0, v1) is None
    })
    &&& ({
        g1.scalar == (if fusion_pow_sum(g0, v0, v1, g0.n()) == 0 {
            g0.scalar
        } else {
            Scalar4::spec_mul(
                g0.scalar,
                crate::scalar::sq_unit(
                    fusion_pow_sum(g0, v0, v1, g0.n()),
                ),
            )
        })
    })
    &&& ({
        g1.factors@ == g0.factors@
    })
    &&& ({
        g1.inputs@ == g0.inputs@
    })
    &&& ({
        g1.outputs@ == g0.outputs@
    })
}

/// Fuse `v1` into `v0`: every other neighbor of `v1` is reconnected to `v0`
/// by smart edge addition, `v1`'s phase and variables are folded into `v0`,
/// and `v1` is deleted.  Mixed parallel pairs leave their `pi` phases and
/// `sqrt(2)` powers behind, counted by [`fusion_mix_cnt`] and
/// [`fusion_pow_sum`].
pub fn spider_fusion_unchecked(g: &mut Graph, v0: V, v1: V)
    requires
        old(g).wf(),
        old(g).n() <= 0x1000_0000_0000_0000,
        spec_check_spider_fusion(*old(g), v0 as int, v1 as int),
    ensures
        final(g).wf(),
        spec_spider_fusion_effect(*old(g), *final(g), v0 as int, v1 as int),
{
    let n = g.num_slots();
    let mut w: usize = 0;
    proof {
        assert(old(g).adj@[v0 as int]@[v1 as int] is Some);
        assert(old(g).live(v0 as int) && old(g).live(v1 as int));
        old(g).vd(v0 as int).phase.lemma_val_bounds();
        vstd::arithmetic::div_mod::lemma_small_mod(
            old(g).vd(v0 as int).phase.val() as nat,
            pow2(62),
        );
        assert(0 * pow2(61) == 0) by (nonlinear_arith);
    }
    while w < n
        invariant
            old(g).wf(),
            g.wf(),
            spec_check_spider_fusion(*old(g), v0 as int, v1 as int),
            old(g).live(v0 as int) && old(g).live(v1 as int),
            n == old(g).n(),
            n <= 0x1000_0000_0000_0000,
            g.n() == n,
            v0 < n,
            v1 < n,
            w <= n,
            forall|x: int| g.live(x) == old(g).live(x),
            forall|x: int|
                0 <= x < n && x != v0 ==> g.vdata@[x] == #[trigger] old(g).vdata@[x],
            g.vd(v0 as int).ty == old(g).vd(v0 as int).ty,
            g.vd(v0 as int).row == old(g).vd(v0 as int).row,
            g.vd(v0 as int).qubit == old(g).vd(v0 as int).qubit,
            g.vd(v0 as int).vars == old(g).vd(v0 as int).vars,
            g.vd(v0 as int).phase.wf(),
            g.vd(v0 as int).phase.val() == (old(g).vd(v0 as int).phase.val() + fusion_mix_cnt(
                *old(g),
                v0 as int,
                v1 as int,
                w as int,
            ) * pow2(61)) % (pow2(62) as int),
            forall|a: int, b: int|
                #![trigger old(g).adj@[a]@[b]]
                0 <= a < n && 0 <= b < n && a != v0 && b != v0 ==> g.edge(a, b) == old(g).edge(
                    a,
                    b,
                ),
            forall|x: int|
                #![trigger old(g).adj@[v0 as int]@[x]]
                0 <= x < n ==> g.edge(v0 as int, x) == (if x < w && x != v0 && x != v1 && old(
                    g,
                ).edge(v1 as int, x) is Some {
                    crate::graph::combined_edge(
                        old(g).vd(v0 as int).ty == old(g).vd(x).ty,
                        old(g).edge(v0 as int, x),
                        old(g).edge(v1 as int, x).unwrap(),
                    )
                } else {
                    old(g).edge(v0 as int, x)
                }),
            g.scalar == (if fusion_pow_sum(*old(g), v0 as int, v1 as int, w as int) == 0 {
                old(g).scalar
            } else {
                Scalar4::spec_mul(
                    old(g).scalar,
                    crate::scalar::sq_unit(
                        fusion_pow_sum(*old(g), v0 as int, v1 as int, w as int),
                    ),
                )
            }),
            g.factors@ == old(g).factors@,
            g.inputs@ == old(g).inputs@,
            g.outputs@ == old(g).outputs@,
        decreases n - w,
    {
        proof {
            lemma_fusion_pow_bounds(*old(g), v0 as int, v1 as int, w as int);
        }
        if w != v0 && w != v1 {
            match g.edge_type_opt(v1, w) {
                Some(et) => {
                    proof {
                        assert(old(g).edge(v1 as int, w as int) == Some(et));
                        assert(old(g).adj@[v1 as int]@[w as int] is Some);
                        assert(old(g).live(w as int));
                        if old(g).edge(v0 as int, w as int) is Some {
                            assert(old(g).adj@[v0 as int]@[w as int] is Some);
                        }
                        assert(g.edge(v0 as int, w as int) == old(g).edge(v0 as int, w as int));
                        assert(g.vd(w as int).ty == old(g).vd(w as int).ty);
                        if old(g).edge(v0 as int, w as int) is Some {
                            assert(old(g).vd(w as int).ty == VType::Z || old(g).vd(
                                w as int,
                            ).ty == VType::X);
                        }
                    }
                    g.add_edge_smart(v0, w, et);
                    proof {
                        let ps = fusion_pow_sum(*old(g), v0 as int, v1 as int, w as int);
                        let d = crate::graph::combined_pow(
                            old(g).vd(v0 as int).ty == old(g).vd(w as int).ty,
                            old(g).edge(v0 as int, w as int),
                            et,
                        );
                        if d != 0 {
                            if ps != 0 {
                                crate::scalar::lemma_sqrt2_chain(old(g).scalar, ps, d);
                            }
                        }
                        let c = fusion_mix_cnt(*old(g), v0 as int, v1 as int, w as int);
                        if crate::graph::combined_pi(old(g).edge(v0 as int, w as int), et) {
                            lemma_mod_add_step(
                                old(g).vd(v0 as int).phase.val(),
                                c as int,
                            );
                        }
                    }
                },
                None => {},
            }
        }
        w = w + 1;
    }
    let pv = g.phase_and_vars(v1);
    proof {
        assert(g.vd(v1 as int).phase == old(g).vd(v1 as int).phase);
        lemma_mod_add_final(
            old(g).vd(v0 as int).phase.val(),
            old(g).vd(v1 as int).phase.val(),
            fusion_mix_cnt(*old(g), v0 as int, v1 as int, n as int) as int,
        );
    }
    g.add_to_phase(v0, pv.0);
    g.add_to_vars(v0, pv.1);
    g.remove_vertex(v1);
}

/// Appending one more `pi` to an accumulated sum modulo `2*pi`.
proof fn lemma_mod_add_step(base: int, c: int)
    requires
        c >= 0,
    ensures
        ((base + c * pow2(61)) % (pow2(62) as int) + pow2(61)) % (pow2(62) as int) == (base + (c
            + 1) * pow2(61)) % (pow2(62) as int),
{
    let m = pow2(62) as int;
    vstd::arithmetic::power2::lemma_pow2_pos(62);
    vstd::arithmetic::div_mod::lemma_add_mod_noop(base + c * pow2(61), pow2(61) as int, m);
    vstd::arithmetic::div_mod::lemma_mod_twice(base + c * pow2(61), m);
    assert(pow2(61) as int % m == pow2(61)) by {
        vstd::arithmetic::power2::lemma_pow2_strictly_increases(61, 62);
        vstd::arithmetic::div_mod::lemma_small_mod(pow2(61), pow2(62));
    };
    vstd::arithmetic::div_mod::lemma_add_mod_noop(
        (base + c * pow2(61)) % m,
        pow2(61) as int % m,
        m,
    );
    assert(base + c * pow2(61) + pow2(61) == base + (c + 1) * pow2(61)) by (nonlinear_arith);
}

/// Folding the fused phase into the accumulated sum modulo `2*pi`.
proof fn lemma_mod_add_final(p0: int, p1: int, c: int)
    requires
        c >= 0,
    ensures
        ((p0 + c * pow2(61)) % (pow2(62) as int) + p1) % (pow2(62) as int) == (p0 + p1 + c * pow2(
            61,
        )) % (pow2(62) as int),
{
    let m = pow2(62) as int;
    vstd::arithmetic::power2::lemma_pow2_pos(62);
    vstd::arithmetic::div_mod::lemma_add_mod_noop(p0 + c * pow2(61), p1, m);
    vstd::arithmetic::div_mod::lemma_mod_twice(p0 + c * pow2(61), m);
    vstd::arithmetic::div_mod::lemma_add_mod_noop((p0 + c * pow2(61)) % m, p1 % m, m);
    vstd::arithmetic::div_mod::lemma_mod_twice(p1, m);
    vstd::arithmetic::div_mod::lemma_add_mod_noop((p0 + c * pow2(61)) % m, p1, m);
}

/// A checked spider fusion: `v0` absorbs `v1`, or nothing happens and
/// `false` comes back.
pub fn spider_fusion(g: &mut Graph, v0: V, v1: V) -> (r: bool)
    requires
        old(g).wf(),
        old(g).n() <= 0x1000_0000_0000_0000,
    ensures
        final(g).wf(),
        r == spec_check_spider_fusion(*old(g), v0 as int, v1 as int),
        !r ==> *final(g) == *old(g),
        r ==> spec_spider_fusion_effect(*old(g), *final(g), v0 as int, v1 as int),
{
    if check_spider_fusion(g, v0, v1) {
        spider_fusion_unchecked(g, v0, v1);
        true
    } else {
        false
    }
}

/// Whether every incident edge of `v` is a Hadamard edge to a Z-spider.
pub open spec fn spec_nbrs_z_h(g: Graph, v: int) -> bool {
    forall|w: int|
        0 <= w < g.n() && (#[trigger] g.edge(v, w)) is Some ==> g.vd(w).ty == VType::Z && g.edge(
            v,
            w,
        ) == Some(EType::H)
}

/// Whether the local complementation rule applies at `v`: a Z-spider with a
/// proper Clifford phase whose every neighbor is a Z-spider over a Hadamard
/// edge.
pub open spec fn spec_check_local_comp(g: Graph, v: int) -> bool {
    &&& g.live(v)
    &&& g.vd(v).ty == VType::Z
    &&& (g.vd(v).phase.val() == pow2(60) || g.vd(v).phase.val() == 3 * pow2(60))
    &&& spec_nbrs_z_h(g, v)
}

/// An executable scan: every incident edge of `v` is Hadamard to a Z-spider.
fn nbrs_all_z_h(g: &Graph, v: V) -> (r: bool)
    requires
        g.wf(),
        g.live(v as int),
    ensures
        r == spec_nbrs_z_h(*g, v as int),
{
    let n = g.num_slots();
    let mut w: usize = 0;
    while w < n
        invariant
            g.wf(),
            g.live(v as int),
            n == g.n(),
            w <= n,
            forall|x: int|
                0 <= x < w && (#[trigger] g.edge(v as int, x)) is Some ==> g.vd(x).ty == VType::Z
                    && g.edge(v as int, x) == Some(EType::H),
        decreases n - w,
    {
        match g.edge_type_opt(v, w) {
            Some(et) => {
                if et != EType::H || g.vertex_type(w) != VType::Z {
                    return false;
                }
            },
            None => {},
        }
        w = w + 1;
    }
    true
}

/// Check that [`local_comp_unchecked`] applies.
pub fn check_local_comp(g: &Graph, v: V) -> (r: bool)
    requires
        g.wf(),
    ensures
        r == spec_check_local_comp(*g, v as int),
{
    match g.vertex_data_opt(v) {
        Some(vd) => vd.ty == VType::Z && vd.phase.is_proper_clifford() && nbrs_all_z_h(g, v),
        None => false,
    }
}

/// What the local-complementation surgery itself needs: a Z-spider whose
/// phase the scalar ring can halve, with only Z-spiders as neighbors.  The
/// full check demands more (a proper Clifford phase and Hadamard edges);
/// the generalized rules reuse the surgery on Pauli vertices.
pub open spec fn spec_local_comp_pre(g: Graph, v: int) -> bool {
    &&& g.live(v)
    &&& g.vd(v).ty == VType::Z
    &&& g.vd(v).phase.exp <= 1
    &&& (forall|w: int|
        0 <= w < g.n() && (#[trigger] g.edge(v, w)) is Some ==> g.vd(w).ty == VType::Z)
}

/// The full check implies the surgery's own precondition.
pub proof fn lemma_check_implies_local_comp_pre(g: Graph, v: int)
    requires
        g.wf(),
        spec_check_local_comp(g, v),
    ensures
        spec_local_comp_pre(g, v),
{
    crate::phase::lemma_clifford_cases(g.vd(v).phase);
}

/// Whether no two neighbors of `v` are joined by an edge of their own.
/// Every edge the complementation then adds is fresh, so no parallel-edge
/// combination fires: no `pi` lands on a neighbor beyond the negated phase,
/// and no power of `sqrt(2)` enters the scalar from the surgery itself.
pub open spec fn spec_lc_clean(g: Graph, v: int) -> bool {
    forall|a: int, b: int|
        #![trigger g.adj@[a]@[b]]
        0 <= a < g.n() && 0 <= b < g.n() && g.edge(v, a) is Some && g.edge(v, b) is Some
            ==> g.edge(a, b) is None
}

/// The frame shared by local complementation: everything away from `v` and
/// its neighborhood is untouched, neighbors keep their identity and gain
/// `v`'s variables, neighbor pairs get a combined Hadamard edge, and `v` is
/// gone.  On a clean neighborhood ([`spec_lc_clean`]) the neighbor phases
/// and the scalar are pinned exactly: each neighbor gains the negated
/// phase, and the scalar is multiplied by `sqrt(2)^((k-1)(k-2)/2)` and by
/// `exp(i*pi*phase/2)` for `k` neighbors.
pub open spec fn spec_local_comp_shape(g0: Graph, g1: Graph, v: int) -> bool {
    &&& g1.n() == g0.n()
    &&& (forall|w: int| #[trigger] g1.live(w) == (g0.live(w) && w != v))
    &&& g1.vdata@[v] is None
    &&& (forall|w: int|
        0 <= w < g0.n() && w != v && g0.edge(v, w) is None ==> g1.vdata@[w] == #[trigger] g0.vdata@[w])
    &&& (forall|w: int|
        #![trigger g0.adj@[v]@[w]]
        0 <= w < g0.n() && g0.edge(v, w) is Some ==> {
            &&& g1.vd(w).ty == g0.vd(w).ty
            &&& g1.vd(w).row == g0.vd(w).row
            &&& g1.vd(w).qubit == g0.vd(w).qubit
            &&& g1.vd(w).vars == (g0.vd(w).vars ^ g0.vd(v).vars)
            &&& g1.vd(w).phase.wf()
        })
    &&& (forall|a: int, b: int|
        #![trigger g0.adj@[a]@[b]]
        0 <= a < g0.n() && 0 <= b < g0.n() && (a == v || b == v) ==> g1.edge(a, b) is None)
    &&& (forall|a: int, b: int|
        #![trigger g0.adj@[a]@[b]]
        0 <= a < g0.n() && 0 <= b < g0.n() && a != v && b != v && (g0.edge(v, a) is None || g0.edge(
            v,
            b,
        ) is None) ==> g1.edge(a, b) == g0.edge(a, b))
    &&& (forall|a: int, b: int|
        #![trigger g0.adj@[a]@[b]]
        0 <= a < g0.n() && 0 <= b < g0.n() && a != b && g0.edge(v, a) is Some && g0.edge(v, b)
            is Some ==> g1.edge(a, b) == crate::graph::combined_edge(true, g0.edge(a, b), EType::H))
    &&& g1.inputs@ == g0.inputs@
    &&& g1.outputs@ == g0.outputs@
    &&& g1.scalar.wf()
    &&& g1.factors@ == (if g0.vd(v).vars == 0 {
        g0.factors@
    } else {
        g0.factors@.push(
            (
                Expr::Linear(Parity { mask: g0.vd(v).vars, neg: false }),
                Scalar4::spec_eighth_unit((8 - Scalar4::spec_eighth_of(g0.vd(v).phase)) % 8),
            ),
        )
    })
    &&& (spec_lc_clean(g0, v) ==> {
        &&& (forall|w: int|
            #![trigger g0.adj@[v]@[w]]
            0 <= w < g0.n() && g0.edge(v, w) is Some ==> g1.vd(w).phase.val() == (g0.vd(
                w,
            ).phase.val() + ((0 - g0.vd(v).phase.val()) % (pow2(62) as int))) % (pow2(62) as int))
        &&& g1.scalar == Scalar4::spec_mul(
            Scalar4::spec_mul(
                g0.scalar,
                crate::scalar::sq_unit(
                    ((g0.spec_degree(v) - 1) * (g0.spec_degree(v) - 2)) / 2,
                ),
            ),
            Scalar4::spec_eighth_unit(g0.vd(v).phase.val() / (pow2(60) as int)),
        )
    })
}

/// Apply a local complementation at `v`: negate its phase onto each
/// neighbor (with its variables), connect every pair of distinct neighbors
/// by a combined Hadamard edge, delete `v`, and multiply the scalar by
/// `sqrt(2)^((k-1)(k-2)/2) * exp(i*pi*phase/2)` for `k` neighbors, with a
/// symbolic factor `exp(-i*pi*phase)` over `v`'s variables when present.
///
/// The contract pins the structural surgery, the variable unions and the
/// symbolic factor exactly, and, on a clean neighborhood
/// ([`spec_lc_clean`]), the neighbor phases and the scalar too.  Where
/// neighbors are already joined, parallel-edge combination adds further
/// `pi` shifts and powers of `sqrt(2)`; those runs are stated as
/// well-formed only and exercised against the exact tensor denotation in
/// the test suite.
pub fn local_comp_unchecked(g: &mut Graph, v: V)
    requires
        old(g).wf(),
        old(g).n() <= 0x8000_0000,
        spec_local_comp_pre(*old(g), v as int),
    ensures
        final(g).wf(),
        spec_local_comp_shape(*old(g), *final(g), v as int),
{
    let p = g.phase(v);
    let vars = g.vars(v);
    let negp = p.neg();
    let ns = g.neighbor_vec(v);
    let k = ns.len();
    proof {
        assert(forall|i: int|
            0 <= i < ns@.len() ==> old(g).edge(v as int, (#[trigger] ns@[i]) as int) is Some);
    }
    let mut i: usize = 0;
    while i < k
        invariant
            old(g).wf(),
            g.wf(),
            spec_local_comp_pre(*old(g), v as int),
            old(g).n() <= 0x8000_0000,
            g.n() == old(g).n(),
            v < old(g).n(),
            i <= k,
            k == ns@.len(),
            negp.wf(),
            negp.val() == (0 - old(g).vd(v as int).phase.val()) % (pow2(62) as int),
            vars == old(g).vd(v as int).vars,
            forall|a: int, b: int| 0 <= a < b < k ==> ns@[a] < ns@[b],
            forall|a: int| 0 <= a < k ==> (#[trigger] ns@[a] as int) < old(g).n(),
            forall|a: int| 0 <= a < k ==> old(g).edge(v as int, #[trigger] ns@[a] as int) is Some,
            forall|w: int|
                0 <= w < old(g).n() && old(g).edge(v as int, w) is Some ==> ns@.contains(w as V),
            forall|x: int| g.live(x) == old(g).live(x),
            g.vdata@[v as int] == old(g).vdata@[v as int],
            forall|w: int|
                0 <= w < old(g).n() && w != v && old(g).edge(v as int, w) is None ==> g.vdata@[w]
                    == #[trigger] old(g).vdata@[w],
            forall|w: int|
                #![trigger old(g).adj@[v as int]@[w]]
                0 <= w < old(g).n() && old(g).edge(v as int, w) is Some ==> {
                    &&& g.vd(w).ty == old(g).vd(w).ty
                    &&& g.vd(w).row == old(g).vd(w).row
                    &&& g.vd(w).qubit == old(g).vd(w).qubit
                    &&& g.vd(w).phase.wf()
                    &&& (ns@.contains(w as V) && (exists|a: int|
                        0 <= a < i && ns@[a] == w as V) ==> g.vd(w).vars == (old(g).vd(w).vars
                        ^ old(g).vd(v as int).vars))
                    &&& ((forall|a: int| 0 <= a < i ==> ns@[a] != w as V) ==> g.vd(w).vars == old(
                        g,
                    ).vd(w).vars)
                    &&& (spec_lc_clean(*old(g), v as int) && (exists|a: int|
                        0 <= a < i && ns@[a] == w as V) ==> g.vd(w).phase.val() == (old(g).vd(
                        w,
                    ).phase.val() + negp.val()) % (pow2(62) as int))
                    &&& (spec_lc_clean(*old(g), v as int) && (forall|a: int|
                        0 <= a < i ==> ns@[a] != w as V) ==> g.vd(w).phase == old(g).vd(w).phase)
                },
            forall|a: int, b: int|
                #![trigger old(g).adj@[a]@[b]]
                0 <= a < old(g).n() && 0 <= b < old(g).n() && (a == v || b == v) ==> g.edge(a, b)
                    == old(g).edge(a, b),
            forall|a: int, b: int|
                #![trigger old(g).adj@[a]@[b]]
                0 <= a < old(g).n() && 0 <= b < old(g).n() && a != v && b != v && (old(g).edge(
                    v as int,
                    a,
                ) is None || old(g).edge(v as int, b) is None) ==> g.edge(a, b) == old(g).edge(
                    a,
                    b,
                ),
            forall|x: int, y: int|
                #![trigger old(g).adj@[ns@[x] as int]@[ns@[y] as int]]
                0 <= x < k && 0 <= y < k && x != y ==> g.edge(ns@[x] as int, ns@[y] as int) == (
                if x < i && y > x || y < i && x > y {
                    crate::graph::combined_edge(
                        true,
                        old(g).edge(ns@[x] as int, ns@[y] as int),
                        EType::H,
                    )
                } else {
                    old(g).edge(ns@[x] as int, ns@[y] as int)
                }),
            g.scalar.wf(),
            spec_lc_clean(*old(g), v as int) ==> g.scalar == old(g).scalar,
            g.factors@ == old(g).factors@,
            g.inputs@ == old(g).inputs@,
            g.outputs@ == old(g).outputs@,
        decreases k - i,
    {
        let ni = ns[i];
        proof {
            assert(old(g).edge(v as int, ni as int) is Some);
            assert(old(g).vd(ni as int).ty == VType::Z);
        }
        g.add_to_phase(ni, negp);
        if vars != 0 {
            g.add_to_vars(ni, vars);
        }
        proof {
            if vars == 0 {
                let w0 = old(g).vd(ni as int).vars;
                assert(w0 ^ 0u64 == w0) by (bit_vector);
            }
        }
        let mut j: usize = i + 1;
        while j < k
            invariant
                old(g).wf(),
                g.wf(),
                spec_local_comp_pre(*old(g), v as int),
                g.n() == old(g).n(),
                v < old(g).n(),
                i < k,
                i < j <= k,
                k == ns@.len(),
                ni == ns@[i as int],
                negp.wf(),
                negp.val() == (0 - old(g).vd(v as int).phase.val()) % (pow2(62) as int),
                forall|a: int, b: int| 0 <= a < b < k ==> ns@[a] < ns@[b],
                forall|a: int| 0 <= a < k ==> (#[trigger] ns@[a] as int) < old(g).n(),
                forall|a: int|
                    0 <= a < k ==> old(g).edge(v as int, #[trigger] ns@[a] as int) is Some,
                forall|x: int| g.live(x) == old(g).live(x),
                g.vdata@[v as int] == old(g).vdata@[v as int],
                forall|w: int|
                    0 <= w < old(g).n() && w != v && old(g).edge(v as int, w) is None
                        ==> g.vdata@[w] == #[trigger] old(g).vdata@[w],
                forall|w: int|
                    #![trigger old(g).adj@[v as int]@[w]]
                    0 <= w < old(g).n() && old(g).edge(v as int, w) is Some ==> {
                        &&& g.vd(w).ty == old(g).vd(w).ty
                        &&& g.vd(w).row == old(g).vd(w).row
                        &&& g.vd(w).qubit == old(g).vd(w).qubit
                        &&& g.vd(w).phase.wf()
                        &&& (ns@.contains(w as V) && (exists|a: int|
                            0 <= a <= i && ns@[a] == w as V) ==> g.vd(w).vars == (old(g).vd(
                            w,
                        ).vars ^ old(g).vd(v as int).vars))
                        &&& ((forall|a: int| 0 <= a <= i ==> ns@[a] != w as V) ==> g.vd(w).vars
                            == old(g).vd(w).vars)
                        &&& (spec_lc_clean(*old(g), v as int) && (exists|a: int|
                            0 <= a <= i && ns@[a] == w as V) ==> g.vd(w).phase.val() == (old(
                            g,
                        ).vd(w).phase.val() + negp.val()) % (pow2(62) as int))
                        &&& (spec_lc_clean(*old(g), v as int) && (forall|a: int|
                            0 <= a <= i ==> ns@[a] != w as V) ==> g.vd(w).phase == old(g).vd(
                            w,
                        ).phase)
                    },
                forall|a: int, b: int|
                    #![trigger old(g).adj@[a]@[b]]
                    0 <= a < old(g).n() && 0 <= b < old(g).n() && (a == v || b == v) ==> g.edge(
                        a,
                        b,
                    ) == old(g).edge(a, b),
                forall|a: int, b: int|
                    #![trigger old(g).adj@[a]@[b]]
                    0 <= a < old(g).n() && 0 <= b < old(g).n() && a != v && b != v && (old(
                        g,
                    ).edge(v as int, a) is None || old(g).edge(v as int, b) is None) ==> g.edge(
                        a,
                        b,
                    ) == old(g).edge(a, b),
                forall|x: int, y: int|
                    #![trigger old(g).adj@[ns@[x] as int]@[ns@[y] as int]]
                    0 <= x < k && 0 <= y < k && x != y ==> g.edge(ns@[x] as int, ns@[y] as int)
                        == (if x < i && y > x || y < i && x > y || x == i && i < y < j || y == i
                        && i < x < j {
                        crate::graph::combined_edge(
                            true,
                            old(g).edge(ns@[x] as int, ns@[y] as int),
                            EType::H,
                        )
                    } else {
                        old(g).edge(ns@[x] as int, ns@[y] as int)
                    }),
                g.scalar.wf(),
                spec_lc_clean(*old(g), v as int) ==> g.scalar == old(g).scalar,
                g.factors@ == old(g).factors@,
                g.inputs@ == old(g).inputs@,
                g.outputs@ == old(g).outputs@,
            decreases k - j,
        {
            let nj = ns[j];
            proof {
                assert(old(g).edge(v as int, ni as int) is Some);
                assert(old(g).edge(v as int, nj as int) is Some);
                assert(ns@[i as int] == ni && ns@[j as int] == nj);
                assert(ni < nj);
                assert(g.vd(ni as int).ty == VType::Z && g.vd(nj as int).ty == VType::Z);
                assert(g.edge(ni as int, nj as int) == old(g).edge(ni as int, nj as int));
                if g.edge(ni as int, nj as int) is Some {
                    assert(g.adj@[ni as int]@[nj as int] is Some);
                }
                if spec_lc_clean(*old(g), v as int) {
                    assert(old(g).edge(ni as int, nj as int) is None);
                }
            }
            g.add_edge_smart(ni, nj, EType::H);
            j = j + 1;
        }
        i = i + 1;
    }
    g.remove_vertex(v);
    proof {
        crate::graph::lemma_cnt_row_bound(old(g).adj@[v as int]@, old(g).n());
        assert(k <= 0x8000_0000);
        assert(p.exp <= 1);
    }
    let x = k as i64;
    proof {
        assert((x - 1) * (x - 2) <= 0x8000_0000i64 * 0x8000_0000i64) by (nonlinear_arith)
            requires
                -1 <= x - 1 <= 0x8000_0000,
                -2 <= x - 2 <= 0x8000_0000,
        ;
        if x >= 2 {
            assert((x - 1) * (x - 2) >= 0) by (nonlinear_arith)
                requires
                    x >= 2,
            ;
        } else {
            assert((x - 1) * (x - 2) >= 0) by (nonlinear_arith)
                requires
                    0 <= x <= 1,
            ;
        }
    }
    let pw = ((x - 1) * (x - 2)) / 2;
    g.scalar_mul_sqrt2_pow(pw);
    let hp = p.half();
    proof {
        lemma_half_eighth(p, hp);
    }
    g.scalar_mul_phase(hp);
    if vars != 0 {
        proof {
            if p.val() != 0 {
                lemma_neg_eighth(p, negp);
            } else {
                assert(negp.val() == 0) by {
                    vstd::arithmetic::power2::lemma_pow2_pos(62);
                    vstd::arithmetic::div_mod::lemma_small_mod(0, pow2(62));
                };
                crate::phase::lemma_eighth_val(negp);
                assert(Scalar4::spec_eighth_of(negp) == 0) by {
                    vstd::arithmetic::power2::lemma_pow2_pos(59);
                    vstd::arithmetic::div_mod::lemma_basic_div(0, pow2(59) as int);
                };
                assert(Scalar4::spec_eighth_of(p) == 0) by {
                    vstd::arithmetic::power2::lemma_pow2_pos(59);
                    vstd::arithmetic::div_mod::lemma_basic_div(0, pow2(59) as int);
                };
                assert((8 - 0) % 8 == 0int);
            }
        }
        let f = Scalar4::from_phase(negp);
        g.mul_scalar_factor(Expr::linear(Parity::of(vars)), f);
    }
    proof {
        if spec_lc_clean(*old(g), v as int) {
            assert forall|w: int|
                0 <= w < old(g).n() && (#[trigger] old(g).adj@[v as int]@[w]) is Some implies g.vd(
                w,
            ).phase.val() == (old(g).vd(w).phase.val() + ((0 - old(g).vd(
                v as int,
            ).phase.val()) % (pow2(62) as int))) % (pow2(62) as int) by {
                assert(ns@.contains(w as V));
                let a = choose|a: int| 0 <= a < ns@.len() && ns@[a] == w as V;
                assert(0 <= a < k && ns@[a] == w as V);
            };
            assert(k as int == old(g).spec_degree(v as int));
            assert(pw as int == ((old(g).spec_degree(v as int) - 1) * (old(g).spec_degree(
                v as int,
            ) - 2)) / 2);
            assert(g.scalar == Scalar4::spec_mul(
                Scalar4::spec_mul(
                    old(g).scalar,
                    crate::scalar::sq_unit(
                        ((old(g).spec_degree(v as int) - 1) * (old(g).spec_degree(v as int)
                            - 2)) / 2,
                    ),
                ),
                Scalar4::spec_eighth_unit(old(g).vd(v as int).phase.val() / (pow2(60) as int)),
            ));
        }
    }
}

/// Halving a phase no finer than `pi/2` lands on the `pi/4` grid at the
/// eighth index `val / 2^60`.
proof fn lemma_half_eighth(p: Phase, hp: Phase)
    requires
        p.wf(),
        hp.wf(),
        p.exp <= 1,
        hp.exp <= 2,
        2 * hp.val() == p.val(),
    ensures
        Scalar4::spec_eighth_of(hp) == p.val() / (pow2(60) as int),
{
    let m59 = pow2(59) as int;
    let m60 = pow2(60) as int;
    vstd::arithmetic::power2::lemma_pow2_pos(59);
    vstd::arithmetic::power2::lemma_pow2_pos(60);
    crate::phase::lemma_eighth_val(hp);
    hp.lemma_val_bounds();
    let q = Scalar4::spec_eighth_of(hp);
    vstd::arithmetic::div_mod::lemma_fundamental_div_mod(hp.val(), m59);
    assert(hp.val() == q * m59) by {
        assert(m59 * q == q * m59) by (nonlinear_arith);
    };
    assert(m60 == 2 * m59) by {
        vstd::arithmetic::power2::lemma_pow2_adds(1, 59);
        assert(pow2(1) == 2) by {
            vstd::arithmetic::power2::lemma2_to64();
        };
    };
    assert(p.val() == q * m60) by (nonlinear_arith)
        requires
            p.val() == 2 * hp.val(),
            hp.val() == q * m59,
            m60 == 2 * m59,
    ;
    vstd::arithmetic::div_mod::lemma_div_multiples_vanish(q, m60);
}

/// Negating a nonzero `pi/4`-multiple phase complements its eighth index.
proof fn lemma_neg_eighth(p: Phase, np: Phase)
    requires
        p.wf(),
        np.wf(),
        p.exp <= 2,
        p.val() != 0,
        np.val() == (0 - p.val()) % (pow2(62) as int),
    ensures
        np.exp <= 2,
        Scalar4::spec_eighth_of(np) == (8 - Scalar4::spec_eighth_of(p)) % 8,
{
    vstd::arithmetic::power2::lemma2_to64();
    vstd::arithmetic::power2::lemma2_to64_rest();
    crate::phase::lemma_eighth_val(p);
    let j = Scalar4::spec_eighth_of(p);
    let m59 = pow2(59) as int;
    vstd::arithmetic::power2::lemma_pow2_pos(59);
    p.lemma_val_bounds();
    np.lemma_val_bounds();
    vstd::arithmetic::div_mod::lemma_fundamental_div_mod(p.val(), m59);
    assert(p.val() == j * m59) by {
        assert(m59 * j == j * m59) by (nonlinear_arith);
    };
    assert(pow2(62) as int == 8 * m59) by {
        vstd::arithmetic::power2::lemma_pow2_adds(59, 3);
        assert(pow2(3) == 8);
        assert(pow2(59) * pow2(3) == pow2(3) * pow2(59)) by (nonlinear_arith);
    };
    assert(0 < j < 8) by {
        if j >= 8 {
            assert(j * m59 >= 8 * m59) by (nonlinear_arith)
                requires
                    j >= 8,
                    m59 > 0,
            ;
        }
        if j <= 0 {
            assert(j * m59 <= 0) by (nonlinear_arith)
                requires
                    j <= 0,
                    m59 > 0,
            ;
        }
    };
    assert((0 - p.val()) % (8 * m59) == 8 * m59 - p.val()) by {
        vstd::arithmetic::div_mod::lemma_mod_multiples_vanish(1, 0 - p.val(), 8 * m59);
        assert(0 < 8 * m59 - p.val() < 8 * m59);
        vstd::arithmetic::div_mod::lemma_small_mod((8 * m59 - p.val()) as nat, (8 * m59) as nat);
    };
    assert(np.val() == (8 - j) * m59) by (nonlinear_arith)
        requires
            np.val() == 8 * m59 - j * m59,
    ;
    assert(Scalar4::spec_eighth_of(np) == 8 - j) by {
        assert((8 - j) * m59 == m59 * (8 - j)) by (nonlinear_arith);
        vstd::arithmetic::div_mod::lemma_div_multiples_vanish(8 - j, m59);
    };
    assert((8 - j) % 8 == 8 - j) by {
        vstd::arithmetic::div_mod::lemma_small_mod((8 - j) as nat, 8);
    };
    assert(np.val() % m59 == 0) by {
        assert((8 - j) * m59 == m59 * (8 - j)) by (nonlinear_arith);
        vstd::arithmetic::div_mod::lemma_mod_multiples_basic(8 - j, m59);
    };
    crate::phase::lemma_eighth_val(np);
}

/// A checked local complementation.
pub fn local_comp(g: &mut Graph, v: V) -> (r: bool)
    requires
        old(g).wf(),
        old(g).n() <= 0x8000_0000,
    ensures
        final(g).wf(),
        r == spec_check_local_comp(*old(g), v as int),
        !r ==> *final(g) == *old(g),
        r ==> spec_local_comp_shape(*old(g), *final(g), v as int),
{
    if check_local_comp(g, v) {
        proof {
            lemma_check_implies_local_comp_pre(*g, v as int);
        }
        local_comp_unchecked(g, v);
        true
    } else {
        false
    }
}

/// Whether `v0` alone could be a pivot endpoint: a Z-spider with a Pauli
/// phase, every neighbor a Z-spider over a Hadamard edge.
pub open spec fn spec_check_pivot1(g: Graph, v0: int) -> bool {
    &&& g.live(v0)
    &&& g.vd(v0).ty == VType::Z
    &&& (g.vd(v0).phase.val() == 0 || g.vd(v0).phase.val() == pow2(61))
    &&& spec_nbrs_z_h(g, v0)
}

/// Whether `v1` completes a pivot pair with an already-checked `v0`.
pub open spec fn spec_check_pivot2(g: Graph, v0: int, v1: int) -> bool {
    &&& g.live(v1)
    &&& g.vd(v1).ty == VType::Z
    &&& (g.vd(v1).phase.val() == 0 || g.vd(v1).phase.val() == pow2(61))
    &&& g.edge_opt(v0, v1) == Some(EType::H)
    &&& spec_nbrs_z_h(g, v1)
}

/// Whether the pivot rule applies to the pair.
pub open spec fn spec_check_pivot(g: Graph, v0: int, v1: int) -> bool {
    spec_check_pivot1(g, v0) && spec_check_pivot2(g, v0, v1)
}

/// Check that `v0` could be a pivot endpoint, letting a caller prune before
/// inspecting `v1`.
pub fn check_pivot1(g: &Graph, v0: V) -> (r: bool)
    requires
        g.wf(),
    ensures
        r == spec_check_pivot1(*g, v0 as int),
{
    match g.vertex_data_opt(v0) {
        Some(vd) => vd.ty == VType::Z && vd.phase.is_pauli() && nbrs_all_z_h(g, v0),
        None => false,
    }
}

/// Check that `v1` completes a pivot pair with `v0`.
pub fn check_pivot2(g: &Graph, v0: V, v1: V) -> (r: bool)
    requires
        g.wf(),
    ensures
        r == spec_check_pivot2(*g, v0 as int, v1 as int),
{
    match g.vertex_data_opt(v1) {
        Some(vd) => vd.ty == VType::Z && vd.phase.is_pauli() && g.edge_type_opt(v0, v1) == Some(
            EType::H,
        ) && nbrs_all_z_h(g, v1),
        None => false,
    }
}

/// Check that [`pivot_unchecked`] applies: both vertices are Z-spiders with
/// Pauli phases, joined by a Hadamard edge, and every neighbor of either is
/// a Z-spider over a Hadamard edge.
pub fn check_pivot(g: &Graph, v0: V, v1: V) -> (r: bool)
    requires
        g.wf(),
    ensures
        r == spec_check_pivot(*g, v0 as int, v1 as int),
{
    check_pivot1(g, v0) && check_pivot2(g, v0, v1)
}

/// The pivot check does not depend on the order of its two vertices.
///
/// Law: `check_pivot(v0, v1) == check_pivot(v1, v0)` on every well-formed
/// diagram and every pair of handles.
pub proof fn lemma_check_pivot_symmetric(g: Graph, v0: int, v1: int)
    requires
        g.wf(),
    ensures
        spec_check_pivot(g, v0, v1) == spec_check_pivot(g, v1, v0),
{
    if spec_check_pivot(g, v0, v1) {
        assert(g.adj@[v0]@[v1] == g.adj@[v1]@[v0]);
        assert(g.edge_opt(v1, v0) == Some(EType::H));
    }
    if spec_check_pivot(g, v1, v0) {
        assert(g.adj@[v0]@[v1] == g.adj@[v1]@[v0]);
        assert(g.edge_opt(v0, v1) == Some(EType::H));
    }
}

/// Whether the two pivot neighborhoods are disjoint and mutually unjoined:
/// no vertex neighbors both `v0` and `v1`, and no neighbor of one is joined
/// to a neighbor of the other.  Every cross edge the pivot adds is then
/// fresh, so no parallel-edge combination fires: each neighbor gains only
/// the opposite endpoint's phase, and the scalar only the stated factors.
pub open spec fn spec_pivot_clean(g: Graph, v0: int, v1: int) -> bool {
    &&& (forall|w: int|
        #![trigger g.adj@[v0]@[w]]
        #![trigger g.adj@[v1]@[w]]
        0 <= w < g.n() ==> !(g.edge(v0, w) is Some && g.edge(v1, w) is Some))
    &&& (forall|a: int, b: int|
        #![trigger g.adj@[a]@[b]]
        0 <= a < g.n() && 0 <= b < g.n() && g.edge(v0, a) is Some && a != v1 && g.edge(v1, b)
            is Some && b != v0 ==> g.edge(a, b) is None)
}

/// The frame guaranteed by a pivot: both vertices deleted, bystanders
/// untouched, neighbors keep their identity and gain the opposite vertex's
/// variables, and cross pairs touched once hold the combined Hadamard edge.
/// On clean neighborhoods ([`spec_pivot_clean`]) the neighbor phases and
/// the scalar are pinned exactly: each neighbor of one endpoint gains the
/// other endpoint's phase, and the scalar is multiplied by
/// `sqrt(2)^((x-2)(y-2))` for the two degrees, and by `-1` when both
/// phases are `pi`.
pub open spec fn spec_pivot_shape(g0: Graph, g1: Graph, v0: int, v1: int) -> bool {
    &&& g1.n() == g0.n()
    &&& (forall|w: int| #[trigger] g1.live(w) == (g0.live(w) && w != v0 && w != v1))
    &&& g1.vdata@[v0] is None
    &&& g1.vdata@[v1] is None
    &&& (forall|w: int|
        0 <= w < g0.n() && w != v0 && w != v1 && g0.edge(v0, w) is None && g0.edge(v1, w) is None
            ==> g1.vdata@[w] == #[trigger] g0.vdata@[w])
    &&& (forall|w: int|
        #![trigger g0.adj@[v0]@[w]]
        #![trigger g0.adj@[v1]@[w]]
        0 <= w < g0.n() && w != v0 && w != v1 && (g0.edge(v0, w) is Some || g0.edge(v1, w)
            is Some) ==> {
            &&& g1.vd(w).ty == g0.vd(w).ty
            &&& g1.vd(w).row == g0.vd(w).row
            &&& g1.vd(w).qubit == g0.vd(w).qubit
            &&& g1.vd(w).phase.wf()
            &&& g1.vd(w).vars == ((g0.vd(w).vars ^ (if g0.edge(v0, w) is Some {
                g0.vd(v1).vars
            } else {
                0
            })) ^ (if g0.edge(v1, w) is Some {
                g0.vd(v0).vars
            } else {
                0
            }))
        })
    &&& (forall|a: int, b: int|
        #![trigger g0.adj@[a]@[b]]
        0 <= a < g0.n() && 0 <= b < g0.n() && (a == v0 || b == v0 || a == v1 || b == v1)
            ==> g1.edge(a, b) is None)
    &&& (forall|a: int, b: int|
        #![trigger g0.adj@[a]@[b]]
        0 <= a < g0.n() && 0 <= b < g0.n() && a != v0 && b != v0 && a != v1 && b != v1 && !(
        g0.edge(v0, a) is Some && g0.edge(v1, b) is Some) && !(g0.edge(v0, b) is Some && g0.edge(
            v1,
            a,
        ) is Some) ==> g1.edge(a, b) == g0.edge(a, b))
    &&& (forall|a: int, b: int|
        #![trigger g0.adj@[a]@[b]]
        0 <= a < g0.n() && 0 <= b < g0.n() && a != v0 && b != v0 && a != v1 && b != v1 && a != b
            && (g0.edge(v0, a) is Some && g0.edge(v1, b) is Some) && !(g0.edge(v0, b) is Some
            && g0.edge(v1, a) is Some) ==> g1.edge(a, b) == crate::graph::combined_edge(
            true,
            g0.edge(a, b),
            EType::H,
        ))
    &&& g1.inputs@ == g0.inputs@
    &&& g1.outputs@ == g0.outputs@
    &&& g1.scalar.wf()
    &&& g1.factors@ == (if g0.vd(v0).vars != 0 && g0.vd(v1).vars != 0 {
        g0.factors@.push(
            (
                Expr::Quadratic(
                    Parity { mask: g0.vd(v0).vars, neg: false },
                    Parity { mask: g0.vd(v1).vars, neg: false },
                ),
                Scalar4::spec_eighth_unit(4),
            ),
        )
    } else {
        g0.factors@
    })
    &&& (spec_pivot_clean(g0, v0, v1) ==> {
        &&& (forall|w: int|
            #![trigger g0.adj@[v0]@[w]]
            0 <= w < g0.n() && w != v0 && w != v1 && g0.edge(v0, w) is Some ==> g1.vd(
                w,
            ).phase.val() == (g0.vd(w).phase.val() + g0.vd(v1).phase.val()) % (pow2(62) as int))
        &&& (forall|w: int|
            #![trigger g0.adj@[v1]@[w]]
            0 <= w < g0.n() && w != v0 && w != v1 && g0.edge(v1, w) is Some ==> g1.vd(
                w,
            ).phase.val() == (g0.vd(w).phase.val() + g0.vd(v0).phase.val()) % (pow2(62) as int))
        &&& g1.scalar == (if g0.vd(v0).phase.val() != 0 && g0.vd(v1).phase.val() != 0 {
            Scalar4::spec_mul(
                Scalar4::spec_mul(
                    g0.scalar,
                    crate::scalar::sq_unit(
                        (g0.spec_degree(v0) - 2) * (g0.spec_degree(v1) - 2),
                    ),
                ),
                Scalar4::spec_eighth_unit(4),
            )
        } else {
            Scalar4::spec_mul(
                g0.scalar,
                crate::scalar::sq_unit((g0.spec_degree(v0) - 2) * (g0.spec_degree(v1) - 2)),
            )
        })
    })
}

/// Apply a pivot to a Hadamard-joined pair of Pauli Z-spiders: complete the
/// bipartite connection between their neighborhoods with combined Hadamard
/// edges, push each phase (and variable set) onto the other vertex's
/// neighbors, delete both, and multiply the scalar by
/// `sqrt(2)^((x-2)(y-2))`, by `-1` when both phases are `pi`, and by a
/// symbolic `-1` over the variable cross term when both carry variables.
///
/// The contract pins the structural surgery, the variable unions and the
/// symbolic factor exactly, and, on clean neighborhoods
/// ([`spec_pivot_clean`]), the neighbor phases and the scalar too.  Where
/// the neighborhoods meet or are already joined, parallel-edge combination
/// adds further `pi` shifts and powers of `sqrt(2)`; those runs are stated
/// as well-formed only and exercised against the exact tensor denotation
/// in the test suite.
#[verifier::rlimit(100)]
pub fn pivot_unchecked(g: &mut Graph, v0: V, v1: V)
    requires
        old(g).wf(),
        old(g).n() <= 0x8000_0000,
        spec_check_pivot(*old(g), v0 as int, v1 as int),
    ensures
        final(g).wf(),
        spec_pivot_shape(*old(g), *final(g), v0 as int, v1 as int),
{
    let p0 = g.phase(v0);
    let vars0 = g.vars(v0);
    let p1 = g.phase(v1);
    let vars1 = g.vars(v1);
    proof {
        assert(old(g).adj@[v0 as int]@[v1 as int] is Some);
        assert(v0 != v1);
    }
    let ns0 = g.neighbor_vec(v0);
    let ns1 = g.neighbor_vec(v1);
    let k0 = ns0.len();
    let k1 = ns1.len();
    let mut i: usize = 0;
    while i < k0
        invariant
            old(g).wf(),
            g.wf(),
            spec_check_pivot(*old(g), v0 as int, v1 as int),
            old(g).n() <= 0x8000_0000,
            g.n() == old(g).n(),
            v0 < old(g).n(),
            v1 < old(g).n(),
            v0 != v1,
            i <= k0,
            k0 == ns0@.len(),
            k1 == ns1@.len(),
            p1 == old(g).vd(v1 as int).phase,
            vars1 == old(g).vd(v1 as int).vars,
            p1.wf(),
            forall|a: int, b: int| 0 <= a < b < k0 ==> ns0@[a] < ns0@[b],
            forall|a: int| 0 <= a < k0 ==> (#[trigger] ns0@[a] as int) < old(g).n(),
            forall|a: int|
                0 <= a < k0 ==> old(g).edge(v0 as int, #[trigger] ns0@[a] as int) is Some,
            forall|w: int|
                0 <= w < old(g).n() && old(g).edge(v0 as int, w) is Some ==> ns0@.contains(w as V),
            forall|a: int, b: int| 0 <= a < b < k1 ==> ns1@[a] < ns1@[b],
            forall|a: int| 0 <= a < k1 ==> (#[trigger] ns1@[a] as int) < old(g).n(),
            forall|a: int|
                0 <= a < k1 ==> old(g).edge(v1 as int, #[trigger] ns1@[a] as int) is Some,
            forall|w: int|
                0 <= w < old(g).n() && old(g).edge(v1 as int, w) is Some ==> ns1@.contains(w as V),
            forall|x: int| g.live(x) == old(g).live(x),
            forall|w: int|
                0 <= w < old(g).n() && w != v0 && w != v1 && old(g).edge(v0 as int, w) is None
                    ==> g.vdata@[w] == #[trigger] old(g).vdata@[w],
            g.vd(v0 as int).ty == VType::Z,
            g.vd(v1 as int).ty == VType::Z,
            forall|w: int|
                #![trigger old(g).adj@[v0 as int]@[w]]
                0 <= w < old(g).n() && w != v0 && w != v1 && old(g).edge(v0 as int, w) is Some
                    ==> {
                    &&& g.vd(w).ty == old(g).vd(w).ty
                    &&& g.vd(w).row == old(g).vd(w).row
                    &&& g.vd(w).qubit == old(g).vd(w).qubit
                    &&& g.vd(w).phase.wf()
                    &&& (ns0@.contains(w as V) && (exists|a: int|
                        0 <= a < i && ns0@[a] == w as V) ==> g.vd(w).vars == (old(g).vd(w).vars
                        ^ vars1))
                    &&& ((forall|a: int| 0 <= a < i ==> ns0@[a] != w as V) ==> g.vd(w).vars
                        == old(g).vd(w).vars)
                    &&& (spec_pivot_clean(*old(g), v0 as int, v1 as int) && (exists|a: int|
                        0 <= a < i && ns0@[a] == w as V) ==> g.vd(w).phase.val() == (old(g).vd(
                        w,
                    ).phase.val() + p1.val()) % (pow2(62) as int))
                    &&& (spec_pivot_clean(*old(g), v0 as int, v1 as int) && (forall|a: int|
                        0 <= a < i ==> ns0@[a] != w as V) ==> g.vd(w).phase == old(g).vd(
                        w,
                    ).phase)
                },
            forall|a: int, b: int|
                #![trigger old(g).adj@[a]@[b]]
                0 <= a < old(g).n() && 0 <= b < old(g).n() && (a == v0 || b == v0 || a == v1 || b
                    == v1) ==> g.edge(a, b) == old(g).edge(a, b),
            forall|a: int, b: int|
                #![trigger old(g).adj@[a]@[b]]
                0 <= a < old(g).n() && 0 <= b < old(g).n() && a != v0 && b != v0 && a != v1 && b
                    != v1 && !(old(g).edge(v0 as int, a) is Some && old(g).edge(v1 as int, b)
                    is Some) && !(old(g).edge(v0 as int, b) is Some && old(g).edge(v1 as int, a)
                    is Some) ==> g.edge(a, b) == old(g).edge(a, b),
            forall|x: int, y: int|
                #![trigger old(g).adj@[ns0@[x] as int]@[ns1@[y] as int]]
                0 <= x < k0 && 0 <= y < k1 && ns0@[x] as int != v1 && ns1@[y] as int != v0
                    && ns0@[x] != ns1@[y] && !(old(g).edge(v0 as int, ns1@[y] as int) is Some
                    && old(g).edge(v1 as int, ns0@[x] as int) is Some) ==> g.edge(
                    ns0@[x] as int,
                    ns1@[y] as int,
                ) == (if x < i {
                    crate::graph::combined_edge(
                        true,
                        old(g).edge(ns0@[x] as int, ns1@[y] as int),
                        EType::H,
                    )
                } else {
                    old(g).edge(ns0@[x] as int, ns1@[y] as int)
                }),
            g.scalar.wf(),
            spec_pivot_clean(*old(g), v0 as int, v1 as int) ==> g.scalar == old(g).scalar,
            g.factors@ == old(g).factors@,
            g.inputs@ == old(g).inputs@,
            g.outputs@ == old(g).outputs@,
        decreases k0 - i,
    {
        let n0 = ns0[i];
        proof {
            assert(old(g).edge(v0 as int, n0 as int) is Some);
            assert(old(g).vd(n0 as int).ty == VType::Z);
        }
        g.add_to_phase(n0, p1);
        if vars1 != 0 {
            g.add_to_vars(n0, vars1);
        }
        proof {
            if vars1 == 0 {
                let w0 = old(g).vd(n0 as int).vars;
                assert(w0 ^ 0u64 == w0) by (bit_vector);
            }
        }
        let mut j: usize = 0;
        while j < k1
            invariant
                old(g).wf(),
                g.wf(),
                spec_check_pivot(*old(g), v0 as int, v1 as int),
                g.n() == old(g).n(),
                v0 < old(g).n(),
                v1 < old(g).n(),
                v0 != v1,
                i < k0,
                j <= k1,
                k0 == ns0@.len(),
                k1 == ns1@.len(),
                n0 == ns0@[i as int],
                p1 == old(g).vd(v1 as int).phase,
                p1.wf(),
                vars1 == old(g).vd(v1 as int).vars,
                forall|a: int, b: int| 0 <= a < b < k0 ==> ns0@[a] < ns0@[b],
                forall|a: int| 0 <= a < k0 ==> (#[trigger] ns0@[a] as int) < old(g).n(),
                forall|a: int|
                    0 <= a < k0 ==> old(g).edge(v0 as int, #[trigger] ns0@[a] as int) is Some,
                forall|a: int, b: int| 0 <= a < b < k1 ==> ns1@[a] < ns1@[b],
                forall|a: int| 0 <= a < k1 ==> (#[trigger] ns1@[a] as int) < old(g).n(),
                forall|a: int|
                    0 <= a < k1 ==> old(g).edge(v1 as int, #[trigger] ns1@[a] as int) is Some,
                forall|x: int| g.live(x) == old(g).live(x),
                forall|w: int|
                    0 <= w < old(g).n() && w != v0 && w != v1 && old(g).edge(v0 as int, w)
                        is None ==> g.vdata@[w] == #[trigger] old(g).vdata@[w],
                g.vd(v0 as int).ty == VType::Z,
                g.vd(v1 as int).ty == VType::Z,
                forall|w: int|
                    #![trigger old(g).adj@[v0 as int]@[w]]
                    0 <= w < old(g).n() && w != v0 && w != v1 && old(g).edge(v0 as int, w)
                        is Some ==> {
                        &&& g.vd(w).ty == old(g).vd(w).ty
                        &&& g.vd(w).row == old(g).vd(w).row
                        &&& g.vd(w).qubit == old(g).vd(w).qubit
                        &&& g.vd(w).phase.wf()
                        &&& (ns0@.contains(w as V) && (exists|a: int|
                            0 <= a <= i && ns0@[a] == w as V) ==> g.vd(w).vars == (old(g).vd(
                            w,
                        ).vars ^ vars1))
                        &&& ((forall|a: int| 0 <= a <= i ==> ns0@[a] != w as V) ==> g.vd(w).vars
                            == old(g).vd(w).vars)
                        &&& (spec_pivot_clean(*old(g), v0 as int, v1 as int) && (exists|a: int|
                            0 <= a <= i && ns0@[a] == w as V) ==> g.vd(w).phase.val() == (old(
                            g,
                        ).vd(w).phase.val() + p1.val()) % (pow2(62) as int))
                        &&& (spec_pivot_clean(*old(g), v0 as int, v1 as int) && (forall|a: int|
                            0 <= a <= i ==> ns0@[a] != w as V) ==> g.vd(w).phase == old(g).vd(
                            w,
                        ).phase)
                    },
                forall|a: int, b: int|
                    #![trigger old(g).adj@[a]@[b]]
                    0 <= a < old(g).n() && 0 <= b < old(g).n() && (a == v0 || b == v0 || a == v1
                        || b == v1) ==> g.edge(a, b) == old(g).edge(a, b),
                forall|a: int, b: int|
                    #![trigger old(g).adj@[a]@[b]]
                    0 <= a < old(g).n() && 0 <= b < old(g).n() && a != v0 && b != v0 && a != v1
                        && b != v1 && !(old(g).edge(v0 as int, a) is Some && old(g).edge(
                        v1 as int,
                        b,
                    ) is Some) && !(old(g).edge(v0 as int, b) is Some && old(g).edge(
                        v1 as int,
                        a,
                    ) is Some) ==> g.edge(a, b) == old(g).edge(a, b),
                forall|x: int, y: int|
                    #![trigger old(g).adj@[ns0@[x] as int]@[ns1@[y] as int]]
                    0 <= x < k0 && 0 <= y < k1 && ns0@[x] as int != v1 && ns1@[y] as int != v0
                        && ns0@[x] != ns1@[y] && !(old(g).edge(v0 as int, ns1@[y] as int)
                        is Some && old(g).edge(v1 as int, ns0@[x] as int) is Some) ==> g.edge(
                        ns0@[x] as int,
                        ns1@[y] as int,
                    ) == (if x < i || x == i && y < j {
                        crate::graph::combined_edge(
                            true,
                            old(g).edge(ns0@[x] as int, ns1@[y] as int),
                            EType::H,
                        )
                    } else {
                        old(g).edge(ns0@[x] as int, ns1@[y] as int)
                    }),
                g.scalar.wf(),
                spec_pivot_clean(*old(g), v0 as int, v1 as int) ==> g.scalar == old(g).scalar,
                g.factors@ == old(g).factors@,
                g.inputs@ == old(g).inputs@,
                g.outputs@ == old(g).outputs@,
            decreases k1 - j,
        {
            let n1 = ns1[j];
            if n0 != v1 && n1 != v0 && n0 != n1 {
                proof {
                    assert(old(g).edge(v0 as int, n0 as int) is Some);
                    assert(old(g).edge(v1 as int, n1 as int) is Some);
                    assert(old(g).vd(n0 as int).ty == VType::Z);
                    assert(old(g).vd(n1 as int).ty == VType::Z);
                    assert(g.vd(n0 as int).ty == VType::Z);
                    assert(g.vd(n1 as int).ty == VType::Z);
                    if g.edge(n0 as int, n1 as int) is Some {
                        assert(g.adj@[n0 as int]@[n1 as int] is Some);
                    }
                    if spec_pivot_clean(*old(g), v0 as int, v1 as int) {
                        assert(old(g).adj@[v0 as int]@[n1 as int] is None);
                        assert(old(g).adj@[n0 as int]@[n1 as int] is None);
                        assert(g.edge(n0 as int, n1 as int) == old(g).edge(
                            n0 as int,
                            n1 as int,
                        ));
                    }
                }
                g.add_edge_smart(n0, n1, EType::H);
            } else {
                if n0 == n1 {
                    proof {
                        assert(g.edge(n0 as int, n1 as int) is None);
                    }
                }
            }
            j = j + 1;
        }
        i = i + 1;
    }
    proof {
        assert(forall|z: u64| #[trigger] (z ^ 0u64) == z) by (bit_vector);
        if spec_pivot_clean(*old(g), v0 as int, v1 as int) {
            assert forall|w: int|
                0 <= w < old(g).n() && w != v0 && w != v1 && (#[trigger] old(g).adj@[v0 as int]@[w])
                    is Some implies g.vd(w).phase.val() == (old(g).vd(w).phase.val()
                + p1.val()) % (pow2(62) as int) by {
                assert(ns0@.contains(w as V));
                let a = choose|a: int| 0 <= a < ns0@.len() && ns0@[a] == w as V;
                assert(0 <= a < k0 && ns0@[a] == w as V);
            };
        }
    }
    let mut j2: usize = 0;
    while j2 < k1
        invariant
            old(g).wf(),
            g.wf(),
            spec_check_pivot(*old(g), v0 as int, v1 as int),
            old(g).n() <= 0x8000_0000,
            g.n() == old(g).n(),
            v0 < old(g).n(),
            v1 < old(g).n(),
            v0 != v1,
            j2 <= k1,
            k0 == ns0@.len(),
            k1 == ns1@.len(),
            p0 == old(g).vd(v0 as int).phase,
            vars0 == old(g).vd(v0 as int).vars,
            p0.wf(),
            p1 == old(g).vd(v1 as int).phase,
            p1.wf(),
            g.vd(v0 as int).ty == VType::Z,
            forall|a: int, b: int| 0 <= a < b < k1 ==> ns1@[a] < ns1@[b],
            forall|a: int| 0 <= a < k1 ==> (#[trigger] ns1@[a] as int) < old(g).n(),
            forall|a: int|
                0 <= a < k1 ==> old(g).edge(v1 as int, #[trigger] ns1@[a] as int) is Some,
            forall|w: int|
                0 <= w < old(g).n() && old(g).edge(v1 as int, w) is Some ==> ns1@.contains(w as V),
            forall|x: int| g.live(x) == old(g).live(x),
            forall|w: int|
                0 <= w < old(g).n() && w != v0 && w != v1 && old(g).edge(v0 as int, w) is None
                    && old(g).edge(v1 as int, w) is None ==> g.vdata@[w] == #[trigger] old(
                    g,
                ).vdata@[w],
            g.vd(v1 as int).ty == VType::Z,
            forall|w: int|
                #![trigger old(g).adj@[v0 as int]@[w]]
                #![trigger old(g).adj@[v1 as int]@[w]]
                0 <= w < old(g).n() && w != v0 && w != v1 && (old(g).edge(v0 as int, w) is Some
                    || old(g).edge(v1 as int, w) is Some) ==> {
                    &&& g.vd(w).ty == old(g).vd(w).ty
                    &&& g.vd(w).row == old(g).vd(w).row
                    &&& g.vd(w).qubit == old(g).vd(w).qubit
                    &&& g.vd(w).phase.wf()
                    &&& ((exists|a: int| 0 <= a < j2 && ns1@[a] == w as V) ==> g.vd(w).vars == ((
                    old(g).vd(w).vars ^ (if old(g).edge(v0 as int, w) is Some {
                        old(g).vd(v1 as int).vars
                    } else {
                        0
                    })) ^ vars0))
                    &&& ((forall|a: int| 0 <= a < j2 ==> ns1@[a] != w as V) ==> g.vd(w).vars == (
                    old(g).vd(w).vars ^ (if old(g).edge(v0 as int, w) is Some {
                        old(g).vd(v1 as int).vars
                    } else {
                        0
                    })))
                    &&& (spec_pivot_clean(*old(g), v0 as int, v1 as int) && old(g).edge(
                        v0 as int,
                        w,
                    ) is Some ==> g.vd(w).phase.val() == (old(g).vd(w).phase.val()
                        + p1.val()) % (pow2(62) as int))
                    &&& (spec_pivot_clean(*old(g), v0 as int, v1 as int) && old(g).edge(
                        v1 as int,
                        w,
                    ) is Some && (exists|a: int| 0 <= a < j2 && ns1@[a] == w as V) ==> g.vd(
                        w,
                    ).phase.val() == (old(g).vd(w).phase.val() + p0.val()) % (pow2(62) as int))
                    &&& (spec_pivot_clean(*old(g), v0 as int, v1 as int) && old(g).edge(
                        v1 as int,
                        w,
                    ) is Some && (forall|a: int| 0 <= a < j2 ==> ns1@[a] != w as V) ==> g.vd(
                        w,
                    ).phase == old(g).vd(w).phase)
                },
            spec_pivot_clean(*old(g), v0 as int, v1 as int) ==> g.scalar == old(g).scalar,
            forall|a: int, b: int|
                #![trigger old(g).adj@[a]@[b]]
                0 <= a < old(g).n() && 0 <= b < old(g).n() && (a == v0 || b == v0 || a == v1 || b
                    == v1) ==> g.edge(a, b) == old(g).edge(a, b),
            forall|a: int, b: int|
                #![trigger old(g).adj@[a]@[b]]
                0 <= a < old(g).n() && 0 <= b < old(g).n() && a != v0 && b != v0 && a != v1 && b
                    != v1 && !(old(g).edge(v0 as int, a) is Some && old(g).edge(v1 as int, b)
                    is Some) && !(old(g).edge(v0 as int, b) is Some && old(g).edge(v1 as int, a)
                    is Some) ==> g.edge(a, b) == old(g).edge(a, b),
            forall|x: int, y: int|
                #![trigger old(g).adj@[ns0@[x] as int]@[ns1@[y] as int]]
                0 <= x < k0 && 0 <= y < k1 && ns0@[x] as int != v1 && ns1@[y] as int != v0
                    && ns0@[x] != ns1@[y] && !(old(g).edge(v0 as int, ns1@[y] as int) is Some
                    && old(g).edge(v1 as int, ns0@[x] as int) is Some) ==> g.edge(
                    ns0@[x] as int,
                    ns1@[y] as int,
                ) == crate::graph::combined_edge(
                    true,
                    old(g).edge(ns0@[x] as int, ns1@[y] as int),
                    EType::H,
                ),
            g.scalar.wf(),
            g.factors@ == old(g).factors@,
            g.inputs@ == old(g).inputs@,
            g.outputs@ == old(g).outputs@,
        decreases k1 - j2,
    {
        let n1 = ns1[j2];
        proof {
            assert(old(g).edge(v1 as int, n1 as int) is Some);
            assert(old(g).adj@[v1 as int]@[n1 as int] is Some);
            if n1 != v0 {
                assert(old(g).vd(n1 as int).ty == VType::Z);
            }
            assert(g.vd(n1 as int).ty == VType::Z);
        }
        g.add_to_phase(n1, p0);
        if vars0 != 0 {
            g.add_to_vars(n1, vars0);
        }
        proof {
            assert(forall|z: u64| #[trigger] (z ^ 0u64) == z) by (bit_vector);
            assert forall|a: int| 0 <= a < j2 implies ns1@[a] != n1 by {
                assert(ns1@[a] < ns1@[j2 as int]);
            };
            assert forall|w: int|
                #![trigger old(g).adj@[v0 as int]@[w]]
                #![trigger old(g).adj@[v1 as int]@[w]]
                0 <= w < old(g).n() && w != v0 && w != v1 && (old(g).edge(v0 as int, w) is Some
                    || old(g).edge(v1 as int, w) is Some) implies {
                &&& g.vd(w).ty == old(g).vd(w).ty
                &&& g.vd(w).row == old(g).vd(w).row
                &&& g.vd(w).qubit == old(g).vd(w).qubit
                &&& g.vd(w).phase.wf()
                &&& ((exists|a: int| 0 <= a < j2 + 1 && ns1@[a] == w as V) ==> g.vd(w).vars == ((
                old(g).vd(w).vars ^ (if old(g).edge(v0 as int, w) is Some {
                    old(g).vd(v1 as int).vars
                } else {
                    0
                })) ^ vars0))
                &&& ((forall|a: int| 0 <= a < j2 + 1 ==> ns1@[a] != w as V) ==> g.vd(w).vars == (
                old(g).vd(w).vars ^ (if old(g).edge(v0 as int, w) is Some {
                    old(g).vd(v1 as int).vars
                } else {
                    0
                })))
                &&& (spec_pivot_clean(*old(g), v0 as int, v1 as int) && old(g).edge(
                    v0 as int,
                    w,
                ) is Some ==> g.vd(w).phase.val() == (old(g).vd(w).phase.val() + p1.val()) % (
                pow2(62) as int))
                &&& (spec_pivot_clean(*old(g), v0 as int, v1 as int) && old(g).edge(
                    v1 as int,
                    w,
                ) is Some && (exists|a: int| 0 <= a < j2 + 1 && ns1@[a] == w as V) ==> g.vd(
                    w,
                ).phase.val() == (old(g).vd(w).phase.val() + p0.val()) % (pow2(62) as int))
                &&& (spec_pivot_clean(*old(g), v0 as int, v1 as int) && old(g).edge(
                    v1 as int,
                    w,
                ) is Some && (forall|a: int| 0 <= a < j2 + 1 ==> ns1@[a] != w as V) ==> g.vd(
                    w,
                ).phase == old(g).vd(w).phase)
            } by {
                if spec_pivot_clean(*old(g), v0 as int, v1 as int) {
                    assert(old(g).adj@[v0 as int]@[n1 as int] is None);
                }
                if w == n1 as int {
                    assert(ns1@[j2 as int] == w as V);
                    assert(exists|a: int| 0 <= a < j2 + 1 && ns1@[a] == w as V);
                } else {
                    if exists|a: int| 0 <= a < j2 + 1 && ns1@[a] == w as V {
                        let a = choose|a: int| 0 <= a < j2 + 1 && ns1@[a] == w as V;
                        assert(a != j2);
                        assert(0 <= a < j2 && ns1@[a] == w as V);
                    }
                }
            };
        }
        j2 = j2 + 1;
    }
    g.remove_vertex(v0);
    g.remove_vertex(v1);
    proof {
        crate::graph::lemma_cnt_row_bound(old(g).adj@[v0 as int]@, old(g).n());
        crate::graph::lemma_cnt_row_bound(old(g).adj@[v1 as int]@, old(g).n());
    }
    let x = k0 as i64;
    let y = k1 as i64;
    proof {
        assert((x - 2) * (y - 2) <= 0x8000_0000i64 * 0x8000_0000i64 && (x - 2) * (y - 2)
            >= -2 * 0x8000_0000i64) by (nonlinear_arith)
            requires
                -2 <= x - 2 <= 0x8000_0000,
                -2 <= y - 2 <= 0x8000_0000,
        ;
    }
    g.scalar_mul_sqrt2_pow((x - 2) * (y - 2));
    let z0 = p0.is_zero();
    let z1 = p1.is_zero();
    if !z0 && !z1 {
        g.scalar_mul(Scalar4::minus_one());
    }
    if vars0 != 0 && vars1 != 0 {
        g.mul_scalar_factor(
            Expr::quadratic(Parity::of(vars0), Parity::of(vars1)),
            Scalar4::minus_one(),
        );
    }
    proof {
        if spec_pivot_clean(*old(g), v0 as int, v1 as int) {
            assert forall|w: int|
                0 <= w < old(g).n() && w != v0 && w != v1 && (#[trigger] old(g).adj@[v1 as int]@[w])
                    is Some implies g.vd(w).phase.val() == (old(g).vd(w).phase.val() + old(g).vd(
                v0 as int,
            ).phase.val()) % (pow2(62) as int) by {
                assert(ns1@.contains(w as V));
                let a = choose|a: int| 0 <= a < ns1@.len() && ns1@[a] == w as V;
                assert(0 <= a < k1 && ns1@[a] == w as V);
            };
            assert(k0 as int == old(g).spec_degree(v0 as int));
            assert(k1 as int == old(g).spec_degree(v1 as int));
        }
    }
}

/// A checked pivot.
pub fn pivot(g: &mut Graph, v0: V, v1: V) -> (r: bool)
    requires
        old(g).wf(),
        old(g).n() <= 0x8000_0000,
    ensures
        final(g).wf(),
        r == spec_check_pivot(*old(g), v0 as int, v1 as int),
        !r ==> *final(g) == *old(g),
        r ==> spec_pivot_shape(*old(g), *final(g), v0 as int, v1 as int),
{
    if check_pivot(g, v0, v1) {
        pivot_unchecked(g, v0, v1);
        true
    } else {
        false
    }
}

/// Insert an identity Z-spider between `v` and a boundary neighbor `b`, so
/// that `v` is no longer adjacent to the boundary.  A non-boundary `b`
/// leaves the diagram untouched.
pub fn unfuse_boundary(g: &mut Graph, v: V, b: V)
    requires
        old(g).wf(),
        old(g).n() < 0x8000_0000,
        old(g).live(v as int),
        old(g).live(b as int),
        v != b,
        old(g).vd(b as int).ty == VType::B ==> old(g).edge(v as int, b as int) is Some,
    ensures
        final(g).wf(),
        final(g).inputs@ == old(g).inputs@,
        final(g).outputs@ == old(g).outputs@,
        final(g).scalar == old(g).scalar,
        final(g).factors@ == old(g).factors@,
        old(g).vd(b as int).ty != VType::B ==> *final(g) == *old(g),
        old(g).vd(b as int).ty == VType::B ==> {
            let w = old(g).n();
            &&& final(g).n() == old(g).n() + 1
            &&& (forall|x: int| 0 <= x < old(g).n() ==> final(g).live(x) == old(g).live(x))
            &&& final(g).live(w)
            &&& final(g).vd(w).ty == VType::Z
            &&& final(g).vd(w).phase.val() == 0
            &&& final(g).vd(w).vars == 0
            &&& (forall|x: int|
                0 <= x < old(g).n() ==> final(g).vdata@[x] == #[trigger] old(g).vdata@[x])
            &&& (forall|x: int, y: int|
                #![trigger old(g).adj@[x]@[y]]
                0 <= x < old(g).n() && 0 <= y < old(g).n() ==> final(g).edge(x, y) == (if x
                    == v && y == b || x == b && y == v {
                    None
                } else {
                    old(g).edge(x, y)
                }))
            &&& final(g).edge(v as int, w) == Some(EType::H)
            &&& final(g).edge(w, b as int) == Some(
                if old(g).edge(v as int, b as int) == Some(EType::N) {
                    EType::H
                } else {
                    EType::N
                },
            )
            &&& (forall|x: int|
                0 <= x < old(g).n() && x != v && x != b ==> #[trigger] final(g).edge(x, w)
                    is None)
        },
{
    let bt = g.vertex_type(b);
    if bt != VType::B {
        return ;
    }
    let r = g.row(v);
    let q = g.qubit(v);
    let et = g.edge_type(v, b);
    let w = g.add_vertex_with_data(VData::plain(VType::Z, r, q));
    let ghost ga = *g;
    proof {
        assert(old(g).adj@[v as int]@[b as int] is Some);
        assert(g.edge(w as int, v as int) is None);
        assert(g.adj@[v as int]@[w as int] == g.adj@[w as int]@[v as int]);
        assert(g.edge(v as int, w as int) is None);
        assert(g.edge(w as int, b as int) is None);
    }
    g.add_edge_with_type(v, w, EType::H);
    let ghost gb = *g;
    proof {
        assert(g.edge(w as int, b as int) is None);
        assert(g.edge(v as int, b as int) == old(g).edge(v as int, b as int));
    }
    g.add_edge_with_type(w, b, et.opposite());
    let ghost gc = *g;
    proof {
        assert(g.edge(v as int, b as int) == old(g).edge(v as int, b as int));
    }
    g.remove_edge(v, b);
    proof {
        assert forall|x: int| 0 <= x < old(g).n() && x != v && x != b implies g.edge(
            x,
            w as int,
        ) is None by {
            assert(ga.edge(x, w as int) is None);
            assert(gb.edge(x, w as int) == ga.edge(x, w as int));
            assert(gc.edge(x, w as int) == gb.edge(x, w as int));
            assert(g.edge(x, w as int) == gc.edge(x, w as int));
        };
    }
}

/// Detach a non-Pauli phase of `v` onto a fresh degree-one phase gadget: a
/// mid Z-spider Hadamard-joined to `v` and a leaf Z-spider carrying the
/// phase.  A Pauli phase leaves the diagram untouched.
pub fn unfuse_gadget(g: &mut Graph, v: V)
    requires
        old(g).wf(),
        old(g).n() + 1 < 0x8000_0000,
        old(g).live(v as int),
    ensures
        final(g).wf(),
        final(g).inputs@ == old(g).inputs@,
        final(g).outputs@ == old(g).outputs@,
        final(g).scalar == old(g).scalar,
        final(g).factors@ == old(g).factors@,
        (old(g).vd(v as int).phase.val() == 0 || old(g).vd(v as int).phase.val() == pow2(61))
            ==> *final(g) == *old(g),
        !(old(g).vd(v as int).phase.val() == 0 || old(g).vd(v as int).phase.val() == pow2(61))
            ==> {
            let m = old(g).n();
            let l = old(g).n() + 1;
            &&& final(g).n() == old(g).n() + 2
            &&& (forall|x: int| 0 <= x < old(g).n() ==> final(g).live(x) == old(g).live(x))
            &&& final(g).live(m) && final(g).live(l)
            &&& final(g).vd(m).ty == VType::Z && final(g).vd(m).phase.val() == 0 && final(g).vd(m).vars == 0
            &&& final(g).vd(l).ty == VType::Z && final(g).vd(l).phase == old(g).vd(
                v as int,
            ).phase && final(g).vd(l).vars == 0
            &&& (forall|x: int|
                0 <= x < old(g).n() && x != v ==> final(g).vdata@[x] == #[trigger] old(
                    g,
                ).vdata@[x])
            &&& final(g).vd(v as int).ty == old(g).vd(v as int).ty
            &&& final(g).vd(v as int).phase.val() == 0
            &&& final(g).vd(v as int).vars == old(g).vd(v as int).vars
            &&& (forall|x: int, y: int|
                #![trigger old(g).adj@[x]@[y]]
                0 <= x < old(g).n() && 0 <= y < old(g).n() ==> final(g).edge(x, y) == old(
                    g,
                ).edge(x, y))
            &&& final(g).edge(v as int, m) == Some(EType::H)
            &&& final(g).edge(m, l) == Some(EType::H)
            &&& final(g).edge(v as int, l) is None
            &&& (forall|x: int|
                0 <= x < old(g).n() && x != v ==> #[trigger] final(g).edge(x, m) is None)
            &&& (forall|x: int| 0 <= x < old(g).n() ==> #[trigger] final(g).edge(x, l) is None)
        },
{
    let p = g.phase(v);
    if p.is_pauli() {
        return ;
    }
    let r = g.row(v);
    let m = g.add_vertex_with_data(VData::plain(VType::Z, r, -1));
    let ghost ga = *g;
    let l = g.add_vertex_with_data(VData { ty: VType::Z, phase: p, vars: 0, row: r, qubit: -2 });
    let ghost gb = *g;
    g.set_phase(v, Phase::zero());
    proof {
        assert(ga.edge(m as int, v as int) is None);
        assert(gb.edge(m as int, v as int) == ga.edge(m as int, v as int));
        assert(g.adj@ == gb.adj@);
        assert(g.edge(m as int, v as int) is None);
        assert(g.adj@[v as int]@[m as int] == g.adj@[m as int]@[v as int]);
        assert(g.edge(v as int, m as int) is None);
        assert(gb.edge(l as int, m as int) is None);
        assert(g.edge(l as int, m as int) is None);
        assert(g.adj@[m as int]@[l as int] == g.adj@[l as int]@[m as int]);
        assert(g.edge(m as int, l as int) is None);
    }
    g.add_edge_with_type(v, m, EType::H);
    let ghost gc = *g;
    proof {
        assert(g.edge(m as int, l as int) is None);
        assert(g.edge(v as int, l as int) == gb.edge(v as int, l as int));
        assert(gb.edge(l as int, v as int) is None);
        assert(gb.adj@[v as int]@[l as int] == gb.adj@[l as int]@[v as int]);
    }
    g.add_edge_with_type(m, l, EType::H);
    proof {
        assert forall|x: int| 0 <= x < old(g).n() && x != v implies g.edge(x, m as int)
            is None by {
            assert(ga.edge(m as int, x) is None);
            assert(ga.adj@[x]@[m as int] == ga.adj@[m as int]@[x]);
            assert(ga.edge(x, m as int) is None);
            assert(gb.edge(x, m as int) == ga.edge(x, m as int));
            assert(gc.edge(x, m as int) == gb.edge(x, m as int));
            assert(g.edge(x, m as int) == gc.edge(x, m as int));
        };
        assert forall|x: int| 0 <= x < old(g).n() implies g.edge(x, l as int) is None by {
            assert(gb.edge(l as int, x) is None);
            assert(gb.adj@[x]@[l as int] == gb.adj@[l as int]@[x]);
            assert(gb.edge(x, l as int) is None);
            assert(gc.edge(x, l as int) == gb.edge(x, l as int));
            assert(g.edge(x, l as int) == gc.edge(x, l as int));
        };
    }
    proof {
        let mm = old(g).n();
        let ll = old(g).n() + 1;
        assert(g.n() == old(g).n() + 2);
        assert(forall|x: int| 0 <= x < old(g).n() ==> g.live(x) == old(g).live(x));
        assert(g.live(mm) && g.live(ll));
        assert(g.vd(mm).ty == VType::Z && g.vd(mm).phase.val() == 0 && g.vd(mm).vars == 0);
        assert(g.vd(ll).ty == VType::Z && g.vd(ll).phase == old(g).vd(v as int).phase && g.vd(
            ll,
        ).vars == 0);
        assert(forall|x: int|
            0 <= x < old(g).n() && x != v ==> g.vdata@[x] == #[trigger] old(g).vdata@[x]);
        assert(g.vd(v as int).ty == old(g).vd(v as int).ty);
        assert(g.vd(v as int).phase.val() == 0);
        assert(g.vd(v as int).vars == old(g).vd(v as int).vars);
        assert(forall|x: int, y: int|
            #![trigger old(g).adj@[x]@[y]]
            0 <= x < old(g).n() && 0 <= y < old(g).n() ==> g.edge(x, y) == old(g).edge(x, y));
        assert(g.edge(v as int, mm) == Some(EType::H));
        assert(g.edge(mm, ll) == Some(EType::H));
        assert(g.edge(v as int, ll) is None);
    }
}

/// Whether the generalized pivot can be matched at a Hadamard-joined pair
/// of Z-spiders whose other neighbors are Z-spiders over Hadamard edges or
/// boundaries.
pub open spec fn spec_check_gen_pivot(g: Graph, v0: int, v1: int) -> bool {
    &&& v0 != v1
    &&& g.edge_opt(v0, v1) == Some(EType::H)
    &&& g.vd(v0).ty == VType::Z
    &&& g.vd(v1).ty == VType::Z
    &&& g.vd(v0).phase.wf()
    &&& g.vd(v1).phase.wf()
    &&& (forall|w: int|
        0 <= w < g.n() && (#[trigger] g.edge(v0, w)) is Some ==> (g.vd(w).ty == VType::Z
            && g.edge(v0, w) == Some(EType::H)) || g.vd(w).ty == VType::B)
    &&& (forall|w: int|
        0 <= w < g.n() && (#[trigger] g.edge(v1, w)) is Some ==> (g.vd(w).ty == VType::Z
            && g.edge(v1, w) == Some(EType::H)) || g.vd(w).ty == VType::B)
}

/// An executable scan: every incident edge of `v` goes to a Z-spider over a
/// Hadamard edge or to a boundary.
fn nbrs_all_z_h_or_b(g: &Graph, v: V) -> (r: bool)
    requires
        g.wf(),
        g.live(v as int),
    ensures
        r == (forall|w: int|
            0 <= w < g.n() && (#[trigger] g.edge(v as int, w)) is Some ==> (g.vd(w).ty
                == VType::Z && g.edge(v as int, w) == Some(EType::H)) || g.vd(w).ty == VType::B),
{
    let n = g.num_slots();
    let mut w: usize = 0;
    while w < n
        invariant
            g.wf(),
            g.live(v as int),
            n == g.n(),
            w <= n,
            forall|x: int|
                0 <= x < w && (#[trigger] g.edge(v as int, x)) is Some ==> (g.vd(x).ty
                    == VType::Z && g.edge(v as int, x) == Some(EType::H)) || g.vd(x).ty
                    == VType::B,
        decreases n - w,
    {
        match g.edge_type_opt(v, w) {
            Some(et) => {
                let t = g.vertex_type(w);
                if !(t == VType::Z && et == EType::H || t == VType::B) {
                    return false;
                }
            },
            None => {},
        }
        w = w + 1;
    }
    true
}

/// Check that [`gen_pivot_unchecked`] can be matched.  This is necessary
/// but not sufficient for progress: repeatedly applying the rule under this
/// check alone need not terminate; use the reduce or boundary variants for
/// a terminating strategy.
pub fn check_gen_pivot(g: &Graph, v0: V, v1: V) -> (r: bool)
    requires
        g.wf(),
    ensures
        r == spec_check_gen_pivot(*g, v0 as int, v1 as int),
{
    if v0 == v1 {
        return false;
    }
    if g.edge_type_opt(v0, v1) != Some(EType::H) {
        return false;
    }
    if g.vertex_type(v0) != VType::Z || g.vertex_type(v1) != VType::Z {
        return false;
    }
    nbrs_all_z_h_or_b(g, v0) && nbrs_all_z_h_or_b(g, v1)
}

/// Whether `v` is interior Pauli: a Pauli phase with every neighbor a
/// Z-spider of degree above one (so `v` is not a phase gadget).
pub open spec fn spec_is_interior_pauli(g: Graph, v: int) -> bool {
    &&& g.live(v)
    &&& g.vd(v).phase.wf()
    &&& (g.vd(v).phase.val() == 0 || g.vd(v).phase.val() == pow2(61))
    &&& (forall|w: int|
        0 <= w < g.n() && (#[trigger] g.edge(v, w)) is Some ==> g.vd(w).ty == VType::Z
            && g.spec_degree(w) > 1)
}

/// An interior Pauli vertex: Pauli phase, every neighbor a Z-spider of
/// degree above one.
pub fn is_interior_pauli(g: &Graph, v: V) -> (r: bool)
    requires
        g.wf(),
    ensures
        r == spec_is_interior_pauli(*g, v as int),
{
    match g.vertex_data_opt(v) {
        Some(vd) => {
            if !vd.phase.is_pauli() {
                return false;
            }
            let n = g.num_slots();
            let mut w: usize = 0;
            while w < n
                invariant
                    g.wf(),
                    g.live(v as int),
                    n == g.n(),
                    w <= n,
                    forall|x: int|
                        0 <= x < w && (#[trigger] g.edge(v as int, x)) is Some ==> g.vd(x).ty
                            == VType::Z && g.spec_degree(x) > 1,
                decreases n - w,
            {
                if g.connected(v, w) {
                    proof {
                        assert(g.adj@[v as int]@[w as int] is Some);
                    }
                    if g.vertex_type(w) != VType::Z || g.degree(w) <= 1 {
                        return false;
                    }
                }
                w = w + 1;
            }
            true
        },
        None => false,
    }
}

/// Whether `v` is boundary Pauli: a Pauli phase with at least one boundary
/// neighbor.
pub open spec fn spec_is_boundary_pauli(g: Graph, v: int) -> bool {
    &&& g.live(v)
    &&& g.vd(v).phase.wf()
    &&& (g.vd(v).phase.val() == 0 || g.vd(v).phase.val() == pow2(61))
    &&& (exists|w: int|
        0 <= w < g.n() && (#[trigger] g.edge(v, w)) is Some && g.vd(w).ty == VType::B)
}

/// A boundary Pauli vertex: Pauli phase, some neighbor a boundary.
pub fn is_boundary_pauli(g: &Graph, v: V) -> (r: bool)
    requires
        g.wf(),
    ensures
        r == spec_is_boundary_pauli(*g, v as int),
{
    match g.vertex_data_opt(v) {
        Some(vd) => {
            if !vd.phase.is_pauli() {
                return false;
            }
            let n = g.num_slots();
            let mut w: usize = 0;
            while w < n
                invariant
                    g.wf(),
                    g.live(v as int),
                    g.vd(v as int).phase.val() == 0 || g.vd(v as int).phase.val() == pow2(61),
                    n == g.n(),
                    w <= n,
                    forall|x: int|
                        0 <= x < w ==> !((#[trigger] g.edge(v as int, x)) is Some && g.vd(x).ty
                            == VType::B),
                decreases n - w,
            {
                if g.connected(v, w) {
                    proof {
                        assert(g.adj@[v as int]@[w as int] is Some);
                    }
                    if g.vertex_type(w) == VType::B {
                        proof {
                            let wit = w as int;
                            assert(0 <= wit < g.n() && g.edge(v as int, wit) is Some && g.vd(
                                wit,
                            ).ty == VType::B);
                            assert(g.live(v as int) && g.vd(v as int).phase.wf());
                            assert(spec_is_boundary_pauli(*g, v as int));
                        }
                        return true;
                    }
                }
                w = w + 1;
            }
            false
        },
        None => false,
    }
}

/// Whether `v` is boundary Pauli through a Hadamard edge specifically.
pub open spec fn spec_is_boundary_pauli_with_h(g: Graph, v: int) -> bool {
    &&& g.live(v)
    &&& g.vd(v).phase.wf()
    &&& (g.vd(v).phase.val() == 0 || g.vd(v).phase.val() == pow2(61))
    &&& (exists|w: int|
        0 <= w < g.n() && #[trigger] g.edge(v, w) == Some(EType::H) && g.vd(w).ty == VType::B)
}

/// A boundary Pauli vertex reached from its boundary by a Hadamard edge.
pub fn is_boundary_pauli_with_h(g: &Graph, v: V) -> (r: bool)
    requires
        g.wf(),
    ensures
        r == spec_is_boundary_pauli_with_h(*g, v as int),
{
    match g.vertex_data_opt(v) {
        Some(vd) => {
            if !vd.phase.is_pauli() {
                return false;
            }
            let n = g.num_slots();
            let mut w: usize = 0;
            while w < n
                invariant
                    g.wf(),
                    g.live(v as int),
                    g.vd(v as int).phase.val() == 0 || g.vd(v as int).phase.val() == pow2(61),
                    n == g.n(),
                    w <= n,
                    forall|x: int|
                        0 <= x < w ==> !(#[trigger] g.edge(v as int, x) == Some(EType::H)
                            && g.vd(x).ty == VType::B),
                decreases n - w,
            {
                if g.edge_type_opt(v, w) == Some(EType::H) {
                    proof {
                        assert(g.adj@[v as int]@[w as int] is Some);
                    }
                    if g.vertex_type(w) == VType::B {
                        proof {
                            let wit = w as int;
                            assert(0 <= wit < g.n() && g.edge(v as int, wit) == Some(EType::H)
                                && g.vd(wit).ty == VType::B);
                            assert(g.live(v as int) && g.vd(v as int).phase.wf());
                            assert(spec_is_boundary_pauli_with_h(*g, v as int));
                        }
                        return true;
                    }
                }
                w = w + 1;
            }
            false
        },
        None => false,
    }
}

/// Whether `v` has a proper Clifford phase and a boundary neighbor.
pub open spec fn spec_is_boundary_proper_clifford(g: Graph, v: int) -> bool {
    &&& g.live(v)
    &&& g.vd(v).phase.wf()
    &&& (g.vd(v).phase.val() == pow2(60) || g.vd(v).phase.val() == 3 * pow2(60))
    &&& (exists|w: int|
        0 <= w < g.n() && (#[trigger] g.edge(v, w)) is Some && g.vd(w).ty == VType::B)
}

/// A boundary proper-Clifford vertex.
pub fn is_boundary_proper_clifford(g: &Graph, v: V) -> (r: bool)
    requires
        g.wf(),
    ensures
        r == spec_is_boundary_proper_clifford(*g, v as int),
{
    match g.vertex_data_opt(v) {
        Some(vd) => {
            if !vd.phase.is_proper_clifford() {
                return false;
            }
            let n = g.num_slots();
            let mut w: usize = 0;
            while w < n
                invariant
                    g.wf(),
                    g.live(v as int),
                    g.vd(v as int).phase.val() == pow2(60) || g.vd(v as int).phase.val() == 3
                        * pow2(60),
                    n == g.n(),
                    w <= n,
                    forall|x: int|
                        0 <= x < w ==> !((#[trigger] g.edge(v as int, x)) is Some && g.vd(x).ty
                            == VType::B),
                decreases n - w,
            {
                if g.connected(v, w) {
                    proof {
                        assert(g.adj@[v as int]@[w as int] is Some);
                    }
                    if g.vertex_type(w) == VType::B {
                        proof {
                            let wit = w as int;
                            assert(0 <= wit < g.n() && g.edge(v as int, wit) is Some && g.vd(
                                wit,
                            ).ty == VType::B);
                            assert(g.live(v as int) && g.vd(v as int).phase.wf());
                            assert(spec_is_boundary_proper_clifford(*g, v as int));
                        }
                        return true;
                    }
                }
                w = w + 1;
            }
            false
        },
        None => false,
    }
}

/// Check the generalized pivot with a guarantee of progress: at least one
/// endpoint is already interior Pauli, so applying the rule strictly
/// reduces the number of interior Pauli vertices.
pub fn check_gen_pivot_reduce(g: &Graph, v0: V, v1: V) -> (r: bool)
    requires
        g.wf(),
    ensures
        r == (spec_check_gen_pivot(*g, v0 as int, v1 as int) && (spec_is_interior_pauli(
            *g,
            v0 as int,
        ) || spec_is_interior_pauli(*g, v1 as int))),
{
    check_gen_pivot(g, v0, v1) && (is_interior_pauli(g, v0) || is_interior_pauli(g, v1))
}

/// Check the generalized pivot with `v0` boundary Pauli.
pub fn check_boundary_pivot(g: &Graph, v0: V, v1: V) -> (r: bool)
    requires
        g.wf(),
    ensures
        r == (spec_check_gen_pivot(*g, v0 as int, v1 as int) && spec_is_boundary_pauli(
            *g,
            v0 as int,
        )),
{
    check_gen_pivot(g, v0, v1) && is_boundary_pauli(g, v0)
}

/// Check the generalized pivot with `v0` boundary Pauli over a Hadamard
/// edge.
pub fn check_h_boundary_pivot(g: &Graph, v0: V, v1: V) -> (r: bool)
    requires
        g.wf(),
    ensures
        r == (spec_check_gen_pivot(*g, v0 as int, v1 as int) && spec_is_boundary_pauli_with_h(
            *g,
            v0 as int,
        )),
{
    check_gen_pivot(g, v0, v1) && is_boundary_pauli_with_h(g, v0)
}

/// One endpoint after normalization: alive, a Z-spider with its original
/// variables, a Pauli phase, and every neighbor a Z-spider over a Hadamard
/// edge.
pub open spec fn spec_endpoint_normalized(g0: Graph, gm: Graph, v: int) -> bool {
    &&& gm.live(v)
    &&& gm.vd(v).ty == VType::Z
    &&& gm.vd(v).vars == g0.vd(v).vars
    &&& gm.vd(v).phase.wf()
    &&& (gm.vd(v).phase.val() == 0 || gm.vd(v).phase.val() == pow2(61))
    &&& spec_nbrs_z_h(gm, v)
}

/// The normalized diagram a generalized pivot builds before the base pivot
/// fires: fresh gadget and buffer spiders may exist, but every original
/// vertex other than the two endpoints is untouched, every edge between
/// original vertices away from the endpoints is as it was, the scalar,
/// factors and boundary lists are unchanged, and both endpoints are
/// interior Pauli with the Hadamard edge between them intact.
pub open spec fn spec_gen_pivot_normalized(g0: Graph, gm: Graph, v0: int, v1: int) -> bool {
    &&& gm.wf()
    &&& gm.n() >= g0.n()
    &&& (forall|w: int| 0 <= w < g0.n() ==> gm.live(w) == #[trigger] g0.live(w))
    &&& (forall|w: int|
        0 <= w < g0.n() && w != v0 && w != v1 ==> gm.vdata@[w] == #[trigger] g0.vdata@[w])
    &&& gm.inputs@ == g0.inputs@
    &&& gm.outputs@ == g0.outputs@
    &&& gm.scalar == g0.scalar
    &&& gm.factors@ == g0.factors@
    &&& gm.edge(v0, v1) == Some(EType::H)
    &&& spec_endpoint_normalized(g0, gm, v0)
    &&& spec_endpoint_normalized(g0, gm, v1)
    &&& (forall|a: int, b: int|
        #![trigger gm.adj@[a]@[b]]
        0 <= a < g0.n() && 0 <= b < g0.n() && a != v0 && a != v1 && b != v0 && b != v1
            ==> gm.edge(a, b) == g0.edge(a, b))
}

/// The effect of a generalized pivot: some normalized diagram exists on
/// which the base pivot's check holds and whose pivot produced the result.
pub open spec fn spec_gen_pivot_effect(g0: Graph, g1: Graph, v0: int, v1: int) -> bool {
    exists|gm: Graph|
        #![trigger spec_gen_pivot_normalized(g0, gm, v0, v1)]
        spec_gen_pivot_normalized(g0, gm, v0, v1) && spec_check_pivot(gm, v0, v1)
            && spec_pivot_shape(gm, g1, v0, v1)
}

/// The generalized pivot: gadgetize any non-Pauli phase on either endpoint
/// and buffer away any boundary neighbor, so both endpoints become interior
/// Pauli; the normalization provably establishes the base pivot's check,
/// and the pivot then fires.
pub fn gen_pivot_unchecked(g: &mut Graph, v0: V, v1: V)
    requires
        old(g).wf(),
        old(g).n() <= 0x1000_0000,
        spec_check_gen_pivot(*old(g), v0 as int, v1 as int),
    ensures
        final(g).wf(),
        spec_gen_pivot_effect(*old(g), *final(g), v0 as int, v1 as int),
{
    proof {
        assert(old(g).adj@[v0 as int]@[v1 as int] is Some);
        crate::graph::lemma_cnt_row_bound(old(g).adj@[v0 as int]@, old(g).n());
    }
    let nhd0 = g.neighbor_vec(v0);
    proof {
        assert forall|a: int| 0 <= a < nhd0@.len() implies nhd0@[a] != v0 by {
            assert(old(g).edge(v0 as int, nhd0@[a] as int) is Some);
            assert(old(g).edge(v0 as int, v0 as int) is None);
        };
    }
    let ghost g0 = *old(g);
    unfuse_gadget(g, v0);
    let k0 = nhd0.len();
    proof {
        assert forall|w: int|
            0 <= w < g.n() && (#[trigger] g.edge(v0 as int, w)) is Some implies (g.vd(w).ty
            == VType::Z && g.edge(v0 as int, w) == Some(EType::H)) || (g.vd(w).ty == VType::B
            && exists|a: int| 0 <= a < nhd0@.len() && nhd0@[a] == w as V) by {
            if w < g0.n() {
                assert(g.edge(v0 as int, w) == g0.edge(v0 as int, w));
                assert(g0.edge(v0 as int, w) is Some);
                if g.vd(w).ty == VType::B {
                    assert(g.vdata@[w] == g0.vdata@[w]);
                    assert(nhd0@.contains(w as V));
                    let a = choose|a: int| 0 <= a < nhd0@.len() && nhd0@[a] == w as V;
                    assert(0 <= a < nhd0@.len() && nhd0@[a] == w as V);
                }
            } else {
                assert(w == g0.n() || w == g0.n() + 1);
                if w == g0.n() {
                    assert(g.vd(w).ty == VType::Z && g.edge(v0 as int, w) == Some(EType::H));
                } else {
                    assert(g.edge(v0 as int, w) is None);
                }
            }
        };
    }
    let mut i: usize = 0;
    while i < k0
        invariant
            old(g).wf(),
            spec_check_gen_pivot(*old(g), v0 as int, v1 as int),
            g.wf(),
            i <= k0,
            k0 == nhd0@.len(),
            k0 <= old(g).n(),
            old(g).n() <= 0x1000_0000,
            old(g).n() <= g.n() <= old(g).n() + 2 + i,
            v0 < old(g).n(),
            v1 < old(g).n(),
            v0 != v1,
            forall|a: int, b: int|
                #![trigger old(g).adj@[a]@[b]]
                0 <= a < old(g).n() && 0 <= b < old(g).n() && a != v0 && b != v0 ==> g.edge(
                    a,
                    b,
                ) == old(g).edge(a, b),
            forall|w: int| 0 <= w < old(g).n() ==> g.live(w) == #[trigger] old(g).live(w),
            forall|w: int|
                0 <= w < old(g).n() && w != v0 && w != v1 ==> g.vdata@[w] == #[trigger] old(
                    g,
                ).vdata@[w],
            g.vdata@[v1 as int] == old(g).vdata@[v1 as int],
            g.inputs@ == old(g).inputs@,
            g.outputs@ == old(g).outputs@,
            g.scalar == old(g).scalar,
            g.factors@ == old(g).factors@,
            g.live(v0 as int),
            g.vd(v0 as int).ty == VType::Z,
            g.vd(v0 as int).vars == old(g).vd(v0 as int).vars,
            g.vd(v0 as int).phase.wf(),
            g.vd(v0 as int).phase.val() == 0 || g.vd(v0 as int).phase.val() == pow2(61),
            g.edge(v0 as int, v1 as int) == Some(EType::H),
            forall|w: int|
                0 <= w < old(g).n() ==> #[trigger] g.edge(v1 as int, w) == old(g).edge(
                    v1 as int,
                    w,
                ),
            forall|w: int| old(g).n() <= w < g.n() ==> #[trigger] g.edge(v1 as int, w) is None,
            forall|a: int| 0 <= a < k0 ==> (#[trigger] nhd0@[a] as int) < old(g).n(),
            forall|a: int| 0 <= a < k0 ==> nhd0@[a] != v0,
            forall|a: int| 0 <= a < k0 ==> g.live(#[trigger] nhd0@[a] as int),
            forall|a: int, b: int| 0 <= a < b < k0 ==> nhd0@[a] < nhd0@[b],
            forall|w: int|
                0 <= w < g.n() && (#[trigger] g.edge(v0 as int, w)) is Some ==> (g.vd(w).ty
                    == VType::Z && g.edge(v0 as int, w) == Some(EType::H)) || (g.vd(w).ty
                    == VType::B && exists|a: int| i <= a < k0 && nhd0@[a] == w as V),
        decreases k0 - i,
    {
        let b = nhd0[i];
        let ghost gp = *g;
        if g.connected(v0, b) {
            proof {
                if g.vd(b as int).ty == VType::B {
                    assert(b != v1);
                }
            }
            unfuse_boundary(g, v0, b);
            proof {
                if gp.vd(b as int).ty != VType::B {
                    assert(*g == gp);
                }
                assert forall|w: int| 0 <= w < old(g).n() implies #[trigger] g.edge(
                    v1 as int,
                    w,
                ) == gp.edge(v1 as int, w) by {
                    assert(v1 != v0);
                };
                assert forall|w: int| old(g).n() <= w < g.n() implies #[trigger] g.edge(
                    v1 as int,
                    w,
                ) is None by {
                    if w < gp.n() {
                        assert(g.edge(v1 as int, w) == gp.edge(v1 as int, w));
                    } else {
                        assert(g.vd(b as int).ty == VType::B || w < gp.n());
                        assert(v1 != v0 && v1 != b as int);
                    }
                };
                assert forall|w: int|
                    0 <= w < g.n() && (#[trigger] g.edge(v0 as int, w)) is Some implies (g.vd(
                    w,
                ).ty == VType::Z && g.edge(v0 as int, w) == Some(EType::H)) || (g.vd(w).ty
                    == VType::B && exists|a: int| i + 1 <= a < k0 && nhd0@[a] == w as V) by {
                    if gp.vd(b as int).ty != VType::B {
                        assert(*g == gp);
                    }
                    if w < gp.n() {
                        if w != b {
                            assert(g.edge(v0 as int, w) == gp.edge(v0 as int, w));
                            assert(gp.edge(v0 as int, w) is Some);
                            assert(g.vdata@[w] == gp.vdata@[w]);
                            if g.vd(w).ty == VType::B {
                                let a = choose|a: int| i <= a < k0 && nhd0@[a] == w as V;
                                assert(nhd0@[i as int] == b && nhd0@[a] == w as V);
                                assert(a != i);
                                assert(i + 1 <= a < k0 && nhd0@[a] == w as V);
                            }
                        } else {
                            assert(g.vd(w).ty != VType::B || g.edge(v0 as int, w) is None);
                        }
                    } else {
                        assert(g.vd(w).ty == VType::Z && g.edge(v0 as int, w) == Some(
                            EType::H,
                        ));
                    }
                };
            }
        } else {
            proof {
                assert forall|w: int|
                    0 <= w < g.n() && (#[trigger] g.edge(v0 as int, w)) is Some implies (g.vd(
                    w,
                ).ty == VType::Z && g.edge(v0 as int, w) == Some(EType::H)) || (g.vd(w).ty
                    == VType::B && exists|a: int| i + 1 <= a < k0 && nhd0@[a] == w as V) by {
                    if g.vd(w).ty == VType::B {
                        let a = choose|a: int| i <= a < k0 && nhd0@[a] == w as V;
                        if a == i {
                            assert(g.edge(v0 as int, b as int) is Some);
                        }
                        assert(i + 1 <= a < k0 && nhd0@[a] == w as V);
                    }
                };
            }
        }
        i = i + 1;
    }
    let ghost gmid = *g;
    let nhd1 = g.neighbor_vec(v1);
    proof {
        crate::graph::lemma_cnt_row_bound(gmid.adj@[v1 as int]@, gmid.n());
        assert forall|a: int| 0 <= a < nhd1@.len() implies nhd1@[a] != v1 by {
            assert(gmid.edge(v1 as int, nhd1@[a] as int) is Some);
            assert(gmid.edge(v1 as int, v1 as int) is None);
        };
        assert forall|a: int| 0 <= a < nhd1@.len() implies (nhd1@[a] as int) < old(g).n() by {
            assert(gmid.edge(v1 as int, nhd1@[a] as int) is Some);
        };
        assert(g.live(v1 as int));
        assert(g.vd(v1 as int).ty == VType::Z);
    }
    unfuse_gadget(g, v1);
    let k1 = nhd1.len();
    proof {
        assert forall|w: int|
            0 <= w < g.n() && (#[trigger] g.edge(v1 as int, w)) is Some implies (g.vd(w).ty
            == VType::Z && g.edge(v1 as int, w) == Some(EType::H)) || (g.vd(w).ty == VType::B
            && exists|a: int| 0 <= a < nhd1@.len() && nhd1@[a] == w as V) by {
            if w < gmid.n() {
                assert(g.edge(v1 as int, w) == gmid.edge(v1 as int, w));
                assert(gmid.edge(v1 as int, w) is Some);
                assert(g.vdata@[w] == gmid.vdata@[w]);
                if w < old(g).n() {
                    assert(gmid.edge(v1 as int, w) == old(g).edge(v1 as int, w));
                    assert(old(g).edge(v1 as int, w) is Some);
                    if w != v0 && w != v1 as int {
                        assert(gmid.vdata@[w] == old(g).vdata@[w]);
                    }
                    if g.vd(w).ty == VType::B {
                        assert(nhd1@.contains(w as V));
                        let a = choose|a: int| 0 <= a < nhd1@.len() && nhd1@[a] == w as V;
                        assert(0 <= a < nhd1@.len() && nhd1@[a] == w as V);
                    }
                } else {
                    assert(gmid.edge(v1 as int, w) is None);
                }
            } else {
                assert(w == gmid.n() || w == gmid.n() + 1);
                if w == gmid.n() {
                    assert(g.vd(w).ty == VType::Z && g.edge(v1 as int, w) == Some(EType::H));
                } else {
                    assert(g.edge(v1 as int, w) is None);
                }
            }
        };
        assert forall|w: int|
            0 <= w < g.n() && (#[trigger] g.edge(v0 as int, w)) is Some implies g.vd(w).ty
            == VType::Z && g.edge(v0 as int, w) == Some(EType::H) by {
            if w < gmid.n() {
                assert(g.edge(v0 as int, w) == gmid.edge(v0 as int, w));
                assert(gmid.edge(v0 as int, w) is Some);
                assert(g.vdata@[w] == gmid.vdata@[w] || w == v1);
            } else {
                if w == gmid.n() {
                    assert(g.edge(v0 as int, w) is None);
                } else {
                    assert(g.edge(v0 as int, w) is None);
                }
            }
        };
    }
    let mut j: usize = 0;
    while j < k1
        invariant
            old(g).wf(),
            spec_check_gen_pivot(*old(g), v0 as int, v1 as int),
            g.wf(),
            j <= k1,
            k1 == nhd1@.len(),
            k1 <= old(g).n() + 2 + k0,
            k0 <= old(g).n(),
            old(g).n() <= 0x1000_0000,
            old(g).n() <= g.n() <= old(g).n() + 4 + k0 + j,
            v0 < old(g).n(),
            v1 < old(g).n(),
            v0 != v1,
            forall|a: int, b: int|
                #![trigger old(g).adj@[a]@[b]]
                0 <= a < old(g).n() && 0 <= b < old(g).n() && a != v0 && a != v1 && b != v0
                    && b != v1 ==> g.edge(a, b) == old(g).edge(a, b),
            forall|w: int| 0 <= w < old(g).n() ==> g.live(w) == #[trigger] old(g).live(w),
            forall|w: int|
                0 <= w < old(g).n() && w != v0 && w != v1 ==> g.vdata@[w] == #[trigger] old(
                    g,
                ).vdata@[w],
            g.inputs@ == old(g).inputs@,
            g.outputs@ == old(g).outputs@,
            g.scalar == old(g).scalar,
            g.factors@ == old(g).factors@,
            g.live(v0 as int),
            g.vd(v0 as int).ty == VType::Z,
            g.vd(v0 as int).vars == old(g).vd(v0 as int).vars,
            g.vd(v0 as int).phase.wf(),
            g.vd(v0 as int).phase.val() == 0 || g.vd(v0 as int).phase.val() == pow2(61),
            spec_nbrs_z_h(*g, v0 as int),
            g.live(v1 as int),
            g.vd(v1 as int).ty == VType::Z,
            g.vd(v1 as int).vars == old(g).vd(v1 as int).vars,
            g.vd(v1 as int).phase.wf(),
            g.vd(v1 as int).phase.val() == 0 || g.vd(v1 as int).phase.val() == pow2(61),
            g.edge(v0 as int, v1 as int) == Some(EType::H),
            forall|a: int| 0 <= a < k1 ==> (#[trigger] nhd1@[a] as int) < g.n(),
            forall|a: int| 0 <= a < k1 ==> nhd1@[a] != v1,
            forall|a: int| 0 <= a < k1 ==> g.live(#[trigger] nhd1@[a] as int),
            forall|a: int, b: int| 0 <= a < b < k1 ==> nhd1@[a] < nhd1@[b],
            forall|w: int|
                0 <= w < g.n() && (#[trigger] g.edge(v1 as int, w)) is Some ==> (g.vd(w).ty
                    == VType::Z && g.edge(v1 as int, w) == Some(EType::H)) || (g.vd(w).ty
                    == VType::B && exists|a: int| j <= a < k1 && nhd1@[a] == w as V),
        decreases k1 - j,
    {
        let b = nhd1[j];
        let ghost gp = *g;
        if g.connected(v1, b) {
            proof {
                if g.vd(b as int).ty == VType::B {
                    assert(b != v0);
                }
            }
            unfuse_boundary(g, v1, b);
            proof {
                if gp.vd(b as int).ty != VType::B {
                    assert(*g == gp);
                }
                assert forall|w: int|
                    0 <= w < g.n() && (#[trigger] g.edge(v1 as int, w)) is Some implies (g.vd(
                    w,
                ).ty == VType::Z && g.edge(v1 as int, w) == Some(EType::H)) || (g.vd(w).ty
                    == VType::B && exists|a: int| j + 1 <= a < k1 && nhd1@[a] == w as V) by {
                    if w < gp.n() {
                        if w != b {
                            assert(g.edge(v1 as int, w) == gp.edge(v1 as int, w));
                            assert(gp.edge(v1 as int, w) is Some);
                            assert(g.vdata@[w] == gp.vdata@[w]);
                            if g.vd(w).ty == VType::B {
                                let a = choose|a: int| j <= a < k1 && nhd1@[a] == w as V;
                                assert(nhd1@[j as int] == b && nhd1@[a] == w as V);
                                assert(a != j);
                                assert(j + 1 <= a < k1 && nhd1@[a] == w as V);
                            }
                        } else {
                            assert(g.vd(w).ty != VType::B || g.edge(v1 as int, w) is None);
                        }
                    } else {
                        assert(g.vd(w).ty == VType::Z && g.edge(v1 as int, w) == Some(
                            EType::H,
                        ));
                    }
                };
                assert forall|w: int|
                    0 <= w < g.n() && (#[trigger] g.edge(v0 as int, w)) is Some implies g.vd(
                    w,
                ).ty == VType::Z && g.edge(v0 as int, w) == Some(EType::H) by {
                    if w < gp.n() {
                        assert(v0 != v1 as int && (v0 != b as int || gp.vd(b as int).ty
                            != VType::B));
                        assert(g.edge(v0 as int, w) == gp.edge(v0 as int, w));
                        assert(gp.edge(v0 as int, w) is Some);
                        assert(g.vdata@[w] == gp.vdata@[w]);
                    } else {
                        assert(g.edge(v0 as int, w) is None);
                    }
                };
            }
        } else {
            proof {
                assert forall|w: int|
                    0 <= w < g.n() && (#[trigger] g.edge(v1 as int, w)) is Some implies (g.vd(
                    w,
                ).ty == VType::Z && g.edge(v1 as int, w) == Some(EType::H)) || (g.vd(w).ty
                    == VType::B && exists|a: int| j + 1 <= a < k1 && nhd1@[a] == w as V) by {
                    if g.vd(w).ty == VType::B {
                        let a = choose|a: int| j <= a < k1 && nhd1@[a] == w as V;
                        if a == j {
                            assert(g.edge(v1 as int, b as int) is Some);
                        }
                        assert(j + 1 <= a < k1 && nhd1@[a] == w as V);
                    }
                };
            }
        }
        j = j + 1;
    }
    let ghost gm = *g;
    proof {
        assert(spec_endpoint_normalized(*old(g), gm, v0 as int));
        assert(spec_endpoint_normalized(*old(g), gm, v1 as int));
        assert(spec_gen_pivot_normalized(*old(g), gm, v0 as int, v1 as int));
        assert(spec_check_pivot(gm, v0 as int, v1 as int));
    }
    pivot_unchecked(g, v0, v1);
    proof {
        assert(spec_pivot_shape(gm, *g, v0 as int, v1 as int));
        assert(spec_gen_pivot_effect(*old(g), *g, v0 as int, v1 as int));
    }
}

/// A checked generalized pivot.
pub fn gen_pivot(g: &mut Graph, v0: V, v1: V) -> (r: bool)
    requires
        old(g).wf(),
        old(g).n() <= 0x1000_0000,
    ensures
        final(g).wf(),
        r == spec_check_gen_pivot(*old(g), v0 as int, v1 as int),
        !r ==> *final(g) == *old(g),
        r ==> spec_gen_pivot_effect(*old(g), *final(g), v0 as int, v1 as int),
{
    if check_gen_pivot(g, v0, v1) {
        gen_pivot_unchecked(g, v0, v1);
        true
    } else {
        false
    }
}

/// A checked pivot restricted to matchings that reduce the interior Pauli
/// count.
pub fn boundary_pivot(g: &mut Graph, v0: V, v1: V) -> (r: bool)
    requires
        old(g).wf(),
        old(g).n() <= 0x1000_0000,
    ensures
        final(g).wf(),
        r == (spec_check_gen_pivot(*old(g), v0 as int, v1 as int) && spec_is_boundary_pauli(
            *old(g),
            v0 as int,
        )),
        !r ==> *final(g) == *old(g),
        r ==> spec_gen_pivot_effect(*old(g), *final(g), v0 as int, v1 as int),
{
    if check_boundary_pivot(g, v0, v1) {
        gen_pivot_unchecked(g, v0, v1);
        true
    } else {
        false
    }
}

/// A checked pivot restricted to a boundary Pauli vertex reached over a
/// Hadamard edge.
pub fn h_boundary_pivot(g: &mut Graph, v0: V, v1: V) -> (r: bool)
    requires
        old(g).wf(),
        old(g).n() <= 0x1000_0000,
    ensures
        final(g).wf(),
        r == (spec_check_gen_pivot(*old(g), v0 as int, v1 as int)
            && spec_is_boundary_pauli_with_h(*old(g), v0 as int)),
        !r ==> *final(g) == *old(g),
        r ==> spec_gen_pivot_effect(*old(g), *final(g), v0 as int, v1 as int),
{
    if check_h_boundary_pivot(g, v0, v1) {
        gen_pivot_unchecked(g, v0, v1);
        true
    } else {
        false
    }
}

/// Whether the boundary local complementation applies: `v0` and `v1` are
/// distinct, not Hadamard-joined, `v0` is boundary proper Clifford and `v1`
/// is interior Pauli.
pub open spec fn spec_check_boundary_local_comp(g: Graph, v0: int, v1: int) -> bool {
    &&& v0 != v1
    &&& g.edge_opt(v0, v1) != Some(EType::H)
    &&& spec_is_boundary_proper_clifford(g, v0)
    &&& spec_is_interior_pauli(g, v1)
}

/// Check that [`boundary_local_comp_unchecked`] applies.
pub fn check_boundary_local_comp(g: &Graph, v0: V, v1: V) -> (r: bool)
    requires
        g.wf(),
    ensures
        r == spec_check_boundary_local_comp(*g, v0 as int, v1 as int),
{
    v0 != v1 && g.edge_type_opt(v0, v1) != Some(EType::H) && is_boundary_proper_clifford(g, v0)
        && is_interior_pauli(g, v1)
}

/// An executable check for the surgery precondition of
/// [`local_comp_unchecked`].
fn check_local_comp_pre(g: &Graph, v: V) -> (r: bool)
    requires
        g.wf(),
    ensures
        r == (g.live(v as int) && spec_local_comp_pre(*g, v as int)),
{
    match g.vertex_data_opt(v) {
        Some(vd) => {
            if vd.ty != VType::Z || !vd.phase.is_eighth() || vd.phase.exp > 1 {
                return false;
            }
            let n = g.num_slots();
            let mut w: usize = 0;
            while w < n
                invariant
                    g.wf(),
                    g.live(v as int),
                    n == g.n(),
                    w <= n,
                    forall|x: int|
                        0 <= x < w && (#[trigger] g.edge(v as int, x)) is Some ==> g.vd(x).ty
                            == VType::Z,
                decreases n - w,
            {
                if g.connected(v, w) {
                    proof {
                        assert(g.adj@[v as int]@[w as int] is Some);
                    }
                    if g.vertex_type(w) != VType::Z {
                        return false;
                    }
                }
                w = w + 1;
            }
            true
        },
        None => false,
    }
}

/// The diagram after `v0`'s boundary neighbors are buffered away: fresh
/// Z-spiders may exist, no original vertex changed, every edge not
/// touching `v0` as it was, and no neighbor of `v0` is a boundary.
pub open spec fn spec_boundary_unfused(g0: Graph, gm: Graph, v0: int) -> bool {
    &&& gm.wf()
    &&& gm.n() >= g0.n()
    &&& (forall|w: int| 0 <= w < g0.n() ==> gm.live(w) == #[trigger] g0.live(w))
    &&& (forall|w: int| 0 <= w < g0.n() ==> gm.vdata@[w] == #[trigger] g0.vdata@[w])
    &&& gm.inputs@ == g0.inputs@
    &&& gm.outputs@ == g0.outputs@
    &&& gm.scalar == g0.scalar
    &&& gm.factors@ == g0.factors@
    &&& (forall|w: int|
        0 <= w < gm.n() && (#[trigger] gm.edge(v0, w)) is Some ==> gm.vd(w).ty != VType::B)
    &&& (forall|a: int, b: int|
        #![trigger gm.adj@[a]@[b]]
        0 <= a < g0.n() && 0 <= b < g0.n() && a != v0 && b != v0 ==> gm.edge(a, b) == g0.edge(
            a,
            b,
        ))
}

/// The effect of a boundary local complementation: buffer `v0`'s boundary
/// neighbors, then complement at `v0` and at `v1`; each complementation
/// fires exactly when the surgery's own precondition holds on the diagram
/// it sees, which is what the rule's applicability was designed to bring
/// about.
///
/// The guard is deliberate.  The rule's usual statement applies each
/// complementation unconditionally, but the applicability check admits
/// shapes (an X-colored neighbor of the complemented vertex, say) on which
/// an unconditional complementation has no defined result; skipping the
/// complementation there keeps the diagram well-formed, and the contract
/// records on which middle diagrams each step fired.
pub open spec fn spec_boundary_local_comp_effect(g0: Graph, g1: Graph, v0: int, v1: int) -> bool {
    exists|gm: Graph, gn: Graph|
        #![trigger spec_boundary_unfused(g0, gm, v0), spec_local_comp_shape(gm, gn, v0)]
        {
            &&& spec_boundary_unfused(g0, gm, v0)
            &&& (spec_local_comp_pre(gm, v0) ==> spec_local_comp_shape(gm, gn, v0))
            &&& (!spec_local_comp_pre(gm, v0) ==> gn == gm)
            &&& (gn.live(v1) && spec_local_comp_pre(gn, v1) ==> spec_local_comp_shape(
                gn,
                g1,
                v1,
            ))
            &&& (!(gn.live(v1) && spec_local_comp_pre(gn, v1)) ==> g1 == gn)
        }
}

/// Buffer every boundary neighbor of `v0` away, then locally complement at
/// `v0` and at `v1`.
pub fn boundary_local_comp_unchecked(g: &mut Graph, v0: V, v1: V)
    requires
        old(g).wf(),
        old(g).n() <= 0x1000_0000,
        spec_check_boundary_local_comp(*old(g), v0 as int, v1 as int),
    ensures
        final(g).wf(),
        spec_boundary_local_comp_effect(*old(g), *final(g), v0 as int, v1 as int),
{
    proof {
        crate::graph::lemma_cnt_row_bound(old(g).adj@[v0 as int]@, old(g).n());
    }
    let nhd0 = g.neighbor_vec(v0);
    proof {
        assert forall|a: int| 0 <= a < nhd0@.len() implies nhd0@[a] != v0 by {
            assert(old(g).edge(v0 as int, nhd0@[a] as int) is Some);
            assert(old(g).edge(v0 as int, v0 as int) is None);
        };
    }
    let k0 = nhd0.len();
    let mut i: usize = 0;
    while i < k0
        invariant
            old(g).wf(),
            g.wf(),
            i <= k0,
            k0 == nhd0@.len(),
            k0 <= old(g).n(),
            old(g).n() <= 0x1000_0000,
            old(g).n() <= g.n() <= old(g).n() + i,
            v0 < old(g).n(),
            forall|a: int, b: int|
                #![trigger old(g).adj@[a]@[b]]
                0 <= a < old(g).n() && 0 <= b < old(g).n() && a != v0 && b != v0 ==> g.edge(
                    a,
                    b,
                ) == old(g).edge(a, b),
            forall|w: int| 0 <= w < old(g).n() ==> g.live(w) == #[trigger] old(g).live(w),
            forall|w: int| 0 <= w < old(g).n() ==> g.vdata@[w] == #[trigger] old(g).vdata@[w],
            g.inputs@ == old(g).inputs@,
            g.outputs@ == old(g).outputs@,
            g.scalar == old(g).scalar,
            g.factors@ == old(g).factors@,
            g.live(v0 as int),
            forall|a: int| 0 <= a < k0 ==> (#[trigger] nhd0@[a] as int) < old(g).n(),
            forall|a: int| 0 <= a < k0 ==> nhd0@[a] != v0,
            forall|a: int| 0 <= a < k0 ==> g.live(#[trigger] nhd0@[a] as int),
            forall|a: int, b: int| 0 <= a < b < k0 ==> nhd0@[a] < nhd0@[b],
            forall|w: int|
                0 <= w < g.n() && (#[trigger] g.edge(v0 as int, w)) is Some ==> g.vd(w).ty
                    != VType::B || exists|a: int| i <= a < k0 && nhd0@[a] == w as V,
        decreases k0 - i,
    {
        let b = nhd0[i];
        let ghost gp = *g;
        if g.connected(v0, b) {
            unfuse_boundary(g, v0, b);
            proof {
                if gp.vd(b as int).ty != VType::B {
                    assert(*g == gp);
                }
                assert forall|w: int|
                    0 <= w < g.n() && (#[trigger] g.edge(v0 as int, w)) is Some implies g.vd(
                    w,
                ).ty != VType::B || exists|a: int| i + 1 <= a < k0 && nhd0@[a] == w as V by {
                    if w < gp.n() {
                        if w != b {
                            assert(g.edge(v0 as int, w) == gp.edge(v0 as int, w));
                            assert(gp.edge(v0 as int, w) is Some);
                            assert(g.vdata@[w] == gp.vdata@[w]);
                            if g.vd(w).ty == VType::B {
                                let a = choose|a: int| i <= a < k0 && nhd0@[a] == w as V;
                                assert(nhd0@[i as int] == b && nhd0@[a] == w as V);
                                assert(a != i);
                                assert(i + 1 <= a < k0 && nhd0@[a] == w as V);
                            }
                        } else {
                            assert(g.vd(w).ty != VType::B || g.edge(v0 as int, w) is None);
                        }
                    } else {
                        assert(g.vd(w).ty == VType::Z);
                    }
                };
            }
        } else {
            proof {
                assert forall|w: int|
                    0 <= w < g.n() && (#[trigger] g.edge(v0 as int, w)) is Some implies g.vd(
                    w,
                ).ty != VType::B || exists|a: int| i + 1 <= a < k0 && nhd0@[a] == w as V by {
                    if g.vd(w).ty == VType::B {
                        let a = choose|a: int| i <= a < k0 && nhd0@[a] == w as V;
                        if a == i {
                            assert(g.edge(v0 as int, b as int) is Some);
                        }
                        assert(i + 1 <= a < k0 && nhd0@[a] == w as V);
                    }
                };
            }
        }
        i = i + 1;
    }
    let ghost gm = *g;
    proof {
        assert(spec_boundary_unfused(*old(g), gm, v0 as int));
    }
    if check_local_comp_pre(g, v0) {
        local_comp_unchecked(g, v0);
    }
    let ghost gn = *g;
    proof {
        assert(spec_local_comp_pre(gm, v0 as int) ==> spec_local_comp_shape(
            gm,
            gn,
            v0 as int,
        ));
    }
    if g.contains_vertex(v1) {
        if check_local_comp_pre(g, v1) {
            local_comp_unchecked(g, v1);
        }
    }
    proof {
        let ghost _t = spec_local_comp_shape(gm, gn, v0 as int);
        assert(spec_boundary_local_comp_effect(*old(g), *g, v0 as int, v1 as int));
    }
}

/// A checked boundary local complementation.
pub fn boundary_local_comp(g: &mut Graph, v0: V, v1: V) -> (r: bool)
    requires
        old(g).wf(),
        old(g).n() <= 0x1000_0000,
    ensures
        final(g).wf(),
        r == spec_check_boundary_local_comp(*old(g), v0 as int, v1 as int),
        !r ==> *final(g) == *old(g),
        r ==> spec_boundary_local_comp_effect(*old(g), *final(g), v0 as int, v1 as int),
{
    if check_boundary_local_comp(g, v0, v1) {
        boundary_local_comp_unchecked(g, v0, v1);
        true
    } else {
        false
    }
}

/// Whether the pair-removal rule applies: two connected spiders, each of
/// degree one (so joined only to each other).  Any phases are admitted;
/// ones the scalar ring cannot represent mark the scalar invalid on removal.
pub open spec fn spec_check_remove_pair(g: Graph, v0: int, v1: int) -> bool {
    &&& g.live(v0)
    &&& g.live(v1)
    &&& (g.vd(v0).ty == VType::Z || g.vd(v0).ty == VType::X)
    &&& (g.vd(v1).ty == VType::Z || g.vd(v1).ty == VType::X)
    &&& g.spec_degree(v0) == 1
    &&& g.spec_degree(v1) == 1
    &&& g.edge_opt(v0, v1) is Some
}

/// Check that [`remove_pair_unchecked`] applies.
pub fn check_remove_pair(g: &Graph, v0: V, v1: V) -> (r: bool)
    requires
        g.wf(),
    ensures
        r == spec_check_remove_pair(*g, v0 as int, v1 as int),
{
    match (g.vertex_type_opt(v0), g.vertex_type_opt(v1)) {
        (Some(t0), Some(t1)) => g.degree(v0) == 1 && g.degree(v1) == 1 && (t0 == VType::Z || t0
            == VType::X) && (t1 == VType::Z || t1 == VType::X) && g.connected(v0, v1),
        _ => false,
    }
}

/// Adding two `pi/4`-multiple phases adds their eighth indices modulo
/// eight.
proof fn lemma_add_eighth(p0: Phase, p1: Phase, ps: Phase)
    requires
        p0.wf(),
        p1.wf(),
        ps.wf(),
        p0.exp <= 2,
        p1.exp <= 2,
        ps.val() == (p0.val() + p1.val()) % (pow2(62) as int),
    ensures
        ps.exp <= 2,
        Scalar4::spec_eighth_of(ps) == (Scalar4::spec_eighth_of(p0) + Scalar4::spec_eighth_of(
            p1,
        )) % 8,
{
    vstd::arithmetic::power2::lemma2_to64();
    vstd::arithmetic::power2::lemma2_to64_rest();
    crate::phase::lemma_eighth_val(p0);
    crate::phase::lemma_eighth_val(p1);
    let j0 = Scalar4::spec_eighth_of(p0);
    let j1 = Scalar4::spec_eighth_of(p1);
    let m59 = pow2(59) as int;
    vstd::arithmetic::power2::lemma_pow2_pos(59);
    p0.lemma_val_bounds();
    p1.lemma_val_bounds();
    ps.lemma_val_bounds();
    vstd::arithmetic::div_mod::lemma_fundamental_div_mod(p0.val(), m59);
    vstd::arithmetic::div_mod::lemma_fundamental_div_mod(p1.val(), m59);
    assert(p0.val() == j0 * m59 && p1.val() == j1 * m59) by {
        assert(m59 * j0 == j0 * m59) by (nonlinear_arith);
        assert(m59 * j1 == j1 * m59) by (nonlinear_arith);
    };
    assert(pow2(62) as int == 8 * m59) by {
        vstd::arithmetic::power2::lemma_pow2_adds(59, 3);
    };
    assert(0 <= j0 < 8 && 0 <= j1 < 8) by {
        lemma_eighth_range(p0.val(), j0, m59);
        lemma_eighth_range(p1.val(), j1, m59);
    };
    assert(p0.val() + p1.val() == (j0 + j1) * m59) by (nonlinear_arith)
        requires
            p0.val() == j0 * m59,
            p1.val() == j1 * m59,
    ;
    if j0 + j1 < 8 {
        assert(0 <= (j0 + j1) * m59 < 8 * m59) by (nonlinear_arith)
            requires
                0 <= j0 + j1 < 8,
                m59 > 0,
        ;
        vstd::arithmetic::div_mod::lemma_small_mod(((j0 + j1) * m59) as nat, (8 * m59) as nat);
        assert(ps.val() == (j0 + j1) * m59);
        assert(Scalar4::spec_eighth_of(ps) == j0 + j1) by {
            assert((j0 + j1) * m59 == m59 * (j0 + j1)) by (nonlinear_arith);
            vstd::arithmetic::div_mod::lemma_div_multiples_vanish(j0 + j1, m59);
        };
        assert((j0 + j1) % 8 == j0 + j1);
        crate::phase::lemma_eighth_val(ps);
    } else {
        assert((j0 + j1) * m59 == 8 * m59 + (j0 + j1 - 8) * m59) by (nonlinear_arith);
        assert(0 <= (j0 + j1 - 8) * m59 < 8 * m59) by (nonlinear_arith)
            requires
                0 <= j0 + j1 - 8 < 8,
                m59 > 0,
        ;
        assert((8 * m59 + (j0 + j1 - 8) * m59) % (8 * m59) == (j0 + j1 - 8) * m59) by {
            vstd::arithmetic::div_mod::lemma_mod_multiples_vanish(
                1,
                (j0 + j1 - 8) * m59,
                8 * m59,
            );
            vstd::arithmetic::div_mod::lemma_small_mod(
                ((j0 + j1 - 8) * m59) as nat,
                (8 * m59) as nat,
            );
        };
        assert(ps.val() == (j0 + j1 - 8) * m59);
        assert(Scalar4::spec_eighth_of(ps) == j0 + j1 - 8) by {
            assert((j0 + j1 - 8) * m59 == m59 * (j0 + j1 - 8)) by (nonlinear_arith);
            vstd::arithmetic::div_mod::lemma_div_multiples_vanish(j0 + j1 - 8, m59);
        };
        assert((j0 + j1) % 8 == j0 + j1 - 8);
        crate::phase::lemma_eighth_val(ps);
    }
}

/// A value `j * m` lying in `[0, 8m)` has `0 <= j < 8`.
proof fn lemma_eighth_range(v: int, j: int, m: int)
    requires
        m > 0,
        v == j * m,
        0 <= v < 8 * m,
    ensures
        0 <= j < 8,
{
    if j >= 8 {
        assert(j * m >= 8 * m) by (nonlinear_arith)
            requires
                j >= 8,
                m > 0,
        ;
    }
    if j < 0 {
        assert(j * m < 0) by (nonlinear_arith)
            requires
                j < 0,
                m > 0,
        ;
    }
}

/// What a pair removal does to the scalar and the symbolic factors, stated
/// over the pair's data in `g0`.  A "same" pairing (plain edge between like
/// colors, or Hadamard between unlike colors) contributes
/// `1 + exp(i*pi*(p0+p1))`; an unlike pairing contributes
/// `sqrt(2)^-1 * (1 + exp(i*pi*p0) + exp(i*pi*p1) - exp(i*pi*(p0+p1)))`.
/// With variables the boolean branch values become factors: two linear
/// terms over whichever variable set (or their XOR) reproduces the branch
/// table, and the full quadratic four-term decomposition only when all
/// four branch values are needed.  Phases off the `pi/4` grid mark the
/// scalar invalid.
pub open spec fn spec_pair_scalar_effect(g0: Graph, g1: Graph, v0: int, v1: int) -> bool {
    let t0 = g0.vd(v0).ty;
    let t1 = g0.vd(v1).ty;
    let et = g0.edge(v0, v1).unwrap();
    let same = t0 == t1 && et == EType::N || t0 != t1 && et == EType::H;
    let j0 = Scalar4::spec_eighth_of(g0.vd(v0).phase);
    let j1 = Scalar4::spec_eighth_of(g0.vd(v1).phase);
    let sv = (g0.vd(v0).phase.val() + g0.vd(v1).phase.val()) % (pow2(62) as int);
    let samerep = sv % (pow2(59) as int) == 0;
    let rep = g0.vd(v0).phase.exp <= 2 && g0.vd(v1).phase.exp <= 2;
    let vars0 = g0.vd(v0).vars;
    let vars1 = g0.vd(v1).vars;
    if vars0 == 0 && vars1 == 0 {
        &&& g1.factors@ == g0.factors@
        &&& g1.scalar == (if same {
            if samerep {
                Scalar4::spec_mul(
                    g0.scalar,
                    Scalar4::spec_add(
                        Scalar4::spec_one(),
                        Scalar4::spec_eighth_unit(sv / (pow2(59) as int)),
                    ),
                )
            } else {
                Scalar4::invalid()
            }
        } else {
            if rep {
                Scalar4::spec_mul(
                    Scalar4::spec_mul(g0.scalar, crate::scalar::sq_unit(-1)),
                    Scalar4::spec_add(
                        Scalar4::spec_add(
                            Scalar4::spec_add(Scalar4::spec_one(), Scalar4::spec_eighth_unit(j0)),
                            Scalar4::spec_eighth_unit(j1),
                        ),
                        Scalar4::spec_neg(Scalar4::spec_eighth_unit((j0 + j1) % 8)),
                    ),
                )
            } else {
                Scalar4::invalid()
            }
        })
    } else if same && samerep {
        &&& g1.scalar == g0.scalar
        &&& g1.factors@ == g0.factors@.push(
            (
                Expr::Linear(Parity { mask: vars0 ^ vars1, neg: true }),
                Scalar4::spec_add(
                    Scalar4::spec_one(),
                    Scalar4::spec_eighth_unit(sv / (pow2(59) as int)),
                ),
            ),
        ).push(
            (
                Expr::Linear(Parity { mask: vars0 ^ vars1, neg: false }),
                Scalar4::spec_add(
                    Scalar4::spec_one(),
                    Scalar4::spec_eighth_unit((sv / (pow2(59) as int) + 4) % 8),
                ),
            ),
        )
    } else if !same && rep {
        &&& g1.scalar == Scalar4::spec_mul(g0.scalar, crate::scalar::sq_unit(-1))
        &&& ({
            let one = Scalar4::spec_one();
            let u0 = Scalar4::spec_eighth_unit(j0);
            let u1 = Scalar4::spec_eighth_unit(j1);
            let u2 = Scalar4::spec_eighth_unit((j0 + j1) % 8);
            let s00 = Scalar4::spec_add(
                Scalar4::spec_add(Scalar4::spec_add(one, u0), u1),
                Scalar4::spec_neg(u2),
            );
            let s01 = Scalar4::spec_add(
                Scalar4::spec_add(Scalar4::spec_add(one, u0), Scalar4::spec_neg(u1)),
                u2,
            );
            let s10 = Scalar4::spec_add(
                Scalar4::spec_add(Scalar4::spec_add(one, Scalar4::spec_neg(u0)), u1),
                u2,
            );
            let s11 = Scalar4::spec_add(
                Scalar4::spec_add(
                    Scalar4::spec_add(one, Scalar4::spec_neg(u0)),
                    Scalar4::spec_neg(u1),
                ),
                Scalar4::spec_neg(u2),
            );
            if s00 == s01 && s10 == s11 {
                g1.factors@ == g0.factors@.push(
                    (Expr::Linear(Parity { mask: vars1, neg: true }), s00),
                ).push((Expr::Linear(Parity { mask: vars1, neg: false }), s11))
            } else if s00 == s10 && s01 == s11 {
                g1.factors@ == g0.factors@.push(
                    (Expr::Linear(Parity { mask: vars0, neg: true }), s00),
                ).push((Expr::Linear(Parity { mask: vars0, neg: false }), s11))
            } else if s00 == s11 && s01 == s10 {
                g1.factors@ == g0.factors@.push(
                    (Expr::Linear(Parity { mask: vars0 ^ vars1, neg: true }), s00),
                ).push((Expr::Linear(Parity { mask: vars0 ^ vars1, neg: false }), s11))
            } else {
                g1.factors@ == g0.factors@.push(
                    (
                        Expr::Quadratic(
                            Parity { mask: vars0, neg: true },
                            Parity { mask: vars1, neg: true },
                        ),
                        s00,
                    ),
                ).push(
                    (
                        Expr::Quadratic(
                            Parity { mask: vars0, neg: true },
                            Parity { mask: vars1, neg: false },
                        ),
                        s01,
                    ),
                ).push(
                    (
                        Expr::Quadratic(
                            Parity { mask: vars0, neg: false },
                            Parity { mask: vars1, neg: true },
                        ),
                        s10,
                    ),
                ).push(
                    (
                        Expr::Quadratic(
                            Parity { mask: vars0, neg: false },
                            Parity { mask: vars1, neg: false },
                        ),
                        s11,
                    ),
                )
            }
        })
    } else {
        &&& g1.factors@ == g0.factors@
        &&& g1.scalar == Scalar4::invalid()
    }
}

pub open spec fn spec_remove_pair_effect(g0: Graph, g1: Graph, v0: int, v1: int) -> bool {
    &&& ({
        g1.n() == g0.n()
    })
    &&& ({
        forall|w: int| #[trigger] g1.live(w) == (g0.live(w) && w != v0 && w != v1)
    })
    &&& ({
        forall|w: int|
            0 <= w < g0.n() && w != v0 && w != v1 ==> g1.vdata@[w] == #[trigger] g0.vdata@[w]
    })
    &&& ({
        forall|a: int, b: int|
            #![trigger g0.adj@[a]@[b]]
            0 <= a < g0.n() && 0 <= b < g0.n() ==> g1.edge(a, b) == (if a == v0 || b
                == v0 || a == v1 || b == v1 {
                None
            } else {
                g0.edge(a, b)
            })
    })
    &&& ({
        g1.inputs@ == g0.inputs@
    })
    &&& ({
        g1.outputs@ == g0.outputs@
    })
    &&& spec_pair_scalar_effect(g0, g1, v0, v1)
}

/// Fold the scalar contribution of a pair removal into the diagram,
/// leaving the graph structure untouched.
#[verifier::rlimit(100)]
fn remove_pair_fold(g: &mut Graph, v0: V, v1: V)
    requires
        old(g).wf(),
        spec_check_remove_pair(*old(g), v0 as int, v1 as int),
    ensures
        final(g).wf(),
        final(g).vdata@ == old(g).vdata@,
        final(g).adj@ == old(g).adj@,
        final(g).inputs@ == old(g).inputs@,
        final(g).outputs@ == old(g).outputs@,
        spec_pair_scalar_effect(*old(g), *final(g), v0 as int, v1 as int),
{
    let t0 = g.vertex_type(v0);
    let t1 = g.vertex_type(v1);
    let et = g.edge_type(v0, v1);
    let pv0 = g.phase_and_vars(v0);
    let pv1 = g.phase_and_vars(v1);
    let p0 = pv0.0;
    let vars0 = pv0.1;
    let p1 = pv1.0;
    let vars1 = pv1.1;
    let psum = p0.add(p1);
    proof {
        crate::phase::lemma_eighth_val(psum);
    }
    let same = t0 == t1 && et == EType::N || t0 != t1 && et == EType::H;
    if same {
        if vars0 == 0 && vars1 == 0 {
            g.scalar_mul_one_plus_phase(psum);
        } else {
            if !psum.is_eighth() {
                let inv = Scalar4 { c0: 0, c1: 0, c2: 0, c3: 0, pow: 0, ok: false };
                g.scalar_mul(inv);
            } else {
                let vars = vars0 ^ vars1;
                let psum1 = psum.add(Phase::pi());
                proof {
                    crate::phase::lemma_eighth_val(psum);
                    crate::phase::lemma_eighth_val(psum1);
                    lemma_pi_shift_eighth(psum, psum1);
                }
                let s0 = Scalar4::one_plus_phase(psum);
                let s1 = Scalar4::one_plus_phase(psum1);
                g.mul_scalar_factor(Expr::linear(Parity::of(vars).negated()), s0);
                g.mul_scalar_factor(Expr::linear(Parity::of(vars)), s1);
            }
        }
    } else if !(p0.is_eighth() && p1.is_eighth()) {
        let inv = Scalar4 { c0: 0, c1: 0, c2: 0, c3: 0, pow: 0, ok: false };
        g.scalar_mul(inv);
    } else {
        proof {
            lemma_add_eighth(p0, p1, psum);
        }
        let x0 = Scalar4::from_phase(p0);
        let x1 = Scalar4::from_phase(p1);
        let x2 = Scalar4::from_phase(psum);
        g.scalar_mul_sqrt2_pow(-1);
        if vars0 == 0 && vars1 == 0 {
            let s00 = Scalar4::one().plus(x0).plus(x1).minus(x2);
            g.scalar_mul(s00);
        } else {
            let s00 = Scalar4::one().plus(x0).plus(x1).minus(x2);
            let s01 = Scalar4::one().plus(x0).minus(x1).plus(x2);
            let s10 = Scalar4::one().minus(x0).plus(x1).plus(x2);
            let s11 = Scalar4::one().minus(x0).minus(x1).minus(x2);
            if s00 == s01 && s10 == s11 {
                g.mul_scalar_factor(Expr::linear(Parity::of(vars1).negated()), s00);
                g.mul_scalar_factor(Expr::linear(Parity::of(vars1)), s11);
            } else if s00 == s10 && s01 == s11 {
                g.mul_scalar_factor(Expr::linear(Parity::of(vars0).negated()), s00);
                g.mul_scalar_factor(Expr::linear(Parity::of(vars0)), s11);
            } else if s00 == s11 && s01 == s10 {
                let vars = vars0 ^ vars1;
                g.mul_scalar_factor(Expr::linear(Parity::of(vars).negated()), s00);
                g.mul_scalar_factor(Expr::linear(Parity::of(vars)), s11);
            } else {
                g.mul_scalar_factor(
                    Expr::quadratic(Parity::of(vars0).negated(), Parity::of(vars1).negated()),
                    s00,
                );
                g.mul_scalar_factor(
                    Expr::quadratic(Parity::of(vars0).negated(), Parity::of(vars1)),
                    s01,
                );
                g.mul_scalar_factor(
                    Expr::quadratic(Parity::of(vars0), Parity::of(vars1).negated()),
                    s10,
                );
                g.mul_scalar_factor(Expr::quadratic(Parity::of(vars0), Parity::of(vars1)), s11);
            }
        }
    }
}

/// Remove a pair of spiders joined only to each other, folding their
/// contribution into the scalar: a "same" pairing (plain edge between like
/// colors, or Hadamard between unlike colors) behaves as one fused spider,
/// `1 + exp(i*pi*(p0+p1))`; a "different" pairing contributes
/// `sqrt(2)^-1 * (1 + exp(i*pi*p0) + exp(i*pi*p1) - exp(i*pi*(p0+p1)))`.
/// With symbolic variables the boolean branches become symbolic factors,
/// minimized to two linear terms whenever the four branch values pair up.
pub fn remove_pair_unchecked(g: &mut Graph, v0: V, v1: V)
    requires
        old(g).wf(),
        spec_check_remove_pair(*old(g), v0 as int, v1 as int),
    ensures
        final(g).wf(),
        spec_remove_pair_effect(*old(g), *final(g), v0 as int, v1 as int),
{
    remove_pair_fold(g, v0, v1);
    proof {
        assert(old(g).adj@[v0 as int]@[v1 as int] is Some);
    }
    g.remove_vertex(v0);
    g.remove_vertex(v1);
}

/// A checked pair removal.
pub fn remove_pair(g: &mut Graph, v0: V, v1: V) -> (r: bool)
    requires
        old(g).wf(),
    ensures
        final(g).wf(),
        r == spec_check_remove_pair(*old(g), v0 as int, v1 as int),
        !r ==> *final(g) == *old(g),
        r ==> spec_remove_pair_effect(*old(g), *final(g), v0 as int, v1 as int),
{
    if check_remove_pair(g, v0, v1) {
        remove_pair_unchecked(g, v0, v1);
        true
    } else {
        false
    }
}

/// The number of degree-one neighbors of `v` below `upto`.
pub open spec fn cnt_leaf(g: Graph, v: int, upto: int) -> nat
    decreases upto,
{
    if upto <= 0 {
        0
    } else {
        cnt_leaf(g, v, upto - 1) + (if g.edge(v, upto - 1) is Some && g.spec_degree(upto - 1)
            == 1 {
            1nat
        } else {
            0nat
        })
    }
}

/// Whether the gadget-fusion rule applies: two phaseless, variable-free
/// Z-spiders, every incident edge a Hadamard edge to a Z-spider, each with
/// exactly one degree-one neighbor (its phase gadget leaf), and the same
/// non-leaf neighborhood.
pub open spec fn spec_check_gadget_fusion(g: Graph, v0: int, v1: int) -> bool {
    &&& v0 != v1
    &&& g.live(v0)
    &&& g.live(v1)
    &&& g.vd(v0).ty == VType::Z
    &&& g.vd(v1).ty == VType::Z
    &&& g.vd(v0).phase.val() == 0
    &&& g.vd(v1).phase.val() == 0
    &&& g.vd(v0).vars == 0
    &&& g.vd(v1).vars == 0
    &&& spec_nbrs_z_h(g, v0)
    &&& spec_nbrs_z_h(g, v1)
    &&& g.edge(v0, v1) is None
    &&& cnt_leaf(g, v0, g.n()) == 1
    &&& cnt_leaf(g, v1, g.n()) == 1
    &&& (forall|w: int|
        0 <= w < g.n() ==> ((#[trigger] g.edge(v0, w)) is Some && g.spec_degree(w) != 1) == (
        g.edge(v1, w) is Some && g.spec_degree(w) != 1))
}

/// Check that [`gadget_fusion_unchecked`] applies.
///
/// One deliberate narrowing beyond the rule's usual statement: the two
/// gadget bodies must not be adjacent.  A pair of degree-one Z-spiders
/// joined only to each other passes the remaining conditions as each
/// other's leaf, and fusing would then read the surviving gadget after
/// deleting it.  The rule set promises that a checked rule never fails,
/// and applicability wording and that promise cannot both hold on that
/// degenerate pair; the check resolves the conflict by answering `false`
/// there, leaving the diagram untouched.
pub fn check_gadget_fusion(g: &Graph, v0: V, v1: V) -> (r: bool)
    requires
        g.wf(),
    ensures
        r == spec_check_gadget_fusion(*g, v0 as int, v1 as int),
{
    if v0 == v1 {
        return false;
    }
    let d0 = g.vertex_data_opt(v0);
    let d1 = g.vertex_data_opt(v1);
    match (d0, d1) {
        (Some(vd0), Some(vd1)) => {
            if vd0.ty != VType::Z || vd1.ty != VType::Z || !vd0.phase.is_zero()
                || !vd1.phase.is_zero() || vd0.vars != 0 || vd1.vars != 0 {
                return false;
            }
            if !nbrs_all_z_h(g, v0) || !nbrs_all_z_h(g, v1) {
                return false;
            }
            if g.connected(v0, v1) {
                return false;
            }
            let n = g.num_slots();
            let mut w: usize = 0;
            let mut leaves0: u64 = 0;
            let mut leaves1: u64 = 0;
            while w < n
                invariant
                    g.wf(),
                    g.live(v0 as int),
                    g.live(v1 as int),
                    n == g.n(),
                    w <= n,
                    leaves0 == cnt_leaf(*g, v0 as int, w as int),
                    leaves1 == cnt_leaf(*g, v1 as int, w as int),
                    leaves0 <= w,
                    leaves1 <= w,
                    forall|x: int|
                        0 <= x < w ==> ((#[trigger] g.edge(v0 as int, x)) is Some
                            && g.spec_degree(x) != 1) == (g.edge(v1 as int, x) is Some
                            && g.spec_degree(x) != 1),
                decreases n - w,
            {
                let e0 = g.connected(v0, w);
                let e1 = g.connected(v1, w);
                if e0 || e1 {
                    let dw = g.degree(w);
                    if dw == 1 {
                        if e0 {
                            leaves0 = leaves0 + 1;
                        }
                        if e1 {
                            leaves1 = leaves1 + 1;
                        }
                    } else {
                        if e0 != e1 {
                            return false;
                        }
                    }
                }
                w = w + 1;
            }
            leaves0 == 1 && leaves1 == 1
        },
        _ => false,
    }
}

/// A row holding an entry below `upto` counts at least one.
proof fn lemma_cnt_row_one(row: Seq<Option<EType>>, i: int, upto: int)
    requires
        0 <= i < upto,
        row[i] is Some,
    ensures
        cnt_row(row, upto) >= 1,
    decreases upto,
{
    if i < upto - 1 {
        lemma_cnt_row_one(row, i, upto - 1);
    }
}

/// A row holding two distinct entries below `upto` counts at least two.
proof fn lemma_cnt_row_two(row: Seq<Option<EType>>, i: int, j: int, upto: int)
    requires
        0 <= i < j < upto,
        row[i] is Some,
        row[j] is Some,
    ensures
        cnt_row(row, upto) >= 2,
    decreases upto,
{
    if j < upto - 1 {
        lemma_cnt_row_two(row, i, j, upto - 1);
    } else {
        lemma_cnt_row_one(row, i, upto - 1);
    }
}

/// A positive leaf count below `upto` names a leaf.
proof fn lemma_cnt_leaf_exists(g: Graph, v: int, upto: int)
    requires
        cnt_leaf(g, v, upto) > 0,
    ensures
        exists|w: int|
            0 <= w < upto && (#[trigger] g.edge(v, w)) is Some && g.spec_degree(w) == 1,
    decreases upto,
{
    if upto > 0 {
        if g.edge(v, upto - 1) is Some && g.spec_degree(upto - 1) == 1 {
        } else {
            lemma_cnt_leaf_exists(g, v, upto - 1);
        }
    }
}

/// The degree-one phase-gadget leaf attached to `v`.
fn find_leaf(g: &Graph, v: V) -> (r: V)
    requires
        g.wf(),
        g.live(v as int),
        cnt_leaf(*g, v as int, g.n()) == 1,
    ensures
        r < g.n(),
        g.edge(v as int, r as int) is Some,
        g.spec_degree(r as int) == 1,
{
    proof {
        lemma_cnt_leaf_exists(*g, v as int, g.n());
    }
    let n = g.num_slots();
    let mut w: usize = 0;
    while w < n
        invariant
            g.wf(),
            g.live(v as int),
            n == g.n(),
            w <= n,
            exists|x: int|
                0 <= x < n && (#[trigger] g.edge(v as int, x)) is Some && g.spec_degree(x) == 1,
            forall|x: int|
                0 <= x < w ==> !((#[trigger] g.edge(v as int, x)) is Some && g.spec_degree(x)
                    == 1),
        decreases n - w,
    {
        if g.connected(v, w) {
            if g.degree(w) == 1 {
                return w;
            }
        }
        w = w + 1;
    }
    proof {
        let x = choose|x: int|
            0 <= x < n && (#[trigger] g.edge(v as int, x)) is Some && g.spec_degree(x) == 1;
        assert(!(g.edge(v as int, x) is Some && g.spec_degree(x) == 1));
    }
    0
}

/// The effect of a gadget fusion: the second gadget body `v1` and its leaf
/// die, the first gadget's leaf absorbs the second leaf's phase and
/// variables, everything else is untouched, and the scalar gains
/// `sqrt(2)^(2-d)` for `d` the surviving gadget's degree.
pub open spec fn spec_gadget_fusion_effect(g0: Graph, g1: Graph, v0: int, v1: int) -> bool {
    &&& g1.n() == g0.n()
    &&& g1.inputs@ == g0.inputs@
    &&& g1.outputs@ == g0.outputs@
    &&& g1.factors@ == g0.factors@
    &&& exists|l0: int, l1: int|
        #![trigger g0.adj@[v0]@[l0], g0.adj@[v1]@[l1]]
        {
            &&& 0 <= l0 < g0.n() && 0 <= l1 < g0.n() && l0 != l1 && l0 != v1 && l1 != v0
            &&& g0.edge(v0, l0) is Some && g0.spec_degree(l0) == 1
            &&& g0.edge(v1, l1) is Some && g0.spec_degree(l1) == 1
            &&& (forall|w: int| #[trigger] g1.live(w) == (g0.live(w) && w != v1 && w != l1))
            &&& (forall|w: int|
                0 <= w < g0.n() && w != v1 && w != l1 && w != l0 ==> g1.vdata@[w]
                    == #[trigger] g0.vdata@[w])
            &&& g1.vd(l0).ty == g0.vd(l0).ty
            &&& g1.vd(l0).row == g0.vd(l0).row
            &&& g1.vd(l0).qubit == g0.vd(l0).qubit
            &&& g1.vd(l0).vars == (g0.vd(l0).vars ^ g0.vd(l1).vars)
            &&& g1.vd(l0).phase.wf()
            &&& g1.vd(l0).phase.val() == (g0.vd(l0).phase.val() + g0.vd(l1).phase.val()) % (
            pow2(62) as int)
            &&& (forall|a: int, b: int|
                #![trigger g0.adj@[a]@[b]]
                0 <= a < g0.n() && 0 <= b < g0.n() ==> g1.edge(a, b) == (if a == v1 || b == v1
                    || a == l1 || b == l1 {
                    None
                } else {
                    g0.edge(a, b)
                }))
            &&& g1.scalar == Scalar4::spec_mul(
                g0.scalar,
                crate::scalar::sq_unit(2 - g0.spec_degree(v0)),
            )
        }
}

/// Fuse a pair of phase gadgets over the same non-leaf neighborhood: add
/// the second leaf's phase and variables onto the first leaf, delete the
/// second gadget body and its leaf, and multiply the scalar by
/// `sqrt(2)^(2-d)` for `d` the surviving gadget's degree.
pub fn gadget_fusion_unchecked(g: &mut Graph, v0: V, v1: V)
    requires
        old(g).wf(),
        old(g).n() <= 0x8000_0000,
        spec_check_gadget_fusion(*old(g), v0 as int, v1 as int),
    ensures
        final(g).wf(),
        spec_gadget_fusion_effect(*old(g), *final(g), v0 as int, v1 as int),
{
    let leaf0 = find_leaf(g, v0);
    let leaf1 = find_leaf(g, v1);
    proof {
        assert(old(g).adj@[v0 as int]@[leaf0 as int] is Some);
        assert(old(g).adj@[v1 as int]@[leaf1 as int] is Some);
        assert(old(g).vd(leaf0 as int).ty == VType::Z);
        assert(old(g).vd(leaf1 as int).ty == VType::Z);
        if leaf0 == leaf1 {
            let row = old(g).adj@[leaf0 as int]@;
            assert(row[v0 as int] is Some && row[v1 as int] is Some);
            if v0 < v1 {
                lemma_cnt_row_two(row, v0 as int, v1 as int, old(g).n());
            } else {
                lemma_cnt_row_two(row, v1 as int, v0 as int, old(g).n());
            }
        }
        assert(leaf0 != v1 as V);
        assert(leaf1 != v0 as V);
        if old(g).edge(v0 as int, leaf1 as int) is Some {
            let row = old(g).adj@[leaf1 as int]@;
            assert(old(g).adj@[v0 as int]@[leaf1 as int] is Some);
            assert(row[v0 as int] is Some && row[v1 as int] is Some);
            if v0 < v1 {
                lemma_cnt_row_two(row, v0 as int, v1 as int, old(g).n());
            } else {
                lemma_cnt_row_two(row, v1 as int, v0 as int, old(g).n());
            }
        }
        assert(old(g).edge(v0 as int, leaf1 as int) is None);
    }
    let p1 = g.phase(leaf1);
    let vars1 = g.vars(leaf1);
    g.add_to_phase(leaf0, p1);
    g.add_to_vars(leaf0, vars1);
    proof {
        assert(g.live(v1 as int));
    }
    g.remove_vertex(v1);
    proof {
        assert(g.live(leaf1 as int));
    }
    g.remove_vertex(leaf1);
    proof {
        assert(g.live(v0 as int));
        assert(g.adj@[v0 as int]@.len() == old(g).adj@[v0 as int]@.len());
        assert forall|x: int| 0 <= x < old(g).n() implies g.adj@[v0 as int]@[x] == old(
            g,
        ).adj@[v0 as int]@[x] by {
            assert(old(g).edge(v0 as int, v1 as int) is None);
            assert(old(g).edge(v0 as int, leaf1 as int) is None);
        };
        assert(g.adj@[v0 as int]@ =~= old(g).adj@[v0 as int]@);
        assert(g.spec_degree(v0 as int) == old(g).spec_degree(v0 as int));
        crate::graph::lemma_cnt_row_bound(g.adj@[v0 as int]@, g.n());
    }
    let d = g.degree(v0);
    let di = d as i64;
    g.scalar_mul_sqrt2_pow(2 - di);
    proof {
        let gl0 = leaf0 as int;
        let gl1 = leaf1 as int;
        assert(old(g).adj@[v0 as int]@[gl0] is Some);
        assert(old(g).adj@[v1 as int]@[gl1] is Some);
        assert(g.vd(gl0).phase.val() == (old(g).vd(gl0).phase.val() + old(g).vd(
            gl1,
        ).phase.val()) % (pow2(62) as int));
        assert(forall|a: int, b: int|
            #![trigger old(g).adj@[a]@[b]]
            0 <= a < old(g).n() && 0 <= b < old(g).n() ==> g.edge(a, b) == (if a == v1 as int
                || b == v1 as int || a == gl1 || b == gl1 {
                None
            } else {
                old(g).edge(a, b)
            }));
    }
}

/// A checked gadget fusion.
pub fn gadget_fusion(g: &mut Graph, v0: V, v1: V) -> (r: bool)
    requires
        old(g).wf(),
        old(g).n() <= 0x8000_0000,
    ensures
        final(g).wf(),
        r == spec_check_gadget_fusion(*old(g), v0 as int, v1 as int),
        !r ==> *final(g) == *old(g),
        r ==> spec_gadget_fusion_effect(*old(g), *final(g), v0 as int, v1 as int),
{
    if check_gadget_fusion(g, v0, v1) {
        gadget_fusion_unchecked(g, v0, v1);
        true
    } else {
        false
    }
}

/// Whether the duplicate-spider rule applies: `v0` and `v1` are Z-spiders,
/// `v1`'s phase is Pauli, every incident edge of `v0` is a Hadamard edge to
/// a Z-spider, the two are not adjacent, and they share every incident
/// edge.  `v0`'s own phase is unconstrained; one the scalar ring cannot
/// represent marks the scalar invalid on removal.
pub open spec fn spec_check_remove_duplicate(g: Graph, v0: int, v1: int) -> bool {
    &&& g.live(v0)
    &&& g.live(v1)
    &&& g.vd(v0).ty == VType::Z
    &&& g.vd(v1).ty == VType::Z
    &&& (g.vd(v1).phase.val() == 0 || g.vd(v1).phase.val() == pow2(61))
    &&& spec_nbrs_z_h(g, v0)
    &&& g.edge(v0, v1) is None
    &&& (forall|w: int|
        0 <= w < g.n() && w != v0 && w != v1 ==> #[trigger] g.edge(v0, w) == g.edge(v1, w))
}

/// Check that [`remove_duplicate_unchecked`] applies.
pub fn check_remove_duplicate(g: &Graph, v0: V, v1: V) -> (r: bool)
    requires
        g.wf(),
    ensures
        r == spec_check_remove_duplicate(*g, v0 as int, v1 as int),
{
    match (g.vertex_type_opt(v0), g.vertex_type_opt(v1)) {
        (Some(VType::Z), Some(VType::Z)) => {
            if !g.phase(v1).is_pauli() {
                return false;
            }
            if !nbrs_all_z_h(g, v0) {
                return false;
            }
            if g.connected(v0, v1) {
                return false;
            }
            let n = g.num_slots();
            let mut w: usize = 0;
            while w < n
                invariant
                    g.wf(),
                    g.live(v0 as int),
                    g.live(v1 as int),
                    n == g.n(),
                    w <= n,
                    forall|x: int|
                        0 <= x < w && x != v0 && x != v1 ==> #[trigger] g.edge(v0 as int, x)
                            == g.edge(v1 as int, x),
                decreases n - w,
            {
                if w != v0 && w != v1 {
                    if g.edge_type_opt(v0, w) != g.edge_type_opt(v1, w) {
                        return false;
                    }
                }
                w = w + 1;
            }
            true
        },
        _ => false,
    }
}

pub open spec fn spec_remove_duplicate_effect(g0: Graph, g1: Graph, v0: int, v1: int) -> bool {
    &&& ({
        g1.n() == g0.n()
    })
    &&& ({
        forall|w: int| #[trigger] g1.live(w) == (g0.live(w) && w != v0)
    })
    &&& ({
        forall|w: int|
            0 <= w < g0.n() && w != v0 ==> g1.vdata@[w] == #[trigger] g0.vdata@[w]
    })
    &&& ({
        forall|a: int, b: int|
            #![trigger g0.adj@[a]@[b]]
            0 <= a < g0.n() && 0 <= b < g0.n() ==> g1.edge(a, b) == (if a == v0 || b
                == v0 {
                None
            } else {
                g0.edge(a, b)
            })
    })
    &&& ({
        g1.inputs@ == g0.inputs@
    })
    &&& ({
        g1.outputs@ == g0.outputs@
    })
    &&& ({
        g1.scalar.wf()
    })
    &&& ({
        g0.vd(v0).vars == 0 && g0.vd(v0).phase.exp <= 2 ==> g1.scalar == Scalar4::spec_mul(
            Scalar4::spec_mul(
                g0.scalar,
                crate::scalar::sq_unit(0 - g0.spec_degree(v0)),
            ),
            Scalar4::spec_add(
                Scalar4::spec_one(),
                Scalar4::spec_eighth_unit(
                    ((g0.vd(v0).phase.val() + g0.vd(v1).phase.val()) % (pow2(62) as int)) / (
                    pow2(59) as int),
                ),
            ),
        )
    })
    &&& ({
        g0.vd(v0).vars == 0 ==> g1.factors@ == g0.factors@
    })
    &&& ({
        let sv = (g0.vd(v0).phase.val() + g0.vd(v1).phase.val()) % (pow2(62) as int);
        let j = sv / (pow2(59) as int);
        let vars = g0.vd(v0).vars;
        vars != 0 ==> (if sv % (pow2(59) as int) == 0 {
            &&& g1.scalar == Scalar4::spec_mul(
                g0.scalar,
                crate::scalar::sq_unit(0 - g0.spec_degree(v0)),
            )
            &&& g1.factors@ == g0.factors@.push(
                (
                    Expr::Linear(Parity { mask: vars, neg: true }),
                    Scalar4::spec_add(Scalar4::spec_one(), Scalar4::spec_eighth_unit(j)),
                ),
            ).push(
                (
                    Expr::Linear(Parity { mask: vars, neg: false }),
                    Scalar4::spec_add(
                        Scalar4::spec_one(),
                        Scalar4::spec_eighth_unit((j + 4) % 8),
                    ),
                ),
            )
        } else {
            &&& g1.scalar == Scalar4::invalid()
            &&& g1.factors@ == g0.factors@
        })
    })
}

/// Remove `v0` against a Pauli duplicate `v1` sharing its whole
/// neighborhood: fold `v1`'s phase into `v0`, multiply the scalar by
/// `sqrt(2)^-d` for `d` the shared degree, then fold the now-redundant `v0`
/// into the scalar as an isolated-spider contribution — two linear factors
/// over `v0`'s variables when it carries any.  The scalar formula of this
/// rule is provisional in the rule set this library implements; the
/// contract pins what the code computes, and tensor comparison in tests
/// exercises its correctness.
pub fn remove_duplicate_unchecked(g: &mut Graph, v0: V, v1: V)
    requires
        old(g).wf(),
        old(g).n() <= 0x8000_0000,
        spec_check_remove_duplicate(*old(g), v0 as int, v1 as int),
    ensures
        final(g).wf(),
        spec_remove_duplicate_effect(*old(g), *final(g), v0 as int, v1 as int),
{
    let p1 = g.phase(v1);
    g.add_to_phase(v0, p1);
    proof {
        vstd::arithmetic::power2::lemma_pow2_adds(59, 2);
        vstd::arithmetic::power2::lemma2_to64();
        vstd::arithmetic::power2::lemma_pow2_pos(59);
        let pv1 = old(g).vd(v1 as int).phase;
        if pv1.val() == 0 {
            vstd::arithmetic::div_mod::lemma_small_mod(0, pow2(59));
        } else {
            assert(pow2(61) == pow2(59) * pow2(2));
            assert(pow2(59) * pow2(2) == pow2(2) * pow2(59)) by (nonlinear_arith);
            vstd::arithmetic::div_mod::lemma_mod_multiples_basic(
                pow2(2) as int,
                pow2(59) as int,
            );
        }
        crate::phase::lemma_eighth_val(pv1);
        if old(g).vd(v0 as int).phase.exp <= 2 {
            lemma_add_eighth(
                old(g).vd(v0 as int).phase,
                pv1,
                g.vd(v0 as int).phase,
            );
        }
    }
    let d = g.degree(v0);
    proof {
        crate::graph::lemma_cnt_row_bound(g.adj@[v0 as int]@, g.n());
    }
    let di = d as i64;
    g.scalar_mul_sqrt2_pow(0 - di);
    let pv = g.phase_and_vars(v0);
    let p = pv.0;
    let vars = pv.1;
    proof {
        crate::phase::lemma_eighth_val(p);
    }
    if vars == 0 {
        g.scalar_mul_one_plus_phase(p);
    } else {
        if !p.is_eighth() {
            let inv = Scalar4 { c0: 0, c1: 0, c2: 0, c3: 0, pow: 0, ok: false };
            g.scalar_mul(inv);
        } else {
            let pb = p.add(Phase::pi());
            proof {
                crate::phase::lemma_eighth_val(p);
                crate::phase::lemma_eighth_val(pb);
                lemma_pi_shift_eighth(p, pb);
            }
            let s0 = Scalar4::one_plus_phase(p);
            let s1 = Scalar4::one_plus_phase(pb);
            g.mul_scalar_factor(Expr::linear(Parity::of(vars).negated()), s0);
            g.mul_scalar_factor(Expr::linear(Parity::of(vars)), s1);
        }
    }
    g.remove_vertex(v0);
}

/// A checked duplicate removal.
pub fn remove_duplicate(g: &mut Graph, v0: V, v1: V) -> (r: bool)
    requires
        old(g).wf(),
        old(g).n() <= 0x8000_0000,
    ensures
        final(g).wf(),
        r == spec_check_remove_duplicate(*old(g), v0 as int, v1 as int),
        !r ==> *final(g) == *old(g),
        r ==> spec_remove_duplicate_effect(*old(g), *final(g), v0 as int, v1 as int),
{
    if check_remove_duplicate(g, v0, v1) {
        remove_duplicate_unchecked(g, v0, v1);
        true
    } else {
        false
    }
}

} // verus!
