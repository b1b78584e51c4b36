use std::collections::HashMap;

use vstd::prelude::*;

use crate::error::MatrixError;
use crate::matrix::{graph_extends, sprod, Graph, Matrix, Node};
use crate::scalar::{rat_one, Rat, Scalar};

verus! {

broadcast use vstd::std_specs::hash::group_hash_axioms;

#[derive(Clone, Copy, Debug, PartialEq, Eq, Structural)]
pub enum BinaryOpType {
    Add,
    Mul,
    Sub,
    Div,
    MatMul,
}

#[derive(Clone, Copy, Debug, PartialEq, Eq, Structural)]
pub enum UnaryOpType {
    Transpose,
    Sigmoid,
    Broadcast,
    Sum,
}

#[derive(Clone, Copy, Debug, PartialEq, Eq, Structural)]
pub enum BinaryScalarOpType {
    MulScalar,
    Powf,
}

/// Provenance of a derived node: the operation and the operand handles it was
/// produced from. A node without provenance is a leaf.
#[derive(Clone, Copy, Debug)]
pub enum Operator {
    Binary(Matrix, Matrix, BinaryOpType),
    BinaryScalar(Matrix, Scalar, BinaryScalarOpType),
    Unary(Matrix, UnaryOpType),
}

impl Operator {
    pub fn to_string(&self) -> (r: &'static str)
        ensures
            match self {
                Operator::Binary(_, _, BinaryOpType::Add) => r@ =~= "Add"@,
                Operator::Binary(_, _, BinaryOpType::Sub) => r@ =~= "Sub"@,
                Operator::Binary(_, _, BinaryOpType::Mul) => r@ =~= "Mul"@,
                Operator::Binary(_, _, BinaryOpType::Div) => r@ =~= "Div"@,
                Operator::Binary(_, _, BinaryOpType::MatMul) => r@ =~= "MatMul"@,
                Operator::BinaryScalar(_, _, BinaryScalarOpType::MulScalar) => r@ =~= "MulScalar"@,
                Operator::BinaryScalar(_, _, BinaryScalarOpType::Powf) => r@ =~= "Powf"@,
                Operator::Unary(_, UnaryOpType::Sigmoid) => r@ =~= "Sigmoid"@,
                Operator::Unary(_, UnaryOpType::Transpose) => r@ =~= "Transpose"@,
                Operator::Unary(_, UnaryOpType::Broadcast) => r@ =~= "Broadcast"@,
                Operator::Unary(_, UnaryOpType::Sum) => r@ =~= "Sum"@,
            },
    {
        match self {
            Operator::Binary(_, _, BinaryOpType::Add) => "Add",
            Operator::Binary(_, _, BinaryOpType::Sub) => "Sub",
            Operator::Binary(_, _, BinaryOpType::Mul) => "Mul",
            Operator::Binary(_, _, BinaryOpType::Div) => "Div",
            Operator::Binary(_, _, BinaryOpType::MatMul) => "MatMul",
            Operator::BinaryScalar(_, _, BinaryScalarOpType::MulScalar) => "MulScalar",
            Operator::BinaryScalar(_, _, BinaryScalarOpType::Powf) => "Powf",
            Operator::Unary(_, UnaryOpType::Sigmoid) => "Sigmoid",
            Operator::Unary(_, UnaryOpType::Transpose) => "Transpose",
            Operator::Unary(_, UnaryOpType::Broadcast) => "Broadcast",
            Operator::Unary(_, UnaryOpType::Sum) => "Sum",
        }
    }
}

/// The operand handles a node was derived from; empty for a leaf. Binary
/// operations list the left operand first.
pub open spec fn operands(nd: Node) -> Seq<Matrix> {
    match nd.op {
        Option::None => Seq::empty(),
        Option::Some(op) => match op {
            Operator::Binary(l, r, _) => seq![l, r],
            Operator::BinaryScalar(m, _, _) => seq![m],
            Operator::Unary(m, _) => seq![m],
        },
    }
}

/// Dependency reachability: `to` is `from` itself, or reachable from one of
/// `from`'s operands. Recursion is guarded on decreasing indices, which
/// well-formed graphs guarantee for operands.
pub open spec fn reaches(g: Graph, from: int, to: int) -> bool
    decreases from,
{
    &&& 0 <= from < g.nodes@.len()
    &&& (from == to || (match g.nd(from).op {
        Option::None => false,
        Option::Some(op) => match op {
            Operator::Binary(l, r, _) => (l.id < from && reaches(g, l.id as int, to)) || (
            r.id < from && reaches(g, r.id as int, to)),
            Operator::BinaryScalar(m, _, _) => m.id < from && reaches(g, m.id as int, to),
            Operator::Unary(m, _) => m.id < from && reaches(g, m.id as int, to),
        },
    }))
}

pub proof fn lemma_reaches_refl(g: Graph, i: int)
    requires
        0 <= i < g.nodes@.len(),
    ensures
        reaches(g, i, i),
{
}

/// A node reaches each of its operands.
pub proof fn lemma_reaches_operand(g: Graph, from: int, oi: int)
    requires
        g.wf(),
        0 <= from < g.nodes@.len(),
        0 <= oi < operands(g.nd(from)).len(),
    ensures
        reaches(g, from, operands(g.nd(from))[oi].id as int),
{
    assert(g.wf_at(from));
    match g.nd(from).op {
        Option::None => {},
        Option::Some(op) => match op {
            Operator::Binary(l, r, _) => {
                lemma_reaches_refl(g, l.id as int);
                lemma_reaches_refl(g, r.id as int);
                assert(operands(g.nd(from))[0] == l);
                assert(operands(g.nd(from))[1] == r);
            },
            Operator::BinaryScalar(m, _, _) => {
                lemma_reaches_refl(g, m.id as int);
                assert(operands(g.nd(from))[0] == m);
            },
            Operator::Unary(m, _) => {
                lemma_reaches_refl(g, m.id as int);
                assert(operands(g.nd(from))[0] == m);
            },
        },
    }
}

pub proof fn lemma_reaches_trans(g: Graph, a: int, b: int, c: int)
    requires
        reaches(g, a, b),
        reaches(g, b, c),
    ensures
        reaches(g, a, c),
    decreases a,
{
    if a != b {
        match g.nd(a).op {
            Option::None => {},
            Option::Some(op) => match op {
                Operator::Binary(l, r, _) => {
                    if l.id < a && reaches(g, l.id as int, b) {
                        lemma_reaches_trans(g, l.id as int, b, c);
                    } else {
                        lemma_reaches_trans(g, r.id as int, b, c);
                    }
                },
                Operator::BinaryScalar(m, _, _) => {
                    lemma_reaches_trans(g, m.id as int, b, c);
                },
                Operator::Unary(m, _) => {
                    lemma_reaches_trans(g, m.id as int, b, c);
                },
            },
        }
    }
}

/// Reachability from `a` only involves nodes with indices at most `a`.
pub proof fn lemma_reaches_bound(g: Graph, a: int, b: int)
    requires
        reaches(g, a, b),
    ensures
        0 <= b <= a,
    decreases a,
{
    if a != b {
        match g.nd(a).op {
            Option::None => {},
            Option::Some(op) => match op {
                Operator::Binary(l, r, _) => {
                    if l.id < a && reaches(g, l.id as int, b) {
                        lemma_reaches_bound(g, l.id as int, b);
                    } else {
                        lemma_reaches_bound(g, r.id as int, b);
                    }
                },
                Operator::BinaryScalar(m, _, _) => {
                    lemma_reaches_bound(g, m.id as int, b);
                },
                Operator::Unary(m, _) => {
                    lemma_reaches_bound(g, m.id as int, b);
                },
            },
        }
    }
}

/// A leaf reaches only itself.
pub proof fn lemma_reaches_leaf(g: Graph, a: int, b: int)
    requires
        reaches(g, a, b),
        g.nd(a).op is None,
    ensures
        a == b,
{
}

/// Membership of a node id in a handle sequence.
pub open spec fn in_list(s: Seq<Matrix>, id: int) -> bool {
    exists|k: int| 0 <= k < s.len() && (#[trigger] s[k]).id == id
}

pub open spec fn seq_ids_distinct(s: Seq<Matrix>) -> bool {
    forall|k1: int, k2: int|
        0 <= k1 < k2 < s.len() ==> (#[trigger] s[k1]).id != (#[trigger] s[k2]).id
}

/// Every derived operand of a member of the list is itself a member.
pub open spec fn list_ops_closed(g: Graph, list: Seq<Matrix>) -> bool {
    forall|k: int, oi: int|
        #![trigger operands(g.nd(list[k].id as int))[oi]]
        0 <= k < list.len() && 0 <= oi < operands(g.nd(list[k].id as int)).len() && g.nd(
            operands(g.nd(list[k].id as int))[oi].id as int,
        ).op is Some ==> in_list(list, operands(g.nd(list[k].id as int))[oi].id as int)
}

/// A list that contains `from` and is closed under derived operands contains
/// every derived node reachable from `from`.
pub proof fn lemma_list_closed(g: Graph, list: Seq<Matrix>, from: int, id: int)
    requires
        g.wf(),
        0 <= from < g.nodes@.len(),
        in_list(list, from),
        list_ops_closed(g, list),
        reaches(g, from, id),
        g.nd(id).op is Some,
    ensures
        in_list(list, id),
    decreases from,
{
    if from != id {
        let k = choose|k: int| 0 <= k < list.len() && (#[trigger] list[k]).id == from;
        assert(g.wf_at(from));
        match g.nd(from).op {
            Option::None => {},
            Option::Some(op) => match op {
                Operator::Binary(l, r, _) => {
                    assert(operands(g.nd(list[k].id as int))[0] == l);
                    assert(operands(g.nd(list[k].id as int))[1] == r);
                    if l.id < from && reaches(g, l.id as int, id) {
                        if g.nd(l.id as int).op is None {
                            lemma_reaches_leaf(g, l.id as int, id);
                        } else {
                            assert(in_list(list, l.id as int));
                            lemma_list_closed(g, list, l.id as int, id);
                        }
                    } else {
                        if g.nd(r.id as int).op is None {
                            lemma_reaches_leaf(g, r.id as int, id);
                        } else {
                            assert(in_list(list, r.id as int));
                            lemma_list_closed(g, list, r.id as int, id);
                        }
                    }
                },
                Operator::BinaryScalar(m, _, _) => {
                    assert(operands(g.nd(list[k].id as int))[0] == m);
                    if g.nd(m.id as int).op is None {
                        lemma_reaches_leaf(g, m.id as int, id);
                    } else {
                        assert(in_list(list, m.id as int));
                        lemma_list_closed(g, list, m.id as int, id);
                    }
                },
                Operator::Unary(m, _) => {
                    assert(operands(g.nd(list[k].id as int))[0] == m);
                    if g.nd(m.id as int).op is None {
                        lemma_reaches_leaf(g, m.id as int, id);
                    } else {
                        assert(in_list(list, m.id as int));
                        lemma_list_closed(g, list, m.id as int, id);
                    }
                },
            },
        }
    }
}

/// Invariant of the depth-first sequencer. `list` holds finished derived
/// nodes, producers before consumers; `stack` holds the ids of the calls in
/// progress; `seen` holds exactly the finished nodes, the in-progress nodes
/// and the visited leaves.
pub open spec fn dfs_inv(
    g: Graph,
    root: int,
    list: Seq<Matrix>,
    seen: Map<usize, bool>,
    stack: Set<int>,
) -> bool {
    &&& forall|id: usize| #[trigger]
        seen.contains_key(id) ==> in_list(list, id as int) || stack.contains(id as int) || (
        id < g.nodes@.len() && g.nd(id as int).op is None)
    &&& forall|k: int| 0 <= k < list.len() ==> seen.contains_key((#[trigger] list[k]).id)
    &&& forall|k: int| 0 <= k < list.len() ==> !stack.contains((#[trigger] list[k]).id as int)
    &&& forall|k: int| 0 <= k < list.len() ==> (#[trigger] list[k]).id < g.nodes@.len()
    &&& forall|k: int| 0 <= k < list.len() ==> g.nd((#[trigger] list[k]).id as int).op is Some
    &&& forall|k: int|
        0 <= k < list.len() ==> reaches(g, root, (#[trigger] list[k]).id as int)
    &&& seq_ids_distinct(list)
    &&& forall|k: int, oi: int|
        #![trigger operands(g.nd(list[k].id as int))[oi]]
        0 <= k < list.len() && 0 <= oi < operands(g.nd(list[k].id as int)).len() && g.nd(
            operands(g.nd(list[k].id as int))[oi].id as int,
        ).op is Some ==> exists|k2: int|
            0 <= k2 < k && (#[trigger] list[k2]).id == operands(g.nd(list[k].id as int))[oi].id
}

pub proof fn lemma_dfs_inv_closed(g: Graph, root: int, list: Seq<Matrix>, seen: Map<usize, bool>, stack: Set<int>)
    requires
        dfs_inv(g, root, list, seen, stack),
    ensures
        list_ops_closed(g, list),
{
    assert forall|k: int, oi: int|
        0 <= k < list.len() && 0 <= oi < operands(g.nd(list[k].id as int)).len() && g.nd(
            (#[trigger] operands(g.nd(list[k].id as int))[oi]).id as int,
        ).op is Some implies in_list(list, operands(g.nd(list[k].id as int))[oi].id as int) by {
        let k2 = choose|k2: int|
            0 <= k2 < k && (#[trigger] list[k2]).id == operands(g.nd(list[k].id as int))[oi].id;
        assert(0 <= k2 < list.len());
    }
}

/// The facts a finished visit of `node` guarantees, used when re-establishing
/// the invariant after appending `node`.
pub proof fn lemma_push_node(
    g: Graph,
    root: int,
    list1: Seq<Matrix>,
    seen: Map<usize, bool>,
    stack: Set<int>,
    node: Matrix,
)
    requires
        g.wf(),
        node.id < g.nodes@.len(),
        g.nd(node.id as int).op is Some,
        reaches(g, root, node.id as int),
        dfs_inv(g, root, list1, seen, stack.insert(node.id as int)),
        seen.contains_key(node.id),
        forall|s: int| #[trigger] stack.contains(s) ==> s > node.id,
        forall|oi: int|
            0 <= oi < operands(g.nd(node.id as int)).len() && g.nd(
                (#[trigger] operands(g.nd(node.id as int))[oi]).id as int,
            ).op is Some ==> in_list(list1, operands(g.nd(node.id as int))[oi].id as int),
    ensures
        dfs_inv(g, root, list1.push(node), seen, stack),
        in_list(list1.push(node), node.id as int),
        forall|id: int| #[trigger]
            reaches(g, node.id as int, id) && g.nd(id).op is Some ==> in_list(
                list1.push(node),
                id,
            ),
{
    let list2 = list1.push(node);
    let stack2 = stack.insert(node.id as int);
    assert(!in_list(list1, node.id as int));
    assert(list2[list2.len() - 1] == node);
    assert forall|id: int|
        in_list(list1, id) implies in_list(list2, id) by {
        let k = choose|k: int| 0 <= k < list1.len() && (#[trigger] list1[k]).id == id;
        assert(list2[k].id == id);
    }
    // membership of seen ids after taking node out of the stack
    assert forall|id: usize| #[trigger]
        seen.contains_key(id) implies in_list(list2, id as int) || stack.contains(id as int)
        || (id < g.nodes@.len() && g.nd(id as int).op is None) by {
        if id as int == node.id as int {
            assert(in_list(list2, id as int));
        } else {
            if in_list(list1, id as int) {
            } else if stack2.contains(id as int) {
                assert(stack.contains(id as int));
            }
        }
    }
    // the appended node's operands sit strictly below the new position
    assert forall|k: int, oi: int|
        0 <= k < list2.len() && 0 <= oi < operands(g.nd(list2[k].id as int)).len() && g.nd(
            (#[trigger] operands(g.nd(list2[k].id as int))[oi]).id as int,
        ).op is Some implies exists|k2: int|
        0 <= k2 < k && (#[trigger] list2[k2]).id == operands(g.nd(list2[k].id as int))[oi].id by {
        if k < list2.len() - 1 {
            assert(list2[k] == list1[k]);
            let k2 = choose|k2: int|
                0 <= k2 < k && (#[trigger] list1[k2]).id == operands(
                    g.nd(list1[k].id as int),
                )[oi].id;
            assert(list2[k2].id == operands(g.nd(list2[k].id as int))[oi].id);
        } else {
            assert(list2[k] == node);
            assert(in_list(list1, operands(g.nd(node.id as int))[oi].id as int));
            let k2 = choose|k2: int|
                0 <= k2 < list1.len() && (#[trigger] list1[k2]).id == operands(
                    g.nd(node.id as int),
                )[oi].id;
            assert(list2[k2].id == operands(g.nd(list2[k].id as int))[oi].id);
        }
    }
    assert(dfs_inv(g, root, list2, seen, stack));
    lemma_dfs_inv_closed(g, root, list2, seen, stack);
    assert forall|id: int| #[trigger]
        reaches(g, node.id as int, id) && g.nd(id).op is Some implies in_list(list2, id) by {
        assert(in_list(list2, node.id as int));
        lemma_list_closed(g, list2, node.id as int, id);
    }
}

/// Depth-first walk that marks a node, descends into its operands, and then
/// appends the node; leaves are marked but never appended.
fn visit(
    g: &Graph,
    node: Matrix,
    list: &mut Vec<Matrix>,
    seen: &mut HashMap<usize, bool>,
    Ghost(root): Ghost<int>,
    Ghost(stack): Ghost<Set<int>>,
)
    requires
        g.wf(),
        node.valid(*g),
        reaches(*g, root, node.id as int),
        dfs_inv(*g, root, old(list)@, old(seen)@, stack),
        forall|s: int| #[trigger] stack.contains(s) ==> s > node.id,
    ensures
        dfs_inv(*g, root, final(list)@, final(seen)@, stack),
        final(list)@.len() >= old(list)@.len(),
        forall|k: int| 0 <= k < old(list)@.len() ==> final(list)@[k] == old(list)@[k],
        forall|id: usize| old(seen)@.contains_key(id) ==> final(seen)@.contains_key(id),
        g.nd(node.id as int).op is Some ==> in_list(final(list)@, node.id as int),
        forall|id: int| #[trigger]
            reaches(*g, node.id as int, id) && g.nd(id).op is Some ==> in_list(
                final(list)@,
                id,
            ),
        (g.nd(node.id as int).op is Some && !old(seen)@.contains_key(node.id))
            ==> final(list)@.len() > 0 && final(list)@[final(list)@.len() - 1] == node,
        g.nd(node.id as int).op is None ==> final(list)@ == old(list)@,
    decreases node.id,
{
    proof {
        assert(g.wf_at(node.id as int));
    }
    if seen.contains_key(&node.id) {
        proof {
            assert(!stack.contains(node.id as int));
            if g.nd(node.id as int).op is Some {
                assert(in_list(list@, node.id as int));
                lemma_dfs_inv_closed(*g, root, list@, seen@, stack);
                assert forall|id: int| #[trigger]
                    reaches(*g, node.id as int, id) && g.nd(id).op is Some implies in_list(
                    list@,
                    id,
                ) by {
                    lemma_list_closed(*g, list@, node.id as int, id);
                }
            } else {
                assert forall|id: int| #[trigger]
                    reaches(*g, node.id as int, id) && g.nd(id).op is Some implies in_list(
                    list@,
                    id,
                ) by {
                    lemma_reaches_leaf(*g, node.id as int, id);
                }
            }
        }
        return ;
    }
    seen.insert(node.id, true);
    let op = g.nodes[node.id].op;
    match op {
        None => {
            proof {
                assert(g.nd(node.id as int).op is None);
                assert forall|id: int| #[trigger]
                    reaches(*g, node.id as int, id) && g.nd(id).op is Some implies in_list(
                    list@,
                    id,
                ) by {
                    lemma_reaches_leaf(*g, node.id as int, id);
                }
            }
        },
        Some(o) => {
            let ghost stack2 = stack.insert(node.id as int);
            proof {
                assert(dfs_inv(*g, root, list@, seen@, stack2));
            }
            match o {
                Operator::Binary(l, r, _) => {
                    proof {
                        assert(operands(g.nd(node.id as int))[0] == l);
                        assert(operands(g.nd(node.id as int))[1] == r);
                        lemma_reaches_operand(*g, node.id as int, 0);
                        lemma_reaches_operand(*g, node.id as int, 1);
                        lemma_reaches_trans(*g, root, node.id as int, l.id as int);
                        lemma_reaches_trans(*g, root, node.id as int, r.id as int);
                    }
                    visit(g, l, list, seen, Ghost(root), Ghost(stack2));
                    let ghost la = list@;
                    visit(g, r, list, seen, Ghost(root), Ghost(stack2));
                    proof {
                        if g.nd(l.id as int).op is Some {
                            assert(in_list(la, l.id as int));
                            let k3 = choose|k3: int|
                                0 <= k3 < la.len() && (#[trigger] la[k3]).id == l.id as int;
                            assert(list@[k3].id == l.id as int);
                            assert(in_list(list@, l.id as int));
                        }
                        let ghost list1 = list@;
                        assert forall|oi: int|
                            0 <= oi < operands(g.nd(node.id as int)).len() && g.nd(
                                (#[trigger] operands(g.nd(node.id as int))[oi]).id as int,
                            ).op is Some implies in_list(
                            list1,
                            operands(g.nd(node.id as int))[oi].id as int,
                        ) by {
                            if oi == 0 {
                                assert(in_list(list1, l.id as int));
                            } else {
                                assert(operands(g.nd(node.id as int))[oi] == r);
                                assert(in_list(list1, r.id as int));
                            }
                        }
                        lemma_push_node(*g, root, list1, seen@, stack, node);
                    }
                    list.push(node);
                },
                Operator::BinaryScalar(m, _, _) | Operator::Unary(m, _) => {
                    proof {
                        assert(operands(g.nd(node.id as int))[0] == m);
                        lemma_reaches_operand(*g, node.id as int, 0);
                        lemma_reaches_trans(*g, root, node.id as int, m.id as int);
                    }
                    visit(g, m, list, seen, Ghost(root), Ghost(stack2));
                    proof {
                        let ghost list1 = list@;
                        assert forall|oi: int|
                            0 <= oi < operands(g.nd(node.id as int)).len() && g.nd(
                                (#[trigger] operands(g.nd(node.id as int))[oi]).id as int,
                            ).op is Some implies in_list(
                            list1,
                            operands(g.nd(node.id as int))[oi].id as int,
                        ) by {
                            assert(operands(g.nd(node.id as int))[oi] == m);
                            assert(in_list(list1, m.id as int));
                        }
                        lemma_push_node(*g, root, list1, seen@, stack, node);
                    }
                    list.push(node);
                },
            }
        },
    }
}

/// Contract of the topological sequencer: every listed handle is a derived
/// node reachable from the root, ids are pairwise distinct, the root comes
/// first, every reachable derived node is listed, and each listed node
/// precedes its derived operands (consumers before producers).
pub open spec fn topo_post(g: Graph, root: Matrix, s: Seq<Matrix>) -> bool {
    &&& forall|k: int| 0 <= k < s.len() ==> (#[trigger] s[k]).id < g.nodes@.len()
    &&& forall|k: int| 0 <= k < s.len() ==> g.nd((#[trigger] s[k]).id as int).op is Some
    &&& forall|k: int|
        0 <= k < s.len() ==> reaches(g, root.id as int, (#[trigger] s[k]).id as int)
    &&& seq_ids_distinct(s)
    &&& (g.nd(root.id as int).op is Some ==> s.len() >= 1 && s[0] == root)
    &&& (g.nd(root.id as int).op is None ==> s.len() == 0)
    &&& forall|i: int| #[trigger]
        reaches(g, root.id as int, i) && g.nd(i).op is Some ==> in_list(s, i)
    &&& forall|k: int, oi: int|
        #![trigger operands(g.nd(s[k].id as int))[oi]]
        0 <= k < s.len() && 0 <= oi < operands(g.nd(s[k].id as int)).len() && g.nd(
            operands(g.nd(s[k].id as int))[oi].id as int,
        ).op is Some ==> exists|k2: int|
            k < k2 < s.len() && (#[trigger] s[k2]).id == operands(g.nd(s[k].id as int))[oi].id
}

impl Matrix {
    /// Linearizes the sub-graph below this node into consumer-before-producer
    /// order, listing each distinct derived node exactly once.
    pub fn topological_sort(&self, g: &Graph) -> (r: Vec<Matrix>)
        requires
            g.wf(),
            self.valid(*g),
        ensures
            topo_post(*g, *self, r@),
    {
        let mut list: Vec<Matrix> = Vec::new();
        let mut seen: HashMap<usize, bool> = HashMap::new();
        proof {
            lemma_reaches_refl(*g, self.id as int);
            assert(dfs_inv(*g, self.id as int, list@, seen@, Set::empty()));
        }
        visit(g, *self, &mut list, &mut seen, Ghost(self.id as int), Ghost(Set::empty()));
        let n = list.len();
        let mut rev: Vec<Matrix> = Vec::new();
        while rev.len() < n
            invariant
                n == list@.len(),
                rev@.len() <= n,
                forall|k: int| 0 <= k < rev@.len() ==> (#[trigger] rev@[k]) == list@[n - 1 - k],
            decreases n - rev@.len(),
        {
            let idx = n - 1 - rev.len();
            rev.push(list[idx]);
        }
        proof {
            let ls = list@;
            let rs = rev@;
            assert(rs.len() == n);
            assert forall|k: int|
                0 <= k < rs.len() implies (#[trigger] rs[k]).id < g.nodes@.len() && g.nd(
                rs[k].id as int,
            ).op is Some && reaches(*g, self.id as int, rs[k].id as int) by {
                assert(rs[k] == ls[n - 1 - k]);
            }
            assert forall|k1: int, k2: int|
                0 <= k1 < k2 < rs.len() implies (#[trigger] rs[k1]).id != (
            #[trigger] rs[k2]).id by {
                assert(rs[k1] == ls[n - 1 - k1]);
                assert(rs[k2] == ls[n - 1 - k2]);
                assert(0 <= n - 1 - k2 < n - 1 - k1 < n);
            }
            if g.nd(self.id as int).op is Some {
                assert(ls[n - 1] == *self);
                assert(rs[0] == *self);
            }
            assert forall|i: int| #[trigger]
                reaches(*g, self.id as int, i) && g.nd(i).op is Some implies in_list(rs, i) by {
                assert(in_list(ls, i));
                let k = choose|k: int| 0 <= k < ls.len() && (#[trigger] ls[k]).id == i;
                assert(rs[n - 1 - k] == ls[n - 1 - (n - 1 - k)]);
                assert(rs[n - 1 - k].id == i);
            }
            assert forall|k: int, oi: int|
                0 <= k < rs.len() && 0 <= oi < operands(g.nd(rs[k].id as int)).len() && g.nd(
                    (#[trigger] operands(g.nd(rs[k].id as int))[oi]).id as int,
                ).op is Some implies exists|k2: int|
                k < k2 < rs.len() && (#[trigger] rs[k2]).id == operands(
                    g.nd(rs[k].id as int),
                )[oi].id by {
                let kl = n - 1 - k;
                assert(rs[k] == ls[kl]);
                let k2l = choose|k2l: int|
                    0 <= k2l < kl && (#[trigger] ls[k2l]).id == operands(
                        g.nd(ls[kl].id as int),
                    )[oi].id;
                let k2 = n - 1 - k2l;
                assert(rs[k2] == ls[n - 1 - (n - 1 - k2l)]);
                assert(k < k2 < rs.len() && rs[k2].id == operands(g.nd(rs[k].id as int))[oi].id);
            }
        }
        rev
    }
}

/// Accumulated gradients of one reverse pass: a map from node id to the
/// handle of the gradient matrix of that node.
#[derive(Debug)]
pub struct GradMap(pub HashMap<usize, Matrix>);

impl View for GradMap {
    type V = Map<usize, Matrix>;

    open spec fn view(&self) -> Map<usize, Matrix> {
        self.0@
    }
}

impl GradMap {
    pub fn new() -> (r: Self)
        ensures
            r@ == Map::<usize, Matrix>::empty(),
    {
        GradMap(HashMap::new())
    }

    pub fn get(&self, id: usize) -> (r: Option<Matrix>)
        ensures
            match r {
                Some(m) => self@.contains_key(id) && self@[id] == m,
                None => !self@.contains_key(id),
            },
    {
        match self.0.get(&id) {
            Some(m) => Some(*m),
            None => None,
        }
    }

    pub fn insert(&mut self, mat: &Matrix, grad: Matrix) -> (r: Option<Matrix>)
        ensures
            final(self)@ == old(self)@.insert(mat.id, grad),
            match r {
                Some(v) => old(self)@.contains_key(mat.id) && v == old(self)@[mat.id],
                None => !old(self)@.contains_key(mat.id),
            },
    {
        self.0.insert(mat.id, grad)
    }

    pub fn remove(&mut self, mat: &Matrix) -> (r: Option<Matrix>)
        ensures
            final(self)@ == old(self)@.remove(mat.id),
            match r {
                Some(v) => old(self)@.contains_key(mat.id) && v == old(self)@[mat.id],
                None => !old(self)@.contains_key(mat.id),
            },
    {
        self.0.remove(&mat.id)
    }

    /// Hands back the gradient handle recorded for `mat`, creating a fresh
    /// zero matrix of `mat`'s shape on first access.
    pub fn or_insert(&mut self, mat: &Matrix, g: &mut Graph) -> (r: Matrix)
        requires
            old(g).wf(),
            mat.valid(*old(g)),
        ensures
            final(g).wf(),
            graph_extends(*final(g), *old(g)),
            final(self)@ == old(self)@.insert(mat.id, r),
            final(self)@.contains_key(mat.id) && final(self)@[mat.id] == r,
            old(self)@.contains_key(mat.id) ==> r == old(self)@[mat.id] && *final(g) == *old(
                g,
            ) && final(self)@ == old(self)@,
            !old(self)@.contains_key(mat.id) ==> {
                &&& r.id == old(g).node_count()
                &&& final(g).node_count() == old(g).node_count() + 1
                &&& final(g).nd(r.id as int).op is None
                &&& final(g).nd(r.id as int).shape == old(g).nd(mat.id as int).shape
                &&& final(g).nd(r.id as int).with_grad == false
                &&& final(g).nd(r.id as int).data@.len() == sprod(old(g).nd(mat.id as int).shape)
                &&& crate::matrix::all_val(final(g).nd(r.id as int).data@, crate::scalar::rat_zero())
            },
    {
        match self.0.get(&mat.id) {
            Some(m) => {
                let r = *m;
                proof {
                    vstd::map::axiom_map_insert_same::<usize, Matrix>(self.0@, mat.id, r);
                    assert(self.0@.insert(mat.id, r) =~= self.0@);
                }
                return r;
            },
            None => {},
        }
        // binding the buffer length gives the machine bound on the node's element count
        let total = g.nodes[mat.id].data.len();
        let shape = g.nodes[mat.id].shape;
        proof {
            assert(g.wf_at(mat.id as int));
        }
        let z = Matrix::zeros(shape, false, g);
        self.0.insert(mat.id, z);
        z
    }
}

/// The operands a node pushes gradient contributions into during the
/// reverse pass. This differs from `operands` in one respect: `Broadcast`
/// and `Sum` nodes push nothing — the reverse pass has no reduction rule for
/// them, so gradients flowing into such a node stop there. Stating the pass
/// over these edges keeps that gap explicit instead of hiding it.
pub open spec fn grad_edges(nd: Node) -> Seq<Matrix> {
    match nd.op {
        Option::None => Seq::empty(),
        Option::Some(op) => match op {
            Operator::Binary(l, r, _) => seq![l, r],
            Operator::BinaryScalar(m, _, _) => seq![m],
            Operator::Unary(m, ut) => if ut == UnaryOpType::Transpose || ut
                == UnaryOpType::Sigmoid {
                seq![m]
            } else {
                Seq::empty()
            },
        },
    }
}

/// Reachability along gradient-carrying edges only.
pub open spec fn grad_reaches(g: Graph, from: int, to: int) -> bool
    decreases from,
{
    &&& 0 <= from < g.nodes@.len()
    &&& (from == to || (match g.nd(from).op {
        Option::None => false,
        Option::Some(op) => match op {
            Operator::Binary(l, r, _) => (l.id < from && grad_reaches(g, l.id as int, to)) || (
            r.id < from && grad_reaches(g, r.id as int, to)),
            Operator::BinaryScalar(m, _, _) => m.id < from && grad_reaches(g, m.id as int, to),
            Operator::Unary(m, ut) => (ut == UnaryOpType::Transpose || ut
                == UnaryOpType::Sigmoid) && m.id < from && grad_reaches(g, m.id as int, to),
        },
    }))
}

pub proof fn lemma_grad_reaches_refl(g: Graph, i: int)
    requires
        0 <= i < g.nodes@.len(),
    ensures
        grad_reaches(g, i, i),
{
}

/// Every gradient edge is an operand edge at the same index.
pub proof fn lemma_gedge_is_operand(nd: Node, oi: int)
    requires
        0 <= oi < grad_edges(nd).len(),
    ensures
        oi < operands(nd).len(),
        grad_edges(nd)[oi] == operands(nd)[oi],
        nd.op is Some,
{
}

/// One gradient-edge step extends gradient reachability.
pub proof fn lemma_grad_edge_step(g: Graph, c: int, oi: int)
    requires
        g.wf(),
        0 <= c < g.nodes@.len(),
        0 <= oi < grad_edges(g.nd(c)).len(),
    ensures
        grad_reaches(g, c, grad_edges(g.nd(c))[oi].id as int),
{
    assert(g.wf_at(c));
    match g.nd(c).op {
        Option::None => {},
        Option::Some(op) => match op {
            Operator::Binary(l, r, _) => {
                lemma_grad_reaches_refl(g, l.id as int);
                lemma_grad_reaches_refl(g, r.id as int);
                assert(grad_edges(g.nd(c))[0] == l);
                assert(grad_edges(g.nd(c))[1] == r);
            },
            Operator::BinaryScalar(m, _, _) => {
                lemma_grad_reaches_refl(g, m.id as int);
                assert(grad_edges(g.nd(c))[0] == m);
            },
            Operator::Unary(m, _) => {
                lemma_grad_reaches_refl(g, m.id as int);
                assert(grad_edges(g.nd(c))[0] == m);
            },
        },
    }
}

pub proof fn lemma_grad_reaches_trans(g: Graph, a: int, b: int, c: int)
    requires
        grad_reaches(g, a, b),
        grad_reaches(g, b, c),
    ensures
        grad_reaches(g, a, c),
    decreases a,
{
    if a != b {
        match g.nd(a).op {
            Option::None => {},
            Option::Some(op) => match op {
                Operator::Binary(l, r, _) => {
                    if l.id < a && grad_reaches(g, l.id as int, b) {
                        lemma_grad_reaches_trans(g, l.id as int, b, c);
                    } else {
                        lemma_grad_reaches_trans(g, r.id as int, b, c);
                    }
                },
                Operator::BinaryScalar(m, _, _) => {
                    lemma_grad_reaches_trans(g, m.id as int, b, c);
                },
                Operator::Unary(m, _) => {
                    lemma_grad_reaches_trans(g, m.id as int, b, c);
                },
            },
        }
    }
}

/// Gradient reachability implies plain reachability.
pub proof fn lemma_grad_to_reaches(g: Graph, a: int, b: int)
    requires
        grad_reaches(g, a, b),
    ensures
        reaches(g, a, b),
    decreases a,
{
    if a != b {
        match g.nd(a).op {
            Option::None => {},
            Option::Some(op) => match op {
                Operator::Binary(l, r, _) => {
                    if l.id < a && grad_reaches(g, l.id as int, b) {
                        lemma_grad_to_reaches(g, l.id as int, b);
                    } else {
                        lemma_grad_to_reaches(g, r.id as int, b);
                    }
                },
                Operator::BinaryScalar(m, _, _) => {
                    lemma_grad_to_reaches(g, m.id as int, b);
                },
                Operator::Unary(m, _) => {
                    lemma_grad_to_reaches(g, m.id as int, b);
                },
            },
        }
    }
}

/// A gradient path that moves at all ends with a gradient edge into its
/// target.
pub proof fn lemma_grad_last_edge(g: Graph, a: int, b: int)
    requires
        grad_reaches(g, a, b),
        a != b,
    ensures
        exists|c: int, oi: int|
            0 <= c < g.nodes@.len() && #[trigger] grad_reaches(g, a, c) && 0 <= oi
                < grad_edges(g.nd(c)).len() && (#[trigger] grad_edges(g.nd(c))[oi]).id == b,
    decreases a,
{
    match g.nd(a).op {
        Option::None => {},
        Option::Some(op) => {
            let next: Matrix = match op {
                Operator::Binary(l, r, _) => if l.id < a && grad_reaches(
                    g,
                    l.id as int,
                    b,
                ) {
                    l
                } else {
                    r
                },
                Operator::BinaryScalar(m, _, _) => m,
                Operator::Unary(m, _) => m,
            };
            assert(grad_reaches(g, next.id as int, b));
            assert(exists|oi: int|
                0 <= oi < grad_edges(g.nd(a)).len() && (#[trigger] grad_edges(g.nd(a))[oi]).id
                    == next.id) by {
                match op {
                    Operator::Binary(l, r, _) => {
                        assert(grad_edges(g.nd(a))[0] == l);
                        assert(grad_edges(g.nd(a))[1] == r);
                    },
                    Operator::BinaryScalar(m, _, _) => {
                        assert(grad_edges(g.nd(a))[0] == m);
                    },
                    Operator::Unary(m, _) => {
                        assert(grad_edges(g.nd(a))[0] == m);
                    },
                }
            }
            if next.id as int == b {
                lemma_grad_reaches_refl(g, a);
                let oi0 = choose|oi: int|
                    0 <= oi < grad_edges(g.nd(a)).len() && (#[trigger] grad_edges(
                        g.nd(a),
                    )[oi]).id == next.id;
                assert(0 <= a < g.nodes@.len() && grad_reaches(g, a, a) && 0 <= oi0
                    < grad_edges(g.nd(a)).len() && grad_edges(g.nd(a))[oi0].id == b);
            } else {
                lemma_grad_last_edge(g, next.id as int, b);
                let (c, oi) = choose|c: int, oi: int|
                    0 <= c < g.nodes@.len() && #[trigger] grad_reaches(g, next.id as int, c) && 0
                        <= oi < grad_edges(g.nd(c)).len() && (#[trigger] grad_edges(
                        g.nd(c),
                    )[oi]).id == b;
                lemma_grad_edge_step_start(g, a, next);
                lemma_grad_reaches_trans(g, a, next.id as int, c);
                assert(0 <= c < g.nodes@.len() && grad_reaches(g, a, c) && 0 <= oi
                    < grad_edges(g.nd(c)).len() && grad_edges(g.nd(c))[oi].id == b);
            }
        },
    }
}

/// Helper: the single-step gradient reachability used while peeling a path.
proof fn lemma_grad_edge_step_start(g: Graph, a: int, next: Matrix)
    requires
        0 <= a < g.nodes@.len(),
        grad_reaches(g, a, next.id as int) || (match g.nd(a).op {
            Option::None => false,
            Option::Some(op) => match op {
                Operator::Binary(l, r, _) => (next == l && l.id < a) || (next == r && r.id < a),
                Operator::BinaryScalar(m, _, _) => next == m && m.id < a,
                Operator::Unary(m, ut) => next == m && m.id < a && (ut == UnaryOpType::Transpose
                    || ut == UnaryOpType::Sigmoid),
            },
        }),
    ensures
        grad_reaches(g, a, next.id as int),
{
    if !grad_reaches(g, a, next.id as int) {
        lemma_grad_reaches_refl(g, next.id as int);
    }
}

/// A node's buffer as a sequence of rational values.
pub open spec fn rseq(d: Seq<Scalar>) -> Seq<Rat> {
    Seq::new(d.len(), |k: int| d[k]@)
}

pub open spec fn dseq(g: Graph, i: int) -> Seq<Rat> {
    rseq(g.nd(i).data@)
}

pub open spec fn dlen(g: Graph, i: int) -> nat {
    g.nd(i).data@.len()
}

pub open spec fn seq_fits(a: Seq<Rat>) -> bool {
    forall|k: int| 0 <= k < a.len() ==> crate::scalar::rat_fits(#[trigger] a[k])
}

pub open spec fn seq_add(a: Seq<Rat>, b: Seq<Rat>) -> Seq<Rat> {
    Seq::new(a.len(), |k: int| crate::scalar::rat_add(a[k], b[k]))
}

pub open spec fn seq_sub(a: Seq<Rat>, b: Seq<Rat>) -> Seq<Rat> {
    Seq::new(a.len(), |k: int| crate::scalar::rat_sub(a[k], b[k]))
}

pub open spec fn seq_mul(a: Seq<Rat>, b: Seq<Rat>) -> Seq<Rat> {
    Seq::new(a.len(), |k: int| crate::scalar::rat_mul(a[k], b[k]))
}

pub open spec fn seq_scale(a: Seq<Rat>, s: Rat) -> Seq<Rat> {
    Seq::new(a.len(), |k: int| crate::scalar::rat_mul(a[k], s))
}

pub open spec fn seq_recip(a: Seq<Rat>) -> Seq<Rat> {
    Seq::new(a.len(), |k: int| crate::scalar::rat_div(crate::scalar::rat_one(), a[k]))
}

pub open spec fn seq_pow(a: Seq<Rat>, p: nat) -> Seq<Rat> {
    Seq::new(a.len(), |k: int| crate::scalar::rat_pow(a[k], p))
}

pub open spec fn seq_const(n: nat, v: Rat) -> Seq<Rat> {
    Seq::new(n, |k: int| v)
}

/// Partial dot product over rational buffers, mirroring `dot_partial`.
pub open spec fn rdot(
    a: Seq<Rat>,
    b: Seq<Rat>,
    acols: int,
    bcols: int,
    i: int,
    j: int,
    k: int,
) -> Rat
    decreases k,
{
    if k <= 0 {
        crate::scalar::rat_zero()
    } else {
        crate::scalar::rat_add(
            rdot(a, b, acols, bcols, i, j, k - 1),
            crate::scalar::rat_mul(a[i * acols + (k - 1)], b[(k - 1) * bcols + j]),
        )
    }
}

/// Row-major dense product of rational buffers.
pub open spec fn seq_mm(a: Seq<Rat>, b: Seq<Rat>, rows: int, inner: int, cols: int) -> Seq<
    Rat,
> {
    Seq::new((rows * cols) as nat, |x: int| rdot(a, b, inner, cols, x / cols, x % cols, inner))
}

/// Row-major transpose of a rational buffer of shape `rows` by `cols`.
pub open spec fn seq_tr(a: Seq<Rat>, rows: int, cols: int) -> Seq<Rat> {
    Seq::new((rows * cols) as nat, |k: int| a[(k % rows) * cols + k / rows])
}

/// Representability of every product and partial sum of a rational dense
/// product.
pub open spec fn rmm_ok(a: Seq<Rat>, b: Seq<Rat>, rows: int, inner: int, cols: int) -> bool {
    &&& forall|i: int, j: int, k: int|
        0 <= i < rows && 0 <= j < cols && 0 <= k < inner ==> crate::scalar::rat_fits(
            #[trigger] crate::scalar::rat_mul(a[i * inner + k], b[k * cols + j]),
        )
    &&& forall|i: int, j: int, k: int|
        0 <= i < rows && 0 <= j < cols && 0 <= k < inner ==> crate::scalar::rat_fits(
            #[trigger] rdot(a, b, inner, cols, i, j, k + 1),
        )
}

/// `rseq` commutes with the buffer transpose.
pub proof fn lemma_rseq_transpose(d: Seq<Scalar>, rows: int, cols: int)
    requires
        0 <= rows,
        0 <= cols,
        d.len() == rows * cols,
    ensures
        seq_tr(rseq(d), rows, cols) =~= rseq(crate::matrix::transpose_data(d, rows, cols)),
{
    assert forall|k: int|
        0 <= k < rows * cols implies seq_tr(rseq(d), rows, cols)[k] == rseq(
        crate::matrix::transpose_data(d, rows, cols),
    )[k] by {
        assert(rows > 0 && cols > 0) by (nonlinear_arith)
            requires
                0 <= k < rows * cols,
                0 <= rows,
                0 <= cols,
        ;
        vstd::arithmetic::div_mod::lemma_fundamental_div_mod(k, rows);
        vstd::arithmetic::div_mod::lemma_mod_bound(k, rows);
        let i = k % rows;
        let j = k / rows;
        assert(0 <= j < cols) by (nonlinear_arith)
            requires
                k == j * rows + i,
                0 <= i < rows,
                0 <= k < rows * cols,
                rows > 0,
        ;
        crate::matrix::lemma_index_bound(i, j, rows, cols);
        assert(crate::matrix::transpose_data(d, rows, cols)[k] == d[i * cols + j]);
    }
}

/// `rseq` commutes with the partial dot product.
pub proof fn lemma_rdot(
    a: Seq<Scalar>,
    b: Seq<Scalar>,
    rows: int,
    acols: int,
    bcols: int,
    i: int,
    j: int,
    k: int,
)
    requires
        0 <= i < rows,
        0 <= j < bcols,
        0 <= k <= acols,
        a.len() == rows * acols,
        b.len() == acols * bcols,
    ensures
        rdot(rseq(a), rseq(b), acols, bcols, i, j, k) == crate::matrix::dot_partial(
            a,
            b,
            acols,
            bcols,
            i,
            j,
            k,
        ),
    decreases k,
{
    if k > 0 {
        lemma_rdot(a, b, rows, acols, bcols, i, j, k - 1);
        crate::matrix::lemma_index_bound(i, k - 1, rows, acols);
        crate::matrix::lemma_index_bound(k - 1, j, acols, bcols);
    }
}

/// The gradient the reverse pass pushes along edge `oi` of a node whose
/// incoming gradient buffer is `gd`, exactly as spec'd per operator: Add
/// passes `G` to both operands; Sub negates the right contribution; Mul
/// crosses the operands; Div uses `G/rhs` and `-G*lhs/rhs^2` written with the
/// elementwise reciprocal; MatMul uses `G @ rhs^t` and `lhs^t @ G`; Transpose
/// transposes `G`; Sigmoid uses `G * y * (1 - y)` over the node's own output
/// `y`; MulScalar scales by the factor; Powf scales by the exponent and
/// multiplies by the operand's next-lower power.
pub open spec fn rule_value(g0: Graph, nid: int, gd: Seq<Rat>, oi: int) -> Seq<Rat> {
    match g0.nd(nid).op {
        Option::None => Seq::empty(),
        Option::Some(op) => match op {
            Operator::Binary(l, r, BinaryOpType::Add) => gd,
            Operator::Binary(l, r, BinaryOpType::Sub) => if oi == 0 {
                gd
            } else {
                seq_scale(gd, Rat { n: -1, d: 1 })
            },
            Operator::Binary(l, r, BinaryOpType::Mul) => if oi == 0 {
                seq_mul(gd, dseq(g0, r.id as int))
            } else {
                seq_mul(gd, dseq(g0, l.id as int))
            },
            Operator::Binary(l, r, BinaryOpType::Div) => if oi == 0 {
                seq_mul(gd, seq_recip(dseq(g0, r.id as int)))
            } else {
                seq_scale(
                    seq_mul(
                        seq_mul(
                            seq_mul(gd, seq_recip(dseq(g0, r.id as int))),
                            seq_recip(dseq(g0, r.id as int)),
                        ),
                        dseq(g0, l.id as int),
                    ),
                    Rat { n: -1, d: 1 },
                )
            },
            Operator::Binary(l, r, BinaryOpType::MatMul) => {
                let m = g0.nd(l.id as int).shape.0 as int;
                let kk = g0.nd(l.id as int).shape.1 as int;
                let n = g0.nd(r.id as int).shape.1 as int;
                if oi == 0 {
                    seq_mm(gd, seq_tr(dseq(g0, r.id as int), kk, n), m, n, kk)
                } else {
                    seq_mm(seq_tr(dseq(g0, l.id as int), m, kk), gd, kk, m, n)
                }
            },
            Operator::BinaryScalar(x, s, BinaryScalarOpType::MulScalar) => seq_scale(gd, s@),
            Operator::BinaryScalar(x, s, BinaryScalarOpType::Powf) => if s@.n == 0 {
                seq_const(dlen(g0, x.id as int), crate::scalar::rat_zero())
            } else {
                seq_mul(seq_scale(gd, s@), seq_pow(dseq(g0, x.id as int), (s@.n - 1) as nat))
            },
            Operator::Unary(x, UnaryOpType::Transpose) => seq_tr(
                gd,
                g0.nd(nid).shape.0 as int,
                g0.nd(nid).shape.1 as int,
            ),
            Operator::Unary(x, UnaryOpType::Sigmoid) => seq_mul(
                gd,
                seq_mul(
                    dseq(g0, nid),
                    seq_sub(seq_const(dlen(g0, nid), rat_one()), dseq(g0, nid)),
                ),
            ),
            Operator::Unary(x, UnaryOpType::Broadcast) => Seq::empty(),
            Operator::Unary(x, UnaryOpType::Sum) => Seq::empty(),
        },
    }
}

/// Every exact intermediate of the node's rule computation is representable;
/// when this fails, the pass reports overflow for this node.
pub open spec fn rule_ok(g0: Graph, nid: int, gd: Seq<Rat>) -> bool {
    match g0.nd(nid).op {
        Option::None => true,
        Option::Some(op) => match op {
            Operator::Binary(l, r, BinaryOpType::Add) => true,
            Operator::Binary(l, r, BinaryOpType::Sub) => seq_fits(
                seq_scale(gd, Rat { n: -1, d: 1 }),
            ),
            Operator::Binary(l, r, BinaryOpType::Mul) => seq_fits(
                seq_mul(gd, dseq(g0, r.id as int)),
            ) && seq_fits(seq_mul(gd, dseq(g0, l.id as int))),
            Operator::Binary(l, r, BinaryOpType::Div) => {
                let inv = seq_recip(dseq(g0, r.id as int));
                &&& seq_fits(inv)
                &&& seq_fits(seq_mul(gd, inv))
                &&& seq_fits(seq_mul(seq_mul(gd, inv), inv))
                &&& seq_fits(seq_mul(seq_mul(seq_mul(gd, inv), inv), dseq(g0, l.id as int)))
                &&& seq_fits(
                    seq_scale(
                        seq_mul(seq_mul(seq_mul(gd, inv), inv), dseq(g0, l.id as int)),
                        Rat { n: -1, d: 1 },
                    ),
                )
            },
            Operator::Binary(l, r, BinaryOpType::MatMul) => {
                let m = g0.nd(l.id as int).shape.0 as int;
                let kk = g0.nd(l.id as int).shape.1 as int;
                let n = g0.nd(r.id as int).shape.1 as int;
                &&& rmm_ok(gd, seq_tr(dseq(g0, r.id as int), kk, n), m, n, kk)
                &&& rmm_ok(seq_tr(dseq(g0, l.id as int), m, kk), gd, kk, m, n)
            },
            Operator::BinaryScalar(x, s, BinaryScalarOpType::MulScalar) => seq_fits(
                seq_scale(gd, s@),
            ),
            Operator::BinaryScalar(x, s, BinaryScalarOpType::Powf) => s@.n == 0 || {
                &&& seq_fits(seq_scale(gd, s@))
                &&& crate::matrix::pow_all_ok(g0.nd(x.id as int).data@, (s@.n - 1) as nat)
                &&& seq_fits(
                    seq_mul(seq_scale(gd, s@), seq_pow(dseq(g0, x.id as int), (s@.n - 1) as nat)),
                )
            },
            Operator::Unary(x, UnaryOpType::Transpose) => true,
            Operator::Unary(x, UnaryOpType::Sigmoid) => {
                let y = dseq(g0, nid);
                let one_minus = seq_sub(seq_const(dlen(g0, nid), rat_one()), y);
                &&& seq_fits(one_minus)
                &&& seq_fits(seq_mul(y, one_minus))
                &&& seq_fits(seq_mul(gd, seq_mul(y, one_minus)))
            },
            Operator::Unary(x, UnaryOpType::Broadcast) => true,
            Operator::Unary(x, UnaryOpType::Sum) => true,
        },
    }
}

/// One accumulation: the contribution `c` is summed into the entry of
/// operand `oid` (zero-initialized at length `olen` on first contribution),
/// or the pass fails if an exact sum is unrepresentable.
pub open spec fn acc_one(
    st: Map<usize, Seq<Rat>>,
    oid: usize,
    olen: nat,
    c: Seq<Rat>,
) -> Option<Map<usize, Seq<Rat>>> {
    let prev = if st.contains_key(oid) {
        st[oid]
    } else {
        seq_const(olen, crate::scalar::rat_zero())
    };
    let nw = seq_add(prev, c);
    if seq_fits(nw) {
        Some(st.insert(oid, nw))
    } else {
        None
    }
}

/// The whole local step of one derived node: check the rule computation is
/// representable, push the table's contribution into each gradient edge in
/// order, and record the node's own gradient back under its id.
pub open spec fn apply_rules(
    g0: Graph,
    node: Matrix,
    gd: Seq<Rat>,
    st: Map<usize, Seq<Rat>>,
) -> Option<Map<usize, Seq<Rat>>> {
    let nid = node.id as int;
    let es = grad_edges(g0.nd(nid));
    if !rule_ok(g0, nid, gd) {
        None
    } else if es.len() == 0 {
        Some(st.insert(node.id, gd))
    } else if es.len() == 1 {
        match acc_one(st, es[0].id, dlen(g0, es[0].id as int), rule_value(g0, nid, gd, 0)) {
            Option::None => None,
            Option::Some(s1) => Some(s1.insert(node.id, gd)),
        }
    } else {
        match acc_one(st, es[0].id, dlen(g0, es[0].id as int), rule_value(g0, nid, gd, 0)) {
            Option::None => None,
            Option::Some(s1) => match acc_one(
                s1,
                es[1].id,
                dlen(g0, es[1].id as int),
                rule_value(g0, nid, gd, 1),
            ) {
                Option::None => None,
                Option::Some(s2) => Some(s2.insert(node.id, gd)),
            },
        }
    }
}

/// A step of the pass: a node without an accumulated entry is skipped, as
/// when its only consumers were reached through gradient-free edges.
pub open spec fn pass_step(g0: Graph, node: Matrix, st: Map<usize, Seq<Rat>>) -> Option<
    Map<usize, Seq<Rat>>,
> {
    if !st.contains_key(node.id) {
        Some(st)
    } else {
        apply_rules(g0, node, st[node.id], st.remove(node.id))
    }
}

/// The reverse pass over the first `k` entries of the order, from the seeded
/// state; `None` as soon as one exact intermediate is unrepresentable.
pub open spec fn run_pass(
    g0: Graph,
    order: Seq<Matrix>,
    k: int,
    st: Map<usize, Seq<Rat>>,
) -> Option<Map<usize, Seq<Rat>>>
    decreases k,
{
    if k <= 0 {
        Some(st)
    } else {
        match run_pass(g0, order, k - 1, st) {
            Option::None => None,
            Option::Some(s) => pass_step(g0, order[k - 1], s),
        }
    }
}

/// The seeded initial state of the pass: the root's entry is the all-ones
/// buffer of the root's size.
pub open spec fn pass_init(g0: Graph, root: Matrix) -> Map<usize, Seq<Rat>> {
    Map::<usize, Seq<Rat>>::empty().insert(
        root.id,
        seq_const(dlen(g0, root.id as int), rat_one()),
    )
}

/// Once a step fails, the whole pass fails.
pub proof fn lemma_run_pass_absorbs(
    g0: Graph,
    order: Seq<Matrix>,
    k: int,
    j: int,
    st: Map<usize, Seq<Rat>>,
)
    requires
        0 <= k <= j,
        run_pass(g0, order, k, st) is None,
    ensures
        run_pass(g0, order, j, st) is None,
    decreases j - k,
{
    if j > k {
        lemma_run_pass_absorbs(g0, order, k, j - 1, st);
    }
}

/// The buffers the accumulator denotes: each entry's handle resolved to its
/// rational buffer in the graph.
pub open spec fn dmap(m: Map<usize, Matrix>, g: Graph) -> Map<usize, Seq<Rat>> {
    Map::new(|id: usize| m.contains_key(id), |id: usize| dseq(g, m[id].id as int))
}

pub proof fn lemma_dmap_insert(m: Map<usize, Matrix>, g: Graph, id: usize, h: Matrix)
    ensures
        dmap(m.insert(id, h), g) =~= dmap(m, g).insert(id, dseq(g, h.id as int)),
{
}

pub proof fn lemma_dmap_remove(m: Map<usize, Matrix>, g: Graph, id: usize)
    ensures
        dmap(m.remove(id), g) =~= dmap(m, g).remove(id),
{
}

/// Growing the graph leaves the denoted buffers of existing entries
/// untouched.
pub proof fn lemma_dmap_frame(m: Map<usize, Matrix>, g1: Graph, g2: Graph)
    requires
        graph_extends(g2, g1),
        forall|id: usize| #[trigger] m.contains_key(id) ==> m[id].id < g1.nodes@.len(),
    ensures
        dmap(m, g2) =~= dmap(m, g1),
{
    assert forall|id: usize| #[trigger] m.contains_key(id) implies dseq(g2, m[id].id as int)
        == dseq(g1, m[id].id as int) by {
        assert(g2.nodes@[m[id].id as int] == g1.nodes@[m[id].id as int]);
    }
}

/// Well-formedness of the accumulator against the current graph `g` and the
/// graph `g0` the pass was started on: every entry is a valid handle whose
/// shape equals that of the node it stands for.
pub open spec fn grads_wf(m: Map<usize, Matrix>, g: Graph, g0: Graph) -> bool {
    forall|id: usize| #[trigger]
        m.contains_key(id) ==> id < g0.nodes@.len() && m[id].id < g.nodes@.len() && g.nd(
            m[id].id as int,
        ).shape == g0.nd(id as int).shape
}

pub proof fn lemma_grads_wf_frame(m: Map<usize, Matrix>, g1: Graph, g2: Graph, g0: Graph)
    requires
        grads_wf(m, g1, g0),
        graph_extends(g2, g1),
    ensures
        grads_wf(m, g2, g0),
{
    assert forall|id: usize| #[trigger] m.contains_key(id) implies id < g0.nodes@.len()
        && m[id].id < g2.nodes@.len() && g2.nd(m[id].id as int).shape == g0.nd(
        id as int,
    ).shape by {
        assert(g2.nodes@[m[id].id as int] == g1.nodes@[m[id].id as int]);
    }
}

/// An elementwise product of two same-shape nodes denotes the pointwise
/// rational product of their buffers, and each product fits.
proof fn lemma_mul_contrib(
    gpre: Graph,
    gpost: Graph,
    a: Matrix,
    b: Matrix,
    m: Matrix,
    nm: Seq<char>,
)
    requires
        gpre.wf(),
        a.id < gpre.nodes@.len(),
        b.id < gpre.nodes@.len(),
        gpre.nd(a.id as int).shape == gpre.nd(b.id as int).shape,
        crate::matrix::ew_post(gpre, gpost, a, b, BinaryOpType::Mul, nm, Ok(m)),
    ensures
        dseq(gpost, m.id as int) =~= seq_mul(dseq(gpre, a.id as int), dseq(gpre, b.id as int)),
        seq_fits(seq_mul(dseq(gpre, a.id as int), dseq(gpre, b.id as int))),
{
    let sh = gpre.nd(a.id as int).shape;
    crate::matrix::lemma_shape_self(sh);
    let la = crate::matrix::expanded_view(gpre, a, crate::matrix::spec_broadcast_shape(sh, sh));
    let rb = crate::matrix::expanded_view(gpre, b, crate::matrix::spec_broadcast_shape(sh, sh));
    assert(la == gpre.nd(a.id as int).data@);
    assert(rb == gpre.nd(b.id as int).data@);
    assert(gpre.wf_at(a.id as int));
    assert(gpre.wf_at(b.id as int));
    let out = seq_mul(dseq(gpre, a.id as int), dseq(gpre, b.id as int));
    assert forall|k: int| 0 <= k < out.len() implies dseq(gpost, m.id as int)[k] == out[k]
        && crate::scalar::rat_fits(#[trigger] out[k]) by {
        assert((gpost.nd(m.id as int).data@[k])@ == crate::matrix::rat_bop(
            BinaryOpType::Mul,
            la[k]@,
            rb[k]@,
        ));
        assert(crate::scalar::rat_fits(
            crate::matrix::rat_bop(BinaryOpType::Mul, la[k]@, rb[k]@),
        ));
    }
}

/// A scalar product node denotes the pointwise scaling of its operand's
/// buffer, and each scaled value fits.
proof fn lemma_scale_contrib(gpre: Graph, gpost: Graph, a: Matrix, s: Scalar, m: Matrix)
    requires
        gpre.wf(),
        a.id < gpre.nodes@.len(),
        m.id < gpost.nodes@.len(),
        gpost.nd(m.id as int).data@.len() == gpre.nd(a.id as int).data@.len(),
        forall|k: int|
            0 <= k < gpre.nd(a.id as int).data@.len() ==> crate::scalar::rat_fits(
                #[trigger] crate::scalar::rat_mul(gpre.nd(a.id as int).data@[k]@, s@),
            ),
        forall|k: int|
            0 <= k < gpre.nd(a.id as int).data@.len() ==> (#[trigger] gpost.nd(
                m.id as int,
            ).data@[k])@ == crate::scalar::rat_mul(gpre.nd(a.id as int).data@[k]@, s@),
    ensures
        dseq(gpost, m.id as int) =~= seq_scale(dseq(gpre, a.id as int), s@),
        seq_fits(seq_scale(dseq(gpre, a.id as int), s@)),
{
    let out = seq_scale(dseq(gpre, a.id as int), s@);
    assert forall|k: int| 0 <= k < out.len() implies dseq(gpost, m.id as int)[k] == out[k]
        && crate::scalar::rat_fits(#[trigger] out[k]) by {
        assert((gpost.nd(m.id as int).data@[k])@ == crate::scalar::rat_mul(
            gpre.nd(a.id as int).data@[k]@,
            s@,
        ));
    }
}

/// Dividing an all-ones node by a same-shape divisor denotes the pointwise
/// reciprocal, and each reciprocal fits.
proof fn lemma_recip_contrib(
    gpre: Graph,
    gpost: Graph,
    ones_h: Matrix,
    b: Matrix,
    m: Matrix,
    nm: Seq<char>,
)
    requires
        gpre.wf(),
        ones_h.id < gpre.nodes@.len(),
        b.id < gpre.nodes@.len(),
        gpre.nd(ones_h.id as int).shape == gpre.nd(b.id as int).shape,
        crate::matrix::all_val(gpre.nd(ones_h.id as int).data@, rat_one()),
        crate::matrix::ew_post(gpre, gpost, ones_h, b, BinaryOpType::Div, nm, Ok(m)),
    ensures
        dseq(gpost, m.id as int) =~= seq_recip(dseq(gpre, b.id as int)),
        seq_fits(seq_recip(dseq(gpre, b.id as int))),
{
    let sh = gpre.nd(ones_h.id as int).shape;
    crate::matrix::lemma_shape_self(sh);
    let la = crate::matrix::expanded_view(
        gpre,
        ones_h,
        crate::matrix::spec_broadcast_shape(sh, sh),
    );
    let rb = crate::matrix::expanded_view(gpre, b, crate::matrix::spec_broadcast_shape(sh, sh));
    assert(la == gpre.nd(ones_h.id as int).data@);
    assert(rb == gpre.nd(b.id as int).data@);
    assert(gpre.wf_at(ones_h.id as int));
    assert(gpre.wf_at(b.id as int));
    let out = seq_recip(dseq(gpre, b.id as int));
    assert forall|k: int| 0 <= k < out.len() implies dseq(gpost, m.id as int)[k] == out[k]
        && crate::scalar::rat_fits(#[trigger] out[k]) by {
        assert(la[k]@ == rat_one());
        assert((gpost.nd(m.id as int).data@[k])@ == crate::matrix::rat_bop(
            BinaryOpType::Div,
            la[k]@,
            rb[k]@,
        ));
        assert(crate::scalar::rat_fits(
            crate::matrix::rat_bop(BinaryOpType::Div, la[k]@, rb[k]@),
        ));
    }
}

/// A dense product node denotes the rational dense product of its operand
/// buffers, with every product and partial sum representable.
proof fn lemma_mm_contrib(
    abuf: Seq<Scalar>,
    bbuf: Seq<Scalar>,
    out: Seq<Scalar>,
    rows: int,
    inner: int,
    cols: int,
)
    requires
        0 <= rows,
        0 <= inner,
        0 <= cols,
        abuf.len() == rows * inner,
        bbuf.len() == inner * cols,
        out.len() == rows * cols,
        crate::matrix::mm_ok(abuf, bbuf, rows, inner, cols),
        forall|i: int, j: int|
            0 <= i < rows && 0 <= j < cols ==> (#[trigger] out[i * cols + j])@
                == crate::matrix::dot_partial(abuf, bbuf, inner, cols, i, j, inner),
    ensures
        rseq(out) =~= seq_mm(rseq(abuf), rseq(bbuf), rows, inner, cols),
        rmm_ok(rseq(abuf), rseq(bbuf), rows, inner, cols),
{
    assert forall|x: int|
        0 <= x < rows * cols implies rseq(out)[x] == seq_mm(
        rseq(abuf),
        rseq(bbuf),
        rows,
        inner,
        cols,
    )[x] by {
        assert(cols > 0 && rows > 0) by (nonlinear_arith)
            requires
                0 <= x < rows * cols,
                0 <= rows,
                0 <= cols,
        ;
        vstd::arithmetic::div_mod::lemma_fundamental_div_mod(x, cols);
        vstd::arithmetic::div_mod::lemma_mod_bound(x, cols);
        let i = x / cols;
        let j = x % cols;
        assert(0 <= i < rows) by (nonlinear_arith)
            requires
                x == i * cols + j,
                0 <= j < cols,
                0 <= x < rows * cols,
                cols > 0,
        ;
        lemma_rdot(abuf, bbuf, rows, inner, cols, i, j, inner);
        assert(out[i * cols + j]@ == crate::matrix::dot_partial(
            abuf,
            bbuf,
            inner,
            cols,
            i,
            j,
            inner,
        ));
    }
    assert forall|i: int, j: int, k: int|
        0 <= i < rows && 0 <= j < cols && 0 <= k < inner implies crate::scalar::rat_fits(
        #[trigger] crate::scalar::rat_mul(rseq(abuf)[i * inner + k], rseq(bbuf)[k * cols + j]),
    ) by {
        crate::matrix::lemma_index_bound(i, k, rows, inner);
        crate::matrix::lemma_index_bound(k, j, inner, cols);
        assert(crate::scalar::rat_fits(
            crate::scalar::rat_mul(abuf[i * inner + k]@, bbuf[k * cols + j]@),
        ));
    }
    assert forall|i: int, j: int, k: int|
        0 <= i < rows && 0 <= j < cols && 0 <= k < inner implies crate::scalar::rat_fits(
        #[trigger] rdot(rseq(abuf), rseq(bbuf), inner, cols, i, j, k + 1),
    ) by {
        lemma_rdot(abuf, bbuf, rows, inner, cols, i, j, k + 1);
        assert(crate::scalar::rat_fits(
            crate::matrix::dot_partial(abuf, bbuf, inner, cols, i, j, k + 1),
        ));
    }
}

/// Converse direction: representability over the rational buffers carries
/// back to the machine buffers.
proof fn lemma_rmm_to_mm(abuf: Seq<Scalar>, bbuf: Seq<Scalar>, rows: int, inner: int, cols: int)
    requires
        0 <= rows,
        0 <= inner,
        0 <= cols,
        abuf.len() == rows * inner,
        bbuf.len() == inner * cols,
        rmm_ok(rseq(abuf), rseq(bbuf), rows, inner, cols),
    ensures
        crate::matrix::mm_ok(abuf, bbuf, rows, inner, cols),
{
    assert forall|i: int, j: int, k: int|
        0 <= i < rows && 0 <= j < cols && 0 <= k < inner implies crate::scalar::rat_fits(
        #[trigger] crate::scalar::rat_mul(abuf[i * inner + k]@, bbuf[k * cols + j]@),
    ) by {
        crate::matrix::lemma_index_bound(i, k, rows, inner);
        crate::matrix::lemma_index_bound(k, j, inner, cols);
        assert(crate::scalar::rat_fits(
            crate::scalar::rat_mul(rseq(abuf)[i * inner + k], rseq(bbuf)[k * cols + j]),
        ));
    }
    assert forall|i: int, j: int, k: int|
        0 <= i < rows && 0 <= j < cols && 0 <= k < inner implies crate::scalar::rat_fits(
        #[trigger] crate::matrix::dot_partial(abuf, bbuf, inner, cols, i, j, k + 1),
    ) by {
        lemma_rdot(abuf, bbuf, rows, inner, cols, i, j, k + 1);
        assert(crate::scalar::rat_fits(rdot(rseq(abuf), rseq(bbuf), inner, cols, i, j, k + 1)));
    }
}

/// Adds one contribution into the accumulator entry of `operand`, creating a
/// zero entry first if none exists. Never overwrites: contributions from
/// several consumers sum up.
fn accumulate(
    grads: &mut GradMap,
    operand: Matrix,
    part: Matrix,
    g: &mut Graph,
    Ghost(g0): Ghost<Graph>,
) -> (r: Result<(), MatrixError>)
    requires
        old(g).wf(),
        g0.wf(),
        graph_extends(*old(g), g0),
        operand.id < g0.nodes@.len(),
        part.id < old(g).nodes@.len(),
        old(g).nd(part.id as int).shape == g0.nd(operand.id as int).shape,
        grads_wf(old(grads)@, *old(g), g0),
    ensures
        final(g).wf(),
        graph_extends(*final(g), *old(g)),
        grads_wf(final(grads)@, *final(g), g0),
        match r {
            Ok(_) => {
                &&& forall|id: usize| #[trigger]
                    final(grads)@.contains_key(id) <==> (old(grads)@.contains_key(id) || id
                        == operand.id)
                &&& forall|id: usize|
                    old(grads)@.contains_key(id) && id != operand.id
                        ==> #[trigger] final(grads)@[id] == old(grads)@[id]
            },
            Err(e) => e is OverflowError,
        },
        match r {
            Ok(_) => acc_one(
                dmap(old(grads)@, *old(g)),
                operand.id,
                g0.nd(operand.id as int).data@.len(),
                rseq(old(g).nd(part.id as int).data@),
            ) == Some(dmap(final(grads)@, *final(g))),
            Err(_) => acc_one(
                dmap(old(grads)@, *old(g)),
                operand.id,
                g0.nd(operand.id as int).data@.len(),
                rseq(old(g).nd(part.id as int).data@),
            ) is None,
        },
{
    proof {
        assert(g.nodes@[operand.id as int] == g0.nodes@[operand.id as int]);
        assert(g0.wf_at(operand.id as int));
    }
    let ghost st0 = dmap(old(grads)@, *old(g));
    let ghost olen = g0.nd(operand.id as int).data@.len();
    let ghost cseq = rseq(old(g).nd(part.id as int).data@);
    let ghost prev: Seq<Rat> = if st0.contains_key(operand.id) {
        st0[operand.id]
    } else {
        seq_const(olen, crate::scalar::rat_zero())
    };
    let cur = grads.or_insert(&operand, g);
    proof {
        lemma_grads_wf_frame(old(grads)@, *old(g), *g, g0);
        crate::matrix::lemma_shape_self(g0.nd(operand.id as int).shape);
        assert(g.nd(cur.id as int).shape == g0.nd(operand.id as int).shape);
        assert(g.nd(part.id as int).shape == g0.nd(operand.id as int).shape);
        assert forall|id: usize| #[trigger] grads@.contains_key(id) implies id
            < g0.nodes@.len() && grads@[id].id < g.nodes@.len() && g.nd(
            grads@[id].id as int,
        ).shape == g0.nd(id as int).shape by {
            if id != operand.id {
                assert(old(grads)@.contains_key(id));
                assert(grads@[id] == old(grads)@[id]);
            }
        }
        assert(grads_wf(grads@, *g, g0));
        // the entry the reference accumulation adds into
        assert(g.nodes@[part.id as int] == old(g).nodes@[part.id as int]);
        assert(dseq(*g, cur.id as int) =~= prev) by {
            if st0.contains_key(operand.id) {
            } else {
                assert(g.nd(cur.id as int).data@.len() == olen);
                assert forall|k: int|
                    0 <= k < olen implies dseq(*g, cur.id as int)[k] == crate::scalar::rat_zero()
                     by {
                    assert((g.nd(cur.id as int).data@[k])@ == crate::scalar::rat_zero());
                }
            }
        }
    }
    let ghost go = *g;
    let ghost sh = g0.nd(operand.id as int).shape;
    let total = match cur.add(&part, g) {
        Ok(x) => x,
        Err(e) => {
            proof {
                lemma_grads_wf_frame(grads@, go, *g, g0);
                match e {
                    MatrixError::ShapeMismatchError { .. } => {
                        assert(false);
                    },
                    MatrixError::DivisionByZeroError => {
                        assert(false);
                    },
                    _ => {},
                }
                let la = crate::matrix::expanded_view(
                    go,
                    cur,
                    crate::matrix::spec_broadcast_shape(sh, sh),
                );
                let rb = crate::matrix::expanded_view(
                    go,
                    part,
                    crate::matrix::spec_broadcast_shape(sh, sh),
                );
                assert(la == go.nd(cur.id as int).data@);
                assert(rb == go.nd(part.id as int).data@);
                let k0 = choose|k: int|
                    0 <= k < la.len() && !crate::scalar::rat_fits(
                        #[trigger] crate::matrix::rat_bop(BinaryOpType::Add, la[k]@, rb[k]@),
                    );
                assert(go.wf_at(cur.id as int));
                assert(old(g).wf_at(part.id as int));
                assert(go.nd(part.id as int) == old(g).nd(part.id as int));
                assert(prev.len() == la.len());
                assert(rb.len() == la.len());
                assert(prev[k0] == la[k0]@);
                assert(cseq[k0] == rb[k0]@);
                assert(seq_add(prev, cseq)[k0] == crate::scalar::rat_add(prev[k0], cseq[k0]));
                assert(!crate::scalar::rat_fits(seq_add(prev, cseq)[k0]));
                assert(!seq_fits(seq_add(prev, cseq)));
            }
            return Err(e);
        },
    };
    proof {
        lemma_grads_wf_frame(grads@, go, *g, g0);
        assert(g.nd(total.id as int).shape == g0.nd(operand.id as int).shape);
    }
    grads.insert(&operand, total);
    proof {
        assert forall|id: usize| #[trigger] grads@.contains_key(id) implies id
            < g0.nodes@.len() && grads@[id].id < g.nodes@.len() && g.nd(
            grads@[id].id as int,
        ).shape == g0.nd(id as int).shape by {
            if id != operand.id {
                assert(old(grads)@.contains_key(id));
            }
        }
        // the new entry's buffer is exactly the reference sum
        let la = crate::matrix::expanded_view(
            go,
            cur,
            crate::matrix::spec_broadcast_shape(sh, sh),
        );
        let rb = crate::matrix::expanded_view(
            go,
            part,
            crate::matrix::spec_broadcast_shape(sh, sh),
        );
        assert(la == go.nd(cur.id as int).data@);
        assert(rb == go.nd(part.id as int).data@);
        let nw = seq_add(prev, cseq);
        assert(go.wf_at(cur.id as int));
        assert(old(g).wf_at(part.id as int));
        assert(go.nd(part.id as int) == old(g).nd(part.id as int));
        assert(prev.len() == la.len());
        assert(rb.len() == la.len());
        assert(dseq(*g, total.id as int) =~= nw) by {
            assert forall|k: int|
                0 <= k < nw.len() implies dseq(*g, total.id as int)[k] == nw[k] by {
                assert(prev[k] == la[k]@);
                assert(cseq[k] == rb[k]@);
                assert((g.nd(total.id as int).data@[k])@ == crate::matrix::rat_bop(
                    BinaryOpType::Add,
                    la[k]@,
                    rb[k]@,
                ));
            }
        }
        assert(seq_fits(nw)) by {
            assert forall|k: int| 0 <= k < nw.len() implies crate::scalar::rat_fits(
                #[trigger] nw[k],
            ) by {
                assert(crate::scalar::rat_fits(
                    crate::matrix::rat_bop(BinaryOpType::Add, la[k]@, rb[k]@),
                ));
            }
        }
        assert(acc_one(st0, operand.id, olen, cseq) == Some(st0.insert(operand.id, nw)));
        // relate the final accumulator view to the reference state
        assert(grads@ == old(grads)@.insert(operand.id, cur).insert(operand.id, total));
        assert(grads@ =~= old(grads)@.insert(operand.id, total));
        lemma_dmap_frame(old(grads)@, *old(g), *g);
        lemma_dmap_insert(old(grads)@, *g, operand.id, total);
        assert(dmap(grads@, *g) =~= st0.insert(operand.id, nw));
    }
    Ok(())
}

/// Applies the local gradient rule of one derived node: pushes the table's
/// contribution into each gradient-carrying operand, and records `grad` back
/// under the node's own id. The accumulator's denoted buffers change exactly
/// as `apply_rules` says, and failure means exactly that some intermediate
/// of this node's rule is unrepresentable.
#[verifier::rlimit(100)]
fn process_node(
    node: Matrix,
    grad: Matrix,
    grads: &mut GradMap,
    g: &mut Graph,
    Ghost(g0): Ghost<Graph>,
) -> (r: Result<(), MatrixError>)
    requires
        old(g).wf(),
        g0.wf(),
        graph_extends(*old(g), g0),
        node.id < g0.nodes@.len(),
        g0.nd(node.id as int).op is Some,
        grad.id < old(g).nodes@.len(),
        old(g).nd(grad.id as int).shape == g0.nd(node.id as int).shape,
        grads_wf(old(grads)@, *old(g), g0),
    ensures
        final(g).wf(),
        graph_extends(*final(g), *old(g)),
        grads_wf(final(grads)@, *final(g), g0),
        match r {
            Ok(_) => {
                &&& forall|id: usize| #[trigger]
                    final(grads)@.contains_key(id) <==> (old(grads)@.contains_key(id) || id
                        == node.id || (exists|oi: int|
                        0 <= oi < grad_edges(g0.nd(node.id as int)).len() && (
                        #[trigger] grad_edges(g0.nd(node.id as int))[oi]).id == id))
                &&& final(grads)@.contains_key(node.id) && final(grads)@[node.id] == grad
                &&& forall|id: usize|
                    old(grads)@.contains_key(id) && id != node.id && !(exists|oi: int|
                        0 <= oi < grad_edges(g0.nd(node.id as int)).len() && (
                        #[trigger] grad_edges(g0.nd(node.id as int))[oi]).id == id)
                        ==> #[trigger] final(grads)@[id] == old(grads)@[id]
            },
            Err(e) => e is OverflowError,
        },
        match r {
            Ok(_) => apply_rules(
                g0,
                node,
                rseq(old(g).nd(grad.id as int).data@),
                dmap(old(grads)@, *old(g)),
            ) == Some(dmap(final(grads)@, *final(g))),
            Err(_) => apply_rules(
                g0,
                node,
                rseq(old(g).nd(grad.id as int).data@),
                dmap(old(grads)@, *old(g)),
            ) is None,
        },
{
    proof {
        assert(g.nodes@[node.id as int] == g0.nodes@[node.id as int]);
        assert(g0.wf_at(node.id as int));
        assert(old(g).wf_at(grad.id as int));
    }
    let ghost st0 = dmap(old(grads)@, *old(g));
    let ghost gd = rseq(old(g).nd(grad.id as int).data@);
    let nop = node.op(g);
    let o = match nop {
        Some(o) => o,
        None => {
            proof {
                assert(false);
            }
            return Err(MatrixError::OverflowError);
        },
    };
    match o {
        Operator::Binary(lhs, rhs, BinaryOpType::MatMul) => {
            proof {
                assert(grad_edges(g0.nd(node.id as int))[0] == lhs);
                assert(grad_edges(g0.nd(node.id as int))[1] == rhs);
                assert(g.nodes@[lhs.id as int] == g0.nodes@[lhs.id as int]);
                assert(g.nodes@[rhs.id as int] == g0.nodes@[rhs.id as int]);
                assert(g0.wf_at(lhs.id as int));
                assert(g0.wf_at(rhs.id as int));
            }
            let ghost dm = g0.nd(lhs.id as int).shape.0 as int;
            let ghost dk = g0.nd(lhs.id as int).shape.1 as int;
            let ghost dn = g0.nd(rhs.id as int).shape.1 as int;
            let rhs_t = rhs.t(g);
            proof {
                lemma_rseq_transpose(g0.nd(rhs.id as int).data@, dk, dn);
                assert(dseq(*g, rhs_t.id as int) =~= seq_tr(dseq(g0, rhs.id as int), dk, dn));
            }
            let ghost gb = *g;
            let lhs_grad = match grad.matmul(&rhs_t, g) {
                Ok(x) => x,
                Err(e) => {
                    proof {
                        lemma_grads_wf_frame(old(grads)@, *old(g), *g, g0);
                        assert(!(e is ShapeMismatchError));
                        assert(gb.nodes@[grad.id as int] == old(g).nodes@[grad.id as int]);
                        assert(rseq(gb.nd(grad.id as int).data@) == gd);
                        assert(rseq(gb.nd(rhs_t.id as int).data@) == seq_tr(
                            dseq(g0, rhs.id as int),
                            dk,
                            dn,
                        ));
                        if rmm_ok(gd, seq_tr(dseq(g0, rhs.id as int), dk, dn), dm, dn, dk) {
                            lemma_rmm_to_mm(
                                gb.nd(grad.id as int).data@,
                                gb.nd(rhs_t.id as int).data@,
                                dm,
                                dn,
                                dk,
                            );
                            assert(false);
                        }
                        assert(!rule_ok(g0, node.id as int, gd));
                        assert(apply_rules(g0, node, gd, st0) is None);
                    }
                    return Err(e);
                },
            };
            proof {
                assert(gb.nodes@[grad.id as int] == old(g).nodes@[grad.id as int]);
                assert(rseq(gb.nd(grad.id as int).data@) == gd);
                assert(rseq(gb.nd(rhs_t.id as int).data@) == seq_tr(
                    dseq(g0, rhs.id as int),
                    dk,
                    dn,
                ));
                lemma_mm_contrib(
                    gb.nd(grad.id as int).data@,
                    gb.nd(rhs_t.id as int).data@,
                    g.nd(lhs_grad.id as int).data@,
                    dm,
                    dn,
                    dk,
                );
                assert(dseq(*g, lhs_grad.id as int) =~= rule_value(g0, node.id as int, gd, 0));
            }
            let ghost sa1 = dmap(grads@, *g);
            proof {
                lemma_dmap_frame(old(grads)@, *old(g), *g);
                assert(sa1 == st0);
            }
            match accumulate(grads, lhs, lhs_grad, g, Ghost(g0)) {
                Ok(_) => {},
                Err(e) => {
                    proof {
                        assert(apply_rules(g0, node, gd, st0) is None);
                    }
                    return Err(e);
                },
            }
            let ghost s1m = dmap(grads@, *g);
            let ghost ga1 = *g;
            proof {
                assert(acc_one(
                    st0,
                    lhs.id,
                    dlen(g0, lhs.id as int),
                    rule_value(g0, node.id as int, gd, 0),
                ) == Some(s1m));
            }
            let lhs_t = lhs.t(g);
            proof {
                assert(ga1.nodes@[lhs.id as int] == g0.nodes@[lhs.id as int]);
                lemma_rseq_transpose(g0.nd(lhs.id as int).data@, dm, dk);
                assert(dseq(*g, lhs_t.id as int) =~= seq_tr(dseq(g0, lhs.id as int), dm, dk));
            }
            let ghost gc = *g;
            let rhs_grad = match lhs_t.matmul(&grad, g) {
                Ok(x) => x,
                Err(e) => {
                    proof {
                        lemma_grads_wf_frame(grads@, ga1, *g, g0);
                        assert(!(e is ShapeMismatchError));
                        assert(gc.nodes@[grad.id as int] == old(g).nodes@[grad.id as int]);
                        assert(rseq(gc.nd(grad.id as int).data@) == gd);
                        assert(rseq(gc.nd(lhs_t.id as int).data@) == seq_tr(
                            dseq(g0, lhs.id as int),
                            dm,
                            dk,
                        ));
                        if rmm_ok(seq_tr(dseq(g0, lhs.id as int), dm, dk), gd, dk, dm, dn) {
                            lemma_rmm_to_mm(
                                gc.nd(lhs_t.id as int).data@,
                                gc.nd(grad.id as int).data@,
                                dk,
                                dm,
                                dn,
                            );
                            assert(false);
                        }
                        assert(!rule_ok(g0, node.id as int, gd));
                        assert(apply_rules(g0, node, gd, st0) is None);
                    }
                    return Err(e);
                },
            };
            proof {
                assert(gc.nodes@[grad.id as int] == old(g).nodes@[grad.id as int]);
                assert(rseq(gc.nd(grad.id as int).data@) == gd);
                assert(rseq(gc.nd(lhs_t.id as int).data@) == seq_tr(
                    dseq(g0, lhs.id as int),
                    dm,
                    dk,
                ));
                lemma_mm_contrib(
                    gc.nd(lhs_t.id as int).data@,
                    gc.nd(grad.id as int).data@,
                    g.nd(rhs_grad.id as int).data@,
                    dk,
                    dm,
                    dn,
                );
                assert(dseq(*g, rhs_grad.id as int) =~= rule_value(g0, node.id as int, gd, 1));
                assert(rule_ok(g0, node.id as int, gd));
            }
            let ghost sa2 = dmap(grads@, *g);
            proof {
                lemma_dmap_frame(grads@, ga1, *g);
                assert(sa2 == s1m);
            }
            match accumulate(grads, rhs, rhs_grad, g, Ghost(g0)) {
                Ok(_) => {},
                Err(e) => {
                    proof {
                        assert(acc_one(
                            s1m,
                            rhs.id,
                            dlen(g0, rhs.id as int),
                            rule_value(g0, node.id as int, gd, 1),
                        ) is None);
                        assert(apply_rules(g0, node, gd, st0) is None);
                    }
                    return Err(e);
                },
            }
            proof {
                assert(acc_one(
                    s1m,
                    rhs.id,
                    dlen(g0, rhs.id as int),
                    rule_value(g0, node.id as int, gd, 1),
                ) == Some(dmap(grads@, *g)));
                assert(apply_rules(g0, node, gd, st0) == Some(
                    dmap(grads@, *g).insert(node.id, gd),
                ));
            }
        },
        Operator::Binary(lhs, rhs, BinaryOpType::Add) => {
            proof {
                assert(grad_edges(g0.nd(node.id as int))[0] == lhs);
                assert(grad_edges(g0.nd(node.id as int))[1] == rhs);
                assert(rule_ok(g0, node.id as int, gd));
                assert(rseq(g.nd(grad.id as int).data@) == gd);
            }
            match accumulate(grads, lhs, grad, g, Ghost(g0)) {
                Ok(_) => {},
                Err(e) => {
                    proof {
                        assert(apply_rules(g0, node, gd, st0) is None);
                    }
                    return Err(e);
                },
            }
            let ghost s1m = dmap(grads@, *g);
            let ghost ga1 = *g;
            proof {
                assert(acc_one(
                    st0,
                    lhs.id,
                    dlen(g0, lhs.id as int),
                    rule_value(g0, node.id as int, gd, 0),
                ) == Some(s1m));
                assert(ga1.nodes@[grad.id as int] == old(g).nodes@[grad.id as int]);
                assert(rseq(ga1.nd(grad.id as int).data@) == gd);
            }
            match accumulate(grads, rhs, grad, g, Ghost(g0)) {
                Ok(_) => {},
                Err(e) => {
                    proof {
                        assert(acc_one(
                            s1m,
                            rhs.id,
                            dlen(g0, rhs.id as int),
                            rule_value(g0, node.id as int, gd, 1),
                        ) is None);
                        assert(apply_rules(g0, node, gd, st0) is None);
                    }
                    return Err(e);
                },
            }
            proof {
                assert(acc_one(
                    s1m,
                    rhs.id,
                    dlen(g0, rhs.id as int),
                    rule_value(g0, node.id as int, gd, 1),
                ) == Some(dmap(grads@, *g)));
                assert(apply_rules(g0, node, gd, st0) == Some(
                    dmap(grads@, *g).insert(node.id, gd),
                ));
            }
        },
        Operator::Binary(lhs, rhs, BinaryOpType::Sub) => {
            proof {
                assert(grad_edges(g0.nd(node.id as int))[0] == lhs);
                assert(grad_edges(g0.nd(node.id as int))[1] == rhs);
                assert(rseq(g.nd(grad.id as int).data@) == gd);
            }
            match accumulate(grads, lhs, grad, g, Ghost(g0)) {
                Ok(_) => {},
                Err(e) => {
                    proof {
                        assert(apply_rules(g0, node, gd, st0) is None);
                    }
                    return Err(e);
                },
            }
            let ghost s1m = dmap(grads@, *g);
            let ghost ga1 = *g;
            proof {
                assert(acc_one(
                    st0,
                    lhs.id,
                    dlen(g0, lhs.id as int),
                    rule_value(g0, node.id as int, gd, 0),
                ) == Some(s1m));
                assert(ga1.nodes@[grad.id as int] == old(g).nodes@[grad.id as int]);
            }
            let neg_one = Scalar::from_int(-1);
            let rhs_grad = match grad.mul_scalar(neg_one, g) {
                Ok(x) => x,
                Err(e) => {
                    proof {
                        lemma_grads_wf_frame(grads@, ga1, *g, g0);
                        let k0 = choose|k: int|
                            0 <= k < ga1.nd(grad.id as int).data@.len()
                                && !crate::scalar::rat_fits(
                                #[trigger] crate::scalar::rat_mul(
                                    ga1.nd(grad.id as int).data@[k]@,
                                    neg_one@,
                                ),
                            );
                        assert(!crate::scalar::rat_fits(
                            seq_scale(gd, Rat { n: -1, d: 1 })[k0],
                        ));
                        assert(!rule_ok(g0, node.id as int, gd));
                        assert(apply_rules(g0, node, gd, st0) is None);
                    }
                    return Err(e);
                },
            };
            proof {
                lemma_scale_contrib(ga1, *g, grad, neg_one, rhs_grad);
                assert(dseq(*g, rhs_grad.id as int) =~= rule_value(g0, node.id as int, gd, 1));
                assert(rule_ok(g0, node.id as int, gd));
            }
            let ghost sa2 = dmap(grads@, *g);
            proof {
                lemma_dmap_frame(grads@, ga1, *g);
                assert(sa2 == s1m);
            }
            match accumulate(grads, rhs, rhs_grad, g, Ghost(g0)) {
                Ok(_) => {},
                Err(e) => {
                    proof {
                        assert(acc_one(
                            s1m,
                            rhs.id,
                            dlen(g0, rhs.id as int),
                            rule_value(g0, node.id as int, gd, 1),
                        ) is None);
                        assert(apply_rules(g0, node, gd, st0) is None);
                    }
                    return Err(e);
                },
            }
            proof {
                assert(acc_one(
                    s1m,
                    rhs.id,
                    dlen(g0, rhs.id as int),
                    rule_value(g0, node.id as int, gd, 1),
                ) == Some(dmap(grads@, *g)));
                assert(apply_rules(g0, node, gd, st0) == Some(
                    dmap(grads@, *g).insert(node.id, gd),
                ));
            }
        },
        Operator::Binary(lhs, rhs, BinaryOpType::Mul) => {
            proof {
                assert(grad_edges(g0.nd(node.id as int))[0] == lhs);
                assert(grad_edges(g0.nd(node.id as int))[1] == rhs);
                assert(g.nodes@[lhs.id as int] == g0.nodes@[lhs.id as int]);
                assert(g.nodes@[rhs.id as int] == g0.nodes@[rhs.id as int]);
                crate::matrix::lemma_shape_self(g0.nd(node.id as int).shape);
            }
            let ghost ga0 = *g;
            let lhs_grad = match grad.mul(&rhs, g) {
                Ok(x) => x,
                Err(e) => {
                    proof {
                        lemma_grads_wf_frame(old(grads)@, *old(g), *g, g0);
                        assert(!(e is ShapeMismatchError) && !(e is DivisionByZeroError));
                        let sh = ga0.nd(grad.id as int).shape;
                        let la = crate::matrix::expanded_view(
                            ga0,
                            grad,
                            crate::matrix::spec_broadcast_shape(sh, sh),
                        );
                        let rb = crate::matrix::expanded_view(
                            ga0,
                            rhs,
                            crate::matrix::spec_broadcast_shape(sh, sh),
                        );
                        assert(la == ga0.nd(grad.id as int).data@);
                        assert(rb == ga0.nd(rhs.id as int).data@);
                        let k0 = choose|k: int|
                            0 <= k < la.len() && !crate::scalar::rat_fits(
                                #[trigger] crate::matrix::rat_bop(
                                    BinaryOpType::Mul,
                                    la[k]@,
                                    rb[k]@,
                                ),
                            );
                        assert(g0.wf_at(rhs.id as int));
                        assert(gd.len() == la.len());
                        assert(gd[k0] == la[k0]@);
                        assert(dseq(g0, rhs.id as int)[k0] == rb[k0]@);
                        assert(!crate::scalar::rat_fits(
                            seq_mul(gd, dseq(g0, rhs.id as int))[k0],
                        ));
                        assert(!rule_ok(g0, node.id as int, gd));
                        assert(apply_rules(g0, node, gd, st0) is None);
                    }
                    return Err(e);
                },
            };
            proof {
                lemma_mul_contrib(ga0, *g, grad, rhs, lhs_grad, "mul"@);
                assert(dseq(ga0, rhs.id as int) == dseq(g0, rhs.id as int));
                assert(dseq(ga0, grad.id as int) == gd);
                assert(dseq(*g, lhs_grad.id as int) =~= rule_value(g0, node.id as int, gd, 0));
            }
            let ghost sa1 = dmap(grads@, *g);
            proof {
                lemma_dmap_frame(old(grads)@, *old(g), *g);
                assert(sa1 == st0);
            }
            match accumulate(grads, lhs, lhs_grad, g, Ghost(g0)) {
                Ok(_) => {},
                Err(e) => {
                    proof {
                        assert(apply_rules(g0, node, gd, st0) is None);
                    }
                    return Err(e);
                },
            }
            let ghost s1m = dmap(grads@, *g);
            let ghost ga1 = *g;
            proof {
                assert(acc_one(
                    st0,
                    lhs.id,
                    dlen(g0, lhs.id as int),
                    rule_value(g0, node.id as int, gd, 0),
                ) == Some(s1m));
                assert(ga1.nodes@[grad.id as int] == old(g).nodes@[grad.id as int]);
                assert(ga1.nodes@[lhs.id as int] == g0.nodes@[lhs.id as int]);
                crate::matrix::lemma_shape_self(g0.nd(node.id as int).shape);
            }
            let rhs_grad = match grad.mul(&lhs, g) {
                Ok(x) => x,
                Err(e) => {
                    proof {
                        lemma_grads_wf_frame(grads@, ga1, *g, g0);
                        assert(!(e is ShapeMismatchError) && !(e is DivisionByZeroError));
                        let sh = ga1.nd(grad.id as int).shape;
                        let la = crate::matrix::expanded_view(
                            ga1,
                            grad,
                            crate::matrix::spec_broadcast_shape(sh, sh),
                        );
                        let rb = crate::matrix::expanded_view(
                            ga1,
                            lhs,
                            crate::matrix::spec_broadcast_shape(sh, sh),
                        );
                        assert(la == ga1.nd(grad.id as int).data@);
                        assert(rb == ga1.nd(lhs.id as int).data@);
                        let k0 = choose|k: int|
                            0 <= k < la.len() && !crate::scalar::rat_fits(
                                #[trigger] crate::matrix::rat_bop(
                                    BinaryOpType::Mul,
                                    la[k]@,
                                    rb[k]@,
                                ),
                            );
                        assert(g0.wf_at(lhs.id as int));
                        assert(gd.len() == la.len());
                        assert(gd[k0] == la[k0]@);
                        assert(dseq(g0, lhs.id as int)[k0] == rb[k0]@);
                        assert(!crate::scalar::rat_fits(
                            seq_mul(gd, dseq(g0, lhs.id as int))[k0],
                        ));
                        assert(!rule_ok(g0, node.id as int, gd));
                        assert(apply_rules(g0, node, gd, st0) is None);
                    }
                    return Err(e);
                },
            };
            proof {
                lemma_mul_contrib(ga1, *g, grad, lhs, rhs_grad, "mul"@);
                assert(dseq(ga1, lhs.id as int) == dseq(g0, lhs.id as int));
                assert(dseq(ga1, grad.id as int) == gd);
                assert(dseq(*g, rhs_grad.id as int) =~= rule_value(g0, node.id as int, gd, 1));
                assert(rule_ok(g0, node.id as int, gd));
            }
            let ghost sa2 = dmap(grads@, *g);
            proof {
                lemma_dmap_frame(grads@, ga1, *g);
                assert(sa2 == s1m);
            }
            match accumulate(grads, rhs, rhs_grad, g, Ghost(g0)) {
                Ok(_) => {},
                Err(e) => {
                    proof {
                        assert(acc_one(
                            s1m,
                            rhs.id,
                            dlen(g0, rhs.id as int),
                            rule_value(g0, node.id as int, gd, 1),
                        ) is None);
                        assert(apply_rules(g0, node, gd, st0) is None);
                    }
                    return Err(e);
                },
            }
            proof {
                assert(acc_one(
                    s1m,
                    rhs.id,
                    dlen(g0, rhs.id as int),
                    rule_value(g0, node.id as int, gd, 1),
                ) == Some(dmap(grads@, *g)));
                assert(apply_rules(g0, node, gd, st0) == Some(
                    dmap(grads@, *g).insert(node.id, gd),
                ));
            }
        },
        Operator::Binary(lhs, rhs, BinaryOpType::Div) => {
            proof {
                assert(grad_edges(g0.nd(node.id as int))[0] == lhs);
                assert(grad_edges(g0.nd(node.id as int))[1] == rhs);
                assert(g.nodes@[lhs.id as int] == g0.nodes@[lhs.id as int]);
                assert(g.nodes@[rhs.id as int] == g0.nodes@[rhs.id as int]);
                assert(crate::matrix::data_nonzero(g0.nd(rhs.id as int).data@));
                crate::matrix::lemma_shape_self(g0.nd(node.id as int).shape);
                assert(g.wf_at(rhs.id as int));
            }
            let total = g.nodes[rhs.id].data.len();
            let shape = rhs.shape(g);
            let ones = Matrix::ones(shape, false, g);
            let ghost gm = *g;
            proof {
                crate::matrix::lemma_shape_self(shape);
                assert(gm.nd(rhs.id as int).data@ == g0.nd(rhs.id as int).data@);
            }
            let inv_rhs = match ones.div(&rhs, g) {
                Ok(x) => x,
                Err(e) => {
                    proof {
                        lemma_grads_wf_frame(old(grads)@, *old(g), *g, g0);
                        assert(!(e is ShapeMismatchError));
                        if e is DivisionByZeroError {
                            assert(crate::matrix::expanded_view(gm, rhs, shape) == gm.nd(
                                rhs.id as int,
                            ).data@);
                            assert(false);
                        }
                        let sh = gm.nd(ones.id as int).shape;
                        let la = crate::matrix::expanded_view(
                            gm,
                            ones,
                            crate::matrix::spec_broadcast_shape(sh, sh),
                        );
                        let rb = crate::matrix::expanded_view(
                            gm,
                            rhs,
                            crate::matrix::spec_broadcast_shape(sh, sh),
                        );
                        assert(la == gm.nd(ones.id as int).data@);
                        assert(rb == gm.nd(rhs.id as int).data@);
                        let k0 = choose|k: int|
                            0 <= k < la.len() && !crate::scalar::rat_fits(
                                #[trigger] crate::matrix::rat_bop(
                                    BinaryOpType::Div,
                                    la[k]@,
                                    rb[k]@,
                                ),
                            );
                        assert(la[k0]@ == rat_one());
                        assert(!crate::scalar::rat_fits(
                            seq_recip(dseq(g0, rhs.id as int))[k0],
                        ));
                        assert(!rule_ok(g0, node.id as int, gd));
                        assert(apply_rules(g0, node, gd, st0) is None);
                    }
                    return Err(e);
                },
            };
            let ghost inv = seq_recip(dseq(g0, rhs.id as int));
            proof {
                lemma_recip_contrib(gm, *g, ones, rhs, inv_rhs, "div"@);
                assert(dseq(gm, rhs.id as int) == dseq(g0, rhs.id as int));
                assert(dseq(*g, inv_rhs.id as int) =~= inv);
            }
            let ghost gl0 = *g;
            let lhs_grad = match grad.mul(&inv_rhs, g) {
                Ok(x) => x,
                Err(e) => {
                    proof {
                        lemma_grads_wf_frame(old(grads)@, *old(g), *g, g0);
                        assert(!(e is ShapeMismatchError) && !(e is DivisionByZeroError));
                        let sh = gl0.nd(grad.id as int).shape;
                        let la = crate::matrix::expanded_view(
                            gl0,
                            grad,
                            crate::matrix::spec_broadcast_shape(sh, sh),
                        );
                        let rb = crate::matrix::expanded_view(
                            gl0,
                            inv_rhs,
                            crate::matrix::spec_broadcast_shape(sh, sh),
                        );
                        assert(la == gl0.nd(grad.id as int).data@);
                        assert(rb == gl0.nd(inv_rhs.id as int).data@);
                        let k0 = choose|k: int|
                            0 <= k < la.len() && !crate::scalar::rat_fits(
                                #[trigger] crate::matrix::rat_bop(
                                    BinaryOpType::Mul,
                                    la[k]@,
                                    rb[k]@,
                                ),
                            );
                        assert(gd.len() == la.len());
                        assert(gd[k0] == la[k0]@);
                        assert(dseq(gl0, inv_rhs.id as int) == inv);
                        assert(inv[k0] == rb[k0]@);
                        assert(!crate::scalar::rat_fits(seq_mul(gd, inv)[k0]));
                        assert(!rule_ok(g0, node.id as int, gd));
                        assert(apply_rules(g0, node, gd, st0) is None);
                    }
                    return Err(e);
                },
            };
            proof {
                lemma_mul_contrib(gl0, *g, grad, inv_rhs, lhs_grad, "mul"@);
                assert(dseq(gl0, grad.id as int) == gd);
                assert(dseq(gl0, inv_rhs.id as int) == inv);
                assert(dseq(*g, lhs_grad.id as int) =~= rule_value(g0, node.id as int, gd, 0));
            }
            let ghost sa1 = dmap(grads@, *g);
            proof {
                lemma_dmap_frame(old(grads)@, *old(g), *g);
                assert(sa1 == st0);
            }
            match accumulate(grads, lhs, lhs_grad, g, Ghost(g0)) {
                Ok(_) => {},
                Err(e) => {
                    proof {
                        assert(apply_rules(g0, node, gd, st0) is None);
                    }
                    return Err(e);
                },
            }
            let ghost s1m = dmap(grads@, *g);
            let ghost ga1 = *g;
            proof {
                assert(acc_one(
                    st0,
                    lhs.id,
                    dlen(g0, lhs.id as int),
                    rule_value(g0, node.id as int, gd, 0),
                ) == Some(s1m));
                assert(ga1.nodes@[grad.id as int] == old(g).nodes@[grad.id as int]);
                assert(ga1.nodes@[inv_rhs.id as int] == gl0.nodes@[inv_rhs.id as int]);
            }
            let step1 = match grad.mul(&inv_rhs, g) {
                Ok(x) => x,
                Err(e) => {
                    proof {
                        lemma_grads_wf_frame(grads@, ga1, *g, g0);
                        assert(!(e is ShapeMismatchError) && !(e is DivisionByZeroError));
                        let sh = ga1.nd(grad.id as int).shape;
                        let la = crate::matrix::expanded_view(
                            ga1,
                            grad,
                            crate::matrix::spec_broadcast_shape(sh, sh),
                        );
                        let rb = crate::matrix::expanded_view(
                            ga1,
                            inv_rhs,
                            crate::matrix::spec_broadcast_shape(sh, sh),
                        );
                        assert(la == ga1.nd(grad.id as int).data@);
                        assert(rb == ga1.nd(inv_rhs.id as int).data@);
                        let k0 = choose|k: int|
                            0 <= k < la.len() && !crate::scalar::rat_fits(
                                #[trigger] crate::matrix::rat_bop(
                                    BinaryOpType::Mul,
                                    la[k]@,
                                    rb[k]@,
                                ),
                            );
                        assert(gd.len() == la.len());
                        assert(gd[k0] == la[k0]@);
                        assert(dseq(ga1, inv_rhs.id as int) == inv);
                        assert(inv[k0] == rb[k0]@);
                        assert(!crate::scalar::rat_fits(seq_mul(gd, inv)[k0]));
                        assert(!rule_ok(g0, node.id as int, gd));
                        assert(apply_rules(g0, node, gd, st0) is None);
                    }
                    return Err(e);
                },
            };
            let ghost gs1 = *g;
            proof {
                lemma_mul_contrib(ga1, *g, grad, inv_rhs, step1, "mul"@);
                assert(dseq(ga1, grad.id as int) == gd);
                assert(dseq(ga1, inv_rhs.id as int) == inv);
                assert(dseq(*g, step1.id as int) =~= seq_mul(gd, inv));
            }
            let step2 = match step1.mul(&inv_rhs, g) {
                Ok(x) => x,
                Err(e) => {
                    proof {
                        lemma_grads_wf_frame(grads@, ga1, *g, g0);
                        assert(!(e is ShapeMismatchError) && !(e is DivisionByZeroError));
                        let sh = gs1.nd(step1.id as int).shape;
                        let la = crate::matrix::expanded_view(
                            gs1,
                            step1,
                            crate::matrix::spec_broadcast_shape(sh, sh),
                        );
                        let rb = crate::matrix::expanded_view(
                            gs1,
                            inv_rhs,
                            crate::matrix::spec_broadcast_shape(sh, sh),
                        );
                        assert(la == gs1.nd(step1.id as int).data@);
                        assert(rb == gs1.nd(inv_rhs.id as int).data@);
                        let k0 = choose|k: int|
                            0 <= k < la.len() && !crate::scalar::rat_fits(
                                #[trigger] crate::matrix::rat_bop(
                                    BinaryOpType::Mul,
                                    la[k]@,
                                    rb[k]@,
                                ),
                            );
                        assert(gs1.nodes@[inv_rhs.id as int] == gl0.nodes@[inv_rhs.id as int]);
                        assert(dseq(gs1, step1.id as int) == seq_mul(gd, inv));
                        assert(dseq(gs1, inv_rhs.id as int) == inv);
                        assert(seq_mul(gd, inv).len() == la.len());
                        assert(seq_mul(gd, inv)[k0] == la[k0]@);
                        assert(inv[k0] == rb[k0]@);
                        assert(!crate::scalar::rat_fits(seq_mul(seq_mul(gd, inv), inv)[k0]));
                        assert(!rule_ok(g0, node.id as int, gd));
                        assert(apply_rules(g0, node, gd, st0) is None);
                    }
                    return Err(e);
                },
            };
            let ghost gs2 = *g;
            proof {
                lemma_mul_contrib(gs1, *g, step1, inv_rhs, step2, "mul"@);
                assert(dseq(gs1, step1.id as int) == seq_mul(gd, inv));
                assert(dseq(gs1, inv_rhs.id as int) == inv);
                assert(dseq(*g, step2.id as int) =~= seq_mul(seq_mul(gd, inv), inv));
            }
            let step3 = match step2.mul(&lhs, g) {
                Ok(x) => x,
                Err(e) => {
                    proof {
                        lemma_grads_wf_frame(grads@, ga1, *g, g0);
                        assert(!(e is ShapeMismatchError) && !(e is DivisionByZeroError));
                        let sh = gs2.nd(step2.id as int).shape;
                        let la = crate::matrix::expanded_view(
                            gs2,
                            step2,
                            crate::matrix::spec_broadcast_shape(sh, sh),
                        );
                        let rb = crate::matrix::expanded_view(
                            gs2,
                            lhs,
                            crate::matrix::spec_broadcast_shape(sh, sh),
                        );
                        assert(la == gs2.nd(step2.id as int).data@);
                        assert(rb == gs2.nd(lhs.id as int).data@);
                        let k0 = choose|k: int|
                            0 <= k < la.len() && !crate::scalar::rat_fits(
                                #[trigger] crate::matrix::rat_bop(
                                    BinaryOpType::Mul,
                                    la[k]@,
                                    rb[k]@,
                                ),
                            );
                        assert(g0.wf_at(lhs.id as int));
                        assert(gs2.nodes@[lhs.id as int] == g0.nodes@[lhs.id as int]);
                        assert(dseq(gs2, step2.id as int) == seq_mul(seq_mul(gd, inv), inv));
                        assert(seq_mul(seq_mul(gd, inv), inv).len() == la.len());
                        assert(seq_mul(seq_mul(gd, inv), inv)[k0] == la[k0]@);
                        assert(dseq(g0, lhs.id as int)[k0] == rb[k0]@);
                        assert(!crate::scalar::rat_fits(
                            seq_mul(seq_mul(seq_mul(gd, inv), inv), dseq(g0, lhs.id as int))[k0],
                        ));
                        assert(!rule_ok(g0, node.id as int, gd));
                        assert(apply_rules(g0, node, gd, st0) is None);
                    }
                    return Err(e);
                },
            };
            let ghost gs3 = *g;
            proof {
                lemma_mul_contrib(gs2, *g, step2, lhs, step3, "mul"@);
                assert(dseq(gs2, step2.id as int) == seq_mul(seq_mul(gd, inv), inv));
                assert(dseq(gs2, lhs.id as int) == dseq(g0, lhs.id as int));
                assert(dseq(*g, step3.id as int) =~= seq_mul(
                    seq_mul(seq_mul(gd, inv), inv),
                    dseq(g0, lhs.id as int),
                ));
            }
            let neg_one = Scalar::from_int(-1);
            let rhs_grad = match step3.mul_scalar(neg_one, g) {
                Ok(x) => x,
                Err(e) => {
                    proof {
                        lemma_grads_wf_frame(grads@, ga1, *g, g0);
                        let k0 = choose|k: int|
                            0 <= k < gs3.nd(step3.id as int).data@.len()
                                && !crate::scalar::rat_fits(
                                #[trigger] crate::scalar::rat_mul(
                                    gs3.nd(step3.id as int).data@[k]@,
                                    neg_one@,
                                ),
                            );
                        assert(!crate::scalar::rat_fits(
                            seq_scale(
                                seq_mul(
                                    seq_mul(seq_mul(gd, inv), inv),
                                    dseq(g0, lhs.id as int),
                                ),
                                Rat { n: -1, d: 1 },
                            )[k0],
                        ));
                        assert(!rule_ok(g0, node.id as int, gd));
                        assert(apply_rules(g0, node, gd, st0) is None);
                    }
                    return Err(e);
                },
            };
            proof {
                lemma_scale_contrib(gs3, *g, step3, neg_one, rhs_grad);
                assert(dseq(gs3, step3.id as int) == seq_mul(
                    seq_mul(seq_mul(gd, inv), inv),
                    dseq(g0, lhs.id as int),
                ));
                assert(dseq(*g, rhs_grad.id as int) =~= rule_value(g0, node.id as int, gd, 1));
                assert(rule_ok(g0, node.id as int, gd));
            }
            let ghost sa2 = dmap(grads@, *g);
            proof {
                lemma_dmap_frame(grads@, ga1, *g);
                assert(sa2 == s1m);
            }
            match accumulate(grads, rhs, rhs_grad, g, Ghost(g0)) {
                Ok(_) => {},
                Err(e) => {
                    proof {
                        assert(acc_one(
                            s1m,
                            rhs.id,
                            dlen(g0, rhs.id as int),
                            rule_value(g0, node.id as int, gd, 1),
                        ) is None);
                        assert(apply_rules(g0, node, gd, st0) is None);
                    }
                    return Err(e);
                },
            }
            proof {
                assert(acc_one(
                    s1m,
                    rhs.id,
                    dlen(g0, rhs.id as int),
                    rule_value(g0, node.id as int, gd, 1),
                ) == Some(dmap(grads@, *g)));
                assert(apply_rules(g0, node, gd, st0) == Some(
                    dmap(grads@, *g).insert(node.id, gd),
                ));
            }
        },
        Operator::Unary(mat, UnaryOpType::Transpose) => {
            proof {
                assert(grad_edges(g0.nd(node.id as int))[0] == mat);
                assert(rule_ok(g0, node.id as int, gd));
            }
            let ghost ga0 = *g;
            let mat_grad = grad.t(g);
            proof {
                assert(ga0.nodes@[grad.id as int] == old(g).nodes@[grad.id as int]);
                lemma_rseq_transpose(
                    old(g).nd(grad.id as int).data@,
                    g0.nd(node.id as int).shape.0 as int,
                    g0.nd(node.id as int).shape.1 as int,
                );
                assert(dseq(*g, mat_grad.id as int) =~= rule_value(g0, node.id as int, gd, 0));
            }
            let ghost sa1 = dmap(grads@, *g);
            proof {
                lemma_dmap_frame(old(grads)@, *old(g), *g);
                assert(sa1 == st0);
            }
            match accumulate(grads, mat, mat_grad, g, Ghost(g0)) {
                Ok(_) => {},
                Err(e) => {
                    proof {
                        assert(apply_rules(g0, node, gd, st0) is None);
                    }
                    return Err(e);
                },
            }
            proof {
                assert(acc_one(
                    st0,
                    mat.id,
                    dlen(g0, mat.id as int),
                    rule_value(g0, node.id as int, gd, 0),
                ) == Some(dmap(grads@, *g)));
                assert(apply_rules(g0, node, gd, st0) == Some(
                    dmap(grads@, *g).insert(node.id, gd),
                ));
            }
        },
        Operator::Unary(mat, UnaryOpType::Sigmoid) => {
            proof {
                assert(grad_edges(g0.nd(node.id as int))[0] == mat);
                assert(g.nodes@[node.id as int] == g0.nodes@[node.id as int]);
                crate::matrix::lemma_shape_self(g0.nd(node.id as int).shape);
                assert(g.wf_at(node.id as int));
            }
            let ghost y = dseq(g0, node.id as int);
            let ghost ylen = dlen(g0, node.id as int);
            let total = g.nodes[node.id].data.len();
            let shape = node.shape(g);
            let ones = Matrix::ones(shape, false, g);
            let ghost gm = *g;
            proof {
                crate::matrix::lemma_shape_self(shape);
                assert(gm.nd(node.id as int).data@ == g0.nd(node.id as int).data@);
            }
            let one_minus = match ones.sub(&node, g) {
                Ok(x) => x,
                Err(e) => {
                    proof {
                        lemma_grads_wf_frame(old(grads)@, *old(g), *g, g0);
                        assert(!(e is ShapeMismatchError) && !(e is DivisionByZeroError));
                        let sh = gm.nd(ones.id as int).shape;
                        let la = crate::matrix::expanded_view(
                            gm,
                            ones,
                            crate::matrix::spec_broadcast_shape(sh, sh),
                        );
                        let rb = crate::matrix::expanded_view(
                            gm,
                            node,
                            crate::matrix::spec_broadcast_shape(sh, sh),
                        );
                        assert(la == gm.nd(ones.id as int).data@);
                        assert(rb == gm.nd(node.id as int).data@);
                        let k0 = choose|k: int|
                            0 <= k < la.len() && !crate::scalar::rat_fits(
                                #[trigger] crate::matrix::rat_bop(
                                    BinaryOpType::Sub,
                                    la[k]@,
                                    rb[k]@,
                                ),
                            );
                        assert(la[k0]@ == rat_one());
                        assert(y.len() == la.len());
                        assert(y[k0] == rb[k0]@);
                        assert(!crate::scalar::rat_fits(
                            seq_sub(seq_const(ylen, rat_one()), y)[k0],
                        ));
                        assert(!rule_ok(g0, node.id as int, gd));
                        assert(apply_rules(g0, node, gd, st0) is None);
                    }
                    return Err(e);
                },
            };
            let ghost om = seq_sub(seq_const(ylen, rat_one()), y);
            let ghost gm1 = *g;
            proof {
                let sh = gm.nd(ones.id as int).shape;
                let la = crate::matrix::expanded_view(
                    gm,
                    ones,
                    crate::matrix::spec_broadcast_shape(sh, sh),
                );
                let rb = crate::matrix::expanded_view(
                    gm,
                    node,
                    crate::matrix::spec_broadcast_shape(sh, sh),
                );
                assert(la == gm.nd(ones.id as int).data@);
                assert(rb == gm.nd(node.id as int).data@);
                assert(dseq(*g, one_minus.id as int) =~= om) by {
                    assert forall|k: int|
                        0 <= k < om.len() implies dseq(*g, one_minus.id as int)[k] == om[k] by {
                        assert(la[k]@ == rat_one());
                        assert((g.nd(one_minus.id as int).data@[k])@ == crate::matrix::rat_bop(
                            BinaryOpType::Sub,
                            la[k]@,
                            rb[k]@,
                        ));
                    }
                }
                assert(seq_fits(om)) by {
                    assert forall|k: int| 0 <= k < om.len() implies crate::scalar::rat_fits(
                        #[trigger] om[k],
                    ) by {
                        assert(la[k]@ == rat_one());
                        assert(crate::scalar::rat_fits(
                            crate::matrix::rat_bop(BinaryOpType::Sub, la[k]@, rb[k]@),
                        ));
                    }
                }
            }
            let sigmoid_der = match node.mul(&one_minus, g) {
                Ok(x) => x,
                Err(e) => {
                    proof {
                        lemma_grads_wf_frame(old(grads)@, *old(g), *g, g0);
                        assert(!(e is ShapeMismatchError) && !(e is DivisionByZeroError));
                        let sh = gm1.nd(node.id as int).shape;
                        let la = crate::matrix::expanded_view(
                            gm1,
                            node,
                            crate::matrix::spec_broadcast_shape(sh, sh),
                        );
                        let rb = crate::matrix::expanded_view(
                            gm1,
                            one_minus,
                            crate::matrix::spec_broadcast_shape(sh, sh),
                        );
                        assert(la == gm1.nd(node.id as int).data@);
                        assert(rb == gm1.nd(one_minus.id as int).data@);
                        let k0 = choose|k: int|
                            0 <= k < la.len() && !crate::scalar::rat_fits(
                                #[trigger] crate::matrix::rat_bop(
                                    BinaryOpType::Mul,
                                    la[k]@,
                                    rb[k]@,
                                ),
                            );
                        assert(y.len() == la.len());
                        assert(y[k0] == la[k0]@);
                        assert(dseq(gm1, one_minus.id as int) == om);
                        assert(om[k0] == rb[k0]@);
                        assert(!crate::scalar::rat_fits(seq_mul(y, om)[k0]));
                        assert(!rule_ok(g0, node.id as int, gd));
                        assert(apply_rules(g0, node, gd, st0) is None);
                    }
                    return Err(e);
                },
            };
            let ghost gm2 = *g;
            proof {
                lemma_mul_contrib(gm1, *g, node, one_minus, sigmoid_der, "mul"@);
                assert(dseq(gm1, node.id as int) == y);
                assert(dseq(gm1, one_minus.id as int) == om);
                assert(dseq(*g, sigmoid_der.id as int) =~= seq_mul(y, om));
            }
            let mat_grad = match grad.mul(&sigmoid_der, g) {
                Ok(x) => x,
                Err(e) => {
                    proof {
                        lemma_grads_wf_frame(old(grads)@, *old(g), *g, g0);
                        assert(!(e is ShapeMismatchError) && !(e is DivisionByZeroError));
                        let sh = gm2.nd(grad.id as int).shape;
                        let la = crate::matrix::expanded_view(
                            gm2,
                            grad,
                            crate::matrix::spec_broadcast_shape(sh, sh),
                        );
                        let rb = crate::matrix::expanded_view(
                            gm2,
                            sigmoid_der,
                            crate::matrix::spec_broadcast_shape(sh, sh),
                        );
                        assert(la == gm2.nd(grad.id as int).data@);
                        assert(rb == gm2.nd(sigmoid_der.id as int).data@);
                        let k0 = choose|k: int|
                            0 <= k < la.len() && !crate::scalar::rat_fits(
                                #[trigger] crate::matrix::rat_bop(
                                    BinaryOpType::Mul,
                                    la[k]@,
                                    rb[k]@,
                                ),
                            );
                        assert(gd.len() == la.len());
                        assert(gd[k0] == la[k0]@);
                        assert(dseq(gm2, sigmoid_der.id as int) == seq_mul(y, om));
                        assert(seq_mul(y, om)[k0] == rb[k0]@);
                        assert(!crate::scalar::rat_fits(seq_mul(gd, seq_mul(y, om))[k0]));
                        assert(!rule_ok(g0, node.id as int, gd));
                        assert(apply_rules(g0, node, gd, st0) is None);
                    }
                    return Err(e);
                },
            };
            proof {
                lemma_mul_contrib(gm2, *g, grad, sigmoid_der, mat_grad, "mul"@);
                assert(dseq(gm2, grad.id as int) == gd);
                assert(dseq(gm2, sigmoid_der.id as int) == seq_mul(y, om));
                assert(dseq(*g, mat_grad.id as int) =~= rule_value(g0, node.id as int, gd, 0));
                assert(rule_ok(g0, node.id as int, gd));
            }
            let ghost sa1 = dmap(grads@, *g);
            proof {
                lemma_dmap_frame(old(grads)@, *old(g), *g);
                assert(sa1 == st0);
            }
            match accumulate(grads, mat, mat_grad, g, Ghost(g0)) {
                Ok(_) => {},
                Err(e) => {
                    proof {
                        assert(apply_rules(g0, node, gd, st0) is None);
                    }
                    return Err(e);
                },
            }
            proof {
                assert(acc_one(
                    st0,
                    mat.id,
                    dlen(g0, mat.id as int),
                    rule_value(g0, node.id as int, gd, 0),
                ) == Some(dmap(grads@, *g)));
                assert(apply_rules(g0, node, gd, st0) == Some(
                    dmap(grads@, *g).insert(node.id, gd),
                ));
            }
        },
        Operator::Unary(_, UnaryOpType::Broadcast) | Operator::Unary(_, UnaryOpType::Sum) => {
            // No reduction rule exists for these: the gradient flowing into a
            // broadcast- or sum-derived node is recorded for the node itself,
            // but nothing is pushed into its operand.
            proof {
                assert(grad_edges(g0.nd(node.id as int)).len() == 0);
                assert(rule_ok(g0, node.id as int, gd));
                assert(apply_rules(g0, node, gd, st0) == Some(
                    dmap(grads@, *g).insert(node.id, gd),
                ));
            }
        },
        Operator::BinaryScalar(mat, scalar, BinaryScalarOpType::MulScalar) => {
            proof {
                assert(grad_edges(g0.nd(node.id as int))[0] == mat);
            }
            let ghost ga0 = *g;
            let mat_grad = match grad.mul_scalar(scalar, g) {
                Ok(x) => x,
                Err(e) => {
                    proof {
                        lemma_grads_wf_frame(old(grads)@, *old(g), *g, g0);
                        let k0 = choose|k: int|
                            0 <= k < ga0.nd(grad.id as int).data@.len()
                                && !crate::scalar::rat_fits(
                                #[trigger] crate::scalar::rat_mul(
                                    ga0.nd(grad.id as int).data@[k]@,
                                    scalar@,
                                ),
                            );
                        assert(!crate::scalar::rat_fits(seq_scale(gd, scalar@)[k0]));
                        assert(!rule_ok(g0, node.id as int, gd));
                        assert(apply_rules(g0, node, gd, st0) is None);
                    }
                    return Err(e);
                },
            };
            proof {
                lemma_scale_contrib(ga0, *g, grad, scalar, mat_grad);
                assert(dseq(*g, mat_grad.id as int) =~= rule_value(g0, node.id as int, gd, 0));
                assert(rule_ok(g0, node.id as int, gd));
            }
            let ghost sa1 = dmap(grads@, *g);
            proof {
                lemma_dmap_frame(old(grads)@, *old(g), *g);
                assert(sa1 == st0);
            }
            match accumulate(grads, mat, mat_grad, g, Ghost(g0)) {
                Ok(_) => {},
                Err(e) => {
                    proof {
                        assert(apply_rules(g0, node, gd, st0) is None);
                    }
                    return Err(e);
                },
            }
            proof {
                assert(acc_one(
                    st0,
                    mat.id,
                    dlen(g0, mat.id as int),
                    rule_value(g0, node.id as int, gd, 0),
                ) == Some(dmap(grads@, *g)));
                assert(apply_rules(g0, node, gd, st0) == Some(
                    dmap(grads@, *g).insert(node.id, gd),
                ));
            }
        },
        Operator::BinaryScalar(mat, scalar, BinaryScalarOpType::Powf) => {
            proof {
                assert(grad_edges(g0.nd(node.id as int))[0] == mat);
                assert(g.nodes@[mat.id as int] == g0.nodes@[mat.id as int]);
                crate::matrix::lemma_shape_self(g0.nd(node.id as int).shape);
            }
            let p = scalar.num as u32;
            if p == 0 {
                // the derivative of the constant power zero is zero; a zero
                // contribution still creates the operand's entry
                proof {
                    assert(g.wf_at(mat.id as int));
                    assert(scalar@.n == 0);
                    assert(rule_ok(g0, node.id as int, gd));
                }
                // binding the buffer length gives the machine bound on the node's element count
                let total = g.nodes[mat.id].data.len();
                let shape = mat.shape(g);
                let zero_grad = Matrix::zeros(shape, false, g);
                proof {
                    assert(dseq(*g, zero_grad.id as int) =~= rule_value(
                        g0,
                        node.id as int,
                        gd,
                        0,
                    ));
                }
                let ghost sa1 = dmap(grads@, *g);
                proof {
                    lemma_dmap_frame(old(grads)@, *old(g), *g);
                    assert(sa1 == st0);
                }
                match accumulate(grads, mat, zero_grad, g, Ghost(g0)) {
                    Ok(_) => {},
                    Err(e) => {
                        proof {
                            assert(apply_rules(g0, node, gd, st0) is None);
                        }
                        return Err(e);
                    },
                }
                proof {
                    assert(acc_one(
                        st0,
                        mat.id,
                        dlen(g0, mat.id as int),
                        rule_value(g0, node.id as int, gd, 0),
                    ) == Some(dmap(grads@, *g)));
                    assert(apply_rules(g0, node, gd, st0) == Some(
                        dmap(grads@, *g).insert(node.id, gd),
                    ));
                }
            } else {
                proof {
                    assert(scalar@.n >= 1);
                }
                let ghost ga0 = *g;
                let scaled = match grad.mul_scalar(scalar, g) {
                    Ok(x) => x,
                    Err(e) => {
                        proof {
                            lemma_grads_wf_frame(old(grads)@, *old(g), *g, g0);
                            let k0 = choose|k: int|
                                0 <= k < ga0.nd(grad.id as int).data@.len()
                                    && !crate::scalar::rat_fits(
                                    #[trigger] crate::scalar::rat_mul(
                                        ga0.nd(grad.id as int).data@[k]@,
                                        scalar@,
                                    ),
                                );
                            assert(!crate::scalar::rat_fits(seq_scale(gd, scalar@)[k0]));
                            assert(!rule_ok(g0, node.id as int, gd));
                            assert(apply_rules(g0, node, gd, st0) is None);
                        }
                        return Err(e);
                    },
                };
                let ghost gp1 = *g;
                proof {
                    lemma_scale_contrib(ga0, *g, grad, scalar, scaled);
                    assert(dseq(*g, scaled.id as int) =~= seq_scale(gd, scalar@));
                    assert(gp1.nodes@[mat.id as int] == g0.nodes@[mat.id as int]);
                }
                let powed = match mat.powf(p - 1, g) {
                    Ok(x) => x,
                    Err(e) => {
                        proof {
                            lemma_grads_wf_frame(old(grads)@, *old(g), *g, g0);
                            assert(!crate::matrix::pow_all_ok(
                                g0.nd(mat.id as int).data@,
                                (scalar@.n - 1) as nat,
                            ));
                            assert(!rule_ok(g0, node.id as int, gd));
                            assert(apply_rules(g0, node, gd, st0) is None);
                        }
                        return Err(e);
                    },
                };
                let ghost gp2 = *g;
                proof {
                    assert(g.wf_at(powed.id as int));
                    assert(dseq(*g, powed.id as int) =~= seq_pow(
                        dseq(g0, mat.id as int),
                        (scalar@.n - 1) as nat,
                    )) by {
                        assert forall|k: int|
                            0 <= k < dlen(g0, mat.id as int) implies dseq(
                            *g,
                            powed.id as int,
                        )[k] == crate::scalar::rat_pow(
                            dseq(g0, mat.id as int)[k],
                            (scalar@.n - 1) as nat,
                        ) by {
                            assert((g.nd(powed.id as int).data@[k])@ == crate::scalar::rat_pow(
                                gp1.nd(mat.id as int).data@[k]@,
                                (p - 1) as nat,
                            ));
                        }
                    }
                    crate::matrix::lemma_shape_self(g0.nd(node.id as int).shape);
                    assert(gp2.nodes@[scaled.id as int] == gp1.nodes@[scaled.id as int]);
                }
                let mat_grad = match scaled.mul(&powed, g) {
                    Ok(x) => x,
                    Err(e) => {
                        proof {
                            lemma_grads_wf_frame(old(grads)@, *old(g), *g, g0);
                            assert(!(e is ShapeMismatchError) && !(e is DivisionByZeroError));
                            let sh = gp2.nd(scaled.id as int).shape;
                            let la = crate::matrix::expanded_view(
                                gp2,
                                scaled,
                                crate::matrix::spec_broadcast_shape(sh, sh),
                            );
                            let rb = crate::matrix::expanded_view(
                                gp2,
                                powed,
                                crate::matrix::spec_broadcast_shape(sh, sh),
                            );
                            assert(la == gp2.nd(scaled.id as int).data@);
                            assert(rb == gp2.nd(powed.id as int).data@);
                            let k0 = choose|k: int|
                                0 <= k < la.len() && !crate::scalar::rat_fits(
                                    #[trigger] crate::matrix::rat_bop(
                                        BinaryOpType::Mul,
                                        la[k]@,
                                        rb[k]@,
                                    ),
                                );
                            assert(dseq(gp2, scaled.id as int) == seq_scale(gd, scalar@));
                            assert(dseq(gp2, powed.id as int) == seq_pow(
                                dseq(g0, mat.id as int),
                                (scalar@.n - 1) as nat,
                            ));
                            assert(seq_scale(gd, scalar@).len() == la.len());
                            assert(seq_scale(gd, scalar@)[k0] == la[k0]@);
                            assert(seq_pow(dseq(g0, mat.id as int), (scalar@.n - 1) as nat)[k0]
                                == rb[k0]@);
                            assert(!crate::scalar::rat_fits(
                                seq_mul(
                                    seq_scale(gd, scalar@),
                                    seq_pow(dseq(g0, mat.id as int), (scalar@.n - 1) as nat),
                                )[k0],
                            ));
                            assert(!rule_ok(g0, node.id as int, gd));
                            assert(apply_rules(g0, node, gd, st0) is None);
                        }
                        return Err(e);
                    },
                };
                proof {
                    lemma_mul_contrib(gp2, *g, scaled, powed, mat_grad, "mul"@);
                    assert(dseq(gp2, scaled.id as int) == seq_scale(gd, scalar@));
                    assert(dseq(gp2, powed.id as int) == seq_pow(
                        dseq(g0, mat.id as int),
                        (scalar@.n - 1) as nat,
                    ));
                    assert(dseq(*g, mat_grad.id as int) =~= rule_value(
                        g0,
                        node.id as int,
                        gd,
                        0,
                    ));
                    assert(rule_ok(g0, node.id as int, gd));
                }
                let ghost sa1 = dmap(grads@, *g);
                proof {
                    lemma_dmap_frame(old(grads)@, *old(g), *g);
                    assert(sa1 == st0);
                }
                match accumulate(grads, mat, mat_grad, g, Ghost(g0)) {
                    Ok(_) => {},
                    Err(e) => {
                        proof {
                            assert(apply_rules(g0, node, gd, st0) is None);
                        }
                        return Err(e);
                    },
                }
                proof {
                    assert(acc_one(
                        st0,
                        mat.id,
                        dlen(g0, mat.id as int),
                        rule_value(g0, node.id as int, gd, 0),
                    ) == Some(dmap(grads@, *g)));
                    assert(apply_rules(g0, node, gd, st0) == Some(
                        dmap(grads@, *g).insert(node.id, gd),
                    ));
                }
            }
        },
    }
    let ghost mpre = grads@;
    let ghost gtail = *g;
    grads.insert(&node, grad);
    proof {
        assert(g.nd(grad.id as int).shape == g0.nd(node.id as int).shape);
        lemma_dmap_insert(mpre, *g, node.id, grad);
        assert(g.nodes@[grad.id as int] == old(g).nodes@[grad.id as int]);
        assert(dseq(*g, grad.id as int) =~= gd);
        assert(dmap(grads@, *g) =~= dmap(mpre, gtail).insert(node.id, gd));
    }
    Ok(())
}

/// The keys the accumulator holds after the first `idx` positions of the
/// order `s` have been handled: the root, plus every target of a gradient
/// edge out of a handled, gradient-reachable node.
pub open spec fn gkeys(g0: Graph, root: Matrix, s: Seq<Matrix>, idx: int, id: int) -> bool {
    id == root.id || exists|i: int, oi: int|
        0 <= i < idx && i < s.len() && 0 <= oi < grad_edges(g0.nd(s[i].id as int)).len() && (
        #[trigger] grad_edges(g0.nd(s[i].id as int))[oi]).id == id && grad_reaches(
            g0,
            root.id as int,
            s[i].id as int,
        )
}

pub proof fn lemma_gkeys_mono(
    g0: Graph,
    root: Matrix,
    s: Seq<Matrix>,
    idx1: int,
    idx2: int,
    id: int,
)
    requires
        gkeys(g0, root, s, idx1, id),
        idx1 <= idx2,
    ensures
        gkeys(g0, root, s, idx2, id),
{
    if id != root.id {
        let (i, oi) = choose|i: int, oi: int|
            0 <= i < idx1 && i < s.len() && 0 <= oi < grad_edges(g0.nd(s[i].id as int)).len()
                && (#[trigger] grad_edges(g0.nd(s[i].id as int))[oi]).id == id && grad_reaches(
                g0,
                root.id as int,
                s[i].id as int,
            );
        assert(0 <= i < idx2 && i < s.len() && 0 <= oi < grad_edges(
            g0.nd(s[i].id as int),
        ).len() && grad_edges(g0.nd(s[i].id as int))[oi].id == id && grad_reaches(
            g0,
            root.id as int,
            s[i].id as int,
        ));
    }
}

pub proof fn lemma_gkeys_reaches(g0: Graph, root: Matrix, s: Seq<Matrix>, idx: int, id: int)
    requires
        g0.wf(),
        root.id < g0.nodes@.len(),
        forall|k: int| 0 <= k < s.len() ==> (#[trigger] s[k]).id < g0.nodes@.len(),
        gkeys(g0, root, s, idx, id),
    ensures
        grad_reaches(g0, root.id as int, id),
{
    if id == root.id {
        lemma_grad_reaches_refl(g0, root.id as int);
    } else {
        let (i, oi) = choose|i: int, oi: int|
            0 <= i < idx && i < s.len() && 0 <= oi < grad_edges(g0.nd(s[i].id as int)).len()
                && (#[trigger] grad_edges(g0.nd(s[i].id as int))[oi]).id == id && grad_reaches(
                g0,
                root.id as int,
                s[i].id as int,
            );
        lemma_grad_edge_step(g0, s[i].id as int, oi);
        lemma_grad_reaches_trans(g0, root.id as int, s[i].id as int, id);
    }
}

impl Matrix {
    /// The reverse pass: seeds the root's gradient with ones, walks the
    /// topological order, applies the local rule of each operator, and sums
    /// contributions per node. The returned accumulator holds an entry for
    /// exactly the nodes reachable along gradient-carrying edges, each of the
    /// shape of its node; the root's entry is the all-ones seed, and the
    /// denoted buffers are exactly `run_pass` applied to a topological order
    /// — the per-operator table of `rule_value`, accumulated and never
    /// overwritten. Failure means exactly that some exact intermediate of
    /// that pass is unrepresentable; a shape error is impossible.
    pub fn backward(&self, g: &mut Graph) -> (r: Result<GradMap, MatrixError>)
        requires
            old(g).wf(),
            self.valid(*old(g)),
        ensures
            final(g).wf(),
            graph_extends(*final(g), *old(g)),
            match r {
                Ok(m) => {
                    &&& forall|id: usize| #[trigger]
                        m@.contains_key(id) <==> grad_reaches(
                            *old(g),
                            self.id as int,
                            id as int,
                        )
                    &&& grads_wf(m@, *final(g), *old(g))
                    &&& m@.contains_key(self.id)
                    &&& final(g).nd(m@[self.id].id as int).shape == old(g).nd(
                        self.id as int,
                    ).shape
                    &&& crate::matrix::all_val(
                        final(g).nd(m@[self.id].id as int).data@,
                        rat_one(),
                    )
                },
                Err(e) => e is OverflowError,
            },
            match r {
                Ok(m) => exists|order: Seq<Matrix>|
                    #[trigger] topo_post(*old(g), *self, order) && run_pass(
                        *old(g),
                        order,
                        order.len() as int,
                        pass_init(*old(g), *self),
                    ) == Some(dmap(m@, *final(g))),
                Err(_) => exists|order: Seq<Matrix>|
                    #[trigger] topo_post(*old(g), *self, order) && run_pass(
                        *old(g),
                        order,
                        order.len() as int,
                        pass_init(*old(g), *self),
                    ) is None,
            },
            old(g).nd(self.id as int).op is None ==> r is Ok,
    {
        let ghost g0 = *old(g);
        let sorted = self.topological_sort(g);
        proof {
            assert(g.wf_at(self.id as int));
        }
        // binding the buffer length gives the machine bound on the node's element count
        let total = g.nodes[self.id].data.len();
        let shape = g.nodes[self.id].shape;
        let seed = Matrix::ones(shape, false, g);
        let mut grads = GradMap::new();
        grads.insert(self, seed);
        proof {
            assert(dmap(grads@, *g) =~= pass_init(g0, *self)) by {
                assert(dmap(Map::<usize, Matrix>::empty(), *g) =~= Map::<usize, Seq<Rat>>::empty());
                lemma_dmap_insert(Map::<usize, Matrix>::empty(), *g, self.id, seed);
                assert(dseq(*g, seed.id as int) =~= seq_const(
                    dlen(g0, self.id as int),
                    rat_one(),
                )) by {
                    assert(g0.wf_at(self.id as int));
                    assert forall|k: int|
                        0 <= k < dlen(g0, self.id as int) implies dseq(*g, seed.id as int)[k]
                        == rat_one() by {
                        assert((g.nd(seed.id as int).data@[k])@ == rat_one());
                    }
                }
            }
            assert forall|id: usize| #[trigger]
                grads@.contains_key(id) == gkeys(g0, *self, sorted@, 0, id as int) by {
                if id != self.id {
                    assert(!grads@.contains_key(id));
                    if gkeys(g0, *self, sorted@, 0, id as int) {
                        let (i, oi) = choose|i: int, oi: int|
                            0 <= i < 0 && i < sorted@.len() && 0 <= oi < grad_edges(
                                g0.nd(sorted@[i].id as int),
                            ).len() && (#[trigger] grad_edges(
                                g0.nd(sorted@[i].id as int),
                            )[oi]).id == id as int && grad_reaches(
                                g0,
                                self.id as int,
                                sorted@[i].id as int,
                            );
                        assert(false);
                    }
                }
            }
        }
        let mut idx: usize = 0;
        while idx < sorted.len()
            invariant
                g0 == *old(g),
                g.wf(),
                g0.wf(),
                graph_extends(*g, g0),
                self.id < g0.nodes@.len(),
                topo_post(g0, *self, sorted@),
                idx <= sorted@.len(),
                forall|id: usize| #[trigger]
                    grads@.contains_key(id) == gkeys(g0, *self, sorted@, idx as int, id as int),
                run_pass(g0, sorted@, idx as int, pass_init(g0, *self)) == Some(
                    dmap(grads@, *g),
                ),
                grads_wf(grads@, *g, g0),
                grads@.contains_key(self.id),
                grads@[self.id] == seed,
                seed.id < g.nodes@.len(),
                g.nd(seed.id as int).shape == g0.nd(self.id as int).shape,
                crate::matrix::all_val(g.nd(seed.id as int).data@, rat_one()),
            decreases sorted@.len() - idx,
        {
            let node = sorted[idx];
            proof {
                assert(sorted@[idx as int].id < g0.nodes@.len());
                assert(g0.nd(node.id as int).op is Some);
            }
            let ghost m0 = grads@;
            let ghost gb = *g;
            match grads.remove(&node) {
                None => {
                    proof {
                        assert(!gkeys(g0, *self, sorted@, idx as int, node.id as int));
                        if grad_reaches(g0, self.id as int, node.id as int) {
                            if node.id != self.id {
                                lemma_grad_last_edge(g0, self.id as int, node.id as int);
                                let (c, oi) = choose|c: int, oi: int|
                                    0 <= c < g0.nodes@.len() && #[trigger] grad_reaches(
                                        g0,
                                        self.id as int,
                                        c,
                                    ) && 0 <= oi < grad_edges(g0.nd(c)).len() && (
                                    #[trigger] grad_edges(g0.nd(c))[oi]).id == node.id as int;
                                lemma_gedge_is_operand(g0.nd(c), oi);
                                lemma_grad_to_reaches(g0, self.id as int, c);
                                assert(in_list(sorted@, c));
                                let ic = choose|ic: int|
                                    0 <= ic < sorted@.len() && (#[trigger] sorted@[ic]).id == c;
                                assert(operands(g0.nd(sorted@[ic].id as int))[oi].id
                                    == node.id);
                                let k2 = choose|k2: int|
                                    ic < k2 < sorted@.len() && (#[trigger] sorted@[k2]).id
                                        == operands(g0.nd(sorted@[ic].id as int))[oi].id;
                                assert(sorted@[idx as int].id == node.id);
                                if k2 < idx as int {
                                    assert(sorted@[k2].id != sorted@[idx as int].id);
                                } else if k2 > idx as int {
                                    assert(sorted@[idx as int].id != sorted@[k2].id);
                                }
                                assert(k2 == idx as int);
                                assert(ic < idx as int);
                                assert(grad_reaches(g0, self.id as int, sorted@[ic].id as int));
                                assert(0 <= ic < idx as int && ic < sorted@.len() && 0 <= oi
                                    < grad_edges(g0.nd(sorted@[ic].id as int)).len()
                                    && grad_edges(g0.nd(sorted@[ic].id as int))[oi].id
                                    == node.id as int);
                                assert(gkeys(g0, *self, sorted@, idx as int, node.id as int));
                            }
                            assert(false);
                        }
                        assert forall|id: usize| #[trigger]
                            grads@.contains_key(id) == gkeys(
                            g0,
                            *self,
                            sorted@,
                            idx as int + 1,
                            id as int,
                        ) by {
                            if grads@.contains_key(id) {
                                lemma_gkeys_mono(
                                    g0,
                                    *self,
                                    sorted@,
                                    idx as int,
                                    idx as int + 1,
                                    id as int,
                                );
                            } else if gkeys(g0, *self, sorted@, idx as int + 1, id as int) {
                                if id as int != self.id as int {
                                    let (i, oi) = choose|i: int, oi: int|
                                        0 <= i < idx as int + 1 && i < sorted@.len() && 0 <= oi
                                            < grad_edges(g0.nd(sorted@[i].id as int)).len()
                                            && (#[trigger] grad_edges(
                                            g0.nd(sorted@[i].id as int),
                                        )[oi]).id == id as int && grad_reaches(
                                            g0,
                                            self.id as int,
                                            sorted@[i].id as int,
                                        );
                                    if i < idx as int {
                                        assert(gkeys(g0, *self, sorted@, idx as int, id as int));
                                    } else {
                                        assert(sorted@[i].id == node.id);
                                        assert(false);
                                    }
                                }
                                assert(false);
                            }
                        }
                        // a skipped node leaves the reference state unchanged
                        assert(!dmap(grads@, *g).contains_key(node.id));
                        assert(pass_step(g0, sorted@[idx as int], dmap(grads@, *g)) == Some(
                            dmap(grads@, *g),
                        ));
                        assert(run_pass(g0, sorted@, idx as int + 1, pass_init(g0, *self))
                            == Some(dmap(grads@, *g)));
                    }
                },
                Some(grad) => {
                    proof {
                        assert(m0.contains_key(node.id));
                        assert(grad == m0[node.id]);
                        assert(grad.id < g.nodes@.len());
                        assert(g.nd(grad.id as int).shape == g0.nd(node.id as int).shape);
                        assert forall|id: usize| #[trigger]
                            grads@.contains_key(id) implies id < g0.nodes@.len()
                            && grads@[id].id < g.nodes@.len() && g.nd(
                            grads@[id].id as int,
                        ).shape == g0.nd(id as int).shape by {
                            assert(m0.contains_key(id));
                        }
                        lemma_gkeys_reaches(
                            g0,
                            *self,
                            sorted@,
                            idx as int,
                            node.id as int,
                        );
                    }
                    let ghost m1 = grads@;
                    let ghost st_pre = dmap(m0, gb);
                    proof {
                        lemma_dmap_remove(m0, gb, node.id);
                        assert(dmap(grads@, *g) == st_pre.remove(node.id));
                        assert(st_pre.contains_key(node.id));
                        assert(st_pre[node.id] == dseq(gb, grad.id as int));
                    }
                    match process_node(node, grad, &mut grads, g, Ghost(g0)) {
                        Ok(_) => {},
                        Err(e) => {
                            proof {
                                assert(graph_extends(*g, gb));
                                assert(graph_extends(*g, g0));
                                assert(g0.nd(self.id as int).op is Some);
                                assert(apply_rules(
                                    g0,
                                    node,
                                    rseq(gb.nd(grad.id as int).data@),
                                    st_pre.remove(node.id),
                                ) is None);
                                assert(pass_step(g0, sorted@[idx as int], st_pre) is None);
                                assert(run_pass(
                                    g0,
                                    sorted@,
                                    idx as int + 1,
                                    pass_init(g0, *self),
                                ) is None);
                                lemma_run_pass_absorbs(
                                    g0,
                                    sorted@,
                                    idx as int + 1,
                                    sorted@.len() as int,
                                    pass_init(g0, *self),
                                );
                                assert(topo_post(g0, *self, sorted@));
                            }
                            return Err(e);
                        },
                    }
                    proof {
                        assert(apply_rules(
                            g0,
                            node,
                            rseq(gb.nd(grad.id as int).data@),
                            st_pre.remove(node.id),
                        ) == Some(dmap(grads@, *g)));
                        assert(pass_step(g0, sorted@[idx as int], st_pre) == Some(
                            dmap(grads@, *g),
                        ));
                        assert(run_pass(g0, sorted@, idx as int + 1, pass_init(g0, *self))
                            == Some(dmap(grads@, *g)));
                    }
                    proof {
                        assert forall|id: usize| #[trigger]
                            grads@.contains_key(id) == gkeys(
                            g0,
                            *self,
                            sorted@,
                            idx as int + 1,
                            id as int,
                        ) by {
                            if grads@.contains_key(id) {
                                if id == node.id {
                                    lemma_gkeys_mono(
                                        g0,
                                        *self,
                                        sorted@,
                                        idx as int,
                                        idx as int + 1,
                                        id as int,
                                    );
                                } else if m1.contains_key(id) {
                                    assert(m0.contains_key(id));
                                    lemma_gkeys_mono(
                                        g0,
                                        *self,
                                        sorted@,
                                        idx as int,
                                        idx as int + 1,
                                        id as int,
                                    );
                                } else {
                                    let oi = choose|oi: int|
                                        0 <= oi < grad_edges(g0.nd(node.id as int)).len() && (
                                        #[trigger] grad_edges(g0.nd(node.id as int))[oi]).id
                                            == id as int;
                                    assert(sorted@[idx as int].id == node.id);
                                    assert((idx as int) < idx as int + 1 && (idx as int)
                                        < sorted@.len() && 0 <= oi < grad_edges(
                                        g0.nd(sorted@[idx as int].id as int),
                                    ).len() && grad_edges(
                                        g0.nd(sorted@[idx as int].id as int),
                                    )[oi].id == id as int && grad_reaches(
                                        g0,
                                        self.id as int,
                                        sorted@[idx as int].id as int,
                                    ));
                                }
                            } else if gkeys(g0, *self, sorted@, idx as int + 1, id as int) {
                                if id as int == self.id as int {
                                    assert(m0.contains_key(id));
                                    if node.id == self.id {
                                        assert(grads@.contains_key(node.id));
                                    } else {
                                        assert(m1.contains_key(id));
                                    }
                                } else {
                                    let (i, oi) = choose|i: int, oi: int|
                                        0 <= i < idx as int + 1 && i < sorted@.len() && 0 <= oi
                                            < grad_edges(g0.nd(sorted@[i].id as int)).len()
                                            && (#[trigger] grad_edges(
                                            g0.nd(sorted@[i].id as int),
                                        )[oi]).id == id as int && grad_reaches(
                                            g0,
                                            self.id as int,
                                            sorted@[i].id as int,
                                        );
                                    if i < idx as int {
                                        assert(gkeys(g0, *self, sorted@, idx as int, id as int));
                                        assert(m0.contains_key(id));
                                        if id == node.id {
                                            assert(grads@.contains_key(id));
                                        } else {
                                            assert(m1.contains_key(id));
                                        }
                                    } else {
                                        assert(sorted@[i].id == node.id);
                                    }
                                }
                                assert(grads@.contains_key(id));
                            }
                        }
                        // the root's seed entry is untouched
                        if node.id == self.id {
                            assert(grads@[self.id] == grad);
                            assert(grad == seed);
                        } else {
                            lemma_reaches_bound(g0, self.id as int, node.id as int);
                            assert(!(exists|oi: int|
                                0 <= oi < grad_edges(g0.nd(node.id as int)).len() && (
                                #[trigger] grad_edges(g0.nd(node.id as int))[oi]).id
                                    == self.id)) by {
                                if exists|oi: int|
                                    0 <= oi < grad_edges(g0.nd(node.id as int)).len() && (
                                    #[trigger] grad_edges(g0.nd(node.id as int))[oi]).id
                                        == self.id {
                                    let oi = choose|oi: int|
                                        0 <= oi < grad_edges(g0.nd(node.id as int)).len() && (
                                        #[trigger] grad_edges(g0.nd(node.id as int))[oi]).id
                                            == self.id;
                                    lemma_gedge_is_operand(g0.nd(node.id as int), oi);
                                    assert(g0.wf_at(node.id as int));
                                    assert(operands(g0.nd(node.id as int))[oi].id
                                        < node.id) by {
                                        match g0.nd(node.id as int).op {
                                            Option::None => {},
                                            Option::Some(op) => match op {
                                                Operator::Binary(l2, r2, _) => {
                                                    assert(operands(g0.nd(node.id as int))[0]
                                                        == l2);
                                                    assert(operands(g0.nd(node.id as int))[1]
                                                        == r2);
                                                },
                                                Operator::BinaryScalar(m2, _, _) => {
                                                    assert(operands(g0.nd(node.id as int))[0]
                                                        == m2);
                                                },
                                                Operator::Unary(m2, _) => {
                                                    assert(operands(g0.nd(node.id as int))[0]
                                                        == m2);
                                                },
                                            },
                                        }
                                    }
                                    assert(false);
                                }
                            }
                            assert(m1.contains_key(self.id));
                            assert(grads@[self.id] == m1[self.id]);
                            assert(m1[self.id] == seed);
                        }
                    }
                },
            }
            idx = idx + 1;
            proof {
                assert(graph_extends(*g, gb));
                assert(g.nodes@[seed.id as int] == gb.nodes@[seed.id as int]);
                assert(graph_extends(*g, g0));
            }
        }
        proof {
            assert(run_pass(g0, sorted@, sorted@.len() as int, pass_init(g0, *self)) == Some(
                dmap(grads@, *g),
            ));
            assert(topo_post(g0, *self, sorted@));
            assert forall|id: usize| #[trigger]
                grads@.contains_key(id) == grad_reaches(g0, self.id as int, id as int) by {
                if grads@.contains_key(id) {
                    lemma_gkeys_reaches(g0, *self, sorted@, sorted@.len() as int, id as int);
                } else {
                    if grad_reaches(g0, self.id as int, id as int) {
                        if id != self.id {
                            lemma_grad_last_edge(g0, self.id as int, id as int);
                            let (c, oi) = choose|c: int, oi: int|
                                0 <= c < g0.nodes@.len() && #[trigger] grad_reaches(
                                    g0,
                                    self.id as int,
                                    c,
                                ) && 0 <= oi < grad_edges(g0.nd(c)).len() && (
                                #[trigger] grad_edges(g0.nd(c))[oi]).id == id as int;
                            lemma_gedge_is_operand(g0.nd(c), oi);
                            lemma_grad_to_reaches(g0, self.id as int, c);
                            assert(in_list(sorted@, c));
                            let ic = choose|ic: int|
                                0 <= ic < sorted@.len() && (#[trigger] sorted@[ic]).id == c;
                            assert(0 <= ic < sorted@.len() as int && ic < sorted@.len() && 0
                                <= oi < grad_edges(g0.nd(sorted@[ic].id as int)).len()
                                && grad_edges(g0.nd(sorted@[ic].id as int))[oi].id
                                == id as int && grad_reaches(
                                g0,
                                self.id as int,
                                sorted@[ic].id as int,
                            ));
                            assert(gkeys(
                                g0,
                                *self,
                                sorted@,
                                sorted@.len() as int,
                                id as int,
                            ));
                        }
                        assert(false);
                    }
                }
            }
        }
        Ok(grads)
    }
}

} // verus!