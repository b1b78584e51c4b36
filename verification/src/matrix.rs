use vstd::prelude::*;

use crate::autodiff::{BinaryOpType, BinaryScalarOpType, Operator, UnaryOpType};
use crate::error::MatrixError;
use crate::scalar::{rat_zero, rat_one, Rat, Scalar};

verus! {

/// One node of the computation graph: an immutable matrix value together
/// with its provenance. Nodes live in a `Graph` arena and never change after
/// construction.
#[derive(Debug)]
pub struct Node {
    pub data: Vec<Scalar>,
    pub shape: (usize, usize),
    pub with_grad: bool,
    pub op: Option<Operator>,
}

/// The arena that owns every node. A `Matrix` is an index into it; operands
/// of a node always have strictly smaller indices, so the graph is acyclic by
/// construction and indices double as the node identity required by the
/// sequencer and the gradient accumulator.
#[derive(Debug)]
pub struct Graph {
    pub nodes: Vec<Node>,
}

/// Handle to a node of a `Graph`. Identity, not value: two handles are the
/// same node exactly when their ids agree.
#[derive(Clone, Copy, Debug, PartialEq, Eq, Structural)]
pub struct Matrix {
    pub id: usize,
}

pub open spec fn sprod(shape: (usize, usize)) -> int {
    shape.0 * shape.1
}

pub open spec fn data_wf(d: Seq<Scalar>) -> bool {
    forall|k: int| 0 <= k < d.len() ==> (#[trigger] d[k]).wf()
}

pub open spec fn all_val(d: Seq<Scalar>, v: Rat) -> bool {
    forall|k: int| 0 <= k < d.len() ==> (#[trigger] d[k])@ == v
}

pub open spec fn data_nonzero(d: Seq<Scalar>) -> bool {
    forall|k: int| 0 <= k < d.len() ==> (#[trigger] d[k])@.n != 0
}

/// The shapes a source shape can be broadcast into: a single cell goes
/// anywhere, a single row replicates down rows of the same width, a single
/// column replicates across columns of the same height.
pub open spec fn spec_bcast_ok(from: (usize, usize), to: (usize, usize)) -> bool {
    ||| (from.0 == 1 && from.1 == 1)
    ||| (from.0 == 1 && to.1 == from.1)
    ||| (from.1 == 1 && to.0 == from.0)
}

/// Index into the source buffer that a broadcast target cell reads from.
pub open spec fn bcast_src(from: (usize, usize), to: (usize, usize), k: int) -> int {
    let i = k / (to.1 as int);
    let j = k % (to.1 as int);
    let si: int = if from.0 == 1 { 0 } else { i };
    let sj: int = if from.1 == 1 { 0 } else { j };
    si * from.1 + sj
}

/// Row-major buffer of a matrix of shape `from` broadcast into shape `to`.
/// When the shapes agree this is the buffer itself.
pub open spec fn bcast_data(d: Seq<Scalar>, from: (usize, usize), to: (usize, usize)) -> Seq<
    Scalar,
> {
    Seq::new(sprod(to) as nat, |k: int| d[bcast_src(from, to, k)])
}

/// Row-major buffer of the transpose of a `rows` by `cols` matrix.
pub open spec fn transpose_data(d: Seq<Scalar>, rows: int, cols: int) -> Seq<Scalar> {
    Seq::new((rows * cols) as nat, |k: int| d[(k % rows) * cols + k / rows])
}

/// The resolved shape of a binary elementwise operation, mirroring the
/// resolver exactly: each side is stretched against the other and the result
/// stands only if the two stretched shapes agree; `(0, 0)` is the failure
/// sentinel.
pub open spec fn stretch(a: (usize, usize), against: (usize, usize)) -> (usize, usize) {
    if a.0 == 1 && a.1 == 1 {
        against
    } else if a.0 == 1 {
        (against.0, a.1)
    } else if a.1 == 1 {
        (a.0, against.1)
    } else {
        a
    }
}

pub open spec fn spec_broadcast_shape(lhs: (usize, usize), rhs: (usize, usize)) -> (
    usize,
    usize,
) {
    let r2 = stretch(rhs, lhs);
    let l2 = stretch(lhs, r2);
    if r2 == l2 {
        r2
    } else {
        (0, 0)
    }
}

/// Two shapes are compatible when the resolver produces a real shape; the
/// sentinel is a legitimate result only when both operands are empty.
pub open spec fn spec_compatible(lhs: (usize, usize), rhs: (usize, usize)) -> bool {
    spec_broadcast_shape(lhs, rhs) != ((0usize, 0usize))
        || (lhs == ((0usize, 0usize)) && rhs == ((0usize, 0usize)))
}

/// Value rule of a binary elementwise operation. `MatMul` is not
/// elementwise and never reaches this table.
pub open spec fn rat_bop(op: BinaryOpType, a: Rat, b: Rat) -> Rat {
    match op {
        BinaryOpType::Add => crate::scalar::rat_add(a, b),
        BinaryOpType::Sub => crate::scalar::rat_sub(a, b),
        BinaryOpType::Mul => crate::scalar::rat_mul(a, b),
        BinaryOpType::Div => crate::scalar::rat_div(a, b),
        BinaryOpType::MatMul => rat_zero(),
    }
}

/// Every elementwise result is representable. For `Div` this also rules out
/// zero divisors, whose spec result has a zero denominator.
pub open spec fn ew_ok(op: BinaryOpType, ld: Seq<Scalar>, rd: Seq<Scalar>) -> bool {
    forall|k: int| 0 <= k < ld.len() ==> crate::scalar::rat_fits(
        #[trigger] rat_bop(op, ld[k]@, rd[k]@),
    )
}

/// The buffer an operand contributes to an elementwise operation: its own
/// buffer when it already has the resolved shape, otherwise its broadcast
/// into that shape.
pub open spec fn expanded_view(g: Graph, m: Matrix, sh: (usize, usize)) -> Seq<Scalar> {
    if g.nd(m.id as int).shape == sh {
        g.nd(m.id as int).data@
    } else {
        bcast_data(g.nd(m.id as int).data@, g.nd(m.id as int).shape, sh)
    }
}

/// The operand recorded by an elementwise operation: the source itself when
/// no stretch was needed, else a fresh broadcast node over the source, so the
/// reverse pass sees the explicit broadcast step.
pub open spec fn is_expanded_of(
    g1: Graph,
    g0: Graph,
    h: Matrix,
    src: Matrix,
    sh: (usize, usize),
) -> bool {
    if g0.nd(src.id as int).shape == sh {
        h == src
    } else {
        &&& h.id < g1.nodes@.len()
        &&& g1.nd(h.id as int).op == Some(Operator::Unary(src, UnaryOpType::Broadcast))
        &&& g1.nd(h.id as int).shape == sh
        &&& g1.nd(h.id as int).data@ == bcast_data(
            g0.nd(src.id as int).data@,
            g0.nd(src.id as int).shape,
            sh,
        )
        &&& g1.nd(h.id as int).with_grad == g0.nd(src.id as int).with_grad
    }
}

/// Full contract of a binary elementwise operation from graph `g0` to graph
/// `g1`: success exactly on compatible shapes with representable results,
/// with the resolved shape, the elementwise values of the table, provenance
/// over the post-broadcast operands, and the disjunction gradient flag; a
/// shape failure reports both shapes and the operation name and leaves the
/// graph unchanged.
pub open spec fn ew_post(
    g0: Graph,
    g1: Graph,
    a: Matrix,
    b: Matrix,
    op: BinaryOpType,
    opname: Seq<char>,
    res: Result<Matrix, MatrixError>,
) -> bool {
    let ash = g0.nd(a.id as int).shape;
    let bsh = g0.nd(b.id as int).shape;
    let sh = spec_broadcast_shape(ash, bsh);
    let la = expanded_view(g0, a, sh);
    let rb = expanded_view(g0, b, sh);
    match res {
        Ok(m) => {
            &&& spec_compatible(ash, bsh)
            &&& g1.wf()
            &&& graph_extends(g1, g0)
            &&& g0.nodes@.len() <= m.id < g1.nodes@.len()
            &&& g1.nd(m.id as int).shape == sh
            &&& g1.nd(m.id as int).with_grad == (g0.nd(a.id as int).with_grad || g0.nd(
                b.id as int,
            ).with_grad)
            &&& g1.nd(m.id as int).data@.len() == sprod(sh)
            &&& ew_ok(op, la, rb)
            &&& (forall|k: int|
                0 <= k < sprod(sh) ==> (#[trigger] g1.nd(m.id as int).data@[k])@ == rat_bop(
                    op,
                    la[k]@,
                    rb[k]@,
                ))
            &&& match g1.nd(m.id as int).op {
                Some(Operator::Binary(l, r, o)) => {
                    &&& o == op
                    &&& is_expanded_of(g1, g0, l, a, sh)
                    &&& is_expanded_of(g1, g0, r, b, sh)
                },
                _ => false,
            }
        },
        Err(e) => {
            &&& g1.wf()
            &&& graph_extends(g1, g0)
            &&& match e {
                MatrixError::ShapeMismatchError { a_shape, b_shape, op: o } => {
                    &&& !spec_compatible(ash, bsh)
                    &&& a_shape == ash
                    &&& b_shape == bsh
                    &&& o@ == opname
                    &&& g1 == g0
                },
                MatrixError::OverflowError => spec_compatible(ash, bsh) && !ew_ok(op, la, rb),
                MatrixError::DivisionByZeroError => {
                    &&& spec_compatible(ash, bsh)
                    &&& op == BinaryOpType::Div
                    &&& !ew_ok(op, la, rb)
                    &&& exists|k: int| 0 <= k < rb.len() && (#[trigger] rb[k])@.n == 0
                },
                _ => false,
            }
        },
    }
}

/// Partial dot product of row `i` of `a` (width `acols`) with column `j` of
/// `b` (width `bcols`): the sum of the first `k` products, in evaluation
/// order, starting from zero.
pub open spec fn dot_partial(
    a: Seq<Scalar>,
    b: Seq<Scalar>,
    acols: int,
    bcols: int,
    i: int,
    j: int,
    k: int,
) -> Rat
    decreases k,
{
    if k <= 0 {
        rat_zero()
    } else {
        crate::scalar::rat_add(
            dot_partial(a, b, acols, bcols, i, j, k - 1),
            crate::scalar::rat_mul(a[i * acols + (k - 1)]@, b[(k - 1) * bcols + j]@),
        )
    }
}

/// Every product and every partial sum of the dense product is
/// representable.
pub open spec fn mm_ok(
    a: Seq<Scalar>,
    b: Seq<Scalar>,
    arows: int,
    acols: int,
    bcols: int,
) -> bool {
    &&& forall|i: int, j: int, k: int|
        0 <= i < arows && 0 <= j < bcols && 0 <= k < acols ==> crate::scalar::rat_fits(
            #[trigger] crate::scalar::rat_mul(a[i * acols + k]@, b[k * bcols + j]@),
        )
    &&& forall|i: int, j: int, k: int|
        0 <= i < arows && 0 <= j < bcols && 0 <= k < acols ==> crate::scalar::rat_fits(
            #[trigger] dot_partial(a, b, acols, bcols, i, j, k + 1),
        )
}

/// Representability of products and partial sums for the output cells that
/// precede cell `(i, j)` in row-major evaluation order.
pub open spec fn mm_ok_upto(
    a: Seq<Scalar>,
    b: Seq<Scalar>,
    acols: int,
    bcols: int,
    i: int,
    j: int,
) -> bool {
    &&& forall|ii: int, jj: int, k: int|
        0 <= ii && 0 <= jj < bcols && 0 <= k < acols && (ii < i || (ii == i && jj < j))
            ==> crate::scalar::rat_fits(
            #[trigger] crate::scalar::rat_mul(a[ii * acols + k]@, b[k * bcols + jj]@),
        )
    &&& forall|ii: int, jj: int, k: int|
        0 <= ii && 0 <= jj < bcols && 0 <= k < acols && (ii < i || (ii == i && jj < j))
            ==> crate::scalar::rat_fits(
            #[trigger] dot_partial(a, b, acols, bcols, ii, jj, k + 1),
        )
}

/// Partial sum of the first `k` entries of row `i` (width `cols`).
pub open spec fn row_sum_partial(d: Seq<Scalar>, cols: int, i: int, k: int) -> Rat
    decreases k,
{
    if k <= 0 {
        rat_zero()
    } else {
        crate::scalar::rat_add(row_sum_partial(d, cols, i, k - 1), d[i * cols + (k - 1)]@)
    }
}

/// Partial sum of the first `k` entries of column `j` (width `cols`).
pub open spec fn col_sum_partial(d: Seq<Scalar>, cols: int, j: int, k: int) -> Rat
    decreases k,
{
    if k <= 0 {
        rat_zero()
    } else {
        crate::scalar::rat_add(col_sum_partial(d, cols, j, k - 1), d[(k - 1) * cols + j]@)
    }
}

pub open spec fn sum0_ok(d: Seq<Scalar>, rows: int, cols: int) -> bool {
    forall|i: int, k: int|
        0 <= i < rows && 0 <= k < cols ==> crate::scalar::rat_fits(
            #[trigger] row_sum_partial(d, cols, i, k + 1),
        )
}

pub open spec fn sum1_ok(d: Seq<Scalar>, rows: int, cols: int) -> bool {
    forall|j: int, k: int|
        0 <= j < cols && 0 <= k < rows ==> crate::scalar::rat_fits(
            #[trigger] col_sum_partial(d, cols, j, k + 1),
        )
}

/// Every power of every entry up to exponent `p` is representable.
pub open spec fn pow_all_ok(d: Seq<Scalar>, p: nat) -> bool {
    forall|k: int, j: nat|
        0 <= k < d.len() && 1 <= j <= p ==> crate::scalar::rat_fits(
            #[trigger] crate::scalar::rat_pow(d[k]@, j),
        )
}

/// A shape is always compatible with itself and resolves to itself.
pub proof fn lemma_shape_self(s: (usize, usize))
    ensures
        spec_compatible(s, s),
        spec_broadcast_shape(s, s) == s,
{
}

/// Compatible shapes can each be broadcast into the resolved shape.
pub proof fn lemma_compat_sides(ash: (usize, usize), bsh: (usize, usize))
    requires
        spec_compatible(ash, bsh),
    ensures
        ash != spec_broadcast_shape(ash, bsh) ==> spec_bcast_ok(
            ash,
            spec_broadcast_shape(ash, bsh),
        ),
        bsh != spec_broadcast_shape(ash, bsh) ==> spec_bcast_ok(
            bsh,
            spec_broadcast_shape(ash, bsh),
        ),
{
}

/// Well-formedness of a candidate node against a graph prefix of length `i`:
/// the buffer length matches the shape, entries are well-formed rationals,
/// operands lie strictly below `i`, the recorded shapes obey the operation's
/// shape rule, and the gradient flag is the disjunction of the operands'.
pub open spec fn node_ok_at(g: Graph, nd: Node, i: int) -> bool {
    &&& i <= g.nodes@.len()
    &&& nd.data@.len() == sprod(nd.shape)
    &&& data_wf(nd.data@)
    &&& match nd.op {
        Option::None => true,
        Option::Some(op) => match op {
            Operator::Binary(l, r, bt) => {
                &&& l.id < i
                &&& r.id < i
                &&& nd.with_grad == (g.nodes@[l.id as int].with_grad
                    || g.nodes@[r.id as int].with_grad)
                &&& match bt {
                    BinaryOpType::MatMul => {
                        &&& g.nodes@[l.id as int].shape.1 == g.nodes@[r.id as int].shape.0
                        &&& nd.shape == ((
                            g.nodes@[l.id as int].shape.0,
                            g.nodes@[r.id as int].shape.1,
                        ))
                    },
                    BinaryOpType::Div => {
                        &&& g.nodes@[l.id as int].shape == nd.shape
                        &&& g.nodes@[r.id as int].shape == nd.shape
                        &&& data_nonzero(g.nodes@[r.id as int].data@)
                    },
                    _ => {
                        &&& g.nodes@[l.id as int].shape == nd.shape
                        &&& g.nodes@[r.id as int].shape == nd.shape
                    },
                }
            },
            Operator::BinaryScalar(m, s, st) => {
                &&& m.id < i
                &&& s.wf()
                &&& nd.shape == g.nodes@[m.id as int].shape
                &&& nd.with_grad == g.nodes@[m.id as int].with_grad
                &&& (st == BinaryScalarOpType::Powf ==> s.den == 1 && 0 <= s.num <= 0xffff_ffff)
            },
            Operator::Unary(m, ut) => {
                &&& m.id < i
                &&& nd.with_grad == g.nodes@[m.id as int].with_grad
                &&& match ut {
                    UnaryOpType::Transpose => nd.shape == ((
                        g.nodes@[m.id as int].shape.1,
                        g.nodes@[m.id as int].shape.0,
                    )),
                    UnaryOpType::Sigmoid => nd.shape == g.nodes@[m.id as int].shape,
                    UnaryOpType::Broadcast => spec_bcast_ok(
                        g.nodes@[m.id as int].shape,
                        nd.shape,
                    ),
                    UnaryOpType::Sum => true,
                }
            },
        },
    }
}

/// `g2` keeps every node of `g1` unchanged; operations only ever append.
pub open spec fn graph_extends(g2: Graph, g1: Graph) -> bool {
    &&& g1.nodes@.len() <= g2.nodes@.len()
    &&& forall|i: int| 0 <= i < g1.nodes@.len() ==> g2.nodes@[i] == g1.nodes@[i]
}

/// A node judgement only looks at the prefix below `i`, so appending nodes
/// never invalidates it.
pub proof fn lemma_node_ok_frame(g1: Graph, g2: Graph, nd: Node, i: int)
    requires
        node_ok_at(g1, nd, i),
        graph_extends(g2, g1),
        i <= g1.nodes@.len(),
    ensures
        node_ok_at(g2, nd, i),
{
}

impl Graph {
    pub open spec fn node_count(self) -> int {
        self.nodes@.len() as int
    }

    pub open spec fn nd(self, i: int) -> Node {
        self.nodes@[i]
    }

    pub open spec fn wf_at(self, i: int) -> bool {
        node_ok_at(self, self.nodes@[i], i)
    }

    pub open spec fn wf(self) -> bool {
        forall|i: int| 0 <= i < self.nodes@.len() ==> #[trigger] self.wf_at(i)
    }

    pub fn new() -> (g: Graph)
        ensures
            g.wf(),
            g.node_count() == 0,
    {
        Graph { nodes: Vec::new() }
    }

    pub fn len(&self) -> (r: usize)
        ensures
            r == self.node_count(),
    {
        self.nodes.len()
    }

    /// Appends a node and hands back its handle. The node must be well formed
    /// against the current graph.
    fn append_node(&mut self, node: Node) -> (r: Matrix)
        requires
            old(self).wf(),
            node_ok_at(*old(self), node, old(self).nodes@.len() as int),
        ensures
            final(self).wf(),
            graph_extends(*final(self), *old(self)),
            final(self).node_count() == old(self).node_count() + 1,
            r.id == old(self).node_count(),
            final(self).nd(r.id as int) == node,
    {
        let id = self.nodes.len();
        self.nodes.push(node);
        proof {
            assert forall|i: int| 0 <= i < self.nodes@.len() implies #[trigger] self.wf_at(i) by {
                if i < old(self).nodes@.len() {
                    assert(old(self).wf_at(i));
                    lemma_node_ok_frame(*old(self), *self, self.nodes@[i], i);
                } else {
                    lemma_node_ok_frame(*old(self), *self, node, i);
                }
            }
        }
        Matrix { id }
    }
}

/// Combines two equally long buffers entry by entry under the elementwise
/// value table, reporting the first unrepresentable result or zero divisor.
fn ew_data(ld: &Vec<Scalar>, rd: &Vec<Scalar>, op: BinaryOpType) -> (r: Result<
    Vec<Scalar>,
    MatrixError,
>)
    requires
        op != BinaryOpType::MatMul,
        data_wf(ld@),
        data_wf(rd@),
        ld@.len() == rd@.len(),
    ensures
        match r {
            Ok(d) => {
                &&& d@.len() == ld@.len()
                &&& data_wf(d@)
                &&& ew_ok(op, ld@, rd@)
                &&& forall|k: int|
                    0 <= k < d@.len() ==> (#[trigger] d@[k])@ == rat_bop(op, ld@[k]@, rd@[k]@)
            },
            Err(e) => {
                &&& !ew_ok(op, ld@, rd@)
                &&& (e is OverflowError || e is DivisionByZeroError)
                &&& (e is DivisionByZeroError ==> op == BinaryOpType::Div && exists|k: int|
                    0 <= k < rd@.len() && (#[trigger] rd@[k])@.n == 0)
            },
        },
{
    let n = ld.len();
    let mut out: Vec<Scalar> = Vec::new();
    let mut k: usize = 0;
    while k < n
        invariant
            op != BinaryOpType::MatMul,
            data_wf(ld@),
            data_wf(rd@),
            ld@.len() == rd@.len(),
            n == ld@.len(),
            k <= n,
            out@.len() == k,
            data_wf(out@),
            forall|j: int|
                0 <= j < k ==> crate::scalar::rat_fits(#[trigger] rat_bop(op, ld@[j]@, rd@[j]@)),
            forall|j: int|
                0 <= j < k ==> (#[trigger] out@[j])@ == rat_bop(op, ld@[j]@, rd@[j]@),
        decreases n - k,
    {
        let a = ld[k];
        let b = rd[k];
        let v: Option<Scalar> = match op {
            BinaryOpType::Add => a.add(&b),
            BinaryOpType::Sub => a.sub(&b),
            BinaryOpType::Mul => a.mul(&b),
            BinaryOpType::Div => {
                if b.is_zero() {
                    proof {
                        assert(crate::scalar::rat_div(a@, b@).d == a@.d * 0);
                        assert(!crate::scalar::rat_fits(rat_bop(op, ld@[k as int]@, rd@[k as int]@)));
                    }
                    return Err(MatrixError::DivisionByZeroError);
                }
                a.div(&b)
            },
            BinaryOpType::MatMul => {
                proof {
                    assert(false);
                }
                return Err(MatrixError::OverflowError);
            },
        };
        match v {
            Some(q) => {
                out.push(q);
            },
            None => {
                proof {
                    assert(!crate::scalar::rat_fits(rat_bop(op, ld@[k as int]@, rd@[k as int]@)));
                }
                return Err(MatrixError::OverflowError);
            },
        }
        k = k + 1;
    }
    Ok(out)
}

/// In a well-formed graph every node's buffer length equals the product of
/// its shape, whatever operations built it.
pub proof fn lemma_shape_data_invariant(g: Graph, i: int)
    requires
        g.wf(),
        0 <= i < g.nodes@.len(),
    ensures
        g.nd(i).data@.len() == sprod(g.nd(i).shape),
{
    assert(g.wf_at(i));
}

/// Transposing twice gives back the original buffer: the round-trip law of
/// the transpose operation, stated over the buffer transform that `t`'s
/// contract uses.
pub proof fn lemma_transpose_involution(d: Seq<Scalar>, rows: int, cols: int)
    requires
        0 <= rows,
        0 <= cols,
        d.len() == rows * cols,
    ensures
        transpose_data(transpose_data(d, rows, cols), cols, rows) =~= d,
{
    let e = transpose_data(d, rows, cols);
    assert forall|k: int|
        0 <= k < cols * rows implies transpose_data(e, cols, rows)[k] == d[k] by {
        assert(cols > 0 && rows > 0) by (nonlinear_arith)
            requires
                0 <= k < cols * rows,
                0 <= rows,
                0 <= cols,
        ;
        let i = k / cols;
        let j = k % cols;
        vstd::arithmetic::div_mod::lemma_fundamental_div_mod(k, cols);
        vstd::arithmetic::div_mod::lemma_mod_bound(k, cols);
        assert(0 <= i < rows) by (nonlinear_arith)
            requires
                k == i * cols + j,
                0 <= j < cols,
                0 <= k < cols * rows,
                cols > 0,
        ;
        let kp = j * rows + i;
        vstd::arithmetic::div_mod::lemma_fundamental_div_mod_converse(kp, rows, j, i);
        lemma_index_bound(j, i, cols, rows);
        lemma_index_bound(i, j, rows, cols);
        assert(transpose_data(e, cols, rows)[k] == e[kp]);
        assert(cols * rows == rows * cols) by (nonlinear_arith);
        assert(transpose_data(d, rows, cols)[kp] == d[(kp % rows) * cols + kp / rows]);
        assert(e[kp] == d[i * cols + j]);
    }
    assert(cols * rows == rows * cols) by (nonlinear_arith);
    assert(transpose_data(e, cols, rows) =~= d);
}

/// Value of one uniform sample scaled into `[from, to)`: the draw `u` out of
/// `2^20` buckets.
pub open spec fn unit_sample(from: Rat, to: Rat, u: int) -> Rat {
    crate::scalar::rat_add(
        from,
        crate::scalar::rat_mul(crate::scalar::rat_sub(to, from), Rat { n: u, d: 1048576 }),
    )
}

/// Every entry of the buffer is some uniform draw scaled into `[from, to)`.
pub open spec fn sampled_data(d: Seq<Scalar>, from: Rat, to: Rat) -> bool {
    forall|k: int|
        0 <= k < d.len() ==> exists|u: int|
            0 <= u < 1048576 && (#[trigger] d[k])@ == unit_sample(from, to, u)
}

/// The random factory can fail only on representability: it succeeds exactly
/// when the width of the range and every one of the finitely many possible
/// sample values fit a 64-bit rational, independent of which draws come back.
pub open spec fn randn_feasible(from: Rat, to: Rat) -> bool {
    &&& crate::scalar::rat_fits(crate::scalar::rat_sub(to, from))
    &&& forall|u: int|
        0 <= u < 1048576 ==> crate::scalar::rat_fits(
            #[trigger] crate::scalar::rat_mul(
                crate::scalar::rat_sub(to, from),
                Rat { n: u, d: 1048576 },
            ),
        )
    &&& forall|u: int|
        0 <= u < 1048576 ==> crate::scalar::rat_fits(#[trigger] unit_sample(from, to, u))
}

/// Relies on `rand::thread_rng` and `Rng::gen_range`: a draw from a
/// non-empty half-open integer range is uniform and lies in that range.
#[verifier::external_body]
fn rand_below(bound: u64) -> (r: u64)
    requires
        1 <= bound,
    ensures
        r < bound,
{
    rand::Rng::gen_range(&mut rand::thread_rng(), 0..bound)
}

pub proof fn lemma_index_bound(i: int, j: int, r: int, c: int)
    by (nonlinear_arith)
    requires
        0 <= i < r,
        0 <= j < c,
    ensures
        0 <= i * c + j < r * c,
{
}

impl Matrix {
    pub open spec fn valid(self, g: Graph) -> bool {
        self.id < g.nodes@.len()
    }

    pub fn id(&self) -> (r: usize)
        ensures
            r == self.id,
    {
        self.id
    }

    pub fn shape(&self, g: &Graph) -> (r: (usize, usize))
        requires
            self.valid(*g),
        ensures
            r == g.nd(self.id as int).shape,
    {
        g.nodes[self.id].shape
    }

    pub fn op(&self, g: &Graph) -> (r: Option<Operator>)
        requires
            self.valid(*g),
        ensures
            r == g.nd(self.id as int).op,
    {
        g.nodes[self.id].op
    }

    pub fn requires_grad(&self, g: &Graph) -> (r: bool)
        requires
            self.valid(*g),
        ensures
            r == g.nd(self.id as int).with_grad,
    {
        g.nodes[self.id].with_grad
    }

    pub fn data<'a>(&self, g: &'a Graph) -> (r: &'a Vec<Scalar>)
        requires
            self.valid(*g),
        ensures
            r@ == g.nd(self.id as int).data@,
    {
        &g.nodes[self.id].data
    }

    pub fn get(&self, row_i: usize, col_j: usize, g: &Graph) -> (r: Scalar)
        requires
            self.valid(*g),
            g.wf(),
            row_i < g.nd(self.id as int).shape.0,
            col_j < g.nd(self.id as int).shape.1,
        ensures
            r == g.nd(self.id as int).data@[row_i * g.nd(self.id as int).shape.1 + col_j],
            r.wf(),
    {
        let nd = &g.nodes[self.id];
        // binding the buffer length gives the machine bound on the node's element count
        let n = nd.data.len();
        proof {
            assert(g.wf_at(self.id as int));
            lemma_index_bound(
                row_i as int,
                col_j as int,
                nd.shape.0 as int,
                nd.shape.1 as int,
            );
        }
        nd.data[row_i * nd.shape.1 + col_j]
    }

    /// Leaf factory: every entry is `value`.
    pub fn fill(shape: (usize, usize), value: Scalar, with_grad: bool, g: &mut Graph) -> (r:
        Matrix)
        requires
            old(g).wf(),
            value.wf(),
            sprod(shape) <= usize::MAX,
        ensures
            final(g).wf(),
            graph_extends(*final(g), *old(g)),
            final(g).node_count() == old(g).node_count() + 1,
            r.id == old(g).node_count(),
            final(g).nd(r.id as int).op is None,
            final(g).nd(r.id as int).shape == shape,
            final(g).nd(r.id as int).with_grad == with_grad,
            final(g).nd(r.id as int).data@.len() == sprod(shape),
            all_val(final(g).nd(r.id as int).data@, value@),
    {
        let total: usize = shape.0 * shape.1;
        let mut data: Vec<Scalar> = Vec::new();
        while data.len() < total
            invariant
                value.wf(),
                data@.len() <= total,
                all_val(data@, value@),
                data_wf(data@),
            decreases total - data@.len(),
        {
            data.push(value);
        }
        g.append_node(Node { data, shape, with_grad, op: None })
    }

    pub fn ones(shape: (usize, usize), with_grad: bool, g: &mut Graph) -> (r: Matrix)
        requires
            old(g).wf(),
            sprod(shape) <= usize::MAX,
        ensures
            final(g).wf(),
            graph_extends(*final(g), *old(g)),
            final(g).node_count() == old(g).node_count() + 1,
            r.id == old(g).node_count(),
            final(g).nd(r.id as int).op is None,
            final(g).nd(r.id as int).shape == shape,
            final(g).nd(r.id as int).with_grad == with_grad,
            final(g).nd(r.id as int).data@.len() == sprod(shape),
            all_val(final(g).nd(r.id as int).data@, rat_one()),
    {
        Matrix::fill(shape, Scalar::one(), with_grad, g)
    }

    pub fn zeros(shape: (usize, usize), with_grad: bool, g: &mut Graph) -> (r: Matrix)
        requires
            old(g).wf(),
            sprod(shape) <= usize::MAX,
        ensures
            final(g).wf(),
            graph_extends(*final(g), *old(g)),
            final(g).node_count() == old(g).node_count() + 1,
            r.id == old(g).node_count(),
            final(g).nd(r.id as int).op is None,
            final(g).nd(r.id as int).shape == shape,
            final(g).nd(r.id as int).with_grad == with_grad,
            final(g).nd(r.id as int).data@.len() == sprod(shape),
            all_val(final(g).nd(r.id as int).data@, rat_zero()),
    {
        Matrix::fill(shape, Scalar::zero(), with_grad, g)
    }

    /// Leaf factory from a flat row-major buffer; rejects a buffer whose
    /// length does not match the shape.
    pub fn from_vec(data: Vec<Scalar>, shape: (usize, usize), with_grad: bool, g: &mut Graph)
        -> (r: Result<Matrix, MatrixError>)
        requires
            old(g).wf(),
            data_wf(data@),
        ensures
            match r {
                Ok(m) => {
                    &&& data@.len() == sprod(shape)
                    &&& final(g).wf()
                    &&& graph_extends(*final(g), *old(g))
                    &&& final(g).node_count() == old(g).node_count() + 1
                    &&& m.id == old(g).node_count()
                    &&& final(g).nd(m.id as int).op is None
                    &&& final(g).nd(m.id as int).shape == shape
                    &&& final(g).nd(m.id as int).with_grad == with_grad
                    &&& final(g).nd(m.id as int).data@ == data@
                },
                Err(e) => {
                    &&& data@.len() != sprod(shape)
                    &&& e is ShapeMismatchError
                    &&& *final(g) == *old(g)
                },
            },
    {
        let total = shape.0.checked_mul(shape.1);
        let matches_shape = match total {
            Some(t) => data.len() == t,
            None => false,
        };
        if !matches_shape {
            return Err(
                MatrixError::ShapeMismatchError {
                    a_shape: shape,
                    b_shape: (data.len(), 1),
                    op: "from_vec".to_owned(),
                },
            );
        }
        Ok(g.append_node(Node { data, shape, with_grad, op: None }))
    }

    /// Detachment: a fresh leaf with the same data, shape and gradient flag
    /// but no provenance, so a later reverse pass stops here.
    pub fn no_history(&self, g: &mut Graph) -> (r: Matrix)
        requires
            old(g).wf(),
            self.valid(*old(g)),
        ensures
            final(g).wf(),
            graph_extends(*final(g), *old(g)),
            final(g).node_count() == old(g).node_count() + 1,
            r.id == old(g).node_count(),
            final(g).nd(r.id as int).op is None,
            final(g).nd(r.id as int).shape == old(g).nd(self.id as int).shape,
            final(g).nd(r.id as int).with_grad == old(g).nd(self.id as int).with_grad,
            final(g).nd(r.id as int).data@ == old(g).nd(self.id as int).data@,
    {
        let nd = &g.nodes[self.id];
        let data = nd.data.clone();
        let shape = nd.shape;
        let with_grad = nd.with_grad;
        proof {
            assert(g.wf_at(self.id as int));
        }
        g.append_node(Node { data, shape, with_grad, op: None })
    }

    /// Transpose: swaps the shape and materializes the row-major buffer of
    /// the new shape.
    pub fn t(&self, g: &mut Graph) -> (r: Matrix)
        requires
            old(g).wf(),
            self.valid(*old(g)),
        ensures
            final(g).wf(),
            graph_extends(*final(g), *old(g)),
            final(g).node_count() == old(g).node_count() + 1,
            r.id == old(g).node_count(),
            final(g).nd(r.id as int).op == Some(Operator::Unary(*self, UnaryOpType::Transpose)),
            final(g).nd(r.id as int).shape == ((
                old(g).nd(self.id as int).shape.1,
                old(g).nd(self.id as int).shape.0,
            )),
            final(g).nd(r.id as int).with_grad == old(g).nd(self.id as int).with_grad,
            final(g).nd(r.id as int).data@ == transpose_data(
                old(g).nd(self.id as int).data@,
                old(g).nd(self.id as int).shape.0 as int,
                old(g).nd(self.id as int).shape.1 as int,
            ),
    {
        let shape = g.nodes[self.id].shape;
        let rows = shape.0;
        let cols = shape.1;
        let with_grad = g.nodes[self.id].with_grad;
        let ghost d0 = g.nd(self.id as int).data@;
        let ghost target = transpose_data(d0, rows as int, cols as int);
        let mut data: Vec<Scalar> = Vec::new();
        let mut j: usize = 0;
        proof {
            assert(g.wf_at(self.id as int));
        }
        while j < cols
            invariant
                *g == *old(g),
                g.wf(),
                self.valid(*g),
                shape == g.nd(self.id as int).shape,
                rows == shape.0,
                cols == shape.1,
                d0 == g.nd(self.id as int).data@,
                target == transpose_data(d0, rows as int, cols as int),
                j <= cols,
                data@.len() == j * rows,
                data_wf(data@),
                forall|k: int| 0 <= k < data@.len() ==> data@[k] == target[k],
            decreases cols - j,
        {
            let mut i: usize = 0;
            while i < rows
                invariant
                    *g == *old(g),
                    g.wf(),
                    self.valid(*g),
                    shape == g.nd(self.id as int).shape,
                    rows == shape.0,
                    cols == shape.1,
                    d0 == g.nd(self.id as int).data@,
                    target == transpose_data(d0, rows as int, cols as int),
                    j < cols,
                    i <= rows,
                    data@.len() == j * rows + i,
                    data_wf(data@),
                    forall|k: int| 0 <= k < data@.len() ==> data@[k] == target[k],
                decreases rows - i,
            {
                let v = self.get(i, j, g);
                proof {
                    let k = data@.len() as int;
                    vstd::arithmetic::div_mod::lemma_fundamental_div_mod_converse(
                        k,
                        rows as int,
                        j as int,
                        i as int,
                    );
                    lemma_index_bound(j as int, i as int, cols as int, rows as int);
                    lemma_index_bound(i as int, j as int, rows as int, cols as int);
                    assert(target[k] == d0[(i as int) * (cols as int) + (j as int)]);
                }
                data.push(v);
                i = i + 1;
            }
            j = j + 1;
            proof {
                assert((j - 1) * (rows as int) + rows == (j as int) * (rows as int))
                    by (nonlinear_arith);
            }
        }
        proof {
            assert((cols as int) * (rows as int) == sprod((cols, rows))) by (nonlinear_arith);
            assert(data@ =~= target);
        }
        g.append_node(
            Node {
                data,
                shape: (cols, rows),
                with_grad,
                op: Some(Operator::Unary(*self, UnaryOpType::Transpose)),
            },
        )
    }

    /// Materialized broadcast into `target` per the stretch rule; errors on a
    /// target the source shape cannot reach.
    pub fn broadcast_as(&self, target: (usize, usize), g: &mut Graph) -> (r: Result<
        Matrix,
        MatrixError,
    >)
        requires
            old(g).wf(),
            self.valid(*old(g)),
        ensures
            match r {
                Ok(m) => {
                    &&& spec_bcast_ok(old(g).nd(self.id as int).shape, target)
                    &&& final(g).wf()
                    &&& graph_extends(*final(g), *old(g))
                    &&& final(g).node_count() == old(g).node_count() + 1
                    &&& m.id == old(g).node_count()
                    &&& final(g).nd(m.id as int).op == Some(
                        Operator::Unary(*self, UnaryOpType::Broadcast),
                    )
                    &&& final(g).nd(m.id as int).shape == target
                    &&& final(g).nd(m.id as int).with_grad == old(g).nd(
                        self.id as int,
                    ).with_grad
                    &&& final(g).nd(m.id as int).data@ == bcast_data(
                        old(g).nd(self.id as int).data@,
                        old(g).nd(self.id as int).shape,
                        target,
                    )
                },
                Err(e) => {
                    &&& !spec_bcast_ok(old(g).nd(self.id as int).shape, target)
                    &&& e matches MatrixError::BroadCastError { got_shape, expected_shape }
                        && got_shape == old(g).nd(self.id as int).shape && expected_shape
                        == target
                    &&& *final(g) == *old(g)
                },
            },
    {
        let shape = g.nodes[self.id].shape;
        let single = shape.0 == 1 && shape.1 == 1;
        let row_ok = shape.0 == 1 && target.1 == shape.1;
        let col_ok = shape.1 == 1 && target.0 == shape.0;
        if !(single || row_ok || col_ok) {
            return Err(
                MatrixError::BroadCastError { got_shape: shape, expected_shape: target },
            );
        }
        let with_grad = g.nodes[self.id].with_grad;
        let ghost d0 = g.nd(self.id as int).data@;
        let ghost spec_out = bcast_data(d0, shape, target);
        let mut data: Vec<Scalar> = Vec::new();
        let mut i: usize = 0;
        proof {
            assert(g.wf_at(self.id as int));
        }
        while i < target.0
            invariant
                *g == *old(g),
                g.wf(),
                self.valid(*g),
                shape == g.nd(self.id as int).shape,
                spec_bcast_ok(shape, target),
                d0 == g.nd(self.id as int).data@,
                spec_out == bcast_data(d0, shape, target),
                i <= target.0,
                data@.len() == i * target.1,
                data_wf(data@),
                forall|k: int| 0 <= k < data@.len() ==> data@[k] == spec_out[k],
            decreases target.0 - i,
        {
            let mut j: usize = 0;
            while j < target.1
                invariant
                    *g == *old(g),
                    g.wf(),
                    self.valid(*g),
                    shape == g.nd(self.id as int).shape,
                    spec_bcast_ok(shape, target),
                    d0 == g.nd(self.id as int).data@,
                    spec_out == bcast_data(d0, shape, target),
                    i < target.0,
                    j <= target.1,
                    data@.len() == i * target.1 + j,
                    data_wf(data@),
                    forall|k: int| 0 <= k < data@.len() ==> data@[k] == spec_out[k],
                decreases target.1 - j,
            {
                let si: usize = if shape.0 == 1 {
                    0
                } else {
                    i
                };
                let sj: usize = if shape.1 == 1 {
                    0
                } else {
                    j
                };
                let v = self.get(si, sj, g);
                proof {
                    let k = data@.len() as int;
                    vstd::arithmetic::div_mod::lemma_fundamental_div_mod_converse(
                        k,
                        target.1 as int,
                        i as int,
                        j as int,
                    );
                    lemma_index_bound(i as int, j as int, target.0 as int, target.1 as int);
                    assert(spec_out[k] == d0[bcast_src(shape, target, k)]);
                }
                data.push(v);
                j = j + 1;
            }
            i = i + 1;
            proof {
                assert((i - 1) * (target.1 as int) + target.1 == (i as int) * (target.1 as int))
                    by (nonlinear_arith);
            }
        }
        proof {
            assert(data@ =~= spec_out);
        }
        Ok(
            g.append_node(
                Node {
                    data,
                    shape: target,
                    with_grad,
                    op: Some(Operator::Unary(*self, UnaryOpType::Broadcast)),
                },
            ),
        )
    }

    /// Elementwise worker shared by the four binary operations: resolves the
    /// broadcast shape, materializes the stretched operands, and combines
    /// them entry by entry.
    fn binary_ew(
        &self,
        other: &Self,
        op: BinaryOpType,
        opname: &'static str,
        g: &mut Graph,
    ) -> (r: Result<Matrix, MatrixError>)
        requires
            old(g).wf(),
            self.valid(*old(g)),
            other.valid(*old(g)),
            op != BinaryOpType::MatMul,
        ensures
            ew_post(*old(g), *final(g), *self, *other, op, opname@, r),
    {
        let ash = self.shape(g);
        let bsh = other.shape(g);
        let sh = Matrix::broadcast_shape(ash, bsh);
        let both_empty = ash.0 == 0 && ash.1 == 0 && bsh.0 == 0 && bsh.1 == 0;
        if sh.0 == 0 && sh.1 == 0 && !both_empty {
            return Err(
                MatrixError::ShapeMismatchError {
                    a_shape: ash,
                    b_shape: bsh,
                    op: opname.to_owned(),
                },
            );
        }
        proof {
            lemma_compat_sides(ash, bsh);
        }
        let ghost la = expanded_view(*old(g), *self, sh);
        let ghost rb = expanded_view(*old(g), *other, sh);
        let lhs = if ash.0 == sh.0 && ash.1 == sh.1 {
            *self
        } else {
            match self.broadcast_as(sh, g) {
                Ok(m) => m,
                Err(_) => {
                    proof {
                        assert(false);
                    }
                    return Err(MatrixError::OverflowError);
                },
            }
        };
        let rhs = if bsh.0 == sh.0 && bsh.1 == sh.1 {
            *other
        } else {
            match other.broadcast_as(sh, g) {
                Ok(m) => m,
                Err(_) => {
                    proof {
                        assert(false);
                    }
                    return Err(MatrixError::OverflowError);
                },
            }
        };
        proof {
            assert(g.nd(lhs.id as int).data@ == la);
            assert(g.nd(rhs.id as int).data@ == rb);
            assert(g.wf_at(lhs.id as int));
            assert(g.wf_at(rhs.id as int));
        }
        let lwg = lhs.requires_grad(g);
        let rwg = rhs.requires_grad(g);
        let ld = lhs.data(g);
        let rd = rhs.data(g);
        let out = match ew_data(ld, rd, op) {
            Ok(d) => d,
            Err(e) => {
                proof {
                    assert(graph_extends(*g, *old(g)));
                    if e is DivisionByZeroError {
                        let k0 = choose|k: int|
                            0 <= k < rd@.len() && (#[trigger] rd@[k])@.n == 0;
                        assert(0 <= k0 < rb.len() && rb[k0]@.n == 0);
                    }
                }
                return Err(e);
            },
        };
        proof {
            if op == BinaryOpType::Div {
                assert forall|k: int|
                    0 <= k < g.nd(rhs.id as int).data@.len() implies (#[trigger] g.nd(
                    rhs.id as int,
                ).data@[k])@.n != 0 by {
                    let bk = g.nd(rhs.id as int).data@[k];
                    assert(crate::scalar::rat_fits(rat_bop(op, la[k]@, bk@)));
                    if bk@.n == 0 {
                        assert(crate::scalar::rat_div(la[k]@, bk@).d == la[k]@.d * 0);
                    }
                }
            }
        }
        Ok(
            g.append_node(
                Node {
                    data: out,
                    shape: sh,
                    with_grad: lwg || rwg,
                    op: Some(Operator::Binary(lhs, rhs, op)),
                },
            ),
        )
    }

    /// Elementwise addition with broadcasting.
    pub fn add(&self, other: &Self, g: &mut Graph) -> (r: Result<Matrix, MatrixError>)
        requires
            old(g).wf(),
            self.valid(*old(g)),
            other.valid(*old(g)),
        ensures
            ew_post(*old(g), *final(g), *self, *other, BinaryOpType::Add, "add"@, r),
    {
        self.binary_ew(other, BinaryOpType::Add, "add", g)
    }

    /// Elementwise subtraction with broadcasting.
    pub fn sub(&self, other: &Self, g: &mut Graph) -> (r: Result<Matrix, MatrixError>)
        requires
            old(g).wf(),
            self.valid(*old(g)),
            other.valid(*old(g)),
        ensures
            ew_post(*old(g), *final(g), *self, *other, BinaryOpType::Sub, "sub"@, r),
    {
        self.binary_ew(other, BinaryOpType::Sub, "sub", g)
    }

    /// Elementwise multiplication with broadcasting.
    pub fn mul(&self, other: &Self, g: &mut Graph) -> (r: Result<Matrix, MatrixError>)
        requires
            old(g).wf(),
            self.valid(*old(g)),
            other.valid(*old(g)),
        ensures
            ew_post(*old(g), *final(g), *self, *other, BinaryOpType::Mul, "mul"@, r),
    {
        self.binary_ew(other, BinaryOpType::Mul, "mul", g)
    }

    /// Elementwise division with broadcasting; a zero entry in the divisor is
    /// reported, never evaluated.
    pub fn div(&self, other: &Self, g: &mut Graph) -> (r: Result<Matrix, MatrixError>)
        requires
            old(g).wf(),
            self.valid(*old(g)),
            other.valid(*old(g)),
        ensures
            ew_post(*old(g), *final(g), *self, *other, BinaryOpType::Div, "div"@, r),
    {
        self.binary_ew(other, BinaryOpType::Div, "div", g)
    }

    /// Dense matrix product. No broadcasting: the inner dimensions must
    /// agree exactly.
    pub fn matmul(&self, other: &Self, g: &mut Graph) -> (r: Result<Matrix, MatrixError>)
        requires
            old(g).wf(),
            self.valid(*old(g)),
            other.valid(*old(g)),
        ensures
            ({
                let ash = old(g).nd(self.id as int).shape;
                let bsh = old(g).nd(other.id as int).shape;
                let ad = old(g).nd(self.id as int).data@;
                let bd = old(g).nd(other.id as int).data@;
                match r {
                    Ok(m) => {
                        &&& ash.1 == bsh.0
                        &&& final(g).wf()
                        &&& graph_extends(*final(g), *old(g))
                        &&& final(g).node_count() == old(g).node_count() + 1
                        &&& m.id == old(g).node_count()
                        &&& final(g).nd(m.id as int).shape == ((ash.0, bsh.1))
                        &&& final(g).nd(m.id as int).with_grad == (old(g).nd(
                            self.id as int,
                        ).with_grad || old(g).nd(other.id as int).with_grad)
                        &&& final(g).nd(m.id as int).op == Some(
                            Operator::Binary(*self, *other, BinaryOpType::MatMul),
                        )
                        &&& final(g).nd(m.id as int).data@.len() == sprod((ash.0, bsh.1))
                        &&& mm_ok(ad, bd, ash.0 as int, ash.1 as int, bsh.1 as int)
                        &&& forall|i: int, j: int|
                            0 <= i < ash.0 && 0 <= j < bsh.1 ==> (#[trigger] final(g).nd(
                                m.id as int,
                            ).data@[i * bsh.1 + j])@ == dot_partial(
                                ad,
                                bd,
                                ash.1 as int,
                                bsh.1 as int,
                                i,
                                j,
                                ash.1 as int,
                            )
                    },
                    Err(e) => {
                        &&& *final(g) == *old(g)
                        &&& match e {
                            MatrixError::ShapeMismatchError { a_shape, b_shape, op } => {
                                &&& ash.1 != bsh.0
                                &&& a_shape == ash
                                &&& b_shape == bsh
                                &&& op@ == "matmul"@
                            },
                            MatrixError::OverflowError => ash.1 == bsh.0 && !mm_ok(
                                ad,
                                bd,
                                ash.0 as int,
                                ash.1 as int,
                                bsh.1 as int,
                            ),
                            _ => false,
                        }
                    },
                }
            }),
    {
        let ash = self.shape(g);
        let bsh = other.shape(g);
        if ash.1 != bsh.0 {
            return Err(
                MatrixError::ShapeMismatchError {
                    a_shape: ash,
                    b_shape: bsh,
                    op: "matmul".to_owned(),
                },
            );
        }
        let m = ash.0;
        let kk = ash.1;
        let n = bsh.1;
        let ghost ad = g.nd(self.id as int).data@;
        let ghost bd = g.nd(other.id as int).data@;
        let awg = self.requires_grad(g);
        let bwg = other.requires_grad(g);
        let mut data: Vec<Scalar> = Vec::new();
        let mut i: usize = 0;
        while i < m
            invariant
                *g == *old(g),
                g.wf(),
                self.valid(*g),
                other.valid(*g),
                ash == g.nd(self.id as int).shape,
                bsh == g.nd(other.id as int).shape,
                ash.1 == bsh.0,
                m == ash.0,
                kk == ash.1,
                n == bsh.1,
                ad == g.nd(self.id as int).data@,
                bd == g.nd(other.id as int).data@,
                i <= m,
                data@.len() == i * n,
                data_wf(data@),
                mm_ok_upto(ad, bd, kk as int, n as int, i as int, 0),
                forall|ii: int, jj: int|
                    0 <= ii < i && 0 <= jj < n ==> (#[trigger] data@[ii * n + jj])@
                        == dot_partial(ad, bd, kk as int, n as int, ii, jj, kk as int),
            decreases m - i,
        {
            let mut j: usize = 0;
            while j < n
                invariant
                    *g == *old(g),
                    g.wf(),
                    self.valid(*g),
                    other.valid(*g),
                    ash == g.nd(self.id as int).shape,
                    bsh == g.nd(other.id as int).shape,
                    ash.1 == bsh.0,
                    m == ash.0,
                    kk == ash.1,
                    n == bsh.1,
                    ad == g.nd(self.id as int).data@,
                    bd == g.nd(other.id as int).data@,
                    i < m,
                    j <= n,
                    data@.len() == i * n + j,
                    data_wf(data@),
                    mm_ok_upto(ad, bd, kk as int, n as int, i as int, j as int),
                    forall|ii: int, jj: int|
                        0 <= ii < i && 0 <= jj < n ==> (#[trigger] data@[ii * n + jj])@
                            == dot_partial(ad, bd, kk as int, n as int, ii, jj, kk as int),
                    forall|jj: int|
                        0 <= jj < j ==> (#[trigger] data@[i * n + jj])@ == dot_partial(
                            ad,
                            bd,
                            kk as int,
                            n as int,
                            i as int,
                            jj,
                            kk as int,
                        ),
                decreases n - j,
            {
                let mut acc = Scalar::zero();
                let mut k: usize = 0;
                while k < kk
                    invariant
                        *g == *old(g),
                        g.wf(),
                        self.valid(*g),
                        other.valid(*g),
                        ash == g.nd(self.id as int).shape,
                        bsh == g.nd(other.id as int).shape,
                        ash.1 == bsh.0,
                        m == ash.0,
                        kk == ash.1,
                        n == bsh.1,
                        ad == g.nd(self.id as int).data@,
                        bd == g.nd(other.id as int).data@,
                        i < m,
                        j < n,
                        k <= kk,
                        acc.wf(),
                        acc@ == dot_partial(ad, bd, kk as int, n as int, i as int, j as int, k as int),
                        forall|k2: int|
                            0 <= k2 < k ==> crate::scalar::rat_fits(
                                #[trigger] crate::scalar::rat_mul(
                                    ad[(i as int) * (kk as int) + k2]@,
                                    bd[k2 * (n as int) + (j as int)]@,
                                ),
                            ),
                        forall|k2: int|
                            0 <= k2 < k ==> crate::scalar::rat_fits(
                                #[trigger] dot_partial(
                                    ad,
                                    bd,
                                    kk as int,
                                    n as int,
                                    i as int,
                                    j as int,
                                    k2 + 1,
                                ),
                            ),
                    decreases kk - k,
                {
                    let av = self.get(i, k, g);
                    let bv = other.get(k, j, g);
                    let prod = match av.mul(&bv) {
                        Some(p) => p,
                        None => {
                            proof {
                                assert(!crate::scalar::rat_fits(
                                    crate::scalar::rat_mul(
                                        ad[(i as int) * (kk as int) + (k as int)]@,
                                        bd[(k as int) * (n as int) + (j as int)]@,
                                    ),
                                ));
                                assert(!mm_ok(ad, bd, m as int, kk as int, n as int));
                            }
                            return Err(MatrixError::OverflowError);
                        },
                    };
                    let nacc = match acc.add(&prod) {
                        Some(s) => s,
                        None => {
                            proof {
                                assert(dot_partial(
                                    ad,
                                    bd,
                                    kk as int,
                                    n as int,
                                    i as int,
                                    j as int,
                                    k as int + 1,
                                ) == crate::scalar::rat_add(acc@, prod@));
                                assert(!mm_ok(ad, bd, m as int, kk as int, n as int));
                            }
                            return Err(MatrixError::OverflowError);
                        },
                    };
                    proof {
                        assert(dot_partial(
                            ad,
                            bd,
                            kk as int,
                            n as int,
                            i as int,
                            j as int,
                            k as int + 1,
                        ) == crate::scalar::rat_add(acc@, prod@));
                        assert(crate::scalar::rat_fits(prod@));
                        assert(crate::scalar::rat_fits(nacc@));
                    }
                    acc = nacc;
                    k = k + 1;
                }
                proof {
                    assert forall|ii: int, jj: int, k2: int|
                        0 <= ii && 0 <= jj < n && 0 <= k2 < kk && (ii < i || (ii == i && jj < j
                            + 1)) implies crate::scalar::rat_fits(
                        #[trigger] crate::scalar::rat_mul(
                            ad[ii * (kk as int) + k2]@,
                            bd[k2 * (n as int) + jj]@,
                        ),
                    ) by {
                        if !(ii == i && jj == j) {
                            assert(crate::scalar::rat_fits(
                                crate::scalar::rat_mul(
                                    ad[ii * (kk as int) + k2]@,
                                    bd[k2 * (n as int) + jj]@,
                                ),
                            ));
                        }
                    }
                    assert forall|ii: int, jj: int, k2: int|
                        0 <= ii && 0 <= jj < n && 0 <= k2 < kk && (ii < i || (ii == i && jj < j
                            + 1)) implies crate::scalar::rat_fits(
                        #[trigger] dot_partial(ad, bd, kk as int, n as int, ii, jj, k2 + 1),
                    ) by {
                        if !(ii == i && jj == j) {
                            assert(crate::scalar::rat_fits(
                                dot_partial(ad, bd, kk as int, n as int, ii, jj, k2 + 1),
                            ));
                        }
                    }
                    assert(mm_ok_upto(ad, bd, kk as int, n as int, i as int, j as int + 1));
                }
                data.push(acc);
                proof {
                    assert forall|ii: int, jj: int|
                        0 <= ii < i && 0 <= jj < n implies (#[trigger] data@[ii * n + jj])@
                        == dot_partial(ad, bd, kk as int, n as int, ii, jj, kk as int) by {
                        lemma_index_bound(ii, jj, i as int, n as int);
                    }
                }
                j = j + 1;
            }
            proof {
                assert(mm_ok_upto(ad, bd, kk as int, n as int, i as int + 1, 0));
                assert((i as int) * (n as int) + n == (i as int + 1) * (n as int))
                    by (nonlinear_arith);
            }
            i = i + 1;
        }
        proof {
            assert(mm_ok(ad, bd, m as int, kk as int, n as int));
            assert((m as int) * (n as int) == sprod((m, n)));
        }
        Ok(
            g.append_node(
                Node {
                    data,
                    shape: (m, n),
                    with_grad: awg || bwg,
                    op: Some(Operator::Binary(*self, *other, BinaryOpType::MatMul)),
                },
            ),
        )
    }

    /// Elementwise multiplication by a plain scalar. The shape and the
    /// gradient flag are inherited from the operand.
    pub fn mul_scalar(&self, other: Scalar, g: &mut Graph) -> (r: Result<Matrix, MatrixError>)
        requires
            old(g).wf(),
            self.valid(*old(g)),
            other.wf(),
        ensures
            ({
                let d0 = old(g).nd(self.id as int).data@;
                match r {
                    Ok(m) => {
                        &&& final(g).wf()
                        &&& graph_extends(*final(g), *old(g))
                        &&& final(g).node_count() == old(g).node_count() + 1
                        &&& m.id == old(g).node_count()
                        &&& final(g).nd(m.id as int).shape == old(g).nd(self.id as int).shape
                        &&& final(g).nd(m.id as int).with_grad == old(g).nd(
                            self.id as int,
                        ).with_grad
                        &&& final(g).nd(m.id as int).op == Some(
                            Operator::BinaryScalar(*self, other, BinaryScalarOpType::MulScalar),
                        )
                        &&& final(g).nd(m.id as int).data@.len() == d0.len()
                        &&& forall|k: int|
                            0 <= k < d0.len() ==> crate::scalar::rat_fits(
                                #[trigger] crate::scalar::rat_mul(d0[k]@, other@),
                            )
                        &&& forall|k: int|
                            0 <= k < d0.len() ==> (#[trigger] final(g).nd(
                                m.id as int,
                            ).data@[k])@ == crate::scalar::rat_mul(d0[k]@, other@)
                    },
                    Err(e) => {
                        &&& e is OverflowError
                        &&& !(forall|k: int|
                            0 <= k < d0.len() ==> crate::scalar::rat_fits(
                                #[trigger] crate::scalar::rat_mul(d0[k]@, other@),
                            ))
                        &&& *final(g) == *old(g)
                    },
                }
            }),
    {
        let ghost d0 = g.nd(self.id as int).data@;
        let shape = g.nodes[self.id].shape;
        let with_grad = g.nodes[self.id].with_grad;
        proof {
            assert(g.wf_at(self.id as int));
        }
        let src = &g.nodes[self.id].data;
        let len = src.len();
        let mut out: Vec<Scalar> = Vec::new();
        let mut k: usize = 0;
        while k < len
            invariant
                *g == *old(g),
                self.valid(*g),
                d0 == g.nd(self.id as int).data@,
                data_wf(d0),
                other.wf(),
                d0 == src@,
                len == d0.len(),
                k <= len,
                out@.len() == k,
                data_wf(out@),
                forall|k2: int|
                    0 <= k2 < k ==> crate::scalar::rat_fits(
                        #[trigger] crate::scalar::rat_mul(d0[k2]@, other@),
                    ),
                forall|k2: int|
                    0 <= k2 < k ==> (#[trigger] out@[k2])@ == crate::scalar::rat_mul(
                        d0[k2]@,
                        other@,
                    ),
            decreases len - k,
        {
            match src[k].mul(&other) {
                Some(q) => {
                    out.push(q);
                },
                None => {
                    proof {
                        assert(!crate::scalar::rat_fits(
                            crate::scalar::rat_mul(d0[k as int]@, other@),
                        ));
                        assert(d0 == old(g).nd(self.id as int).data@);
                        assert(!(forall|k2: int|
                            0 <= k2 < old(g).nd(self.id as int).data@.len()
                                ==> crate::scalar::rat_fits(
                                #[trigger] crate::scalar::rat_mul(
                                    old(g).nd(self.id as int).data@[k2]@,
                                    other@,
                                ),
                            )));
                    }
                    return Err(MatrixError::OverflowError);
                },
            }
            k = k + 1;
        }
        let h = g.append_node(
            Node {
                data: out,
                shape,
                with_grad,
                op: Some(Operator::BinaryScalar(*self, other, BinaryScalarOpType::MulScalar)),
            },
        );
        proof {
            assert forall|k2: int| 0 <= k2 < d0.len() implies (#[trigger] g.nd(
                h.id as int,
            ).data@[k2])@ == crate::scalar::rat_mul(d0[k2]@, other@) by {
                assert(g.nd(h.id as int).data@[k2] == out@[k2]);
            }
        }
        Ok(h)
    }

    /// Elementwise power with a plain non-negative integer exponent.
    pub fn powf(&self, p: u32, g: &mut Graph) -> (r: Result<Matrix, MatrixError>)
        requires
            old(g).wf(),
            self.valid(*old(g)),
        ensures
            ({
                let d0 = old(g).nd(self.id as int).data@;
                match r {
                    Ok(m) => {
                        &&& final(g).wf()
                        &&& graph_extends(*final(g), *old(g))
                        &&& final(g).node_count() == old(g).node_count() + 1
                        &&& m.id == old(g).node_count()
                        &&& final(g).nd(m.id as int).shape == old(g).nd(self.id as int).shape
                        &&& final(g).nd(m.id as int).with_grad == old(g).nd(
                            self.id as int,
                        ).with_grad
                        &&& match final(g).nd(m.id as int).op {
                            Some(Operator::BinaryScalar(mm, s, st)) => {
                                &&& mm == *self
                                &&& st == BinaryScalarOpType::Powf
                                &&& s@ == (Rat { n: p as int, d: 1 })
                            },
                            _ => false,
                        }
                        &&& final(g).nd(m.id as int).data@.len() == d0.len()
                        &&& pow_all_ok(d0, p as nat)
                        &&& forall|k: int|
                            0 <= k < d0.len() ==> (#[trigger] final(g).nd(
                                m.id as int,
                            ).data@[k])@ == crate::scalar::rat_pow(d0[k]@, p as nat)
                    },
                    Err(e) => {
                        &&& e is OverflowError
                        &&& !pow_all_ok(d0, p as nat)
                        &&& *final(g) == *old(g)
                    },
                }
            }),
    {
        let ghost d0 = g.nd(self.id as int).data@;
        let shape = g.nodes[self.id].shape;
        let with_grad = g.nodes[self.id].with_grad;
        proof {
            assert(g.wf_at(self.id as int));
        }
        let src = &g.nodes[self.id].data;
        let len = src.len();
        let mut out: Vec<Scalar> = Vec::new();
        let mut k: usize = 0;
        while k < len
            invariant
                *g == *old(g),
                self.valid(*g),
                d0 == g.nd(self.id as int).data@,
                data_wf(d0),
                d0 == src@,
                len == d0.len(),
                k <= len,
                out@.len() == k,
                data_wf(out@),
                forall|k2: int, j: nat|
                    0 <= k2 < k && 1 <= j <= p ==> crate::scalar::rat_fits(
                        #[trigger] crate::scalar::rat_pow(d0[k2]@, j),
                    ),
                forall|k2: int|
                    0 <= k2 < k ==> (#[trigger] out@[k2])@ == crate::scalar::rat_pow(
                        d0[k2]@,
                        p as nat,
                    ),
            decreases len - k,
        {
            let element = src[k];
            match element.pow(p) {
                Some(q) => {
                    out.push(q);
                },
                None => {
                    proof {
                        let j0 = choose|j: nat|
                            1 <= j <= p && !crate::scalar::rat_fits(
                                #[trigger] crate::scalar::rat_pow(element@, j),
                            );
                        assert(element@ == d0[k as int]@);
                        assert(!crate::scalar::rat_fits(crate::scalar::rat_pow(d0[k as int]@, j0)));
                        assert(d0 == old(g).nd(self.id as int).data@);
                        assert(!pow_all_ok(old(g).nd(self.id as int).data@, p as nat));
                    }
                    return Err(MatrixError::OverflowError);
                },
            }
            k = k + 1;
        }
        let exponent = Scalar::new(p as i64, 1);
        let h = g.append_node(
            Node {
                data: out,
                shape,
                with_grad,
                op: Some(Operator::BinaryScalar(*self, exponent, BinaryScalarOpType::Powf)),
            },
        );
        proof {
            assert forall|k2: int| 0 <= k2 < d0.len() implies (#[trigger] g.nd(
                h.id as int,
            ).data@[k2])@ == crate::scalar::rat_pow(d0[k2]@, p as nat) by {
                assert(g.nd(h.id as int).data@[k2] == out@[k2]);
            }
        }
        Ok(h)
    }

    /// Elementwise sigmoid: the exact algebraic logistic surrogate of
    /// `rat_sigmoid`.
    pub fn sigmoid(&self, g: &mut Graph) -> (r: Result<Matrix, MatrixError>)
        requires
            old(g).wf(),
            self.valid(*old(g)),
        ensures
            ({
                let d0 = old(g).nd(self.id as int).data@;
                match r {
                    Ok(m) => {
                        &&& final(g).wf()
                        &&& graph_extends(*final(g), *old(g))
                        &&& final(g).node_count() == old(g).node_count() + 1
                        &&& m.id == old(g).node_count()
                        &&& final(g).nd(m.id as int).shape == old(g).nd(self.id as int).shape
                        &&& final(g).nd(m.id as int).with_grad == old(g).nd(
                            self.id as int,
                        ).with_grad
                        &&& final(g).nd(m.id as int).op == Some(
                            Operator::Unary(*self, UnaryOpType::Sigmoid),
                        )
                        &&& final(g).nd(m.id as int).data@.len() == d0.len()
                        &&& forall|k: int|
                            0 <= k < d0.len() ==> (#[trigger] final(g).nd(
                                m.id as int,
                            ).data@[k])@ == crate::scalar::rat_sigmoid(d0[k]@)
                    },
                    Err(e) => {
                        &&& e is OverflowError
                        &&& !(forall|k: int|
                            0 <= k < d0.len() ==> crate::scalar::rat_fits(
                                #[trigger] crate::scalar::rat_sigmoid(d0[k]@),
                            ))
                        &&& *final(g) == *old(g)
                    },
                }
            }),
    {
        let ghost d0 = g.nd(self.id as int).data@;
        let shape = g.nodes[self.id].shape;
        let with_grad = g.nodes[self.id].with_grad;
        proof {
            assert(g.wf_at(self.id as int));
        }
        let src = &g.nodes[self.id].data;
        let len = src.len();
        let mut out: Vec<Scalar> = Vec::new();
        let mut k: usize = 0;
        while k < len
            invariant
                *g == *old(g),
                self.valid(*g),
                d0 == g.nd(self.id as int).data@,
                data_wf(d0),
                d0 == src@,
                len == d0.len(),
                k <= len,
                out@.len() == k,
                data_wf(out@),
                forall|k2: int|
                    0 <= k2 < k ==> (#[trigger] out@[k2])@ == crate::scalar::rat_sigmoid(d0[k2]@),
            decreases len - k,
        {
            match src[k].sigmoid() {
                Some(q) => {
                    out.push(q);
                },
                None => {
                    proof {
                        assert(!crate::scalar::rat_fits(crate::scalar::rat_sigmoid(d0[k as int]@)));
                        assert(d0 == old(g).nd(self.id as int).data@);
                        assert(!(forall|k2: int|
                            0 <= k2 < old(g).nd(self.id as int).data@.len()
                                ==> crate::scalar::rat_fits(
                                #[trigger] crate::scalar::rat_sigmoid(
                                    old(g).nd(self.id as int).data@[k2]@,
                                ),
                            )));
                    }
                    return Err(MatrixError::OverflowError);
                },
            }
            k = k + 1;
        }
        let h = g.append_node(
            Node {
                data: out,
                shape,
                with_grad,
                op: Some(Operator::Unary(*self, UnaryOpType::Sigmoid)),
            },
        );
        proof {
            assert forall|k2: int| 0 <= k2 < d0.len() implies (#[trigger] g.nd(
                h.id as int,
            ).data@[k2])@ == crate::scalar::rat_sigmoid(d0[k2]@) by {
                assert(g.nd(h.id as int).data@[k2] == out@[k2]);
            }
        }
        Ok(h)
    }

    /// Axis reduction: axis 0 sums each row into shape `(rows, 1)`, axis 1
    /// sums each column into shape `(1, cols)`, and any other axis returns
    /// the data and shape unchanged (a documented quirk that callers rely
    /// on). Every variant records `Sum` provenance.
    pub fn sum(&self, axis: usize, g: &mut Graph) -> (r: Result<Matrix, MatrixError>)
        requires
            old(g).wf(),
            self.valid(*old(g)),
        ensures
            ({
                let d0 = old(g).nd(self.id as int).data@;
                let rows = old(g).nd(self.id as int).shape.0;
                let cols = old(g).nd(self.id as int).shape.1;
                match r {
                    Ok(m) => {
                        &&& final(g).wf()
                        &&& graph_extends(*final(g), *old(g))
                        &&& final(g).node_count() == old(g).node_count() + 1
                        &&& m.id == old(g).node_count()
                        &&& final(g).nd(m.id as int).with_grad == old(g).nd(
                            self.id as int,
                        ).with_grad
                        &&& final(g).nd(m.id as int).op == Some(
                            Operator::Unary(*self, UnaryOpType::Sum),
                        )
                        &&& if axis == 0 {
                            &&& final(g).nd(m.id as int).shape == ((rows, 1usize))
                            &&& sum0_ok(d0, rows as int, cols as int)
                            &&& forall|i: int|
                                0 <= i < rows ==> (#[trigger] final(g).nd(
                                    m.id as int,
                                ).data@[i])@ == row_sum_partial(d0, cols as int, i, cols as int)
                        } else if axis == 1 {
                            &&& final(g).nd(m.id as int).shape == ((1usize, cols))
                            &&& sum1_ok(d0, rows as int, cols as int)
                            &&& forall|j: int|
                                0 <= j < cols ==> (#[trigger] final(g).nd(
                                    m.id as int,
                                ).data@[j])@ == col_sum_partial(d0, cols as int, j, rows as int)
                        } else {
                            &&& final(g).nd(m.id as int).shape == ((rows, cols))
                            &&& final(g).nd(m.id as int).data@ == d0
                        }
                    },
                    Err(e) => {
                        &&& e is OverflowError
                        &&& axis == 0 ==> !sum0_ok(d0, rows as int, cols as int)
                        &&& axis == 1 ==> !sum1_ok(d0, rows as int, cols as int)
                        &&& axis < 2
                        &&& *final(g) == *old(g)
                    },
                }
            }),
    {
        let shape = g.nodes[self.id].shape;
        let rows = shape.0;
        let cols = shape.1;
        let with_grad = g.nodes[self.id].with_grad;
        let ghost d0 = g.nd(self.id as int).data@;
        proof {
            assert(g.wf_at(self.id as int));
        }
        if axis == 0 {
            let mut out: Vec<Scalar> = Vec::new();
            let mut i: usize = 0;
            while i < rows
                invariant
                    axis == 0,
                    *g == *old(g),
                    g.wf(),
                    self.valid(*g),
                    (rows, cols) == g.nd(self.id as int).shape,
                    d0 == g.nd(self.id as int).data@,
                    i <= rows,
                    out@.len() == i,
                    data_wf(out@),
                    forall|i2: int, k2: int|
                        0 <= i2 < i && 0 <= k2 < cols ==> crate::scalar::rat_fits(
                            #[trigger] row_sum_partial(d0, cols as int, i2, k2 + 1),
                        ),
                    forall|i2: int|
                        0 <= i2 < i ==> (#[trigger] out@[i2])@ == row_sum_partial(
                            d0,
                            cols as int,
                            i2,
                            cols as int,
                        ),
                decreases rows - i,
            {
                let mut acc = Scalar::zero();
                let mut jj: usize = 0;
                while jj < cols
                    invariant
                        axis == 0,
                        *g == *old(g),
                        g.wf(),
                        self.valid(*g),
                        (rows, cols) == g.nd(self.id as int).shape,
                        d0 == g.nd(self.id as int).data@,
                        i < rows,
                        jj <= cols,
                        acc.wf(),
                        acc@ == row_sum_partial(d0, cols as int, i as int, jj as int),
                        forall|k2: int|
                            0 <= k2 < jj ==> crate::scalar::rat_fits(
                                #[trigger] row_sum_partial(d0, cols as int, i as int, k2 + 1),
                            ),
                        forall|i2: int, k2: int|
                            0 <= i2 < i && 0 <= k2 < cols ==> crate::scalar::rat_fits(
                                #[trigger] row_sum_partial(d0, cols as int, i2, k2 + 1),
                            ),
                    decreases cols - jj,
                {
                    let v = self.get(i, jj, g);
                    let nacc = match acc.add(&v) {
                        Some(s) => s,
                        None => {
                            proof {
                                assert(row_sum_partial(d0, cols as int, i as int, jj as int + 1)
                                    == crate::scalar::rat_add(acc@, v@));
                                assert(d0 == old(g).nd(self.id as int).data@);
                                assert(!sum0_ok(
                                    old(g).nd(self.id as int).data@,
                                    rows as int,
                                    cols as int,
                                ));
                            }
                            return Err(MatrixError::OverflowError);
                        },
                    };
                    proof {
                        assert(row_sum_partial(d0, cols as int, i as int, jj as int + 1)
                            == crate::scalar::rat_add(acc@, v@));
                        assert(crate::scalar::rat_fits(nacc@));
                    }
                    acc = nacc;
                    jj = jj + 1;
                }
                out.push(acc);
                i = i + 1;
            }
            proof {
                assert(sum0_ok(d0, rows as int, cols as int));
            }
            let h = g.append_node(
                Node {
                    data: out,
                    shape: (rows, 1),
                    with_grad,
                    op: Some(Operator::Unary(*self, UnaryOpType::Sum)),
                },
            );
            proof {
                assert forall|i2: int| 0 <= i2 < rows implies (#[trigger] g.nd(
                    h.id as int,
                ).data@[i2])@ == row_sum_partial(d0, cols as int, i2, cols as int) by {
                    assert(g.nd(h.id as int).data@[i2] == out@[i2]);
                }
            }
            Ok(h)
        } else if axis == 1 {
            let mut out: Vec<Scalar> = Vec::new();
            let mut j: usize = 0;
            while j < cols
                invariant
                    axis == 1,
                    *g == *old(g),
                    g.wf(),
                    self.valid(*g),
                    (rows, cols) == g.nd(self.id as int).shape,
                    d0 == g.nd(self.id as int).data@,
                    j <= cols,
                    out@.len() == j,
                    data_wf(out@),
                    forall|j2: int, k2: int|
                        0 <= j2 < j && 0 <= k2 < rows ==> crate::scalar::rat_fits(
                            #[trigger] col_sum_partial(d0, cols as int, j2, k2 + 1),
                        ),
                    forall|j2: int|
                        0 <= j2 < j ==> (#[trigger] out@[j2])@ == col_sum_partial(
                            d0,
                            cols as int,
                            j2,
                            rows as int,
                        ),
                decreases cols - j,
            {
                let mut acc = Scalar::zero();
                let mut ii: usize = 0;
                while ii < rows
                    invariant
                        axis == 1,
                        *g == *old(g),
                        g.wf(),
                        self.valid(*g),
                        (rows, cols) == g.nd(self.id as int).shape,
                        d0 == g.nd(self.id as int).data@,
                        j < cols,
                        ii <= rows,
                        acc.wf(),
                        acc@ == col_sum_partial(d0, cols as int, j as int, ii as int),
                        forall|k2: int|
                            0 <= k2 < ii ==> crate::scalar::rat_fits(
                                #[trigger] col_sum_partial(d0, cols as int, j as int, k2 + 1),
                            ),
                        forall|j2: int, k2: int|
                            0 <= j2 < j && 0 <= k2 < rows ==> crate::scalar::rat_fits(
                                #[trigger] col_sum_partial(d0, cols as int, j2, k2 + 1),
                            ),
                    decreases rows - ii,
                {
                    let v = self.get(ii, j, g);
                    let nacc = match acc.add(&v) {
                        Some(s) => s,
                        None => {
                            proof {
                                assert(col_sum_partial(d0, cols as int, j as int, ii as int + 1)
                                    == crate::scalar::rat_add(acc@, v@));
                                assert(d0 == old(g).nd(self.id as int).data@);
                                assert(!sum1_ok(
                                    old(g).nd(self.id as int).data@,
                                    rows as int,
                                    cols as int,
                                ));
                            }
                            return Err(MatrixError::OverflowError);
                        },
                    };
                    proof {
                        assert(col_sum_partial(d0, cols as int, j as int, ii as int + 1)
                            == crate::scalar::rat_add(acc@, v@));
                        assert(crate::scalar::rat_fits(nacc@));
                    }
                    acc = nacc;
                    ii = ii + 1;
                }
                out.push(acc);
                j = j + 1;
            }
            proof {
                assert(sum1_ok(d0, rows as int, cols as int));
            }
            let h = g.append_node(
                Node {
                    data: out,
                    shape: (1, cols),
                    with_grad,
                    op: Some(Operator::Unary(*self, UnaryOpType::Sum)),
                },
            );
            proof {
                assert forall|j2: int| 0 <= j2 < cols implies (#[trigger] g.nd(
                    h.id as int,
                ).data@[j2])@ == col_sum_partial(d0, cols as int, j2, rows as int) by {
                    assert(g.nd(h.id as int).data@[j2] == out@[j2]);
                }
            }
            Ok(h)
        } else {
            let data = g.nodes[self.id].data.clone();
            Ok(
                g.append_node(
                    Node {
                        data,
                        shape: (rows, cols),
                        with_grad,
                        op: Some(Operator::Unary(*self, UnaryOpType::Sum)),
                    },
                ),
            )
        }
    }

    /// Random leaf: every entry is `from + (to - from) * u / 2^20` for a
    /// fresh uniform draw `u` from `[0, 2^20)`.
    pub fn randn(
        from: Scalar,
        to: Scalar,
        shape: (usize, usize),
        with_grad: bool,
        g: &mut Graph,
    ) -> (r: Result<Matrix, MatrixError>)
        requires
            old(g).wf(),
            from.wf(),
            to.wf(),
            sprod(shape) <= usize::MAX,
        ensures
            match r {
                Ok(m) => {
                    &&& final(g).wf()
                    &&& graph_extends(*final(g), *old(g))
                    &&& final(g).node_count() == old(g).node_count() + 1
                    &&& m.id == old(g).node_count()
                    &&& final(g).nd(m.id as int).op is None
                    &&& final(g).nd(m.id as int).shape == shape
                    &&& final(g).nd(m.id as int).with_grad == with_grad
                    &&& final(g).nd(m.id as int).data@.len() == sprod(shape)
                    &&& sampled_data(final(g).nd(m.id as int).data@, from@, to@)
                },
                Err(e) => {
                    &&& e is OverflowError
                    &&& !randn_feasible(from@, to@)
                    &&& *final(g) == *old(g)
                },
            },
            randn_feasible(from@, to@) ==> r is Ok,
    {
        let total: usize = shape.0 * shape.1;
        let diff = match to.sub(&from) {
            Some(d) => d,
            None => {
                return Err(MatrixError::OverflowError);
            },
        };
        let mut data: Vec<Scalar> = Vec::new();
        while data.len() < total
            invariant
                from.wf(),
                to.wf(),
                diff.wf(),
                diff@ == crate::scalar::rat_sub(to@, from@),
                data@.len() <= total,
                data_wf(data@),
                sampled_data(data@, from@, to@),
            decreases total - data@.len(),
        {
            let u = rand_below(1048576);
            let frac = Scalar::new(u as i64, 1048576);
            let term = match diff.mul(&frac) {
                Some(t) => t,
                None => {
                    proof {
                        assert(!crate::scalar::rat_fits(
                            crate::scalar::rat_mul(
                                crate::scalar::rat_sub(to@, from@),
                                Rat { n: u as int, d: 1048576 },
                            ),
                        ));
                    }
                    return Err(MatrixError::OverflowError);
                },
            };
            let val = match from.add(&term) {
                Some(v) => v,
                None => {
                    proof {
                        assert(!crate::scalar::rat_fits(unit_sample(from@, to@, u as int)));
                    }
                    return Err(MatrixError::OverflowError);
                },
            };
            proof {
                assert(val@ == unit_sample(from@, to@, u as int));
                assert(sampled_data(data@.push(val), from@, to@)) by {
                    assert forall|k: int|
                        0 <= k < data@.push(val).len() implies exists|u2: int|
                        0 <= u2 < 1048576 && (#[trigger] data@.push(val)[k])@ == unit_sample(
                            from@,
                            to@,
                            u2,
                        ) by {
                        if k == data@.len() {
                            assert(data@.push(val)[k] == val);
                            assert(0 <= u < 1048576 && (data@.push(val)[k])@ == unit_sample(
                                from@,
                                to@,
                                u as int,
                            ));
                        } else {
                            assert(data@.push(val)[k] == data@[k]);
                            let u0 = choose|u2: int|
                                0 <= u2 < 1048576 && (#[trigger] data@[k])@ == unit_sample(
                                    from@,
                                    to@,
                                    u2,
                                );
                            assert(0 <= u0 < 1048576 && (data@.push(val)[k])@ == unit_sample(
                                from@,
                                to@,
                                u0,
                            ));
                        }
                    }
                }
            }
            data.push(val);
        }
        let ghost dfinal = data@;
        let h = g.append_node(Node { data, shape, with_grad, op: None });
        proof {
            assert(g.nd(h.id as int).data@ == dfinal);
            assert(sampled_data(g.nd(h.id as int).data@, from@, to@));
        }
        Ok(h)
    }

    /// Leaf factory from a flat list read as a single column.
    pub fn from_column(vals: &Vec<Scalar>, g: &mut Graph) -> (r: Matrix)
        requires
            old(g).wf(),
            data_wf(vals@),
        ensures
            final(g).wf(),
            graph_extends(*final(g), *old(g)),
            final(g).node_count() == old(g).node_count() + 1,
            r.id == old(g).node_count(),
            final(g).nd(r.id as int).op is None,
            final(g).nd(r.id as int).shape == ((vals@.len() as usize, 1usize)),
            final(g).nd(r.id as int).with_grad == false,
            final(g).nd(r.id as int).data@ == vals@,
    {
        let n = vals.len();
        let data = vals.clone();
        g.append_node(Node { data, shape: (n, 1), with_grad: false, op: None })
    }

    /// Leaf factory from a list of rows. Rows of equal width flatten into a
    /// row-major matrix; ragged input yields the empty `(0, 0)` sentinel.
    pub fn from_rows(rows: &Vec<Vec<Scalar>>, g: &mut Graph) -> (r: Matrix)
        requires
            old(g).wf(),
            forall|i: int| 0 <= i < rows@.len() ==> data_wf((#[trigger] rows@[i])@),
        ensures
            final(g).wf(),
            graph_extends(*final(g), *old(g)),
            final(g).node_count() == old(g).node_count() + 1,
            r.id == old(g).node_count(),
            final(g).nd(r.id as int).op is None,
            final(g).nd(r.id as int).with_grad == false,
            ({
                let nrows = rows@.len() as int;
                let ncols: int = if nrows > 0 {
                    rows@[0]@.len() as int
                } else {
                    0
                };
                if forall|i: int| 0 <= i < nrows ==> (#[trigger] rows@[i])@.len() == ncols {
                    &&& final(g).nd(r.id as int).shape == ((nrows as usize, ncols as usize))
                    &&& forall|i: int, j: int|
                        0 <= i < nrows && 0 <= j < ncols ==> (#[trigger] final(g).nd(
                            r.id as int,
                        ).data@[i * ncols + j]) == rows@[i]@[j]
                } else {
                    &&& final(g).nd(r.id as int).shape == ((0usize, 0usize))
                    &&& final(g).nd(r.id as int).data@.len() == 0
                }
            }),
    {
        let nrows = rows.len();
        let ncols = if nrows > 0 {
            rows[0].len()
        } else {
            0
        };
        let mut equal_widths = true;
        let ghost mut bad: int = 0;
        let mut i: usize = 0;
        while i < nrows
            invariant
                nrows == rows@.len(),
                nrows > 0 ==> ncols == rows@[0]@.len(),
                nrows == 0 ==> ncols == 0,
                i <= nrows,
                equal_widths ==> forall|k: int|
                    0 <= k < i ==> (#[trigger] rows@[k])@.len() == ncols,
                !equal_widths ==> 0 <= bad < rows@.len() && rows@[bad]@.len() != ncols,
            decreases nrows - i,
        {
            if rows[i].len() != ncols {
                equal_widths = false;
                proof {
                    bad = i as int;
                }
            }
            i = i + 1;
        }
        if !equal_widths {
            proof {
                assert(0int * 0int == 0int);
                assert(sprod((0usize, 0usize)) == 0);
            }
            return Matrix::zeros((0, 0), false, g);
        }
        let mut flat: Vec<Scalar> = Vec::new();
        let mut i2: usize = 0;
        while i2 < nrows
            invariant
                nrows == rows@.len(),
                ncols as int == (if rows@.len() > 0 {
                    rows@[0]@.len() as int
                } else {
                    0int
                }),
                forall|k: int| 0 <= k < nrows ==> (#[trigger] rows@[k])@.len() == ncols,
                forall|k: int| 0 <= k < rows@.len() ==> data_wf((#[trigger] rows@[k])@),
                i2 <= nrows,
                flat@.len() == i2 * ncols,
                data_wf(flat@),
                forall|k: int, j: int|
                    0 <= k < i2 && 0 <= j < ncols ==> (#[trigger] flat@[k * ncols + j])
                        == rows@[k]@[j],
            decreases nrows - i2,
        {
            let row = &rows[i2];
            let mut j: usize = 0;
            while j < ncols
                invariant
                    nrows == rows@.len(),
                    ncols as int == (if rows@.len() > 0 {
                        rows@[0]@.len() as int
                    } else {
                        0int
                    }),
                    i2 < nrows,
                    row@ == rows@[i2 as int]@,
                    row@.len() == ncols,
                    data_wf(row@),
                    j <= ncols,
                    flat@.len() == i2 * ncols + j,
                    data_wf(flat@),
                    forall|k: int, j2: int|
                        0 <= k < i2 && 0 <= j2 < ncols ==> (#[trigger] flat@[k * ncols + j2])
                            == rows@[k]@[j2],
                    forall|j2: int|
                        0 <= j2 < j ==> (#[trigger] flat@[i2 * ncols + j2]) == rows@[i2 as int]@[
                            j2
                        ],
                decreases ncols - j,
            {
                flat.push(row[j]);
                j = j + 1;
                proof {
                    assert forall|k: int, j2: int|
                        0 <= k < i2 && 0 <= j2 < ncols implies (#[trigger] flat@[k * ncols
                        + j2]) == rows@[k]@[j2] by {
                        lemma_index_bound(k, j2, i2 as int, ncols as int);
                    }
                }
            }
            i2 = i2 + 1;
            proof {
                assert((i2 - 1) * (ncols as int) + ncols == (i2 as int) * (ncols as int))
                    by (nonlinear_arith);
            }
        }
        g.append_node(Node { data: flat, shape: (nrows, ncols), with_grad: false, op: None })
    }

    /// The broadcast resolver: stretches each shape against the other and
    /// returns the agreed shape, or the `(0, 0)` sentinel when resolution
    /// fails.
    pub fn broadcast_shape(lhs: (usize, usize), rhs: (usize, usize)) -> (r: (usize, usize))
        ensures
            r == spec_broadcast_shape(lhs, rhs),
    {
        let r2 = if rhs.0 == 1 && rhs.1 == 1 {
            lhs
        } else if rhs.0 == 1 {
            (lhs.0, rhs.1)
        } else if rhs.1 == 1 {
            (rhs.0, lhs.1)
        } else {
            rhs
        };
        let l2 = if lhs.0 == 1 && lhs.1 == 1 {
            r2
        } else if lhs.0 == 1 {
            (r2.0, lhs.1)
        } else if lhs.1 == 1 {
            (lhs.0, r2.1)
        } else {
            lhs
        };
        if r2.0 == l2.0 && r2.1 == l2.1 {
            r2
        } else {
            (0, 0)
        }
    }
}

} // verus!
