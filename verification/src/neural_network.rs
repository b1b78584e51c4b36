use vstd::prelude::*;

use crate::error::{MatrixError, NNError, TrainError};
use crate::matrix::{graph_extends, sprod, Graph, Matrix};
use crate::scalar::Scalar;

verus! {

/// Activation applied after a layer's affine step.
#[derive(Clone, Copy, Debug)]
pub enum Activation {
    Sigmoid,
    Identity,
}

impl Activation {
    /// Applies the activation as a graph operation; the identity activation
    /// passes the node through untouched.
    pub fn apply(&self, mat: Matrix, g: &mut Graph) -> (r: Result<Matrix, MatrixError>)
        requires
            old(g).wf(),
            mat.valid(*old(g)),
        ensures
            final(g).wf(),
            graph_extends(*final(g), *old(g)),
            match r {
                Ok(m) => {
                    &&& m.id < final(g).nodes@.len()
                    &&& final(g).nd(m.id as int).shape == old(g).nd(mat.id as int).shape
                    &&& (self is Identity ==> m == mat && *final(g) == *old(g))
                    &&& (self is Sigmoid ==> m.id == old(g).node_count())
                    &&& (self is Sigmoid ==> final(g).node_count() == old(g).node_count() + 1)
                    &&& (self is Sigmoid ==> final(g).nd(m.id as int).op == Some(
                        crate::autodiff::Operator::Unary(mat, crate::autodiff::UnaryOpType::Sigmoid),
                    ))
                    &&& forall|k: int|
                        self is Sigmoid && 0 <= k < old(g).nd(mat.id as int).data@.len()
                            ==> (#[trigger] final(g).nd(m.id as int).data@[k])@
                            == crate::scalar::rat_sigmoid(old(g).nd(mat.id as int).data@[k]@)
                },
                Err(e) => e is OverflowError,
            },
    {
        match self {
            Activation::Sigmoid => mat.sigmoid(g),
            Activation::Identity => Ok(mat),
        }
    }
}

/// One dense layer: weights, bias column, and the activation.
#[derive(Debug)]
pub struct Layer {
    pub w: Matrix,
    pub b: Matrix,
    pub act_func: Activation,
}

/// A feed-forward network over the autodiff graph: thin glue that drives the
/// verified matrix core.
#[derive(Debug)]
pub struct NN {
    pub layers: Vec<Layer>,
    pub learning_rate: Scalar,
}

/// Relies on rand's thread_rng and rand::seq::index::sample: `amount`
/// distinct indices drawn from `0..length` in random order; the function
/// panics when `amount` exceeds `length`, which the precondition rules out.
#[verifier::external_body]
fn sample_indices(length: usize, amount: usize) -> (r: Vec<usize>)
    requires
        amount <= length,
    ensures
        r@.len() == amount,
        forall|i: int| 0 <= i < r@.len() ==> (#[trigger] r@[i]) < length,
        forall|i: int, j: int| 0 <= i < j < r@.len() ==> r@[i] != r@[j],
{
    rand::seq::index::sample(&mut rand::thread_rng(), length, amount).into_vec()
}

/// Structural network facts survive graph growth.
pub proof fn lemma_nn_wf_frame(nn: NN, g1: Graph, g2: Graph)
    requires
        nn.wf(g1),
        graph_extends(g2, g1),
    ensures
        nn.wf(g2),
        nn.layers@.len() > 0 ==> nn.in_dim(g2) == nn.in_dim(g1),
{
    assert forall|i: int|
        0 <= i < nn.layers@.len() implies {
        let l = #[trigger] nn.layers@[i];
        &&& l.w.id < g2.nodes@.len()
        &&& l.b.id < g2.nodes@.len()
        &&& g2.nd(l.w.id as int).shape.0 >= 1
        &&& g2.nd(l.w.id as int).shape.1 >= 1
        &&& g2.nd(l.b.id as int).shape == ((g2.nd(l.w.id as int).shape.0, 1usize))
    } by {
        assert(g2.nodes@[nn.layers@[i].w.id as int] == g1.nodes@[nn.layers@[i].w.id as int]);
        assert(g2.nodes@[nn.layers@[i].b.id as int] == g1.nodes@[nn.layers@[i].b.id as int]);
    }
    assert forall|i: int|
        0 <= i && i + 1 < nn.layers@.len() implies g2.nd(
        (#[trigger] nn.layers@[i + 1]).w.id as int,
    ).shape.1 == g2.nd(nn.layers@[i].w.id as int).shape.0 by {
        assert(g2.nodes@[nn.layers@[i + 1].w.id as int] == g1.nodes@[nn.layers@[i
            + 1].w.id as int]);
        assert(g2.nodes@[nn.layers@[i].w.id as int] == g1.nodes@[nn.layers@[i].w.id as int]);
    }
    if nn.layers@.len() > 0 {
        assert(g2.nodes@[nn.layers@[0].w.id as int] == g1.nodes@[nn.layers@[0].w.id as int]);
    }
}

/// A column shape broadcasts against any matrix with the same positive
/// number of rows.
pub proof fn lemma_compat_col(o: usize, b: usize)
    requires
        o >= 1,
    ensures
        crate::matrix::spec_compatible((o, b), (o, 1usize)),
        crate::matrix::spec_broadcast_shape((o, b), (o, 1usize)) == ((o, b)),
{
}

impl NN {
    /// Structural well-formedness against a graph: both parameter handles of
    /// every layer are valid, dimensions are positive, the bias is a column
    /// matching the weight's rows, and consecutive layers chain.
    pub open spec fn wf(self, g: Graph) -> bool {
        &&& self.learning_rate.wf()
        &&& forall|i: int|
            0 <= i < self.layers@.len() ==> {
                let l = #[trigger] self.layers@[i];
                &&& l.w.id < g.nodes@.len()
                &&& l.b.id < g.nodes@.len()
                &&& g.nd(l.w.id as int).shape.0 >= 1
                &&& g.nd(l.w.id as int).shape.1 >= 1
                &&& g.nd(l.b.id as int).shape == ((g.nd(l.w.id as int).shape.0, 1usize))
            }
        &&& forall|i: int|
            0 <= i && i + 1 < self.layers@.len() ==> g.nd(
                (#[trigger] self.layers@[i + 1]).w.id as int,
            ).shape.1 == g.nd(self.layers@[i].w.id as int).shape.0
    }

    /// The width of the expected input when the network has layers.
    pub open spec fn in_dim(self, g: Graph) -> int {
        g.nd(self.layers@[0].w.id as int).shape.1 as int
    }

    /// The width of the produced output when the network has layers.
    pub open spec fn out_dim(self, g: Graph) -> int {
        g.nd(self.layers@[self.layers@.len() - 1].w.id as int).shape.0 as int
    }

    /// Builds sigmoid layers sized by consecutive entries of `config`, with
    /// parameters drawn uniformly from `[0, 1)`.
    pub fn new(config: Vec<usize>, learning_rate: Scalar, g: &mut Graph) -> (r: Result<
        NN,
        MatrixError,
    >)
        requires
            old(g).wf(),
            learning_rate.wf(),
            forall|i: int|
                0 <= i && i + 1 < config@.len() ==> 1 <= (#[trigger] config@[i]) && 1
                    <= config@[i + 1] && config@[i] * config@[i + 1] <= usize::MAX,
        ensures
            final(g).wf(),
            graph_extends(*final(g), *old(g)),
            match r {
                Ok(nn) => {
                    &&& nn.wf(*final(g))
                    &&& nn.learning_rate == learning_rate
                    &&& nn.layers@.len() == (if config@.len() == 0 {
                        0int
                    } else {
                        config@.len() - 1
                    })
                    &&& forall|i: int|
                        0 <= i < nn.layers@.len() ==> {
                            let l = #[trigger] nn.layers@[i];
                            &&& final(g).nd(l.w.id as int).shape == ((config@[i + 1], config@[i]))
                            &&& final(g).nd(l.b.id as int).shape == ((config@[i + 1], 1usize))
                            &&& final(g).nd(l.w.id as int).op is None
                            &&& final(g).nd(l.b.id as int).op is None
                            &&& final(g).nd(l.w.id as int).with_grad == true
                            &&& final(g).nd(l.b.id as int).with_grad == true
                            &&& crate::matrix::sampled_data(
                                final(g).nd(l.w.id as int).data@,
                                crate::scalar::rat_zero(),
                                crate::scalar::rat_one(),
                            )
                            &&& crate::matrix::sampled_data(
                                final(g).nd(l.b.id as int).data@,
                                crate::scalar::rat_zero(),
                                crate::scalar::rat_one(),
                            )
                            &&& l.act_func is Sigmoid
                        }
                },
                Err(e) => e is OverflowError,
            },
    {
        let mut layers: Vec<Layer> = Vec::new();
        let zero = Scalar::zero();
        let one = Scalar::one();
        if config.len() == 0 {
            return Ok(NN { layers, learning_rate });
        }
        let n = config.len();
        let mut i: usize = 0;
        while i + 1 < n
            invariant
                n == config@.len(),
                g.wf(),
                graph_extends(*g, *old(g)),
                zero.wf(),
                one.wf(),
                zero@ == crate::scalar::rat_zero(),
                one@ == crate::scalar::rat_one(),
                learning_rate.wf(),
                i + 1 <= config@.len(),
                layers@.len() == i as int,
                forall|k: int|
                    0 <= k && k + 1 < config@.len() ==> 1 <= (#[trigger] config@[k]) && 1
                        <= config@[k + 1] && config@[k] * config@[k + 1] <= usize::MAX,
                forall|k: int|
                    0 <= k < layers@.len() ==> {
                        let l = #[trigger] layers@[k];
                        &&& l.w.id < g.nodes@.len()
                        &&& l.b.id < g.nodes@.len()
                        &&& g.nd(l.w.id as int).shape == ((config@[k + 1], config@[k]))
                        &&& g.nd(l.b.id as int).shape == ((config@[k + 1], 1usize))
                        &&& g.nd(l.w.id as int).op is None
                        &&& g.nd(l.b.id as int).op is None
                        &&& g.nd(l.w.id as int).with_grad == true
                        &&& g.nd(l.b.id as int).with_grad == true
                        &&& crate::matrix::sampled_data(
                            g.nd(l.w.id as int).data@,
                            crate::scalar::rat_zero(),
                            crate::scalar::rat_one(),
                        )
                        &&& crate::matrix::sampled_data(
                            g.nd(l.b.id as int).data@,
                            crate::scalar::rat_zero(),
                            crate::scalar::rat_one(),
                        )
                        &&& l.act_func is Sigmoid
                    },
            decreases config@.len() - i,
        {
            let ghost gp = *g;
            let inp = config[i];
            let outp = config[i + 1];
            proof {
                assert(config@[i as int] * config@[i as int + 1] <= usize::MAX);
                assert((outp as int) * (inp as int) <= usize::MAX) by (nonlinear_arith)
                    requires
                        (inp as int) * (outp as int) <= usize::MAX,
                ;
            }
            let w = match Matrix::randn(zero, one, (outp, inp), true, g) {
                Ok(m) => m,
                Err(e) => {
                    return Err(e);
                },
            };
            let ghost gw = *g;
            let b = match Matrix::randn(zero, one, (outp, 1), true, g) {
                Ok(m) => m,
                Err(e) => {
                    return Err(e);
                },
            };
            layers.push(Layer { w, b, act_func: Activation::Sigmoid });
            i = i + 1;
            proof {
                assert(graph_extends(*g, gp));
                assert(g.nodes@[w.id as int] == gw.nodes@[w.id as int]);
                assert forall|k: int| 0 <= k < layers@.len() - 1 implies g.nodes@[(
                #[trigger] layers@[k]).w.id as int] == gp.nodes@[layers@[k].w.id as int]
                    && g.nodes@[layers@[k].b.id as int] == gp.nodes@[layers@[k].b.id as int] by {}
            }
        }
        Ok(NN { layers, learning_rate })
    }

    /// Runs the input through each layer: an affine step followed by the
    /// layer's activation. Given a matching input width, the only possible
    /// failure is an unrepresentable exact value.
    pub fn forward(&self, xs: Matrix, g: &mut Graph) -> (r: Result<Matrix, MatrixError>)
        requires
            old(g).wf(),
            self.wf(*old(g)),
            xs.valid(*old(g)),
            self.layers@.len() > 0 ==> old(g).nd(xs.id as int).shape.0 == self.in_dim(
                *old(g),
            ),
        ensures
            final(g).wf(),
            graph_extends(*final(g), *old(g)),
            match r {
                Ok(y) => {
                    &&& y.id < final(g).nodes@.len()
                    &&& (self.layers@.len() == 0 ==> y == xs)
                    &&& (self.layers@.len() > 0 ==> final(g).nd(y.id as int).shape == ((
                        self.out_dim(*old(g)) as usize,
                        old(g).nd(xs.id as int).shape.1,
                    )))
                },
                Err(e) => e is OverflowError,
            },
    {
        let ghost g0 = *old(g);
        let batch = g.nodes[xs.id].shape.1;
        let mut ys = xs;
        let mut i: usize = 0;
        while i < self.layers.len()
            invariant
                g0 == *old(g),
                g.wf(),
                graph_extends(*g, g0),
                self.wf(g0),
                i <= self.layers@.len(),
                ys.id < g.nodes@.len(),
                batch == g0.nd(xs.id as int).shape.1,
                (i == 0 ==> ys == xs && (self.layers@.len() > 0 ==> g.nd(ys.id as int).shape
                    == g0.nd(xs.id as int).shape)),
                (i > 0 ==> g.nd(ys.id as int).shape == ((
                    g0.nd(self.layers@[i - 1].w.id as int).shape.0,
                    batch,
                ))),
                self.layers@.len() > 0 ==> g0.nd(xs.id as int).shape.0 == self.in_dim(g0),
            decreases self.layers@.len() - i,
        {
            let layer = &self.layers[i];
            proof {
                assert(g.nodes@[layer.w.id as int] == g0.nodes@[layer.w.id as int]);
                assert(g.nodes@[layer.b.id as int] == g0.nodes@[layer.b.id as int]);
                if i > 0 {
                    let j = i as int - 1;
                    assert(g0.nd(self.layers@[j + 1].w.id as int).shape.1 == g0.nd(
                        self.layers@[j].w.id as int,
                    ).shape.0);
                    assert(self.layers@[j + 1] == self.layers@[i as int]);
                }
            }
            let wy = match layer.w.matmul(&ys, g) {
                Ok(m) => m,
                Err(e) => {
                    proof {
                        assert(!(e is ShapeMismatchError));
                    }
                    return Err(e);
                },
            };
            proof {
                lemma_compat_col(g0.nd(self.layers@[i as int].w.id as int).shape.0, batch);
            }
            let wyb = match wy.add(&layer.b, g) {
                Ok(m) => m,
                Err(e) => {
                    proof {
                        assert(!(e is ShapeMismatchError) && !(e is DivisionByZeroError));
                    }
                    return Err(e);
                },
            };
            let act = match layer.act_func.apply(wyb, g) {
                Ok(m) => m,
                Err(e) => {
                    return Err(e);
                },
            };
            ys = act;
            i = i + 1;
        }
        Ok(ys)
    }

    /// One training run: repeatedly draws a batch, runs the forward pass,
    /// squares the prediction error, runs the reverse pass, and moves every
    /// parameter one gradient step before detaching it, recording the summed
    /// batch loss divided by the batch size per epoch. Input validation
    /// mirrors the data checks exactly; any later failure is an arithmetic
    /// overflow of the exact core.
    pub fn train(
        &mut self,
        x_train: &Vec<Vec<Scalar>>,
        y_train: &Vec<Scalar>,
        batch_size: usize,
        epochs: usize,
        g: &mut Graph,
    ) -> (r: Result<Vec<Scalar>, TrainError>)
        requires
            old(g).wf(),
            old(self).wf(*old(g)),
            old(self).layers@.len() > 0,
            crate::matrix::data_wf(y_train@),
            forall|i: int|
                0 <= i < x_train@.len() ==> (#[trigger] x_train@[i])@.len() == old(
                    self,
                ).in_dim(*old(g)) && crate::matrix::data_wf(x_train@[i]@),
            1 <= batch_size < 0x8000_0000_0000_0000,
        ensures
            final(g).wf(),
            graph_extends(*final(g), *old(g)),
            final(self).wf(*final(g)),
            final(self).layers@.len() == old(self).layers@.len(),
            match r {
                Ok(h) => {
                    &&& h@.len() == epochs
                    &&& x_train@.len() == y_train@.len()
                    &&& batch_size <= y_train@.len()
                    &&& forall|i: int|
                        0 <= i < old(self).layers@.len() ==> {
                            let l0 = #[trigger] old(self).layers@[i];
                            let l1 = final(self).layers@[i];
                            &&& (old(g).nd(l0.w.id as int).op is None ==> final(g).nd(
                                l1.w.id as int,
                            ).op is None)
                            &&& (old(g).nd(l0.b.id as int).op is None ==> final(g).nd(
                                l1.b.id as int,
                            ).op is None)
                        }
                },
                Err(e) => match e {
                    TrainError::Data(NNError::TrainDataMismatch { x_size, y_size }) => {
                        &&& x_size == x_train@.len()
                        &&& y_size == y_train@.len()
                        &&& x_train@.len() != y_train@.len()
                        &&& *final(self) == *old(self)
                        &&& *final(g) == *old(g)
                    },
                    TrainError::Data(
                        NNError::BatchSizeExceedsTrainingSet { batch_size: bs, train_size },
                    ) => {
                        &&& bs == batch_size
                        &&& train_size == y_train@.len()
                        &&& x_train@.len() == y_train@.len()
                        &&& batch_size > y_train@.len()
                        &&& *final(self) == *old(self)
                        &&& *final(g) == *old(g)
                    },
                    TrainError::Compute(me) => {
                        &&& me is OverflowError
                        &&& x_train@.len() == y_train@.len()
                        &&& batch_size <= y_train@.len()
                    },
                },
            },
    {
        if x_train.len() != y_train.len() {
            return Err(
                TrainError::Data(
                    NNError::TrainDataMismatch {
                        x_size: x_train.len(),
                        y_size: y_train.len(),
                    },
                ),
            );
        }
        let training_size = y_train.len();
        if batch_size > training_size {
            return Err(
                TrainError::Data(
                    NNError::BatchSizeExceedsTrainingSet { batch_size, train_size: training_size },
                ),
            );
        }
        let ghost d0 = self.in_dim(*old(g));
        let mut history: Vec<Scalar> = Vec::new();
        let mut counter: usize = 0;
        let mut ep: usize = 0;
        while ep < epochs
            invariant
                g.wf(),
                graph_extends(*g, *old(g)),
                self.wf(*g),
                self.layers@.len() == old(self).layers@.len(),
                self.layers@.len() > 0,
                self.in_dim(*g) == d0,
                crate::matrix::data_wf(y_train@),
                forall|i: int|
                    0 <= i < x_train@.len() ==> (#[trigger] x_train@[i])@.len() == d0
                        && crate::matrix::data_wf(x_train@[i]@),
                1 <= batch_size < 0x8000_0000_0000_0000,
                batch_size <= training_size,
                training_size == y_train@.len(),
                x_train@.len() == y_train@.len(),
                counter < training_size,
                ep <= epochs,
                forall|i: int|
                    0 <= i < old(self).layers@.len() ==> {
                        let l0 = #[trigger] old(self).layers@[i];
                        let l1 = self.layers@[i];
                        &&& (old(g).nd(l0.w.id as int).op is None ==> g.nd(
                            l1.w.id as int,
                        ).op is None)
                        &&& (old(g).nd(l0.b.id as int).op is None ==> g.nd(
                            l1.b.id as int,
                        ).op is None)
                    },
                history@.len() == ep,
                crate::matrix::data_wf(history@),
            decreases epochs - ep,
        {
            let ghost ge = *g;
            let mut flat: Vec<Scalar> = Vec::new();
            let mut labels: Vec<Scalar> = Vec::new();
            if batch_size == 1 {
                let row = &x_train[counter];
                let mut j: usize = 0;
                while j < row.len()
                    invariant
                        counter < x_train@.len(),
                        row@ == x_train@[counter as int]@,
                        row@.len() == d0,
                        crate::matrix::data_wf(row@),
                        j <= row@.len(),
                        flat@.len() == j,
                        crate::matrix::data_wf(flat@),
                    decreases row@.len() - j,
                {
                    flat.push(row[j]);
                    j = j + 1;
                }
                labels.push(y_train[counter]);
                counter = (counter + 1) % training_size;
            } else {
                let picks = sample_indices(training_size, batch_size);
                let mut bi: usize = 0;
                while bi < picks.len()
                    invariant
                        picks@.len() == batch_size,
                        forall|i: int| 0 <= i < picks@.len() ==> (#[trigger] picks@[i])
                            < training_size,
                        training_size == y_train@.len(),
                        x_train@.len() == y_train@.len(),
                        forall|i: int|
                            0 <= i < x_train@.len() ==> (#[trigger] x_train@[i])@.len() == d0
                                && crate::matrix::data_wf(x_train@[i]@),
                        crate::matrix::data_wf(y_train@),
                        bi <= batch_size,
                        flat@.len() == bi * d0,
                        labels@.len() == bi,
                        crate::matrix::data_wf(flat@),
                        crate::matrix::data_wf(labels@),
                    decreases picks@.len() - bi,
                {
                    let idx = picks[bi];
                    let row = &x_train[idx];
                    let mut j: usize = 0;
                    while j < row.len()
                        invariant
                            idx < x_train@.len(),
                            row@ == x_train@[idx as int]@,
                            crate::matrix::data_wf(row@),
                            row@.len() == d0,
                            j <= row@.len(),
                            flat@.len() == bi * d0 + j,
                            crate::matrix::data_wf(flat@),
                        decreases row@.len() - j,
                    {
                        flat.push(row[j]);
                        j = j + 1;
                    }
                    labels.push(y_train[idx]);
                    bi = bi + 1;
                    proof {
                        assert((bi - 1) * d0 + d0 == (bi as int) * d0) by (nonlinear_arith);
                    }
                }
            }
            let dim = g.nodes[self.layers[0].w.id].shape.1;
            let bcount = labels.len();
            proof {
                assert(flat@.len() == (bcount as int) * (dim as int));
            }
            let bx = match Matrix::from_vec(flat, (bcount, dim), false, g) {
                Ok(m) => m,
                Err(_) => {
                    proof {
                        assert(false);
                    }
                    return Err(TrainError::Compute(MatrixError::OverflowError));
                },
            };
            let by = match Matrix::from_vec(labels, (bcount, 1), false, g) {
                Ok(m) => m,
                Err(_) => {
                    proof {
                        assert(false);
                    }
                    return Err(TrainError::Compute(MatrixError::OverflowError));
                },
            };
            let bxt = bx.t(g);
            let pred = match self.forward(bxt, g) {
                Ok(m) => m,
                Err(e) => {
                    return Err(TrainError::Compute(e));
                },
            };
            let predt = pred.t(g);
            proof {
                lemma_compat_col(bcount, g.nd(predt.id as int).shape.1);
            }
            let loss0 = match predt.sub(&by, g) {
                Ok(m) => m,
                Err(e) => {
                    proof {
                        assert(!(e is ShapeMismatchError) && !(e is DivisionByZeroError));
                    }
                    return Err(TrainError::Compute(e));
                },
            };
            let loss = match loss0.powf(2, g) {
                Ok(m) => m,
                Err(e) => {
                    return Err(TrainError::Compute(e));
                },
            };
            let ghost gb = *g;
            let grads = match loss.backward(g) {
                Ok(m) => m,
                Err(e) => {
                    return Err(TrainError::Compute(e));
                },
            };
            proof {
                assert forall|i: int|
                    0 <= i < old(self).layers@.len() implies {
                    let l0 = #[trigger] old(self).layers@[i];
                    let l1 = self.layers@[i];
                    &&& (old(g).nd(l0.w.id as int).op is None ==> gb.nd(
                        l1.w.id as int,
                    ).op is None)
                    &&& (old(g).nd(l0.b.id as int).op is None ==> gb.nd(
                        l1.b.id as int,
                    ).op is None)
                } by {
                    assert(gb.nodes@[self.layers@[i].w.id as int] == ge.nodes@[self.layers@[
                        i
                    ].w.id as int]);
                    assert(gb.nodes@[self.layers@[i].b.id as int] == ge.nodes@[self.layers@[
                        i
                    ].b.id as int]);
                }
            }
            let mut new_layers: Vec<Layer> = Vec::new();
            let mut li: usize = 0;
            while li < self.layers.len()
                invariant
                    g.wf(),
                    graph_extends(*g, gb),
                    graph_extends(*g, *old(g)),
                    self.wf(gb),
                    self.wf(*g),
                    forall|i: int|
                        0 <= i < old(self).layers@.len() ==> {
                            let l0 = #[trigger] old(self).layers@[i];
                            let l1 = self.layers@[i];
                            &&& (old(g).nd(l0.w.id as int).op is None ==> gb.nd(
                                l1.w.id as int,
                            ).op is None)
                            &&& (old(g).nd(l0.b.id as int).op is None ==> gb.nd(
                                l1.b.id as int,
                            ).op is None)
                        },
                    self.layers@.len() == old(self).layers@.len(),
                    x_train@.len() == y_train@.len(),
                    training_size == y_train@.len(),
                    batch_size <= training_size,
                    crate::autodiff::grads_wf(grads@, *g, gb),
                    li <= self.layers@.len(),
                    new_layers@.len() == li,
                    forall|k: int|
                        0 <= k < new_layers@.len() ==> {
                            let l = #[trigger] new_layers@[k];
                            &&& l.w.id < g.nodes@.len()
                            &&& l.b.id < g.nodes@.len()
                            &&& g.nd(l.w.id as int).shape == gb.nd(
                                self.layers@[k].w.id as int,
                            ).shape
                            &&& g.nd(l.b.id as int).shape == gb.nd(
                                self.layers@[k].b.id as int,
                            ).shape
                            &&& (gb.nd(self.layers@[k].w.id as int).op is None ==> g.nd(
                                l.w.id as int,
                            ).op is None)
                            &&& (gb.nd(self.layers@[k].b.id as int).op is None ==> g.nd(
                                l.b.id as int,
                            ).op is None)
                        },
                decreases self.layers@.len() - li,
            {
                let ghost gl = *g;
                let w = self.layers[li].w;
                let b = self.layers[li].b;
                let act = self.layers[li].act_func;
                proof {
                    assert(g.nodes@[w.id as int] == gb.nodes@[w.id as int]);
                    assert(g.nodes@[b.id as int] == gb.nodes@[b.id as int]);
                    crate::matrix::lemma_shape_self(gb.nd(w.id as int).shape);
                    crate::matrix::lemma_shape_self(gb.nd(b.id as int).shape);
                }
                // a parameter without an accumulated gradient keeps its value
                let new_w = match grads.get(w.id()) {
                    Some(dw) => {
                        let step = match dw.mul_scalar(self.learning_rate, g) {
                            Ok(m) => m,
                            Err(e) => {
                                return Err(TrainError::Compute(e));
                            },
                        };
                        let moved = match w.sub(&step, g) {
                            Ok(m) => m,
                            Err(e) => {
                                proof {
                                    assert(!(e is ShapeMismatchError) && !(e
                                        is DivisionByZeroError));
                                }
                                return Err(TrainError::Compute(e));
                            },
                        };
                        moved.no_history(g)
                    },
                    None => w,
                };
                proof {
                    assert(g.nodes@[b.id as int] == gb.nodes@[b.id as int]);
                    crate::matrix::lemma_shape_self(gb.nd(b.id as int).shape);
                }
                let new_b = match grads.get(b.id()) {
                    Some(db) => {
                        let step = match db.mul_scalar(self.learning_rate, g) {
                            Ok(m) => m,
                            Err(e) => {
                                return Err(TrainError::Compute(e));
                            },
                        };
                        let moved = match b.sub(&step, g) {
                            Ok(m) => m,
                            Err(e) => {
                                proof {
                                    assert(!(e is ShapeMismatchError) && !(e
                                        is DivisionByZeroError));
                                }
                                return Err(TrainError::Compute(e));
                            },
                        };
                        moved.no_history(g)
                    },
                    None => b,
                };
                new_layers.push(Layer { w: new_w, b: new_b, act_func: act });
                li = li + 1;
                proof {
                    crate::autodiff::lemma_grads_wf_frame(grads@, gl, *g, gb);
                    lemma_nn_wf_frame(*self, gl, *g);
                }
            }
            let ghost old_layers = self.layers@;
            self.layers = new_layers;
            proof {
                assert forall|i: int|
                    0 <= i < self.layers@.len() implies {
                    let l = #[trigger] self.layers@[i];
                    &&& l.w.id < g.nodes@.len()
                    &&& l.b.id < g.nodes@.len()
                    &&& g.nd(l.w.id as int).shape.0 >= 1
                    &&& g.nd(l.w.id as int).shape.1 >= 1
                    &&& g.nd(l.b.id as int).shape == ((g.nd(l.w.id as int).shape.0, 1usize))
                } by {
                    assert(g.nd(self.layers@[i].w.id as int).shape == gb.nd(
                        old_layers[i].w.id as int,
                    ).shape);
                    assert(g.nd(self.layers@[i].b.id as int).shape == gb.nd(
                        old_layers[i].b.id as int,
                    ).shape);
                }
                assert forall|i: int|
                    0 <= i && i + 1 < self.layers@.len() implies g.nd(
                    (#[trigger] self.layers@[i + 1]).w.id as int,
                ).shape.1 == g.nd(self.layers@[i].w.id as int).shape.0 by {
                    assert(gb.nd((old_layers[i + 1]).w.id as int).shape.1 == gb.nd(
                        old_layers[i].w.id as int,
                    ).shape.0);
                    assert(g.nd(self.layers@[i + 1].w.id as int).shape == gb.nd(
                        old_layers[i + 1].w.id as int,
                    ).shape);
                    assert(g.nd(self.layers@[i].w.id as int).shape == gb.nd(
                        old_layers[i].w.id as int,
                    ).shape);
                }
                assert(self.wf(*g));
                assert(self.in_dim(*g) == d0);
                assert forall|i: int|
                    0 <= i < old(self).layers@.len() implies {
                    let l0 = #[trigger] old(self).layers@[i];
                    let l1 = self.layers@[i];
                    &&& (old(g).nd(l0.w.id as int).op is None ==> g.nd(
                        l1.w.id as int,
                    ).op is None)
                    &&& (old(g).nd(l0.b.id as int).op is None ==> g.nd(
                        l1.b.id as int,
                    ).op is None)
                } by {
                    assert(gb.nd(old_layers[i].w.id as int).op is None ==> g.nd(
                        self.layers@[i].w.id as int,
                    ).op is None);
                    assert(gb.nd(old_layers[i].b.id as int).op is None ==> g.nd(
                        self.layers@[i].b.id as int,
                    ).op is None);
                }
            }
            let summed = match loss.sum(1, g) {
                Ok(m) => m,
                Err(e) => {
                    return Err(TrainError::Compute(e));
                },
            };
            let lv = summed.get(0, 0, g);
            let divisor = Scalar::from_int(batch_size as i64);
            let avg = match lv.div(&divisor) {
                Some(v) => v,
                None => {
                    return Err(TrainError::Compute(MatrixError::OverflowError));
                },
            };
            history.push(avg);
            ep = ep + 1;
        }
        Ok(history)
    }
}

} // verus!
