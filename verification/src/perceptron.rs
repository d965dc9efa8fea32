//! The layer-stack engine: forward pass, backward pass, mini-batch update.
//!
//! A `Network` drives an ordered stack of layers through the state machine
//! of one training sample: a forward pass fills the transient stacks of
//! pre-activations and activations, a backward pass drains them and adds
//! the per-sample gradient and error terms into the mini-batch
//! accumulators, and the update step folds the scaled accumulators into
//! the weights.  Every step is specified against a spec-level interpreter
//! over the grid model, so the contract of each engine call says exactly
//! which value or error it produces.

use vstd::prelude::*;

use crate::activation::act_grad_grid;
use crate::activation::act_grid;
use crate::activation::Activation;
use crate::algebra::bc_res;
use crate::algebra::dot_res;
use crate::algebra::grid_const;
use crate::algebra::grid_t;
use crate::algebra::EntryOp;
use crate::loss_functions::loss_res;
use crate::loss_functions::sse;
use crate::loss_functions::Loss;
use crate::matrix::Matrix;
use crate::NetError;

verus! {

/// One dense layer: a weight matrix of shape neurons by input dimension, a
/// bias column, and the activation applied to the pre-activation.
pub struct Layer {
    pub weights: Matrix,
    pub bias: Matrix,
    pub activation: Activation,
}

/// The transient forward-pass state: one pre-activation and one activation
/// per layer, pushed by the forward pass and drained by the backward pass.
pub struct FeedForwardStates {
    pub pre_activation: Vec<Matrix>,
    pub activations: Vec<Matrix>,
}

/// The mini-batch accumulator state: one gradient matrix per layer, shaped
/// like its weights, and one error matrix per layer, shaped like its bias,
/// summed in place across the samples of a batch.
pub struct Gradients {
    pub errors: Vec<Matrix>,
    pub gradients: Vec<Matrix>,
}

/// The mathematical content of a layer: its shape, its weight and bias
/// grids, and its activation.
pub struct LayerModel {
    pub neurons: int,
    pub input_dim: int,
    pub weights: Seq<Seq<int>>,
    pub bias: Seq<Seq<int>>,
    pub activation: Activation,
}

impl View for Layer {
    type V = LayerModel;

    open spec fn view(&self) -> LayerModel {
        LayerModel {
            neurons: self.weights.spec_rows(),
            input_dim: self.weights.spec_cols(),
            weights: self.weights@,
            bias: self.bias@,
            activation: self.activation,
        }
    }
}

impl Layer {
    /// Weight and bias are well-formed, stored untransposed, and the bias
    /// is a column with one entry per neuron.
    pub open spec fn wf(&self) -> bool {
        &&& self.weights.wf()
        &&& !self.weights.transposed
        &&& self.bias.wf()
        &&& !self.bias.transposed
        &&& self.bias.spec_rows() == self.weights.spec_rows()
        &&& self.bias.spec_cols() == 1
    }
}

/// The grids a sequence of matrices denotes.
pub open spec fn mats_views(s: Seq<Matrix>) -> Seq<Seq<Seq<int>>> {
    s.map_values(|m: Matrix| m@)
}

impl Gradients {
    pub fn new() -> (g: Gradients)
        ensures
            g.errors@.len() == 0,
            g.gradients@.len() == 0,
    {
        Gradients { errors: Vec::new(), gradients: Vec::new() }
    }
}

impl FeedForwardStates {
    /// A forward pass has been stored and not yet drained.
    pub open spec fn spec_initialised(&self) -> bool {
        !(self.pre_activation@.len() == 0 && self.activations@.len() == 0)
    }

    pub fn new() -> (s: FeedForwardStates)
        ensures
            s.pre_activation@.len() == 0,
            s.activations@.len() == 0,
    {
        FeedForwardStates { pre_activation: Vec::new(), activations: Vec::new() }
    }

    pub fn is_initialised(&self) -> (r: bool)
        ensures
            r == self.spec_initialised(),
    {
        !(self.pre_activation.is_empty() && self.activations.is_empty())
    }
}

/// One forward step: the pre-activation is the weight matrix applied to
/// the input plus the bias column, and the activation map is applied to
/// it.  The first error of the two matrix operations, if any, is the
/// step's error.
pub open spec fn layer_forward(l: LayerModel, input: Seq<Seq<int>>, xc: int) -> Result<
    (Seq<Seq<int>>, Seq<Seq<int>>),
    NetError,
> {
    match dot_res(l.weights, l.input_dim, input, xc) {
        Err(e) => Err(e),
        Ok(wx) => match bc_res(EntryOp::Add, wx, xc, l.bias, 1) {
            Err(e) => Err(e),
            Ok(pre) => Ok((pre, act_grid(l.activation, pre, xc))),
        },
    }
}

/// The stacks of pre-activations and activations after running the first
/// `n` layers on input `x` (a grid of `xc` columns), or the first error on
/// the way.
pub open spec fn forward_upto(
    models: Seq<LayerModel>,
    x: Seq<Seq<int>>,
    xc: int,
    n: int,
) -> Result<(Seq<Seq<Seq<int>>>, Seq<Seq<Seq<int>>>), NetError>
    decreases n,
{
    if n <= 0 {
        Ok((Seq::empty(), Seq::empty()))
    } else {
        match forward_upto(models, x, xc, n - 1) {
            Err(e) => Err(e),
            Ok(st) => {
                let input = if n == 1 {
                    x
                } else {
                    st.1[n - 2]
                };
                match layer_forward(models[n - 1], input, xc) {
                    Err(e) => Err(e),
                    Ok(pa) => Ok((st.0.push(pa.0), st.1.push(pa.1))),
                }
            },
        }
    }
}

/// What one forward pass returns: the loss of the final activation against
/// the target, or the first error on the way.
pub open spec fn forward_res(
    models: Seq<LayerModel>,
    loss: Loss,
    x: Seq<Seq<int>>,
    xc: int,
    y: Seq<Seq<int>>,
) -> Result<int, NetError> {
    match forward_upto(models, x, xc, models.len() as int) {
        Err(e) => Err(e),
        Ok(st) => loss_res(loss, st.1.last(), y),
    }
}

/// Once the forward recursion has failed it stays failed: every longer
/// prefix returns the same error.
proof fn lemma_forward_err_mono(models: Seq<LayerModel>, x: Seq<Seq<int>>, xc: int, m: int, n: int)
    requires
        0 <= m <= n,
        forward_upto(models, x, xc, m) is Err,
    ensures
        forward_upto(models, x, xc, n) == forward_upto(models, x, xc, m),
    decreases n - m,
{
    if n > m {
        lemma_forward_err_mono(models, x, xc, m, n - 1);
    }
}

/// The column counts a sequence of matrices reports.
pub open spec fn mats_cols(s: Seq<Matrix>) -> Seq<int> {
    s.map_values(|m: Matrix| m.spec_cols())
}

/// Error and gradient terms of the layers from `i` to the top, computed
/// top layer first from the stored stacks, or the first error on the way.
/// The two sequences are indexed from layer `i`.  The top error is the
/// final activation minus the target; each lower error is the transposed
/// next weights applied to the next error, multiplied elementwise by the
/// activation derivative at the stored pre-activation; each gradient is
/// the layer's error applied to the transposed input of that layer (the
/// previous activation, or the sample itself for the first layer).
pub open spec fn backward_from(
    models: Seq<LayerModel>,
    pres: Seq<Seq<Seq<int>>>,
    pres_cols: Seq<int>,
    acts: Seq<Seq<Seq<int>>>,
    acts_cols: Seq<int>,
    x: Seq<Seq<int>>,
    xc: int,
    y: Seq<Seq<int>>,
    yc: int,
    i: int,
) -> Result<(Seq<Seq<Seq<int>>>, Seq<Seq<Seq<int>>>), NetError>
    decreases models.len() - i,
{
    let last = models.len() - 1;
    if i == last {
        match bc_res(EntryOp::Sub, acts[i], acts_cols[i], y, yc) {
            Err(e) => Err(e),
            Ok(etop) => {
                let inp = if i == 0 {
                    x
                } else {
                    acts[i - 1]
                };
                let ic = if i == 0 {
                    xc
                } else {
                    acts_cols[i - 1]
                };
                match dot_res(
                    etop,
                    acts_cols[i],
                    grid_t(inp, inp.len() as int, ic),
                    inp.len() as int,
                ) {
                    Err(e) => Err(e),
                    Ok(g) => Ok((seq![etop], seq![g])),
                }
            },
        }
    } else if i < last {
        match backward_from(models, pres, pres_cols, acts, acts_cols, x, xc, y, yc, i + 1) {
            Err(e) => Err(e),
            Ok(suffix) => {
                let e_next = suffix.0[0];
                let ec = acts_cols[last];
                let wt = grid_t(
                    models[i + 1].weights,
                    models[i + 1].neurons,
                    models[i + 1].input_dim,
                );
                match dot_res(wt, models[i + 1].neurons, e_next, ec) {
                    Err(e) => Err(e),
                    Ok(we) => match bc_res(
                        EntryOp::Mul,
                        we,
                        ec,
                        act_grad_grid(models[i].activation, pres[i], pres_cols[i]),
                        pres_cols[i],
                    ) {
                        Err(e) => Err(e),
                        Ok(ei) => {
                            let inp = if i == 0 {
                                x
                            } else {
                                acts[i - 1]
                            };
                            let ic = if i == 0 {
                                xc
                            } else {
                                acts_cols[i - 1]
                            };
                            match dot_res(
                                ei,
                                ec,
                                grid_t(inp, inp.len() as int, ic),
                                inp.len() as int,
                            ) {
                                Err(e) => Err(e),
                                Ok(g) => Ok((suffix.0.insert(0, ei), suffix.1.insert(0, g))),
                            }
                        },
                    },
                }
            },
        }
    } else {
        Ok((Seq::empty(), Seq::empty()))
    }
}

/// Once the backward recursion has failed at some layer, the whole pass
/// fails with that error.
proof fn lemma_backward_err_mono(
    models: Seq<LayerModel>,
    pres: Seq<Seq<Seq<int>>>,
    pres_cols: Seq<int>,
    acts: Seq<Seq<Seq<int>>>,
    acts_cols: Seq<int>,
    x: Seq<Seq<int>>,
    xc: int,
    y: Seq<Seq<int>>,
    yc: int,
    j: int,
    i: int,
)
    requires
        0 <= j <= i,
        backward_from(models, pres, pres_cols, acts, acts_cols, x, xc, y, yc, i) is Err,
    ensures
        backward_from(models, pres, pres_cols, acts, acts_cols, x, xc, y, yc, j) == backward_from(
            models,
            pres,
            pres_cols,
            acts,
            acts_cols,
            x,
            xc,
            y,
            yc,
            i,
        ),
    decreases i - j,
{
    if j < i {
        lemma_backward_err_mono(models, pres, pres_cols, acts, acts_cols, x, xc, y, yc, j + 1, i);
    }
}

/// The first `n` accumulator matrices with this sample's matching terms
/// added in, in index order, or the first error on the way.
pub open spec fn acc_upto(
    accs: Seq<Seq<Seq<int>>>,
    accs_cols: Seq<int>,
    deltas: Seq<Seq<Seq<int>>>,
    deltas_cols: Seq<int>,
    n: int,
) -> Result<Seq<Seq<Seq<int>>>, NetError>
    decreases n,
{
    if n <= 0 {
        Ok(Seq::empty())
    } else {
        match acc_upto(accs, accs_cols, deltas, deltas_cols, n - 1) {
            Err(e) => Err(e),
            Ok(pref) => {
                match bc_res(EntryOp::Add, accs[n - 1], accs_cols[n - 1], deltas[n - 1], deltas_cols[n - 1]) {
                    Err(e) => Err(e),
                    Ok(g) => Ok(pref.push(g)),
                }
            },
        }
    }
}

/// Once the accumulation has failed at some index it stays failed.
proof fn lemma_acc_err_mono(
    accs: Seq<Seq<Seq<int>>>,
    accs_cols: Seq<int>,
    deltas: Seq<Seq<Seq<int>>>,
    deltas_cols: Seq<int>,
    m: int,
    n: int,
)
    requires
        0 <= m <= n,
        acc_upto(accs, accs_cols, deltas, deltas_cols, m) is Err,
    ensures
        acc_upto(accs, accs_cols, deltas, deltas_cols, n) == acc_upto(
            accs,
            accs_cols,
            deltas,
            deltas_cols,
            m,
        ),
    decreases n - m,
{
    if n > m {
        lemma_acc_err_mono(accs, accs_cols, deltas, deltas_cols, m, n - 1);
    }
}

/// What one backward pass returns: the per-layer error and gradient terms
/// of this sample, added into the accumulators, or the first error on the
/// way.
pub open spec fn calc_res(
    models: Seq<LayerModel>,
    gaccs: Seq<Seq<Seq<int>>>,
    eaccs: Seq<Seq<Seq<int>>>,
    pres: Seq<Seq<Seq<int>>>,
    pres_cols: Seq<int>,
    acts: Seq<Seq<Seq<int>>>,
    acts_cols: Seq<int>,
    x: Seq<Seq<int>>,
    xc: int,
    y: Seq<Seq<int>>,
    yc: int,
) -> Result<(Seq<Seq<Seq<int>>>, Seq<Seq<Seq<int>>>), NetError> {
    match backward_from(models, pres, pres_cols, acts, acts_cols, x, xc, y, yc, 0) {
        Err(e) => Err(e),
        Ok(eg) => {
            let n = models.len() as int;
            let gacc_cols = Seq::new(models.len(), |i: int| models[i].input_dim);
            let eacc_cols = Seq::new(models.len(), |i: int| 1int);
            let gdelta_cols = Seq::new(
                models.len(),
                |i: int|
                    if i == 0 {
                        x.len() as int
                    } else {
                        acts[i - 1].len() as int
                    },
            );
            let edelta_cols = Seq::new(models.len(), |i: int| acts_cols[models.len() - 1]);
            match acc_upto(gaccs, gacc_cols, eg.1, gdelta_cols, n) {
                Err(e) => Err(e),
                Ok(ng) => match acc_upto(eaccs, eacc_cols, eg.0, edelta_cols, n) {
                    Err(e) => Err(e),
                    Ok(ne) => Ok((ng, ne)),
                },
            }
        },
    }
}

/// The weight and bias grids of a sequence of layers.
pub open spec fn layer_grids(s: Seq<Layer>) -> Seq<(Seq<Seq<int>>, Seq<Seq<int>>)> {
    s.map_values(|l: Layer| (l.weights@, l.bias@))
}

/// The first `n` layers after one update step with the given scale: each
/// weight matrix has the scaled gradient accumulator subtracted, each bias
/// the scaled error accumulator, in layer order, weights before bias; or
/// the first error on the way.
pub open spec fn update_upto(
    models: Seq<LayerModel>,
    gaccs: Seq<Seq<Seq<int>>>,
    eaccs: Seq<Seq<Seq<int>>>,
    scale: int,
    n: int,
) -> Result<Seq<(Seq<Seq<int>>, Seq<Seq<int>>)>, NetError>
    decreases n,
{
    if n <= 0 {
        Ok(Seq::empty())
    } else {
        match update_upto(models, gaccs, eaccs, scale, n - 1) {
            Err(e) => Err(e),
            Ok(pref) => {
                let l = models[n - 1];
                match bc_res(
                    EntryOp::Mul,
                    grid_const(l.neurons, l.input_dim, scale),
                    l.input_dim,
                    gaccs[n - 1],
                    l.input_dim,
                ) {
                    Err(e) => Err(e),
                    Ok(sw) => match bc_res(EntryOp::Sub, l.weights, l.input_dim, sw, l.input_dim) {
                        Err(e) => Err(e),
                        Ok(nw) => match bc_res(
                            EntryOp::Mul,
                            grid_const(l.neurons, 1, scale),
                            1,
                            eaccs[n - 1],
                            1,
                        ) {
                            Err(e) => Err(e),
                            Ok(sb) => match bc_res(EntryOp::Sub, l.bias, 1, sb, 1) {
                                Err(e) => Err(e),
                                Ok(nb) => Ok(pref.push((nw, nb))),
                            },
                        },
                    },
                }
            },
        }
    }
}

/// Once the update has failed at some layer it stays failed.
proof fn lemma_update_err_mono(
    models: Seq<LayerModel>,
    gaccs: Seq<Seq<Seq<int>>>,
    eaccs: Seq<Seq<Seq<int>>>,
    scale: int,
    m: int,
    n: int,
)
    requires
        0 <= m <= n,
        update_upto(models, gaccs, eaccs, scale, m) is Err,
    ensures
        update_upto(models, gaccs, eaccs, scale, n) == update_upto(models, gaccs, eaccs, scale, m),
    decreases n - m,
{
    if n > m {
        lemma_update_err_mono(models, gaccs, eaccs, scale, m, n - 1);
    }
}

/// The update step moves every weight entry against its accumulated
/// gradient: subtracting the scaled accumulator from a grid, through the
/// elementwise rules, succeeds whenever the scaled values and differences
/// are representable, and the resulting entry is exactly the old entry
/// minus `scale` times the accumulator entry.
pub proof fn lemma_update_direction(
    w: Seq<Seq<int>>,
    g: Seq<Seq<int>>,
    r: int,
    c: int,
    scale: int,
)
    requires
        0 <= r,
        0 <= c,
        crate::algebra::is_grid(w, r, c),
        crate::algebra::is_grid(g, r, c),
        forall|i: int, j: int|
            0 <= i < r && 0 <= j < c ==> crate::algebra::in_i64(scale * (#[trigger] g[i][j])),
        forall|i: int, j: int|
            0 <= i < r && 0 <= j < c ==> crate::algebra::in_i64(
                (#[trigger] w[i][j]) - scale * g[i][j],
            ),
    ensures
        ({
            let scaled = crate::algebra::bc_grid(EntryOp::Mul, grid_const(r, c, scale), c, g, c);
            let updated = crate::algebra::bc_grid(EntryOp::Sub, w, c, scaled, c);
            &&& bc_res(EntryOp::Mul, grid_const(r, c, scale), c, g, c) == Ok::<
                Seq<Seq<int>>,
                NetError,
            >(scaled)
            &&& bc_res(EntryOp::Sub, w, c, scaled, c) == Ok::<Seq<Seq<int>>, NetError>(updated)
            &&& forall|i: int, j: int|
                0 <= i < r && 0 <= j < c ==> #[trigger] updated[i][j] == w[i][j] - scale * g[i][j]
        }),
{
    let cg = grid_const(r, c, scale);
    let scaled = crate::algebra::bc_grid(EntryOp::Mul, cg, c, g, c);
    let updated = crate::algebra::bc_grid(EntryOp::Sub, w, c, scaled, c);
    assert forall|i: int, j: int| 0 <= i < r && 0 <= j < c implies #[trigger] crate::algebra::bc_entry(
        EntryOp::Mul,
        cg,
        g,
        c,
        i,
        j,
    ) == scale * g[i][j] by {
        if crate::algebra::bc_is_scalar(g, c) {
            assert(i == 0 && j == 0);
        }
    }
    assert(crate::algebra::bc_fits(EntryOp::Mul, cg, c, g, c));
    assert forall|i: int, j: int| 0 <= i < r && 0 <= j < c implies #[trigger] scaled[i][j] == scale
        * g[i][j] by {
    }
    assert forall|i: int, j: int| 0 <= i < r && 0 <= j < c implies #[trigger] crate::algebra::bc_entry(
        EntryOp::Sub,
        w,
        scaled,
        c,
        i,
        j,
    ) == w[i][j] - scale * g[i][j] by {
        if crate::algebra::bc_is_scalar(scaled, c) {
            assert(i == 0 && j == 0);
        }
    }
    assert(crate::algebra::bc_fits(EntryOp::Sub, w, c, scaled, c));
}

/// The layer stack with its training state.
pub struct Network {
    pub layers: Vec<Layer>,
    pub learning_rate: i64,
    pub loss_fn: Loss,
    pub feed_forward_states: FeedForwardStates,
    pub back_prop_states: Gradients,
}

impl Network {
    /// The mathematical content of the layer stack.
    pub open spec fn models(&self) -> Seq<LayerModel> {
        self.layers@.map_values(|l: Layer| l@)
    }

    /// The structural invariant of the engine: every layer is well formed,
    /// the accumulators hold one matrix per layer of the matching shape,
    /// the transient stacks are both empty or both hold one entry per
    /// layer, and the learning rate is positive.
    pub open spec fn wf(&self) -> bool {
        &&& forall|i: int| 0 <= i < self.layers@.len() ==> (#[trigger] self.layers@[i]).wf()
        &&& self.back_prop_states.gradients@.len() == self.layers@.len()
        &&& self.back_prop_states.errors@.len() == self.layers@.len()
        &&& forall|i: int|
            0 <= i < self.layers@.len() ==> {
                let g = #[trigger] self.back_prop_states.gradients@[i];
                &&& g.wf()
                &&& !g.transposed
                &&& g.spec_rows() == self.layers@[i].weights.spec_rows()
                &&& g.spec_cols() == self.layers@[i].weights.spec_cols()
            }
        &&& forall|i: int|
            0 <= i < self.layers@.len() ==> {
                let e = #[trigger] self.back_prop_states.errors@[i];
                &&& e.wf()
                &&& !e.transposed
                &&& e.spec_rows() == self.layers@[i].weights.spec_rows()
                &&& e.spec_cols() == 1
            }
        &&& self.feed_forward_states.pre_activation@.len()
            == self.feed_forward_states.activations@.len()
        &&& (self.feed_forward_states.pre_activation@.len() == 0
            || self.feed_forward_states.pre_activation@.len() == self.layers@.len())
        &&& forall|i: int|
            0 <= i < self.feed_forward_states.pre_activation@.len() ==> (
            #[trigger] self.feed_forward_states.pre_activation@[i]).wf()
        &&& forall|i: int|
            0 <= i < self.feed_forward_states.activations@.len() ==> (
            #[trigger] self.feed_forward_states.activations@[i]).wf()
        &&& self.learning_rate > 0
    }

    /// A fresh network with no layers, empty transient and accumulator
    /// state, the given loss, and the given positive learning rate.
    pub fn new(learning_rate: i64, loss_fn: Loss) -> (n: Network)
        requires
            learning_rate > 0,
        ensures
            n.wf(),
            n.layers@.len() == 0,
            n.learning_rate == learning_rate,
            n.loss_fn == loss_fn,
            !n.feed_forward_states.spec_initialised(),
    {
        Network {
            learning_rate,
            loss_fn,
            layers: Vec::new(),
            feed_forward_states: FeedForwardStates::new(),
            back_prop_states: Gradients::new(),
        }
    }

    /// The number of layers.
    pub fn depth(&self) -> (d: usize)
        ensures
            d == self.layers@.len(),
    {
        self.layers.len()
    }

    /// Appends the input layer: weights of shape `neurons` by `input_size`
    /// drawn uniformly from the unit range, a zero bias column, and a
    /// same-shaped pair of zero accumulators.
    pub fn add_inp_layer(&mut self, neurons: usize, input_size: usize, activation: Activation)
        requires
            old(self).wf(),
            !old(self).feed_forward_states.spec_initialised(),
            neurons * input_size <= usize::MAX,
        ensures
            final(self).wf(),
            !final(self).feed_forward_states.spec_initialised(),
            final(self).layers@.len() == old(self).layers@.len() + 1,
            forall|i: int|
                0 <= i < old(self).layers@.len() ==> final(self).layers@[i] == old(self).layers@[i],
            ({
                let l = final(self).layers@.last();
                &&& l.wf()
                &&& l.weights.spec_rows() == neurons
                &&& l.weights.spec_cols() == input_size
                &&& (forall|i: int, j: int|
                    0 <= i < neurons && 0 <= j < input_size ==> -1 <= #[trigger] l.weights@[i][j]
                        <= 1)
                &&& l.bias@ == grid_const(neurons as int, 1, 0)
                &&& l.activation == activation
            }),
            final(self).back_prop_states.gradients@.len() == old(self).layers@.len() + 1,
            forall|i: int|
                0 <= i < old(self).layers@.len() ==> final(self).back_prop_states.gradients@[i]
                    == old(self).back_prop_states.gradients@[i],
            final(self).back_prop_states.gradients@.last()@ == grid_const(
                neurons as int,
                input_size as int,
                0,
            ),
            final(self).back_prop_states.errors@.len() == old(self).layers@.len() + 1,
            forall|i: int|
                0 <= i < old(self).layers@.len() ==> final(self).back_prop_states.errors@[i] == old(self).back_prop_states.errors@[i],
            final(self).back_prop_states.errors@.last()@ == grid_const(neurons as int, 1, 0),
            final(self).feed_forward_states == old(self).feed_forward_states,
            final(self).learning_rate == old(self).learning_rate,
            final(self).loss_fn == old(self).loss_fn,
    {
        let weights = Matrix::uniform(neurons, input_size);
        let bias = Matrix::repeat(neurons, 1, 0);
        self.layers.push(Layer { weights, bias, activation });
        self.back_prop_states.gradients.push(Matrix::repeat(neurons, input_size, 0));
        self.back_prop_states.errors.push(Matrix::repeat(neurons, 1, 0));
    }

    /// Appends a hidden layer sized against the previous layer's neuron
    /// count.  Fails with `InvalidState`, changing nothing, when no input
    /// layer exists yet.
    pub fn add_layer(&mut self, neurons: usize, activation: Activation) -> (r: Result<
        (),
        NetError,
    >)
        requires
            old(self).wf(),
            !old(self).feed_forward_states.spec_initialised(),
            old(self).layers@.len() > 0 ==> neurons * old(self).layers@.last().weights.spec_rows()
                <= usize::MAX,
        ensures
            final(self).wf(),
            !final(self).feed_forward_states.spec_initialised(),
            old(self).layers@.len() == 0 ==> r == Err::<(), NetError>(NetError::InvalidState)
                && *final(self) == *old(self),
            old(self).layers@.len() > 0 ==> {
                let prev = old(self).layers@.last().weights.spec_rows();
                let l = final(self).layers@.last();
                &&& r == Ok::<(), NetError>(())
                &&& final(self).layers@.len() == old(self).layers@.len() + 1
                &&& (forall|i: int|
                    0 <= i < old(self).layers@.len() ==> final(self).layers@[i] == old(self).layers@[i])
                &&& l.wf()
                &&& l.weights.spec_rows() == neurons
                &&& l.weights.spec_cols() == prev
                &&& (forall|i: int, j: int|
                    0 <= i < neurons && 0 <= j < prev ==> -1 <= #[trigger] l.weights@[i][j] <= 1)
                &&& l.bias@ == grid_const(neurons as int, 1, 0)
                &&& l.activation == activation
                &&& final(self).back_prop_states.gradients@.len() == old(self).layers@.len() + 1
                &&& (forall|i: int|
                    0 <= i < old(self).layers@.len() ==> final(self).back_prop_states.gradients@[i] == old(self).back_prop_states.gradients@[i])
                &&& final(self).back_prop_states.gradients@.last()@ == grid_const(
                    neurons as int,
                    prev,
                    0,
                )
                &&& final(self).back_prop_states.errors@.len() == old(self).layers@.len() + 1
                &&& (forall|i: int|
                    0 <= i < old(self).layers@.len() ==> final(self).back_prop_states.errors@[i]
                        == old(self).back_prop_states.errors@[i])
                &&& final(self).back_prop_states.errors@.last()@ == grid_const(neurons as int, 1, 0)
                &&& final(self).feed_forward_states == old(self).feed_forward_states
                &&& final(self).learning_rate == old(self).learning_rate
                &&& final(self).loss_fn == old(self).loss_fn
            },
    {
        if self.layers.is_empty() {
            return Err(NetError::InvalidState);
        }
        let prev_rows = self.layers[self.layers.len() - 1].weights.rows();
        let weights = Matrix::uniform(neurons, prev_rows);
        let bias = Matrix::repeat(neurons, 1, 0);
        self.layers.push(Layer { weights, bias, activation });
        self.back_prop_states.gradients.push(Matrix::repeat(neurons, prev_rows, 0));
        self.back_prop_states.errors.push(Matrix::repeat(neurons, 1, 0));
        Ok(())
    }

    /// Runs one forward pass on the sample `x` with target `y` and returns
    /// the loss of the final activation.  Fails with `InvalidState`,
    /// changing nothing, when a previous forward pass has not been drained
    /// yet; otherwise it returns exactly what the spec-level interpreter
    /// returns, filling both transient stacks on success and changing
    /// nothing on an error.
    #[verifier::loop_isolation(false)]
    pub fn feed_forward(&mut self, x: &Matrix, y: &Matrix) -> (r: Result<i64, NetError>)
        requires
            old(self).wf(),
            old(self).layers@.len() >= 1,
            x.wf(),
            y.wf(),
        ensures
            final(self).wf(),
            old(self).feed_forward_states.spec_initialised() ==> r == Err::<i64, NetError>(
                NetError::InvalidState,
            ) && *final(self) == *old(self),
            !old(self).feed_forward_states.spec_initialised() ==> ({
                let fr = forward_res(old(self).models(), old(self).loss_fn, x@, x.spec_cols(), y@);
                match r {
                    Ok(v) => {
                        &&& fr == Ok::<int, NetError>(v as int)
                        &&& final(self).layers == old(self).layers
                        &&& final(self).back_prop_states == old(self).back_prop_states
                        &&& final(self).learning_rate == old(self).learning_rate
                        &&& final(self).loss_fn == old(self).loss_fn
                        &&& forward_upto(
                            old(self).models(),
                            x@,
                            x.spec_cols(),
                            old(self).layers@.len() as int,
                        ) == Ok::<(Seq<Seq<Seq<int>>>, Seq<Seq<Seq<int>>>), NetError>(
                            (
                                mats_views(final(self).feed_forward_states.pre_activation@),
                                mats_views(final(self).feed_forward_states.activations@),
                            ),
                        )
                    },
                    Err(e) => fr == Err::<int, NetError>(e) && *final(self) == *old(self),
                }
            }),
    {
        if self.feed_forward_states.is_initialised() {
            return Err(NetError::InvalidState);
        }
        let depth = self.layers.len();
        let ghost models = self.models();
        let ghost xg = x@;
        let ghost xc = x.spec_cols();
        let mut pres: Vec<Matrix> = Vec::new();
        let mut acts: Vec<Matrix> = Vec::new();
        proof {
            assert(mats_views(pres@) =~= Seq::<Seq<Seq<int>>>::empty());
            assert(mats_views(acts@) =~= Seq::<Seq<Seq<int>>>::empty());
        }
        let mut i: usize = 0;
        while i < depth
            invariant
                i <= depth,
                pres@.len() == i,
                acts@.len() == i,
                forall|k: int|
                    0 <= k < i ==> (#[trigger] acts@[k]).wf() && acts@[k].spec_cols() == xc,
                forall|k: int| 0 <= k < i ==> (#[trigger] pres@[k]).wf(),
                forward_upto(models, xg, xc, i as int) == Ok::<
                    (Seq<Seq<Seq<int>>>, Seq<Seq<Seq<int>>>),
                    NetError,
                >((mats_views(pres@), mats_views(acts@))),
            decreases depth - i,
        {
            proof {
                assert(models[i as int] == self.layers@[i as int]@);
            }
            let wx_r = if i == 0 {
                self.layers[i].weights.dot(x)
            } else {
                self.layers[i].weights.dot(&acts[i - 1])
            };
            let ghost input_g = if i == 0 {
                xg
            } else {
                mats_views(acts@)[i - 1]
            };
            let wx = match wx_r {
                Ok(m) => m,
                Err(e) => {
                    proof {
                        assert(layer_forward(models[i as int], input_g, xc) == Err::<
                            (Seq<Seq<int>>, Seq<Seq<int>>),
                            NetError,
                        >(e));
                        assert(forward_upto(models, xg, xc, i + 1) == Err::<
                            (Seq<Seq<Seq<int>>>, Seq<Seq<Seq<int>>>),
                            NetError,
                        >(e));
                        lemma_forward_err_mono(models, xg, xc, i + 1, depth as int);
                    }
                    return Err(e);
                },
            };
            let pre = match wx.add(&self.layers[i].bias) {
                Ok(m) => m,
                Err(e) => {
                    proof {
                        assert(layer_forward(models[i as int], input_g, xc) == Err::<
                            (Seq<Seq<int>>, Seq<Seq<int>>),
                            NetError,
                        >(e));
                        assert(forward_upto(models, xg, xc, i + 1) == Err::<
                            (Seq<Seq<Seq<int>>>, Seq<Seq<Seq<int>>>),
                            NetError,
                        >(e));
                        lemma_forward_err_mono(models, xg, xc, i + 1, depth as int);
                    }
                    return Err(e);
                },
            };
            let act = self.layers[i].activation.apply(&pre);
            let ghost pv0 = mats_views(pres@);
            let ghost av0 = mats_views(acts@);
            proof {
                assert(layer_forward(models[i as int], input_g, xc) == Ok::<
                    (Seq<Seq<int>>, Seq<Seq<int>>),
                    NetError,
                >((pre@, act@)));
            }
            pres.push(pre);
            acts.push(act);
            proof {
                assert(mats_views(pres@) =~= pv0.push(pre@));
                assert(mats_views(acts@) =~= av0.push(act@));
            }
            i = i + 1;
        }
        let loss_value = match self.loss_fn {
            Loss::SumSquaredError => sse(&acts[depth - 1], y),
        };
        proof {
            assert(mats_views(acts@)[depth - 1] == acts@[depth - 1]@);
        }
        match loss_value {
            Ok(v) => {
                self.feed_forward_states.pre_activation = pres;
                self.feed_forward_states.activations = acts;
                Ok(v)
            },
            Err(e) => Err(e),
        }
    }

    /// Computes this sample's error and gradient terms, one per layer,
    /// top layer first, without touching the accumulators.  Returns
    /// exactly what the backward interpreter returns from the stored
    /// stacks; the transpose flag of `x` is toggled around the first
    /// layer's gradient product and restored.
    #[verifier::rlimit(100)]
    #[verifier::spinoff_prover]
    #[verifier::loop_isolation(false)]
    fn backward_terms(&self, x: &mut Matrix, y: &Matrix) -> (r: Result<
        (Vec<Matrix>, Vec<Matrix>),
        NetError,
    >)
        requires
            self.wf(),
            self.layers@.len() >= 1,
            self.feed_forward_states.spec_initialised(),
            old(x).wf(),
            y.wf(),
        ensures
            *final(x) == *old(x),
            ({
                let br = backward_from(
                    self.models(),
                    mats_views(self.feed_forward_states.pre_activation@),
                    mats_cols(self.feed_forward_states.pre_activation@),
                    mats_views(self.feed_forward_states.activations@),
                    mats_cols(self.feed_forward_states.activations@),
                    old(x)@,
                    old(x).spec_cols(),
                    y@,
                    y.spec_cols(),
                    0,
                );
                match r {
                    Ok(eg) => {
                        &&& br == Ok::<(Seq<Seq<Seq<int>>>, Seq<Seq<Seq<int>>>), NetError>(
                            (mats_views(eg.0@), mats_views(eg.1@)),
                        )
                        &&& eg.0@.len() == self.layers@.len()
                        &&& eg.1@.len() == self.layers@.len()
                        &&& (forall|t: int|
                            0 <= t < self.layers@.len() ==> (#[trigger] eg.0@[t]).wf()
                                && eg.0@[t].spec_cols() == mats_cols(
                                self.feed_forward_states.activations@,
                            )[self.layers@.len() - 1])
                        &&& (forall|t: int|
                            0 <= t < self.layers@.len() ==> (#[trigger] eg.1@[t]).wf()
                                && eg.1@[t].spec_cols() == (if t == 0 {
                                old(x)@.len() as int
                            } else {
                                mats_views(self.feed_forward_states.activations@)[t - 1].len() as int
                            }))
                    },
                    Err(e) => br == Err::<(Seq<Seq<Seq<int>>>, Seq<Seq<Seq<int>>>), NetError>(e),
                }
            }),
    {
        let depth = self.layers.len();
        let ghost models = self.models();
        let ghost presv = mats_views(self.feed_forward_states.pre_activation@);
        let ghost pres_colsg = mats_cols(self.feed_forward_states.pre_activation@);
        let ghost actsv = mats_views(self.feed_forward_states.activations@);
        let ghost acts_colsg = mats_cols(self.feed_forward_states.activations@);
        let ghost xg = x@;
        let ghost xc = x.spec_cols();
        let ghost yg = y@;
        let ghost yc = y.spec_cols();
        proof {
            assert(models.len() == depth);
        }
        let mut errs: Vec<Matrix> = Vec::new();
        let mut grads: Vec<Matrix> = Vec::new();
        proof {
            assert(mats_views(errs@) =~= Seq::<Seq<Seq<int>>>::empty());
            assert(mats_views(grads@) =~= Seq::<Seq<Seq<int>>>::empty());
        }
        let mut i: usize = depth;
        while i > 0
            invariant
                i <= depth,
                errs@.len() == depth - i,
                grads@.len() == depth - i,
                *x == *old(x),
                forall|t: int|
                    0 <= t < depth - i ==> (#[trigger] errs@[t]).wf() && errs@[t].spec_cols()
                        == acts_colsg[depth - 1],
                forall|t: int|
                    0 <= t < depth - i ==> (#[trigger] grads@[t]).wf() && grads@[t].spec_cols()
                        == (if i + t == 0 {
                        xg.len() as int
                    } else {
                        actsv[i + t - 1].len() as int
                    }),
                backward_from(models, presv, pres_colsg, actsv, acts_colsg, xg, xc, yg, yc, i as int)
                    == Ok::<(Seq<Seq<Seq<int>>>, Seq<Seq<Seq<int>>>), NetError>(
                    (mats_views(errs@), mats_views(grads@)),
                ),
            decreases i,
        {
            i = i - 1;
            let ghost suffix = (mats_views(errs@), mats_views(grads@));
            proof {
                assert(models[i as int] == self.layers@[i as int]@);
                assert(actsv[i as int] == self.feed_forward_states.activations@[i as int]@);
                assert(presv[i as int] == self.feed_forward_states.pre_activation@[i as int]@);
                assert(acts_colsg[i as int]
                    == self.feed_forward_states.activations@[i as int].spec_cols());
                assert(pres_colsg[i as int]
                    == self.feed_forward_states.pre_activation@[i as int].spec_cols());
            }
            let e: Matrix;
            if i == depth - 1 {
                let er = self.feed_forward_states.activations[i].sub(y);
                e = match er {
                    Ok(m) => m,
                    Err(e2) => {
                        proof {
                            assert(bc_res(EntryOp::Sub, actsv[i as int], acts_colsg[i as int], yg, yc)
                                == Err::<Seq<Seq<int>>, NetError>(e2));
                            lemma_backward_err_mono(
                                models, presv, pres_colsg, actsv, acts_colsg, xg, xc, yg, yc,
                                0, i as int,
                            );
                        }
                        return Err(e2);
                    },
                };
                proof {
                    assert(bc_res(EntryOp::Sub, actsv[i as int], acts_colsg[i as int], yg, yc)
                        == Ok::<Seq<Seq<int>>, NetError>(e@));
                    assert(e.spec_cols() == acts_colsg[i as int]);
                }
            } else {
                proof {
                    assert(models[i + 1] == self.layers@[i + 1]@);
                    assert(mats_views(errs@)[0] == errs@[0]@);
                }
                let ghost wt_g = grid_t(
                    models[i + 1].weights,
                    models[i + 1].neurons,
                    models[i + 1].input_dim,
                );
                let wt = self.layers[i + 1].weights.transposed_dup();
                proof {
                    assert(wt@ == wt_g);
                    assert(wt.spec_cols() == models[i + 1].neurons);
                }
                let wer = wt.dot(&errs[0]);
                let we = match wer {
                    Ok(m) => m,
                    Err(e2) => {
                        proof {
                            assert(dot_res(wt_g, models[i + 1].neurons, suffix.0[0], acts_colsg[
                                depth - 1
                            ]) == Err::<Seq<Seq<int>>, NetError>(e2));
                            lemma_backward_err_mono(
                                models, presv, pres_colsg, actsv, acts_colsg, xg, xc, yg, yc,
                                0, i as int,
                            );
                        }
                        return Err(e2);
                    },
                };
                proof {
                    assert(dot_res(wt_g, models[i + 1].neurons, suffix.0[0], acts_colsg[depth - 1])
                        == Ok::<Seq<Seq<int>>, NetError>(we@));
                    assert(we.spec_cols() == acts_colsg[depth - 1]);
                }
                let dg = self.layers[i].activation.derivative(
                    &self.feed_forward_states.pre_activation[i],
                );
                proof {
                    assert(dg@ == act_grad_grid(
                        models[i as int].activation,
                        presv[i as int],
                        pres_colsg[i as int],
                    ));
                }
                let eir = we.mul(&dg);
                e = match eir {
                    Ok(m) => m,
                    Err(e2) => {
                        proof {
                            assert(bc_res(
                                EntryOp::Mul,
                                we@,
                                acts_colsg[depth - 1],
                                act_grad_grid(
                                    models[i as int].activation,
                                    presv[i as int],
                                    pres_colsg[i as int],
                                ),
                                pres_colsg[i as int],
                            ) == Err::<Seq<Seq<int>>, NetError>(e2));
                            lemma_backward_err_mono(
                                models, presv, pres_colsg, actsv, acts_colsg, xg, xc, yg, yc,
                                0, i as int,
                            );
                        }
                        return Err(e2);
                    },
                };
                proof {
                    assert(bc_res(
                        EntryOp::Mul,
                        we@,
                        acts_colsg[depth - 1],
                        act_grad_grid(
                            models[i as int].activation,
                            presv[i as int],
                            pres_colsg[i as int],
                        ),
                        pres_colsg[i as int],
                    ) == Ok::<Seq<Seq<int>>, NetError>(e@));
                    assert(e.spec_cols() == acts_colsg[depth - 1]);
                }
            }
            let ghost inp_g = if i == 0 {
                xg
            } else {
                actsv[i - 1]
            };
            let ghost ic_g = if i == 0 {
                xc
            } else {
                acts_colsg[i - 1]
            };
            let ghost ecols = if i == depth - 1 {
                acts_colsg[i as int]
            } else {
                acts_colsg[depth - 1]
            };
            let g: Matrix;
            if i == 0 {
                x.transpose();
                let gr = e.dot(x);
                x.transpose();
                proof {
                    assert(*x == *old(x));
                    assert(xg.len() == old(x).spec_rows());
                }
                g = match gr {
                    Ok(m) => m,
                    Err(e2) => {
                        proof {
                            assert(dot_res(e@, ecols, grid_t(inp_g, inp_g.len() as int, ic_g),
                                inp_g.len() as int) == Err::<Seq<Seq<int>>, NetError>(e2));
                            lemma_backward_err_mono(
                                models, presv, pres_colsg, actsv, acts_colsg, xg, xc, yg, yc,
                                0, i as int,
                            );
                        }
                        return Err(e2);
                    },
                };
            } else {
                proof {
                    assert(actsv[i - 1] == self.feed_forward_states.activations@[i - 1]@);
                    assert(acts_colsg[i - 1]
                        == self.feed_forward_states.activations@[i - 1].spec_cols());
                    assert(actsv[i - 1].len()
                        == self.feed_forward_states.activations@[i - 1].spec_rows());
                }
                let at = self.feed_forward_states.activations[i - 1].transposed_dup();
                proof {
                    assert(at@ == grid_t(inp_g, inp_g.len() as int, ic_g));
                }
                g = match e.dot(&at) {
                    Ok(m) => m,
                    Err(e2) => {
                        proof {
                            assert(dot_res(e@, ecols, grid_t(inp_g, inp_g.len() as int, ic_g),
                                inp_g.len() as int) == Err::<Seq<Seq<int>>, NetError>(e2));
                            lemma_backward_err_mono(
                                models, presv, pres_colsg, actsv, acts_colsg, xg, xc, yg, yc,
                                0, i as int,
                            );
                        }
                        return Err(e2);
                    },
                };
            }
            proof {
                assert(dot_res(e@, ecols, grid_t(inp_g, inp_g.len() as int, ic_g),
                    inp_g.len() as int) == Ok::<Seq<Seq<int>>, NetError>(g@));
            }
            let ghost ev0 = mats_views(errs@);
            let ghost gv0 = mats_views(grads@);
            errs.insert(0, e);
            grads.insert(0, g);
            proof {
                assert(mats_views(errs@) =~= ev0.insert(0, e@));
                assert(mats_views(grads@) =~= gv0.insert(0, g@));
                if i == depth - 1 {
                    assert(mats_views(errs@) =~= seq![e@]);
                    assert(mats_views(grads@) =~= seq![g@]);
                }
                assert(backward_from(
                    models, presv, pres_colsg, actsv, acts_colsg, xg, xc, yg, yc, i as int,
                ) == Ok::<(Seq<Seq<Seq<int>>>, Seq<Seq<Seq<int>>>), NetError>(
                    (mats_views(errs@), mats_views(grads@)),
                ));
            }
        }
        Ok((errs, grads))
    }

    /// Adds each delta matrix into the accumulator of the same index,
    /// returning the new accumulators in order, or the first error.
    #[verifier::loop_isolation(false)]
    fn add_into(accs: &Vec<Matrix>, deltas: &Vec<Matrix>) -> (r: Result<Vec<Matrix>, NetError>)
        requires
            accs@.len() == deltas@.len(),
            forall|t: int| 0 <= t < accs@.len() ==> (#[trigger] accs@[t]).wf(),
            forall|t: int| 0 <= t < deltas@.len() ==> (#[trigger] deltas@[t]).wf(),
        ensures
            ({
                let ar = acc_upto(
                    mats_views(accs@),
                    mats_cols(accs@),
                    mats_views(deltas@),
                    mats_cols(deltas@),
                    accs@.len() as int,
                );
                match r {
                    Ok(v) => {
                        &&& ar == Ok::<Seq<Seq<Seq<int>>>, NetError>(mats_views(v@))
                        &&& v@.len() == accs@.len()
                        &&& (forall|t: int|
                            0 <= t < v@.len() ==> {
                                let m = #[trigger] v@[t];
                                &&& m.wf()
                                &&& !m.transposed
                                &&& m.spec_rows() == accs@[t].spec_rows()
                                &&& m.spec_cols() == accs@[t].spec_cols()
                            })
                    },
                    Err(e) => ar == Err::<Seq<Seq<Seq<int>>>, NetError>(e),
                }
            }),
    {
        let n = accs.len();
        let ghost av = mats_views(accs@);
        let ghost ac = mats_cols(accs@);
        let ghost dv = mats_views(deltas@);
        let ghost dc = mats_cols(deltas@);
        let mut out: Vec<Matrix> = Vec::new();
        proof {
            assert(mats_views(out@) =~= Seq::<Seq<Seq<int>>>::empty());
        }
        let mut k: usize = 0;
        while k < n
            invariant
                k <= n,
                out@.len() == k,
                forall|t: int|
                    0 <= t < k ==> {
                        let m = #[trigger] out@[t];
                        &&& m.wf()
                        &&& !m.transposed
                        &&& m.spec_rows() == accs@[t].spec_rows()
                        &&& m.spec_cols() == accs@[t].spec_cols()
                    },
                acc_upto(av, ac, dv, dc, k as int) == Ok::<Seq<Seq<Seq<int>>>, NetError>(
                    mats_views(out@),
                ),
            decreases n - k,
        {
            proof {
                assert(av[k as int] == accs@[k as int]@);
                assert(dv[k as int] == deltas@[k as int]@);
                assert(ac[k as int] == accs@[k as int].spec_cols());
                assert(dc[k as int] == deltas@[k as int].spec_cols());
            }
            let sum = match accs[k].add(&deltas[k]) {
                Ok(m) => m,
                Err(e2) => {
                    proof {
                        assert(acc_upto(av, ac, dv, dc, k + 1) == Err::<
                            Seq<Seq<Seq<int>>>,
                            NetError,
                        >(e2));
                        lemma_acc_err_mono(av, ac, dv, dc, k + 1, n as int);
                    }
                    return Err(e2);
                },
            };
            let ghost ov0 = mats_views(out@);
            out.push(sum);
            proof {
                assert(mats_views(out@) =~= ov0.push(sum@));
            }
            k = k + 1;
        }
        Ok(out)
    }

    /// Runs one backward pass for the sample `x` with target `y`, draining
    /// the transient stacks and adding this sample's gradient and error
    /// terms into the mini-batch accumulators.  Fails with `InvalidState`,
    /// changing nothing, when no forward pass is stored; otherwise it
    /// returns exactly what the spec-level interpreter returns, changing
    /// nothing on an error.  The transpose flag of `x` is toggled around
    /// the first layer's gradient product and restored, so `x` comes back
    /// unchanged.
    #[verifier::rlimit(60)]
    pub fn calc_gradients(&mut self, x: &mut Matrix, y: &Matrix) -> (r: Result<(), NetError>)
        requires
            old(self).wf(),
            old(self).layers@.len() >= 1,
            old(x).wf(),
            y.wf(),
        ensures
            final(self).wf(),
            *final(x) == *old(x),
            !old(self).feed_forward_states.spec_initialised() ==> r == Err::<(), NetError>(
                NetError::InvalidState,
            ) && *final(self) == *old(self),
            old(self).feed_forward_states.spec_initialised() ==> ({
                let cr = calc_res(
                    old(self).models(),
                    mats_views(old(self).back_prop_states.gradients@),
                    mats_views(old(self).back_prop_states.errors@),
                    mats_views(old(self).feed_forward_states.pre_activation@),
                    mats_cols(old(self).feed_forward_states.pre_activation@),
                    mats_views(old(self).feed_forward_states.activations@),
                    mats_cols(old(self).feed_forward_states.activations@),
                    old(x)@,
                    old(x).spec_cols(),
                    y@,
                    y.spec_cols(),
                );
                match r {
                    Ok(u) => {
                        &&& cr == Ok::<(Seq<Seq<Seq<int>>>, Seq<Seq<Seq<int>>>), NetError>(
                            (
                                mats_views(final(self).back_prop_states.gradients@),
                                mats_views(final(self).back_prop_states.errors@),
                            ),
                        )
                        &&& final(self).layers == old(self).layers
                        &&& final(self).feed_forward_states.pre_activation@.len() == 0
                        &&& final(self).feed_forward_states.activations@.len() == 0
                        &&& final(self).learning_rate == old(self).learning_rate
                        &&& final(self).loss_fn == old(self).loss_fn
                    },
                    Err(e) => cr == Err::<(Seq<Seq<Seq<int>>>, Seq<Seq<Seq<int>>>), NetError>(e)
                        && *final(self) == *old(self),
                }
            }),
    {
        if !self.feed_forward_states.is_initialised() {
            return Err(NetError::InvalidState);
        }
        let depth = self.layers.len();
        let ghost models = self.models();
        let ghost actsv = mats_views(self.feed_forward_states.activations@);
        let ghost acts_colsg = mats_cols(self.feed_forward_states.activations@);
        let ghost xg = x@;
        let ghost gacc_cols = Seq::new(models.len(), |t: int| models[t].input_dim);
        let ghost eacc_cols = Seq::new(models.len(), |t: int| 1int);
        let ghost gdelta_cols = Seq::new(
            models.len(),
            |t: int|
                if t == 0 {
                    xg.len() as int
                } else {
                    actsv[t - 1].len() as int
                },
        );
        let ghost edelta_cols = Seq::new(models.len(), |t: int| acts_colsg[models.len() - 1]);
        let terms = match self.backward_terms(x, y) {
            Ok(t) => t,
            Err(e2) => {
                return Err(e2);
            },
        };
        let (errs, grads) = terms;
        proof {
            assert(models.len() == depth);
            assert forall|t: int| 0 <= t < depth implies mats_cols(
                self.back_prop_states.gradients@,
            )[t] == gacc_cols[t] by {
                assert(self.back_prop_states.gradients@[t].spec_cols()
                    == self.layers@[t].weights.spec_cols());
                assert(models[t] == self.layers@[t]@);
            }
            assert(mats_cols(self.back_prop_states.gradients@) =~= gacc_cols);
            assert forall|t: int| 0 <= t < depth implies mats_cols(
                self.back_prop_states.errors@,
            )[t] == eacc_cols[t] by {
                assert(self.back_prop_states.errors@[t].spec_cols() == 1);
            }
            assert(mats_cols(self.back_prop_states.errors@) =~= eacc_cols);
            assert forall|t: int| 0 <= t < depth implies mats_cols(grads@)[t] == gdelta_cols[t] by {
                assert(grads@[t].spec_cols() == (if t == 0 {
                    xg.len() as int
                } else {
                    actsv[t - 1].len() as int
                }));
            }
            assert(mats_cols(grads@) =~= gdelta_cols);
            assert forall|t: int| 0 <= t < depth implies mats_cols(errs@)[t] == edelta_cols[t] by {
                assert(errs@[t].spec_cols() == acts_colsg[depth - 1]);
            }
            assert(mats_cols(errs@) =~= edelta_cols);
        }
        let new_grads = match Self::add_into(&self.back_prop_states.gradients, &grads) {
            Ok(v) => v,
            Err(e2) => {
                proof {
                    assert(acc_upto(
                        mats_views(self.back_prop_states.gradients@),
                        gacc_cols,
                        mats_views(grads@),
                        gdelta_cols,
                        depth as int,
                    ) == Err::<Seq<Seq<Seq<int>>>, NetError>(e2));
                }
                return Err(e2);
            },
        };
        let new_errs = match Self::add_into(&self.back_prop_states.errors, &errs) {
            Ok(v) => v,
            Err(e2) => {
                proof {
                    assert(acc_upto(
                        mats_views(self.back_prop_states.errors@),
                        eacc_cols,
                        mats_views(errs@),
                        edelta_cols,
                        depth as int,
                    ) == Err::<Seq<Seq<Seq<int>>>, NetError>(e2));
                }
                return Err(e2);
            },
        };
        self.back_prop_states.gradients = new_grads;
        self.back_prop_states.errors = new_errs;
        self.feed_forward_states.pre_activation = Vec::new();
        self.feed_forward_states.activations = Vec::new();
        Ok(())
    }

    /// Applies one mini-batch update: every layer's weights decrease by the
    /// gradient accumulator scaled by the learning rate over the batch
    /// size, and its bias by the error accumulator scaled the same way.
    /// The scale is the integer quotient of the two.  The accumulators are
    /// not reset: that is the caller's explicit step, `reset_gradients`,
    /// once per batch boundary.  On an error nothing changes.
    #[verifier::rlimit(60)]
    #[verifier::loop_isolation(false)]
    pub fn update_gradients(&mut self, batch_size: usize) -> (r: Result<(), NetError>)
        requires
            old(self).wf(),
            1 <= batch_size <= i64::MAX,
        ensures
            final(self).wf(),
            ({
                let scale = old(self).learning_rate as int / batch_size as int;
                let ur = update_upto(
                    old(self).models(),
                    mats_views(old(self).back_prop_states.gradients@),
                    mats_views(old(self).back_prop_states.errors@),
                    scale,
                    old(self).layers@.len() as int,
                );
                match r {
                    Ok(u) => {
                        &&& ur == Ok::<Seq<(Seq<Seq<int>>, Seq<Seq<int>>)>, NetError>(
                            layer_grids(final(self).layers@),
                        )
                        &&& final(self).layers@.len() == old(self).layers@.len()
                        &&& (forall|i: int|
                            0 <= i < old(self).layers@.len() ==> {
                                let nl = #[trigger] final(self).layers@[i];
                                let ol = old(self).layers@[i];
                                &&& nl.activation == ol.activation
                                &&& nl.weights.spec_rows() == ol.weights.spec_rows()
                                &&& nl.weights.spec_cols() == ol.weights.spec_cols()
                                &&& nl.bias.spec_rows() == ol.bias.spec_rows()
                                &&& nl.bias.spec_cols() == 1
                            })
                        &&& final(self).back_prop_states == old(self).back_prop_states
                        &&& final(self).feed_forward_states == old(self).feed_forward_states
                        &&& final(self).learning_rate == old(self).learning_rate
                        &&& final(self).loss_fn == old(self).loss_fn
                    },
                    Err(e) => ur == Err::<Seq<(Seq<Seq<int>>, Seq<Seq<int>>)>, NetError>(e)
                        && *final(self) == *old(self),
                }
            }),
    {
        let depth = self.layers.len();
        let ghost models = self.models();
        let ghost gaccv = mats_views(self.back_prop_states.gradients@);
        let ghost eaccv = mats_views(self.back_prop_states.errors@);
        let scale: i64 = match self.learning_rate.checked_div(batch_size as i64) {
            Some(v) => v,
            None => 0,
        };
        proof {
            assert(scale as int == self.learning_rate as int / batch_size as int);
            assert(models.len() == depth);
        }
        let mut new_layers: Vec<Layer> = Vec::new();
        proof {
            assert(layer_grids(new_layers@) =~= Seq::<(Seq<Seq<int>>, Seq<Seq<int>>)>::empty());
        }
        let mut i: usize = 0;
        while i < depth
            invariant
                i <= depth,
                new_layers@.len() == i,
                forall|t: int|
                    0 <= t < i ==> {
                        let nl = #[trigger] new_layers@[t];
                        let ol = self.layers@[t];
                        &&& nl.wf()
                        &&& nl.activation == ol.activation
                        &&& nl.weights.spec_rows() == ol.weights.spec_rows()
                        &&& nl.weights.spec_cols() == ol.weights.spec_cols()
                        &&& nl.bias.spec_rows() == ol.bias.spec_rows()
                        &&& nl.bias.spec_cols() == 1
                    },
                update_upto(models, gaccv, eaccv, scale as int, i as int) == Ok::<
                    Seq<(Seq<Seq<int>>, Seq<Seq<int>>)>,
                    NetError,
                >(layer_grids(new_layers@)),
            decreases depth - i,
        {
            proof {
                assert(models[i as int] == self.layers@[i as int]@);
                assert(gaccv[i as int] == self.back_prop_states.gradients@[i as int]@);
                assert(eaccv[i as int] == self.back_prop_states.errors@[i as int]@);
            }
            let w_rows = self.layers[i].weights.rows();
            let w_cols = self.layers[i].weights.cols();
            let scale_w = Matrix::repeat(w_rows, w_cols, scale);
            let sw = match scale_w.mul(&self.back_prop_states.gradients[i]) {
                Ok(m) => m,
                Err(e2) => {
                    proof {
                        assert(update_upto(models, gaccv, eaccv, scale as int, i + 1) == Err::<
                            Seq<(Seq<Seq<int>>, Seq<Seq<int>>)>,
                            NetError,
                        >(e2));
                        lemma_update_err_mono(models, gaccv, eaccv, scale as int, i + 1, depth as int);
                    }
                    return Err(e2);
                },
            };
            let nw = match self.layers[i].weights.sub(&sw) {
                Ok(m) => m,
                Err(e2) => {
                    proof {
                        assert(update_upto(models, gaccv, eaccv, scale as int, i + 1) == Err::<
                            Seq<(Seq<Seq<int>>, Seq<Seq<int>>)>,
                            NetError,
                        >(e2));
                        lemma_update_err_mono(models, gaccv, eaccv, scale as int, i + 1, depth as int);
                    }
                    return Err(e2);
                },
            };
            let b_rows = self.layers[i].bias.rows();
            let b_cols = self.layers[i].bias.cols();
            let scale_b = Matrix::repeat(b_rows, b_cols, scale);
            let sb = match scale_b.mul(&self.back_prop_states.errors[i]) {
                Ok(m) => m,
                Err(e2) => {
                    proof {
                        assert(update_upto(models, gaccv, eaccv, scale as int, i + 1) == Err::<
                            Seq<(Seq<Seq<int>>, Seq<Seq<int>>)>,
                            NetError,
                        >(e2));
                        lemma_update_err_mono(models, gaccv, eaccv, scale as int, i + 1, depth as int);
                    }
                    return Err(e2);
                },
            };
            let nb = match self.layers[i].bias.sub(&sb) {
                Ok(m) => m,
                Err(e2) => {
                    proof {
                        assert(update_upto(models, gaccv, eaccv, scale as int, i + 1) == Err::<
                            Seq<(Seq<Seq<int>>, Seq<Seq<int>>)>,
                            NetError,
                        >(e2));
                        lemma_update_err_mono(models, gaccv, eaccv, scale as int, i + 1, depth as int);
                    }
                    return Err(e2);
                },
            };
            let activation = self.layers[i].activation;
            let ghost lg0 = layer_grids(new_layers@);
            new_layers.push(Layer { weights: nw, bias: nb, activation });
            proof {
                assert(layer_grids(new_layers@) =~= lg0.push(
                    (new_layers@.last().weights@, new_layers@.last().bias@),
                ));
            }
            i = i + 1;
        }
        self.layers = new_layers;
        Ok(())
    }

    /// Resets both mini-batch accumulators to zero, one matrix per layer of
    /// the matching shape, leaving everything else untouched.  The update
    /// step deliberately keeps the sums, so the training loop calls this
    /// once per batch boundary to start the next batch from a fresh state.
    #[verifier::loop_isolation(false)]
    pub fn reset_gradients(&mut self)
        requires
            old(self).wf(),
        ensures
            final(self).wf(),
            final(self).layers == old(self).layers,
            final(self).feed_forward_states == old(self).feed_forward_states,
            final(self).learning_rate == old(self).learning_rate,
            final(self).loss_fn == old(self).loss_fn,
            final(self).back_prop_states.gradients@.len() == old(self).layers@.len(),
            final(self).back_prop_states.errors@.len() == old(self).layers@.len(),
            forall|i: int|
                0 <= i < old(self).layers@.len() ==> final(self).back_prop_states.gradients@[i]@
                    == grid_const(
                    old(self).layers@[i].weights.spec_rows(),
                    old(self).layers@[i].weights.spec_cols(),
                    0,
                ) && final(self).back_prop_states.errors@[i]@ == grid_const(
                    old(self).layers@[i].weights.spec_rows(),
                    1,
                    0,
                ),
    {
        let depth = self.layers.len();
        let mut new_grads: Vec<Matrix> = Vec::new();
        let mut new_errs: Vec<Matrix> = Vec::new();
        let mut i: usize = 0;
        while i < depth
            invariant
                i <= depth,
                new_grads@.len() == i,
                new_errs@.len() == i,
                forall|t: int|
                    0 <= t < i ==> {
                        let g = #[trigger] new_grads@[t];
                        &&& g.wf()
                        &&& !g.transposed
                        &&& g.spec_rows() == self.layers@[t].weights.spec_rows()
                        &&& g.spec_cols() == self.layers@[t].weights.spec_cols()
                        &&& g@ == grid_const(
                            self.layers@[t].weights.spec_rows(),
                            self.layers@[t].weights.spec_cols(),
                            0,
                        )
                    },
                forall|t: int|
                    0 <= t < i ==> {
                        let e = #[trigger] new_errs@[t];
                        &&& e.wf()
                        &&& !e.transposed
                        &&& e.spec_rows() == self.layers@[t].weights.spec_rows()
                        &&& e.spec_cols() == 1
                        &&& e@ == grid_const(self.layers@[t].weights.spec_rows(), 1, 0)
                    },
            decreases depth - i,
        {
            let w_rows = self.layers[i].weights.rows();
            let w_cols = self.layers[i].weights.cols();
            new_grads.push(Matrix::repeat(w_rows, w_cols, 0));
            new_errs.push(Matrix::repeat(w_rows, 1, 0));
            i = i + 1;
        }
        self.back_prop_states.gradients = new_grads;
        self.back_prop_states.errors = new_errs;
    }
}

} // verus!
