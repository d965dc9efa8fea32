use perceptron::relu;
use perceptron::Activation;
use perceptron::Loss;
use perceptron::Matrix;
use perceptron::NetError;
use perceptron::Network;

#[test]
fn test_relu() {
    let m = Matrix::new(2, 2, vec![1, 1, 1, 1]).unwrap();
    let r = relu(&m);
    assert!(r.data.iter().all(|&x| x >= 0));

    let m = Matrix::new(2, 2, vec![1, -1, -1, -231]).unwrap();
    let r = relu(&m);
    assert!(r.data.iter().all(|&x| x >= 0));

    let m = Matrix::new(2, 2, vec![0, -1, -1, -231]).unwrap();
    let r = relu(&m);
    assert!(r.data.iter().all(|&x| x >= 0));
}

#[test]
fn d_relu_is_indicator() {
    let m = Matrix::new(1, 4, vec![3, 0, -2, 7]).unwrap();
    let r = perceptron::d_relu(&m);
    assert_eq!(r.data, vec![1, 0, 0, 1]);
}

#[test]
fn sse_sums_squared_differences() {
    let p = Matrix::new(3, 1, vec![1, 2, 3]).unwrap();
    let a = Matrix::new(3, 1, vec![1, 1, 1]).unwrap();
    assert_eq!(perceptron::sse(&p, &a).unwrap(), 5);
}

#[test]
fn sse_rejects_mismatched_rows() {
    let p = Matrix::new(3, 1, vec![1, 2, 3]).unwrap();
    let a = Matrix::new(2, 1, vec![1, 1]).unwrap();
    assert_eq!(perceptron::sse(&p, &a).unwrap_err(), NetError::DimensionMismatch);
}

fn fixed_two_layer_network() -> Network {
    let mut nn = Network::new(4, Loss::SumSquaredError);
    nn.add_inp_layer(2, 2, Activation::Identity);
    nn.add_layer(1, Activation::Identity).unwrap();
    nn.layers[0].weights = Matrix::new(2, 2, vec![1, 0, 0, 1]).unwrap();
    nn.layers[0].bias = Matrix::new(2, 1, vec![0, 0]).unwrap();
    nn.layers[1].weights = Matrix::new(1, 2, vec![1, 1]).unwrap();
    nn.layers[1].bias = Matrix::new(1, 1, vec![0]).unwrap();
    nn
}

#[test]
fn depth_counts_layers() {
    let nn = fixed_two_layer_network();
    assert_eq!(nn.depth(), 2);
}

#[test]
fn add_layer_before_input_layer_fails() {
    let mut nn = Network::new(1, Loss::SumSquaredError);
    assert_eq!(
        nn.add_layer(3, Activation::Relu).unwrap_err(),
        NetError::InvalidState
    );
}

// Forward then backward on a fixed two-layer network reproduces the
// hand-computed loss, gradients and errors.
#[test]
fn backward_pass_matches_hand_computation() {
    let mut nn = fixed_two_layer_network();
    let mut x = Matrix::new(2, 1, vec![1, 2]).unwrap();
    let y = Matrix::new(1, 1, vec![1]).unwrap();

    let loss = nn.feed_forward(&x, &y).unwrap();
    assert_eq!(loss, 4);

    nn.calc_gradients(&mut x, &y).unwrap();
    assert_eq!(x.data, vec![1, 2]);
    assert_eq!(x.rows(), 2);

    assert_eq!(nn.back_prop_states.gradients[1].data, vec![2, 4]);
    assert_eq!(nn.back_prop_states.gradients[0].data, vec![2, 4, 2, 4]);
    assert_eq!(nn.back_prop_states.errors[1].data, vec![2]);
    assert_eq!(nn.back_prop_states.errors[0].data, vec![2, 2]);
}

#[test]
fn calc_gradients_before_feed_forward_fails() {
    let mut nn = fixed_two_layer_network();
    let mut x = Matrix::new(2, 1, vec![1, 2]).unwrap();
    let y = Matrix::new(1, 1, vec![1]).unwrap();

    assert_eq!(nn.calc_gradients(&mut x, &y).unwrap_err(), NetError::InvalidState);
}

#[test]
fn feed_forward_twice_without_draining_fails() {
    let mut nn = fixed_two_layer_network();
    let x = Matrix::new(2, 1, vec![1, 2]).unwrap();
    let y = Matrix::new(1, 1, vec![1]).unwrap();

    nn.feed_forward(&x, &y).unwrap();
    assert_eq!(nn.feed_forward(&x, &y).unwrap_err(), NetError::InvalidState);
}

#[test]
fn feed_forward_rejects_wrong_input_rows() {
    let mut nn = fixed_two_layer_network();
    let x = Matrix::new(3, 1, vec![1, 2, 3]).unwrap();
    let y = Matrix::new(1, 1, vec![1]).unwrap();

    assert_eq!(nn.feed_forward(&x, &y).unwrap_err(), NetError::DimensionMismatch);
}

#[test]
fn feed_forward_rejects_wrong_target_rows() {
    let mut nn = fixed_two_layer_network();
    let x = Matrix::new(2, 1, vec![1, 2]).unwrap();
    let y = Matrix::new(2, 1, vec![1, 1]).unwrap();

    assert_eq!(nn.feed_forward(&x, &y).unwrap_err(), NetError::DimensionMismatch);
}

#[test]
fn feed_forward_reports_overflow() {
    let mut nn = Network::new(1, Loss::SumSquaredError);
    nn.add_inp_layer(1, 1, Activation::Identity);
    nn.layers[0].weights = Matrix::new(1, 1, vec![i64::MAX]).unwrap();
    let x = Matrix::new(1, 1, vec![2]).unwrap();
    let y = Matrix::new(1, 1, vec![0]).unwrap();

    assert_eq!(nn.feed_forward(&x, &y).unwrap_err(), NetError::Overflow);
}

#[test]
fn relu_forward_clamps_negative_preactivations() {
    let mut nn = Network::new(1, Loss::SumSquaredError);
    nn.add_inp_layer(2, 1, Activation::Relu);
    nn.layers[0].weights = Matrix::new(2, 1, vec![1, -1]).unwrap();
    nn.layers[0].bias = Matrix::new(2, 1, vec![0, 0]).unwrap();
    let x = Matrix::new(1, 1, vec![3]).unwrap();
    let y = Matrix::new(2, 1, vec![3, 0]).unwrap();

    // pre-activation [3, -3], activation [3, 0], loss 0
    let loss = nn.feed_forward(&x, &y).unwrap();
    assert_eq!(loss, 0);
    assert_eq!(nn.feed_forward_states.activations[0].data, vec![3, 0]);
}

// A toy mini-batch of two identical samples: after the update every weight
// and bias has moved by minus the accumulated gradient times the integer
// quotient of the learning rate by the batch size.
#[test]
fn update_moves_weights_against_gradient() {
    let mut nn = fixed_two_layer_network();
    let y = Matrix::new(1, 1, vec![1]).unwrap();

    for _ in 0..2 {
        let mut x = Matrix::new(2, 1, vec![1, 2]).unwrap();
        nn.feed_forward(&x, &y).unwrap();
        nn.calc_gradients(&mut x, &y).unwrap();
    }
    // accumulated over the batch: gradients[0] = [[4,8],[4,8]],
    // gradients[1] = [[4,8]], errors[0] = [4,4], errors[1] = [4]
    assert_eq!(nn.back_prop_states.gradients[0].data, vec![4, 8, 4, 8]);

    nn.update_gradients(2).unwrap();
    // scale = learning_rate / batch_size = 4 / 2 = 2
    assert_eq!(nn.layers[0].weights.data, vec![1 - 2 * 4, 0 - 2 * 8, 0 - 2 * 4, 1 - 2 * 8]);
    assert_eq!(nn.layers[0].bias.data, vec![-8, -8]);
    assert_eq!(nn.layers[1].weights.data, vec![1 - 2 * 4, 1 - 2 * 8]);
    assert_eq!(nn.layers[1].bias.data, vec![-8]);
    // the accumulators are kept, not reset
    assert_eq!(nn.back_prop_states.gradients[0].data, vec![4, 8, 4, 8]);
}

#[test]
fn reset_gradients_zeroes_accumulators() {
    let mut nn = fixed_two_layer_network();
    let mut x = Matrix::new(2, 1, vec![1, 2]).unwrap();
    let y = Matrix::new(1, 1, vec![1]).unwrap();

    nn.feed_forward(&x, &y).unwrap();
    nn.calc_gradients(&mut x, &y).unwrap();
    assert!(nn.back_prop_states.gradients[0].data.iter().any(|&v| v != 0));

    nn.reset_gradients();
    assert_eq!(nn.back_prop_states.gradients[0].data, vec![0, 0, 0, 0]);
    assert_eq!(nn.back_prop_states.gradients[1].data, vec![0, 0]);
    assert_eq!(nn.back_prop_states.errors[0].data, vec![0, 0]);
    assert_eq!(nn.back_prop_states.errors[1].data, vec![0]);
}

#[test]
fn single_layer_backward_uses_the_sample() {
    let mut nn = Network::new(1, Loss::SumSquaredError);
    nn.add_inp_layer(1, 2, Activation::Identity);
    nn.layers[0].weights = Matrix::new(1, 2, vec![2, 3]).unwrap();
    nn.layers[0].bias = Matrix::new(1, 1, vec![0]).unwrap();
    let mut x = Matrix::new(2, 1, vec![1, 2]).unwrap();
    let y = Matrix::new(1, 1, vec![5]).unwrap();

    // activation = 2*1 + 3*2 = 8; loss = (8-5)^2 = 9
    assert_eq!(nn.feed_forward(&x, &y).unwrap(), 9);
    nn.calc_gradients(&mut x, &y).unwrap();
    // error = 8 - 5 = 3; gradient = 3 * [1, 2]
    assert_eq!(nn.back_prop_states.errors[0].data, vec![3]);
    assert_eq!(nn.back_prop_states.gradients[0].data, vec![3, 6]);
}

#[test]
fn is_initialised_tracks_forward_state() {
    let mut nn = fixed_two_layer_network();
    assert!(!nn.feed_forward_states.is_initialised());
    let x = Matrix::new(2, 1, vec![1, 2]).unwrap();
    let y = Matrix::new(1, 1, vec![1]).unwrap();
    nn.feed_forward(&x, &y).unwrap();
    assert!(nn.feed_forward_states.is_initialised());
}
