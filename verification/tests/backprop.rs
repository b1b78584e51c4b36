use neural_network::{Activation, Graph, Layer, Matrix, Operator, Scalar, NN};

fn leaf(vals: &[i64], shape: (usize, usize), g: &mut Graph) -> Matrix {
    let data: Vec<Scalar> = vals.iter().map(|v| Scalar::from_int(*v)).collect();
    Matrix::from_vec(data, shape, true, g).unwrap()
}

fn rationals(vals: &[(i64, i64)]) -> Vec<Scalar> {
    vals.iter().map(|(n, d)| Scalar::new(*n, *d)).collect()
}

#[test]
fn backprop_basic_operators() {
    let mut g = Graph::new();

    let a = leaf(&[2, 3], (1, 2), &mut g);
    let b = leaf(&[4, 2], (1, 2), &mut g);

    let c = a.add(&b, &mut g).unwrap();
    let d = a.sub(&b, &mut g).unwrap();
    let e = a.mul(&b, &mut g).unwrap();
    let f = a.div(&b, &mut g).unwrap();

    let grads_c = c.backward(&mut g).unwrap();
    let grads_d = d.backward(&mut g).unwrap();
    let grads_e = e.backward(&mut g).unwrap();
    let grads_f = f.backward(&mut g).unwrap();

    assert_eq!(grads_c.get(a.id()).unwrap().data(&g), &rationals(&[(1, 1), (1, 1)]));
    assert_eq!(grads_c.get(b.id()).unwrap().data(&g), &rationals(&[(1, 1), (1, 1)]));

    assert_eq!(grads_d.get(a.id()).unwrap().data(&g), &rationals(&[(1, 1), (1, 1)]));
    assert_eq!(grads_d.get(b.id()).unwrap().data(&g), &rationals(&[(-1, 1), (-1, 1)]));

    assert_eq!(grads_e.get(a.id()).unwrap().data(&g), &rationals(&[(4, 1), (2, 1)]));
    assert_eq!(grads_e.get(b.id()).unwrap().data(&g), &rationals(&[(2, 1), (3, 1)]));

    assert_eq!(grads_f.get(a.id()).unwrap().data(&g), &rationals(&[(1, 4), (1, 2)]));
    assert_eq!(grads_f.get(b.id()).unwrap().data(&g), &rationals(&[(-2, 16), (-3, 4)]));
}

#[test]
fn backprop_matmul() {
    let mut g = Graph::new();
    // C = A @ B with A = [1 2] and B = [2 3]^t: dA = G @ B^t, dB = A^t @ G
    let a = leaf(&[1, 2], (1, 2), &mut g);
    let b = leaf(&[2, 3], (2, 1), &mut g);
    let c = a.matmul(&b, &mut g).unwrap();
    let grads = c.backward(&mut g).unwrap();
    assert_eq!(grads.get(a.id()).unwrap().data(&g), &rationals(&[(2, 1), (3, 1)]));
    assert_eq!(grads.get(b.id()).unwrap().data(&g), &rationals(&[(1, 1), (2, 1)]));
}

#[test]
fn backprop_unary_and_scalar_rules() {
    let mut g = Graph::new();

    // transpose: the gradient flowing back is the transposed seed
    let a = leaf(&[1, 2, 3, 4, 5, 6], (2, 3), &mut g);
    let t = a.t(&mut g);
    let grads_t = t.backward(&mut g).unwrap();
    assert_eq!(grads_t.get(a.id()).unwrap().shape(&g), (2, 3));
    assert_eq!(grads_t.get(a.id()).unwrap().data(&g), &rationals(&[(1, 1); 6]));

    // scalar product: d/dx (k * x) = k
    let b = leaf(&[5, 7], (1, 2), &mut g);
    let m = b.mul_scalar(Scalar::from_int(3), &mut g).unwrap();
    let grads_m = m.backward(&mut g).unwrap();
    assert_eq!(grads_m.get(b.id()).unwrap().data(&g), &rationals(&[(3, 1), (3, 1)]));

    // power: d/dx x^3 = 3 x^2
    let c = leaf(&[2, 5], (1, 2), &mut g);
    let p = c.powf(3, &mut g).unwrap();
    let grads_p = p.backward(&mut g).unwrap();
    assert_eq!(grads_p.get(c.id()).unwrap().data(&g), &rationals(&[(12, 1), (75, 1)]));

    // sigmoid: d/dx s(x) = s(x) * (1 - s(x)); at zero that is 1/4
    let z = leaf(&[0, 0], (1, 2), &mut g);
    let s = z.sigmoid(&mut g).unwrap();
    let grads_s = s.backward(&mut g).unwrap();
    assert_eq!(grads_s.get(z.id()).unwrap().data(&g), &rationals(&[(1, 4), (1, 4)]));
}

#[test]
fn diamond_accumulates_both_paths() {
    let mut g = Graph::new();
    let a = leaf(&[2], (1, 1), &mut g);
    let b = leaf(&[3], (1, 1), &mut g);
    let c = leaf(&[4], (1, 1), &mut g);
    // the shared node feeds two different consumers of one root
    let shared = a.add(&b, &mut g).unwrap();
    let p = shared.mul(&c, &mut g).unwrap();
    let q = shared.add(&c, &mut g).unwrap();
    let root = p.add(&q, &mut g).unwrap();

    // the sequencer lists the shared node exactly once
    let order = root.topological_sort(&g);
    let occurrences = order.iter().filter(|m| m.id() == shared.id()).count();
    assert_eq!(occurrences, 1);

    // gradients are the sum of both paths: d root / d shared = c + 1
    let grads = root.backward(&mut g).unwrap();
    assert_eq!(grads.get(shared.id()).unwrap().data(&g), &rationals(&[(5, 1)]));
    assert_eq!(grads.get(a.id()).unwrap().data(&g), &rationals(&[(5, 1)]));
    assert_eq!(grads.get(b.id()).unwrap().data(&g), &rationals(&[(5, 1)]));
    // d root / d c = shared + 1
    assert_eq!(grads.get(c.id()).unwrap().data(&g), &rationals(&[(6, 1)]));
}

#[test]
fn detached_parameter_stops_the_reverse_pass() {
    let mut g = Graph::new();
    let w = leaf(&[2, 3], (1, 2), &mut g);
    let x = leaf(&[1, 1], (1, 2), &mut g);
    let w2 = w.add(&x, &mut g).unwrap();
    let detached = w2.no_history(&mut g);
    assert!(detached.op(&g).is_none());
    assert_eq!(detached.data(&g), w2.data(&g));

    let z = leaf(&[10, 20], (1, 2), &mut g);
    let y = detached.mul(&z, &mut g).unwrap();
    let grads = y.backward(&mut g).unwrap();

    // the detached leaf receives a gradient; the old history does not
    assert!(grads.get(detached.id()).is_some());
    assert!(grads.get(w.id()).is_none());
    assert!(grads.get(x.id()).is_none());
    assert!(grads.get(w2.id()).is_none());
    assert_eq!(grads.get(detached.id()).unwrap().data(&g), &rationals(&[(10, 1), (20, 1)]));
}

#[test]
fn backward_of_a_leaf_is_just_the_seed() {
    let mut g = Graph::new();
    let a = leaf(&[7, 8, 9], (1, 3), &mut g);
    let grads = a.backward(&mut g).unwrap();
    assert_eq!(grads.get(a.id()).unwrap().data(&g), &rationals(&[(1, 1); 3]));
    assert!(grads.get(a.id() + 1).is_none());
}

#[test]
fn sequencer_is_consumers_before_producers() {
    let mut g = Graph::new();
    let a = leaf(&[1], (1, 1), &mut g);
    let b = leaf(&[2], (1, 1), &mut g);
    let s = a.add(&b, &mut g).unwrap();
    let t = s.mul(&b, &mut g).unwrap();
    let root = t.add(&s, &mut g).unwrap();
    let order = root.topological_sort(&g);
    assert_eq!(order[0].id(), root.id());
    let pos_t = order.iter().position(|m| m.id() == t.id()).unwrap();
    let pos_s = order.iter().position(|m| m.id() == s.id()).unwrap();
    assert!(pos_t < pos_s);
    // leaves never appear
    assert!(order.iter().all(|m| m.id() != a.id() && m.id() != b.id()));
}

#[test]
fn operator_names_are_exhaustive() {
    let mut g = Graph::new();
    let a = leaf(&[1], (1, 1), &mut g);
    let b = leaf(&[2], (1, 1), &mut g);
    let c = a.add(&b, &mut g).unwrap();
    match c.op(&g) {
        Some(op) => assert_eq!(op.to_string(), "Add"),
        None => panic!("derived node must carry provenance"),
    }
    let d = a.matmul(&b, &mut g).unwrap();
    assert_eq!(d.op(&g).unwrap().to_string(), "MatMul");
    let e = a.t(&mut g);
    assert_eq!(e.op(&g).unwrap().to_string(), "Transpose");
    assert!(matches!(e.op(&g), Some(Operator::Unary(_, _))));
}

#[test]
fn training_validates_inputs_and_runs() {
    let mut g = Graph::new();
    let mut nn = NN::new(vec![2, 3, 1], Scalar::new(1, 20000), &mut g).unwrap();

    let x: Vec<Vec<Scalar>> = vec![
        vec![Scalar::from_int(0), Scalar::from_int(0)],
        vec![Scalar::from_int(0), Scalar::from_int(1)],
        vec![Scalar::from_int(1), Scalar::from_int(0)],
        vec![Scalar::from_int(1), Scalar::from_int(1)],
    ];
    let y: Vec<Scalar> = vec![
        Scalar::from_int(0),
        Scalar::from_int(1),
        Scalar::from_int(1),
        Scalar::from_int(0),
    ];

    let bad = nn.train(&x, &y[0..3].to_vec(), 1, 1, &mut g);
    assert!(matches!(
        bad,
        Err(neural_network::TrainError::Data(neural_network::NNError::TrainDataMismatch {
            x_size: 4,
            y_size: 3,
        }))
    ));

    let too_big = nn.train(&x, &y, 9, 1, &mut g);
    assert!(matches!(
        too_big,
        Err(neural_network::TrainError::Data(
            neural_network::NNError::BatchSizeExceedsTrainingSet { batch_size: 9, train_size: 4 }
        ))
    ));

    let history = nn.train(&x, &y, 2, 2, &mut g);
    match history {
        Ok(h) => assert_eq!(h.len(), 2),
        // exact training may legitimately exhaust 64-bit rationals
        Err(e) => assert!(matches!(e, neural_network::TrainError::Compute(_))),
    }
}

#[test]
fn forward_produces_the_output_shape() {
    let mut g = Graph::new();
    // a fixed two-layer network with small exact weights
    let w1 = Matrix::from_vec(
        vec![Scalar::new(1, 2), Scalar::new(1, 4), Scalar::new(-1, 2), Scalar::new(1, 2)],
        (2, 2),
        true,
        &mut g,
    )
    .unwrap();
    let b1 = Matrix::from_vec(vec![Scalar::zero(), Scalar::new(1, 4)], (2, 1), true, &mut g)
        .unwrap();
    let w2 = Matrix::from_vec(vec![Scalar::one(), Scalar::new(-1, 2)], (1, 2), true, &mut g)
        .unwrap();
    let b2 = Matrix::from_vec(vec![Scalar::new(1, 8)], (1, 1), true, &mut g).unwrap();
    let nn = NN {
        layers: vec![
            Layer { w: w1, b: b1, act_func: Activation::Sigmoid },
            Layer { w: w2, b: b2, act_func: Activation::Sigmoid },
        ],
        learning_rate: Scalar::new(1, 100),
    };
    let x = Matrix::from_vec(
        vec![Scalar::from_int(1), Scalar::from_int(0)],
        (2, 1),
        false,
        &mut g,
    )
    .unwrap();
    let y = nn.forward(x, &mut g).unwrap();
    assert_eq!(y.shape(&g), (1, 1));
    // the sigmoid keeps every activation strictly inside (0, 1)
    let v = y.get(0, 0, &g);
    assert!(v.num > 0 && v.num < v.den);
}
