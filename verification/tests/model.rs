use nn::dataset::Image;
use nn::dataset::translate;
use nn::matrix::MalformedPersistedData;
use nn::matrix::Matrix;
use nn::model::Model;
use nn::model::logistic;
use nn::model::logistic_deriv;

fn b(x: f64) -> u64 {
    x.to_bits()
}

fn f(x: u64) -> f64 {
    f64::from_bits(x)
}

#[test]
fn file() {
    let k = Model::new(vec![3, 4, 5, 6], 12345);
    let bytes = k.to_bytes();
    let r = Model::from_bytes(bytes).unwrap();
    assert_eq!(k, r);
}

#[test]
fn file_two_layer() {
    let k = Model::new(vec![3, 2], 12345);
    let r = Model::from_bytes(k.to_bytes()).unwrap();
    assert_eq!(k, r);
}

#[test]
fn model_bytes_reject_even_block_count() {
    // two blocks alternate bias, weight and end on a weight: no final bias
    let mut bytes = Matrix::zeroes(2, 1).as_bytes();
    bytes.append(&mut Matrix::zeroes(2, 2).as_bytes());
    assert_eq!(Model::from_bytes(bytes), Err(MalformedPersistedData));
}

#[test]
fn model_bytes_reject_truncated() {
    let k = Model::new(vec![2, 2], 5);
    let mut bytes = k.to_bytes();
    bytes.pop();
    assert_eq!(Model::from_bytes(bytes), Err(MalformedPersistedData));
}

#[test]
fn model_bytes_reject_wide_bias() {
    // a single 2 x 2 block is an odd count, but a bias must be a column
    let bytes = Matrix::zeroes(2, 2).as_bytes();
    assert_eq!(Model::from_bytes(bytes), Err(MalformedPersistedData));
}

#[test]
fn model_bytes_reject_mismatched_weight() {
    // bias 2x1, weight 3x3, bias 1x1: the weight joins neither layer
    let mut bytes = Matrix::zeroes(2, 1).as_bytes();
    bytes.append(&mut Matrix::zeroes(3, 3).as_bytes());
    bytes.append(&mut Matrix::zeroes(1, 1).as_bytes());
    assert_eq!(Model::from_bytes(bytes), Err(MalformedPersistedData));
}

#[test]
fn new_model_shapes() {
    let m = Model::new(vec![784, 30, 10], 12345);
    assert_eq!(m.weights.len(), 2);
    assert_eq!(m.biases.len(), 3);
    assert_eq!(m.biases[0].rows(), 784);
    assert_eq!(m.biases[1].rows(), 30);
    assert_eq!(m.biases[2].rows(), 10);
    assert_eq!(m.biases[0].columns(), 1);
    assert_eq!(m.weights[0].rows(), 30);
    assert_eq!(m.weights[0].columns(), 784);
    assert_eq!(m.weights[1].rows(), 10);
    assert_eq!(m.weights[1].columns(), 30);
}

#[test]
fn new_model_is_deterministic() {
    let a = Model::new(vec![4, 3], 777);
    let c = Model::new(vec![4, 3], 777);
    assert_eq!(a, c);
    let d = Model::new(vec![4, 3], 778);
    assert_ne!(a, d);
}

#[test]
fn update_subtracts_scaled_deltas() {
    let mut m = Model {
        weights: vec![Matrix {
            data: vec![vec![b(1.0), b(-2.0)]],
        }],
        biases: vec![
            Matrix {
                data: vec![vec![b(0.5)], vec![b(-0.5)]],
            },
            Matrix {
                data: vec![vec![b(2.0)]],
            },
        ],
    };
    let bias_deltas = vec![
        Matrix {
            data: vec![vec![b(0.25)], vec![b(1.0)]],
        },
        Matrix {
            data: vec![vec![b(-4.0)]],
        },
    ];
    let weight_deltas = vec![Matrix {
        data: vec![vec![b(8.0), b(0.5)]],
    }];
    let rate = b(0.5);
    m.update((bias_deltas.clone(), weight_deltas.clone()), rate);
    assert_eq!(m.biases[0].data[0][0], b(0.5 - 0.25 * 0.5));
    assert_eq!(m.biases[0].data[1][0], b(-0.5 - 1.0 * 0.5));
    assert_eq!(m.biases[1].data[0][0], b(2.0 - -4.0 * 0.5));
    assert_eq!(m.weights[0].data[0][0], b(1.0 - 8.0 * 0.5));
    assert_eq!(m.weights[0].data[0][1], b(-2.0 - 0.5 * 0.5));
    // a second identical update keeps moving the parameters: the rule is
    // deliberately not idempotent
    let before = m.clone();
    m.update((bias_deltas, weight_deltas), rate);
    assert_ne!(m, before);
    assert_eq!(m.weights[0].data[0][0], b((1.0 - 8.0 * 0.5) - 8.0 * 0.5));
}

#[test]
fn backward_final_layer_error() {
    let model = Model::new(vec![3, 4, 2], 99);
    let input = Matrix::as_ket(vec![b(0.5), b(-0.25), b(0.125)]);
    let target = Matrix::as_ket(vec![b(1.0), b(0.0)]);
    let winputs = model.forward(input);
    let errors = model.backward(&winputs, target.clone());
    assert_eq!(errors.len(), winputs.len());
    let last = winputs.len() - 1;
    for row in 0..2 {
        let z = f(winputs[last].data[row][0]);
        let sigma = 1.0 / (1.0 + (-z).exp());
        let deriv = sigma * (1.0 - sigma);
        let t = f(target.data[row][0]);
        let expected = (sigma - t) * deriv;
        let got = f(errors[last].data[row][0]);
        assert!((got - expected).abs() < 1e-9);
    }
}

#[test]
fn one_example_shapes_feed_update() {
    let mut model = Model::new(vec![3, 4, 2], 4242);
    let input = Matrix::as_ket(vec![b(0.1), b(0.2), b(0.3)]);
    let target = Matrix::as_ket(vec![b(0.0), b(1.0)]);
    let deltas = model.do_one_example(input, target);
    assert_eq!(deltas.0.len(), 3);
    assert_eq!(deltas.1.len(), 2);
    assert_eq!(deltas.1[0].rows(), 4);
    assert_eq!(deltas.1[0].columns(), 3);
    assert_eq!(deltas.1[1].rows(), 2);
    assert_eq!(deltas.1[1].columns(), 4);
    let before = model.clone();
    model.update(deltas, b(0.01));
    assert_ne!(model, before);
}

#[test]
fn cost_halves_squared_error() {
    let output = Matrix {
        data: vec![vec![b(0.75)], vec![b(0.25)]],
    };
    let actual = Matrix {
        data: vec![vec![b(1.0)], vec![b(0.0)]],
    };
    let c = Model::cost(output, &actual);
    let d0: f64 = (0.75 - 1.0) * (0.75 - 1.0);
    let d1: f64 = (0.25 - 0.0) * (0.25 - 0.0);
    let expected: f64 = 0.5 * ((0.0 + d0) + d1);
    assert_eq!(c, expected.to_bits());
}

#[test]
fn logistic_values() {
    assert_eq!(logistic(b(0.0)), b(0.5));
    assert_eq!(logistic_deriv(b(0.0)), b(0.25));
    let x = 1.375f64;
    let expected = 1.0 / (1.0 + (-x).exp());
    assert!((f(logistic(b(x))) - expected).abs() < 1e-12);
}

#[test]
fn translate_builds_columns() {
    let mut pixels = vec![0u8; 784];
    pixels[0] = 255;
    pixels[783] = 7;
    let img = Image::new(&pixels);
    let (input, target) = translate(&(3u8, img));
    assert_eq!(input.rows(), 784);
    assert_eq!(input.columns(), 1);
    assert_eq!(input.data[0][0], b(255.0));
    assert_eq!(input.data[1][0], b(0.0));
    assert_eq!(input.data[783][0], b(7.0));
    assert_eq!(target.rows(), 10);
    assert_eq!(target.columns(), 1);
    for row in 0..10 {
        let expected = if row == 3 { b(1.0) } else { b(0.0) };
        assert_eq!(target.data[row][0], expected);
    }
}

#[test]
fn draw_glyphs() {
    assert_eq!(Image::draw(0), "   ");
    assert_eq!(Image::draw(40), "...");
    assert_eq!(Image::draw(255), "|||");
}
