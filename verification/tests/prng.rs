use nn::matrix::Matrix;
use nn::prng::Xorrng;

fn xorshift(mut s: u64) -> u64 {
    s ^= s >> 12;
    s ^= s << 25;
    s ^= s >> 17;
    s
}

#[test]
fn list() {
    let mut k = Xorrng::seed(234234);
    for _ in 0..100 {
        let v = k.rand_float(0.0f64.to_bits(), 1000.0f64.to_bits());
        println!("{}", f64::from_bits(v));
    }
}

#[test]
fn seed_discards_first_output() {
    let g = Xorrng::seed(23432);
    assert_eq!(g.state, xorshift(23432));
}

#[test]
fn next_is_three_xorshift_steps() {
    let mut g = Xorrng::seed(1);
    let s = g.state;
    let out = g.next();
    assert_eq!(out, xorshift(s));
    assert_eq!(g.state, out);
}

#[test]
fn random_reproduces_reference_sequence() {
    // shape 2 x 2, range [0, 1), seed 23432: the drawn bits must equal a
    // plain double-precision evaluation of the generator, bit for bit.
    let mut gen = Xorrng::seed(23432);
    let m = Matrix::random(2, 2, 0.0f64.to_bits(), 1.0f64.to_bits(), &mut gen);
    let mut state = xorshift(23432);
    let mut expected: Vec<u64> = Vec::new();
    for _ in 0..4 {
        state = xorshift(state);
        let x = (state as f64) / (u64::MAX as f64);
        expected.push((x * (1.0 - 0.0) + 0.0).to_bits());
    }
    assert_eq!(m.data[0][0], expected[0]);
    assert_eq!(m.data[0][1], expected[1]);
    assert_eq!(m.data[1][0], expected[2]);
    assert_eq!(m.data[1][1], expected[3]);
}

#[test]
fn random_is_bit_identical_across_runs() {
    let mut g1 = Xorrng::seed(23432);
    let mut g2 = Xorrng::seed(23432);
    let a = Matrix::random(2, 2, 0.0f64.to_bits(), 1.0f64.to_bits(), &mut g1);
    let c = Matrix::random(2, 2, 0.0f64.to_bits(), 1.0f64.to_bits(), &mut g2);
    assert_eq!(a, c);
}

#[test]
fn rand_float_range_mapping() {
    // the affine map into [lo, hi) must follow the exact operation order
    // x * (hi - lo) + lo in double precision
    let mut g = Xorrng::seed(9);
    let v = g.rand_float((-3.0f64).to_bits(), 5.0f64.to_bits());
    let mut h = Xorrng::seed(9);
    let s = h.next();
    let x = (s as f64) / (u64::MAX as f64);
    assert_eq!(v, (x * (5.0 - -3.0) + -3.0).to_bits());
}
