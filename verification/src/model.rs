//! The network model: an ordered stack of weight matrices and bias column
//! vectors, with forward propagation, backpropagation, delta computation and
//! the parameter update rule, and a binary persistence format.
use vstd::prelude::*;

use crate::fp;
use crate::matrix::BinOp;
use crate::matrix::MalformedPersistedData;
use crate::matrix::Matrix;
use crate::matrix::UnOp;
use crate::matrix::block_columns;
use crate::matrix::block_grid;
use crate::matrix::block_len;
use crate::matrix::block_rows;
use crate::matrix::block_valid;
use crate::matrix::fold_rows_bits;
use crate::matrix::lemma_block_round_trip;
use crate::matrix::mat_encode;
use crate::matrix::mat_bin;
use crate::matrix::mat_outer;
use crate::matrix::mat_product;
use crate::matrix::mat_transpose;
use crate::matrix::mat_un;
use crate::matrix::mat_wf;
use crate::matrix::random_grid;
use crate::prng::Xorrng;
use crate::prng::next_state;
use crate::prng::state_after;

verus! {

/// A feedforward model over an architecture [n0, ..., nL]: weight matrix i
/// has shape (n[i+1], n[i]) and bias i is an n[i] x 1 column vector, so
/// there is one more bias than weight matrices.
#[derive(Debug, Clone, PartialEq)]
pub struct Model {
    pub weights: Vec<Matrix>,
    pub biases: Vec<Matrix>,
}

/// The grids of a sequence of matrices.
pub open spec fn grids_of(v: Seq<Matrix>) -> Seq<Seq<Seq<u64>>> {
    v.map_values(|m: Matrix| m@)
}

/// A consistent parameter stack: one more bias than weights, every bias a
/// well-formed column vector, and weight i mapping layer i's size to layer
/// i + 1's size.
pub open spec fn model_wf(w: Seq<Seq<Seq<u64>>>, b: Seq<Seq<Seq<u64>>>) -> bool {
    &&& w.len() + 1 == b.len()
    &&& forall|i: int|
        0 <= i < b.len() ==> mat_wf(#[trigger] b[i]) && b[i][0].len() == 1
    &&& forall|i: int|
        0 <= i < w.len() ==> mat_wf(#[trigger] w[i]) && w[i].len() == b[i + 1].len() && w[i][0].len()
            == b[i].len()
}

/// Shape agreement between a parameter stack and a delta stack: equally
/// many grids, each well-formed and of the matching shape.
pub open spec fn grids_match(a: Seq<Seq<Seq<u64>>>, b: Seq<Seq<Seq<u64>>>) -> bool {
    &&& a.len() == b.len()
    &&& forall|i: int|
        0 <= i < a.len() ==> mat_wf(#[trigger] b[i]) && b[i].len() == a[i].len() && b[i][0].len()
            == a[i][0].len()
}

/// The generator draws consumed by initializing the first `i` layers: layer
/// t draws its bias (arch[t] cells), then its weight (arch[t+1] * arch[t]
/// cells).
pub open spec fn draws_before(arch: Seq<usize>, i: nat) -> int
    decreases i,
{
    if i == 0 {
        0
    } else {
        draws_before(arch, (i - 1) as nat) + arch[i - 1] + (arch[i as int] as int) * (arch[i - 1] as int)
    }
}

/// Layer i's pre-activation for a given input column: layer 0 is
/// input + bias 0; each later layer applies the previous weight to the
/// previous layer's activation and adds its bias.
pub open spec fn winput_at(
    w: Seq<Seq<Seq<u64>>>,
    b: Seq<Seq<Seq<u64>>>,
    input: Seq<Seq<u64>>,
    i: nat,
) -> Seq<Seq<u64>>
    decreases i,
{
    if i == 0 {
        mat_bin(BinOp::Add, input, b[0])
    } else {
        mat_bin(
            BinOp::Add,
            mat_product(w[i - 1], mat_un(UnOp::Logistic, winput_at(w, b, input, (i - 1) as nat))),
            b[i as int],
        )
    }
}

/// Layer i's error signal: at the final layer, (output - target) times the
/// logistic derivative of the pre-activation, elementwise; below it, the
/// transposed weight applied to the next layer's error, times the logistic
/// derivative of this layer's pre-activation.
pub open spec fn werror_at(
    w: Seq<Seq<Seq<u64>>>,
    b: Seq<Seq<Seq<u64>>>,
    input: Seq<Seq<u64>>,
    actual: Seq<Seq<u64>>,
    i: nat,
) -> Seq<Seq<u64>>
    decreases b.len() - i,
{
    if i + 1 >= b.len() {
        mat_bin(
            BinOp::Mul,
            mat_bin(BinOp::Sub, mat_un(UnOp::Logistic, winput_at(w, b, input, i)), actual),
            mat_un(UnOp::LogisticDeriv, winput_at(w, b, input, i)),
        )
    } else {
        mat_bin(
            BinOp::Mul,
            mat_product(mat_transpose(w[i as int]), werror_at(w, b, input, actual, (i + 1) as nat)),
            mat_un(UnOp::LogisticDeriv, winput_at(w, b, input, i)),
        )
    }
}

/// The weight delta for weight matrix i: the outer product of layer i + 1's
/// error signal with the transposed activation of layer i.
pub open spec fn wdelta_at(
    w: Seq<Seq<Seq<u64>>>,
    b: Seq<Seq<Seq<u64>>>,
    input: Seq<Seq<u64>>,
    actual: Seq<Seq<u64>>,
    i: nat,
) -> Seq<Seq<u64>> {
    mat_outer(
        werror_at(w, b, input, actual, (i + 1) as nat),
        mat_transpose(mat_un(UnOp::Logistic, winput_at(w, b, input, i))),
    )
}

/// The block list laid head to tail in a buffer: an empty buffer parses to
/// no blocks; a buffer beginning with a valid block parses to that block's
/// grid followed by the parse of the bytes after it; anything else does not
/// parse.
pub open spec fn parse_blocks(bytes: Seq<u8>) -> Option<Seq<Seq<Seq<u64>>>>
    decreases bytes.len(),
    via parse_blocks_decreases
{
    if bytes.len() == 0 {
        Some(Seq::empty())
    } else if block_valid(bytes) {
        match parse_blocks(bytes.skip(block_len(bytes))) {
            Some(rest) => Some(seq![block_grid(bytes)] + rest),
            None => None,
        }
    } else {
        None
    }
}

#[via_fn]
proof fn parse_blocks_decreases(bytes: Seq<u8>) {
    if bytes.len() != 0 && block_valid(bytes) {
        assert(8 * (block_rows(bytes) as int) * (block_columns(bytes) as int) >= 0)
            by (nonlinear_arith);
    }
}

/// The blocks at even positions of a block list: the biases of a persisted
/// model.
pub open spec fn even_blocks(bs: Seq<Seq<Seq<u64>>>) -> Seq<Seq<Seq<u64>>> {
    Seq::new((bs.len() + 1) / 2, |i: int| bs[2 * i])
}

/// The blocks at odd positions of a block list: the weights of a persisted
/// model.
pub open spec fn odd_blocks(bs: Seq<Seq<Seq<u64>>>) -> Seq<Seq<Seq<u64>>> {
    Seq::new(bs.len() / 2, |i: int| bs[2 * i + 1])
}

/// Whether a block list lays out a consistent model: an odd count of blocks
/// alternating bias, weight, ..., bias, whose shapes form a model.
pub open spec fn blocks_form_model(bs: Seq<Seq<Seq<u64>>>) -> bool {
    &&& bs.len() % 2 == 1
    &&& model_wf(odd_blocks(bs), even_blocks(bs))
}

/// The persisted form of a model from layer `i` on: for each layer before
/// the last, its bias block then its weight block; then the final bias
/// block. There is no header and no count: a reader recovers the layout by
/// parsing blocks until the buffer is exhausted.
pub open spec fn enc_from(w: Seq<Seq<Seq<u64>>>, b: Seq<Seq<Seq<u64>>>, i: nat) -> Seq<u8>
    decreases b.len() - i,
{
    if i + 1 < b.len() {
        mat_encode(b[i as int]) + mat_encode(w[i as int]) + enc_from(w, b, (i + 1) as nat)
    } else {
        mat_encode(b[i as int])
    }
}

/// The persisted form of a whole model.
pub open spec fn model_encode(w: Seq<Seq<Seq<u64>>>, b: Seq<Seq<Seq<u64>>>) -> Seq<u8> {
    enc_from(w, b, 0)
}

/// The block list a persisted model lays out, from layer `i` on.
pub open spec fn blocks_from(w: Seq<Seq<Seq<u64>>>, b: Seq<Seq<Seq<u64>>>, i: nat) -> Seq<
    Seq<Seq<u64>>,
>
    decreases b.len() - i,
{
    if i + 1 < b.len() {
        seq![b[i as int], w[i as int]] + blocks_from(w, b, (i + 1) as nat)
    } else {
        seq![b[i as int]]
    }
}

proof fn lemma_parse_enc_from(w: Seq<Seq<Seq<u64>>>, b: Seq<Seq<Seq<u64>>>, i: nat)
    requires
        model_wf(w, b),
        i < b.len(),
        forall|t: int|
            0 <= t < b.len() ==> (#[trigger] b[t]).len() <= u64::MAX && b[t][0].len() <= u64::MAX,
        forall|t: int|
            0 <= t < w.len() ==> (#[trigger] w[t]).len() <= u64::MAX && w[t][0].len() <= u64::MAX,
    ensures
        parse_blocks(enc_from(w, b, i)) == Some(blocks_from(w, b, i)),
    decreases b.len() - i,
{
    if i + 1 < b.len() {
        lemma_parse_enc_from(w, b, (i + 1) as nat);
        let rest1 = mat_encode(w[i as int]) + enc_from(w, b, (i + 1) as nat);
        lemma_block_round_trip(b[i as int], rest1);
        assert(enc_from(w, b, i) =~= mat_encode(b[i as int]) + rest1);
        lemma_block_round_trip(w[i as int], enc_from(w, b, (i + 1) as nat));
        assert(parse_blocks(rest1) == Some(
            seq![w[i as int]] + blocks_from(w, b, (i + 1) as nat),
        ));
        assert(parse_blocks(enc_from(w, b, i)) == Some(
            seq![b[i as int]] + (seq![w[i as int]] + blocks_from(w, b, (i + 1) as nat)),
        ));
        assert(seq![b[i as int]] + (seq![w[i as int]] + blocks_from(w, b, (i + 1) as nat))
            =~= blocks_from(w, b, i));
    } else {
        lemma_block_round_trip(b[i as int], Seq::empty());
        let enc = enc_from(w, b, i);
        assert(enc =~= mat_encode(b[i as int]) + Seq::<u8>::empty());
        assert(block_valid(enc));
        assert(block_grid(enc) == b[i as int]);
        assert(block_len(enc) == mat_encode(b[i as int]).len());
        assert(enc.skip(block_len(enc)) =~= Seq::<u8>::empty());
        assert(parse_blocks(Seq::<u8>::empty()) == Some(Seq::<Seq<Seq<u64>>>::empty()));
        assert(parse_blocks(enc) == Some(seq![b[i as int]] + Seq::<Seq<Seq<u64>>>::empty()));
        assert(seq![b[i as int]] + Seq::<Seq<Seq<u64>>>::empty() =~= blocks_from(w, b, i));
    }
}

proof fn lemma_blocks_split(w: Seq<Seq<Seq<u64>>>, b: Seq<Seq<Seq<u64>>>, i: nat)
    requires
        w.len() + 1 == b.len(),
        i < b.len(),
    ensures
        blocks_from(w, b, i).len() == 2 * (b.len() - i) - 1,
        even_blocks(blocks_from(w, b, i)) == b.skip(i as int),
        odd_blocks(blocks_from(w, b, i)) == w.skip(i as int),
    decreases b.len() - i,
{
    let bs = blocks_from(w, b, i);
    if i + 1 < b.len() {
        lemma_blocks_split(w, b, (i + 1) as nat);
        let rest = blocks_from(w, b, (i + 1) as nat);
        assert forall|k: int| 0 <= k < even_blocks(bs).len() implies #[trigger] even_blocks(bs)[k]
            == b.skip(i as int)[k] by {
            if k > 0 {
                assert(even_blocks(rest)[k - 1] == b.skip(i + 1 as int)[k - 1]);
                assert(even_blocks(rest)[k - 1] == rest[2 * (k - 1)]);
                assert(bs[2 * k] == rest[2 * k - 2]);
            }
        }
        assert(even_blocks(bs) =~= b.skip(i as int));
        assert forall|k: int| 0 <= k < odd_blocks(bs).len() implies #[trigger] odd_blocks(bs)[k]
            == w.skip(i as int)[k] by {
            if k > 0 {
                assert(odd_blocks(rest)[k - 1] == w.skip(i + 1 as int)[k - 1]);
                assert(odd_blocks(rest)[k - 1] == rest[2 * (k - 1) + 1]);
                assert(bs[2 * k + 1] == rest[2 * k - 1]);
            }
        }
        assert(odd_blocks(bs) =~= w.skip(i as int));
    } else {
        assert(even_blocks(bs) =~= b.skip(i as int));
        assert(odd_blocks(bs) =~= w.skip(i as int));
    }
}

/// Persisting a well-formed model and parsing the bytes back yields the same
/// parameter stack: the model byte format round-trips. The size bounds only
/// ask that each matrix's dimensions fit the 64-bit fields of its block.
pub proof fn lemma_model_bytes_round_trip(w: Seq<Seq<Seq<u64>>>, b: Seq<Seq<Seq<u64>>>)
    requires
        model_wf(w, b),
        forall|t: int|
            0 <= t < b.len() ==> (#[trigger] b[t]).len() <= u64::MAX && b[t][0].len() <= u64::MAX,
        forall|t: int|
            0 <= t < w.len() ==> (#[trigger] w[t]).len() <= u64::MAX && w[t][0].len() <= u64::MAX,
    ensures
        parse_blocks(model_encode(w, b)) == Some(blocks_from(w, b, 0)),
        blocks_form_model(blocks_from(w, b, 0)),
        even_blocks(blocks_from(w, b, 0)) == b,
        odd_blocks(blocks_from(w, b, 0)) == w,
{
    lemma_parse_enc_from(w, b, 0);
    lemma_blocks_split(w, b, 0);
    assert(b.skip(0) =~= b);
    assert(w.skip(0) =~= w);
}

/// Error signals that satisfy the backward recurrences over the true
/// pre-activations are exactly the error signals of the model: the final
/// layer's equation and the downward step pin every layer's value.
proof fn lemma_errors_match(
    w: Seq<Seq<Seq<u64>>>,
    b: Seq<Seq<Seq<u64>>>,
    input: Seq<Seq<u64>>,
    actual: Seq<Seq<u64>>,
    winputs: Seq<Seq<Seq<u64>>>,
    errors: Seq<Seq<Seq<u64>>>,
    i: nat,
)
    requires
        b.len() >= 1,
        winputs.len() == b.len(),
        errors.len() == b.len(),
        forall|t: int|
            0 <= t < winputs.len() ==> #[trigger] winputs[t] == winput_at(w, b, input, t as nat),
        errors[b.len() - 1] == mat_bin(
            BinOp::Mul,
            mat_bin(BinOp::Sub, mat_un(UnOp::Logistic, winputs[b.len() - 1]), actual),
            mat_un(UnOp::LogisticDeriv, winputs[b.len() - 1]),
        ),
        forall|t: int|
            0 <= t < b.len() - 1 ==> #[trigger] errors[t] == mat_bin(
                BinOp::Mul,
                mat_product(mat_transpose(w[t]), errors[t + 1]),
                mat_un(UnOp::LogisticDeriv, winputs[t]),
            ),
        i < b.len(),
    ensures
        errors[i as int] == werror_at(w, b, input, actual, i),
    decreases b.len() - i,
{
    if i + 1 < b.len() {
        lemma_errors_match(w, b, input, actual, winputs, errors, (i + 1) as nat);
    }
}

/// The logistic (sigmoid) function 1 / (1 + e^(-x)) on one binary64 bit
/// pattern.
pub fn logistic(input: u64) -> (r: u64)
    ensures
        r == fp::logistic_bits_of(input),
{
    let e = fp::exp_bits(fp::neg_bits(input));
    fp::div_bits(fp::ONE_BITS, fp::add_bits(fp::ONE_BITS, e))
}

/// The logistic derivative logistic(x) * (1 - logistic(x)) on one binary64
/// bit pattern.
pub fn logistic_deriv(input: u64) -> (r: u64)
    ensures
        r == fp::logistic_deriv_bits_of(input),
{
    let s = logistic(input);
    fp::mul_bits(s, fp::sub_bits(fp::ONE_BITS, s))
}

impl Model {
    /// The grids of the weight matrices.
    pub open spec fn weights_view(&self) -> Seq<Seq<Seq<u64>>> {
        grids_of(self.weights@)
    }

    /// The grids of the bias vectors.
    pub open spec fn biases_view(&self) -> Seq<Seq<Seq<u64>>> {
        grids_of(self.biases@)
    }

    /// A consistent model.
    pub open spec fn wf(&self) -> bool {
        model_wf(self.weights_view(), self.biases_view())
    }

    /// Builds a model for the architecture `arch`, drawing every parameter
    /// from a fresh generator seeded with `seed`, in [-1, 1): for each layer
    /// but the last, its bias then its outgoing weight matrix, and finally
    /// the last layer's bias. The same seed always reproduces the same
    /// parameters bit for bit.
    pub fn new(arch: Vec<usize>, seed: u64) -> (r: Self)
        requires
            arch@.len() >= 1,
            forall|i: int| 0 <= i < arch@.len() ==> #[trigger] arch@[i] >= 1,
            forall|i: int|
                0 <= i < arch@.len() - 1 ==> (#[trigger] arch@[i + 1]) * arch@[i] <= usize::MAX,
        ensures
            r.wf(),
            r.biases@.len() == arch@.len(),
            r.weights@.len() == arch@.len() - 1,
            forall|i: int|
                0 <= i < arch@.len() ==> #[trigger] r.biases_view()[i] == random_grid(
                    state_after(next_state(seed), draws_before(arch@, i as nat) as nat),
                    arch@[i] as nat,
                    1,
                    fp::NEG_ONE_BITS,
                    fp::ONE_BITS,
                ),
            forall|i: int|
                0 <= i < arch@.len() - 1 ==> #[trigger] r.weights_view()[i] == random_grid(
                    state_after(
                        next_state(seed),
                        (draws_before(arch@, i as nat) + arch@[i]) as nat,
                    ),
                    arch@[i + 1] as nat,
                    arch@[i] as nat,
                    fp::NEG_ONE_BITS,
                    fp::ONE_BITS,
                ),
    {
        let mut gen = Xorrng::seed(seed);
        let ghost s0: u64 = gen.state;
        let n = arch.len();
        let mut w: Vec<Matrix> = Vec::new();
        let mut b: Vec<Matrix> = Vec::new();
        for i in 0..n - 1
            invariant
                n == arch@.len(),
                n >= 1,
                s0 == next_state(seed),
                forall|t: int| 0 <= t < arch@.len() ==> #[trigger] arch@[t] >= 1,
                forall|t: int|
                    0 <= t < arch@.len() - 1 ==> (#[trigger] arch@[t + 1]) * arch@[t] <= usize::MAX,
                w@.len() == i,
                b@.len() == i,
                gen.state == state_after(s0, draws_before(arch@, i as nat) as nat),
                draws_before(arch@, i as nat) >= 0,
                forall|t: int|
                    0 <= t < i ==> #[trigger] grids_of(b@)[t] == random_grid(
                        state_after(s0, draws_before(arch@, t as nat) as nat),
                        arch@[t] as nat,
                        1,
                        fp::NEG_ONE_BITS,
                        fp::ONE_BITS,
                    ),
                forall|t: int|
                    0 <= t < i ==> #[trigger] grids_of(w@)[t] == random_grid(
                        state_after(s0, (draws_before(arch@, t as nat) + arch@[t]) as nat),
                        arch@[t + 1] as nat,
                        arch@[t] as nat,
                        fp::NEG_ONE_BITS,
                        fp::ONE_BITS,
                    ),
        {
            let ghost d0: int = draws_before(arch@, i as nat);
            let bias = Matrix::random(arch[i], 1, fp::NEG_ONE_BITS, fp::ONE_BITS, &mut gen);
            proof {
                assert(arch@[i as int] * 1 == arch@[i as int]) by (nonlinear_arith);
                crate::prng::lemma_state_after_add(s0, d0 as nat, arch@[i as int] as nat);
                assert((d0 as nat) + (arch@[i as int] as nat) == (d0 + arch@[i as int]) as nat);
                assert(gen.state == state_after(s0, (d0 + arch@[i as int]) as nat));
            }
            let weight = Matrix::random(
                arch[i + 1],
                arch[i],
                fp::NEG_ONE_BITS,
                fp::ONE_BITS,
                &mut gen,
            );
            proof {
                let ghost wc: int = (arch@[i + 1] as int) * (arch@[i as int] as int);
                assert(wc >= 0) by (nonlinear_arith)
                    requires
                        wc == (arch@[i + 1] as int) * (arch@[i as int] as int) && arch@[i + 1] >= 0
                            && arch@[i as int] >= 0,
                ;
                crate::prng::lemma_state_after_add(s0, (d0 + arch@[i as int]) as nat, wc as nat);
                assert(((d0 + arch@[i as int]) as nat) + (wc as nat) == (d0 + arch@[i as int] + wc)
                    as nat);
                assert(draws_before(arch@, (i + 1) as nat) == d0 + arch@[i as int] + wc);
                assert(gen.state == state_after(s0, draws_before(arch@, (i + 1) as nat) as nat));
            }
            let ghost b_prev: Seq<Matrix> = b@;
            let ghost w_prev: Seq<Matrix> = w@;
            b.push(bias);
            w.push(weight);
            proof {
                assert(grids_of(b@)[i as int] == b@[i as int]@);
                assert(grids_of(w@)[i as int] == w@[i as int]@);
                assert forall|t: int| 0 <= t < i implies #[trigger] grids_of(b@)[t] == grids_of(
                    b_prev,
                )[t] by {
                    assert(grids_of(b@)[t] == b@[t]@);
                    assert(grids_of(b_prev)[t] == b_prev[t]@);
                }
                assert forall|t: int| 0 <= t < i implies #[trigger] grids_of(w@)[t] == grids_of(
                    w_prev,
                )[t] by {
                    assert(grids_of(w@)[t] == w@[t]@);
                    assert(grids_of(w_prev)[t] == w_prev[t]@);
                }
            }
        }
        let ghost dl: int = draws_before(arch@, (n - 1) as nat);
        let last = Matrix::random(arch[n - 1], 1, fp::NEG_ONE_BITS, fp::ONE_BITS, &mut gen);
        let ghost b_prev: Seq<Matrix> = b@;
        b.push(last);
        let r = Self { weights: w, biases: b };
        proof {
            assert(arch@[n - 1] * 1 == arch@[n - 1]) by (nonlinear_arith);
            assert(grids_of(b@)[n - 1] == b@[n - 1]@);
            assert forall|t: int| 0 <= t < n - 1 implies #[trigger] grids_of(b@)[t] == grids_of(
                b_prev,
            )[t] by {
                assert(grids_of(b@)[t] == b@[t]@);
                assert(grids_of(b_prev)[t] == b_prev[t]@);
            }
            assert forall|i: int| 0 <= i < arch@.len() implies #[trigger] r.biases_view()[i]
                == random_grid(
                state_after(next_state(seed), draws_before(arch@, i as nat) as nat),
                arch@[i] as nat,
                1,
                fp::NEG_ONE_BITS,
                fp::ONE_BITS,
            ) && mat_wf(r.biases_view()[i]) && r.biases_view()[i].len() == arch@[i]
                && r.biases_view()[i][0].len() == 1 by {
                assert(r.biases_view()[i] == grids_of(b@)[i]);
                assert(grids_of(b@)[i] == b@[i]@);
                crate::matrix::lemma_random_grid_wf(
                    state_after(next_state(seed), draws_before(arch@, i as nat) as nat),
                    arch@[i] as nat,
                    1,
                    fp::NEG_ONE_BITS,
                    fp::ONE_BITS,
                );
            }
            assert forall|i: int| 0 <= i < arch@.len() - 1 implies #[trigger] r.weights_view()[i]
                == random_grid(
                state_after(next_state(seed), (draws_before(arch@, i as nat) + arch@[i]) as nat),
                arch@[i + 1] as nat,
                arch@[i] as nat,
                fp::NEG_ONE_BITS,
                fp::ONE_BITS,
            ) && mat_wf(r.weights_view()[i]) && r.weights_view()[i].len() == arch@[i + 1]
                && r.weights_view()[i][0].len() == arch@[i] by {
                assert(r.weights_view()[i] == grids_of(w@)[i]);
                assert(grids_of(w@)[i] == w@[i]@);
                crate::matrix::lemma_random_grid_wf(
                    state_after(
                        next_state(seed),
                        (draws_before(arch@, i as nat) + arch@[i]) as nat,
                    ),
                    arch@[i + 1] as nat,
                    arch@[i] as nat,
                    fp::NEG_ONE_BITS,
                    fp::ONE_BITS,
                );
            }
            assert(r.wf());
        }
        r
    }

    /// The forward pass: every layer's pre-activation column for the given
    /// input, layer 0 first, kept for the backward pass.
    pub fn forward(&self, input: Matrix) -> (out: Vec<Matrix>)
        requires
            self.wf(),
            input.wf(),
            input@.len() == self.biases_view()[0].len(),
            input@[0].len() == 1,
        ensures
            out@.len() == self.biases@.len(),
            forall|i: int|
                0 <= i < out@.len() ==> #[trigger] grids_of(out@)[i] == winput_at(
                    self.weights_view(),
                    self.biases_view(),
                    input@,
                    i as nat,
                ),
            forall|i: int|
                0 <= i < out@.len() ==> mat_wf(#[trigger] grids_of(out@)[i]) && grids_of(
                    out@,
                )[i].len() == self.biases_view()[i].len() && grids_of(out@)[i][0].len() == 1,
    {
        let ghost wv: Seq<Seq<Seq<u64>>> = self.weights_view();
        let ghost bv: Seq<Seq<Seq<u64>>> = self.biases_view();
        let ghost inp: Seq<Seq<u64>> = input@;
        proof {
            assert(grids_of(self.biases@)[0] == self.biases@[0]@);
            assert(mat_wf(bv[0]));
        }
        let first = match input.combine(&self.biases[0], BinOp::Add) {
            Ok(m) => m,
            Err(_) => {
                proof {
                    assert(false);
                }
                Matrix::zeroes(1, 1)
            },
        };
        let mut out: Vec<Matrix> = Vec::new();
        out.push(first);
        proof {
            assert(grids_of(out@)[0] == out@[0]@);
            assert(grids_of(out@)[0] == winput_at(wv, bv, inp, 0));
        }
        let n = self.weights.len();
        for i in 0..n
            invariant
                self.wf(),
                wv == self.weights_view(),
                bv == self.biases_view(),
                n == self.weights@.len(),
                out@.len() == i + 1,
                forall|t: int|
                    0 <= t <= i ==> #[trigger] grids_of(out@)[t] == winput_at(
                        wv,
                        bv,
                        inp,
                        t as nat,
                    ),
                forall|t: int|
                    0 <= t <= i ==> mat_wf(#[trigger] grids_of(out@)[t]) && grids_of(
                        out@,
                    )[t].len() == bv[t].len() && grids_of(out@)[t][0].len() == 1,
        {
            proof {
                assert(grids_of(out@)[i as int] == out@[i as int]@);
                assert(grids_of(self.weights@)[i as int] == self.weights@[i as int]@);
                assert(mat_wf(wv[i as int]));
                assert(grids_of(self.biases@)[i + 1] == self.biases@[i + 1]@);
                assert(mat_wf(bv[i + 1]));
            }
            let activated = out[i].apply(UnOp::Logistic);
            let product = match self.weights[i].mult(&activated) {
                Ok(m) => m,
                Err(_) => {
                    proof {
                        assert(false);
                    }
                    Matrix::zeroes(1, 1)
                },
            };
            let z = match product.combine(&self.biases[i + 1], BinOp::Add) {
                Ok(m) => m,
                Err(_) => {
                    proof {
                        assert(false);
                    }
                    Matrix::zeroes(1, 1)
                },
            };
            let ghost out_prev: Seq<Matrix> = out@;
            out.push(z);
            proof {
                assert(grids_of(out@)[i + 1] == out@[i + 1]@);
                assert forall|t: int| 0 <= t <= i implies #[trigger] grids_of(out@)[t] == grids_of(
                    out_prev,
                )[t] by {
                    assert(grids_of(out@)[t] == out@[t]@);
                    assert(grids_of(out_prev)[t] == out_prev[t]@);
                }
                assert(grids_of(out@)[i + 1] == winput_at(wv, bv, inp, (i + 1) as nat));
            }
        }
        out
    }

    /// The prediction read off a forward pass: the logistic activation of
    /// the final layer's pre-activation.
    pub fn output(weighted_inputs: &Vec<Matrix>) -> (r: Matrix)
        requires
            weighted_inputs@.len() >= 1,
            mat_wf(grids_of(weighted_inputs@)[weighted_inputs@.len() - 1]),
        ensures
            r.wf(),
            r@ == mat_un(UnOp::Logistic, grids_of(weighted_inputs@)[weighted_inputs@.len() - 1]),
    {
        proof {
            assert(grids_of(weighted_inputs@)[weighted_inputs@.len() - 1] == weighted_inputs@[
                weighted_inputs@.len() - 1]@);
        }
        weighted_inputs[weighted_inputs.len() - 1].apply(UnOp::Logistic)
    }

    /// The diagnostic cost of a prediction against the target: half the sum
    /// of squared differences, accumulated in row-major order.
    pub fn cost(output: Matrix, actual: &Matrix) -> (r: u64)
        requires
            output.wf(),
            actual.wf(),
            output@.len() == actual@.len(),
            output@[0].len() == actual@[0].len(),
        ensures
            r == fp::mul_bits_of(
                fp::HALF_BITS,
                fold_rows_bits(
                    BinOp::Add,
                    fp::ZERO_BITS,
                    mat_bin(BinOp::SquaredDiff, output@, actual@),
                    output@.len(),
                ),
            ),
    {
        let ghost og: Seq<Seq<u64>> = output@;
        let diff = match output.combine(actual, BinOp::SquaredDiff) {
            Ok(m) => m,
            Err(_) => {
                proof {
                    assert(false);
                }
                Matrix::zeroes(1, 1)
            },
        };
        let s = diff.to_scalar(BinOp::Add);
        fp::mul_bits(fp::HALF_BITS, s)
    }

    /// The backward pass: the error signal of every layer, derived from the
    /// pre-activations of a forward pass and the target column. The final
    /// layer's error is (output - target) times the logistic derivative of
    /// its pre-activation, elementwise; each earlier layer's error applies
    /// the transposed weight to the next error and scales by the logistic
    /// derivative of its own pre-activation.
    pub fn backward(&self, weighted_inputs: &Vec<Matrix>, actual: Matrix) -> (errors: Vec<Matrix>)
        requires
            self.wf(),
            weighted_inputs@.len() == self.biases@.len(),
            forall|i: int|
                0 <= i < weighted_inputs@.len() ==> mat_wf(
                    #[trigger] grids_of(weighted_inputs@)[i],
                ) && grids_of(weighted_inputs@)[i].len() == self.biases_view()[i].len() && grids_of(
                    weighted_inputs@,
                )[i][0].len() == 1,
            actual.wf(),
            actual@.len() == self.biases_view()[self.biases@.len() - 1].len(),
            actual@[0].len() == 1,
        ensures
            errors@.len() == weighted_inputs@.len(),
            forall|i: int|
                0 <= i < errors@.len() ==> mat_wf(#[trigger] grids_of(errors@)[i]) && grids_of(
                    errors@,
                )[i].len() == self.biases_view()[i].len() && grids_of(errors@)[i][0].len() == 1,
            grids_of(errors@)[errors@.len() - 1] == mat_bin(
                BinOp::Mul,
                mat_bin(
                    BinOp::Sub,
                    mat_un(UnOp::Logistic, grids_of(weighted_inputs@)[errors@.len() - 1]),
                    actual@,
                ),
                mat_un(UnOp::LogisticDeriv, grids_of(weighted_inputs@)[errors@.len() - 1]),
            ),
            forall|i: int|
                0 <= i < errors@.len() - 1 ==> #[trigger] grids_of(errors@)[i] == mat_bin(
                    BinOp::Mul,
                    mat_product(mat_transpose(self.weights_view()[i]), grids_of(errors@)[i + 1]),
                    mat_un(UnOp::LogisticDeriv, grids_of(weighted_inputs@)[i]),
                ),
    {
        let ghost wv: Seq<Seq<Seq<u64>>> = self.weights_view();
        let ghost bv: Seq<Seq<Seq<u64>>> = self.biases_view();
        let ghost wig: Seq<Seq<Seq<u64>>> = grids_of(weighted_inputs@);
        let n = weighted_inputs.len();
        let out_act = Self::output(weighted_inputs);
        proof {
            assert(wig[n - 1] == weighted_inputs@[n - 1]@);
            crate::matrix::lemma_mat_un_wf(UnOp::Logistic, wig[n - 1]);
        }
        let diff = match out_act.combine(&actual, BinOp::Sub) {
            Ok(m) => m,
            Err(_) => {
                proof {
                    assert(false);
                }
                Matrix::zeroes(1, 1)
            },
        };
        let deriv = weighted_inputs[n - 1].apply(UnOp::LogisticDeriv);
        let last_err = match diff.combine(&deriv, BinOp::Mul) {
            Ok(m) => m,
            Err(_) => {
                proof {
                    assert(false);
                }
                Matrix::zeroes(1, 1)
            },
        };
        let mut errors: Vec<Matrix> = Vec::new();
        for t in 0..n - 1
            invariant
                errors@.len() == t,
        {
            errors.push(Matrix::zeroes(1, 1));
        }
        errors.push(last_err);
        proof {
            assert(grids_of(errors@)[n - 1] == errors@[n - 1]@);
        }
        let mut i = n - 1;
        while i > 0
            invariant
                self.wf(),
                wv == self.weights_view(),
                bv == self.biases_view(),
                wig == grids_of(weighted_inputs@),
                n == weighted_inputs@.len(),
                n == self.biases@.len(),
                forall|t: int|
                    0 <= t < n ==> mat_wf(#[trigger] wig[t]) && wig[t].len() == bv[t].len()
                        && wig[t][0].len() == 1,
                i < n,
                errors@.len() == n,
                grids_of(errors@)[n - 1] == mat_bin(
                    BinOp::Mul,
                    mat_bin(BinOp::Sub, mat_un(UnOp::Logistic, wig[n - 1]), actual@),
                    mat_un(UnOp::LogisticDeriv, wig[n - 1]),
                ),
                forall|t: int|
                    i <= t < n ==> mat_wf(#[trigger] grids_of(errors@)[t]) && grids_of(
                        errors@,
                    )[t].len() == bv[t].len() && grids_of(errors@)[t][0].len() == 1,
                forall|t: int|
                    i <= t < n - 1 ==> #[trigger] grids_of(errors@)[t] == mat_bin(
                        BinOp::Mul,
                        mat_product(mat_transpose(wv[t]), grids_of(errors@)[t + 1]),
                        mat_un(UnOp::LogisticDeriv, wig[t]),
                    ),
            decreases i,
        {
            i = i - 1;
            proof {
                assert(grids_of(self.weights@)[i as int] == self.weights@[i as int]@);
                assert(mat_wf(wv[i as int]));
                assert(grids_of(errors@)[i + 1] == errors@[i + 1]@);
                assert(grids_of(weighted_inputs@)[i as int] == weighted_inputs@[i as int]@);
                crate::matrix::lemma_mat_transpose_wf(wv[i as int]);
            }
            let tw = self.weights[i].transpose();
            let applied = match tw.mult(&errors[i + 1]) {
                Ok(m) => m,
                Err(_) => {
                    proof {
                        assert(false);
                    }
                    Matrix::zeroes(1, 1)
                },
            };
            let d = weighted_inputs[i].apply(UnOp::LogisticDeriv);
            let e = match applied.combine(&d, BinOp::Mul) {
                Ok(m) => m,
                Err(_) => {
                    proof {
                        assert(false);
                    }
                    Matrix::zeroes(1, 1)
                },
            };
            let ghost errors_prev: Seq<Matrix> = errors@;
            errors[i] = e;
            proof {
                assert(grids_of(errors@)[i as int] == errors@[i as int]@);
                assert forall|t: int| i < t < n implies #[trigger] grids_of(errors@)[t]
                    == grids_of(errors_prev)[t] by {
                    assert(grids_of(errors@)[t] == errors@[t]@);
                    assert(grids_of(errors_prev)[t] == errors_prev[t]@);
                }
            }
        }
        errors
    }

    /// The weight deltas of one example: for each weight matrix, the outer
    /// product of the next layer's error signal with the transposed
    /// activation of its input layer.
    pub fn calculate_weight_deltas(
        weighted_inputs: &Vec<Matrix>,
        weighted_errors: &Vec<Matrix>,
    ) -> (wd: Vec<Matrix>)
        requires
            weighted_inputs@.len() >= 1,
            weighted_errors@.len() == weighted_inputs@.len(),
            forall|i: int|
                0 <= i < weighted_inputs@.len() ==> mat_wf(
                    #[trigger] grids_of(weighted_inputs@)[i],
                ),
            forall|i: int|
                0 <= i < weighted_errors@.len() ==> mat_wf(
                    #[trigger] grids_of(weighted_errors@)[i],
                ),
        ensures
            wd@.len() == weighted_inputs@.len() - 1,
            forall|i: int|
                0 <= i < wd@.len() ==> #[trigger] grids_of(wd@)[i] == mat_outer(
                    grids_of(weighted_errors@)[i + 1],
                    mat_transpose(mat_un(UnOp::Logistic, grids_of(weighted_inputs@)[i])),
                ),
            forall|i: int|
                0 <= i < wd@.len() ==> mat_wf(#[trigger] grids_of(wd@)[i]) && grids_of(
                    wd@,
                )[i].len() == grids_of(weighted_errors@)[i + 1].len() && grids_of(wd@)[i][0].len()
                    == grids_of(weighted_inputs@)[i].len(),
    {
        let ghost wig: Seq<Seq<Seq<u64>>> = grids_of(weighted_inputs@);
        let ghost weg: Seq<Seq<Seq<u64>>> = grids_of(weighted_errors@);
        let n = weighted_inputs.len();
        let mut wd: Vec<Matrix> = Vec::new();
        for i in 0..n - 1
            invariant
                wig == grids_of(weighted_inputs@),
                weg == grids_of(weighted_errors@),
                n == weighted_inputs@.len(),
                n == weighted_errors@.len(),
                n >= 1,
                forall|t: int| 0 <= t < n ==> mat_wf(#[trigger] wig[t]),
                forall|t: int| 0 <= t < n ==> mat_wf(#[trigger] weg[t]),
                wd@.len() == i,
                forall|t: int|
                    0 <= t < i ==> #[trigger] grids_of(wd@)[t] == mat_outer(
                        weg[t + 1],
                        mat_transpose(mat_un(UnOp::Logistic, wig[t])),
                    ),
                forall|t: int|
                    0 <= t < i ==> mat_wf(#[trigger] grids_of(wd@)[t]) && grids_of(wd@)[t].len()
                        == weg[t + 1].len() && grids_of(wd@)[t][0].len() == wig[t].len(),
        {
            proof {
                assert(grids_of(weighted_inputs@)[i as int] == weighted_inputs@[i as int]@);
                assert(grids_of(weighted_errors@)[i + 1] == weighted_errors@[i + 1]@);
                crate::matrix::lemma_mat_un_wf(UnOp::Logistic, wig[i as int]);
                crate::matrix::lemma_mat_transpose_wf(mat_un(UnOp::Logistic, wig[i as int]));
            }
            let act = weighted_inputs[i].apply(UnOp::Logistic);
            let bra = act.transpose();
            let delta = Matrix::from_outer_product(&weighted_errors[i + 1], &bra);
            let ghost wd_prev: Seq<Matrix> = wd@;
            wd.push(delta);
            proof {
                assert(grids_of(wd@)[i as int] == wd@[i as int]@);
                assert forall|t: int| 0 <= t < i implies #[trigger] grids_of(wd@)[t] == grids_of(
                    wd_prev,
                )[t] by {
                    assert(grids_of(wd@)[t] == wd@[t]@);
                    assert(grids_of(wd_prev)[t] == wd_prev[t]@);
                }
                crate::matrix::lemma_mat_outer_wf(
                    weg[i + 1],
                    mat_transpose(mat_un(UnOp::Logistic, wig[i as int])),
                );
            }
        }
        wd
    }

    /// The persisted form of this model: for each layer before the last,
    /// its bias block then its weight block; then the final bias block.
    pub fn to_bytes(&self) -> (r: Vec<u8>)
        requires
            self.wf(),
        ensures
            r@ == model_encode(self.weights_view(), self.biases_view()),
    {
        let ghost wv: Seq<Seq<Seq<u64>>> = self.weights_view();
        let ghost bv: Seq<Seq<Seq<u64>>> = self.biases_view();
        let n = self.weights.len();
        let mut out: Vec<u8> = Vec::new();
        proof {
            assert(out@ =~= Seq::<u8>::empty());
        }
        for i in 0..n
            invariant
                self.wf(),
                wv == self.weights_view(),
                bv == self.biases_view(),
                n == self.weights@.len(),
                enc_from(wv, bv, 0) == out@ + enc_from(wv, bv, i as nat),
        {
            proof {
                assert(grids_of(self.biases@)[i as int] == self.biases@[i as int]@);
                assert(grids_of(self.weights@)[i as int] == self.weights@[i as int]@);
                assert(mat_wf(bv[i as int]));
                assert(mat_wf(wv[i as int]));
            }
            let ghost out_prev: Seq<u8> = out@;
            let mut bb = self.biases[i].as_bytes();
            out.append(&mut bb);
            let mut wb = self.weights[i].as_bytes();
            out.append(&mut wb);
            proof {
                assert(enc_from(wv, bv, i as nat) == mat_encode(bv[i as int]) + mat_encode(
                    wv[i as int],
                ) + enc_from(wv, bv, (i + 1) as nat));
                assert(out@ + enc_from(wv, bv, (i + 1) as nat) =~= out_prev + enc_from(
                    wv,
                    bv,
                    i as nat,
                ));
            }
        }
        proof {
            assert(grids_of(self.biases@)[n as int] == self.biases@[n as int]@);
            assert(mat_wf(bv[n as int]));
        }
        let mut lb = self.biases[n].as_bytes();
        out.append(&mut lb);
        proof {
            assert(enc_from(wv, bv, n as nat) == mat_encode(bv[n as int]));
            assert(out@ =~= enc_from(wv, bv, 0));
        }
        out
    }

    /// Decodes a persisted model: parses blocks until the buffer is
    /// exhausted, alternating bias, weight, ..., bias, and validates that
    /// the shapes form a consistent model. Reports `MalformedPersistedData`
    /// exactly when the buffer is not such a layout: a block is truncated or
    /// has a zero dimension, the block count is even, a bias is not a
    /// column, or a weight's shape does not join its two layers.
    pub fn from_bytes(bytes: Vec<u8>) -> (r: Result<Self, MalformedPersistedData>)
        ensures
            match r {
                Ok(m) => {
                    &&& parse_blocks(bytes@) matches Some(bs) && blocks_form_model(bs)
                        && m.biases_view() == even_blocks(bs) && m.weights_view() == odd_blocks(bs)
                    &&& m.wf()
                },
                Err(e) => !(parse_blocks(bytes@) matches Some(bs) && blocks_form_model(bs)),
            },
    {
        let s = bytes.as_slice();
        let mut biases: Vec<Matrix> = Vec::new();
        let mut weights: Vec<Matrix> = Vec::new();
        let ghost mut bs: Seq<Seq<Seq<u64>>> = Seq::empty();
        let mut idx: usize = 0;
        let mut on_bias = true;
        proof {
            assert(bytes@.skip(0) =~= bytes@);
            assert(Seq::<Seq<Seq<u64>>>::empty() + parse_blocks(bytes@)->Some_0 =~= parse_blocks(
                bytes@,
            )->Some_0);
        }
        while idx < s.len()
            invariant
                s@ == bytes@,
                idx <= s@.len(),
                (parse_blocks(s@.skip(idx as int)) matches Some(rest) ==> parse_blocks(bytes@)
                    matches Some(whole) && whole == bs + rest),
                (parse_blocks(s@.skip(idx as int)) is None ==> parse_blocks(bytes@) is None),
                on_bias == (bs.len() % 2 == 0),
                biases@.len() == (bs.len() + 1) / 2,
                weights@.len() == bs.len() / 2,
                forall|k: int|
                    0 <= k < biases@.len() ==> #[trigger] grids_of(biases@)[k] == bs[2 * k]
                        && mat_wf(grids_of(biases@)[k]),
                forall|k: int|
                    0 <= k < weights@.len() ==> #[trigger] grids_of(weights@)[k] == bs[2 * k + 1]
                        && mat_wf(grids_of(weights@)[k]),
            decreases s@.len() - idx,
        {
            let (m, end) = match Matrix::block_from_bytes(s, idx) {
                Ok(p) => p,
                Err(_) => {
                    return Err(MalformedPersistedData);
                },
            };
            proof {
                assert(s@.skip(idx as int).skip(block_len(s@.skip(idx as int))) =~= s@.skip(
                    end as int,
                ));
            }
            let ghost bs_prev: Seq<Seq<Seq<u64>>> = bs;
            let ghost biases_prev: Seq<Matrix> = biases@;
            let ghost weights_prev: Seq<Matrix> = weights@;
            proof {
                bs = bs + seq![m@];
            }
            if on_bias {
                biases.push(m);
            } else {
                weights.push(m);
            }
            on_bias = !on_bias;
            idx = end;
            proof {
                if parse_blocks(s@.skip(idx as int)) is Some {
                    let rest = parse_blocks(s@.skip(idx as int))->Some_0;
                    assert(bs_prev + (seq![m@] + rest) =~= bs + rest);
                }
                assert forall|k: int| 0 <= k < biases_prev.len() implies #[trigger] grids_of(
                    biases@,
                )[k] == grids_of(biases_prev)[k] by {
                    assert(grids_of(biases_prev)[k] == biases_prev[k]@);
                    assert(grids_of(biases@)[k] == biases@[k]@);
                }
                assert forall|k: int| 0 <= k < weights_prev.len() implies #[trigger] grids_of(
                    weights@,
                )[k] == grids_of(weights_prev)[k] by {
                    assert(grids_of(weights_prev)[k] == weights_prev[k]@);
                    assert(grids_of(weights@)[k] == weights@[k]@);
                }
                if bs_prev.len() % 2 == 0 {
                    assert(grids_of(biases@)[biases@.len() - 1] == biases@[biases@.len() - 1]@);
                } else {
                    assert(grids_of(weights@)[weights@.len() - 1] == weights@[weights@.len()
                        - 1]@);
                }
            }
        }
        proof {
            assert(s@.skip(idx as int) =~= Seq::<u8>::empty());
            assert(parse_blocks(s@.skip(idx as int)) == Some(Seq::<Seq<Seq<u64>>>::empty()));
            assert(bs + Seq::<Seq<Seq<u64>>>::empty() =~= bs);
            assert(parse_blocks(bytes@) == Some(bs));
        }
        if biases.len() == 0 || biases.len() - 1 != weights.len() {
            proof {
                assert(bs.len() % 2 != 1);
            }
            return Err(MalformedPersistedData);
        }
        proof {
            assert(bs.len() == 2 * weights@.len() + 1);
            assert(even_blocks(bs) =~= grids_of(biases@));
            assert(odd_blocks(bs) =~= grids_of(weights@));
        }
        let nb = biases.len();
        for k in 0..nb
            invariant
                nb == biases@.len(),
                parse_blocks(bytes@) == Some(bs),
                bs.len() % 2 == 1,
                even_blocks(bs) == grids_of(biases@),
                odd_blocks(bs) == grids_of(weights@),
                forall|t: int|
                    0 <= t < nb ==> mat_wf(#[trigger] grids_of(biases@)[t]),
                forall|t: int| 0 <= t < k ==> (#[trigger] grids_of(biases@)[t])[0].len() == 1,
        {
            proof {
                assert(grids_of(biases@)[k as int] == biases@[k as int]@);
            }
            if biases[k].columns() != 1 {
                proof {
                    assert(even_blocks(bs)[k as int] == grids_of(biases@)[k as int]);
                    assert(!blocks_form_model(bs));
                }
                return Err(MalformedPersistedData);
            }
        }
        let nw = weights.len();
        for k in 0..nw
            invariant
                nw == weights@.len(),
                nb == biases@.len(),
                nb == nw + 1,
                parse_blocks(bytes@) == Some(bs),
                bs.len() % 2 == 1,
                even_blocks(bs) == grids_of(biases@),
                odd_blocks(bs) == grids_of(weights@),
                forall|t: int| 0 <= t < nb ==> (#[trigger] grids_of(biases@)[t])[0].len() == 1,
                forall|t: int|
                    0 <= t < nb ==> mat_wf(#[trigger] grids_of(biases@)[t]),
                forall|t: int|
                    0 <= t < nw ==> mat_wf(#[trigger] grids_of(weights@)[t]),
                forall|t: int|
                    0 <= t < k ==> (#[trigger] grids_of(weights@)[t]).len() == grids_of(
                        biases@,
                    )[t + 1].len() && grids_of(weights@)[t][0].len() == grids_of(biases@)[t].len(),
        {
            proof {
                assert(grids_of(weights@)[k as int] == weights@[k as int]@);
                assert(grids_of(biases@)[k as int] == biases@[k as int]@);
                assert(grids_of(biases@)[k + 1] == biases@[k + 1]@);
            }
            if weights[k].rows() != biases[k + 1].rows() || weights[k].columns()
                != biases[k].rows() {
                proof {
                    assert(odd_blocks(bs)[k as int] == grids_of(weights@)[k as int]);
                    assert(even_blocks(bs)[k as int] == grids_of(biases@)[k as int]);
                    assert(even_blocks(bs)[k + 1] == grids_of(biases@)[k + 1]);
                    assert(!blocks_form_model(bs));
                }
                return Err(MalformedPersistedData);
            }
        }
        let m = Self { weights, biases };
        proof {
            assert(m.wf());
        }
        Ok(m)
    }

    /// Runs one training example through the model: the forward pass, the
    /// backward pass, and the weight-delta computation, returning the error
    /// signals (the bias deltas) and the weight deltas, shaped to be handed
    /// to `update` as one bundle.
    pub fn do_one_example(&self, input: Matrix, output: Matrix) -> (r: (Vec<Matrix>, Vec<Matrix>))
        requires
            self.wf(),
            input.wf(),
            input@.len() == self.biases_view()[0].len(),
            input@[0].len() == 1,
            output.wf(),
            output@.len() == self.biases_view()[self.biases@.len() - 1].len(),
            output@[0].len() == 1,
        ensures
            r.0@.len() == self.biases@.len(),
            r.1@.len() == self.weights@.len(),
            forall|i: int|
                0 <= i < r.0@.len() ==> #[trigger] grids_of(r.0@)[i] == werror_at(
                    self.weights_view(),
                    self.biases_view(),
                    input@,
                    output@,
                    i as nat,
                ),
            forall|i: int|
                0 <= i < r.1@.len() ==> #[trigger] grids_of(r.1@)[i] == wdelta_at(
                    self.weights_view(),
                    self.biases_view(),
                    input@,
                    output@,
                    i as nat,
                ),
            grids_match(self.biases_view(), grids_of(r.0@)),
            grids_match(self.weights_view(), grids_of(r.1@)),
    {
        let ghost wv: Seq<Seq<Seq<u64>>> = self.weights_view();
        let ghost bv: Seq<Seq<Seq<u64>>> = self.biases_view();
        let ghost inp: Seq<Seq<u64>> = input@;
        let ghost tgt: Seq<Seq<u64>> = output@;
        let weighted_inputs = self.forward(input);
        let weighted_errors = self.backward(&weighted_inputs, output);
        let weight_deltas = Self::calculate_weight_deltas(&weighted_inputs, &weighted_errors);
        proof {
            let wig = grids_of(weighted_inputs@);
            let weg = grids_of(weighted_errors@);
            assert forall|i: int| 0 <= i < weg.len() implies #[trigger] weg[i] == werror_at(
                wv,
                bv,
                inp,
                tgt,
                i as nat,
            ) by {
                lemma_errors_match(wv, bv, inp, tgt, wig, weg, i as nat);
            }
            assert forall|i: int| 0 <= i < weight_deltas@.len() implies #[trigger] grids_of(
                weight_deltas@,
            )[i] == wdelta_at(wv, bv, inp, tgt, i as nat) by {
                assert(weg[i + 1] == werror_at(wv, bv, inp, tgt, (i + 1) as nat));
                assert(wig[i] == winput_at(wv, bv, inp, i as nat));
            }
            assert forall|i: int| 0 <= i < bv.len() implies mat_wf(#[trigger] weg[i])
                && weg[i].len() == bv[i].len() && weg[i][0].len() == bv[i][0].len() by {
                assert(mat_wf(bv[i]));
            }
            assert forall|i: int| 0 <= i < wv.len() implies mat_wf(
                #[trigger] grids_of(weight_deltas@)[i],
            ) && grids_of(weight_deltas@)[i].len() == wv[i].len() && grids_of(
                weight_deltas@,
            )[i][0].len() == wv[i][0].len() by {
                assert(mat_wf(wv[i]));
                assert(mat_wf(bv[i]));
                assert(mat_wf(bv[i + 1]));
                assert(wig[i].len() == bv[i].len());
                assert(weg[i + 1].len() == bv[i + 1].len());
            }
        }
        (weighted_errors, weight_deltas)
    }

    /// Applies a complete delta bundle, scaled by the learning rate: every
    /// bias becomes bias - delta * rate and every weight becomes
    /// weight - delta * rate, elementwise, in one atomic step.
    pub fn update(&mut self, deltas: (Vec<Matrix>, Vec<Matrix>), learning_rate: u64)
        requires
            old(self).wf(),
            grids_match(old(self).biases_view(), grids_of(deltas.0@)),
            grids_match(old(self).weights_view(), grids_of(deltas.1@)),
        ensures
            final(self).wf(),
            final(self).biases@.len() == old(self).biases@.len(),
            final(self).weights@.len() == old(self).weights@.len(),
            forall|i: int|
                0 <= i < old(self).biases@.len() ==> #[trigger] final(self).biases_view()[i]
                    == mat_bin(
                    BinOp::SubScaled(learning_rate),
                    old(self).biases_view()[i],
                    grids_of(deltas.0@)[i],
                ),
            forall|i: int|
                0 <= i < old(self).weights@.len() ==> #[trigger] final(self).weights_view()[i]
                    == mat_bin(
                    BinOp::SubScaled(learning_rate),
                    old(self).weights_view()[i],
                    grids_of(deltas.1@)[i],
                ),
    {
        let op = BinOp::SubScaled(learning_rate);
        let nb = self.biases.len();
        for i in 0..nb
            invariant
                self.biases@.len() == nb,
                old(self).biases@.len() == nb,
                deltas.0@.len() == nb,
                self.weights@.len() == old(self).weights@.len(),
                self.weights@ == old(self).weights@,
                old(self).wf(),
                grids_match(old(self).biases_view(), grids_of(deltas.0@)),
                forall|t: int|
                    i <= t < nb ==> #[trigger] self.biases@[t] == old(self).biases@[t],
                forall|t: int|
                    0 <= t < i ==> #[trigger] grids_of(self.biases@)[t] == mat_bin(
                        op,
                        old(self).biases_view()[t],
                        grids_of(deltas.0@)[t],
                    ),
        {
            proof {
                assert(grids_of(old(self).biases@)[i as int] == old(self).biases@[i as int]@);
                assert(grids_of(deltas.0@)[i as int] == deltas.0@[i as int]@);
                assert(mat_wf(old(self).biases_view()[i as int]));
                assert(mat_wf(grids_of(deltas.0@)[i as int]));
            }
            let updated = match self.biases[i].combine(&deltas.0[i], op) {
                Ok(m) => m,
                Err(_) => {
                    proof {
                        assert(false);
                    }
                    Matrix::zeroes(1, 1)
                },
            };
            let ghost bs_prev: Seq<Matrix> = self.biases@;
            self.biases[i] = updated;
            proof {
                assert(grids_of(self.biases@)[i as int] == self.biases@[i as int]@);
                assert forall|t: int| 0 <= t < i implies #[trigger] grids_of(self.biases@)[t]
                    == grids_of(bs_prev)[t] by {
                    assert(grids_of(self.biases@)[t] == self.biases@[t]@);
                    assert(grids_of(bs_prev)[t] == bs_prev[t]@);
                }
            }
        }
        let nw = self.weights.len();
        for i in 0..nw
            invariant
                self.weights@.len() == nw,
                old(self).weights@.len() == nw,
                deltas.1@.len() == nw,
                self.biases@.len() == old(self).biases@.len(),
                old(self).wf(),
                grids_match(old(self).weights_view(), grids_of(deltas.1@)),
                forall|t: int|
                    0 <= t < old(self).biases@.len() ==> #[trigger] grids_of(self.biases@)[t]
                        == mat_bin(op, old(self).biases_view()[t], grids_of(deltas.0@)[t]),
                forall|t: int|
                    i <= t < nw ==> #[trigger] self.weights@[t] == old(self).weights@[t],
                forall|t: int|
                    0 <= t < i ==> #[trigger] grids_of(self.weights@)[t] == mat_bin(
                        op,
                        old(self).weights_view()[t],
                        grids_of(deltas.1@)[t],
                    ),
        {
            proof {
                assert(grids_of(old(self).weights@)[i as int] == old(self).weights@[i as int]@);
                assert(grids_of(deltas.1@)[i as int] == deltas.1@[i as int]@);
                assert(mat_wf(old(self).weights_view()[i as int]));
                assert(mat_wf(grids_of(deltas.1@)[i as int]));
            }
            let updated = match self.weights[i].combine(&deltas.1[i], op) {
                Ok(m) => m,
                Err(_) => {
                    proof {
                        assert(false);
                    }
                    Matrix::zeroes(1, 1)
                },
            };
            let ghost ws_prev: Seq<Matrix> = self.weights@;
            self.weights[i] = updated;
            proof {
                assert(grids_of(self.weights@)[i as int] == self.weights@[i as int]@);
                assert forall|t: int| 0 <= t < i implies #[trigger] grids_of(self.weights@)[t]
                    == grids_of(ws_prev)[t] by {
                    assert(grids_of(self.weights@)[t] == self.weights@[t]@);
                    assert(grids_of(ws_prev)[t] == ws_prev[t]@);
                }
            }
        }
        proof {
            assert forall|i: int| 0 <= i < self.biases@.len() implies mat_wf(
                #[trigger] grids_of(self.biases@)[i],
            ) && grids_of(self.biases@)[i].len() == old(self).biases_view()[i].len() && grids_of(
                self.biases@,
            )[i][0].len() == 1 by {
                assert(mat_wf(old(self).biases_view()[i]));
                crate::matrix::lemma_mat_bin_wf(
                    op,
                    old(self).biases_view()[i],
                    grids_of(deltas.0@)[i],
                );
            }
            assert forall|i: int| 0 <= i < self.weights@.len() implies mat_wf(
                #[trigger] grids_of(self.weights@)[i],
            ) && grids_of(self.weights@)[i].len() == old(self).weights_view()[i].len() && grids_of(
                self.weights@,
            )[i][0].len() == old(self).weights_view()[i][0].len() by {
                assert(mat_wf(old(self).weights_view()[i]));
                crate::matrix::lemma_mat_bin_wf(
                    op,
                    old(self).weights_view()[i],
                    grids_of(deltas.1@)[i],
                );
            }
            assert(self.wf());
        }
    }
}

} // verus!
