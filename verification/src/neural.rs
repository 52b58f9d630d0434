//! Integer parts of the sheaf neural network: the xorshift generator behind the
//! weight initialization and the layer shapes of a multi-layer network.

use vstd::prelude::*;

verus! {

/// One xorshift64 step (shifts 13, 7, 17).
pub open spec fn xorshift64(s: u64) -> u64 {
    let a = s ^ (s << 13u64);
    let b = a ^ (a >> 7u64);
    b ^ (b << 17u64)
}

proof fn lemma_xorshift_nonzero(s: u64)
    requires
        s != 0,
    ensures
        xorshift64(s) != 0,
{
    let a = s ^ (s << 13u64);
    assert(a != 0) by (bit_vector)
        requires
            s != 0,
            a == s ^ (s << 13u64),
    ;
    let b = a ^ (a >> 7u64);
    assert(b != 0) by (bit_vector)
        requires
            a != 0,
            b == a ^ (a >> 7u64),
    ;
    let c = b ^ (b << 17u64);
    assert(c != 0) by (bit_vector)
        requires
            b != 0,
            c == b ^ (b << 17u64),
    ;
}

/// Simple RNG for weight initialization (xorshift64; its state is never zero).
pub struct SimpleRng {
    state: u64,
}

impl SimpleRng {
    #[verifier::type_invariant]
    spec fn state_nonzero(self) -> bool {
        self.state != 0
    }

    /// Current state of the generator.
    pub closed spec fn spec_state(self) -> u64 {
        self.state
    }

    /// Create a generator from a seed; the seed 0 is replaced by 1.
    pub fn new(seed: u64) -> (r: Self)
        ensures
            r.spec_state() == if seed == 0 {
                1
            } else {
                seed
            },
    {
        SimpleRng { state: if seed == 0 { 1 } else { seed } }
    }

    /// Advance the generator one xorshift64 step and return the new state.
    pub fn next_u64(&mut self) -> (s: u64)
        ensures
            s == xorshift64(old(self).spec_state()),
            final(self).spec_state() == s,
            s != 0,
    {
        proof {
            use_type_invariant(&*self);
            lemma_xorshift_nonzero(self.state);
        }
        let mut x = self.state;
        x = x ^ (x << 13u64);
        x = x ^ (x >> 7u64);
        x = x ^ (x << 17u64);
        self.state = x;
        x
    }
}

/// Shapes (d_in, d_out) of the layers of a network with the given layer sizes:
/// one layer for each consecutive pair of sizes.
pub fn layer_shapes(layer_sizes: &Vec<usize>) -> (shapes: Vec<(usize, usize)>)
    ensures
        shapes@.len() == if layer_sizes@.len() == 0 {
            0
        } else {
            layer_sizes@.len() - 1
        },
        forall|i: int|
            0 <= i < shapes@.len() ==> #[trigger] shapes@[i] == (layer_sizes@[i], layer_sizes@[i + 1]),
{
    let mut shapes: Vec<(usize, usize)> = Vec::new();
    let mut i: usize = 0;
    while i < layer_sizes.len() && i + 1 < layer_sizes.len()
        invariant
            layer_sizes@.len() == 0 ==> i == 0,
            layer_sizes@.len() > 0 ==> i < layer_sizes@.len(),
            shapes@.len() == i,
            forall|j: int|
                0 <= j < i ==> #[trigger] shapes@[j] == (layer_sizes@[j], layer_sizes@[j + 1]),
        decreases layer_sizes@.len() - i,
    {
        shapes.push((layer_sizes[i], layer_sizes[i + 1]));
        i += 1;
    }
    shapes
}

} // verus!
