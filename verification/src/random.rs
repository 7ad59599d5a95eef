//! Drawing from a seeded random number generator of the `rand` crate. The draws are trusted
//! to lie where the generator's documentation puts them; nothing else is known of them.
use rand::distributions::Uniform;
use rand::rngs::StdRng;
use rand::{Rng, RngCore};
use vstd::prelude::*;

verus! {

/// The standard generator of `rand`, carried through opaquely.
#[verifier::external_type_specification]
#[verifier::external_body]
pub struct ExStdRng(StdRng);

/// `Rng::gen_range(0..bound)`: a number below `bound`. The range must not be empty, as
/// `gen_range` panics on an empty range.
#[verifier::external_body]
pub(crate) fn gen_below(rng: &mut StdRng, bound: u64) -> (r: u64)
    requires
        bound > 0,
    ensures
        r < bound,
{
    rng.gen_range(0..bound)
}

/// `Rng::gen::<bool>()`: a random bit; either value can come.
#[verifier::external_body]
pub(crate) fn gen_bool(rng: &mut StdRng) -> (b: bool) {
    rng.gen::<bool>()
}

/// `RngCore::fill_bytes` on a buffer of `n` bytes: `n` random bytes.
#[verifier::external_body]
pub(crate) fn random_bytes(rng: &mut StdRng, n: usize) -> (r: Vec<u8>)
    ensures
        r@.len() == n,
{
    let mut buf = vec![0u8; n];
    rng.fill_bytes(&mut buf);
    buf
}

/// `Rng::sample` from `Uniform::<i128>::new(low, high)`: an integer in `[low, high)`.
/// `Uniform::new` panics unless `low < high`.
#[verifier::external_body]
fn sample_uniform_i128(rng: &mut StdRng, low: i128, high: i128) -> (r: i128)
    requires
        low < high,
    ensures
        low <= r < high,
{
    rng.sample(Uniform::<i128>::new(low, high))
}

/// The integers drawn so far by `draw_uniform_i128` into this log, in the order drawn. Only
/// `draw_uniform_i128` appends to it, one entry per draw.
pub struct DrawLog {
    draws: Ghost<Seq<i128>>,
}

impl DrawLog {
    /// The draws recorded so far.
    pub closed spec fn draws(&self) -> Seq<i128> {
        self.draws@
    }

    /// An empty log.
    pub fn new() -> (l: Self)
        ensures
            l.draws() == Seq::<i128>::empty(),
    {
        DrawLog { draws: Ghost(Seq::empty()) }
    }
}

/// One draw from `[low, high)` (see `sample_uniform_i128`), recorded at the end of `log`.
pub(crate) fn draw_uniform_i128(rng: &mut StdRng, low: i128, high: i128, log: &mut DrawLog) -> (r:
    i128)
    requires
        low < high,
    ensures
        low <= r < high,
        final(log).draws() == old(log).draws().push(r),
{
    let r = sample_uniform_i128(rng, low, high);
    log.draws = Ghost(log.draws@.push(r));
    r
}

/// The bytes in reverse order.
pub(crate) fn reversed(bytes: &Vec<u8>) -> (r: Vec<u8>)
    ensures
        r@ == bytes@.reverse(),
{
    let mut r: Vec<u8> = Vec::new();
    let mut i: usize = bytes.len();
    while i > 0
        invariant
            0 <= i <= bytes@.len(),
            r@.len() == bytes@.len() - i,
            forall|k: int| 0 <= k < r@.len() ==> #[trigger] r@[k] == bytes@[bytes@.len() - 1 - k],
        decreases i,
    {
        i -= 1;
        r.push(bytes[i]);
    }
    proof {
        assert(r@ =~= bytes@.reverse());
    }
    r
}

} // verus!
