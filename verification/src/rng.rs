//! Randomness sources, declared and trusted at this boundary: a seedable
//! deterministic stream for maze generation, the thread generator for
//! gameplay randomness, and fresh identifiers.
use vstd::prelude::*;
use rand::RngExt;
use rand::SeedableRng;

verus! {

#[verifier::external_type_specification]
#[verifier::external_body]
pub struct ExChaCha8Rng(rand_chacha::ChaCha8Rng);

/// The value rand's uniform sampler draws from the ChaCha stream seeded
/// with `seed`, after the given history of earlier range requests, for the
/// range `[lo, hi)`. The stream is a pure function of its seed, so the draw
/// depends on these arguments alone.
pub uninterp spec fn chacha_draw(seed: u64, history: Seq<(usize, usize)>, lo: usize, hi: usize) -> usize;

/// The deterministic generation stream, with its seed and request history
/// on record: equal seeds and histories provably draw equal values.
pub struct SeededRng {
    inner: rand_chacha::ChaCha8Rng,
    seed: Ghost<u64>,
    history: Ghost<Seq<(usize, usize)>>,
}

/// Relies on rand_core's SeedableRng::seed_from_u64: the deterministic
/// generator seeded for reproducible maze generation.
#[verifier::external_body]
fn chacha_from_seed(seed: u64) -> rand_chacha::ChaCha8Rng {
    rand_chacha::ChaCha8Rng::seed_from_u64(seed)
}

impl SeededRng {
    pub closed spec fn seed_spec(self) -> u64 {
        self.seed@
    }

    pub closed spec fn history_spec(self) -> Seq<(usize, usize)> {
        self.history@
    }

    /// The deterministic generator for `seed`, with an empty request
    /// history.
    pub fn new(seed: u64) -> (r: SeededRng)
        ensures
            r.seed_spec() == seed,
            r.history_spec() == Seq::<(usize, usize)>::empty(),
    {
        SeededRng {
            inner: chacha_from_seed(seed),
            seed: Ghost(seed),
            history: Ghost(Seq::empty()),
        }
    }

    /// Relies on rand's RngExt::random_range over the recorded ChaCha
    /// stream: the value in `[lo, hi)` that `chacha_draw` names for this
    /// seed, history and range.
    #[verifier::external_body]
    pub fn range(&mut self, lo: usize, hi: usize) -> (r: usize)
        requires
            lo < hi,
        ensures
            lo <= r < hi,
            r == chacha_draw(old(self).seed_spec(), old(self).history_spec(), lo, hi),
            final(self).seed_spec() == old(self).seed_spec(),
            final(self).history_spec() == old(self).history_spec().push((lo, hi)),
    {
        self.inner.random_range(lo..hi)
    }
}

/// Relies on rand's random_range on the thread generator: some value in
/// `[0, n)`.
#[verifier::external_body]
pub(crate) fn random_below(n: usize) -> (r: usize)
    requires
        n > 0,
    ensures
        r < n,
{
    rand::random_range(0..n)
}

/// Relies on rand's random on the thread generator: an arbitrary seed.
#[verifier::external_body]
pub(crate) fn random_seed() -> u64 {
    rand::random::<u64>()
}

/// Relies on uuid's Uuid::new_v4: a fresh random identifier.
#[verifier::external_body]
pub(crate) fn random_player_id() -> u128 {
    uuid::Uuid::new_v4().as_u128()
}

/// Relies on rand's random_range for the numeric tag appended to a player's
/// chosen display name.
#[verifier::external_body]
pub(crate) fn suffixed_player_name(name: &str) -> String {
    let prefix: String = name.chars().take(10).collect();
    format!("{}#{:03}", prefix, rand::random_range(0..1000usize))
}

/// Relies on rand's random_range to pick one of the traditional pursuer
/// names, tagged with its maze and slot.
#[verifier::external_body]
pub(crate) fn minotaur_display_name(maze_id: usize, index: usize) -> String {
    let names = [
        "\u{1f08}\u{3c3}\u{3c4}\u{3b5}\u{3c1}\u{3af}\u{3c9}\u{3bd}",
        "\u{39c}\u{3af}\u{3bd}\u{3c9}\u{3c2}",
        "\u{3a3}\u{3b1}\u{3c1}\u{3c0}\u{3b7}\u{3b4}\u{3ce}\u{3bd}",
        "\u{1fec}\u{3b1}\u{3b4}\u{3ac}\u{3bc}\u{3b1}\u{3bd}\u{3b8}\u{3c5}\u{3c2}",
        "\u{1f08}\u{3bc}\u{3c6}\u{3b9}\u{3c4}\u{3c1}\u{3cd}\u{3c9}\u{3bd}",
        "\u{3a0}\u{3c4}\u{3b5}\u{3c1}\u{3ad}\u{3bb}\u{3b1}\u{3bf}\u{3c2}",
        "\u{3a4}\u{3ac}\u{3c6}\u{3bf}\u{3c2}",
    ];
    let i = rand::random_range(0..names.len());
    format!("{}#{}{}", names[i], maze_id, index)
}

} // verus!
