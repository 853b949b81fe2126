//! Chance, clocks and searching: small helpers shared by the simulation layers.

use vstd::prelude::*;

verus! {

/// Really big time, in microseconds: an event due at `INF` never comes.
pub const INF: u64 = 9223372036854775807;

/// Draws are whole numbers below this one: a draw `k` stands for the fraction
/// `k / RANDOM_RANGE` of the unit interval.
pub const RANDOM_RANGE: u64 = 9007199254740992;

/// Where the generator starts.
pub const FIRST_SEED: u64 = 0x9E3779B97F4A7C15;

/// One step of the 64-bit xorshift generator.
pub open spec fn scramble(x: u64) -> u64 {
    let a = x ^ (x << 13u64);
    let b = a ^ (a >> 7u64);
    b ^ (b << 17u64)
}

/// What a [`RandomSource`] still has to give: the words handed to it from
/// outside, and the state of its own generator for when those run out.
pub ghost struct RandomView {
    pub seed: u64,
    pub pool: Seq<u64>,
}

impl RandomView {
    /// The word that the next draw is made from.
    pub open spec fn word(self) -> u64 {
        if self.pool.len() > 0 {
            self.pool.last()
        } else {
            scramble(self.seed)
        }
    }

    /// The next draw.
    pub open spec fn draw(self) -> u64 {
        self.word() >> 11u64
    }

    /// What is left after the next draw.
    pub open spec fn next(self) -> RandomView {
        if self.pool.len() > 0 {
            RandomView { seed: self.seed, pool: self.pool.drop_last() }
        } else {
            RandomView { seed: scramble(self.seed), pool: self.pool }
        }
    }
}

/// Every draw lies below [`RANDOM_RANGE`].
pub proof fn lemma_draw_range(r: RandomView)
    ensures
        r.draw() < RANDOM_RANGE,
{
    let w = r.word();
    assert(w >> 11u64 < 9007199254740992u64) by (bit_vector);
}

/// A source of chance. Random words from a better source can be fed to it;
/// when none is left it goes on with a small xorshift generator of its own.
pub struct RandomSource {
    pub seed: u64,
    pub pool: Vec<u64>,
}

impl View for RandomSource {
    type V = RandomView;

    open spec fn view(&self) -> RandomView {
        RandomView { seed: self.seed, pool: self.pool@ }
    }
}

impl Clone for RandomSource {
    fn clone(&self) -> (r: Self)
        ensures
            r@ == self@,
    {
        let pool = self.pool.clone();
        assert(pool@ =~= self.pool@);
        RandomSource { seed: self.seed, pool }
    }
}

impl RandomSource {
    /// A source that has been fed nothing yet.
    pub fn new() -> (source: RandomSource)
        ensures
            source@ == (RandomView { seed: FIRST_SEED, pool: Seq::empty() }),
    {
        RandomSource { seed: FIRST_SEED, pool: Vec::new() }
    }

    /// Hands the source a word of random bits; the word fed last is used first.
    pub fn feed(&mut self, word: u64)
        ensures
            final(self)@ == (RandomView { seed: old(self)@.seed, pool: old(self)@.pool.push(word) }),
    {
        self.pool.push(word);
    }
}

/// Uniform random fraction in [0, 1), as a whole number of [`RANDOM_RANGE`]ths.
pub fn random(source: &mut RandomSource) -> (k: u64)
    ensures
        k == old(source)@.draw(),
        k < RANDOM_RANGE,
        final(source)@ == old(source)@.next(),
{
    proof {
        lemma_draw_range(source@);
    }
    match source.pool.pop() {
        Some(word) => word >> 11,
        None => {
            let a: u64 = source.seed ^ (source.seed << 13);
            let b: u64 = a ^ (a >> 7);
            let c: u64 = b ^ (b << 17);
            source.seed = c;
            c >> 11
        },
    }
}

/// `value`, moved to the nearer end of the range from `low` to `high` where it
/// lies outside of it.
pub fn clamp(value: i128, low: i128, high: i128) -> (r: i128)
    ensures
        value < low ==> r == low,
        value >= low && value > high ==> r == high,
        low <= value <= high ==> r == value,
{
    if value < low {
        low
    } else if value > high {
        high
    } else {
        value
    }
}

/// Where bisection of the positions `low..=high` ends, when `greater` says of a
/// position that it lies beyond the one that is looked for: the last position
/// that was found not to lie beyond it, or `low - 1`.
pub open spec fn bisect(greater: spec_fn(int) -> bool, low: int, high: int) -> int
    decreases high - low + 1,
{
    if high < low {
        low - 1
    } else {
        let mid = (low + high) / 2;
        if greater(mid) {
            bisect(greater, low, mid - 1)
        } else {
            bisect(greater, mid + 1, high)
        }
    }
}

/// Bisection ends between a position that is not greater and one that is.
pub proof fn lemma_bisect(greater: spec_fn(int) -> bool, low: int, high: int)
    requires
        low <= high + 1,
    ensures
        low - 1 <= bisect(greater, low, high) <= high,
        bisect(greater, low, high) >= low ==> !greater(bisect(greater, low, high)),
        bisect(greater, low, high) < high ==> greater(bisect(greater, low, high) + 1),
    decreases high - low + 1,
{
    if low <= high {
        let mid = (low + high) / 2;
        if greater(mid) {
            lemma_bisect(greater, low, mid - 1);
        } else {
            lemma_bisect(greater, mid + 1, high);
        }
    }
}

/// Where `greater` is monotonic, bisection finds the last position that is not
/// greater: all up to it are not, all after it are.
pub proof fn lemma_bisect_monotonic(greater: spec_fn(int) -> bool, low: int, high: int, i: int)
    requires
        low <= i <= high,
        forall|a: int, b: int|
            low <= a <= b <= high && #[trigger] greater(a) ==> #[trigger] greater(b),
    ensures
        i <= bisect(greater, low, high) <==> !greater(i),
{
    lemma_bisect(greater, low, high);
    let r = bisect(greater, low, high);
    if i <= r {
        assert(!greater(r));
    } else {
        assert(greater(r + 1));
    }
}

/// `gt` answers for every element as `g` does.
pub open spec fn decides<T, F: Fn(&T) -> bool>(gt: F, g: spec_fn(T) -> bool) -> bool {
    forall|x: T, b: bool| call_ensures(gt, (&x,), b) ==> b == g(x)
}

/// `g` as a question about positions of `a`.
pub open spec fn at<T>(a: Seq<T>, g: spec_fn(T) -> bool) -> spec_fn(int) -> bool {
    |i: int| g(a[i])
}

/// How many elements of `a` bisection finds up to and with the greatest one
/// for which `gt(elem)` is false.
pub fn lower_count<T, F: Fn(&T) -> bool>(a: &[T], gt: F) -> (n: usize)
    requires
        forall|i: int| 0 <= i < a@.len() ==> call_requires(gt, (&#[trigger] a@[i],)),
    ensures
        n <= a@.len(),
        n > 0 ==> call_ensures(gt, (&a@[n - 1],), false),
        n < a@.len() ==> call_ensures(gt, (&a@[n as int],), true),
        forall|g: spec_fn(T) -> bool| #[trigger]
            decides(gt, g) ==> n == bisect(at(a@, g), 0, a@.len() - 1) + 1,
{
    let mut low: usize = 0;
    let mut high: usize = a.len();
    while low < high
        invariant
            low <= high <= a@.len(),
            forall|i: int| 0 <= i < a@.len() ==> call_requires(gt, (&#[trigger] a@[i],)),
            low > 0 ==> call_ensures(gt, (&a@[low - 1],), false),
            high < a@.len() ==> call_ensures(gt, (&a@[high as int],), true),
            forall|g: spec_fn(T) -> bool| #[trigger]
                decides(gt, g) ==> bisect(at(a@, g), low as int, high - 1) == bisect(
                    at(a@, g),
                    0,
                    a@.len() - 1,
                ),
        decreases high - low,
    {
        let mid: usize = low + (high - 1 - low) / 2;
        assert(mid == (low + (high - 1)) / 2);
        let beyond = gt(&a[mid]);
        assert forall|g: spec_fn(T) -> bool| #[trigger] decides(gt, g) implies beyond == at(a@, g)(
            mid as int,
        ) by {
            assert(call_ensures(gt, (&a@[mid as int],), beyond));
        }
        if beyond {
            high = mid;
        } else {
            low = mid + 1;
        }
    }
    low
}

/// Index of the greatest element of `a` for which `gt(elem)` is false,
/// assuming `a` is sorted such that `gt` is monotonic. Returns -1 if none.
/// Where `gt` is not monotonic, the answer is that of the bisection.
pub fn greatest_lower<T, F: Fn(&T) -> bool>(a: &[T], gt: F) -> (r: isize)
    requires
        a@.len() <= isize::MAX,
        forall|i: int| 0 <= i < a@.len() ==> call_requires(gt, (&#[trigger] a@[i],)),
    ensures
        -1 <= r < a@.len(),
        r >= 0 ==> call_ensures(gt, (&a@[r as int],), false),
        r + 1 < a@.len() ==> call_ensures(gt, (&a@[r + 1],), true),
        forall|g: spec_fn(T) -> bool| #[trigger]
            decides(gt, g) ==> r == bisect(at(a@, g), 0, a@.len() - 1),
{
    let n: usize = lower_count(a, gt);
    n as isize - 1
}

} // verus!
