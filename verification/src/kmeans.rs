//! The integer side of clustering: random choices, assignments, and the sums
//! that centroids are made from.
use vstd::prelude::*;
use crate::format::DIMS;

verus! {

// ---------------------------------------------------------------------------
// Random numbers
// ---------------------------------------------------------------------------

/// The state after the next number.
pub open spec fn advanced(state: u64) -> u64 {
    state.wrapping_add(0x9E37_79B9_7F4A_7C15)
}

/// The number that a state gives.
pub open spec fn mixed(state: u64) -> u64 {
    let a = (state ^ (state >> 30)).wrapping_mul(0xBF58_476D_1CE4_E5B9);
    let b = (a ^ (a >> 27)).wrapping_mul(0x94D0_49BB_1331_11EB);
    b ^ (b >> 31)
}

/// The number below `n` that a state gives.
pub open spec fn pick(state: u64, n: int) -> int {
    mixed(state) as int % n
}

/// The part of one that a state gives, in units of `2^-53`.
pub open spec fn part(state: u64) -> int {
    mixed(state) as int / 0x800
}

/// A deterministic source of numbers.
pub struct Rng {
    pub state: u64,
}

impl Rng {
    /// A source that starts from `seed`.
    pub fn new(seed: u64) -> (r: Rng)
        ensures
            r.state == seed,
    {
        Rng { state: seed }
    }

    pub fn next_u64(&mut self) -> (r: u64)
        ensures
            final(self).state == advanced(old(self).state),
            r == mixed(final(self).state),
    {
        self.state = self.state.wrapping_add(0x9E37_79B9_7F4A_7C15);
        let z = self.state;
        let a = (z ^ (z >> 30)).wrapping_mul(0xBF58_476D_1CE4_E5B9);
        let b = (a ^ (a >> 27)).wrapping_mul(0x94D0_49BB_1331_11EB);
        b ^ (b >> 31)
    }

    /// A number below `n`.
    pub fn below(&mut self, n: usize) -> (r: usize)
        requires
            n > 0,
        ensures
            final(self).state == advanced(old(self).state),
            r == mixed(final(self).state) as int % n as int,
            r == pick(final(self).state, n as int),
            r < n,
    {
        (self.next_u64() % n as u64) as usize
    }

    /// A number of fifty-three bits: a part of one, in units of `2^-53`.
    pub fn unit(&mut self) -> (r: u64)
        ensures
            final(self).state == advanced(old(self).state),
            r == mixed(final(self).state) as int / 0x800,
            r == part(final(self).state),
            r < 0x20_0000_0000_0000,
    {
        self.next_u64() / 0x800
    }
}

/// The state after `i` numbers.
pub open spec fn state_after(seed: u64, i: int) -> u64
    decreases i,
{
    if i <= 0 {
        seed
    } else {
        advanced(state_after(seed, i - 1))
    }
}

/// Draws as many of the numbers below `n` as asked for, but no more than `n`.
pub fn draw_sample(n: u32, size: u32, seed: u64) -> (r: Vec<u32>)
    ensures
        r@.len() == if size < n {
            size
        } else {
            n
        },
        forall|i: int|
            0 <= i < r@.len() ==> #[trigger] r@[i] == mixed(state_after(seed, i + 1)) as int
                % n as int,
        forall|i: int|
            0 <= i < r@.len() ==> #[trigger] r@[i] == pick(state_after(seed, i + 1), n as int),
        forall|i: int| 0 <= i < r@.len() ==> #[trigger] r@[i] < n,
{
    let take = if size < n {
        size
    } else {
        n
    };
    let mut rng = Rng::new(seed);
    let mut r: Vec<u32> = Vec::new();
    for i in 0..take
        invariant
            take <= n,
            r@.len() == i,
            rng.state == state_after(seed, i as int),
            forall|j: int|
                0 <= j < i ==> #[trigger] r@[j] == mixed(state_after(seed, j + 1)) as int
                    % n as int,
            forall|j: int| 0 <= j < i ==> #[trigger] r@[j] < n,
    {
        let x = rng.below(n as usize);
        assert(rng.state == state_after(seed, i + 1));
        r.push(x as u32);
    }
    r
}

// ---------------------------------------------------------------------------
// Assignments
// ---------------------------------------------------------------------------

/// How many of the first `n` entries differ.
pub open spec fn differing(a: Seq<u32>, b: Seq<u32>, n: int) -> int
    decreases n,
{
    if n <= 0 {
        0
    } else if a[n - 1] != b[n - 1] {
        differing(a, b, n - 1) + 1
    } else {
        differing(a, b, n - 1)
    }
}

/// Takes over the new assignment. The result is how many entries changed.
pub fn reassign(assign: &mut Vec<u32>, new: &Vec<u32>) -> (changed: u64)
    requires
        old(assign)@.len() == new@.len(),
    ensures
        final(assign)@ == new@,
        changed == differing(old(assign)@, new@, new@.len() as int),
{
    let ghost before = assign@;
    let mut changed: u64 = 0;
    for i in 0..new.len()
        invariant
            assign@.len() == new@.len(),
            before.len() == new@.len(),
            forall|j: int| 0 <= j < i ==> assign@[j] == new@[j],
            forall|j: int| i <= j < new@.len() ==> assign@[j] == before[j],
            changed == differing(before, new@, i as int),
            changed <= i,
    {
        if new[i] != assign[i] {
            changed = changed + 1;
            assign.set(i, new[i]);
        }
    }
    assert(assign@ =~= new@);
    changed
}

/// Key `r` is the first of the least.
pub open spec fn is_first_least(keys: Seq<u32>, r: int) -> bool {
    &&& 0 <= r < keys.len()
    &&& forall|i: int| 0 <= i < keys.len() ==> keys[r] <= #[trigger] keys[i]
    &&& forall|i: int| 0 <= i < r ==> keys[r] < #[trigger] keys[i]
}

/// The first of the least keys.
pub fn first_least(keys: &[u32]) -> (r: u32)
    requires
        0 < keys@.len() <= u32::MAX,
    ensures
        r < keys@.len(),
        forall|i: int| 0 <= i < keys@.len() ==> keys@[r as int] <= #[trigger] keys@[i],
        forall|i: int| 0 <= i < r ==> keys@[r as int] < #[trigger] keys@[i],
        is_first_least(keys@, r as int),
{
    let mut best: usize = 0;
    for i in 1..keys.len()
        invariant
            best < keys@.len() <= u32::MAX,
            best < i,
            forall|j: int| 0 <= j < i ==> keys@[best as int] <= #[trigger] keys@[j],
            forall|j: int| 0 <= j < best ==> keys@[best as int] < #[trigger] keys@[j],
    {
        if keys[i] < keys[best] {
            best = i;
        }
    }
    best as u32
}

// ---------------------------------------------------------------------------
// Choices
// ---------------------------------------------------------------------------

/// The lesser of two keys.
pub open spec fn lesser(a: u32, b: u32) -> u32 {
    if a < b {
        a
    } else {
        b
    }
}

/// Keeps the lesser key of each two.
pub fn keep_lesser(keys: &mut Vec<u32>, new: &Vec<u32>)
    requires
        old(keys)@.len() == new@.len(),
    ensures
        final(keys)@.len() == new@.len(),
        forall|i: int|
            0 <= i < new@.len() ==> #[trigger] final(keys)@[i] == if new@[i] < old(keys)@[i] {
                new@[i]
            } else {
                old(keys)@[i]
            },
        forall|i: int|
            0 <= i < new@.len() ==> #[trigger] final(keys)@[i] == lesser(new@[i], old(keys)@[i]),
{
    let ghost before = keys@;
    for i in 0..new.len()
        invariant
            keys@.len() == new@.len(),
            before.len() == new@.len(),
            forall|j: int|
                0 <= j < i ==> #[trigger] keys@[j] == if new@[j] < before[j] {
                    new@[j]
                } else {
                    before[j]
                },
            forall|j: int| i <= j < new@.len() ==> keys@[j] == before[j],
    {
        if new[i] < keys[i] {
            keys.set(i, new[i]);
        }
    }
}

/// Key `r` is the first that reaches the target, or the last of all.
pub open spec fn is_first_reaching(keys: Seq<u64>, target: u64, r: int) -> bool {
    &&& 0 <= r < keys.len()
    &&& forall|i: int| 0 <= i < r ==> #[trigger] keys[i] < target
    &&& r == keys.len() - 1 || keys[r] >= target
}

/// The first place whose key has reached `target`; the last if none has.
pub fn first_reaching(keys: &[u64], target: u64) -> (r: usize)
    requires
        keys@.len() > 0,
    ensures
        r < keys@.len(),
        forall|i: int| 0 <= i < r ==> #[trigger] keys@[i] < target,
        r < keys@.len() - 1 ==> keys@[r as int] >= target,
        is_first_reaching(keys@, target, r as int),
{
    let mut i: usize = 0;
    while i < keys.len() - 1
        invariant
            keys@.len() > 0,
            i <= keys@.len() - 1,
            forall|j: int| 0 <= j < i ==> #[trigger] keys@[j] < target,
        decreases keys@.len() - i,
    {
        if keys[i] >= target {
            return i;
        }
        i = i + 1;
    }
    i
}

/// How many of the first `c` clusters are empty.
pub open spec fn empties(counts: Seq<u32>, c: int) -> int
    decreases c,
{
    if c <= 0 {
        0
    } else if counts[c - 1] == 0 {
        empties(counts, c - 1) + 1
    } else {
        empties(counts, c - 1)
    }
}

/// For each cluster that is empty a random member of the sample, which is to be
/// its centroid.
pub fn reseed(counts: &Vec<u32>, sample: &Vec<u32>, rng: &mut Rng) -> (r: Vec<Option<u32>>)
    requires
        sample@.len() > 0,
    ensures
        r@.len() == counts@.len(),
        forall|c: int|
            0 <= c < r@.len() ==> #[trigger] r@[c] == if counts@[c] == 0 {
                Some(
                    sample@[mixed(state_after(old(rng).state, empties(counts@, c) + 1)) as int
                        % sample@.len() as int],
                )
            } else {
                None
            },
        final(rng).state == state_after(old(rng).state, empties(counts@, counts@.len() as int)),
{
    let ghost seed = rng.state;
    let mut r: Vec<Option<u32>> = Vec::new();
    for c in 0..counts.len()
        invariant
            sample@.len() > 0,
            seed == old(rng).state,
            r@.len() == c,
            rng.state == state_after(seed, empties(counts@, c as int)),
            empties(counts@, c as int) >= 0,
            forall|e: int|
                0 <= e < c ==> #[trigger] r@[e] == if counts@[e] == 0 {
                    Some(
                        sample@[mixed(state_after(seed, empties(counts@, e) + 1)) as int
                            % sample@.len() as int],
                    )
                } else {
                    None
                },
    {
        if counts[c] == 0 {
            let i = rng.below(sample.len());
            assert(rng.state == state_after(seed, empties(counts@, c as int) + 1));
            r.push(Some(sample[i]));
        } else {
            r.push(None);
        }
    }
    r
}

// ---------------------------------------------------------------------------
// Sums
// ---------------------------------------------------------------------------

/// How many of the first `n` members of the sample are in cluster `c`.
pub open spec fn count_of(assign: Seq<u32>, c: int, n: int) -> int
    decreases n,
{
    if n <= 0 {
        0
    } else if assign[n - 1] == c {
        count_of(assign, c, n - 1) + 1
    } else {
        count_of(assign, c, n - 1)
    }
}

/// Sum of coordinate `d` of those of the first `n` members of the sample that
/// are in cluster `c`.
pub open spec fn sum_of(
    vecs: Seq<i16>,
    sample: Seq<u32>,
    assign: Seq<u32>,
    c: int,
    d: int,
    n: int,
) -> int
    decreases n,
{
    if n <= 0 {
        0
    } else if assign[n - 1] == c {
        sum_of(vecs, sample, assign, c, d, n - 1) + vecs[14 * sample[n - 1] + d]
    } else {
        sum_of(vecs, sample, assign, c, d, n - 1)
    }
}

/// Sums and counts of the clusters, fourteen sums for each.
pub struct Totals {
    pub sums: Vec<i64>,
    pub counts: Vec<u32>,
}

impl Totals {
    /// The totals of the first `n` members of the sample.
    pub open spec fn are(
        &self,
        vecs: Seq<i16>,
        sample: Seq<u32>,
        assign: Seq<u32>,
        k: int,
        n: int,
    ) -> bool {
        &&& self.sums@.len() == 14 * k
        &&& self.counts@.len() == k
        &&& forall|c: int|
            0 <= c < k ==> self.counts@[c] == #[trigger] count_of(assign, c, n)
        &&& forall|c: int, d: int|
            0 <= c < k && 0 <= d < 14 ==> self.sums@[14 * c + d] == #[trigger] sum_of(
                vecs,
                sample,
                assign,
                c,
                d,
                n,
            )
    }

    fn zero(k: usize, Ghost(vecs): Ghost<Seq<i16>>, Ghost(sample): Ghost<Seq<u32>>, Ghost(assign): Ghost<Seq<u32>>) -> (r: Totals)
        requires
            14 * k <= usize::MAX,
        ensures
            r.are(vecs, sample, assign, k as int, 0),
    {
        Totals { sums: vec![0i64; DIMS * k], counts: vec![0u32; k] }
    }

    /// Adds one vector to cluster `c`.
    fn add_row(&mut self, row: &[i16], c: usize)
        requires
            row@.len() == 14,
            14 * c + 14 <= old(self).sums@.len(),
            forall|d: int|
                0 <= d < 14 ==> -0x1000_0000_0000_0000 <= #[trigger] old(self).sums@[14 * c + d]
                    <= 0x1000_0000_0000_0000,
        ensures
            final(self).counts == old(self).counts,
            final(self).sums@.len() == old(self).sums@.len(),
            forall|d: int|
                0 <= d < 14 ==> #[trigger] final(self).sums@[14 * c + d] == old(self).sums@[14 * c
                    + d] + row@[d],
            forall|i: int|
                0 <= i < old(self).sums@.len() && !(14 * c <= i < 14 * c + 14)
                    ==> #[trigger] final(self).sums@[i] == old(self).sums@[i],
    {
        let ghost before = *self;
        let n = self.sums.len();
        for d in 0..DIMS
            invariant
                row@.len() == 14,
                n == before.sums@.len(),
                14 * c + 14 <= n,
                self.counts == before.counts,
                self.sums@.len() == n,
                forall|e: int|
                    0 <= e < 14 ==> -0x1000_0000_0000_0000 <= #[trigger] before.sums@[14 * c + e]
                        <= 0x1000_0000_0000_0000,
                forall|e: int|
                    0 <= e < d ==> #[trigger] self.sums@[14 * c + e] == before.sums@[14 * c + e]
                        + row@[e],
                forall|i: int|
                    0 <= i < n && !(14 * c <= i < 14 * c + d) ==> #[trigger] self.sums@[i]
                        == before.sums@[i],
        {
            let at = DIMS * c + d;
            assert(before.sums@[14 * c + d] == self.sums@[at as int]);
            let s = self.sums[at] + row[d] as i64;
            self.sums.set(at, s);
        }
    }
}

/// Sums stay small.
proof fn lemma_sum_bound(
    vecs: Seq<i16>,
    sample: Seq<u32>,
    assign: Seq<u32>,
    c: int,
    d: int,
    n: int,
)
    requires
        0 <= n,
    ensures
        -0x8000 * n <= sum_of(vecs, sample, assign, c, d, n) <= 0x8000 * n,
        0 <= count_of(assign, c, n) <= n,
    decreases n,
{
    if n > 0 {
        lemma_sum_bound(vecs, sample, assign, c, d, n - 1);
    }
}

/// Sums and counts of the vectors of a sample, by the cluster that each is
/// assigned to. A vector of the sample is named by its number.
pub fn totals(vecs: &[i16], sample: &[u32], assign: &[u32], k: u32) -> (r: Totals)
    requires
        vecs@.len() % 14 == 0,
        sample@.len() == assign@.len(),
        sample@.len() <= u32::MAX,
        14 * k <= usize::MAX,
        forall|i: int| 0 <= i < sample@.len() ==> #[trigger] sample@[i] < vecs@.len() / 14,
        forall|i: int| 0 <= i < assign@.len() ==> #[trigger] assign@[i] < k,
    ensures
        r.are(vecs@, sample@, assign@, k as int, sample@.len() as int),
{
    let mut r = Totals::zero(k as usize, Ghost(vecs@), Ghost(sample@), Ghost(assign@));
    let total = vecs.len();
    for i in 0..sample.len()
        invariant
            total == vecs@.len(),
            total % 14 == 0,
            sample@.len() == assign@.len(),
            sample@.len() <= u32::MAX,
            14 * k <= usize::MAX,
            forall|j: int| 0 <= j < sample@.len() ==> #[trigger] sample@[j] < vecs@.len() / 14,
            forall|j: int| 0 <= j < assign@.len() ==> #[trigger] assign@[j] < k,
            r.are(vecs@, sample@, assign@, k as int, i as int),
    {
        let ghost before = r;
        let c = assign[i] as usize;
        let at = sample[i] as usize;
        assert(assign@[i as int] < k);
        assert(sample@[i as int] < vecs@.len() / 14);
        assert(14 * at + 14 <= total);
        let row = &vecs[DIMS * at..DIMS * at + DIMS];
        proof {
            lemma_sum_bound(vecs@, sample@, assign@, c as int, 0, i as int);
            assert forall|d: int| 0 <= d < 14 implies -0x1000_0000_0000_0000
                <= #[trigger] r.sums@[14 * c + d] <= 0x1000_0000_0000_0000 by {
                lemma_sum_bound(vecs@, sample@, assign@, c as int, d, i as int);
                assert(r.sums@[14 * c + d] == sum_of(
                    vecs@,
                    sample@,
                    assign@,
                    c as int,
                    d,
                    i as int,
                ));
            }
            assert(r.counts@[c as int] == count_of(assign@, c as int, i as int));
        }
        r.add_row(row, c);
        let count = r.counts[c];
        r.counts.set(c, count + 1);
        proof {
            lemma_totals_step(before, r, vecs@, sample@, assign@, k as int, i as int);
        }
    }
    r
}

proof fn lemma_totals_step(
    before: Totals,
    after: Totals,
    vecs: Seq<i16>,
    sample: Seq<u32>,
    assign: Seq<u32>,
    k: int,
    i: int,
)
    requires
        before.are(vecs, sample, assign, k, i),
        0 <= i < sample.len(),
        sample.len() == assign.len(),
        0 <= assign[i] < k,
        after.sums@.len() == before.sums@.len(),
        after.counts@ == before.counts@.update(
            assign[i] as int,
            (before.counts@[assign[i] as int] + 1) as u32,
        ),
        before.counts@[assign[i] as int] < u32::MAX,
        forall|d: int|
            0 <= d < 14 ==> #[trigger] after.sums@[14 * assign[i] + d] == before.sums@[14
                * assign[i] + d] + vecs[14 * sample[i] + d],
        forall|j: int|
            0 <= j < before.sums@.len() && !(14 * assign[i] <= j < 14 * assign[i] + 14)
                ==> #[trigger] after.sums@[j] == before.sums@[j],
    ensures
        after.are(vecs, sample, assign, k, i + 1),
{
    let a = assign[i] as int;
    assert forall|c: int| 0 <= c < k implies after.counts@[c] == #[trigger] count_of(
        assign,
        c,
        i + 1,
    ) by {
        assert(before.counts@[c] == count_of(assign, c, i));
    }
    assert forall|c: int, d: int| 0 <= c < k && 0 <= d < 14 implies after.sums@[14 * c + d]
        == #[trigger] sum_of(vecs, sample, assign, c, d, i + 1) by {
        assert(before.sums@[14 * c + d] == sum_of(vecs, sample, assign, c, d, i));
        if c == a {
            assert(after.sums@[14 * a + d] == before.sums@[14 * a + d] + vecs[14 * sample[i] + d]);
        } else {
            let j = 14 * c + d;
            assert(!(14 * a <= j < 14 * a + 14));
            assert(after.sums@[j] == before.sums@[j]);
        }
    }
}

// ---------------------------------------------------------------------------
// Laws
// ---------------------------------------------------------------------------

/// The state that gives the number `w`.
pub open spec fn unmixed(w: u64) -> u64 {
    let b = w ^ (w >> 31) ^ (w >> 62);
    let c = b.wrapping_mul(0x3196_42B2_D24D_8EC3);
    let a = c ^ (c >> 27) ^ (c >> 54);
    let x = a.wrapping_mul(0x96DE_1B17_3F11_9089);
    x ^ (x >> 30) ^ (x >> 60)
}

/// A product with an odd number is undone by one with its inverse.
proof fn lemma_unmultiplied(x: u64, c: u64, i: u64, k: int)
    requires
        c * i == 1 + k * 0x1_0000_0000_0000_0000,
    ensures
        x.wrapping_mul(c).wrapping_mul(i) == x,
{
    let m = 0x1_0000_0000_0000_0000int;
    let y = x * c;
    vstd::arithmetic::div_mod::lemma_mul_mod_noop_left(y, i as int, m);
    assert(y * i == m * (x * k) + x) by (nonlinear_arith)
        requires
            y == x * c,
            c * i == 1 + k * m,
    ;
    vstd::arithmetic::div_mod::lemma_mod_multiples_vanish(x * k, x as int, m);
    vstd::arithmetic::div_mod::lemma_small_mod(x as nat, m as nat);
}

/// The number that a state gives tells the state: no two states give the same
/// number.
pub proof fn law_numbers_tell_states(state: u64)
    ensures
        unmixed(mixed(state)) == state,
{
    let s = state ^ (state >> 30);
    assert(s ^ (s >> 30) ^ (s >> 60) == state) by (bit_vector)
        requires
            s == state ^ (state >> 30),
    ;
    let a = s.wrapping_mul(0xBF58_476D_1CE4_E5B9);
    let t = a ^ (a >> 27);
    assert(t ^ (t >> 27) ^ (t >> 54) == a) by (bit_vector)
        requires
            t == a ^ (a >> 27),
    ;
    let b = t.wrapping_mul(0x94D0_49BB_1331_11EB);
    let w = b ^ (b >> 31);
    assert(w ^ (w >> 31) ^ (w >> 62) == b) by (bit_vector)
        requires
            w == b ^ (b >> 31),
    ;
    lemma_unmultiplied(s, 0xBF58_476D_1CE4_E5B9, 0x96DE_1B17_3F11_9089, 8125545580553827436);
    lemma_unmultiplied(t, 0x94D0_49BB_1331_11EB, 0x3196_42B2_D24D_8EC3, 2077064247507883091);
}

/// A number below `n` differs from the number of the state by a multiple of `n`.
pub proof fn law_pick_is_below(state: u64, n: int)
    requires
        n > 0,
    ensures
        0 <= pick(state, n) < n,
        (mixed(state) - pick(state, n)) % n == 0,
{
    let x = mixed(state) as int;
    vstd::arithmetic::div_mod::lemma_mod_bound(x, n);
    vstd::arithmetic::div_mod::lemma_fundamental_div_mod(x, n);
    vstd::arithmetic::div_mod::lemma_mod_multiples_basic(x / n, n);
    assert(n * (x / n) == (x / n) * n) by (nonlinear_arith);
}

/// A part of one is made of the highest fifty-three bits of the number.
pub proof fn law_part_is_high_bits(state: u64)
    ensures
        0 <= part(state) < 0x20_0000_0000_0000,
        part(state) * 2048 <= mixed(state) < part(state) * 2048 + 2048,
{
}

} // verus!
