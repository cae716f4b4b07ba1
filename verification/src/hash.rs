//! Command hashing, bit-compatible with the hashes in `.ninja_log` entries.
//!
//! Command lines are hashed with rapidhash (v1, default seed and secrets). The
//! build log records those hashes, so sharing a `.ninja_log` with other tools
//! takes exactly the same values.

use vstd::prelude::*;
use vstd::string::*;
use core::hash::{BuildHasher, Hasher};

verus! {

/// The initial seed.
pub const RAPID_SEED: u64 = 0xbdd8_9aa9_8270_4029;

/// The constants that are mixed in.
pub const SECRET0: u64 = 0x2d35_8dcc_aa6c_78a5;
pub const SECRET1: u64 = 0x8bb8_4b93_962e_acc9;
pub const SECRET2: u64 = 0x4b33_a62e_d433_d4a3;

/// The full product of two words.
pub open spec fn product(a: u64, b: u64) -> u128 {
    (a as u128 * b as u128) as u128
}

/// The low word of the product of two words.
pub open spec fn product_low(a: u64, b: u64) -> u64 {
    #[verifier::truncate]
    (product(a, b) as u64)
}

/// The high word of the product of two words.
pub open spec fn product_high(a: u64, b: u64) -> u64 {
    #[verifier::truncate]
    ((product(a, b) >> 64u32) as u64)
}

/// The two halves of a product folded together.
pub open spec fn mixed(a: u64, b: u64) -> u64 {
    product_low(a, b) ^ product_high(a, b)
}

/// The little-endian 32-bit word at `i`.
pub open spec fn word32(p: Seq<u8>, i: int) -> u64 {
    (p[i] as u64) | ((p[i + 1] as u64) << 8u32) | ((p[i + 2] as u64) << 16u32) | ((p[i
        + 3] as u64) << 24u32)
}

/// The little-endian 64-bit word at `i`.
pub open spec fn word64(p: Seq<u8>, i: int) -> u64 {
    word32(p, i) | (word32(p, i + 4) << 32u32)
}

fn mum(a: u64, b: u64) -> (r: (u64, u64))
    ensures
        r.0 == product_low(a, b),
        r.1 == product_high(a, b),
{
    assert(a as u128 * b as u128 <= 0xffff_ffff_ffff_ffffu128 * 0xffff_ffff_ffff_ffffu128)
        by (nonlinear_arith)
        requires
            a <= 0xffff_ffff_ffff_ffffu64,
            b <= 0xffff_ffff_ffff_ffffu64,
    ;
    let r: u128 = a as u128 * b as u128;
    (
        #[verifier::truncate]
        (r as u64),
        #[verifier::truncate]
        ((r >> 64u32) as u64),
    )
}

fn mix(a: u64, b: u64) -> (r: u64)
    ensures
        r == mixed(a, b),
{
    let (x, y) = mum(a, b);
    x ^ y
}

fn read32(p: &[u8], i: usize) -> (r: u64)
    requires
        i + 4 <= p@.len(),
    ensures
        r == word32(p@, i as int),
{
    (p[i] as u64) | ((p[i + 1] as u64) << 8u32) | ((p[i + 2] as u64) << 16u32) | ((p[i
        + 3] as u64) << 24u32)
}

fn read64(p: &[u8], i: usize) -> (r: u64)
    requires
        i + 8 <= p@.len(),
    ensures
        r == word64(p@, i as int),
{
    let _n: usize = p.len();
    read32(p, i) | (read32(p, i + 4) << 32u32)
}

/// The first, middle and last byte of a key of up to three bytes.
pub open spec fn small_word(p: Seq<u8>) -> u64 {
    ((p[0] as u64) << 56u32) | ((p[p.len() as int / 2] as u64) << 32u32) | (p[p.len() - 1] as u64)
}

/// The three lanes of the hash after the 48 bytes at `p`.
pub open spec fn lanes(key: Seq<u8>, p: int, s: (u64, u64, u64)) -> (u64, u64, u64) {
    (
        mixed(word64(key, p) ^ SECRET0, word64(key, p + 8) ^ s.0),
        mixed(word64(key, p + 16) ^ SECRET1, word64(key, p + 24) ^ s.1),
        mixed(word64(key, p + 32) ^ SECRET2, word64(key, p + 40) ^ s.2),
    )
}

/// The three lanes after all whole blocks of 48 bytes from `p` on, with the
/// position behind them.
pub open spec fn blocks(key: Seq<u8>, p: int, s: (u64, u64, u64)) -> (int, (u64, u64, u64))
    decreases key.len() - p,
{
    if p + 48 <= key.len() {
        blocks(key, p + 48, lanes(key, p, s))
    } else {
        (p, s)
    }
}

/// The seed after the up to 48 bytes that are left at `p`, the last 16 of
/// which are taken elsewhere.
pub open spec fn tail_seed(key: Seq<u8>, p: int, seed: u64) -> u64 {
    let left = key.len() - p;
    if left > 16 {
        let s = mixed(word64(key, p) ^ SECRET2, word64(key, p + 8) ^ seed ^ SECRET1);
        if left > 32 {
            mixed(word64(key, p + 16) ^ SECRET2, word64(key, p + 24) ^ s)
        } else {
            s
        }
    } else {
        seed
    }
}

/// How far the second pair of words of a key of 4 to 16 bytes is moved in.
pub open spec fn pair_offset(len: int) -> int {
    if len < 8 {
        0
    } else {
        4
    }
}

/// The rapidhash of a key.
pub open spec fn rapidhash_of(key: Seq<u8>) -> u64 {
    let n = key.len() as u64;
    let seed = RAPID_SEED ^ (mixed(RAPID_SEED ^ SECRET0, SECRET1) ^ n);
    let (a, b, end_seed) = if key.len() == 0 {
        (0u64, 0u64, seed)
    } else if key.len() < 4 {
        (small_word(key), 0u64, seed)
    } else if key.len() <= 16 {
        let last = key.len() - 4;
        let d = pair_offset(key.len() as int);
        (
            (word32(key, 0) << 32u32) | word32(key, last),
            (word32(key, d) << 32u32) | word32(key, last - d),
            seed,
        )
    } else {
        let (p, s) = if key.len() > 48 {
            let (p, l) = blocks(key, 0, (seed, seed, seed));
            (p, l.0 ^ (l.1 ^ l.2))
        } else {
            (0, seed)
        };
        (word64(key, key.len() - 16), word64(key, key.len() - 8), tail_seed(key, p, s))
    };
    let x = a ^ SECRET1;
    let y = b ^ end_seed;
    mixed(product_low(x, y) ^ SECRET0 ^ n, product_high(x, y) ^ SECRET1)
}

/// Hash a command line the way the build log does.
pub fn hash_command(command: &str) -> (r: u64)
    ensures
        r == rapidhash_of(command.spec_bytes()),
{
    rapidhash(command.as_bytes())
}

/// rapidhash with the default seed and secrets.
pub fn rapidhash(key: &[u8]) -> (r: u64)
    ensures
        r == rapidhash_of(key@),
{
    let len: usize = key.len();
    let n: u64 = len as u64;
    let mut seed: u64 = RAPID_SEED;
    seed = seed ^ (mix(seed ^ SECRET0, SECRET1) ^ n);
    let a: u64;
    let b: u64;
    if len == 0 {
        a = 0;
        b = 0;
    } else if len < 4 {
        a = ((key[0] as u64) << 56u32) | ((key[len / 2] as u64) << 32u32) | (key[len - 1] as u64);
        b = 0;
    } else if len <= 16 {
        let last: usize = len - 4;
        let d: usize = if len < 8 {
            0
        } else {
            4
        };
        a = (read32(key, 0) << 32u32) | read32(key, last);
        b = (read32(key, d) << 32u32) | read32(key, last - d);
    } else {
        let mut p: usize = 0;
        if len > 48 {
            let mut l0: u64 = seed;
            let mut l1: u64 = seed;
            let mut l2: u64 = seed;
            while len - p >= 48
                invariant
                    len == key@.len(),
                    p <= len,
                    blocks(key@, p as int, (l0, l1, l2)) == blocks(key@, 0, (seed, seed, seed)),
                decreases len - p,
            {
                l0 = mix(read64(key, p) ^ SECRET0, read64(key, p + 8) ^ l0);
                l1 = mix(read64(key, p + 16) ^ SECRET1, read64(key, p + 24) ^ l1);
                l2 = mix(read64(key, p + 32) ^ SECRET2, read64(key, p + 40) ^ l2);
                p += 48;
            }
            seed = l0 ^ (l1 ^ l2);
        }
        let left: usize = len - p;
        if left > 16 {
            seed = mix(read64(key, p) ^ SECRET2, read64(key, p + 8) ^ seed ^ SECRET1);
            if left > 32 {
                seed = mix(read64(key, p + 16) ^ SECRET2, read64(key, p + 24) ^ seed);
            }
        }
        a = read64(key, len - 16);
        b = read64(key, len - 8);
    }
    let (x, y) = mum(a ^ SECRET1, b ^ seed);
    mix(x ^ SECRET0 ^ n, y ^ SECRET1)
}

/// A small, fast, non-cryptographic hasher for in-memory maps. Its values are
/// never stored.
#[derive(Clone, Copy)]
pub struct FxHasher {
    hash: u64,
}

/// The multiplier of [`FxHasher`].
pub const FX_SEED: u64 = 0x517c_c1b7_2722_0a95;

/// The multiplier of the final step of [`FxHasher`].
pub const FX_FINISH: u64 = 0xd6e8_feb8_6659_fd93;

/// What one more word makes of the hash.
pub open spec fn fx_add(hash: u64, word: u64) -> u64 {
    (((hash << 5u32) | (hash >> 59u32)) ^ word).wrapping_mul(FX_SEED)
}

/// The up to eight bytes from `i` on as a little-endian word.
pub open spec fn partial_word(p: Seq<u8>, i: int) -> u64
    decreases p.len() - i,
{
    if 0 <= i < p.len() {
        (p[i] as u64) | (partial_word(p, i + 1) << 8u32)
    } else {
        0
    }
}

/// What the bytes from `i` on make of the hash: whole words first, then what
/// is left as one more word.
pub open spec fn fx_write(hash: u64, p: Seq<u8>, i: int) -> u64
    decreases p.len() - i,
{
    if i + 8 <= p.len() {
        fx_write(fx_add(hash, word64(p, i)), p, i + 8)
    } else if i < p.len() {
        fx_add(hash, partial_word(p, i))
    } else {
        hash
    }
}

/// The hash as it is handed out: high bits folded into the low ones, which
/// pick the bucket.
pub open spec fn fx_finish(hash: u64) -> u64 {
    let a = hash ^ (hash >> 32u32);
    let b = a.wrapping_mul(FX_FINISH);
    b ^ (b >> 32u32)
}

impl FxHasher {
    /// The state of the hasher.
    pub closed spec fn state(&self) -> u64 {
        self.hash
    }

    /// A hasher that has seen nothing.
    pub fn new() -> (r: FxHasher)
        ensures
            r.state() == 0,
    {
        FxHasher { hash: 0 }
    }

    /// Take in one word.
    pub fn add_to_hash(&mut self, i: u64)
        ensures
            final(self).state() == fx_add(old(self).state(), i),
    {
        self.hash = (((self.hash << 5u32) | (self.hash >> 59u32)) ^ i).wrapping_mul(FX_SEED);
    }

    /// Take in bytes.
    pub fn add_bytes(&mut self, bytes: &[u8])
        ensures
            final(self).state() == fx_write(old(self).state(), bytes@, 0),
    {
        let n: usize = bytes.len();
        let mut i: usize = 0;
        while n - i >= 8
            invariant
                n == bytes@.len(),
                i <= n,
                fx_write(self.state(), bytes@, i as int) == fx_write(old(self).state(), bytes@, 0),
            decreases n - i,
        {
            self.add_to_hash(read64(bytes, i));
            i += 8;
        }
        if i < n {
            let mut w: u64 = 0;
            let mut j: usize = n;
            while j > i
                invariant
                    n == bytes@.len(),
                    i <= j <= n,
                    w == partial_word(bytes@, j as int),
                decreases j,
            {
                j -= 1;
                w = (bytes[j] as u64) | (w << 8u32);
            }
            self.add_to_hash(w);
        }
    }

    /// The hash of what was taken in.
    pub fn value(&self) -> (r: u64)
        ensures
            r == fx_finish(self.state()),
    {
        let a: u64 = self.hash ^ (self.hash >> 32u32);
        let b: u64 = a.wrapping_mul(FX_FINISH);
        b ^ (b >> 32u32)
    }
}

impl Default for FxHasher {
    fn default() -> (r: FxHasher)
        ensures
            r.state() == 0,
    {
        FxHasher::new()
    }
}

impl Hasher for FxHasher {
    fn write(&mut self, bytes: &[u8])
        ensures
            final(self).state() == fx_write(old(self).state(), bytes@, 0),
    {
        self.add_bytes(bytes);
    }

    fn write_u8(&mut self, i: u8)
        ensures
            final(self).state() == fx_add(old(self).state(), i as u64),
    {
        self.add_to_hash(i as u64);
    }

    fn write_usize(&mut self, i: usize)
        ensures
            final(self).state() == fx_add(old(self).state(), i as u64),
    {
        self.add_to_hash(i as u64);
    }

    fn finish(&self) -> (r: u64)
        ensures
            r == fx_finish(self.state()),
    {
        self.value()
    }
}

/// Makes [`FxHasher`]s.
#[derive(Clone, Copy)]
pub struct FxBuildHasher;

impl BuildHasher for FxBuildHasher {
    type Hasher = FxHasher;

    fn build_hasher(&self) -> (r: FxHasher)
        ensures
            r.state() == 0,
    {
        FxHasher::new()
    }
}

impl Default for FxBuildHasher {
    fn default() -> (r: FxBuildHasher)
        ensures
            r == FxBuildHasher,
    {
        FxBuildHasher
    }
}

/// A [`std::collections::HashMap`] using [`FxHasher`].
pub type FxHashMap<K, V> = std::collections::HashMap<K, V, FxBuildHasher>;

/// A [`std::collections::HashSet`] using [`FxHasher`].
pub type FxHashSet<T> = std::collections::HashSet<T, FxBuildHasher>;

/// How a hash is put together: the words that go into it, and what is done with
/// them.
pub enum Recipe {
    Word(u64),
    Xor(Box<Recipe>, Box<Recipe>),
    /// The low word of a product.
    Low(Box<Recipe>, Box<Recipe>),
    /// The high word of a product.
    High(Box<Recipe>, Box<Recipe>),
}

impl Recipe {
    /// What comes out.
    pub open spec fn result(self) -> u64
        decreases self,
    {
        match self {
            Recipe::Word(w) => w,
            Recipe::Xor(a, b) => a.result() ^ b.result(),
            Recipe::Low(a, b) => product_low(a.result(), b.result()),
            Recipe::High(a, b) => product_high(a.result(), b.result()),
        }
    }

    pub open spec fn xor(self, other: Recipe) -> Recipe {
        Recipe::Xor(Box::new(self), Box::new(other))
    }

    pub open spec fn low(self, other: Recipe) -> Recipe {
        Recipe::Low(Box::new(self), Box::new(other))
    }

    pub open spec fn high(self, other: Recipe) -> Recipe {
        Recipe::High(Box::new(self), Box::new(other))
    }

    pub open spec fn mixed(self, other: Recipe) -> Recipe {
        self.low(other).xor(self.high(other))
    }
}

/// The word at `i` as part of a recipe.
pub open spec fn word_at(key: Seq<u8>, i: int) -> Recipe {
    Recipe::Word(word64(key, i))
}

/// How the three lanes are put together after the 48 bytes at `p`.
pub open spec fn lane_recipes(key: Seq<u8>, p: int, s: (Recipe, Recipe, Recipe)) -> (
    Recipe,
    Recipe,
    Recipe,
) {
    (
        word_at(key, p).xor(Recipe::Word(SECRET0)).mixed(word_at(key, p + 8).xor(s.0)),
        word_at(key, p + 16).xor(Recipe::Word(SECRET1)).mixed(word_at(key, p + 24).xor(s.1)),
        word_at(key, p + 32).xor(Recipe::Word(SECRET2)).mixed(word_at(key, p + 40).xor(s.2)),
    )
}

/// How they are put together after all whole blocks of 48 bytes from `p` on,
/// with the position behind them.
pub open spec fn block_recipes(key: Seq<u8>, p: int, s: (Recipe, Recipe, Recipe)) -> (
    int,
    (Recipe, Recipe, Recipe),
)
    decreases key.len() - p,
{
    if p + 48 <= key.len() {
        block_recipes(key, p + 48, lane_recipes(key, p, s))
    } else {
        (p, s)
    }
}

/// How the seed is put together after what is left at `p`.
pub open spec fn tail_recipe(key: Seq<u8>, p: int, seed: Recipe) -> Recipe {
    let left = key.len() - p;
    let s = word_at(key, p).xor(Recipe::Word(SECRET2)).mixed(
        word_at(key, p + 8).xor(seed).xor(Recipe::Word(SECRET1)),
    );
    if left <= 16 {
        seed
    } else if left <= 32 {
        s
    } else {
        word_at(key, p + 16).xor(Recipe::Word(SECRET2)).mixed(word_at(key, p + 24).xor(s))
    }
}

/// How the rapidhash of a key is put together.
pub open spec fn recipe_of(key: Seq<u8>) -> Recipe {
    let n = Recipe::Word(key.len() as u64);
    let start = Recipe::Word(RAPID_SEED).xor(Recipe::Word(SECRET0)).mixed(Recipe::Word(SECRET1));
    let seed = Recipe::Word(RAPID_SEED).xor(start.xor(n));
    let l = block_recipes(key, 0, (seed, seed, seed));
    let (a, b, end) = if key.len() == 0 {
        (Recipe::Word(0), Recipe::Word(0), seed)
    } else if key.len() < 4 {
        (Recipe::Word(small_word(key)), Recipe::Word(0), seed)
    } else if key.len() <= 16 {
        let last = key.len() - 4;
        let d = pair_offset(key.len() as int);
        (
            Recipe::Word((word32(key, 0) << 32u32) | word32(key, last)),
            Recipe::Word((word32(key, d) << 32u32) | word32(key, last - d)),
            seed,
        )
    } else if key.len() <= 48 {
        (word_at(key, key.len() - 16), word_at(key, key.len() - 8), tail_recipe(key, 0, seed))
    } else {
        (
            word_at(key, key.len() - 16),
            word_at(key, key.len() - 8),
            tail_recipe(key, l.0, l.1.0.xor(l.1.1.xor(l.1.2))),
        )
    };
    let x = a.xor(Recipe::Word(SECRET1));
    let y = b.xor(end);
    x.low(y).xor(Recipe::Word(SECRET0)).xor(n).mixed(x.high(y).xor(Recipe::Word(SECRET1)))
}

/// Whether the bytes of two keys from `i` up to `j` agree.
pub open spec fn same_bytes(a: Seq<u8>, b: Seq<u8>, i: int, j: int) -> bool {
    forall|k: int| i <= k < j ==> #[trigger] a[k] == b[k]
}

proof fn lemma_word32(a: Seq<u8>, b: Seq<u8>, i: int)
    requires
        0 <= i,
        i + 4 <= a.len(),
        i + 4 <= b.len(),
    ensures
        word32(a, i) <= 0xffff_ffff,
        word32(a, i) == word32(b, i) ==> same_bytes(a, b, i, i + 4),
{
    let (a0, a1, a2, a3) = (a[i], a[i + 1], a[i + 2], a[i + 3]);
    let (b0, b1, b2, b3) = (b[i], b[i + 1], b[i + 2], b[i + 3]);
    let x = (a0 as u64) | ((a1 as u64) << 8u32) | ((a2 as u64) << 16u32) | ((a3 as u64) << 24u32);
    let y = (b0 as u64) | ((b1 as u64) << 8u32) | ((b2 as u64) << 16u32) | ((b3 as u64) << 24u32);
    assert(x <= 0xffff_ffffu64 && (x == y ==> a0 == b0 && a1 == b1 && a2 == b2 && a3 == b3))
        by (bit_vector)
        requires
            x == (a0 as u64) | ((a1 as u64) << 8u32) | ((a2 as u64) << 16u32) | ((a3 as u64)
                << 24u32),
            y == (b0 as u64) | ((b1 as u64) << 8u32) | ((b2 as u64) << 16u32) | ((b3 as u64)
                << 24u32),
    ;
}

proof fn lemma_halves(a: u64, b: u64, c: u64, d: u64)
    requires
        a <= 0xffff_ffff,
        b <= 0xffff_ffff,
        c <= 0xffff_ffff,
        d <= 0xffff_ffff,
        a | (b << 32u32) == c | (d << 32u32),
    ensures
        a == c,
        b == d,
{
    assert(a == c && b == d) by (bit_vector)
        requires
            a <= 0xffff_ffffu64,
            b <= 0xffff_ffffu64,
            c <= 0xffff_ffffu64,
            d <= 0xffff_ffffu64,
            a | (b << 32u32) == c | (d << 32u32),
    ;
}

proof fn lemma_word64(a: Seq<u8>, b: Seq<u8>, i: int)
    requires
        0 <= i,
        i + 8 <= a.len(),
        i + 8 <= b.len(),
        word64(a, i) == word64(b, i),
    ensures
        same_bytes(a, b, i, i + 8),
{
    lemma_word32(a, b, i);
    lemma_word32(b, a, i);
    lemma_word32(a, b, i + 4);
    lemma_word32(b, a, i + 4);
    lemma_halves(word32(a, i), word32(a, i + 4), word32(b, i), word32(b, i + 4));
}

proof fn lemma_pair_of_words(a: Seq<u8>, b: Seq<u8>, i: int, j: int)
    requires
        0 <= i,
        i + 4 <= a.len() == b.len(),
        0 <= j,
        j + 4 <= a.len(),
        (word32(a, i) << 32u32) | word32(a, j) == (word32(b, i) << 32u32) | word32(b, j),
    ensures
        same_bytes(a, b, i, i + 4),
        same_bytes(a, b, j, j + 4),
{
    lemma_word32(a, b, i);
    lemma_word32(b, a, i);
    lemma_word32(a, b, j);
    lemma_word32(b, a, j);
    let (p, q, r, s) = (word32(a, i), word32(a, j), word32(b, i), word32(b, j));
    assert(p == r && q == s) by (bit_vector)
        requires
            p <= 0xffff_ffffu64,
            q <= 0xffff_ffffu64,
            r <= 0xffff_ffffu64,
            s <= 0xffff_ffffu64,
            (p << 32u32) | q == (r << 32u32) | s,
    ;
}

proof fn lemma_small_word(a: Seq<u8>, b: Seq<u8>)
    requires
        0 < a.len() < 4,
        a.len() == b.len(),
        small_word(a) == small_word(b),
    ensures
        a == b,
{
    let n = a.len() as int;
    let (a0, a1, a2) = (a[0], a[n / 2], a[n - 1]);
    let (b0, b1, b2) = (b[0], b[n / 2], b[n - 1]);
    assert(a0 == b0 && a1 == b1 && a2 == b2) by (bit_vector)
        requires
            ((a0 as u64) << 56u32) | ((a1 as u64) << 32u32) | (a2 as u64) == ((b0 as u64) << 56u32)
                | ((b1 as u64) << 32u32) | (b2 as u64),
    ;
    assert forall|k: int| 0 <= k < n implies a[k] == b[k] by {
        assert(k == 0 || k == n / 2 || k == n - 1);
    }
    assert(a =~= b);
}

proof fn lemma_block_recipes(
    a: Seq<u8>,
    b: Seq<u8>,
    p: int,
    s: (Recipe, Recipe, Recipe),
    t: (Recipe, Recipe, Recipe),
)
    requires
        0 <= p <= a.len(),
        a.len() == b.len(),
    ensures
        block_recipes(a, p, s).0 == block_recipes(b, p, t).0,
        p <= block_recipes(a, p, s).0 <= a.len() < block_recipes(a, p, s).0 + 48,
        block_recipes(a, p, s).1 == block_recipes(b, p, t).1 ==> s == t && same_bytes(
            a,
            b,
            p,
            block_recipes(a, p, s).0,
        ),
    decreases a.len() - p,
{
    if p + 48 <= a.len() {
        let x = lane_recipes(a, p, s);
        let y = lane_recipes(b, p, t);
        lemma_block_recipes(a, b, p + 48, x, y);
        if block_recipes(a, p, s).1 == block_recipes(b, p, t).1 {
            assert(x == y);
            lemma_word64(a, b, p);
            lemma_word64(a, b, p + 8);
            lemma_word64(a, b, p + 16);
            lemma_word64(a, b, p + 24);
            lemma_word64(a, b, p + 32);
            lemma_word64(a, b, p + 40);
        }
    }
}

proof fn lemma_tail_recipe(a: Seq<u8>, b: Seq<u8>, p: int, s: Recipe, t: Recipe)
    requires
        0 <= p <= a.len(),
        a.len() == b.len(),
        a.len() - p <= 48,
        tail_recipe(a, p, s) == tail_recipe(b, p, t),
    ensures
        s == t,
        same_bytes(a, b, p, a.len() - 16),
{
    let left = a.len() - p;
    if left > 32 {
        assert(word_at(a, p + 16) == word_at(b, p + 16));
        assert(word_at(a, p + 24) == word_at(b, p + 24));
        lemma_word64(a, b, p + 16);
        lemma_word64(a, b, p + 24);
    }
    if left > 16 {
        assert(word_at(a, p) == word_at(b, p));
        assert(word_at(a, p + 8) == word_at(b, p + 8));
        lemma_word64(a, b, p);
        lemma_word64(a, b, p + 8);
    }
}

/// Every byte of a key goes into its hash: two keys that differ are never put
/// together alike. So only the products can let two keys have the same hash.
pub proof fn law_every_byte_is_hashed(a: Seq<u8>, b: Seq<u8>)
    requires
        a.len() <= u64::MAX,
        b.len() <= u64::MAX,
        a != b,
    ensures
        recipe_of(a).result() == rapidhash_of(a),
        recipe_of(b).result() == rapidhash_of(b),
        recipe_of(a) != recipe_of(b),
{
    lemma_recipe(a);
    lemma_recipe(b);
    if recipe_of(a) == recipe_of(b) {
        lemma_same_recipe(a, b);
    }
}

proof fn lemma_same_recipe(a: Seq<u8>, b: Seq<u8>)
    requires
        a.len() <= u64::MAX,
        b.len() <= u64::MAX,
        recipe_of(a) == recipe_of(b),
    ensures
        a == b,
{
    assert(a.len() as u64 == b.len() as u64);
    assert(a.len() == b.len());
    let n = Recipe::Word(a.len() as u64);
    let start = Recipe::Word(RAPID_SEED).xor(Recipe::Word(SECRET0)).mixed(Recipe::Word(SECRET1));
    let seed = Recipe::Word(RAPID_SEED).xor(start.xor(n));
    let len = a.len() as int;
    if len == 0 {
        assert(a =~= b);
    } else if len < 4 {
        lemma_small_word(a, b);
    } else if len <= 16 {
        let last = len - 4;
        let d = pair_offset(len);
        lemma_pair_of_words(a, b, 0, last);
        lemma_pair_of_words(a, b, d, last - d);
        assert(a =~= b);
    } else {
        assert(word_at(a, len - 16) == word_at(b, len - 16));
        assert(word_at(a, len - 8) == word_at(b, len - 8));
        lemma_word64(a, b, len - 16);
        lemma_word64(a, b, len - 8);
        if len <= 48 {
            lemma_tail_recipe(a, b, 0, seed, seed);
        } else {
            let s = (seed, seed, seed);
            let l = block_recipes(a, 0, s);
            let r = block_recipes(b, 0, s);
            lemma_block_recipes(a, b, 0, s, s);
            lemma_tail_recipe(
                a,
                b,
                l.0,
                l.1.0.xor(l.1.1.xor(l.1.2)),
                r.1.0.xor(r.1.1.xor(r.1.2)),
            );
            assert(l.1 == r.1);
        }
        assert(a =~= b);
    }
}

proof fn lemma_results()
    ensures
        forall|a: Recipe, b: Recipe| #[trigger] a.xor(b).result() == a.result() ^ b.result(),
        forall|a: Recipe, b: Recipe| #[trigger]
            a.low(b).result() == product_low(a.result(), b.result()),
        forall|a: Recipe, b: Recipe| #[trigger]
            a.high(b).result() == product_high(a.result(), b.result()),
        forall|a: Recipe, b: Recipe| #[trigger]
            a.mixed(b).result() == mixed(a.result(), b.result()),
        forall|w: u64| #[trigger] Recipe::Word(w).result() == w,
        forall|key: Seq<u8>, i: int| #[trigger] word_at(key, i).result() == word64(key, i),
{
    assert forall|a: Recipe, b: Recipe| #[trigger] a.mixed(b).result() == mixed(
        a.result(),
        b.result(),
    ) by {
        assert(a.low(b).result() == product_low(a.result(), b.result()));
        assert(a.high(b).result() == product_high(a.result(), b.result()));
        assert(a.low(b).xor(a.high(b)).result() == a.low(b).result() ^ a.high(b).result());
    }
}

proof fn lemma_block_results(key: Seq<u8>, p: int, s: (Recipe, Recipe, Recipe))
    ensures
        ({
            let l = block_recipes(key, p, s);
            blocks(key, p, (s.0.result(), s.1.result(), s.2.result())) == (
                l.0,
                (l.1.0.result(), l.1.1.result(), l.1.2.result()),
            )
        }),
    decreases key.len() - p,
{
    if p + 48 <= key.len() {
        lemma_results();
        lemma_block_results(key, p + 48, lane_recipes(key, p, s));
    }
}

proof fn lemma_recipe(key: Seq<u8>)
    ensures
        recipe_of(key).result() == rapidhash_of(key),
{
    let n = Recipe::Word(key.len() as u64);
    let start = Recipe::Word(RAPID_SEED).xor(Recipe::Word(SECRET0)).mixed(Recipe::Word(SECRET1));
    let seed = Recipe::Word(RAPID_SEED).xor(start.xor(n));
    lemma_results();
    lemma_block_results(key, 0, (seed, seed, seed));
}

proof fn lemma_product(a: u64, b: u64, p: u128)
    requires
        a as int * b as int == p as int,
    ensures
        product(a, b) == p,
{
}

/// The bytes 1, 2, 3 and so on.
pub open spec fn counting(n: nat) -> Seq<u8> {
    Seq::new(n, |i: int| (i + 1) as u8)
}

#[verifier::spinoff_prover]
proof fn lemma_hash_of_0()
    ensures
        rapidhash_of(counting(0)) == 0x5a6ef77074ebc84bu64,
{
    let key = counting(0);
    assert(
        (0xbdd89aa982704029u64 ^ 0x2d358dccaa6c78a5u64 == 0x90ed1765281c388cu64)
        && (0x84f28ff7a54e75ecu64 ^ 0x4f1910e5c08090f3u64 == 0xcbeb9f1265cee51fu64)
        && (0xcbeb9f1265cee51fu64 ^ 0x0u64 == 0xcbeb9f1265cee51fu64)
        && (0xbdd89aa982704029u64 ^ 0xcbeb9f1265cee51fu64 == 0x763305bbe7bea536u64)
        && (0x0u64 ^ 0x8bb84b93962eacc9u64 == 0x8bb84b93962eacc9u64)
        && (0x0u64 ^ 0x763305bbe7bea536u64 == 0x763305bbe7bea536u64)
        && (0x3526c94e5f63ff66u64 ^ 0x2d358dccaa6c78a5u64 == 0x18134482f50f87c3u64)
        && (0x18134482f50f87c3u64 ^ 0x0u64 == 0x18134482f50f87c3u64)
        && (0x4082cbae3d34ded4u64 ^ 0x8bb84b93962eacc9u64 == 0xcb3a803dab1a721du64)
        && (0x497230b0b8053717u64 ^ 0x131cc7c0cceeff5cu64 == 0x5a6ef77074ebc84bu64)
        && ((0x4f1910e5c08090f384f28ff7a54e75ecu128 as u64) == 0x84f28ff7a54e75ecu64)
        && (((0x4f1910e5c08090f384f28ff7a54e75ecu128 >> 64u32) as u64) == 0x4f1910e5c08090f3u64)
        && ((0x4082cbae3d34ded43526c94e5f63ff66u128 as u64) == 0x3526c94e5f63ff66u64)
        && (((0x4082cbae3d34ded43526c94e5f63ff66u128 >> 64u32) as u64) == 0x4082cbae3d34ded4u64)
        && ((0x131cc7c0cceeff5c497230b0b8053717u128 as u64) == 0x497230b0b8053717u64)
        && (((0x131cc7c0cceeff5c497230b0b8053717u128 >> 64u32) as u64) == 0x131cc7c0cceeff5cu64)
    ) by (bit_vector);
    assert(0x90ed1765281c388cint * 0x8bb84b93962eacc9int == 0x4f1910e5c08090f384f28ff7a54e75ecint) by (nonlinear_arith);
    lemma_product(0x90ed1765281c388cu64, 0x8bb84b93962eacc9u64, 0x4f1910e5c08090f384f28ff7a54e75ecu128);
    assert(0x8bb84b93962eacc9int * 0x763305bbe7bea536int == 0x4082cbae3d34ded43526c94e5f63ff66int) by (nonlinear_arith);
    lemma_product(0x8bb84b93962eacc9u64, 0x763305bbe7bea536u64, 0x4082cbae3d34ded43526c94e5f63ff66u128);
    assert(0x18134482f50f87c3int * 0xcb3a803dab1a721dint == 0x131cc7c0cceeff5c497230b0b8053717int) by (nonlinear_arith);
    lemma_product(0x18134482f50f87c3u64, 0xcb3a803dab1a721du64, 0x131cc7c0cceeff5c497230b0b8053717u128);
}

#[verifier::spinoff_prover]
proof fn lemma_hash_of_3()
    ensures
        rapidhash_of(counting(3)) == 0xade6d4c553eef128u64,
{
    let key = counting(3);
    assert(
        (0xbdd89aa982704029u64 ^ 0x2d358dccaa6c78a5u64 == 0x90ed1765281c388cu64)
        && (0x84f28ff7a54e75ecu64 ^ 0x4f1910e5c08090f3u64 == 0xcbeb9f1265cee51fu64)
        && (0xcbeb9f1265cee51fu64 ^ 0x3u64 == 0xcbeb9f1265cee51cu64)
        && (0xbdd89aa982704029u64 ^ 0xcbeb9f1265cee51cu64 == 0x763305bbe7bea535u64)
        && (0x100000200000003u64 ^ 0x8bb84b93962eacc9u64 == 0x8ab84b91962eaccau64)
        && (0x0u64 ^ 0x763305bbe7bea535u64 == 0x763305bbe7bea535u64)
        && (0x1b24390cb0f3f7d2u64 ^ 0x2d358dccaa6c78a5u64 == 0x3611b4c01a9f8f77u64)
        && (0x3611b4c01a9f8f77u64 ^ 0x3u64 == 0x3611b4c01a9f8f74u64)
        && (0x400c98a794e714b7u64 ^ 0x8bb84b93962eacc9u64 == 0xcbb4d33402c9b87eu64)
        && (0x86e0efa653b7fb18u64 ^ 0x2b063b6300590a30u64 == 0xade6d4c553eef128u64)
        && ((0x4f1910e5c08090f384f28ff7a54e75ecu128 as u64) == 0x84f28ff7a54e75ecu64)
        && (((0x4f1910e5c08090f384f28ff7a54e75ecu128 >> 64u32) as u64) == 0x4f1910e5c08090f3u64)
        && ((0x400c98a794e714b71b24390cb0f3f7d2u128 as u64) == 0x1b24390cb0f3f7d2u64)
        && (((0x400c98a794e714b71b24390cb0f3f7d2u128 >> 64u32) as u64) == 0x400c98a794e714b7u64)
        && ((0x2b063b6300590a3086e0efa653b7fb18u128 as u64) == 0x86e0efa653b7fb18u64)
        && (((0x2b063b6300590a3086e0efa653b7fb18u128 >> 64u32) as u64) == 0x2b063b6300590a30u64)
        && ((1u64 << 56u32) | (2u64 << 32u32) | 3u64 == 0x100000200000003u64)
    ) by (bit_vector);
    assert(0x90ed1765281c388cint * 0x8bb84b93962eacc9int == 0x4f1910e5c08090f384f28ff7a54e75ecint) by (nonlinear_arith);
    lemma_product(0x90ed1765281c388cu64, 0x8bb84b93962eacc9u64, 0x4f1910e5c08090f384f28ff7a54e75ecu128);
    assert(0x8ab84b91962eaccaint * 0x763305bbe7bea535int == 0x400c98a794e714b71b24390cb0f3f7d2int) by (nonlinear_arith);
    lemma_product(0x8ab84b91962eaccau64, 0x763305bbe7bea535u64, 0x400c98a794e714b71b24390cb0f3f7d2u128);
    assert(0x3611b4c01a9f8f74int * 0xcbb4d33402c9b87eint == 0x2b063b6300590a3086e0efa653b7fb18int) by (nonlinear_arith);
    lemma_product(0x3611b4c01a9f8f74u64, 0xcbb4d33402c9b87eu64, 0x2b063b6300590a3086e0efa653b7fb18u128);
    assert(key[0] == 1 && key[1] == 2 && key[2] == 3);
}

#[verifier::spinoff_prover]
proof fn lemma_hash_of_6()
    ensures
        rapidhash_of(counting(6)) == 0x49ee7ada5ab4e997u64,
{
    let key = counting(6);
    assert(
        (0xbdd89aa982704029u64 ^ 0x2d358dccaa6c78a5u64 == 0x90ed1765281c388cu64)
        && (0x84f28ff7a54e75ecu64 ^ 0x4f1910e5c08090f3u64 == 0xcbeb9f1265cee51fu64)
        && (0xcbeb9f1265cee51fu64 ^ 0x6u64 == 0xcbeb9f1265cee519u64)
        && (0xbdd89aa982704029u64 ^ 0xcbeb9f1265cee519u64 == 0x763305bbe7bea530u64)
        && (0x403020106050403u64 ^ 0x8bb84b93962eacc9u64 == 0x8fbb4992902ba8cau64)
        && (0x403020106050403u64 ^ 0x763305bbe7bea530u64 == 0x723007bae1bba133u64)
        && (0x8590ace00367aa3eu64 ^ 0x2d358dccaa6c78a5u64 == 0xa8a5212ca90bd29bu64)
        && (0xa8a5212ca90bd29bu64 ^ 0x6u64 == 0xa8a5212ca90bd29du64)
        && (0x401c5e381b81e3c1u64 ^ 0x8bb84b93962eacc9u64 == 0xcba415ab8daf4f08u64)
        && (0xcfc9738460b007e8u64 ^ 0x8627095e3a04ee7fu64 == 0x49ee7ada5ab4e997u64)
        && ((0x4f1910e5c08090f384f28ff7a54e75ecu128 as u64) == 0x84f28ff7a54e75ecu64)
        && (((0x4f1910e5c08090f384f28ff7a54e75ecu128 >> 64u32) as u64) == 0x4f1910e5c08090f3u64)
        && ((0x401c5e381b81e3c18590ace00367aa3eu128 as u64) == 0x8590ace00367aa3eu64)
        && (((0x401c5e381b81e3c18590ace00367aa3eu128 >> 64u32) as u64) == 0x401c5e381b81e3c1u64)
        && ((0x8627095e3a04ee7fcfc9738460b007e8u128 as u64) == 0xcfc9738460b007e8u64)
        && (((0x8627095e3a04ee7fcfc9738460b007e8u128 >> 64u32) as u64) == 0x8627095e3a04ee7fu64)
        && (1u64 | (2u64 << 8u32) | (3u64 << 16u32) | (4u64 << 24u32) == 0x4030201u64)
        && (3u64 | (4u64 << 8u32) | (5u64 << 16u32) | (6u64 << 24u32) == 0x6050403u64)
        && ((0x4030201u64 << 32u32) | 0x6050403u64 == 0x403020106050403u64)
    ) by (bit_vector);
    assert(0x90ed1765281c388cint * 0x8bb84b93962eacc9int == 0x4f1910e5c08090f384f28ff7a54e75ecint) by (nonlinear_arith);
    lemma_product(0x90ed1765281c388cu64, 0x8bb84b93962eacc9u64, 0x4f1910e5c08090f384f28ff7a54e75ecu128);
    assert(0x8fbb4992902ba8caint * 0x723007bae1bba133int == 0x401c5e381b81e3c18590ace00367aa3eint) by (nonlinear_arith);
    lemma_product(0x8fbb4992902ba8cau64, 0x723007bae1bba133u64, 0x401c5e381b81e3c18590ace00367aa3eu128);
    assert(0xa8a5212ca90bd29dint * 0xcba415ab8daf4f08int == 0x8627095e3a04ee7fcfc9738460b007e8int) by (nonlinear_arith);
    lemma_product(0xa8a5212ca90bd29du64, 0xcba415ab8daf4f08u64, 0x8627095e3a04ee7fcfc9738460b007e8u128);
    assert(word32(key, 0) == 0x4030201u64) by {
        assert(key[0] == 1 && key[1] == 2 && key[2] == 3 && key[3] == 4);
    }
    assert(word32(key, 2) == 0x6050403u64) by {
        assert(key[2] == 3 && key[3] == 4 && key[4] == 5 && key[5] == 6);
    }
}

#[verifier::spinoff_prover]
proof fn lemma_hash_of_12()
    ensures
        rapidhash_of(counting(12)) == 0x46240a1fa5d9048du64,
{
    let key = counting(12);
    assert(
        (0xbdd89aa982704029u64 ^ 0x2d358dccaa6c78a5u64 == 0x90ed1765281c388cu64)
        && (0x84f28ff7a54e75ecu64 ^ 0x4f1910e5c08090f3u64 == 0xcbeb9f1265cee51fu64)
        && (0xcbeb9f1265cee51fu64 ^ 0xcu64 == 0xcbeb9f1265cee513u64)
        && (0xbdd89aa982704029u64 ^ 0xcbeb9f1265cee513u64 == 0x763305bbe7bea53au64)
        && (0x40302010c0b0a09u64 ^ 0x8bb84b93962eacc9u64 == 0x8fbb49929a25a6c0u64)
        && (0x807060508070605u64 ^ 0x763305bbe7bea53au64 == 0x7e3403beefb9a33fu64)
        && (0xdfb0019ca9304940u64 ^ 0x2d358dccaa6c78a5u64 == 0xf2858c50035c31e5u64)
        && (0xf2858c50035c31e5u64 ^ 0xcu64 == 0xf2858c50035c31e9u64)
        && (0x46db625b7f1b3e04u64 ^ 0x8bb84b93962eacc9u64 == 0xcd6329c8e93592cdu64)
        && (0x84b6e888ab87d995u64 ^ 0xc292e2970e5edd18u64 == 0x46240a1fa5d9048du64)
        && ((0x4f1910e5c08090f384f28ff7a54e75ecu128 as u64) == 0x84f28ff7a54e75ecu64)
        && (((0x4f1910e5c08090f384f28ff7a54e75ecu128 >> 64u32) as u64) == 0x4f1910e5c08090f3u64)
        && ((0x46db625b7f1b3e04dfb0019ca9304940u128 as u64) == 0xdfb0019ca9304940u64)
        && (((0x46db625b7f1b3e04dfb0019ca9304940u128 >> 64u32) as u64) == 0x46db625b7f1b3e04u64)
        && ((0xc292e2970e5edd1884b6e888ab87d995u128 as u64) == 0x84b6e888ab87d995u64)
        && (((0xc292e2970e5edd1884b6e888ab87d995u128 >> 64u32) as u64) == 0xc292e2970e5edd18u64)
        && (1u64 | (2u64 << 8u32) | (3u64 << 16u32) | (4u64 << 24u32) == 0x4030201u64)
        && (5u64 | (6u64 << 8u32) | (7u64 << 16u32) | (8u64 << 24u32) == 0x8070605u64)
        && (9u64 | (10u64 << 8u32) | (11u64 << 16u32) | (12u64 << 24u32) == 0xc0b0a09u64)
        && ((0x4030201u64 << 32u32) | 0xc0b0a09u64 == 0x40302010c0b0a09u64)
        && ((0x8070605u64 << 32u32) | 0x8070605u64 == 0x807060508070605u64)
    ) by (bit_vector);
    assert(0x90ed1765281c388cint * 0x8bb84b93962eacc9int == 0x4f1910e5c08090f384f28ff7a54e75ecint) by (nonlinear_arith);
    lemma_product(0x90ed1765281c388cu64, 0x8bb84b93962eacc9u64, 0x4f1910e5c08090f384f28ff7a54e75ecu128);
    assert(0x8fbb49929a25a6c0int * 0x7e3403beefb9a33fint == 0x46db625b7f1b3e04dfb0019ca9304940int) by (nonlinear_arith);
    lemma_product(0x8fbb49929a25a6c0u64, 0x7e3403beefb9a33fu64, 0x46db625b7f1b3e04dfb0019ca9304940u128);
    assert(0xf2858c50035c31e9int * 0xcd6329c8e93592cdint == 0xc292e2970e5edd1884b6e888ab87d995int) by (nonlinear_arith);
    lemma_product(0xf2858c50035c31e9u64, 0xcd6329c8e93592cdu64, 0xc292e2970e5edd1884b6e888ab87d995u128);
    assert(word32(key, 0) == 0x4030201u64) by {
        assert(key[0] == 1 && key[1] == 2 && key[2] == 3 && key[3] == 4);
    }
    assert(word32(key, 4) == 0x8070605u64) by {
        assert(key[4] == 5 && key[5] == 6 && key[6] == 7 && key[7] == 8);
    }
    assert(word32(key, 8) == 0xc0b0a09u64) by {
        assert(key[8] == 9 && key[9] == 10 && key[10] == 11 && key[11] == 12);
    }
}

#[verifier::spinoff_prover]
proof fn lemma_hash_of_24()
    ensures
        rapidhash_of(counting(24)) == 0xf57186cab0ec5767u64,
{
    let key = counting(24);
    assert(
        (0xbdd89aa982704029u64 ^ 0x2d358dccaa6c78a5u64 == 0x90ed1765281c388cu64)
        && (0x84f28ff7a54e75ecu64 ^ 0x4f1910e5c08090f3u64 == 0xcbeb9f1265cee51fu64)
        && (0xcbeb9f1265cee51fu64 ^ 0x18u64 == 0xcbeb9f1265cee507u64)
        && (0xbdd89aa982704029u64 ^ 0xcbeb9f1265cee507u64 == 0x763305bbe7bea52eu64)
        && (0x807060504030201u64 ^ 0x4b33a62ed433d4a3u64 == 0x4334a02bd030d6a2u64)
        && (0x100f0e0d0c0b0a09u64 ^ 0x763305bbe7bea52eu64 == 0x663c0bb6ebb5af27u64)
        && (0x663c0bb6ebb5af27u64 ^ 0x8bb84b93962eacc9u64 == 0xed8440257d9b03eeu64)
        && (0x6a3bd7f52e01709cu64 ^ 0x3e5a704225f40e5eu64 == 0x5461a7b70bf57ec2u64)
        && (0x100f0e0d0c0b0a09u64 ^ 0x8bb84b93962eacc9u64 == 0x9bb7459e9a25a6c0u64)
        && (0x1817161514131211u64 ^ 0x5461a7b70bf57ec2u64 == 0x4c76b1a21fe66cd3u64)
        && (0xdb349d45ffe17040u64 ^ 0x2d358dccaa6c78a5u64 == 0xf6011089558d08e5u64)
        && (0xf6011089558d08e5u64 ^ 0x18u64 == 0xf6011089558d08fdu64)
        && (0x2e829b3181624c15u64 ^ 0x8bb84b93962eacc9u64 == 0xa53ad0a2174ce0dcu64)
        && (0x6bb6b2a8532d196cu64 ^ 0x9ec73462e3c14e0bu64 == 0xf57186cab0ec5767u64)
        && ((0x4f1910e5c08090f384f28ff7a54e75ecu128 as u64) == 0x84f28ff7a54e75ecu64)
        && (((0x4f1910e5c08090f384f28ff7a54e75ecu128 >> 64u32) as u64) == 0x4f1910e5c08090f3u64)
        && ((0x3e5a704225f40e5e6a3bd7f52e01709cu128 as u64) == 0x6a3bd7f52e01709cu64)
        && (((0x3e5a704225f40e5e6a3bd7f52e01709cu128 >> 64u32) as u64) == 0x3e5a704225f40e5eu64)
        && ((0x2e829b3181624c15db349d45ffe17040u128 as u64) == 0xdb349d45ffe17040u64)
        && (((0x2e829b3181624c15db349d45ffe17040u128 >> 64u32) as u64) == 0x2e829b3181624c15u64)
        && ((0x9ec73462e3c14e0b6bb6b2a8532d196cu128 as u64) == 0x6bb6b2a8532d196cu64)
        && (((0x9ec73462e3c14e0b6bb6b2a8532d196cu128 >> 64u32) as u64) == 0x9ec73462e3c14e0bu64)
        && (1u64 | (2u64 << 8u32) | (3u64 << 16u32) | (4u64 << 24u32) == 0x4030201u64)
        && (5u64 | (6u64 << 8u32) | (7u64 << 16u32) | (8u64 << 24u32) == 0x8070605u64)
        && (9u64 | (10u64 << 8u32) | (11u64 << 16u32) | (12u64 << 24u32) == 0xc0b0a09u64)
        && (13u64 | (14u64 << 8u32) | (15u64 << 16u32) | (16u64 << 24u32) == 0x100f0e0du64)
        && (17u64 | (18u64 << 8u32) | (19u64 << 16u32) | (20u64 << 24u32) == 0x14131211u64)
        && (21u64 | (22u64 << 8u32) | (23u64 << 16u32) | (24u64 << 24u32) == 0x18171615u64)
        && (0x4030201u64 | (0x8070605u64 << 32u32) == 0x807060504030201u64)
        && (0xc0b0a09u64 | (0x100f0e0du64 << 32u32) == 0x100f0e0d0c0b0a09u64)
        && (0x14131211u64 | (0x18171615u64 << 32u32) == 0x1817161514131211u64)
    ) by (bit_vector);
    assert(0x90ed1765281c388cint * 0x8bb84b93962eacc9int == 0x4f1910e5c08090f384f28ff7a54e75ecint) by (nonlinear_arith);
    lemma_product(0x90ed1765281c388cu64, 0x8bb84b93962eacc9u64, 0x4f1910e5c08090f384f28ff7a54e75ecu128);
    assert(0x4334a02bd030d6a2int * 0xed8440257d9b03eeint == 0x3e5a704225f40e5e6a3bd7f52e01709cint) by (nonlinear_arith);
    lemma_product(0x4334a02bd030d6a2u64, 0xed8440257d9b03eeu64, 0x3e5a704225f40e5e6a3bd7f52e01709cu128);
    assert(0x9bb7459e9a25a6c0int * 0x4c76b1a21fe66cd3int == 0x2e829b3181624c15db349d45ffe17040int) by (nonlinear_arith);
    lemma_product(0x9bb7459e9a25a6c0u64, 0x4c76b1a21fe66cd3u64, 0x2e829b3181624c15db349d45ffe17040u128);
    assert(0xf6011089558d08fdint * 0xa53ad0a2174ce0dcint == 0x9ec73462e3c14e0b6bb6b2a8532d196cint) by (nonlinear_arith);
    lemma_product(0xf6011089558d08fdu64, 0xa53ad0a2174ce0dcu64, 0x9ec73462e3c14e0b6bb6b2a8532d196cu128);
    assert(word32(key, 0) == 0x4030201u64) by {
        assert(key[0] == 1 && key[1] == 2 && key[2] == 3 && key[3] == 4);
    }
    assert(word32(key, 4) == 0x8070605u64) by {
        assert(key[4] == 5 && key[5] == 6 && key[6] == 7 && key[7] == 8);
    }
    assert(word32(key, 8) == 0xc0b0a09u64) by {
        assert(key[8] == 9 && key[9] == 10 && key[10] == 11 && key[11] == 12);
    }
    assert(word32(key, 12) == 0x100f0e0du64) by {
        assert(key[12] == 13 && key[13] == 14 && key[14] == 15 && key[15] == 16);
    }
    assert(word32(key, 16) == 0x14131211u64) by {
        assert(key[16] == 17 && key[17] == 18 && key[18] == 19 && key[19] == 20);
    }
    assert(word32(key, 20) == 0x18171615u64) by {
        assert(key[20] == 21 && key[21] == 22 && key[22] == 23 && key[23] == 24);
    }
    assert(word64(key, 0) == 0x807060504030201u64);
    assert(word64(key, 8) == 0x100f0e0d0c0b0a09u64);
    assert(word64(key, 16) == 0x1817161514131211u64);
}

#[verifier::spinoff_prover]
proof fn lemma_hash_of_40()
    ensures
        rapidhash_of(counting(40)) == 0xc7432b73c190be3bu64,
{
    let key = counting(40);
    assert(
        (0xbdd89aa982704029u64 ^ 0x2d358dccaa6c78a5u64 == 0x90ed1765281c388cu64)
        && (0x84f28ff7a54e75ecu64 ^ 0x4f1910e5c08090f3u64 == 0xcbeb9f1265cee51fu64)
        && (0xcbeb9f1265cee51fu64 ^ 0x28u64 == 0xcbeb9f1265cee537u64)
        && (0xbdd89aa982704029u64 ^ 0xcbeb9f1265cee537u64 == 0x763305bbe7bea51eu64)
        && (0x807060504030201u64 ^ 0x4b33a62ed433d4a3u64 == 0x4334a02bd030d6a2u64)
        && (0x100f0e0d0c0b0a09u64 ^ 0x763305bbe7bea51eu64 == 0x663c0bb6ebb5af17u64)
        && (0x663c0bb6ebb5af17u64 ^ 0x8bb84b93962eacc9u64 == 0xed8440257d9b03deu64)
        && (0x36f1d5382af4067cu64 ^ 0x3e5a704225f40e5au64 == 0x8aba57a0f000826u64)
        && (0x1817161514131211u64 ^ 0x4b33a62ed433d4a3u64 == 0x5324b03bc020c6b2u64)
        && (0x201f1e1d1c1b1a19u64 ^ 0x8aba57a0f000826u64 == 0x28b4bb67131b123fu64)
        && (0xd3773c08c0cf69ceu64 ^ 0xd386e3286bb4759u64 == 0xde4f523a46742e97u64)
        && (0x201f1e1d1c1b1a19u64 ^ 0x8bb84b93962eacc9u64 == 0xaba7558e8a35b6d0u64)
        && (0x2827262524232221u64 ^ 0xde4f523a46742e97u64 == 0xf668741f62570cb6u64)
        && (0xbd2a6d3d8771b7e0u64 ^ 0x2d358dccaa6c78a5u64 == 0x901fe0f12d1dcf45u64)
        && (0x901fe0f12d1dcf45u64 ^ 0x28u64 == 0x901fe0f12d1dcf6du64)
        && (0xa538d60e98b02385u64 ^ 0x8bb84b93962eacc9u64 == 0x2e809d9d0e9e8f4cu64)
        && (0xdd6d086406fd775cu64 ^ 0x1a2e2317c76dc967u64 == 0xc7432b73c190be3bu64)
        && ((0x4f1910e5c08090f384f28ff7a54e75ecu128 as u64) == 0x84f28ff7a54e75ecu64)
        && (((0x4f1910e5c08090f384f28ff7a54e75ecu128 >> 64u32) as u64) == 0x4f1910e5c08090f3u64)
        && ((0x3e5a704225f40e5a36f1d5382af4067cu128 as u64) == 0x36f1d5382af4067cu64)
        && (((0x3e5a704225f40e5a36f1d5382af4067cu128 >> 64u32) as u64) == 0x3e5a704225f40e5au64)
        && ((0xd386e3286bb4759d3773c08c0cf69ceu128 as u64) == 0xd3773c08c0cf69ceu64)
        && (((0xd386e3286bb4759d3773c08c0cf69ceu128 >> 64u32) as u64) == 0xd386e3286bb4759u64)
        && ((0xa538d60e98b02385bd2a6d3d8771b7e0u128 as u64) == 0xbd2a6d3d8771b7e0u64)
        && (((0xa538d60e98b02385bd2a6d3d8771b7e0u128 >> 64u32) as u64) == 0xa538d60e98b02385u64)
        && ((0x1a2e2317c76dc967dd6d086406fd775cu128 as u64) == 0xdd6d086406fd775cu64)
        && (((0x1a2e2317c76dc967dd6d086406fd775cu128 >> 64u32) as u64) == 0x1a2e2317c76dc967u64)
        && (1u64 | (2u64 << 8u32) | (3u64 << 16u32) | (4u64 << 24u32) == 0x4030201u64)
        && (5u64 | (6u64 << 8u32) | (7u64 << 16u32) | (8u64 << 24u32) == 0x8070605u64)
        && (9u64 | (10u64 << 8u32) | (11u64 << 16u32) | (12u64 << 24u32) == 0xc0b0a09u64)
        && (13u64 | (14u64 << 8u32) | (15u64 << 16u32) | (16u64 << 24u32) == 0x100f0e0du64)
        && (17u64 | (18u64 << 8u32) | (19u64 << 16u32) | (20u64 << 24u32) == 0x14131211u64)
        && (21u64 | (22u64 << 8u32) | (23u64 << 16u32) | (24u64 << 24u32) == 0x18171615u64)
        && (25u64 | (26u64 << 8u32) | (27u64 << 16u32) | (28u64 << 24u32) == 0x1c1b1a19u64)
        && (29u64 | (30u64 << 8u32) | (31u64 << 16u32) | (32u64 << 24u32) == 0x201f1e1du64)
        && (33u64 | (34u64 << 8u32) | (35u64 << 16u32) | (36u64 << 24u32) == 0x24232221u64)
        && (37u64 | (38u64 << 8u32) | (39u64 << 16u32) | (40u64 << 24u32) == 0x28272625u64)
        && (0x4030201u64 | (0x8070605u64 << 32u32) == 0x807060504030201u64)
        && (0xc0b0a09u64 | (0x100f0e0du64 << 32u32) == 0x100f0e0d0c0b0a09u64)
        && (0x14131211u64 | (0x18171615u64 << 32u32) == 0x1817161514131211u64)
        && (0x1c1b1a19u64 | (0x201f1e1du64 << 32u32) == 0x201f1e1d1c1b1a19u64)
        && (0x24232221u64 | (0x28272625u64 << 32u32) == 0x2827262524232221u64)
    ) by (bit_vector);
    assert(0x90ed1765281c388cint * 0x8bb84b93962eacc9int == 0x4f1910e5c08090f384f28ff7a54e75ecint) by (nonlinear_arith);
    lemma_product(0x90ed1765281c388cu64, 0x8bb84b93962eacc9u64, 0x4f1910e5c08090f384f28ff7a54e75ecu128);
    assert(0x4334a02bd030d6a2int * 0xed8440257d9b03deint == 0x3e5a704225f40e5a36f1d5382af4067cint) by (nonlinear_arith);
    lemma_product(0x4334a02bd030d6a2u64, 0xed8440257d9b03deu64, 0x3e5a704225f40e5a36f1d5382af4067cu128);
    assert(0x5324b03bc020c6b2int * 0x28b4bb67131b123fint == 0xd386e3286bb4759d3773c08c0cf69ceint) by (nonlinear_arith);
    lemma_product(0x5324b03bc020c6b2u64, 0x28b4bb67131b123fu64, 0xd386e3286bb4759d3773c08c0cf69ceu128);
    assert(0xaba7558e8a35b6d0int * 0xf668741f62570cb6int == 0xa538d60e98b02385bd2a6d3d8771b7e0int) by (nonlinear_arith);
    lemma_product(0xaba7558e8a35b6d0u64, 0xf668741f62570cb6u64, 0xa538d60e98b02385bd2a6d3d8771b7e0u128);
    assert(0x901fe0f12d1dcf6dint * 0x2e809d9d0e9e8f4cint == 0x1a2e2317c76dc967dd6d086406fd775cint) by (nonlinear_arith);
    lemma_product(0x901fe0f12d1dcf6du64, 0x2e809d9d0e9e8f4cu64, 0x1a2e2317c76dc967dd6d086406fd775cu128);
    assert(word32(key, 0) == 0x4030201u64) by {
        assert(key[0] == 1 && key[1] == 2 && key[2] == 3 && key[3] == 4);
    }
    assert(word32(key, 4) == 0x8070605u64) by {
        assert(key[4] == 5 && key[5] == 6 && key[6] == 7 && key[7] == 8);
    }
    assert(word32(key, 8) == 0xc0b0a09u64) by {
        assert(key[8] == 9 && key[9] == 10 && key[10] == 11 && key[11] == 12);
    }
    assert(word32(key, 12) == 0x100f0e0du64) by {
        assert(key[12] == 13 && key[13] == 14 && key[14] == 15 && key[15] == 16);
    }
    assert(word32(key, 16) == 0x14131211u64) by {
        assert(key[16] == 17 && key[17] == 18 && key[18] == 19 && key[19] == 20);
    }
    assert(word32(key, 20) == 0x18171615u64) by {
        assert(key[20] == 21 && key[21] == 22 && key[22] == 23 && key[23] == 24);
    }
    assert(word32(key, 24) == 0x1c1b1a19u64) by {
        assert(key[24] == 25 && key[25] == 26 && key[26] == 27 && key[27] == 28);
    }
    assert(word32(key, 28) == 0x201f1e1du64) by {
        assert(key[28] == 29 && key[29] == 30 && key[30] == 31 && key[31] == 32);
    }
    assert(word32(key, 32) == 0x24232221u64) by {
        assert(key[32] == 33 && key[33] == 34 && key[34] == 35 && key[35] == 36);
    }
    assert(word32(key, 36) == 0x28272625u64) by {
        assert(key[36] == 37 && key[37] == 38 && key[38] == 39 && key[39] == 40);
    }
    assert(word64(key, 0) == 0x807060504030201u64);
    assert(word64(key, 8) == 0x100f0e0d0c0b0a09u64);
    assert(word64(key, 16) == 0x1817161514131211u64);
    assert(word64(key, 24) == 0x201f1e1d1c1b1a19u64);
    assert(word64(key, 32) == 0x2827262524232221u64);
}

#[verifier::spinoff_prover]
proof fn lemma_hash_of_90()
    ensures
        rapidhash_of(counting(90)) == 0x828a31f8a40c8ccdu64,
{
    let key = counting(90);
    assert(
        (0xbdd89aa982704029u64 ^ 0x2d358dccaa6c78a5u64 == 0x90ed1765281c388cu64)
        && (0x84f28ff7a54e75ecu64 ^ 0x4f1910e5c08090f3u64 == 0xcbeb9f1265cee51fu64)
        && (0xcbeb9f1265cee51fu64 ^ 0x5au64 == 0xcbeb9f1265cee545u64)
        && (0xbdd89aa982704029u64 ^ 0xcbeb9f1265cee545u64 == 0x763305bbe7bea56cu64)
        && (0x807060504030201u64 ^ 0x2d358dccaa6c78a5u64 == 0x25328bc9ae6f7aa4u64)
        && (0x100f0e0d0c0b0a09u64 ^ 0x763305bbe7bea56cu64 == 0x663c0bb6ebb5af65u64)
        && (0x172eebce48c57eb4u64 ^ 0xedadd3edef6256au64 == 0x19f436f096335bdeu64)
        && (0x1817161514131211u64 ^ 0x8bb84b93962eacc9u64 == 0x93af5d86823dbed8u64)
        && (0x201f1e1d1c1b1a19u64 ^ 0x763305bbe7bea56cu64 == 0x562c1ba6fba5bf75u64)
        && (0xd39c1d9f60d360b8u64 ^ 0x31b65b83169f84dbu64 == 0xe22a461c764ce463u64)
        && (0x2827262524232221u64 ^ 0x4b33a62ed433d4a3u64 == 0x6314800bf010f682u64)
        && (0x302f2e2d2c2b2a29u64 ^ 0x763305bbe7bea56cu64 == 0x461c2b96cb958f45u64)
        && (0x2beda1d5bdef0f0au64 ^ 0x1b2282201343117fu64 == 0x30cf23f5aeac1e75u64)
        && (0xe22a461c764ce463u64 ^ 0x30cf23f5aeac1e75u64 == 0xd2e565e9d8e0fa16u64)
        && (0x19f436f096335bdeu64 ^ 0xd2e565e9d8e0fa16u64 == 0xcb1153194ed3a1c8u64)
        && (0x3837363534333231u64 ^ 0x4b33a62ed433d4a3u64 == 0x7304901be000e692u64)
        && (0x403f3e3d3c3b3a39u64 ^ 0xcb1153194ed3a1c8u64 == 0x8b2e6d2472e89bf1u64)
        && (0x8b2e6d2472e89bf1u64 ^ 0x8bb84b93962eacc9u64 == 0x9626b7e4c63738u64)
        && (0xc9700fa38ea7cdf0u64 ^ 0x437611bcc58663u64 == 0xc93379b232624b93u64)
        && (0x4847464544434241u64 ^ 0x4b33a62ed433d4a3u64 == 0x374e06b907096e2u64)
        && (0x504f4e4d4c4b4a49u64 ^ 0xc93379b232624b93u64 == 0x997c37ff7e2901dau64)
        && (0x80c1ec92d6a95e74u64 ^ 0x212877e8cc3fc16u64 == 0x82d36bec5a6aa262u64)
        && (0x5251504f4e4d4c4bu64 ^ 0x8bb84b93962eacc9u64 == 0xd9e91bdcd863e082u64)
        && (0x5a59585756555453u64 ^ 0x82d36bec5a6aa262u64 == 0xd88a33bb0c3ff631u64)
        && (0x98a56145bcd8e4e2u64 ^ 0x2d358dccaa6c78a5u64 == 0xb590ec8916b49c47u64)
        && (0xb590ec8916b49c47u64 ^ 0x5au64 == 0xb590ec8916b49c1du64)
        && (0xb852533403e2a3eeu64 ^ 0x8bb84b93962eacc9u64 == 0x33ea18a795cc0f27u64)
        && (0xa65bd6eb52c57b6bu64 ^ 0x24d1e713f6c9f7a6u64 == 0x828a31f8a40c8ccdu64)
        && ((0x4f1910e5c08090f384f28ff7a54e75ecu128 as u64) == 0x84f28ff7a54e75ecu64)
        && (((0x4f1910e5c08090f384f28ff7a54e75ecu128 >> 64u32) as u64) == 0x4f1910e5c08090f3u64)
        && ((0xedadd3edef6256a172eebce48c57eb4u128 as u64) == 0x172eebce48c57eb4u64)
        && (((0xedadd3edef6256a172eebce48c57eb4u128 >> 64u32) as u64) == 0xedadd3edef6256au64)
        && ((0x31b65b83169f84dbd39c1d9f60d360b8u128 as u64) == 0xd39c1d9f60d360b8u64)
        && (((0x31b65b83169f84dbd39c1d9f60d360b8u128 >> 64u32) as u64) == 0x31b65b83169f84dbu64)
        && ((0x1b2282201343117f2beda1d5bdef0f0au128 as u64) == 0x2beda1d5bdef0f0au64)
        && (((0x1b2282201343117f2beda1d5bdef0f0au128 >> 64u32) as u64) == 0x1b2282201343117fu64)
        && ((0x437611bcc58663c9700fa38ea7cdf0u128 as u64) == 0xc9700fa38ea7cdf0u64)
        && (((0x437611bcc58663c9700fa38ea7cdf0u128 >> 64u32) as u64) == 0x437611bcc58663u64)
        && ((0x212877e8cc3fc1680c1ec92d6a95e74u128 as u64) == 0x80c1ec92d6a95e74u64)
        && (((0x212877e8cc3fc1680c1ec92d6a95e74u128 >> 64u32) as u64) == 0x212877e8cc3fc16u64)
        && ((0xb852533403e2a3ee98a56145bcd8e4e2u128 as u64) == 0x98a56145bcd8e4e2u64)
        && (((0xb852533403e2a3ee98a56145bcd8e4e2u128 >> 64u32) as u64) == 0xb852533403e2a3eeu64)
        && ((0x24d1e713f6c9f7a6a65bd6eb52c57b6bu128 as u64) == 0xa65bd6eb52c57b6bu64)
        && (((0x24d1e713f6c9f7a6a65bd6eb52c57b6bu128 >> 64u32) as u64) == 0x24d1e713f6c9f7a6u64)
        && (1u64 | (2u64 << 8u32) | (3u64 << 16u32) | (4u64 << 24u32) == 0x4030201u64)
        && (5u64 | (6u64 << 8u32) | (7u64 << 16u32) | (8u64 << 24u32) == 0x8070605u64)
        && (9u64 | (10u64 << 8u32) | (11u64 << 16u32) | (12u64 << 24u32) == 0xc0b0a09u64)
        && (13u64 | (14u64 << 8u32) | (15u64 << 16u32) | (16u64 << 24u32) == 0x100f0e0du64)
        && (17u64 | (18u64 << 8u32) | (19u64 << 16u32) | (20u64 << 24u32) == 0x14131211u64)
        && (21u64 | (22u64 << 8u32) | (23u64 << 16u32) | (24u64 << 24u32) == 0x18171615u64)
        && (25u64 | (26u64 << 8u32) | (27u64 << 16u32) | (28u64 << 24u32) == 0x1c1b1a19u64)
        && (29u64 | (30u64 << 8u32) | (31u64 << 16u32) | (32u64 << 24u32) == 0x201f1e1du64)
        && (33u64 | (34u64 << 8u32) | (35u64 << 16u32) | (36u64 << 24u32) == 0x24232221u64)
        && (37u64 | (38u64 << 8u32) | (39u64 << 16u32) | (40u64 << 24u32) == 0x28272625u64)
        && (41u64 | (42u64 << 8u32) | (43u64 << 16u32) | (44u64 << 24u32) == 0x2c2b2a29u64)
        && (45u64 | (46u64 << 8u32) | (47u64 << 16u32) | (48u64 << 24u32) == 0x302f2e2du64)
        && (49u64 | (50u64 << 8u32) | (51u64 << 16u32) | (52u64 << 24u32) == 0x34333231u64)
        && (53u64 | (54u64 << 8u32) | (55u64 << 16u32) | (56u64 << 24u32) == 0x38373635u64)
        && (57u64 | (58u64 << 8u32) | (59u64 << 16u32) | (60u64 << 24u32) == 0x3c3b3a39u64)
        && (61u64 | (62u64 << 8u32) | (63u64 << 16u32) | (64u64 << 24u32) == 0x403f3e3du64)
        && (65u64 | (66u64 << 8u32) | (67u64 << 16u32) | (68u64 << 24u32) == 0x44434241u64)
        && (69u64 | (70u64 << 8u32) | (71u64 << 16u32) | (72u64 << 24u32) == 0x48474645u64)
        && (73u64 | (74u64 << 8u32) | (75u64 << 16u32) | (76u64 << 24u32) == 0x4c4b4a49u64)
        && (75u64 | (76u64 << 8u32) | (77u64 << 16u32) | (78u64 << 24u32) == 0x4e4d4c4bu64)
        && (77u64 | (78u64 << 8u32) | (79u64 << 16u32) | (80u64 << 24u32) == 0x504f4e4du64)
        && (79u64 | (80u64 << 8u32) | (81u64 << 16u32) | (82u64 << 24u32) == 0x5251504fu64)
        && (83u64 | (84u64 << 8u32) | (85u64 << 16u32) | (86u64 << 24u32) == 0x56555453u64)
        && (87u64 | (88u64 << 8u32) | (89u64 << 16u32) | (90u64 << 24u32) == 0x5a595857u64)
        && (0x4030201u64 | (0x8070605u64 << 32u32) == 0x807060504030201u64)
        && (0xc0b0a09u64 | (0x100f0e0du64 << 32u32) == 0x100f0e0d0c0b0a09u64)
        && (0x14131211u64 | (0x18171615u64 << 32u32) == 0x1817161514131211u64)
        && (0x1c1b1a19u64 | (0x201f1e1du64 << 32u32) == 0x201f1e1d1c1b1a19u64)
        && (0x24232221u64 | (0x28272625u64 << 32u32) == 0x2827262524232221u64)
        && (0x2c2b2a29u64 | (0x302f2e2du64 << 32u32) == 0x302f2e2d2c2b2a29u64)
        && (0x34333231u64 | (0x38373635u64 << 32u32) == 0x3837363534333231u64)
        && (0x3c3b3a39u64 | (0x403f3e3du64 << 32u32) == 0x403f3e3d3c3b3a39u64)
        && (0x44434241u64 | (0x48474645u64 << 32u32) == 0x4847464544434241u64)
        && (0x4c4b4a49u64 | (0x504f4e4du64 << 32u32) == 0x504f4e4d4c4b4a49u64)
        && (0x4e4d4c4bu64 | (0x5251504fu64 << 32u32) == 0x5251504f4e4d4c4bu64)
        && (0x56555453u64 | (0x5a595857u64 << 32u32) == 0x5a59585756555453u64)
    ) by (bit_vector);
    assert(0x90ed1765281c388cint * 0x8bb84b93962eacc9int == 0x4f1910e5c08090f384f28ff7a54e75ecint) by (nonlinear_arith);
    lemma_product(0x90ed1765281c388cu64, 0x8bb84b93962eacc9u64, 0x4f1910e5c08090f384f28ff7a54e75ecu128);
    assert(0x25328bc9ae6f7aa4int * 0x663c0bb6ebb5af65int == 0xedadd3edef6256a172eebce48c57eb4int) by (nonlinear_arith);
    lemma_product(0x25328bc9ae6f7aa4u64, 0x663c0bb6ebb5af65u64, 0xedadd3edef6256a172eebce48c57eb4u128);
    assert(0x93af5d86823dbed8int * 0x562c1ba6fba5bf75int == 0x31b65b83169f84dbd39c1d9f60d360b8int) by (nonlinear_arith);
    lemma_product(0x93af5d86823dbed8u64, 0x562c1ba6fba5bf75u64, 0x31b65b83169f84dbd39c1d9f60d360b8u128);
    assert(0x6314800bf010f682int * 0x461c2b96cb958f45int == 0x1b2282201343117f2beda1d5bdef0f0aint) by (nonlinear_arith);
    lemma_product(0x6314800bf010f682u64, 0x461c2b96cb958f45u64, 0x1b2282201343117f2beda1d5bdef0f0au128);
    assert(0x7304901be000e692int * 0x9626b7e4c63738int == 0x437611bcc58663c9700fa38ea7cdf0int) by (nonlinear_arith);
    lemma_product(0x7304901be000e692u64, 0x9626b7e4c63738u64, 0x437611bcc58663c9700fa38ea7cdf0u128);
    assert(0x374e06b907096e2int * 0x997c37ff7e2901daint == 0x212877e8cc3fc1680c1ec92d6a95e74int) by (nonlinear_arith);
    lemma_product(0x374e06b907096e2u64, 0x997c37ff7e2901dau64, 0x212877e8cc3fc1680c1ec92d6a95e74u128);
    assert(0xd9e91bdcd863e082int * 0xd88a33bb0c3ff631int == 0xb852533403e2a3ee98a56145bcd8e4e2int) by (nonlinear_arith);
    lemma_product(0xd9e91bdcd863e082u64, 0xd88a33bb0c3ff631u64, 0xb852533403e2a3ee98a56145bcd8e4e2u128);
    assert(0xb590ec8916b49c1dint * 0x33ea18a795cc0f27int == 0x24d1e713f6c9f7a6a65bd6eb52c57b6bint) by (nonlinear_arith);
    lemma_product(0xb590ec8916b49c1du64, 0x33ea18a795cc0f27u64, 0x24d1e713f6c9f7a6a65bd6eb52c57b6bu128);
    assert(word32(key, 0) == 0x4030201u64) by {
        assert(key[0] == 1 && key[1] == 2 && key[2] == 3 && key[3] == 4);
    }
    assert(word32(key, 4) == 0x8070605u64) by {
        assert(key[4] == 5 && key[5] == 6 && key[6] == 7 && key[7] == 8);
    }
    assert(word32(key, 8) == 0xc0b0a09u64) by {
        assert(key[8] == 9 && key[9] == 10 && key[10] == 11 && key[11] == 12);
    }
    assert(word32(key, 12) == 0x100f0e0du64) by {
        assert(key[12] == 13 && key[13] == 14 && key[14] == 15 && key[15] == 16);
    }
    assert(word32(key, 16) == 0x14131211u64) by {
        assert(key[16] == 17 && key[17] == 18 && key[18] == 19 && key[19] == 20);
    }
    assert(word32(key, 20) == 0x18171615u64) by {
        assert(key[20] == 21 && key[21] == 22 && key[22] == 23 && key[23] == 24);
    }
    assert(word32(key, 24) == 0x1c1b1a19u64) by {
        assert(key[24] == 25 && key[25] == 26 && key[26] == 27 && key[27] == 28);
    }
    assert(word32(key, 28) == 0x201f1e1du64) by {
        assert(key[28] == 29 && key[29] == 30 && key[30] == 31 && key[31] == 32);
    }
    assert(word32(key, 32) == 0x24232221u64) by {
        assert(key[32] == 33 && key[33] == 34 && key[34] == 35 && key[35] == 36);
    }
    assert(word32(key, 36) == 0x28272625u64) by {
        assert(key[36] == 37 && key[37] == 38 && key[38] == 39 && key[39] == 40);
    }
    assert(word32(key, 40) == 0x2c2b2a29u64) by {
        assert(key[40] == 41 && key[41] == 42 && key[42] == 43 && key[43] == 44);
    }
    assert(word32(key, 44) == 0x302f2e2du64) by {
        assert(key[44] == 45 && key[45] == 46 && key[46] == 47 && key[47] == 48);
    }
    assert(word32(key, 48) == 0x34333231u64) by {
        assert(key[48] == 49 && key[49] == 50 && key[50] == 51 && key[51] == 52);
    }
    assert(word32(key, 52) == 0x38373635u64) by {
        assert(key[52] == 53 && key[53] == 54 && key[54] == 55 && key[55] == 56);
    }
    assert(word32(key, 56) == 0x3c3b3a39u64) by {
        assert(key[56] == 57 && key[57] == 58 && key[58] == 59 && key[59] == 60);
    }
    assert(word32(key, 60) == 0x403f3e3du64) by {
        assert(key[60] == 61 && key[61] == 62 && key[62] == 63 && key[63] == 64);
    }
    assert(word32(key, 64) == 0x44434241u64) by {
        assert(key[64] == 65 && key[65] == 66 && key[66] == 67 && key[67] == 68);
    }
    assert(word32(key, 68) == 0x48474645u64) by {
        assert(key[68] == 69 && key[69] == 70 && key[70] == 71 && key[71] == 72);
    }
    assert(word32(key, 72) == 0x4c4b4a49u64) by {
        assert(key[72] == 73 && key[73] == 74 && key[74] == 75 && key[75] == 76);
    }
    assert(word32(key, 74) == 0x4e4d4c4bu64) by {
        assert(key[74] == 75 && key[75] == 76 && key[76] == 77 && key[77] == 78);
    }
    assert(word32(key, 76) == 0x504f4e4du64) by {
        assert(key[76] == 77 && key[77] == 78 && key[78] == 79 && key[79] == 80);
    }
    assert(word32(key, 78) == 0x5251504fu64) by {
        assert(key[78] == 79 && key[79] == 80 && key[80] == 81 && key[81] == 82);
    }
    assert(word32(key, 82) == 0x56555453u64) by {
        assert(key[82] == 83 && key[83] == 84 && key[84] == 85 && key[85] == 86);
    }
    assert(word32(key, 86) == 0x5a595857u64) by {
        assert(key[86] == 87 && key[87] == 88 && key[88] == 89 && key[89] == 90);
    }
    assert(word64(key, 0) == 0x807060504030201u64);
    assert(word64(key, 8) == 0x100f0e0d0c0b0a09u64);
    assert(word64(key, 16) == 0x1817161514131211u64);
    assert(word64(key, 24) == 0x201f1e1d1c1b1a19u64);
    assert(word64(key, 32) == 0x2827262524232221u64);
    assert(word64(key, 40) == 0x302f2e2d2c2b2a29u64);
    assert(word64(key, 48) == 0x3837363534333231u64);
    assert(word64(key, 56) == 0x403f3e3d3c3b3a39u64);
    assert(word64(key, 64) == 0x4847464544434241u64);
    assert(word64(key, 72) == 0x504f4e4d4c4b4a49u64);
    assert(word64(key, 74) == 0x5251504f4e4d4c4bu64);
    assert(word64(key, 82) == 0x5a59585756555453u64);
    reveal_with_fuel(blocks, 3);
}

/// The hashes of some keys, of all the lengths that are told apart, are those that
/// rapidhash gives.
pub proof fn law_hashes_of_some_keys()
    ensures
        rapidhash_of(counting(0)) == 0x5a6ef77074ebc84bu64,
        rapidhash_of(counting(3)) == 0xade6d4c553eef128u64,
        rapidhash_of(counting(6)) == 0x49ee7ada5ab4e997u64,
        rapidhash_of(counting(12)) == 0x46240a1fa5d9048du64,
        rapidhash_of(counting(24)) == 0xf57186cab0ec5767u64,
        rapidhash_of(counting(40)) == 0xc7432b73c190be3bu64,
        rapidhash_of(counting(90)) == 0x828a31f8a40c8ccdu64,
{
    lemma_hash_of_0();
    lemma_hash_of_3();
    lemma_hash_of_6();
    lemma_hash_of_12();
    lemma_hash_of_24();
    lemma_hash_of_40();
    lemma_hash_of_90();
}

proof fn lemma_seed_keeps_apart(a: u64, b: u64)
    requires
        a.wrapping_mul(FX_SEED) == b.wrapping_mul(FX_SEED),
    ensures
        a == b,
{
    let m: int = 0x1_0000_0000_0000_0000;
    let k: int = 0x517c_c1b7_2722_0a95;
    let x = (a as int) * k;
    let y = (b as int) * k;
    assert(x % m == y % m);
    let q = x / m - y / m;
    assert(x == m * (x / m) + x % m);
    assert(y == m * (y / m) + y % m);
    assert((a - b) * k == q * m);
    let n = q * 0x2040_003d_7809_70bd - (a - b) * 739706870995725965;
    assert(a - b == n * m);
    assert(n == 0);
}

proof fn lemma_finish_keeps_apart(a: u64, b: u64)
    requires
        fx_finish(a) == fx_finish(b),
    ensures
        a == b,
{
    let m: int = 0x1_0000_0000_0000_0000;
    let k: int = 0xd6e8_feb8_6659_fd93;
    let c = a ^ (a >> 32u32);
    let d = b ^ (b >> 32u32);
    let u = c.wrapping_mul(FX_FINISH);
    let v = d.wrapping_mul(FX_FINISH);
    assert(u == v) by (bit_vector)
        requires
            u ^ (u >> 32u32) == v ^ (v >> 32u32),
    ;
    let x = (c as int) * k;
    let y = (d as int) * k;
    assert(x % m == y % m);
    let q = x / m - y / m;
    assert(x == m * (x / m) + x % m);
    assert(y == m * (y / m) + y % m);
    assert((c - d) * k == q * m);
    let n = q * 0xcfee_444d_8b59_a89b - (c - d) * 12578109465933073204;
    assert(c - d == n * m);
    assert(n == 0);
    assert(a == b) by (bit_vector)
        requires
            a ^ (a >> 32u32) == b ^ (b >> 32u32),
    ;
}

proof fn lemma_add_keeps_apart(h: u64, v: u64, g: u64, w: u64)
    requires
        fx_add(h, v) == fx_add(g, w),
    ensures
        h == g ==> v == w,
        v == w ==> h == g,
{
    let x = (h << 5u32) | (h >> 59u32);
    let y = (g << 5u32) | (g >> 59u32);
    lemma_seed_keeps_apart(x ^ v, y ^ w);
    assert((h == g ==> v == w) && (v == w ==> h == g)) by (bit_vector)
        requires
            ((h << 5u32) | (h >> 59u32)) ^ v == ((g << 5u32) | (g >> 59u32)) ^ w,
    ;
}

proof fn lemma_partial_fits(p: Seq<u8>, i: int, m: u64)
    requires
        0 <= i <= p.len(),
        p.len() - i == m,
        m <= 7,
    ensures
        partial_word(p, i) >> (8 * m) as u64 == 0,
    decreases p.len() - i,
{
    if i < p.len() {
        let n = (m - 1) as u64;
        lemma_partial_fits(p, i + 1, n);
        let b = p[i];
        let r = partial_word(p, i + 1);
        let s = (8 * n) as u64;
        let t = (8 * m) as u64;
        let x = (b as u64) | (r << 8u32);
        assert(x >> t == 0) by (bit_vector)
            requires
                r >> s == 0,
                t == s + 8,
                s <= 48,
                x == (b as u64) | (r << 8u32),
        ;
    } else {
        assert(0u64 >> 0u64 == 0) by (bit_vector);
    }
}

proof fn lemma_partial_word(a: Seq<u8>, b: Seq<u8>, i: int)
    requires
        0 <= i <= a.len(),
        a.len() == b.len(),
        a.len() - i <= 7,
        partial_word(a, i) == partial_word(b, i),
    ensures
        same_bytes(a, b, i, a.len() as int),
    decreases a.len() - i,
{
    if i < a.len() {
        let n = (a.len() - i - 1) as u64;
        lemma_partial_fits(a, i + 1, n);
        lemma_partial_fits(b, i + 1, n);
        let (x, y) = (a[i], b[i]);
        let (r, t) = (partial_word(a, i + 1), partial_word(b, i + 1));
        let s = (8 * n) as u64;
        assert(x == y && r == t) by (bit_vector)
            requires
                r >> s == 0,
                t >> s == 0,
                s <= 48,
                (x as u64) | (r << 8u32) == (y as u64) | (t << 8u32),
        ;
        lemma_partial_word(a, b, i + 1);
    }
}

proof fn lemma_same_words(a: Seq<u8>, b: Seq<u8>, i: int)
    requires
        0 <= i <= a.len(),
        a.len() == b.len(),
        same_bytes(a, b, i, a.len() as int),
    ensures
        i + 8 <= a.len() ==> word64(a, i) == word64(b, i),
        partial_word(a, i) == partial_word(b, i),
    decreases a.len() - i,
{
    if i < a.len() {
        lemma_same_words(a, b, i + 1);
    }
}

proof fn lemma_start_shows(h: u64, g: u64, a: Seq<u8>, b: Seq<u8>, i: int)
    requires
        0 <= i <= a.len(),
        a.len() == b.len(),
        same_bytes(a, b, i, a.len() as int),
        fx_write(h, a, i) == fx_write(g, b, i),
    ensures
        h == g,
    decreases a.len() - i,
{
    lemma_same_words(a, b, i);
    if i + 8 <= a.len() {
        let w = word64(a, i);
        lemma_start_shows(fx_add(h, w), fx_add(g, w), a, b, i + 8);
        lemma_add_keeps_apart(h, w, g, w);
    } else if i < a.len() {
        let w = partial_word(a, i);
        lemma_add_keeps_apart(h, w, g, w);
    }
}

proof fn lemma_word_shows(h: u64, a: Seq<u8>, b: Seq<u8>, j: int, k: int)
    requires
        0 <= j <= k,
        8 * j <= a.len(),
        a.len() == b.len(),
        same_bytes(a, b, 8 * j, smaller_of(8 * k, a.len() as int)),
        same_bytes(a, b, 8 * k + 8, a.len() as int),
        fx_write(h, a, 8 * j) == fx_write(h, b, 8 * j),
    ensures
        same_bytes(a, b, 8 * j, a.len() as int),
    decreases k - j,
{
    let i = 8 * j;
    if i + 8 <= a.len() {
        let (v, w) = (word64(a, i), word64(b, i));
        if j < k {
            assert(word64(a, i) == word64(b, i));
            lemma_word_shows(fx_add(h, v), a, b, j + 1, k);
        } else {
            lemma_start_shows(fx_add(h, v), fx_add(h, w), a, b, i + 8);
            lemma_add_keeps_apart(h, v, h, w);
            lemma_word64(a, b, i);
        }
    } else if i < a.len() {
        lemma_add_keeps_apart(h, partial_word(a, i), h, partial_word(b, i));
        lemma_partial_word(a, b, i);
    }
}

spec fn smaller_of(a: int, b: int) -> int {
    if a < b {
        a
    } else {
        b
    }
}

/// Bytes that differ, but only within one word of eight, are told apart, whatever
/// was taken in before.
pub proof fn law_changes_of_a_word_show(h: u64, a: Seq<u8>, b: Seq<u8>, k: int)
    requires
        0 <= k,
        a.len() == b.len(),
        a != b,
        forall|i: int|
            0 <= i < a.len() && !(8 * k <= i < 8 * k + 8) ==> #[trigger] a[i] == b[i],
    ensures
        fx_finish(fx_write(h, a, 0)) != fx_finish(fx_write(h, b, 0)),
{
    if fx_finish(fx_write(h, a, 0)) == fx_finish(fx_write(h, b, 0)) {
        lemma_finish_keeps_apart(fx_write(h, a, 0), fx_write(h, b, 0));
        lemma_word_shows(h, a, b, 0, k);
        assert(a =~= b);
    }
}

/// Words that differ are told apart, whatever was taken in before.
pub proof fn law_words_are_told_apart(h: u64, v: u64, w: u64)
    ensures
        fx_finish(fx_add(h, v)) == fx_finish(fx_add(h, w)) <==> v == w,
{
    if fx_finish(fx_add(h, v)) == fx_finish(fx_add(h, w)) {
        lemma_finish_keeps_apart(fx_add(h, v), fx_add(h, w));
        lemma_add_keeps_apart(h, v, h, w);
    }
}

} // verus!
