//! HyperLogLog cardinality sketch (p = 14): 16384 registers, each holding the
//! largest rank seen among the values hashed to it. Values are never stored;
//! only their hash is observed.
use vstd::prelude::*;
use vstd::std_specs::bits::u64_leading_zeros;

verus! {

broadcast use vstd::std_specs::bits::axiom_u64_leading_zeros;

/// Number of registers, `2^14`.
pub open spec fn register_count() -> nat {
    16384
}

/// FNV-1a over `bytes`, before the finalizer.
pub open spec fn fnv1a_fold(bytes: Seq<u8>) -> u64
    decreases bytes.len(),
{
    if bytes.len() == 0 {
        0xcbf29ce484222325u64
    } else {
        (fnv1a_fold(bytes.drop_last()) ^ (bytes.last() as u64)).wrapping_mul(0x00000100000001b3u64)
    }
}

/// The MurmurHash3 64-bit finalizer.
pub open spec fn fmix64(h: u64) -> u64 {
    let h1 = h ^ (h >> 33u64);
    let h2 = h1.wrapping_mul(0xff51afd7ed558ccdu64);
    let h3 = h2 ^ (h2 >> 33u64);
    let h4 = h3.wrapping_mul(0xc4ceb9fe1a85ec53u64);
    h4 ^ (h4 >> 33u64)
}

/// FNV-1a 64-bit followed by the MurmurHash3 finalizer.
pub open spec fn fnv1a_64_spec(bytes: Seq<u8>) -> u64 {
    fmix64(fnv1a_fold(bytes))
}

/// The register a hash selects: its top 14 bits.
pub open spec fn register_of(hash: u64) -> int {
    (hash >> 50u32) as int
}

/// The rank a hash gives: one more than the leading zeros of its low 50 bits.
pub open spec fn rank_of(hash: u64) -> u8 {
    (u64_leading_zeros(hash << 14u32) + 1) as u8
}

/// The registers after observing a value with these bytes: the selected
/// register keeps the larger of its value and the rank.
pub open spec fn sketch_insert(registers: Seq<u8>, bytes: Seq<u8>) -> Seq<u8> {
    let h = fnv1a_64_spec(bytes);
    let i = register_of(h);
    let r = rank_of(h);
    if r > registers[i] {
        registers.update(i, r)
    } else {
        registers
    }
}

/// The registers after observing each of `values` in order.
pub open spec fn sketch_insert_all(registers: Seq<u8>, values: Seq<Seq<u8>>) -> Seq<u8>
    decreases values.len(),
{
    if values.len() == 0 {
        registers
    } else {
        sketch_insert(sketch_insert_all(registers, values.drop_last()), values.last())
    }
}

/// The registers of a fresh sketch.
pub open spec fn empty_registers() -> Seq<u8> {
    Seq::new(register_count(), |i: int| 0u8)
}

/// FNV-1a carried on from the state `h` over `bytes`.
pub open spec fn fnv1a_from(h: u64, bytes: Seq<u8>) -> u64
    decreases bytes.len(),
{
    if bytes.len() == 0 {
        h
    } else {
        (fnv1a_from(h, bytes.drop_last()) ^ (bytes.last() as u64)).wrapping_mul(0x00000100000001b3u64)
    }
}

/// The fold over `a` then `c` carries on from the fold over `a`.
proof fn lemma_fold_concat(a: Seq<u8>, c: Seq<u8>)
    ensures
        fnv1a_fold(a + c) == fnv1a_from(fnv1a_fold(a), c),
    decreases c.len(),
{
    if c.len() == 0 {
        assert(a + c =~= a);
    } else {
        lemma_fold_concat(a, c.drop_last());
        assert((a + c).drop_last() =~= a + c.drop_last());
        assert((a + c).last() == c.last());
    }
}

/// Multiplying by the FNV prime, modulo 2^64, loses nothing.
proof fn lemma_fnv_prime_injective(x: u64, y: u64)
    requires
        x.wrapping_mul(0x00000100000001b3u64) == y.wrapping_mul(0x00000100000001b3u64),
    ensures
        x == y,
{
    assert(x.wrapping_mul(0x00000100000001b3u64) == (x * 0x00000100000001b3u64) as u64) by (bit_vector);
    assert(y.wrapping_mul(0x00000100000001b3u64) == (y * 0x00000100000001b3u64) as u64) by (bit_vector);
    assert((((x * 0x00000100000001b3u64) as u64) * 0xce965057aff6957bu64) as u64 == x) by (bit_vector);
    assert((((y * 0x00000100000001b3u64) as u64) * 0xce965057aff6957bu64) as u64 == y) by (bit_vector);
}

/// Carrying on over the same bytes from two states keeps them apart.
proof fn lemma_from_injective(g: u64, h: u64, c: Seq<u8>)
    requires
        fnv1a_from(g, c) == fnv1a_from(h, c),
    ensures
        g == h,
    decreases c.len(),
{
    if c.len() > 0 {
        let g1 = fnv1a_from(g, c.drop_last());
        let h1 = fnv1a_from(h, c.drop_last());
        let z = c.last() as u64;
        lemma_fnv_prime_injective(g1 ^ z, h1 ^ z);
        assert(g1 ^ z == h1 ^ z ==> g1 == h1) by (bit_vector);
        lemma_from_injective(g, h, c.drop_last());
    }
}

/// The finalizer loses nothing: each of its steps can be undone.
proof fn lemma_fmix64_injective(x: u64, y: u64)
    requires
        fmix64(x) == fmix64(y),
    ensures
        x == y,
{
    let x1 = x ^ (x >> 33u64);
    let y1 = y ^ (y >> 33u64);
    let x2 = x1.wrapping_mul(0xff51afd7ed558ccdu64);
    let y2 = y1.wrapping_mul(0xff51afd7ed558ccdu64);
    let x3 = x2 ^ (x2 >> 33u64);
    let y3 = y2 ^ (y2 >> 33u64);
    let x4 = x3.wrapping_mul(0xc4ceb9fe1a85ec53u64);
    let y4 = y3.wrapping_mul(0xc4ceb9fe1a85ec53u64);
    assert(x4 ^ (x4 >> 33u64) == y4 ^ (y4 >> 33u64) ==> x4 == y4) by (bit_vector);
    assert(x3.wrapping_mul(0xc4ceb9fe1a85ec53u64) == (x3 * 0xc4ceb9fe1a85ec53u64) as u64) by (bit_vector);
    assert(y3.wrapping_mul(0xc4ceb9fe1a85ec53u64) == (y3 * 0xc4ceb9fe1a85ec53u64) as u64) by (bit_vector);
    assert((((x3 * 0xc4ceb9fe1a85ec53u64) as u64) * 0x9cb4b2f8129337dbu64) as u64 == x3) by (bit_vector);
    assert((((y3 * 0xc4ceb9fe1a85ec53u64) as u64) * 0x9cb4b2f8129337dbu64) as u64 == y3) by (bit_vector);
    assert(x2 ^ (x2 >> 33u64) == y2 ^ (y2 >> 33u64) ==> x2 == y2) by (bit_vector);
    assert(x1.wrapping_mul(0xff51afd7ed558ccdu64) == (x1 * 0xff51afd7ed558ccdu64) as u64) by (bit_vector);
    assert(y1.wrapping_mul(0xff51afd7ed558ccdu64) == (y1 * 0xff51afd7ed558ccdu64) as u64) by (bit_vector);
    assert((((x1 * 0xff51afd7ed558ccdu64) as u64) * 0x4f74430c22a54005u64) as u64 == x1) by (bit_vector);
    assert((((y1 * 0xff51afd7ed558ccdu64) as u64) * 0x4f74430c22a54005u64) as u64 == y1) by (bit_vector);
    assert(x ^ (x >> 33u64) == y ^ (y >> 33u64) ==> x == y) by (bit_vector);
}

/// The hash sees every byte of a value: two values that differ in one
/// byte, wherever it stands and whatever surrounds it, hash differently.
pub proof fn lemma_hash_sees_every_byte(a: Seq<u8>, x: u8, y: u8, c: Seq<u8>)
    requires
        x != y,
    ensures
        fnv1a_64_spec(a.push(x) + c) != fnv1a_64_spec(a.push(y) + c),
{
    if fnv1a_64_spec(a.push(x) + c) == fnv1a_64_spec(a.push(y) + c) {
        lemma_fmix64_injective(fnv1a_fold(a.push(x) + c), fnv1a_fold(a.push(y) + c));
        lemma_fold_concat(a.push(x), c);
        lemma_fold_concat(a.push(y), c);
        lemma_from_injective(fnv1a_fold(a.push(x)), fnv1a_fold(a.push(y)), c);
        assert(a.push(x).drop_last() =~= a);
        assert(a.push(y).drop_last() =~= a);
        let h = fnv1a_fold(a);
        lemma_fnv_prime_injective(h ^ (x as u64), h ^ (y as u64));
        assert(h ^ (x as u64) == h ^ (y as u64) ==> x == y) by (bit_vector);
    }
}

/// FNV-1a 64-bit + MurmurHash3 finalizer for better avalanche on short keys.
pub fn fnv1a_64(bytes: &[u8]) -> (h: u64)
    ensures
        h == fnv1a_64_spec(bytes@),
{
    let mut h: u64 = 0xcbf29ce484222325;
    let mut i: usize = 0;
    assert(bytes@.take(0) =~= Seq::<u8>::empty());
    while i < bytes.len()
        invariant
            i <= bytes@.len(),
            h == fnv1a_fold(bytes@.take(i as int)),
        decreases bytes@.len() - i,
    {
        assert(bytes@.take(i + 1).drop_last() =~= bytes@.take(i as int));
        h = h ^ (bytes[i] as u64);
        h = h.wrapping_mul(0x00000100000001b3);
        i = i + 1;
    }
    assert(bytes@.take(bytes@.len() as int) =~= bytes@);
    h = h ^ (h >> 33);
    h = h.wrapping_mul(0xff51afd7ed558ccd);
    h = h ^ (h >> 33);
    h = h.wrapping_mul(0xc4ceb9fe1a85ec53);
    h = h ^ (h >> 33);
    h
}

/// A HyperLogLog sketch.
#[derive(Debug)]
pub struct Hll {
    registers: Vec<u8>,
}

impl View for Hll {
    type V = Seq<u8>;

    closed spec fn view(&self) -> Seq<u8> {
        self.registers@
    }
}

impl Hll {
    /// A well-formed sketch has one register per index.
    pub open spec fn wf(&self) -> bool {
        self@.len() == register_count()
    }

    /// A sketch that has seen nothing.
    pub fn new() -> (h: Hll)
        ensures
            h@ == empty_registers(),
    {
        let mut registers: Vec<u8> = Vec::new();
        let mut i: usize = 0;
        while i < 16384
            invariant
                i <= 16384,
                registers@ == Seq::new(i as nat, |j: int| 0u8),
            decreases 16384 - i,
        {
            registers.push(0);
            i = i + 1;
            assert(registers@ =~= Seq::new(i as nat, |j: int| 0u8));
        }
        Hll { registers }
    }

    /// The registers, in index order.
    pub fn registers(&self) -> (r: &Vec<u8>)
        ensures
            r@ == self@,
    {
        &self.registers
    }

    /// Hash `value` and update the sketch. The string is not retained.
    pub fn insert(&mut self, value: &str)
        requires
            old(self).wf(),
        ensures
            final(self).wf(),
            final(self)@ == sketch_insert(old(self)@, vstd::utf8::encode_utf8(value@)),
    {
        self.insert_bytes(value.as_bytes());
    }

    /// Observe a value given by its bytes.
    pub fn insert_bytes(&mut self, bytes: &[u8])
        requires
            old(self).wf(),
        ensures
            final(self).wf(),
            final(self)@ == sketch_insert(old(self)@, bytes@),
    {
        let hash = fnv1a_64(bytes);
        let top: u64 = hash >> 50u32;
        assert(top < 16384) by (bit_vector)
            requires
                top == hash >> 50u32,
        ;
        let index = top as usize;
        let shifted: u64 = hash << 14u32;
        let lz = shifted.leading_zeros();
        assert(lz <= 64);
        let rho: u8 = (lz + 1) as u8;
        assert(rho == rank_of(hash));
        assert(index == register_of(hash));
        if rho > self.registers[index] {
            self.registers.set(index, rho);
        }
    }
}


impl Default for Hll {
    /// An empty sketch (see `Hll::new`).
    fn default() -> (h: Hll)
        ensures
            h@ == empty_registers(),
    {
        Hll::new()
    }
}

proof fn lemma_register_in_range(h: u64)
    ensures
        0 <= register_of(h) < register_count(),
{
    assert(h >> 50u32 < 16384) by (bit_vector);
}

/// Observing a value keeps the number of registers and never lowers one.
pub proof fn lemma_insert_monotone(registers: Seq<u8>, bytes: Seq<u8>)
    requires
        registers.len() == register_count(),
    ensures
        sketch_insert(registers, bytes).len() == register_count(),
        forall|i: int|
            0 <= i < register_count() ==> #[trigger] sketch_insert(registers, bytes)[i]
                >= registers[i],
{
    lemma_register_in_range(fnv1a_64_spec(bytes));
}

/// Observing a value raises the register its hash selects to at least the
/// hash's rank, which is at least 1, and leaves every other register as it
/// was: a value is never observed without a trace.
pub proof fn lemma_insert_marks_register(registers: Seq<u8>, bytes: Seq<u8>)
    requires
        registers.len() == register_count(),
    ensures
        ({
            let h = fnv1a_64_spec(bytes);
            let r = sketch_insert(registers, bytes);
            &&& 0 <= register_of(h) < register_count()
            &&& rank_of(h) >= 1
            &&& r[register_of(h)] == (if registers[register_of(h)] >= rank_of(h) {
                registers[register_of(h)]
            } else {
                rank_of(h)
            })
            &&& forall|i: int| 0 <= i < register_count() && i != register_of(h) ==> #[trigger] r[i] == registers[i]
        }),
{
    let h = fnv1a_64_spec(bytes);
    lemma_register_in_range(h);
    assert(u64_leading_zeros(h << 14u32) <= 64);
}

/// Observing the same value again changes nothing: duplicates never inflate
/// the sketch.
pub proof fn lemma_insert_idempotent(registers: Seq<u8>, bytes: Seq<u8>)
    requires
        registers.len() == register_count(),
    ensures
        sketch_insert(sketch_insert(registers, bytes), bytes) == sketch_insert(registers, bytes),
{
    lemma_register_in_range(fnv1a_64_spec(bytes));
}

/// The order in which two values are observed does not matter.
pub proof fn lemma_insert_commutes(registers: Seq<u8>, a: Seq<u8>, b: Seq<u8>)
    requires
        registers.len() == register_count(),
    ensures
        sketch_insert(sketch_insert(registers, a), b) == sketch_insert(
            sketch_insert(registers, b),
            a,
        ),
{
    lemma_register_in_range(fnv1a_64_spec(a));
    lemma_register_in_range(fnv1a_64_spec(b));
    assert(sketch_insert(sketch_insert(registers, a), b) =~= sketch_insert(
        sketch_insert(registers, b),
        a,
    ));
}

/// The highest rank among the values of `xs` that select register `i`
/// (zero when none does).
pub open spec fn best_rank(xs: Seq<Seq<u8>>, i: int) -> u8
    decreases xs.len(),
{
    if xs.len() == 0 {
        0
    } else {
        let b = best_rank(xs.drop_last(), i);
        let h = fnv1a_64_spec(xs.last());
        if register_of(h) == i && rank_of(h) > b {
            rank_of(h)
        } else {
            b
        }
    }
}

/// Each register of a sketch that observed `xs` holds the larger of what it
/// held and the best rank of the values selecting it.
pub proof fn lemma_insert_all_registers(registers: Seq<u8>, xs: Seq<Seq<u8>>)
    requires
        registers.len() == register_count(),
    ensures
        sketch_insert_all(registers, xs).len() == register_count(),
        forall|i: int|
            0 <= i < register_count() ==> #[trigger] sketch_insert_all(registers, xs)[i] == (if registers[i]
                >= best_rank(xs, i) {
                registers[i]
            } else {
                best_rank(xs, i)
            }),
    decreases xs.len(),
{
    if xs.len() > 0 {
        lemma_insert_all_registers(registers, xs.drop_last());
        lemma_register_in_range(fnv1a_64_spec(xs.last()));
    }
}

/// The best rank is reached by a value of `xs`, and no value selecting the
/// register ranks above it.
proof fn lemma_best_rank(xs: Seq<Seq<u8>>, i: int)
    ensures
        forall|k: int|
            0 <= k < xs.len() && register_of(fnv1a_64_spec(xs[k])) == i ==> rank_of(
                fnv1a_64_spec(#[trigger] xs[k]),
            ) <= best_rank(xs, i),
        best_rank(xs, i) == 0 || exists|k: int|
            0 <= k < xs.len() && register_of(fnv1a_64_spec(xs[k])) == i && rank_of(
                fnv1a_64_spec(#[trigger] xs[k]),
            ) == best_rank(xs, i),
    decreases xs.len(),
{
    if xs.len() > 0 {
        let x0 = xs.drop_last();
        lemma_best_rank(x0, i);
        assert forall|k: int|
            0 <= k < xs.len() && register_of(fnv1a_64_spec(xs[k])) == i implies rank_of(
            fnv1a_64_spec(#[trigger] xs[k]),
        ) <= best_rank(xs, i) by {
            if k < x0.len() {
                assert(xs[k] == x0[k]);
            }
        }
        if best_rank(xs, i) != 0 {
            if best_rank(xs, i) == best_rank(x0, i) {
                let k = choose|k: int|
                    0 <= k < x0.len() && register_of(fnv1a_64_spec(x0[k])) == i && rank_of(
                        fnv1a_64_spec(#[trigger] x0[k]),
                    ) == best_rank(x0, i);
                assert(xs[k] == x0[k]);
            } else {
                assert(xs[xs.len() - 1] == xs.last());
            }
        }
    }
}

/// Values holding the same set give the same best ranks.
proof fn lemma_best_rank_set(xs: Seq<Seq<u8>>, ys: Seq<Seq<u8>>, i: int)
    requires
        forall|x: Seq<u8>| xs.contains(x) <==> ys.contains(x),
    ensures
        best_rank(xs, i) <= best_rank(ys, i),
{
    lemma_best_rank(xs, i);
    lemma_best_rank(ys, i);
    if best_rank(xs, i) != 0 {
        let k = choose|k: int|
            0 <= k < xs.len() && register_of(fnv1a_64_spec(xs[k])) == i && rank_of(
                fnv1a_64_spec(#[trigger] xs[k]),
            ) == best_rank(xs, i);
        assert(xs.contains(xs[k]));
        assert(ys.contains(xs[k]));
        let m = choose|m: int| 0 <= m < ys.len() && ys[m] == xs[k];
        assert(rank_of(fnv1a_64_spec(ys[m])) <= best_rank(ys, i));
    }
}

/// A sketch depends only on the set of values it observed: neither their
/// order nor their repetition changes it.
pub proof fn lemma_sketch_set(registers: Seq<u8>, xs: Seq<Seq<u8>>, ys: Seq<Seq<u8>>)
    requires
        registers.len() == register_count(),
        forall|x: Seq<u8>| xs.contains(x) <==> ys.contains(x),
    ensures
        sketch_insert_all(registers, xs) == sketch_insert_all(registers, ys),
{
    lemma_insert_all_registers(registers, xs);
    lemma_insert_all_registers(registers, ys);
    assert forall|i: int| 0 <= i < register_count() implies best_rank(xs, i) == best_rank(ys, i) by {
        lemma_best_rank_set(xs, ys, i);
        lemma_best_rank_set(ys, xs, i);
    }
    assert(sketch_insert_all(registers, xs) =~= sketch_insert_all(registers, ys));
}

/// The bytes of each string, as `Hll::insert` hashes them.
pub open spec fn utf8_all(vs: Seq<Seq<char>>) -> Seq<Seq<u8>> {
    vs.map_values(|v: Seq<char>| vstd::utf8::encode_utf8(v))
}

proof fn lemma_utf8_all_same_set(xs: Seq<Seq<char>>, ys: Seq<Seq<char>>)
    requires
        forall|x: Seq<char>| xs.contains(x) <==> ys.contains(x),
    ensures
        forall|b: Seq<u8>| utf8_all(xs).contains(b) ==> utf8_all(ys).contains(b),
{
    assert forall|b: Seq<u8>| utf8_all(xs).contains(b) implies utf8_all(ys).contains(b) by {
        let k = choose|k: int| 0 <= k < utf8_all(xs).len() && utf8_all(xs)[k] == b;
        assert(xs.contains(xs[k]));
        let m = choose|m: int| 0 <= m < ys.len() && ys[m] == xs[k];
        assert(utf8_all(ys)[m] == b);
    }
}

/// Sketches filled by `Hll::insert`, one string at a time from a fresh
/// sketch: each call takes the sketch one `sketch_insert` further, and two
/// runs over strings with the same set of values (in any order, repeated
/// any number of times) end in the same sketch, which stays the same under
/// the same further inserts.
pub proof fn lemma_inserted_strings_set(
    xs: Seq<Seq<char>>,
    ys: Seq<Seq<char>>,
    next: Seq<char>,
    more: Seq<Seq<char>>,
)
    requires
        forall|x: Seq<char>| xs.contains(x) <==> ys.contains(x),
    ensures
        sketch_insert_all(empty_registers(), utf8_all(xs.push(next))) == sketch_insert(
            sketch_insert_all(empty_registers(), utf8_all(xs)),
            vstd::utf8::encode_utf8(next),
        ),
        sketch_insert_all(empty_registers(), utf8_all(xs)) == sketch_insert_all(
            empty_registers(),
            utf8_all(ys),
        ),
        sketch_insert_all(empty_registers(), utf8_all(xs + more)) == sketch_insert_all(
            empty_registers(),
            utf8_all(ys + more),
        ),
{
    assert(utf8_all(xs.push(next)).drop_last() =~= utf8_all(xs));
    lemma_utf8_all_same_set(xs, ys);
    lemma_utf8_all_same_set(ys, xs);
    lemma_sketch_set(empty_registers(), utf8_all(xs), utf8_all(ys));
    let a = xs + more;
    let b = ys + more;
    assert forall|x: Seq<char>| a.contains(x) <==> b.contains(x) by {
        if a.contains(x) {
            let k = choose|k: int| 0 <= k < a.len() && a[k] == x;
            if k < xs.len() {
                assert(xs.contains(xs[k]));
                let m = choose|m: int| 0 <= m < ys.len() && ys[m] == x;
                assert(b[m] == x);
            } else {
                assert(b[ys.len() + (k - xs.len())] == x);
            }
        }
        if b.contains(x) {
            let k = choose|k: int| 0 <= k < b.len() && b[k] == x;
            if k < ys.len() {
                assert(ys.contains(ys[k]));
                let m = choose|m: int| 0 <= m < xs.len() && xs[m] == x;
                assert(a[m] == x);
            } else {
                assert(a[xs.len() + (k - ys.len())] == x);
            }
        }
    }
    lemma_utf8_all_same_set(a, b);
    lemma_utf8_all_same_set(b, a);
    lemma_sketch_set(empty_registers(), utf8_all(a), utf8_all(b));
}

} // verus!
