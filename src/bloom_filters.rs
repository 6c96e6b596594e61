use crate::filter_laws::bits_after;
use std::collections::hash_map::DefaultHasher;
use std::hash::Hasher;
use vstd::prelude::*;
use vstd::std_specs::hash::DefaultHasherAdditionalSpecFns;
use vstd::utf8::encode_utf8;

verus! {

/// The `n` low bytes of `v`, least significant first.
pub open spec fn le_bytes(v: u64, n: nat) -> Seq<u8> {
    Seq::new(n, |i: int| ((v >> (8 * i) as u64) & 0xff) as u8)
}

/// Writes the `n` low bytes of `v`, least significant first.
fn le_bytes_vec(v: u64, n: usize) -> (r: Vec<u8>)
    requires
        n <= 8,
    ensures
        r@ == le_bytes(v, n as nat),
{
    let mut r: Vec<u8> = Vec::new();
    let mut i: usize = 0;
    while i < n
        invariant
            i <= n <= 8,
            r@ == le_bytes(v, i as nat),
        decreases n - i,
    {
        r.push(((v >> (8 * i) as u64) & 0xff) as u8);
        i = i + 1;
        assert(r@ =~= le_bytes(v, i as nat));
    }
    r
}

/// A value that a filter can take: it is hashed through a fixed byte encoding.
pub trait FilterItem {
    /// The bytes that stand for the value when it is hashed.
    spec fn key(&self) -> Seq<u8>;

    /// Writes out the bytes of `key`.
    fn key_bytes(&self) -> (r: Vec<u8>)
        ensures
            r@ == self.key(),
    ;
}

impl FilterItem for i32 {
    open spec fn key(&self) -> Seq<u8> {
        le_bytes(*self as u32 as u64, 4)
    }

    fn key_bytes(&self) -> (r: Vec<u8>) {
        le_bytes_vec(*self as u32 as u64, 4)
    }
}

impl FilterItem for u32 {
    open spec fn key(&self) -> Seq<u8> {
        le_bytes(*self as u64, 4)
    }

    fn key_bytes(&self) -> (r: Vec<u8>) {
        le_bytes_vec(*self as u64, 4)
    }
}

impl FilterItem for i64 {
    open spec fn key(&self) -> Seq<u8> {
        le_bytes(*self as u64, 8)
    }

    fn key_bytes(&self) -> (r: Vec<u8>) {
        le_bytes_vec(*self as u64, 8)
    }
}

impl FilterItem for u64 {
    open spec fn key(&self) -> Seq<u8> {
        le_bytes(*self, 8)
    }

    fn key_bytes(&self) -> (r: Vec<u8>) {
        le_bytes_vec(*self, 8)
    }
}

impl<'a> FilterItem for &'a str {
    open spec fn key(&self) -> Seq<u8> {
        encode_utf8(self@)
    }

    fn key_bytes(&self) -> (r: Vec<u8>) {
        let bytes = (*self).as_bytes();
        let mut r: Vec<u8> = Vec::new();
        let mut i: usize = 0;
        while i < bytes.len()
            invariant
                i <= bytes@.len(),
                r@ == bytes@.take(i as int),
            decreases bytes@.len() - i,
        {
            r.push(bytes[i]);
            i = i + 1;
            assert(r@ =~= bytes@.take(i as int));
        }
        assert(bytes@.take(i as int) =~= bytes@);
        r
    }
}

/// The digest of the unkeyed default hasher after it has been fed `key`.
pub open spec fn key_hash(key: Seq<u8>) -> u64 {
    DefaultHasher::spec_finish(seq![key])
}

/// Hashes `key` with the unkeyed default hasher.
fn hash_key(key: &Vec<u8>) -> (r: u64)
    ensures
        r == key_hash(key@),
{
    let mut h = DefaultHasher::new();
    h.write(key.as_slice());
    h.finish()
}

/// The cell that the single-hash filters of `m` cells use for `key`.
pub open spec fn single_index(key: Seq<u8>, m: nat) -> int
    recommends
        m > 0,
{
    (key_hash(key) as int) % (m as int)
}

/// The cell of `item` among `m` cells, for the single-hash filters.
fn index_of<Item: FilterItem>(item: &Item, m: usize) -> (r: usize)
    requires
        m > 0,
    ensures
        r == single_index(item.key(), m as nat),
        r < m,
{
    let key = item.key_bytes();
    (hash_key(&key) % (m as u64)) as usize
}

/// What every filter offers: a set of cells that are switched on, never off.
///
/// `bits` is the set of cells that are on; `indices(item)` the cells that
/// `item` maps to. Inserting switches on the cells of the item; an item is
/// reported present when all of its cells are on.
pub trait BloomFilter<Item: FilterItem>: Sized {
    /// The filter's storage agrees with its configuration.
    spec fn wf(&self) -> bool;

    /// The cells that are on.
    spec fn bits(&self) -> Set<int>;

    /// The cells that `item` maps to. They depend on the configuration alone.
    spec fn indices(&self, item: Item) -> Set<int>;

    /// Switches on every cell of `item`; nothing is ever switched off.
    fn insert(&mut self, item: Item)
        requires
            old(self).wf(),
        ensures
            final(self).wf(),
            final(self).bits() == old(self).bits().union(old(self).indices(item)),
            forall|y: Item| #[trigger] final(self).indices(y) == old(self).indices(y),
    ;

    /// Whether every cell of `item` is on. `false` means that `item` was
    /// never inserted; `true` means only that it may have been.
    fn contains(&self, item: &Item) -> (r: bool)
        requires
            self.wf(),
        ensures
            r == self.indices(*item).subset_of(self.bits()),
    ;
}

/// Inserts every item of `items` into `f`, in order.
pub fn insert_all<Item: FilterItem + Copy, F: BloomFilter<Item>>(f: &mut F, items: &Vec<Item>)
    requires
        old(f).wf(),
    ensures
        final(f).wf(),
        final(f).bits() == bits_after(*old(f), old(f).bits(), items@),
        forall|y: Item| #[trigger] final(f).indices(y) == old(f).indices(y),
{
    let mut i: usize = 0;
    while i < items.len()
        invariant
            i <= items@.len(),
            f.wf(),
            f.bits() == bits_after(*old(f), old(f).bits(), items@.take(i as int)),
            forall|y: Item| #[trigger] f.indices(y) == old(f).indices(y),
        decreases items@.len() - i,
    {
        let item = items[i];
        f.insert(item);
        assert(items@.take(i + 1).drop_last() == items@.take(i as int));
        i = i + 1;
    }
    assert(items@.take(i as int) == items@);
}

/// A filter of `CAPACITY` cells, one flag per cell, one hash.
pub struct BasicBloomFilter<const CAPACITY: usize> {
    vec: [bool; CAPACITY],
}

impl<const CAPACITY: usize> BasicBloomFilter<CAPACITY> {
    /// The flags, one per cell.
    pub closed spec fn cells(&self) -> Seq<bool> {
        self.vec@
    }

    /// The cells that are on.
    pub open spec fn on_cells(&self) -> Set<int> {
        Set::new(|i: int| 0 <= i < self.cells().len() && self.cells()[i])
    }

    /// There is at least one cell, and one flag per cell.
    pub open spec fn well_formed(&self) -> bool {
        CAPACITY > 0 && self.cells().len() == CAPACITY
    }

    /// Every such filter holds exactly `CAPACITY` flags.
    pub proof fn lemma_cells_len(&self)
        ensures
            self.cells().len() == CAPACITY,
    {
    }
}

impl<const CAPACITY: usize> Default for BasicBloomFilter<CAPACITY> {
    /// An empty filter; usable when `CAPACITY` is positive.
    fn default() -> (r: Self)
        ensures
            r.cells() == Seq::new(CAPACITY as nat, |i: int| false),
            r.on_cells() == Set::<int>::empty(),
            CAPACITY > 0 ==> r.well_formed(),
    {
        let r = BasicBloomFilter { vec: [false; CAPACITY] };
        assert(r.cells() =~= Seq::new(CAPACITY as nat, |i: int| false));
        assert(r.on_cells() =~= Set::<int>::empty());
        r
    }
}

impl<Item: FilterItem, const CAPACITY: usize> BloomFilter<Item> for BasicBloomFilter<CAPACITY> {
    open spec fn wf(&self) -> bool {
        self.well_formed()
    }

    open spec fn bits(&self) -> Set<int> {
        self.on_cells()
    }

    open spec fn indices(&self, item: Item) -> Set<int> {
        set![single_index(item.key(), CAPACITY as nat)]
    }

    fn insert(&mut self, item: Item)
        ensures
            final(self).cells() == old(self).cells().update(
                single_index(item.key(), CAPACITY as nat),
                true,
            ),
    {
        let idx = index_of(&item, CAPACITY);
        self.vec[idx] = true;
        assert(BloomFilter::<Item>::bits(self) =~= BloomFilter::<Item>::bits(old(self)).union(
            BloomFilter::<Item>::indices(old(self), item),
        ));
    }

    fn contains(&self, item: &Item) -> (r: bool)
        ensures
            r == self.cells()[single_index(item.key(), CAPACITY as nat)],
    {
        let idx = index_of(item, CAPACITY);
        let r = self.vec[idx];
        assert(BloomFilter::<Item>::indices(self, *item).contains(idx as int));
        assert(r == BloomFilter::<Item>::indices(self, *item).subset_of(
            BloomFilter::<Item>::bits(self),
        ));
        r
    }
}

/// Whether bit `i` of `w` is set.
pub open spec fn word_bit(w: u128, i: int) -> bool {
    (w >> (i as u128)) & 1 == 1
}

pub(crate) proof fn lemma_word_or_bit(w: u128, k: u128, i: u128)
    requires
        k < 128,
        i < 128,
    ensures
        ((w | (1u128 << k)) >> i) & 1 == 1 <==> ((w >> i) & 1 == 1 || i == k),
        ((w & (1u128 << k)) > 0) <==> ((w >> k) & 1 == 1),
{
    assert(((w | (1u128 << k)) >> i) & 1 == 1 <==> ((w >> i) & 1 == 1 || i == k)) by (bit_vector)
        requires
            k < 128,
            i < 128,
    ;
    assert(((w & (1u128 << k)) > 0) <==> ((w >> k) & 1 == 1)) by (bit_vector)
        requires
            k < 128,
    ;
}

/// The one-bit mask of the cell that `item` maps to in a 128-bit word.
fn mask_128<Item: FilterItem>(item: &Item) -> (r: u128)
    ensures
        r == 1u128 << (single_index(item.key(), 128) as u128),
        0 <= single_index(item.key(), 128) < 128,
{
    let idx = index_of(item, 128) as u128;
    1u128 << idx
}

/// A filter of 128 cells held in one 128-bit word, one hash.
pub struct SingleBinaryBloomFilter {
    fingerprint: u128,
}

impl SingleBinaryBloomFilter {
    /// The word whose bits are the cells.
    pub closed spec fn word(&self) -> u128 {
        self.fingerprint
    }

    /// The cells that are on: the set bits of the word.
    pub open spec fn on_cells(&self) -> Set<int> {
        Set::new(|i: int| 0 <= i < 128 && word_bit(self.word(), i))
    }
}

impl Default for SingleBinaryBloomFilter {
    /// An empty filter.
    fn default() -> (r: Self)
        ensures
            r.word() == 0,
            r.on_cells() == Set::<int>::empty(),
    {
        let r = SingleBinaryBloomFilter { fingerprint: 0 };
        assert forall|i: int| 0 <= i < 128 implies !word_bit(0, i) by {
            let k = i as u128;
            assert((0u128 >> k) & 1 == 0) by (bit_vector);
        }
        assert(r.on_cells() =~= Set::<int>::empty());
        r
    }
}

impl<Item: FilterItem> BloomFilter<Item> for SingleBinaryBloomFilter {
    open spec fn wf(&self) -> bool {
        true
    }

    open spec fn bits(&self) -> Set<int> {
        self.on_cells()
    }

    open spec fn indices(&self, item: Item) -> Set<int> {
        set![single_index(item.key(), 128)]
    }

    fn insert(&mut self, item: Item)
        ensures
            final(self).word() == old(self).word() | (1u128 << (single_index(
                item.key(),
                128,
            ) as u128)),
    {
        let mask = mask_128(&item);
        let ghost k = single_index(item.key(), 128);
        let old_word = self.fingerprint;
        self.fingerprint = self.fingerprint | mask;
        assert forall|i: int| #[trigger]
            self.on_cells().contains(i) == old(self).on_cells().insert(k).contains(i) by {
            if 0 <= i < 128 {
                lemma_word_or_bit(old_word, k as u128, i as u128);
            }
        }
        assert(self.on_cells() =~= old(self).on_cells().insert(k));
        assert(BloomFilter::<Item>::indices(old(self), item) =~= set![k]);
    }

    fn contains(&self, item: &Item) -> (r: bool)
        ensures
            r == word_bit(self.word(), single_index(item.key(), 128)),
    {
        let mask = mask_128(item);
        let r = (self.fingerprint & mask) > 0;
        let ghost k = single_index(item.key(), 128);
        proof {
            lemma_word_or_bit(self.fingerprint, k as u128, 0);
        }
        assert(BloomFilter::<Item>::indices(self, *item).contains(k));
        assert(r == BloomFilter::<Item>::indices(self, *item).subset_of(
            BloomFilter::<Item>::bits(self),
        ));
        r
    }
}

/// The digest of the default hasher fed the eight bytes of `seed`, then `key`.
pub open spec fn seeded_hash(seed: u64, key: Seq<u8>) -> u64 {
    DefaultHasher::spec_finish(seq![le_bytes(seed, 8), key])
}

/// The cell among `m` that the hash function salted with `seed` gives `key`.
pub open spec fn seeded_index(seed: u64, key: Seq<u8>, m: nat) -> int
    recommends
        m > 0,
{
    (seeded_hash(seed, key) as int) % (m as int)
}

/// The cells that the first `n` salts of `seeds` give `key`, among `m` cells.
pub open spec fn seeded_indices(seeds: Seq<u64>, n: int, key: Seq<u8>, m: nat) -> Set<int> {
    Set::new(|i: int| exists|j: int| 0 <= j < n && i == #[trigger] seeded_index(seeds[j], key, m))
}

/// Whether bit `i` of the byte-packed `bytes` is set: bit `i % 8` of byte `i / 8`.
pub open spec fn byte_bit(bytes: Seq<u8>, i: int) -> bool {
    (bytes[i / 8] >> ((i % 8) as u8)) & 1 == 1
}

/// The number of bytes that hold `m` bits.
pub open spec fn bytes_for(m: nat) -> nat {
    if m % 8 == 0 {
        m / 8
    } else {
        m / 8 + 1
    }
}

/// No salt occurs twice.
pub open spec fn distinct_seeds(seeds: Seq<u64>) -> bool {
    forall|a: int, b: int| 0 <= a < b < seeds.len() ==> seeds[a] != seeds[b]
}

proof fn lemma_byte_or_bit(b: u8, s: u8, t: u8)
    requires
        s < 8,
        t < 8,
    ensures
        ((b | (1u8 << s)) >> t) & 1 == 1 <==> ((b >> t) & 1 == 1 || s == t),
{
    assert(((b | (1u8 << s)) >> t) & 1 == 1 <==> ((b >> t) & 1 == 1 || s == t)) by (bit_vector)
        requires
            s < 8,
            t < 8,
    ;
}

proof fn lemma_byte_keeps_set_bit(b: u8, s: u8)
    requires
        s < 8,
        (b >> s) & 1 == 1,
    ensures
        b | (1u8 << s) == b,
{
    assert(b | (1u8 << s) == b) by (bit_vector)
        requires
            s < 8,
            (b >> s) & 1 == 1,
    ;
}

proof fn lemma_byte_and_bit(b: u8, s: u8)
    requires
        s < 8,
    ensures
        (b & (1u8 << s) == 0) <==> !((b >> s) & 1 == 1),
{
    assert((b & (1u8 << s) == 0) <==> !((b >> s) & 1 == 1)) by (bit_vector)
        requires
            s < 8,
    ;
}

proof fn lemma_byte_or(a: u8, b: u8, t: u8)
    ensures
        ((a | b) >> t) & 1 == 1 <==> ((a >> t) & 1 == 1 || (b >> t) & 1 == 1),
{
    assert(((a | b) >> t) & 1 == 1 <==> ((a >> t) & 1 == 1 || (b >> t) & 1 == 1)) by (bit_vector);
}

proof fn lemma_zero_byte(t: u8)
    ensures
        !((0u8 >> t) & 1 == 1),
{
    assert(!((0u8 >> t) & 1 == 1)) by (bit_vector);
}

/// The cell among `m` that the hash function salted with `seed` gives `key`.
fn seeded_index_of(seed: u64, key: &Vec<u8>, m: usize) -> (r: usize)
    requires
        m > 0,
    ensures
        r == seeded_index(seed, key@, m as nat),
        r < m,
{
    let salt = le_bytes_vec(seed, 8);
    let mut h = DefaultHasher::new();
    h.write(salt.as_slice());
    h.write(key.as_slice());
    let hash = h.finish();
    assert(seq![salt@, key@] =~= seq![].push(salt@).push(key@));
    (hash % (m as u64)) as usize
}

/// Why a filter could not be built.
#[derive(Debug, Clone, Copy, PartialEq, Eq, Structural)]
pub enum FilterConfigError {
    /// A filter needs at least one cell.
    ZeroFilterSize,
    /// A filter needs at least one hash function.
    ZeroHashCount,
    /// Two hash functions were given the same salt.
    RepeatedSeed,
    /// Two filters to be merged differ in their cells or hash functions.
    DifferentConfig,
}

/// A filter of a chosen number of cells, packed eight to a byte, with one
/// hash function per salt.
pub struct MultiBinaryBloomFilter {
    filter_size: usize,
    bytes: Vec<u8>,
    seeds: Vec<u64>,
}

impl MultiBinaryBloomFilter {
    /// The number of cells.
    pub closed spec fn size(&self) -> nat {
        self.filter_size as nat
    }

    /// The salts, one per hash function.
    pub closed spec fn seeds(&self) -> Seq<u64> {
        self.seeds@
    }

    /// The bytes that hold the cells.
    pub closed spec fn storage(&self) -> Seq<u8> {
        self.bytes@
    }

    /// The cells that are on.
    pub open spec fn on_cells(&self) -> Set<int> {
        Set::new(|i: int| 0 <= i < self.size() && byte_bit(self.storage(), i))
    }

    /// At least one cell and one hash function, distinct salts, exactly the
    /// bytes that the cells need, and no bit set past the last cell.
    pub open spec fn well_formed(&self) -> bool {
        &&& self.size() > 0
        &&& self.storage().len() == bytes_for(self.size())
        &&& self.seeds().len() > 0
        &&& distinct_seeds(self.seeds())
        &&& forall|i: int|
            self.size() <= i < 8 * self.storage().len() ==> !#[trigger] byte_bit(self.storage(), i)
    }

    /// A filter of `filter_size` cells with one hash function per salt of `seeds`.
    pub fn with_seeds(filter_size: usize, seeds: Vec<u64>) -> (r: Result<Self, FilterConfigError>)
        ensures
            filter_size == 0 ==> r == Err::<Self, _>(FilterConfigError::ZeroFilterSize),
            filter_size > 0 && seeds@.len() == 0 ==> r == Err::<Self, _>(
                FilterConfigError::ZeroHashCount,
            ),
            filter_size > 0 && seeds@.len() > 0 && !distinct_seeds(seeds@) ==> r == Err::<Self, _>(
                FilterConfigError::RepeatedSeed,
            ),
            filter_size > 0 && seeds@.len() > 0 && distinct_seeds(seeds@) ==> r is Ok,
            r matches Ok(f) ==> {
                &&& f.well_formed()
                &&& f.size() == filter_size
                &&& f.seeds() == seeds@
                &&& f.storage() == Seq::new(bytes_for(filter_size as nat), |i: int| 0u8)
            },
    {
        if filter_size == 0 {
            return Err(FilterConfigError::ZeroFilterSize);
        }
        if seeds.len() == 0 {
            return Err(FilterConfigError::ZeroHashCount);
        }
        let mut a: usize = 0;
        while a < seeds.len()
            invariant
                a <= seeds@.len(),
                filter_size > 0,
                seeds@.len() > 0,
                forall|x: int, y: int| 0 <= x < a && x < y < seeds@.len() ==> seeds@[x] != seeds@[y],
            decreases seeds@.len() - a,
        {
            let mut b: usize = a + 1;
            while b < seeds.len()
                invariant
                    a < b <= seeds@.len(),
                    filter_size > 0,
                    forall|y: int| a < y < b ==> seeds@[a as int] != seeds@[y],
                decreases seeds@.len() - b,
            {
                if seeds[a] == seeds[b] {
                    return Err(FilterConfigError::RepeatedSeed);
                }
                b = b + 1;
            }
            a = a + 1;
        }
        let bytes_count: usize = filter_size / 8 + if filter_size % 8 > 0 {
            1
        } else {
            0
        };
        let mut bytes: Vec<u8> = Vec::new();
        let mut i: usize = 0;
        while i < bytes_count
            invariant
                i <= bytes_count,
                bytes@ == Seq::new(i as nat, |j: int| 0u8),
            decreases bytes_count - i,
        {
            bytes.push(0u8);
            i = i + 1;
            assert(bytes@ =~= Seq::new(i as nat, |j: int| 0u8));
        }
        let r = MultiBinaryBloomFilter { filter_size, bytes, seeds };
        assert forall|i: int| 0 <= i < 8 * r.bytes@.len() implies !#[trigger] byte_bit(r.bytes@, i) by {
            lemma_zero_byte((i % 8) as u8);
        }
        Ok(r)
    }

    /// A filter of `filter_size` cells with `hash_count` hash functions, salted
    /// with `0, 1, ..., hash_count - 1`.
    pub fn with_dimensions(filter_size: usize, hash_count: usize) -> (r: Result<
        Self,
        FilterConfigError,
    >)
        ensures
            filter_size == 0 ==> r == Err::<Self, _>(FilterConfigError::ZeroFilterSize),
            filter_size > 0 && hash_count == 0 ==> r == Err::<Self, _>(
                FilterConfigError::ZeroHashCount,
            ),
            filter_size > 0 && hash_count > 0 ==> r is Ok,
            r matches Ok(f) ==> {
                &&& f.well_formed()
                &&& f.size() == filter_size
                &&& f.seeds() == Seq::new(hash_count as nat, |j: int| j as u64)
                &&& f.storage() == Seq::new(bytes_for(filter_size as nat), |i: int| 0u8)
                &&& f.on_cells() == Set::<int>::empty()
            },
    {
        let mut seeds: Vec<u64> = Vec::new();
        let mut j: usize = 0;
        while j < hash_count
            invariant
                j <= hash_count,
                seeds@ == Seq::new(j as nat, |x: int| x as u64),
            decreases hash_count - j,
        {
            seeds.push(j as u64);
            j = j + 1;
            assert(seeds@ =~= Seq::new(j as nat, |x: int| x as u64));
        }
        let r = Self::with_seeds(filter_size, seeds);
        if let Ok(f) = &r {
            assert forall|i: int| 0 <= i < f.filter_size implies !byte_bit(f.bytes@, i) by {
                lemma_zero_byte((i % 8) as u8);
            }
            assert(f.on_cells() =~= Set::<int>::empty());
        }
        r
    }
}

impl MultiBinaryBloomFilter {
    /// Whether two filters have the same cells and the same hash functions.
    pub fn same_config(&self, other: &Self) -> (r: bool)
        ensures
            r == (self.size() == other.size() && self.seeds() == other.seeds()),
    {
        if self.filter_size != other.filter_size || self.seeds.len() != other.seeds.len() {
            return false;
        }
        let mut j: usize = 0;
        while j < self.seeds.len()
            invariant
                j <= self.seeds@.len() == other.seeds@.len(),
                forall|x: int| 0 <= x < j ==> self.seeds@[x] == other.seeds@[x],
            decreases self.seeds@.len() - j,
        {
            if self.seeds[j] != other.seeds[j] {
                return false;
            }
            j = j + 1;
        }
        assert(self.seeds@ =~= other.seeds@);
        true
    }

    /// Switches on every cell that is on in `other`, so that the filter
    /// reports every item that either filter reported. Both filters must have
    /// the same cells and hash functions; otherwise nothing changes.
    pub fn union_with(&mut self, other: &Self) -> (r: Result<(), FilterConfigError>)
        requires
            old(self).well_formed(),
            other.well_formed(),
        ensures
            final(self).well_formed(),
            (old(self).size() == other.size() && old(self).seeds() == other.seeds()) <==> r is Ok,
            r is Ok ==> final(self).on_cells() == old(self).on_cells().union(other.on_cells()),
            r is Err ==> r == Err::<(), _>(FilterConfigError::DifferentConfig) && final(self).on_cells()
                == old(self).on_cells(),
            final(self).size() == old(self).size(),
            final(self).seeds() == old(self).seeds(),
    {
        if !self.same_config(other) {
            return Err(FilterConfigError::DifferentConfig);
        }
        let ghost m = self.size();
        let mut b: usize = 0;
        while b < self.bytes.len()
            invariant
                self.filter_size == old(self).filter_size,
                self.seeds@ == old(self).seeds@,
                self.bytes@.len() == old(self).bytes@.len() == other.bytes@.len(),
                b <= self.bytes@.len(),
                forall|x: int| 0 <= x < b ==> #[trigger] self.bytes@[x] == old(self).bytes@[x] | other.bytes@[x],
                forall|x: int| b <= x < self.bytes@.len() ==> #[trigger] self.bytes@[x] == old(self).bytes@[x],
            decreases self.bytes@.len() - b,
        {
            let merged = self.bytes[b] | other.bytes[b];
            self.bytes.set(b, merged);
            b = b + 1;
        }
        assert forall|i: int| m <= i < 8 * self.bytes@.len() implies !#[trigger] byte_bit(
            self.bytes@,
            i,
        ) by {
            lemma_byte_or(old(self).bytes@[i / 8], other.bytes@[i / 8], (i % 8) as u8);
            assert(self.bytes@[i / 8] == old(self).bytes@[i / 8] | other.bytes@[i / 8]);
            assert(!byte_bit(old(self).bytes@, i));
            assert(!byte_bit(other.bytes@, i));
        }
        assert forall|i: int| #[trigger]
            self.on_cells().contains(i) == old(self).on_cells().union(other.on_cells()).contains(
                i,
            ) by {
            if 0 <= i < m {
                lemma_byte_or(old(self).bytes@[i / 8], other.bytes@[i / 8], (i % 8) as u8);
                assert(self.bytes@[i / 8] == old(self).bytes@[i / 8] | other.bytes@[i / 8]);
            }
        }
        assert(self.on_cells() =~= old(self).on_cells().union(other.on_cells()));
        Ok(())
    }
}

impl<Item: FilterItem> BloomFilter<Item> for MultiBinaryBloomFilter {
    open spec fn wf(&self) -> bool {
        self.well_formed()
    }

    open spec fn bits(&self) -> Set<int> {
        self.on_cells()
    }

    open spec fn indices(&self, item: Item) -> Set<int> {
        seeded_indices(self.seeds(), self.seeds().len() as int, item.key(), self.size())
    }

    fn insert(&mut self, item: Item)
        ensures
            final(self).size() == old(self).size(),
            final(self).seeds() == old(self).seeds(),
            final(self).storage().len() == old(self).storage().len(),
            forall|i: int|
                0 <= i < 8 * old(self).storage().len() ==> #[trigger] byte_bit(
                    final(self).storage(),
                    i,
                ) == (byte_bit(old(self).storage(), i) || BloomFilter::<Item>::indices(
                    old(self),
                    item,
                ).contains(i)),
            BloomFilter::<Item>::indices(old(self), item).subset_of(old(self).on_cells())
                ==> final(self).storage() == old(self).storage(),
    {
        let key = item.key_bytes();
        let ghost present = BloomFilter::<Item>::indices(old(self), item).subset_of(
            old(self).on_cells(),
        );
        let ghost m = self.size();
        let ghost n = 8 * old(self).bytes@.len();
        let mut j: usize = 0;
        while j < self.seeds.len()
            invariant
                j <= self.seeds@.len(),
                self.filter_size == old(self).filter_size,
                self.seeds@ == old(self).seeds@,
                self.bytes@.len() == old(self).bytes@.len(),
                old(self).well_formed(),
                m == self.size(),
                n == 8 * self.bytes@.len(),
                key@ == item.key(),
                forall|i: int|
                    0 <= i < n ==> #[trigger] byte_bit(self.bytes@, i) == (byte_bit(
                        old(self).bytes@,
                        i,
                    ) || seeded_indices(self.seeds@, j as int, key@, m).contains(i)),
                present == BloomFilter::<Item>::indices(old(self), item).subset_of(
                    old(self).on_cells(),
                ),
                present ==> self.bytes@ == old(self).bytes@,
            decreases self.seeds@.len() - j,
        {
            let idx = seeded_index_of(self.seeds[j], &key, self.filter_size);
            let byte_index = idx / 8;
            let bit_index = (idx % 8) as u8;
            let ghost before = self.bytes@;
            let updated = self.bytes[byte_index] | (1u8 << bit_index);
            proof {
                if present {
                    assert(BloomFilter::<Item>::indices(old(self), item).contains(idx as int));
                    assert(byte_bit(before, idx as int));
                    lemma_byte_keeps_set_bit(before[byte_index as int], bit_index);
                }
            }
            self.bytes.set(byte_index, updated);
            assert(present ==> self.bytes@ =~= old(self).bytes@);
            assert(seeded_indices(self.seeds@, j + 1, key@, m) =~= seeded_indices(
                self.seeds@,
                j as int,
                key@,
                m,
            ).insert(idx as int));
            assert forall|i: int| 0 <= i < n implies #[trigger] byte_bit(self.bytes@, i) == (
            byte_bit(old(self).bytes@, i) || seeded_indices(self.seeds@, j + 1, key@, m).contains(
                i,
            )) by {
                assert(byte_bit(before, i) == (byte_bit(old(self).bytes@, i) || seeded_indices(
                    self.seeds@,
                    j as int,
                    key@,
                    m,
                ).contains(i)));
                if i / 8 == byte_index as int {
                    lemma_byte_or_bit(before[byte_index as int], bit_index, (i % 8) as u8);
                    assert((i % 8) as u8 == bit_index <==> i == idx);
                } else {
                    assert(self.bytes@[i / 8] == before[i / 8]);
                    assert(i != idx);
                }
            }
            j = j + 1;
        }
        let ghost added = seeded_indices(self.seeds@, j as int, key@, m);
        assert(added == BloomFilter::<Item>::indices(old(self), item));
        assert forall|i: int| #[trigger] added.contains(i) implies 0 <= i < m by {
            let x = choose|x: int| 0 <= x < j && i == #[trigger] seeded_index(self.seeds@[x], key@, m);
        }
        assert forall|i: int| m <= i < 8 * self.bytes@.len() implies !#[trigger] byte_bit(
            self.bytes@,
            i,
        ) by {
            assert(byte_bit(self.bytes@, i) == (byte_bit(old(self).bytes@, i) || added.contains(i)));
        }
        assert forall|i: int| #[trigger]
            self.on_cells().contains(i) == old(self).on_cells().union(added).contains(i) by {
            if 0 <= i < m {
                assert(byte_bit(self.bytes@, i) == (byte_bit(old(self).bytes@, i) || added.contains(i)));
            }
        }
        assert(self.on_cells() =~= old(self).on_cells().union(added));
    }

    fn contains(&self, item: &Item) -> (r: bool) {
        let key = item.key_bytes();
        let ghost m = self.size();
        let ghost all = BloomFilter::<Item>::indices(self, *item);
        let mut j: usize = 0;
        while j < self.seeds.len()
            invariant
                j <= self.seeds@.len(),
                BloomFilter::<Item>::wf(self),
                m == self.size(),
                key@ == item.key(),
                all == BloomFilter::<Item>::indices(self, *item),
                seeded_indices(self.seeds@, j as int, key@, m).subset_of(
                    BloomFilter::<Item>::bits(self),
                ),
            decreases self.seeds@.len() - j,
        {
            let idx = seeded_index_of(self.seeds[j], &key, self.filter_size);
            let byte_index = idx / 8;
            let bit_index = (idx % 8) as u8;
            proof {
                lemma_byte_and_bit(self.bytes@[byte_index as int], bit_index);
            }
            if self.bytes[byte_index] & (1u8 << bit_index) == 0 {
                assert(all.contains(idx as int));
                assert(!BloomFilter::<Item>::bits(self).contains(idx as int));
                return false;
            }
            assert(seeded_indices(self.seeds@, j + 1, key@, m) =~= seeded_indices(
                self.seeds@,
                j as int,
                key@,
                m,
            ).insert(idx as int));
            j = j + 1;
        }
        assert(seeded_indices(self.seeds@, j as int, key@, m) == all);
        true
    }
}

} // verus!
