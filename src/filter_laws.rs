use crate::bloom_filters::{
    lemma_word_or_bit, single_index, word_bit, BasicBloomFilter, BloomFilter, FilterItem,
    SingleBinaryBloomFilter,
};
use vstd::prelude::*;

verus! {

/// The cells that are on once `items` have been inserted, in order, into a
/// filter of `f`'s configuration whose cells `start` were on.
///
/// Each step is what `insert` promises: the item's cells are added, and the
/// configuration, hence `indices`, stays as it was.
pub open spec fn bits_after<Item: FilterItem, F: BloomFilter<Item>>(
    f: F,
    start: Set<int>,
    items: Seq<Item>,
) -> Set<int>
    decreases items.len(),
{
    if items.len() == 0 {
        start
    } else {
        bits_after(f, start, items.drop_last()).union(f.indices(items.last()))
    }
}

/// Whether `contains(x)` answers true once `items` have been inserted into a
/// filter of `f`'s configuration whose cells `start` were on.
pub open spec fn reports_after<Item: FilterItem, F: BloomFilter<Item>>(
    f: F,
    start: Set<int>,
    items: Seq<Item>,
    x: Item,
) -> bool {
    f.indices(x).subset_of(bits_after(f, start, items))
}

/// Cells are only ever switched on.
pub proof fn lemma_bits_grow<Item: FilterItem, F: BloomFilter<Item>>(
    f: F,
    start: Set<int>,
    items: Seq<Item>,
)
    ensures
        start.subset_of(bits_after(f, start, items)),
    decreases items.len(),
{
    if items.len() > 0 {
        lemma_bits_grow(f, start, items.drop_last());
    }
}

/// No false negatives: every item that was inserted is reported present,
/// whatever else was inserted before or after it.
pub proof fn lemma_no_false_negatives<Item: FilterItem, F: BloomFilter<Item>>(
    f: F,
    start: Set<int>,
    items: Seq<Item>,
    x: Item,
)
    requires
        items.contains(x),
    ensures
        reports_after(f, start, items, x),
    decreases items.len(),
{
    let prefix = items.drop_last();
    if items.last() == x {
        assert(f.indices(x).subset_of(bits_after(f, start, items)));
    } else {
        let k = choose|k: int| 0 <= k < items.len() && items[k] == x;
        assert(prefix[k] == x);
        lemma_no_false_negatives(f, start, prefix, x);
    }
}

/// A negative answer is definite: an item reported absent was never inserted.
pub proof fn lemma_negative_means_absent<Item: FilterItem, F: BloomFilter<Item>>(
    f: F,
    start: Set<int>,
    items: Seq<Item>,
    x: Item,
)
    requires
        !reports_after(f, start, items, x),
    ensures
        !items.contains(x),
{
    if items.contains(x) {
        lemma_no_false_negatives(f, start, items, x);
    }
}

/// Inserting an item that was already inserted changes no cell, so no answer
/// of `contains` changes either.
pub proof fn lemma_insert_idempotent<Item: FilterItem, F: BloomFilter<Item>>(
    f: F,
    start: Set<int>,
    items: Seq<Item>,
    x: Item,
)
    requires
        items.contains(x),
    ensures
        bits_after(f, start, items.push(x)) == bits_after(f, start, items),
        forall|y: Item|
            reports_after(f, start, items.push(x), y) == reports_after(f, start, items, y),
{
    lemma_no_false_negatives(f, start, items, x);
    assert(items.push(x).drop_last() == items);
    assert(bits_after(f, start, items.push(x)) =~= bits_after(f, start, items));
}

/// Starting with more cells on only adds those cells.
pub proof fn lemma_bits_after_start<Item: FilterItem, F: BloomFilter<Item>>(
    f: F,
    start: Set<int>,
    items: Seq<Item>,
)
    ensures
        bits_after(f, start, items) == start.union(bits_after(f, Set::empty(), items)),
    decreases items.len(),
{
    if items.len() > 0 {
        lemma_bits_after_start(f, start, items.drop_last());
        assert(bits_after(f, start, items) =~= start.union(bits_after(f, Set::empty(), items)));
    } else {
        assert(bits_after(f, start, items) =~= start.union(bits_after(f, Set::empty(), items)));
    }
}

/// Inserting `s` and then `t` is inserting `t` into the filter that `s` left.
pub proof fn lemma_bits_after_concat<Item: FilterItem, F: BloomFilter<Item>>(
    f: F,
    start: Set<int>,
    s: Seq<Item>,
    t: Seq<Item>,
)
    ensures
        bits_after(f, start, s + t) == bits_after(f, bits_after(f, start, s), t),
    decreases t.len(),
{
    if t.len() == 0 {
        assert(s + t =~= s);
    } else {
        assert((s + t).drop_last() =~= s + t.drop_last());
        assert((s + t).last() == t.last());
        lemma_bits_after_concat(f, start, s, t.drop_last());
    }
}

/// Merging is sound: the union of the cells of two empty filters of one
/// configuration, one filled with `s` and one with `t`, is the cells of one
/// empty filter filled with `s` and then `t`.
pub proof fn lemma_union_is_concatenation<Item: FilterItem, F: BloomFilter<Item>>(
    f: F,
    s: Seq<Item>,
    t: Seq<Item>,
)
    ensures
        bits_after(f, Set::empty(), s).union(bits_after(f, Set::empty(), t)) == bits_after(
            f,
            Set::empty(),
            s + t,
        ),
{
    lemma_bits_after_concat(f, Set::empty(), s, t);
    lemma_bits_after_start(f, bits_after(f, Set::empty(), s), t);
}

/// A flag-per-cell filter of 128 cells and a one-word filter give the same
/// item the same cell, so from the same cells on and after the same inserts
/// they have the same cells on and answer `contains` alike.
pub proof fn lemma_capacity_128_equivalence<Item: FilterItem>(
    a: BasicBloomFilter<128>,
    b: SingleBinaryBloomFilter,
    start: Set<int>,
    items: Seq<Item>,
)
    ensures
        bits_after(a, start, items) == bits_after(b, start, items),
        forall|x: Item| reports_after(a, start, items, x) == reports_after(b, start, items, x),
    decreases items.len(),
{
    if items.len() > 0 {
        lemma_capacity_128_equivalence(a, b, start, items.drop_last());
    }
}


/// The flags of a 128-cell filter are, one for one, the bits of a one-word
/// filter's word.
pub open spec fn cells_match_word(b: BasicBloomFilter<128>, s: SingleBinaryBloomFilter) -> bool {
    forall|i: int| 0 <= i < 128 ==> b.cells()[i] == word_bit(s.word(), i)
}

/// Two fresh filters, one of 128 flags and one word, match bit for bit.
pub proof fn lemma_fresh_filters_match(b: BasicBloomFilter<128>, s: SingleBinaryBloomFilter)
    requires
        b.cells() == Seq::new(128, |i: int| false),
        s.word() == 0,
    ensures
        cells_match_word(b, s),
{
    assert forall|i: int| 0 <= i < 128 implies b.cells()[i] == word_bit(s.word(), i) by {
        let k = i as u128;
        assert((0u128 >> k) & 1 == 0) by (bit_vector);
    }
}

/// Inserting one item into a 128-flag filter and a one-word filter that
/// match bit for bit leaves them matching bit for bit, and matching filters
/// answer `contains` alike. The states after the inserts are the ones the two
/// `insert` contracts give.
pub proof fn lemma_insert_keeps_match<Item: FilterItem>(
    b: BasicBloomFilter<128>,
    s: SingleBinaryBloomFilter,
    b2: BasicBloomFilter<128>,
    s2: SingleBinaryBloomFilter,
    item: Item,
)
    requires
        cells_match_word(b, s),
        b2.cells() == b.cells().update(single_index(item.key(), 128), true),
        s2.word() == s.word() | (1u128 << (single_index(item.key(), 128) as u128)),
    ensures
        cells_match_word(b2, s2),
        forall|x: Item|
            BloomFilter::<Item>::indices(&b2, x).subset_of(BloomFilter::<Item>::bits(&b2))
                == BloomFilter::<Item>::indices(&s2, x).subset_of(BloomFilter::<Item>::bits(&s2)),
{
    let k = single_index(item.key(), 128);
    b.lemma_cells_len();
    b2.lemma_cells_len();
    assert forall|i: int| 0 <= i < 128 implies b2.cells()[i] == word_bit(s2.word(), i) by {
        lemma_word_or_bit(s.word(), k as u128, i as u128);
    }
    assert forall|x: Item|
        BloomFilter::<Item>::indices(&b2, x).subset_of(BloomFilter::<Item>::bits(&b2))
            == BloomFilter::<Item>::indices(&s2, x).subset_of(BloomFilter::<Item>::bits(&s2)) by {
        let j = single_index(x.key(), 128);
        assert(BloomFilter::<Item>::indices(&b2, x).contains(j));
        assert(BloomFilter::<Item>::indices(&s2, x).contains(j));
    }
}

} // verus!
