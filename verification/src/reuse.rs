//! Finding earlier copies of a run of layers, and pointing at them.
//!
//! The cache maps the content of a run of layers to the index in the layer
//! list at which that content was first written. A later sequence that holds
//! the same run can then refer to the earlier copy instead of repeating it.

use crate::paint::Paint;
use crate::ranges::{is_reuse_range, range_before, reuse_ranges, MAX_REUSE_LEN};
use std::collections::HashMap;
use vstd::prelude::*;

verus! {

broadcast use vstd::std_specs::hash::group_hash_axioms;

/// Whether the window `lo..hi` of `layers` can be replaced by a reference:
/// it is a reuse window and its content is in the pool.
pub open spec fn is_candidate(
    pool: Map<Seq<Paint>, u32>,
    layers: Seq<Paint>,
    lo: int,
    hi: int,
) -> bool {
    is_reuse_range(layers.len() as int, lo, hi) && pool.contains_key(layers.subrange(lo, hi))
}

/// The order in which windows are tried: longer ones first, and among windows
/// of one length the one that ends further right first.
pub open spec fn tried_before(lo1: int, hi1: int, lo2: int, hi2: int) -> bool {
    hi1 - lo1 > hi2 - lo2 || (hi1 - lo1 == hi2 - lo2 && hi1 > hi2)
}

/// Whether `lo..hi` is the window that one pass replaces: a candidate that no
/// other candidate is tried before.
pub open spec fn is_first_match(
    pool: Map<Seq<Paint>, u32>,
    layers: Seq<Paint>,
    lo: int,
    hi: int,
) -> bool {
    &&& is_candidate(pool, layers, lo, hi)
    &&& forall|l: int, h: int| #[trigger]
        is_candidate(pool, layers, l, h) ==> !tried_before(l, h, lo, hi)
}

/// Whether a pass over `layers` finds anything to replace.
pub open spec fn has_match(pool: Map<Seq<Paint>, u32>, layers: Seq<Paint>) -> bool {
    exists|lo: int, hi: int| is_first_match(pool, layers, lo, hi)
}

/// The window that a pass over `layers` replaces, where there is one.
pub open spec fn first_match(pool: Map<Seq<Paint>, u32>, layers: Seq<Paint>) -> (int, int) {
    choose|lo: int, hi: int| is_first_match(pool, layers, lo, hi)
}

/// `layers` with the window `lo..hi` replaced by the single `paint`.
pub open spec fn replace_run(layers: Seq<Paint>, lo: int, hi: int, paint: Paint) -> Seq<Paint> {
    layers.subrange(0, lo).push(paint) + layers.subrange(hi, layers.len() as int)
}

/// The reference that stands for the window `lo..hi` of `layers`.
pub open spec fn reuse_ref(
    pool: Map<Seq<Paint>, u32>,
    layers: Seq<Paint>,
    lo: int,
    hi: int,
) -> Paint {
    Paint::ColrLayers {
        num_layers: (hi - lo) as u8,
        first_layer_index: pool[layers.subrange(lo, hi)],
    }
}

/// One pass: the first match replaced by a reference to its earlier copy.
pub open spec fn reuse_step(pool: Map<Seq<Paint>, u32>, layers: Seq<Paint>) -> Seq<Paint> {
    let (lo, hi) = first_match(pool, layers);
    replace_run(layers, lo, hi, reuse_ref(pool, layers, lo, hi))
}

/// Passes repeated until one finds nothing.
pub open spec fn reuse_fixpoint(pool: Map<Seq<Paint>, u32>, layers: Seq<Paint>) -> Seq<Paint>
    decreases layers.len(),
{
    if has_match(pool, layers) {
        reuse_fixpoint(pool, reuse_step(pool, layers))
    } else {
        layers
    }
}

/// Whether `content` is the reuse window of `layers` that starts at `lo`.
pub open spec fn occurs_at(layers: Seq<Paint>, content: Seq<Paint>, lo: int) -> bool {
    &&& is_reuse_range(layers.len() as int, lo, lo + content.len())
    &&& layers.subrange(lo, lo + content.len()) == content
}

/// Whether `content` is a reuse window of `layers`.
pub open spec fn occurs(layers: Seq<Paint>, content: Seq<Paint>) -> bool {
    exists|lo: int| occurs_at(layers, content, lo)
}

/// Whether `lo` is the first place at which `content` is a reuse window of `layers`.
pub open spec fn is_first_occurrence(layers: Seq<Paint>, content: Seq<Paint>, lo: int) -> bool {
    &&& occurs_at(layers, content, lo)
    &&& forall|l: int| #[trigger] occurs_at(layers, content, l) ==> lo <= l
}

/// The first place at which `content` is a reuse window of `layers`.
pub open spec fn first_occurrence(layers: Seq<Paint>, content: Seq<Paint>) -> int {
    choose|lo: int| is_first_occurrence(layers, content, lo)
}

/// The pool after the reuse windows of `layers`, written at `first_index`,
/// have been entered: what was known keeps its index, each new content gets
/// the index of its first occurrence.
pub open spec fn registered(
    pool: Map<Seq<Paint>, u32>,
    layers: Seq<Paint>,
    first_index: u32,
) -> Map<Seq<Paint>, u32> {
    Map::new(
        |content: Seq<Paint>| pool.contains_key(content) || occurs(layers, content),
        |content: Seq<Paint>|
            if pool.contains_key(content) {
                pool[content]
            } else {
                (first_index + first_occurrence(layers, content)) as u32
            },
    )
}

/// What the pool holds for `content`.
pub open spec fn pool_get(pool: Map<Seq<Paint>, u32>, content: Seq<Paint>) -> Option<u32> {
    if pool.contains_key(content) {
        Some(pool[content])
    } else {
        None
    }
}

/// No two candidates are both tried first.
pub proof fn lemma_first_match_unique(
    pool: Map<Seq<Paint>, u32>,
    layers: Seq<Paint>,
    lo: int,
    hi: int,
)
    requires
        is_first_match(pool, layers, lo, hi),
    ensures
        has_match(pool, layers),
        first_match(pool, layers) == (lo, hi),
{
    let (l, h) = first_match(pool, layers);
    assert(is_first_match(pool, layers, l, h));
    assert(is_candidate(pool, layers, l, h));
    assert(is_candidate(pool, layers, lo, hi));
}

/// A replaced window makes the sequence shorter.
pub proof fn lemma_reuse_step_shorter(pool: Map<Seq<Paint>, u32>, layers: Seq<Paint>)
    requires
        has_match(pool, layers),
    ensures
        reuse_step(pool, layers).len() < layers.len(),
        reuse_step(pool, layers).len() >= 1,
{
    let (lo, hi) = first_match(pool, layers);
    assert(is_first_match(pool, layers, lo, hi));
}

const HASH_SEED: u64 = 0xcbf2_9ce4_8422_2325;

const HASH_PRIME: u64 = 0x0000_0100_0000_01b3;

spec fn paint_code(paint: Paint) -> u64 {
    match paint {
        Paint::ColrLayers { num_layers, first_layer_index } => {
            (first_layer_index as u64).wrapping_mul(256).wrapping_add(num_layers as u64)
        },
        Paint::Opaque(key) => key,
    }
}

spec fn content_hash(content: Seq<Paint>) -> u64
    decreases content.len(),
{
    if content.len() == 0 {
        HASH_SEED
    } else {
        content_hash(content.drop_last()).wrapping_mul(HASH_PRIME).wrapping_add(
            paint_code(content.last()),
        )
    }
}

fn code_of(paint: Paint) -> (code: u64)
    ensures
        code == paint_code(paint),
{
    match paint {
        Paint::ColrLayers { num_layers, first_layer_index } => {
            (first_layer_index as u64).wrapping_mul(256).wrapping_add(num_layers as u64)
        },
        Paint::Opaque(key) => key,
    }
}

fn hash_window(layers: &Vec<Paint>, lo: usize, hi: usize) -> (hash: u64)
    requires
        lo <= hi <= layers.len(),
    ensures
        hash == content_hash(layers@.subrange(lo as int, hi as int)),
{
    let mut hash: u64 = HASH_SEED;
    let mut i: usize = lo;
    while i < hi
        invariant
            lo <= i <= hi <= layers.len(),
            hash == content_hash(layers@.subrange(lo as int, i as int)),
        decreases hi - i,
    {
        proof {
            let next = layers@.subrange(lo as int, i + 1);
            assert(next.drop_last() == layers@.subrange(lo as int, i as int));
            assert(next.last() == layers@[i as int]);
        }
        hash = hash.wrapping_mul(HASH_PRIME).wrapping_add(code_of(layers[i]));
        i = i + 1;
    }
    hash
}

/// Whether `content` is what `layers` holds in `lo..hi`.
fn window_is(content: &Vec<Paint>, layers: &Vec<Paint>, lo: usize, hi: usize) -> (same: bool)
    requires
        lo <= hi <= layers.len(),
    ensures
        same == (content@ == layers@.subrange(lo as int, hi as int)),
{
    if content.len() != hi - lo {
        return false;
    }
    let mut i: usize = 0;
    while i < content.len()
        invariant
            lo <= hi <= layers.len(),
            content.len() == hi - lo,
            i <= content.len(),
            forall|j: int| 0 <= j < i ==> content@[j] == layers@[lo + j],
        decreases content.len() - i,
    {
        if content[i] != layers[lo + i] {
            proof {
                assert(layers@.subrange(lo as int, hi as int)[i as int] == layers@[lo + i]);
            }
            return false;
        }
        i = i + 1;
    }
    proof {
        assert(content@ =~= layers@.subrange(lo as int, hi as int));
    }
    true
}

fn copy_window(layers: &Vec<Paint>, lo: usize, hi: usize) -> (content: Vec<Paint>)
    requires
        lo <= hi <= layers.len(),
    ensures
        content@ == layers@.subrange(lo as int, hi as int),
{
    let mut content: Vec<Paint> = Vec::new();
    let mut i: usize = lo;
    while i < hi
        invariant
            lo <= i <= hi <= layers.len(),
            content@ == layers@.subrange(lo as int, i as int),
        decreases hi - i,
    {
        content.push(layers[i]);
        proof {
            assert(content@ =~= layers@.subrange(lo as int, i + 1));
        }
        i = i + 1;
    }
    content
}

/// One remembered run of layers and the index at which it was first written.
struct CacheEntry {
    content: Vec<Paint>,
    index: u32,
}

spec fn bucket_get(bucket: Seq<CacheEntry>, content: Seq<Paint>) -> Option<u32>
    decreases bucket.len(),
{
    if bucket.len() == 0 {
        None
    } else {
        match bucket_get(bucket.drop_last(), content) {
            Some(index) => Some(index),
            None => if bucket.last().content@ == content {
                Some(bucket.last().index)
            } else {
                None
            },
        }
    }
}

spec fn bucket_of(buckets: Map<u64, Vec<CacheEntry>>, hash: u64) -> Seq<CacheEntry> {
    if buckets.contains_key(hash) {
        buckets[hash]@
    } else {
        Seq::empty()
    }
}

spec fn buckets_get(buckets: Map<u64, Vec<CacheEntry>>, content: Seq<Paint>) -> Option<u32> {
    bucket_get(bucket_of(buckets, content_hash(content)), content)
}

fn find_in_bucket(bucket: &Vec<CacheEntry>, layers: &Vec<Paint>, lo: usize, hi: usize) -> (found:
    Option<u32>)
    requires
        lo <= hi <= layers.len(),
    ensures
        found == bucket_get(bucket@, layers@.subrange(lo as int, hi as int)),
{
    let ghost content = layers@.subrange(lo as int, hi as int);
    let mut i: usize = 0;
    while i < bucket.len()
        invariant
            lo <= hi <= layers.len(),
            content == layers@.subrange(lo as int, hi as int),
            i <= bucket.len(),
            bucket_get(bucket@.subrange(0, i as int), content) is None,
        decreases bucket.len() - i,
    {
        proof {
            assert(bucket@.subrange(0, i + 1).drop_last() == bucket@.subrange(0, i as int));
        }
        if window_is(&bucket[i].content, layers, lo, hi) {
            let found = Some(bucket[i].index);
            proof {
                lemma_bucket_get_prefix(bucket@, i + 1, content);
            }
            return found;
        }
        i = i + 1;
    }
    proof {
        assert(bucket@.subrange(0, i as int) == bucket@);
    }
    None
}

/// What a front part of a bucket holds for a content, the whole bucket holds too.
proof fn lemma_bucket_get_prefix(bucket: Seq<CacheEntry>, n: int, content: Seq<Paint>)
    requires
        0 <= n <= bucket.len(),
        bucket_get(bucket.subrange(0, n), content) is Some,
    ensures
        bucket_get(bucket, content) == bucket_get(bucket.subrange(0, n), content),
    decreases bucket.len() - n,
{
    if n == bucket.len() {
        assert(bucket.subrange(0, n) == bucket);
    } else {
        assert(bucket.subrange(0, n + 1).drop_last() == bucket.subrange(0, n));
        lemma_bucket_get_prefix(bucket, n + 1, content);
    }
}

/// Remembers where runs of layers were first written, by their content.
pub struct LayerReuseCache {
    reuse_pool: HashMap<u64, Vec<CacheEntry>>,
}

impl View for LayerReuseCache {
    type V = Map<Seq<Paint>, u32>;

    /// The content of each remembered run, with the index at which it was
    /// first written.
    closed spec fn view(&self) -> Map<Seq<Paint>, u32> {
        Map::new(
            |content: Seq<Paint>| buckets_get(self.reuse_pool@, content) is Some,
            |content: Seq<Paint>| buckets_get(self.reuse_pool@, content).unwrap(),
        )
    }
}

impl LayerReuseCache {
    /// A cache that remembers nothing yet.
    pub fn new() -> (cache: Self)
        ensures
            cache@ == Map::<Seq<Paint>, u32>::empty(),
    {
        let cache = LayerReuseCache { reuse_pool: HashMap::new() };
        proof {
            assert(cache@ =~= Map::<Seq<Paint>, u32>::empty());
        }
        cache
    }

    /// The index at which the content of `layers[lo..hi]` was first written,
    /// if it is remembered.
    fn lookup(&self, layers: &Vec<Paint>, lo: usize, hi: usize) -> (found: Option<u32>)
        requires
            lo <= hi <= layers.len(),
        ensures
            found == pool_get(self@, layers@.subrange(lo as int, hi as int)),
    {
        let hash = hash_window(layers, lo, hi);
        match self.reuse_pool.get(&hash) {
            Some(bucket) => find_in_bucket(bucket, layers, lo, hi),
            None => None,
        }
    }

    /// The index at which `content` was first written, if it is remembered.
    pub fn get(&self, content: &Vec<Paint>) -> (found: Option<u32>)
        ensures
            found == pool_get(self@, content@),
    {
        proof {
            assert(content@.subrange(0, content@.len() as int) == content@);
        }
        self.lookup(content, 0, content.len())
    }

    /// Remembers the content of `layers[lo..hi]` under `index`, unless that
    /// content is remembered already.
    fn insert_if_absent(&mut self, layers: &Vec<Paint>, lo: usize, hi: usize, index: u32)
        requires
            lo <= hi <= layers.len(),
        ensures
            final(self)@ == (if old(self)@.contains_key(layers@.subrange(lo as int, hi as int)) {
                old(self)@
            } else {
                old(self)@.insert(layers@.subrange(lo as int, hi as int), index)
            }),
    {
        let ghost content = layers@.subrange(lo as int, hi as int);
        if self.lookup(layers, lo, hi).is_some() {
            return ;
        }
        let hash = hash_window(layers, lo, hi);
        let ghost before = self.reuse_pool@;
        let mut bucket = match self.reuse_pool.remove(&hash) {
            Some(bucket) => bucket,
            None => Vec::new(),
        };
        let ghost old_bucket = bucket@;
        bucket.push(CacheEntry { content: copy_window(layers, lo, hi), index });
        proof {
            assert(old_bucket == bucket_of(before, hash));
            assert(bucket@.drop_last() == old_bucket);
        }
        let ghost new_bucket = bucket@;
        self.reuse_pool.insert(hash, bucket);
        proof {
            let after = self.reuse_pool@;
            assert forall|other: Seq<Paint>|
                buckets_get(after, other) == (if other == content {
                    Some(index)
                } else {
                    buckets_get(before, other)
                }) by {
                if content_hash(other) == hash {
                    assert(bucket_of(after, hash) == new_bucket);
                } else {
                    assert(bucket_of(after, content_hash(other)) == bucket_of(
                        before,
                        content_hash(other),
                    ));
                }
            }
            assert(self@ =~= old(self)@.insert(content, index));
        }
    }

    /// The window that a pass over `layers` replaces, with the index that its
    /// content is remembered under.
    fn find_first_match(&self, layers: &Vec<Paint>) -> (found: Option<(usize, usize, u32)>)
        ensures
            match found {
                Some((lo, hi, index)) => {
                    &&& is_first_match(self@, layers@, lo as int, hi as int)
                    &&& index == self@[layers@.subrange(lo as int, hi as int)]
                },
                None => !has_match(self@, layers@),
            },
    {
        let n: usize = layers.len();
        let mut len: usize = if n > MAX_REUSE_LEN {
            MAX_REUSE_LEN
        } else {
            n
        };
        while len >= 2
            invariant
                n == layers.len(),
                len <= n,
                len <= MAX_REUSE_LEN,
                forall|l: int, h: int| #[trigger]
                    is_candidate(self@, layers@, l, h) ==> h - l <= len,
            decreases len,
        {
            let mut hi: usize = n;
            while hi >= len
                invariant
                    n == layers.len(),
                    2 <= len <= n,
                    len <= MAX_REUSE_LEN,
                    len - 1 <= hi <= n,
                    forall|l: int, h: int| #[trigger]
                        is_candidate(self@, layers@, l, h) ==> h - l < len || (h - l == len && h
                            <= hi),
                decreases hi,
            {
                let lo: usize = hi - len;
                match self.lookup(layers, lo, hi) {
                    Some(index) => {
                        return Some((lo, hi, index));
                    },
                    None => {},
                }
                hi = hi - 1;
            }
            len = len - 1;
        }
        proof {
            assert forall|lo: int, hi: int| !is_first_match(self@, layers@, lo, hi) by {
                if is_candidate(self@, layers@, lo, hi) {
                }
            }
        }
        None
    }

    /// Replaces runs of `layers` whose content is remembered by references to
    /// the earlier copies: the longest run first, among equally long ones the
    /// rightmost first, and again from the start after each replacement, until
    /// nothing more is found.
    pub fn try_reuse(&self, layers: Vec<Paint>) -> (reduced: Vec<Paint>)
        ensures
            reduced@ == reuse_fixpoint(self@, layers@),
    {
        let ghost given = layers@;
        let mut layers = layers;
        let mut found = self.find_first_match(&layers);
        while found.is_some()
            invariant
                reuse_fixpoint(self@, layers@) == reuse_fixpoint(self@, given),
                match found {
                    Some((lo, hi, index)) => {
                        &&& is_first_match(self@, layers@, lo as int, hi as int)
                        &&& index == self@[layers@.subrange(lo as int, hi as int)]
                    },
                    None => !has_match(self@, layers@),
                },
            decreases layers.len(),
        {
            let (lo, hi, index) = found.unwrap();
            proof {
                lemma_first_match_unique(self@, layers@, lo as int, hi as int);
                lemma_reuse_step_shorter(self@, layers@);
            }
            let reference = Paint::colr_layers((hi - lo) as u8, index);
            layers = replace_window(&layers, lo, hi, reference);
            found = self.find_first_match(&layers);
        }
        layers
    }

    /// Remembers every reuse window of `layers`, which were written to the
    /// layer list at `first_index`: a content that is remembered already keeps
    /// the index it has, a new one gets the index of its first occurrence.
    pub fn register(&mut self, layers: &Vec<Paint>, first_index: u32)
        requires
            first_index + layers.len() <= u32::MAX,
        ensures
            final(self)@ == registered(old(self)@, layers@, first_index),
    {
        let ghost pool = self@;
        let ranges = reuse_ranges(layers.len());
        let mut i: usize = 0;
        while i < ranges.len()
            invariant
                i <= ranges.len(),
                first_index + layers.len() <= u32::MAX,
                ranges_cover(layers@.len() as int, ranges@),
                forall|content: Seq<Paint>| #[trigger]
                    self@.contains_key(content) <==> pool.contains_key(content) || visited(
                        layers@,
                        ranges@,
                        i as int,
                        content,
                    ),
                forall|content: Seq<Paint>| #[trigger]
                    pool.contains_key(content) ==> self@[content] == pool[content],
                forall|content: Seq<Paint>| #[trigger]
                    self@.contains_key(content) && !pool.contains_key(content) ==> exists|j: int|
                        0 <= j < i && is_first_visit(layers@, ranges@, content, j) && self@[content]
                            == first_index + (#[trigger] ranges@[j]).0,
            decreases ranges.len() - i,
        {
            let (lo, hi) = ranges[i];
            let ghost before = self@;
            let ghost content = window_at(layers@, ranges@[i as int]);
            self.insert_if_absent(layers, lo, hi, first_index + lo as u32);
            proof {
                assert forall|other: Seq<Paint>| #[trigger]
                    self@.contains_key(other) <==> pool.contains_key(other) || visited(
                        layers@,
                        ranges@,
                        i + 1,
                        other,
                    ) by {
                    if visited(layers@, ranges@, i as int, other) {
                        let j = choose|j: int|
                            0 <= j < i && window_at(layers@, #[trigger] ranges@[j]) == other;
                        assert(0 <= j < i + 1 && window_at(layers@, ranges@[j]) == other);
                    }
                    if other == content {
                        assert(0 <= i < i + 1 && window_at(layers@, ranges@[i as int]) == other);
                    }
                }
                assert forall|other: Seq<Paint>| #[trigger]
                    self@.contains_key(other) && !pool.contains_key(other) implies exists|j: int|
                    0 <= j < i + 1 && is_first_visit(layers@, ranges@, other, j) && self@[other]
                        == first_index + (#[trigger] ranges@[j]).0 by {
                    if before.contains_key(other) {
                        let j = choose|j: int|
                            0 <= j < i && is_first_visit(layers@, ranges@, other, j)
                                && before[other] == first_index + (#[trigger] ranges@[j]).0;
                        assert(0 <= j < i + 1 && is_first_visit(layers@, ranges@, other, j)
                            && self@[other] == first_index + ranges@[j].0);
                    } else {
                        assert(other == content);
                        assert(!visited(layers@, ranges@, i as int, other));
                        assert(is_first_visit(layers@, ranges@, other, i as int));
                        assert(self@[other] == first_index + ranges@[i as int].0);
                    }
                }
            }
            i = i + 1;
        }
        proof {
            lemma_all_visited(pool, layers@, first_index, ranges@, self@);
        }
    }
}

/// What `layers[lo..hi]` becomes when `paint` takes the place of the window.
fn replace_window(layers: &Vec<Paint>, lo: usize, hi: usize, paint: Paint) -> (replaced: Vec<Paint>)
    requires
        lo <= hi <= layers.len(),
    ensures
        replaced@ == replace_run(layers@, lo as int, hi as int, paint),
{
    let mut replaced: Vec<Paint> = Vec::new();
    let mut i: usize = 0;
    while i < lo
        invariant
            i <= lo <= hi <= layers.len(),
            replaced@ == layers@.subrange(0, i as int),
        decreases lo - i,
    {
        replaced.push(layers[i]);
        proof {
            assert(replaced@ =~= layers@.subrange(0, i + 1));
        }
        i = i + 1;
    }
    replaced.push(paint);
    let mut k: usize = hi;
    while k < layers.len()
        invariant
            lo <= hi <= k <= layers.len(),
            replaced@ == layers@.subrange(0, lo as int).push(paint) + layers@.subrange(
                hi as int,
                k as int,
            ),
        decreases layers.len() - k,
    {
        replaced.push(layers[k]);
        proof {
            assert(replaced@ =~= layers@.subrange(0, lo as int).push(paint) + layers@.subrange(
                hi as int,
                k + 1,
            ));
        }
        k = k + 1;
    }
    replaced
}

spec fn window_at(layers: Seq<Paint>, range: (usize, usize)) -> Seq<Paint> {
    layers.subrange(range.0 as int, range.1 as int)
}

/// Whether one of the first `n` ranges holds `content`.
spec fn visited(
    layers: Seq<Paint>,
    ranges: Seq<(usize, usize)>,
    n: int,
    content: Seq<Paint>,
) -> bool {
    exists|j: int| 0 <= j < n && window_at(layers, #[trigger] ranges[j]) == content
}

/// Whether range `j` is the first of the ranges that holds `content`.
spec fn is_first_visit(
    layers: Seq<Paint>,
    ranges: Seq<(usize, usize)>,
    content: Seq<Paint>,
    j: int,
) -> bool {
    &&& window_at(layers, ranges[j]) == content
    &&& forall|k: int| 0 <= k < j ==> window_at(layers, #[trigger] ranges[k]) != content
}

/// Whether `ranges` lists every reuse window of a sequence of `num_layers`
/// layers once, by start and then by end.
spec fn ranges_cover(num_layers: int, ranges: Seq<(usize, usize)>) -> bool {
    &&& forall|i: int|
        0 <= i < ranges.len() ==> is_reuse_range(
            num_layers,
            (#[trigger] ranges[i]).0 as int,
            ranges[i].1 as int,
        )
    &&& forall|lo: int, hi: int|
        is_reuse_range(num_layers, lo, hi) ==> exists|i: int|
            0 <= i < ranges.len() && #[trigger] ranges[i] == (lo as usize, hi as usize)
    &&& forall|i: int, j: int|
        0 <= i < j < ranges.len() ==> range_before(#[trigger] ranges[i], #[trigger] ranges[j])
}

/// Once every range has been entered, the pool is the registered one.
proof fn lemma_all_visited(
    pool: Map<Seq<Paint>, u32>,
    layers: Seq<Paint>,
    first_index: u32,
    ranges: Seq<(usize, usize)>,
    now: Map<Seq<Paint>, u32>,
)
    requires
        first_index + layers.len() <= u32::MAX,
        ranges_cover(layers.len() as int, ranges),
        forall|content: Seq<Paint>| #[trigger]
            now.contains_key(content) <==> pool.contains_key(content) || visited(
                layers,
                ranges,
                ranges.len() as int,
                content,
            ),
        forall|content: Seq<Paint>| #[trigger]
            pool.contains_key(content) ==> now[content] == pool[content],
        forall|content: Seq<Paint>| #[trigger]
            now.contains_key(content) && !pool.contains_key(content) ==> exists|j: int|
                0 <= j < ranges.len() && is_first_visit(layers, ranges, content, j) && now[content]
                    == first_index + (#[trigger] ranges[j]).0,
    ensures
        now == registered(pool, layers, first_index),
{
    let target = registered(pool, layers, first_index);
    assert forall|content: Seq<Paint>|
        visited(layers, ranges, ranges.len() as int, content) <==> occurs(layers, content) by {
        if visited(layers, ranges, ranges.len() as int, content) {
            let j = choose|j: int|
                0 <= j < ranges.len() && window_at(layers, #[trigger] ranges[j]) == content;
            assert(occurs_at(layers, content, ranges[j].0 as int));
        }
        if occurs(layers, content) {
            let lo = choose|lo: int| occurs_at(layers, content, lo);
            let j = choose|j: int|
                0 <= j < ranges.len() && #[trigger] ranges[j] == (
                    lo as usize,
                    (lo + content.len()) as usize,
                );
            assert(window_at(layers, ranges[j]) == content);
        }
    }
    assert forall|content: Seq<Paint>| #[trigger]
        target.contains_key(content) implies now[content] == target[content] by {
        if !pool.contains_key(content) {
            assert(now.contains_key(content));
            let j = choose|j: int|
                0 <= j < ranges.len() && is_first_visit(layers, ranges, content, j) && now[content]
                    == first_index + (#[trigger] ranges[j]).0;
            let lo = ranges[j].0 as int;
            assert(occurs_at(layers, content, lo));
            assert forall|l: int| #[trigger] occurs_at(layers, content, l) implies lo <= l by {
                let k = choose|k: int|
                    0 <= k < ranges.len() && #[trigger] ranges[k] == (
                        l as usize,
                        (l + content.len()) as usize,
                    );
                assert(window_at(layers, ranges[k]) == content);
                if k < j {
                } else if k > j {
                    assert(range_before(ranges[j], ranges[k]));
                }
            }
            assert(is_first_occurrence(layers, content, lo));
            let chosen = first_occurrence(layers, content);
            assert(is_first_occurrence(layers, content, chosen));
            assert(occurs_at(layers, content, chosen));
            assert(chosen == lo);
        }
    }
    assert(now =~= target);
}

} // verus!
