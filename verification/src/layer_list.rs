//! The builder of a colour table's layer list.
//!
//! Glyphs hand in their groups of layers one at a time. Each group is written
//! to the end of one shared list and answered by a single paint that stands
//! for it. Runs that were written before are referred to, not written again,
//! and a group too long for one reference is wrapped in a tree of references.

use crate::expansion::{all_within, expand, expand_all, extends, is_closed, pool_matches};
use crate::theorems::{theorem_list_only_grows, theorem_round_trip};
use crate::paint::{Paint, MAX_PAINT_COLR_LAYER_COUNT};
use crate::ranges::MAX_REUSE_LEN;
use crate::reuse::{
    first_occurrence, has_match, is_first_occurrence, lemma_reuse_step_shorter, occurs_at,
    registered, reuse_fixpoint, reuse_step, LayerReuseCache,
};
use vstd::prelude::*;

verus! {

/// What a builder holds, as plain mathematics.
pub struct BuilderState {
    /// The layer list written so far.
    pub layers: Seq<Paint>,
    /// With reuse allowed: the runs that are remembered, each with the index
    /// at which it was first written.
    pub reuse_pool: Option<Map<Seq<Paint>, u32>>,
}

impl BuilderState {
    /// Every index fits the table's 32 bits, and every remembered run is one
    /// of two to 32 layers that sits in the list where the pool says.
    pub open spec fn valid(self) -> bool {
        &&& self.layers.len() <= u32::MAX
        &&& self.reuse_pool matches Some(pool) ==> pool_matches(pool, self.layers)
    }
}

/// The number of references that cover `count` layers, 255 at a time.
pub open spec fn chunk_count(count: int) -> int {
    (count + 254) / 255
}

/// The reference to the `i`-th chunk of the `count` layers that start at `first`.
pub open spec fn chunk_ref(first: int, count: int, i: int) -> Paint {
    Paint::ColrLayers {
        num_layers: (if count - 255 * i < 255 {
            count - 255 * i
        } else {
            255
        }) as u8,
        first_layer_index: (first + 255 * i) as u32,
    }
}

/// The references to all chunks of the `count` layers that start at `first`.
pub open spec fn chunk_refs(first: int, count: int) -> Seq<Paint> {
    Seq::new(chunk_count(count) as nat, |i: int| chunk_ref(first, count, i))
}

/// The number of reference nodes that a tree over `count` layers takes,
/// its root not counted.
pub open spec fn tree_node_count(count: int) -> int
    decreases count,
{
    if count <= 255 {
        0
    } else {
        chunk_count(count) + tree_node_count(chunk_count(count))
    }
}

/// The list after a tree over its `count` layers from `first` on has been
/// written to its end, and the paint that stands for the whole run: one
/// reference where that is enough, else the root of the tree.
pub open spec fn packed(layers: Seq<Paint>, first: int, count: int) -> (Seq<Paint>, Paint)
    decreases count,
{
    if count <= 255 {
        (layers, Paint::ColrLayers { num_layers: count as u8, first_layer_index: first as u32 })
    } else {
        packed(layers + chunk_refs(first, count), layers.len() as int, chunk_count(count))
    }
}

/// The group as it is written: with reuse allowed, known runs replaced by
/// references.
pub open spec fn reduced(state: BuilderState, paints: Seq<Paint>) -> Seq<Paint> {
    match state.reuse_pool {
        Some(pool) => reuse_fixpoint(pool, paints),
        None => paints,
    }
}

/// Whether the whole group turned out to be one run that was written before.
pub open spec fn is_complete_reuse(layers: Seq<Paint>) -> bool {
    layers.len() == 1 && layers[0] is ColrLayers
}

/// The state after a group of more than one paint has been written, and the
/// paint that stands for it.
pub open spec fn after_append(state: BuilderState, layers: Seq<Paint>) -> (BuilderState, Paint) {
    let first = state.layers.len() as int;
    let appended = state.layers + layers;
    let pool = match state.reuse_pool {
        Some(pool) => Some(registered(pool, layers, first as u32)),
        None => None,
    };
    if layers.len() > 255 {
        let (with_tree, root) = packed(appended, first, layers.len() as int);
        (BuilderState { layers: with_tree, reuse_pool: pool }, root)
    } else if layers.len() == 1 {
        (BuilderState { layers: appended, reuse_pool: pool }, layers[0])
    } else {
        (
            BuilderState { layers: appended, reuse_pool: pool },
            Paint::ColrLayers { num_layers: layers.len() as u8, first_layer_index: first as u32 },
        )
    }
}

/// The state after `paints` have been handed in as one group, and the paint
/// that stands for the group.
pub open spec fn after_add(state: BuilderState, paints: Seq<Paint>) -> (BuilderState, Paint) {
    if paints.len() == 0 {
        (state, Paint::ColrLayers { num_layers: 0, first_layer_index: 0 })
    } else if paints.len() == 1 {
        (state, paints[0])
    } else if is_complete_reuse(reduced(state, paints)) {
        (state, reduced(state, paints)[0])
    } else {
        after_append(state, reduced(state, paints))
    }
}

/// A longer run takes at least as many tree nodes.
pub proof fn lemma_tree_nodes_monotone(fewer: int, more: int)
    requires
        0 <= fewer <= more,
    ensures
        0 <= tree_node_count(fewer) <= tree_node_count(more),
    decreases more,
{
    if more > 255 {
        if fewer > 255 {
            lemma_tree_nodes_monotone(chunk_count(fewer), chunk_count(more));
        } else {
            lemma_tree_nodes_monotone(0, chunk_count(more));
        }
    }
}

/// A tree takes no more nodes than the layers it stands over.
pub proof fn lemma_tree_nodes_bounded(count: int)
    requires
        0 <= count,
    ensures
        0 <= tree_node_count(count) <= count,
    decreases count,
{
    if count > 255 {
        lemma_tree_nodes_bounded(chunk_count(count));
        if chunk_count(count) > 255 {
            lemma_tree_nodes_bounded(chunk_count(chunk_count(count)));
        }
    }
}

/// Replacing runs by references never makes a sequence longer, nor empty.
pub proof fn lemma_reuse_fixpoint_len(pool: Map<Seq<Paint>, u32>, layers: Seq<Paint>)
    ensures
        reuse_fixpoint(pool, layers).len() <= layers.len(),
        layers.len() >= 1 ==> reuse_fixpoint(pool, layers).len() >= 1,
    decreases layers.len(),
{
    if has_match(pool, layers) {
        lemma_reuse_step_shorter(pool, layers);
        lemma_reuse_fixpoint_len(pool, reuse_step(pool, layers));
    }
}

/// A content that occurs has a first occurrence.
pub proof fn lemma_first_occurrence(layers: Seq<Paint>, content: Seq<Paint>, lo: int)
    requires
        occurs_at(layers, content, lo),
    ensures
        is_first_occurrence(layers, content, first_occurrence(layers, content)),
    decreases lo,
{
    if exists|l: int| occurs_at(layers, content, l) && l < lo {
        let l = choose|l: int| occurs_at(layers, content, l) && l < lo;
        lemma_first_occurrence(layers, content, l);
    } else {
        assert(is_first_occurrence(layers, content, lo));
    }
}

/// What a pool says of a list, it says of every list that starts with it.
pub proof fn lemma_pool_matches_longer(
    pool: Map<Seq<Paint>, u32>,
    list: Seq<Paint>,
    longer: Seq<Paint>,
)
    requires
        pool_matches(pool, list),
        extends(longer, list),
    ensures
        pool_matches(pool, longer),
{
    assert forall|content: Seq<Paint>| #[trigger] pool.contains_key(content) implies 2
        <= content.len() <= MAX_REUSE_LEN && pool[content] + content.len() <= longer.len()
        && longer.subrange(pool[content] as int, pool[content] + content.len()) == content by {
        let at = pool[content] as int;
        let a = longer.subrange(at, at + content.len());
        let b = list.subrange(at, at + content.len());
        assert forall|i: int| 0 <= i < a.len() implies #[trigger] a[i] == b[i] by {
            assert(longer[at + i] == longer.subrange(0, list.len() as int)[at + i]);
        }
        assert(a =~= b);
    }
}

/// The runs of a group that was just written sit where they get registered.
pub proof fn lemma_registered_matches(
    pool: Map<Seq<Paint>, u32>,
    list: Seq<Paint>,
    layers: Seq<Paint>,
)
    requires
        pool_matches(pool, list),
        list.len() + layers.len() <= u32::MAX,
    ensures
        pool_matches(registered(pool, layers, list.len() as u32), list + layers),
{
    let longer = list + layers;
    let first = list.len() as u32;
    let after = registered(pool, layers, first);
    assert(longer.subrange(0, list.len() as int) == list);
    lemma_pool_matches_longer(pool, list, longer);
    assert forall|content: Seq<Paint>| #[trigger] after.contains_key(content) implies 2
        <= content.len() <= MAX_REUSE_LEN && after[content] + content.len() <= longer.len()
        && longer.subrange(after[content] as int, after[content] + content.len()) == content by {
        if !pool.contains_key(content) {
            let some = choose|lo: int| occurs_at(layers, content, lo);
            lemma_first_occurrence(layers, content, some);
            let lo = first_occurrence(layers, content);
            assert(occurs_at(layers, content, lo));
            assert(longer.subrange(first + lo, first + lo + content.len()) == layers.subrange(
                lo,
                lo + content.len(),
            ));
        }
    }
}

/// A finished layer list: its paints and their number, as the table holds them.
pub struct LayerList {
    pub num_layers: u32,
    pub paints: Vec<Paint>,
}

/// Builds a layer list group by group.
pub struct LayerListBuilder {
    layers: Vec<Paint>,
    reuse_cache: Option<LayerReuseCache>,
}

impl View for LayerListBuilder {
    type V = BuilderState;

    closed spec fn view(&self) -> BuilderState {
        BuilderState {
            layers: self.layers@,
            reuse_pool: match self.reuse_cache {
                Some(cache) => Some(cache@),
                None => None,
            },
        }
    }
}

fn append_all(list: &mut Vec<Paint>, paints: &Vec<Paint>)
    ensures
        final(list)@ == old(list)@ + paints@,
{
    let mut i: usize = 0;
    while i < paints.len()
        invariant
            i <= paints.len(),
            list@ == old(list)@ + paints@.subrange(0, i as int),
        decreases paints.len() - i,
    {
        list.push(paints[i]);
        proof {
            assert(list@ =~= old(list)@ + paints@.subrange(0, i + 1));
        }
        i = i + 1;
    }
    proof {
        assert(paints@.subrange(0, i as int) == paints@);
    }
}

impl LayerListBuilder {
    /// Whether the builder is in order: see [`BuilderState::valid`].
    pub open spec fn wf(&self) -> bool {
        self@.valid()
    }

    /// A builder with an empty list. With `allow_layer_reuse` it remembers
    /// what it writes and refers to it when the same run comes again.
    pub fn new(allow_layer_reuse: bool) -> (builder: Self)
        ensures
            builder.wf(),
            builder@.layers == Seq::<Paint>::empty(),
            builder@.reuse_pool == (if allow_layer_reuse {
                Some(Map::<Seq<Paint>, u32>::empty())
            } else {
                None
            }),
    {
        LayerListBuilder {
            layers: Vec::new(),
            reuse_cache: if allow_layer_reuse {
                Some(LayerReuseCache::new())
            } else {
                None
            },
        }
    }

    /// Writes a tree of references over the `num_layers` layers that start at
    /// `first_layer_index`, and returns the paint that stands for them all.
    fn build_n_ary_tree_internal(&mut self, first_layer_index: u32, num_layers: u32) -> (paint:
        Paint)
        requires
            old(self).wf(),
            first_layer_index + num_layers <= u32::MAX,
            old(self)@.layers.len() + tree_node_count(num_layers as int) <= u32::MAX,
        ensures
            final(self).wf(),
            final(self)@.reuse_pool == old(self)@.reuse_pool,
            (final(self)@.layers, paint) == packed(
                old(self)@.layers,
                first_layer_index as int,
                num_layers as int,
            ),
        decreases num_layers,
    {
        if num_layers <= MAX_PAINT_COLR_LAYER_COUNT as u32 {
            return Paint::colr_layers(num_layers as u8, first_layer_index);
        }
        let ghost count = num_layers as int;
        let ghost first = first_layer_index as int;
        let mut tree_nodes: Vec<Paint> = Vec::new();
        let mut offset: u32 = 0;
        while offset < num_layers
            invariant
                count == num_layers,
                first == first_layer_index,
                first + count <= u32::MAX,
                offset <= num_layers,
                offset == (if 255 * tree_nodes.len() <= count {
                    255 * tree_nodes.len()
                } else {
                    count
                }),
                tree_nodes.len() == 0 || 255 * (tree_nodes.len() - 1) < count,
                forall|i: int|
                    0 <= i < tree_nodes.len() ==> tree_nodes@[i] == chunk_ref(first, count, i),
            decreases num_layers - offset,
        {
            let remaining: u32 = num_layers - offset;
            let chunk_size: u32 = if remaining < MAX_PAINT_COLR_LAYER_COUNT as u32 {
                remaining
            } else {
                MAX_PAINT_COLR_LAYER_COUNT as u32
            };
            tree_nodes.push(Paint::colr_layers(chunk_size as u8, first_layer_index + offset));
            offset = offset + chunk_size;
        }
        proof {
            assert(tree_nodes.len() == chunk_count(count));
            assert(tree_nodes@ =~= chunk_refs(first, count));
            lemma_tree_nodes_monotone(0, chunk_count(count));
        }
        let num_tree_nodes: u32 = tree_nodes.len() as u32;
        let tree_first_index: u32 = self.layers.len() as u32;
        let ghost before = self.layers@;
        self.layers.append(&mut tree_nodes);
        proof {
            assert(self.layers@ == before + chunk_refs(first, count));
            assert(self.layers@.subrange(0, before.len() as int) == before);
            if let Some(pool) = self@.reuse_pool {
                lemma_pool_matches_longer(pool, before, self.layers@);
            }
        }
        self.build_n_ary_tree_internal(tree_first_index, num_tree_nodes)
    }

    /// Takes `paints` as one group of layers, in this order, and returns the
    /// one paint that stands for the group.
    ///
    /// An empty group is answered by a reference to no layers, a single paint
    /// by itself; neither changes the list. A longer group is first reduced,
    /// where reuse is allowed: runs that are remembered give way to
    /// references. If that leaves one reference, the whole group was written
    /// before and nothing is written now. Else the reduced group goes to the
    /// end of the list, its runs are remembered, and it is answered by one
    /// reference, or by the root of a tree where it holds more than 255 layers.
    ///
    /// The list must have room for the group and its tree, which
    /// [`LayerListBuilder::has_room_for`] tells. Where every reference in the
    /// list and in the group points backwards, the answer expands to what
    /// the group's paints expand to.
    pub fn add_paint_layers(&mut self, paints: Vec<Paint>) -> (paint: Paint)
        requires
            old(self).wf(),
            old(self)@.layers.len() + paints.len() + tree_node_count(paints.len() as int) <= u32::MAX,
        ensures
            final(self).wf(),
            (final(self)@, paint) == after_add(old(self)@, paints@),
            extends(final(self)@.layers, old(self)@.layers),
            paints@.len() <= 1 ==> final(self)@ == old(self)@,
            is_closed(old(self)@.layers) && all_within(paints@, old(self)@.layers.len() as int)
                ==> is_closed(final(self)@.layers) && expand(final(self)@.layers, paint)
                == expand_all(old(self)@.layers, paints@),
    {
        proof {
            theorem_list_only_grows(self@, paints@);
            if is_closed(self@.layers) && all_within(paints@, self@.layers.len() as int) {
                theorem_round_trip(self@, paints@);
            }
        }
        if paints.len() == 0 {
            return Paint::colr_layers(0, 0);
        }
        if paints.len() == 1 {
            return paints[0];
        }
        let ghost given = paints@;
        let ghost state = self@;
        let layers = match &self.reuse_cache {
            Some(cache) => cache.try_reuse(paints),
            None => paints,
        };
        proof {
            assert(layers@ == reduced(state, given));
            if let Some(pool) = state.reuse_pool {
                lemma_reuse_fixpoint_len(pool, given);
            }
            lemma_tree_nodes_monotone(layers.len() as int, given.len() as int);
        }
        if layers.len() == 1 {
            match layers[0] {
                Paint::ColrLayers { .. } => {
                    return layers[0];
                },
                Paint::Opaque(_) => {},
            }
        }
        let first_layer_index: u32 = self.layers.len() as u32;
        let num_layers: u32 = layers.len() as u32;
        append_all(&mut self.layers, &layers);
        match &mut self.reuse_cache {
            Some(cache) => {
                cache.register(&layers, first_layer_index);
            },
            None => {},
        }
        proof {
            assert(self.layers@.subrange(0, state.layers.len() as int) == state.layers);
            if let Some(pool) = state.reuse_pool {
                lemma_registered_matches(pool, state.layers, layers@);
            }
        }
        if num_layers > MAX_PAINT_COLR_LAYER_COUNT as u32 {
            self.build_n_ary_tree_internal(first_layer_index, num_layers)
        } else if num_layers == 1 {
            layers[0]
        } else {
            Paint::colr_layers(num_layers as u8, first_layer_index)
        }
    }

    /// The number of layers written so far.
    pub fn len(&self) -> (len: usize)
        ensures
            len == self@.layers.len(),
    {
        self.layers.len()
    }

    /// Whether a group of `num_paints` paints can be handed in: whether the
    /// list, with the group and the tree over it, stays within the table's 32
    /// bits.
    pub fn has_room_for(&self, num_paints: usize) -> (fits: bool)
        requires
            self.wf(),
        ensures
            fits == (self@.layers.len() + num_paints + tree_node_count(num_paints as int) <= u32::MAX),
    {
        proof {
            lemma_tree_nodes_bounded(num_paints as int);
        }
        if num_paints > u32::MAX as usize {
            return false;
        }
        let mut count: u64 = num_paints as u64;
        let mut nodes: u64 = 0;
        while count > 255
            invariant
                count <= num_paints <= u32::MAX,
                nodes + tree_node_count(count as int) == tree_node_count(num_paints as int),
                tree_node_count(num_paints as int) <= num_paints,
            decreases count,
        {
            proof {
                lemma_tree_nodes_bounded(chunk_count(count as int));
            }
            count = (count + 254) / 255;
            nodes = nodes + count;
        }
        self.layers.len() as u64 + num_paints as u64 + nodes <= u32::MAX as u64
    }

    /// The finished list, or `None` if nothing was ever written.
    pub fn build(self) -> (list: Option<LayerList>)
        requires
            self.wf(),
        ensures
            self@.layers.len() == 0 <==> list is None,
            list matches Some(list) ==> list.paints@ == self@.layers && list.num_layers
                == self@.layers.len(),
    {
        if self.layers.len() == 0 {
            return None;
        }
        Some(LayerList { num_layers: self.layers.len() as u32, paints: self.layers })
    }
}

} // verus!
