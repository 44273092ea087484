//! What a paint stands for: the layers it expands to against a layer list.
//!
//! A reference stored in the list can only stand for layers that were written
//! before it, so expansion looks backwards and always ends.

use crate::paint::Paint;
use crate::ranges::MAX_REUSE_LEN;
use crate::reuse::{
    first_match, has_match, is_first_match, lemma_reuse_step_shorter, reuse_fixpoint, reuse_ref,
    reuse_step,
};
use vstd::prelude::*;

verus! {

/// Whether `paint`, if it is a reference, refers only to layers below `bound`.
pub open spec fn within(paint: Paint, bound: int) -> bool {
    paint matches Paint::ColrLayers { num_layers, first_layer_index } ==> first_layer_index
        + num_layers <= bound
}

/// Whether every reference among `paints` refers only to layers below `bound`.
pub open spec fn all_within(paints: Seq<Paint>, bound: int) -> bool {
    forall|i: int| 0 <= i < paints.len() ==> within(#[trigger] paints[i], bound)
}

/// Whether every reference stored in `list` refers only to layers before itself.
pub open spec fn is_closed(list: Seq<Paint>) -> bool {
    forall|i: int| 0 <= i < list.len() ==> within(#[trigger] list[i], i)
}

/// The layers that the paint stored at index `i` of `list` stands for: itself,
/// unless it is a reference to layers before it, which are expanded in turn.
pub open spec fn expand_at(list: Seq<Paint>, i: int) -> Seq<Paint>
    decreases i, 1int,
{
    if 0 <= i < list.len() {
        match list[i] {
            Paint::ColrLayers { num_layers, first_layer_index } => if first_layer_index
                + num_layers <= i {
                expand_run(list, first_layer_index as int, first_layer_index + num_layers)
            } else {
                seq![list[i]]
            },
            Paint::Opaque(_) => seq![list[i]],
        }
    } else {
        Seq::empty()
    }
}

/// The layers that the entries `lo..hi` of `list` stand for, in order.
pub open spec fn expand_run(list: Seq<Paint>, lo: int, hi: int) -> Seq<Paint>
    decreases hi, 0int,
{
    if 0 <= lo < hi {
        expand_run(list, lo, hi - 1) + expand_at(list, hi - 1)
    } else {
        Seq::empty()
    }
}

/// The layers that `paint` stands for against `list`: itself, unless it is a
/// reference into the list, which is resolved all the way down.
pub open spec fn expand(list: Seq<Paint>, paint: Paint) -> Seq<Paint> {
    match paint {
        Paint::ColrLayers { num_layers, first_layer_index } => if first_layer_index + num_layers
            <= list.len() {
            expand_run(list, first_layer_index as int, first_layer_index + num_layers)
        } else {
            seq![paint]
        },
        Paint::Opaque(_) => seq![paint],
    }
}

/// The layers that `paints` stand for against `list`, one after the other.
pub open spec fn expand_all(list: Seq<Paint>, paints: Seq<Paint>) -> Seq<Paint>
    decreases paints.len(),
{
    if paints.len() == 0 {
        Seq::empty()
    } else {
        expand_all(list, paints.drop_last()) + expand(list, paints.last())
    }
}

/// Whether each content in `pool` is a run of two to [`MAX_REUSE_LEN`] layers
/// that sits in `list` at the index that the pool gives for it.
pub open spec fn pool_matches(pool: Map<Seq<Paint>, u32>, list: Seq<Paint>) -> bool {
    forall|content: Seq<Paint>| #[trigger]
        pool.contains_key(content) ==> {
            &&& 2 <= content.len() <= MAX_REUSE_LEN
            &&& pool[content] + content.len() <= list.len()
            &&& list.subrange(pool[content] as int, pool[content] + content.len()) == content
        }
}

/// Whether `list` starts with `prefix`.
pub open spec fn extends(list: Seq<Paint>, prefix: Seq<Paint>) -> bool {
    prefix.len() <= list.len() && list.subrange(0, prefix.len() as int) == prefix
}

/// Appending to a list does not change what its entries stand for.
pub proof fn lemma_expand_at_stable(list: Seq<Paint>, longer: Seq<Paint>, i: int)
    requires
        extends(longer, list),
        0 <= i < list.len(),
    ensures
        expand_at(longer, i) == expand_at(list, i),
    decreases i, 1int,
{
    assert(longer[i] == longer.subrange(0, list.len() as int)[i]);
    match list[i] {
        Paint::ColrLayers { num_layers, first_layer_index } => {
            if first_layer_index + num_layers <= i {
                lemma_expand_run_stable(
                    list,
                    longer,
                    first_layer_index as int,
                    first_layer_index + num_layers,
                );
            }
        },
        Paint::Opaque(_) => {},
    }
}

/// Appending to a list does not change what a run of its entries stands for.
pub proof fn lemma_expand_run_stable(list: Seq<Paint>, longer: Seq<Paint>, lo: int, hi: int)
    requires
        extends(longer, list),
        hi <= list.len(),
    ensures
        expand_run(longer, lo, hi) == expand_run(list, lo, hi),
    decreases hi, 0int,
{
    if 0 <= lo < hi {
        lemma_expand_run_stable(list, longer, lo, hi - 1);
        lemma_expand_at_stable(list, longer, hi - 1);
    }
}

/// Appending to a list does not change what a paint stands for, if the paint
/// refers only to what the list held before.
pub proof fn lemma_expand_stable(list: Seq<Paint>, longer: Seq<Paint>, paint: Paint)
    requires
        extends(longer, list),
        within(paint, list.len() as int),
    ensures
        expand(longer, paint) == expand(list, paint),
{
    match paint {
        Paint::ColrLayers { num_layers, first_layer_index } => {
            lemma_expand_run_stable(
                list,
                longer,
                first_layer_index as int,
                first_layer_index + num_layers,
            );
        },
        Paint::Opaque(_) => {},
    }
}

/// The same for a sequence of paints.
pub proof fn lemma_expand_all_stable(list: Seq<Paint>, longer: Seq<Paint>, paints: Seq<Paint>)
    requires
        extends(longer, list),
        all_within(paints, list.len() as int),
    ensures
        expand_all(longer, paints) == expand_all(list, paints),
    decreases paints.len(),
{
    if paints.len() > 0 {
        assert(within(paints[paints.len() - 1], list.len() as int));
        assert(all_within(paints.drop_last(), list.len() as int)) by {
            assert forall|i: int| 0 <= i < paints.drop_last().len() implies within(
                #[trigger] paints.drop_last()[i],
                list.len() as int,
            ) by {
                assert(paints.drop_last()[i] == paints[i]);
            }
        }
        lemma_expand_all_stable(list, longer, paints.drop_last());
        lemma_expand_stable(list, longer, paints.last());
    }
}

/// A run expands to what its two parts expand to.
pub proof fn lemma_expand_run_split(list: Seq<Paint>, lo: int, mid: int, hi: int)
    requires
        0 <= lo <= mid <= hi,
    ensures
        expand_run(list, lo, hi) == expand_run(list, lo, mid) + expand_run(list, mid, hi),
    decreases hi,
{
    if mid == hi {
        assert(expand_run(list, lo, mid) + Seq::<Paint>::empty() == expand_run(list, lo, mid));
    } else {
        lemma_expand_run_split(list, lo, mid, hi - 1);
        assert((expand_run(list, lo, mid) + expand_run(list, mid, hi - 1)) + expand_at(list, hi - 1)
            == expand_run(list, lo, mid) + (expand_run(list, mid, hi - 1) + expand_at(
            list,
            hi - 1,
        )));
    }
}

/// In a closed list an entry stands for what the paint it holds stands for.
pub proof fn lemma_expand_at_closed(list: Seq<Paint>, i: int)
    requires
        is_closed(list),
        0 <= i < list.len(),
    ensures
        expand_at(list, i) == expand(list, list[i]),
{
    assert(within(list[i], i));
}

/// In a closed list a run stands for what the paints it holds stand for.
pub proof fn lemma_expand_run_closed(list: Seq<Paint>, lo: int, hi: int)
    requires
        is_closed(list),
        0 <= lo <= hi <= list.len(),
    ensures
        expand_run(list, lo, hi) == expand_all(list, list.subrange(lo, hi)),
    decreases hi,
{
    if lo < hi {
        lemma_expand_run_closed(list, lo, hi - 1);
        lemma_expand_at_closed(list, hi - 1);
        assert(list.subrange(lo, hi).drop_last() == list.subrange(lo, hi - 1));
        assert(list.subrange(lo, hi).last() == list[hi - 1]);
    } else {
        assert(list.subrange(lo, hi).len() == 0);
    }
}

/// Two sequences one after the other expand to their expansions one after the other.
pub proof fn lemma_expand_all_concat(list: Seq<Paint>, a: Seq<Paint>, b: Seq<Paint>)
    ensures
        expand_all(list, a + b) == expand_all(list, a) + expand_all(list, b),
    decreases b.len(),
{
    if b.len() == 0 {
        assert(a + b == a);
        assert(expand_all(list, a) + Seq::<Paint>::empty() == expand_all(list, a));
    } else {
        assert((a + b).drop_last() == a + b.drop_last());
        assert((a + b).last() == b.last());
        lemma_expand_all_concat(list, a, b.drop_last());
        assert((expand_all(list, a) + expand_all(list, b.drop_last())) + expand(list, b.last())
            == expand_all(list, a) + (expand_all(list, b.drop_last()) + expand(list, b.last())));
    }
}

/// One paint expands, as a sequence, to what it expands to alone.
pub proof fn lemma_expand_all_single(list: Seq<Paint>, paint: Paint)
    ensures
        expand_all(list, seq![paint]) == expand(list, paint),
{
    reveal_with_fuel(expand_all, 2);
    let one = seq![paint];
    assert(one.drop_last().len() == 0);
    assert(one.last() == paint);
    assert(Seq::<Paint>::empty() + expand(list, paint) == expand(list, paint));
}

/// A replaced window stands for what the window stood for.
pub proof fn lemma_reuse_step_expands(
    pool: Map<Seq<Paint>, u32>,
    list: Seq<Paint>,
    layers: Seq<Paint>,
)
    requires
        is_closed(list),
        pool_matches(pool, list),
        all_within(layers, list.len() as int),
        has_match(pool, layers),
    ensures
        expand_all(list, reuse_step(pool, layers)) == expand_all(list, layers),
        all_within(reuse_step(pool, layers), list.len() as int),
{
    let (lo, hi) = first_match(pool, layers);
    assert(is_first_match(pool, layers, lo, hi));
    let content = layers.subrange(lo, hi);
    let reference = reuse_ref(pool, layers, lo, hi);
    let at = pool[content] as int;
    let front = layers.subrange(0, lo);
    let back = layers.subrange(hi, layers.len() as int);
    let replaced = reuse_step(pool, layers);
    assert(pool.contains_key(content));
    assert(content.len() == hi - lo);
    assert(expand(list, reference) == expand_all(list, content)) by {
        lemma_expand_run_closed(list, at, at + content.len());
    }
    assert(expand_all(list, front.push(reference)) == expand_all(list, front) + expand(
        list,
        reference,
    )) by {
        assert(front.push(reference).drop_last() == front);
    }
    lemma_expand_all_concat(list, front.push(reference), back);
    lemma_expand_all_concat(list, front, content);
    lemma_expand_all_concat(list, front + content, back);
    assert(layers == (front + content) + back);
    assert forall|i: int| 0 <= i < replaced.len() implies within(
        #[trigger] replaced[i],
        list.len() as int,
    ) by {
        if i < lo {
            assert(replaced[i] == layers[i]);
        } else if i > lo {
            assert(replaced[i] == layers[i - 1 + (hi - lo)]);
        }
    }
}

/// Replacing runs by references to their earlier copies does not change what
/// the sequence stands for.
pub proof fn lemma_reuse_expands(pool: Map<Seq<Paint>, u32>, list: Seq<Paint>, layers: Seq<Paint>)
    requires
        is_closed(list),
        pool_matches(pool, list),
        all_within(layers, list.len() as int),
    ensures
        expand_all(list, reuse_fixpoint(pool, layers)) == expand_all(list, layers),
        all_within(reuse_fixpoint(pool, layers), list.len() as int),
    decreases layers.len(),
{
    if has_match(pool, layers) {
        lemma_reuse_step_shorter(pool, layers);
        lemma_reuse_step_expands(pool, list, layers);
        lemma_reuse_expands(pool, list, reuse_step(pool, layers));
    }
}

/// Writes what the entry at index `i` of `list` stands for to the end of `out`.
fn push_expanded_at(list: &Vec<Paint>, i: usize, out: &mut Vec<Paint>)
    requires
        i < list.len(),
    ensures
        final(out)@ == old(out)@ + expand_at(list@, i as int),
    decreases i, 1int,
{
    match list[i] {
        Paint::ColrLayers { num_layers, first_layer_index } => {
            if first_layer_index as u64 + num_layers as u64 <= i as u64 {
                push_expanded_run(
                    list,
                    first_layer_index as usize,
                    first_layer_index as usize + num_layers as usize,
                    out,
                );
            } else {
                out.push(list[i]);
                proof {
                    assert(out@ =~= old(out)@ + seq![list@[i as int]]);
                }
            }
        },
        Paint::Opaque(_) => {
            out.push(list[i]);
            proof {
                assert(out@ =~= old(out)@ + seq![list@[i as int]]);
            }
        },
    }
}

/// Writes what the entries `lo..hi` of `list` stand for to the end of `out`.
fn push_expanded_run(list: &Vec<Paint>, lo: usize, hi: usize, out: &mut Vec<Paint>)
    requires
        lo <= hi <= list.len(),
    ensures
        final(out)@ == old(out)@ + expand_run(list@, lo as int, hi as int),
    decreases hi, 0int,
{
    let mut i: usize = lo;
    proof {
        assert(out@ =~= old(out)@ + expand_run(list@, lo as int, lo as int));
    }
    while i < hi
        invariant
            lo <= i <= hi <= list.len(),
            out@ == old(out)@ + expand_run(list@, lo as int, i as int),
        decreases hi - i,
    {
        let ghost before = out@;
        push_expanded_at(list, i, out);
        proof {
            assert(out@ =~= old(out)@ + expand_run(list@, lo as int, i + 1));
        }
        i = i + 1;
    }
}

/// The layers that `paint` stands for against `list`: see [`expand`].
pub fn expand_paint(list: &Vec<Paint>, paint: Paint) -> (layers: Vec<Paint>)
    ensures
        layers@ == expand(list@, paint),
{
    let mut layers: Vec<Paint> = Vec::new();
    match paint {
        Paint::ColrLayers { num_layers, first_layer_index } => {
            if first_layer_index as u64 + num_layers as u64 <= list.len() as u64 {
                push_expanded_run(
                    list,
                    first_layer_index as usize,
                    first_layer_index as usize + num_layers as usize,
                    &mut layers,
                );
                proof {
                    assert(layers@ =~= expand(list@, paint));
                }
            } else {
                layers.push(paint);
                proof {
                    assert(layers@ =~= seq![paint]);
                }
            }
        },
        Paint::Opaque(_) => {
            layers.push(paint);
            proof {
                assert(layers@ =~= seq![paint]);
            }
        },
    }
    layers
}

} // verus!
