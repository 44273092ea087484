//! What holds of the layer list builder whatever it is given.

use crate::expansion::{
    all_within, expand, expand_all, expand_at, expand_run, extends, is_closed,
    lemma_expand_all_single, lemma_expand_all_stable, lemma_expand_run_closed,
    lemma_expand_run_split, lemma_expand_run_stable, lemma_expand_stable, lemma_reuse_expands,
    pool_matches, within,
};
use crate::layer_list::{
    after_add, after_append, chunk_count, chunk_ref, chunk_refs, is_complete_reuse,
    lemma_pool_matches_longer, lemma_registered_matches, lemma_reuse_fixpoint_len,
    lemma_tree_nodes_monotone, packed, reduced, tree_node_count, BuilderState,
};
use crate::paint::Paint;
use crate::reuse::{
    first_match, has_match, is_candidate, is_first_match, lemma_first_match_unique,
    lemma_reuse_step_shorter, occurs, occurs_at, registered, reuse_fixpoint, reuse_ref,
    reuse_step, tried_before,
};
use vstd::prelude::*;

verus! {

/// A list that starts with a list that starts with a third starts with the third.
pub proof fn lemma_extends_transitive(a: Seq<Paint>, b: Seq<Paint>, c: Seq<Paint>)
    requires
        extends(b, a),
        extends(c, b),
    ensures
        extends(c, a),
{
    let x = c.subrange(0, a.len() as int);
    assert forall|i: int| 0 <= i < a.len() implies #[trigger] x[i] == a[i] by {
        assert(c[i] == c.subrange(0, b.len() as int)[i]);
        assert(b[i] == b.subrange(0, a.len() as int)[i]);
    }
    assert(x =~= a);
}

/// The references to the first `j` chunks of a run stand for the layers of
/// those chunks.
proof fn lemma_chunks_expand(list: Seq<Paint>, at: int, first: int, count: int, j: int)
    requires
        0 <= first,
        count > 255,
        first + count <= at,
        first + count <= u32::MAX,
        0 <= j <= chunk_count(count),
        at + chunk_count(count) <= list.len(),
        forall|i: int| 0 <= i < chunk_count(count) ==> list[at + i] == chunk_ref(first, count, i),
    ensures
        expand_run(list, at, at + j) == expand_run(
            list,
            first,
            first + (if 255 * j < count {
                255 * j
            } else {
                count
            }),
        ),
    decreases j,
{
    if j > 0 {
        lemma_chunks_expand(list, at, first, count, j - 1);
        let start = first + 255 * (j - 1);
        let end = first + (if 255 * j < count {
            255 * j
        } else {
            count
        });
        assert(list[at + (j - 1)] == chunk_ref(first, count, j - 1));
        assert(expand_at(list, at + j - 1) == expand_run(list, start, end));
        lemma_expand_run_split(list, first, start, end);
        if j == 1 {
            assert(expand_run(list, at, at) == Seq::<Paint>::empty());
            assert(Seq::<Paint>::empty() + expand_run(list, start, end) == expand_run(
                list,
                start,
                end,
            ));
        }
    }
}

/// A tree over a run of a closed list stands for the run, and leaves the list
/// closed.
pub proof fn lemma_packed_expands(layers: Seq<Paint>, first: int, count: int)
    requires
        is_closed(layers),
        0 <= first,
        1 <= count,
        first + count <= layers.len(),
        layers.len() + tree_node_count(count) <= u32::MAX,
    ensures
        is_closed(packed(layers, first, count).0),
        within(packed(layers, first, count).1, packed(layers, first, count).0.len() as int),
        expand(packed(layers, first, count).0, packed(layers, first, count).1) == expand_run(
            layers,
            first,
            first + count,
        ),
    decreases count,
{
    if count > 255 {
        let at = layers.len() as int;
        let longer = layers + chunk_refs(first, count);
        let k = chunk_count(count);
        lemma_tree_nodes_monotone(0, k);
        assert(longer.subrange(0, at) == layers);
        assert forall|i: int| 0 <= i < longer.len() implies within(#[trigger] longer[i], i) by {
            if i < at {
                assert(longer[i] == layers[i]);
            } else {
                assert(longer[i] == chunk_ref(first, count, i - at));
            }
        }
        assert forall|i: int| 0 <= i < k implies longer[at + i] == chunk_ref(first, count, i) by {}
        lemma_chunks_expand(longer, at, first, count, k);
        lemma_expand_run_stable(layers, longer, first, first + count);
        lemma_packed_expands(longer, at, k);
    }
}

/// Whether none of `paints` is a reference.
pub open spec fn is_plain(paints: Seq<Paint>) -> bool {
    forall|i: int| 0 <= i < paints.len() ==> #[trigger] paints[i] is Opaque
}

/// Paints that are no references stand for themselves.
pub proof fn lemma_expand_all_plain(list: Seq<Paint>, paints: Seq<Paint>)
    requires
        is_plain(paints),
    ensures
        expand_all(list, paints) == paints,
        all_within(paints, 0),
    decreases paints.len(),
{
    if paints.len() > 0 {
        assert(is_plain(paints.drop_last())) by {
            let front = paints.drop_last();
            assert forall|i: int| 0 <= i < front.len() implies #[trigger] front[i] is Opaque by {
                assert(front[i] == paints[i]);
            }
        }
        lemma_expand_all_plain(list, paints.drop_last());
        assert(paints.last() is Opaque);
        assert(paints.drop_last() + seq![paints.last()] == paints);
    } else {
        assert(paints == Seq::<Paint>::empty());
    }
    assert forall|i: int| 0 <= i < paints.len() implies within(#[trigger] paints[i], 0) by {
        assert(paints[i] is Opaque);
    }
}

/// Round trip. Take a builder whose stored references all point backwards,
/// and a group whose references point into the list as it stands. Then the
/// paint that the builder answers with expands, against the list as it is
/// afterwards, to exactly what the group's own paints expand to; with reuse
/// allowed or not. The list only grows, and its references still point
/// backwards.
pub proof fn theorem_round_trip(state: BuilderState, paints: Seq<Paint>)
    requires
        state.valid(),
        is_closed(state.layers),
        all_within(paints, state.layers.len() as int),
        state.layers.len() + paints.len() + tree_node_count(paints.len() as int) <= u32::MAX,
    ensures
        after_add(state, paints).0.valid(),
        is_closed(after_add(state, paints).0.layers),
        extends(after_add(state, paints).0.layers, state.layers),
        within(after_add(state, paints).1, after_add(state, paints).0.layers.len() as int),
        expand(after_add(state, paints).0.layers, after_add(state, paints).1) == expand_all(
            state.layers,
            paints,
        ),
        is_plain(paints) ==> expand(after_add(state, paints).0.layers, after_add(state, paints).1)
            == paints,
        after_add(state, paints).0.layers.len() <= state.layers.len() + paints.len() + tree_node_count(
            paints.len() as int,
        ),
{
    lemma_tree_nodes_monotone(0, paints.len() as int);
    let list = state.layers;
    assert(list.subrange(0, list.len() as int) == list);
    if is_plain(paints) {
        lemma_expand_all_plain(list, paints);
    }
    if paints.len() == 0 {
        assert(expand_run(list, 0, 0) == Seq::<Paint>::empty());
    } else if paints.len() == 1 {
        assert(paints == seq![paints[0]]);
        lemma_expand_all_single(list, paints[0]);
    } else {
        let layers = reduced(state, paints);
        match state.reuse_pool {
            Some(pool) => {
                lemma_reuse_expands(pool, list, paints);
                lemma_reuse_fixpoint_len(pool, paints);
            },
            None => {},
        }
        lemma_tree_nodes_monotone(layers.len() as int, paints.len() as int);
        if is_complete_reuse(layers) {
            assert(layers == seq![layers[0]]);
            lemma_expand_all_single(list, layers[0]);
        } else {
            lemma_append_expands(state, layers);
        }
    }
}

/// The round trip for a group that is written to the end of the list.
proof fn lemma_append_expands(state: BuilderState, layers: Seq<Paint>)
    requires
        state.valid(),
        is_closed(state.layers),
        all_within(layers, state.layers.len() as int),
        layers.len() >= 1,
        state.layers.len() + layers.len() + tree_node_count(layers.len() as int) <= u32::MAX,
    ensures
        after_append(state, layers).0.valid(),
        is_closed(after_append(state, layers).0.layers),
        extends(after_append(state, layers).0.layers, state.layers),
        within(after_append(state, layers).1, after_append(state, layers).0.layers.len() as int),
        expand(after_append(state, layers).0.layers, after_append(state, layers).1) == expand_all(
            state.layers,
            layers,
        ),
        after_append(state, layers).0.layers.len() == state.layers.len() + layers.len()
            + tree_node_count(layers.len() as int),
{
    let list = state.layers;
    let first = list.len() as int;
    let appended = list + layers;
    lemma_tree_nodes_monotone(0, layers.len() as int);
    assert(appended.subrange(0, first) == list);
    assert(appended.subrange(first, first + layers.len()) == layers);
    assert forall|i: int| 0 <= i < appended.len() implies within(#[trigger] appended[i], i) by {
        if i < first {
            assert(appended[i] == list[i]);
        } else {
            assert(appended[i] == layers[i - first]);
            assert(within(layers[i - first], first));
        }
    }
    if let Some(pool) = state.reuse_pool {
        lemma_registered_matches(pool, list, layers);
    }
    lemma_expand_run_closed(appended, first, first + layers.len());
    lemma_expand_all_stable(list, appended, layers);
    if layers.len() > 255 {
        lemma_packed_expands(appended, first, layers.len() as int);
        lemma_packed_grows(appended, first, layers.len() as int);
        let (with_tree, root) = packed(appended, first, layers.len() as int);
        lemma_extends_transitive(list, appended, with_tree);
        if let Some(pool) = state.reuse_pool {
            lemma_pool_matches_longer(
                registered(pool, layers, first as u32),
                appended,
                with_tree,
            );
        }
    } else if layers.len() == 1 {
        assert(layers == seq![layers[0]]);
        lemma_expand_all_single(list, layers[0]);
        lemma_expand_stable(list, appended, layers[0]);
    } else {
    }
}

/// A builder that has been given nothing yet.
pub open spec fn fresh(allow_layer_reuse: bool) -> BuilderState {
    BuilderState {
        layers: Seq::empty(),
        reuse_pool: if allow_layer_reuse {
            Some(Map::empty())
        } else {
            None
        },
    }
}

/// The state after the groups `calls` have been handed in one after the
/// other, and the paints that the builder answered with.
pub open spec fn after_calls(start: BuilderState, calls: Seq<Seq<Paint>>) -> (
    BuilderState,
    Seq<Paint>,
)
    decreases calls.len(),
{
    if calls.len() == 0 {
        (start, Seq::empty())
    } else {
        let (state, answers) = after_calls(start, calls.drop_last());
        let (next, paint) = after_add(state, calls.last());
        (next, answers.push(paint))
    }
}

/// The most layers that the groups `calls` can add to a list.
pub open spec fn calls_size(calls: Seq<Seq<Paint>>) -> int
    decreases calls.len(),
{
    if calls.len() == 0 {
        0
    } else {
        calls_size(calls.drop_last()) + calls.last().len() + tree_node_count(calls.last().len() as int)
    }
}

/// Whether none of the groups holds a reference.
pub open spec fn all_plain(calls: Seq<Seq<Paint>>) -> bool {
    forall|k: int| 0 <= k < calls.len() ==> is_plain(#[trigger] calls[k])
}

proof fn lemma_after_calls(allow_layer_reuse: bool, calls: Seq<Seq<Paint>>)
    requires
        all_plain(calls),
        calls_size(calls) <= u32::MAX,
    ensures
        after_calls(fresh(allow_layer_reuse), calls).0.valid(),
        is_closed(after_calls(fresh(allow_layer_reuse), calls).0.layers),
        after_calls(fresh(allow_layer_reuse), calls).0.layers.len() <= calls_size(calls),
        0 <= calls_size(calls),
        after_calls(fresh(allow_layer_reuse), calls).1.len() == calls.len(),
        forall|k: int|
            0 <= k < calls.len() ==> within(
                #[trigger] after_calls(fresh(allow_layer_reuse), calls).1[k],
                after_calls(fresh(allow_layer_reuse), calls).0.layers.len() as int,
            ) && expand(
                after_calls(fresh(allow_layer_reuse), calls).0.layers,
                after_calls(fresh(allow_layer_reuse), calls).1[k],
            ) == calls[k],
    decreases calls.len(),
{
    let start = fresh(allow_layer_reuse);
    if calls.len() > 0 {
        let earlier = calls.drop_last();
        let group = calls.last();
        assert(all_plain(earlier)) by {
            assert forall|k: int| 0 <= k < earlier.len() implies is_plain(
                #[trigger] earlier[k],
            ) by {
                assert(earlier[k] == calls[k]);
            }
        }
        lemma_tree_nodes_monotone(0, group.len() as int);
        lemma_after_calls(allow_layer_reuse, earlier);
        let (state, answers) = after_calls(start, earlier);
        let (next, paint) = after_add(state, group);
        assert(is_plain(group));
        lemma_expand_all_plain(state.layers, group);
        assert(all_within(group, state.layers.len() as int)) by {
            assert forall|i: int| 0 <= i < group.len() implies within(
                #[trigger] group[i],
                state.layers.len() as int,
            ) by {
                assert(within(group[i], 0));
            }
        }
        theorem_round_trip(state, group);
        let all = answers.push(paint);
        assert forall|k: int| 0 <= k < calls.len() implies within(
            #[trigger] all[k],
            next.layers.len() as int,
        ) && expand(next.layers, all[k]) == calls[k] by {
            if k < earlier.len() {
                assert(all[k] == answers[k]);
                assert(earlier[k] == calls[k]);
                lemma_expand_stable(state.layers, next.layers, answers[k]);
            }
        }
    } else {
        assert(pool_matches(Map::<Seq<Paint>, u32>::empty(), start.layers));
    }
}

/// Round trip over a whole session. Start with a new builder, with reuse
/// allowed or not, and hand in any groups of paints that are no references.
/// Then each answer, expanded against the list as it is at the end, gives
/// back exactly the group it was the answer to.
pub proof fn theorem_round_trip_of_calls(
    allow_layer_reuse: bool,
    calls: Seq<Seq<Paint>>,
    k: int,
)
    requires
        all_plain(calls),
        calls_size(calls) <= u32::MAX,
        0 <= k < calls.len(),
    ensures
        expand(
            after_calls(fresh(allow_layer_reuse), calls).0.layers,
            after_calls(fresh(allow_layer_reuse), calls).1[k],
        ) == calls[k],
{
    lemma_after_calls(allow_layer_reuse, calls);
}

/// Reuse changes how much is written, never what it means. Hand the same
/// groups of paints that are no references to two new builders, one with
/// reuse allowed and one without. Then the two answers to each group expand,
/// each against its own final list, to the same layers.
pub proof fn theorem_reuse_equivalence(calls: Seq<Seq<Paint>>, k: int)
    requires
        all_plain(calls),
        calls_size(calls) <= u32::MAX,
        0 <= k < calls.len(),
    ensures
        expand(after_calls(fresh(true), calls).0.layers, after_calls(fresh(true), calls).1[k])
            == expand(
            after_calls(fresh(false), calls).0.layers,
            after_calls(fresh(false), calls).1[k],
        ),
{
    lemma_after_calls(true, calls);
    lemma_after_calls(false, calls);
}

/// Whether `paint` is one of `paints`, or a reference to at least one layer.
pub open spec fn given_or_nonempty(paint: Paint, paints: Seq<Paint>) -> bool {
    paints.contains(paint) || paint.is_nonempty_ref()
}

/// What replacing runs leaves is made of the given paints and of references
/// to at least two layers each.
pub proof fn lemma_reuse_keeps(pool: Map<Seq<Paint>, u32>, layers: Seq<Paint>)
    ensures
        forall|i: int|
            0 <= i < reuse_fixpoint(pool, layers).len() ==> given_or_nonempty(
                #[trigger] reuse_fixpoint(pool, layers)[i],
                layers,
            ),
    decreases layers.len(),
{
    if has_match(pool, layers) {
        lemma_reuse_step_shorter(pool, layers);
        let (lo, hi) = first_match(pool, layers);
        assert(is_first_match(pool, layers, lo, hi));
        let next = reuse_step(pool, layers);
        lemma_reuse_keeps(pool, next);
        let done = reuse_fixpoint(pool, layers);
        assert(done == reuse_fixpoint(pool, next));
        assert forall|i: int| 0 <= i < done.len() implies given_or_nonempty(
            #[trigger] done[i],
            layers,
        ) by {
            assert(given_or_nonempty(reuse_fixpoint(pool, next)[i], next));
            if next.contains(done[i]) {
                let j = choose|j: int| 0 <= j < next.len() && next[j] == done[i];
                if j < lo {
                    assert(next[j] == layers[j]);
                } else if j > lo {
                    assert(next[j] == layers[j - 1 + (hi - lo)]);
                } else {
                    assert(next[j] == reuse_ref(pool, layers, lo, hi));
                }
            }
        }
    } else {
        assert forall|i: int| 0 <= i < layers.len() implies given_or_nonempty(
            #[trigger] layers[i],
            layers,
        ) by {}
    }
}

/// The list that a tree was written to starts with the list as it was, and
/// has grown by the tree's nodes.
pub proof fn lemma_packed_grows(layers: Seq<Paint>, first: int, count: int)
    requires
        0 <= count,
    ensures
        extends(packed(layers, first, count).0, layers),
        packed(layers, first, count).0.len() == layers.len() + tree_node_count(count),
        packed(layers, first, count).1 is ColrLayers,
        forall|i: int|
            layers.len() <= i < packed(layers, first, count).0.len() ==> (#[trigger] packed(
                layers,
                first,
                count,
            ).0[i]).is_nonempty_ref(),
        1 <= count <= u32::MAX ==> packed(layers, first, count).1.is_nonempty_ref(),
    decreases count,
{
    if count <= 255 {
        assert(layers.subrange(0, layers.len() as int) == layers);
    } else {
        let at = layers.len() as int;
        let longer = layers + chunk_refs(first, count);
        let k = chunk_count(count);
        assert(longer.subrange(0, at) == layers);
        lemma_packed_grows(longer, at, k);
        let (done, root) = packed(longer, at, k);
        lemma_extends_transitive(layers, longer, done);
        assert forall|i: int| layers.len() <= i < done.len() implies (
        #[trigger] done[i]).is_nonempty_ref() by {
            if i < longer.len() {
                assert(done[i] == done.subrange(0, longer.len() as int)[i]);
                assert(longer[i] == chunk_ref(first, count, i - at));
            }
        }
    }
}

/// A valid builder stays valid, and what it has written stays where it is.
pub proof fn theorem_list_only_grows(state: BuilderState, paints: Seq<Paint>)
    requires
        state.valid(),
        state.layers.len() + paints.len() + tree_node_count(paints.len() as int) <= u32::MAX,
    ensures
        after_add(state, paints).0.valid(),
        extends(after_add(state, paints).0.layers, state.layers),
        paints.len() <= 1 ==> after_add(state, paints).0 == state,
{
    let list = state.layers;
    assert(list.subrange(0, list.len() as int) == list);
    lemma_tree_nodes_monotone(0, paints.len() as int);
    if paints.len() >= 2 {
        let layers = reduced(state, paints);
        if let Some(pool) = state.reuse_pool {
            lemma_reuse_fixpoint_len(pool, paints);
        }
        lemma_tree_nodes_monotone(layers.len() as int, paints.len() as int);
        lemma_tree_nodes_monotone(0, layers.len() as int);
        if !is_complete_reuse(layers) {
            let first = list.len() as int;
            let appended = list + layers;
            assert(appended.subrange(0, first) == list);
            if let Some(pool) = state.reuse_pool {
                lemma_registered_matches(pool, list, layers);
            }
            if layers.len() > 255 {
                lemma_packed_grows(appended, first, layers.len() as int);
                let (with_tree, root) = packed(appended, first, layers.len() as int);
                lemma_extends_transitive(list, appended, with_tree);
                if let Some(pool) = state.reuse_pool {
                    lemma_pool_matches_longer(
                        registered(pool, layers, first as u32),
                        appended,
                        with_tree,
                    );
                }
            }
        }
    }
}

/// Bounded references. Whatever a call writes to the list is one of the
/// paints it was given or a reference to at least one layer, and so is its
/// answer; but for the answer to an empty group, which is the reference to no
/// layers at index 0. A count is a byte, so none is above 255.
pub proof fn theorem_bounded_refs(state: BuilderState, paints: Seq<Paint>)
    requires
        state.valid(),
        state.layers.len() + paints.len() + tree_node_count(paints.len() as int) <= u32::MAX,
    ensures
        paints.len() == 0 ==> after_add(state, paints).1 == (Paint::ColrLayers {
            num_layers: 0,
            first_layer_index: 0,
        }),
        paints.len() > 0 ==> given_or_nonempty(after_add(state, paints).1, paints),
        forall|i: int|
            state.layers.len() <= i < after_add(state, paints).0.layers.len()
                ==> given_or_nonempty(#[trigger] after_add(state, paints).0.layers[i], paints),
{
    let list = state.layers;
    lemma_tree_nodes_monotone(0, paints.len() as int);
    if paints.len() == 1 {
        assert(paints[0] == paints[0]);
    } else if paints.len() >= 2 {
        let layers = reduced(state, paints);
        match state.reuse_pool {
            Some(pool) => {
                lemma_reuse_fixpoint_len(pool, paints);
                lemma_reuse_keeps(pool, paints);
            },
            None => {
                assert forall|i: int| 0 <= i < paints.len() implies given_or_nonempty(
                    #[trigger] paints[i],
                    paints,
                ) by {}
            },
        }
        lemma_tree_nodes_monotone(layers.len() as int, paints.len() as int);
        lemma_tree_nodes_monotone(0, layers.len() as int);
        if is_complete_reuse(layers) {
            assert(given_or_nonempty(layers[0], paints));
        } else {
            let first = list.len() as int;
            let appended = list + layers;
            let (next, paint) = after_append(state, layers);
            if layers.len() > 255 {
                lemma_packed_grows(appended, first, layers.len() as int);
            } else if layers.len() == 1 {
                assert(given_or_nonempty(layers[0], paints));
            }
            assert forall|i: int| list.len() <= i < next.layers.len() implies given_or_nonempty(
                #[trigger] next.layers[i],
                paints,
            ) by {
                if i < appended.len() {
                    assert(next.layers[i] == next.layers.subrange(0, appended.len() as int)[i])
                        by {
                        if layers.len() <= 255 {
                            assert(next.layers.subrange(0, appended.len() as int) == appended);
                        }
                    }
                    assert(appended[i] == layers[i - first]);
                    assert(given_or_nonempty(layers[i - first], paints));
                }
            }
        }
    }
}

/// Where replacing runs leaves a single paint of a longer sequence, that
/// paint is a reference to at least two layers.
pub proof fn lemma_reduced_to_one(pool: Map<Seq<Paint>, u32>, layers: Seq<Paint>)
    requires
        layers.len() >= 2,
        reuse_fixpoint(pool, layers).len() == 1,
    ensures
        reuse_fixpoint(pool, layers)[0] is ColrLayers,
        reuse_fixpoint(pool, layers)[0]->num_layers >= 2,
    decreases layers.len(),
{
    lemma_reuse_step_shorter(pool, layers);
    let (lo, hi) = first_match(pool, layers);
    assert(is_first_match(pool, layers, lo, hi));
    let next = reuse_step(pool, layers);
    if next.len() >= 2 {
        lemma_reduced_to_one(pool, next);
    } else {
        assert(next == seq![reuse_ref(pool, layers, lo, hi)]);
        assert(!has_match(pool, next)) by {
            assert forall|l: int, h: int| !is_first_match(pool, next, l, h) by {}
        }
        assert(reuse_fixpoint(pool, next) == next);
    }
}

/// A group of two or more paints is always answered by a reference to at
/// least one layer, never by one of its own paints.
pub proof fn theorem_group_gets_reference(state: BuilderState, paints: Seq<Paint>)
    requires
        state.valid(),
        state.layers.len() + paints.len() + tree_node_count(paints.len() as int) <= u32::MAX,
        paints.len() >= 2,
    ensures
        after_add(state, paints).1.is_nonempty_ref(),
{
    let layers = reduced(state, paints);
    lemma_tree_nodes_monotone(0, paints.len() as int);
    if let Some(pool) = state.reuse_pool {
        lemma_reuse_fixpoint_len(pool, paints);
        if layers.len() == 1 {
            lemma_reduced_to_one(pool, paints);
        }
    }
    lemma_tree_nodes_monotone(layers.len() as int, paints.len() as int);
    lemma_tree_nodes_monotone(0, layers.len() as int);
    if layers.len() > 255 {
        lemma_packed_grows(state.layers + layers, state.layers.len() as int, layers.len() as int);
    }
}

/// First occurrence wins. A content that the pool holds keeps its index,
/// whatever is registered later and wherever.
pub proof fn theorem_first_occurrence_wins(
    pool: Map<Seq<Paint>, u32>,
    layers: Seq<Paint>,
    first_index: u32,
    content: Seq<Paint>,
)
    requires
        pool.contains_key(content),
    ensures
        registered(pool, layers, first_index).contains_key(content),
        registered(pool, layers, first_index)[content] == pool[content],
{
}

/// Registering the same layers a second time, at whatever index, changes
/// nothing.
pub proof fn theorem_register_twice(
    pool: Map<Seq<Paint>, u32>,
    layers: Seq<Paint>,
    first_index: u32,
    second_index: u32,
)
    ensures
        registered(registered(pool, layers, first_index), layers, second_index) == registered(
            pool,
            layers,
            first_index,
        ),
{
    assert(registered(registered(pool, layers, first_index), layers, second_index) =~= registered(
        pool,
        layers,
        first_index,
    ));
}

/// Where a window can be replaced, some window is tried first.
pub proof fn lemma_candidate_has_first(
    pool: Map<Seq<Paint>, u32>,
    layers: Seq<Paint>,
    lo: int,
    hi: int,
)
    requires
        is_candidate(pool, layers, lo, hi),
    ensures
        has_match(pool, layers),
    decreases layers.len() - (hi - lo), layers.len() - hi,
{
    if exists|l: int, h: int| is_candidate(pool, layers, l, h) && tried_before(l, h, lo, hi) {
        let (l, h) = choose|l: int, h: int|
            is_candidate(pool, layers, l, h) && tried_before(l, h, lo, hi);
        lemma_candidate_has_first(pool, layers, l, h);
    } else {
        assert(is_first_match(pool, layers, lo, hi));
    }
}

/// What replacing runs leaves holds no window that the pool knows.
pub proof fn lemma_fixpoint_settled(pool: Map<Seq<Paint>, u32>, layers: Seq<Paint>)
    ensures
        forall|lo: int, hi: int| !is_candidate(pool, reuse_fixpoint(pool, layers), lo, hi),
    decreases layers.len(),
{
    if has_match(pool, layers) {
        lemma_reuse_step_shorter(pool, layers);
        lemma_fixpoint_settled(pool, reuse_step(pool, layers));
        assert(reuse_fixpoint(pool, layers) == reuse_fixpoint(pool, reuse_step(pool, layers)));
    } else {
        assert(reuse_fixpoint(pool, layers) == layers);
        assert forall|lo: int, hi: int| !is_candidate(pool, layers, lo, hi) by {
            if is_candidate(pool, layers, lo, hi) {
                lemma_candidate_has_first(pool, layers, lo, hi);
            }
        }
    }
}

/// What a builder with reuse writes, it knows afterwards. Let it write a
/// group, and let `run` be a window of two to 32 layers of what it wrote.
/// Then the pool holds `run`, at an index at which the list holds just these
/// layers.
pub proof fn theorem_written_runs_are_known(
    state: BuilderState,
    group: Seq<Paint>,
    run: Seq<Paint>,
)
    requires
        state.valid(),
        state.reuse_pool is Some,
        state.layers.len() + group.len() + tree_node_count(group.len() as int) <= u32::MAX,
        group.len() >= 2,
        !is_complete_reuse(reduced(state, group)),
        occurs(reduced(state, group), run),
    ensures
        after_add(state, group).0.reuse_pool matches Some(pool) && {
            let list = after_add(state, group).0.layers;
            &&& pool.contains_key(run)
            &&& pool[run] + run.len() <= list.len()
            &&& list.subrange(pool[run] as int, pool[run] + run.len()) == run
        },
{
    theorem_list_only_grows(state, group);
    let pool = after_add(state, group).0.reuse_pool->Some_0;
    assert(pool.contains_key(run));
}

/// Backward anchoring. Let the pool of a builder hold `run`, as it does once
/// a group with that run has been written. Then no later group is written
/// with a copy of `run` in it, and a later group that is `run` and nothing
/// else is answered by the reference to the index that the pool holds, with
/// nothing written.
pub proof fn theorem_backward_anchoring(state: BuilderState, run: Seq<Paint>, later: Seq<Paint>)
    requires
        state.valid(),
        state.reuse_pool matches Some(pool) && pool.contains_key(run),
    ensures
        !occurs(reduced(state, later), run),
        after_add(state, run) == (
            state,
            Paint::ColrLayers {
                num_layers: run.len() as u8,
                first_layer_index: state.reuse_pool->Some_0[run],
            },
        ),
{
    let pool = state.reuse_pool->Some_0;
    assert(2 <= run.len() <= 32);
    lemma_fixpoint_settled(pool, later);
    let written = reduced(state, later);
    if occurs(written, run) {
        let lo = choose|lo: int| occurs_at(written, run, lo);
        assert(is_candidate(pool, written, lo, lo + run.len()));
    }
    assert(run.subrange(0, run.len() as int) == run);
    assert(is_candidate(pool, run, 0, run.len() as int));
    assert(is_first_match(pool, run, 0, run.len() as int));
    lemma_first_match_unique(pool, run, 0, run.len() as int);
    let reference = reuse_ref(pool, run, 0, run.len() as int);
    let one = reuse_step(pool, run);
    assert(one == seq![reference]);
    assert(!has_match(pool, one)) by {
        assert forall|lo: int, hi: int| !is_first_match(pool, one, lo, hi) by {}
    }
    assert(reuse_fixpoint(pool, one) == one);
    assert(reuse_fixpoint(pool, run) == one);
    assert(is_complete_reuse(one));
}

} // verus!
