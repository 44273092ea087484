use fontcore::expansion::expand_paint;
use fontcore::layer_list::{LayerList, LayerListBuilder};
use fontcore::paint::Paint;
use fontcore::ranges::reuse_ranges;
use fontcore::reuse::LayerReuseCache;

fn opaque(keys: std::ops::Range<u64>) -> Vec<Paint> {
    keys.map(Paint::Opaque).collect()
}

fn finished(builder: LayerListBuilder) -> Vec<Paint> {
    match builder.build() {
        Some(LayerList { num_layers, paints }) => {
            assert_eq!(num_layers as usize, paints.len());
            paints
        }
        None => Vec::new(),
    }
}

const A: Paint = Paint::Opaque(1);
const B: Paint = Paint::Opaque(2);
const C: Paint = Paint::Opaque(3);
const X: Paint = Paint::Opaque(10);
const Y: Paint = Paint::Opaque(11);

#[test]
fn colr_layers_holds_count_and_index() {
    assert_eq!(
        Paint::colr_layers(7, 9),
        Paint::ColrLayers { num_layers: 7, first_layer_index: 9 }
    );
    assert_ne!(Paint::colr_layers(7, 9), Paint::colr_layers(9, 7));
}

#[test]
fn empty_group_gives_the_empty_reference() {
    for reuse in [true, false] {
        let mut builder = LayerListBuilder::new(reuse);
        assert_eq!(builder.add_paint_layers(vec![]), Paint::colr_layers(0, 0));
        assert_eq!(builder.len(), 0);
        assert!(builder.build().is_none());
    }
}

#[test]
fn single_paint_is_returned_as_it_is() {
    for reuse in [true, false] {
        let mut builder = LayerListBuilder::new(reuse);
        assert_eq!(builder.add_paint_layers(vec![A]), A);
        assert_eq!(builder.len(), 0);
        let reference = Paint::colr_layers(4, 17);
        assert_eq!(builder.add_paint_layers(vec![reference]), reference);
        assert_eq!(builder.len(), 0);
        assert!(builder.build().is_none());
    }
}

#[test]
fn empty_and_single_groups_leave_a_filled_list_alone() {
    let mut builder = LayerListBuilder::new(true);
    builder.add_paint_layers(vec![A, B]);
    assert_eq!(builder.add_paint_layers(vec![]), Paint::colr_layers(0, 0));
    assert_eq!(builder.add_paint_layers(vec![C]), C);
    assert_eq!(finished(builder), vec![A, B]);
}

#[test]
fn same_group_twice_is_written_once() {
    let mut builder = LayerListBuilder::new(true);
    assert_eq!(builder.add_paint_layers(vec![A, B, C]), Paint::colr_layers(3, 0));
    assert_eq!(builder.len(), 3);
    assert_eq!(builder.add_paint_layers(vec![A, B, C]), Paint::colr_layers(3, 0));
    assert_eq!(builder.len(), 3);
    assert_eq!(finished(builder), vec![A, B, C]);
}

#[test]
fn same_group_twice_is_written_twice_without_reuse() {
    let mut builder = LayerListBuilder::new(false);
    assert_eq!(builder.add_paint_layers(vec![A, B, C]), Paint::colr_layers(3, 0));
    assert_eq!(builder.add_paint_layers(vec![A, B, C]), Paint::colr_layers(3, 3));
    assert_eq!(finished(builder), vec![A, B, C, A, B, C]);
}

#[test]
fn three_hundred_layers_get_a_tree() {
    let mut builder = LayerListBuilder::new(false);
    let paints = opaque(0..300);
    assert_eq!(builder.add_paint_layers(paints.clone()), Paint::colr_layers(2, 300));
    let list = finished(builder);
    assert_eq!(list.len(), 302);
    assert_eq!(&list[..300], &paints[..]);
    assert_eq!(list[300], Paint::colr_layers(255, 0));
    assert_eq!(list[301], Paint::colr_layers(45, 255));
}

#[test]
fn exactly_255_layers_need_no_tree() {
    let mut builder = LayerListBuilder::new(false);
    assert_eq!(builder.add_paint_layers(opaque(0..255)), Paint::colr_layers(255, 0));
    assert_eq!(builder.len(), 255);
    assert_eq!(builder.add_paint_layers(opaque(0..256)), Paint::colr_layers(2, 511));
    let list = finished(builder);
    assert_eq!(list.len(), 255 + 256 + 2);
    assert_eq!(list[511], Paint::colr_layers(255, 255));
    assert_eq!(list[512], Paint::colr_layers(1, 510));
}

#[test]
fn tree_of_two_levels() {
    let count: u64 = 255 * 255 + 1;
    let mut builder = LayerListBuilder::new(false);
    let paints = opaque(0..count);
    let root = builder.add_paint_layers(paints.clone());
    // 256 nodes over the layers, then 2 nodes over those
    assert_eq!(root, Paint::colr_layers(2, (count + 256) as u32));
    let list = finished(builder);
    assert_eq!(list.len() as u64, count + 256 + 2);
    assert_eq!(list[count as usize], Paint::colr_layers(255, 0));
    assert_eq!(list[count as usize + 255], Paint::colr_layers(1, 255 * 255));
    assert_eq!(list[count as usize + 256], Paint::colr_layers(255, count as u32));
    assert_eq!(list[count as usize + 257], Paint::colr_layers(1, count as u32 + 255));
    assert_eq!(expand_paint(&list, root), paints);
}

#[test]
fn tie_break_takes_the_rightmost_window_first() {
    let mut cache = LayerReuseCache::new();
    cache.register(&vec![X, Y], 0);
    cache.register(&vec![Y, X], 5);
    // both (0,2) = [Y, X] and (1,3) = [X, Y] are known: the right one goes first
    assert_eq!(cache.try_reuse(vec![Y, X, Y]), vec![Y, Paint::colr_layers(2, 0)]);
    assert_eq!(cache.try_reuse(vec![X, Y, X]), vec![X, Paint::colr_layers(2, 5)]);
}

#[test]
fn repeated_pair_is_replaced_at_both_places() {
    let mut cache = LayerReuseCache::new();
    cache.register(&vec![X, Y], 0);
    assert_eq!(
        cache.try_reuse(vec![X, Y, X, Y]),
        vec![Paint::colr_layers(2, 0), Paint::colr_layers(2, 0)]
    );
    let mut builder = LayerListBuilder::new(true);
    assert_eq!(builder.add_paint_layers(vec![X, Y]), Paint::colr_layers(2, 0));
    assert_eq!(builder.add_paint_layers(vec![X, Y, X, Y]), Paint::colr_layers(2, 2));
    assert_eq!(
        finished(builder),
        vec![X, Y, Paint::colr_layers(2, 0), Paint::colr_layers(2, 0)]
    );
}

#[test]
fn longer_window_is_replaced_before_a_shorter_one() {
    let mut cache = LayerReuseCache::new();
    cache.register(&vec![B, C], 20);
    cache.register(&vec![A, B, C], 7);
    assert_eq!(cache.try_reuse(vec![A, B, C]), vec![Paint::colr_layers(3, 7)]);
    assert_eq!(cache.try_reuse(vec![X, A, B, C]), vec![X, Paint::colr_layers(3, 7)]);
    assert_eq!(cache.try_reuse(vec![X, B, C]), vec![X, Paint::colr_layers(2, 20)]);
}

#[test]
fn try_reuse_starts_again_after_each_replacement() {
    let mut cache = LayerReuseCache::new();
    cache.register(&vec![B, C], 3);
    // known only once [B, C] has become a reference
    cache.register(&vec![A, Paint::colr_layers(2, 3)], 9);
    assert_eq!(cache.try_reuse(vec![A, B, C]), vec![Paint::colr_layers(2, 9)]);
}

#[test]
fn try_reuse_without_a_match_changes_nothing() {
    let cache = LayerReuseCache::new();
    assert_eq!(cache.try_reuse(vec![A, B, C]), vec![A, B, C]);
    assert_eq!(cache.try_reuse(vec![]), Vec::<Paint>::new());
    let mut cache = LayerReuseCache::new();
    cache.register(&vec![A, B], 0);
    assert_eq!(cache.try_reuse(vec![B, A]), vec![B, A]);
    assert_eq!(cache.try_reuse(vec![A]), vec![A]);
}

#[test]
fn register_enters_each_window_at_its_place() {
    let mut cache = LayerReuseCache::new();
    cache.register(&vec![A, B, C], 100);
    assert_eq!(cache.get(&vec![A, B]), Some(100));
    assert_eq!(cache.get(&vec![B, C]), Some(101));
    assert_eq!(cache.get(&vec![A, B, C]), Some(100));
    assert_eq!(cache.get(&vec![A]), None);
    assert_eq!(cache.get(&vec![A, C]), None);
    assert_eq!(cache.get(&vec![]), None);
}

#[test]
fn register_takes_the_first_of_two_equal_windows() {
    let mut cache = LayerReuseCache::new();
    cache.register(&vec![X, Y, X, Y], 10);
    assert_eq!(cache.get(&vec![X, Y]), Some(10));
    assert_eq!(cache.get(&vec![Y, X]), Some(11));
    assert_eq!(cache.get(&vec![X, Y, X]), Some(10));
}

#[test]
fn first_occurrence_wins() {
    let mut cache = LayerReuseCache::new();
    cache.register(&vec![A, B], 4);
    cache.register(&vec![A, B], 40);
    assert_eq!(cache.get(&vec![A, B]), Some(4));
    cache.register(&vec![C, A, B], 80);
    assert_eq!(cache.get(&vec![A, B]), Some(4));
    assert_eq!(cache.get(&vec![C, A]), Some(80));
    assert_eq!(cache.get(&vec![C, A, B]), Some(80));
}

#[test]
fn windows_longer_than_32_are_not_remembered() {
    let mut cache = LayerReuseCache::new();
    let paints = opaque(0..40);
    cache.register(&paints, 0);
    assert_eq!(cache.get(&paints[..32].to_vec()), Some(0));
    assert_eq!(cache.get(&paints[8..40].to_vec()), Some(8));
    assert_eq!(cache.get(&paints[..33].to_vec()), None);
    assert_eq!(cache.get(&paints), None);
}

#[test]
fn a_run_of_forty_is_reused_in_two_pieces() {
    let mut builder = LayerListBuilder::new(true);
    let paints = opaque(0..40);
    assert_eq!(builder.add_paint_layers(paints.clone()), Paint::colr_layers(40, 0));
    // the rightmost window of 32 goes first, then what is left of the front
    let again = builder.add_paint_layers(paints.clone());
    assert_eq!(again, Paint::colr_layers(2, 40));
    let list = finished(builder);
    assert_eq!(list.len(), 42);
    assert_eq!(list[40], Paint::colr_layers(8, 0));
    assert_eq!(list[41], Paint::colr_layers(32, 8));
    assert_eq!(expand_paint(&list, again), paints);
}

#[test]
fn reuse_ranges_lists_windows_by_start_then_end() {
    assert_eq!(reuse_ranges(0), vec![]);
    assert_eq!(reuse_ranges(1), vec![]);
    assert_eq!(reuse_ranges(2), vec![(0, 2)]);
    assert_eq!(reuse_ranges(4), vec![(0, 2), (0, 3), (0, 4), (1, 3), (1, 4), (2, 4)]);
}

#[test]
fn reuse_ranges_stops_at_32_layers() {
    let ranges = reuse_ranges(40);
    assert!(ranges.iter().all(|&(lo, hi)| hi - lo >= 2 && hi - lo <= 32 && hi <= 40));
    assert!(ranges.contains(&(0, 32)));
    assert!(!ranges.contains(&(0, 33)));
    assert!(ranges.contains(&(8, 40)));
    assert!(!ranges.contains(&(7, 40)));
    // starts 0..=8 have 31 windows each, start 8 + k has 31 - k
    assert_eq!(ranges.len(), 9 * 31 + (1..=30).sum::<usize>());
}

#[test]
fn answers_expand_to_their_groups() {
    let groups: Vec<Vec<Paint>> = vec![
        vec![A, B, C],
        vec![],
        vec![X],
        vec![A, B, C, X, Y],
        vec![X, Y, A, B],
        vec![A, B, C],
        opaque(100..400),
        vec![Y, X, Y, X, Y, X],
        opaque(150..200),
    ];
    for reuse in [true, false] {
        let mut builder = LayerListBuilder::new(reuse);
        let answers: Vec<Paint> =
            groups.iter().map(|group| builder.add_paint_layers(group.clone())).collect();
        let list = finished(builder);
        for (group, answer) in groups.iter().zip(answers) {
            assert_eq!(&expand_paint(&list, answer), group);
        }
    }
}

#[test]
fn reuse_makes_the_list_shorter_not_different() {
    let groups: Vec<Vec<Paint>> =
        vec![vec![A, B, C, X], vec![B, C, X, Y], vec![A, B, C, X], vec![Y, A, B]];
    let mut with = LayerListBuilder::new(true);
    let mut without = LayerListBuilder::new(false);
    let with_answers: Vec<Paint> =
        groups.iter().map(|group| with.add_paint_layers(group.clone())).collect();
    let without_answers: Vec<Paint> =
        groups.iter().map(|group| without.add_paint_layers(group.clone())).collect();
    let with_list = finished(with);
    let without_list = finished(without);
    assert!(with_list.len() < without_list.len());
    assert_eq!(without_list.len(), 15);
    for (a, b) in with_answers.iter().zip(&without_answers) {
        assert_eq!(expand_paint(&with_list, *a), expand_paint(&without_list, *b));
    }
}

#[test]
fn nested_groups_expand_all_the_way() {
    let mut builder = LayerListBuilder::new(true);
    let inner = builder.add_paint_layers(vec![A, B]);
    let outer = builder.add_paint_layers(vec![C, inner, X]);
    let empty = builder.add_paint_layers(vec![]);
    let outermost = builder.add_paint_layers(vec![outer, empty, Y]);
    let list = finished(builder);
    assert_eq!(expand_paint(&list, inner), vec![A, B]);
    assert_eq!(expand_paint(&list, outer), vec![C, A, B, X]);
    assert_eq!(expand_paint(&list, empty), vec![]);
    assert_eq!(expand_paint(&list, outermost), vec![C, A, B, X, Y]);
}

#[test]
fn expand_leaves_what_points_outside_the_list() {
    let list = vec![A, B];
    assert_eq!(expand_paint(&list, A), vec![A]);
    assert_eq!(expand_paint(&list, Paint::colr_layers(2, 0)), vec![A, B]);
    assert_eq!(expand_paint(&list, Paint::colr_layers(2, 1)), vec![Paint::colr_layers(2, 1)]);
    // an entry that does not point backwards stands for itself
    let odd = vec![Paint::colr_layers(1, 0), A];
    assert_eq!(expand_paint(&odd, Paint::colr_layers(2, 0)), vec![Paint::colr_layers(1, 0), A]);
}

#[test]
fn written_references_span_one_to_255_layers() {
    let mut builder = LayerListBuilder::new(true);
    let mut answers = vec![
        builder.add_paint_layers(opaque(0..600)),
        builder.add_paint_layers(opaque(100..130)),
        builder.add_paint_layers(vec![A, B]),
    ];
    answers.push(builder.add_paint_layers(vec![Paint::Opaque(7), A, B]));
    for paint in finished(builder).into_iter().chain(answers) {
        if let Paint::ColrLayers { num_layers, .. } = paint {
            assert!(num_layers >= 1);
        }
    }
}

#[test]
fn second_group_points_at_the_first_groups_layers() {
    let mut builder = LayerListBuilder::new(true);
    builder.add_paint_layers(vec![X, A, B, C, Y]);
    let answer = builder.add_paint_layers(vec![Paint::Opaque(50), A, B, C, Paint::Opaque(51)]);
    assert_eq!(answer, Paint::colr_layers(3, 5));
    // the shared run is referred to at index 1, not written again
    assert_eq!(builder.add_paint_layers(vec![A, B, C]), Paint::colr_layers(3, 1));
    let list = finished(builder);
    assert_eq!(
        list,
        vec![X, A, B, C, Y, Paint::Opaque(50), Paint::colr_layers(3, 1), Paint::Opaque(51)]
    );
}

#[test]
fn has_room_for_counts_the_tree() {
    let mut builder = LayerListBuilder::new(false);
    assert!(builder.has_room_for(0));
    assert!(builder.has_room_for(300));
    // 4294967295 = n + nodes(n) has no room for 4278124287 layers and their tree
    assert!(builder.has_room_for(4_278_058_750));
    assert!(!builder.has_room_for(4_278_190_080));
    assert!(!builder.has_room_for(u32::MAX as usize));
    assert!(!builder.has_room_for(usize::MAX));
    builder.add_paint_layers(vec![A, B]);
    assert_eq!(builder.len(), 2);
    assert!(builder.has_room_for(255));
}

#[test]
fn build_hands_over_the_list() {
    let mut builder = LayerListBuilder::new(false);
    builder.add_paint_layers(vec![A, B]);
    let list = builder.build().unwrap();
    assert_eq!(list.num_layers, 2);
    assert_eq!(list.paints, vec![A, B]);
    assert!(LayerListBuilder::new(true).build().is_none());
}
