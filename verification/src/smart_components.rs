//! The rules by which a smart component finds its place in the little
//! variation space of the glyph it is an instance of.
//!
//! The glyph names its axes; each of its layers sits at one pole of each axis.
//! Against the base layer that gives each layer a coordinate on each axis:
//! zero at the pole of the base layer, one or minus one at the other pole.

use crate::tag::{be_value, Tag};
use vstd::prelude::*;

verus! {

/// One end of an axis of a smart component.
#[derive(Clone, Copy, Debug, PartialEq, Eq, Structural)]
pub enum AxisPole {
    Min,
    Max,
}

/// Where a layer sits on an axis, seen from the base layer.
#[derive(Clone, Copy, Debug, PartialEq, Eq, Structural)]
pub enum PoleCoord {
    /// At the pole of the base layer: coordinate zero.
    Default,
    /// At the upper pole, the base layer at the lower: coordinate one.
    Max,
    /// At the lower pole, the base layer at the upper: coordinate minus one.
    Min,
}

/// Things that can go wrong when instantiating a smart component.
#[derive(Debug)]
pub enum BadSmartComponent {
    /// A layer names an axis that the glyph does not have.
    UnknownAxis(String),
    /// A layer and the base layer sit at poles that give no coordinate. With
    /// two poles to an axis there is no such pair.
    StrangeAxisMapping { base: Option<AxisPole>, child: AxisPole, axis: String },
}

/// The coordinate of a layer at pole `child` of an axis where the base layer
/// is at pole `base`; a base layer that does not name the axis is taken to be
/// at the other pole.
pub open spec fn pole_coord(base: Option<AxisPole>, child: AxisPole) -> PoleCoord {
    if base == Some(child) {
        PoleCoord::Default
    } else if child == AxisPole::Max {
        PoleCoord::Max
    } else {
        PoleCoord::Min
    }
}

/// The coordinate of a layer on one axis: see [`pole_coord`]. Every pair of
/// poles has one.
pub fn pole_coordinate(base: Option<AxisPole>, child: AxisPole) -> (coord: PoleCoord)
    ensures
        coord == pole_coord(base, child),
{
    match (base, child) {
        (Some(AxisPole::Min), AxisPole::Min) => PoleCoord::Default,
        (Some(AxisPole::Max), AxisPole::Max) => PoleCoord::Default,
        (None, AxisPole::Max) => PoleCoord::Max,
        (Some(AxisPole::Min), AxisPole::Max) => PoleCoord::Max,
        (None, AxisPole::Min) => PoleCoord::Min,
        (Some(AxisPole::Max), AxisPole::Min) => PoleCoord::Min,
    }
}

/// The default value of an axis that runs from `start` to `end`: the end at
/// which the base layer sits, which is the upper end unless the base layer
/// names the lower one.
pub fn axis_default(start: i64, end: i64, base: Option<AxisPole>) -> (default_value: i64)
    ensures
        default_value == (if base == Some(AxisPole::Min) {
            start
        } else {
            end
        }),
{
    match base {
        Some(AxisPole::Min) => start,
        _ => end,
    }
}

/// The tag of the axis with index `i`: `ax` and the index in two digits.
pub open spec fn axis_tag_value(i: int) -> u32 {
    be_value(0x61, 0x78, (0x30 + i / 10) as u8, (0x30 + i % 10) as u8)
}

/// The tag that stands for the axis with index `i`: component axes have
/// names, not tags, so they are given the tags `ax00`, `ax01` and so on.
/// Two digits: only 100 axes are supported.
pub fn axis_tag(i: usize) -> (tag: Tag)
    requires
        i < 100,
    ensures
        tag.0 == axis_tag_value(i as int),
{
    let tens: u8 = (i / 10) as u8;
    let ones: u8 = (i % 10) as u8;
    Tag::new(&[0x61, 0x78, 0x30 + tens, 0x30 + ones])
}

/// The tags of the axes with the given names, in the order of the names, and
/// each name with its tag.
pub fn axes_for_glyph(axis_names: &Vec<String>) -> (axes: (Vec<Tag>, Vec<(String, Tag)>))
    requires
        axis_names.len() <= 100,
    ensures
        axes.0.len() == axis_names.len(),
        axes.1.len() == axis_names.len(),
        forall|i: int|
            0 <= i < axis_names.len() ==> (#[trigger] axes.0[i]).0 == axis_tag_value(i),
        forall|i: int|
            0 <= i < axis_names.len() ==> (#[trigger] axes.1[i]).0 == axis_names[i]
                && axes.1[i].1 == axes.0[i],
{
    let mut axis_order: Vec<Tag> = Vec::new();
    let mut name_to_tag_map: Vec<(String, Tag)> = Vec::new();
    let mut i: usize = 0;
    while i < axis_names.len()
        invariant
            i <= axis_names.len() <= 100,
            axis_order.len() == i,
            name_to_tag_map.len() == i,
            forall|k: int| 0 <= k < i ==> (#[trigger] axis_order[k]).0 == axis_tag_value(k),
            forall|k: int|
                0 <= k < i ==> (#[trigger] name_to_tag_map[k]).0 == axis_names[k]
                    && name_to_tag_map[k].1 == axis_order[k],
        decreases axis_names.len() - i,
    {
        let tag = axis_tag(i);
        axis_order.push(tag);
        name_to_tag_map.push((axis_names[i].clone(), tag));
        i = i + 1;
    }
    (axis_order, name_to_tag_map)
}

/// What the first pair of `pairs` with the name `name` holds.
pub open spec fn find_by_name<T>(pairs: Seq<(String, T)>, name: Seq<char>) -> Option<T>
    decreases pairs.len(),
{
    if pairs.len() == 0 {
        None
    } else if pairs[0].0@ == name {
        Some(pairs[0].1)
    } else {
        find_by_name(pairs.skip(1), name)
    }
}

fn lookup_tag(pairs: &Vec<(String, Tag)>, name: &String) -> (found: Option<Tag>)
    ensures
        found == find_by_name(pairs@, name@),
{
    let mut i: usize = 0;
    proof {
        assert(pairs@.skip(0) == pairs@);
    }
    while i < pairs.len()
        invariant
            i <= pairs.len(),
            find_by_name(pairs@, name@) == find_by_name(pairs@.skip(i as int), name@),
        decreases pairs.len() - i,
    {
        proof {
            assert(pairs@.skip(i as int).skip(1) == pairs@.skip(i + 1));
            assert(pairs@.skip(i as int)[0] == pairs@[i as int]);
        }
        if pairs[i].0 == *name {
            return Some(pairs[i].1);
        }
        i = i + 1;
    }
    None
}

fn lookup_pole(pairs: &Vec<(String, AxisPole)>, name: &String) -> (found: Option<AxisPole>)
    ensures
        found == find_by_name(pairs@, name@),
{
    let mut i: usize = 0;
    proof {
        assert(pairs@.skip(0) == pairs@);
    }
    while i < pairs.len()
        invariant
            i <= pairs.len(),
            find_by_name(pairs@, name@) == find_by_name(pairs@.skip(i as int), name@),
        decreases pairs.len() - i,
    {
        proof {
            assert(pairs@.skip(i as int).skip(1) == pairs@.skip(i + 1));
            assert(pairs@.skip(i as int)[0] == pairs@[i as int]);
        }
        if pairs[i].0 == *name {
            return Some(pairs[i].1);
        }
        i = i + 1;
    }
    None
}

/// Whether the axis that entry `i` of `for_layer` names has a tag.
pub open spec fn axis_is_known(
    for_layer: Seq<(String, AxisPole)>,
    name_to_tag_map: Seq<(String, Tag)>,
    i: int,
) -> bool {
    find_by_name(name_to_tag_map, for_layer[i].0@) is Some
}

/// The tag and the coordinate that entry `i` of `for_layer` gives.
pub open spec fn located(
    for_layer: Seq<(String, AxisPole)>,
    base_layer: Seq<(String, AxisPole)>,
    name_to_tag_map: Seq<(String, Tag)>,
    i: int,
) -> (Tag, PoleCoord) {
    (
        find_by_name(name_to_tag_map, for_layer[i].0@).unwrap(),
        pole_coord(find_by_name(base_layer, for_layer[i].0@), for_layer[i].1),
    )
}

/// Where a layer sits in the glyph's variation space: for each axis that the
/// layer names, in the layer's order, the tag of the axis and the layer's
/// coordinate on it against the base layer. Fails at the first axis that has
/// no tag, with the name of that axis, and in no other way.
pub fn normalized_location(
    for_layer: &Vec<(String, AxisPole)>,
    base_layer: &Vec<(String, AxisPole)>,
    name_to_tag_map: &Vec<(String, Tag)>,
) -> (location: Result<Vec<(Tag, PoleCoord)>, BadSmartComponent>)
    ensures
        match location {
            Ok(coords) => {
                &&& coords.len() == for_layer.len()
                &&& forall|i: int|
                    0 <= i < for_layer.len() ==> axis_is_known(for_layer@, name_to_tag_map@, i)
                &&& forall|i: int|
                    0 <= i < for_layer.len() ==> #[trigger] coords[i] == located(
                        for_layer@,
                        base_layer@,
                        name_to_tag_map@,
                        i,
                    )
            },
            Err(BadSmartComponent::UnknownAxis(axis)) => exists|i: int|
                0 <= i < for_layer.len() && !axis_is_known(for_layer@, name_to_tag_map@, i)
                    && axis@ == (#[trigger] for_layer[i]).0@ && forall|k: int|
                    0 <= k < i ==> axis_is_known(for_layer@, name_to_tag_map@, k),
            Err(BadSmartComponent::StrangeAxisMapping { .. }) => false,
        },
{
    let mut coords: Vec<(Tag, PoleCoord)> = Vec::new();
    let mut i: usize = 0;
    while i < for_layer.len()
        invariant
            i <= for_layer.len(),
            coords.len() == i,
            forall|k: int| 0 <= k < i ==> axis_is_known(for_layer@, name_to_tag_map@, k),
            forall|k: int|
                0 <= k < i ==> #[trigger] coords[k] == located(
                    for_layer@,
                    base_layer@,
                    name_to_tag_map@,
                    k,
                ),
        decreases for_layer.len() - i,
    {
        let axis = &for_layer[i].0;
        let pos = for_layer[i].1;
        let tag = match lookup_tag(name_to_tag_map, axis) {
            Some(tag) => tag,
            None => {
                let name = axis.clone();
                proof {
                    assert(!axis_is_known(for_layer@, name_to_tag_map@, i as int));
                    assert(name@ == for_layer[i as int].0@);
                }
                return Err(BadSmartComponent::UnknownAxis(name));
            },
        };
        let base_value = lookup_pole(base_layer, axis);
        coords.push((tag, pole_coordinate(base_value, pos)));
        i = i + 1;
    }
    Ok(coords)
}

} // verus!
