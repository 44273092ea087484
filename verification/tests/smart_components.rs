use fontcore::smart_components::{
    axes_for_glyph, axis_default, axis_tag, normalized_location, pole_coordinate, AxisPole,
    BadSmartComponent, PoleCoord,
};
use fontcore::tag::Tag;

fn poles(pairs: &[(&str, AxisPole)]) -> Vec<(String, AxisPole)> {
    pairs.iter().map(|(name, pole)| (name.to_string(), *pole)).collect()
}

#[test]
fn coordinate_is_zero_at_the_pole_of_the_base_layer() {
    assert_eq!(pole_coordinate(Some(AxisPole::Min), AxisPole::Min), PoleCoord::Default);
    assert_eq!(pole_coordinate(Some(AxisPole::Max), AxisPole::Max), PoleCoord::Default);
}

#[test]
fn coordinate_is_at_the_other_pole() {
    assert_eq!(pole_coordinate(Some(AxisPole::Min), AxisPole::Max), PoleCoord::Max);
    assert_eq!(pole_coordinate(Some(AxisPole::Max), AxisPole::Min), PoleCoord::Min);
}

#[test]
fn coordinate_without_a_base_pole() {
    assert_eq!(pole_coordinate(None, AxisPole::Max), PoleCoord::Max);
    assert_eq!(pole_coordinate(None, AxisPole::Min), PoleCoord::Min);
}

#[test]
fn axis_default_is_the_end_of_the_base_layer() {
    assert_eq!(axis_default(100, 500, Some(AxisPole::Min)), 100);
    assert_eq!(axis_default(100, 500, Some(AxisPole::Max)), 500);
    assert_eq!(axis_default(-100, 0, None), 0);
}

#[test]
fn axis_tags_count_in_two_digits() {
    assert_eq!(axis_tag(0), Tag::new(b"ax00"));
    assert_eq!(axis_tag(7), Tag::new(b"ax07"));
    assert_eq!(axis_tag(42), Tag::new(b"ax42"));
    assert_eq!(axis_tag(99), Tag::new(b"ax99"));
}

#[test]
fn axes_get_tags_in_their_order() {
    let names = vec!["Height".to_string(), "Shift".to_string(), "Width".to_string()];
    let (order, map) = axes_for_glyph(&names);
    assert_eq!(order, vec![Tag::new(b"ax00"), Tag::new(b"ax01"), Tag::new(b"ax02")]);
    assert_eq!(
        map,
        vec![
            ("Height".to_string(), Tag::new(b"ax00")),
            ("Shift".to_string(), Tag::new(b"ax01")),
            ("Width".to_string(), Tag::new(b"ax02")),
        ]
    );
    let (order, map) = axes_for_glyph(&vec![]);
    assert!(order.is_empty() && map.is_empty());
}

#[test]
fn location_of_a_layer_against_the_base_layer() {
    let names = vec!["Height".to_string(), "Shift".to_string(), "Width".to_string()];
    let (_, map) = axes_for_glyph(&names);
    let regular = poles(&[
        ("Height", AxisPole::Min),
        ("Shift", AxisPole::Max),
        ("Width", AxisPole::Min),
    ]);
    let wide = poles(&[
        ("Height", AxisPole::Min),
        ("Shift", AxisPole::Max),
        ("Width", AxisPole::Max),
    ]);
    let shifted = poles(&[
        ("Height", AxisPole::Min),
        ("Shift", AxisPole::Min),
        ("Width", AxisPole::Min),
    ]);
    assert_eq!(
        normalized_location(&regular, &regular, &map).unwrap(),
        vec![
            (Tag::new(b"ax00"), PoleCoord::Default),
            (Tag::new(b"ax01"), PoleCoord::Default),
            (Tag::new(b"ax02"), PoleCoord::Default),
        ]
    );
    assert_eq!(
        normalized_location(&wide, &regular, &map).unwrap(),
        vec![
            (Tag::new(b"ax00"), PoleCoord::Default),
            (Tag::new(b"ax01"), PoleCoord::Default),
            (Tag::new(b"ax02"), PoleCoord::Max),
        ]
    );
    assert_eq!(
        normalized_location(&shifted, &regular, &map).unwrap(),
        vec![
            (Tag::new(b"ax00"), PoleCoord::Default),
            (Tag::new(b"ax01"), PoleCoord::Min),
            (Tag::new(b"ax02"), PoleCoord::Default),
        ]
    );
}

#[test]
fn location_where_the_base_layer_does_not_name_the_axis() {
    let (_, map) = axes_for_glyph(&vec!["Width".to_string()]);
    let layer = poles(&[("Width", AxisPole::Min)]);
    assert_eq!(
        normalized_location(&layer, &vec![], &map).unwrap(),
        vec![(Tag::new(b"ax00"), PoleCoord::Min)]
    );
    assert_eq!(normalized_location(&vec![], &layer, &map).unwrap(), vec![]);
}

#[test]
fn location_fails_at_the_first_unknown_axis() {
    let (_, map) = axes_for_glyph(&vec!["Width".to_string()]);
    let layer = poles(&[
        ("Width", AxisPole::Min),
        ("derp", AxisPole::Max),
        ("other", AxisPole::Max),
    ]);
    match normalized_location(&layer, &layer, &map) {
        Err(BadSmartComponent::UnknownAxis(axis)) => assert_eq!(axis, "derp"),
        other => panic!("{other:?}"),
    }
}
