use fontcore::os2::{create_os2_work, Error, WidthTotals, HMTX};
use fontcore::tag::Tag;

#[test]
fn widths_behind_the_long_metrics_share_the_last_advance() {
    let work = create_os2_work();
    assert_eq!(
        work.width_totals(&vec![500, 0, 600], 3, 5),
        WidthTotals { count: 4, total: 2300 }
    );
}

#[test]
fn zero_widths_do_not_count() {
    let work = create_os2_work();
    assert_eq!(work.width_totals(&vec![0, 0, 250], 3, 3), WidthTotals { count: 1, total: 250 });
    assert_eq!(work.width_totals(&vec![0, 0], 2, 2), WidthTotals { count: 0, total: 0 });
}

#[test]
fn a_last_advance_of_zero_leaves_the_rest_out() {
    let work = create_os2_work();
    assert_eq!(work.width_totals(&vec![500, 0], 2, 10), WidthTotals { count: 1, total: 500 });
}

#[test]
fn no_metrics_give_nothing() {
    let work = create_os2_work();
    assert_eq!(work.width_totals(&vec![], 0, 0), WidthTotals { count: 0, total: 0 });
    assert_eq!(work.width_totals(&vec![], 0, 9), WidthTotals { count: 0, total: 0 });
}

#[test]
fn a_monospaced_font_has_one_long_metric() {
    let work = create_os2_work();
    assert_eq!(
        work.width_totals(&vec![600], 1, 65535),
        WidthTotals { count: 65535, total: 600 * 65535 }
    );
}

fn hmtx(metrics: &[(u16, i16)], bearings: &[i16]) -> Vec<u8> {
    let mut raw = Vec::new();
    for (advance, bearing) in metrics {
        raw.extend(advance.to_be_bytes());
        raw.extend(bearing.to_be_bytes());
    }
    for bearing in bearings {
        raw.extend(bearing.to_be_bytes());
    }
    raw
}

#[test]
fn totals_from_the_bytes_of_a_table() {
    let work = create_os2_work();
    let raw = hmtx(&[(500, -7), (0, 0), (600, 12)], &[3, 4]);
    assert_eq!(
        work.avg_char_width_totals(&raw, 3, 5),
        Ok(WidthTotals { count: 4, total: 2300 })
    );
    // with two long metrics the third record counts as side bearings
    assert_eq!(
        work.avg_char_width_totals(&raw, 2, 5),
        Ok(WidthTotals { count: 1, total: 500 })
    );
}

#[test]
fn totals_read_the_high_byte_first() {
    let work = create_os2_work();
    assert_eq!(
        work.avg_char_width_totals(&[0x01, 0x02, 0xFF, 0xFF], 1, 1),
        Ok(WidthTotals { count: 1, total: 0x0102 })
    );
    assert_eq!(
        work.avg_char_width_totals(&[0xFF, 0xFF, 0, 0], 1, 3),
        Ok(WidthTotals { count: 3, total: 3 * 0xFFFF })
    );
}

#[test]
fn totals_of_a_table_too_short_for_its_metrics() {
    let work = create_os2_work();
    let raw = hmtx(&[(500, 0)], &[]);
    assert_eq!(work.avg_char_width_totals(&raw, 2, 5), Ok(WidthTotals { count: 0, total: 0 }));
    assert_eq!(work.avg_char_width_totals(&[], 0, 5), Ok(WidthTotals { count: 0, total: 0 }));
    assert_eq!(work.avg_char_width_totals(&raw[..3], 1, 5), Ok(WidthTotals { count: 0, total: 0 }));
}

#[test]
fn the_error_names_the_table() {
    assert_eq!(Error::InvalidTableBytes(Tag(HMTX)), Error::InvalidTableBytes(Tag::new(b"hmtx")));
}
