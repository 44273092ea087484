//! The work that generates an OS/2 table: what of it is whole numbers.
//!
//! The table's average character width is the mean of the advance widths
//! that are not zero. This module reads the widths from the bytes of the hmtx
//! table, counts them and sums them; the division and the rounding are left
//! to the caller.

use crate::tag::Tag;
use read_fonts::tables::hmtx::Hmtx;
use read_fonts::{FontData, ReadError};
use vstd::prelude::*;

verus! {

/// The work that generates an OS/2 table.
#[derive(Debug)]
pub struct Os2Work {}

/// A new piece of OS/2 work.
pub fn create_os2_work() -> (work: Box<Os2Work>)
    ensures
        *work == (Os2Work {}),
{
    Box::new(Os2Work {})
}

/// The tag `hmtx`, of the table of horizontal metrics.
pub const HMTX: u32 = 0x686D_7478;

/// What can go wrong in this work.
#[derive(Clone, Copy, Debug, PartialEq, Eq, Structural)]
pub enum Error {
    /// The bytes of the table with this tag could not be read.
    InvalidTableBytes(Tag),
}

/// The advances of the long metrics in the bytes of an hmtx table. A long
/// metric takes four bytes, of which the first two are the advance, the high
/// byte first. A table too short for its long metrics gives none.
pub open spec fn hmtx_advances(raw_hmtx: Seq<u8>, number_of_long_metrics: u16) -> Seq<u16> {
    if 4 * number_of_long_metrics <= raw_hmtx.len() {
        Seq::new(
            number_of_long_metrics as nat,
            |i: int| (raw_hmtx[4 * i] as int * 256 + raw_hmtx[4 * i + 1] as int) as u16,
        )
    } else {
        Seq::empty()
    }
}

/// The error with which read-fonts refuses the bytes of a table.
#[verifier::external_type_specification]
#[verifier::external_body]
pub struct ExReadError(ReadError);

/// Reads the advances of the long metrics from the bytes of an hmtx table,
/// with `Hmtx::read` and `Hmtx::h_metrics` of read-fonts. `read` takes the
/// bytes as they are; `h_metrics` gives the first `number_of_long_metrics`
/// records of four bytes each, or none where the bytes do not hold that many;
/// the advance of a record is its first two bytes, the high byte first.
#[verifier::external_body]
fn read_advances(raw_hmtx: &[u8], number_of_long_metrics: u16) -> (advances: Result<
    Vec<u16>,
    ReadError,
>)
    ensures
        advances matches Ok(list) ==> list@ == hmtx_advances(raw_hmtx@, number_of_long_metrics),
{
    let hmtx = Hmtx::read(FontData::new(raw_hmtx), number_of_long_metrics)?;
    Ok(hmtx.h_metrics().iter().map(|metric| metric.advance()).collect())
}

/// How many of `advances` are not zero.
pub open spec fn nonzero_count(advances: Seq<u16>) -> nat
    decreases advances.len(),
{
    if advances.len() == 0 {
        0
    } else {
        nonzero_count(advances.drop_last()) + if advances.last() > 0 {
            1nat
        } else {
            0nat
        }
    }
}

/// The sum of `advances`.
pub open spec fn advance_sum(advances: Seq<u16>) -> nat
    decreases advances.len(),
{
    if advances.len() == 0 {
        0
    } else {
        advance_sum(advances.drop_last()) + advances.last() as nat
    }
}

/// The advance of the last long metric, which every glyph behind the long
/// metrics shares; zero where there is no long metric.
pub open spec fn last_advance(advances: Seq<u16>) -> u16 {
    if advances.len() == 0 {
        0
    } else {
        advances.last()
    }
}

/// The number of glyphs that share the last advance, if that is not zero.
pub open spec fn trailing_count(
    advances: Seq<u16>,
    number_of_long_metrics: u16,
    num_glyphs: u64,
) -> int {
    if last_advance(advances) > 0 {
        num_glyphs - number_of_long_metrics
    } else {
        0
    }
}

/// The number of advance widths that are not zero.
pub open spec fn width_count(
    advances: Seq<u16>,
    number_of_long_metrics: u16,
    num_glyphs: u64,
) -> int {
    nonzero_count(advances) + trailing_count(advances, number_of_long_metrics, num_glyphs)
}

/// The sum of all advance widths.
pub open spec fn width_total(
    advances: Seq<u16>,
    number_of_long_metrics: u16,
    num_glyphs: u64,
) -> int {
    advance_sum(advances) + trailing_count(advances, number_of_long_metrics, num_glyphs)
        * last_advance(advances)
}

/// The number of advance widths that count for the average, and their sum.
#[derive(Clone, Copy, Debug, PartialEq, Eq, Structural)]
pub struct WidthTotals {
    pub count: u64,
    pub total: u64,
}

/// A front part of the advances counts and sums to no more than the whole.
pub proof fn lemma_totals_grow(advances: Seq<u16>, n: int)
    requires
        0 <= n <= advances.len(),
    ensures
        nonzero_count(advances.subrange(0, n)) <= nonzero_count(advances),
        advance_sum(advances.subrange(0, n)) <= advance_sum(advances),
    decreases advances.len() - n,
{
    if n == advances.len() {
        assert(advances.subrange(0, n) == advances);
    } else {
        assert(advances.subrange(0, n + 1).drop_last() == advances.subrange(0, n));
        lemma_totals_grow(advances, n + 1);
    }
}

impl Os2Work {
    /// Reads the advance widths from the bytes of an hmtx table, and counts
    /// and sums those that are not zero: see [`Os2Work::width_totals`]. Fails
    /// only where the table cannot be read.
    pub fn avg_char_width_totals(
        &self,
        raw_hmtx: &[u8],
        number_of_long_metrics: u16,
        num_glyphs: u64,
    ) -> (totals: Result<WidthTotals, Error>)
        requires
            last_advance(hmtx_advances(raw_hmtx@, number_of_long_metrics)) > 0
                ==> number_of_long_metrics <= num_glyphs,
            width_count(
                hmtx_advances(raw_hmtx@, number_of_long_metrics),
                number_of_long_metrics,
                num_glyphs,
            ) <= u64::MAX,
            width_total(
                hmtx_advances(raw_hmtx@, number_of_long_metrics),
                number_of_long_metrics,
                num_glyphs,
            ) <= u64::MAX,
        ensures
            match totals {
                Ok(totals) => {
                    &&& totals.count == width_count(
                        hmtx_advances(raw_hmtx@, number_of_long_metrics),
                        number_of_long_metrics,
                        num_glyphs,
                    )
                    &&& totals.total == width_total(
                        hmtx_advances(raw_hmtx@, number_of_long_metrics),
                        number_of_long_metrics,
                        num_glyphs,
                    )
                },
                Err(error) => error == Error::InvalidTableBytes(Tag(HMTX)),
            },
    {
        match read_advances(raw_hmtx, number_of_long_metrics) {
            Ok(advances) => Ok(self.width_totals(&advances, number_of_long_metrics, num_glyphs)),
            Err(_) => Err(Error::InvalidTableBytes(Tag(HMTX))),
        }
    }

    /// Counts and sums the advance widths that are not zero. `advances` are
    /// the advances of the long metrics; the glyphs behind them, of which
    /// there are `num_glyphs - number_of_long_metrics`, all have the last of
    /// these advances, and count only if it is not zero. The long metrics
    /// must then be no more than the glyphs, and the numbers must fit 64 bits.
    pub fn width_totals(
        &self,
        advances: &Vec<u16>,
        number_of_long_metrics: u16,
        num_glyphs: u64,
    ) -> (totals: WidthTotals)
        requires
            last_advance(advances@) > 0 ==> number_of_long_metrics <= num_glyphs,
            width_count(advances@, number_of_long_metrics, num_glyphs) <= u64::MAX,
            width_total(advances@, number_of_long_metrics, num_glyphs) <= u64::MAX,
        ensures
            totals.count == width_count(advances@, number_of_long_metrics, num_glyphs),
            totals.total == width_total(advances@, number_of_long_metrics, num_glyphs),
    {
        let mut count: u64 = 0;
        let mut total: u64 = 0;
        let mut i: usize = 0;
        proof {
            assert(trailing_count(advances@, number_of_long_metrics, num_glyphs) * last_advance(
                advances@,
            ) >= 0) by (nonlinear_arith)
                requires
                    trailing_count(advances@, number_of_long_metrics, num_glyphs) >= 0,
                    last_advance(advances@) >= 0,
            ;
        }
        while i < advances.len()
            invariant
                i <= advances.len(),
                count == nonzero_count(advances@.subrange(0, i as int)),
                total == advance_sum(advances@.subrange(0, i as int)),
                nonzero_count(advances@) <= u64::MAX,
                advance_sum(advances@) <= u64::MAX,
            decreases advances.len() - i,
        {
            proof {
                assert(advances@.subrange(0, i + 1).drop_last() == advances@.subrange(0, i as int));
                lemma_totals_grow(advances@, i + 1);
            }
            let advance: u16 = advances[i];
            if advance > 0 {
                count = count + 1;
                total = total + advance as u64;
            }
            i = i + 1;
        }
        proof {
            assert(advances@.subrange(0, i as int) == advances@);
        }
        let last: u16 = if advances.len() > 0 {
            advances[advances.len() - 1]
        } else {
            0
        };
        if last > 0 {
            let num_short: u64 = num_glyphs - number_of_long_metrics as u64;
            proof {
                assert(num_short * last <= width_total(
                    advances@,
                    number_of_long_metrics,
                    num_glyphs,
                ));
            }
            count = count + num_short;
            total = total + num_short * last as u64;
        }
        WidthTotals { count, total }
    }
}

} // verus!
