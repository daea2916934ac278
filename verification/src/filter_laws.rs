//! What holds of filtering as a whole: which filter a row gets, and what a row costs.
use crate::filter::{cost, filter_cost, filtered, is_cheapest, overwritten};
use crate::unfilter::{
    cheapest, law_cheapest_is_unique, law_unfilter_undoes_filter, stream_row, unfiltered,
};
use vstd::prelude::*;

verus! {

/// The sum over a filtered row of its bytes, taken as distances from zero modulo 256 for rows
/// of type 0 and 4, and as they are for rows of type 1, 2 and 3.
pub open spec fn score(kind: u8, bytes: Seq<u8>) -> int {
    if kind == 0 || kind == 4 {
        bytes.fold_left(0, |sum: int, b: u8| sum + if b <= 256 - b { b as int } else { 256 - b })
    } else {
        bytes.fold_left(0, |sum: int, b: u8| sum + b)
    }
}

/// The cost of a row is the sum over its bytes.
pub proof fn law_cost_is_the_score(kind: u8, bytes: Seq<u8>)
    ensures
        cost(kind, bytes) == score(kind, bytes),
    decreases bytes.len(),
{
    if bytes.len() > 0 {
        law_cost_is_the_score(kind, bytes.drop_last());
    }
}

/// The cheapest kind is the lowest of the five numbers with the least sum.
pub proof fn law_cheapest_has_the_least_score(
    kind: u8,
    curr: Seq<u8>,
    prev: Seq<u8>,
    bpp: nat,
)
    ensures
        is_cheapest(kind, curr, prev, bpp) <==> {
            &&& kind <= 4
            &&& forall|other: u8|
                #![trigger filtered(other, curr, prev, bpp)]
                other <= 4 ==> {
                    let a = score(kind, filtered(kind, curr, prev, bpp));
                    let b = score(other, filtered(other, curr, prev, bpp));
                    a <= b && (a == b ==> kind <= other)
                }
        },
{
    assert forall|other: u8| filter_cost(other, curr, prev, bpp) == #[trigger] score(
        other,
        filtered(other, curr, prev, bpp),
    ) by {
        law_cost_is_the_score(other, filtered(other, curr, prev, bpp));
    }
    let a = score(kind, filtered(kind, curr, prev, bpp));
    assert(filter_cost(kind, curr, prev, bpp) == a);
    if is_cheapest(kind, curr, prev, bpp) {
        assert forall|other: u8| #![trigger filtered(other, curr, prev, bpp)] other <= 4 implies {
            let b = score(other, filtered(other, curr, prev, bpp));
            a <= b && (a == b ==> kind <= other)
        } by {
            assert(filter_cost(other, curr, prev, bpp) == score(
                other,
                filtered(other, curr, prev, bpp),
            ));
        }
    } else if kind <= 4 && (forall|other: u8|
        #![trigger filtered(other, curr, prev, bpp)]
        other <= 4 ==> {
            let b = score(other, filtered(other, curr, prev, bpp));
            a <= b && (a == b ==> kind <= other)
        }) {
        assert forall|k: u8| k <= 4 implies filter_cost(kind, curr, prev, bpp)
            <= #[trigger] filter_cost(k, curr, prev, bpp) by {
            assert(filter_cost(k, curr, prev, bpp) == score(k, filtered(k, curr, prev, bpp)));
        }
        assert forall|k: u8| k < kind implies filter_cost(kind, curr, prev, bpp)
            < #[trigger] filter_cost(k, curr, prev, bpp) by {
            assert(filter_cost(k, curr, prev, bpp) == score(k, filtered(k, curr, prev, bpp)));
        }
    }
}

/// Whether `line` is `curr` as it should go into the stream under `setting`. It begins with its
/// filter type, and the type is the one that was set: settings 0 to 4 stand for themselves, 5
/// for the type with the least sum, the lowest number where several have it, and everything
/// beyond for 0. Behind the type stands one byte for each byte of the row.
pub open spec fn is_line(
    setting: u8,
    line: Seq<u8>,
    curr: Seq<u8>,
    prev: Seq<u8>,
    bpp: nat,
) -> bool {
    &&& line.len() == curr.len() + 1
    &&& line.skip(1) == filtered(line[0], curr, prev, bpp)
    &&& setting <= 4 ==> line[0] == setting
    &&& setting > 5 ==> line[0] == 0
    &&& setting == 5 ==> {
        &&& line[0] <= 4
        &&& forall|other: u8|
            #![trigger filtered(other, curr, prev, bpp)]
            other <= 4 ==> {
                let a = score(line[0], filtered(line[0], curr, prev, bpp));
                let b = score(other, filtered(other, curr, prev, bpp));
                a <= b && (a == b ==> line[0] <= other)
            }
    }
}

/// Every row of the stream gets the type that was set, and a reader that knows only the line,
/// the row above and the size of a pixel gets the row back.
pub proof fn law_row_gets_its_type(setting: u8, curr: Seq<u8>, prev: Seq<u8>, bpp: nat)
    requires
        bpp >= 1,
    ensures
        ({
            let line = stream_row(setting, curr, prev, bpp);
            &&& is_line(setting, line, curr, prev, bpp)
            &&& unfiltered(line[0], line.skip(1), prev, bpp) == curr
        }),
{
    let line = stream_row(setting, curr, prev, bpp);
    assert(line.skip(1) =~= filtered(line[0], curr, prev, bpp));
    law_unfilter_undoes_filter(line[0], curr, prev, bpp);
    if setting == 5 {
        let kind = cheapest(curr, prev, bpp);
        law_cheapest_is_unique(kind, curr, prev, bpp);
        law_cheapest_has_the_least_score(kind, curr, prev, bpp);
    }
}

/// A row written to the front of a buffer takes the place of as many bytes, and of no others.
pub proof fn law_only_the_front_is_overwritten(buf: Seq<u8>, row: Seq<u8>)
    requires
        row.len() <= buf.len(),
    ensures
        overwritten(buf, row).len() == buf.len(),
        forall|i: int| 0 <= i < row.len() ==> overwritten(buf, row)[i] == row[i],
        forall|i: int| row.len() <= i < buf.len() ==> overwritten(buf, row)[i] == buf[i],
{
}

} // verus!
