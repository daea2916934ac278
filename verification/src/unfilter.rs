//! What a PNG reader does with filtered rows, and the proof that it gets the image back.
use crate::filter::{
    filter_cost, filter_row, filtered, is_cheapest, left_of, paeth, prediction, FILTER_ADAPTIVE,
    FILTER_NONE, FILTER_PAETH,
};
use vstd::prelude::*;

verus! {

/// `x + y` modulo 256.
pub open spec fn byte_add(x: u8, y: u8) -> u8 {
    if x + y < 256 {
        (x + y) as u8
    } else {
        (x + y - 256) as u8
    }
}

/// Absolute value.
pub open spec fn size_of_difference(x: int) -> nat {
    if x < 0 {
        (-x) as nat
    } else {
        x as nat
    }
}

/// The Paeth predictor as a reader works it out, from the three distances of `a + b - c`: it
/// is `|b - c|` from `a`, `|a - c|` from `b`, and `|a + b - 2 c|` from `c`.
pub open spec fn nearest(a: u8, b: u8, c: u8) -> u8 {
    let to_a = size_of_difference(b - c);
    let to_b = size_of_difference(a - c);
    let to_c = size_of_difference(a + b - 2 * c);
    if to_a <= to_b && to_a <= to_c {
        a
    } else if to_b <= to_c {
        b
    } else {
        c
    }
}

/// What a reader adds to a byte of a row of filter type `kind`, from the bytes to the left,
/// above and above left.
pub open spec fn addend(kind: u8, left: u8, up: u8, up_left: u8) -> u8 {
    if kind == 1 {
        left
    } else if kind == 2 {
        up
    } else if kind == 3 {
        ((left + up) / 2) as u8
    } else if kind == 4 {
        nearest(left, up, up_left)
    } else {
        0u8
    }
}

/// Rebuilds a row from its filtered bytes, the row above and the filter kind. Every byte is
/// predicted from bytes that are already rebuilt; before the first pixel all bytes are zero.
pub open spec fn unfiltered(kind: u8, bytes: Seq<u8>, prev: Seq<u8>, bpp: nat) -> Seq<u8>
    decreases bytes.len(),
{
    if bytes.len() == 0 {
        Seq::empty()
    } else {
        let front = unfiltered(kind, bytes.drop_last(), prev, bpp);
        let i = bytes.len() - 1;
        let left = if i >= bpp {
            front[i - bpp]
        } else {
            0u8
        };
        let up_left = if i >= bpp {
            prev[i - bpp]
        } else {
            0u8
        };
        front.push(byte_add(bytes.last(), addend(kind, left, prev[i], up_left)))
    }
}

/// The cheapest filter kind for a row.
pub open spec fn cheapest(curr: Seq<u8>, prev: Seq<u8>, bpp: nat) -> u8 {
    choose|k: u8| is_cheapest(k, curr, prev, bpp)
}

/// The filter kind that a row gets under `setting`. A setting beyond the adaptive one stands
/// for no filtering.
pub open spec fn row_kind(setting: u8, curr: Seq<u8>, prev: Seq<u8>, bpp: nat) -> u8 {
    if setting <= FILTER_PAETH {
        setting
    } else if setting == FILTER_ADAPTIVE {
        cheapest(curr, prev, bpp)
    } else {
        FILTER_NONE
    }
}

/// A row as it goes into the compressed stream under `setting`.
pub open spec fn stream_row(setting: u8, curr: Seq<u8>, prev: Seq<u8>, bpp: nat) -> Seq<u8> {
    filter_row(row_kind(setting, curr, prev, bpp), curr, prev, bpp)
}

/// The row above the last one: the one before it, or `top` where there is none.
pub open spec fn row_above(rows: Seq<Seq<u8>>, top: Seq<u8>) -> Seq<u8> {
    if rows.len() < 2 {
        top
    } else {
        rows[rows.len() - 2]
    }
}

/// All rows as they go into the compressed stream under `setting`, where `top` stands above
/// the first row.
pub open spec fn stream_rows(
    setting: u8,
    rows: Seq<Seq<u8>>,
    top: Seq<u8>,
    bpp: nat,
) -> Seq<u8>
    decreases rows.len(),
{
    if rows.len() == 0 {
        Seq::empty()
    } else {
        stream_rows(setting, rows.drop_last(), top, bpp) + stream_row(
            setting,
            rows.last(),
            row_above(rows, top),
            bpp,
        )
    }
}

/// What a PNG reader makes of the first `n` rows of `width` bytes each in `stream`.
pub open spec fn read_rows(
    stream: Seq<u8>,
    n: nat,
    width: nat,
    top: Seq<u8>,
    bpp: nat,
) -> Seq<Seq<u8>>
    decreases n,
{
    if n == 0 {
        Seq::empty()
    } else {
        let front = read_rows(stream, (n - 1) as nat, width, top, bpp);
        let row = stream.subrange((n - 1) * (width + 1), (n * (width + 1)) as int);
        let prev = if n == 1 {
            top
        } else {
            front.last()
        };
        front.push(unfiltered(row[0], row.skip(1), prev, bpp))
    }
}

/// How many samples a pixel of that color type has.
pub open spec fn samples_in(color_type: u8) -> nat {
    if color_type == 2 {
        3
    } else if color_type == 4 {
        2
    } else if color_type == 6 {
        4
    } else {
        1
    }
}

/// How many bytes of a row a reader goes back for the pixel before: those of a pixel, or one
/// where several pixels share a byte.
pub open spec fn step_back(bit_depth: u8, color_type: u8) -> nat {
    let bits = samples_in(color_type) * bit_depth as nat;
    if bits < 8 {
        1
    } else {
        bits / 8
    }
}

/// How many bytes a reader takes for a row, behind its filter type.
pub open spec fn line_bytes(width: nat, bit_depth: u8, color_type: u8) -> nat {
    (width * (samples_in(color_type) * bit_depth as nat) + 7) / 8
}

/// The predictor is one of the three bytes, and none of them is nearer to `a + b - c`. Where
/// several are equally near it is the left byte if that is one of them, and else the upper one.
pub proof fn law_paeth_is_nearest(a: u8, b: u8, c: u8)
    ensures
        paeth(a, b, c) == a || paeth(a, b, c) == b || paeth(a, b, c) == c,
        ({
            let r = paeth(a, b, c);
            let d = size_of_difference(a + b - c - r);
            &&& d <= size_of_difference(b - c)
            &&& d <= size_of_difference(a - c)
            &&& d <= size_of_difference(a + b - 2 * c)
            &&& d == size_of_difference(b - c) ==> r == a
            &&& d < size_of_difference(b - c) && d == size_of_difference(a - c) ==> r == b
        }),
        paeth(a, b, c) == nearest(a, b, c),
{
}

/// Every byte of a filtered row is the byte of the row less what a reader adds to it, modulo
/// 256, from the bytes to the left, above and above left, which are zero before the first
/// pixel.
pub proof fn law_filter_subtracts(kind: u8, curr: Seq<u8>, prev: Seq<u8>, bpp: nat, i: int)
    requires
        0 <= i < curr.len(),
    ensures
        filtered(kind, curr, prev, bpp).len() == curr.len(),
        ({
            let left = if i >= bpp {
                curr[i - bpp]
            } else {
                0u8
            };
            let up_left = if i >= bpp {
                prev[i - bpp]
            } else {
                0u8
            };
            byte_add(
                filtered(kind, curr, prev, bpp)[i],
                addend(kind, left, prev[i], up_left),
            ) == curr[i]
        }),
{
    law_paeth_is_nearest(left_of(curr, i, bpp), prev[i], left_of(prev, i, bpp));
}

/// Undoing a filter gives back the row, for every kind, every row above and every pixel size.
pub proof fn law_unfilter_undoes_filter(kind: u8, curr: Seq<u8>, prev: Seq<u8>, bpp: nat)
    requires
        bpp >= 1,
    ensures
        unfiltered(kind, filtered(kind, curr, prev, bpp), prev, bpp) == curr,
    decreases curr.len(),
{
    let f = filtered(kind, curr, prev, bpp);
    if curr.len() == 0 {
        assert(unfiltered(kind, f, prev, bpp) =~= curr);
    } else {
        let front = curr.drop_last();
        let i = curr.len() - 1;
        law_unfilter_undoes_filter(kind, front, prev, bpp);
        assert(f.drop_last() =~= filtered(kind, front, prev, bpp));
        let (left, up, up_left) = (left_of(curr, i, bpp), prev[i], left_of(prev, i, bpp));
        law_paeth_is_nearest(left, up, up_left);
        assert(addend(kind, left, up, up_left) == prediction(kind, left, up, up_left));
        assert(unfiltered(kind, f, prev, bpp) =~= curr);
    }
}

/// There is a cheapest kind for every row, and only one.
pub proof fn law_cheapest_is_unique(kind: u8, curr: Seq<u8>, prev: Seq<u8>, bpp: nat)
    ensures
        is_cheapest(cheapest(curr, prev, bpp), curr, prev, bpp),
        is_cheapest(kind, curr, prev, bpp) ==> kind == cheapest(curr, prev, bpp),
{
    let c = |k: u8| filter_cost(k, curr, prev, bpp);
    let b1 = if c(1) < c(0) {
        1u8
    } else {
        0u8
    };
    let b2 = if c(2) < c(b1) {
        2u8
    } else {
        b1
    };
    let b3 = if c(3) < c(b2) {
        3u8
    } else {
        b2
    };
    let b4 = if c(4) < c(b3) {
        4u8
    } else {
        b3
    };
    assert forall|k: u8| k <= FILTER_PAETH implies c(b4) <= #[trigger] filter_cost(
        k,
        curr,
        prev,
        bpp,
    ) by {
        assert(k == 0 || k == 1 || k == 2 || k == 3 || k == 4);
    }
    assert forall|k: u8| k < b4 implies c(b4) < #[trigger] filter_cost(k, curr, prev, bpp) by {
        assert(k == 0 || k == 1 || k == 2 || k == 3);
    }
    assert(is_cheapest(b4, curr, prev, bpp));
    let best = cheapest(curr, prev, bpp);
    if is_cheapest(kind, curr, prev, bpp) && kind != best {
        assert(c(kind) <= c(best));
        assert(c(best) <= c(kind));
    }
}

/// The stream of `n` rows of `width` bytes has `n * (width + 1)` bytes.
pub proof fn law_stream_length(
    setting: u8,
    rows: Seq<Seq<u8>>,
    width: nat,
    top: Seq<u8>,
    bpp: nat,
)
    requires
        forall|i: int| 0 <= i < rows.len() ==> (#[trigger] rows[i]).len() == width,
    ensures
        stream_rows(setting, rows, top, bpp).len() == rows.len() * (width + 1),
    decreases rows.len(),
{
    if rows.len() > 0 {
        law_stream_length(setting, rows.drop_last(), width, top, bpp);
        assert(rows.len() * (width + 1) == (rows.len() - 1) * (width + 1) + (width + 1))
            by (nonlinear_arith);
    }
}

/// A longer stream reads the same in its first rows.
proof fn lemma_read_rows_prefix(
    a: Seq<u8>,
    b: Seq<u8>,
    n: nat,
    width: nat,
    top: Seq<u8>,
    bpp: nat,
)
    requires
        n * (width + 1) <= a.len(),
    ensures
        read_rows(a + b, n, width, top, bpp) == read_rows(a, n, width, top, bpp),
    decreases n,
{
    if n > 0 {
        assert(n * (width + 1) == (n - 1) * (width + 1) + (width + 1)) by (nonlinear_arith);
        assert(0 <= (n - 1) * (width + 1)) by (nonlinear_arith)
            requires
                n > 0,
        ;
        lemma_read_rows_prefix(a, b, (n - 1) as nat, width, top, bpp);
        assert((a + b).subrange((n - 1) * (width + 1), (n * (width + 1)) as int) =~= a.subrange(
            (n - 1) * (width + 1),
            (n * (width + 1)) as int,
        ));
    }
}

/// Filtering loses nothing: under every setting a PNG reader gets back, row by row, the image
/// whose rows went into the stream.
pub proof fn law_rows_survive(
    setting: u8,
    rows: Seq<Seq<u8>>,
    width: nat,
    top: Seq<u8>,
    bpp: nat,
)
    requires
        bpp >= 1,
        forall|i: int| 0 <= i < rows.len() ==> (#[trigger] rows[i]).len() == width,
    ensures
        read_rows(stream_rows(setting, rows, top, bpp), rows.len(), width, top, bpp) == rows,
    decreases rows.len(),
{
    let stream = stream_rows(setting, rows, top, bpp);
    let n = rows.len();
    if n == 0 {
        assert(read_rows(stream, n, width, top, bpp) =~= rows);
    } else {
        let front = rows.drop_last();
        let head = stream_rows(setting, front, top, bpp);
        let prev = row_above(rows, top);
        let kind = row_kind(setting, rows.last(), prev, bpp);
        let tail = filter_row(kind, rows.last(), prev, bpp);
        law_rows_survive(setting, front, width, top, bpp);
        law_stream_length(setting, front, width, top, bpp);
        law_stream_length(setting, rows, width, top, bpp);
        lemma_read_rows_prefix(head, tail, (n - 1) as nat, width, top, bpp);
        assert(stream.subrange((n - 1) * (width + 1), (n * (width + 1)) as int) =~= tail);
        assert(tail.skip(1) =~= filtered(kind, rows.last(), prev, bpp));
        law_unfilter_undoes_filter(kind, rows.last(), prev, bpp);
        assert(read_rows(stream, n, width, top, bpp) =~= rows);
    }
}

} // verus!
