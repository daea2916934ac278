//! The scanline filters of PNG and the heuristic that picks one per row.
use vstd::prelude::*;

verus! {

/// Filter kind that leaves the row as it is.
pub const FILTER_NONE: u8 = 0;

/// Filter kind that subtracts the byte one pixel to the left.
pub const FILTER_SUB: u8 = 1;

/// Filter kind that subtracts the byte above.
pub const FILTER_UP: u8 = 2;

/// Filter kind that subtracts the mean of the left and the upper byte.
pub const FILTER_AVG: u8 = 3;

/// Filter kind that subtracts the Paeth predictor.
pub const FILTER_PAETH: u8 = 4;

/// Requests that the cheapest of the five kinds is picked for every row.
pub const FILTER_ADAPTIVE: u8 = 5;

/// The byte of `row` one pixel (`bpp` bytes) before position `i`, or zero in the first pixel.
pub open spec fn left_of(row: Seq<u8>, i: int, bpp: nat) -> u8 {
    if i < bpp {
        0u8
    } else {
        row[i - bpp]
    }
}

/// Distance between two integers.
pub open spec fn distance(x: int, y: int) -> int {
    if x < y {
        y - x
    } else {
        x - y
    }
}

/// The Paeth predictor: of the left, upper and upper-left byte the one nearest to
/// `a + b - c`, where ties go to the left byte first and to the upper byte second.
pub open spec fn paeth(a: u8, b: u8, c: u8) -> u8 {
    let p = a + b - c;
    if distance(p, a as int) <= distance(p, b as int) && distance(p, a as int) <= distance(
        p,
        c as int,
    ) {
        a
    } else if distance(p, b as int) <= distance(p, c as int) {
        b
    } else {
        c
    }
}

/// What filter `kind` expects at position `i` of a row, from the bytes to the left, above
/// and above left.
pub open spec fn prediction(kind: u8, left: u8, up: u8, up_left: u8) -> u8 {
    if kind == FILTER_SUB {
        left
    } else if kind == FILTER_UP {
        up
    } else if kind == FILTER_AVG {
        ((left + up) / 2) as u8
    } else if kind == FILTER_PAETH {
        paeth(left, up, up_left)
    } else {
        0u8
    }
}

/// `x - y` modulo 256.
pub open spec fn byte_sub(x: u8, y: u8) -> u8 {
    if x >= y {
        (x - y) as u8
    } else {
        (x - y + 256) as u8
    }
}

/// The filtered bytes of `curr` without the leading kind byte.
pub open spec fn filtered(kind: u8, curr: Seq<u8>, prev: Seq<u8>, bpp: nat) -> Seq<u8> {
    Seq::new(
        curr.len(),
        |i: int|
            byte_sub(
                curr[i],
                prediction(kind, left_of(curr, i, bpp), prev[i], left_of(prev, i, bpp)),
            ),
    )
}

/// A row as it goes into the compressed stream: the filter kind, then the filtered bytes.
pub open spec fn filter_row(kind: u8, curr: Seq<u8>, prev: Seq<u8>, bpp: nat) -> Seq<u8> {
    seq![kind] + filtered(kind, curr, prev, bpp)
}

/// Absolute value of `b` read as a two's complement number.
pub open spec fn magnitude(b: u8) -> nat {
    if b < 128 {
        b as nat
    } else {
        (256 - b) as nat
    }
}

/// What one filtered byte adds to the cost of a row. The kinds "none" and "Paeth" count it
/// as a signed number, the other kinds as an unsigned one.
pub open spec fn byte_cost(kind: u8, b: u8) -> nat {
    if kind == FILTER_NONE || kind == FILTER_PAETH {
        magnitude(b)
    } else {
        b as nat
    }
}

/// The cost of a filtered row: the sum of the costs of its bytes.
pub open spec fn cost(kind: u8, bytes: Seq<u8>) -> nat
    decreases bytes.len(),
{
    if bytes.len() == 0 {
        0
    } else {
        cost(kind, bytes.drop_last()) + byte_cost(kind, bytes.last())
    }
}

/// The cost of filtering `curr` with `kind`.
pub open spec fn filter_cost(kind: u8, curr: Seq<u8>, prev: Seq<u8>, bpp: nat) -> nat {
    cost(kind, filtered(kind, curr, prev, bpp))
}

/// Whether `kind` is the first of the five kinds that attains the least cost.
pub open spec fn is_cheapest(kind: u8, curr: Seq<u8>, prev: Seq<u8>, bpp: nat) -> bool {
    &&& kind <= FILTER_PAETH
    &&& forall|k: u8|
        k <= FILTER_PAETH ==> filter_cost(kind, curr, prev, bpp) <= #[trigger] filter_cost(
            k,
            curr,
            prev,
            bpp,
        )
    &&& forall|k: u8|
        k < kind ==> filter_cost(kind, curr, prev, bpp) < #[trigger] filter_cost(
            k,
            curr,
            prev,
            bpp,
        )
}

/// `buf` with its first bytes replaced by `row`.
pub open spec fn overwritten(buf: Seq<u8>, row: Seq<u8>) -> Seq<u8> {
    row + buf.skip(row.len() as int)
}

/// A row is short enough that its cost fits in 64 bits.
pub open spec fn cost_fits(len: nat) -> bool {
    255 * len <= u64::MAX
}

/// The cost of `n` bytes is at most `255 * n`.
proof fn lemma_cost_bound(kind: u8, bytes: Seq<u8>)
    ensures
        cost(kind, bytes) <= 255 * bytes.len(),
    decreases bytes.len(),
{
    if bytes.len() > 0 {
        lemma_cost_bound(kind, bytes.drop_last());
    }
}

/// Cost of a byte of a row filtered with `kind`.
fn cost_of(kind: u8, b: u8) -> (c: u64)
    ensures
        c == byte_cost(kind, b),
        c <= 255,
{
    if kind == FILTER_NONE || kind == FILTER_PAETH {
        if b < 128 {
            b as u64
        } else {
            256 - b as u64
        }
    } else {
        b as u64
    }
}

/// The Paeth predictor of the left (`a`), upper (`b`) and upper-left (`c`) byte.
pub fn paeth_predict(a: u8, b: u8, c: u8) -> (r: u8)
    ensures
        r == paeth(a, b, c),
{
    let p: i16 = a as i16 + b as i16 - c as i16;
    let da: i16 = p - a as i16;
    let db: i16 = p - b as i16;
    let dc: i16 = p - c as i16;
    let pa: i16 = if da < 0 { -da } else { da };
    let pb: i16 = if db < 0 { -db } else { db };
    let pc: i16 = if dc < 0 { -dc } else { dc };
    if pa <= pb && pa <= pc {
        a
    } else if pb <= pc {
        b
    } else {
        c
    }
}

/// One step of filtering: with the byte at `i` put in place, `buf` holds one byte more of the
/// row and the cost has grown by that byte.
proof fn lemma_filter_step(
    before: Seq<u8>,
    buf: Seq<u8>,
    kind: u8,
    curr: Seq<u8>,
    prev: Seq<u8>,
    bpp: nat,
    i: int,
)
    requires
        0 <= i < curr.len(),
        curr.len() + 1 <= before.len(),
        cost_fits(curr.len()),
        buf == overwritten(before, seq![kind] + filtered(kind, curr, prev, bpp).take(i)),
    ensures
        buf.len() == before.len(),
        buf.update(i + 1, filtered(kind, curr, prev, bpp)[i]) == overwritten(
            before,
            seq![kind] + filtered(kind, curr, prev, bpp).take(i + 1),
        ),
        cost(kind, filtered(kind, curr, prev, bpp).take(i)) + 255 <= u64::MAX,
        cost(kind, filtered(kind, curr, prev, bpp).take(i + 1)) == cost(
            kind,
            filtered(kind, curr, prev, bpp).take(i),
        ) + byte_cost(kind, filtered(kind, curr, prev, bpp)[i]),
{
    let f = filtered(kind, curr, prev, bpp);
    assert(buf.update(i + 1, f[i]) =~= overwritten(before, seq![kind] + f.take(i + 1)));
    assert(f.take(i + 1).drop_last() =~= f.take(i));
    lemma_cost_bound(kind, f.take(i));
}

/// Writes `curr` unfiltered to `out`, behind the kind byte, and returns its cost.
pub fn apply_filter_none(curr: &[u8], out: &mut [u8]) -> (sad: u64)
    requires
        curr@.len() + 1 <= old(out)@.len(),
        cost_fits(curr@.len()),
    ensures
        final(out)@ == overwritten(old(out)@, seq![FILTER_NONE] + curr@),
        sad == cost(FILTER_NONE, curr@),
{
    let ghost before = out@;
    let ghost f = filtered(FILTER_NONE, curr@, Seq::empty(), 0);
    out[0] = FILTER_NONE;
    let len: usize = curr.len();
    let mut sad: u64 = 0;
    let mut i: usize = 0;
    assert(out@ =~= overwritten(before, seq![FILTER_NONE] + f.take(0)));
    while i < len
        invariant
            i <= len,
            len == curr@.len(),
            len + 1 <= before.len(),
            cost_fits(len as nat),
            f == filtered(FILTER_NONE, curr@, Seq::empty(), 0),
            out@ == overwritten(before, seq![FILTER_NONE] + f.take(i as int)),
            sad == cost(FILTER_NONE, f.take(i as int)),
        decreases len - i,
    {
        proof {
            lemma_filter_step(
                before,
                out@,
                FILTER_NONE,
                curr@,
                Seq::empty(),
                0,
                i as int,
            );
        }
        let val: u8 = curr[i];
        assert(val == f[i as int]);
        out[i + 1] = val;
        sad = sad + cost_of(FILTER_NONE, val);
        i = i + 1;
    }
    assert(f.take(len as int) =~= curr@);
    sad
}

/// Writes `curr` to `out` with the byte one pixel to the left subtracted from each byte, behind
/// the kind byte, and returns the cost.
pub fn apply_filter_sub(curr: &[u8], bpp: usize, out: &mut [u8]) -> (sad: u64)
    requires
        curr@.len() + 1 <= old(out)@.len(),
        cost_fits(curr@.len()),
    ensures
        final(out)@ == overwritten(
            old(out)@,
            filter_row(FILTER_SUB, curr@, Seq::empty(), bpp as nat),
        ),
        sad == filter_cost(FILTER_SUB, curr@, Seq::empty(), bpp as nat),
{
    let ghost before = out@;
    let ghost f = filtered(FILTER_SUB, curr@, Seq::empty(), bpp as nat);
    out[0] = FILTER_SUB;
    let len: usize = curr.len();
    let mut sad: u64 = 0;
    let mut i: usize = 0;
    assert(out@ =~= overwritten(before, seq![FILTER_SUB] + f.take(0)));
    while i < len
        invariant
            i <= len,
            len == curr@.len(),
            len + 1 <= before.len(),
            cost_fits(len as nat),
            f == filtered(FILTER_SUB, curr@, Seq::empty(), bpp as nat),
            out@ == overwritten(before, seq![FILTER_SUB] + f.take(i as int)),
            sad == cost(FILTER_SUB, f.take(i as int)),
        decreases len - i,
    {
        proof {
            lemma_filter_step(
                before,
                out@,
                FILTER_SUB,
                curr@,
                Seq::empty(),
                bpp as nat,
                i as int,
            );
        }
        let left: u8 = if i < bpp { 0 } else { curr[i - bpp] };
        let val: u8 = curr[i].wrapping_sub(left);
        assert(val == f[i as int]);
        out[i + 1] = val;
        sad = sad + cost_of(FILTER_SUB, val);
        i = i + 1;
    }
    assert(f.take(len as int) =~= f);
    sad
}

/// Writes `curr` to `out` with the byte above subtracted from each byte, behind the kind byte,
/// and returns the cost.
pub fn apply_filter_up(curr: &[u8], prev: &[u8], out: &mut [u8]) -> (sad: u64)
    requires
        curr@.len() + 1 <= old(out)@.len(),
        curr@.len() <= prev@.len(),
        cost_fits(curr@.len()),
    ensures
        final(out)@ == overwritten(
            old(out)@,
            filter_row(FILTER_UP, curr@, prev@, 0),
        ),
        sad == filter_cost(FILTER_UP, curr@, prev@, 0),
{
    let ghost before = out@;
    let ghost f = filtered(FILTER_UP, curr@, prev@, 0);
    out[0] = FILTER_UP;
    let len: usize = curr.len();
    let mut sad: u64 = 0;
    let mut i: usize = 0;
    assert(out@ =~= overwritten(before, seq![FILTER_UP] + f.take(0)));
    while i < len
        invariant
            i <= len,
            len == curr@.len(),
            curr@.len() <= prev@.len(),
            len + 1 <= before.len(),
            cost_fits(len as nat),
            f == filtered(FILTER_UP, curr@, prev@, 0),
            out@ == overwritten(before, seq![FILTER_UP] + f.take(i as int)),
            sad == cost(FILTER_UP, f.take(i as int)),
        decreases len - i,
    {
        proof {
            lemma_filter_step(
                before,
                out@,
                FILTER_UP,
                curr@,
                prev@,
                0,
                i as int,
            );
        }
        let val: u8 = curr[i].wrapping_sub(prev[i]);
        assert(val == f[i as int]);
        out[i + 1] = val;
        sad = sad + cost_of(FILTER_UP, val);
        i = i + 1;
    }
    assert(f.take(len as int) =~= f);
    sad
}

/// Writes `curr` to `out` with the mean of the left and the upper byte subtracted from each
/// byte, behind the kind byte, and returns the cost.
pub fn apply_filter_avg(curr: &[u8], prev: &[u8], bpp: usize, out: &mut [u8]) -> (sad: u64)
    requires
        curr@.len() + 1 <= old(out)@.len(),
        curr@.len() <= prev@.len(),
        cost_fits(curr@.len()),
    ensures
        final(out)@ == overwritten(
            old(out)@,
            filter_row(FILTER_AVG, curr@, prev@, bpp as nat),
        ),
        sad == filter_cost(FILTER_AVG, curr@, prev@, bpp as nat),
{
    let ghost before = out@;
    let ghost f = filtered(FILTER_AVG, curr@, prev@, bpp as nat);
    out[0] = FILTER_AVG;
    let len: usize = curr.len();
    let mut sad: u64 = 0;
    let mut i: usize = 0;
    assert(out@ =~= overwritten(before, seq![FILTER_AVG] + f.take(0)));
    while i < len
        invariant
            i <= len,
            len == curr@.len(),
            curr@.len() <= prev@.len(),
            len + 1 <= before.len(),
            cost_fits(len as nat),
            f == filtered(FILTER_AVG, curr@, prev@, bpp as nat),
            out@ == overwritten(before, seq![FILTER_AVG] + f.take(i as int)),
            sad == cost(FILTER_AVG, f.take(i as int)),
        decreases len - i,
    {
        proof {
            lemma_filter_step(
                before,
                out@,
                FILTER_AVG,
                curr@,
                prev@,
                bpp as nat,
                i as int,
            );
        }
        let left: u8 = if i < bpp { 0 } else { curr[i - bpp] };
        let avg: u8 = ((left as u16 + prev[i] as u16) / 2) as u8;
        let val: u8 = curr[i].wrapping_sub(avg);
        assert(val == f[i as int]);
        out[i + 1] = val;
        sad = sad + cost_of(FILTER_AVG, val);
        i = i + 1;
    }
    assert(f.take(len as int) =~= f);
    sad
}

/// Writes `curr` to `out` with the Paeth predictor subtracted from each byte, behind the kind
/// byte, and returns the cost.
pub fn apply_filter_paeth(curr: &[u8], prev: &[u8], bpp: usize, out: &mut [u8]) -> (sad: u64)
    requires
        curr@.len() + 1 <= old(out)@.len(),
        curr@.len() <= prev@.len(),
        cost_fits(curr@.len()),
    ensures
        final(out)@ == overwritten(
            old(out)@,
            filter_row(FILTER_PAETH, curr@, prev@, bpp as nat),
        ),
        sad == filter_cost(FILTER_PAETH, curr@, prev@, bpp as nat),
{
    let ghost before = out@;
    let ghost f = filtered(FILTER_PAETH, curr@, prev@, bpp as nat);
    out[0] = FILTER_PAETH;
    let len: usize = curr.len();
    let mut sad: u64 = 0;
    let mut i: usize = 0;
    assert(out@ =~= overwritten(before, seq![FILTER_PAETH] + f.take(0)));
    while i < len
        invariant
            i <= len,
            len == curr@.len(),
            curr@.len() <= prev@.len(),
            len + 1 <= before.len(),
            cost_fits(len as nat),
            f == filtered(FILTER_PAETH, curr@, prev@, bpp as nat),
            out@ == overwritten(before, seq![FILTER_PAETH] + f.take(i as int)),
            sad == cost(FILTER_PAETH, f.take(i as int)),
        decreases len - i,
    {
        proof {
            lemma_filter_step(
                before,
                out@,
                FILTER_PAETH,
                curr@,
                prev@,
                bpp as nat,
                i as int,
            );
        }
        let left: u8 = if i < bpp { 0 } else { curr[i - bpp] };
        let up_left: u8 = if i < bpp { 0 } else { prev[i - bpp] };
        let val: u8 = curr[i].wrapping_sub(paeth_predict(left, prev[i], up_left));
        assert(val == f[i as int]);
        out[i + 1] = val;
        sad = sad + cost_of(FILTER_PAETH, val);
        i = i + 1;
    }
    assert(f.take(len as int) =~= f);
    sad
}

/// Copies the first `n` bytes of `src` to the front of `dst`.
pub fn copy_front(dst: &mut [u8], src: &[u8], n: usize)
    requires
        n <= old(dst)@.len(),
        n <= src@.len(),
    ensures
        final(dst)@ == overwritten(old(dst)@, src@.take(n as int)),
{
    let ghost before = dst@;
    let mut i: usize = 0;
    assert(dst@ =~= overwritten(before, src@.take(0)));
    while i < n
        invariant
            i <= n,
            n <= before.len(),
            n <= src@.len(),
            dst@ == overwritten(before, src@.take(i as int)),
        decreases n - i,
    {
        dst[i] = src[i];
        i = i + 1;
        assert(dst@ =~= overwritten(before, src@.take(i as int)));
    }
}

/// The kinds "none", "sub" and "up" look at only a part of the row's surroundings.
pub proof fn lemma_filter_context(
    curr: Seq<u8>,
    prev: Seq<u8>,
    bpp: nat,
    other_prev: Seq<u8>,
    other_bpp: nat,
)
    ensures
        filtered(FILTER_NONE, curr, prev, bpp) == curr,
        filtered(FILTER_SUB, curr, prev, bpp) == filtered(FILTER_SUB, curr, other_prev, bpp),
        filtered(FILTER_UP, curr, prev, bpp) == filtered(FILTER_UP, curr, prev, other_bpp),
{
    assert(filtered(FILTER_NONE, curr, prev, bpp) =~= curr);
    assert(filtered(FILTER_SUB, curr, prev, bpp) =~= filtered(FILTER_SUB, curr, other_prev, bpp));
    assert(filtered(FILTER_UP, curr, prev, bpp) =~= filtered(FILTER_UP, curr, prev, other_bpp));
}

/// Below a row of zeros, as above the first row of an image, the Paeth filter is the sub
/// filter.
pub proof fn law_paeth_below_zeros_is_sub(
    curr: Seq<u8>,
    prev: Seq<u8>,
    bpp: nat,
    other_prev: Seq<u8>,
)
    requires
        curr.len() <= prev.len(),
        forall|i: int| 0 <= i < curr.len() ==> prev[i] == 0,
    ensures
        filtered(FILTER_PAETH, curr, prev, bpp) == filtered(FILTER_SUB, curr, other_prev, bpp),
{
    assert(filtered(FILTER_PAETH, curr, prev, bpp) =~= filtered(FILTER_SUB, curr, other_prev, bpp));
}

/// In a row of no more than one pixel the Paeth filter is the up filter.
pub proof fn law_paeth_in_one_pixel_is_up(
    curr: Seq<u8>,
    prev: Seq<u8>,
    bpp: nat,
    other_bpp: nat,
)
    requires
        curr.len() <= bpp,
    ensures
        filtered(FILTER_PAETH, curr, prev, bpp) == filtered(FILTER_UP, curr, prev, other_bpp),
{
    assert(filtered(FILTER_PAETH, curr, prev, bpp) =~= filtered(FILTER_UP, curr, prev, other_bpp));
}

/// Writes `curr` to `out` with the cheapest of the five filters, the first of them where
/// several are equally cheap. `temp` is scratch space and is left with the Paeth row.
pub fn apply_filter_adaptive(
    curr: &[u8],
    prev: &[u8],
    bpp: usize,
    out: &mut [u8],
    temp: &mut [u8],
)
    requires
        curr@.len() + 1 <= old(out)@.len(),
        curr@.len() + 1 <= old(temp)@.len(),
        curr@.len() <= prev@.len(),
        cost_fits(curr@.len()),
    ensures
        is_cheapest(final(out)@[0], curr@, prev@, bpp as nat),
        final(out)@ == overwritten(
            old(out)@,
            filter_row(final(out)@[0], curr@, prev@, bpp as nat),
        ),
        final(temp)@ == overwritten(
            old(temp)@,
            filter_row(FILTER_PAETH, curr@, prev@, bpp as nat),
        ),
{
    let ghost out_before = out@;
    let ghost temp_before = temp@;
    let ghost row = |k: u8| filter_row(k, curr@, prev@, bpp as nat);
    let ghost price = |k: u8| filter_cost(k, curr@, prev@, bpp as nat);
    proof {
        lemma_filter_context(curr@, prev@, bpp as nat, Seq::empty(), 0);
    }
    assert(curr@.len() + 1 <= out.len());
    let payload_len: usize = 1 + curr.len();

    let mut best_sad: u64 = apply_filter_none(curr, temp);
    let ghost mut best = FILTER_NONE;
    assert(temp@ =~= overwritten(temp_before, row(FILTER_NONE)));
    assert(temp@.take(payload_len as int) =~= row(FILTER_NONE));
    copy_front(out, temp, payload_len);

    let sad1: u64 = apply_filter_sub(curr, bpp, temp);
    assert(temp@ =~= overwritten(temp_before, row(FILTER_SUB)));
    assert(temp@.take(payload_len as int) =~= row(FILTER_SUB));
    if sad1 < best_sad {
        best_sad = sad1;
        copy_front(out, temp, payload_len);
        proof {
            best = FILTER_SUB;
        }
    }
    assert(out@ =~= overwritten(out_before, row(best)));

    let sad2: u64 = apply_filter_up(curr, prev, temp);
    assert(temp@ =~= overwritten(temp_before, row(FILTER_UP)));
    assert(temp@.take(payload_len as int) =~= row(FILTER_UP));
    if sad2 < best_sad {
        best_sad = sad2;
        copy_front(out, temp, payload_len);
        proof {
            best = FILTER_UP;
        }
    }
    assert(out@ =~= overwritten(out_before, row(best)));

    let sad3: u64 = apply_filter_avg(curr, prev, bpp, temp);
    assert(temp@ =~= overwritten(temp_before, row(FILTER_AVG)));
    assert(temp@.take(payload_len as int) =~= row(FILTER_AVG));
    if sad3 < best_sad {
        best_sad = sad3;
        copy_front(out, temp, payload_len);
        proof {
            best = FILTER_AVG;
        }
    }
    assert(out@ =~= overwritten(out_before, row(best)));

    let sad4: u64 = apply_filter_paeth(curr, prev, bpp, temp);
    assert(temp@ =~= overwritten(temp_before, row(FILTER_PAETH)));
    assert(temp@.take(payload_len as int) =~= row(FILTER_PAETH));
    if sad4 < best_sad {
        copy_front(out, temp, payload_len);
        proof {
            best = FILTER_PAETH;
        }
    }
    assert(out@ =~= overwritten(out_before, row(best)));
    assert(out@[0] == best);
    assert(best_sad == price(best) || best == FILTER_PAETH);
    assert forall|k: u8| k <= FILTER_PAETH implies price(best) <= #[trigger] filter_cost(
        k,
        curr@,
        prev@,
        bpp as nat,
    ) by {
        assert(k == 0 || k == 1 || k == 2 || k == 3 || k == 4);
    }
}

} // verus!
