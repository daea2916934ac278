use pngstreamenc::filter::{
    apply_filter_adaptive, apply_filter_avg, apply_filter_none, apply_filter_paeth,
    apply_filter_sub, apply_filter_up, paeth_predict,
};

fn paeth_by_definition(a: u8, b: u8, c: u8) -> u8 {
    let p = a as i32 + b as i32 - c as i32;
    let (pa, pb, pc) = ((p - a as i32).abs(), (p - b as i32).abs(), (p - c as i32).abs());
    if pa <= pb && pa <= pc {
        a
    } else if pb <= pc {
        b
    } else {
        c
    }
}

/// Rebuilds a row as a PNG reader does.
fn unfilter(line: &[u8], prev: &[u8], bpp: usize) -> Vec<u8> {
    let mut row: Vec<u8> = Vec::new();
    for i in 0..line.len() - 1 {
        let left = if i < bpp { 0 } else { row[i - bpp] };
        let up_left = if i < bpp { 0 } else { prev[i - bpp] };
        let predicted = match line[0] {
            0 => 0,
            1 => left,
            2 => prev[i],
            3 => ((left as u16 + prev[i] as u16) / 2) as u8,
            4 => paeth_by_definition(left, prev[i], up_left),
            _ => panic!("unknown filter"),
        };
        row.push(line[i + 1].wrapping_add(predicted));
    }
    row
}

fn noise(len: usize, seed: u32) -> Vec<u8> {
    let mut state = seed;
    let mut bytes = Vec::new();
    for _ in 0..len {
        state = state.wrapping_mul(1664525).wrapping_add(1013904223);
        bytes.push((state >> 24) as u8);
    }
    bytes
}

#[test]
fn paeth_on_many_values() {
    for a in (0..=255u8).step_by(15) {
        for b in (0..=255u8).step_by(15) {
            for c in (0..=255u8).step_by(15) {
                assert_eq!(paeth_predict(a, b, c), paeth_by_definition(a, b, c));
            }
        }
    }
}

#[test]
fn paeth_ties_go_left_then_up() {
    assert_eq!(paeth_predict(10, 10, 10), 10);
    assert_eq!(paeth_predict(0, 10, 5), 5);
    assert_eq!(paeth_predict(1, 3, 1), 3);
    assert_eq!(paeth_predict(0, 255, 0), 255);
    assert_eq!(paeth_predict(255, 0, 255), 0);
}

#[test]
fn none_copies_and_counts_signed() {
    let mut out = [9u8; 6];
    let sad = apply_filter_none(&[1, 128, 255, 127], &mut out);
    assert_eq!(out, [0, 1, 128, 255, 127, 9]);
    assert_eq!(sad, 1 + 128 + 1 + 127);
}

#[test]
fn sub_subtracts_left_and_counts_unsigned() {
    let mut out = [9u8; 5];
    let sad = apply_filter_sub(&[10, 20, 15, 5], 2, &mut out);
    assert_eq!(out, [1, 10, 20, 5, 241]);
    assert_eq!(sad, 10 + 20 + 5 + 241);
}

#[test]
fn sub_with_pixel_wider_than_row() {
    let mut out = [0u8; 3];
    assert_eq!(apply_filter_sub(&[200, 100], 8, &mut out), 300);
    assert_eq!(out, [1, 200, 100]);
}

#[test]
fn up_subtracts_above() {
    let mut out = [0u8; 4];
    let sad = apply_filter_up(&[5, 6, 7], &[1, 7, 7], &mut out);
    assert_eq!(out, [2, 4, 255, 0]);
    assert_eq!(sad, 259);
}

#[test]
fn avg_subtracts_mean() {
    let mut out = [0u8; 4];
    let sad = apply_filter_avg(&[10, 20, 255], &[5, 255, 255], 1, &mut out);
    assert_eq!(out, [3, 8, 144, 118]);
    assert_eq!(sad, 8 + 144 + 118);
}

#[test]
fn paeth_filter_counts_signed() {
    let mut out = [0u8; 4];
    let sad = apply_filter_paeth(&[10, 12, 9], &[11, 11, 11], 1, &mut out);
    assert_eq!(out, [4, 255, 2, 253]);
    assert_eq!(sad, 1 + 2 + 3);
}

#[test]
fn empty_row_has_only_the_kind() {
    let mut out = [7u8; 1];
    assert_eq!(apply_filter_paeth(&[], &[], 1, &mut out), 0);
    assert_eq!(out, [4]);
    assert_eq!(apply_filter_none(&[], &mut out), 0);
    assert_eq!(out, [0]);
}

#[test]
fn filters_are_undone_by_a_reader() {
    for bpp in [1usize, 2, 3, 4, 6, 8] {
        let curr = noise(48, 7 + bpp as u32);
        let prev = noise(48, 70 + bpp as u32);
        let mut out = vec![0u8; 49];
        apply_filter_none(&curr, &mut out);
        assert_eq!(unfilter(&out, &prev, bpp), curr);
        apply_filter_sub(&curr, bpp, &mut out);
        assert_eq!(unfilter(&out, &prev, bpp), curr);
        apply_filter_up(&curr, &prev, &mut out);
        assert_eq!(unfilter(&out, &prev, bpp), curr);
        apply_filter_avg(&curr, &prev, bpp, &mut out);
        assert_eq!(unfilter(&out, &prev, bpp), curr);
        apply_filter_paeth(&curr, &prev, bpp, &mut out);
        assert_eq!(unfilter(&out, &prev, bpp), curr);
        let mut temp = vec![0u8; 49];
        apply_filter_adaptive(&curr, &prev, bpp, &mut out, &mut temp);
        assert_eq!(unfilter(&out, &prev, bpp), curr);
    }
}

#[test]
fn adaptive_takes_the_first_of_the_cheapest() {
    for seed in 0..40u32 {
        let curr = noise(30, seed);
        let prev = noise(30, seed + 1000);
        let mut line = vec![0u8; 31];
        let costs = [
            apply_filter_none(&curr, &mut line),
            apply_filter_sub(&curr, 3, &mut line),
            apply_filter_up(&curr, &prev, &mut line),
            apply_filter_avg(&curr, &prev, 3, &mut line),
            apply_filter_paeth(&curr, &prev, 3, &mut line),
        ];
        let mut best = 0;
        for k in 1..5 {
            if costs[k] < costs[best] {
                best = k;
            }
        }
        let mut out = vec![0u8; 31];
        let mut temp = vec![0u8; 31];
        apply_filter_adaptive(&curr, &prev, 3, &mut out, &mut temp);
        assert_eq!(out[0] as usize, best);
        assert_eq!(temp, line);
    }
}

#[test]
fn adaptive_prefers_none_on_a_tie_and_up_on_equal_rows() {
    let mut out = [0u8; 4];
    let mut temp = [0u8; 4];
    apply_filter_adaptive(&[0, 0, 0], &[0, 0, 0], 1, &mut out, &mut temp);
    assert_eq!(out, [0, 0, 0, 0]);
    apply_filter_adaptive(&[50, 90, 20], &[50, 90, 20], 1, &mut out, &mut temp);
    assert_eq!(out, [2, 0, 0, 0]);
}

#[test]
fn paeth_is_sub_below_zeros_and_up_in_one_pixel() {
    for bpp in [1usize, 2, 3, 4, 6, 8] {
        let curr = noise(41, 3 + bpp as u32);
        let (mut a, mut b) = (vec![0u8; 42], vec![0u8; 42]);
        apply_filter_paeth(&curr, &[0u8; 41], bpp, &mut a);
        apply_filter_sub(&curr, bpp, &mut b);
        assert_eq!(a[1..], b[1..]);
        let pixel = &curr[..bpp];
        let above = noise(bpp, 50 + bpp as u32);
        apply_filter_paeth(pixel, &above, bpp, &mut a);
        apply_filter_up(pixel, &above, &mut b);
        assert_eq!(a[1..1 + bpp], b[1..1 + bpp]);
    }
}
