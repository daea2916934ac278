use pngstreamenc::driver::callback_outcome;
use pngstreamenc::encoder::{row_size_fits, PngEncoder, Settings};
use pngstreamenc::header::ImageHeader;
use pngstreamenc::last_error::{get_last_error, set_last_error, LastError};
use pngstreamenc::options::{filter_code, parse_filter, parse_strategy, strategy_code};
use pngstreamenc::plan::{input_row_bytes, RowPlan};
use pngstreamenc::text::{parse_u32, push_decimal, push_signed_decimal, same_text};

#[test]
fn strategies_by_name() {
    let names = ["default", "filtered", "huffman", "rle", "fixed"];
    for (i, name) in names.iter().enumerate() {
        assert_eq!(strategy_code(name), Some(i as i32));
        assert_eq!(parse_strategy(name), Some(i as i32));
        assert_eq!(parse_strategy(&name.to_uppercase()), Some(i as i32));
    }
    assert_eq!(parse_strategy("Huffman"), Some(2));
    assert_eq!(strategy_code("Huffman"), None);
    assert_eq!(parse_strategy(""), None);
    assert_eq!(parse_strategy("r l e"), None);
}

#[test]
fn filters_by_name_and_number() {
    let names = [
        ("none", 0), ("sub", 1), ("up", 2), ("avg", 3), ("average", 3), ("paeth", 4),
        ("adaptive", 5), ("0", 0), ("1", 1), ("2", 2), ("3", 3), ("4", 4), ("5", 5),
    ];
    for (name, code) in names {
        assert_eq!(filter_code(name), Some(code));
        assert_eq!(parse_filter(&name.to_uppercase()), Some(code));
    }
    assert_eq!(filter_code("Sub"), None);
    assert_eq!(parse_filter("6"), None);
    assert_eq!(parse_filter("\u{130}"), None);
}

#[test]
fn numbers_to_and_from_decimal() {
    for n in [0u32, 1, 9, 10, 99, 100, 65535, 4294967295] {
        let mut s = String::from("n=");
        push_decimal(&mut s, n);
        assert_eq!(s, format!("n={}", n));
        assert_eq!(parse_u32(&s[2..]), Some(n));
    }
    for n in [0i32, -1, 17, i32::MIN, i32::MAX] {
        let mut s = String::new();
        push_signed_decimal(&mut s, n);
        assert_eq!(s, n.to_string());
    }
}

#[test]
fn number_syntax_agrees_with_the_standard_library() {
    for s in [
        "", "+", "-", "-0", "+5", "++5", "5+", "05", " 5", "5 ", "4294967295", "4294967296",
        "99999999999999999999999", "0000000000000000000000001", "1_000", "\u{0661}", "12a",
    ] {
        assert_eq!(parse_u32(s), s.parse::<u32>().ok());
    }
}

#[test]
fn text_comparison() {
    assert!(same_text("", ""));
    assert!(same_text("P6", "P6"));
    assert!(!same_text("P6", "P7"));
    assert!(!same_text("P6", "P66"));
    assert!(!same_text("\u{e9}", "e"));
}

#[test]
fn last_error_without_zero_bytes() {
    let mut last = LastError::new();
    assert_eq!(get_last_error(&last), Vec::<u8>::new());
    set_last_error(&mut last, "a\0b\u{e9}\0");
    assert_eq!(get_last_error(&last), [97, 98, 0xC3, 0xA9]);
    set_last_error(&mut last, "second");
    assert_eq!(get_last_error(&last), b"second");
}

#[test]
fn callback_counts() {
    assert_eq!(callback_outcome(5, 9), Ok(5));
    assert_eq!(callback_outcome(0, 0), Ok(0));
    assert_eq!(callback_outcome(0, 1), Err("FFI callback wrote 0 bytes".to_string()));
}

#[test]
fn rows_of_the_input() {
    assert_eq!(input_row_bytes(10, 0, 8), 10);
    assert_eq!(input_row_bytes(10, 2, 16), 60);
    assert_eq!(input_row_bytes(10, 4, 8), 20);
    assert_eq!(input_row_bytes(10, 6, 8), 40);
    assert_eq!(input_row_bytes(10, 9, 8), 30);
    assert_eq!(input_row_bytes(10, 2, 0), 0);
    assert_eq!(input_row_bytes(3, 0, 1), 0);
    assert!(row_size_fits(4294967295, 255, 6));
}

#[test]
fn rows_of_the_input_match_those_of_the_encoder() {
    for color_type in [0, 2, 4, 6] {
        for bit_depth in [8, 16] {
            for width in [0, 1, 17, 1000] {
                let s = Settings { width, height: 1, bit_depth, color_type, filter_type: 0 };
                let expected = PngEncoder::new(s).bytes_per_scanline;
                assert_eq!(input_row_bytes(width, color_type, bit_depth), expected);
            }
        }
    }
}

#[test]
fn batches_cover_the_image() {
    let header = ImageHeader { width: 4, height: 10, bit_depth: 8, color_type: 2 };
    let mut plan = RowPlan::for_image(header, 4).unwrap();
    assert_eq!(plan.buffer_len(), 48);
    let mut sizes = Vec::new();
    while let Some(batch) = plan.next_batch() {
        assert_eq!(batch.bytes, batch.lines as usize * 12);
        sizes.push(batch.lines);
        plan.advance(batch.lines);
    }
    assert_eq!(sizes, [4, 4, 2]);
    assert_eq!(plan.rows_done(), 10);
}

#[test]
fn plan_without_rows_or_without_batches() {
    assert_eq!(RowPlan::new(0, 4, 12).next_batch(), None);
    let stuck = RowPlan::new(3, 0, 12);
    assert_eq!(stuck.next_batch().map(|b| (b.lines, b.bytes)), Some((0, 0)));
}

#[test]
fn plan_that_is_too_large() {
    let header = ImageHeader { width: 4294967295, height: 1, bit_depth: 16, color_type: 6 };
    assert!(RowPlan::for_image(header, 4294967295).is_none());
}
