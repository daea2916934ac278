//! The settings of the compressor and of the filter, and the names they go by.
use crate::text::{all_ascii, ascii_lowercase, lowercase, lowercase_of, same_text};
use vstd::prelude::*;
use vstd::string::*;

verus! {

/// Settings of the zlib compressor.
#[derive(Clone, Copy, Debug, PartialEq, Eq, Structural)]
pub struct ZlibOptions {
    pub level: i32,
    pub strategy: i32,
    pub window_bits: i32,
    pub mem_level: i32,
}

/// zlib's number for the strategy of that name, in lower case.
pub open spec fn strategy_named(name: Seq<char>) -> Option<i32> {
    if name == "default"@ {
        Some(0)
    } else if name == "filtered"@ {
        Some(1)
    } else if name == "huffman"@ {
        Some(2)
    } else if name == "rle"@ {
        Some(3)
    } else if name == "fixed"@ {
        Some(4)
    } else {
        None
    }
}

/// The filter setting of that name or number, in lower case.
pub open spec fn filter_named(name: Seq<char>) -> Option<u8> {
    if name == "none"@ || name == "0"@ {
        Some(0)
    } else if name == "sub"@ || name == "1"@ {
        Some(1)
    } else if name == "up"@ || name == "2"@ {
        Some(2)
    } else if name == "avg"@ || name == "average"@ || name == "3"@ {
        Some(3)
    } else if name == "paeth"@ || name == "4"@ {
        Some(4)
    } else if name == "adaptive"@ || name == "5"@ {
        Some(5)
    } else {
        None
    }
}

/// The five strategies have zlib's numbers, each under its name, and there are no other names.
pub proof fn law_strategies_by_name(name: Seq<char>)
    ensures
        strategy_named(name) == Some(0i32) <==> name == seq!['d', 'e', 'f', 'a', 'u', 'l', 't'],
        strategy_named(name) == Some(1i32) <==> name == seq![
            'f',
            'i',
            'l',
            't',
            'e',
            'r',
            'e',
            'd',
        ],
        strategy_named(name) == Some(2i32) <==> name == seq!['h', 'u', 'f', 'f', 'm', 'a', 'n'],
        strategy_named(name) == Some(3i32) <==> name == seq!['r', 'l', 'e'],
        strategy_named(name) == Some(4i32) <==> name == seq!['f', 'i', 'x', 'e', 'd'],
        strategy_named(name) matches Some(n) ==> 0 <= n <= 4,
{
    reveal_strlit("default");
    reveal_strlit("filtered");
    reveal_strlit("huffman");
    reveal_strlit("rle");
    reveal_strlit("fixed");
    assert("default"@ =~= seq!['d', 'e', 'f', 'a', 'u', 'l', 't']);
    assert("filtered"@ =~= seq!['f', 'i', 'l', 't', 'e', 'r', 'e', 'd']);
    assert("huffman"@ =~= seq!['h', 'u', 'f', 'f', 'm', 'a', 'n']);
    assert("rle"@ =~= seq!['r', 'l', 'e']);
    assert("fixed"@ =~= seq!['f', 'i', 'x', 'e', 'd']);
    assert("default"@[0] == 'd' && "huffman"@[0] == 'h' && "rle"@[0] == 'r');
    assert("filtered"@.len() == 8 && "fixed"@.len() == 5);
}

/// The six filter settings have their numbers, each under its name and under its digit, the
/// average under two names, and there are no other names.
pub proof fn law_filters_by_name(name: Seq<char>)
    ensures
        filter_named(name) == Some(0u8) <==> (name == seq!['n', 'o', 'n', 'e'] || name
            == seq!['0']),
        filter_named(name) == Some(1u8) <==> (name == seq!['s', 'u', 'b'] || name == seq!['1']),
        filter_named(name) == Some(2u8) <==> (name == seq!['u', 'p'] || name == seq!['2']),
        filter_named(name) == Some(3u8) <==> (name == seq!['a', 'v', 'g'] || name == seq![
            'a',
            'v',
            'e',
            'r',
            'a',
            'g',
            'e',
        ] || name == seq!['3']),
        filter_named(name) == Some(4u8) <==> (name == seq!['p', 'a', 'e', 't', 'h'] || name
            == seq!['4']),
        filter_named(name) == Some(5u8) <==> (name == seq![
            'a',
            'd',
            'a',
            'p',
            't',
            'i',
            'v',
            'e',
        ] || name == seq!['5']),
        filter_named(name) matches Some(n) ==> n <= 5,
{
    reveal_strlit("none");
    reveal_strlit("sub");
    reveal_strlit("up");
    reveal_strlit("avg");
    reveal_strlit("average");
    reveal_strlit("paeth");
    reveal_strlit("adaptive");
    reveal_strlit("0");
    reveal_strlit("1");
    reveal_strlit("2");
    reveal_strlit("3");
    reveal_strlit("4");
    reveal_strlit("5");
    assert("none"@ =~= seq!['n', 'o', 'n', 'e']);
    assert("sub"@ =~= seq!['s', 'u', 'b']);
    assert("up"@ =~= seq!['u', 'p']);
    assert("avg"@ =~= seq!['a', 'v', 'g']);
    assert("average"@ =~= seq!['a', 'v', 'e', 'r', 'a', 'g', 'e']);
    assert("paeth"@ =~= seq!['p', 'a', 'e', 't', 'h']);
    assert("adaptive"@ =~= seq!['a', 'd', 'a', 'p', 't', 'i', 'v', 'e']);
    assert("0"@ =~= seq!['0'] && "1"@ =~= seq!['1'] && "2"@ =~= seq!['2']);
    assert("3"@ =~= seq!['3'] && "4"@ =~= seq!['4'] && "5"@ =~= seq!['5']);
    assert("none"@[0] == 'n' && "sub"@[0] == 's' && "up"@[0] == 'u' && "paeth"@[0] == 'p');
    assert("avg"@[0] == 'a' && "average"@[0] == 'a' && "adaptive"@[0] == 'a');
    assert("avg"@.len() == 3 && "average"@.len() == 7 && "adaptive"@.len() == 8);
    assert("0"@[0] == '0' && "1"@[0] == '1' && "2"@[0] == '2');
    assert("3"@[0] == '3' && "4"@[0] == '4' && "5"@[0] == '5');
}

/// zlib's number for the strategy with this name in lower case.
pub fn strategy_code(name: &str) -> (r: Option<i32>)
    ensures
        r == strategy_named(name@),
{
    if same_text(name, "default") {
        Some(0)
    } else if same_text(name, "filtered") {
        Some(1)
    } else if same_text(name, "huffman") {
        Some(2)
    } else if same_text(name, "rle") {
        Some(3)
    } else if same_text(name, "fixed") {
        Some(4)
    } else {
        None
    }
}

/// The filter setting with this name or number in lower case.
pub fn filter_code(name: &str) -> (r: Option<u8>)
    ensures
        r == filter_named(name@),
{
    if same_text(name, "none") || same_text(name, "0") {
        Some(0)
    } else if same_text(name, "sub") || same_text(name, "1") {
        Some(1)
    } else if same_text(name, "up") || same_text(name, "2") {
        Some(2)
    } else if same_text(name, "avg") || same_text(name, "average") || same_text(name, "3") {
        Some(3)
    } else if same_text(name, "paeth") || same_text(name, "4") {
        Some(4)
    } else if same_text(name, "adaptive") || same_text(name, "5") {
        Some(5)
    } else {
        None
    }
}

/// zlib's number for the strategy that the user named, in capital or small letters.
pub fn parse_strategy(name: &str) -> (r: Option<i32>)
    ensures
        r == strategy_named(lowercase_of(name@)),
        all_ascii(name@) ==> r == strategy_named(ascii_lowercase(name@)),
{
    let lower = lowercase(name);
    strategy_code(lower.as_str())
}

/// The filter setting that the user named, in capital or small letters.
pub fn parse_filter(name: &str) -> (r: Option<u8>)
    ensures
        r == filter_named(lowercase_of(name@)),
        all_ascii(name@) ==> r == filter_named(ascii_lowercase(name@)),
{
    let lower = lowercase(name);
    filter_code(lower.as_str())
}

} // verus!
