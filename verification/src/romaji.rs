//! Incremental romaji-to-hiragana composition.

use vstd::prelude::*;

use crate::text::{push_char, same_chars};
use vstd::string::StringExecFns;

verus! {

/// The number of rows of the romaji table.
pub const TABLE_LEN: usize = 139;

/// Row `i` of the romaji table: a romaji spelling and the kana it stands for.
pub open spec fn table_row(i: usize) -> (Seq<char>, Seq<char>) {
    match i {
        0 => (seq!['a'], seq!['あ']),
        1 => (seq!['i'], seq!['い']),
        2 => (seq!['u'], seq!['う']),
        3 => (seq!['e'], seq!['え']),
        4 => (seq!['o'], seq!['お']),
        5 => (seq!['k', 'a'], seq!['か']),
        6 => (seq!['k', 'i'], seq!['き']),
        7 => (seq!['k', 'u'], seq!['く']),
        8 => (seq!['k', 'e'], seq!['け']),
        9 => (seq!['k', 'o'], seq!['こ']),
        10 => (seq!['k', 'y', 'a'], seq!['き', 'ゃ']),
        11 => (seq!['k', 'y', 'u'], seq!['き', 'ゅ']),
        12 => (seq!['k', 'y', 'o'], seq!['き', 'ょ']),
        13 => (seq!['g', 'a'], seq!['が']),
        14 => (seq!['g', 'i'], seq!['ぎ']),
        15 => (seq!['g', 'u'], seq!['ぐ']),
        16 => (seq!['g', 'e'], seq!['げ']),
        17 => (seq!['g', 'o'], seq!['ご']),
        18 => (seq!['g', 'y', 'a'], seq!['ぎ', 'ゃ']),
        19 => (seq!['g', 'y', 'u'], seq!['ぎ', 'ゅ']),
        20 => (seq!['g', 'y', 'o'], seq!['ぎ', 'ょ']),
        21 => (seq!['s', 'a'], seq!['さ']),
        22 => (seq!['s', 'i'], seq!['し']),
        23 => (seq!['s', 'h', 'i'], seq!['し']),
        24 => (seq!['s', 'u'], seq!['す']),
        25 => (seq!['s', 'e'], seq!['せ']),
        26 => (seq!['s', 'o'], seq!['そ']),
        27 => (seq!['s', 'y', 'a'], seq!['し', 'ゃ']),
        28 => (seq!['s', 'y', 'u'], seq!['し', 'ゅ']),
        29 => (seq!['s', 'y', 'o'], seq!['し', 'ょ']),
        30 => (seq!['s', 'h', 'a'], seq!['し', 'ゃ']),
        31 => (seq!['s', 'h', 'u'], seq!['し', 'ゅ']),
        32 => (seq!['s', 'h', 'o'], seq!['し', 'ょ']),
        33 => (seq!['z', 'a'], seq!['ざ']),
        34 => (seq!['z', 'i'], seq!['じ']),
        35 => (seq!['j', 'i'], seq!['じ']),
        36 => (seq!['z', 'u'], seq!['ず']),
        37 => (seq!['z', 'e'], seq!['ぜ']),
        38 => (seq!['z', 'o'], seq!['ぞ']),
        39 => (seq!['z', 'y', 'a'], seq!['じ', 'ゃ']),
        40 => (seq!['z', 'y', 'u'], seq!['じ', 'ゅ']),
        41 => (seq!['z', 'y', 'o'], seq!['じ', 'ょ']),
        42 => (seq!['j', 'a'], seq!['じ', 'ゃ']),
        43 => (seq!['j', 'u'], seq!['じ', 'ゅ']),
        44 => (seq!['j', 'o'], seq!['じ', 'ょ']),
        45 => (seq!['t', 'a'], seq!['た']),
        46 => (seq!['t', 'i'], seq!['ち']),
        47 => (seq!['c', 'h', 'i'], seq!['ち']),
        48 => (seq!['t', 'u'], seq!['つ']),
        49 => (seq!['t', 's', 'u'], seq!['つ']),
        50 => (seq!['t', 'e'], seq!['て']),
        51 => (seq!['t', 'o'], seq!['と']),
        52 => (seq!['t', 'y', 'a'], seq!['ち', 'ゃ']),
        53 => (seq!['t', 'y', 'u'], seq!['ち', 'ゅ']),
        54 => (seq!['t', 'y', 'o'], seq!['ち', 'ょ']),
        55 => (seq!['c', 'h', 'a'], seq!['ち', 'ゃ']),
        56 => (seq!['c', 'h', 'u'], seq!['ち', 'ゅ']),
        57 => (seq!['c', 'h', 'o'], seq!['ち', 'ょ']),
        58 => (seq!['d', 'a'], seq!['だ']),
        59 => (seq!['d', 'i'], seq!['ぢ']),
        60 => (seq!['d', 'u'], seq!['づ']),
        61 => (seq!['d', 'e'], seq!['で']),
        62 => (seq!['d', 'o'], seq!['ど']),
        63 => (seq!['d', 'y', 'a'], seq!['ぢ', 'ゃ']),
        64 => (seq!['d', 'y', 'u'], seq!['ぢ', 'ゅ']),
        65 => (seq!['d', 'y', 'o'], seq!['ぢ', 'ょ']),
        66 => (seq!['n', 'a'], seq!['な']),
        67 => (seq!['n', 'i'], seq!['に']),
        68 => (seq!['n', 'u'], seq!['ぬ']),
        69 => (seq!['n', 'e'], seq!['ね']),
        70 => (seq!['n', 'o'], seq!['の']),
        71 => (seq!['n', 'y', 'a'], seq!['に', 'ゃ']),
        72 => (seq!['n', 'y', 'u'], seq!['に', 'ゅ']),
        73 => (seq!['n', 'y', 'o'], seq!['に', 'ょ']),
        74 => (seq!['n'], seq!['ん']),
        75 => (seq!['h', 'a'], seq!['は']),
        76 => (seq!['h', 'i'], seq!['ひ']),
        77 => (seq!['h', 'u'], seq!['ふ']),
        78 => (seq!['f', 'u'], seq!['ふ']),
        79 => (seq!['h', 'e'], seq!['へ']),
        80 => (seq!['h', 'o'], seq!['ほ']),
        81 => (seq!['h', 'y', 'a'], seq!['ひ', 'ゃ']),
        82 => (seq!['h', 'y', 'u'], seq!['ひ', 'ゅ']),
        83 => (seq!['h', 'y', 'o'], seq!['ひ', 'ょ']),
        84 => (seq!['b', 'a'], seq!['ば']),
        85 => (seq!['b', 'i'], seq!['び']),
        86 => (seq!['b', 'u'], seq!['ぶ']),
        87 => (seq!['b', 'e'], seq!['べ']),
        88 => (seq!['b', 'o'], seq!['ぼ']),
        89 => (seq!['b', 'y', 'a'], seq!['び', 'ゃ']),
        90 => (seq!['b', 'y', 'u'], seq!['び', 'ゅ']),
        91 => (seq!['b', 'y', 'o'], seq!['び', 'ょ']),
        92 => (seq!['p', 'a'], seq!['ぱ']),
        93 => (seq!['p', 'i'], seq!['ぴ']),
        94 => (seq!['p', 'u'], seq!['ぷ']),
        95 => (seq!['p', 'e'], seq!['ぺ']),
        96 => (seq!['p', 'o'], seq!['ぽ']),
        97 => (seq!['p', 'y', 'a'], seq!['ぴ', 'ゃ']),
        98 => (seq!['p', 'y', 'u'], seq!['ぴ', 'ゅ']),
        99 => (seq!['p', 'y', 'o'], seq!['ぴ', 'ょ']),
        100 => (seq!['m', 'a'], seq!['ま']),
        101 => (seq!['m', 'i'], seq!['み']),
        102 => (seq!['m', 'u'], seq!['む']),
        103 => (seq!['m', 'e'], seq!['め']),
        104 => (seq!['m', 'o'], seq!['も']),
        105 => (seq!['m', 'y', 'a'], seq!['み', 'ゃ']),
        106 => (seq!['m', 'y', 'u'], seq!['み', 'ゅ']),
        107 => (seq!['m', 'y', 'o'], seq!['み', 'ょ']),
        108 => (seq!['y', 'a'], seq!['や']),
        109 => (seq!['y', 'u'], seq!['ゆ']),
        110 => (seq!['y', 'o'], seq!['よ']),
        111 => (seq!['r', 'a'], seq!['ら']),
        112 => (seq!['r', 'i'], seq!['り']),
        113 => (seq!['r', 'u'], seq!['る']),
        114 => (seq!['r', 'e'], seq!['れ']),
        115 => (seq!['r', 'o'], seq!['ろ']),
        116 => (seq!['r', 'y', 'a'], seq!['り', 'ゃ']),
        117 => (seq!['r', 'y', 'u'], seq!['り', 'ゅ']),
        118 => (seq!['r', 'y', 'o'], seq!['り', 'ょ']),
        119 => (seq!['w', 'a'], seq!['わ']),
        120 => (seq!['w', 'o'], seq!['を']),
        121 => (seq!['x', 'y', 'a'], seq!['ゃ']),
        122 => (seq!['x', 'y', 'u'], seq!['ゅ']),
        123 => (seq!['x', 'y', 'o'], seq!['ょ']),
        124 => (seq!['l', 'y', 'a'], seq!['ゃ']),
        125 => (seq!['l', 'y', 'u'], seq!['ゅ']),
        126 => (seq!['l', 'y', 'o'], seq!['ょ']),
        127 => (seq!['x', 't', 'u'], seq!['っ']),
        128 => (seq!['l', 't', 'u'], seq!['っ']),
        129 => (seq!['x', 'a'], seq!['ぁ']),
        130 => (seq!['x', 'i'], seq!['ぃ']),
        131 => (seq!['x', 'u'], seq!['ぅ']),
        132 => (seq!['x', 'e'], seq!['ぇ']),
        133 => (seq!['x', 'o'], seq!['ぉ']),
        134 => (seq!['l', 'a'], seq!['ぁ']),
        135 => (seq!['l', 'i'], seq!['ぃ']),
        136 => (seq!['l', 'u'], seq!['ぅ']),
        137 => (seq!['l', 'e'], seq!['ぇ']),
        138 => (seq!['l', 'o'], seq!['ぉ']),
        _ => (Seq::empty(), Seq::empty()),
    }
}

fn table_row_exec(i: usize) -> (r: (Vec<char>, Vec<char>))
    requires
        i < TABLE_LEN,
    ensures
        r.0@ == table_row(i).0,
        r.1@ == table_row(i).1,
{
    match i {
        0 => (vec!['a'], vec!['あ']),
        1 => (vec!['i'], vec!['い']),
        2 => (vec!['u'], vec!['う']),
        3 => (vec!['e'], vec!['え']),
        4 => (vec!['o'], vec!['お']),
        5 => (vec!['k', 'a'], vec!['か']),
        6 => (vec!['k', 'i'], vec!['き']),
        7 => (vec!['k', 'u'], vec!['く']),
        8 => (vec!['k', 'e'], vec!['け']),
        9 => (vec!['k', 'o'], vec!['こ']),
        10 => (vec!['k', 'y', 'a'], vec!['き', 'ゃ']),
        11 => (vec!['k', 'y', 'u'], vec!['き', 'ゅ']),
        12 => (vec!['k', 'y', 'o'], vec!['き', 'ょ']),
        13 => (vec!['g', 'a'], vec!['が']),
        14 => (vec!['g', 'i'], vec!['ぎ']),
        15 => (vec!['g', 'u'], vec!['ぐ']),
        16 => (vec!['g', 'e'], vec!['げ']),
        17 => (vec!['g', 'o'], vec!['ご']),
        18 => (vec!['g', 'y', 'a'], vec!['ぎ', 'ゃ']),
        19 => (vec!['g', 'y', 'u'], vec!['ぎ', 'ゅ']),
        20 => (vec!['g', 'y', 'o'], vec!['ぎ', 'ょ']),
        21 => (vec!['s', 'a'], vec!['さ']),
        22 => (vec!['s', 'i'], vec!['し']),
        23 => (vec!['s', 'h', 'i'], vec!['し']),
        24 => (vec!['s', 'u'], vec!['す']),
        25 => (vec!['s', 'e'], vec!['せ']),
        26 => (vec!['s', 'o'], vec!['そ']),
        27 => (vec!['s', 'y', 'a'], vec!['し', 'ゃ']),
        28 => (vec!['s', 'y', 'u'], vec!['し', 'ゅ']),
        29 => (vec!['s', 'y', 'o'], vec!['し', 'ょ']),
        30 => (vec!['s', 'h', 'a'], vec!['し', 'ゃ']),
        31 => (vec!['s', 'h', 'u'], vec!['し', 'ゅ']),
        32 => (vec!['s', 'h', 'o'], vec!['し', 'ょ']),
        33 => (vec!['z', 'a'], vec!['ざ']),
        34 => (vec!['z', 'i'], vec!['じ']),
        35 => (vec!['j', 'i'], vec!['じ']),
        36 => (vec!['z', 'u'], vec!['ず']),
        37 => (vec!['z', 'e'], vec!['ぜ']),
        38 => (vec!['z', 'o'], vec!['ぞ']),
        39 => (vec!['z', 'y', 'a'], vec!['じ', 'ゃ']),
        40 => (vec!['z', 'y', 'u'], vec!['じ', 'ゅ']),
        41 => (vec!['z', 'y', 'o'], vec!['じ', 'ょ']),
        42 => (vec!['j', 'a'], vec!['じ', 'ゃ']),
        43 => (vec!['j', 'u'], vec!['じ', 'ゅ']),
        44 => (vec!['j', 'o'], vec!['じ', 'ょ']),
        45 => (vec!['t', 'a'], vec!['た']),
        46 => (vec!['t', 'i'], vec!['ち']),
        47 => (vec!['c', 'h', 'i'], vec!['ち']),
        48 => (vec!['t', 'u'], vec!['つ']),
        49 => (vec!['t', 's', 'u'], vec!['つ']),
        50 => (vec!['t', 'e'], vec!['て']),
        51 => (vec!['t', 'o'], vec!['と']),
        52 => (vec!['t', 'y', 'a'], vec!['ち', 'ゃ']),
        53 => (vec!['t', 'y', 'u'], vec!['ち', 'ゅ']),
        54 => (vec!['t', 'y', 'o'], vec!['ち', 'ょ']),
        55 => (vec!['c', 'h', 'a'], vec!['ち', 'ゃ']),
        56 => (vec!['c', 'h', 'u'], vec!['ち', 'ゅ']),
        57 => (vec!['c', 'h', 'o'], vec!['ち', 'ょ']),
        58 => (vec!['d', 'a'], vec!['だ']),
        59 => (vec!['d', 'i'], vec!['ぢ']),
        60 => (vec!['d', 'u'], vec!['づ']),
        61 => (vec!['d', 'e'], vec!['で']),
        62 => (vec!['d', 'o'], vec!['ど']),
        63 => (vec!['d', 'y', 'a'], vec!['ぢ', 'ゃ']),
        64 => (vec!['d', 'y', 'u'], vec!['ぢ', 'ゅ']),
        65 => (vec!['d', 'y', 'o'], vec!['ぢ', 'ょ']),
        66 => (vec!['n', 'a'], vec!['な']),
        67 => (vec!['n', 'i'], vec!['に']),
        68 => (vec!['n', 'u'], vec!['ぬ']),
        69 => (vec!['n', 'e'], vec!['ね']),
        70 => (vec!['n', 'o'], vec!['の']),
        71 => (vec!['n', 'y', 'a'], vec!['に', 'ゃ']),
        72 => (vec!['n', 'y', 'u'], vec!['に', 'ゅ']),
        73 => (vec!['n', 'y', 'o'], vec!['に', 'ょ']),
        74 => (vec!['n'], vec!['ん']),
        75 => (vec!['h', 'a'], vec!['は']),
        76 => (vec!['h', 'i'], vec!['ひ']),
        77 => (vec!['h', 'u'], vec!['ふ']),
        78 => (vec!['f', 'u'], vec!['ふ']),
        79 => (vec!['h', 'e'], vec!['へ']),
        80 => (vec!['h', 'o'], vec!['ほ']),
        81 => (vec!['h', 'y', 'a'], vec!['ひ', 'ゃ']),
        82 => (vec!['h', 'y', 'u'], vec!['ひ', 'ゅ']),
        83 => (vec!['h', 'y', 'o'], vec!['ひ', 'ょ']),
        84 => (vec!['b', 'a'], vec!['ば']),
        85 => (vec!['b', 'i'], vec!['び']),
        86 => (vec!['b', 'u'], vec!['ぶ']),
        87 => (vec!['b', 'e'], vec!['べ']),
        88 => (vec!['b', 'o'], vec!['ぼ']),
        89 => (vec!['b', 'y', 'a'], vec!['び', 'ゃ']),
        90 => (vec!['b', 'y', 'u'], vec!['び', 'ゅ']),
        91 => (vec!['b', 'y', 'o'], vec!['び', 'ょ']),
        92 => (vec!['p', 'a'], vec!['ぱ']),
        93 => (vec!['p', 'i'], vec!['ぴ']),
        94 => (vec!['p', 'u'], vec!['ぷ']),
        95 => (vec!['p', 'e'], vec!['ぺ']),
        96 => (vec!['p', 'o'], vec!['ぽ']),
        97 => (vec!['p', 'y', 'a'], vec!['ぴ', 'ゃ']),
        98 => (vec!['p', 'y', 'u'], vec!['ぴ', 'ゅ']),
        99 => (vec!['p', 'y', 'o'], vec!['ぴ', 'ょ']),
        100 => (vec!['m', 'a'], vec!['ま']),
        101 => (vec!['m', 'i'], vec!['み']),
        102 => (vec!['m', 'u'], vec!['む']),
        103 => (vec!['m', 'e'], vec!['め']),
        104 => (vec!['m', 'o'], vec!['も']),
        105 => (vec!['m', 'y', 'a'], vec!['み', 'ゃ']),
        106 => (vec!['m', 'y', 'u'], vec!['み', 'ゅ']),
        107 => (vec!['m', 'y', 'o'], vec!['み', 'ょ']),
        108 => (vec!['y', 'a'], vec!['や']),
        109 => (vec!['y', 'u'], vec!['ゆ']),
        110 => (vec!['y', 'o'], vec!['よ']),
        111 => (vec!['r', 'a'], vec!['ら']),
        112 => (vec!['r', 'i'], vec!['り']),
        113 => (vec!['r', 'u'], vec!['る']),
        114 => (vec!['r', 'e'], vec!['れ']),
        115 => (vec!['r', 'o'], vec!['ろ']),
        116 => (vec!['r', 'y', 'a'], vec!['り', 'ゃ']),
        117 => (vec!['r', 'y', 'u'], vec!['り', 'ゅ']),
        118 => (vec!['r', 'y', 'o'], vec!['り', 'ょ']),
        119 => (vec!['w', 'a'], vec!['わ']),
        120 => (vec!['w', 'o'], vec!['を']),
        121 => (vec!['x', 'y', 'a'], vec!['ゃ']),
        122 => (vec!['x', 'y', 'u'], vec!['ゅ']),
        123 => (vec!['x', 'y', 'o'], vec!['ょ']),
        124 => (vec!['l', 'y', 'a'], vec!['ゃ']),
        125 => (vec!['l', 'y', 'u'], vec!['ゅ']),
        126 => (vec!['l', 'y', 'o'], vec!['ょ']),
        127 => (vec!['x', 't', 'u'], vec!['っ']),
        128 => (vec!['l', 't', 'u'], vec!['っ']),
        129 => (vec!['x', 'a'], vec!['ぁ']),
        130 => (vec!['x', 'i'], vec!['ぃ']),
        131 => (vec!['x', 'u'], vec!['ぅ']),
        132 => (vec!['x', 'e'], vec!['ぇ']),
        133 => (vec!['x', 'o'], vec!['ぉ']),
        134 => (vec!['l', 'a'], vec!['ぁ']),
        135 => (vec!['l', 'i'], vec!['ぃ']),
        136 => (vec!['l', 'u'], vec!['ぅ']),
        137 => (vec!['l', 'e'], vec!['ぇ']),
        138 => (vec!['l', 'o'], vec!['ぉ']),
        _ => (Vec::new(), Vec::new()),
    }
}


/// The kana of the first table row spelled exactly `input`, looking from row `i` on.
pub open spec fn kana_from(input: Seq<char>, i: int) -> Option<Seq<char>>
    decreases TABLE_LEN - i,
{
    if i < 0 || i >= TABLE_LEN {
        None
    } else if table_row(i as usize).0 == input {
        Some(table_row(i as usize).1)
    } else {
        kana_from(input, i + 1)
    }
}

/// The kana of the table row spelled exactly `input`, if there is one.
pub open spec fn exact_match(input: Seq<char>) -> Option<Seq<char>> {
    kana_from(input, 0)
}

/// Some table spelling begins with `input`.
pub open spec fn has_prefix(input: Seq<char>) -> bool {
    exists|i: usize| i < TABLE_LEN && input.is_prefix_of(#[trigger] table_row(i).0)
}

/// Some table spelling longer than `input` begins with it.
pub open spec fn has_longer_match(input: Seq<char>) -> bool {
    exists|i: usize|
        i < TABLE_LEN && table_row(i).0.len() > input.len() && input.is_prefix_of(
            #[trigger] table_row(i).0,
        )
}

pub open spec fn is_vowel(c: char) -> bool {
    c == 'a' || c == 'i' || c == 'u' || c == 'e' || c == 'o'
}

pub open spec fn is_ascii_letter(c: char) -> bool {
    ('a' <= c && c <= 'z') || ('A' <= c && c <= 'Z')
}

pub open spec fn is_consonant(c: char) -> bool {
    is_ascii_letter(c) && !is_vowel(c)
}

/// The characters that `push` accepts: ASCII letters and the apostrophe.
pub open spec fn is_romaji_char(c: char) -> bool {
    is_ascii_letter(c) || c == '\''
}

/// `c` with an upper-case ASCII letter turned into lower case.
pub open spec fn lower(c: char) -> char {
    if 'A' <= c && c <= 'Z' {
        ((c as u32) + 32) as char
    } else {
        c
    }
}

/// What pending input can hold: lower-case ASCII letters and apostrophes.
pub open spec fn pending_ok(p: Seq<char>) -> bool {
    forall|i: int| 0 <= i < p.len() ==> (('a' <= #[trigger] p[i] && p[i] <= 'z') || p[i] == '\'')
}

/// Resolves as much of the pending input `p` as has become unambiguous,
/// giving the kana emitted and the input left pending. With `flush`, a
/// spelling that a longer one could still extend is resolved too.
///
/// Rules, tried in order at the front of the input:
/// - a doubled consonant other than `n` gives `っ` and drops one of the pair;
/// - `n'` gives `ん`;
/// - `n` before `n`, or before a consonant other than `y`, gives `ん`;
/// - input spelled exactly as a table row (that no longer row extends,
///   unless flushing) gives that row's kana;
/// - input that begins a table spelling, or one lone character, waits;
/// - otherwise the first character is passed through as it is.
pub open spec fn resolve(p: Seq<char>, flush: bool) -> (Seq<char>, Seq<char>)
    decreases p.len(),
{
    if p.len() == 0 {
        (Seq::empty(), p)
    } else if p.len() >= 2 && p[0] == p[1] && is_consonant(p[0]) && p[0] != 'n' {
        let r = resolve(p.drop_first(), flush);
        (seq!['っ'] + r.0, r.1)
    } else if p.len() >= 2 && p[0] == 'n' && p[1] == '\'' {
        let r = resolve(p.subrange(2, p.len() as int), flush);
        (seq!['ん'] + r.0, r.1)
    } else if p.len() >= 2 && p[0] == 'n' && (p[1] == 'n' || (!is_vowel(p[1]) && p[1] != 'y')) {
        let r = resolve(p.drop_first(), flush);
        (seq!['ん'] + r.0, r.1)
    } else if exact_match(p) is Some && (flush || !has_longer_match(p)) {
        (exact_match(p)->0, Seq::empty())
    } else if has_prefix(p) || p.len() == 1 {
        (Seq::empty(), p)
    } else {
        let r = resolve(p.drop_first(), flush);
        (seq![p[0]] + r.0, r.1)
    }
}

fn is_vowel_exec(c: char) -> (r: bool)
    ensures
        r == is_vowel(c),
{
    c == 'a' || c == 'i' || c == 'u' || c == 'e' || c == 'o'
}

fn is_consonant_exec(c: char) -> (r: bool)
    ensures
        r == is_consonant(c),
{
    (('a' <= c && c <= 'z') || ('A' <= c && c <= 'Z')) && !is_vowel_exec(c)
}

/// `a` begins `b`.
fn is_prefix_exec(a: &Vec<char>, b: &Vec<char>) -> (r: bool)
    ensures
        r == a@.is_prefix_of(b@),
{
    if a.len() > b.len() {
        return false;
    }
    for i in 0..a.len()
        invariant
            a@.len() <= b@.len(),
            forall|t: int| 0 <= t < i ==> a@[t] == b@[t],
    {
        if a[i] != b[i] {
            assert(b@.subrange(0, a@.len() as int)[i as int] != a@[i as int]);
            return false;
        }
    }
    assert(a@ =~= b@.subrange(0, a@.len() as int));
    true
}

/// The kana of the table row spelled exactly `input`.
fn exact_match_exec(input: &Vec<char>) -> (r: Option<Vec<char>>)
    ensures
        match r {
            Some(k) => exact_match(input@) == Some(k@),
            None => exact_match(input@) is None,
        },
{
    let mut i: usize = 0;
    while i < TABLE_LEN
        invariant
            i <= TABLE_LEN,
            exact_match(input@) == kana_from(input@, i as int),
        decreases TABLE_LEN - i,
    {
        let (romaji, kana) = table_row_exec(i);
        if same_chars(romaji.as_slice(), input.as_slice()) {
            return Some(kana);
        }
        i = i + 1;
    }
    None
}

/// Some table spelling begins with `input` (and, with `longer`, is longer
/// than it).
fn prefix_search(input: &Vec<char>, longer: bool) -> (r: bool)
    ensures
        !longer ==> r == has_prefix(input@),
        longer ==> r == has_longer_match(input@),
{
    for i in 0..TABLE_LEN
        invariant
            forall|t: usize|
                t < i ==> !(input@.is_prefix_of(#[trigger] table_row(t).0) && (longer ==> table_row(t).0.len()
                    > input@.len())),
    {
        let (romaji, _kana) = table_row_exec(i);
        if (!longer || romaji.len() > input.len()) && is_prefix_exec(input, &romaji) {
            return true;
        }
    }
    false
}

/// A character that is not an ASCII letter or an apostrophe.
#[derive(Clone, Copy, Debug, PartialEq, Eq)]
pub struct InvalidRomaji(pub char);

/// Incremental romaji-to-hiragana composition: the romaji typed and not yet
/// resolved is held pending.
#[derive(Clone, Debug, PartialEq, Eq)]
pub struct RomajiComposer {
    pending: Vec<char>,
}

impl View for RomajiComposer {
    type V = Seq<char>;

    closed spec fn view(&self) -> Seq<char> {
        self.pending@
    }
}

impl Default for RomajiComposer {
    fn default() -> (r: Self)
        ensures
            r@ == Seq::<char>::empty(),
    {
        Self::new()
    }
}

impl RomajiComposer {
    /// A composer with nothing pending.
    pub fn new() -> (r: Self)
        ensures
            r@ == Seq::<char>::empty(),
            reachable_pending(r@),
    {
        proof {
            law_empty_pending_reachable();
        }
        RomajiComposer { pending: Vec::new() }
    }

    /// Adds one ASCII letter (or an apostrophe), lower-cased, and returns any
    /// hiragana that became unambiguous; the rest stays pending. Any other
    /// character is refused with `InvalidRomaji` and leaves the composer as
    /// it was.
    pub fn push(&mut self, character: char) -> (result: Result<String, InvalidRomaji>)
        ensures
            !is_romaji_char(character) ==> result == Err::<String, InvalidRomaji>(InvalidRomaji(character))
                && final(self)@ == old(self)@,
            is_romaji_char(character) ==> result is Ok && result->Ok_0@ == resolve(
                old(self)@.push(lower(character)),
                false,
            ).0 && final(self)@ == resolve(old(self)@.push(lower(character)), false).1,
            pending_ok(old(self)@) ==> pending_ok(final(self)@),
            reachable_pending(old(self)@) ==> reachable_pending(final(self)@),
    {
        proof {
            if pending_ok(old(self)@) && is_romaji_char(character) {
                law_pending_stays_romaji(old(self)@, character);
            }
            if reachable_pending(old(self)@) && is_romaji_char(character) {
                law_push_keeps_pending_reachable(old(self)@, character);
            }
        }
        if !(('a' <= character && character <= 'z') || ('A' <= character && character <= 'Z')
            || character == '\'') {
            return Err(InvalidRomaji(character));
        }
        let lowered = if 'A' <= character && character <= 'Z' {
            ((character as u8) + 32) as char
        } else {
            character
        };
        self.pending.push(lowered);
        Ok(self.resolve(false))
    }

    /// The romaji typed and not yet resolved.
    pub fn pending(&self) -> (s: String)
        ensures
            s@ == self@,
    {
        crate::text::string_of(self.pending.as_slice())
    }

    /// Removes the last pending romaji character; false when nothing was
    /// pending.
    pub fn backspace(&mut self) -> (removed: bool)
        ensures
            removed == (old(self)@.len() > 0),
            final(self)@ == if removed { old(self)@.drop_last() } else { old(self)@ },
            pending_ok(old(self)@) ==> pending_ok(final(self)@),
            reachable_pending(old(self)@) ==> reachable_pending(final(self)@),
    {
        proof {
            if reachable_pending(old(self)@) && old(self)@.len() > 0 {
                law_backspace_keeps_pending_reachable(old(self)@);
            }
        }
        self.pending.pop().is_some()
    }

    /// Resolves everything pending, a trailing `n` included, and returns it;
    /// input that spells nothing is returned as it is. Nothing stays pending.
    pub fn flush(&mut self) -> (s: String)
        ensures
            s@ == resolve(old(self)@, true).0 + resolve(old(self)@, true).1,
            final(self)@ == Seq::<char>::empty(),
            reachable_pending(final(self)@),
    {
        proof {
            law_empty_pending_reachable();
        }
        let mut output = self.resolve(true);
        let rest = crate::text::string_of(self.pending.as_slice());
        output.append(rest.as_str());
        self.pending.clear();
        output
    }

    /// Drops everything pending.
    pub fn clear(&mut self)
        ensures
            final(self)@ == Seq::<char>::empty(),
            reachable_pending(final(self)@),
    {
        proof {
            law_empty_pending_reachable();
        }
        self.pending.clear();
    }

    fn resolve(&mut self, flush: bool) -> (output: String)
        ensures
            output@ == resolve(old(self)@, flush).0,
            final(self)@ == resolve(old(self)@, flush).1,
    {
        let ghost start = self.pending@;
        let mut output = String::new();
        loop
            invariant
                resolve(start, flush) == (output@ + resolve(self.pending@, flush).0, resolve(
                    self.pending@,
                    flush,
                ).1),
            ensures
                output@ == resolve(start, flush).0,
                self.pending@ == resolve(start, flush).1,
            decreases self.pending@.len(),
        {
            let ghost p = self.pending@;
            let len = self.pending.len();
            if len == 0 {
                assert(output@ + Seq::<char>::empty() =~= output@);
                break;
            }
            if len >= 2 {
                let first = self.pending[0];
                let second = self.pending[1];
                if first == second && is_consonant_exec(first) && first != 'n' {
                    push_char(&mut output, 'っ');
                    self.pending.remove(0);
                    assert(self.pending@ =~= p.drop_first());
                    assert(output@ + resolve(self.pending@, flush).0 =~= output@.drop_last() + (seq!['っ'] + resolve(self.pending@, flush).0));
                    continue;
                }
                if first == 'n' {
                    if second == '\'' {
                        push_char(&mut output, 'ん');
                        self.pending.remove(0);
                        self.pending.remove(0);
                        assert(self.pending@ =~= p.subrange(2, p.len() as int));
                        assert(output@ + resolve(self.pending@, flush).0 =~= output@.drop_last() + (seq!['ん'] + resolve(self.pending@, flush).0));
                        continue;
                    }
                    if second == 'n' || (!is_vowel_exec(second) && second != 'y') {
                        push_char(&mut output, 'ん');
                        self.pending.remove(0);
                        assert(self.pending@ =~= p.drop_first());
                        assert(output@ + resolve(self.pending@, flush).0 =~= output@.drop_last() + (seq!['ん'] + resolve(self.pending@, flush).0));
                        continue;
                    }
                }
            }
            match exact_match_exec(&self.pending) {
                Some(kana) => {
                    if flush || !prefix_search(&self.pending, true) {
                        let ghost before = output@;
                        output.append(crate::text::string_of(kana.as_slice()).as_str());
                        self.pending.clear();
                        assert(output@ + resolve(self.pending@, flush).0 =~= output@);
                        continue;
                    }
                },
                None => {},
            }
            if prefix_search(&self.pending, false) || len == 1 {
                assert(output@ + Seq::<char>::empty() =~= output@);
                break;
            }
            let c = self.pending.remove(0);
            push_char(&mut output, c);
            assert(self.pending@ =~= p.drop_first());
            assert(output@ + resolve(self.pending@, flush).0 =~= output@.drop_last() + (seq![c] + resolve(self.pending@, flush).0));
        }
        output
    }
}


/// What stays pending after resolving is the tail of the input: resolving
/// only ever takes characters from the front.
pub proof fn law_pending_is_suffix(p: Seq<char>, flush: bool)
    ensures
        resolve(p, flush).1.len() <= p.len(),
        resolve(p, flush).1 == p.skip(p.len() - resolve(p, flush).1.len()),
    decreases p.len(),
{
    let rest = resolve(p, flush).1;
    if p.len() == 0 {
        assert(p.skip(0) =~= p);
    } else if p.len() >= 2 && p[0] == p[1] && is_consonant(p[0]) && p[0] != 'n' {
        law_pending_is_suffix(p.drop_first(), flush);
        assert(p.drop_first().skip(p.len() - 1 - rest.len()) =~= p.skip(p.len() - rest.len()));
    } else if p.len() >= 2 && p[0] == 'n' && p[1] == '\'' {
        let q = p.subrange(2, p.len() as int);
        law_pending_is_suffix(q, flush);
        assert(q.skip(q.len() - rest.len()) =~= p.skip(p.len() - rest.len()));
    } else if p.len() >= 2 && p[0] == 'n' && (p[1] == 'n' || (!is_vowel(p[1]) && p[1] != 'y')) {
        law_pending_is_suffix(p.drop_first(), flush);
        assert(p.drop_first().skip(p.len() - 1 - rest.len()) =~= p.skip(p.len() - rest.len()));
    } else if exact_match(p) is Some && (flush || !has_longer_match(p)) {
        assert(p.skip(p.len() as int) =~= Seq::<char>::empty());
    } else if has_prefix(p) || p.len() == 1 {
        assert(p.skip(0) =~= p);
    } else {
        law_pending_is_suffix(p.drop_first(), flush);
        assert(p.drop_first().skip(p.len() - 1 - rest.len()) =~= p.skip(p.len() - rest.len()));
    }
}

/// Input left pending is still undecided: nothing, a single character, or
/// the beginning of some spelling in the table.
pub proof fn law_pending_is_undecided(p: Seq<char>, flush: bool)
    ensures
        resolve(p, flush).1.len() == 0 || resolve(p, flush).1.len() == 1 || has_prefix(
            resolve(p, flush).1,
        ),
    decreases p.len(),
{
    if p.len() == 0 {
    } else if p.len() >= 2 && p[0] == p[1] && is_consonant(p[0]) && p[0] != 'n' {
        law_pending_is_undecided(p.drop_first(), flush);
    } else if p.len() >= 2 && p[0] == 'n' && p[1] == '\'' {
        law_pending_is_undecided(p.subrange(2, p.len() as int), flush);
    } else if p.len() >= 2 && p[0] == 'n' && (p[1] == 'n' || (!is_vowel(p[1]) && p[1] != 'y')) {
        law_pending_is_undecided(p.drop_first(), flush);
    } else if exact_match(p) is Some && (flush || !has_longer_match(p)) {
    } else if has_prefix(p) || p.len() == 1 {
    } else {
        law_pending_is_undecided(p.drop_first(), flush);
    }
}

/// Pending input only ever holds lower-case ASCII letters and apostrophes:
/// pushing an accepted character keeps it so.
pub proof fn law_pending_stays_romaji(p: Seq<char>, c: char)
    requires
        pending_ok(p),
        is_romaji_char(c),
    ensures
        pending_ok(resolve(p.push(lower(c)), false).1),
{
    let q = p.push(lower(c));
    assert(pending_ok(q)) by {
        assert forall|i: int| 0 <= i < q.len() implies (('a' <= #[trigger] q[i] && q[i] <= 'z') || q[i] == '\'') by {
            if i < p.len() {
                assert(q[i] == p[i]);
            }
        }
    }
    law_pending_is_suffix(q, false);
    let rest = resolve(q, false).1;
    assert forall|i: int| 0 <= i < rest.len() implies (('a' <= #[trigger] rest[i] && rest[i] <= 'z') || rest[i] == '\'') by {
        assert(rest[i] == q[q.len() - rest.len() + i]);
    }
}

/// Flushing pending input never loses it all: non-empty pending input gives
/// non-empty text.
pub proof fn law_flush_keeps_input(p: Seq<char>)
    ensures
        (resolve(p, true).0 + resolve(p, true).1).len() == 0 <==> p.len() == 0,
    decreases p.len(),
{
    if p.len() >= 2 && p[0] == p[1] && is_consonant(p[0]) && p[0] != 'n' {
    } else if p.len() >= 2 && p[0] == 'n' && p[1] == '\'' {
    } else if p.len() >= 2 && p[0] == 'n' && (p[1] == 'n' || (!is_vowel(p[1]) && p[1] != 'y')) {
    } else if p.len() > 0 && exact_match(p) is Some {
        lemma_kana_nonempty(p, 0);
    } else {
    }
}

/// Every kana in the table is non-empty.
proof fn lemma_kana_nonempty(input: Seq<char>, i: int)
    ensures
        kana_from(input, i) matches Some(k) ==> k.len() > 0,
    decreases TABLE_LEN - i,
{
    if 0 <= i < TABLE_LEN {
        assert(table_row(i as usize).1.len() > 0);
        lemma_kana_nonempty(input, i + 1);
    }
}


/// What pending input can be between calls: romaji of at most two
/// characters that is either `n` or no complete spelling, and that, at two
/// characters, begins some spelling.
pub open spec fn reachable_pending(p: Seq<char>) -> bool {
    &&& pending_ok(p)
    &&& p.len() <= 2
    &&& p == seq!['n'] || exact_match(p) is None
    &&& p.len() == 2 ==> has_prefix(p)
}

/// The shape of every spelling in the table: one to three characters; a
/// single character is a vowel or `n`; a longer one starts with a
/// consonant; two characters end with a vowel; three have a consonant
/// second.
proof fn lemma_row_shape(i: usize)
    requires
        i < TABLE_LEN,
    ensures
        1 <= table_row(i).0.len() <= 3,
        table_row(i).0.len() == 1 ==> is_vowel(table_row(i).0[0]) || table_row(i).0[0] == 'n',
        table_row(i).0.len() >= 2 ==> !is_vowel(table_row(i).0[0]),
        table_row(i).0.len() == 2 ==> is_vowel(table_row(i).0[1]),
        table_row(i).0.len() == 3 ==> !is_vowel(table_row(i).0[1]),
        table_row(i).0.len() >= 2 ==> table_row(i).0[0] != table_row(i).0[1],
        table_row(i).0.len() >= 2 && table_row(i).0[0] == 'n' ==> is_vowel(table_row(i).0[1]) || table_row(i).0[1]
            == 'y',
        forall|k: int| 0 <= k < table_row(i).0.len() ==> 'a' <= #[trigger] table_row(i).0[k] <= 'z',
{
}

/// A spelling has a kana from row `i` on exactly when a row from `i` on
/// spells it.
proof fn lemma_kana_from_row(input: Seq<char>, i: int)
    requires
        0 <= i,
    ensures
        kana_from(input, i) is Some <==> exists|j: usize| i <= j < TABLE_LEN && #[trigger] table_row(j).0 == input,
    decreases TABLE_LEN - i,
{
    if i < TABLE_LEN {
        lemma_kana_from_row(input, i + 1);
        if table_row(i as usize).0 == input {
            assert(table_row(i as usize).0 == input);
        } else if exists|j: usize| i <= j < TABLE_LEN && #[trigger] table_row(j).0 == input {
            let j = choose|j: usize| i <= j < TABLE_LEN && #[trigger] table_row(j).0 == input;
            assert(j != i);
            assert(i + 1 <= j);
        }
    }
}

/// A spelling in the table has one to three characters, and a single
/// character that some longer spelling extends is `n`.
proof fn lemma_exact_match_shape(q: Seq<char>)
    ensures
        exact_match(q) is Some ==> 1 <= q.len() <= 3,
        exact_match(q) is Some && q.len() == 1 && has_longer_match(q) ==> q == seq!['n'],
        exact_match(q) is Some && q.len() == 2 ==> !has_longer_match(q),
{
    lemma_kana_from_row(q, 0);
    if exact_match(q) is Some {
        let j = choose|j: usize| 0 <= j < TABLE_LEN && #[trigger] table_row(j).0 == q;
        lemma_row_shape(j);
        if has_longer_match(q) {
            let k = choose|k: usize|
                k < TABLE_LEN && table_row(k).0.len() > q.len() && q.is_prefix_of(#[trigger] table_row(k).0);
            lemma_row_shape(k);
            assert(table_row(k).0[0] == q[0]);
            if q.len() == 1 {
                assert(q =~= seq!['n']);
            } else if q.len() == 2 {
                assert(table_row(k).0[1] == q[1]);
            }
        }
    }
}

/// Resolving without flushing leaves pending at most two characters that
/// are `n` or no complete spelling, and that begin a spelling when there
/// are two of them.
proof fn lemma_resolve_leaves_undecided(p: Seq<char>)
    ensures
        resolve(p, false).1.len() <= 2,
        resolve(p, false).1 == seq!['n'] || exact_match(resolve(p, false).1) is None,
        resolve(p, false).1.len() == 2 ==> has_prefix(resolve(p, false).1),
    decreases p.len(),
{
    if p.len() == 0 {
        lemma_exact_match_shape(p);
    } else if p.len() >= 2 && p[0] == p[1] && is_consonant(p[0]) && p[0] != 'n' {
        lemma_resolve_leaves_undecided(p.drop_first());
    } else if p.len() >= 2 && p[0] == 'n' && p[1] == '\'' {
        lemma_resolve_leaves_undecided(p.subrange(2, p.len() as int));
    } else if p.len() >= 2 && p[0] == 'n' && (p[1] == 'n' || (!is_vowel(p[1]) && p[1] != 'y')) {
        lemma_resolve_leaves_undecided(p.drop_first());
    } else if exact_match(p) is Some && !has_longer_match(p) {
        lemma_exact_match_shape(Seq::<char>::empty());
    } else if has_prefix(p) || p.len() == 1 {
        lemma_exact_match_shape(p);
        if p.len() >= 2 {
            let j = choose|j: usize| j < TABLE_LEN && p.is_prefix_of(#[trigger] table_row(j).0);
            lemma_row_shape(j);
            if p.len() == 3 {
                assert(p =~= table_row(j).0);
                lemma_kana_from_row(p, 0);
                assert(exact_match(p) is Some);
                if has_longer_match(p) {
                    let k = choose|k: usize|
                        k < TABLE_LEN && table_row(k).0.len() > p.len() && p.is_prefix_of(#[trigger] table_row(k).0);
                    lemma_row_shape(k);
                }
            }
        }
    } else {
        lemma_resolve_leaves_undecided(p.drop_first());
    }
}

/// Pending input reached by any sequence of calls stays reachable: pushing
/// an accepted character keeps it so.
pub proof fn law_push_keeps_pending_reachable(p: Seq<char>, c: char)
    requires
        reachable_pending(p),
        is_romaji_char(c),
    ensures
        reachable_pending(resolve(p.push(lower(c)), false).1),
{
    law_pending_stays_romaji(p, c);
    lemma_resolve_leaves_undecided(p.push(lower(c)));
}

/// Removing the last pending character keeps pending input reachable.
pub proof fn law_backspace_keeps_pending_reachable(p: Seq<char>)
    requires
        reachable_pending(p),
        p.len() > 0,
    ensures
        reachable_pending(p.drop_last()),
{
    let q = p.drop_last();
    lemma_exact_match_shape(q);
    assert(pending_ok(q)) by {
        assert forall|i: int| 0 <= i < q.len() implies (('a' <= #[trigger] q[i] && q[i] <= 'z') || q[i] == '\'') by {
            assert(q[i] == p[i]);
        }
    }
    if p.len() == 2 {
        let j = choose|j: usize| j < TABLE_LEN && p.is_prefix_of(#[trigger] table_row(j).0);
        lemma_row_shape(j);
        lemma_kana_from_row(q, 0);
        if exact_match(q) is Some {
            let k = choose|k: usize| 0 <= k < TABLE_LEN && #[trigger] table_row(k).0 == q;
            lemma_row_shape(k);
            assert(table_row(j).0[0] == p[0]);
            assert(q =~= seq!['n']);
        }
    }
}

/// Nothing pending is reachable.
pub proof fn law_empty_pending_reachable()
    ensures
        reachable_pending(Seq::<char>::empty()),
{
    lemma_exact_match_shape(Seq::<char>::empty());
}


/// A doubled consonant other than `n` gives a small `っ` and keeps the
/// second of the pair: for every ASCII letter `c` that is not a lower-case
/// vowel and not `n`, resolving `c c w` emits `っ` followed by what resolving
/// `c w` emits, and leaves the same input pending (so "kitte" gives きって and
/// "issho" gives いっしょ).
pub proof fn law_doubled_consonant_gives_sokuon(c: char, w: Seq<char>, flush: bool)
    requires
        ('a' <= c && c <= 'z') || ('A' <= c && c <= 'Z'),
        c != 'a' && c != 'i' && c != 'u' && c != 'e' && c != 'o' && c != 'n',
    ensures
        resolve(seq![c, c] + w, flush) == (seq!['っ'] + resolve(seq![c] + w, flush).0, resolve(
            seq![c] + w,
            flush,
        ).1),
{
    let p = seq![c, c] + w;
    assert(p[0] == c && p[1] == c);
    assert(p.drop_first() =~= seq![c] + w);
}


/// `n'` gives `ん` and is consumed whole, whatever follows.
pub proof fn law_n_apostrophe_gives_n(w: Seq<char>, flush: bool)
    ensures
        resolve(seq!['n', '\''] + w, flush) == (seq!['ん'] + resolve(w, flush).0, resolve(w, flush).1),
{
    let p = seq!['n', '\''] + w;
    assert(p[0] == 'n' && p[1] == '\'');
    assert(p.subrange(2, p.len() as int) =~= w);
}

/// `n` before another `n`, or before anything but a vowel, `y` or an
/// apostrophe, gives `ん` and leaves the next character to be read.
pub proof fn law_n_before_consonant_gives_n(c: char, w: Seq<char>, flush: bool)
    requires
        c != 'a' && c != 'i' && c != 'u' && c != 'e' && c != 'o' && c != 'y' && c != '\'',
    ensures
        resolve(seq!['n', c] + w, flush) == (seq!['ん'] + resolve(seq![c] + w, flush).0, resolve(
            seq![c] + w,
            flush,
        ).1),
{
    let p = seq!['n', c] + w;
    assert(p[0] == 'n' && p[1] == c);
    assert(p.drop_first() =~= seq![c] + w);
}

/// Upper-case ASCII letters are read as their lower-case letters; every
/// other character is read as it is.
pub proof fn law_lower_case(c: char)
    ensures
        'A' <= c && c <= 'Z' ==> lower(c) as u32 == c as u32 + 32,
        !('A' <= c && c <= 'Z') ==> lower(c) == c,
{
}

/// A character that begins no spelling in the table, followed by a
/// different character, is passed through as it is, and the rest is read
/// on from the next character.
pub proof fn law_unknown_letter_passes_through(c: char, d: char, w: Seq<char>, flush: bool)
    requires
        c != d,
        c != 'n',
        forall|i: usize| i < TABLE_LEN ==> (#[trigger] table_row(i)).0[0] != c,
    ensures
        resolve(seq![c, d] + w, flush) == (seq![c] + resolve(seq![d] + w, flush).0, resolve(
            seq![d] + w,
            flush,
        ).1),
{
    let p = seq![c, d] + w;
    assert(p[0] == c && p[1] == d);
    lemma_kana_from_row(p, 0);
    if exact_match(p) is Some {
        let j = choose|j: usize| 0 <= j < TABLE_LEN && #[trigger] table_row(j).0 == p;
        lemma_row_shape(j);
        assert(table_row(j).0[0] == c);
    }
    if has_prefix(p) {
        let j = choose|j: usize| j < TABLE_LEN && p.is_prefix_of(#[trigger] table_row(j).0);
        lemma_row_shape(j);
        assert(table_row(j).0[0] == p[0]);
    }
    assert(p.drop_first() =~= seq![d] + w);
}

/// A complete spelling from the table other than `n` is resolved whole into
/// its kana, flushing or not, and leaves nothing pending; `n` alone waits
/// unless flushed, and then gives its kana.
pub proof fn law_spelling_resolves_whole(i: usize)
    requires
        i < TABLE_LEN,
    ensures
        exact_match(table_row(i).0) is Some,
        resolve(table_row(i).0, true) == (exact_match(table_row(i).0)->0, Seq::<char>::empty()),
        table_row(i).0 != seq!['n'] ==> resolve(table_row(i).0, false) == (
            exact_match(table_row(i).0)->0,
            Seq::<char>::empty(),
        ),
        table_row(i).0 == seq!['n'] ==> resolve(table_row(i).0, false) == (Seq::<char>::empty(), table_row(i).0),
{
    let p = table_row(i).0;
    lemma_row_shape(i);
    lemma_kana_from_row(p, 0);
    assert(table_row(i).0 == p);
    lemma_exact_match_shape(p);
    if p.len() == 3 && has_longer_match(p) {
        let k = choose|k: usize|
            k < TABLE_LEN && table_row(k).0.len() > p.len() && p.is_prefix_of(#[trigger] table_row(k).0);
        lemma_row_shape(k);
    }
    if p == seq!['n'] {
        assert(table_row(71).0[0] == 'n');
        assert(p.is_prefix_of(table_row(71).0));
        assert(has_longer_match(p));
        assert(has_prefix(p));
    }
}

} // verus!
