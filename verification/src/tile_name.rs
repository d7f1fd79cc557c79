//! Tile names: the glyph that the file name of a reference tile encodes.
//!
//! A tile is named by the code points of its glyph, in hexadecimal and with a
//! hyphen between each two, followed by an extension: `1f600.png` names one
//! code point, `1f1fa-1f1f8.png` two.

use vstd::prelude::*;
use crate::error::CoreError;
use crate::text::{lemma_split_at_separator, lemma_split_len, split};

verus! {

/// The character between two code points of a tile name.
pub const SEPARATOR: char = '-';

/// The character before the extension of a tile name.
pub const EXTENSION_MARK: char = '.';

/// The largest code point.
pub const MAX_CODE_POINT: u32 = 0x10FFFF;

/// The value of a hexadecimal digit of either case; no other character has one.
pub open spec fn hex_digit(c: char) -> Option<int> {
    if '0' <= c <= '9' {
        Some(c as int - '0' as int)
    } else if 'a' <= c <= 'f' {
        Some(c as int - 'a' as int + 10)
    } else if 'A' <= c <= 'F' {
        Some(c as int - 'A' as int + 10)
    } else {
        None
    }
}

/// A word of one or more hexadecimal digits.
pub open spec fn is_hex_word(word: Seq<char>) -> bool {
    &&& word.len() > 0
    &&& forall|i: int| 0 <= i < word.len() ==> hex_digit(#[trigger] word[i]) is Some
}

/// The number that a word of hexadecimal digits denotes, its first digit being
/// the most significant.
pub open spec fn hex_value(word: Seq<char>) -> int
    decreases word.len(),
{
    if word.len() == 0 {
        0
    } else {
        16 * hex_value(word.drop_last()) + hex_digit(word.last()).unwrap_or(0)
    }
}

/// The numbers that are code points of a character: all up to
/// `MAX_CODE_POINT` but the surrogates.
pub open spec fn is_char_code(value: int) -> bool {
    0 <= value <= MAX_CODE_POINT && !(0xD800 <= value <= 0xDFFF)
}

/// The character that a word denotes: the word is hexadecimal, and its value
/// is the code point of a character.
pub open spec fn code_point(word: Seq<char>) -> Option<char> {
    if is_hex_word(word) && is_char_code(hex_value(word)) {
        Some(hex_value(word) as char)
    } else {
        None
    }
}

/// The name without its extension: what stands before the last
/// `EXTENSION_MARK`, or all of it where there is none.
pub open spec fn stem(name: Seq<char>) -> Seq<char> {
    match name.index_of_last(EXTENSION_MARK) {
        Some(i) => name.take(i),
        None => name,
    }
}

/// The characters that a list of words denotes, if each word denotes one.
pub open spec fn decode_words(words: Seq<Seq<char>>) -> Option<Seq<char>> {
    if forall|i: int| 0 <= i < words.len() ==> code_point(#[trigger] words[i]) is Some {
        Some(Seq::new(words.len(), |i: int| code_point(words[i]).unwrap()))
    } else {
        None
    }
}

/// The glyph that a tile name encodes: one character for each hyphen-separated
/// word of its stem. A name with a word that denotes no character encodes none.
pub open spec fn tile_glyph(name: Seq<char>) -> Option<Seq<char>> {
    decode_words(split(stem(name), SEPARATOR))
}

/// A longer word of hexadecimal digits has no smaller value.
proof fn lemma_hex_value_grows(word: Seq<char>, n: int)
    requires
        is_hex_word(word),
        0 <= n <= word.len(),
    ensures
        0 <= hex_value(word.take(n)) <= hex_value(word),
    decreases word.len() - n,
{
    lemma_hex_value_nonnegative(word.take(n));
    if n < word.len() {
        lemma_hex_value_grows(word, n + 1);
        assert(word.take(n + 1).drop_last() =~= word.take(n));
    } else {
        assert(word.take(n) =~= word);
    }
}

/// No word has a negative value.
proof fn lemma_hex_value_nonnegative(word: Seq<char>)
    ensures
        0 <= hex_value(word),
    decreases word.len(),
{
    if word.len() > 0 {
        lemma_hex_value_nonnegative(word.drop_last());
    }
}

/// A glyph has one character for each word of the stem, so one more than the
/// stem has hyphens.
pub proof fn lemma_glyph_len(name: Seq<char>)
    requires
        tile_glyph(name) is Some,
    ensures
        tile_glyph(name).unwrap().len() == split(stem(name), SEPARATOR).len(),
        tile_glyph(name).unwrap().len() == 1 + stem(name).filter(|c: char| c == SEPARATOR).len(),
{
    lemma_split_len(stem(name), SEPARATOR);
}

/// The characters of a text.
fn chars_of(text: &str) -> (chars: Vec<char>)
    ensures
        chars@ == text@,
{
    let mut chars: Vec<char> = Vec::new();
    for c in it: text.chars()
        invariant
            it.seq() == text@,
            chars@ == text@.take(it.index() as int),
    {
        chars.push(c);
    }
    chars
}

/// Where the stem of a name ends.
fn stem_end(name: &Vec<char>) -> (end: usize)
    ensures
        end <= name.len(),
        name@.take(end as int) == stem(name@),
{
    let mut end: usize = name.len();
    let mut found: bool = false;
    let mut i: usize = 0;
    while i < name.len()
        invariant
            i <= name.len(),
            found ==> end < i && name[end as int] == EXTENSION_MARK,
            found ==> forall|j: int| end < j < i ==> name[j] != EXTENSION_MARK,
            !found ==> end == name.len(),
            !found ==> forall|j: int| 0 <= j < i ==> name[j] != EXTENSION_MARK,
        decreases name.len() - i,
    {
        if name[i] == EXTENSION_MARK {
            end = i;
            found = true;
        }
        i = i + 1;
    }
    proof {
        name@.index_of_last_ensures(EXTENSION_MARK);
    }
    end
}

/// The value of a hexadecimal digit.
fn digit_of(c: char) -> (digit: Option<u32>)
    ensures
        digit is Some <==> hex_digit(c) is Some,
        digit is Some ==> digit.unwrap() == hex_digit(c).unwrap() && digit.unwrap() < 16,
{
    if '0' <= c && c <= '9' {
        Some(c as u32 - '0' as u32)
    } else if 'a' <= c && c <= 'f' {
        Some(c as u32 - 'a' as u32 + 10)
    } else if 'A' <= c && c <= 'F' {
        Some(c as u32 - 'A' as u32 + 10)
    } else {
        None
    }
}

/// The character that the word from `start` to `end` denotes.
fn parse_code_point(name: &Vec<char>, start: usize, end: usize) -> (c: Option<char>)
    requires
        start <= end <= name.len(),
    ensures
        c == code_point(name@.subrange(start as int, end as int)),
{
    let ghost word = name@.subrange(start as int, end as int);
    if start == end {
        return None;
    }
    let mut value: u32 = 0;
    let mut i: usize = start;
    while i < end
        invariant
            start <= i <= end <= name.len(),
            word == name@.subrange(start as int, end as int),
            value == hex_value(word.take(i - start)),
            value <= MAX_CODE_POINT,
            forall|j: int| 0 <= j < i - start ==> hex_digit(#[trigger] word[j]) is Some,
        decreases end - i,
    {
        let digit = match digit_of(name[i]) {
            Some(digit) => digit,
            None => {
                assert(hex_digit(word[i - start]) is None);
                return None;
            },
        };
        proof {
            assert(word.take(i + 1 - start).drop_last() =~= word.take(i - start));
        }
        value = 16 * value + digit;
        if value > MAX_CODE_POINT {
            proof {
                if is_hex_word(word) {
                    lemma_hex_value_grows(word, i + 1 - start);
                }
            }
            return None;
        }
        i = i + 1;
    }
    proof {
        assert(word.take(end - start) =~= word);
    }
    let c = char::from_u32(value);
    proof {
        if let Some(c) = c {
            vstd::utf8::char_u32_cast(c, value);
        }
    }
    c
}

/// Appends to `glyph` the character that the word from `start` to `end`
/// denotes, and says whether it denotes one.
fn push_code_point(glyph: &mut String, name: &Vec<char>, start: usize, end: usize) -> (ok: bool)
    requires
        start <= end <= name.len(),
    ensures
        ok == code_point(name@.subrange(start as int, end as int)) is Some,
        ok ==> final(glyph)@ == old(glyph)@.push(
            code_point(name@.subrange(start as int, end as int)).unwrap(),
        ),
        !ok ==> final(glyph)@ == old(glyph)@,
{
    match parse_code_point(name, start, end) {
        Some(c) => {
            glyph.push(c);
            true
        },
        None => false,
    }
}

/// A list of words that each denote a character still is one with one more
/// such word, and its characters are the old ones and the new one.
proof fn lemma_decode_words_push(words: Seq<Seq<char>>, word: Seq<char>)
    requires
        decode_words(words) is Some,
    ensures
        code_point(word) is Some ==> decode_words(words.push(word)) == Some(
            decode_words(words).unwrap().push(code_point(word).unwrap()),
        ),
        code_point(word) is None ==> decode_words(words.push(word)) is None,
{
    let all = words.push(word);
    assert(all[words.len() as int] == word);
    if code_point(word) is Some {
        assert forall|k: int| 0 <= k < all.len() implies code_point(#[trigger] all[k]) is Some by {}
    }
}

/// A list of words one of which denotes no character denotes no glyph,
/// whatever follows that word.
proof fn lemma_decode_words_prefix(words: Seq<Seq<char>>, more: Seq<Seq<char>>)
    requires
        decode_words(words) is None,
    ensures
        decode_words(words + more) is None,
{
    let k = choose|k: int| 0 <= k < words.len() && code_point(#[trigger] words[k]) is None;
    assert((words + more)[k] == words[k]);
}

/// Reads the glyph off a tile's file name: strips the extension, splits the
/// rest at each hyphen and takes each word for a hexadecimal code point. The
/// glyph has one character for each word.
///
/// A word that is empty, holds anything but hexadecimal digits, or denotes no
/// character makes the name malformed, wherever it stands.
pub fn parse_tile_name(name: &str) -> (parsed: Result<String, CoreError>)
    ensures
        match parsed {
            Ok(glyph) => tile_glyph(name@) == Some(glyph@),
            Err(e) => e == CoreError::Format && tile_glyph(name@) is None,
        },
{
    let chars = chars_of(name);
    let end = stem_end(&chars);
    let ghost base = stem(name@);
    let ghost mut done: Seq<Seq<char>> = Seq::empty();
    let mut glyph = String::new();
    let mut start: usize = 0;
    let mut i: usize = 0;
    assert(base.take(0) =~= Seq::<char>::empty());
    while i < end
        invariant
            start <= i <= end <= chars.len(),
            base == stem(name@),
            base == chars@.take(end as int),
            split(base.take(i as int), SEPARATOR) == done.push(
                base.subrange(start as int, i as int),
            ),
            decode_words(done) == Some(glyph@),
        decreases end - i,
    {
        let ghost word = base.subrange(start as int, i as int);
        assert(base.take(i + 1).drop_last() =~= base.take(i as int));
        if chars[i] == SEPARATOR {
            proof {
                assert(word =~= chars@.subrange(start as int, i as int));
                lemma_decode_words_push(done, word);
            }
            if !push_code_point(&mut glyph, &chars, start, i) {
                proof {
                    assert(base =~= base.take(i as int).push(SEPARATOR) + base.skip(i + 1));
                    lemma_split_at_separator(base.take(i as int), base.skip(i + 1), SEPARATOR);
                    lemma_decode_words_prefix(done.push(word), split(base.skip(i + 1), SEPARATOR));
                }
                return Err(CoreError::Format);
            }
            proof {
                done = done.push(word);
                assert(base.subrange(i + 1, i + 1) =~= Seq::<char>::empty());
            }
            start = i + 1;
        } else {
            assert(base.subrange(start as int, i + 1) =~= word.push(base[i as int]));
        }
        i = i + 1;
    }
    let ghost word = base.subrange(start as int, end as int);
    proof {
        assert(base.take(end as int) =~= base);
        assert(word =~= chars@.subrange(start as int, end as int));
        lemma_decode_words_push(done, word);
    }
    if push_code_point(&mut glyph, &chars, start, end) {
        Ok(glyph)
    } else {
        Err(CoreError::Format)
    }
}

} // verus!
