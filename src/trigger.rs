//! The trigger spellings and the search for them in a normalized text.

use vstd::prelude::*;
use crate::normalize::{chars_of, fully_normalize_chars, fully_normalized};

verus! {

/// The first syllable, "a", in hiragana, katakana or half-width katakana.
pub open spec fn is_a(c: char) -> bool {
    c == 'あ' || c == 'ア' || c == 'ｱ'
}

/// The second syllable, "hi", in the three scripts.
pub open spec fn is_hi(c: char) -> bool {
    c == 'ひ' || c == 'ヒ' || c == 'ﾋ'
}

/// The third syllable, "ru", in the three scripts.
pub open spec fn is_ru(c: char) -> bool {
    c == 'る' || c == 'ル' || c == 'ﾙ'
}

/// The verb stem "ya", in the three scripts or as the kanji for "grill".
pub open spec fn is_ya(c: char) -> bool {
    c == 'や' || c == 'ヤ' || c == 'ﾔ' || c == '焼'
}

/// The closing syllable "ki", in the three scripts.
pub open spec fn is_ki(c: char) -> bool {
    c == 'き' || c == 'キ' || c == 'ｷ'
}

/// "a", "hi", "ru", "ya", "ki" stand at `i`, each in any of its forms.
pub open spec fn kana_at(s: Seq<char>, i: int) -> bool {
    &&& 0 <= i && i + 5 <= s.len()
    &&& is_a(s[i])
    &&& is_hi(s[i + 1])
    &&& is_ru(s[i + 2])
    &&& is_ya(s[i + 3])
    &&& is_ki(s[i + 4])
}

/// Case-insensitive equality of `c` with the character `l` of a trigger
/// word, by Unicode simple case folding. For the characters that the words
/// hold, the folds are the ASCII upper case of a lower-case letter and, for
/// `k`, the Kelvin sign.
pub open spec fn folds_to(c: char, l: char) -> bool {
    ||| c == l
    ||| (0x61 <= l as u32 <= 0x7A && c as u32 + 32 == l as u32)
    ||| (l == 'k' && c == '\u{212A}')
}

/// The word `w` stands at `i`, letter case aside.
pub open spec fn word_at(s: Seq<char>, i: int, w: Seq<char>) -> bool {
    &&& 0 <= i && i + w.len() <= s.len()
    &&& forall|k: int| 0 <= k < w.len() ==> folds_to(s[i + k], #[trigger] w[k])
}

/// The kanji compound for "domestic duck".
pub open spec fn kanji_word() -> Seq<char> {
    seq!['家', '鴨']
}

/// The romanized phrase.
pub open spec fn romaji_word() -> Seq<char> {
    seq!['a', 'h', 'i', 'r', 'u', 'y', 'a', 'k', 'i']
}

/// The Chinese slang rendering.
pub open spec fn slang_word() -> Seq<char> {
    seq!['扒', '家', '鸭']
}

/// The decoy token.
pub open spec fn decoy_word() -> Seq<char> {
    seq!['3', 'v', '.', '7', 'g']
}

/// One of the trigger spellings starts at `i`.
pub open spec fn trigger_at(s: Seq<char>, i: int) -> bool {
    ||| kana_at(s, i)
    ||| word_at(s, i, kanji_word())
    ||| word_at(s, i, romaji_word())
    ||| word_at(s, i, slang_word())
    ||| word_at(s, i, decoy_word())
}

/// A trigger spelling stands somewhere in `s`.
pub open spec fn has_trigger(s: Seq<char>) -> bool {
    exists|i: int| trigger_at(s, i)
}

/// A post with body `text` is to be answered.
pub open spec fn reply_needed(text: Seq<char>) -> bool {
    has_trigger(fully_normalized(text))
}

fn kana_at_exec(v: &Vec<char>, i: usize) -> (r: bool)
    requires
        i < v.len(),
    ensures
        r == kana_at(v@, i as int),
{
    if v.len() - i < 5 {
        return false;
    }
    let a = v[i];
    let hi = v[i + 1];
    let ru = v[i + 2];
    let ya = v[i + 3];
    let ki = v[i + 4];
    (a == 'あ' || a == 'ア' || a == 'ｱ') && (hi == 'ひ' || hi == 'ヒ' || hi == 'ﾋ') && (ru == 'る'
        || ru == 'ル' || ru == 'ﾙ') && (ya == 'や' || ya == 'ヤ' || ya == 'ﾔ' || ya == '焼') && (ki
        == 'き' || ki == 'キ' || ki == 'ｷ')
}

fn folds_to_exec(c: char, l: char) -> (r: bool)
    ensures
        r == folds_to(c, l),
{
    let u = c as u32;
    let m = l as u32;
    c == l || (0x61 <= m && m <= 0x7A && u + 32 == m) || (l == 'k' && c == '\u{212A}')
}

fn word_at_exec(v: &Vec<char>, i: usize, w: &Vec<char>) -> (r: bool)
    requires
        i < v.len(),
    ensures
        r == word_at(v@, i as int, w@),
{
    if v.len() - i < w.len() {
        return false;
    }
    let mut k: usize = 0;
    while k < w.len()
        invariant
            i + w.len() <= v.len(),
            k <= w.len(),
            forall|j: int| 0 <= j < k ==> folds_to(v@[i + j], #[trigger] w@[j]),
        decreases w.len() - k,
    {
        if !folds_to_exec(v[i + k], w[k]) {
            return false;
        }
        k = k + 1;
    }
    true
}

/// Whether the normalized text `v` holds a trigger spelling.
pub fn has_trigger_exec(v: &Vec<char>) -> (r: bool)
    ensures
        r == has_trigger(v@),
{
    let kanji = vec!['家', '鴨'];
    let romaji = vec!['a', 'h', 'i', 'r', 'u', 'y', 'a', 'k', 'i'];
    let slang = vec!['扒', '家', '鸭'];
    let decoy = vec!['3', 'v', '.', '7', 'g'];
    assert(kanji@ == kanji_word());
    assert(romaji@ == romaji_word());
    assert(slang@ == slang_word());
    assert(decoy@ == decoy_word());
    let mut i: usize = 0;
    while i < v.len()
        invariant
            i <= v.len(),
            kanji@ == kanji_word(),
            romaji@ == romaji_word(),
            slang@ == slang_word(),
            decoy@ == decoy_word(),
            forall|j: int| 0 <= j < i ==> !#[trigger] trigger_at(v@, j),
        decreases v.len() - i,
    {
        if kana_at_exec(v, i) || word_at_exec(v, i, &kanji) || word_at_exec(v, i, &romaji)
            || word_at_exec(v, i, &slang) || word_at_exec(v, i, &decoy) {
            assert(trigger_at(v@, i as int));
            return true;
        }
        i = i + 1;
    }
    false
}

/// Whether a post with body `text` spells out the trigger phrase once its
/// noise is removed.
pub fn requires_reply(text: &str) -> (r: bool)
    ensures
        r == reply_needed(text@),
{
    has_trigger_exec(&fully_normalize_chars(chars_of(text)))
}

} // verus!
