//! What holds of normalization and matching over all texts.

use vstd::prelude::*;
use crate::normalize::{
    fully_normalized, inert, is_noise_char, lemma_fully_after_pass, lemma_fully_embed,
    lemma_pass_embed, lemma_passes_fixed, lemma_passes_reach, lemma_run_after_clean,
    lemma_strip_clean, lemma_strip_deletes, lemma_strip_keeps_no_noise, lemma_strip_markup_free,
    markup_run, normalized, not_noise, quiet, tag_len, untagged,
};
use crate::trigger::{
    kana_at, folds_to, is_a, is_hi, is_ki, is_ru, is_ya, reply_needed, romaji_word, trigger_at, word_at,
};

verus! {

/// Normalizing a text twice gives what normalizing it once gives, and a
/// text needs a reply exactly when its normalized form does.
pub proof fn lemma_normalize_idempotent(s: Seq<char>)
    ensures
        fully_normalized(fully_normalized(s)) == fully_normalized(s),
        reply_needed(fully_normalized(s)) == reply_needed(s),
{
    let t = fully_normalized(s);
    lemma_passes_reach(s, s.len());
    lemma_passes_fixed(t, t.len());
}

/// The normalized form of a text holds no noise character and no tag.
pub proof fn lemma_normalized_is_clean(s: Seq<char>)
    ensures
        forall|j: int|
            0 <= j < fully_normalized(s).len() ==> !is_noise_char(
                #[trigger] fully_normalized(s)[j],
            ),
        untagged(fully_normalized(s)),
{
    let t = fully_normalized(s);
    lemma_passes_reach(s, s.len());
    lemma_strip_keeps_no_noise(t, 0);
    assert forall|j: int| 0 <= j < t.len() implies #[trigger] tag_len(t, j) == 0 by {
        if tag_len(t, j) != 0 {
            lemma_strip_deletes(t, 0, j);
        }
    }
}

/// A text with neither noise characters nor tags is its own normalized form.
proof fn lemma_clean_is_normalized(t: Seq<char>)
    requires
        forall|j: int| 0 <= j < t.len() ==> !is_noise_char(#[trigger] t[j]),
        forall|j: int| 0 <= j < t.len() ==> #[trigger] tag_len(t, j) == 0,
    ensures
        fully_normalized(t) == t,
{
    lemma_strip_clean(t, 0);
    assert(t.skip(0) =~= t);
    lemma_passes_fixed(t, t.len());
}

/// In a text without markup, a noise character inserted anywhere changes
/// neither the normalized text nor whether a reply is needed.
pub proof fn lemma_noise_insertion(s: Seq<char>, k: int, f: char)
    requires
        0 <= k <= s.len(),
        is_noise_char(f),
        forall|j: int| 0 <= j < s.len() ==> #[trigger] s[j] != '<',
    ensures
        fully_normalized(s.insert(k, f)) == fully_normalized(s),
        reply_needed(s.insert(k, f)) == reply_needed(s),
{
    let u = s.insert(k, f);
    assert forall|j: int| 0 <= j < u.len() implies #[trigger] u[j] != '<' by {
        if j > k {
            assert(u[j] == s[j - 1]);
        } else if j < k {
            assert(u[j] == s[j]);
        }
    }
    lemma_strip_markup_free(s, 0);
    lemma_strip_markup_free(u, 0);
    assert(s.skip(0) =~= s);
    assert(u.skip(0) =~= u);
    assert(u =~= (s.take(k) + seq![f]) + s.skip(k));
    assert(s =~= s.take(k) + s.skip(k));
    Seq::filter_distributes_over_add(s.take(k) + seq![f], s.skip(k), not_noise());
    Seq::filter_distributes_over_add(s.take(k), seq![f], not_noise());
    Seq::filter_distributes_over_add(s.take(k), s.skip(k), not_noise());
    Seq::<char>::empty().lemma_filter_prepend(f, not_noise());
    assert(seq![f] =~= seq![f] + Seq::<char>::empty());
    assert(s.take(k).filter(not_noise()) + Seq::<char>::empty() =~= s.take(k).filter(
        not_noise(),
    ));
    lemma_fully_after_pass(s);
    lemma_fully_after_pass(u);
}

/// In a text without `<`, normalization deletes exactly the noise
/// characters: any number of them, inserted anywhere, change nothing.
pub proof fn lemma_markup_free_normalized(u: Seq<char>)
    requires
        forall|j: int| 0 <= j < u.len() ==> #[trigger] u[j] != '<',
    ensures
        fully_normalized(u) == u.filter(not_noise()),
{
    let f = u.filter(not_noise());
    lemma_strip_markup_free(u, 0);
    assert(u.skip(0) =~= u);
    assert forall|j: int| 0 <= j < f.len() implies !is_noise_char(#[trigger] f[j]) && f[j]
        != '<' by {
        u.lemma_filter_pred(not_noise(), j);
        assert(f.contains(f[j]));
        u.lemma_filter_contains_rev(not_noise(), f[j]);
    }
    lemma_clean_is_normalized(f);
    lemma_fully_after_pass(u);
}

/// A trigger spelling stands at the start of `w` and therefore at
/// `a.len()` in `a + w + b`.
proof fn lemma_trigger_shift(a: Seq<char>, w: Seq<char>, b: Seq<char>)
    requires
        trigger_at(w, 0),
    ensures
        trigger_at(a + w + b, a.len() as int),
{
    let x = a + w + b;
    let d = a.len() as int;
    assert forall|k: int| 0 <= k < w.len() implies #[trigger] x[d + k] == w[k] by {}
    if kana_at(w, 0) {
        assert(x[d] == w[0] && x[d + 1] == w[1] && x[d + 2] == w[2] && x[d + 3] == w[3] && x[d
            + 4] == w[4]);
        assert(kana_at(x, d));
    } else {
        assert forall|v: Seq<char>| word_at(w, 0, v) implies word_at(x, d, v) by {
            assert forall|k: int| 0 <= k < v.len() implies folds_to(x[d + k], #[trigger] v[k]) by {
                assert(x[d + k] == w[0 + k]);
            }
        }
    }
}

/// A trigger spelling that forms an inert fragment needs a reply whatever
/// text stands before and after it.
pub proof fn lemma_trigger_anywhere(p: Seq<char>, w: Seq<char>, q: Seq<char>)
    requires
        inert(w),
        trigger_at(w, 0),
    ensures
        reply_needed(p + w + q),
{
    lemma_fully_embed(p, w, q);
    lemma_trigger_shift(fully_normalized(p), w, fully_normalized(q));
}

/// Noise characters inserted anywhere inside a trigger spelling (after its
/// first character; what goes before it belongs to the text in front) do
/// not keep it from needing a reply, whatever stands before and after it.
pub proof fn lemma_noise_inside_trigger(p: Seq<char>, u: Seq<char>, q: Seq<char>)
    requires
        quiet(u),
        trigger_at(u.filter(not_noise()), 0),
    ensures
        reply_needed(p + u + q),
{
    let w = u.filter(not_noise());
    let x = p + u + q;
    assert(u =~= seq![u[0]] + u.skip(1));
    u.skip(1).lemma_filter_prepend(u[0], not_noise());
    assert(w[0] == u[0]);
    assert forall|j: int| 0 <= j < w.len() implies !is_noise_char(#[trigger] w[j]) && w[j]
        != '<' by {
        u.lemma_filter_pred(not_noise(), j);
        assert(w.contains(w[j]));
        u.lemma_filter_contains_rev(not_noise(), w[j]);
    }
    assert(inert(w));
    lemma_pass_embed(p, u, q);
    lemma_fully_after_pass(x);
    lemma_fully_embed(normalized(p), w, normalized(q));
    lemma_trigger_shift(fully_normalized(normalized(p)), w, fully_normalized(normalized(q)));
}

/// A run of `<br>`-style or paragraph tags after a fragment without noise
/// or `<` is deleted, not replaced: the fragment joins what follows the run,
/// and the text needs a reply exactly when the joined text does. Applied
/// once per run, this joins any number of fragments.
pub proof fn lemma_markup_run_deleted(a: Seq<char>, m: Seq<char>, b: Seq<char>)
    requires
        forall|j: int| 0 <= j < a.len() ==> !is_noise_char(#[trigger] a[j]) && a[j] != '<',
        markup_run(m),
    ensures
        fully_normalized(a + m + b) == a + fully_normalized(b),
        fully_normalized(a + m + b) == fully_normalized(a + b),
        reply_needed(a + m + b) == reply_needed(a + b),
{
    lemma_run_after_clean(a, m, b);
    lemma_run_after_clean(a, Seq::<char>::empty(), b);
    assert(a + Seq::<char>::empty() + b =~= a + b);
}

/// The phrase "a-hi-ru-ya-ki" needs a reply whichever of hiragana, katakana
/// and half-width katakana each of its syllables is written in, whatever
/// stands before and after it.
pub proof fn lemma_kana_any_script(
    p: Seq<char>,
    a: char,
    hi: char,
    ru: char,
    ya: char,
    ki: char,
    q: Seq<char>,
)
    requires
        is_a(a),
        is_hi(hi),
        is_ru(ru),
        is_ya(ya),
        is_ki(ki),
    ensures
        reply_needed(p + seq![a, hi, ru, ya, ki] + q),
{
    let t = seq![a, hi, ru, ya, ki];
    assert forall|j: int| 0 <= j < t.len() implies !is_noise_char(#[trigger] t[j]) && t[j]
        != '<' by {
        if j == 0 {
        } else if j == 1 {
        } else if j == 2 {
        } else if j == 3 {
        } else {
        }
    }
    assert(kana_at(t, 0));
    lemma_trigger_anywhere(p, t, q);
}

/// The romanized phrase needs a reply in any mix of upper and lower case,
/// whatever stands before and after it.
pub proof fn lemma_romaji_any_case(p: Seq<char>, t: Seq<char>, q: Seq<char>)
    requires
        t.len() == romaji_word().len(),
        forall|k: int| 0 <= k < t.len() ==> folds_to(t[k], #[trigger] romaji_word()[k]),
    ensures
        reply_needed(p + t + q),
{
    assert forall|j: int| 0 <= j < t.len() implies !is_noise_char(#[trigger] t[j]) && t[j]
        != '<' by {
        assert(0x61 <= romaji_word()[j] as u32 <= 0x7A);
        assert(folds_to(t[j], romaji_word()[j]));
    }
    assert(folds_to(t[0], romaji_word()[0]));
    assert(word_at(t, 0, romaji_word()));
    lemma_trigger_anywhere(p, t, q);
}

} // verus!
