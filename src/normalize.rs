//! Deletion of formatting noise from a post body.

use vstd::prelude::*;

verus! {

/// Unicode `White_Space`: the characters that a regular expression's `\s`
/// stands for.
pub open spec fn is_white_space(c: char) -> bool {
    let u = c as u32;
    ||| 0x09 <= u <= 0x0D
    ||| u == 0x20
    ||| u == 0x85
    ||| u == 0xA0
    ||| u == 0x1680
    ||| 0x2000 <= u <= 0x200A
    ||| u == 0x2028
    ||| u == 0x2029
    ||| u == 0x202F
    ||| u == 0x205F
    ||| u == 0x3000
}

/// A character that is deleted wherever it stands: the zero-width space,
/// non-joiner and joiner, the byte-order mark, the Hangul filler, and any
/// white space.
pub open spec fn is_noise_char(c: char) -> bool {
    let u = c as u32;
    ||| 0x200B <= u <= 0x200D
    ||| u == 0xFEFF
    ||| u == 0x3164
    ||| is_white_space(c)
}

/// The number of white-space characters in the run that starts at `i`.
pub open spec fn white_run(s: Seq<char>, i: int) -> nat
    decreases s.len() - i,
{
    if 0 <= i < s.len() && is_white_space(s[i]) {
        1 + white_run(s, i + 1)
    } else {
        0
    }
}

/// The length of the line-break tag `<br`, white space, an optional `/`, `>`
/// that starts at `i`, or 0 where none starts there.
pub open spec fn br_tag_len(s: Seq<char>, i: int) -> int {
    if 0 <= i && i + 3 <= s.len() && s[i] == '<' && s[i + 1] == 'b' && s[i + 2] == 'r' {
        let j = i + 3 + white_run(s, i + 3);
        let k = if j < s.len() && s[j] == '/' {
            j + 1
        } else {
            j
        };
        if k < s.len() && s[k] == '>' {
            k + 1 - i
        } else {
            0
        }
    } else {
        0
    }
}

/// The length of the paragraph tag `<p>` or `</p>` that starts at `i`, or 0
/// where none starts there.
pub open spec fn p_tag_len(s: Seq<char>, i: int) -> int {
    if 0 <= i && i + 3 <= s.len() && s[i] == '<' && s[i + 1] == 'p' && s[i + 2] == '>' {
        3
    } else if 0 <= i && i + 4 <= s.len() && s[i] == '<' && s[i + 1] == '/' && s[i + 2] == 'p'
        && s[i + 3] == '>' {
        4
    } else {
        0
    }
}

/// The length of the markup tag that starts at `i`, or 0 where none does.
pub open spec fn tag_len(s: Seq<char>, i: int) -> int {
    if br_tag_len(s, i) > 0 {
        br_tag_len(s, i)
    } else {
        p_tag_len(s, i)
    }
}

/// What is left of `s` from position `i` on, read left to right: a noise
/// character is dropped, a tag is dropped whole, anything else is kept.
pub open spec fn strip_from(s: Seq<char>, i: int) -> Seq<char>
    decreases s.len() - i,
{
    if i < 0 || i >= s.len() {
        Seq::empty()
    } else if is_noise_char(s[i]) {
        strip_from(s, i + 1)
    } else if tag_len(s, i) > 0 {
        strip_from(s, i + tag_len(s, i))
    } else {
        seq![s[i]] + strip_from(s, i + 1)
    }
}

/// One left-to-right pass of deletion over a text.
pub open spec fn normalized(s: Seq<char>) -> Seq<char> {
    strip_from(s, 0)
}

/// `n` passes of deletion over `s`.
pub open spec fn normalize_passes(s: Seq<char>, n: nat) -> Seq<char>
    decreases n,
{
    if n == 0 {
        s
    } else {
        normalize_passes(normalized(s), (n - 1) as nat)
    }
}

/// The normalized form of a text: deletion repeated until nothing changes.
/// Deleting noise can bring the pieces of a tag together (`<b r>` becomes
/// `<br>`), which a further pass deletes. Each pass that changes the text
/// shortens it, so `s.len()` passes always reach a text that no pass changes.
pub open spec fn fully_normalized(s: Seq<char>) -> Seq<char> {
    normalize_passes(s, s.len())
}

/// `s` holds no markup tag at any position.
pub open spec fn untagged(s: Seq<char>) -> bool {
    forall|j: int| 0 <= j < s.len() ==> #[trigger] tag_len(s, j) == 0
}

/// The test that keeps a character through normalization of markup-free
/// text.
pub open spec fn not_noise() -> spec_fn(char) -> bool {
    |c: char| !is_noise_char(c)
}

/// From position `i` on, normalization keeps only what is neither noise nor
/// the start of a tag, and so keeps no noise character.
pub proof fn lemma_strip_keeps_no_noise(s: Seq<char>, i: int)
    ensures
        forall|k: int|
            0 <= k < strip_from(s, i).len() ==> !is_noise_char(#[trigger] strip_from(s, i)[k]),
    decreases s.len() - i,
{
    if 0 <= i < s.len() {
        if is_noise_char(s[i]) {
            lemma_strip_keeps_no_noise(s, i + 1);
            assert(strip_from(s, i) == strip_from(s, i + 1));
        } else if tag_len(s, i) > 0 {
            lemma_strip_keeps_no_noise(s, i + tag_len(s, i));
            assert(strip_from(s, i) == strip_from(s, i + tag_len(s, i)));
        } else {
            lemma_strip_keeps_no_noise(s, i + 1);
            let rest = strip_from(s, i + 1);
            assert(strip_from(s, i) == seq![s[i]] + rest);
            assert forall|k: int| 0 <= k < strip_from(s, i).len() implies !is_noise_char(
                #[trigger] strip_from(s, i)[k],
            ) by {
                if k > 0 {
                    assert(strip_from(s, i)[k] == rest[k - 1]);
                }
            }
        }
    }
}

/// A text with neither noise characters nor tags from `i` on comes through
/// normalization unchanged from there.
pub proof fn lemma_strip_clean(t: Seq<char>, i: int)
    requires
        0 <= i <= t.len(),
        forall|j: int| i <= j < t.len() ==> !is_noise_char(#[trigger] t[j]),
        forall|j: int| i <= j < t.len() ==> #[trigger] tag_len(t, j) == 0,
    ensures
        strip_from(t, i) == t.skip(i),
    decreases t.len() - i,
{
    if i < t.len() {
        lemma_strip_clean(t, i + 1);
        assert(t.skip(i) =~= seq![t[i]] + t.skip(i + 1));
    } else {
        assert(t.skip(i) =~= Seq::<char>::empty());
    }
}

/// Normalization from `i` on keeps at most what stands there.
pub proof fn lemma_strip_len(s: Seq<char>, i: int)
    requires
        0 <= i <= s.len(),
    ensures
        strip_from(s, i).len() <= s.len() - i,
    decreases s.len() - i,
{
    if i < s.len() {
        if is_noise_char(s[i]) {
            lemma_strip_len(s, i + 1);
        } else if tag_len(s, i) > 0 {
            lemma_strip_len(s, i + tag_len(s, i));
        } else {
            lemma_strip_len(s, i + 1);
        }
    }
}

/// Where a noise character or a tag stands at `j`, normalization from any
/// `i <= j` on deletes something.
pub proof fn lemma_strip_deletes(s: Seq<char>, i: int, j: int)
    requires
        0 <= i <= j < s.len(),
        is_noise_char(s[j]) || tag_len(s, j) > 0,
    ensures
        strip_from(s, i).len() < s.len() - i,
    decreases s.len() - i,
{
    if is_noise_char(s[i]) {
        lemma_strip_len(s, i + 1);
    } else if tag_len(s, i) > 0 {
        lemma_strip_len(s, i + tag_len(s, i));
    } else {
        lemma_strip_deletes(s, i + 1, j);
    }
}

/// Without `<`, normalization from `i` on drops exactly the noise
/// characters.
pub proof fn lemma_strip_markup_free(s: Seq<char>, i: int)
    requires
        0 <= i <= s.len(),
        forall|j: int| 0 <= j < s.len() ==> #[trigger] s[j] != '<',
    ensures
        strip_from(s, i) == s.skip(i).filter(not_noise()),
    decreases s.len() - i,
{
    if i < s.len() {
        lemma_strip_markup_free(s, i + 1);
        assert(s[i] != '<');
        assert(s.skip(i) =~= seq![s[i]] + s.skip(i + 1));
        s.skip(i + 1).lemma_filter_prepend(s[i], not_noise());
    } else {
        assert(s.skip(i) =~= Seq::<char>::empty());
    }
}

/// A pass that keeps as many characters as stand from `i` on keeps them
/// all.
pub proof fn lemma_strip_same_len(s: Seq<char>, i: int)
    requires
        0 <= i <= s.len(),
        strip_from(s, i).len() == s.len() - i,
    ensures
        strip_from(s, i) == s.skip(i),
    decreases s.len() - i,
{
    if i < s.len() {
        if is_noise_char(s[i]) {
            lemma_strip_len(s, i + 1);
        } else if tag_len(s, i) > 0 {
            lemma_strip_len(s, i + tag_len(s, i));
        } else {
            lemma_strip_same_len(s, i + 1);
            assert(s.skip(i) =~= seq![s[i]] + s.skip(i + 1));
        }
    } else {
        assert(s.skip(i) =~= Seq::<char>::empty());
    }
}

/// A pass that changes a text shortens it.
pub proof fn lemma_pass_shortens(s: Seq<char>)
    ensures
        normalized(s).len() <= s.len(),
        normalized(s) != s ==> normalized(s).len() < s.len(),
{
    lemma_strip_len(s, 0);
    if normalized(s).len() == s.len() {
        lemma_strip_same_len(s, 0);
        assert(s.skip(0) =~= s);
    }
}

/// Passes over a text that no pass changes leave it as it is.
pub proof fn lemma_passes_fixed(s: Seq<char>, n: nat)
    requires
        normalized(s) == s,
    ensures
        normalize_passes(s, n) == s,
    decreases n,
{
    if n > 0 {
        lemma_passes_fixed(s, (n - 1) as nat);
    }
}

/// At least `s.len()` passes reach the normalized form, which no further pass
/// changes.
pub proof fn lemma_passes_reach(s: Seq<char>, n: nat)
    requires
        n >= s.len(),
    ensures
        normalize_passes(s, n) == fully_normalized(s),
        normalized(fully_normalized(s)) == fully_normalized(s),
    decreases n,
{
    let t = normalized(s);
    lemma_pass_shortens(s);
    if t == s {
        lemma_passes_fixed(s, n);
        lemma_passes_fixed(s, s.len());
    } else {
        lemma_passes_reach(t, (n - 1) as nat);
        lemma_passes_reach(t, (s.len() - 1) as nat);
    }
}

/// One pass before normalizing changes nothing of the normalized form.
pub proof fn lemma_fully_after_pass(s: Seq<char>)
    ensures
        fully_normalized(normalized(s)) == fully_normalized(s),
{
    let t = normalized(s);
    lemma_pass_shortens(s);
    if t == s {
    } else {
        lemma_passes_reach(t, (s.len() - 1) as nat);
    }
}

/// A character that can follow the opening `<` inside a markup tag.
pub open spec fn tag_inner(c: char) -> bool {
    c == 'b' || c == 'r' || c == 'p' || c == '/' || c == '>' || is_white_space(c)
}

/// A non-empty fragment that normalization leaves as it is wherever it
/// stands: it holds no noise character and no `<`, and its first character
/// cannot continue a tag begun before it.
pub open spec fn inert(w: Seq<char>) -> bool {
    &&& w.len() > 0
    &&& !tag_inner(w[0])
    &&& forall|j: int| 0 <= j < w.len() ==> !is_noise_char(#[trigger] w[j]) && w[j] != '<'
}

proof fn lemma_white_run_prefix(p: Seq<char>, x: Seq<char>, j: int)
    requires
        p.len() < x.len(),
        forall|k: int| 0 <= k < p.len() ==> #[trigger] x[k] == p[k],
        !is_white_space(x[p.len() as int]),
        0 <= j <= p.len(),
    ensures
        white_run(x, j) == white_run(p, j),
    decreases p.len() - j,
{
    if j < p.len() {
        lemma_white_run_prefix(p, x, j + 1);
    }
}

proof fn lemma_tag_prefix(p: Seq<char>, x: Seq<char>, i: int)
    requires
        p.len() < x.len(),
        forall|k: int| 0 <= k < p.len() ==> #[trigger] x[k] == p[k],
        !tag_inner(x[p.len() as int]),
        0 <= i < p.len(),
    ensures
        tag_len(x, i) == tag_len(p, i),
        tag_len(p, i) > 0 ==> i + tag_len(p, i) <= p.len(),
{
    let n = p.len() as int;
    assert(x[i] == p[i]);
    if i + 1 < n {
        assert(x[i + 1] == p[i + 1]);
    }
    if i + 2 < n {
        assert(x[i + 2] == p[i + 2]);
    }
    if i + 3 < n {
        assert(x[i + 3] == p[i + 3]);
    }
    if i + 3 <= n {
        lemma_white_run_prefix(p, x, i + 3);
        lemma_white_run_bound(p, i + 3);
        let j = i + 3 + white_run(p, i + 3);
        if j < n {
            assert(x[j] == p[j]);
            if j + 1 < n {
                assert(x[j + 1] == p[j + 1]);
            }
        }
        assert(br_tag_len(x, i) == br_tag_len(p, i));
    }
    assert(br_tag_len(x, i) == br_tag_len(p, i));
    assert(p_tag_len(x, i) == p_tag_len(p, i));
}

proof fn lemma_white_run_bound(s: Seq<char>, j: int)
    requires
        0 <= j <= s.len(),
    ensures
        j + white_run(s, j) <= s.len(),
    decreases s.len() - j,
{
    if j < s.len() {
        lemma_white_run_bound(s, j + 1);
    }
}

proof fn lemma_white_run_suffix(x: Seq<char>, d: int, j: int)
    requires
        0 <= d <= x.len(),
        0 <= j,
    ensures
        white_run(x, d + j) == white_run(x.skip(d), j),
    decreases x.len() - d - j,
{
    if d + j < x.len() {
        lemma_white_run_suffix(x, d, j + 1);
    }
}

proof fn lemma_strip_suffix(x: Seq<char>, d: int, i: int)
    requires
        0 <= d <= x.len(),
        0 <= i,
    ensures
        strip_from(x, d + i) == strip_from(x.skip(d), i),
    decreases x.len() - d - i,
{
    let q = x.skip(d);
    if d + i < x.len() {
        if i + 3 <= q.len() {
            lemma_white_run_suffix(x, d, i + 3);
        }
        assert(tag_len(x, d + i) == tag_len(q, i));
        if is_noise_char(x[d + i]) {
            lemma_strip_suffix(x, d, i + 1);
        } else if tag_len(x, d + i) > 0 {
            lemma_strip_suffix(x, d, i + tag_len(q, i));
        } else {
            lemma_strip_suffix(x, d, i + 1);
        }
    }
}

/// A non-empty fragment without `<` whose first character is neither noise
/// nor able to continue a tag begun before it: normalization deletes the
/// noise inside it and nothing else of it, wherever it stands.
pub open spec fn quiet(u: Seq<char>) -> bool {
    &&& u.len() > 0
    &&& !tag_inner(u[0])
    &&& !is_noise_char(u[0])
    &&& forall|j: int| 0 <= j < u.len() ==> #[trigger] u[j] != '<'
}

/// Keeping what is not noise keeps all of a text without noise.
pub proof fn lemma_filter_clean(w: Seq<char>)
    requires
        forall|j: int| 0 <= j < w.len() ==> !is_noise_char(#[trigger] w[j]),
    ensures
        w.filter(not_noise()) == w,
    decreases w.len(),
{
    if w.len() > 0 {
        let r = w.skip(1);
        assert forall|j: int| 0 <= j < r.len() implies !is_noise_char(#[trigger] r[j]) by {
            assert(r[j] == w[j + 1]);
        }
        lemma_filter_clean(r);
        assert(w =~= seq![w[0]] + r);
        r.lemma_filter_prepend(w[0], not_noise());
    } else {
        assert(w.filter(not_noise()) =~= w);
    }
}

proof fn lemma_strip_through(x: Seq<char>, u: Seq<char>, d: int, j: int)
    requires
        0 <= d,
        d + u.len() <= x.len(),
        forall|k: int| 0 <= k < u.len() ==> #[trigger] x[d + k] == u[k],
        forall|k: int| 0 <= k < u.len() ==> #[trigger] u[k] != '<',
        0 <= j <= u.len(),
    ensures
        strip_from(x, d + j) == u.skip(j).filter(not_noise()) + strip_from(x, d + u.len()),
    decreases u.len() - j,
{
    let rest = strip_from(x, d + u.len());
    if j < u.len() {
        lemma_strip_through(x, u, d, j + 1);
        assert(x[d + j] == u[j]);
        assert(u[j] != '<');
        assert(u.skip(j) =~= seq![u[j]] + u.skip(j + 1));
        u.skip(j + 1).lemma_filter_prepend(u[j], not_noise());
        if is_noise_char(u[j]) {
            assert(Seq::<char>::empty() + u.skip(j + 1).filter(not_noise()) =~= u.skip(
                j + 1,
            ).filter(not_noise()));
        } else {
            assert(seq![u[j]] + (u.skip(j + 1).filter(not_noise()) + rest) =~= (seq![u[j]]
                + u.skip(j + 1).filter(not_noise())) + rest);
        }
    } else {
        assert(u.skip(j) =~= Seq::<char>::empty());
        assert(u.skip(j).filter(not_noise()) =~= Seq::<char>::empty());
        assert(u.skip(j).filter(not_noise()) + rest =~= rest);
    }
}

proof fn lemma_strip_embed(p: Seq<char>, u: Seq<char>, q: Seq<char>, i: int)
    requires
        quiet(u),
        0 <= i <= p.len(),
    ensures
        strip_from(p + u + q, i) == strip_from(p, i) + u.filter(not_noise()) + strip_from(q, 0),
    decreases p.len() - i,
{
    let x = p + u + q;
    let n = p.len() as int;
    let f = u.filter(not_noise());
    if i < n {
        assert forall|k: int| 0 <= k < p.len() implies #[trigger] x[k] == p[k] by {}
        assert(x[n] == u[0]);
        lemma_tag_prefix(p, x, i);
        assert(x[i] == p[i]);
        if is_noise_char(p[i]) {
            lemma_strip_embed(p, u, q, i + 1);
        } else if tag_len(p, i) > 0 {
            lemma_strip_embed(p, u, q, i + tag_len(p, i));
        } else {
            lemma_strip_embed(p, u, q, i + 1);
            assert(seq![p[i]] + (strip_from(p, i + 1) + f + strip_from(q, 0)) =~= (seq![p[i]]
                + strip_from(p, i + 1)) + f + strip_from(q, 0));
        }
    } else {
        assert forall|k: int| 0 <= k < u.len() implies #[trigger] x[n + k] == u[k] by {}
        lemma_strip_through(x, u, n, 0);
        assert(u.skip(0) =~= u);
        lemma_strip_suffix(x, n + u.len(), 0);
        assert(x.skip(n + u.len()) =~= q);
        assert(strip_from(p, i) =~= Seq::<char>::empty());
        assert(strip_from(p, i) + f + strip_from(q, 0) =~= f + strip_from(q, 0));
    }
}

/// A pass of deletion removes the noise inside a quiet fragment and works on
/// what stands before and after it separately.
pub proof fn lemma_pass_embed(p: Seq<char>, u: Seq<char>, q: Seq<char>)
    requires
        quiet(u),
    ensures
        normalized(p + u + q) == normalized(p) + u.filter(not_noise()) + normalized(q),
{
    lemma_strip_embed(p, u, q, 0);
}

/// A run of markup: the tags `<br>`, `<br/>`, `<br />`, `<p>` and `</p>`
/// and white space, in any order and number.
pub open spec fn markup_run(m: Seq<char>) -> bool
    decreases m.len(),
{
    if m.len() == 0 {
        true
    } else if is_white_space(m[0]) {
        markup_run(m.skip(1))
    } else if m.len() >= 4 && m.take(4) == seq!['<', 'b', 'r', '>'] {
        markup_run(m.skip(4))
    } else if m.len() >= 5 && m.take(5) == seq!['<', 'b', 'r', '/', '>'] {
        markup_run(m.skip(5))
    } else if m.len() >= 6 && m.take(6) == seq!['<', 'b', 'r', ' ', '/', '>'] {
        markup_run(m.skip(6))
    } else if m.len() >= 3 && m.take(3) == seq!['<', 'p', '>'] {
        markup_run(m.skip(3))
    } else if m.len() >= 4 && m.take(4) == seq!['<', '/', 'p', '>'] {
        markup_run(m.skip(4))
    } else {
        false
    }
}

/// A pass deletes a markup run whole.
proof fn lemma_strip_run(x: Seq<char>, i: int, m: Seq<char>)
    requires
        0 <= i,
        i + m.len() <= x.len(),
        forall|k: int| 0 <= k < m.len() ==> x[i + k] == #[trigger] m[k],
        markup_run(m),
    ensures
        strip_from(x, i) == strip_from(x, i + m.len()),
    decreases m.len(),
{
    if m.len() > 0 {
        assert(x[i] == m[0]);
        let l: int = if is_white_space(m[0]) {
            1
        } else if m.len() >= 4 && m.take(4) == seq!['<', 'b', 'r', '>'] {
            4
        } else if m.len() >= 5 && m.take(5) == seq!['<', 'b', 'r', '/', '>'] {
            5
        } else if m.len() >= 6 && m.take(6) == seq!['<', 'b', 'r', ' ', '/', '>'] {
            6
        } else if m.len() >= 3 && m.take(3) == seq!['<', 'p', '>'] {
            3
        } else {
            4
        };
        if !is_white_space(m[0]) {
            let t = m.take(l);
            assert forall|k: int| 0 <= k < l implies x[i + k] == #[trigger] t[k] by {
                assert(x[i + k] == m[k]);
            }
            assert(x[i] == t[0] && x[i + 1] == t[1] && x[i + 2] == t[2]);
            if l >= 4 {
                assert(x[i + 3] == t[3]);
            }
            if l >= 5 {
                assert(x[i + 4] == t[4]);
            }
            if l == 6 {
                assert(x[i + 5] == t[5]);
                assert(white_run(x, i + 4) == 0);
                assert(is_white_space(x[i + 3]));
                assert(white_run(x, i + 3) == 1);
            } else if x[i + 1] == 'b' {
                assert(white_run(x, i + 3) == 0);
            }
            assert(tag_len(x, i) == l);
        }
        let r = m.skip(l);
        assert forall|k: int| 0 <= k < r.len() implies x[(i + l) + k] == #[trigger] r[k] by {
            assert(x[i + (l + k)] == m[l + k]);
        }
        lemma_strip_run(x, i + l, r);
    }
}

/// A pass keeps a fragment without noise and `<` that begins a text, and
/// works on the rest separately.
proof fn lemma_pass_clean_prefix(a: Seq<char>, c: Seq<char>)
    requires
        forall|j: int| 0 <= j < a.len() ==> !is_noise_char(#[trigger] a[j]) && a[j] != '<',
    ensures
        normalized(a + c) == a + normalized(c),
{
    let x = a + c;
    assert forall|k: int| 0 <= k < a.len() implies #[trigger] x[0 + k] == a[k] by {}
    lemma_strip_through(x, a, 0, 0);
    assert(a.skip(0) =~= a);
    lemma_filter_clean(a);
    lemma_strip_suffix(x, a.len() as int, 0);
    assert(x.skip(a.len() as int) =~= c);
}

proof fn lemma_passes_clean_prefix(a: Seq<char>, c: Seq<char>, n: nat)
    requires
        forall|j: int| 0 <= j < a.len() ==> !is_noise_char(#[trigger] a[j]) && a[j] != '<',
    ensures
        normalize_passes(a + c, n) == a + normalize_passes(c, n),
    decreases n,
{
    if n > 0 {
        lemma_pass_clean_prefix(a, c);
        lemma_passes_clean_prefix(a, normalized(c), (n - 1) as nat);
    }
}

/// Normalization keeps a fragment without noise and `<` that begins a text,
/// and a markup run right after it is deleted whole.
pub proof fn lemma_run_after_clean(a: Seq<char>, m: Seq<char>, b: Seq<char>)
    requires
        forall|j: int| 0 <= j < a.len() ==> !is_noise_char(#[trigger] a[j]) && a[j] != '<',
        markup_run(m),
    ensures
        fully_normalized(a + m + b) == a + fully_normalized(b),
{
    let x = a + m + b;
    let d = a.len() as int;
    assert forall|k: int| 0 <= k < a.len() implies #[trigger] x[0 + k] == a[k] by {}
    lemma_strip_through(x, a, 0, 0);
    assert(a.skip(0) =~= a);
    lemma_filter_clean(a);
    assert forall|k: int| 0 <= k < m.len() implies #[trigger] x[d + k] == m[k] by {}
    lemma_strip_run(x, d, m);
    lemma_strip_suffix(x, d + m.len(), 0);
    assert(x.skip(d + m.len()) =~= b);
    assert(normalized(x) == a + normalized(b));
    lemma_fully_after_pass(x);
    lemma_fully_after_pass(b);
    let c = normalized(b);
    lemma_passes_clean_prefix(a, c, (a + c).len());
    lemma_passes_reach(c, (a + c).len());
}

proof fn lemma_passes_embed(p: Seq<char>, w: Seq<char>, q: Seq<char>, n: nat)
    requires
        inert(w),
    ensures
        normalize_passes(p + w + q, n) == normalize_passes(p, n) + w + normalize_passes(q, n),
    decreases n,
{
    if n > 0 {
        lemma_filter_clean(w);
        lemma_pass_embed(p, w, q);
        lemma_passes_embed(normalized(p), w, normalized(q), (n - 1) as nat);
    }
}

/// Normalization leaves an inert fragment in place and normalizes what
/// stands before and after it separately.
pub proof fn lemma_fully_embed(p: Seq<char>, w: Seq<char>, q: Seq<char>)
    ensures
        inert(w) ==> fully_normalized(p + w + q) == fully_normalized(p) + w + fully_normalized(q),
{
    if inert(w) {
        let n = (p + w + q).len();
        lemma_passes_embed(p, w, q, n);
        lemma_passes_reach(p, n);
        lemma_passes_reach(q, n);
    }
}

fn white_space(c: char) -> (r: bool)
    ensures
        r == is_white_space(c),
{
    let u = c as u32;
    (0x09 <= u && u <= 0x0D) || u == 0x20 || u == 0x85 || u == 0xA0 || u == 0x1680 || (0x2000
        <= u && u <= 0x200A) || u == 0x2028 || u == 0x2029 || u == 0x202F || u == 0x205F || u
        == 0x3000
}

fn noise_char(c: char) -> (r: bool)
    ensures
        r == is_noise_char(c),
{
    let u = c as u32;
    (0x200B <= u && u <= 0x200D) || u == 0xFEFF || u == 0x3164 || white_space(c)
}

/// The characters of `s`, in order.
pub fn chars_of(s: &str) -> (v: Vec<char>)
    ensures
        v@ == s@,
{
    let mut v: Vec<char> = Vec::new();
    for c in it: s.chars()
        invariant
            it.seq() == s@,
            v@ == it.seq().take(it.index()),
    {
        v.push(c);
    }
    v
}

/// Relies on `String::push`: the character is appended at the end.
#[verifier::external_body]
pub(crate) fn push_char(s: &mut String, c: char)
    ensures
        final(s)@ == old(s)@.push(c),
{
    s.push(c);
}

/// The length of the markup tag that starts at `i` in `v`, or 0.
fn tag_len_at(v: &Vec<char>, i: usize) -> (r: usize)
    requires
        i < v.len(),
    ensures
        r as int == tag_len(v@, i as int),
        r <= v.len() - i,
{
    let n = v.len();
    if v[i] != '<' {
        return 0;
    }
    if n - i >= 3 && v[i + 1] == 'b' && v[i + 2] == 'r' {
        let mut j: usize = i + 3;
        while j < n && white_space(v[j])
            invariant
                i + 3 <= j <= n,
                n == v.len(),
                white_run(v@, i + 3) == (j - (i + 3)) + white_run(v@, j as int),
            decreases n - j,
        {
            j = j + 1;
        }
        let k = if j < n && v[j] == '/' {
            j + 1
        } else {
            j
        };
        if k < n && v[k] == '>' {
            return k + 1 - i;
        }
        return 0;
    }
    if n - i >= 3 && v[i + 1] == 'p' && v[i + 2] == '>' {
        return 3;
    }
    if n - i >= 4 && v[i + 1] == '/' && v[i + 2] == 'p' && v[i + 3] == '>' {
        return 4;
    }
    0
}

/// One pass of deletion over `v`: the characters it keeps, in order.
pub fn normalize_chars(v: &Vec<char>) -> (w: Vec<char>)
    ensures
        w@ == normalized(v@),
{
    let n = v.len();
    let mut out: Vec<char> = Vec::new();
    let mut i: usize = 0;
    while i < n
        invariant
            n == v.len(),
            i <= n,
            out@ + strip_from(v@, i as int) == normalized(v@),
        decreases n - i,
    {
        let c = v[i];
        if noise_char(c) {
            i = i + 1;
        } else {
            let k = tag_len_at(v, i);
            if k > 0 {
                i = i + k;
            } else {
                let ghost rest = strip_from(v@, i + 1);
                assert(out@.push(c) + rest =~= out@ + (seq![c] + rest));
                out.push(c);
                i = i + 1;
            }
        }
    }
    out
}

/// Passes of [`normalize_chars`] over `v` until one changes nothing.
pub fn fully_normalize_chars(v: Vec<char>) -> (w: Vec<char>)
    ensures
        w@ == fully_normalized(v@),
{
    let mut w = v;
    loop
        invariant
            fully_normalized(w@) == fully_normalized(v@),
        decreases w.len(),
    {
        let next = normalize_chars(&w);
        proof {
            lemma_pass_shortens(w@);
            lemma_fully_after_pass(w@);
        }
        if next.len() == w.len() {
            proof {
                lemma_passes_fixed(w@, w@.len());
            }
            return w;
        }
        w = next;
    }
}

/// Deletes from `text` every invisible or white-space character and every
/// `<br>`-style or paragraph tag, until none is left; nothing is put in
/// their place.
pub fn normalize(text: &str) -> (r: String)
    ensures
        r@ == fully_normalized(text@),
{
    let w = fully_normalize_chars(chars_of(text));
    let mut out = String::new();
    for c in it: w.iter()
        invariant
            it.seq() == w@.map_values(|c: char| &c),
            out@ == w@.take(it.index()),
    {
        push_char(&mut out, *c);
    }
    out
}

} // verus!
