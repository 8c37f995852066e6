//! Forced lyric alignment: synced lyrics from plain ones, by listening to the track.
//!
//! A transcription endpoint gives a stream of words, each with its start time. The
//! stream is matched against the known lyric words by longest common runs, which
//! gives each lyric line a time; lines that were not heard are interpolated, and the
//! result is forced to be monotonic.
//!
//! Times inside the alignment are whole microseconds. The result speaks of
//! hundredths of a second, and of confidence in thousandths.
use vstd::prelude::*;
use crate::sort::{total};
use vstd::utf8::encode_utf8;
use crate::json::{json_value, list_field, micros_field, parse, text_field, Json, JsonV};
use crate::text::{
    ascii_lower, ascii_lowered, ascii_text, cat, cat3, chars_of, contains, contains_text, first_of, first_of_chars,
    is_alnum, is_blank, is_space, join, joined, law_trimmed, law_words, lemma_first_of, lemma_first_of_shift,
    lemma_flatten_push, lemma_joined_single_blanks, lemma_joined_within, lemma_words_of_joined, lemma_words_solid,
    lemma_words_within, lower_text, push_bytes, push_text, same, single_blanks, solid, strip_end, trim, trimmed,
    without_end, words, words_from, words_of,
};

verus! {

/// A transcription endpoint used for alignment.
#[derive(Clone, Debug)]
pub struct Whisper {
    /// The base of its address, such as `http://192.168.1.6:8080`.
    pub url: String,
    /// The id of the model to use.
    pub model: String,
    /// A bearer token, where the endpoint asks for one.
    pub key: Option<String>,
}

/// The model id that is used where none is chosen.
pub const DEFAULT_MODEL: &'static str = "whisper-large-v3-turbo";

// ---- normal form -------------------------------------------------------------------

/// `s[i..]` with every complete `[…]` group replaced by one space.
pub open spec fn unbracketed_from(s: Seq<char>, i: int) -> Seq<char>
    decreases s.len() - i,
    when 0 <= i <= s.len()
{
    if i == s.len() {
        seq![]
    } else {
        proof {
            lemma_first_of(s, seq![']'], i + 1);
        }
        let close = first_of(s, seq![']'], i + 1);
        if s[i] == '[' && close < s.len() {
            seq![' '] + unbracketed_from(s, close + 1)
        } else {
            seq![s[i]] + unbracketed_from(s, i + 1)
        }
    }
}

/// `s` with every complete `[…]` group replaced by one space.
pub open spec fn unbracketed(s: Seq<char>) -> Seq<char> {
    unbracketed_from(s, 0)
}

/// `s` with a space for everything that is neither alphanumeric nor white space.
pub open spec fn blanked(s: Seq<char>) -> Seq<char> {
    s.map_values(
        |c: char|
            if is_alnum(c) || is_space(c) {
                c
            } else {
                ' '
            },
    )
}

/// The normal form in which words are matched: no `[…]` groups, small letters, and
/// runs of alphanumeric characters with one space between them.
pub open spec fn normed(s: Seq<char>) -> Seq<char> {
    joined(words_of(blanked(lower_text(unbracketed(s)))), seq![' '])
}

/// `s` with every complete `[…]` group replaced by one space.
pub fn strip_brackets(s: &str) -> (r: String)
    ensures
        r@ == unbracketed(s@),
{
    let c = chars_of(s);
    let close: [char; 1] = [']'];
    assert(close@ =~= seq![']']);
    let mut out = String::new();
    let mut i: usize = 0;
    while i < c.len()
        invariant
            i <= c@.len(),
            c@ == s@,
            close@ == seq![']'],
            out@ + unbracketed_from(s@, i as int) == unbracketed(s@),
        decreases c@.len() - i,
    {
        let ghost before = out@;
        if c[i] == '[' {
            let j = first_of_chars(&c, &close, i + 1);
            if j < c.len() {
                out.push(' ');
                assert(out@ + unbracketed_from(s@, j + 1) =~= before + unbracketed_from(s@, i as int));
                i = j + 1;
            } else {
                out.push(c[i]);
                assert(out@ + unbracketed_from(s@, i + 1) =~= before + unbracketed_from(s@, i as int));
                i += 1;
            }
        } else {
            out.push(c[i]);
            assert(out@ + unbracketed_from(s@, i + 1) =~= before + unbracketed_from(s@, i as int));
            i += 1;
        }
    }
    assert(out@ + unbracketed_from(s@, i as int) =~= out@);
    out
}

fn blank_out(s: &str) -> (r: String)
    ensures
        r@ == blanked(s@),
{
    let c = chars_of(s);
    let mut out = String::new();
    let mut i: usize = 0;
    while i < c.len()
        invariant
            i <= c@.len(),
            out@ == blanked(c@.take(i as int)),
        decreases c@.len() - i,
    {
        if c[i].is_alphanumeric() || c[i].is_whitespace() {
            out.push(c[i]);
        } else {
            out.push(' ');
        }
        i += 1;
        assert(out@ =~= blanked(c@.take(i as int)));
    }
    assert(c@.take(i as int) =~= c@);
    out
}

/// The normal form in which lyric and heard words are matched.
pub fn norm(s: &str) -> (r: String)
    ensures
        r@ == normed(s@),
{
    let low = strip_brackets(s).as_str().to_lowercase();
    let ws = words(blank_out(low.as_str()).as_str());
    proof {
        reveal_strlit(" ");
        assert(" "@ =~= seq![' ']);
    }
    join(&ws, " ")
}

/// A normal form is made of alphanumeric characters and single blanks inside.
pub proof fn law_norm_shape(s: Seq<char>)
    ensures
        forall|i: int| 0 <= i < normed(s).len() ==> is_alnum(#[trigger] normed(s)[i]) || normed(s)[i] == ' ',
        single_blanks(normed(s)),
{
    let b = blanked(lower_text(unbracketed(s)));
    let ws = words_of(b);
    lemma_words_solid(b, 0);
    lemma_joined_single_blanks(ws);
    let plain = |c: char| is_alnum(c) || is_space(c);
    assert forall|x: int| 0 <= x < b.len() implies plain(#[trigger] b[x]) by {
        let c = lower_text(unbracketed(s))[x];
        assert(is_space(' '));
    }
    lemma_words_within(b, 0, plain);
    let kept = |c: char| is_alnum(c);
    assert forall|k: int, x: int| 0 <= k < ws.len() && 0 <= x < ws[k].len() implies kept(#[trigger] ws[k][x]) by {
        assert(plain(words_from(b, 0)[k][x]));
        assert(solid(words_from(b, 0)[k]));
        assert(!is_space(ws[k][x]));
    }
    lemma_joined_within(ws, kept);
}

/// Taking the normal form again changes nothing: so it is of every text whose normal form
/// has no capital left to lower, as that of every ASCII text has not.
pub proof fn law_norm_again(s: Seq<char>)
    ensures
        lower_text(normed(s)) == normed(s) ==> normed(normed(s)) == normed(s),
        ascii_text(s) ==> normed(normed(s)) == normed(s),
{
    let t = normed(s);
    let b = blanked(lower_text(unbracketed(s)));
    law_norm_shape(s);
    assert forall|i: int| 0 <= i < t.len() implies #[trigger] t[i] != '[' by {
        assert(is_alnum(t[i]) || t[i] == ' ');
    }
    lemma_no_brackets(t, 0);
    assert(t.subrange(0, t.len() as int) =~= t);
    if lower_text(t) == t {
        lemma_norm_fixed(s);
    }
    if ascii_text(s) {
        lemma_unbracketed_ascii(s, 0);
        let low = |c: char| (c as u32) < 128 && ascii_lower(c) == c;
        let l = lower_text(unbracketed(s));
        assert forall|x: int| 0 <= x < b.len() implies low(#[trigger] b[x]) by {
            let u = unbracketed(s)[x];
            assert((u as u32) < 128);
            assert(l[x] == ascii_lower(u));
        }
        lemma_words_within(b, 0, low);
        lemma_joined_within(words_of(b), low);
        assert forall|x: int| 0 <= x < t.len() implies (#[trigger] t[x] as u32) < 128 && ascii_lower(t[x]) == t[x] by {
            assert(t[x] == ' ' || low(t[x]));
        }
        assert(lower_text(t) =~= t);
        lemma_norm_fixed(s);
    }
}

/// A normal form in small letters is its own normal form.
proof fn lemma_norm_fixed(s: Seq<char>)
    requires
        lower_text(normed(s)) == normed(s),
        unbracketed(normed(s)) == normed(s),
    ensures
        normed(normed(s)) == normed(s),
{
    let t = normed(s);
    let b = blanked(lower_text(unbracketed(s)));
    law_norm_shape(s);
    assert(is_space(' '));
    assert(blanked(t) =~= t);
    lemma_words_solid(b, 0);
    lemma_words_of_joined(words_of(b));
    reveal_strlit(" ");
    assert(" "@ =~= seq![' ']);
}

/// A text without an opening bracket has no group.
proof fn lemma_no_brackets(s: Seq<char>, i: int)
    requires
        0 <= i <= s.len(),
        forall|x: int| 0 <= x < s.len() ==> #[trigger] s[x] != '[',
    ensures
        unbracketed_from(s, i) == s.subrange(i, s.len() as int),
    decreases s.len() - i,
{
    if i < s.len() {
        lemma_no_brackets(s, i + 1);
        assert(s.subrange(i, s.len() as int) =~= seq![s[i]] + s.subrange(i + 1, s.len() as int));
    } else {
        assert(s.subrange(i, s.len() as int) =~= seq![]);
    }
}

proof fn lemma_unbracketed_ascii(s: Seq<char>, i: int)
    requires
        0 <= i <= s.len(),
        ascii_text(s),
    ensures
        ascii_text(unbracketed_from(s, i)),
    decreases s.len() - i,
{
    if i < s.len() {
        lemma_first_of(s, seq![']'], i + 1);
        let close = first_of(s, seq![']'], i + 1);
        if s[i] == '[' && close < s.len() {
            lemma_unbracketed_ascii(s, close + 1);
        } else {
            lemma_unbracketed_ascii(s, i + 1);
        }
    }
}

/// A bracketed group becomes one space, from its opening bracket to the first closing one; what
/// stands before it stays. A text without an opening bracket stays as it is, and so does an
/// opening bracket that is never closed.
pub proof fn law_unbracketed(a: Seq<char>, t: Seq<char>, rest: Seq<char>)
    requires
        forall|i: int| 0 <= i < a.len() ==> #[trigger] a[i] != '[',
        forall|i: int| 0 <= i < t.len() ==> #[trigger] t[i] != ']',
    ensures
        unbracketed(a) == a,
        unbracketed(a + seq!['['] + t + seq![']'] + rest) == a + seq![' '] + unbracketed(rest),
        unbracketed(a + seq!['['] + t) == a + seq!['['] + unbracketed(t),
{
    let n = a.len() as int;
    let close = seq![']'];
    assert(close[0] == ']');
    lemma_no_brackets(a, 0);
    assert(a.subrange(0, n) =~= a);
    let s = a + seq!['['] + t + seq![']'] + rest;
    assert(s =~= a + (seq!['['] + t + seq![']'] + rest));
    lemma_plain_front(a, seq!['['] + t + seq![']'] + rest, 0);
    assert(a.skip(0) =~= a);
    let e = n + 1 + t.len();
    assert(s[n] == '[' && s[e] == ']');
    assert(close.contains(s[e]));
    lemma_first_of(s, close, n + 1);
    let j = first_of(s, close, n + 1);
    if j < e {
        assert(s[j] == t[j - n - 1]);
        assert(close.contains(s[j]));
    }
    assert(j == e);
    lemma_unbracketed_shift(s, e + 1, e + 1);
    assert(s.skip(e + 1) =~= rest);
    assert(unbracketed(s) =~= a + seq![' '] + unbracketed(rest));
    let u = a + seq!['['] + t;
    assert(u =~= a + (seq!['['] + t));
    lemma_plain_front(a, seq!['['] + t, 0);
    lemma_first_of(u, close, n + 1);
    let k = first_of(u, close, n + 1);
    if k < u.len() {
        assert(close.contains(u[k]));
        assert(u[k] == t[k - n - 1]);
    }
    assert(u[n] == '[');
    lemma_unbracketed_shift(u, n + 1, n + 1);
    assert(u.skip(n + 1) =~= t);
    assert(unbracketed(u) =~= a + seq!['['] + unbracketed(t));
}

proof fn lemma_plain_front(a: Seq<char>, b: Seq<char>, i: int)
    requires
        0 <= i <= a.len(),
        forall|x: int| 0 <= x < a.len() ==> #[trigger] a[x] != '[',
    ensures
        unbracketed_from(a + b, i) == a.skip(i) + unbracketed_from(a + b, a.len() as int),
    decreases a.len() - i,
{
    let s = a + b;
    if i < a.len() {
        lemma_plain_front(a, b, i + 1);
        assert(s[i] == a[i]);
        assert(unbracketed_from(s, i) =~= a.skip(i) + unbracketed_from(s, a.len() as int));
    } else {
        assert(a.skip(i) + unbracketed_from(s, i) =~= unbracketed_from(s, i));
    }
}

proof fn lemma_unbracketed_shift(s: Seq<char>, i: int, k: int)
    requires
        0 <= i <= k <= s.len(),
    ensures
        unbracketed_from(s, k) == unbracketed_from(s.skip(i), k - i),
    decreases s.len() - k,
{
    let t = s.skip(i);
    if k < s.len() {
        assert(t[k - i] == s[k]);
        lemma_first_of(s, seq![']'], k + 1);
        lemma_first_of(t, seq![']'], k + 1 - i);
        lemma_first_of_shift(s, seq![']'], i, k + 1);
        let close = first_of(s, seq![']'], k + 1);
        if s[k] == '[' && close < s.len() {
            lemma_unbracketed_shift(s, i, close + 1);
        } else {
            lemma_unbracketed_shift(s, i, k + 1);
        }
    }
}

/// The words in normal form are the runs of letters and digits between all that is neither, in
/// small letters; so it is of every ASCII text without brackets, read from the front.
pub proof fn law_norm_words(a: Seq<char>, c: char, rest: Seq<char>)
    requires
        ascii_text(a + seq![c] + rest),
        forall|i: int| 0 <= i < a.len() ==> is_alnum(#[trigger] a[i]),
        !is_alnum(c),
        forall|i: int| 0 <= i < rest.len() ==> #[trigger] rest[i] != '[',
        c != '[',
    ensures
        words_of(normed(a + seq![c] + rest)) == (if a.len() > 0 {
            seq![ascii_lowered(a)]
        } else {
            seq![]
        }) + words_of(normed(rest)),
        words_of(normed(a)) == (if a.len() > 0 {
            seq![ascii_lowered(a)]
        } else {
            seq![]
        }),
{
    let s = a + seq![c] + rest;
    let n = a.len() as int;
    assert(s[n] == c);
    assert forall|i: int| 0 <= i < s.len() implies #[trigger] s[i] != '[' by {
        if i < n {
            assert(s[i] == a[i]);
            assert(is_alnum(a[i]));
        } else if i > n {
            assert(s[i] == rest[i - n - 1]);
        }
    }
    assert forall|i: int| 0 <= i < a.len() implies #[trigger] a[i] != '[' && (a[i] as u32) < 128 by {
        assert(s[i] == a[i]);
    }
    assert forall|i: int| 0 <= i < rest.len() implies (#[trigger] rest[i] as u32) < 128 by {
        assert(s[n + 1 + i] == rest[i]);
    }
    assert((c as u32) < 128);
    lemma_norm_ascii(s);
    lemma_norm_ascii(rest);
    lemma_norm_ascii(a);
    let low = blanked(ascii_lowered(a));
    assert forall|i: int| 0 <= i < a.len() implies #[trigger] low[i] == ascii_lower(a[i]) && !is_space(low[i]) by {
        assert(is_alnum(a[i]));
        assert(is_alnum(ascii_lower(a[i])));
    }
    assert(low =~= ascii_lowered(a));
    let d = blanked(ascii_lowered(seq![c]))[0];
    assert(ascii_lowered(seq![c])[0] == ascii_lower(c));
    assert(is_space(d)) by {
        assert(!is_alnum(ascii_lower(c)));
        assert(is_space(' '));
    }
    assert(blanked(ascii_lowered(s)) =~= low + seq![d] + blanked(ascii_lowered(rest)));
    law_words(low, d, blanked(ascii_lowered(rest)));
}

proof fn lemma_norm_ascii(s: Seq<char>)
    requires
        ascii_text(s),
        forall|i: int| 0 <= i < s.len() ==> #[trigger] s[i] != '[',
    ensures
        words_of(normed(s)) == words_of(blanked(ascii_lowered(s))),
{
    lemma_no_brackets(s, 0);
    assert(s.subrange(0, s.len() as int) =~= s);
    let b = blanked(lower_text(unbracketed(s)));
    lemma_words_solid(b, 0);
    lemma_words_of_joined(words_of(b));
    reveal_strlit(" ");
    assert(" "@ =~= seq![' ']);
}

// ---- matching blocks ---------------------------------------------------------------

/// `a[i..i + k]` equals `b[j..j + k]`, inside `a[alo..ahi]` and `b[blo..bhi]`.
pub open spec fn common_run(
    a: Seq<Seq<char>>,
    b: Seq<Seq<char>>,
    alo: int,
    ahi: int,
    blo: int,
    bhi: int,
    i: int,
    j: int,
    k: int,
) -> bool {
    &&& 0 <= alo <= i && 0 <= k && i + k <= ahi <= a.len()
    &&& 0 <= blo <= j && j + k <= bhi <= b.len()
    &&& a.subrange(i, i + k) == b.subrange(j, j + k)
}

/// `m` is the longest common run in the region: the earliest in `a`, then in `b`,
/// where several are longest; the region's corner with length zero where there is none.
pub open spec fn is_longest(
    a: Seq<Seq<char>>,
    b: Seq<Seq<char>>,
    alo: int,
    ahi: int,
    blo: int,
    bhi: int,
    m: (int, int, int),
) -> bool {
    &&& common_run(a, b, alo, ahi, blo, bhi, m.0, m.1, m.2)
    &&& m.2 == 0 ==> m.0 == alo && m.1 == blo
    &&& forall|i: int, j: int, k: int| #[trigger]
        common_run(a, b, alo, ahi, blo, bhi, i, j, k) ==> k <= m.2 && (k == m.2 && k > 0 ==> m.0 < i || (m.0 == i
            && m.1 <= j))
}

/// The longest common run in the region.
pub open spec fn longest(a: Seq<Seq<char>>, b: Seq<Seq<char>>, alo: int, ahi: int, blo: int, bhi: int) -> (
    int,
    int,
    int,
) {
    choose|m: (int, int, int)| is_longest(a, b, alo, ahi, blo, bhi, m)
}

/// Two longest common runs of one region are the same.
proof fn lemma_longest_unique(
    a: Seq<Seq<char>>,
    b: Seq<Seq<char>>,
    alo: int,
    ahi: int,
    blo: int,
    bhi: int,
    m: (int, int, int),
)
    requires
        is_longest(a, b, alo, ahi, blo, bhi, m),
    ensures
        longest(a, b, alo, ahi, blo, bhi) == m,
{
    let n = longest(a, b, alo, ahi, blo, bhi);
    assert(is_longest(a, b, alo, ahi, blo, bhi, n));
    assert(common_run(a, b, alo, ahi, blo, bhi, m.0, m.1, m.2));
    assert(common_run(a, b, alo, ahi, blo, bhi, n.0, n.1, n.2));
}

/// A property that holds somewhere at or above `lo` has a least place there.
proof fn lemma_least(p: spec_fn(int) -> bool, lo: int, w: int)
    requires
        lo <= w,
        p(w),
    ensures
        exists|m: int| lo <= m <= w && #[trigger] p(m) && forall|x: int| lo <= x < m ==> !#[trigger] p(x),
    decreases w - lo,
{
    if exists|x: int| lo <= x < w && #[trigger] p(x) {
        let x = choose|x: int| lo <= x < w && #[trigger] p(x);
        lemma_least(p, lo, x);
    }
}

/// Every region has a longest common run.
pub proof fn lemma_longest_exists(a: Seq<Seq<char>>, b: Seq<Seq<char>>, alo: int, ahi: int, blo: int, bhi: int)
    requires
        0 <= alo <= ahi <= a.len(),
        0 <= blo <= bhi <= b.len(),
    ensures
        is_longest(a, b, alo, ahi, blo, bhi, longest(a, b, alo, ahi, blo, bhi)),
{
    let some = |k: int| exists|i: int, j: int| common_run(a, b, alo, ahi, blo, bhi, i, j, k);
    let short = |x: int| some(ahi - alo - x);
    assert(a.subrange(alo, alo) =~= b.subrange(blo, blo));
    assert(common_run(a, b, alo, ahi, blo, bhi, alo, blo, 0));
    assert(some(0));
    assert(short(ahi - alo));
    lemma_least(short, 0, ahi - alo);
    let x = choose|m: int| 0 <= m <= ahi - alo && #[trigger] short(m) && forall|y: int| 0 <= y < m ==> !#[trigger] short(y);
    let k = ahi - alo - x;
    assert(some(k));
    assert forall|i: int, j: int, l: int| #[trigger] common_run(a, b, alo, ahi, blo, bhi, i, j, l) implies l <= k by {
        assert(some(l));
        if l > k {
            assert(short(ahi - alo - l));
        }
    }
    if k == 0 {
        assert(is_longest(a, b, alo, ahi, blo, bhi, (alo, blo, 0)));
    } else {
        let row = |i: int| exists|j: int| common_run(a, b, alo, ahi, blo, bhi, i, j, k);
        let (i0, j0) = choose|i: int, j: int| common_run(a, b, alo, ahi, blo, bhi, i, j, k);
        assert(row(i0));
        lemma_least(row, alo, i0);
        let i = choose|m: int| alo <= m <= i0 && #[trigger] row(m) && forall|y: int| alo <= y < m ==> !#[trigger] row(y);
        let col = |j: int| common_run(a, b, alo, ahi, blo, bhi, i, j, k);
        let j1 = choose|j: int| common_run(a, b, alo, ahi, blo, bhi, i, j, k);
        assert(col(j1));
        lemma_least(col, blo, j1);
        let j = choose|m: int| blo <= m <= j1 && #[trigger] col(m) && forall|y: int| blo <= y < m ==> !#[trigger] col(y);
        assert forall|i2: int, j2: int, l: int| #[trigger] common_run(a, b, alo, ahi, blo, bhi, i2, j2, l) implies l <= k && (l
            == k && l > 0 ==> i < i2 || (i == i2 && j <= j2)) by {
            if l == k {
                assert(row(i2));
                if i2 == i {
                    assert(col(j2));
                }
            }
        }
        assert(is_longest(a, b, alo, ahi, blo, bhi, (i, j, k)));
    }
}

/// The length of the longest common run of the region that ends before `i` and `j`.
spec fn tail(a: Seq<Seq<char>>, b: Seq<Seq<char>>, alo: int, blo: int, i: int, j: int) -> int
    decreases i,
{
    if alo < 0 || i <= alo || j <= blo || a[i - 1] != b[j - 1] {
        0
    } else {
        tail(a, b, alo, blo, i - 1, j - 1) + 1
    }
}

/// `tail` is the length of a common run.
proof fn lemma_tail_run(a: Seq<Seq<char>>, b: Seq<Seq<char>>, alo: int, ahi: int, blo: int, bhi: int, i: int, j: int)
    requires
        0 <= alo <= i <= ahi <= a.len(),
        0 <= blo <= j <= bhi <= b.len(),
    ensures
        0 <= tail(a, b, alo, blo, i, j),
        common_run(
            a,
            b,
            alo,
            ahi,
            blo,
            bhi,
            i - tail(a, b, alo, blo, i, j),
            j - tail(a, b, alo, blo, i, j),
            tail(a, b, alo, blo, i, j),
        ),
    decreases i,
{
    let t = tail(a, b, alo, blo, i, j);
    if t != 0 {
        lemma_tail_run(a, b, alo, ahi, blo, bhi, i - 1, j - 1);
        let x = a.subrange(i - t, i - 1);
        assert(a.subrange(i - t, i) =~= x.push(a[i - 1]));
        assert(b.subrange(j - t, j) =~= b.subrange(j - t, j - 1).push(b[j - 1]));
    } else {
        assert(a.subrange(i, i) =~= b.subrange(j, j));
    }
}

/// No common run is longer than the `tail` at its end.
proof fn lemma_run_tail(
    a: Seq<Seq<char>>,
    b: Seq<Seq<char>>,
    alo: int,
    ahi: int,
    blo: int,
    bhi: int,
    i: int,
    j: int,
    k: int,
)
    requires
        common_run(a, b, alo, ahi, blo, bhi, i, j, k),
    ensures
        k <= tail(a, b, alo, blo, i + k, j + k),
    decreases k,
{
    if k > 0 {
        assert(a.subrange(i, i + k)[k - 1] == a[i + k - 1]);
        assert(b.subrange(j, j + k)[k - 1] == b[j + k - 1]);
        assert(a.subrange(i, i + k - 1) =~= a.subrange(i, i + k).take(k - 1));
        assert(b.subrange(j, j + k - 1) =~= b.subrange(j, j + k).take(k - 1));
        lemma_run_tail(a, b, alo, ahi, blo, bhi, i, j, k - 1);
    } else {
        lemma_tail_run(a, b, alo, ahi, blo, bhi, i + k, j + k);
    }
}

/// The position `(i, j)` comes before the position `(x, y)`.
spec fn earlier(i: int, j: int, x: int, y: int) -> bool {
    i < x || (i == x && j < y)
}

/// The ids name the words: two ids are equal exactly where the words are.
pub closed spec fn ids_of(a: Seq<Seq<char>>, b: Seq<Seq<char>>, ida: Seq<usize>, idb: Seq<usize>) -> bool {
    &&& ida.len() == a.len()
    &&& idb.len() == b.len()
    &&& forall|x: int, y: int|
        #![trigger ida[x], idb[y]]
        0 <= x < a.len() && 0 <= y < b.len() ==> (ida[x] == idb[y] <==> a[x] == b[y])
}

/// The longest common run of `a[alo..ahi]` and `b[blo..bhi]`: the earliest in `a`,
/// then in `b`, where several are longest.
fn longest_match(
    a: &[&str],
    b: &[&str],
    ida: &[usize],
    idb: &[usize],
    alo: usize,
    ahi: usize,
    blo: usize,
    bhi: usize,
) -> (r: (usize, usize, usize))
    requires
        alo <= ahi <= a@.len(),
        blo <= bhi <= b@.len(),
        ids_of(a.deep_view(), b.deep_view(), ida@, idb@),
    ensures
        (r.0 as int, r.1 as int, r.2 as int) == longest(
            a.deep_view(),
            b.deep_view(),
            alo as int,
            ahi as int,
            blo as int,
            bhi as int,
        ),
        is_longest(
            a.deep_view(),
            b.deep_view(),
            alo as int,
            ahi as int,
            blo as int,
            bhi as int,
            (r.0 as int, r.1 as int, r.2 as int),
        ),
{
    let ghost av = a.deep_view();
    let ghost bv = b.deep_view();
    // The ends of the best run so far, and its length.
    let mut ei: usize = alo;
    let mut ej: usize = blo;
    let mut size: usize = 0;
    let mut prev: Vec<usize> = Vec::new();
    let width: usize = bhi - blo;
    let mut z: usize = 0;
    prev.push(0);
    while z < width
        invariant
            z <= width,
            prev@.len() == z + 1,
            forall|y: int| 0 <= y <= z ==> prev@[y] == tail(av, bv, alo as int, blo as int, alo as int, blo + y),
        decreases width - z,
    {
        prev.push(0);
        z += 1;
    }
    let mut i: usize = alo;
    while i < ahi
        invariant
            alo <= i <= ahi <= a@.len(),
            blo <= bhi <= b@.len(),
            width == bhi - blo,
            av == a.deep_view(),
            bv == b.deep_view(),
            ids_of(av, bv, ida@, idb@),
            prev@.len() == width + 1,
            forall|y: int| 0 <= y <= width ==> prev@[y] == tail(av, bv, alo as int, blo as int, i as int, blo + y),
            alo <= ei <= i,
            blo <= ej <= bhi,
            size == tail(av, bv, alo as int, blo as int, ei as int, ej as int),
            size == 0 ==> ei == alo && ej == blo,
            forall|x: int, y: int|
                alo <= x <= i && blo <= y <= bhi ==> #[trigger] tail(av, bv, alo as int, blo as int, x, y) <= size,
            forall|x: int, y: int|
                alo <= x <= i && blo <= y <= bhi && earlier(x, y, ei as int, ej as int) ==> #[trigger] tail(
                    av,
                    bv,
                    alo as int,
                    blo as int,
                    x,
                    y,
                ) < size,
        decreases ahi - i,
    {
        let mut row: Vec<usize> = Vec::new();
        row.push(0);
        let mut y: usize = 0;
        let id: usize = ida[i];
        while y < width
            invariant
                alo <= i < ahi <= a@.len(),
                blo <= bhi <= b@.len(),
                width == bhi - blo,
                av == a.deep_view(),
                bv == b.deep_view(),
                ids_of(av, bv, ida@, idb@),
                id == ida@[i as int],
                y <= width,
                prev@.len() == width + 1,
                forall|y: int| 0 <= y <= width ==> prev@[y] == tail(av, bv, alo as int, blo as int, i as int, blo + y),
                row@.len() == y + 1,
                forall|z: int| 0 <= z <= y ==> row@[z] == tail(av, bv, alo as int, blo as int, i + 1, blo + z),
                alo <= ei <= i + 1,
                blo <= ej <= bhi,
                ei == i + 1 ==> ej <= blo + y,
                size == tail(av, bv, alo as int, blo as int, ei as int, ej as int),
                size == 0 ==> ei == alo && ej == blo,
                forall|x: int, z: int|
                    alo <= x <= i && blo <= z <= bhi ==> #[trigger] tail(av, bv, alo as int, blo as int, x, z) <= size,
                forall|z: int| blo <= z <= blo + y ==> #[trigger] tail(av, bv, alo as int, blo as int, i + 1, z) <= size,
                forall|x: int, z: int|
                    alo <= x <= i + 1 && blo <= z <= bhi && earlier(x, z, ei as int, ej as int) ==> #[trigger] tail(
                        av,
                        bv,
                        alo as int,
                        blo as int,
                        x,
                        z,
                    ) < size,
            decreases width - y,
        {
            let same_word = id == idb[blo + y];
            proof {
                assert(same_word == (av[i as int] == bv[blo + y]));
                lemma_tail_run(av, bv, alo as int, ahi as int, blo as int, bhi as int, i as int, blo + y);
                lemma_tail_run(av, bv, alo as int, ahi as int, blo as int, bhi as int, i + 1, blo + y + 1);
            }
            let k: usize = if same_word {
                prev[y] + 1
            } else {
                0
            };
            assert(k == tail(av, bv, alo as int, blo as int, i + 1, blo + y + 1));
            row.push(k);
            if k > size {
                ei = i + 1;
                ej = blo + y + 1;
                size = k;
            }
            y += 1;
        }
        prev = row;
        i += 1;
    }
    proof {
        lemma_tail_run(av, bv, alo as int, ahi as int, blo as int, bhi as int, ei as int, ej as int);
        let m = ((ei - size) as int, (ej - size) as int, size as int);
        assert forall|x: int, y: int, k: int| #[trigger]
            common_run(av, bv, alo as int, ahi as int, blo as int, bhi as int, x, y, k) implies k <= m.2 && (k == m.2 && k
            > 0 ==> m.0 < x || (m.0 == x && m.1 <= y)) by {
            lemma_run_tail(av, bv, alo as int, ahi as int, blo as int, bhi as int, x, y, k);
            assert(tail(av, bv, alo as int, blo as int, x + k, y + k) <= size);
            if k == size && k > 0 {
                assert(!earlier(x + k, y + k, ei as int, ej as int));
            }
        }
        assert(is_longest(av, bv, alo as int, ahi as int, blo as int, bhi as int, m));
        lemma_longest_unique(av, bv, alo as int, ahi as int, blo as int, bhi as int, m);
    }
    (ei - size, ej - size, size)
}

/// The first position of `w` in `b`, or the length of `b`.
fn first_index(b: &[&str], w: &str) -> (r: usize)
    ensures
        r <= b@.len(),
        r < b@.len() ==> b.deep_view()[r as int] == w@,
        forall|y: int| 0 <= y < r ==> b.deep_view()[y] != w@,
{
    let mut y: usize = 0;
    while y < b.len()
        invariant
            y <= b@.len(),
            forall|z: int| 0 <= z < y ==> b.deep_view()[z] != w@,
        decreases b@.len() - y,
    {
        if same(b[y], w) {
            return y;
        }
        y += 1;
    }
    y
}

/// The first positions in `b` of the words of `ws`.
fn first_indices(b: &[&str], ws: &[&str]) -> (r: Vec<usize>)
    ensures
        r@.len() == ws@.len(),
        forall|x: int|
            0 <= x < ws@.len() ==> {
                let w = ws.deep_view()[x];
                &&& #[trigger] r@[x] <= b@.len()
                &&& r@[x] < b@.len() ==> b.deep_view()[r@[x] as int] == w
                &&& forall|y: int| 0 <= y < r@[x] ==> b.deep_view()[y] != w
            },
{
    let mut out: Vec<usize> = Vec::new();
    let mut x: usize = 0;
    while x < ws.len()
        invariant
            x <= ws@.len(),
            out@.len() == x,
            forall|z: int|
                0 <= z < x ==> {
                    let w = ws.deep_view()[z];
                    &&& #[trigger] out@[z] <= b@.len()
                    &&& out@[z] < b@.len() ==> b.deep_view()[out@[z] as int] == w
                    &&& forall|y: int| 0 <= y < out@[z] ==> b.deep_view()[y] != w
                },
        decreases ws@.len() - x,
    {
        let k = first_index(b, ws[x]);
        out.push(k);
        x += 1;
    }
    out
}

/// The blocks of the region, in order: its longest common run, with the blocks of
/// what lies before it in both texts and of what lies after it in both.
pub open spec fn blocks_in(a: Seq<Seq<char>>, b: Seq<Seq<char>>, alo: int, ahi: int, blo: int, bhi: int) -> Seq<
    (int, int, int),
>
    decreases ahi - alo,
{
    let m = longest(a, b, alo, ahi, blo, bhi);
    if 0 < m.2 && alo <= m.0 && m.0 + m.2 <= ahi {
        blocks_in(a, b, alo, m.0, blo, m.1) + seq![m] + blocks_in(a, b, m.0 + m.2, ahi, m.1 + m.2, bhi)
    } else {
        seq![]
    }
}

/// The matching blocks of `a` and `b`.
pub open spec fn blocks_of(a: Seq<Seq<char>>, b: Seq<Seq<char>>) -> Seq<(int, int, int)> {
    blocks_in(a, b, 0, a.len() as int, 0, b.len() as int)
}

pub open spec fn block_ints(v: Seq<(usize, usize, usize)>) -> Seq<(int, int, int)> {
    v.map_values(|m: (usize, usize, usize)| (m.0 as int, m.1 as int, m.2 as int))
}

fn blocks_within(
    a: &[&str],
    b: &[&str],
    ida: &[usize],
    idb: &[usize],
    alo: usize,
    ahi: usize,
    blo: usize,
    bhi: usize,
    out: &mut Vec<(usize, usize, usize)>,
)
    requires
        alo <= ahi <= a@.len(),
        blo <= bhi <= b@.len(),
        ids_of(a.deep_view(), b.deep_view(), ida@, idb@),
    ensures
        block_ints(final(out)@) == block_ints(old(out)@) + blocks_in(
            a.deep_view(),
            b.deep_view(),
            alo as int,
            ahi as int,
            blo as int,
            bhi as int,
        ),
    decreases ahi - alo,
{
    let ghost before = block_ints(out@);
    let (i, j, k) = longest_match(a, b, ida, idb, alo, ahi, blo, bhi);
    if k > 0 {
        blocks_within(a, b, ida, idb, alo, i, blo, j, out);
        let ghost mid = block_ints(out@);
        out.push((i, j, k));
        assert(block_ints(out@) =~= mid.push((i as int, j as int, k as int)));
        blocks_within(a, b, ida, idb, i + k, ahi, j + k, bhi, out);
        assert(block_ints(out@) =~= before + blocks_in(
            a.deep_view(),
            b.deep_view(),
            alo as int,
            ahi as int,
            blo as int,
            bhi as int,
        ));
    } else {
        assert(block_ints(out@) =~= before + Seq::<(int, int, int)>::empty());
    }
}

/// The longest-matching-block decomposition of two word sequences, in order: each
/// block is a position in `a`, a position in `b` and a length.
pub fn matching_blocks(a: &[&str], b: &[&str]) -> (r: Vec<(usize, usize, usize)>)
    ensures
        block_ints(r@) == blocks_of(a.deep_view(), b.deep_view()),
{
    let ida = first_indices(b, a);
    let idb = first_indices(b, b);
    proof {
        let av = a.deep_view();
        let bv = b.deep_view();
        assert forall|x: int, y: int|
            #![trigger ida@[x], idb@[y]]
            0 <= x < av.len() && 0 <= y < bv.len() implies (ida@[x] == idb@[y] <==> av[x] == bv[y]) by {
            assert(bv[y] == bv[y]);
            assert(idb@[y] <= y);
            if av[x] == bv[y] {
                if ida@[x] < idb@[y] {
                    assert(bv[ida@[x] as int] != bv[y]);
                }
                if idb@[y] < ida@[x] {
                    assert(bv[idb@[y] as int] != av[x]);
                }
            }
        }
    }
    let mut out: Vec<(usize, usize, usize)> = Vec::new();
    blocks_within(a, b, &ida, &idb, 0, a.len(), 0, b.len(), &mut out);
    assert(block_ints(out@) =~= blocks_of(a.deep_view(), b.deep_view()));
    out
}

/// One block lies before another in both sequences.
pub open spec fn block_before(p: (int, int, int), q: (int, int, int)) -> bool {
    p.0 + p.2 <= q.0 && p.1 + p.2 <= q.1
}

/// The blocks of a region are common runs of at least one word, and each lies
/// before the next ones in both sequences: no word is matched twice, and no two
/// matches cross.
pub proof fn law_blocks_ordered(a: Seq<Seq<char>>, b: Seq<Seq<char>>, alo: int, ahi: int, blo: int, bhi: int)
    requires
        0 <= alo <= ahi <= a.len(),
        0 <= blo <= bhi <= b.len(),
    ensures
        forall|p: int|
            0 <= p < blocks_in(a, b, alo, ahi, blo, bhi).len() ==> {
                let m = #[trigger] blocks_in(a, b, alo, ahi, blo, bhi)[p];
                m.2 > 0 && common_run(a, b, alo, ahi, blo, bhi, m.0, m.1, m.2)
            },
        forall|p: int, q: int|
            0 <= p < q < blocks_in(a, b, alo, ahi, blo, bhi).len() ==> block_before(
                #[trigger] blocks_in(a, b, alo, ahi, blo, bhi)[p],
                #[trigger] blocks_in(a, b, alo, ahi, blo, bhi)[q],
            ),
    decreases ahi - alo,
{
    lemma_longest_exists(a, b, alo, ahi, blo, bhi);
    let m = longest(a, b, alo, ahi, blo, bhi);
    if 0 < m.2 {
        law_blocks_ordered(a, b, alo, m.0, blo, m.1);
        law_blocks_ordered(a, b, m.0 + m.2, ahi, m.1 + m.2, bhi);
        let left = blocks_in(a, b, alo, m.0, blo, m.1);
        let right = blocks_in(a, b, m.0 + m.2, ahi, m.1 + m.2, bhi);
        let all = blocks_in(a, b, alo, ahi, blo, bhi);
        assert(all =~= left + seq![m] + right);
        assert forall|p: int| 0 <= p < all.len() implies {
            let x = #[trigger] all[p];
            x.2 > 0 && common_run(a, b, alo, ahi, blo, bhi, x.0, x.1, x.2)
        } by {
            if p < left.len() {
                assert(all[p] == left[p]);
            } else if p > left.len() {
                assert(all[p] == right[p - left.len() - 1]);
            }
        }
        assert forall|p: int, q: int| 0 <= p < q < all.len() implies block_before(#[trigger] all[p], #[trigger] all[q]) by {
            if p < left.len() {
                assert(all[p] == left[p]);
                if q < left.len() {
                    assert(all[q] == left[q]);
                } else if q > left.len() {
                    assert(all[q] == right[q - left.len() - 1]);
                }
            } else {
                assert(all[q] == right[q - left.len() - 1]);
                if p > left.len() {
                    assert(all[p] == right[p - left.len() - 1]);
                }
            }
        }
    }
}

/// Two common runs that follow each other in both sequences are one longer run.
proof fn lemma_runs_join(
    a: Seq<Seq<char>>,
    b: Seq<Seq<char>>,
    alo: int,
    ahi: int,
    blo: int,
    bhi: int,
    x: (int, int, int),
    y: (int, int, int),
)
    requires
        common_run(a, b, alo, ahi, blo, bhi, x.0, x.1, x.2),
        common_run(a, b, alo, ahi, blo, bhi, y.0, y.1, y.2),
        x.0 + x.2 == y.0,
        x.1 + x.2 == y.1,
    ensures
        common_run(a, b, alo, ahi, blo, bhi, x.0, x.1, x.2 + y.2),
{
    let k = x.2 + y.2;
    assert(a.subrange(x.0, x.0 + k) =~= a.subrange(x.0, y.0) + a.subrange(y.0, y.0 + y.2));
    assert(b.subrange(x.1, x.1 + k) =~= b.subrange(x.1, y.1) + b.subrange(y.1, y.1 + y.2));
}

/// No match is missed: two equal words, neither of them in a block, never lie on the same side of
/// every block.
pub proof fn law_blocks_complete(a: Seq<Seq<char>>, b: Seq<Seq<char>>, alo: int, ahi: int, blo: int, bhi: int, x: int, y: int)
    requires
        0 <= alo <= x < ahi <= a.len(),
        0 <= blo <= y < bhi <= b.len(),
        forall|p: int|
            0 <= p < blocks_in(a, b, alo, ahi, blo, bhi).len() ==> {
                let m = #[trigger] blocks_in(a, b, alo, ahi, blo, bhi)[p];
                (x < m.0 && y < m.1) || (m.0 + m.2 <= x && m.1 + m.2 <= y)
            },
    ensures
        a[x] != b[y],
    decreases ahi - alo,
{
    lemma_longest_exists(a, b, alo, ahi, blo, bhi);
    let m = longest(a, b, alo, ahi, blo, bhi);
    if a[x] == b[y] {
        assert(a.subrange(x, x + 1) =~= b.subrange(y, y + 1));
        assert(common_run(a, b, alo, ahi, blo, bhi, x, y, 1));
        assert(0 < m.2);
    }
    if 0 < m.2 {
        let left = blocks_in(a, b, alo, m.0, blo, m.1);
        let right = blocks_in(a, b, m.0 + m.2, ahi, m.1 + m.2, bhi);
        let all = blocks_in(a, b, alo, ahi, blo, bhi);
        let mid = left.len() as int;
        assert(all =~= left + seq![m] + right);
        assert(all[mid] == m);
        if x < m.0 {
            assert forall|p: int| 0 <= p < left.len() implies {
                let n = #[trigger] left[p];
                (x < n.0 && y < n.1) || (n.0 + n.2 <= x && n.1 + n.2 <= y)
            } by {
                assert(all[p] == left[p]);
            }
            law_blocks_complete(a, b, alo, m.0, blo, m.1, x, y);
        } else {
            assert forall|p: int| 0 <= p < right.len() implies {
                let n = #[trigger] right[p];
                (x < n.0 && y < n.1) || (n.0 + n.2 <= x && n.1 + n.2 <= y)
            } by {
                assert(all[mid + 1 + p] == right[p]);
            }
            law_blocks_complete(a, b, m.0 + m.2, ahi, m.1 + m.2, bhi, x, y);
        }
    }
}

/// Where two sequences have a word in common, the longest run of words that they have in common is
/// a block: of several that are as long the one that comes first in the first sequence, and then in
/// the second.
pub proof fn law_longest_block(a: Seq<Seq<char>>, b: Seq<Seq<char>>, i: int, j: int, k: int) -> (p: int)
    requires
        0 <= i && 0 <= j && 0 < k && i + k <= a.len() && j + k <= b.len(),
        a.subrange(i, i + k) == b.subrange(j, j + k),
    ensures
        0 <= p < blocks_of(a, b).len(),
        ({
            let m = blocks_of(a, b)[p];
            k <= m.2 && (k == m.2 ==> m.0 < i || (m.0 == i && m.1 <= j))
        }),
{
    let (n, o) = (a.len() as int, b.len() as int);
    lemma_longest_exists(a, b, 0, n, 0, o);
    let m = longest(a, b, 0, n, 0, o);
    assert(common_run(a, b, 0, n, 0, o, i, j, k));
    let left = blocks_in(a, b, 0, m.0, 0, m.1);
    let right = blocks_in(a, b, m.0 + m.2, n, m.1 + m.2, o);
    assert(blocks_of(a, b) =~= left + seq![m] + right);
    left.len() as int
}

/// Between two blocks there is a word that is in neither, in one of the sequences at least:
/// no block can be joined with the next.
pub proof fn law_blocks_apart(a: Seq<Seq<char>>, b: Seq<Seq<char>>, alo: int, ahi: int, blo: int, bhi: int)
    requires
        0 <= alo <= ahi <= a.len(),
        0 <= blo <= bhi <= b.len(),
    ensures
        forall|p: int, q: int|
            0 <= p < q < blocks_in(a, b, alo, ahi, blo, bhi).len() ==> {
                let x = #[trigger] blocks_in(a, b, alo, ahi, blo, bhi)[p];
                let y = #[trigger] blocks_in(a, b, alo, ahi, blo, bhi)[q];
                x.0 + x.2 < y.0 || x.1 + x.2 < y.1
            },
    decreases ahi - alo,
{
    lemma_longest_exists(a, b, alo, ahi, blo, bhi);
    let m = longest(a, b, alo, ahi, blo, bhi);
    if 0 < m.2 {
        let left = blocks_in(a, b, alo, m.0, blo, m.1);
        let right = blocks_in(a, b, m.0 + m.2, ahi, m.1 + m.2, bhi);
        let all = blocks_in(a, b, alo, ahi, blo, bhi);
        law_blocks_apart(a, b, alo, m.0, blo, m.1);
        law_blocks_apart(a, b, m.0 + m.2, ahi, m.1 + m.2, bhi);
        law_blocks_ordered(a, b, alo, ahi, blo, bhi);
        assert(all =~= left + seq![m] + right);
        let mid = left.len() as int;
        assert(all[mid] == m);
        assert forall|p: int, q: int| 0 <= p < q < all.len() implies {
            let x = #[trigger] all[p];
            let y = #[trigger] all[q];
            x.0 + x.2 < y.0 || x.1 + x.2 < y.1
        } by {
            let x = all[p];
            let y = all[q];
            assert(block_before(x, y));
            if q < mid {
                assert(x == left[p] && y == left[q]);
            } else if p > mid {
                assert(x == right[p - mid - 1] && y == right[q - mid - 1]);
            } else if p < mid && q > mid {
                assert(block_before(x, m) && block_before(m, y));
            } else if x.0 + x.2 == y.0 && x.1 + x.2 == y.1 {
                lemma_runs_join(a, b, alo, ahi, blo, bhi, x, y);
            }
        }
    }
}

/// There is no block exactly where no word of one sequence is in the other.
pub proof fn law_nothing_matched(a: Seq<Seq<char>>, b: Seq<Seq<char>>)
    ensures
        blocks_of(a, b).len() == 0 <==> (forall|i: int, j: int|
            0 <= i < a.len() && 0 <= j < b.len() ==> #[trigger] a[i] != #[trigger] b[j]),
{
    let (n, k) = (a.len() as int, b.len() as int);
    lemma_longest_exists(a, b, 0, n, 0, k);
    let m = longest(a, b, 0, n, 0, k);
    if m.2 > 0 {
        assert(a.subrange(m.0, m.0 + m.2)[0] == a[m.0]);
        assert(b.subrange(m.1, m.1 + m.2)[0] == b[m.1]);
    } else {
        assert forall|i: int, j: int| 0 <= i < a.len() && 0 <= j < b.len() implies #[trigger] a[i] != #[trigger] b[j] by {
            if a[i] == b[j] {
                assert(a.subrange(i, i + 1) =~= b.subrange(j, j + 1));
                assert(common_run(a, b, 0, n, 0, k, i, j, 1));
            }
        }
    }
}

// ---- times of the lines ------------------------------------------------------------

/// `n / d`, rounded to the nearest whole number, halves upwards.
pub open spec fn rounded(n: int, d: int) -> int {
    (2 * n + d) / (2 * d)
}

/// The words of the first `n` lines in normal form, one after the other.
pub open spec fn known_words(lines: Seq<Seq<char>>, n: int) -> Seq<Seq<char>>
    decreases n,
{
    if n <= 0 {
        seq![]
    } else {
        known_words(lines, n - 1) + words_of(normed(lines[n - 1]))
    }
}

/// The line that each of the words of the first `n` lines belongs to.
pub open spec fn known_lines(lines: Seq<Seq<char>>, n: int) -> Seq<int>
    decreases n,
{
    if n <= 0 {
        seq![]
    } else {
        known_lines(lines, n - 1) + Seq::new(words_of(normed(lines[n - 1])).len(), |k: int| n - 1)
    }
}

/// The heard word that the blocks match with the known word `x`.
pub open spec fn partner(blocks: Seq<(int, int, int)>, x: int) -> Option<int>
    decreases blocks.len(),
{
    if blocks.len() == 0 {
        None
    } else if blocks.last().0 <= x < blocks.last().0 + blocks.last().2 {
        Some(blocks.last().1 + x - blocks.last().0)
    } else {
        partner(blocks.drop_last(), x)
    }
}

/// The texts of a stream of heard words.
pub open spec fn stream_texts(stream: Seq<(i64, Seq<char>)>) -> Seq<Seq<char>> {
    stream.map_values(|w: (i64, Seq<char>)| w.1)
}

/// When each of the known words was heard, if it was.
pub open spec fn heard(known: Seq<Seq<char>>, stream: Seq<(i64, Seq<char>)>) -> Seq<Option<int>> {
    let blocks = blocks_of(known, stream_texts(stream));
    Seq::new(
        known.len(),
        |x: int|
            match partner(blocks, x) {
                Some(y) => Some(stream[y].0 as int),
                None => None,
            },
    )
}

/// What the first `n` known words say of line `li`.
pub struct LineTiming {
    /// When its first word was heard.
    pub first: Option<int>,
    /// When its last word was heard, not before zero.
    pub last: int,
    /// How many of its words were heard.
    pub hits: int,
    /// How many words it has.
    pub total: int,
}

pub open spec fn line_timing(owner: Seq<int>, times: Seq<Option<int>>, li: int, n: int) -> LineTiming
    decreases n,
{
    if n <= 0 {
        LineTiming { first: None, last: 0, hits: 0, total: 0 }
    } else {
        let t = line_timing(owner, times, li, n - 1);
        if owner[n - 1] != li {
            t
        } else {
            match times[n - 1] {
                None => LineTiming { total: t.total + 1, ..t },
                Some(at) => LineTiming {
                    first: match t.first {
                        Some(f) if f <= at => Some(f),
                        _ => Some(at),
                    },
                    last: if t.last >= at {
                        t.last
                    } else {
                        at
                    },
                    hits: t.hits + 1,
                    total: t.total + 1,
                },
            }
        }
    }
}

proof fn lemma_timing_bounds(owner: Seq<int>, times: Seq<Option<int>>, li: int, n: int)
    ensures
        0 <= line_timing(owner, times, li, n).hits <= line_timing(owner, times, li, n).total <= (if n > 0 {
            n
        } else {
            0
        }),
        line_timing(owner, times, li, n).first is Some <==> line_timing(owner, times, li, n).hits > 0,
        line_timing(owner, times, li, n).last >= 0,
    decreases n,
{
    if n > 0 {
        lemma_timing_bounds(owner, times, li, n - 1);
    }
}

/// The lines among the first `n` that have a word.
pub open spec fn worded(lines: Seq<Seq<char>>, n: int) -> Seq<int>
    decreases n,
{
    if n <= 0 {
        seq![]
    } else if normed(lines[n - 1]).len() == 0 {
        worded(lines, n - 1)
    } else {
        worded(lines, n - 1).push(n - 1)
    }
}

/// Where there is a known word, there is a line that has one.
proof fn lemma_worded(lines: Seq<Seq<char>>, n: int)
    ensures
        known_words(lines, n).len() > 0 ==> worded(lines, n).len() > 0,
    decreases n,
{
    if n > 0 {
        lemma_worded(lines, n - 1);
    }
}

/// The nearest timed place before `r`.
pub open spec fn timed_before(starts: Seq<Option<int>>, r: int) -> Option<int>
    decreases r,
{
    if r <= 0 {
        None
    } else if starts[r - 1] is Some {
        Some(r - 1)
    } else {
        timed_before(starts, r - 1)
    }
}

/// The nearest timed place at or after `r`.
pub open spec fn timed_from(starts: Seq<Option<int>>, r: int) -> Option<int>
    decreases starts.len() - r,
{
    if r >= starts.len() {
        None
    } else if starts[r] is Some {
        Some(r)
    } else {
        timed_from(starts, r + 1)
    }
}

/// The time `n` of `d` steps of the way from `from` to `to`, rounded towards `from`.
pub open spec fn part_way(from: int, to: int, n: int, d: int) -> int {
    if from <= to {
        from + (n * (to - from)) / d
    } else {
        from - (n * (from - to)) / d
    }
}

/// The time of place `r`: its own; else on the straight line between its timed
/// neighbours; else that of its one timed neighbour; else zero.
pub open spec fn filled(starts: Seq<Option<int>>, r: int) -> int {
    match starts[r] {
        Some(t) => t,
        None => match (timed_before(starts, r), timed_from(starts, r + 1)) {
            (Some(lo), Some(hi)) => part_way(starts[lo]->0, starts[hi]->0, r - lo, hi - lo),
            (Some(lo), None) => starts[lo]->0,
            (None, Some(hi)) => starts[hi]->0,
            (None, None) => 0,
        },
    }
}

/// The latest of zero and the first `n` times.
pub open spec fn latest(times: Seq<int>, n: int) -> int
    decreases n,
{
    if n <= 0 {
        0
    } else if times[n - 1] > latest(times, n - 1) {
        times[n - 1]
    } else {
        latest(times, n - 1)
    }
}

/// Microseconds to the nearest hundredth of a second, halves upwards.
pub open spec fn hundredths(us: int) -> int {
    rounded(us, 10_000)
}

proof fn lemma_timed(starts: Seq<Option<int>>, r: int)
    requires
        0 <= r <= starts.len(),
    ensures
        timed_before(starts, r) matches Some(lo) ==> 0 <= lo < r && starts[lo] is Some,
    decreases r,
{
    if r > 0 {
        lemma_timed(starts, r - 1);
    }
}

proof fn lemma_timed_from(starts: Seq<Option<int>>, r: int)
    requires
        0 <= r <= starts.len(),
    ensures
        timed_from(starts, r) matches Some(hi) ==> r <= hi < starts.len() && starts[hi] is Some,
    decreases starts.len() - r,
{
    if r < starts.len() {
        lemma_timed_from(starts, r + 1);
    }
}

pub open spec fn opt_int(t: Option<i64>) -> Option<int> {
    match t {
        Some(x) => Some(x as int),
        None => None,
    }
}

pub open spec fn opt_ints(v: Seq<Option<i64>>) -> Seq<Option<int>> {
    v.map_values(|t: Option<i64>| opt_int(t))
}

pub open spec fn ints(v: Seq<i64>) -> Seq<int> {
    v.map_values(|t: i64| t as int)
}

fn step(from: i64, to: i64, n: u64, d: u64) -> (r: i64)
    requires
        n < d,
    ensures
        r == part_way(from as int, to as int, n as int, d as int),
{
    let span: u128 = if from <= to {
        (to as i128 - from as i128) as u128
    } else {
        (from as i128 - to as i128) as u128
    };
    proof {
        assert(0 <= n * span <= u128::MAX) by (nonlinear_arith)
            requires
                n <= u64::MAX,
                0 <= span <= u64::MAX,
        ;
        assert(0 <= (n * span) / (d as int) <= span) by (nonlinear_arith)
            requires
                0 <= n < d,
                0 <= span,
        ;
    }
    let part: u128 = (n as u128 * span) / (d as u128);
    if from <= to {
        (from as i128 + part as i128) as i64
    } else {
        (from as i128 - part as i128) as i64
    }
}

/// Fills the untimed places: on the straight line between the nearest timed
/// neighbours, or with the one neighbour there is.
fn interpolate(starts: &[Option<i64>]) -> (r: Vec<i64>)
    ensures
        ints(r@) == Seq::new(starts@.len(), |k: int| filled(opt_ints(starts@), k)),
{
    let ghost sv = opt_ints(starts@);
    let mut out: Vec<i64> = Vec::new();
    let mut k: usize = 0;
    while k < starts.len()
        invariant
            k <= starts@.len(),
            sv == opt_ints(starts@),
            out@.len() == k,
            forall|z: int| 0 <= z < k ==> #[trigger] out@[z] == filled(sv, z),
        decreases starts@.len() - k,
    {
        assert(sv[k as int] == opt_int(starts@[k as int]));
        let t: i64 = match starts[k] {
            Some(t) => t,
            None => {
                let mut lo: usize = k;
                while lo > 0 && starts[lo - 1].is_none()
                    invariant
                        lo <= k < starts@.len(),
                        sv == opt_ints(starts@),
                        timed_before(sv, k as int) == timed_before(sv, lo as int),
                    decreases lo,
                {
                    assert(sv[lo - 1] == opt_int(starts@[lo - 1]));
                    lo -= 1;
                }
                let mut hi: usize = k + 1;
                while hi < starts.len() && starts[hi].is_none()
                    invariant
                        k < hi <= starts@.len(),
                        sv == opt_ints(starts@),
                        timed_from(sv, k + 1) == timed_from(sv, hi as int),
                    decreases starts@.len() - hi,
                {
                    assert(sv[hi as int] == opt_int(starts@[hi as int]));
                    hi += 1;
                }
                let before: Option<i64> = if lo > 0 {
                    assert(sv[lo - 1] == opt_int(starts@[lo - 1]));
                    starts[lo - 1]
                } else {
                    None
                };
                let after: Option<i64> = if hi < starts.len() {
                    assert(sv[hi as int] == opt_int(starts@[hi as int]));
                    starts[hi]
                } else {
                    None
                };
                match (before, after) {
                    (Some(f), Some(t)) => step(f, t, (k - (lo - 1)) as u64, (hi - (lo - 1)) as u64),
                    (Some(f), None) => f,
                    (None, Some(t)) => t,
                    (None, None) => 0,
                }
            },
        };
        out.push(t);
        k += 1;
    }
    assert(ints(out@) =~= Seq::new(starts@.len(), |k: int| filled(opt_ints(starts@), k)));
    out
}

/// Forces non-decreasing times, from zero on.
fn monotonic(times: &[i64]) -> (r: Vec<i64>)
    ensures
        ints(r@) == Seq::new(times@.len(), |k: int| latest(ints(times@), k + 1)),
        forall|k: int| 0 <= k < r@.len() ==> 0 <= #[trigger] r@[k],
{
    let ghost tv = ints(times@);
    let mut out: Vec<i64> = Vec::new();
    let mut last: i64 = 0;
    let mut k: usize = 0;
    while k < times.len()
        invariant
            k <= times@.len(),
            tv == ints(times@),
            out@.len() == k,
            0 <= last,
            last == latest(tv, k as int),
            forall|z: int| 0 <= z < k ==> 0 <= #[trigger] out@[z] && out@[z] == latest(tv, z + 1),
        decreases times@.len() - k,
    {
        assert(tv[k as int] == times@[k as int]);
        if times[k] > last {
            last = times[k];
        }
        out.push(last);
        k += 1;
    }
    assert(ints(out@) =~= Seq::new(times@.len(), |k: int| latest(ints(times@), k + 1)));
    out
}

/// One aligned lyric line.
#[derive(Debug, Clone)]
pub struct AlignLine {
    /// Which of the lyric lines it is.
    pub i: usize,
    /// The line, trimmed.
    pub text: String,
    /// When it starts, in hundredths of a second.
    pub start: u64,
    /// When its last word starts, in hundredths of a second.
    pub end: u64,
    /// How many of its words were heard, in thousandths.
    pub conf: u64,
}

/// The result of aligning a whole lyric to a track.
#[derive(Debug, Clone)]
pub struct AlignResult {
    pub lines: Vec<AlignLine>,
    /// The mean of the lines' confidences, in thousandths.
    pub overall_conf: u64,
}

/// What an aligned line says.
#[verifier::ext_equal]
pub struct AlignedV {
    pub i: int,
    pub text: Seq<char>,
    pub start: int,
    pub end: int,
    pub conf: int,
}

impl DeepView for AlignLine {
    type V = AlignedV;

    open spec fn deep_view(&self) -> AlignedV {
        AlignedV {
            i: self.i as int,
            text: self.text@,
            start: self.start as int,
            end: self.end as int,
            conf: self.conf as int,
        }
    }
}

/// The timings of the lines that have a word.
pub open spec fn timings(lines: Seq<Seq<char>>, stream: Seq<(i64, Seq<char>)>) -> Seq<LineTiming> {
    let n = lines.len() as int;
    let known = known_words(lines, n);
    worded(lines, n).map_values(
        |li: int| line_timing(known_lines(lines, n), heard(known, stream), li, known.len() as int),
    )
}

/// The start times of the lines that have a word, untimed ones filled in.
pub open spec fn filled_starts(ts: Seq<LineTiming>) -> Seq<int> {
    let starts = ts.map_values(|t: LineTiming| t.first);
    Seq::new(ts.len(), |r: int| filled(starts, r))
}

pub open spec fn conf_of(t: LineTiming) -> int {
    if t.first is Some {
        rounded(t.hits * 1000, t.total)
    } else {
        0
    }
}

/// The aligned line at place `r` among those that have a word.
pub open spec fn aligned_line(lines: Seq<Seq<char>>, ts: Seq<LineTiming>, r: int) -> AlignedV {
    let li = worded(lines, lines.len() as int)[r];
    let start = latest(filled_starts(ts), r + 1);
    let end = if ts[r].first is Some && ts[r].last > start {
        ts[r].last
    } else {
        start
    };
    AlignedV {
        i: li,
        text: trimmed(lines[li]),
        start: hundredths(start),
        end: hundredths(end),
        conf: conf_of(ts[r]),
    }
}

/// The sum of the first `n` confidences.
pub open spec fn conf_sum(ts: Seq<LineTiming>, n: int) -> int
    decreases n,
{
    if n <= 0 {
        0
    } else {
        conf_sum(ts, n - 1) + conf_of(ts[n - 1])
    }
}

/// Every line that has a word, aligned.
pub open spec fn aligned(lines: Seq<Seq<char>>, stream: Seq<(i64, Seq<char>)>) -> Seq<AlignedV> {
    let ts = timings(lines, stream);
    Seq::new(ts.len(), |r: int| aligned_line(lines, ts, r))
}

/// The mean confidence.
pub open spec fn mean_conf(lines: Seq<Seq<char>>, stream: Seq<(i64, Seq<char>)>) -> int {
    let ts = timings(lines, stream);
    rounded(conf_sum(ts, ts.len() as int), ts.len() as int)
}

proof fn lemma_conf_bound(t: LineTiming)
    requires
        0 <= t.hits <= t.total,
        t.first is Some ==> t.hits > 0,
    ensures
        0 <= conf_of(t) <= 1000,
{
    if t.first is Some {
        let h = t.hits;
        let d = t.total;
        assert(0 <= (2 * (h * 1000) + d) / (2 * d) <= 1000) by (nonlinear_arith)
            requires
                0 < h <= d,
        ;
    }
}

fn to_hundredths(us: i64) -> (r: u64)
    requires
        0 <= us,
    ensures
        r == hundredths(us as int),
{
    let u: u64 = us as u64;
    let q: u64 = u / 10_000;
    if u % 10_000 >= 5_000 {
        assert((2 * u + 10_000) / 20_000 == q + 1);
        q + 1
    } else {
        assert((2 * u + 10_000) / 20_000 == q);
        q
    }
}

fn to_thousandths(hits: usize, total: usize) -> (r: u64)
    requires
        0 < hits <= total,
    ensures
        r == rounded(hits * 1000, total as int),
        r <= 1000,
{
    let h: u128 = hits as u128;
    let d: u128 = total as u128;
    proof {
        assert(0 <= (2 * (h * 1000) + d) / (2 * d) <= 1000) by (nonlinear_arith)
            requires
                0 < h <= d,
        ;
    }
    ((2 * (h * 1000) + d) / (2 * d)) as u64
}

/// The words of the lines in normal form, and the line that each belongs to.
fn flatten(lines: &[&str]) -> (r: (Vec<usize>, Vec<String>))
    ensures
        r.0@.len() == r.1@.len(),
        r.0@.map_values(|x: usize| x as int) == known_lines(lines.deep_view(), lines@.len() as int),
        r.1.deep_view() == known_words(lines.deep_view(), lines@.len() as int),
        forall|x: int| 0 <= x < r.0@.len() ==> (#[trigger] r.0@[x]) < lines@.len(),
{
    let ghost lv = lines.deep_view();
    let mut owner: Vec<usize> = Vec::new();
    let mut known: Vec<String> = Vec::new();
    let mut li: usize = 0;
    while li < lines.len()
        invariant
            li <= lines@.len(),
            lv == lines.deep_view(),
            owner@.len() == known@.len(),
            owner@.map_values(|x: usize| x as int) == known_lines(lv, li as int),
            known.deep_view() == known_words(lv, li as int),
            forall|x: int| 0 <= x < owner@.len() ==> (#[trigger] owner@[x]) < lines@.len(),
        decreases lines@.len() - li,
    {
        let ws = words(norm(lines[li]).as_str());
        let mut k: usize = 0;
        while k < ws.len()
            invariant
                li < lines@.len(),
                k <= ws@.len(),
                owner@.len() == known@.len(),
                owner@.map_values(|x: usize| x as int) == known_lines(lv, li as int) + Seq::new(
                    k as nat,
                    |z: int| li as int,
                ),
                known.deep_view() == known_words(lv, li as int) + ws.deep_view().take(k as int),
                forall|x: int| 0 <= x < owner@.len() ==> (#[trigger] owner@[x]) < lines@.len(),
            decreases ws@.len() - k,
        {
            let ghost before_o = owner@.map_values(|x: usize| x as int);
            let ghost before_k = known.deep_view();
            owner.push(li);
            known.push(ws[k].clone());
            proof {
                assert(owner@.map_values(|x: usize| x as int) =~= before_o.push(li as int));
                assert(known.deep_view() =~= before_k.push(ws@[k as int]@));
                assert(ws.deep_view().take(k + 1) =~= ws.deep_view().take(k as int).push(ws@[k as int]@));
                assert(Seq::new((k + 1) as nat, |z: int| li as int) =~= Seq::new(k as nat, |z: int| li as int).push(
                    li as int,
                ));
            }
            k += 1;
        }
        proof {
            assert(ws.deep_view().take(k as int) =~= ws.deep_view());
            assert(Seq::new(k as nat, |z: int| li as int) =~= Seq::new(
                words_of(normed(lv[li as int])).len(),
                |z: int| (li + 1) - 1,
            ));
        }
        li += 1;
    }
    (owner, known)
}

/// When each of the known words was heard, if it was; nothing where none of them was.
fn hear(known: &[String], stream: &[(i64, String)]) -> (r: Option<Vec<Option<i64>>>)
    ensures
        r is None <==> blocks_of(known.deep_view(), stream_texts(stream.deep_view())).len() == 0,
        r matches Some(times) ==> opt_ints(times@) == heard(known.deep_view(), stream.deep_view()),
{
    let ghost kv = known.deep_view();
    let ghost sv = stream.deep_view();
    let mut a: Vec<&str> = Vec::new();
    let mut x: usize = 0;
    while x < known.len()
        invariant
            x <= known@.len(),
            kv == known.deep_view(),
            a.deep_view() == kv.take(x as int),
        decreases known@.len() - x,
    {
        let ghost before = a.deep_view();
        a.push(known[x].as_str());
        assert(a.deep_view() =~= before.push(kv[x as int]));
        assert(kv.take(x + 1) =~= kv.take(x as int).push(kv[x as int]));
        x += 1;
    }
    let mut b: Vec<&str> = Vec::new();
    let mut y: usize = 0;
    let ghost bv = stream_texts(sv);
    while y < stream.len()
        invariant
            y <= stream@.len(),
            sv == stream.deep_view(),
            bv == stream_texts(sv),
            b.deep_view() == bv.take(y as int),
        decreases stream@.len() - y,
    {
        let ghost before = b.deep_view();
        b.push(stream[y].1.as_str());
        assert(b.deep_view() =~= before.push(bv[y as int]));
        assert(bv.take(y + 1) =~= bv.take(y as int).push(bv[y as int]));
        y += 1;
    }
    proof {
        assert(kv.take(x as int) =~= kv);
        assert(bv.take(y as int) =~= bv);
    }
    let blocks = matching_blocks(&a, &b);
    let ghost bl = block_ints(blocks@);
    proof {
        law_blocks_ordered(kv, bv, 0, kv.len() as int, 0, bv.len() as int);
    }
    assert(bl.len() == blocks@.len());
    if blocks.len() == 0 {
        return None;
    }
    let mut out: Vec<Option<i64>> = Vec::new();
    x = 0;
    while x < known.len()
        invariant
            x <= known@.len(),
            y == stream@.len(),
            kv == known.deep_view(),
            sv == stream.deep_view(),
            bv == stream_texts(sv),
            bl == block_ints(blocks@),
            bl == blocks_of(kv, bv),
            forall|p: int|
                0 <= p < bl.len() ==> {
                    let m = #[trigger] bl[p];
                    m.2 > 0 && common_run(kv, bv, 0, kv.len() as int, 0, bv.len() as int, m.0, m.1, m.2)
                },
            out@.len() == x,
            forall|z: int| 0 <= z < x ==> opt_int(#[trigger] out@[z]) == heard(kv, sv)[z],
        decreases known@.len() - x,
    {
        let mut t: Option<i64> = None;
        let mut p: usize = blocks.len();
        assert(bl.take(p as int) =~= bl);
        while p > 0
            invariant_except_break
                t is None,
                partner(bl, x as int) == partner(bl.take(p as int), x as int),
            invariant
                x < known@.len(),
                y == stream@.len(),
                p <= blocks@.len(),
                kv == known.deep_view(),
                sv == stream.deep_view(),
                bv == stream_texts(sv),
                bl == block_ints(blocks@),
                forall|p: int|
                    0 <= p < bl.len() ==> {
                        let m = #[trigger] bl[p];
                        m.2 > 0 && common_run(kv, bv, 0, kv.len() as int, 0, bv.len() as int, m.0, m.1, m.2)
                    },
            ensures
                opt_int(t) == (match partner(bl, x as int) {
                    Some(y) => Some(sv[y].0 as int),
                    None => None,
                }),
            decreases p,
        {
            let (i, j, k) = blocks[p - 1];
            proof {
                assert(bl[p - 1] == (i as int, j as int, k as int));
                assert(bl.take(p as int).last() == bl[p - 1]);
                assert(bl.take(p as int).drop_last() =~= bl.take(p - 1));
            }
            if i <= x && x - i < k {
                t = Some(stream[j + (x - i)].0);
                break;
            }
            p -= 1;
        }
        out.push(t);
        x += 1;
    }
    assert(opt_ints(out@) =~= heard(kv, sv));
    Some(out)
}

/// The timing of line `li`: when its first word was heard, when its last one was,
/// how many were heard, and how many there are.
fn time_line(owner: &[usize], times: &[Option<i64>], li: usize) -> (r: (Option<i64>, i64, usize, usize))
    requires
        owner@.len() == times@.len(),
    ensures
        ({
            let t = line_timing(
                owner@.map_values(|x: usize| x as int),
                opt_ints(times@),
                li as int,
                owner@.len() as int,
            );
            &&& opt_int(r.0) == t.first
            &&& r.1 == t.last
            &&& r.2 == t.hits
            &&& r.3 == t.total
        }),
        0 <= r.1,
        r.2 <= r.3,
        r.0 is Some <==> r.2 > 0,
{
    let ghost ov = owner@.map_values(|x: usize| x as int);
    let ghost tv = opt_ints(times@);
    let mut first: Option<i64> = None;
    let mut last: i64 = 0;
    let mut hits: usize = 0;
    let mut total: usize = 0;
    let mut n: usize = 0;
    while n < owner.len()
        invariant
            n <= owner@.len(),
            owner@.len() == times@.len(),
            ov == owner@.map_values(|x: usize| x as int),
            tv == opt_ints(times@),
            opt_int(first) == line_timing(ov, tv, li as int, n as int).first,
            last == line_timing(ov, tv, li as int, n as int).last,
            hits == line_timing(ov, tv, li as int, n as int).hits,
            total == line_timing(ov, tv, li as int, n as int).total,
        decreases owner@.len() - n,
    {
        proof {
            lemma_timing_bounds(ov, tv, li as int, n as int);
            assert(ov[n as int] == owner@[n as int]);
            assert(tv[n as int] == opt_int(times@[n as int]));
        }
        if owner[n] == li {
            total += 1;
            if let Some(at) = times[n] {
                first = match first {
                    Some(f) if f <= at => Some(f),
                    _ => Some(at),
                };
                if last < at {
                    last = at;
                }
                hits += 1;
            }
        }
        n += 1;
    }
    proof {
        lemma_timing_bounds(ov, tv, li as int, n as int);
    }
    (first, last, hits, total)
}

/// Maps lyric `lines` onto a stream of heard words, each with its start in
/// microseconds. `None` exactly where the lines have no word, nothing was heard, or nothing
/// that was heard is a word of the lines.
pub fn align_words(lines: &[&str], stream: &[(i64, String)]) -> (r: Option<AlignResult>)
    ensures
        r is None <==> known_words(lines.deep_view(), lines@.len() as int).len() == 0 || stream@.len() == 0 || blocks_of(
            known_words(lines.deep_view(), lines@.len() as int),
            stream_texts(stream.deep_view()),
        ).len() == 0,
        r matches Some(res) ==> {
            &&& res.lines.deep_view() == aligned(lines.deep_view(), stream.deep_view())
            &&& res.overall_conf == mean_conf(lines.deep_view(), stream.deep_view())
        },
{
    let ghost lv = lines.deep_view();
    let ghost sv = stream.deep_view();
    let ghost n = lines@.len() as int;
    let (owner, known) = flatten(lines);
    if known.len() == 0 || stream.len() == 0 {
        return None;
    }
    let times = match hear(&known, stream) {
        Some(times) => times,
        None => return None,
    };
    assert(times@.len() == opt_ints(times@).len());
    let ghost ts = timings(lv, sv);
    let ghost kept = worded(lv, n);
    let ghost timing = |li: int| line_timing(known_lines(lv, n), heard(known_words(lv, n), sv), li, known@.len() as int);

    let mut at: Vec<usize> = Vec::new();
    let mut firsts: Vec<Option<i64>> = Vec::new();
    let mut lasts: Vec<i64> = Vec::new();
    let mut confs: Vec<u64> = Vec::new();
    let mut li: usize = 0;
    while li < lines.len()
        invariant
            li <= lines@.len(),
            lv == lines.deep_view(),
            n == lines@.len(),
            owner@.len() == times@.len(),
            owner@.map_values(|x: usize| x as int) == known_lines(lv, n),
            opt_ints(times@) == heard(known_words(lv, n), sv),
            timing == (|li: int| line_timing(known_lines(lv, n), heard(known_words(lv, n), sv), li, owner@.len() as int)),
            at@.map_values(|x: usize| x as int) == worded(lv, li as int),
            firsts@.len() == at@.len(),
            lasts@.len() == at@.len(),
            confs@.len() == at@.len(),
            forall|r: int|
                0 <= r < at@.len() ==> {
                    let t = timing(#[trigger] at@[r] as int);
                    &&& at@[r] < n
                    &&& opt_int(firsts@[r]) == t.first
                    &&& lasts@[r] == t.last
                    &&& 0 <= lasts@[r]
                    &&& confs@[r] == conf_of(t)
                    &&& confs@[r] <= 1000
                },
        decreases lines@.len() - li,
    {
        if norm(lines[li]).as_str().is_empty() {
            li += 1;
            continue ;
        }
        let (first, last, hits, total) = time_line(&owner, &times, li);
        let conf: u64 = if first.is_some() {
            to_thousandths(hits, total)
        } else {
            0
        };
        let ghost before = at@;
        at.push(li);
        firsts.push(first);
        lasts.push(last);
        confs.push(conf);
        proof {
            assert(at@.map_values(|x: usize| x as int) =~= before.map_values(|x: usize| x as int).push(li as int));
        }
        li += 1;
    }
    let ghost fv = ts.map_values(|t: LineTiming| t.first);
    proof {
        assert(ts.len() == at@.len());
        assert forall|r: int| 0 <= r < ts.len() implies ts[r] == timing(#[trigger] at@[r] as int) by {
            assert(kept[r] == at@.map_values(|x: usize| x as int)[r]);
        }
        assert(opt_ints(firsts@) =~= fv);
    }
    let starts = interpolate(&firsts);
    assert(ints(starts@) =~= filled_starts(ts));
    let mono = monotonic(&starts);

    let mut out: Vec<AlignLine> = Vec::new();
    let mut sum: u128 = 0;
    let mut r: usize = 0;
    assert(mono@.len() == ints(mono@).len());
    while r < at.len()
        invariant
            r <= at@.len(),
            lv == lines.deep_view(),
            n == lines@.len(),
            n == lv.len(),
            kept == worded(lv, n),
            at@.map_values(|x: usize| x as int) == kept,
            ts.len() == at@.len(),
            firsts@.len() == at@.len(),
            lasts@.len() == at@.len(),
            confs@.len() == at@.len(),
            mono@.len() == at@.len(),
            ints(mono@) == Seq::new(ts.len(), |k: int| latest(filled_starts(ts), k + 1)),
            forall|k: int| 0 <= k < mono@.len() ==> 0 <= #[trigger] mono@[k],
            forall|k: int|
                0 <= k < at@.len() ==> {
                    &&& (#[trigger] at@[k]) < n
                    &&& opt_int(firsts@[k]) == ts[k].first
                    &&& lasts@[k] == ts[k].last
                    &&& 0 <= lasts@[k]
                    &&& confs@[k] == conf_of(ts[k])
                    &&& confs@[k] <= 1000
                },
            out.deep_view() == Seq::new(r as nat, |k: int| aligned_line(lv, ts, k)),
            sum == conf_sum(ts, r as int),
            sum <= 1000 * r,
        decreases at@.len() - r,
    {
        let start: i64 = mono[r];
        assert(ints(mono@)[r as int] == start);
        assert(at@.map_values(|x: usize| x as int)[r as int] == at@[r as int]);
        let end: i64 = if firsts[r].is_some() && lasts[r] > start {
            lasts[r]
        } else {
            start
        };
        let ghost before = out.deep_view();
        out.push(
            AlignLine {
                i: at[r],
                text: trim(lines[at[r]]),
                start: to_hundredths(start),
                end: to_hundredths(end),
                conf: confs[r],
            },
        );
        proof {
            assert(out.deep_view() =~= before.push(aligned_line(lv, ts, r as int)));
            assert(Seq::new((r + 1) as nat, |k: int| aligned_line(lv, ts, k)) =~= before.push(
                aligned_line(lv, ts, r as int),
            ));
        }
        sum = sum + confs[r] as u128;
        r += 1;
    }
    let count: u128 = at.len() as u128;
    proof {
        lemma_worded(lv, n);
        assert(0 <= (2 * sum + count) / (2 * count) <= 1000) by (nonlinear_arith)
            requires
                0 < count,
                0 <= sum <= 1000 * count,
        ;
        assert(out.deep_view() =~= aligned(lv, sv));
    }
    let overall_conf: u64 = ((2 * sum + count) / (2 * count)) as u64;
    Some(AlignResult { lines: out, overall_conf })
}

/// An alignment says what it promises: every line that has a word is there once and in
/// order, the starts never go back, no line ends before it starts, and no confidence is
/// above one.
pub proof fn law_aligned(lines: Seq<Seq<char>>, stream: Seq<(i64, Seq<char>)>, p: int, q: int)
    requires
        0 <= p <= q < aligned(lines, stream).len(),
    ensures
        aligned(lines, stream).len() == worded(lines, lines.len() as int).len(),
        p < q ==> aligned(lines, stream)[p].i < aligned(lines, stream)[q].i,
        0 <= aligned(lines, stream)[p].start <= aligned(lines, stream)[q].start,
        aligned(lines, stream)[p].start <= aligned(lines, stream)[p].end,
        0 <= aligned(lines, stream)[p].conf <= 1000,
{
    let n = lines.len() as int;
    let ts = timings(lines, stream);
    let f = filled_starts(ts);
    lemma_worded_ascends(lines, n, p, q);
    lemma_latest_grows(f, p + 1, q + 1);
    lemma_latest_grows(f, 0, p + 1);
    let known = known_words(lines, n);
    lemma_timing_bounds(known_lines(lines, n), heard(known, stream), worded(lines, n)[p], known.len() as int);
    lemma_conf_bound(ts[p]);
}

proof fn lemma_worded_ascends(lines: Seq<Seq<char>>, n: int, p: int, q: int)
    requires
        0 <= p < worded(lines, n).len(),
        0 <= q < worded(lines, n).len(),
    ensures
        0 <= worded(lines, n)[p] < n,
        p < q ==> worded(lines, n)[p] < worded(lines, n)[q],
    decreases n,
{
    if n > 0 {
        let before = worded(lines, n - 1);
        if p < before.len() {
            if q < before.len() {
                lemma_worded_ascends(lines, n - 1, p, q);
            } else {
                lemma_worded_ascends(lines, n - 1, p, p);
            }
        } else if q < before.len() {
            lemma_worded_ascends(lines, n - 1, q, q);
        }
    }
}

proof fn lemma_latest_grows(times: Seq<int>, m: int, n: int)
    requires
        0 <= m <= n,
    ensures
        0 <= latest(times, m) <= latest(times, n),
    decreases n,
{
    if n > 0 {
        if m < n {
            lemma_latest_grows(times, m, n - 1);
        } else {
            lemma_latest_grows(times, 0, n - 1);
        }
    }
}

/// The time of a known word is that of the heard word that a block puts in its place, and that
/// is the same word; a word in no block was not heard.
pub proof fn law_heard(known: Seq<Seq<char>>, stream: Seq<(i64, Seq<char>)>, x: int)
    requires
        0 <= x < known.len(),
    ensures
        ({
            let blocks = blocks_of(known, stream_texts(stream));
            match heard(known, stream)[x] {
                Some(t) => exists|p: int|
                    0 <= p < blocks.len() && (#[trigger] blocks[p]).0 <= x < blocks[p].0 + blocks[p].2 && {
                        let y = blocks[p].1 + x - blocks[p].0;
                        0 <= y < stream.len() && stream[y].0 == t && stream[y].1 == known[x]
                    },
                None => forall|p: int|
                    0 <= p < blocks.len() ==> !((#[trigger] blocks[p]).0 <= x < blocks[p].0 + blocks[p].2),
            }
        }),
{
    let texts = stream_texts(stream);
    let blocks = blocks_of(known, texts);
    law_blocks_ordered(known, texts, 0, known.len() as int, 0, texts.len() as int);
    lemma_partner(blocks, x);
    if let Some(y) = partner(blocks, x) {
        let p = choose|p: int|
            0 <= p < blocks.len() && (#[trigger] blocks[p]).0 <= x < blocks[p].0 + blocks[p].2 && y == blocks[p].1 + x
                - blocks[p].0;
        let m = blocks[p];
        assert(common_run(known, texts, 0, known.len() as int, 0, texts.len() as int, m.0, m.1, m.2));
        assert(known.subrange(m.0, m.0 + m.2)[x - m.0] == texts.subrange(m.1, m.1 + m.2)[x - m.0]);
        assert(texts[y] == stream[y].1);
    }
}

proof fn lemma_partner(blocks: Seq<(int, int, int)>, x: int)
    ensures
        match partner(blocks, x) {
            Some(y) => exists|p: int|
                0 <= p < blocks.len() && (#[trigger] blocks[p]).0 <= x < blocks[p].0 + blocks[p].2 && y == blocks[p].1 + x
                    - blocks[p].0,
            None => forall|p: int| 0 <= p < blocks.len() ==> !((#[trigger] blocks[p]).0 <= x < blocks[p].0 + blocks[p].2),
        },
    decreases blocks.len(),
{
    if blocks.len() > 0 {
        let front = blocks.drop_last();
        lemma_partner(front, x);
        let e = blocks.len() - 1;
        assert(blocks[e] == blocks.last());
        if blocks.last().0 <= x < blocks.last().0 + blocks.last().2 {
        } else if let Some(y) = partner(front, x) {
            let p = choose|p: int|
                0 <= p < front.len() && (#[trigger] front[p]).0 <= x < front[p].0 + front[p].2 && y == front[p].1 + x
                    - front[p].0;
            assert(blocks[p] == front[p]);
        } else {
            assert forall|p: int| 0 <= p < blocks.len() implies !((#[trigger] blocks[p]).0 <= x < blocks[p].0 + blocks[p].2) by {
                if p < front.len() {
                    assert(front[p] == blocks[p]);
                }
            }
        }
    }
}

/// A line's timing is that of its own words: its first time is the earliest at which one of
/// them was heard, its last the latest, all of its words are counted, and of them those that
/// were heard.
pub proof fn law_line_timing(owner: Seq<int>, times: Seq<Option<int>>, li: int)
    requires
        owner.len() == times.len(),
    ensures
        ({
            let t = line_timing(owner, times, li, owner.len() as int);
            &&& t.first is None <==> forall|x: int| 0 <= x < owner.len() && #[trigger] owner[x] == li ==> times[x] is None
            &&& t.first matches Some(f) ==> exists|x: int|
                0 <= x < owner.len() && #[trigger] owner[x] == li && times[x] == Some(f)
            &&& forall|x: int|
                0 <= x < owner.len() && #[trigger] owner[x] == li ==> (times[x] matches Some(at) ==> t.first->0 <= at <= t.last)
            &&& t.last == 0 || exists|x: int| 0 <= x < owner.len() && #[trigger] owner[x] == li && times[x] == Some(t.last)
            &&& t.total == owned(owner, li)
            &&& t.hits == owner.zip_with(times).filter(|o: (int, Option<int>)| o.0 == li && o.1 is Some).len()
        }),
{
    lemma_line_timing(owner, times, li, owner.len() as int);
    let n = owner.len() as int;
    assert(owner.take(n) =~= owner);
    assert(owner.zip_with(times).take(n) =~= owner.zip_with(times));
}

proof fn lemma_line_timing(owner: Seq<int>, times: Seq<Option<int>>, li: int, n: int)
    requires
        owner.len() == times.len(),
        0 <= n <= owner.len(),
    ensures
        ({
            let t = line_timing(owner, times, li, n);
            &&& t.first is None <==> forall|x: int| 0 <= x < n && #[trigger] owner[x] == li ==> times[x] is None
            &&& t.first matches Some(f) ==> exists|x: int| 0 <= x < n && #[trigger] owner[x] == li && times[x] == Some(f)
            &&& forall|x: int|
                0 <= x < n && #[trigger] owner[x] == li ==> (times[x] matches Some(at) ==> t.first->0 <= at <= t.last)
            &&& t.last == 0 || exists|x: int| 0 <= x < n && #[trigger] owner[x] == li && times[x] == Some(t.last)
            &&& t.total == owned(owner.take(n), li)
            &&& t.hits == owner.zip_with(times).take(n).filter(|o: (int, Option<int>)| o.0 == li && o.1 is Some).len()
        }),
    decreases n,
{
    reveal(Seq::filter);
    if n > 0 {
        lemma_line_timing(owner, times, li, n - 1);
        let z = owner.zip_with(times);
        assert(owner.take(n).drop_last() =~= owner.take(n - 1));
        assert(owner.take(n).last() == owner[n - 1]);
        assert(z.take(n).drop_last() =~= z.take(n - 1));
        assert(z.take(n).last() == (owner[n - 1], times[n - 1]));
        let t = line_timing(owner, times, li, n);
        let b = line_timing(owner, times, li, n - 1);
        if b.first is Some {
            let x = choose|x: int| 0 <= x < n - 1 && #[trigger] owner[x] == li && times[x] == Some(b.first->0);
            assert(owner[x] == li);
        }
        if b.last != 0 {
            let x = choose|x: int| 0 <= x < n - 1 && #[trigger] owner[x] == li && times[x] == Some(b.last);
            assert(owner[x] == li);
        }
        if owner[n - 1] == li && times[n - 1] is Some {
            assert(t.first is Some);
        }
    }
}

/// The words that are looked for are those of all lines in normal form, line by line, and each
/// belongs to the line that it stands in.
pub proof fn law_known_words(lines: Seq<Seq<char>>)
    ensures
        known_words(lines, lines.len() as int) == lines.map_values(|l: Seq<char>| words_of(normed(l))).flatten(),
        known_lines(lines, lines.len() as int).len() == known_words(lines, lines.len() as int).len(),
        forall|x: int|
            0 <= x < known_lines(lines, lines.len() as int).len() ==> {
                let li = #[trigger] known_lines(lines, lines.len() as int)[x];
                0 <= li < lines.len() && words_of(normed(lines[li])).contains(known_words(lines, lines.len() as int)[x])
            },
        forall|x: int, y: int|
            0 <= x < y < known_lines(lines, lines.len() as int).len() ==> #[trigger] known_lines(
                lines,
                lines.len() as int,
            )[x] <= #[trigger] known_lines(lines, lines.len() as int)[y],
        forall|li: int|
            0 <= li < lines.len() ==> owned(known_lines(lines, lines.len() as int), li) == words_of(
                normed(#[trigger] lines[li]),
            ).len(),
{
    lemma_known(lines, lines.len() as int);
    assert(lines.take(lines.len() as int) =~= lines);
}

proof fn lemma_known(lines: Seq<Seq<char>>, n: int)
    requires
        0 <= n <= lines.len(),
    ensures
        known_words(lines, n) == lines.take(n).map_values(|l: Seq<char>| words_of(normed(l))).flatten(),
        known_lines(lines, n).len() == known_words(lines, n).len(),
        forall|x: int|
            0 <= x < known_lines(lines, n).len() ==> {
                let li = #[trigger] known_lines(lines, n)[x];
                0 <= li < n && words_of(normed(lines[li])).contains(known_words(lines, n)[x])
            },
        forall|x: int, y: int|
            0 <= x < y < known_lines(lines, n).len() ==> #[trigger] known_lines(lines, n)[x] <= #[trigger] known_lines(
                lines,
                n,
            )[y],
        forall|li: int|
            0 <= li < n ==> owned(known_lines(lines, n), li) == words_of(
                normed(#[trigger] lines[li]),
            ).len(),
        forall|li: int| n <= li ==> #[trigger] owned(known_lines(lines, n), li) == 0,
    decreases n,
{
    let all = lines.take(n).map_values(|l: Seq<char>| words_of(normed(l)));
    if n > 0 {
        lemma_known(lines, n - 1);
        let before = lines.take(n - 1).map_values(|l: Seq<char>| words_of(normed(l)));
        assert(all =~= before.push(all[n - 1]));
        assert(lines.take(n)[n - 1] == lines[n - 1]);
        lemma_flatten_push(before, all[n - 1]);
        let w = words_of(normed(lines[n - 1]));
        let own = Seq::new(w.len(), |k: int| n - 1);
        let k0 = known_lines(lines, n - 1);
        let k1 = known_lines(lines, n);
        let w0 = known_words(lines, n - 1);
        let w1 = known_words(lines, n);
        assert forall|x: int| 0 <= x < k1.len() implies {
            let li = #[trigger] k1[x];
            0 <= li < n && words_of(normed(lines[li])).contains(w1[x])
        } by {
            if x < k0.len() {
                assert(k1[x] == k0[x] && w1[x] == w0[x]);
            } else {
                assert(k1[x] == n - 1 && w1[x] == w[x - k0.len()]);
            }
        }
        assert forall|x: int, y: int| 0 <= x < y < k1.len() implies #[trigger] k1[x] <= #[trigger] k1[y] by {
            if y < k0.len() {
                assert(k1[x] == k0[x] && k1[y] == k0[y]);
            } else if x < k0.len() {
                assert(k1[x] == k0[x]);
            }
        }
        assert forall|li: int| #[trigger] owned(k1, li) == owned(k0, li) + (if li == n - 1 {
            w.len()
        } else {
            0
        }) by {
            assert(k1.take(k0.len() as int) =~= k0);
            lemma_filter_same(k0, k1, n - 1, li);
        }
        assert forall|li: int| 0 <= li < n implies owned(k1, li) == words_of(normed(#[trigger] lines[li])).len() by {
            if li < n - 1 {
                assert(owned(k0, li) == words_of(normed(lines[li])).len());
            } else {
                assert(owned(k0, li) == 0);
            }
        }
    } else {
        assert(all =~= seq![]);
        assert(all.flatten() =~= seq![]);
        reveal(Seq::filter);
    }
}

/// How many words belong to a line.
pub open spec fn owned(k: Seq<int>, li: int) -> nat {
    k.filter(|o: int| o == li).len()
}

proof fn lemma_filter_same(k: Seq<int>, t: Seq<int>, v: int, li: int)
    requires
        k.len() <= t.len(),
        t.take(k.len() as int) == k,
        forall|i: int| k.len() <= i < t.len() ==> #[trigger] t[i] == v,
    ensures
        owned(t, li) == owned(k, li) + (if li == v {
            t.len() - k.len()
        } else {
            0
        }),
    decreases t.len(),
{
    reveal(Seq::filter);
    if k.len() < t.len() {
        let f = t.drop_last();
        assert(f.take(k.len() as int) =~= k);
        assert(t.last() == v);
        lemma_filter_same(k, f, v, li);
    } else {
        assert(t =~= k);
    }
}

/// A line that was heard keeps its time. One that was not lies between its nearest timed
/// neighbours, as far along as it stands between them, to the microsecond; with a neighbour on
/// one side only it has that one's time, and with none it has zero.
pub proof fn law_filled(starts: Seq<Option<int>>, r: int)
    requires
        0 <= r < starts.len(),
    ensures
        starts[r] matches Some(t) ==> filled(starts, r) == t,
        starts[r] is None ==> {
            &&& forall|lo: int, hi: int|
                nearest_pair(starts, r, lo, hi) ==> {
                    let a = starts[lo]->0;
                    let b = starts[hi]->0;
                    let f = filled(starts, r);
                    let exact = (r - lo) * (b - a);
                    &&& #[trigger] nearest_pair(starts, r, lo, hi)
                    &&& (a <= f <= b || b <= f <= a)
                    &&& -(hi - lo) < (f - a) * (hi - lo) - exact < hi - lo
                }
            &&& forall|lo: int|
                0 <= lo < r && (#[trigger] starts[lo]) is Some && (forall|j: int|
                    lo < j < starts.len() ==> (#[trigger] starts[j]) is None) ==> filled(starts, r) == starts[lo]->0
            &&& forall|hi: int|
                r < hi < starts.len() && (#[trigger] starts[hi]) is Some && (forall|j: int|
                    0 <= j < hi ==> (#[trigger] starts[j]) is None) ==> filled(starts, r) == starts[hi]->0
            &&& (forall|j: int| 0 <= j < starts.len() ==> (#[trigger] starts[j]) is None) ==> filled(starts, r) == 0
        },
{
    lemma_nearest_before(starts, r);
    lemma_nearest_from(starts, r + 1);
    if starts[r] is None {
        assert forall|lo: int, hi: int| #[trigger] nearest_pair(starts, r, lo, hi) implies {
            let a = starts[lo]->0;
            let b = starts[hi]->0;
            let f = filled(starts, r);
            let exact = (r - lo) * (b - a);
            &&& (a <= f <= b || b <= f <= a)
            &&& -(hi - lo) < (f - a) * (hi - lo) - exact < hi - lo
        } by {
            let l = timed_before(starts, r)->0;
            let h = timed_from(starts, r + 1)->0;
            assert(starts[lo] is Some && starts[hi] is Some);
            if l < lo {
                assert(starts[lo] is None);
            }
            if h > hi {
                assert(starts[hi] is None);
            }
            assert(l == lo && h == hi);
            let a = starts[lo]->0;
            let b = starts[hi]->0;
            let n = r - lo;
            let d = hi - lo;
            lemma_part_way(a, b, n, d);
        }
    }
}

/// The places `lo` and `hi` are the nearest timed ones on both sides of `r`.
pub open spec fn nearest_pair(starts: Seq<Option<int>>, r: int, lo: int, hi: int) -> bool {
    &&& 0 <= lo < r < hi < starts.len()
    &&& starts[lo] is Some && starts[hi] is Some
    &&& forall|j: int| lo < j < hi ==> (#[trigger] starts[j]) is None
}

proof fn lemma_part_way(a: int, b: int, n: int, d: int)
    requires
        0 < n < d,
    ensures
        ({
            let f = part_way(a, b, n, d);
            let exact = n * (b - a);
            &&& (a <= f <= b || b <= f <= a)
            &&& -d < (f - a) * d - exact < d
        }),
{
    let w = if a <= b {
        b - a
    } else {
        a - b
    };
    let q = (n * w) / d;
    assert(0 <= q <= w && q * d <= n * w < q * d + d) by (nonlinear_arith)
        requires
            0 < n < d,
            0 <= w,
            q == (n * w) / d,
    ;
    if a <= b {
        assert(n * (b - a) == n * w);
        assert((part_way(a, b, n, d) - a) * d == q * d);
    } else {
        assert(n * (b - a) == -(n * w)) by (nonlinear_arith)
            requires
                w == a - b,
        ;
        assert((-q) * d == -(q * d)) by (nonlinear_arith);
        assert(part_way(a, b, n, d) - a == -q);
    }
}

proof fn lemma_nearest_before(starts: Seq<Option<int>>, r: int)
    requires
        0 <= r <= starts.len(),
    ensures
        match timed_before(starts, r) {
            Some(lo) => 0 <= lo < r && starts[lo] is Some && forall|j: int| lo < j < r ==> (#[trigger] starts[j]) is None,
            None => forall|j: int| 0 <= j < r ==> (#[trigger] starts[j]) is None,
        },
    decreases r,
{
    if r > 0 {
        lemma_nearest_before(starts, r - 1);
    }
}

proof fn lemma_nearest_from(starts: Seq<Option<int>>, r: int)
    requires
        0 <= r <= starts.len(),
    ensures
        match timed_from(starts, r) {
            Some(hi) => r <= hi < starts.len() && starts[hi] is Some && forall|j: int|
                r <= j < hi ==> (#[trigger] starts[j]) is None,
            None => forall|j: int| r <= j < starts.len() ==> (#[trigger] starts[j]) is None,
        },
    decreases starts.len() - r,
{
    if r < starts.len() {
        lemma_nearest_from(starts, r + 1);
    }
}

/// A time is only ever moved to the latest one before it: no earlier than any so far, and one
/// of them, or zero.
pub proof fn law_latest(times: Seq<int>, n: int)
    requires
        0 <= n <= times.len(),
    ensures
        0 <= latest(times, n),
        forall|k: int| 0 <= k < n ==> #[trigger] times[k] <= latest(times, n),
        latest(times, n) == 0 || exists|k: int| 0 <= k < n && #[trigger] times[k] == latest(times, n),
    decreases n,
{
    if n > 0 {
        law_latest(times, n - 1);
        if latest(times, n - 1) != 0 {
            let k = choose|k: int| 0 <= k < n - 1 && #[trigger] times[k] == latest(times, n - 1);
            assert(times[k] == latest(times, n - 1));
        }
    }
}

/// Rounding goes to the nearest whole number, and upwards from the middle between two.
pub proof fn law_rounded(n: int, d: int)
    requires
        d > 0,
    ensures
        -d < 2 * (n - rounded(n, d) * d) < d || 2 * (n - rounded(n, d) * d) == -d,
{
    let q = rounded(n, d);
    let a = 2 * n + d;
    let b = 2 * d;
    assert(q * b <= a < q * b + b) by (nonlinear_arith)
        requires
            b > 0,
            q == a / b,
    ;
    assert(q * b == 2 * (q * d)) by (nonlinear_arith)
        requires
            b == 2 * d,
    ;
}

/// An aligned line is a lyric line with a word, and its text is that line with only the white
/// space at its two ends taken off. Every line with a word is there.
pub proof fn law_aligned_text(lines: Seq<Seq<char>>, stream: Seq<(i64, Seq<char>)>)
    ensures
        forall|r: int|
            0 <= r < aligned(lines, stream).len() ==> {
                let a = #[trigger] aligned(lines, stream)[r];
                &&& 0 <= a.i < lines.len()
                &&& normed(lines[a.i]).len() > 0
                &&& between_blanks(lines[a.i], a.text)
                &&& a.text.len() > 0 ==> !is_space(a.text[0]) && !is_space(a.text[a.text.len() - 1])
            },
        forall|li: int|
            0 <= li < lines.len() && normed(#[trigger] lines[li]).len() > 0 ==> exists|r: int|
                0 <= r < aligned(lines, stream).len() && (#[trigger] aligned(lines, stream)[r]).i == li,
{
    let n = lines.len() as int;
    let w = worded(lines, n);
    lemma_worded_all(lines, n);
    assert forall|r: int| 0 <= r < aligned(lines, stream).len() implies {
        let a = #[trigger] aligned(lines, stream)[r];
        &&& 0 <= a.i < lines.len()
        &&& normed(lines[a.i]).len() > 0
        &&& between_blanks(lines[a.i], a.text)
        &&& a.text.len() > 0 ==> !is_space(a.text[0]) && !is_space(a.text[a.text.len() - 1])
    } by {
        let a = aligned(lines, stream)[r];
        assert(a.i == w[r]);
        law_trimmed(lines[a.i]);
        let (x, y) = choose|x: Seq<char>, y: Seq<char>|
            is_blank(x) && is_blank(y) && lines[a.i] == #[trigger] (x + trimmed(lines[a.i]) + y);
        assert(lines[a.i] == x + a.text + y);
    }
    assert forall|li: int| 0 <= li < lines.len() && normed(#[trigger] lines[li]).len() > 0 implies exists|r: int|
        0 <= r < aligned(lines, stream).len() && (#[trigger] aligned(lines, stream)[r]).i == li by {
        let r = choose|r: int| 0 <= r < w.len() && w[r] == li;
        assert(aligned(lines, stream)[r].i == li);
    }
}

/// The text stands in the line with nothing but white space before and behind it.
pub open spec fn between_blanks(line: Seq<char>, text: Seq<char>) -> bool {
    exists|a: Seq<char>, b: Seq<char>| is_blank(a) && is_blank(b) && line == #[trigger] (a + text + b)
}

proof fn lemma_worded_all(lines: Seq<Seq<char>>, n: int)
    requires
        0 <= n <= lines.len(),
    ensures
        forall|r: int|
            0 <= r < worded(lines, n).len() ==> 0 <= #[trigger] worded(lines, n)[r] < n && normed(lines[worded(lines, n)[r]]).len()
                > 0,
        forall|li: int| 0 <= li < n && normed(#[trigger] lines[li]).len() > 0 ==> worded(lines, n).contains(li),
    decreases n,
{
    if n > 0 {
        lemma_worded_all(lines, n - 1);
        let before = worded(lines, n - 1);
        let now = worded(lines, n);
        assert forall|r: int| 0 <= r < now.len() implies 0 <= #[trigger] now[r] < n && normed(lines[now[r]]).len() > 0 by {
            if r < before.len() {
                assert(now[r] == before[r]);
            }
        }
        assert forall|li: int| 0 <= li < n && normed(#[trigger] lines[li]).len() > 0 implies now.contains(li) by {
            if li < n - 1 {
                let r = choose|r: int| 0 <= r < before.len() && before[r] == li;
                assert(now[r] == li);
            } else {
                assert(now[before.len() as int] == li);
            }
        }
    }
}

/// What an alignment says of a line that was heard: its confidence is the share of its words
/// that were heard, to the nearest thousandth; it starts no earlier than its first heard word,
/// at that word unless an earlier line starts later, and ends with its last heard word unless
/// it starts later. A line that was not heard has no confidence, and ends as it starts. Times
/// are to the nearest hundredth of a second.
pub proof fn law_aligned_times(lines: Seq<Seq<char>>, stream: Seq<(i64, Seq<char>)>, r: int)
    requires
        0 <= r < aligned(lines, stream).len(),
    ensures
        ({
            let a = aligned(lines, stream)[r];
            let n = lines.len() as int;
            let owner = known_lines(lines, n);
            let times = heard(known_words(lines, n), stream);
            let own = owner.zip_with(times).filter(|o: (int, Option<int>)| o.0 == a.i);
            let hits = owner.zip_with(times).filter(|o: (int, Option<int>)| o.0 == a.i && o.1 is Some);
            &&& hits.len() > 0 ==> -(words_of(normed(lines[a.i])).len() as int) <= 2 * (1000 * hits.len() - a.conf
                * words_of(normed(lines[a.i])).len()) <= words_of(normed(lines[a.i])).len()
            &&& hits.len() == 0 ==> a.conf == 0 && a.end == a.start
            &&& forall|x: int|
                0 <= x < owner.len() && #[trigger] owner[x] == a.i ==> (times[x] matches Some(t) ==> t <= 10_000 * a.end
                    + 5_000)
            &&& hits.len() > 0 && (forall|q: int|
                0 <= q < r ==> (#[trigger] aligned(lines, stream)[q]).start < a.start) && a.start > 0 ==> (exists|x: int|
                0 <= x < owner.len() && #[trigger] owner[x] == a.i && times[x] is Some && -5_000 <= times[x]->0 - 10_000
                    * a.start < 5_000) && (forall|x: int|
                0 <= x < owner.len() && #[trigger] owner[x] == a.i ==> (times[x] matches Some(t) ==> 10_000 * a.start <= t
                    + 5_000))
            &&& hits.len() > 0 && a.end > a.start ==> exists|x: int|
                0 <= x < owner.len() && #[trigger] owner[x] == a.i && times[x] is Some && -5_000 <= times[x]->0 - 10_000
                    * a.end < 5_000
        }),
{
    let n = lines.len() as int;
    let a = aligned(lines, stream)[r];
    let known = known_words(lines, n);
    let owner = known_lines(lines, n);
    let times = heard(known, stream);
    let ts = timings(lines, stream);
    let t = ts[r];
    lemma_worded_all(lines, n);
    assert(a.i == worded(lines, n)[r]);
    law_known_words(lines);
    assert(owner.len() == times.len());
    assert(t == line_timing(owner, times, a.i, known.len() as int));
    law_line_timing(owner, times, a.i);
    lemma_timing_bounds(owner, times, a.i, known.len() as int);
    let w = words_of(normed(lines[a.i])).len();
    assert(t.total == w);
    if t.hits > 0 {
        law_rounded(t.hits * 1000, t.total);
        assert(rounded(t.hits * 1000, t.total) == a.conf);
        assert(2 * (t.hits * 1000 - a.conf * t.total) == 2 * (1000 * t.hits - a.conf * w));
    }
    let f = filled_starts(ts);
    law_latest(f, r + 1);
    let s = latest(f, r + 1);
    assert(f[r] == filled(ts.map_values(|t: LineTiming| t.first), r));
    assert(ts.map_values(|t: LineTiming| t.first)[r] == t.first);
    law_rounded(s, 10_000);
    let e = if t.first is Some && t.last > s {
        t.last
    } else {
        s
    };
    law_rounded(e, 10_000);
    assert(a.start == rounded(s, 10_000) && a.end == rounded(e, 10_000));
    if t.hits > 0 && (forall|q: int| 0 <= q < r ==> (#[trigger] aligned(lines, stream)[q]).start < a.start) && a.start > 0 {
        if s != 0 {
            let k = choose|k: int| 0 <= k < r + 1 && #[trigger] f[k] == s;
            if k < r {
                law_latest(f, k + 1);
                assert(f[k] <= latest(f, k + 1));
                lemma_latest_grows(f, k + 1, r + 1);
                assert(aligned(lines, stream)[k].start == rounded(latest(f, k + 1), 10_000));
                assert(false);
            }
            assert(f[r] == s);
        }
        let x = choose|x: int| 0 <= x < owner.len() && #[trigger] owner[x] == a.i && times[x] == Some(t.first->0);
        assert(owner[x] == a.i);
    }
    if t.hits > 0 && a.end > a.start {
        assert(e == t.last);
        assert(t.last != 0);
        let x = choose|x: int| 0 <= x < owner.len() && #[trigger] owner[x] == a.i && times[x] == Some(t.last);
        assert(owner[x] == a.i);
    }
}

/// The overall confidence is the mean of the lines' confidences, to the nearest thousandth.
pub proof fn law_mean_conf(lines: Seq<Seq<char>>, stream: Seq<(i64, Seq<char>)>)
    requires
        aligned(lines, stream).len() > 0,
    ensures
        ({
            let a = aligned(lines, stream);
            let sum = total(a.map_values(|x: AlignedV| x.conf));
            -(a.len() as int) <= 2 * (sum - mean_conf(lines, stream) * a.len()) <= a.len()
        }),
{
    let ts = timings(lines, stream);
    let a = aligned(lines, stream);
    lemma_conf_total(lines, stream, ts.len() as int);
    let cs = a.map_values(|x: AlignedV| x.conf);
    assert(cs.take(ts.len() as int) =~= cs);
    law_rounded(conf_sum(ts, ts.len() as int), ts.len() as int);
}

proof fn lemma_conf_total(lines: Seq<Seq<char>>, stream: Seq<(i64, Seq<char>)>, n: int)
    requires
        0 <= n <= timings(lines, stream).len(),
    ensures
        conf_sum(timings(lines, stream), n) == total(
            aligned(lines, stream).map_values(|x: AlignedV| x.conf).take(n),
        ),
    decreases n,
{
    if n > 0 {
        lemma_conf_total(lines, stream, n - 1);
        let cs = aligned(lines, stream).map_values(|x: AlignedV| x.conf);
        assert(cs.take(n).drop_last() =~= cs.take(n - 1));
        assert(cs.take(n).last() == conf_of(timings(lines, stream)[n - 1]));
    }
}

// ---- the transcription endpoint ------------------------------------------------------------

/// The boundary between the parts of a transcription request.
pub const WHISPER_BOUNDARY: &'static str = "amdlwhisper7c3f9b2boundary";

/// A field of a transcription request.
pub open spec fn form_field(name: Seq<char>, value: Seq<char>) -> Seq<char> {
    "--"@ + WHISPER_BOUNDARY@ + "\r\nContent-Disposition: form-data; name=\""@ + name + "\"\r\n\r\n"@ + value + "\r\n"@
}

/// The body of a transcription request: the audio, and what is asked of it. Without the
/// word granularity the answer holds no words.
pub open spec fn whisper_body(model: Seq<char>, filename: Seq<char>, audio: Seq<u8>) -> Seq<u8> {
    encode_utf8(
        "--"@ + WHISPER_BOUNDARY@ + "\r\nContent-Disposition: form-data; name=\"file\"; filename=\""@ + filename
            + "\"\r\nContent-Type: application/octet-stream\r\n\r\n"@,
    ) + audio + encode_utf8(
        "\r\n"@ + form_field("model"@, model) + form_field("response_format"@, "verbose_json"@) + form_field(
            "timestamp_granularities[]"@,
            "word"@,
        ) + form_field("temperature"@, "0"@) + "--"@ + WHISPER_BOUNDARY@ + "--\r\n"@,
    )
}

fn push_field(o: &mut String, name: &str, value: &str)
    ensures
        final(o)@ == old(o)@ + form_field(name@, value@),
{
    let ghost before = o@;
    o.append("--");
    o.append(WHISPER_BOUNDARY);
    o.append("\r\nContent-Disposition: form-data; name=\"");
    o.append(name);
    o.append("\"\r\n\r\n");
    o.append(value);
    o.append("\r\n");
    assert(o@ =~= before + form_field(name@, value@));
}

/// The body of a transcription request.
pub fn whisper_request(w: &Whisper, filename: &str, audio: &[u8]) -> (r: Vec<u8>)
    ensures
        r@ == whisper_body(w.model@, filename@, audio@),
{
    let mut head = cat3("--", WHISPER_BOUNDARY, "\r\nContent-Disposition: form-data; name=\"file\"; filename=\"");
    head.append(filename);
    head.append("\"\r\nContent-Type: application/octet-stream\r\n\r\n");
    let mut tail = "\r\n".to_string();
    push_field(&mut tail, "model", w.model.as_str());
    push_field(&mut tail, "response_format", "verbose_json");
    push_field(&mut tail, "timestamp_granularities[]", "word");
    push_field(&mut tail, "temperature", "0");
    tail.append("--");
    tail.append(WHISPER_BOUNDARY);
    tail.append("--\r\n");
    let mut out: Vec<u8> = Vec::new();
    push_text(&mut out, head.as_str());
    push_bytes(&mut out, audio);
    push_text(&mut out, tail.as_str());
    assert(out@ =~= whisper_body(w.model@, filename@, audio@));
    out
}

/// The address that transcription requests go to.
pub fn whisper_endpoint(url: &str) -> (r: String)
    ensures
        r@ == strip_end(url@, '/') + "/v1/audio/transcriptions"@,
{
    cat(without_end(url, '/').as_str(), "/v1/audio/transcriptions")
}

/// The address that lists the endpoint's models.
pub fn models_endpoint(url: &str) -> (r: String)
    ensures
        r@ == strip_end(url@, '/') + "/v1/models"@,
{
    cat(without_end(url, '/').as_str(), "/v1/models")
}

/// The `Authorization` header for a bearer token.
pub fn bearer(key: &str) -> (r: String)
    ensures
        r@ == "Bearer "@ + key@,
{
    cat("Bearer ", key)
}

/// The words among the first `n` that have a start and are not empty in normal form.
pub open spec fn word_stream(l: Seq<JsonV>, n: int) -> Seq<(int, Seq<char>)>
    decreases n,
{
    if n <= 0 {
        seq![]
    } else {
        let before = word_stream(l, n - 1);
        match (micros_field(l[n - 1], "start"@), text_field(l[n - 1], "word"@)) {
            (Some(t), Some(w)) if normed(w).len() > 0 => before.push((t, normed(w))),
            _ => before,
        }
    }
}

/// The words of a value that has a list of them.
pub open spec fn words_under(v: JsonV) -> Seq<(int, Seq<char>)> {
    match list_field(v, "words"@) {
        Some(l) => word_stream(l, l.len() as int),
        None => seq![],
    }
}

/// The words of the first `n` segments.
pub open spec fn segment_words(segs: Seq<JsonV>, n: int) -> Seq<(int, Seq<char>)>
    decreases n,
{
    if n <= 0 {
        seq![]
    } else {
        segment_words(segs, n - 1) + words_under(segs[n - 1])
    }
}

/// The words that were heard: those of the segments, else those at the top.
pub open spec fn heard_stream(v: JsonV) -> Seq<(int, Seq<char>)> {
    let inner = match list_field(v, "segments"@) {
        Some(segs) => segment_words(segs, segs.len() as int),
        None => seq![],
    };
    if inner.len() > 0 {
        inner
    } else {
        words_under(v)
    }
}

pub open spec fn stream_view(v: Seq<(i64, String)>) -> Seq<(int, Seq<char>)> {
    v.map_values(|w: (i64, String)| (w.0 as int, w.1@))
}

fn push_words(out: &mut Vec<(i64, String)>, v: &Json)
    ensures
        stream_view(final(out)@) == stream_view(old(out)@) + words_under(v.deep_view()),
{
    let ghost front = stream_view(out@);
    if let Some(l) = v.list_at("words") {
        let ghost lv = l.deep_view();
        let mut i: usize = 0;
        assert(front + word_stream(lv, 0) =~= front);
        while i < l.len()
            invariant
                i <= l@.len(),
                lv == l.deep_view(),
                stream_view(out@) == front + word_stream(lv, i as int),
            decreases l@.len() - i,
        {
            let ghost before = stream_view(out@);
            assert(lv[i as int] == l@[i as int].deep_view());
            match (l[i].micros_at("start"), l[i].text_at("word")) {
                (Some(t), Some(w)) => {
                    let n = norm(w);
                    if !n.as_str().is_empty() {
                        out.push((t, n));
                        assert(stream_view(out@) =~= before.push((t as int, normed(w@))));
                    }
                },
                _ => {},
            }
            assert(stream_view(out@) =~= front + word_stream(lv, i + 1));
            i += 1;
        }
    } else {
        assert(front + Seq::<(int, Seq<char>)>::empty() =~= front);
    }
}

/// The words that a transcription heard, with their starts in microseconds. `None`
/// where there are none.
pub fn heard_words(v: &Json) -> (r: Option<Vec<(i64, String)>>)
    ensures
        match r {
            Some(ws) => stream_view(ws@) == heard_stream(v.deep_view()) && ws@.len() > 0,
            None => heard_stream(v.deep_view()).len() == 0,
        },
{
    let mut out: Vec<(i64, String)> = Vec::new();
    let ghost none = Seq::<(int, Seq<char>)>::empty();
    assert(stream_view(out@) =~= none);
    if let Some(segs) = v.list_at("segments") {
        let ghost sv = segs.deep_view();
        let mut i: usize = 0;
        while i < segs.len()
            invariant
                i <= segs@.len(),
                sv == segs.deep_view(),
                stream_view(out@) == segment_words(sv, i as int),
            decreases segs@.len() - i,
        {
            assert(sv[i as int] == segs@[i as int].deep_view());
            push_words(&mut out, &segs[i]);
            i += 1;
        }
    }
    assert(stream_view(out@).len() == out@.len());
    if out.len() == 0 {
        push_words(&mut out, v);
        assert(stream_view(out@) =~= heard_stream(v.deep_view()));
    }
    if out.len() == 0 {
        None
    } else {
        Some(out)
    }
}

/// The words that a transcription with this body heard.
pub fn transcribed_words(body: &str) -> (r: Option<Vec<(i64, String)>>)
    ensures
        match r {
            Some(ws) => json_value(body@) matches Some(v) && stream_view(ws@) == heard_stream(v) && ws@.len() > 0,
            None => json_value(body@) matches Some(v) ==> heard_stream(v).len() == 0,
        },
{
    match parse(body) {
        Some(v) => heard_words(&v),
        None => None,
    }
}

/// The stream in the form in which lines are aligned to it.
pub open spec fn narrowed(s: Seq<(int, Seq<char>)>) -> Seq<(i64, Seq<char>)> {
    s.map_values(|w: (int, Seq<char>)| (w.0 as i64, w.1))
}

/// Aligns lyric lines to a track, given the body of its transcription. `None` where the
/// transcription failed, the lines have no word, or nothing that was heard is a word of them.
pub fn align(lines: &[&str], body: &str) -> (r: Option<AlignResult>)
    ensures
        match json_value(body@) {
            None => r is None,
            Some(v) => {
                let stream = narrowed(heard_stream(v));
                &&& r is None <==> known_words(lines.deep_view(), lines@.len() as int).len() == 0 || stream.len() == 0
                    || blocks_of(
                    known_words(lines.deep_view(), lines@.len() as int),
                    stream_texts(stream),
                ).len() == 0
                &&& r matches Some(res) ==> {
                    &&& res.lines.deep_view() == aligned(lines.deep_view(), stream)
                    &&& res.overall_conf == mean_conf(lines.deep_view(), stream)
                }
            },
        },
{
    match transcribed_words(body) {
        Some(ws) => {
            proof {
                let v = json_value(body@)->0;
                assert(ws@.len() == stream_view(ws@).len());
                assert(ws.deep_view() =~= narrowed(heard_stream(v))) by {
                    assert forall|i: int| 0 <= i < ws@.len() implies #[trigger] ws.deep_view()[i] == narrowed(
                        heard_stream(v),
                    )[i] by {
                        assert(stream_view(ws@)[i] == (ws@[i].0 as int, ws@[i].1@));
                    }
                }
            }
            align_words(lines, &ws)
        },
        None => None,
    }
}

/// A model id that looks like speech-to-text.
pub open spec fn speech_model(id: Seq<char>) -> bool {
    let l = lower_text(id);
    contains_text(l, "whisper"@) || contains_text(l, "stt"@) || contains_text(l, "transcrib"@) || contains_text(
        l,
        "speech"@,
    )
}

/// The ids among the first `n` models that look like speech-to-text.
pub open spec fn speech_ids(l: Seq<JsonV>, n: int) -> Seq<Seq<char>>
    decreases n,
{
    if n <= 0 {
        seq![]
    } else {
        match text_field(l[n - 1], "id"@) {
            Some(id) if speech_model(id) => speech_ids(l, n - 1).push(id),
            _ => speech_ids(l, n - 1),
        }
    }
}

/// The ids in a list of models that look like speech-to-text.
pub open spec fn speech_models_in(v: Option<JsonV>) -> Seq<Seq<char>> {
    match v {
        Some(x) => match list_field(x, "data"@) {
            Some(l) => speech_ids(l, l.len() as int),
            None => seq![],
        },
        None => seq![],
    }
}

/// The ids in a list of models that look like speech-to-text.
pub fn pick_models(v: &Json) -> (r: Vec<String>)
    ensures
        r.deep_view() == speech_models_in(Some(v.deep_view())),
{
    let mut out: Vec<String> = Vec::new();
    assert(out.deep_view() =~= seq![]);
    if let Some(l) = v.list_at("data") {
        let ghost lv = l.deep_view();
        let mut i: usize = 0;
        while i < l.len()
            invariant
                i <= l@.len(),
                lv == l.deep_view(),
                out.deep_view() == speech_ids(lv, i as int),
            decreases l@.len() - i,
        {
            let ghost before = out.deep_view();
            assert(lv[i as int] == l@[i as int].deep_view());
            if let Some(id) = l[i].text_at("id") {
                let low = id.to_lowercase();
                let low = low.as_str();
                if contains(low, "whisper") || contains(low, "stt") || contains(low, "transcrib") || contains(low, "speech") {
                    out.push(id.to_string());
                    assert(out.deep_view() =~= before.push(id@));
                }
            }
            i += 1;
        }
    }
    out
}

/// The ids in a model listing with this body that look like speech-to-text; none where
/// it is no such listing.
pub fn whisper_models(body: &str) -> (r: Vec<String>)
    ensures
        r.deep_view() == speech_models_in(json_value(body@)),
{
    match parse(body) {
        Some(v) => pick_models(&v),
        None => {
            let v: Vec<String> = Vec::new();
            assert(v.deep_view() =~= seq![]);
            v
        },
    }
}

/// The heard words are those of the entries that have a start and a word that is not empty in
/// normal form, in their order, each in normal form with its own start.
pub proof fn law_word_stream(l: Seq<JsonV>)
    ensures
        word_stream(l, l.len() as int) == l.map_values(|x: JsonV| match (micros_field(x, "start"@), text_field(x, "word"@)) {
                (Some(t), Some(w)) if normed(w).len() > 0 => seq![(t, normed(w))],
                _ => seq![],
            }).flatten(),
{
    lemma_word_stream(l, l.len() as int);
    assert(l.take(l.len() as int) =~= l);
}

proof fn lemma_word_stream(l: Seq<JsonV>, n: int)
    requires
        0 <= n <= l.len(),
    ensures
        word_stream(l, n) == l.take(n).map_values(|x: JsonV| match (micros_field(x, "start"@), text_field(x, "word"@)) {
                (Some(t), Some(w)) if normed(w).len() > 0 => seq![(t, normed(w))],
                _ => seq![],
            }).flatten(),
    decreases n,
{
    let all = l.take(n).map_values(|x: JsonV| match (micros_field(x, "start"@), text_field(x, "word"@)) {
                (Some(t), Some(w)) if normed(w).len() > 0 => seq![(t, normed(w))],
                _ => seq![],
            });
    if n > 0 {
        lemma_word_stream(l, n - 1);
        let before = l.take(n - 1).map_values(|x: JsonV| match (micros_field(x, "start"@), text_field(x, "word"@)) {
                (Some(t), Some(w)) if normed(w).len() > 0 => seq![(t, normed(w))],
                _ => seq![],
            });
        assert(all =~= before.push(all[n - 1]));
        assert(l.take(n)[n - 1] == l[n - 1]);
        lemma_flatten_push(before, all[n - 1]);
        assert(word_stream(l, n) =~= before.flatten() + all[n - 1]);
    } else {
        assert(all =~= seq![]);
        assert(all.flatten() =~= seq![]);
    }
}

/// What was heard is the words of all segments, in order; where those have none, the words at
/// the top, if any.
pub proof fn law_heard_stream(v: JsonV)
    ensures
        ({
            let own = match list_field(v, "words"@) {
                Some(l) => word_stream(l, l.len() as int),
                None => seq![],
            };
            let inner = match list_field(v, "segments"@) {
                Some(segs) => segs.map_values(
                    |s: JsonV|
                        match list_field(s, "words"@) {
                            Some(l) => word_stream(l, l.len() as int),
                            None => seq![],
                        },
                ).flatten(),
                None => seq![],
            };
            heard_stream(v) == (if inner.len() > 0 {
                inner
            } else {
                own
            })
        }),
{
    if let Some(segs) = list_field(v, "segments"@) {
        lemma_segment_words(segs, segs.len() as int);
        assert(segs.take(segs.len() as int) =~= segs);
    }
}

proof fn lemma_segment_words(segs: Seq<JsonV>, n: int)
    requires
        0 <= n <= segs.len(),
    ensures
        segment_words(segs, n) == segs.take(n).map_values(
            |s: JsonV|
                match list_field(s, "words"@) {
                    Some(l) => word_stream(l, l.len() as int),
                    None => seq![],
                },
        ).flatten(),
    decreases n,
{
    let own = |s: JsonV|
        match list_field(s, "words"@) {
            Some(l) => word_stream(l, l.len() as int),
            None => seq![],
        };
    let all = segs.take(n).map_values(own);
    if n > 0 {
        lemma_segment_words(segs, n - 1);
        let before = segs.take(n - 1).map_values(own);
        assert(all =~= before.push(all[n - 1]));
        assert(segs.take(n)[n - 1] == segs[n - 1]);
        lemma_flatten_push(before, all[n - 1]);
    } else {
        assert(all =~= seq![]);
        assert(all.flatten() =~= seq![]);
    }
}

/// The models that are offered are those whose id has one of the four marks of speech in it, in
/// whatever case, in their order.
pub proof fn law_speech_ids(l: Seq<JsonV>)
    ensures
        speech_ids(l, l.len() as int) == l.map_values(|x: JsonV| match text_field(x, "id"@) {
                Some(id) if contains_text(lower_text(id), "whisper"@) || contains_text(lower_text(id), "stt"@)
                    || contains_text(lower_text(id), "transcrib"@) || contains_text(lower_text(id), "speech"@) => seq![id],
                _ => seq![],
            }).flatten(),
{
    lemma_speech_ids(l, l.len() as int);
    assert(l.take(l.len() as int) =~= l);
}

proof fn lemma_speech_ids(l: Seq<JsonV>, n: int)
    requires
        0 <= n <= l.len(),
    ensures
        speech_ids(l, n) == l.take(n).map_values(|x: JsonV| match text_field(x, "id"@) {
                Some(id) if contains_text(lower_text(id), "whisper"@) || contains_text(lower_text(id), "stt"@)
                    || contains_text(lower_text(id), "transcrib"@) || contains_text(lower_text(id), "speech"@) => seq![id],
                _ => seq![],
            }).flatten(),
    decreases n,
{
    let all = l.take(n).map_values(|x: JsonV| match text_field(x, "id"@) {
                Some(id) if contains_text(lower_text(id), "whisper"@) || contains_text(lower_text(id), "stt"@)
                    || contains_text(lower_text(id), "transcrib"@) || contains_text(lower_text(id), "speech"@) => seq![id],
                _ => seq![],
            });
    if n > 0 {
        lemma_speech_ids(l, n - 1);
        let before = l.take(n - 1).map_values(|x: JsonV| match text_field(x, "id"@) {
                Some(id) if contains_text(lower_text(id), "whisper"@) || contains_text(lower_text(id), "stt"@)
                    || contains_text(lower_text(id), "transcrib"@) || contains_text(lower_text(id), "speech"@) => seq![id],
                _ => seq![],
            });
        assert(all =~= before.push(all[n - 1]));
        assert(l.take(n)[n - 1] == l[n - 1]);
        lemma_flatten_push(before, all[n - 1]);
        assert(speech_ids(l, n) =~= before.flatten() + all[n - 1]);
    } else {
        assert(all =~= seq![]);
        assert(all.flatten() =~= seq![]);
    }
}

} // verus!
