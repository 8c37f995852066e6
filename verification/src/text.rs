//! Text primitives: the character classes, searches, splits and renderings that
//! the rest of the library is written in. Text is modelled as `Seq<char>`.
use vstd::prelude::*;
use vstd::utf8::{decode_utf8, encode_utf8, valid_utf8};

verus! {

// ---- character classes -------------------------------------------------------

/// White space among the ASCII characters: space, tab, line feed, vertical tab,
/// form feed and carriage return.
pub open spec fn ascii_space(c: char) -> bool {
    c == ' ' || ('\u{9}' <= c && c <= '\u{d}')
}

pub open spec fn ascii_digit(c: char) -> bool {
    '0' <= c && c <= '9'
}

pub open spec fn ascii_upper(c: char) -> bool {
    'A' <= c && c <= 'Z'
}

pub open spec fn ascii_letter(c: char) -> bool {
    ascii_upper(c) || ('a' <= c && c <= 'z')
}

/// An ASCII capital becomes the matching small letter; every other character
/// stays as it is.
pub open spec fn ascii_lower(c: char) -> char {
    if ascii_upper(c) {
        (c as u32 + 32) as char
    } else {
        c
    }
}

pub open spec fn ascii_lowered(s: Seq<char>) -> Seq<char> {
    s.map_values(|c: char| ascii_lower(c))
}

/// White space beyond ASCII: the next line, the no-break space, the Ogham space mark, the
/// spaces of the general punctuation, the line and paragraph separators, and the
/// ideographic space.
pub open spec fn wide_space(c: char) -> bool {
    ||| c == '\u{85}'
    ||| c == '\u{a0}'
    ||| c == '\u{1680}'
    ||| '\u{2000}' <= c && c <= '\u{200a}'
    ||| c == '\u{2028}'
    ||| c == '\u{2029}'
    ||| c == '\u{202f}'
    ||| c == '\u{205f}'
    ||| c == '\u{3000}'
}

/// White space: the Unicode `White_Space` property.
pub open spec fn is_space(c: char) -> bool {
    if (c as u32) < 128 {
        ascii_space(c)
    } else {
        wide_space(c)
    }
}

/// `char::is_whitespace` holds of exactly the characters with the Unicode property
/// `White_Space`: those of `ascii_space` and of `wide_space`.
pub assume_specification[ char::is_whitespace ](c: char) -> (r: bool)
    ensures
        r == is_space(c),
;

/// What `char::is_alphanumeric` answers of a character beyond ASCII.
pub uninterp spec fn wide_alnum(c: char) -> bool;

/// Alphabetic or numeric in Unicode.
pub open spec fn is_alnum(c: char) -> bool {
    if (c as u32) < 128 {
        ascii_letter(c) || ascii_digit(c)
    } else {
        wide_alnum(c)
    }
}

/// `char::is_alphanumeric` depends on the character alone; among the ASCII characters
/// it holds of exactly the letters and the digits.
pub assume_specification[ char::is_alphanumeric ](c: char) -> (r: bool)
    ensures
        (c as u32) < 128 ==> r == (ascii_letter(c) || ascii_digit(c)),
        (c as u32) >= 128 ==> r == wide_alnum(c),
;

/// What `char::to_lowercase` yields for a character beyond ASCII, one or more characters.
pub uninterp spec fn wide_lower(c: char) -> Seq<char>;

/// A character in small letters, one or more characters.
pub open spec fn lower_char(c: char) -> Seq<char> {
    if (c as u32) < 128 {
        seq![ascii_lower(c)]
    } else {
        wide_lower(c)
    }
}

/// `char::to_lowercase` depends on the character alone; an ASCII character is lowered
/// to a single ASCII character.
#[verifier::external_body]
pub(crate) fn lowercase_char(c: char) -> (r: String)
    ensures
        (c as u32) < 128 ==> r@ == seq![ascii_lower(c)],
        (c as u32) >= 128 ==> r@ == wide_lower(c),
{
    c.to_lowercase().to_string()
}

/// A text of ASCII characters.
pub open spec fn ascii_text(s: Seq<char>) -> bool {
    forall|i: int| 0 <= i < s.len() ==> (#[trigger] s[i] as u32) < 128
}

/// What `str::to_lowercase` yields for a text with a character beyond ASCII. It is not
/// what `wide_lower` yields for each character: a final capital sigma is lowered by its
/// position.
pub uninterp spec fn wide_lower_text(s: Seq<char>) -> Seq<char>;

/// A text in small letters.
pub open spec fn lower_text(s: Seq<char>) -> Seq<char> {
    if ascii_text(s) {
        ascii_lowered(s)
    } else {
        wide_lower_text(s)
    }
}

/// `str::to_lowercase` depends on the text alone; a text of ASCII characters is lowered
/// character by character.
pub assume_specification[ str::to_lowercase ](s: &str) -> (r: String)
    ensures
        ascii_text(s@) ==> r@ == ascii_lowered(s@),
        !ascii_text(s@) ==> r@ == wide_lower_text(s@),
;

/// `String::push` appends one character.
pub assume_specification[ String::push ](s: &mut String, c: char)
    ensures
        final(s)@ == old(s)@.push(c),
;

/// `std::str::from_utf8` accepts exactly the valid UTF-8 and decodes it.
#[verifier::external_body]
pub(crate) fn text_from_utf8(bytes: &[u8]) -> (r: Option<String>)
    ensures
        r is Some <==> valid_utf8(bytes@),
        r matches Some(s) ==> s@ == decode_utf8(bytes@),
{
    std::str::from_utf8(bytes).ok().map(|s| s.to_string())
}

// ---- characters of a text ----------------------------------------------------

/// The characters of `s`, in order.
pub fn chars_of(s: &str) -> (r: Vec<char>)
    ensures
        r@ == s@,
{
    let mut out: Vec<char> = Vec::new();
    for c in it: s.chars()
        invariant
            out@ == s@.take(it.index() as int),
            it.seq() == s@,
    {
        out.push(c);
    }
    assert(s@.take(s@.len() as int) =~= s@);
    out
}

/// The text made of `c[lo..hi]`.
pub fn text_of(c: &[char], lo: usize, hi: usize) -> (r: String)
    requires
        lo <= hi <= c@.len(),
    ensures
        r@ == c@.subrange(lo as int, hi as int),
{
    let mut out: String = String::new();
    let mut i: usize = lo;
    while i < hi
        invariant
            lo <= i <= hi <= c@.len(),
            out@ == c@.subrange(lo as int, i as int),
        decreases hi - i,
    {
        out.push(c[i]);
        i += 1;
    }
    out
}

/// Whether two texts are the same.
pub fn same(a: &str, b: &str) -> (r: bool)
    ensures
        r == (a@ == b@),
{
    let x = chars_of(a);
    let y = chars_of(b);
    same_chars(&x, &y)
}

pub(crate) fn same_chars(x: &[char], y: &[char]) -> (r: bool)
    ensures
        r == (x@ == y@),
{
    if x.len() != y.len() {
        return false;
    }
    let mut i: usize = 0;
    while i < x.len()
        invariant
            i <= x@.len(),
            x@.len() == y@.len(),
            forall|j: int| 0 <= j < i ==> x@[j] == y@[j],
        decreases x@.len() - i,
    {
        if x[i] != y[i] {
            return false;
        }
        i += 1;
    }
    assert(x@ =~= y@);
    true
}

/// Whether `list` holds `s`.
pub fn holds(list: &[String], s: &str) -> (r: bool)
    ensures
        r == list.deep_view().contains(s@),
{
    let mut i: usize = 0;
    while i < list.len()
        invariant
            i <= list@.len(),
            forall|j: int| 0 <= j < i ==> list@[j]@ != s@,
        decreases list@.len() - i,
    {
        if same(list[i].as_str(), s) {
            assert(list.deep_view()[i as int] == s@);
            return true;
        }
        i += 1;
    }
    false
}

// ---- searching -----------------------------------------------------------------

/// `pat` stands in `s` at position `i`.
pub open spec fn matches_at(s: Seq<char>, pat: Seq<char>, i: int) -> bool {
    0 <= i && i + pat.len() <= s.len() && s.subrange(i, i + pat.len()) == pat
}

/// `pat` occurs somewhere in `s`.
pub open spec fn contains_text(s: Seq<char>, pat: Seq<char>) -> bool {
    exists|i: int| matches_at(s, pat, i)
}

/// The first position at or after `i` where `pat` stands in `s`.
pub open spec fn find_from(s: Seq<char>, pat: Seq<char>, i: int) -> Option<int>
    decreases s.len() + 1 - i,
{
    if i < 0 || i + pat.len() > s.len() {
        None
    } else if matches_at(s, pat, i) {
        Some(i)
    } else {
        find_from(s, pat, i + 1)
    }
}

/// `find_from` is the first match, and `None` only where there is none.
pub proof fn lemma_find_from(s: Seq<char>, pat: Seq<char>, i: int)
    requires
        0 <= i,
    ensures
        match find_from(s, pat, i) {
            Some(k) => i <= k && matches_at(s, pat, k) && forall|j: int| i <= j < k ==> !matches_at(s, pat, j),
            None => forall|j: int| i <= j ==> !matches_at(s, pat, j),
        },
    decreases s.len() + 1 - i,
{
    if i + pat.len() <= s.len() && !matches_at(s, pat, i) {
        lemma_find_from(s, pat, i + 1);
    }
}

pub open spec fn starts_with(s: Seq<char>, pat: Seq<char>) -> bool {
    matches_at(s, pat, 0)
}

pub open spec fn ends_with(s: Seq<char>, pat: Seq<char>) -> bool {
    matches_at(s, pat, s.len() - pat.len())
}

pub(crate) fn chars_match_at(c: &[char], pat: &[char], i: usize) -> (r: bool)
    ensures
        r == matches_at(c@, pat@, i as int),
{
    if pat.len() > c.len() || i > c.len() - pat.len() {
        return false;
    }
    let mut k: usize = 0;
    while k < pat.len()
        invariant
            k <= pat@.len(),
            i + pat@.len() <= c@.len() <= usize::MAX,
            forall|j: int| 0 <= j < k ==> c@[i + j] == pat@[j],
        decreases pat@.len() - k,
    {
        if c[i + k] != pat[k] {
            assert(c@.subrange(i as int, i + pat@.len())[k as int] != pat@[k as int]);
            return false;
        }
        k += 1;
    }
    assert(c@.subrange(i as int, i + pat@.len()) =~= pat@);
    true
}

/// The first position at or after `from` where `pat` stands in `c`.
pub(crate) fn find_chars(c: &[char], pat: &[char], from: usize) -> (r: Option<usize>)
    ensures
        match r {
            Some(k) => find_from(c@, pat@, from as int) == Some(k as int),
            None => find_from(c@, pat@, from as int) is None,
        },
{
    let mut i: usize = from;
    while i <= c.len() && pat.len() <= c.len() - i
        invariant
            from <= i,
            find_from(c@, pat@, from as int) == find_from(c@, pat@, i as int),
        decreases c@.len() + 1 - i,
    {
        if chars_match_at(c, pat, i) {
            return Some(i);
        }
        if i == c.len() {
            assert(find_from(c@, pat@, i + 1) is None);
            return None;
        }
        i += 1;
    }
    None
}

/// Whether `pat` occurs in `s`.
pub fn contains(s: &str, pat: &str) -> (r: bool)
    ensures
        r == contains_text(s@, pat@),
{
    let c = chars_of(s);
    let p = chars_of(pat);
    let at = find_chars(&c, &p, 0);
    proof {
        lemma_find_from(s@, pat@, 0);
    }
    at.is_some()
}

/// Whether `s` begins with `pat`.
pub fn begins(s: &str, pat: &str) -> (r: bool)
    ensures
        r == starts_with(s@, pat@),
{
    chars_match_at(&chars_of(s), &chars_of(pat), 0)
}

/// Whether `s` ends with `pat`.
pub fn ends(s: &str, pat: &str) -> (r: bool)
    ensures
        r == ends_with(s@, pat@),
{
    let c = chars_of(s);
    let p = chars_of(pat);
    p.len() <= c.len() && chars_match_at(&c, &p, c.len() - p.len())
}

/// The first position at or after `i` of a character of `seps`, else the length.
pub open spec fn first_of(s: Seq<char>, seps: Seq<char>, i: int) -> int
    decreases s.len() - i,
{
    if i < 0 || i >= s.len() || seps.contains(s[i]) {
        i
    } else {
        first_of(s, seps, i + 1)
    }
}

pub proof fn lemma_first_of(s: Seq<char>, seps: Seq<char>, i: int)
    requires
        0 <= i <= s.len(),
    ensures
        i <= first_of(s, seps, i) <= s.len(),
        forall|j: int| i <= j < first_of(s, seps, i) ==> !seps.contains(#[trigger] s[j]),
        first_of(s, seps, i) < s.len() ==> seps.contains(s[first_of(s, seps, i)]),
    decreases s.len() - i,
{
    if i < s.len() && !seps.contains(s[i]) {
        lemma_first_of(s, seps, i + 1);
    }
}

pub(crate) fn char_in(seps: &[char], c: char) -> (r: bool)
    ensures
        r == seps@.contains(c),
{
    let mut i: usize = 0;
    while i < seps.len()
        invariant
            i <= seps@.len(),
            forall|j: int| 0 <= j < i ==> seps@[j] != c,
        decreases seps@.len() - i,
    {
        if seps[i] == c {
            return true;
        }
        i += 1;
    }
    false
}

pub(crate) fn first_of_chars(c: &[char], seps: &[char], from: usize) -> (r: usize)
    requires
        from <= c@.len(),
    ensures
        r == first_of(c@, seps@, from as int),
        from <= r <= c@.len(),
{
    let mut i: usize = from;
    while i < c.len() && !char_in(seps, c[i])
        invariant
            from <= i <= c@.len(),
            first_of(c@, seps@, from as int) == first_of(c@, seps@, i as int),
        decreases c@.len() - i,
    {
        i += 1;
    }
    i
}

// ---- splitting -----------------------------------------------------------------

/// The pieces of `s[i..]` between the characters of `seps`: one more than there
/// are separators.
pub open spec fn split_from(s: Seq<char>, seps: Seq<char>, i: int) -> Seq<Seq<char>>
    decreases s.len() - i,
    when 0 <= i <= s.len()
{
    proof {
        lemma_first_of(s, seps, i);
    }
    let j = first_of(s, seps, i);
    if j < s.len() {
        seq![s.subrange(i, j)] + split_from(s, seps, j + 1)
    } else {
        seq![s.subrange(i, s.len() as int)]
    }
}

/// `s` split at every character of `seps`.
pub open spec fn split_on(s: Seq<char>, seps: Seq<char>) -> Seq<Seq<char>> {
    split_from(s, seps, 0)
}

/// Reading on from a place is reading what stands there from the front.
pub proof fn lemma_first_of_shift(s: Seq<char>, seps: Seq<char>, i: int, k: int)
    requires
        0 <= i <= k <= s.len(),
    ensures
        first_of(s, seps, k) == i + first_of(s.skip(i), seps, k - i),
    decreases s.len() - k,
{
    if k < s.len() {
        assert(s.skip(i)[k - i] == s[k]);
        lemma_first_of_shift(s, seps, i, k + 1);
    }
}

proof fn lemma_split_shift(s: Seq<char>, seps: Seq<char>, i: int, k: int)
    requires
        0 <= i <= k <= s.len(),
    ensures
        split_from(s, seps, k) == split_from(s.skip(i), seps, k - i),
    decreases s.len() - k,
{
    let t = s.skip(i);
    lemma_first_of(s, seps, k);
    lemma_first_of(t, seps, k - i);
    lemma_first_of_shift(s, seps, i, k);
    let j = first_of(s, seps, k);
    if j < s.len() {
        lemma_split_shift(s, seps, i, j + 1);
        assert(t.subrange(k - i, j - i) =~= s.subrange(k, j));
    } else {
        assert(t.subrange(k - i, t.len() as int) =~= s.subrange(k, s.len() as int));
    }
}

/// A text without separators, a separator and a rest: the text comes before the pieces of the
/// rest.
pub proof fn lemma_split_cons(a: Seq<char>, c: char, rest: Seq<char>, seps: Seq<char>)
    requires
        forall|x: int| 0 <= x < a.len() ==> !seps.contains(#[trigger] a[x]),
        seps.contains(c),
    ensures
        split_on(a + seq![c] + rest, seps) == seq![a] + split_on(rest, seps),
{
    let s = a + seq![c] + rest;
    let n = a.len() as int;
    lemma_first_of(s, seps, 0);
    let j = first_of(s, seps, 0);
    assert(s[n] == c);
    assert(j == n) by {
        if j < n {
            assert(s[j] == a[j]);
        }
    }
    assert(s.subrange(0, n) =~= a);
    lemma_split_shift(s, seps, n + 1, n + 1);
    assert(s.skip(n + 1) =~= rest);
}

/// A text without separators is its only piece.
pub proof fn lemma_split_one(a: Seq<char>, seps: Seq<char>)
    requires
        forall|x: int| 0 <= x < a.len() ==> !seps.contains(#[trigger] a[x]),
    ensures
        split_on(a, seps) == seq![a],
{
    lemma_first_of(a, seps, 0);
    assert(a.subrange(0, a.len() as int) =~= a);
}

/// `s` split at every character of `seps`.
pub fn split(s: &str, seps: &[char]) -> (r: Vec<String>)
    ensures
        r.deep_view() == split_on(s@, seps@),
        r@.len() > 0,
{
    let c = chars_of(s);
    let mut out: Vec<String> = Vec::new();
    let mut i: usize = 0;
    loop
        invariant_except_break
            i <= c@.len(),
            c@ == s@,
            out.deep_view() + split_from(s@, seps@, i as int) == split_on(s@, seps@),
        ensures
            out.deep_view() == split_on(s@, seps@),
            out@.len() > 0,
        decreases c@.len() + 1 - i,
    {
        let ghost before = out.deep_view();
        let j = first_of_chars(&c, seps, i);
        out.push(text_of(&c, i, j));
        assert(out.deep_view() =~= before.push(s@.subrange(i as int, j as int)));
        if j < c.len() {
            assert(out.deep_view() + split_from(s@, seps@, j + 1) =~= before + split_from(s@, seps@, i as int));
            i = j + 1;
        } else {
            assert(out.deep_view() =~= before + split_from(s@, seps@, i as int));
            break;
        }
    }
    out
}

/// A line without the carriage return that ends it, if one does.
pub open spec fn drop_cr(s: Seq<char>) -> Seq<char> {
    if s.len() > 0 && s.last() == '\r' {
        s.drop_last()
    } else {
        s
    }
}

/// The lines of `s[i..]`: ended by a line feed, which may follow a carriage
/// return; a last line needs no end.
pub open spec fn lines_from(s: Seq<char>, i: int) -> Seq<Seq<char>>
    decreases s.len() - i,
    when 0 <= i <= s.len()
{
    proof {
        lemma_first_of(s, seq!['\n'], i);
    }
    let j = first_of(s, seq!['\n'], i);
    if i == s.len() {
        seq![]
    } else if j < s.len() {
        seq![drop_cr(s.subrange(i, j))] + lines_from(s, j + 1)
    } else {
        seq![s.subrange(i, s.len() as int)]
    }
}

/// The lines of `s`, as `str::lines` counts them.
pub open spec fn lines_of(s: Seq<char>) -> Seq<Seq<char>> {
    lines_from(s, 0)
}

/// The lines of `s`.
pub fn lines(s: &str) -> (r: Vec<String>)
    ensures
        r.deep_view() == lines_of(s@),
{
    let c = chars_of(s);
    let nl: [char; 1] = ['\n'];
    let mut out: Vec<String> = Vec::new();
    let mut i: usize = 0;
    assert(nl@ =~= seq!['\n']);
    while i < c.len()
        invariant
            i <= c@.len(),
            c@ == s@,
            nl@ == seq!['\n'],
            out.deep_view() + lines_from(s@, i as int) == lines_of(s@),
        decreases c@.len() - i,
    {
        let ghost before = out.deep_view();
        let j = first_of_chars(&c, &nl, i);
        let line_end: usize = if j < c.len() && j > i && c[j - 1] == '\r' {
            j - 1
        } else {
            j
        };
        out.push(text_of(&c, i, line_end));
        if j < c.len() {
            assert(drop_cr(s@.subrange(i as int, j as int)) =~= s@.subrange(i as int, line_end as int));
            assert(out.deep_view() =~= before.push(drop_cr(s@.subrange(i as int, j as int))));
            assert(out.deep_view() + lines_from(s@, j + 1) =~= before + lines_from(s@, i as int));
            i = j + 1;
        } else {
            assert(out.deep_view() =~= before.push(s@.subrange(i as int, j as int)));
            assert(out.deep_view() + lines_from(s@, j as int) =~= before + lines_from(s@, i as int));
            i = j;
        }
    }
    assert(out.deep_view() + lines_from(s@, i as int) =~= out.deep_view());
    out
}

/// The lines with a line feed behind each.
pub open spec fn unlines(ls: Seq<Seq<char>>) -> Seq<char>
    decreases ls.len(),
{
    if ls.len() == 0 {
        seq![]
    } else {
        unlines(ls.drop_last()) + ls.last() + seq!['\n']
    }
}

/// Appends the lines, with a line feed behind each.
pub fn append_lines(out: &mut String, ls: &[String])
    ensures
        final(out)@ == old(out)@ + unlines(ls.deep_view()),
{
    let ghost before = out@;
    let ghost all = ls.deep_view();
    let mut i: usize = 0;
    assert(unlines(all.take(0)) =~= seq![]);
    assert(out@ =~= before + unlines(all.take(0)));
    while i < ls.len()
        invariant
            i <= ls@.len(),
            all == ls.deep_view(),
            out@ == before + unlines(all.take(i as int)),
        decreases ls@.len() - i,
    {
        let ghost mid = out@;
        out.append(ls[i].as_str());
        out.push('\n');
        proof {
            assert(all.take(i + 1).drop_last() =~= all.take(i as int));
            assert(out@ =~= before + unlines(all.take(i + 1)));
        }
        i += 1;
    }
    assert(all.take(i as int) =~= all);
}

/// A text without a line feed.
pub open spec fn one_line(s: Seq<char>) -> bool {
    forall|i: int| 0 <= i < s.len() ==> #[trigger] s[i] != '\n'
}

/// A line that reads back as it is: its end is where it seems to be.
pub open spec fn clean_line(l: Seq<char>) -> bool {
    one_line(l) && (l.len() > 0 ==> l.last() != '\r')
}

/// The lines of two lists, one behind the other.
pub proof fn lemma_unlines_add(a: Seq<Seq<char>>, b: Seq<Seq<char>>)
    ensures
        unlines(a + b) == unlines(a) + unlines(b),
    decreases b.len(),
{
    if b.len() == 0 {
        assert(a + b =~= a);
        assert(unlines(a) + unlines(b) =~= unlines(a));
    } else {
        assert((a + b).drop_last() =~= a + b.drop_last());
        lemma_unlines_add(a, b.drop_last());
        assert(unlines(a + b) =~= unlines(a) + unlines(b));
    }
}

/// Lines that are put behind each other are read back.
pub proof fn lemma_lines_of_unlines(ls: Seq<Seq<char>>)
    requires
        forall|i: int| 0 <= i < ls.len() ==> clean_line(#[trigger] ls[i]),
    ensures
        lines_of(unlines(ls)) == ls,
{
    lemma_lines_from_unlines(ls, 0);
    assert(unlines(ls.take(0)) =~= seq![]);
    assert(ls.skip(0) =~= ls);
}

proof fn lemma_lines_from_unlines(ls: Seq<Seq<char>>, k: int)
    requires
        0 <= k <= ls.len(),
        forall|i: int| 0 <= i < ls.len() ==> clean_line(#[trigger] ls[i]),
    ensures
        unlines(ls.take(k)).len() <= unlines(ls).len(),
        lines_from(unlines(ls), unlines(ls.take(k)).len() as int) == ls.skip(k),
    decreases ls.len() - k,
{
    let t = unlines(ls);
    let i = unlines(ls.take(k)).len() as int;
    assert(ls =~= ls.take(k) + ls.skip(k));
    lemma_unlines_add(ls.take(k), ls.skip(k));
    if k == ls.len() {
        assert(ls.take(k) =~= ls);
        assert(ls.skip(k) =~= seq![]);
    } else {
        lemma_lines_from_unlines(ls, k + 1);
        let l = ls[k];
        assert(ls.take(k + 1).drop_last() =~= ls.take(k));
        assert(ls.take(k + 1).last() == l);
        assert(ls =~= ls.take(k + 1) + ls.skip(k + 1));
        lemma_unlines_add(ls.take(k + 1), ls.skip(k + 1));
        let head = unlines(ls.take(k)) + l + seq!['\n'];
        assert(t == head + unlines(ls.skip(k + 1)));
        let j = i + l.len();
        assert forall|x: int| i <= x < j implies #[trigger] t[x] != '\n' by {
            assert(t[x] == head[x]);
            assert(head[x] == l[x - i]);
        }
        assert(t[j] == head[j]);
        lemma_first_of(t, seq!['\n'], i);
        let f = first_of(t, seq!['\n'], i);
        assert(seq!['\n'].contains('\n')) by {
            assert(seq!['\n'][0] == '\n');
        }
        assert(f == j) by {
            if f < j {
                assert(t[f] != '\n');
            }
            if j < f {
                assert(!seq!['\n'].contains(t[j]));
            }
        }
        assert(t.subrange(i, j) =~= l);
        assert(drop_cr(l) == l);
        assert(lines_from(t, i) =~= seq![l] + ls.skip(k + 1));
        assert(seq![l] + ls.skip(k + 1) =~= ls.skip(k));
    }
}

/// The first position at or after `i` that is no white space, else the length.
pub open spec fn skip_space(s: Seq<char>, i: int) -> int
    decreases s.len() - i,
{
    if i < 0 || i >= s.len() || !is_space(s[i]) {
        i
    } else {
        skip_space(s, i + 1)
    }
}

/// The first position at or after `i` that is white space, else the length.
pub open spec fn skip_word(s: Seq<char>, i: int) -> int
    decreases s.len() - i,
{
    if i < 0 || i >= s.len() || is_space(s[i]) {
        i
    } else {
        skip_word(s, i + 1)
    }
}

pub proof fn lemma_skip(s: Seq<char>, i: int)
    requires
        0 <= i <= s.len(),
    ensures
        i <= skip_space(s, i) <= s.len(),
        i <= skip_word(s, i) <= s.len(),
        forall|j: int| i <= j < skip_space(s, i) ==> is_space(#[trigger] s[j]),
        skip_space(s, i) < s.len() ==> !is_space(s[skip_space(s, i)]),
        forall|j: int| i <= j < skip_word(s, i) ==> !is_space(#[trigger] s[j]),
        skip_word(s, i) < s.len() ==> is_space(s[skip_word(s, i)]),
    decreases s.len() - i,
{
    if i < s.len() {
        lemma_skip(s, i + 1);
    }
}

/// The words of `s[i..]`: its longest runs without white space.
pub open spec fn words_from(s: Seq<char>, i: int) -> Seq<Seq<char>>
    decreases s.len() - i,
    when 0 <= i <= s.len()
{
    proof {
        lemma_skip(s, i);
        lemma_skip(s, skip_space(s, i));
    }
    let j = skip_space(s, i);
    let k = skip_word(s, j);
    if j >= s.len() {
        seq![]
    } else {
        seq![s.subrange(j, k)] + words_from(s, k)
    }
}

/// The words of `s`, as `str::split_whitespace` counts them.
pub open spec fn words_of(s: Seq<char>) -> Seq<Seq<char>> {
    words_from(s, 0)
}

pub(crate) fn skip_space_chars(c: &[char], from: usize) -> (r: usize)
    requires
        from <= c@.len(),
    ensures
        r == skip_space(c@, from as int),
        from <= r <= c@.len(),
{
    let mut i: usize = from;
    while i < c.len() && c[i].is_whitespace()
        invariant
            from <= i <= c@.len(),
            skip_space(c@, from as int) == skip_space(c@, i as int),
        decreases c@.len() - i,
    {
        i += 1;
    }
    i
}

pub(crate) fn skip_word_chars(c: &[char], from: usize) -> (r: usize)
    requires
        from <= c@.len(),
    ensures
        r == skip_word(c@, from as int),
        from <= r <= c@.len(),
{
    let mut i: usize = from;
    while i < c.len() && !c[i].is_whitespace()
        invariant
            from <= i <= c@.len(),
            skip_word(c@, from as int) == skip_word(c@, i as int),
        decreases c@.len() - i,
    {
        i += 1;
    }
    i
}

/// The words of `s`.
pub fn words(s: &str) -> (r: Vec<String>)
    ensures
        r.deep_view() == words_of(s@),
{
    let c = chars_of(s);
    let mut out: Vec<String> = Vec::new();
    let mut i: usize = skip_space_chars(&c, 0);
    proof {
        lemma_skip(s@, 0);
        assert(out.deep_view() + words_from(s@, i as int) =~= words_of(s@)) by {
            lemma_words_after_space(s@, 0);
        }
    }
    while i < c.len()
        invariant
            i <= c@.len(),
            c@ == s@,
            i < c@.len() ==> !is_space(c@[i as int]),
            out.deep_view() + words_from(s@, i as int) == words_of(s@),
        decreases c@.len() - i,
    {
        let ghost before = out.deep_view();
        let k = skip_word_chars(&c, i);
        out.push(text_of(&c, i, k));
        let next = skip_space_chars(&c, k);
        proof {
            lemma_skip(s@, k as int);
            lemma_skip(s@, i as int);
            lemma_words_after_space(s@, k as int);
            assert(out.deep_view() =~= before.push(s@.subrange(i as int, k as int)));
            assert(skip_space(s@, i as int) == i);
            assert(out.deep_view() + words_from(s@, next as int) =~= before + words_from(s@, i as int));
            assert(k > i);
        }
        i = next;
    }
    proof {
        lemma_skip(s@, i as int);
        assert(out.deep_view() + words_from(s@, i as int) =~= out.deep_view());
    }
    out
}

/// Leading white space holds no words.
proof fn lemma_words_after_space(s: Seq<char>, i: int)
    requires
        0 <= i <= s.len(),
    ensures
        words_from(s, i) == words_from(s, skip_space(s, i)),
{
    lemma_skip(s, i);
    let j = skip_space(s, i);
    assert(skip_space(s, j) == j);
}

proof fn lemma_skip_shift(s: Seq<char>, i: int, k: int)
    requires
        0 <= i <= k <= s.len(),
    ensures
        skip_space(s, k) == i + skip_space(s.skip(i), k - i),
        skip_word(s, k) == i + skip_word(s.skip(i), k - i),
    decreases s.len() - k,
{
    if k < s.len() {
        assert(s.skip(i)[k - i] == s[k]);
        lemma_skip_shift(s, i, k + 1);
    }
}

proof fn lemma_words_shift(s: Seq<char>, i: int, k: int)
    requires
        0 <= i <= k <= s.len(),
    ensures
        words_from(s, k) == words_from(s.skip(i), k - i),
    decreases s.len() - k,
{
    let t = s.skip(i);
    lemma_skip(s, k);
    let j = skip_space(s, k);
    lemma_skip_shift(s, i, k);
    lemma_skip(t, k - i);
    if j < s.len() {
        lemma_skip(s, j);
        let e = skip_word(s, j);
        lemma_skip_shift(s, i, j);
        lemma_skip(t, j - i);
        assert(e > j);
        lemma_words_shift(s, i, e);
        assert(t.subrange(j - i, e - i) =~= s.subrange(j, e));
    }
}

/// A text without white space.
pub open spec fn solid(s: Seq<char>) -> bool {
    forall|i: int| 0 <= i < s.len() ==> !is_space(#[trigger] s[i])
}

/// A word, white space and a rest: the word comes before those of the rest.
pub proof fn lemma_words_cons(a: Seq<char>, c: char, rest: Seq<char>)
    requires
        a.len() > 0,
        solid(a),
        is_space(c),
    ensures
        words_of(a + seq![c] + rest) == seq![a] + words_of(rest),
{
    let s = a + seq![c] + rest;
    let n = a.len() as int;
    assert(s[0] == a[0]);
    assert(skip_space(s, 0) == 0);
    lemma_skip(s, 0);
    let e = skip_word(s, 0);
    assert(s[n] == c);
    assert(e == n) by {
        if e < n {
            assert(s[e] == a[e]);
        }
        if e > n {
            assert(!is_space(s[n]));
        }
    }
    assert(s.subrange(0, n) =~= a);
    assert(skip_space(s, n) == skip_space(s, n + 1));
    lemma_words_after_space(s, n);
    lemma_words_after_space(s, n + 1);
    assert(words_from(s, n) == words_from(s, n + 1));
    lemma_words_shift(s, n + 1, n + 1);
    assert(s.skip(n + 1) =~= rest);
}

/// A single word.
pub proof fn lemma_one_word(a: Seq<char>)
    requires
        a.len() > 0,
        solid(a),
    ensures
        words_of(a) == seq![a],
{
    lemma_skip(a, 0);
    assert(skip_space(a, 0) == 0);
    let e = skip_word(a, 0);
    assert(e == a.len());
    assert(a.subrange(0, e) =~= a);
    assert(words_from(a, e) =~= seq![]);
}

/// Words are not empty and hold no white space.
pub proof fn lemma_words_solid(s: Seq<char>, i: int)
    requires
        0 <= i <= s.len(),
    ensures
        forall|k: int| 0 <= k < words_from(s, i).len() ==> (#[trigger] words_from(s, i)[k]).len() > 0 && solid(words_from(s, i)[k]),
    decreases s.len() - i,
{
    lemma_skip(s, i);
    let j = skip_space(s, i);
    if j < s.len() {
        lemma_skip(s, j);
        let e = skip_word(s, j);
        assert(e > j);
        lemma_words_solid(s, e);
        let w = words_from(s, i);
        assert forall|k: int| 0 <= k < w.len() implies (#[trigger] w[k]).len() > 0 && solid(w[k]) by {
            if k == 0 {
                assert(w[0] == s.subrange(j, e));
                assert forall|x: int| 0 <= x < w[0].len() implies !is_space(#[trigger] w[0][x]) by {
                    assert(w[0][x] == s[j + x]);
                }
            } else {
                assert(w[k] == words_from(s, e)[k - 1]);
            }
        }
    }
}


// ---- trimming and letter case ----------------------------------------------------

/// `s` without leading white space.
pub open spec fn trim_front(s: Seq<char>) -> Seq<char> {
    s.subrange(skip_space(s, 0), s.len() as int)
}

/// The length of `s[..n]` without trailing white space.
pub open spec fn trimmed_len(s: Seq<char>, n: int) -> int
    decreases n,
{
    if n <= 0 || n > s.len() || !is_space(s[n - 1]) {
        n
    } else {
        trimmed_len(s, n - 1)
    }
}

/// `s` without trailing white space.
pub open spec fn trim_back(s: Seq<char>) -> Seq<char> {
    s.subrange(0, trimmed_len(s, s.len() as int))
}

/// `s` without leading and trailing white space.
pub open spec fn trimmed(s: Seq<char>) -> Seq<char> {
    trim_back(trim_front(s))
}

/// Nothing but white space.
pub open spec fn is_blank(s: Seq<char>) -> bool {
    forall|i: int| 0 <= i < s.len() ==> is_space(#[trigger] s[i])
}

pub proof fn lemma_trimmed_len(s: Seq<char>, n: int)
    requires
        0 <= n <= s.len(),
    ensures
        0 <= trimmed_len(s, n) <= n,
        forall|j: int| trimmed_len(s, n) <= j < n ==> is_space(#[trigger] s[j]),
        trimmed_len(s, n) > 0 ==> !is_space(s[trimmed_len(s, n) - 1]),
    decreases n,
{
    if n > 0 && is_space(s[n - 1]) {
        lemma_trimmed_len(s, n - 1);
    }
}

/// `s` without leading and trailing white space.
pub fn trim(s: &str) -> (r: String)
    ensures
        r@ == trimmed(s@),
{
    let c = chars_of(s);
    let lo = skip_space_chars(&c, 0);
    let ghost f = trim_front(s@);
    let mut hi: usize = c.len();
    proof {
        lemma_skip(s@, 0);
    }
    while hi > lo && c[hi - 1].is_whitespace()
        invariant
            lo <= hi <= c@.len(),
            c@ == s@,
            f == s@.subrange(lo as int, s@.len() as int),
            trimmed_len(f, f.len() as int) == trimmed_len(f, hi - lo),
        decreases hi,
    {
        assert(f[hi - lo - 1] == c@[hi - 1]);
        hi -= 1;
    }
    proof {
        if hi > lo {
            assert(f[hi - lo - 1] == c@[hi - 1]);
        }
        assert(s@.subrange(lo as int, hi as int) =~= trimmed(s@));
    }
    text_of(&c, lo, hi)
}

/// Whether `s` holds nothing but white space.
pub fn blank(s: &str) -> (r: bool)
    ensures
        r == is_blank(s@),
{
    let c = chars_of(s);
    let i = skip_space_chars(&c, 0);
    proof {
        lemma_skip(s@, 0);
    }
    i == c.len()
}

pub fn lower_ascii_char(c: char) -> (r: char)
    ensures
        r == ascii_lower(c),
{
    if 'A' <= c && c <= 'Z' {
        ((c as u8) + 32) as char
    } else {
        c
    }
}

/// `s` with its ASCII capitals made small.
pub fn lower_ascii(s: &str) -> (r: String)
    ensures
        r@ == ascii_lowered(s@),
{
    let c = chars_of(s);
    let mut out: String = String::new();
    let mut i: usize = 0;
    while i < c.len()
        invariant
            i <= c@.len(),
            out@ == ascii_lowered(c@.take(i as int)),
        decreases c@.len() - i,
    {
        out.push(lower_ascii_char(c[i]));
        i += 1;
        assert(out@ =~= ascii_lowered(c@.take(i as int)));
    }
    assert(c@.take(i as int) =~= c@);
    out
}

/// Whether two texts differ at most in the case of ASCII letters.
pub fn same_ignoring_ascii_case(a: &str, b: &str) -> (r: bool)
    ensures
        r == (ascii_lowered(a@) == ascii_lowered(b@)),
{
    same(lower_ascii(a).as_str(), lower_ascii(b).as_str())
}

// ---- building --------------------------------------------------------------------

/// `a` followed by `b`.
pub fn cat(a: &str, b: &str) -> (r: String)
    ensures
        r@ == a@ + b@,
{
    let mut o = a.to_string();
    o.append(b);
    o
}

/// `a`, `b` and `c`, one after the other.
pub fn cat3(a: &str, b: &str, c: &str) -> (r: String)
    ensures
        r@ == a@ + b@ + c@,
{
    let mut o = a.to_string();
    o.append(b);
    o.append(c);
    o
}

/// `a`, `b`, `c`, `d` and `e`, one after the other.
pub fn cat5(a: &str, b: &str, c: &str, d: &str, e: &str) -> (r: String)
    ensures
        r@ == a@ + b@ + c@ + d@ + e@,
{
    let mut o = a.to_string();
    o.append(b);
    o.append(c);
    o.append(d);
    o.append(e);
    o
}

/// The parts with `sep` between each two of them.
pub open spec fn joined(parts: Seq<Seq<char>>, sep: Seq<char>) -> Seq<char>
    decreases parts.len(),
{
    if parts.len() == 0 {
        seq![]
    } else if parts.len() == 1 {
        parts[0]
    } else {
        joined(parts.drop_last(), sep) + sep + parts.last()
    }
}

/// The parts with `sep` between each two of them, taken from the front.
pub proof fn lemma_joined_cons(parts: Seq<Seq<char>>, sep: Seq<char>)
    requires
        parts.len() > 1,
    ensures
        joined(parts, sep) == parts[0] + sep + joined(parts.skip(1), sep),
    decreases parts.len(),
{
    let rest = parts.skip(1);
    assert(parts.drop_last()[0] == parts[0]);
    assert(rest.last() == parts.last());
    if parts.len() == 2 {
        assert(joined(parts.drop_last(), sep) == parts[0]);
        assert(rest[0] == parts[1]);
    } else {
        lemma_joined_cons(parts.drop_last(), sep);
        assert(parts.drop_last().skip(1) =~= rest.drop_last());
        assert(joined(parts, sep) =~= parts[0] + sep + joined(rest, sep));
    }
}

/// The words of words with blanks between them.
pub proof fn lemma_words_of_joined(ws: Seq<Seq<char>>)
    requires
        forall|k: int| 0 <= k < ws.len() ==> (#[trigger] ws[k]).len() > 0 && solid(ws[k]),
    ensures
        words_of(joined(ws, " "@)) == ws,
    decreases ws.len(),
{
    reveal_strlit(" ");
    assert(" "@ =~= seq![' ']);
    if ws.len() == 0 {
        assert(words_of(joined(ws, " "@)) =~= ws);
    } else if ws.len() == 1 {
        lemma_one_word(ws[0]);
        assert(seq![ws[0]] =~= ws);
    } else {
        lemma_joined_cons(ws, " "@);
        lemma_words_cons(ws[0], ' ', joined(ws.skip(1), " "@));
        assert forall|k: int| 0 <= k < ws.skip(1).len() implies (#[trigger] ws.skip(1)[k]).len() > 0 && solid(
            ws.skip(1)[k],
        ) by {
            assert(ws.skip(1)[k] == ws[k + 1]);
        }
        lemma_words_of_joined(ws.skip(1));
        assert(seq![ws[0]] + ws.skip(1) =~= ws);
    }
}

/// What holds of every character of a text holds of every character of its words.
pub proof fn lemma_words_within(s: Seq<char>, i: int, p: spec_fn(char) -> bool)
    requires
        0 <= i <= s.len(),
        forall|x: int| 0 <= x < s.len() ==> p(#[trigger] s[x]),
    ensures
        forall|k: int, x: int|
            0 <= k < words_from(s, i).len() && 0 <= x < words_from(s, i)[k].len() ==> p(#[trigger] words_from(s, i)[k][x]),
    decreases s.len() - i,
{
    lemma_skip(s, i);
    let j = skip_space(s, i);
    if j < s.len() {
        lemma_skip(s, j);
        let e = skip_word(s, j);
        assert(e > j);
        lemma_words_within(s, e, p);
        let w = words_from(s, i);
        assert forall|k: int, x: int| 0 <= k < w.len() && 0 <= x < w[k].len() implies p(#[trigger] w[k][x]) by {
            if k == 0 {
                assert(w[0] == s.subrange(j, e));
                assert(w[0][x] == s[j + x]);
            } else {
                assert(w[k] == words_from(s, e)[k - 1]);
                assert(p(words_from(s, e)[k - 1][x]));
            }
        }
    }
}

/// What holds of every character of the words holds of every character of the words with
/// blanks between them, but for the blanks.
pub proof fn lemma_joined_within(ws: Seq<Seq<char>>, p: spec_fn(char) -> bool)
    requires
        forall|k: int, x: int| 0 <= k < ws.len() && 0 <= x < ws[k].len() ==> p(#[trigger] ws[k][x]),
    ensures
        forall|x: int|
            0 <= x < joined(ws, seq![' ']).len() ==> #[trigger] joined(ws, seq![' '])[x] == ' ' || p(joined(ws, seq![' '])[x]),
    decreases ws.len(),
{
    let all = joined(ws, seq![' ']);
    if ws.len() == 1 {
        assert forall|x: int| 0 <= x < all.len() implies #[trigger] all[x] == ' ' || p(all[x]) by {
            assert(all[x] == ws[0][x]);
        }
    } else if ws.len() > 1 {
        let front = ws.drop_last();
        assert forall|k: int, x: int| 0 <= k < front.len() && 0 <= x < front[k].len() implies p(#[trigger] front[k][x]) by {
            assert(front[k][x] == ws[k][x]);
        }
        lemma_joined_within(front, p);
        let head = joined(front, seq![' ']);
        assert forall|x: int| 0 <= x < all.len() implies #[trigger] all[x] == ' ' || p(all[x]) by {
            if x < head.len() {
                assert(all[x] == head[x]);
            } else if x > head.len() {
                assert(all[x] == ws[ws.len() - 1][x - head.len() - 1]);
            }
        }
    }
}

/// A text with no blank at either end and no two next to each other.
pub open spec fn single_blanks(s: Seq<char>) -> bool {
    &&& s.len() > 0 ==> s[0] != ' ' && s[s.len() - 1] != ' '
    &&& forall|i: int, j: int| 0 <= i && j == i + 1 && j < s.len() ==> !(#[trigger] s[i] == ' ' && #[trigger] s[j] == ' ')
}

/// Words with blanks between them have single blanks.
pub proof fn lemma_joined_single_blanks(ws: Seq<Seq<char>>)
    requires
        forall|k: int| 0 <= k < ws.len() ==> (#[trigger] ws[k]).len() > 0 && solid(ws[k]),
    ensures
        single_blanks(joined(ws, seq![' '])),
        ws.len() > 0 ==> joined(ws, seq![' ']).len() > 0,
    decreases ws.len(),
{
    let all = joined(ws, seq![' ']);
    if ws.len() == 1 {
        assert(all == ws[0]);
    } else if ws.len() > 1 {
        let front = ws.drop_last();
        assert forall|k: int| 0 <= k < front.len() implies (#[trigger] front[k]).len() > 0 && solid(front[k]) by {
            assert(front[k] == ws[k]);
        }
        lemma_joined_single_blanks(front);
        let head = joined(front, seq![' ']);
        let last = ws[ws.len() - 1];
        let n = head.len() as int;
        assert(solid(last));
        assert(all[0] == head[0]);
        assert(all[all.len() - 1] == last[last.len() - 1]);
        assert forall|i: int, j: int| 0 <= i && j == i + 1 && j < all.len() implies !(#[trigger] all[i] == ' '
            && #[trigger] all[j] == ' ') by {
            if j < n {
                assert(all[i] == head[i] && all[j] == head[j]);
            } else if j == n {
                assert(all[i] == head[n - 1]);
            } else {
                assert(all[j] == last[j - n - 1]);
            }
        }
    }
}

/// The parts with `sep` between each two of them.
pub fn join(parts: &[String], sep: &str) -> (r: String)
    ensures
        r@ == joined(parts.deep_view(), sep@),
{
    let mut out = String::new();
    let mut i: usize = 0;
    let ghost all = parts.deep_view();
    while i < parts.len()
        invariant
            i <= parts@.len(),
            all == parts.deep_view(),
            out@ == joined(all.take(i as int), sep@),
        decreases parts@.len() - i,
    {
        if i > 0 {
            out.append(sep);
        }
        out.append(parts[i].as_str());
        proof {
            assert(all.take(i + 1).drop_last() =~= all.take(i as int));
            assert(all.take(i + 1).last() == parts@[i as int]@);
            if i == 0 {
                assert(all.take(0).len() == 0);
            }
        }
        i += 1;
    }
    assert(all.take(i as int) =~= all);
    out
}

/// `s` with every `c` replaced by `with`.
pub open spec fn replaced(s: Seq<char>, c: char, with: Seq<char>) -> Seq<char>
    decreases s.len(),
{
    if s.len() == 0 {
        seq![]
    } else {
        replaced(s.drop_last(), c, with) + (if s.last() == c {
            with
        } else {
            seq![s.last()]
        })
    }
}

/// Replacing in two texts, one behind the other.
pub proof fn lemma_replaced_add(a: Seq<char>, b: Seq<char>, c: char, with: Seq<char>)
    ensures
        replaced(a + b, c, with) == replaced(a, c, with) + replaced(b, c, with),
    decreases b.len(),
{
    if b.len() == 0 {
        assert(a + b =~= a);
        assert(replaced(a, c, with) + replaced(b, c, with) =~= replaced(a, c, with));
    } else {
        assert((a + b).drop_last() =~= a + b.drop_last());
        lemma_replaced_add(a, b.drop_last(), c, with);
        assert(replaced(a + b, c, with) =~= replaced(a, c, with) + replaced(b, c, with));
    }
}

/// Replacing in one character.
pub proof fn lemma_replaced_one(x: char, c: char, with: Seq<char>)
    ensures
        replaced(seq![x], c, with) == (if x == c {
            with
        } else {
            seq![x]
        }),
{
    assert(seq![x].drop_last() =~= seq![]);
    assert(replaced(seq![], c, with) =~= seq![]);
    assert(replaced(seq![x], c, with) =~= (if x == c {
        with
    } else {
        seq![x]
    }));
}

/// `s` with every `c` replaced by `with`.
pub fn replace(s: &str, c: char, with: &str) -> (r: String)
    ensures
        r@ == replaced(s@, c, with@),
{
    let cs = chars_of(s);
    let mut out = String::new();
    let mut i: usize = 0;
    while i < cs.len()
        invariant
            i <= cs@.len(),
            out@ == replaced(cs@.take(i as int), c, with@),
        decreases cs@.len() - i,
    {
        if cs[i] == c {
            out.append(with);
        } else {
            out.push(cs[i]);
        }
        proof {
            assert(cs@.take(i + 1).drop_last() =~= cs@.take(i as int));
            assert(out@ =~= replaced(cs@.take(i + 1), c, with@));
        }
        i += 1;
    }
    assert(cs@.take(i as int) =~= cs@);
    out
}

/// `s[i..]` with every `pat`, from the left, replaced by `with`.
pub open spec fn replaced_from(s: Seq<char>, pat: Seq<char>, with: Seq<char>, i: int) -> Seq<char>
    decreases s.len() - i,
{
    if i < 0 || i >= s.len() {
        seq![]
    } else if pat.len() > 0 && matches_at(s, pat, i) {
        with + replaced_from(s, pat, with, i + pat.len())
    } else {
        seq![s[i]] + replaced_from(s, pat, with, i + 1)
    }
}

/// `s` with every `pat`, which is not empty, replaced by `with`.
pub fn replace_text(s: &str, pat: &str, with: &str) -> (r: String)
    requires
        pat@.len() > 0,
    ensures
        r@ == replaced_from(s@, pat@, with@, 0),
{
    let c = chars_of(s);
    let p = chars_of(pat);
    let mut out = String::new();
    let mut i: usize = 0;
    assert(out@ + replaced_from(s@, pat@, with@, 0) =~= replaced_from(s@, pat@, with@, 0));
    while i < c.len()
        invariant
            i <= c@.len(),
            c@ == s@,
            p@ == pat@,
            pat@.len() > 0,
            out@ + replaced_from(s@, pat@, with@, i as int) == replaced_from(s@, pat@, with@, 0),
        decreases c@.len() - i,
    {
        let ghost before = out@;
        if chars_match_at(&c, &p, i) {
            out.append(with);
            assert(out@ + replaced_from(s@, pat@, with@, i + p@.len()) =~= before + replaced_from(s@, pat@, with@, i as int));
            i += p.len();
        } else {
            out.push(c[i]);
            assert(out@ + replaced_from(s@, pat@, with@, i + 1) =~= before + replaced_from(s@, pat@, with@, i as int));
            i += 1;
        }
    }
    assert(out@ + replaced_from(s@, pat@, with@, i as int) =~= out@);
    out
}

/// The length of `s[..n]` without the `c`s that end it.
pub open spec fn stripped_len(s: Seq<char>, c: char, n: int) -> int
    decreases n,
{
    if n <= 0 || n > s.len() || s[n - 1] != c {
        n
    } else {
        stripped_len(s, c, n - 1)
    }
}

/// `s` without the `c`s that end it.
pub open spec fn strip_end(s: Seq<char>, c: char) -> Seq<char> {
    s.subrange(0, stripped_len(s, c, s.len() as int))
}

/// `s` without the `c`s that end it.
pub fn without_end(s: &str, c: char) -> (r: String)
    ensures
        r@ == strip_end(s@, c),
{
    let cs = chars_of(s);
    let mut n: usize = cs.len();
    while n > 0 && cs[n - 1] == c
        invariant
            n <= cs@.len(),
            stripped_len(cs@, c, cs@.len() as int) == stripped_len(cs@, c, n as int),
        decreases n,
    {
        n -= 1;
    }
    text_of(&cs, 0, n)
}

/// What follows `pat` where `s` begins with it.
pub open spec fn after_prefix(s: Seq<char>, pat: Seq<char>) -> Option<Seq<char>> {
    if starts_with(s, pat) {
        Some(s.subrange(pat.len() as int, s.len() as int))
    } else {
        None
    }
}

/// What follows `pat` where `s` begins with it.
pub fn strip_prefix(s: &str, pat: &str) -> (r: Option<String>)
    ensures
        r.deep_view() == after_prefix(s@, pat@),
{
    let c = chars_of(s);
    let p = chars_of(pat);
    if chars_match_at(&c, &p, 0) {
        Some(text_of(&c, p.len(), c.len()))
    } else {
        None
    }
}

/// The texts, each its own.
pub fn owned(list: &[&str]) -> (r: Vec<String>)
    ensures
        r.deep_view() == list.deep_view(),
{
    let mut out: Vec<String> = Vec::new();
    let ghost want = list.deep_view();
    let mut i: usize = 0;
    assert(out.deep_view() =~= want.take(0));
    while i < list.len()
        invariant
            i <= list@.len(),
            want == list.deep_view(),
            want.len() == list@.len(),
            out.deep_view() == want.take(i as int),
        decreases list@.len() - i,
    {
        let ghost before = out.deep_view();
        assert(want[i as int] == list@[i as int]@);
        out.push(list[i].to_string());
        assert(out.deep_view() =~= before.push(want[i as int]));
        assert(want.take(i + 1) =~= want.take(i as int).push(want[i as int]));
        i += 1;
    }
    assert(want.take(i as int) =~= want);
    out
}

/// Appends all of `more`.
pub fn append_all(out: &mut Vec<String>, more: &[String])
    ensures
        final(out).deep_view() == old(out).deep_view() + more.deep_view(),
{
    let ghost before = out.deep_view();
    let ghost mv = more.deep_view();
    let mut i: usize = 0;
    assert(before + mv.take(0) =~= before);
    while i < more.len()
        invariant
            i <= more@.len(),
            mv == more.deep_view(),
            out.deep_view() == before + mv.take(i as int),
        decreases more@.len() - i,
    {
        let ghost mid = out.deep_view();
        out.push(more[i].clone());
        proof {
            assert(out.deep_view() =~= mid.push(mv[i as int]));
            assert(mv.take(i + 1) =~= mv.take(i as int).push(mv[i as int]));
        }
        i += 1;
    }
    assert(mv.take(i as int) =~= mv);
}

/// Appends the bytes of a text in UTF-8.
pub fn push_text(out: &mut Vec<u8>, s: &str)
    ensures
        final(out)@ == old(out)@ + encode_utf8(s@),
{
    push_bytes(out, s.as_bytes());
}

/// Appends bytes.
pub fn push_bytes(out: &mut Vec<u8>, more: &[u8])
    ensures
        final(out)@ == old(out)@ + more@,
{
    let ghost before = out@;
    let mut i: usize = 0;
    assert(before + more@.take(0) =~= before);
    while i < more.len()
        invariant
            i <= more@.len(),
            out@ == before + more@.take(i as int),
        decreases more@.len() - i,
    {
        out.push(more[i]);
        assert(out@ =~= before + more@.take(i + 1));
        i += 1;
    }
    assert(more@.take(i as int) =~= more@);
}

// ---- numbers ---------------------------------------------------------------------

/// The digit for `d`, which is below ten.
pub open spec fn digit(d: nat) -> char {
    ('0' as u32 + d) as char
}

/// `n` in decimal, without leading zeros.
pub open spec fn decimal(n: nat) -> Seq<char>
    decreases n,
{
    if n < 10 {
        seq![digit(n)]
    } else {
        decimal(n / 10).push(digit(n % 10))
    }
}

/// `n` in decimal, without leading zeros.
pub fn decimal_text(n: u64) -> (r: String)
    ensures
        r@ == decimal(n as nat),
    decreases n,
{
    if n < 10 {
        let mut o = String::new();
        o.push((48u8 + n as u8) as char);
        assert(o@ =~= seq![digit(n as nat)]);
        o
    } else {
        let mut o = decimal_text(n / 10);
        o.push((48u8 + (n % 10) as u8) as char);
        o
    }
}

/// All of `s` is digits.
pub open spec fn all_digits(s: Seq<char>) -> bool {
    forall|i: int| 0 <= i < s.len() ==> ascii_digit(#[trigger] s[i])
}

/// The number that the digits `s` write.
pub open spec fn digits_value(s: Seq<char>) -> nat
    decreases s.len(),
{
    if s.len() == 0 {
        0
    } else {
        (digits_value(s.drop_last()) * 10 + (s.last() as u32 - '0' as u32)) as nat
    }
}

/// A longer run of digits never writes a smaller number.
pub proof fn lemma_digits_value_grows(s: Seq<char>, k: int)
    requires
        0 <= k <= s.len(),
        all_digits(s),
    ensures
        digits_value(s.take(k)) <= digits_value(s),
    decreases s.len(),
{
    if k < s.len() {
        lemma_digits_value_grows(s.drop_last(), k);
        assert(s.drop_last().take(k) =~= s.take(k));
        assert(ascii_digit(s[s.len() - 1]));
    } else {
        assert(s.take(k) =~= s);
    }
}

/// The number that the digits of `c[lo..]` write, where they are all digits,
/// there is at least one, and it fits.
pub(crate) fn digits_number(c: &[char], lo: usize) -> (r: Option<u64>)
    requires
        lo <= c@.len(),
    ensures
        match r {
            Some(n) => lo < c@.len() && all_digits(c@.skip(lo as int)) && n == digits_value(c@.skip(lo as int)),
            None => lo == c@.len() || !all_digits(c@.skip(lo as int)) || digits_value(c@.skip(lo as int)) > u64::MAX,
        },
{
    if lo == c.len() {
        return None;
    }
    let ghost d = c@.skip(lo as int);
    let mut n: u64 = 0;
    let mut i: usize = lo;
    while i < c.len()
        invariant
            lo <= i <= c@.len(),
            d == c@.skip(lo as int),
            all_digits(d.take(i - lo)),
            n == digits_value(d.take(i - lo)),
        decreases c@.len() - i,
    {
        let x = c[i];
        assert(d[i - lo] == x);
        if x < '0' || x > '9' {
            assert(!ascii_digit(d[i - lo]));
            return None;
        }
        let v: u64 = (x as u8 - 48) as u64;
        proof {
            assert(d.take(i + 1 - lo).drop_last() =~= d.take(i - lo));
            assert(digits_value(d.take(i + 1 - lo)) == n * 10 + v);
            assert(all_digits(d.take(i + 1 - lo)));
        }
        if n > (u64::MAX - v) / 10 {
            proof {
                assert(n * 10 + v > u64::MAX);
                if all_digits(d) {
                    lemma_digits_value_grows(d, i + 1 - lo);
                }
            }
            return None;
        }
        n = n * 10 + v;
        i += 1;
    }
    assert(d.take(i - lo) =~= d);
    Some(n)
}

/// The number that `s` writes in the way `u64::from_str` accepts: digits, after a
/// plus sign if there is one.
pub open spec fn unsigned(s: Seq<char>) -> Option<nat> {
    let d = if s.len() > 0 && s[0] == '+' {
        s.skip(1)
    } else {
        s
    };
    if d.len() > 0 && all_digits(d) && digits_value(d) <= u64::MAX {
        Some(digits_value(d))
    } else {
        None
    }
}

/// The number that `s` writes, where it writes one that fits.
pub fn parse_unsigned(s: &str) -> (r: Option<u64>)
    ensures
        match r {
            Some(n) => unsigned(s@) == Some(n as nat),
            None => unsigned(s@) is None,
        },
{
    let c = chars_of(s);
    assert(s@.skip(0) =~= s@);
    if c.len() > 0 && c[0] == '+' {
        digits_number(&c, 1)
    } else {
        digits_number(&c, 0)
    }
}

/// The number that is nearest to `n / d`, and the even one of two that are.
pub open spec fn nearest(n: nat, d: nat) -> nat
    recommends
        d > 0,
{
    let q = n / d;
    let r = n % d;
    if 2 * r > d || (2 * r == d && q % 2 == 1) {
        q + 1
    } else {
        q
    }
}

// ---- what is compared of a name ----------------------------------------------------

/// The alphanumeric characters of `s`, in small letters.
pub open spec fn squashed(s: Seq<char>) -> Seq<char>
    decreases s.len(),
{
    if s.len() == 0 {
        seq![]
    } else if is_alnum(s.last()) {
        squashed(s.drop_last()) + lower_char(s.last())
    } else {
        squashed(s.drop_last())
    }
}

/// The alphanumeric characters of `s`, in small letters.
pub fn squash(s: &str) -> (r: String)
    ensures
        r@ == squashed(s@),
{
    let c = chars_of(s);
    let mut out = String::new();
    let mut i: usize = 0;
    while i < c.len()
        invariant
            i <= c@.len(),
            out@ == squashed(c@.take(i as int)),
        decreases c@.len() - i,
    {
        assert(c@.take(i + 1).drop_last() =~= c@.take(i as int));
        if c[i].is_alphanumeric() {
            out.append(lowercase_char(c[i]).as_str());
        }
        i += 1;
    }
    assert(c@.take(i as int) =~= c@);
    out
}

// ---- what the parts of a text are ----------------------------------------------------------

/// One list more at the end of lists that are put behind each other.
pub proof fn lemma_flatten_push<T>(l: Seq<Seq<T>>, x: Seq<T>)
    ensures
        l.push(x).flatten() == l.flatten() + x,
{
    let m = l.push(x);
    m.lemma_flatten_and_flatten_alt_are_equivalent();
    l.lemma_flatten_and_flatten_alt_are_equivalent();
    assert(m.drop_last() =~= l);
}

/// What stands in one of the lists stands in all of them together.
pub proof fn lemma_flatten_holds<T>(l: Seq<Seq<T>>, k: int, i: int)
    requires
        0 <= k < l.len(),
        0 <= i < l[k].len(),
    ensures
        l.flatten().contains(l[k][i]),
    decreases l.len(),
{
    let front = l.drop_last();
    assert(l =~= front.push(l.last()));
    lemma_flatten_push(front, l.last());
    let f = front.flatten();
    if k < front.len() {
        lemma_flatten_holds(front, k, i);
        assert(front[k][i] == l[k][i]);
        let j = choose|j: int| 0 <= j < f.len() && f[j] == l[k][i];
        assert(l.flatten()[j] == l[k][i]);
    } else {
        assert(l.flatten()[f.len() + i] == l[k][i]);
    }
}

/// Trimming takes white space off both ends and nothing else: what is left stands in the text
/// between nothing but white space, and neither begins nor ends with any.
pub proof fn law_trimmed(s: Seq<char>)
    ensures
        exists|a: Seq<char>, b: Seq<char>| is_blank(a) && is_blank(b) && s == #[trigger] (a + trimmed(s) + b),
        trimmed(s).len() > 0 ==> !is_space(trimmed(s)[0]) && !is_space(trimmed(s)[trimmed(s).len() - 1]),
{
    let i = skip_space(s, 0);
    lemma_skip(s, 0);
    let f = trim_front(s);
    lemma_trimmed_len(f, f.len() as int);
    let n = trimmed_len(f, f.len() as int);
    let a = s.take(i);
    let b = s.skip(i + n);
    assert(s =~= a + trimmed(s) + b);
    assert forall|j: int| 0 <= j < b.len() implies is_space(#[trigger] b[j]) by {
        assert(b[j] == f[n + j]);
    }
    assert forall|j: int| 0 <= j < a.len() implies is_space(#[trigger] a[j]) by {
        assert(a[j] == s[j]);
    }
    if n > 0 {
        assert(trimmed(s)[0] == s[i]);
        assert(trimmed(s)[n - 1] == f[n - 1]);
        assert(i < s.len());
    }
}

/// A text that is bare at both ends is the only one that is left of it between white space.
pub proof fn law_trimmed_only(a: Seq<char>, t: Seq<char>, b: Seq<char>)
    requires
        is_blank(a),
        is_blank(b),
        t.len() > 0 ==> !is_space(t[0]) && !is_space(t[t.len() - 1]),
    ensures
        trimmed(a + t + b) == t,
{
    let s = a + t + b;
    let i = skip_space(s, 0);
    lemma_skip(s, 0);
    let f = trim_front(s);
    let n = trimmed_len(f, f.len() as int);
    lemma_trimmed_len(f, f.len() as int);
    assert forall|j: int| 0 <= j < a.len() implies is_space(#[trigger] s[j]) by {
        assert(s[j] == a[j]);
    }
    assert forall|j: int| a.len() + t.len() <= j < s.len() implies is_space(#[trigger] s[j]) by {
        assert(s[j] == b[j - a.len() - t.len()]);
    }
    if t.len() > 0 {
        assert(s[a.len() as int] == t[0]);
        assert(i == a.len());
        assert(f =~= t + b);
        assert(f[t.len() - 1] == t[t.len() - 1]);
        if n > t.len() {
            assert(f[n - 1] == s[i + n - 1]);
        }
        if n < t.len() {
            assert(is_space(f[t.len() - 1]));
        }
        assert(trimmed(s) =~= t);
    } else {
        if i < s.len() {
            assert(is_space(s[i]));
        }
        assert(trimmed(s) =~= t);
    }
}

/// Words are what white space leaves: a text is read word by word, white space between words
/// makes none, and a run without white space is one word.
pub proof fn law_words(a: Seq<char>, c: char, rest: Seq<char>)
    requires
        is_space(c),
        solid(a),
    ensures
        words_of(a + seq![c] + rest) == (if a.len() > 0 {
            seq![a]
        } else {
            seq![]
        }) + words_of(rest),
        words_of(a) == (if a.len() > 0 {
            seq![a]
        } else {
            seq![]
        }),
{
    let s = a + seq![c] + rest;
    if a.len() > 0 {
        lemma_words_cons(a, c, rest);
        lemma_one_word(a);
    } else {
        lemma_skip(s, 0);
        assert(s[0] == c);
        lemma_words_shift(s, 1, 1);
        assert(s.skip(1) =~= rest);
        assert(skip_space(s, 0) == skip_space(s, 1));
        lemma_words_after_space(s, 0);
        lemma_words_after_space(s, 1);
        assert(words_of(a) =~= seq![]);
        assert(words_of(s) =~= seq![] + words_of(rest));
    }
}

/// What is compared of a text is each of its alphanumeric characters in small letters, in
/// order, and nothing else.
pub proof fn law_squashed(s: Seq<char>)
    ensures
        squashed(s) == s.map_values(
            |c: char|
                if is_alnum(c) {
                    lower_char(c)
                } else {
                    seq![]
                },
        ).flatten(),
    decreases s.len(),
{
    let l = s.map_values(
        |c: char|
            if is_alnum(c) {
                lower_char(c)
            } else {
                seq![]
            },
    );
    if s.len() > 0 {
        let front = s.drop_last();
        law_squashed(front);
        let before = front.map_values(
            |c: char|
                if is_alnum(c) {
                    lower_char(c)
                } else {
                    seq![]
                },
        );
        assert(l =~= before.push(l.last()));
        lemma_flatten_push(before, l.last());
        assert(squashed(s) =~= before.flatten() + l.last());
    } else {
        assert(l =~= seq![]);
        assert(l.flatten() =~= seq![]);
    }
}

/// A text of digits that writes a number gives it back, and has no zero in front.
pub proof fn law_decimal(n: nat)
    ensures
        all_digits(decimal(n)),
        digits_value(decimal(n)) == n,
        decimal(n).len() > 0,
        n > 0 ==> decimal(n)[0] != '0',
    decreases n,
{
    if n < 10 {
        assert(digit(n) as u32 == '0' as u32 + n);
        assert(seq![digit(n)].drop_last() =~= seq![]);
        assert(digits_value(seq![]) == 0);
    } else {
        law_decimal(n / 10);
        let d = decimal(n);
        assert(digit(n % 10) as u32 == '0' as u32 + n % 10);
        assert(d.drop_last() =~= decimal(n / 10));
        assert(d[0] == decimal(n / 10)[0]);
        assert forall|i: int| 0 <= i < d.len() implies ascii_digit(#[trigger] d[i]) by {
            if i < d.len() - 1 {
                assert(d[i] == decimal(n / 10)[i]);
            }
        }
    }
}

/// The nearest whole number is no more than half a step away, and even where two are.
pub proof fn law_nearest(n: nat, d: nat)
    requires
        d > 0,
    ensures
        -(d as int) <= 2 * (nearest(n, d) * d - n) <= d,
        2 * (nearest(n, d) * d - n) == d || 2 * (n - nearest(n, d) * d) == d ==> nearest(n, d) % 2 == 0,
{
    let q = n / d;
    let m = n % d;
    assert(n == q * d + m && m < d) by (nonlinear_arith)
        requires
            d > 0,
            q == n / d,
            m == n % d,
    ;
    assert((q + 1) * d == q * d + d) by (nonlinear_arith);
}

/// Replacing puts the new text in the place of the first occurrence, keeps what stands before
/// it, and goes on behind it; a text without an occurrence stays as it is.
pub proof fn law_replaced(s: Seq<char>, pat: Seq<char>, with: Seq<char>, k: int)
    requires
        pat.len() > 0,
        0 <= k <= s.len(),
        k < s.len() ==> matches_at(s, pat, k),
        forall|j: int| 0 <= j < k ==> !matches_at(s, pat, j),
    ensures
        replaced_from(s, pat, with, 0) == (if k < s.len() {
            s.take(k) + with + replaced_from(s.skip(k + pat.len()), pat, with, 0)
        } else {
            s
        }),
{
    lemma_replaced_front(s, pat, with, 0, k);
    if k < s.len() {
        lemma_replaced_shift(s, pat, with, k + pat.len(), k + pat.len());
        assert(s.subrange(0, k) =~= s.take(k));
        assert(replaced_from(s, pat, with, 0) =~= s.take(k) + with + replaced_from(s.skip(k + pat.len()), pat, with, 0));
    } else {
        assert(s.subrange(0, k) + replaced_from(s, pat, with, k) =~= s);
    }
}

proof fn lemma_replaced_front(s: Seq<char>, pat: Seq<char>, with: Seq<char>, i: int, k: int)
    requires
        0 <= i <= k <= s.len(),
        forall|j: int| i <= j < k ==> !matches_at(s, pat, j),
    ensures
        replaced_from(s, pat, with, i) == s.subrange(i, k) + replaced_from(s, pat, with, k),
    decreases k - i,
{
    if i < k {
        lemma_replaced_front(s, pat, with, i + 1, k);
        assert(s.subrange(i, k) =~= seq![s[i]] + s.subrange(i + 1, k));
        assert(replaced_from(s, pat, with, i) =~= s.subrange(i, k) + replaced_from(s, pat, with, k));
    } else {
        assert(s.subrange(i, k) + replaced_from(s, pat, with, k) =~= replaced_from(s, pat, with, k));
    }
}

proof fn lemma_replaced_shift(s: Seq<char>, pat: Seq<char>, with: Seq<char>, i: int, k: int)
    requires
        0 <= i <= k <= s.len(),
        pat.len() > 0,
    ensures
        replaced_from(s, pat, with, k) == replaced_from(s.skip(i), pat, with, k - i),
    decreases s.len() - k,
{
    let t = s.skip(i);
    if k < s.len() {
        assert(t[k - i] == s[k]);
        if k + pat.len() <= s.len() {
            assert(t.subrange(k - i, k - i + pat.len()) =~= s.subrange(k, k + pat.len()));
        }
        assert(matches_at(t, pat, k - i) == matches_at(s, pat, k));
        if matches_at(s, pat, k) {
            lemma_replaced_shift(s, pat, with, i, k + pat.len());
        } else {
            lemma_replaced_shift(s, pat, with, i, k + 1);
        }
    }
}

/// The pieces of a text put together again with the separator are the text, and none of them
/// holds the separator.
pub proof fn law_split(s: Seq<char>, c: char)
    ensures
        joined(split_on(s, seq![c]), seq![c]) == s,
        forall|k: int, i: int|
            0 <= k < split_on(s, seq![c]).len() && 0 <= i < split_on(s, seq![c])[k].len() ==> #[trigger] split_on(
                s,
                seq![c],
            )[k][i] != c,
        split_on(s, seq![c]).len() > 0,
    decreases s.len(),
{
    let seps = seq![c];
    lemma_first_of(s, seps, 0);
    let j = first_of(s, seps, 0);
    let a = s.take(j);
    assert forall|x: int| 0 <= x < a.len() implies !seps.contains(#[trigger] a[x]) by {
        assert(a[x] == s[x]);
    }
    assert(seps[0] == c);
    assert(seps.contains(c));
    if j < s.len() {
        let rest = s.skip(j + 1);
        assert(seps.contains(s[j]));
        assert(s[j] == c);
        assert(s =~= a + seq![c] + rest);
        lemma_split_cons(a, c, rest, seps);
        law_split(rest, c);
        let l = split_on(s, seps);
        let r = split_on(rest, seps);
        assert(l =~= seq![a] + r);
        assert(l.skip(1) =~= r);
        lemma_joined_cons(l, seps);
        assert(joined(l, seps) =~= s);
        assert forall|k: int, i: int| 0 <= k < l.len() && 0 <= i < l[k].len() implies #[trigger] l[k][i] != c by {
            if k == 0 {
                assert(!seps.contains(a[i]));
            } else {
                assert(l[k] == r[k - 1]);
                assert(r[k - 1][i] != c);
            }
        }
    } else {
        assert(a =~= s);
        lemma_split_one(s, seps);
        assert forall|i: int| 0 <= i < s.len() implies #[trigger] s[i] != c by {
            assert(!seps.contains(a[i]));
        }
    }
}

/// A text is read line by line: a line ends at a line feed, without the carriage return before
/// it; what follows the last line feed is a line too, as it stands, unless it is empty.
pub proof fn law_lines(a: Seq<char>, rest: Seq<char>)
    requires
        one_line(a),
    ensures
        lines_of(a + seq!['\n'] + rest) == seq![
            if a.len() > 0 && a[a.len() - 1] == '\r' {
                a.take(a.len() - 1)
            } else {
                a
            },
        ] + lines_of(rest),
        lines_of(a) == (if a.len() > 0 {
            seq![a]
        } else {
            seq![]
        }),
{
    let nl = seq!['\n'];
    assert(nl[0] == '\n');
    assert(nl.contains('\n'));
    let s = a + nl + rest;
    let n = a.len() as int;
    lemma_first_of(s, nl, 0);
    lemma_first_of(a, nl, 0);
    let j = first_of(s, nl, 0);
    assert(s[n] == '\n');
    if j < n {
        assert(s[j] == a[j]);
    }
    assert(j == n);
    assert(s.subrange(0, n) =~= a);
    assert(a.drop_last() =~= a.take(n - 1));
    lemma_lines_shift(s, n + 1, n + 1);
    assert(s.skip(n + 1) =~= rest);
    let k = first_of(a, nl, 0);
    if k < n {
        assert(nl.contains(a[k]));
    }
    assert(a.subrange(0, n) =~= a);
}

proof fn lemma_lines_shift(s: Seq<char>, i: int, k: int)
    requires
        0 <= i <= k <= s.len(),
    ensures
        lines_from(s, k) == lines_from(s.skip(i), k - i),
    decreases s.len() - k,
{
    let t = s.skip(i);
    let nl = seq!['\n'];
    lemma_first_of(s, nl, k);
    lemma_first_of(t, nl, k - i);
    lemma_first_of_shift(s, nl, i, k);
    let j = first_of(s, nl, k);
    if k < s.len() {
        if j < s.len() {
            lemma_lines_shift(s, i, j + 1);
            assert(t.subrange(k - i, j - i) =~= s.subrange(k, j));
        } else {
            assert(t.subrange(k - i, t.len() as int) =~= s.subrange(k, s.len() as int));
        }
    }
}

/// Pieces without the separator, put together with it, are read back as they were.
pub proof fn law_split_joined(f: Seq<Seq<char>>, c: char)
    requires
        f.len() > 0,
        forall|k: int, i: int| 0 <= k < f.len() && 0 <= i < f[k].len() ==> #[trigger] f[k][i] != c,
    ensures
        split_on(joined(f, seq![c]), seq![c]) == f,
    decreases f.len(),
{
    let seps = seq![c];
    let a = f[0];
    assert(seps[0] == c);
    assert(seps.contains(c));
    assert forall|x: int| 0 <= x < a.len() implies !seps.contains(#[trigger] a[x]) by {
        assert(f[0][x] != c);
    }
    if f.len() == 1 {
        lemma_split_one(a, seps);
        assert(f =~= seq![a]);
    } else {
        let rest = f.skip(1);
        assert forall|k: int, i: int| 0 <= k < rest.len() && 0 <= i < rest[k].len() implies #[trigger] rest[k][i] != c by {
            assert(f[k + 1][i] != c);
        }
        law_split_joined(rest, c);
        lemma_joined_cons(f, seps);
        lemma_split_cons(a, c, joined(rest, seps), seps);
        assert(f =~= seq![a] + rest);
    }
}

/// Two texts with the separator between them have the pieces of both.
pub proof fn law_split_apart(a: Seq<char>, c: char, b: Seq<char>)
    ensures
        split_on(a + seq![c] + b, seq![c]) == split_on(a, seq![c]) + split_on(b, seq![c]),
    decreases a.len(),
{
    let sep = seq![c];
    assert(sep[0] == c);
    assert(sep.contains(c));
    lemma_first_of(a, sep, 0);
    let j = first_of(a, sep, 0);
    let h = a.take(j);
    assert forall|x: int| 0 <= x < h.len() implies !sep.contains(#[trigger] h[x]) by {
        assert(h[x] == a[x]);
    }
    if j < a.len() {
        let r = a.skip(j + 1);
        assert(sep.contains(a[j]));
        assert(a =~= h + sep + r);
        assert(a + sep + b =~= h + sep + (r + sep + b));
        lemma_split_cons(h, c, r, sep);
        lemma_split_cons(h, c, r + sep + b, sep);
        law_split_apart(r, c, b);
        assert(seq![h] + (split_on(r, sep) + split_on(b, sep)) =~= seq![h] + split_on(r, sep) + split_on(b, sep));
    } else {
        assert(h =~= a);
        lemma_split_one(a, sep);
        lemma_split_cons(a, c, b, sep);
    }
}

} // verus!
