//! Login cookies for the downloader: reading what people paste, judging whether they have
//! expired, and where to look for them next.
use vstd::prelude::*;
use crate::text::{
    after_prefix, append_lines, ascii_lowered, begins, blank, cat, cat3, cat5, chars_of, clean_line, contains,
    contains_text, decimal, decimal_text, first_of, first_of_chars, is_blank, is_space, join, joined, law_decimal,
    law_split_joined, law_trimmed_only, lemma_first_of, lemma_flatten_push, lemma_joined_cons,
    lemma_lines_of_unlines, lemma_split_cons, lemma_split_one, lemma_words_cons, lemma_words_of_joined,
    lemma_words_solid, lines, lines_of, matches_at, parse_unsigned, same, same_ignoring_ascii_case, skip_space,
    solid, split, split_on, starts_with, strip_prefix, text_of, trim, trim_back, trim_front, trimmed, trimmed_len,
    unlines, unsigned, words, words_of,
};

verus! {

/// The first line of a cookie file.
pub const HEADER: &'static str = "# Netscape HTTP Cookie File";

/// The cookie that a login is recognised by.
pub const TOKEN: &'static str = "media-user-token";

/// The host whose cookies are kept.
pub const HOST: &'static str = "apple.com";

// ---- what people paste -----------------------------------------------------------------------

/// A line of a cookie file.
#[derive(Debug)]
pub struct Row {
    pub line: String,
    /// It is the cookie that a login is recognised by.
    pub token: bool,
}

#[verifier::ext_equal]
pub struct RowV {
    pub line: Seq<char>,
    pub token: bool,
}

impl DeepView for Row {
    type V = RowV;

    open spec fn deep_view(&self) -> RowV {
        RowV { line: self.line@, token: self.token }
    }
}

/// The line of a cookie: its seven fields with tabs between them.
pub open spec fn row_of(f: Seq<Seq<char>>) -> RowV
    recommends
        f.len() == 7,
{
    RowV {
        line: f[0] + "\t"@ + f[1] + "\t"@ + f[2] + "\t"@ + f[3] + "\t"@ + f[4] + "\t"@ + f[5] + "\t"@ + f[6],
        token: ascii_lowered(f[5]) == ascii_lowered(TOKEN@),
    }
}

/// What counts of a line of a cookie file: nothing of a comment, and all but the marker
/// of a cookie that scripts may not read.
pub open spec fn payload_of(line: Seq<char>) -> Option<Seq<char>> {
    let l = trimmed(line);
    match after_prefix(l, "#HttpOnly_"@) {
        Some(rest) => Some(rest),
        None => if l.len() == 0 || starts_with(l, "#"@) {
            None
        } else {
            Some(l)
        },
    }
}

/// The cookie on a line of a cookie file, whose fields have any white space between them.
/// What is left over at the end belongs to the value.
pub open spec fn file_row(line: Seq<char>) -> Option<RowV> {
    match payload_of(line) {
        None => None,
        Some(l) => {
            let f = words_of(l);
            if f.len() >= 7 && contains_text(f[0], HOST@) {
                Some(row_of(f.take(6).push(joined(f.skip(6), " "@))))
            } else {
                None
            }
        },
    }
}

/// The cookie that a `name=value` pair of a header gives. Host and expiry are not in it:
/// it goes to every host under the kept one and ends with the session.
pub open spec fn header_row(piece: Seq<char>) -> Option<RowV> {
    let p = trimmed(piece);
    let i = first_of(p, seq!['='], 0);
    if p.len() == 0 || starts_with(p, "#"@) || i >= p.len() {
        None
    } else {
        let name = trimmed(p.take(i));
        let value = trimmed(p.skip(i + 1));
        if name.len() == 0 || value.len() == 0 || !solid(name) || !solid(value) {
            None
        } else {
            Some(row_of(seq![".apple.com"@, "TRUE"@, "/"@, "TRUE"@, "0"@, name, value]))
        }
    }
}

/// How a text is read.
#[derive(Clone, Copy, PartialEq, Eq, Structural, Debug)]
pub enum Form {
    /// As a cookie file, line by line.
    File,
    /// As a header, pair by pair.
    Header,
}

pub open spec fn row_in(piece: Seq<char>, form: Form) -> Option<RowV> {
    match form {
        Form::File => file_row(piece),
        Form::Header => header_row(piece),
    }
}

/// The cookies in the first `n` pieces.
pub open spec fn rows_upto(pieces: Seq<Seq<char>>, form: Form, n: int) -> Seq<RowV>
    decreases n,
{
    if n <= 0 {
        seq![]
    } else {
        match row_in(pieces[n - 1], form) {
            Some(r) => rows_upto(pieces, form, n - 1).push(r),
            None => rows_upto(pieces, form, n - 1),
        }
    }
}

pub open spec fn rows_in(pieces: Seq<Seq<char>>, form: Form) -> Seq<RowV> {
    rows_upto(pieces, form, pieces.len() as int)
}

/// The cookies in a text: as a cookie file or, where that gives none, as a header.
pub open spec fn rows_of(raw: Seq<char>) -> Seq<RowV> {
    let rows = rows_in(lines_of(raw), Form::File);
    if rows.len() > 0 {
        rows
    } else {
        rows_in(split_on(raw, seq![';', '\n', '\r']), Form::Header)
    }
}

/// The cookie file with these rows.
pub open spec fn file_text(rows: Seq<RowV>) -> Seq<char> {
    unlines(seq![HEADER@] + rows.map_values(|r: RowV| r.line))
}

pub open spec fn has_token(rows: Seq<RowV>) -> bool {
    exists|i: int| 0 <= i < rows.len() && (#[trigger] rows[i]).token
}

fn make_row(a: &str, b: &str, c: &str, d: &str, e: &str, name: &str, value: &str) -> (r: Row)
    ensures
        r.deep_view() == row_of(seq![a@, b@, c@, d@, e@, name@, value@]),
{
    let mut line = cat5(a, "\t", b, "\t", c);
    line.append("\t");
    line.append(d);
    line.append("\t");
    line.append(e);
    line.append("\t");
    line.append(name);
    line.append("\t");
    line.append(value);
    let token = same_ignoring_ascii_case(name, TOKEN);
    Row { line, token }
}

fn payload(line: &str) -> (r: Option<String>)
    ensures
        r.deep_view() == payload_of(line@),
{
    let l = trim(line);
    if let Some(rest) = strip_prefix(l.as_str(), "#HttpOnly_") {
        return Some(rest);
    }
    if l.as_str().is_empty() || begins(l.as_str(), "#") {
        None
    } else {
        Some(l)
    }
}

fn tail_of(v: &[String], from: usize) -> (r: Vec<String>)
    requires
        from <= v@.len(),
    ensures
        r.deep_view() == v.deep_view().skip(from as int),
{
    let ghost want = v.deep_view().skip(from as int);
    let mut out: Vec<String> = Vec::new();
    let mut i: usize = from;
    assert(out.deep_view() =~= want.take(0));
    while i < v.len()
        invariant
            from <= i <= v@.len(),
            want == v.deep_view().skip(from as int),
            want.len() == v@.len() - from,
            out.deep_view() == want.take(i - from),
        decreases v@.len() - i,
    {
        let ghost before = out.deep_view();
        assert(want[i - from] == v@[i as int]@);
        out.push(v[i].clone());
        assert(out.deep_view() =~= before.push(want[i - from]));
        assert(want.take(i + 1 - from) =~= want.take(i - from).push(want[i - from]));
        i += 1;
    }
    assert(want.take(i - from) =~= want);
    out
}

fn read_file_row(line: &str) -> (r: Option<Row>)
    ensures
        r.deep_view() == file_row(line@),
{
    match payload(line) {
        None => None,
        Some(l) => {
            let f = words(l.as_str());
            let ghost fv = f.deep_view();
            assert(fv == words_of(l@));
            assert(fv.len() == f@.len());
            if f.len() < 7 {
                return None;
            }
            assert forall|i: int| 0 <= i < f@.len() implies fv[i] == f@[i]@ by {}
            if !contains(f[0].as_str(), HOST) {
                return None;
            }
            let value = join(&tail_of(&f, 6), " ");
            proof {
                assert(fv.take(6).push(value@) =~= seq![fv[0], fv[1], fv[2], fv[3], fv[4], fv[5], value@]);
            }
            Some(
                make_row(
                    f[0].as_str(),
                    f[1].as_str(),
                    f[2].as_str(),
                    f[3].as_str(),
                    f[4].as_str(),
                    f[5].as_str(),
                    value.as_str(),
                ),
            )
        },
    }
}

fn is_solid(s: &str) -> (r: bool)
    ensures
        r == solid(s@),
{
    let c = chars_of(s);
    let mut i: usize = 0;
    while i < c.len()
        invariant
            i <= c@.len(),
            c@ == s@,
            forall|k: int| 0 <= k < i ==> !is_space(#[trigger] s@[k]),
        decreases c@.len() - i,
    {
        if c[i].is_whitespace() {
            assert(is_space(s@[i as int]));
            return false;
        }
        i += 1;
    }
    true
}

fn read_header_row(piece: &str) -> (r: Option<Row>)
    ensures
        r.deep_view() == header_row(piece@),
{
    let p = trim(piece);
    if p.as_str().is_empty() || begins(p.as_str(), "#") {
        return None;
    }
    let c = chars_of(p.as_str());
    let sep: [char; 1] = ['='];
    assert(sep@ =~= seq!['=']);
    let n: usize = c.len();
    let i = first_of_chars(&c, &sep, 0);
    if i >= n {
        return None;
    }
    assert(c@.subrange(0, i as int) =~= p@.take(i as int));
    assert(c@.subrange(i + 1, n as int) =~= p@.skip(i + 1));
    let name = trim(text_of(&c, 0, i).as_str());
    let value = trim(text_of(&c, i + 1, n).as_str());
    if name.as_str().is_empty() || value.as_str().is_empty() || !is_solid(name.as_str()) || !is_solid(value.as_str()) {
        return None;
    }
    Some(make_row(".apple.com", "TRUE", "/", "TRUE", "0", name.as_str(), value.as_str()))
}

fn read_rows(pieces: &[String], form: Form) -> (r: Vec<Row>)
    ensures
        r.deep_view() == rows_in(pieces.deep_view(), form),
{
    let ghost pv = pieces.deep_view();
    let mut out: Vec<Row> = Vec::new();
    let mut i: usize = 0;
    assert(out.deep_view() =~= rows_upto(pv, form, 0));
    while i < pieces.len()
        invariant
            i <= pieces@.len(),
            pv == pieces.deep_view(),
            out.deep_view() == rows_upto(pv, form, i as int),
        decreases pieces@.len() - i,
    {
        let ghost before = out.deep_view();
        assert(pv[i as int] == pieces@[i as int]@);
        let row = match form {
            Form::File => read_file_row(pieces[i].as_str()),
            Form::Header => read_header_row(pieces[i].as_str()),
        };
        if let Some(r) = row {
            let ghost rv = r.deep_view();
            out.push(r);
            assert(out.deep_view() =~= before.push(rv));
        }
        i += 1;
    }
    out
}

/// The cookies of a text, as a cookie file.
#[derive(Debug)]
pub struct Cleaned {
    pub text: String,
    pub count: usize,
    /// The cookie that a login is recognised by is among them.
    pub has_token: bool,
}

/// The cookies in a text that someone pasted, as a cookie file. It takes cookie files,
/// with tabs or blanks between the fields, and headers.
pub fn clean_netscape(raw: &str) -> (r: Cleaned)
    ensures
        r.text@ == file_text(rows_of(raw@)),
        r.count == rows_of(raw@).len(),
        r.has_token == has_token(rows_of(raw@)),
{
    let mut rows = read_rows(&lines(raw), Form::File);
    assert(rows.deep_view().len() == rows@.len());
    if rows.len() == 0 {
        let seps: [char; 3] = [';', '\n', '\r'];
        assert(seps@ =~= seq![';', '\n', '\r']);
        rows = read_rows(&split(raw, &seps), Form::Header);
    }
    let ghost rv = rows.deep_view();
    assert(rv.len() == rows@.len());
    let ghost want = seq![HEADER@] + rv.map_values(|r: RowV| r.line);
    let mut out: Vec<String> = Vec::new();
    out.push(HEADER.to_string());
    let mut token = false;
    let mut i: usize = 0;
    assert(out.deep_view() =~= want.take(1));
    while i < rows.len()
        invariant
            i <= rows@.len(),
            rv == rows.deep_view(),
            want == seq![HEADER@] + rv.map_values(|r: RowV| r.line),
            want.len() == rows@.len() + 1,
            out.deep_view() == want.take(i + 1),
            token == exists|k: int| 0 <= k < i && (#[trigger] rv[k]).token,
        decreases rows@.len() - i,
    {
        let ghost before = out.deep_view();
        assert(rv[i as int] == rows@[i as int].deep_view());
        if rows[i].token {
            token = true;
        }
        out.push(rows[i].line.clone());
        assert(out.deep_view() =~= before.push(want[i + 1]));
        assert(want.take(i + 2) =~= want.take(i + 1).push(want[i + 1]));
        i += 1;
    }
    assert(want.take(i + 1) =~= want);
    let mut text = String::new();
    append_lines(&mut text, &out);
    assert(text@ =~= unlines(want));
    Cleaned { text, count: rows.len(), has_token: token }
}

/// The fields of a cookie of the kept host: none but the value, which may be several words,
/// holds white space.
pub open spec fn fielded(f: Seq<Seq<char>>, ws: Seq<Seq<char>>) -> bool {
    &&& f.len() == 7
    &&& forall|k: int| 0 <= k < 6 ==> (#[trigger] f[k]).len() > 0 && solid(f[k])
    &&& ws.len() > 0
    &&& forall|k: int| 0 <= k < ws.len() ==> (#[trigger] ws[k]).len() > 0 && solid(ws[k])
    &&& f[6] == joined(ws, " "@)
    &&& contains_text(f[0], HOST@)
}

proof fn lemma_joined_ends(ws: Seq<Seq<char>>)
    requires
        ws.len() > 0,
        forall|k: int| 0 <= k < ws.len() ==> (#[trigger] ws[k]).len() > 0 && solid(ws[k]),
    ensures
        joined(ws, " "@).len() > 0,
        !is_space(joined(ws, " "@).last()),
        forall|i: int| 0 <= i < joined(ws, " "@).len() ==> #[trigger] joined(ws, " "@)[i] == ' ' || !is_space(
            joined(ws, " "@)[i],
        ),
    decreases ws.len(),
{
    reveal_strlit(" ");
    let l = ws.last();
    assert(l == ws[ws.len() - 1]);
    assert(!is_space(l[l.len() - 1]));
    if ws.len() > 1 {
        let d = ws.drop_last();
        assert forall|k: int| 0 <= k < d.len() implies (#[trigger] d[k]).len() > 0 && solid(d[k]) by {
            assert(d[k] == ws[k]);
        }
        lemma_joined_ends(d);
        let j = joined(ws, " "@);
        let h = joined(d, " "@);
        assert(j == h + " "@ + l);
        assert forall|i: int| 0 <= i < j.len() implies #[trigger] j[i] == ' ' || !is_space(j[i]) by {
            if i < h.len() {
                assert(j[i] == h[i]);
            } else if i > h.len() {
                assert(j[i] == l[i - h.len() - 1]);
            }
        }
    }
}

/// The words of the line of a cookie.
proof fn lemma_row_words(f: Seq<Seq<char>>, ws: Seq<Seq<char>>)
    requires
        fielded(f, ws),
    ensures
        words_of(row_of(f).line) == f.take(6) + ws,
{
    reveal_strlit("\t");
    let t = "\t"@;
    assert(t =~= seq!['\t']);
    assert(is_space('\t'));
    lemma_words_of_joined(ws);
    let r5 = f[5] + t + f[6];
    lemma_words_cons(f[5], '\t', f[6]);
    let r4 = f[4] + t + r5;
    lemma_words_cons(f[4], '\t', r5);
    let r3 = f[3] + t + r4;
    lemma_words_cons(f[3], '\t', r4);
    let r2 = f[2] + t + r3;
    lemma_words_cons(f[2], '\t', r3);
    let r1 = f[1] + t + r2;
    lemma_words_cons(f[1], '\t', r2);
    let r0 = f[0] + t + r1;
    lemma_words_cons(f[0], '\t', r1);
    assert(row_of(f).line =~= r0);
    assert(words_of(r0) =~= f.take(6) + ws);
}

/// What the line of a cookie is made of.
proof fn lemma_row_chars(f: Seq<Seq<char>>, ws: Seq<Seq<char>>)
    requires
        fielded(f, ws),
    ensures
        row_of(f).line.len() > 0,
        row_of(f).line[0] == f[0][0],
        !is_space(row_of(f).line.last()),
        forall|i: int| 0 <= i < row_of(f).line.len() ==> #[trigger] row_of(f).line[i] != '\n',
{
    reveal_strlit("\t");
    lemma_joined_ends(ws);
    let t = "\t"@;
    let a = f[0] + t + f[1] + t;
    let b = f[2] + t + f[3] + t;
    let c = f[4] + t + f[5] + t;
    let line = row_of(f).line;
    assert(line =~= a + b + c + f[6]);
    assert(is_space('\n'));
    assert forall|i: int| 0 <= i < a.len() implies #[trigger] a[i] != '\n' by {
        if i < f[0].len() {
            assert(a[i] == f[0][i]);
        } else if f[0].len() < i && i < a.len() - 1 {
            assert(a[i] == f[1][i - f[0].len() - 1]);
        }
    }
    assert forall|i: int| 0 <= i < b.len() implies #[trigger] b[i] != '\n' by {
        if i < f[2].len() {
            assert(b[i] == f[2][i]);
        } else if f[2].len() < i && i < b.len() - 1 {
            assert(b[i] == f[3][i - f[2].len() - 1]);
        }
    }
    assert forall|i: int| 0 <= i < c.len() implies #[trigger] c[i] != '\n' by {
        if i < f[4].len() {
            assert(c[i] == f[4][i]);
        } else if f[4].len() < i && i < c.len() - 1 {
            assert(c[i] == f[5][i - f[4].len() - 1]);
        }
    }
    assert forall|i: int| 0 <= i < line.len() implies #[trigger] line[i] != '\n' by {
        if i < a.len() {
            assert(line[i] == a[i]);
        } else if i < a.len() + b.len() {
            assert(line[i] == b[i - a.len()]);
        } else if i < a.len() + b.len() + c.len() {
            assert(line[i] == c[i - a.len() - b.len()]);
        } else {
            assert(line[i] == f[6][i - a.len() - b.len() - c.len()]);
        }
    }
    assert(line.last() == f[6].last());
    assert(line[0] == a[0] && a[0] == f[0][0]);
}

proof fn lemma_trimmed_whole(s: Seq<char>)
    requires
        s.len() > 0,
        !is_space(s[0]),
        !is_space(s.last()),
    ensures
        trimmed(s) == s,
{
    assert(skip_space(s, 0) == 0);
    assert(trim_front(s) =~= s);
    assert(trimmed_len(s, s.len() as int) == s.len());
    assert(trim_back(s) =~= s);
}

/// The line of a cookie stands in a file as it is.
proof fn lemma_row_clean(f: Seq<Seq<char>>, ws: Seq<Seq<char>>)
    requires
        fielded(f, ws),
    ensures
        clean_line(row_of(f).line),
{
    lemma_row_chars(f, ws);
    assert(is_space('\r'));
}

/// The line of a cookie has seven fields with tabs between them.
proof fn lemma_row_split(f: Seq<Seq<char>>, ws: Seq<Seq<char>>)
    requires
        fielded(f, ws),
    ensures
        split_on(row_of(f).line, seq!['\t']) == f,
{
    reveal_strlit("\t");
    let t = "\t"@;
    let tab = seq!['\t'];
    assert(t =~= tab);
    assert(tab.contains('\t')) by {
        assert(tab[0] == '\t');
    }
    assert(is_space('\t'));
    lemma_joined_ends(ws);
    assert forall|k: int, x: int| 0 <= k < 7 && 0 <= x < f[k].len() implies !tab.contains(#[trigger] f[k][x]) by {
        if k < 6 {
            assert(solid(f[k]));
            assert(!is_space(f[k][x]));
        }
    }
    lemma_split_one(f[6], tab);
    let r5 = f[5] + t + f[6];
    lemma_split_cons(f[5], '\t', f[6], tab);
    let r4 = f[4] + t + r5;
    lemma_split_cons(f[4], '\t', r5, tab);
    let r3 = f[3] + t + r4;
    lemma_split_cons(f[3], '\t', r4, tab);
    let r2 = f[2] + t + r3;
    lemma_split_cons(f[2], '\t', r3, tab);
    let r1 = f[1] + t + r2;
    lemma_split_cons(f[1], '\t', r2, tab);
    let r0 = f[0] + t + r1;
    lemma_split_cons(f[0], '\t', r1, tab);
    assert(row_of(f).line =~= r0);
    assert(split_on(r0, tab) =~= f);
}

proof fn lemma_row_reads(f: Seq<Seq<char>>, ws: Seq<Seq<char>>)
    requires
        fielded(f, ws),
        f[0][0] != '#',
    ensures
        file_row(row_of(f).line) == Some(row_of(f)),
{
    let line = row_of(f).line;
    lemma_row_words(f, ws);
    lemma_row_chars(f, ws);
    reveal_strlit("#HttpOnly_");
    reveal_strlit("#");
    assert(!is_space(f[0][0]));
    lemma_trimmed_whole(line);
    assert("#HttpOnly_"@[0] == '#');
    assert("#"@[0] == '#');
    assert(!starts_with(line, "#HttpOnly_"@)) by {
        if starts_with(line, "#HttpOnly_"@) {
            assert(line.subrange(0, "#HttpOnly_"@.len() as int)[0] == '#');
        }
    }
    assert(!starts_with(line, "#"@)) by {
        if starts_with(line, "#"@) {
            assert(line.subrange(0, "#"@.len() as int)[0] == '#');
        }
    }
    let w = f.take(6) + ws;
    assert(w.take(6) =~= f.take(6));
    assert(w.skip(6) =~= ws);
    assert(w.take(6).push(joined(ws, " "@)) =~= f);
    assert(w[0] == f[0]);
}

/// The fields and words that a row of either form is made of.
proof fn lemma_row_fields(piece: Seq<char>, form: Form) -> (fw: (Seq<Seq<char>>, Seq<Seq<char>>))
    requires
        row_in(piece, form) is Some,
    ensures
        fielded(fw.0, fw.1),
        row_in(piece, form) == Some(row_of(fw.0)),
{
    reveal_strlit("\t");
    reveal_strlit(" ");
    match form {
        Form::File => {
            let l = payload_of(piece)->0;
            let w = words_of(l);
            lemma_words_solid(l, 0);
            let f = w.take(6).push(joined(w.skip(6), " "@));
            let ws = w.skip(6);
            assert forall|k: int| 0 <= k < 6 implies (#[trigger] f[k]).len() > 0 && solid(f[k]) by {
                assert(f[k] == w[k]);
            }
            assert forall|k: int| 0 <= k < ws.len() implies (#[trigger] ws[k]).len() > 0 && solid(ws[k]) by {
                assert(ws[k] == w[k + 6]);
            }
            assert(f[0] == w[0]);
            (f, ws)
        },
        Form::Header => {
            let p = trimmed(piece);
            let i = first_of(p, seq!['='], 0);
            let name = trimmed(p.take(i));
            let value = trimmed(p.skip(i + 1));
            let f = seq![".apple.com"@, "TRUE"@, "/"@, "TRUE"@, "0"@, name, value];
            let ws = seq![value];
            reveal_strlit(".apple.com");
            reveal_strlit("apple.com");
            reveal_strlit("TRUE");
            reveal_strlit("/");
            reveal_strlit("0");
            assert(".apple.com"@.subrange(1, 10) =~= HOST@);
            assert(matches_at(".apple.com"@, HOST@, 1));
            (f, ws)
        },
    }
}

/// A line that has the fields of a cookie of the kept host.
pub open spec fn cookie_line(r: RowV) -> bool {
    let f = split_on(r.line, seq!['\t']);
    &&& f.len() == 7
    &&& contains_text(f[0], HOST@)
    &&& r.token == (ascii_lowered(f[5]) == ascii_lowered(TOKEN@))
}

proof fn lemma_rows_clean(pieces: Seq<Seq<char>>, form: Form, n: int)
    requires
        0 <= n <= pieces.len(),
    ensures
        forall|k: int|
            0 <= k < rows_upto(pieces, form, n).len() ==> {
                let r = #[trigger] rows_upto(pieces, form, n)[k];
                &&& clean_line(r.line)
                &&& cookie_line(r)
                &&& !starts_with(r.line, "#"@) ==> file_row(r.line) == Some(r)
            },
    decreases n,
{
    if n > 0 {
        let all = rows_upto(pieces, form, n);
        let rest = rows_upto(pieces, form, n - 1);
        lemma_rows_clean(pieces, form, n - 1);
        if let Some(r) = row_in(pieces[n - 1], form) {
            let fw = lemma_row_fields(pieces[n - 1], form);
            lemma_row_clean(fw.0, fw.1);
            lemma_row_split(fw.0, fw.1);
            lemma_row_chars(fw.0, fw.1);
            if !starts_with(r.line, "#"@) {
                reveal_strlit("#");
                assert(fw.0[0][0] != '#') by {
                    if r.line[0] == '#' {
                        assert(r.line.subrange(0, 1) =~= "#"@);
                    }
                }
                lemma_row_reads(fw.0, fw.1);
            }
            assert(all =~= rest.push(r));
        }
        assert forall|k: int| 0 <= k < all.len() implies {
            let r = #[trigger] all[k];
            &&& clean_line(r.line)
            &&& cookie_line(r)
            &&& !starts_with(r.line, "#"@) ==> file_row(r.line) == Some(r)
        } by {
            if k < rest.len() {
                assert(all[k] == rest[k]);
            }
        }
    }
}

proof fn lemma_rows_read_back(rows: Seq<RowV>, ls: Seq<Seq<char>>, n: int)
    requires
        ls.len() == rows.len() + 1,
        file_row(ls[0]) is None,
        forall|k: int| 0 <= k < rows.len() ==> #[trigger] file_row(ls[k + 1]) == Some(rows[k]),
        1 <= n <= ls.len(),
    ensures
        rows_upto(ls, Form::File, n) == rows.take(n - 1),
    decreases n,
{
    if n == 1 {
        assert(rows_upto(ls, Form::File, 0) =~= seq![]);
        assert(rows_upto(ls, Form::File, 1) =~= rows.take(0));
    } else {
        lemma_rows_read_back(rows, ls, n - 1);
        assert(file_row(ls[(n - 2) + 1]) == Some(rows[n - 2]));
        assert(rows.take(n - 1) =~= rows.take(n - 2).push(rows[n - 2]));
    }
}

proof fn lemma_header_line()
    ensures
        clean_line(HEADER@),
        file_row(HEADER@) is None,
{
    reveal_strlit("# Netscape HTTP Cookie File");
    reveal_strlit("#HttpOnly_");
    reveal_strlit("#");
    let h = HEADER@;
    lemma_trimmed_whole(h);
    assert(!starts_with(h, "#HttpOnly_"@)) by {
        if starts_with(h, "#HttpOnly_"@) {
            assert(h.subrange(0, 10)[1] == "#HttpOnly_"@[1]);
        }
    }
    assert(h.subrange(0, 1) =~= "#"@);
}

/// What every row of a text is.
proof fn lemma_rows_of(raw: Seq<char>)
    ensures
        forall|k: int|
            0 <= k < rows_of(raw).len() ==> {
                let r = #[trigger] rows_of(raw)[k];
                &&& clean_line(r.line)
                &&& cookie_line(r)
                &&& !starts_with(r.line, "#"@) ==> file_row(r.line) == Some(r)
            },
{
    let a = lines_of(raw);
    let b = split_on(raw, seq![';', '\n', '\r']);
    lemma_rows_clean(a, Form::File, a.len() as int);
    lemma_rows_clean(b, Form::Header, b.len() as int);
}

/// The lines of a cookie file are its header and its rows.
proof fn lemma_file_lines(rows: Seq<RowV>)
    requires
        forall|k: int| 0 <= k < rows.len() ==> clean_line((#[trigger] rows[k]).line),
    ensures
        lines_of(file_text(rows)) == seq![HEADER@] + rows.map_values(|r: RowV| r.line),
{
    let ls = seq![HEADER@] + rows.map_values(|r: RowV| r.line);
    lemma_header_line();
    assert forall|i: int| 0 <= i < ls.len() implies clean_line(#[trigger] ls[i]) by {
        if i > 0 {
            assert(ls[i] == rows[i - 1].line);
        }
    }
    lemma_lines_of_unlines(ls);
}

/// A cleaned text is the header and a line for each cookie: seven fields with tabs between
/// them, the first of which names the kept host. The cookie that a login is recognised by is
/// told by the sixth, whatever its case.
pub proof fn law_cleaned_shape(raw: Seq<char>, k: int)
    ensures
        lines_of(file_text(rows_of(raw))).len() == rows_of(raw).len() + 1,
        lines_of(file_text(rows_of(raw)))[0] == HEADER@,
        0 <= k < rows_of(raw).len() ==> lines_of(file_text(rows_of(raw)))[k + 1] == rows_of(raw)[k].line && cookie_line(
            rows_of(raw)[k],
        ),
{
    lemma_rows_of(raw);
    lemma_file_lines(rows_of(raw));
}

/// The file without a cookie gives none.
proof fn lemma_empty_file()
    ensures
        rows_of(file_text(seq![])) == Seq::<RowV>::empty(),
{
    let t = file_text(seq![]);
    let seps = seq![';', '\n', '\r'];
    let none = Seq::<RowV>::empty();
    lemma_header_line();
    lemma_file_lines(none);
    let ls = seq![HEADER@];
    assert(ls =~= seq![HEADER@] + none.map_values(|r: RowV| r.line));
    assert(rows_upto(ls, Form::File, 0) =~= none);
    assert(rows_upto(ls, Form::File, 1) =~= none);
    reveal_strlit("# Netscape HTTP Cookie File");
    reveal_strlit("#");
    let h = HEADER@;
    assert(ls.drop_last() =~= Seq::<Seq<char>>::empty());
    assert(t =~= h + seq!['\n'] + Seq::<char>::empty()) by {
        reveal_with_fuel(unlines, 2);
        assert(unlines(ls) =~= h + seq!['\n']);
    }
    assert(seps.contains('\n')) by {
        assert(seps[1] == '\n');
    }
    lemma_split_cons(h, '\n', seq![], seps);
    lemma_split_one(seq![], seps);
    let ps = split_on(t, seps);
    assert(ps =~= seq![h, Seq::<char>::empty()]);
    lemma_trimmed_whole(h);
    assert(h.subrange(0, 1) =~= "#"@);
    assert(header_row(h) is None);
    let e = Seq::<char>::empty();
    assert(trimmed(e).len() == 0);
    assert(header_row(e) is None);
    assert(rows_upto(ps, Form::Header, 0) =~= none);
    assert(rows_upto(ps, Form::Header, 1) =~= none);
    assert(rows_upto(ps, Form::Header, 2) =~= none);
}

/// Cleaning a cleaned text changes nothing: the cookies are read back as they are, and so is
/// the text. Only a line that has come to look like a comment is lost.
pub proof fn law_clean_again(raw: Seq<char>)
    requires
        forall|k: int| 0 <= k < rows_of(raw).len() ==> !starts_with((#[trigger] rows_of(raw)[k]).line, "#"@),
    ensures
        rows_of(file_text(rows_of(raw))) == rows_of(raw),
        file_text(rows_of(file_text(rows_of(raw)))) == file_text(rows_of(raw)),
        has_token(rows_of(file_text(rows_of(raw)))) == has_token(rows_of(raw)),
{
    let rows = rows_of(raw);
    if rows.len() == 0 {
        assert(rows =~= seq![]);
        lemma_empty_file();
    } else {
        let ls = seq![HEADER@] + rows.map_values(|r: RowV| r.line);
        lemma_rows_of(raw);
        lemma_file_lines(rows);
        lemma_header_line();
        assert(ls[0] == HEADER@);
        assert forall|k: int| 0 <= k < rows.len() implies #[trigger] file_row(ls[k + 1]) == Some(rows[k]) by {
            assert(ls[k + 1] == rows[k].line);
        }
        lemma_rows_read_back(rows, ls, ls.len() as int);
        assert(rows.take(ls.len() - 1) =~= rows);
    }
}

// ---- cookies of a browser --------------------------------------------------------------------

/// A cookie as a browser keeps it.
#[derive(Debug)]
pub struct Cookie {
    pub domain: String,
    pub path: String,
    pub secure: bool,
    pub expires: Option<u64>,
    pub name: String,
    pub value: String,
}

pub open spec fn yes_no(b: bool) -> Seq<char> {
    if b {
        "TRUE"@
    } else {
        "FALSE"@
    }
}

/// The fields of a cookie. One without an expiry ends with the session.
pub open spec fn fields_of(c: Cookie) -> Seq<Seq<char>> {
    seq![
        c.domain@,
        yes_no(starts_with(c.domain@, "."@)),
        c.path@,
        yes_no(c.secure),
        decimal(
            match c.expires {
                Some(e) => e as nat,
                None => 0,
            },
        ),
        c.name@,
        c.value@,
    ]
}

fn yes_no_text(b: bool) -> (r: &'static str)
    ensures
        r@ == yes_no(b),
{
    if b {
        "TRUE"
    } else {
        "FALSE"
    }
}

/// The cookie file with the cookies of a browser.
pub fn to_netscape(cookies: &[Cookie]) -> (r: String)
    ensures
        r@ == unlines(seq![HEADER@] + cookies@.map_values(|c: Cookie| row_of(fields_of(c)).line)),
{
    let ghost want = seq![HEADER@] + cookies@.map_values(|c: Cookie| row_of(fields_of(c)).line);
    let mut out: Vec<String> = Vec::new();
    out.push(HEADER.to_string());
    let mut i: usize = 0;
    assert(out.deep_view() =~= want.take(1));
    while i < cookies.len()
        invariant
            i <= cookies@.len(),
            want == seq![HEADER@] + cookies@.map_values(|c: Cookie| row_of(fields_of(c)).line),
            want.len() == cookies@.len() + 1,
            out.deep_view() == want.take(i + 1),
        decreases cookies@.len() - i,
    {
        let ghost before = out.deep_view();
        let c = &cookies[i];
        let expires: u64 = match c.expires {
            Some(e) => e,
            None => 0,
        };
        let row = make_row(
            c.domain.as_str(),
            yes_no_text(begins(c.domain.as_str(), ".")),
            c.path.as_str(),
            yes_no_text(c.secure),
            decimal_text(expires).as_str(),
            c.name.as_str(),
            c.value.as_str(),
        );
        out.push(row.line);
        assert(out.deep_view() =~= before.push(want[i + 1]));
        assert(want.take(i + 2) =~= want.take(i + 1).push(want[i + 1]));
        i += 1;
    }
    assert(want.take(i + 1) =~= want);
    let mut text = String::new();
    append_lines(&mut text, &out);
    assert(text@ =~= unlines(want));
    text
}

/// What one browser gave: its cookies, or nothing where it could not be read.
#[derive(Debug)]
pub struct Browser {
    pub name: String,
    pub cookies: Option<Vec<Cookie>>,
}

/// The first browser from `i` on that has a cookie.
pub open spec fn first_with(bs: Seq<Browser>, i: int) -> Option<int>
    decreases bs.len() - i,
{
    if i < 0 || i >= bs.len() {
        None
    } else if bs[i].cookies matches Some(c) && c@.len() > 0 {
        Some(i)
    } else {
        first_with(bs, i + 1)
    }
}

/// The first browser that has a cookie.
pub fn first_browser(browsers: &[Browser]) -> (r: Option<usize>)
    ensures
        match r {
            Some(k) => k < browsers@.len() && first_with(browsers@, 0) == Some(k as int),
            None => first_with(browsers@, 0) is None,
        },
{
    let mut i: usize = 0;
    while i < browsers.len()
        invariant
            i <= browsers@.len(),
            first_with(browsers@, 0) == first_with(browsers@, i as int),
        decreases browsers@.len() - i,
    {
        if let Some(c) = &browsers[i].cookies {
            if c.len() > 0 {
                return Some(i);
            }
        }
        i += 1;
    }
    None
}

// ---- expiry ----------------------------------------------------------------------------------

/// When the cookie on a line ends, where that is said: session cookies and lines that
/// are no cookies have no end.
pub open spec fn expiry_of(line: Seq<char>) -> Option<int> {
    let f = split_on(line, seq!['\t']);
    if starts_with(line, "#"@) || is_blank(line) || f.len() < 5 {
        None
    } else {
        match unsigned(f[4]) {
            Some(e) if 0 < e <= i64::MAX => Some(e as int),
            _ => None,
        }
    }
}

/// The latest end among the first `n` lines, or -1.
pub open spec fn latest(ls: Seq<Seq<char>>, n: int) -> int
    decreases n,
{
    if n <= 0 {
        -1
    } else {
        let rest = latest(ls, n - 1);
        match expiry_of(ls[n - 1]) {
            Some(e) if e > rest => e,
            _ => rest,
        }
    }
}

/// The cookies of a file have expired: the latest end is past. Where none is said nothing
/// is known, and they are taken to be good; a file that cannot be read is not.
pub open spec fn has_expired(text: Option<Seq<char>>, now: int) -> bool {
    match text {
        None => true,
        Some(t) => {
            let e = latest(lines_of(t), lines_of(t).len() as int);
            0 <= e < now
        },
    }
}

fn expiry(line: &str) -> (r: Option<i64>)
    ensures
        match r {
            Some(e) => expiry_of(line@) == Some(e as int),
            None => expiry_of(line@) is None,
        },
{
    let tab: [char; 1] = ['\t'];
    assert(tab@ =~= seq!['\t']);
    if begins(line, "#") || blank(line) {
        return None;
    }
    let f = split(line, &tab);
    let ghost fv = f.deep_view();
    assert(fv.len() == f@.len());
    if f.len() < 5 {
        return None;
    }
    assert(fv[4] == f@[4]@);
    match parse_unsigned(f[4].as_str()) {
        Some(e) => if 0 < e && e <= 0x7fff_ffff_ffff_ffff {
            Some(e as i64)
        } else {
            None
        },
        None => None,
    }
}

/// Whether the cookies of a file with this text have expired at `now`.
pub fn expired(text: Option<&str>, now: i64) -> (r: bool)
    ensures
        r == has_expired(text.deep_view(), now as int),
{
    match text {
        None => true,
        Some(t) => {
            let ls = lines(t);
            let ghost lv = ls.deep_view();
            let mut e: i64 = -1;
            let mut i: usize = 0;
            while i < ls.len()
                invariant
                    i <= ls@.len(),
                    lv == ls.deep_view(),
                    e == latest(lv, i as int),
                decreases ls@.len() - i,
            {
                assert(lv[i as int] == ls@[i as int]@);
                if let Some(x) = expiry(ls[i].as_str()) {
                    if x > e {
                        e = x;
                    }
                }
                i += 1;
            }
            0 <= e && e < now
        },
    }
}

// ---- where to look ---------------------------------------------------------------------------

/// How often a browser is asked.
pub const ATTEMPTS: u8 = 3;

/// Where cookies come from.
#[derive(Clone, Copy, PartialEq, Eq, Structural, Debug)]
pub enum Origin {
    /// Standard input.
    Piped,
    /// The file that was named.
    Named,
    /// The environment.
    Environment,
    /// The downloader's own file.
    Default,
    /// A browser.
    Browser,
    /// The terminal.
    Pasted,
}

/// What to do next. Each answer is a yes or a no.
#[derive(Clone, Copy, PartialEq, Eq, Structural, Debug)]
pub enum Ask {
    /// Does standard input hold cookies? They are read as pasted ones are.
    Piped,
    /// Is the named file there?
    Named,
    /// Does the environment hold cookies?
    Environment,
    /// Is the downloader's own file there, and has it not expired?
    Default,
    /// Has a browser cookies that have not expired?
    Browser(u8),
    /// Were cookies pasted?
    Paste(u8),
    /// Wait for a login, whatever the answer.
    Login(u8),
    /// Use the cookies of this origin.
    Use(Origin),
    /// The named file is not there.
    Missing,
    /// There are no cookies.
    GiveUp,
}

/// The name that stands for standard input.
pub const STDIN_NAME: &'static str = "-";

pub open spec fn first_ask(named: Option<Seq<char>>, refresh: bool) -> Ask {
    if refresh {
        Ask::Browser(0)
    } else {
        match named {
            Some(name) => if name == STDIN_NAME@ {
                Ask::Piped
            } else {
                Ask::Named
            },
            None => Ask::Environment,
        }
    }
}

/// Where to look first: a refresh goes to the browser at once, and the name of standard input
/// is no file.
pub fn resolve(named: Option<&str>, refresh: bool) -> (r: Ask)
    ensures
        r == first_ask(named.deep_view(), refresh),
{
    if refresh {
        return Ask::Browser(0);
    }
    match named {
        Some(name) => if same(name, STDIN_NAME) {
            Ask::Piped
        } else {
            Ask::Named
        },
        None => Ask::Environment,
    }
}

pub open spec fn after(ask: Ask, yes: bool) -> Ask {
    match ask {
        Ask::Piped => if yes {
            Ask::Use(Origin::Piped)
        } else {
            Ask::GiveUp
        },
        Ask::Named => if yes {
            Ask::Use(Origin::Named)
        } else {
            Ask::Missing
        },
        Ask::Environment => if yes {
            Ask::Use(Origin::Environment)
        } else {
            Ask::Default
        },
        Ask::Default => if yes {
            Ask::Use(Origin::Default)
        } else {
            Ask::Browser(0)
        },
        Ask::Browser(n) => if yes {
            Ask::Use(Origin::Browser)
        } else {
            Ask::Paste(n)
        },
        Ask::Paste(n) => if yes {
            Ask::Use(Origin::Pasted)
        } else if n + 1 < ATTEMPTS {
            Ask::Login(n)
        } else {
            Ask::GiveUp
        },
        Ask::Login(n) => Ask::Browser((n + 1) as u8),
        _ => ask,
    }
}

pub open spec fn sound(ask: Ask) -> bool {
    match ask {
        Ask::Browser(n) => n < ATTEMPTS,
        Ask::Paste(n) => n < ATTEMPTS,
        Ask::Login(n) => n + 1 < ATTEMPTS,
        _ => true,
    }
}

/// Where to look after an answer.
pub fn proceed(ask: Ask, yes: bool) -> (r: Ask)
    requires
        sound(ask),
    ensures
        r == after(ask, yes),
        sound(r),
{
    match ask {
        Ask::Piped => if yes {
            Ask::Use(Origin::Piped)
        } else {
            Ask::GiveUp
        },
        Ask::Named => if yes {
            Ask::Use(Origin::Named)
        } else {
            Ask::Missing
        },
        Ask::Environment => if yes {
            Ask::Use(Origin::Environment)
        } else {
            Ask::Default
        },
        Ask::Default => if yes {
            Ask::Use(Origin::Default)
        } else {
            Ask::Browser(0)
        },
        Ask::Browser(n) => if yes {
            Ask::Use(Origin::Browser)
        } else {
            Ask::Paste(n)
        },
        Ask::Paste(n) => if yes {
            Ask::Use(Origin::Pasted)
        } else if n + 1 < ATTEMPTS {
            Ask::Login(n)
        } else {
            Ask::GiveUp
        },
        Ask::Login(n) => Ask::Browser(n + 1),
        _ => ask,
    }
}

pub open spec fn settled(ask: Ask) -> bool {
    ask is Use || ask is Missing || ask is GiveUp
}

/// How many answers can still be asked for.
pub open spec fn answers_left(ask: Ask) -> int {
    match ask {
        Ask::Piped => 1,
        Ask::Named => 1,
        Ask::Environment => 10,
        Ask::Default => 9,
        Ask::Browser(n) => 8 - 3 * n,
        Ask::Paste(n) => 7 - 3 * n,
        Ask::Login(n) => 6 - 3 * n,
        _ => 0,
    }
}

/// Whether the search is over.
pub fn is_settled(ask: Ask) -> (r: bool)
    ensures
        r == settled(ask),
{
    match ask {
        Ask::Use(_) | Ask::Missing | Ask::GiveUp => true,
        _ => false,
    }
}

/// The search ends: every answer brings it nearer to its end, and it is over exactly
/// where none can be asked for any more.
pub proof fn law_search_ends(ask: Ask, yes: bool)
    requires
        sound(ask),
    ensures
        sound(after(ask, yes)),
        settled(ask) <==> answers_left(ask) == 0,
        settled(ask) ==> after(ask, yes) == ask,
        !settled(ask) ==> 0 <= answers_left(after(ask, yes)) < answers_left(ask),
{
}

/// Where the search is after these answers.
pub open spec fn after_all(ask: Ask, answers: Seq<bool>) -> Ask
    decreases answers.len(),
{
    if answers.len() == 0 {
        ask
    } else {
        after_all(after(ask, answers[0]), answers.skip(1))
    }
}

/// A file that was named is the only one that is used: nothing else is looked at unless a
/// refresh was asked for.
pub proof fn law_named_file_first(name: Seq<char>, answers: Seq<bool>)
    requires
        name != STDIN_NAME@,
        answers.len() > 0,
    ensures
        after_all(first_ask(Some(name), false), answers) == (if answers[0] {
            Ask::Use(Origin::Named)
        } else {
            Ask::Missing
        }),
{
    lemma_settled_stays(after(Ask::Named, answers[0]), answers.skip(1));
}

/// Cookies that are piped in are the only ones that are used, where standard input was named.
pub proof fn law_piped_first(answers: Seq<bool>)
    requires
        answers.len() > 0,
    ensures
        after_all(first_ask(Some(STDIN_NAME@), false), answers) == (if answers[0] {
            Ask::Use(Origin::Piped)
        } else {
            Ask::GiveUp
        }),
{
    lemma_settled_stays(after(Ask::Piped, answers[0]), answers.skip(1));
}

proof fn lemma_settled_stays(ask: Ask, answers: Seq<bool>)
    requires
        settled(ask),
    ensures
        after_all(ask, answers) == ask,
    decreases answers.len(),
{
    if answers.len() > 0 {
        lemma_settled_stays(ask, answers.skip(1));
    }
}

/// A refresh never takes cookies that were there before: whatever the answers are, it
/// uses a browser's or pasted ones, or none.
pub proof fn law_refresh(named: Option<Seq<char>>, answers: Seq<bool>)
    ensures
        after_all(first_ask(named, true), answers) matches Ask::Use(o) ==> o == Origin::Browser || o == Origin::Pasted,
{
    lemma_beyond_files(Ask::Browser(0), answers);
}

pub open spec fn beyond_files(ask: Ask) -> bool {
    match ask {
        Ask::Piped | Ask::Named | Ask::Environment | Ask::Default | Ask::Missing => false,
        Ask::Use(o) => o == Origin::Browser || o == Origin::Pasted,
        _ => true,
    }
}

proof fn lemma_beyond_files(ask: Ask, answers: Seq<bool>)
    requires
        beyond_files(ask),
    ensures
        beyond_files(after_all(ask, answers)),
    decreases answers.len(),
{
    if answers.len() > 0 {
        lemma_beyond_files(after(ask, answers[0]), answers.skip(1));
    }
}

/// Whether raw cookie text in the environment counts.
pub fn env_cookies(raw: Option<String>) -> (r: Option<String>)
    ensures
        r.deep_view() == (match raw {
            Some(s) if !is_blank(s@) => Some(s@),
            _ => None,
        }),
{
    match raw {
        Some(s) => if blank(s.as_str()) {
            None
        } else {
            Some(s)
        },
        None => None,
    }
}

/// Whether an answer to the offer to paste is a yes.
pub fn says_yes(answer: &str) -> (r: bool)
    ensures
        r == (ascii_lowered(answer@) == ascii_lowered("y"@)),
{
    same_ignoring_ascii_case(answer, "y")
}

// ---- what is said ----------------------------------------------------------------------------

#[derive(Clone, Copy, PartialEq, Eq, Structural, Debug)]
pub enum Level {
    Info,
    Good,
    Warn,
}

/// A line for the terminal.
#[derive(Debug)]
pub struct Note {
    pub level: Level,
    pub text: String,
}

#[verifier::ext_equal]
pub struct NoteV {
    pub level: Level,
    pub text: Seq<char>,
}

impl DeepView for Note {
    type V = NoteV;

    open spec fn deep_view(&self) -> NoteV {
        NoteV { level: self.level, text: self.text@ }
    }
}

fn say(out: &mut Vec<Note>, level: Level, text: String)
    ensures
        final(out).deep_view() == old(out).deep_view().push(NoteV { level, text: text@ }),
{
    let ghost before = out.deep_view();
    let ghost t = text@;
    out.push(Note { level, text });
    assert(out.deep_view() =~= before.push(NoteV { level, text: t }));
}

pub open spec fn note_if(b: bool, level: Level, text: Seq<char>) -> Seq<NoteV> {
    if b {
        seq![NoteV { level, text }]
    } else {
        seq![]
    }
}

/// What is said of pasted cookies that were stored at `path`.
pub open spec fn stored_notes(count: nat, has_token: bool, path: Seq<char>, expired: bool) -> Seq<NoteV> {
    if count == 0 {
        seq![NoteV { level: Level::Warn, text: "no apple.com cookie lines found in that input"@ }]
    } else {
        note_if(
            !has_token,
            Level::Warn,
            "pasted cookies have no 'media-user-token' — gamdl may not authenticate"@,
        ) + note_if(
            expired,
            Level::Warn,
            "pasted cookies look expired — you may need to log in again at https://music.apple.com"@,
        ) + seq![
            NoteV { level: Level::Good, text: "saved "@ + decimal(count) + " apple.com cookie(s) → "@ + path },
        ]
    }
}

/// What is said of pasted cookies. They are only stored where there are any.
pub fn store_notes(c: &Cleaned, path: &str, expired: bool) -> (r: Vec<Note>)
    ensures
        r.deep_view() == stored_notes(c.count as nat, c.has_token, path@, expired),
{
    let mut out: Vec<Note> = Vec::new();
    assert(out.deep_view() =~= seq![]);
    if c.count == 0 {
        say(&mut out, Level::Warn, "no apple.com cookie lines found in that input".to_string());
        assert(out.deep_view() =~= stored_notes(c.count as nat, c.has_token, path@, expired));
        return out;
    }
    if !c.has_token {
        say(
            &mut out,
            Level::Warn,
            "pasted cookies have no 'media-user-token' — gamdl may not authenticate".to_string(),
        );
    }
    if expired {
        say(
            &mut out,
            Level::Warn,
            "pasted cookies look expired — you may need to log in again at https://music.apple.com".to_string(),
        );
    }
    let n = decimal_text(c.count as u64);
    let mut line = cat3("saved ", n.as_str(), " apple.com cookie(s) → ");
    line.append(path);
    say(&mut out, Level::Good, line);
    assert(out.deep_view() =~= stored_notes(c.count as nat, c.has_token, path@, expired));
    out
}

// ---- the diagnosis ---------------------------------------------------------------------------

/// The downloader's own cookie file.
#[derive(Debug)]
pub struct OwnFile {
    pub path: String,
    pub expired: bool,
}

/// The cookies that a browser gave, and where they were cached.
#[derive(Debug)]
pub struct Extracted {
    pub browser: String,
    pub count: usize,
    pub path: String,
    pub expired: bool,
}

/// Which login cookies there are.
#[derive(Debug)]
pub struct Diagnosis {
    /// The environment holds cookie text.
    pub env_cookies_set: bool,
    /// Whether that text holds cookies of the host.
    pub env_cookies_usable: Option<bool>,
    /// The downloader's own file, where there is one.
    pub gamdl_cookies: Option<String>,
    /// Whether it is `valid` or `expired`.
    pub gamdl_state: Option<String>,
    pub browser: Option<String>,
    pub browser_cookie_count: Option<usize>,
    pub browser_cache_path: Option<String>,
    /// Whether the browser's cookies are `valid` or `expired`.
    pub browser_state: Option<String>,
    /// There are cookies that can be used.
    pub usable_cookies_available: bool,
}

pub open spec fn state_of(expired: bool) -> Seq<char> {
    if expired {
        "expired"@
    } else {
        "valid"@
    }
}

fn state_text(expired: bool) -> (r: String)
    ensures
        r@ == state_of(expired),
{
    if expired {
        "expired".to_string()
    } else {
        "valid".to_string()
    }
}

/// Which login cookies there are. `env` says whether cookie text in the environment, if
/// there is any, holds cookies of the host.
pub fn diagnose(env: Option<bool>, own: &Option<OwnFile>, found: &Option<Extracted>) -> (r: Diagnosis)
    ensures
        r.env_cookies_set == (env is Some),
        r.env_cookies_usable == env,
        r.gamdl_cookies.deep_view() == (match *own {
            Some(f) => Some(f.path@),
            None => None,
        }),
        r.gamdl_state.deep_view() == (match *own {
            Some(f) => Some(state_of(f.expired)),
            None => None,
        }),
        r.browser.deep_view() == (match *found {
            Some(x) => Some(x.browser@),
            None => None,
        }),
        r.browser_cookie_count == (match *found {
            Some(x) => Some(x.count),
            None => None,
        }),
        r.browser_cache_path.deep_view() == (match *found {
            Some(x) => Some(x.path@),
            None => None,
        }),
        r.browser_state.deep_view() == (match *found {
            Some(x) => Some(state_of(x.expired)),
            None => None,
        }),
        r.usable_cookies_available == (env == Some(true) || (own matches Some(f) && !f.expired) || (found matches Some(x)
            && !x.expired)),
{
    let (gamdl_cookies, gamdl_state, own_good) = match own {
        Some(f) => (Some(f.path.clone()), Some(state_text(f.expired)), !f.expired),
        None => (None, None, false),
    };
    let (browser, browser_cookie_count, browser_cache_path, browser_state, found_good) = match found {
        Some(x) => (
            Some(x.browser.clone()),
            Some(x.count),
            Some(x.path.clone()),
            Some(state_text(x.expired)),
            !x.expired,
        ),
        None => (None, None, None, None, false),
    };
    let env_good = match env {
        Some(b) => b,
        None => false,
    };
    Diagnosis {
        env_cookies_set: env.is_some(),
        env_cookies_usable: env,
        gamdl_cookies,
        gamdl_state,
        browser,
        browser_cookie_count,
        browser_cache_path,
        browser_state,
        usable_cookies_available: env_good || own_good || found_good,
    }
}

/// What is said of the downloader's own file.
pub open spec fn own_note(own: Option<OwnFile>) -> Seq<NoteV> {
    seq![
        NoteV {
            level: Level::Info,
            text: match own {
                Some(f) => "gamdl cookies: "@ + f.path@ + " ("@ + (if f.expired {
                    "looks EXPIRED"@
                } else {
                    "looks valid"@
                }) + ")"@,
                None => "gamdl cookies: none"@,
            },
        },
    ]
}

/// What is said of the browsers. `names` lists those that were asked.
pub open spec fn browser_notes(found: Option<Extracted>, names: Seq<char>) -> Seq<NoteV> {
    match found {
        Some(x) => seq![
            NoteV {
                level: Level::Good,
                text: "browser: "@ + decimal(x.count as nat) + " apple.com cookie(s) from "@ + x.browser@ + " → wrote "@
                    + x.path@,
            },
            if x.expired {
                NoteV {
                    level: Level::Warn,
                    text: "  …but they look EXPIRED — log in again at https://music.apple.com"@,
                }
            } else {
                NoteV { level: Level::Info, text: "  extracted cookies look valid"@ }
            },
        ],
        None => seq![
            NoteV { level: Level::Warn, text: "browser: no apple.com cookies found in "@ + names },
            NoteV { level: Level::Warn, text: "→ log in at https://music.apple.com in one of those browsers"@ },
            NoteV {
                level: Level::Info,
                text: "  on a headless server: pipe a cookies file with `--cookies -`,"@,
            },
            NoteV { level: Level::Info, text: "  or run `download` and paste it when prompted."@ },
        ],
    }
}

/// What is said of the downloader's own file and of the browsers.
pub fn diagnosis_notes(own: &Option<OwnFile>, found: &Option<Extracted>, names: &str) -> (r: Vec<Note>)
    ensures
        r.deep_view() == own_note(*own) + browser_notes(*found, names@),
{
    let mut out: Vec<Note> = Vec::new();
    assert(out.deep_view() =~= seq![]);
    let line = match own {
        Some(f) => cat5(
            "gamdl cookies: ",
            f.path.as_str(),
            " (",
            if f.expired {
                "looks EXPIRED"
            } else {
                "looks valid"
            },
            ")",
        ),
        None => "gamdl cookies: none".to_string(),
    };
    say(&mut out, Level::Info, line);
    assert(out.deep_view() =~= own_note(*own));
    match found {
        Some(x) => {
            let n = decimal_text(x.count as u64);
            let mut line = cat5("browser: ", n.as_str(), " apple.com cookie(s) from ", x.browser.as_str(), " → wrote ");
            line.append(x.path.as_str());
            say(&mut out, Level::Good, line);
            if x.expired {
                say(
                    &mut out,
                    Level::Warn,
                    "  …but they look EXPIRED — log in again at https://music.apple.com".to_string(),
                );
            } else {
                say(&mut out, Level::Info, "  extracted cookies look valid".to_string());
            }
        },
        None => {
            say(&mut out, Level::Warn, cat("browser: no apple.com cookies found in ", names));
            say(
                &mut out,
                Level::Warn,
                "→ log in at https://music.apple.com in one of those browsers".to_string(),
            );
            say(
                &mut out,
                Level::Info,
                "  on a headless server: pipe a cookies file with `--cookies -`,".to_string(),
            );
            say(&mut out, Level::Info, "  or run `download` and paste it when prompted.".to_string());
        },
    }
    assert(out.deep_view() =~= own_note(*own) + browser_notes(*found, names@));
    out
}

/// The cookies that are read are those that the pieces hold, in their order and with nothing in
/// between.
pub proof fn law_rows(pieces: Seq<Seq<char>>, form: Form)
    ensures
        rows_upto(pieces, form, pieces.len() as int) == pieces.map_values(|x: Seq<char>| match row_in(x, form) {
            Some(r) => seq![r],
            None => seq![],
        }).flatten(),
{
    lemma_rows(pieces, form, pieces.len() as int);
    assert(pieces.take(pieces.len() as int) =~= pieces);
}

proof fn lemma_rows(pieces: Seq<Seq<char>>, form: Form, n: int)
    requires
        0 <= n <= pieces.len(),
    ensures
        rows_upto(pieces, form, n) == pieces.take(n).map_values(|x: Seq<char>| match row_in(x, form) {
            Some(r) => seq![r],
            None => seq![],
        }).flatten(),
    decreases n,
{
    let all = pieces.take(n).map_values(|x: Seq<char>| match row_in(x, form) {
            Some(r) => seq![r],
            None => seq![],
        });
    if n > 0 {
        lemma_rows(pieces, form, n - 1);
        let before = pieces.take(n - 1).map_values(|x: Seq<char>| match row_in(x, form) {
            Some(r) => seq![r],
            None => seq![],
        });
        assert(all =~= before.push(all[n - 1]));
        assert(pieces.take(n)[n - 1] == pieces[n - 1]);
        lemma_flatten_push(before, all[n - 1]);
        assert(rows_upto(pieces, form, n) =~= before.flatten() + all[n - 1]);
    } else {
        assert(all =~= seq![]);
        assert(all.flatten() =~= seq![]);
    }
}

/// The browser that is taken has a cookie, and none before it has one; where none is taken, no
/// browser has one.
pub proof fn law_first_browser(bs: Seq<Browser>)
    ensures
        match first_with(bs, 0) {
            Some(k) => 0 <= k < bs.len() && (bs[k].cookies matches Some(c) && c@.len() > 0) && forall|j: int| 0 <= j < k ==> !((#[trigger] bs[j]).cookies matches Some(c) && c@.len() > 0),
            None => forall|j: int| 0 <= j < bs.len() ==> !((#[trigger] bs[j]).cookies matches Some(c) && c@.len() > 0),
        },
{
    lemma_first_browser(bs, 0);
}

proof fn lemma_first_browser(bs: Seq<Browser>, i: int)
    requires
        0 <= i,
    ensures
        match first_with(bs, i) {
            Some(k) => i <= k < bs.len() && (bs[k].cookies matches Some(c) && c@.len() > 0) && forall|j: int| i <= j < k ==> !((#[trigger] bs[j]).cookies matches Some(c) && c@.len() > 0),
            None => forall|j: int| i <= j < bs.len() ==> !((#[trigger] bs[j]).cookies matches Some(c) && c@.len() > 0),
        },
    decreases bs.len() - i,
{
    if i < bs.len() && !(bs[i].cookies matches Some(c) && c@.len() > 0) {
        lemma_first_browser(bs, i + 1);
    }
}

/// Where some line is a cookie of the host, the cookies are those of the lines and no pair of a
/// header is looked for; where none is, every cookie comes from a pair.
pub proof fn law_form(raw: Seq<char>)
    ensures
        (exists|i: int| 0 <= i < lines_of(raw).len() && file_row(#[trigger] lines_of(raw)[i]) is Some) ==> rows_of(raw)
            == lines_of(raw).map_values(
            |x: Seq<char>|
                match file_row(x) {
                    Some(r) => seq![r],
                    None => seq![],
                },
        ).flatten(),
        (forall|i: int| 0 <= i < lines_of(raw).len() ==> file_row(#[trigger] lines_of(raw)[i]) is None) ==> rows_of(raw)
            == split_on(raw, seq![';', '\n', '\r']).map_values(
            |x: Seq<char>|
                match header_row(x) {
                    Some(r) => seq![r],
                    None => seq![],
                },
        ).flatten(),
{
    let ls = lines_of(raw);
    let ps = split_on(raw, seq![';', '\n', '\r']);
    law_rows(ls, Form::File);
    law_rows(ps, Form::Header);
    lemma_any_row(ls, ls.len() as int);
    assert(ls.map_values(
        |x: Seq<char>|
            match row_in(x, Form::File) {
                Some(r) => seq![r],
                None => seq![],
            },
    ) =~= ls.map_values(
        |x: Seq<char>|
            match file_row(x) {
                Some(r) => seq![r],
                None => seq![],
            },
    ));
    assert(ps.map_values(
        |x: Seq<char>|
            match row_in(x, Form::Header) {
                Some(r) => seq![r],
                None => seq![],
            },
    ) =~= ps.map_values(
        |x: Seq<char>|
            match header_row(x) {
                Some(r) => seq![r],
                None => seq![],
            },
    ));
}

proof fn lemma_any_row(ls: Seq<Seq<char>>, n: int)
    requires
        0 <= n <= ls.len(),
    ensures
        rows_upto(ls, Form::File, n).len() > 0 <==> exists|i: int| 0 <= i < n && file_row(#[trigger] ls[i]) is Some,
    decreases n,
{
    if n > 0 {
        lemma_any_row(ls, n - 1);
        if file_row(ls[n - 1]) is None && exists|i: int| 0 <= i < n && file_row(#[trigger] ls[i]) is Some {
            let i = choose|i: int| 0 <= i < n && file_row(#[trigger] ls[i]) is Some;
            assert(i < n - 1);
        }
    }
}

/// Six words and a value, with any white space round and between them, are a cookie of the host
/// where the first word names it, marked as out of reach for scripts or not, and no cookie where
/// it does not. Every word keeps its place and the value its words.
pub proof fn law_file_line(a: Seq<char>, b: Seq<char>, l: Seq<char>, marked: bool)
    requires
        is_blank(a),
        is_blank(b),
        l.len() > 0,
        l[0] != '#',
        !is_space(l[0]),
        !is_space(l[l.len() - 1]),
    ensures
        ({
            let f = words_of(l);
            let line = a + (if marked {
                "#HttpOnly_"@ + l
            } else {
                l
            }) + b;
            &&& file_row(line) is Some <==> f.len() >= 7 && contains_text(f[0], HOST@)
            &&& file_row(line) is Some ==> {
                let r = file_row(line)->0;
                let g = split_on(r.line, seq!['\t']);
                &&& g.len() == 7
                &&& g.take(6) == f.take(6)
                &&& words_of(g[6]) == f.skip(6)
                &&& r.token <==> ascii_lowered(f[5]) == ascii_lowered("media-user-token"@)
            }
            &&& file_row(a + "#"@ + l + b) is Some ==> starts_with("#"@ + l, "#HttpOnly_"@)
        }),
{
    reveal_strlit("#HttpOnly_");
    reveal_strlit("#");
    let f = words_of(l);
    let m = if marked {
        "#HttpOnly_"@ + l
    } else {
        l
    };
    let line = a + m + b;
    assert(m[m.len() - 1] == l[l.len() - 1]);
    law_trimmed_only(a, m, b);
    law_trimmed_only(a, "#"@ + l, b);
    if marked {
        assert(m.subrange(10, m.len() as int) =~= l);
        assert(m.subrange(0, 10) =~= "#HttpOnly_"@);
        assert(starts_with(m, "#HttpOnly_"@));
    } else {
        assert(!starts_with(l, "#HttpOnly_"@)) by {
            if starts_with(l, "#HttpOnly_"@) {
                assert(l[0] == "#HttpOnly_"@[0]);
            }
        }
        assert(!starts_with(l, "#"@)) by {
            if starts_with(l, "#"@) {
                assert(l[0] == "#"@[0]);
            }
        }
    }
    assert(payload_of(line) == Some(l));
    if f.len() >= 7 && contains_text(f[0], HOST@) {
        let ws = f.skip(6);
        let g = f.take(6).push(joined(ws, " "@));
        lemma_words_solid(l, 0);
        assert forall|k: int| 0 <= k < 6 implies (#[trigger] g[k]).len() > 0 && solid(g[k]) by {
            assert(g[k] == f[k]);
        }
        assert forall|k: int| 0 <= k < ws.len() implies (#[trigger] ws[k]).len() > 0 && solid(ws[k]) by {
            assert(ws[k] == f[k + 6]);
        }
        assert(g[0] == f[0]);
        assert(fielded(g, ws));
        lemma_row_split(g, ws);
        lemma_words_of_joined(ws);
        assert(g.take(6) =~= f.take(6));
        assert(g[5] == f[5]);
    }
    let h = "#"@ + l;
    assert(a + "#"@ + l + b =~= a + h + b);
    if !starts_with(h, "#HttpOnly_"@) {
        assert(h.subrange(0, 1) =~= "#"@);
        assert(starts_with(h, "#"@));
    }
}

/// A pair of a header, with any white space round the name and the value, is a cookie of that name
/// and value for every host under the kept one, and ends with the session. A pair that lacks one
/// of them is none.
pub proof fn law_header_pair(a: Seq<char>, name: Seq<char>, b: Seq<char>, c: Seq<char>, value: Seq<char>, d: Seq<char>)
    requires
        is_blank(a),
        is_blank(b),
        is_blank(c),
        is_blank(d),
        solid(name),
        solid(value),
        forall|i: int| 0 <= i < name.len() ==> #[trigger] name[i] != '=',
        name.len() > 0 ==> name[0] != '#',
    ensures
        match header_row(a + name + b + seq!['='] + c + value + d) {
            Some(r) => name.len() > 0 && value.len() > 0 && split_on(r.line, seq!['\t']) == seq![
                ".apple.com"@,
                "TRUE"@,
                "/"@,
                "TRUE"@,
                "0"@,
                name,
                value,
            ] && (r.token <==> ascii_lowered(name) == ascii_lowered("media-user-token"@)),
            None => name.len() == 0 || value.len() == 0,
        },
{
    let s = a + name + b + seq!['='] + c + value + d;
    let p = trimmed(s);
    reveal_strlit("#");
    assert(!is_space('='));
    let x = if name.len() > 0 {
        name + b
    } else {
        seq![]
    };
    let y = if value.len() > 0 {
        c + value
    } else {
        seq![]
    };
    let l = if name.len() > 0 {
        a
    } else {
        a + b
    };
    let r = if value.len() > 0 {
        d
    } else {
        c + d
    };
    let t = x + seq!['='] + y;
    assert(s =~= l + t + r);
    assert(is_blank(a + b)) by {
        assert forall|i: int| 0 <= i < (a + b).len() implies is_space(#[trigger] (a + b)[i]) by {
            if i < a.len() {
                assert((a + b)[i] == a[i]);
            } else {
                assert((a + b)[i] == b[i - a.len()]);
            }
        }
    }
    assert(is_blank(c + d)) by {
        assert forall|i: int| 0 <= i < (c + d).len() implies is_space(#[trigger] (c + d)[i]) by {
            if i < c.len() {
                assert((c + d)[i] == c[i]);
            } else {
                assert((c + d)[i] == d[i - c.len()]);
            }
        }
    }
    if name.len() > 0 {
        assert(t[0] == name[0]);
    } else {
        assert(t[0] == '=');
    }
    if value.len() > 0 {
        assert(t[t.len() - 1] == value[value.len() - 1]);
    } else {
        assert(t[t.len() - 1] == '=');
    }
    law_trimmed_only(l, t, r);
    let eq = seq!['='];
    let i = first_of(p, eq, 0);
    lemma_first_of(p, eq, 0);
    assert(eq[0] == '=');
    assert(eq.contains('='));
    assert(p[x.len() as int] == '=');
    assert forall|k: int| 0 <= k < x.len() implies !eq.contains(#[trigger] p[k]) by {
        if k < name.len() {
            assert(p[k] == name[k]);
        } else {
            assert(p[k] == b[k - name.len()]);
        }
    }
    assert(i == x.len());
    assert(p.take(i) =~= x);
    assert(p.skip(i + 1) =~= y);
    assert(seq![] + name + b =~= name + b);
    assert(c + value + seq![] =~= c + value);
    assert(trimmed(x) == name) by {
        if name.len() > 0 {
            law_trimmed_only(seq![], name, b);
        } else {
            law_trimmed_only(seq![], name, seq![]);
            assert(seq![] + name + seq![] =~= x);
        }
    }
    assert(trimmed(y) == value) by {
        if value.len() > 0 {
            law_trimmed_only(c, value, seq![]);
        } else {
            law_trimmed_only(seq![], value, seq![]);
            assert(seq![] + value + seq![] =~= y);
        }
    }
    assert(!starts_with(p, "#"@)) by {
        if starts_with(p, "#"@) {
            assert(p[0] == "#"@[0]);
        }
    }
    if name.len() > 0 && value.len() > 0 {
        let f = seq![".apple.com"@, "TRUE"@, "/"@, "TRUE"@, "0"@, name, value];
        let ws = seq![value];
        reveal_strlit(".apple.com");
        reveal_strlit("apple.com");
        reveal_strlit("TRUE");
        reveal_strlit("/");
        reveal_strlit("0");
        assert(".apple.com"@.subrange(1, 10) =~= HOST@);
        assert(matches_at(".apple.com"@, HOST@, 1));
        assert(fielded(f, ws));
        lemma_row_split(f, ws);
    }
}

/// Cookies have expired exactly where an end is said and every end that is said is past; without
/// a text there are none that are good.
pub proof fn law_expired(t: Seq<char>, now: int)
    ensures
        has_expired(Some(t), now) <==> {
            &&& exists|i: int| 0 <= i < lines_of(t).len() && expiry_of(#[trigger] lines_of(t)[i]) is Some
            &&& forall|i: int| 0 <= i < lines_of(t).len() && expiry_of(#[trigger] lines_of(t)[i]) is Some ==> expiry_of(
                lines_of(t)[i],
            )->0 < now
        },
        has_expired(None, now),
{
    lemma_latest(lines_of(t), lines_of(t).len() as int);
}

proof fn lemma_latest(ls: Seq<Seq<char>>, n: int)
    requires
        0 <= n <= ls.len(),
    ensures
        latest(ls, n) == -1 ==> forall|i: int| 0 <= i < n ==> expiry_of(#[trigger] ls[i]) is None,
        latest(ls, n) != -1 ==> latest(ls, n) > 0 && exists|i: int| 0 <= i < n && expiry_of(#[trigger] ls[i]) == Some(
            latest(ls, n),
        ),
        forall|i: int| 0 <= i < n && expiry_of(#[trigger] ls[i]) is Some ==> expiry_of(ls[i])->0 <= latest(ls, n),
    decreases n,
{
    if n > 0 {
        lemma_latest(ls, n - 1);
        assert(expiry_of(ls[n - 1]) is Some || expiry_of(ls[n - 1]) is None);
    }
}

/// The end of a cookie is the number in its fifth field, where that is more than nought; a comment
/// has none, whatever it holds.
pub proof fn law_expiry(f: Seq<Seq<char>>, e: nat)
    requires
        f.len() >= 5,
        forall|k: int, i: int| 0 <= k < f.len() && 0 <= i < f[k].len() ==> #[trigger] f[k][i] != '\t',
        f[0].len() > 0,
        f[4] == decimal(e),
        e <= i64::MAX,
    ensures
        expiry_of(joined(f, seq!['\t'])) == (if e > 0 && f[0][0] != '#' {
            Some(e as int)
        } else {
            None
        }),
{
    let tab = seq!['\t'];
    let line = joined(f, tab);
    reveal_strlit("#");
    law_split_joined(f, '\t');
    law_decimal(e);
    lemma_joined_cons(f, tab);
    assert(line[0] == f[0][0]);
    assert(starts_with(line, "#"@) <==> f[0][0] == '#') by {
        if f[0][0] == '#' {
            assert(line.subrange(0, 1) =~= "#"@);
        }
        if starts_with(line, "#"@) {
            assert(line[0] == "#"@[0]);
        }
    }
    assert(!is_blank(line)) by {
        let at = lemma_joined_holds(f, tab, 4);
        assert(line.subrange(at, at + f[4].len())[0] == line[at]);
        assert(crate::text::ascii_digit(f[4][0]));
        assert(!is_space(line[at]));
    }
    assert(decimal(e)[0] != '+') by {
        assert(crate::text::ascii_digit(decimal(e)[0]));
    }
}

/// What is put together holds each of its parts.
proof fn lemma_joined_holds(f: Seq<Seq<char>>, sep: Seq<char>, k: int) -> (at: int)
    requires
        0 <= k < f.len(),
    ensures
        0 <= at && at + f[k].len() <= joined(f, sep).len(),
        joined(f, sep).subrange(at, at + f[k].len()) == f[k],
    decreases f.len(),
{
    let s = joined(f, sep);
    let d = f.drop_last();
    if k == f.len() - 1 {
        let at = s.len() - f[k].len();
        assert(s.subrange(at, at + f[k].len()) =~= f[k]);
        at
    } else {
        let at = lemma_joined_holds(d, sep, k);
        let h = joined(d, sep);
        assert(s.subrange(at, at + f[k].len()) =~= h.subrange(at, at + d[k].len()));
        at
    }
}

/// The line of a browser's cookie gives back what the cookie says: its seven fields, and its end
/// where it has one.
pub proof fn law_browser_cookie(c: Cookie)
    requires
        c.domain@.len() > 0,
        c.domain@[0] != '#',
        forall|i: int| 0 <= i < c.domain@.len() ==> #[trigger] c.domain@[i] != '\t',
        forall|i: int| 0 <= i < c.path@.len() ==> #[trigger] c.path@[i] != '\t',
        forall|i: int| 0 <= i < c.name@.len() ==> #[trigger] c.name@[i] != '\t',
        forall|i: int| 0 <= i < c.value@.len() ==> #[trigger] c.value@[i] != '\t',
    ensures
        ({
            let line = row_of(fields_of(c)).line;
            let f = split_on(line, seq!['\t']);
            &&& f.len() == 7
            &&& f[0] == c.domain@ && f[2] == c.path@ && f[5] == c.name@ && f[6] == c.value@
            &&& f[1] == (if c.domain@[0] == '.' {
                "TRUE"@
            } else {
                "FALSE"@
            })
            &&& f[3] == (if c.secure {
                "TRUE"@
            } else {
                "FALSE"@
            })
            &&& c.expires is None ==> expiry_of(line) is None
            &&& c.expires is Some && 0 < c.expires->0 <= i64::MAX ==> expiry_of(line) == Some(c.expires->0 as int)
        }),
{
    let f = fields_of(c);
    let tab = seq!['\t'];
    reveal_strlit("\t");
    reveal_strlit("TRUE");
    reveal_strlit("FALSE");
    reveal_strlit(".");
    assert("\t"@ =~= tab);
    let e: nat = match c.expires {
        Some(e) => e as nat,
        None => 0,
    };
    law_decimal(e);
    assert forall|k: int, i: int| 0 <= k < f.len() && 0 <= i < f[k].len() implies #[trigger] f[k][i] != '\t' by {
        if k == 4 {
            assert(crate::text::ascii_digit(f[4][i]));
        }
    }
    lemma_seven(f);
    law_split_joined(f, '\t');
    assert(starts_with(c.domain@, "."@) <==> c.domain@[0] == '.') by {
        if c.domain@[0] == '.' {
            assert(c.domain@.subrange(0, 1) =~= "."@);
        }
        if starts_with(c.domain@, "."@) {
            assert(c.domain@.subrange(0, 1)[0] == '.');
        }
    }
    if e <= i64::MAX {
        law_expiry(f, e);
    }
}

proof fn lemma_seven(f: Seq<Seq<char>>)
    requires
        f.len() == 7,
    ensures
        row_of(f).line == joined(f, "\t"@),
{
    reveal_with_fuel(joined, 8);
    let d1 = f.drop_last();
    let d2 = d1.drop_last();
    let d3 = d2.drop_last();
    let d4 = d3.drop_last();
    let d5 = d4.drop_last();
    let d6 = d5.drop_last();
    assert(joined(d6, "\t"@) == f[0]);
    assert(joined(f, "\t"@) =~= row_of(f).line);
}

/// Pasted cookies that hold none of the host are warned about and nothing else is said; else it is
/// said last how many were saved and where, and before that it is warned of a login that is missing
/// and of an end that is past, of each exactly where it is so.
pub proof fn law_stored_notes(count: nat, token: bool, path: Seq<char>, expired: bool)
    ensures
        ({
            let n = stored_notes(count, token, path, expired);
            &&& count == 0 ==> n.len() == 1 && n[0].level == Level::Warn
            &&& count > 0 ==> {
                &&& n.last() == (NoteV { level: Level::Good, text: "saved "@ + decimal(count) + " apple.com cookie(s) → "@ + path })
                &&& n.len() == 1 + (if token {
                    0int
                } else {
                    1
                }) + (if expired {
                    1int
                } else {
                    0
                })
                &&& !token ==> n[0].level == Level::Warn && n[0].text
                    == "pasted cookies have no 'media-user-token' — gamdl may not authenticate"@
                &&& expired ==> n[n.len() - 2].level == Level::Warn && n[n.len() - 2].text
                    == "pasted cookies look expired — you may need to log in again at https://music.apple.com"@
            }
        }),
{
}

} // verus!
