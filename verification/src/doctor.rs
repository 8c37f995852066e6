//! The health of a library: which files cannot be read, lack a cover or tags, were cut
//! short, do not decode, or never came to be.
use vstd::prelude::*;
use crate::json::{micros_of, parse_micros};
use crate::sort::{sort_texts, sorted_texts};
use crate::tags::{Basic, BasicV};
use crate::text::{lemma_flatten_push, trim, trimmed};

verus! {

/// How far apart the lengths of a file and of its source may be, in microseconds.
pub const DURATION_TOLERANCE: i64 = 1_500_000;

/// Something that is wrong with a file.
#[derive(Clone, Copy, PartialEq, Eq, Structural, Debug)]
pub enum Finding {
    Unreadable,
    MissingCover,
    MissingTags,
    Corrupt,
    Truncated,
}

/// A length in microseconds, from what the probe printed.
pub fn duration(printed: &str) -> (r: Option<i64>)
    ensures
        match r {
            Some(n) => micros_of(trimmed(printed@)) == Some(n as int),
            None => micros_of(trimmed(printed@)) is None,
        },
{
    parse_micros(trim(printed).as_str())
}

pub open spec fn apart(a: i64, b: i64) -> bool {
    a - b > DURATION_TOLERANCE || b - a > DURATION_TOLERANCE
}

/// What is wrong with a file. `length` is its length and `source_length` that of its
/// source, where they are known; `decodes` is the answer of a full decode, where one was
/// made.
pub open spec fn findings_of(
    length: Option<i64>,
    basic: BasicV,
    decodes: Option<bool>,
    source_length: Option<i64>,
) -> Seq<Finding> {
    (if length is None {
        seq![Finding::Unreadable]
    } else {
        seq![]
    }) + (if !basic.has_cover {
        seq![Finding::MissingCover]
    } else {
        seq![]
    }) + (if basic.title is None || basic.artist is None || basic.album is None {
        seq![Finding::MissingTags]
    } else {
        seq![]
    }) + (if length is Some && decodes == Some(false) {
        seq![Finding::Corrupt]
    } else {
        seq![]
    }) + (if length is Some && source_length is Some && apart(length->0, source_length->0) {
        seq![Finding::Truncated]
    } else {
        seq![]
    })
}

/// What is wrong with a file.
pub fn examine(length: Option<i64>, basic: &Basic, decodes: Option<bool>, source_length: Option<i64>) -> (r: Vec<Finding>)
    ensures
        r@ == findings_of(length, basic.deep_view(), decodes, source_length),
{
    let mut v: Vec<Finding> = Vec::new();
    if length.is_none() {
        v.push(Finding::Unreadable);
    }
    if !basic.has_cover {
        v.push(Finding::MissingCover);
    }
    if basic.title.is_none() || basic.artist.is_none() || basic.album.is_none() {
        v.push(Finding::MissingTags);
    }
    if let Some(l) = length {
        if let Some(d) = decodes {
            if !d {
                v.push(Finding::Corrupt);
            }
        }
        if let Some(s) = source_length {
            let diff: i128 = s as i128 - l as i128;
            if diff > DURATION_TOLERANCE as i128 || -diff > DURATION_TOLERANCE as i128 {
                v.push(Finding::Truncated);
            }
        }
    }
    assert(v@ =~= findings_of(length, basic.deep_view(), decodes, source_length));
    v
}

/// Whether a full decode was clean: it succeeded, and printed no error. Where no decoder
/// could be started nothing is known, and the file is not called corrupt.
pub fn decodes_cleanly(started: bool, success: bool, stderr: &[u8]) -> (r: bool)
    ensures
        r == (!started || (success && stderr@.len() == 0)),
{
    !started || (success && stderr.len() == 0)
}

/// The extensions that a source file can have, in the order in which they are looked for.
pub fn source_exts() -> (r: Vec<&'static str>)
    ensures
        r.deep_view() == seq!["m4a"@, "mp3"@, "flac"@],
{
    let v: Vec<&'static str> = vec!["m4a", "mp3", "flac"];
    assert(v.deep_view() =~= seq!["m4a"@, "mp3"@, "flac"@]);
    v
}

/// A file and what is wrong with it.
#[derive(Debug)]
pub struct Examined {
    pub name: String,
    pub findings: Vec<Finding>,
}

/// A source file, and whether it produced one.
#[derive(Debug)]
pub struct Source {
    pub name: String,
    pub has_opus: bool,
}

#[derive(Debug)]
pub struct Health {
    pub total: usize,
    pub unreadable: Vec<String>,
    pub missing_cover: Vec<String>,
    pub missing_tags: Vec<String>,
    pub truncated: Vec<String>,
    pub corrupt: Vec<String>,
    /// Source files that never produced one.
    pub source_without_opus: Vec<String>,
}

/// The names of those of the first `n` files of which `f` was found.
pub open spec fn names_with(es: Seq<Examined>, f: Finding, n: int) -> Seq<Seq<char>>
    decreases n,
{
    if n <= 0 {
        seq![]
    } else if es[n - 1].findings@.contains(f) {
        names_with(es, f, n - 1).push(es[n - 1].name@)
    } else {
        names_with(es, f, n - 1)
    }
}

fn has_finding(v: &[Finding], f: Finding) -> (r: bool)
    ensures
        r == v@.contains(f),
{
    let mut i: usize = 0;
    while i < v.len()
        invariant
            i <= v@.len(),
            forall|k: int| 0 <= k < i ==> v@[k] != f,
        decreases v@.len() - i,
    {
        if v[i] == f {
            return true;
        }
        i += 1;
    }
    false
}

fn collect(es: &[Examined], f: Finding) -> (r: Vec<String>)
    ensures
        r.deep_view() == sorted_texts(names_with(es@, f, es@.len() as int)),
{
    let mut out: Vec<String> = Vec::new();
    let mut i: usize = 0;
    assert(out.deep_view() =~= names_with(es@, f, 0));
    while i < es.len()
        invariant
            i <= es@.len(),
            out.deep_view() == names_with(es@, f, i as int),
        decreases es@.len() - i,
    {
        let ghost before = out.deep_view();
        if has_finding(es[i].findings.as_slice(), f) {
            out.push(es[i].name.clone());
            assert(out.deep_view() =~= before.push(es@[i as int].name@));
        }
        i += 1;
    }
    sort_texts(out)
}

/// The names of those of the first `n` source files that never produced one.
pub open spec fn lacking(ss: Seq<Source>, n: int) -> Seq<Seq<char>>
    decreases n,
{
    if n <= 0 {
        seq![]
    } else if ss[n - 1].has_opus {
        lacking(ss, n - 1)
    } else {
        lacking(ss, n - 1).push(ss[n - 1].name@)
    }
}

fn without_opus(ss: &[Source]) -> (r: Vec<String>)
    ensures
        r.deep_view() == sorted_texts(lacking(ss@, ss@.len() as int)),
{
    let mut out: Vec<String> = Vec::new();
    let mut i: usize = 0;
    assert(out.deep_view() =~= lacking(ss@, 0));
    while i < ss.len()
        invariant
            i <= ss@.len(),
            out.deep_view() == lacking(ss@, i as int),
        decreases ss@.len() - i,
    {
        let ghost before = out.deep_view();
        if !ss[i].has_opus {
            out.push(ss[i].name.clone());
            assert(out.deep_view() =~= before.push(ss@[i as int].name@));
        }
        i += 1;
    }
    sort_texts(out)
}

/// The health of a library with these files, held against these source files.
pub fn scan(examined: &[Examined], sources: &[Source]) -> (r: Health)
    ensures
        r.total == examined@.len(),
        r.unreadable.deep_view() == sorted_texts(names_with(examined@, Finding::Unreadable, examined@.len() as int)),
        r.missing_cover.deep_view() == sorted_texts(names_with(examined@, Finding::MissingCover, examined@.len() as int)),
        r.missing_tags.deep_view() == sorted_texts(names_with(examined@, Finding::MissingTags, examined@.len() as int)),
        r.truncated.deep_view() == sorted_texts(names_with(examined@, Finding::Truncated, examined@.len() as int)),
        r.corrupt.deep_view() == sorted_texts(names_with(examined@, Finding::Corrupt, examined@.len() as int)),
        r.source_without_opus.deep_view() == sorted_texts(lacking(sources@, sources@.len() as int)),
{
    Health {
        total: examined.len(),
        unreadable: collect(examined, Finding::Unreadable),
        missing_cover: collect(examined, Finding::MissingCover),
        missing_tags: collect(examined, Finding::MissingTags),
        truncated: collect(examined, Finding::Truncated),
        corrupt: collect(examined, Finding::Corrupt),
        source_without_opus: without_opus(sources),
    }
}

impl Health {
    /// Nothing is wrong.
    pub fn is_clean(&self) -> (r: bool)
        ensures
            r == (self.unreadable@.len() == 0 && self.missing_cover@.len() == 0 && self.missing_tags@.len() == 0
                && self.truncated@.len() == 0 && self.corrupt@.len() == 0 && self.source_without_opus@.len() == 0),
    {
        self.unreadable.len() == 0 && self.missing_cover.len() == 0 && self.missing_tags.len() == 0
            && self.truncated.len() == 0 && self.corrupt.len() == 0 && self.source_without_opus.len() == 0
    }
}

/// A file is found truncated exactly where its length and its source's are both known and
/// differ by more than the tolerance; and an unreadable file is never called truncated or
/// corrupt.
pub proof fn law_truncated(length: Option<i64>, basic: BasicV, decodes: Option<bool>, source_length: Option<i64>)
    ensures
        findings_of(length, basic, decodes, source_length).contains(Finding::Truncated) <==> (length is Some
            && source_length is Some && apart(length->0, source_length->0)),
        findings_of(length, basic, decodes, source_length).contains(Finding::Unreadable) <==> length is None,
        length is None ==> !findings_of(length, basic, decodes, source_length).contains(Finding::Corrupt),
{
    let fs = findings_of(length, basic, decodes, source_length);
    if length is Some && source_length is Some && apart(length->0, source_length->0) {
        assert(fs[fs.len() - 1] == Finding::Truncated);
    }
    if length is None {
        assert(fs[0] == Finding::Unreadable);
    }
}

/// What is found is exactly what is wrong: that no length could be read, that there is no cover,
/// that one of the three tags is missing, that a readable file does not decode, or that it is more
/// than a second and a half longer or shorter than its source; nothing is found twice.
pub proof fn law_findings(length: Option<i64>, basic: BasicV, decodes: Option<bool>, source_length: Option<i64>)
    ensures
        ({
            let fs = findings_of(length, basic, decodes, source_length);
            &&& fs.contains(Finding::Unreadable) <==> length is None
            &&& fs.contains(Finding::MissingCover) <==> !basic.has_cover
            &&& fs.contains(Finding::MissingTags) <==> !(basic.title is Some && basic.artist is Some && basic.album is Some)
            &&& fs.contains(Finding::Corrupt) <==> length is Some && decodes == Some(false)
            &&& fs.contains(Finding::Truncated) <==> (length matches Some(a) && source_length matches Some(b) && (a - b
                > 1_500_000 || b - a > 1_500_000))
            &&& fs.no_duplicates()
        }),
{
    let a = if length is None {
        seq![Finding::Unreadable]
    } else {
        seq![]
    };
    let b = if !basic.has_cover {
        seq![Finding::MissingCover]
    } else {
        seq![]
    };
    let c = if basic.title is None || basic.artist is None || basic.album is None {
        seq![Finding::MissingTags]
    } else {
        seq![]
    };
    let d = if length is Some && decodes == Some(false) {
        seq![Finding::Corrupt]
    } else {
        seq![]
    };
    let e = if length is Some && source_length is Some && apart(length->0, source_length->0) {
        seq![Finding::Truncated]
    } else {
        seq![]
    };
    let fs = findings_of(length, basic, decodes, source_length);
    let n1 = a.len() as int;
    let n2 = n1 + b.len();
    let n3 = n2 + c.len();
    let n4 = n3 + d.len();
    assert(fs =~= a + b + c + d + e);
    if a.len() > 0 {
        assert(fs[0] == Finding::Unreadable);
    }
    if b.len() > 0 {
        assert(fs[n1] == Finding::MissingCover);
    }
    if c.len() > 0 {
        assert(fs[n2] == Finding::MissingTags);
    }
    if d.len() > 0 {
        assert(fs[n3] == Finding::Corrupt);
    }
    if e.len() > 0 {
        assert(fs[n4] == Finding::Truncated);
    }
}

/// Each file of which something was found is listed under it by its name, and no other.
pub proof fn law_names_with(es: Seq<Examined>, f: Finding)
    ensures
        names_with(es, f, es.len() as int) == es.map_values(|x: Examined| if x.findings@.contains(f) {
                seq![x.name@]
            } else {
                seq![]
            }).flatten(),
{
    lemma_names_with(es, f, es.len() as int);
    assert(es.take(es.len() as int) =~= es);
}

proof fn lemma_names_with(es: Seq<Examined>, f: Finding, n: int)
    requires
        0 <= n <= es.len(),
    ensures
        names_with(es, f, n) == es.take(n).map_values(|x: Examined| if x.findings@.contains(f) {
                seq![x.name@]
            } else {
                seq![]
            }).flatten(),
    decreases n,
{
    let all = es.take(n).map_values(|x: Examined| if x.findings@.contains(f) {
                seq![x.name@]
            } else {
                seq![]
            });
    if n > 0 {
        lemma_names_with(es, f, n - 1);
        let before = es.take(n - 1).map_values(|x: Examined| if x.findings@.contains(f) {
                seq![x.name@]
            } else {
                seq![]
            });
        assert(all =~= before.push(all[n - 1]));
        assert(es.take(n)[n - 1] == es[n - 1]);
        lemma_flatten_push(before, all[n - 1]);
        assert(names_with(es, f, n) =~= before.flatten() + all[n - 1]);
    } else {
        assert(all =~= seq![]);
        assert(all.flatten() =~= seq![]);
    }
}

/// Each source file that produced nothing is listed by its name, and no other.
pub proof fn law_lacking(ss: Seq<Source>)
    ensures
        lacking(ss, ss.len() as int) == ss.map_values(|x: Source| if x.has_opus {
                seq![]
            } else {
                seq![x.name@]
            }).flatten(),
{
    lemma_lacking(ss, ss.len() as int);
    assert(ss.take(ss.len() as int) =~= ss);
}

proof fn lemma_lacking(ss: Seq<Source>, n: int)
    requires
        0 <= n <= ss.len(),
    ensures
        lacking(ss, n) == ss.take(n).map_values(|x: Source| if x.has_opus {
                seq![]
            } else {
                seq![x.name@]
            }).flatten(),
    decreases n,
{
    let all = ss.take(n).map_values(|x: Source| if x.has_opus {
                seq![]
            } else {
                seq![x.name@]
            });
    if n > 0 {
        lemma_lacking(ss, n - 1);
        let before = ss.take(n - 1).map_values(|x: Source| if x.has_opus {
                seq![]
            } else {
                seq![x.name@]
            });
        assert(all =~= before.push(all[n - 1]));
        assert(ss.take(n)[n - 1] == ss[n - 1]);
        lemma_flatten_push(before, all[n - 1]);
        assert(lacking(ss, n) =~= before.flatten() + all[n - 1]);
    } else {
        assert(all =~= seq![]);
        assert(all.flatten() =~= seq![]);
    }
}

} // verus!
