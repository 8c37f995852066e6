//! Which files of a tree a command works on. A command may be pointed at a file or at
//! a directory; either way the files with the right extensions are taken, in order.
use vstd::prelude::*;
use crate::path::{extension, extension_of, law_extension, law_name, path_key, path_order_key};
use crate::sort::{arrange, arranged, keys_ints, law_sorted, lemma_order_len, less, order_of, sort_order};
use crate::text::{ascii_lowered, same_ignoring_ascii_case};

verus! {

/// The extensions of the audio files that are recognised.
pub open spec fn audio_ext_list() -> Seq<Seq<char>> {
    seq![
        "opus"@,
        "m4a"@,
        "mp3"@,
        "flac"@,
        "ogg"@,
        "oga"@,
        "aac"@,
        "wav"@,
        "aiff"@,
        "aif"@,
        "wma"@,
        "m4b"@,
        "alac"@,
    ]
}

/// The extensions of the audio files that are recognised.
pub fn audio_exts() -> (r: Vec<&'static str>)
    ensures
        r.deep_view() == audio_ext_list(),
{
    let v: Vec<&'static str> = vec![
        "opus", "m4a", "mp3", "flac", "ogg", "oga", "aac", "wav", "aiff", "aif", "wma", "m4b", "alac",
    ];
    assert(v.deep_view() =~= audio_ext_list());
    v
}

/// The path's extension is one of `exts`, in whatever case.
pub open spec fn has_ext_of(p: Seq<char>, exts: Seq<Seq<char>>) -> bool {
    match extension_of(p) {
        Some(e) => exists|i: int| 0 <= i < exts.len() && ascii_lowered(#[trigger] exts[i]) == ascii_lowered(e),
        None => false,
    }
}

/// Whether the path's extension is one of `exts`, in whatever case.
pub fn has_ext(p: &str, exts: &[&str]) -> (r: bool)
    ensures
        r == has_ext_of(p@, exts.deep_view()),
{
    match extension(p) {
        None => false,
        Some(e) => {
            let mut i: usize = 0;
            while i < exts.len()
                invariant
                    i <= exts@.len(),
                    extension_of(p@) == Some(e@),
                    forall|j: int| 0 <= j < i ==> ascii_lowered(#[trigger] exts.deep_view()[j]) != ascii_lowered(e@),
                decreases exts@.len() - i,
            {
                if same_ignoring_ascii_case(exts[i], e.as_str()) {
                    assert(ascii_lowered(exts.deep_view()[i as int]) == ascii_lowered(e@));
                    return true;
                }
                i += 1;
            }
            false
        },
    }
}

/// Those of the first `n` files that have one of the extensions.
pub open spec fn kept(files: Seq<Seq<char>>, exts: Seq<Seq<char>>, n: int) -> Seq<Seq<char>>
    decreases n,
{
    if n <= 0 {
        seq![]
    } else if has_ext_of(files[n - 1], exts) {
        kept(files, exts, n - 1).push(files[n - 1])
    } else {
        kept(files, exts, n - 1)
    }
}

/// The paths in path order.
pub open spec fn sorted_paths(files: Seq<Seq<char>>) -> Seq<Seq<char>> {
    arranged(files, order_of(files.map_values(|p: Seq<char>| path_key(p))))
}

/// The files that have one of the extensions, in path order.
pub open spec fn listed(files: Seq<Seq<char>>, exts: Seq<Seq<char>>) -> Seq<Seq<char>> {
    sorted_paths(kept(files, exts, files.len() as int))
}

/// The paths in path order.
pub fn sort_paths(files: Vec<String>) -> (r: Vec<String>)
    ensures
        r.deep_view() == sorted_paths(files.deep_view()),
{
    let ghost fv = files.deep_view();
    let ghost want = fv.map_values(|p: Seq<char>| path_key(p));
    let mut keys: Vec<Vec<i128>> = Vec::new();
    let mut i: usize = 0;
    while i < files.len()
        invariant
            i <= files@.len(),
            fv == files.deep_view(),
            want == fv.map_values(|p: Seq<char>| path_key(p)),
            keys_ints(keys@) == want.take(i as int),
        decreases files@.len() - i,
    {
        let ghost before = keys_ints(keys@);
        keys.push(path_order_key(files[i].as_str()));
        proof {
            assert(keys_ints(keys@) =~= before.push(want[i as int]));
            assert(want.take(i + 1) =~= want.take(i as int).push(want[i as int]));
        }
        i += 1;
    }
    proof {
        assert(want.take(i as int) =~= want);
        assert(keys@.len() == keys_ints(keys@).len());
    }
    let o = sort_order(&keys);
    proof {
        lemma_order_len(want, crate::sort::place_ints(o@));
    }
    let r = arrange(files, &o);
    assert(r.deep_view() =~= sorted_paths(fv));
    r
}

/// The files that have one of `exts`, in path order. `found` is what was found: the
/// file itself where a command was pointed at one, else all files of the tree.
pub fn with_exts(found: &[String], exts: &[&str]) -> (r: Vec<String>)
    ensures
        r.deep_view() == listed(found.deep_view(), exts.deep_view()),
{
    let ghost fv = found.deep_view();
    let mut out: Vec<String> = Vec::new();
    let mut i: usize = 0;
    assert(out.deep_view() =~= kept(fv, exts.deep_view(), 0));
    while i < found.len()
        invariant
            i <= found@.len(),
            fv == found.deep_view(),
            out.deep_view() == kept(fv, exts.deep_view(), i as int),
        decreases found@.len() - i,
    {
        let ghost before = out.deep_view();
        if has_ext(found[i].as_str(), exts) {
            out.push(found[i].clone());
            assert(out.deep_view() =~= before.push(fv[i as int]));
        }
        i += 1;
    }
    sort_paths(out)
}

pub open spec fn track_ext_list() -> Seq<Seq<char>> {
    seq!["opus"@, "m4a"@, "mp3"@]
}

/// The extensions of the tracks whose lyrics are looked for, whose tags are edited, and that
/// are looked for in a source library.
pub fn track_exts() -> (r: Vec<&'static str>)
    ensures
        r.deep_view() == track_ext_list(),
{
    let v: Vec<&'static str> = vec!["opus", "m4a", "mp3"];
    assert(v.deep_view() =~= track_ext_list());
    v
}

/// All recognised audio files, in path order.
pub fn audio(found: &[String]) -> (r: Vec<String>)
    ensures
        r.deep_view() == listed(found.deep_view(), audio_ext_list()),
{
    with_exts(found, &audio_exts())
}

/// Of the files that were found those are kept that have one of the extensions, in whatever case,
/// and no other.
pub proof fn law_kept(files: Seq<Seq<char>>, exts: Seq<Seq<char>>)
    ensures
        kept(files, exts, files.len() as int) == files.filter(|x: Seq<char>| extension_of(x) matches Some(e) && exts.map_values(|t: Seq<char>| ascii_lowered(t)).contains(ascii_lowered(e))),
{
    lemma_kept(files, exts, files.len() as int);
    assert(files.take(files.len() as int) =~= files);
}

proof fn lemma_kept(files: Seq<Seq<char>>, exts: Seq<Seq<char>>, n: int)
    requires
        0 <= n <= files.len(),
    ensures
        kept(files, exts, n) == files.take(n).filter(|x: Seq<char>| extension_of(x) matches Some(e) && exts.map_values(|t: Seq<char>| ascii_lowered(t)).contains(ascii_lowered(e))),
    decreases n,
{
    reveal(Seq::filter);
    if n > 0 {
        lemma_kept(files, exts, n - 1);
        assert(files.take(n).drop_last() =~= files.take(n - 1));
        assert(files.take(n).last() == files[n - 1]);
        lemma_has_ext(files[n - 1], exts);
    }
}

proof fn lemma_has_ext(p: Seq<char>, exts: Seq<Seq<char>>)
    ensures
        has_ext_of(p, exts) <==> (extension_of(p) matches Some(e) && exts.map_values(
            |t: Seq<char>| ascii_lowered(t),
        ).contains(ascii_lowered(e))),
{
    if let Some(e) = extension_of(p) {
        let low = exts.map_values(|t: Seq<char>| ascii_lowered(t));
        if has_ext_of(p, exts) {
            let i = choose|i: int| 0 <= i < exts.len() && ascii_lowered(#[trigger] exts[i]) == ascii_lowered(e);
            assert(low[i] == ascii_lowered(e));
        }
        if low.contains(ascii_lowered(e)) {
            let i = choose|i: int| 0 <= i < low.len() && low[i] == ascii_lowered(e);
            assert(ascii_lowered(exts[i]) == ascii_lowered(e));
        }
    }
}

/// A listing is the files with the right extensions, each as often as it was found, in the order
/// of their paths.
pub proof fn law_listed(files: Seq<Seq<char>>, exts: Seq<Seq<char>>)
    ensures
        listed(files, exts).to_multiset() == files.filter(
            |x: Seq<char>|
                extension_of(x) matches Some(e) && exts.map_values(|t: Seq<char>| ascii_lowered(t)).contains(
                    ascii_lowered(e),
                ),
        ).to_multiset(),
        forall|i: int, j: int|
            0 <= i < j < listed(files, exts).len() ==> !less(
                path_key(#[trigger] listed(files, exts)[j]),
                path_key(#[trigger] listed(files, exts)[i]),
            ),
{
    law_kept(files, exts);
    let v = kept(files, exts, files.len() as int);
    let keys = v.map_values(|p: Seq<char>| path_key(p));
    law_sorted(v, keys);
    let o = order_of(keys);
    let r = listed(files, exts);
    assert forall|i: int, j: int| 0 <= i < j < r.len() implies !less(path_key(#[trigger] r[j]), path_key(#[trigger] r[i])) by {
        assert(!less(keys[o[j]], keys[o[i]]));
    }
}

/// A file has one of the extensions exactly where what follows its last dot is one of them, in
/// whatever case; a name without a dot behind its front has none.
pub proof fn law_has_ext(dir: Seq<char>, stem: Seq<char>, ext: Seq<char>, exts: Seq<Seq<char>>)
    requires
        stem.len() > 0,
        ext.len() > 0,
        forall|i: int| 0 <= i < stem.len() ==> #[trigger] stem[i] != '/',
        forall|i: int| 0 <= i < ext.len() ==> #[trigger] ext[i] != '.' && ext[i] != '/',
    ensures
        has_ext_of(dir + seq!['/'] + (stem + seq!['.'] + ext), exts) <==> exists|i: int|
            0 <= i < exts.len() && ascii_lowered(#[trigger] exts[i]) == ascii_lowered(ext),
        !has_ext_of(dir + seq!['/'] + ext, exts),
{
    let name = stem + seq!['.'] + ext;
    law_extension(stem, ext);
    assert(name.len() >= 3);
    assert(seq!['.'].len() == 1);
    assert(seq!['.', '.'].len() == 2);
    assert forall|i: int| 0 <= i < name.len() implies #[trigger] name[i] != '/' by {
        if i < stem.len() {
            assert(name[i] == stem[i]);
        } else if i > stem.len() {
            assert(name[i] == ext[i - stem.len() - 1]);
        }
    }
    law_name(dir, name);
    assert(ext[0] != '.');
    assert(ext != seq!['.']) by {
        assert(seq!['.'][0] == '.');
    }
    assert(ext != seq!['.', '.']) by {
        assert(seq!['.', '.'][0] == '.');
    }
    law_name(dir, ext);
}

} // verus!
