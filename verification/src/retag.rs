//! Tag edits over a file or a folder. The main one groups a compilation, whose tracks
//! scatter in a player unless they share an album artist and carry the flag.
use vstd::prelude::*;
use crate::tags::{Tag, TagV, VARIOUS_ARTISTS};

verus! {

/// What to set.
#[derive(Clone, Debug)]
pub struct Edit {
    /// Mark a compilation: sets the flag and, where none is given, the album artist.
    pub compilation: bool,
    pub album: Option<String>,
    pub album_artist: Option<String>,
    pub artist: Option<String>,
}

impl Default for Edit {
    fn default() -> (r: Edit)
        ensures
            !r.compilation,
            r.album is None,
            r.album_artist is None,
            r.artist is None,
    {
        Edit { compilation: false, album: None, album_artist: None, artist: None }
    }
}

impl Edit {
    pub open spec fn nothing(&self) -> bool {
        !self.compilation && self.album is None && self.album_artist is None && self.artist is None
    }

    /// Nothing is set.
    pub fn is_noop(&self) -> (r: bool)
        ensures
            r == self.nothing(),
    {
        !self.compilation && self.album.is_none() && self.album_artist.is_none() && self.artist.is_none()
    }
}

/// A tag after an edit.
pub open spec fn edited(t: TagV, e: Edit) -> TagV {
    TagV {
        album: if e.album is Some {
            e.album.deep_view()
        } else {
            t.album
        },
        artist: if e.artist is Some {
            e.artist.deep_view()
        } else {
            t.artist
        },
        album_artist: if e.album_artist is Some {
            e.album_artist.deep_view()
        } else if e.compilation {
            Some(VARIOUS_ARTISTS@)
        } else {
            t.album_artist
        },
        compilation: if e.compilation {
            Some("1"@)
        } else {
            t.compilation
        },
        ..t
    }
}

/// Applies an edit.
pub fn apply(tag: &mut Tag, edit: &Edit)
    ensures
        final(tag).deep_view() == edited(old(tag).deep_view(), *edit),
{
    if let Some(a) = &edit.album {
        tag.album = Some(a.clone());
    }
    if let Some(a) = &edit.artist {
        tag.artist = Some(a.clone());
    }
    if let Some(a) = &edit.album_artist {
        tag.album_artist = Some(a.clone());
    } else if edit.compilation {
        tag.album_artist = Some(VARIOUS_ARTISTS.to_string());
    }
    if edit.compilation {
        tag.compilation = Some("1".to_string());
    }
    assert(tag.deep_view() =~= edited(old(tag).deep_view(), *edit));
}

/// An edit made twice does what it does once.
pub proof fn law_idempotent(t: TagV, e: Edit)
    ensures
        edited(edited(t, e), e) == edited(t, e),
{
}

/// An edit that sets nothing changes nothing.
pub proof fn law_noop(t: TagV, e: Edit)
    requires
        e.nothing(),
    ensures
        edited(t, e) == t,
{
}

#[derive(Debug)]
pub struct Report {
    pub total: usize,
    pub changed: usize,
    pub failed: usize,
    pub dry_run: bool,
}

/// How many of the first `n` edits were saved.
pub open spec fn saved(r: Seq<bool>, n: int) -> nat
    decreases n,
{
    if n <= 0 {
        0
    } else if r[n - 1] {
        saved(r, n - 1) + 1
    } else {
        saved(r, n - 1)
    }
}

/// Whether there is anything to write: the edit sets something, and it is no dry run.
pub fn writes(edit: &Edit, dry_run: bool) -> (r: bool)
    ensures
        r == (!edit.nothing() && !dry_run),
{
    !edit.is_noop() && !dry_run
}

/// The report on an edit of `total` files. `results` holds, file by file, whether the
/// edit was saved; only a run that writes has any.
pub fn summarize(total: usize, edit: &Edit, dry_run: bool, results: &[bool]) -> (r: Report)
    ensures
        r.total == total,
        r.dry_run == dry_run,
        edit.nothing() ==> r.changed == 0 && r.failed == 0,
        !edit.nothing() && dry_run ==> r.changed == total && r.failed == 0,
        !edit.nothing() && !dry_run ==> r.changed == saved(results@, results@.len() as int) && r.changed + r.failed
            == results@.len(),
{
    if edit.is_noop() {
        return Report { total, changed: 0, failed: 0, dry_run };
    }
    if dry_run {
        return Report { total, changed: total, failed: 0, dry_run };
    }
    let mut changed: usize = 0;
    let mut i: usize = 0;
    while i < results.len()
        invariant
            i <= results@.len(),
            changed <= i,
            changed == saved(results@, i as int),
        decreases results@.len() - i,
    {
        if results[i] {
            changed += 1;
        }
        i += 1;
    }
    Report { total, changed, failed: results.len() - changed, dry_run }
}

/// An edit sets what it names to what it says, and nothing else: a compilation gets its flag, and
/// the artists of one as its album artist unless another is named.
pub proof fn law_edited(t: TagV, e: Edit)
    ensures
        ({
            let r = edited(t, e);
            &&& r.album == (match e.album {
                Some(a) => Some(a@),
                None => t.album,
            })
            &&& r.artist == (match e.artist {
                Some(a) => Some(a@),
                None => t.artist,
            })
            &&& e.album_artist matches Some(a) ==> r.album_artist == Some(a@)
            &&& e.album_artist is None && e.compilation ==> r.album_artist == Some("Various Artists"@)
            &&& e.album_artist is None && !e.compilation ==> r.album_artist == t.album_artist
            &&& e.compilation ==> r.compilation == Some("1"@)
            &&& !e.compilation ==> r.compilation == t.compilation
            &&& r.title == t.title && r.lyrics == t.lyrics && r.custom == t.custom && r.pictures == t.pictures
        }),
{
}

/// The saved ones are the edits that succeeded.
pub proof fn law_saved(r: Seq<bool>)
    ensures
        saved(r, r.len() as int) == r.filter(|x: bool| x).len(),
{
    lemma_saved(r, r.len() as int);
    assert(r.take(r.len() as int) =~= r);
}

proof fn lemma_saved(r: Seq<bool>, n: int)
    requires
        0 <= n <= r.len(),
    ensures
        saved(r, n) == r.take(n).filter(|x: bool| x).len(),
    decreases n,
{
    reveal(Seq::filter);
    if n > 0 {
        lemma_saved(r, n - 1);
        assert(r.take(n).drop_last() =~= r.take(n - 1));
        assert(r.take(n).last() == r[n - 1]);
    }
}

} // verus!
