//! The undo journal: for every change that a run makes, what takes it back.
//!
//! A file that was created is recorded with the digest of its content, and undoing deletes
//! it. A file that was changed is recorded with what it was before, and undoing puts that
//! back. A file whose content is no longer what the run left is never touched.
use vstd::prelude::*;
use vstd::utf8::encode_utf8;
use crate::sort::{arrange, arranged, key_ints, keys_ints, lemma_order_len, order_of, place_ints, sort_order};
use crate::tags::{
    cover_from, custom_from, law_custom, read_cover, set_custom, with_custom, Picture, PictureV, Tag, TagV, FRONT_COVER,
    INSTRUMENTAL_KEY,
};
use crate::text::{
    cat, cat3, cat5, chars_of, contains, decimal, decimal_text, holds, join, joined, law_decimal, law_split_apart,
    lemma_flatten_push, lemma_split_cons, lemma_split_one, same, split, split_on, text_of,
};

verus! {

/// How many runs are kept.
pub const KEEP_RUNS: usize = 25;

// ---- digests ---------------------------------------------------------------------------------

/// What [`hash_bytes`] returns.
pub uninterp spec fn digest(data: Seq<u8>) -> Seq<char>;

/// `blake3::hash` and `Hash::to_hex`: the digest of the bytes, a function of them alone,
/// in 64 hexadecimal digits.
#[verifier::external_body]
pub(crate) fn hash_bytes(data: &[u8]) -> (r: String)
    ensures
        r@ == digest(data@),
        r@.len() == 64,
{
    blake3::hash(data).to_hex().to_string()
}

// ---- snapshots -------------------------------------------------------------------------------

/// What a tag was before it was changed.
#[derive(Debug)]
pub struct Snapshot {
    pub title: Option<String>,
    pub artist: Option<String>,
    pub album: Option<String>,
    pub album_artist: Option<String>,
    pub compilation: Option<String>,
    pub lyrics: Option<String>,
    pub instrumental: Option<String>,
    /// The digest of the cover, under which its bytes are kept.
    pub picture: Option<String>,
    pub picture_mime: Option<String>,
}

#[verifier::ext_equal]
pub struct SnapshotV {
    pub title: Option<Seq<char>>,
    pub artist: Option<Seq<char>>,
    pub album: Option<Seq<char>>,
    pub album_artist: Option<Seq<char>>,
    pub compilation: Option<Seq<char>>,
    pub lyrics: Option<Seq<char>>,
    pub instrumental: Option<Seq<char>>,
    pub picture: Option<Seq<char>>,
    pub picture_mime: Option<Seq<char>>,
}

impl DeepView for Snapshot {
    type V = SnapshotV;

    open spec fn deep_view(&self) -> SnapshotV {
        SnapshotV {
            title: self.title.deep_view(),
            artist: self.artist.deep_view(),
            album: self.album.deep_view(),
            album_artist: self.album_artist.deep_view(),
            compilation: self.compilation.deep_view(),
            lyrics: self.lyrics.deep_view(),
            instrumental: self.instrumental.deep_view(),
            picture: self.picture.deep_view(),
            picture_mime: self.picture_mime.deep_view(),
        }
    }
}

/// The picture of a tag that counts as its cover.
pub open spec fn cover_of(t: TagV) -> Option<PictureV> {
    match cover_from(t.pictures, 0) {
        Some(k) => Some(t.pictures[k]),
        None => None,
    }
}

pub open spec fn snapshot_of(t: TagV) -> SnapshotV {
    SnapshotV {
        title: t.title,
        artist: t.artist,
        album: t.album,
        album_artist: t.album_artist,
        compilation: t.compilation,
        lyrics: t.lyrics,
        instrumental: custom_from(t.custom, INSTRUMENTAL_KEY@, 0),
        picture: match cover_of(t) {
            Some(p) => Some(digest(p.data)),
            None => None,
        },
        picture_mime: match cover_of(t) {
            Some(p) => p.mime,
            None => None,
        },
    }
}

/// What a tag is. The bytes of its cover are to be kept under the digest that it names.
pub fn snapshot(tag: &Tag) -> (r: Snapshot)
    ensures
        r.deep_view() == snapshot_of(tag.deep_view()),
{
    let (picture, picture_mime) = match read_cover(tag) {
        Some(k) => {
            assert(tag.deep_view().pictures[k as int] == tag.pictures@[k as int].deep_view());
            (Some(hash_bytes(tag.pictures[k].data.as_slice())), tag.pictures[k].mime.clone())
        },
        None => (None, None),
    };
    let instrumental = match crate::tags::custom_value(&tag.custom, INSTRUMENTAL_KEY) {
        Some(v) => Some(v.clone()),
        None => None,
    };
    Snapshot {
        title: tag.title.clone(),
        artist: tag.artist.clone(),
        album: tag.album.clone(),
        album_artist: tag.album_artist.clone(),
        compilation: tag.compilation.clone(),
        lyrics: tag.lyrics.clone(),
        instrumental,
        picture,
        picture_mime,
    }
}

/// A tag after a snapshot was put back. `cover` holds the bytes that were kept.
pub open spec fn restored(t: TagV, s: SnapshotV, cover: Option<Seq<u8>>) -> TagV {
    TagV {
        title: s.title,
        artist: s.artist,
        album: s.album,
        album_artist: s.album_artist,
        compilation: s.compilation,
        lyrics: s.lyrics,
        custom: with_custom(t.custom, INSTRUMENTAL_KEY@, s.instrumental),
        pictures: match cover {
            Some(data) => seq![PictureV { kind: FRONT_COVER, mime: s.picture_mime, description: None, data }],
            None => seq![],
        },
    }
}

/// Puts a snapshot back. `cover` holds the bytes that were kept under the digest that the
/// snapshot names, where it names one.
pub fn restore(tag: &mut Tag, snap: &Snapshot, cover: Option<Vec<u8>>)
    ensures
        final(tag).deep_view() == restored(old(tag).deep_view(), snap.deep_view(), cover.deep_view()),
{
    let ghost want = restored(tag.deep_view(), snap.deep_view(), cover.deep_view());
    tag.title = snap.title.clone();
    tag.artist = snap.artist.clone();
    tag.album = snap.album.clone();
    tag.album_artist = snap.album_artist.clone();
    tag.compilation = snap.compilation.clone();
    tag.lyrics = snap.lyrics.clone();
    match &snap.instrumental {
        Some(v) => set_custom(&mut tag.custom, INSTRUMENTAL_KEY, Some(v.as_str())),
        None => set_custom(&mut tag.custom, INSTRUMENTAL_KEY, None),
    }
    let mut pictures: Vec<Picture> = Vec::new();
    assert(pictures.deep_view() =~= seq![]);
    if let Some(data) = cover {
        let ghost d = data@;
        assert(cover.deep_view() == Some(d)) by {
            assert(data.deep_view() =~= d);
        }
        pictures.push(Picture { kind: FRONT_COVER, mime: snap.picture_mime.clone(), description: None, data });
        assert(pictures.deep_view() =~= seq![
            PictureV { kind: FRONT_COVER, mime: snap.deep_view().picture_mime, description: None, data: d },
        ]);
    }
    tag.pictures = pictures;
    assert(tag.deep_view() =~= want);
}

/// Undoing puts a tag back: whatever was made of it since, the fields, the mark and the image
/// of the cover are again what they were, and nothing else is touched.
pub proof fn law_restore(before: TagV, now: TagV)
    ensures
        ({
            let cover = match cover_of(before) {
                Some(p) => Some(p.data),
                None => None,
            };
            let r = restored(now, snapshot_of(before), cover);
            &&& r.title == before.title
            &&& r.artist == before.artist
            &&& r.album == before.album
            &&& r.album_artist == before.album_artist
            &&& r.compilation == before.compilation
            &&& r.lyrics == before.lyrics
            &&& custom_from(r.custom, INSTRUMENTAL_KEY@, 0) == custom_from(before.custom, INSTRUMENTAL_KEY@, 0)
            &&& crate::tags::is_marked(r) == crate::tags::is_marked(before)
            &&& match cover_of(before) {
                Some(p) => cover_of(r) == Some(PictureV { kind: FRONT_COVER, description: None, ..p }),
                None => cover_of(r) is None,
            }
        }),
{
    let cover = match cover_of(before) {
        Some(p) => Some(p.data),
        None => None,
    };
    let r = restored(now, snapshot_of(before), cover);
    law_custom(now.custom, INSTRUMENTAL_KEY@, custom_from(before.custom, INSTRUMENTAL_KEY@, 0));
    if cover is Some {
        assert(r.pictures[0].kind == FRONT_COVER);
        assert(cover_from(r.pictures, 0) == Some(0int));
    } else {
        assert(cover_from(r.pictures, 0) is None);
    }
}

// ---- recording -------------------------------------------------------------------------------

/// What takes one change back.
#[derive(Debug)]
pub enum Entry {
    /// The file was created: delete it, if it still has this digest.
    Create { path: String, hash: String },
    /// The tags were edited: put them back, if the file still has the digest `after`.
    Restore { path: String, before: Snapshot, after: String },
    /// The content was replaced: write the bytes that are kept under `before`, if the file
    /// still has the digest `after`.
    RestoreBytes { path: String, before: String, after: String },
    /// The file was deleted: write the bytes that are kept under `before`, if there is
    /// still none.
    Delete { path: String, before: String },
}

#[verifier::ext_equal]
pub enum EntryV {
    Create { path: Seq<char>, hash: Seq<char> },
    Restore { path: Seq<char>, before: SnapshotV, after: Seq<char> },
    RestoreBytes { path: Seq<char>, before: Seq<char>, after: Seq<char> },
    Delete { path: Seq<char>, before: Seq<char> },
}

impl DeepView for Entry {
    type V = EntryV;

    open spec fn deep_view(&self) -> EntryV {
        match self {
            Entry::Create { path, hash } => EntryV::Create { path: path@, hash: hash@ },
            Entry::Restore { path, before, after } => EntryV::Restore {
                path: path@,
                before: before.deep_view(),
                after: after@,
            },
            Entry::RestoreBytes { path, before, after } => EntryV::RestoreBytes {
                path: path@,
                before: before@,
                after: after@,
            },
            Entry::Delete { path, before } => EntryV::Delete { path: path@, before: before@ },
        }
    }
}

impl EntryV {
    /// The file that it is about.
    pub open spec fn file(self) -> Seq<char> {
        match self {
            EntryV::Create { path, .. } => path,
            EntryV::Restore { path, .. } => path,
            EntryV::RestoreBytes { path, .. } => path,
            EntryV::Delete { path, .. } => path,
        }
    }

    /// The digest of what the run left, where it left something.
    pub open spec fn left(self) -> Option<Seq<char>> {
        match self {
            EntryV::Create { hash, .. } => Some(hash),
            EntryV::Restore { after, .. } => Some(after),
            EntryV::RestoreBytes { after, .. } => Some(after),
            EntryV::Delete { .. } => None,
        }
    }

    /// The same with another digest of what the run left.
    pub open spec fn leaving(self, d: Seq<char>) -> EntryV {
        match self {
            EntryV::Create { path, .. } => EntryV::Create { path, hash: d },
            EntryV::Restore { path, before, .. } => EntryV::Restore { path, before, after: d },
            EntryV::RestoreBytes { path, before, .. } => EntryV::RestoreBytes { path, before, after: d },
            EntryV::Delete { .. } => self,
        }
    }
}

impl Entry {
    /// The file that it is about.
    pub fn path(&self) -> (r: &str)
        ensures
            r@ == self.deep_view().file(),
    {
        match self {
            Entry::Create { path, .. } => path.as_str(),
            Entry::Restore { path, .. } => path.as_str(),
            Entry::RestoreBytes { path, .. } => path.as_str(),
            Entry::Delete { path, .. } => path.as_str(),
        }
    }
}

/// What one run did.
#[derive(Debug)]
pub struct Journal {
    pub argv: Vec<String>,
    pub started_unix: u64,
    pub entries: Vec<Entry>,
}

#[verifier::ext_equal]
pub struct JournalV {
    pub argv: Seq<Seq<char>>,
    pub started_unix: u64,
    pub entries: Seq<EntryV>,
}

impl DeepView for Journal {
    type V = JournalV;

    open spec fn deep_view(&self) -> JournalV {
        JournalV {
            argv: self.argv.deep_view(),
            started_unix: self.started_unix,
            entries: self.entries.deep_view(),
        }
    }
}

/// The journal of a run that has done nothing yet.
pub fn begin(argv: Vec<String>, started_unix: u64) -> (r: Journal)
    ensures
        r.deep_view() == (JournalV { argv: argv.deep_view(), started_unix, entries: seq![] }),
{
    let ghost av = argv.deep_view();
    let j = Journal { argv, started_unix, entries: Vec::new() };
    assert(j.entries.deep_view() =~= seq![]);
    assert(j.deep_view() =~= (JournalV { argv: av, started_unix, entries: seq![] }));
    j
}

fn push_entry(j: &mut Journal, e: Entry)
    ensures
        final(j).deep_view() == (JournalV {
            entries: old(j).deep_view().entries.push(e.deep_view()),
            ..old(j).deep_view()
        }),
{
    let ghost before = j.entries.deep_view();
    let ghost ev = e.deep_view();
    j.entries.push(e);
    assert(j.entries.deep_view() =~= before.push(ev));
}

/// Records that a file was created with this content.
pub fn created(j: &mut Journal, path: &str, content: &[u8])
    ensures
        final(j).deep_view() == (JournalV {
            entries: old(j).deep_view().entries.push(EntryV::Create { path: path@, hash: digest(content@) }),
            ..old(j).deep_view()
        }),
{
    push_entry(j, Entry::Create { path: path.to_string(), hash: hash_bytes(content) });
}

/// Records that the content of a file was replaced. The bytes that were there before are
/// to be kept under their digest, which is returned.
pub fn replaced(j: &mut Journal, path: &str, before: &[u8], after: &[u8]) -> (r: String)
    ensures
        r@ == digest(before@),
        final(j).deep_view() == (JournalV {
            entries: old(j).deep_view().entries.push(
                EntryV::RestoreBytes { path: path@, before: digest(before@), after: digest(after@) },
            ),
            ..old(j).deep_view()
        }),
{
    let kept = hash_bytes(before);
    push_entry(
        j,
        Entry::RestoreBytes { path: path.to_string(), before: kept.clone(), after: hash_bytes(after) },
    );
    kept
}

/// Records that a file with this content was deleted. The bytes are to be kept under their
/// digest, which is returned.
pub fn deleted(j: &mut Journal, path: &str, before: &[u8]) -> (r: String)
    ensures
        r@ == digest(before@),
        final(j).deep_view() == (JournalV {
            entries: old(j).deep_view().entries.push(EntryV::Delete { path: path@, before: digest(before@) }),
            ..old(j).deep_view()
        }),
{
    let kept = hash_bytes(before);
    push_entry(j, Entry::Delete { path: path.to_string(), before: kept.clone() });
    kept
}

/// The first entry from `i` on that is about a file.
pub open spec fn entry_from(es: Seq<EntryV>, path: Seq<char>, i: int) -> Option<int>
    decreases es.len() - i,
{
    if i < 0 || i >= es.len() {
        None
    } else if es[i].file() == path {
        Some(i)
    } else {
        entry_from(es, path, i + 1)
    }
}

/// The entries after an edit of a file's tags. Where one is about the file already, it
/// stays what it is, so that the oldest state is the one that is put back, and only the
/// digest of what the run left is brought up to date. Else the snapshot from before the
/// edit is recorded, where one could be taken.
pub open spec fn with_edit(
    es: Seq<EntryV>,
    path: Seq<char>,
    before: Option<SnapshotV>,
    after: Seq<u8>,
) -> Seq<EntryV> {
    match entry_from(es, path, 0) {
        Some(i) => es.update(i, es[i].leaving(digest(after))),
        None => match before {
            Some(s) => es.push(EntryV::Restore { path, before: s, after: digest(after) }),
            None => es,
        },
    }
}

fn find_entry(es: &[Entry], path: &str) -> (r: Option<usize>)
    ensures
        match r {
            Some(k) => k < es@.len() && entry_from(es.deep_view(), path@, 0) == Some(k as int),
            None => entry_from(es.deep_view(), path@, 0) is None,
        },
{
    let ghost ev = es.deep_view();
    let mut i: usize = 0;
    while i < es.len()
        invariant
            i <= es@.len(),
            ev == es.deep_view(),
            entry_from(ev, path@, 0) == entry_from(ev, path@, i as int),
        decreases es@.len() - i,
    {
        assert(ev[i as int] == es@[i as int].deep_view());
        if same(es[i].path(), path) {
            return Some(i);
        }
        i += 1;
    }
    None
}

/// Records an edit of a file's tags: `before` is what they were, where that could be read,
/// and `after` is the content that the edit left.
pub fn edit(j: &mut Journal, path: &str, before: Option<Snapshot>, after: &[u8])
    ensures
        final(j).deep_view() == (JournalV {
            entries: with_edit(old(j).deep_view().entries, path@, before.deep_view(), after@),
            ..old(j).deep_view()
        }),
{
    let ghost jv = j.deep_view();
    let ghost es = j.entries.deep_view();
    let d = hash_bytes(after);
    match find_entry(&j.entries, path) {
        Some(i) => {
            assert(es[i as int] == j.entries@[i as int].deep_view());
            let e = j.entries.remove(i);
            let ghost mid = j.entries.deep_view();
            assert(mid =~= es.remove(i as int));
            let e2 = match e {
                Entry::Create { path, .. } => Entry::Create { path, hash: d },
                Entry::Restore { path, before, .. } => Entry::Restore { path, before, after: d },
                Entry::RestoreBytes { path, before, .. } => Entry::RestoreBytes { path, before, after: d },
                Entry::Delete { path, before } => Entry::Delete { path, before },
            };
            let ghost ev = e2.deep_view();
            assert(ev == es[i as int].leaving(digest(after@)));
            j.entries.insert(i, e2);
            assert(j.entries.deep_view() =~= mid.insert(i as int, ev));
            assert(mid.insert(i as int, ev) =~= es.update(i as int, ev));
        },
        None => {
            if let Some(s) = before {
                push_entry(j, Entry::Restore { path: path.to_string(), before: s, after: d });
            }
        },
    }
    assert(j.deep_view() =~= (JournalV { entries: with_edit(es, path@, before.deep_view(), after@), ..jv }));
}

/// The state before the first change is kept: however often a file is edited, its first
/// entry goes back to what it went back to before, and no second entry is made.
pub proof fn law_first_state_kept(es: Seq<EntryV>, path: Seq<char>, before: Option<SnapshotV>, after: Seq<u8>)
    ensures
        entry_from(es, path, 0) matches Some(i) ==> {
            let r = with_edit(es, path, before, after);
            &&& r.len() == es.len()
            &&& r[i] == es[i].leaving(digest(after))
            &&& forall|k: int| 0 <= k < es.len() && k != i ==> #[trigger] r[k] == es[k]
        },
{
    lemma_entry_from(es, path, 0);
}

proof fn lemma_entry_from(es: Seq<EntryV>, path: Seq<char>, i: int)
    requires
        0 <= i,
    ensures
        match entry_from(es, path, i) {
            Some(k) => i <= k < es.len() && es[k].file() == path && forall|m: int|
                i <= m < k ==> (#[trigger] es[m]).file() != path,
            None => forall|m: int| i <= m < es.len() ==> (#[trigger] es[m]).file() != path,
        },
    decreases es.len() - i,
{
    if i < es.len() && es[i].file() != path {
        lemma_entry_from(es, path, i + 1);
    }
}

/// Whether a run is kept: only one that changed something is.
pub fn worth_keeping(j: &Journal) -> (r: bool)
    ensures
        r == (j.deep_view().entries.len() > 0),
{
    j.entries.len() > 0
}

/// The name of a run: when it started, its command, and the first digits of the digest of
/// its whole command line.
pub open spec fn id_of(started: u64, argv: Seq<Seq<char>>) -> Seq<char> {
    decimal(started as nat) + "-"@ + (if argv.len() > 1 {
        argv[1]
    } else {
        "run"@
    }) + "-"@ + digest(encode_utf8(joined(argv, " "@))).take(8)
}

/// The name of a run.
pub fn run_id(started: u64, argv: &[String]) -> (r: String)
    ensures
        r@ == id_of(started, argv.deep_view()),
{
    let ghost av = argv.deep_view();
    let all = join(argv, " ");
    let d = hash_bytes(all.as_str().as_bytes());
    let dc = chars_of(d.as_str());
    let short = text_of(&dc, 0, 8);
    assert(dc@.subrange(0, 8) =~= d@.take(8));
    let cmd = if argv.len() > 1 {
        assert(av[1] == argv@[1]@);
        argv[1].clone()
    } else {
        "run".to_string()
    };
    let n = decimal_text(started);
    cat5(n.as_str(), "-", cmd.as_str(), "-", short.as_str())
}

// ---- undoing ---------------------------------------------------------------------------------

/// What undoing an entry does.
#[derive(Debug)]
pub enum Step<'a> {
    /// Nothing: the file is not what the run left.
    Leave,
    /// Delete the file.
    Delete,
    /// Put the tags back.
    RestoreTags(&'a Snapshot),
    /// Write the bytes that are kept under this digest.
    WriteKept(&'a String),
}

/// The file is still what the run left.
pub open spec fn untouched(e: EntryV, current: Option<Seq<u8>>) -> bool {
    e.left() == (match current {
        Some(c) => Some(digest(c)),
        None => None,
    })
}

/// What undoing an entry does to a file with this content.
pub fn revert<'a>(e: &'a Entry, current: Option<&[u8]>) -> (r: Step<'a>)
    ensures
        !untouched(e.deep_view(), current.deep_view()) ==> r is Leave,
        untouched(e.deep_view(), current.deep_view()) ==> match *e {
            Entry::Create { .. } => r is Delete,
            Entry::Restore { before, .. } => r matches Step::RestoreTags(s) && *s == before,
            Entry::RestoreBytes { before, .. } => r matches Step::WriteKept(d) && *d == before,
            Entry::Delete { before, .. } => r matches Step::WriteKept(d) && *d == before,
        },
{
    let same_as_left = match current {
        None => match e {
            Entry::Delete { .. } => true,
            _ => false,
        },
        Some(c) => {
            assert(c.deep_view() =~= c@);
            let d = hash_bytes(c);
            match e {
                Entry::Create { hash, .. } => same(d.as_str(), hash.as_str()),
                Entry::Restore { after, .. } => same(d.as_str(), after.as_str()),
                Entry::RestoreBytes { after, .. } => same(d.as_str(), after.as_str()),
                Entry::Delete { .. } => false,
            }
        },
    };
    if !same_as_left {
        return Step::Leave;
    }
    match e {
        Entry::Create { .. } => Step::Delete,
        Entry::Restore { before, .. } => Step::RestoreTags(before),
        Entry::RestoreBytes { before, .. } => Step::WriteKept(before),
        Entry::Delete { before, .. } => Step::WriteKept(before),
    }
}

/// How undoing an entry ended.
#[derive(Debug)]
pub enum Ending {
    /// It was taken back, or would be.
    Reverted,
    /// The file was left.
    Left,
    /// It failed, for this reason.
    Failed(String),
}

/// Whether a step is taken: a dry run takes none, and there may be nothing to do.
pub open spec fn is_taken(leaves: bool, dry_run: bool) -> bool {
    !leaves && !dry_run
}

/// Whether a step is taken.
pub fn takes(step: &Step, dry_run: bool) -> (r: bool)
    ensures
        r == is_taken(step is Leave, dry_run),
{
    match step {
        Step::Leave => false,
        _ => !dry_run,
    }
}

/// How undoing an entry ended, whose step failed for this reason if it did.
pub fn ending(step: &Step, failure: Option<String>) -> (r: Ending)
    ensures
        step is Leave ==> r is Left,
        step !is Leave ==> match failure {
            Some(why) => r == Ending::Failed(why),
            None => r is Reverted,
        },
{
    match step {
        Step::Leave => Ending::Left,
        _ => match failure {
            Some(why) => Ending::Failed(why),
            None => Ending::Reverted,
        },
    }
}

#[derive(Debug)]
pub struct UndoReport {
    pub run: Option<String>,
    pub command: Option<String>,
    pub reverted: usize,
    pub skipped: Vec<String>,
    pub dry_run: bool,
}

/// The report where there is no run to undo.
pub fn nothing_to_undo(dry_run: bool) -> (r: UndoReport)
    ensures
        r.run is None,
        r.command is None,
        r.reverted == 0,
        r.skipped.deep_view() == Seq::<Seq<char>>::empty(),
        r.dry_run == dry_run,
{
    let r = UndoReport { run: None, command: None, reverted: 0, skipped: Vec::new(), dry_run };
    assert(r.skipped.deep_view() =~= Seq::<Seq<char>>::empty());
    r
}

/// A file, and how undoing its entry ended.
#[derive(Debug)]
pub struct Undone {
    pub path: String,
    pub ending: Ending,
}

pub open spec fn reverted_count(us: Seq<Undone>, n: int) -> nat
    decreases n,
{
    if n <= 0 {
        0
    } else if us[n - 1].ending is Reverted {
        reverted_count(us, n - 1) + 1
    } else {
        reverted_count(us, n - 1)
    }
}

pub open spec fn skipped_lines(us: Seq<Undone>, n: int) -> Seq<Seq<char>>
    decreases n,
{
    if n <= 0 {
        seq![]
    } else {
        let rest = skipped_lines(us, n - 1);
        match us[n - 1].ending {
            Ending::Reverted => rest,
            Ending::Left => rest.push(us[n - 1].path@ + " (changed since — left as-is)"@),
            Ending::Failed(why) => rest.push(us[n - 1].path@ + ": "@ + why@),
        }
    }
}

/// Every entry is accounted for: those that were taken back and those that are named as
/// skipped add up to all of them, and a file that was left is named.
pub proof fn law_undo_accounts(us: Seq<Undone>, n: int, k: int)
    requires
        0 <= n <= us.len(),
    ensures
        reverted_count(us, n) + skipped_lines(us, n).len() == n,
        0 <= k < n && us[k].ending is Left ==> skipped_lines(us, n).contains(us[k].path@ + " (changed since — left as-is)"@),
    decreases n,
{
    if n > 0 {
        law_undo_accounts(us, n - 1, k);
        let rest = skipped_lines(us, n - 1);
        let all = skipped_lines(us, n);
        if 0 <= k < n && us[k].ending is Left {
            let line = us[k].path@ + " (changed since — left as-is)"@;
            if k < n - 1 {
                let i = choose|i: int| 0 <= i < rest.len() && rest[i] == line;
                assert(all[i] == line);
            } else {
                assert(all[all.len() - 1] == line);
            }
        }
    }
}

/// The report on a run that was undone, whose entries ended so, the last one first.
pub fn undo(id: &str, argv: &[String], undone: &[Undone], dry_run: bool) -> (r: UndoReport)
    ensures
        r.run.deep_view() == Some(id@),
        r.command.deep_view() == (if argv@.len() > 1 {
            Some(argv@[1]@)
        } else {
            None
        }),
        r.reverted == reverted_count(undone@, undone@.len() as int),
        r.skipped.deep_view() == skipped_lines(undone@, undone@.len() as int),
        r.dry_run == dry_run,
{
    let mut reverted: usize = 0;
    let mut skipped: Vec<String> = Vec::new();
    let mut i: usize = 0;
    assert(skipped.deep_view() =~= skipped_lines(undone@, 0));
    while i < undone.len()
        invariant
            i <= undone@.len(),
            reverted <= i,
            reverted == reverted_count(undone@, i as int),
            skipped.deep_view() == skipped_lines(undone@, i as int),
        decreases undone@.len() - i,
    {
        let ghost before = skipped.deep_view();
        let p = undone[i].path.as_str();
        match &undone[i].ending {
            Ending::Reverted => {
                reverted += 1;
            },
            Ending::Left => {
                skipped.push(cat(p, " (changed since — left as-is)"));
                assert(skipped.deep_view() =~= before.push(p@ + " (changed since — left as-is)"@));
            },
            Ending::Failed(why) => {
                skipped.push(cat3(p, ": ", why.as_str()));
                assert(skipped.deep_view() =~= before.push(p@ + ": "@ + why@));
            },
        }
        i += 1;
    }
    let command = if argv.len() > 1 {
        Some(argv[1].clone())
    } else {
        None
    };
    UndoReport { run: Some(id.to_string()), command, reverted, skipped, dry_run }
}

// ---- what undoing amounts to -----------------------------------------------------------------

/// The files and their contents.
pub type Files = Map<Seq<char>, Seq<u8>>;

/// The content of a file, where there is one.
pub open spec fn content(fs: Files, path: Seq<char>) -> Option<Seq<u8>> {
    if fs.contains_key(path) {
        Some(fs[path])
    } else {
        None
    }
}

/// The files after an entry was undone. `kept` holds the bytes that are kept, by digest,
/// and `tagged` what putting a snapshot back makes of a file's content.
pub open spec fn reverted(
    e: EntryV,
    fs: Files,
    kept: Map<Seq<char>, Seq<u8>>,
    tagged: spec_fn(Seq<u8>, SnapshotV) -> Seq<u8>,
) -> Files {
    if !untouched(e, content(fs, e.file())) {
        fs
    } else {
        match e {
            EntryV::Create { path, .. } => fs.remove(path),
            EntryV::Restore { path, before, .. } => fs.insert(path, tagged(fs[path], before)),
            EntryV::RestoreBytes { path, before, .. } => fs.insert(path, kept[before]),
            EntryV::Delete { path, before } => fs.insert(path, kept[before]),
        }
    }
}

/// The files after an entry was gone through, in a dry run or not.
pub open spec fn gone_through(
    e: EntryV,
    fs: Files,
    kept: Map<Seq<char>, Seq<u8>>,
    tagged: spec_fn(Seq<u8>, SnapshotV) -> Seq<u8>,
    dry_run: bool,
) -> Files {
    if is_taken(!untouched(e, content(fs, e.file())), dry_run) {
        reverted(e, fs, kept, tagged)
    } else {
        fs
    }
}

/// A dry run changes no file, and any other run does what undoing the entry does.
pub proof fn law_dry_run_changes_nothing(
    e: EntryV,
    fs: Files,
    kept: Map<Seq<char>, Seq<u8>>,
    tagged: spec_fn(Seq<u8>, SnapshotV) -> Seq<u8>,
)
    ensures
        gone_through(e, fs, kept, tagged, true) == fs,
        gone_through(e, fs, kept, tagged, false) == reverted(e, fs, kept, tagged),
{
}

/// The files after the first `n` entries were undone, the last one first.
pub open spec fn undone(
    es: Seq<EntryV>,
    n: int,
    fs: Files,
    kept: Map<Seq<char>, Seq<u8>>,
    tagged: spec_fn(Seq<u8>, SnapshotV) -> Seq<u8>,
) -> Files
    decreases n,
{
    if n <= 0 {
        fs
    } else {
        undone(es, n - 1, reverted(es[n - 1], fs, kept, tagged), kept, tagged)
    }
}

/// Undoing never clobbers: an entry whose file is no longer what the run left changes
/// nothing, and no entry changes any file but its own.
pub proof fn law_never_clobbers(
    e: EntryV,
    fs: Files,
    kept: Map<Seq<char>, Seq<u8>>,
    tagged: spec_fn(Seq<u8>, SnapshotV) -> Seq<u8>,
    other: Seq<char>,
)
    ensures
        !untouched(e, content(fs, e.file())) ==> reverted(e, fs, kept, tagged) == fs,
        other != e.file() ==> content(reverted(e, fs, kept, tagged), other) == content(fs, other),
{
}

/// The same of a whole run: a file that no entry is about is what it was.
pub proof fn law_others_untouched(
    es: Seq<EntryV>,
    n: int,
    fs: Files,
    kept: Map<Seq<char>, Seq<u8>>,
    tagged: spec_fn(Seq<u8>, SnapshotV) -> Seq<u8>,
    other: Seq<char>,
)
    requires
        0 <= n <= es.len(),
        forall|k: int| 0 <= k < n ==> (#[trigger] es[k]).file() != other,
    ensures
        content(undone(es, n, fs, kept, tagged), other) == content(fs, other),
    decreases n,
{
    if n > 0 {
        law_never_clobbers(es[n - 1], fs, kept, tagged, other);
        law_others_untouched(es, n - 1, reverted(es[n - 1], fs, kept, tagged), kept, tagged, other);
    }
}

/// A file that was changed since is left as it is, whatever the run did to it: no entry about
/// it finds what the run left.
pub proof fn law_changed_file_is_left(
    es: Seq<EntryV>,
    n: int,
    fs: Files,
    kept: Map<Seq<char>, Seq<u8>>,
    tagged: spec_fn(Seq<u8>, SnapshotV) -> Seq<u8>,
    path: Seq<char>,
)
    requires
        0 <= n <= es.len(),
        forall|k: int| 0 <= k < n && (#[trigger] es[k]).file() == path ==> !untouched(es[k], content(fs, path)),
    ensures
        content(undone(es, n, fs, kept, tagged), path) == content(fs, path),
    decreases n,
{
    if n > 0 {
        let next = reverted(es[n - 1], fs, kept, tagged);
        law_never_clobbers(es[n - 1], fs, kept, tagged, path);
        assert(content(next, path) == content(fs, path));
        law_changed_file_is_left(es, n - 1, next, kept, tagged, path);
    }
}

/// A change that a run makes.
pub enum Change {
    /// A file that was not there is written.
    Create { path: Seq<char>, content: Seq<u8> },
    /// A file that was there is overwritten.
    Replace { path: Seq<char>, content: Seq<u8> },
    /// A file that was there is deleted.
    Delete { path: Seq<char> },
    /// A file that the run has written is edited.
    Edit { path: Seq<char>, content: Seq<u8> },
}

/// The files, and the entries that were recorded.
pub struct Done {
    pub files: Files,
    pub entries: Seq<EntryV>,
}

/// How many of the first `n` entries are about a file.
pub open spec fn entries_about(es: Seq<EntryV>, path: Seq<char>, n: int) -> nat
    decreases n,
{
    if n <= 0 {
        0
    } else if es[n - 1].file() == path {
        entries_about(es, path, n - 1) + 1
    } else {
        entries_about(es, path, n - 1)
    }
}

/// A change that can be made now, with what it overwrites kept under its digest.
pub open spec fn possible(c: Change, d: Done, kept: Map<Seq<char>, Seq<u8>>) -> bool {
    match c {
        Change::Create { path, .. } => !d.files.contains_key(path),
        Change::Replace { path, .. } => d.files.contains_key(path) && kept[digest(d.files[path])] == d.files[path],
        Change::Delete { path } => d.files.contains_key(path) && kept[digest(d.files[path])] == d.files[path],
        Change::Edit { path, .. } => d.files.contains_key(path) && entries_about(
            d.entries,
            path,
            d.entries.len() as int,
        ) == 1,
    }
}

/// The files and the entries after a change.
pub open spec fn changed(c: Change, d: Done) -> Done {
    match c {
        Change::Create { path, content } => Done {
            files: d.files.insert(path, content),
            entries: d.entries.push(EntryV::Create { path, hash: digest(content) }),
        },
        Change::Replace { path, content } => Done {
            files: d.files.insert(path, content),
            entries: d.entries.push(
                EntryV::RestoreBytes { path, before: digest(d.files[path]), after: digest(content) },
            ),
        },
        Change::Delete { path } => Done {
            files: d.files.remove(path),
            entries: d.entries.push(EntryV::Delete { path, before: digest(d.files[path]) }),
        },
        Change::Edit { path, content } => Done {
            files: d.files.insert(path, content),
            entries: with_edit(d.entries, path, None, content),
        },
    }
}

/// The files and the entries after the first `n` changes.
pub open spec fn after_changes(cs: Seq<Change>, start: Files, n: int) -> Done
    decreases n,
{
    if n <= 0 {
        Done { files: start, entries: seq![] }
    } else {
        changed(cs[n - 1], after_changes(cs, start, n - 1))
    }
}

/// The newest entry about each file names its content.
spec fn up_to_date(d: Done) -> bool {
    forall|k: int|
        0 <= k < d.entries.len() && newest(d.entries, k) ==> untouched(
            #[trigger] d.entries[k],
            content(d.files, d.entries[k].file()),
        )
}

spec fn newest(es: Seq<EntryV>, k: int) -> bool {
    forall|m: int| k < m < es.len() ==> (#[trigger] es[m]).file() != es[k].file()
}

proof fn lemma_only_entry(es: Seq<EntryV>, path: Seq<char>, n: int) -> (i: int)
    requires
        0 <= n <= es.len(),
        entries_about(es, path, n) == 1,
    ensures
        0 <= i < n,
        es[i].file() == path,
        forall|m: int| 0 <= m < n && m != i ==> (#[trigger] es[m]).file() != path,
    decreases n,
{
    if es[n - 1].file() == path {
        lemma_no_entry(es, path, n - 1);
        n - 1
    } else {
        lemma_only_entry(es, path, n - 1)
    }
}

proof fn lemma_no_entry(es: Seq<EntryV>, path: Seq<char>, n: int)
    requires
        0 <= n <= es.len(),
        entries_about(es, path, n) == 0,
    ensures
        forall|m: int| 0 <= m < n ==> (#[trigger] es[m]).file() != path,
    decreases n,
{
    if n > 0 {
        lemma_no_entry(es, path, n - 1);
    }
}

/// Undoing the first `n` entries does not look at those after them.
proof fn lemma_undone_prefix(
    a: Seq<EntryV>,
    b: Seq<EntryV>,
    n: int,
    fs: Files,
    kept: Map<Seq<char>, Seq<u8>>,
    tagged: spec_fn(Seq<u8>, SnapshotV) -> Seq<u8>,
)
    requires
        0 <= n <= a.len(),
        n <= b.len(),
        forall|k: int| 0 <= k < n ==> a[k] == #[trigger] b[k],
    ensures
        undone(a, n, fs, kept, tagged) == undone(b, n, fs, kept, tagged),
    decreases n,
{
    if n > 0 {
        assert(a[n - 1] == b[n - 1]);
        lemma_undone_prefix(a, b, n - 1, reverted(a[n - 1], fs, kept, tagged), kept, tagged);
    }
}

/// An edit of a file with a single entry, whose digest follows: undoing ends as before.
proof fn lemma_undone_edit(
    es: Seq<EntryV>,
    i: int,
    n: int,
    fs: Files,
    data: Seq<u8>,
    kept: Map<Seq<char>, Seq<u8>>,
    tagged: spec_fn(Seq<u8>, SnapshotV) -> Seq<u8>,
)
    requires
        0 <= i < n <= es.len(),
        !(es[i] is Restore),
        !(es[i] is Delete),
        untouched(es[i], content(fs, es[i].file())),
        forall|m: int| i < m < n ==> (#[trigger] es[m]).file() != es[i].file(),
    ensures
        undone(
            es.update(i, es[i].leaving(digest(data))),
            n,
            fs.insert(es[i].file(), data),
            kept,
            tagged,
        ) == undone(es, n, fs, kept, tagged),
    decreases n,
{
    let es2 = es.update(i, es[i].leaving(digest(data)));
    let path = es[i].file();
    let fs2 = fs.insert(path, data);
    if n - 1 == i {
        assert(reverted(es2[i], fs2, kept, tagged) =~= reverted(es[i], fs, kept, tagged));
        lemma_undone_prefix(es2, es, i, reverted(es[i], fs, kept, tagged), kept, tagged);
    } else {
        assert(es2[n - 1] == es[n - 1]);
        let next = reverted(es[n - 1], fs, kept, tagged);
        assert(content(fs2, es[n - 1].file()) == content(fs, es[n - 1].file()));
        assert(reverted(es[n - 1], fs2, kept, tagged) =~= next.insert(path, data));
        assert(content(next, path) == content(fs, path));
        lemma_undone_edit(es, i, n - 1, next, data, kept, tagged);
    }
}

/// Files that were written outright have no entry that restores tags.
spec fn no_tags(es: Seq<EntryV>) -> bool {
    forall|k: int| 0 <= k < es.len() ==> !(#[trigger] es[k] is Restore)
}

proof fn lemma_step(
    c: Change,
    d: Done,
    start: Files,
    kept: Map<Seq<char>, Seq<u8>>,
    tagged: spec_fn(Seq<u8>, SnapshotV) -> Seq<u8>,
)
    requires
        possible(c, d, kept),
        no_tags(d.entries),
        up_to_date(d),
        undone(d.entries, d.entries.len() as int, d.files, kept, tagged) == start,
    ensures
        no_tags(changed(c, d).entries),
        up_to_date(changed(c, d)),
        undone(
            changed(c, d).entries,
            changed(c, d).entries.len() as int,
            changed(c, d).files,
            kept,
            tagged,
        ) == start,
{
    let es = d.entries;
    let n = es.len() as int;
    let d2 = changed(c, d);
    match c {
        Change::Create { path, content: data } => {
            let e = EntryV::Create { path, hash: digest(data) };
            assert(d2.files.remove(path) =~= d.files);
            assert(reverted(e, d2.files, kept, tagged) =~= d.files);
            lemma_undone_prefix(d2.entries, es, n, d.files, kept, tagged);
            lemma_up_to_date_push(d, e, d2.files);
        },
        Change::Replace { path, content: data } => {
            let e = EntryV::RestoreBytes { path, before: digest(d.files[path]), after: digest(data) };
            assert(d2.files.insert(path, d.files[path]) =~= d.files);
            assert(reverted(e, d2.files, kept, tagged) =~= d.files);
            lemma_undone_prefix(d2.entries, es, n, d.files, kept, tagged);
            lemma_up_to_date_push(d, e, d2.files);
        },
        Change::Delete { path } => {
            let e = EntryV::Delete { path, before: digest(d.files[path]) };
            assert(d2.files.insert(path, d.files[path]) =~= d.files);
            assert(reverted(e, d2.files, kept, tagged) =~= d.files);
            lemma_undone_prefix(d2.entries, es, n, d.files, kept, tagged);
            lemma_up_to_date_push(d, e, d2.files);
        },
        Change::Edit { path, content: data } => {
            let i = lemma_only_entry(es, path, n);
            lemma_entry_from(es, path, 0);
            assert(entry_from(es, path, 0) == Some(i));
            assert(newest(es, i));
            assert(untouched(es[i], content(d.files, es[i].file())));
            lemma_undone_edit(es, i, n, d.files, data, kept, tagged);
            let es2 = d2.entries;
            assert(es2 == es.update(i, es[i].leaving(digest(data))));
            assert forall|k: int| 0 <= k < es2.len() && newest(es2, k) implies untouched(
                #[trigger] es2[k],
                content(d2.files, es2[k].file()),
            ) by {
                if k != i {
                    assert(es2[k] == es[k]);
                    assert(newest(es, k)) by {
                        assert forall|m: int| k < m < es.len() implies (#[trigger] es[m]).file() != es[k].file() by {
                            assert(es2[m].file() == es[m].file());
                        }
                    }
                    assert(untouched(es[k], content(d.files, es[k].file())));
                }
            }
        },
    }
}

proof fn lemma_up_to_date_push(d: Done, e: EntryV, fs2: Files)
    requires
        up_to_date(d),
        untouched(e, content(fs2, e.file())),
        forall|p: Seq<char>| p != e.file() ==> #[trigger] content(fs2, p) == content(d.files, p),
    ensures
        up_to_date(Done { files: fs2, entries: d.entries.push(e) }),
{
    let es2 = d.entries.push(e);
    assert forall|k: int| 0 <= k < es2.len() && newest(es2, k) implies untouched(
        #[trigger] es2[k],
        content(fs2, es2[k].file()),
    ) by {
        if k < d.entries.len() {
            assert(es2[k] == d.entries[k]);
            assert(es2[d.entries.len() as int] == e);
            assert(newest(d.entries, k)) by {
                assert forall|m: int| k < m < d.entries.len() implies (#[trigger] d.entries[m]).file()
                    != d.entries[k].file() by {
                    assert(es2[m] == d.entries[m]);
                }
            }
            assert(untouched(d.entries[k], content(d.files, d.entries[k].file())));
        }
    }
}

/// Undoing a run takes all of it back: whatever files a run created, overwrote, deleted
/// and went on to edit, undoing its entries leaves every file as it was before. What was
/// overwritten or deleted must have been kept, and a file that is edited must have been written once before.
pub proof fn law_undo_takes_back(
    cs: Seq<Change>,
    start: Files,
    kept: Map<Seq<char>, Seq<u8>>,
    tagged: spec_fn(Seq<u8>, SnapshotV) -> Seq<u8>,
    n: int,
)
    requires
        0 <= n <= cs.len(),
        forall|k: int| 0 <= k < n ==> possible(#[trigger] cs[k], after_changes(cs, start, k), kept),
    ensures
        undone(
            after_changes(cs, start, n).entries,
            after_changes(cs, start, n).entries.len() as int,
            after_changes(cs, start, n).files,
            kept,
            tagged,
        ) == start,
{
    lemma_undo_takes_back(cs, start, kept, tagged, n);
}

proof fn lemma_undo_takes_back(
    cs: Seq<Change>,
    start: Files,
    kept: Map<Seq<char>, Seq<u8>>,
    tagged: spec_fn(Seq<u8>, SnapshotV) -> Seq<u8>,
    n: int,
)
    requires
        0 <= n <= cs.len(),
        forall|k: int| 0 <= k < n ==> possible(#[trigger] cs[k], after_changes(cs, start, k), kept),
    ensures
        no_tags(after_changes(cs, start, n).entries),
        up_to_date(after_changes(cs, start, n)),
        undone(
            after_changes(cs, start, n).entries,
            after_changes(cs, start, n).entries.len() as int,
            after_changes(cs, start, n).files,
            kept,
            tagged,
        ) == start,
    decreases n,
{
    if n > 0 {
        lemma_undo_takes_back(cs, start, kept, tagged, n - 1);
        assert(possible(cs[n - 1], after_changes(cs, start, n - 1), kept));
        lemma_step(cs[n - 1], after_changes(cs, start, n - 1), start, kept, tagged);
    }
}

/// An edit of a file that the run has not written is recorded with what its tags were, and
/// undoing puts exactly that snapshot back into what the edit left.
pub proof fn law_edit_taken_back(
    d: Done,
    path: Seq<char>,
    before: SnapshotV,
    data: Seq<u8>,
    kept: Map<Seq<char>, Seq<u8>>,
    tagged: spec_fn(Seq<u8>, SnapshotV) -> Seq<u8>,
)
    requires
        entries_about(d.entries, path, d.entries.len() as int) == 0,
    ensures
        ({
            let es = with_edit(d.entries, path, Some(before), data);
            &&& es == d.entries.push(EntryV::Restore { path, before, after: digest(data) })
            &&& reverted(es.last(), d.files.insert(path, data), kept, tagged) == d.files.insert(path, data).insert(
                path,
                tagged(data, before),
            )
        }),
{
    lemma_no_entry(d.entries, path, d.entries.len() as int);
    lemma_entry_from(d.entries, path, 0);
}

// ---- runs ------------------------------------------------------------------------------------

#[derive(Debug)]
pub struct RunInfo {
    pub id: String,
    /// The command alone.
    pub command: String,
    /// The command line, short.
    pub summary: String,
    pub started_unix: u64,
    pub changes: usize,
}

/// What is shown of an argument: of a path or an address, its last part.
pub open spec fn last_part(pieces: Seq<Seq<char>>, n: int) -> Option<Seq<char>>
    decreases n,
{
    if n <= 0 {
        None
    } else if pieces[n - 1].len() > 0 {
        Some(pieces[n - 1])
    } else {
        last_part(pieces, n - 1)
    }
}

pub open spec fn shown_arg(a: Seq<char>) -> Seq<char> {
    let pieces = split_on(a, seq!['/']);
    match last_part(pieces, pieces.len() as int) {
        Some(p) if crate::text::contains_text(a, "/"@) => p,
        _ => a,
    }
}

/// The longest that a short command line gets.
pub const MAX_SUMMARY: usize = 44;

/// A text that is cut where it is too long.
pub open spec fn cut(s: Seq<char>) -> Seq<char> {
    if s.len() > MAX_SUMMARY {
        s.take(MAX_SUMMARY - 1).push('…')
    } else {
        s
    }
}

/// A command line, short: its arguments, paths by their last part, cut where it is long.
pub open spec fn summary_of(argv: Seq<Seq<char>>) -> Seq<char> {
    if argv.len() <= 1 {
        "run"@
    } else {
        cut(joined(argv.skip(1).map_values(|a: Seq<char>| shown_arg(a)), " "@))
    }
}

fn show_arg(a: &str) -> (r: String)
    ensures
        r@ == shown_arg(a@),
{
    if !contains(a, "/") {
        return a.to_string();
    }
    let sep: [char; 1] = ['/'];
    assert(sep@ =~= seq!['/']);
    let pieces = split(a, &sep);
    let ghost pv = pieces.deep_view();
    let mut n: usize = pieces.len();
    while n > 0
        invariant
            n <= pieces@.len(),
            pv == pieces.deep_view(),
            pv == split_on(a@, seq!['/']),
            crate::text::contains_text(a@, "/"@),
            last_part(pv, pv.len() as int) == last_part(pv, n as int),
        decreases n,
    {
        assert(pv[n - 1] == pieces@[n - 1]@);
        if !pieces[n - 1].as_str().is_empty() {
            return pieces[n - 1].clone();
        }
        n -= 1;
    }
    a.to_string()
}

/// A command line, short.
pub fn summarize(argv: &[String]) -> (r: String)
    ensures
        r@ == summary_of(argv.deep_view()),
{
    let ghost av = argv.deep_view();
    if argv.len() <= 1 {
        return "run".to_string();
    }
    let ghost want = av.skip(1).map_values(|a: Seq<char>| shown_arg(a));
    let mut parts: Vec<String> = Vec::new();
    let mut i: usize = 1;
    assert(parts.deep_view() =~= want.take(0));
    while i < argv.len()
        invariant
            1 <= i <= argv@.len(),
            av == argv.deep_view(),
            want == av.skip(1).map_values(|a: Seq<char>| shown_arg(a)),
            want.len() == argv@.len() - 1,
            parts.deep_view() == want.take(i - 1),
        decreases argv@.len() - i,
    {
        let ghost before = parts.deep_view();
        assert(av.skip(1)[i - 1] == argv@[i as int]@);
        parts.push(show_arg(argv[i].as_str()));
        assert(parts.deep_view() =~= before.push(want[i - 1]));
        assert(want.take(i as int) =~= want.take(i - 1).push(want[i - 1]));
        i += 1;
    }
    assert(want.take(i - 1) =~= want);
    let all = join(&parts, " ");
    let c = chars_of(all.as_str());
    if c.len() > MAX_SUMMARY {
        let mut s = text_of(&c, 0, MAX_SUMMARY - 1);
        s.push('…');
        assert(s@ =~= cut(all@));
        s
    } else {
        all
    }
}

/// What is listed of a run.
pub fn run_info(id: &str, j: &Journal) -> (r: RunInfo)
    ensures
        r.id@ == id@,
        r.command@ == (if j.argv@.len() > 1 {
            j.argv@[1]@
        } else {
            Seq::<char>::empty()
        }),
        r.summary@ == summary_of(j.deep_view().argv),
        r.started_unix == j.started_unix,
        r.changes == j.deep_view().entries.len(),
{
    let command = if j.argv.len() > 1 {
        j.argv[1].clone()
    } else {
        String::new()
    };
    assert(j.entries.deep_view().len() == j.entries@.len());
    RunInfo {
        id: id.to_string(),
        command,
        summary: summarize(&j.argv),
        started_unix: j.started_unix,
        changes: j.entries.len(),
    }
}

pub open spec fn newest_keys(rs: Seq<RunInfo>) -> Seq<Seq<int>> {
    rs.map_values(|r: RunInfo| seq![-(r.started_unix as int)])
}

/// The runs, the newest first; of two that started at once, the one that came first.
pub fn list(runs: Vec<RunInfo>) -> (r: Vec<RunInfo>)
    ensures
        r@ == arranged(runs@, order_of(newest_keys(runs@))),
        r@.len() == runs@.len(),
{
    let ghost rv = runs@;
    let mut keys: Vec<Vec<i128>> = Vec::new();
    let ghost want = newest_keys(rv);
    let mut i: usize = 0;
    assert(keys_ints(keys@) =~= want.take(0));
    while i < runs.len()
        invariant
            i <= runs@.len(),
            rv == runs@,
            want == newest_keys(rv),
            want.len() == rv.len(),
            keys_ints(keys@) == want.take(i as int),
        decreases runs@.len() - i,
    {
        let ghost before = keys_ints(keys@);
        let mut k: Vec<i128> = Vec::new();
        k.push(-(runs[i].started_unix as i128));
        assert(key_ints(k@) =~= want[i as int]);
        keys.push(k);
        assert(keys_ints(keys@) =~= before.push(want[i as int]));
        assert(want.take(i + 1) =~= want.take(i as int).push(want[i as int]));
        i += 1;
    }
    assert(want.take(i as int) =~= want);
    let o = sort_order(&keys);
    proof {
        assert(keys@.len() == want.len()) by {
            assert(keys_ints(keys@).len() == want.len());
        }
        lemma_order_len(keys_ints(keys@), place_ints(o@));
    }
    arrange(runs, &o)
}

/// Runs are listed with the newest first, so that what [`prune`] gives up is never newer
/// than what it keeps.
pub proof fn law_newest_kept(rs: Seq<RunInfo>, i: int, j: int)
    requires
        0 <= i < j < rs.len(),
    ensures
        ({
            let l = arranged(rs, order_of(newest_keys(rs)));
            l[i].started_unix >= l[j].started_unix
        }),
{
    let keys = newest_keys(rs);
    crate::sort::lemma_order_exists(keys);
    let o = order_of(keys);
    lemma_order_len(keys, o);
    assert(crate::sort::precedes(keys, o[i], o[j]));
    assert(keys[o[i]][0] == -(rs[o[i]].started_unix as int));
    assert(keys[o[j]][0] == -(rs[o[j]].started_unix as int));
}

/// The first run from `i` on with this name.
pub open spec fn run_from(rs: Seq<RunInfo>, id: Seq<char>, i: int) -> Option<int>
    decreases rs.len() - i,
{
    if i < 0 || i >= rs.len() {
        None
    } else if rs[i].id@ == id {
        Some(i)
    } else {
        run_from(rs, id, i + 1)
    }
}

/// The run that is undone, of runs that are listed with the newest first: the one with
/// this name or, where none is named, the newest.
pub fn pick_run(runs: &[RunInfo], id: Option<&str>) -> (r: Option<usize>)
    ensures
        match id {
            Some(name) => match r {
                Some(k) => k < runs@.len() && run_from(runs@, name@, 0) == Some(k as int),
                None => run_from(runs@, name@, 0) is None,
            },
            None => r == (if runs@.len() > 0 {
                Some(0usize)
            } else {
                None
            }),
        },
{
    match id {
        None => if runs.len() > 0 {
            Some(0)
        } else {
            None
        },
        Some(name) => {
            let mut i: usize = 0;
            while i < runs.len()
                invariant
                    i <= runs@.len(),
                    id == Some(name),
                    run_from(runs@, name@, 0) == run_from(runs@, name@, i as int),
                decreases runs@.len() - i,
            {
                if same(runs[i].id.as_str(), name) {
                    return Some(i);
                }
                i += 1;
            }
            None
        },
    }
}

/// The name of the run that is given up once the run at `k` was undone: that one, and none
/// after a dry run.
pub fn used_up(runs: &[RunInfo], k: usize, dry_run: bool) -> (r: Option<String>)
    requires
        k < runs@.len(),
    ensures
        r.deep_view() == (if dry_run {
            None
        } else {
            Some(runs@[k as int].id@)
        }),
{
    if dry_run {
        None
    } else {
        Some(runs[k].id.clone())
    }
}

/// The names of the runs that are given up, of runs that are listed with the newest
/// first: all but the newest that are kept.
pub fn prune(runs: &[RunInfo]) -> (r: Vec<String>)
    ensures
        r.deep_view() == (if runs@.len() > KEEP_RUNS {
            runs@.skip(KEEP_RUNS as int).map_values(|x: RunInfo| x.id@)
        } else {
            seq![]
        }),
{
    let mut out: Vec<String> = Vec::new();
    if runs.len() <= KEEP_RUNS {
        assert(out.deep_view() =~= seq![]);
        return out;
    }
    let ghost want = runs@.skip(KEEP_RUNS as int).map_values(|x: RunInfo| x.id@);
    let mut i: usize = KEEP_RUNS;
    assert(out.deep_view() =~= want.take(0));
    while i < runs.len()
        invariant
            KEEP_RUNS <= i <= runs@.len(),
            want == runs@.skip(KEEP_RUNS as int).map_values(|x: RunInfo| x.id@),
            want.len() == runs@.len() - KEEP_RUNS,
            out.deep_view() == want.take(i - KEEP_RUNS),
        decreases runs@.len() - i,
    {
        let ghost before = out.deep_view();
        out.push(runs[i].id.clone());
        assert(out.deep_view() =~= before.push(want[i - KEEP_RUNS]));
        assert(want.take(i + 1 - KEEP_RUNS) =~= want.take(i - KEEP_RUNS).push(want[i - KEEP_RUNS]));
        i += 1;
    }
    assert(want.take(i - KEEP_RUNS) =~= want);
    out
}

// ---- kept bytes ------------------------------------------------------------------------------

/// The digest under which an entry needs bytes to be kept.
pub open spec fn needs(e: EntryV) -> Option<Seq<char>> {
    match e {
        EntryV::Create { .. } => None,
        EntryV::Restore { before, .. } => before.picture,
        EntryV::RestoreBytes { before, .. } => Some(before),
        EntryV::Delete { before, .. } => Some(before),
    }
}

/// The digest under which an entry needs bytes to be kept.
pub fn needed(e: &Entry) -> (r: Option<String>)
    ensures
        r.deep_view() == needs(e.deep_view()),
{
    match e {
        Entry::Create { .. } => None,
        Entry::Restore { before, .. } => before.picture.clone(),
        Entry::RestoreBytes { before, .. } => Some(before.clone()),
        Entry::Delete { before, .. } => Some(before.clone()),
    }
}

pub open spec fn needed_upto(es: Seq<EntryV>, n: int) -> Seq<Seq<char>>
    decreases n,
{
    if n <= 0 {
        seq![]
    } else {
        match needs(es[n - 1]) {
            Some(d) => needed_upto(es, n - 1).push(d),
            None => needed_upto(es, n - 1),
        }
    }
}

/// The digests that the entries of the first `n` journals need.
pub open spec fn needed_in(js: Seq<JournalV>, n: int) -> Seq<Seq<char>>
    decreases n,
{
    if n <= 0 {
        seq![]
    } else {
        needed_in(js, n - 1) + needed_upto(js[n - 1].entries, js[n - 1].entries.len() as int)
    }
}

/// Those of the first `n` kept digests that are not needed.
pub open spec fn orphans_upto(kept: Seq<Seq<char>>, need: Seq<Seq<char>>, n: int) -> Seq<Seq<char>>
    decreases n,
{
    if n <= 0 {
        seq![]
    } else if need.contains(kept[n - 1]) {
        orphans_upto(kept, need, n - 1)
    } else {
        orphans_upto(kept, need, n - 1).push(kept[n - 1])
    }
}

fn collect_needed(out: &mut Vec<String>, j: &Journal)
    ensures
        final(out).deep_view() == old(out).deep_view() + needed_upto(
            j.deep_view().entries,
            j.deep_view().entries.len() as int,
        ),
{
    let ghost start = out.deep_view();
    let ghost es = j.entries.deep_view();
    let mut i: usize = 0;
    assert(out.deep_view() =~= start + needed_upto(es, 0));
    while i < j.entries.len()
        invariant
            i <= j.entries@.len(),
            es == j.entries.deep_view(),
            out.deep_view() == start + needed_upto(es, i as int),
        decreases j.entries@.len() - i,
    {
        let ghost before = out.deep_view();
        assert(es[i as int] == j.entries@[i as int].deep_view());
        if let Some(d) = needed(&j.entries[i]) {
            let ghost dv = d@;
            out.push(d);
            assert(out.deep_view() =~= before.push(dv));
            assert(before.push(dv) =~= start + needed_upto(es, i + 1));
        }
        i += 1;
    }
}

/// The digests whose bytes are kept though no run needs them.
pub fn gc_objects(kept: &[String], journals: &[Journal]) -> (r: Vec<String>)
    ensures
        r.deep_view() == orphans_upto(
            kept.deep_view(),
            needed_in(journals.deep_view(), journals@.len() as int),
            kept@.len() as int,
        ),
{
    let ghost jv = journals.deep_view();
    let mut need: Vec<String> = Vec::new();
    let mut i: usize = 0;
    assert(need.deep_view() =~= needed_in(jv, 0));
    while i < journals.len()
        invariant
            i <= journals@.len(),
            jv == journals.deep_view(),
            need.deep_view() == needed_in(jv, i as int),
        decreases journals@.len() - i,
    {
        assert(jv[i as int] == journals@[i as int].deep_view());
        collect_needed(&mut need, &journals[i]);
        i += 1;
    }
    let ghost nv = need.deep_view();
    let ghost kv = kept.deep_view();
    let mut out: Vec<String> = Vec::new();
    let mut k: usize = 0;
    assert(out.deep_view() =~= orphans_upto(kv, nv, 0));
    while k < kept.len()
        invariant
            k <= kept@.len(),
            kv == kept.deep_view(),
            nv == need.deep_view(),
            out.deep_view() == orphans_upto(kv, nv, k as int),
        decreases kept@.len() - k,
    {
        let ghost before = out.deep_view();
        assert(kv[k as int] == kept@[k as int]@);
        if !holds(&need, kept[k].as_str()) {
            out.push(kept[k].clone());
            assert(out.deep_view() =~= before.push(kv[k as int]));
        }
        k += 1;
    }
    out
}

proof fn lemma_needed_upto(es: Seq<EntryV>, k: int, n: int)
    requires
        0 <= k < n <= es.len(),
        needs(es[k]) is Some,
    ensures
        needed_upto(es, n).contains(needs(es[k])->0),
    decreases n,
{
    let d = needs(es[k])->0;
    let all = needed_upto(es, n);
    if k == n - 1 {
        assert(all[all.len() - 1] == d);
    } else {
        lemma_needed_upto(es, k, n - 1);
        let rest = needed_upto(es, n - 1);
        let w = choose|w: int| 0 <= w < rest.len() && rest[w] == d;
        assert(all[w] == d);
    }
}

proof fn lemma_needed_in(js: Seq<JournalV>, j: int, k: int, n: int)
    requires
        0 <= j < n <= js.len(),
        0 <= k < js[j].entries.len(),
        needs(js[j].entries[k]) is Some,
    ensures
        needed_in(js, n).contains(needs(js[j].entries[k])->0),
    decreases n,
{
    let d = needs(js[j].entries[k])->0;
    let all = needed_in(js, n);
    let rest = needed_in(js, n - 1);
    if j == n - 1 {
        let es = js[j].entries;
        lemma_needed_upto(es, k, es.len() as int);
        let tail = needed_upto(es, es.len() as int);
        let w = choose|w: int| 0 <= w < tail.len() && tail[w] == d;
        assert(all[rest.len() + w] == d);
    } else {
        lemma_needed_in(js, j, k, n - 1);
        let w = choose|w: int| 0 <= w < rest.len() && rest[w] == d;
        assert(all[w] == d);
    }
}

/// Bytes that a run needs are never given up.
pub proof fn law_needed_bytes_kept(kept: Seq<Seq<char>>, js: Seq<JournalV>, j: int, k: int, n: int)
    requires
        0 <= j < js.len(),
        0 <= k < js[j].entries.len(),
        needs(js[j].entries[k]) is Some,
        0 <= n <= kept.len(),
    ensures
        !orphans_upto(kept, needed_in(js, js.len() as int), n).contains(needs(js[j].entries[k])->0),
    decreases n,
{
    let d = needs(js[j].entries[k])->0;
    let need = needed_in(js, js.len() as int);
    lemma_needed_in(js, j, k, js.len() as int);
    if n > 0 {
        law_needed_bytes_kept(kept, js, j, k, n - 1);
        let all = orphans_upto(kept, need, n);
        let rest = orphans_upto(kept, need, n - 1);
        if all.contains(d) {
            let w = choose|w: int| 0 <= w < all.len() && all[w] == d;
            if w < rest.len() {
                assert(rest[w] == d);
            } else {
                assert(kept[n - 1] == d);
            }
        }
    }
}

/// The run that a name picks has that name, and is the first in the list that has; where none is
/// picked, no run has it.
pub proof fn law_run_named(rs: Seq<RunInfo>, id: Seq<char>)
    ensures
        match run_from(rs, id, 0) {
            Some(k) => 0 <= k < rs.len() && rs[k].id@ == id && forall|j: int| 0 <= j < k ==> !((#[trigger] rs[j]).id@ == id),
            None => forall|j: int| 0 <= j < rs.len() ==> !((#[trigger] rs[j]).id@ == id),
        },
{
    lemma_run_named(rs, id, 0);
}

proof fn lemma_run_named(rs: Seq<RunInfo>, id: Seq<char>, i: int)
    requires
        0 <= i,
    ensures
        match run_from(rs, id, i) {
            Some(k) => i <= k < rs.len() && rs[k].id@ == id && forall|j: int| i <= j < k ==> !((#[trigger] rs[j]).id@ == id),
            None => forall|j: int| i <= j < rs.len() ==> !((#[trigger] rs[j]).id@ == id),
        },
    decreases rs.len() - i,
{
    if i < rs.len() && !(rs[i].id@ == id) {
        lemma_run_named(rs, id, i + 1);
    }
}

/// As many entries are counted as were taken back.
pub proof fn law_reverted_count(us: Seq<Undone>)
    ensures
        reverted_count(us, us.len() as int) == us.filter(|x: Undone| x.ending is Reverted).len(),
{
    lemma_reverted_count(us, us.len() as int);
    assert(us.take(us.len() as int) =~= us);
}

proof fn lemma_reverted_count(us: Seq<Undone>, n: int)
    requires
        0 <= n <= us.len(),
    ensures
        reverted_count(us, n) == us.take(n).filter(|x: Undone| x.ending is Reverted).len(),
    decreases n,
{
    reveal(Seq::filter);
    if n > 0 {
        lemma_reverted_count(us, n - 1);
        assert(us.take(n).drop_last() =~= us.take(n - 1));
        assert(us.take(n).last() == us[n - 1]);
    }
}

/// Every entry that was not taken back is named, in their order, with why; none that was is.
pub proof fn law_skipped_lines(us: Seq<Undone>)
    ensures
        skipped_lines(us, us.len() as int) == us.map_values(|x: Undone| match x.ending {
            Ending::Reverted => seq![],
            Ending::Left => seq![x.path@ + " (changed since — left as-is)"@],
            Ending::Failed(why) => seq![x.path@ + ": "@ + why@],
        }).flatten(),
{
    lemma_skipped_lines(us, us.len() as int);
    assert(us.take(us.len() as int) =~= us);
}

proof fn lemma_skipped_lines(us: Seq<Undone>, n: int)
    requires
        0 <= n <= us.len(),
    ensures
        skipped_lines(us, n) == us.take(n).map_values(|x: Undone| match x.ending {
            Ending::Reverted => seq![],
            Ending::Left => seq![x.path@ + " (changed since — left as-is)"@],
            Ending::Failed(why) => seq![x.path@ + ": "@ + why@],
        }).flatten(),
    decreases n,
{
    let all = us.take(n).map_values(|x: Undone| match x.ending {
            Ending::Reverted => seq![],
            Ending::Left => seq![x.path@ + " (changed since — left as-is)"@],
            Ending::Failed(why) => seq![x.path@ + ": "@ + why@],
        });
    if n > 0 {
        lemma_skipped_lines(us, n - 1);
        let before = us.take(n - 1).map_values(|x: Undone| match x.ending {
            Ending::Reverted => seq![],
            Ending::Left => seq![x.path@ + " (changed since — left as-is)"@],
            Ending::Failed(why) => seq![x.path@ + ": "@ + why@],
        });
        assert(all =~= before.push(all[n - 1]));
        assert(us.take(n)[n - 1] == us[n - 1]);
        lemma_flatten_push(before, all[n - 1]);
        assert(skipped_lines(us, n) =~= before.flatten() + all[n - 1]);
    } else {
        assert(all =~= seq![]);
        assert(all.flatten() =~= seq![]);
    }
}

/// A kept digest is given up exactly where no entry of any run needs it: none for its picture, for
/// the bytes that it changed or for those that it deleted.
pub proof fn law_orphans(kept: Seq<Seq<char>>, js: Seq<JournalV>)
    ensures
        orphans_upto(kept, needed_in(js, js.len() as int), kept.len() as int) == kept.filter(
            |d: Seq<char>| !exists|j: int, k: int| 0 <= j < js.len() && #[trigger] entry_needs(js[j].entries, k, d),
        ),
{
    let p = |d: Seq<char>| !exists|j: int, k: int| 0 <= j < js.len() && #[trigger] entry_needs(js[j].entries, k, d);
    lemma_orphans(kept, js, p, kept.len() as int);
    assert(kept.take(kept.len() as int) =~= kept);
}

/// The entry at a place needs the bytes of this digest.
pub open spec fn entry_needs(es: Seq<EntryV>, k: int, d: Seq<char>) -> bool {
    0 <= k < es.len() && match es[k] {
        EntryV::Create { .. } => false,
        EntryV::Restore { before, .. } => before.picture == Some(d),
        EntryV::RestoreBytes { before, .. } => before == d,
        EntryV::Delete { before, .. } => before == d,
    }
}

proof fn lemma_orphans(kept: Seq<Seq<char>>, js: Seq<JournalV>, p: spec_fn(Seq<char>) -> bool, n: int)
    requires
        0 <= n <= kept.len(),
        p == (|d: Seq<char>| !exists|j: int, k: int| 0 <= j < js.len() && #[trigger] entry_needs(js[j].entries, k, d)),
    ensures
        orphans_upto(kept, needed_in(js, js.len() as int), n) == kept.take(n).filter(p),
    decreases n,
{
    reveal(Seq::filter);
    if n > 0 {
        lemma_orphans(kept, js, p, n - 1);
        assert(kept.take(n).drop_last() =~= kept.take(n - 1));
        assert(kept.take(n).last() == kept[n - 1]);
        let d = kept[n - 1];
        let need = needed_in(js, js.len() as int);
        if need.contains(d) {
            let (j, k) = lemma_needed_by(js, js.len() as int, d);
            assert(entry_needs(js[j].entries, k, d));
        }
        if exists|j: int, k: int| 0 <= j < js.len() && #[trigger] entry_needs(js[j].entries, k, d) {
            let (j, k) = choose|j: int, k: int| 0 <= j < js.len() && #[trigger] entry_needs(js[j].entries, k, d);
            lemma_needed_in(js, j, k, js.len() as int);
        }
    }
}

/// A needed digest is needed by an entry.
proof fn lemma_needed_by(js: Seq<JournalV>, n: int, d: Seq<char>) -> (jk: (int, int))
    requires
        0 <= n <= js.len(),
        needed_in(js, n).contains(d),
    ensures
        0 <= jk.0 < n,
        entry_needs(js[jk.0].entries, jk.1, d),
    decreases n,
{
    let all = needed_in(js, n);
    let w = choose|w: int| 0 <= w < all.len() && all[w] == d;
    let rest = needed_in(js, n - 1);
    if w < rest.len() {
        assert(rest[w] == d);
        lemma_needed_by(js, n - 1, d)
    } else {
        let es = js[n - 1].entries;
        let tail = needed_upto(es, es.len() as int);
        assert(tail[w - rest.len()] == d);
        (n - 1, lemma_needed_entry(es, es.len() as int, d))
    }
}

proof fn lemma_needed_entry(es: Seq<EntryV>, n: int, d: Seq<char>) -> (k: int)
    requires
        0 <= n <= es.len(),
        needed_upto(es, n).contains(d),
    ensures
        entry_needs(es, k, d),
    decreases n,
{
    let all = needed_upto(es, n);
    let w = choose|w: int| 0 <= w < all.len() && all[w] == d;
    let rest = needed_upto(es, n - 1);
    if w < rest.len() {
        assert(rest[w] == d);
        lemma_needed_entry(es, n - 1, d)
    } else {
        n - 1
    }
}

/// The list of runs holds the runs that there are, each once, and those that started at once in
/// the order in which they came.
pub proof fn law_list(rs: Seq<RunInfo>)
    ensures
        ({
            let o = order_of(newest_keys(rs));
            let l = arranged(rs, o);
            &&& l.len() == rs.len()
            &&& l.to_multiset() == rs.to_multiset()
            &&& forall|i: int| 0 <= i < l.len() ==> 0 <= #[trigger] o[i] < rs.len() && l[i] == rs[o[i]]
            &&& forall|i: int, j: int|
                0 <= i < j < l.len() ==> rs[#[trigger] o[i]].started_unix > rs[#[trigger] o[j]].started_unix || (rs[o[i]].started_unix
                    == rs[o[j]].started_unix && o[i] < o[j])
        }),
{
    let keys = newest_keys(rs);
    crate::sort::law_sorted(rs, keys);
    let o = order_of(keys);
    assert forall|i: int, j: int| 0 <= i < j < rs.len() implies rs[#[trigger] o[i]].started_unix > rs[#[trigger] o[j]].started_unix
        || (rs[o[i]].started_unix == rs[o[j]].started_unix && o[i] < o[j]) by {
        law_newest_kept(rs, i, j);
        if rs[o[i]].started_unix == rs[o[j]].started_unix {
            assert(keys[o[i]] =~= keys[o[j]]);
        }
    }
}

/// An argument is shown as it stands where it holds no slash; else by what follows the last slash
/// that is followed by something, without the slashes at the end; and as it stands where it holds
/// nothing but slashes.
pub proof fn law_shown_arg(front: Seq<char>, name: Seq<char>, slashes: Seq<char>)
    requires
        forall|i: int| 0 <= i < name.len() ==> #[trigger] name[i] != '/',
        forall|i: int| 0 <= i < slashes.len() ==> #[trigger] slashes[i] == '/',
    ensures
        shown_arg(name) == name,
        name.len() > 0 ==> shown_arg(front + seq!['/'] + name + slashes) == name,
        name.len() > 0 && slashes.len() > 0 ==> shown_arg(name + slashes) == name,
        shown_arg(slashes) == slashes,
{
    let sep = seq!['/'];
    assert(sep[0] == '/');
    assert(sep.contains('/'));
    reveal_strlit("/");
    assert("/"@ =~= sep);
    lemma_no_slash(name);
    lemma_slash_tail(slashes);
    if name.len() > 0 {
        let tail = name + slashes;
        lemma_named_tail(name, slashes);
        let p = split_on(tail, sep);
        let a = front + sep + tail;
        assert(front + seq!['/'] + name + slashes =~= a);
        law_split_apart(front, '/', tail);
        let f = split_on(front, sep);
        let ps = split_on(a, sep);
        assert(ps == f + p);
        lemma_last_part_tail(f, p, p.len() as int);
        assert(a.subrange(front.len() as int, front.len() as int + 1) =~= "/"@);
        assert(crate::text::matches_at(a, "/"@, front.len() as int));
        if slashes.len() > 0 {
            assert(tail.subrange(name.len() as int, name.len() as int + 1) =~= "/"@);
            assert(crate::text::matches_at(tail, "/"@, name.len() as int));
        }
    }
}

proof fn lemma_no_slash(name: Seq<char>)
    requires
        forall|i: int| 0 <= i < name.len() ==> #[trigger] name[i] != '/',
    ensures
        split_on(name, seq!['/']) == seq![name],
{
    assert forall|i: int| 0 <= i < name.len() implies !seq!['/'].contains(#[trigger] name[i]) by {
        assert(name[i] != '/');
    }
    lemma_split_one(name, seq!['/']);
}

/// Slashes alone have no part with anything in it.
proof fn lemma_slash_tail(slashes: Seq<char>)
    requires
        forall|i: int| 0 <= i < slashes.len() ==> #[trigger] slashes[i] == '/',
    ensures
        forall|k: int| 0 <= k < split_on(slashes, seq!['/']).len() ==> (#[trigger] split_on(slashes, seq!['/'])[k]).len() == 0,
        last_part(split_on(slashes, seq!['/']), split_on(slashes, seq!['/']).len() as int) is None,
    decreases slashes.len(),
{
    let p = split_on(slashes, seq!['/']);
    if slashes.len() == 0 {
        lemma_no_slash(slashes);
    } else {
        let rest = slashes.skip(1);
        assert(seq!['/'][0] == '/');
        lemma_split_cons(seq![], '/', rest, seq!['/']);
        assert(seq![] + seq!['/'] + rest =~= slashes);
        lemma_slash_tail(rest);
    }
    lemma_no_part(p, p.len() as int);
}

proof fn lemma_no_part(p: Seq<Seq<char>>, n: int)
    requires
        0 <= n <= p.len(),
        forall|k: int| 0 <= k < p.len() ==> (#[trigger] p[k]).len() == 0,
    ensures
        last_part(p, n) is None,
    decreases n,
{
    if n > 0 {
        lemma_no_part(p, n - 1);
    }
}

proof fn lemma_first_part(p: Seq<Seq<char>>, n: int)
    requires
        1 <= n <= p.len(),
        p[0].len() > 0,
        forall|k: int| 1 <= k < p.len() ==> (#[trigger] p[k]).len() == 0,
    ensures
        last_part(p, n) == Some(p[0]),
    decreases n,
{
    if n > 1 {
        lemma_first_part(p, n - 1);
    }
}

proof fn lemma_last_part_tail(f: Seq<Seq<char>>, p: Seq<Seq<char>>, n: int)
    requires
        0 <= n <= p.len(),
        last_part(p, n) is Some,
    ensures
        last_part(f + p, f.len() + n) == last_part(p, n),
    decreases n,
{
    if n > 0 {
        assert((f + p)[f.len() + n - 1] == p[n - 1]);
        if p[n - 1].len() == 0 {
            lemma_last_part_tail(f, p, n - 1);
        }
    }
}

proof fn lemma_named_tail(name: Seq<char>, slashes: Seq<char>)
    requires
        name.len() > 0,
        forall|i: int| 0 <= i < name.len() ==> #[trigger] name[i] != '/',
        forall|i: int| 0 <= i < slashes.len() ==> #[trigger] slashes[i] == '/',
    ensures
        last_part(split_on(name + slashes, seq!['/']), split_on(name + slashes, seq!['/']).len() as int) == Some(name),
{
    let sep = seq!['/'];
    let p = split_on(name + slashes, sep);
    if slashes.len() == 0 {
        assert(name + slashes =~= name);
        lemma_no_slash(name);
    } else {
        let rest = slashes.skip(1);
        assert(sep[0] == '/');
        assert forall|i: int| 0 <= i < name.len() implies !sep.contains(#[trigger] name[i]) by {
            assert(name[i] != '/');
        }
        lemma_split_cons(name, '/', rest, sep);
        assert(name + sep + rest =~= name + slashes);
        lemma_slash_tail(rest);
    }
    assert(p[0] == name);
    lemma_first_part(p, p.len() as int);
}

/// A short command line is never longer than it may be, and where it is cut it begins as the long
/// one does and says so.
pub proof fn law_cut(s: Seq<char>)
    ensures
        cut(s).len() <= 44,
        s.len() <= 44 ==> cut(s) == s,
        s.len() > 44 ==> cut(s) == s.take(43) + seq!['…'],
{
    if s.len() > 44 {
        assert(s.take(43).push('…') =~= s.take(43) + seq!['…']);
    }
}

/// Every argument but the program is in a short command line, each as it is shown, one blank
/// apart, where that is short enough.
pub proof fn law_summary(prog: Seq<char>, args: Seq<Seq<char>>)
    ensures
        args.len() == 0 ==> summary_of(seq![prog] + args) == "run"@,
        args.len() > 0 ==> summary_of(seq![prog] + args) == cut(joined(args.map_values(|a: Seq<char>| shown_arg(a)), " "@)),
{
    assert((seq![prog] + args).skip(1) =~= args);
}

/// Runs that started at different times have different names, whatever they ran.
pub proof fn law_run_ids_differ(s: u64, argv: Seq<Seq<char>>, t: u64, other: Seq<Seq<char>>)
    requires
        s != t,
    ensures
        id_of(s, argv) != id_of(t, other),
{
    let a = decimal(s as nat);
    let b = decimal(t as nat);
    law_decimal(s as nat);
    law_decimal(t as nat);
    reveal_strlit("-");
    let x = id_of(s, argv);
    let y = id_of(t, other);
    if x == y {
        assert(x[a.len() as int] == '-');
        assert(y[b.len() as int] == '-');
        if a.len() < b.len() {
            assert(y[a.len() as int] == b[a.len() as int]);
            assert(crate::text::ascii_digit(b[a.len() as int]));
        } else if b.len() < a.len() {
            assert(x[b.len() as int] == a[b.len() as int]);
            assert(crate::text::ascii_digit(a[b.len() as int]));
        }
        assert(x.take(a.len() as int) =~= a);
        assert(y.take(b.len() as int) =~= b);
        assert(a == b);
    }
}

} // verus!
