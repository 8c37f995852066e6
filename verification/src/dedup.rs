//! Redundant recordings in a library. Nothing is deleted: what is found is reported,
//! with the copies that could go and the one to keep.
//!
//! Two findings, both by tags. Exact duplicates share artist, album and title as they
//! are compared; as the album is compared too, a song on a studio album and on a
//! compilation is no duplicate. A subset edition holds only tracks that another
//! edition of the same release holds as well.
use vstd::prelude::*;
use crate::covers::{album_key, norm_album};
use crate::path::{path_key, push_path_key};
use crate::sort::{
    arrange, arranged, group, group_ints, groups_of, key_ints, keys_ints, law_group_members, law_groups,
    law_sorted, lemma_less_behind, lemma_order_exists, lemma_order_len, lemma_text_key_front, less, order_of, place_ints, push_text_key, sort_order, sort_texts, sorted_texts,
    text_key, together,
};
use crate::text::{append_all, holds, squash, squashed};

verus! {

/// A track whose artist, album and title are all known.
pub struct Track {
    pub path: String,
    pub artist: String,
    pub album: String,
    pub title: String,
    /// Its length in whole seconds.
    pub dur: Option<u64>,
}

#[verifier::ext_equal]
pub struct TrackV {
    pub path: Seq<char>,
    pub artist: Seq<char>,
    pub album: Seq<char>,
    pub title: Seq<char>,
    pub dur: Option<u64>,
}

impl DeepView for Track {
    type V = TrackV;

    open spec fn deep_view(&self) -> TrackV {
        TrackV { path: self.path@, artist: self.artist@, album: self.album@, title: self.title@, dur: self.dur }
    }
}

/// Two or more files that are the same recording.
#[derive(Debug)]
pub struct DupCluster {
    pub artist: String,
    pub album: String,
    pub title: String,
    /// The copy in the most complete edition.
    pub keep: String,
    /// The other copies.
    pub remove: Vec<String>,
    /// The lengths differ by more than ten seconds: they may be different versions.
    pub durations_diverge: bool,
}

#[verifier::ext_equal]
pub struct DupClusterV {
    pub artist: Seq<char>,
    pub album: Seq<char>,
    pub title: Seq<char>,
    pub keep: Seq<char>,
    pub remove: Seq<Seq<char>>,
    pub durations_diverge: bool,
}

impl DeepView for DupCluster {
    type V = DupClusterV;

    open spec fn deep_view(&self) -> DupClusterV {
        DupClusterV {
            artist: self.artist@,
            album: self.album@,
            title: self.title@,
            keep: self.keep@,
            remove: self.remove.deep_view(),
            durations_diverge: self.durations_diverge,
        }
    }
}

/// An edition wholly contained in another edition of the same release.
#[derive(Debug)]
pub struct SubsetEdition {
    pub artist: String,
    pub album: String,
    pub covered_by: String,
    pub tracks: usize,
    pub remove: Vec<String>,
}

#[verifier::ext_equal]
pub struct SubsetEditionV {
    pub artist: Seq<char>,
    pub album: Seq<char>,
    pub covered_by: Seq<char>,
    pub tracks: int,
    pub remove: Seq<Seq<char>>,
}

impl DeepView for SubsetEdition {
    type V = SubsetEditionV;

    open spec fn deep_view(&self) -> SubsetEditionV {
        SubsetEditionV {
            artist: self.artist@,
            album: self.album@,
            covered_by: self.covered_by@,
            tracks: self.tracks as int,
            remove: self.remove.deep_view(),
        }
    }
}

#[derive(Debug)]
pub struct Report {
    /// How many files were scanned.
    pub total: usize,
    pub exact_duplicates: Vec<DupCluster>,
    pub subset_editions: Vec<SubsetEdition>,
}

// ---- which tracks count --------------------------------------------------------------

/// A track, where artist, album and title are all there and none is empty.
pub open spec fn track_of(
    path: Seq<char>,
    artist: Option<Seq<char>>,
    album: Option<Seq<char>>,
    title: Option<Seq<char>>,
    dur: Option<u64>,
) -> Option<TrackV> {
    match (artist, album, title) {
        (Some(a), Some(b), Some(t)) if a.len() > 0 && b.len() > 0 && t.len() > 0 => Some(
            TrackV { path, artist: a, album: b, title: t, dur },
        ),
        _ => None,
    }
}

/// A track, where artist, album and title are all there and none is empty: a blank
/// field beats a wrong match.
pub fn track(
    path: &str,
    artist: Option<String>,
    album: Option<String>,
    title: Option<String>,
    dur: Option<u64>,
) -> (r: Option<Track>)
    ensures
        r.deep_view() == track_of(path@, artist.deep_view(), album.deep_view(), title.deep_view(), dur),
{
    match (artist, album, title) {
        (Some(a), Some(b), Some(t)) => {
            if a.as_str().is_empty() || b.as_str().is_empty() || t.as_str().is_empty() {
                None
            } else {
                Some(Track { path: path.to_string(), artist: a, album: b, title: t, dur })
            }
        },
        _ => None,
    }
}

// ---- exact duplicates ----------------------------------------------------------------

/// What a recording is known by: artist, album and title, as they are compared.
pub open spec fn recording_key(t: TrackV) -> Seq<int> {
    text_key(squashed(t.artist)) + text_key(album_key(t.album)) + text_key(squashed(t.title))
}

pub open spec fn recording_keys(ts: Seq<TrackV>) -> Seq<Seq<int>> {
    ts.map_values(|t: TrackV| recording_key(t))
}

/// How many of the first `n` tracks carry exactly this album title.
pub open spec fn album_size(ts: Seq<TrackV>, album: Seq<char>, n: int) -> nat
    decreases n,
{
    if n <= 0 {
        0
    } else if ts[n - 1].album == album {
        album_size(ts, album, n - 1) + 1
    } else {
        album_size(ts, album, n - 1)
    }
}

/// The key by which the copies of a recording are ordered: the largest album first,
/// then by path.
pub open spec fn copy_key(ts: Seq<TrackV>, x: int) -> Seq<int> {
    seq![-(album_size(ts, ts[x].album, ts.len() as int) as int)] + path_key(ts[x].path)
}

/// The copies of a recording, the one to keep in front.
pub open spec fn copies(ts: Seq<TrackV>, g: Seq<int>) -> Seq<int> {
    arranged(g, order_of(g.map_values(|x: int| copy_key(ts, x))))
}

/// Two of the tracks have lengths more than ten seconds apart.
pub open spec fn diverge(ts: Seq<TrackV>, g: Seq<int>) -> bool {
    exists|i: int, j: int|
        0 <= i < g.len() && 0 <= j < g.len() && far_apart(ts[#[trigger] g[i]].dur, ts[#[trigger] g[j]].dur)
}

pub open spec fn far_apart(a: Option<u64>, b: Option<u64>) -> bool {
    a is Some && b is Some && a->0 - b->0 > 10
}

/// The cluster of one group of tracks.
pub open spec fn cluster_of(ts: Seq<TrackV>, g: Seq<int>) -> DupClusterV {
    let c = copies(ts, g);
    DupClusterV {
        artist: ts[c[0]].artist,
        album: ts[c[0]].album,
        title: ts[c[0]].title,
        keep: ts[c[0]].path,
        remove: c.skip(1).map_values(|x: int| ts[x].path),
        durations_diverge: diverge(ts, g),
    }
}

/// The clusters of those of the first `n` groups that hold more than one track.
pub open spec fn clusters_upto(ts: Seq<TrackV>, gs: Seq<Seq<int>>, n: int) -> Seq<DupClusterV>
    decreases n,
{
    if n <= 0 {
        seq![]
    } else if gs[n - 1].len() < 2 {
        clusters_upto(ts, gs, n - 1)
    } else {
        clusters_upto(ts, gs, n - 1).push(cluster_of(ts, gs[n - 1]))
    }
}

/// The key by which clusters are ordered: the most copies first, then by album and title.
pub open spec fn cluster_key(c: DupClusterV) -> Seq<int> {
    seq![-(c.remove.len() as int)] + text_key(c.album) + text_key(c.title)
}

/// All clusters, in order.
pub open spec fn duplicates(ts: Seq<TrackV>) -> Seq<DupClusterV> {
    let gs = groups_of(recording_keys(ts));
    let cs = clusters_upto(ts, gs, gs.len() as int);
    arranged(cs, order_of(cs.map_values(|c: DupClusterV| cluster_key(c))))
}

fn key(t: &Track) -> (r: Vec<i128>)
    ensures
        key_ints(r@) == recording_key(t.deep_view()),
{
    let mut k: Vec<i128> = Vec::new();
    push_text_key(&mut k, squash(t.artist.as_str()).as_str());
    push_text_key(&mut k, norm_album(t.album.as_str()).as_str());
    push_text_key(&mut k, squash(t.title.as_str()).as_str());
    assert(key_ints(k@) =~= recording_key(t.deep_view()));
    k
}

fn size_of_album(tracks: &[Track], album: &String) -> (r: usize)
    ensures
        r == album_size(tracks.deep_view(), album@, tracks@.len() as int),
{
    let mut n: usize = 0;
    let mut i: usize = 0;
    while i < tracks.len()
        invariant
            i <= tracks@.len(),
            n <= i,
            n == album_size(tracks.deep_view(), album@, i as int),
        decreases tracks@.len() - i,
    {
        assert(tracks.deep_view()[i as int].album == tracks@[i as int].album@);
        if tracks[i].album == *album {
            n += 1;
        }
        i += 1;
    }
    n
}

fn order_copies(tracks: &[Track], g: &[usize]) -> (r: Vec<usize>)
    requires
        forall|i: int| 0 <= i < g@.len() ==> (#[trigger] g@[i]) < tracks@.len(),
    ensures
        place_ints(r@) == copies(tracks.deep_view(), place_ints(g@)),
        r@.len() == g@.len(),
        forall|i: int| 0 <= i < r@.len() ==> (#[trigger] r@[i]) < tracks@.len(),
{
    let ghost ts = tracks.deep_view();
    let ghost want = place_ints(g@).map_values(|x: int| copy_key(ts, x));
    let mut keys: Vec<Vec<i128>> = Vec::new();
    let mut i: usize = 0;
    while i < g.len()
        invariant
            i <= g@.len(),
            ts == tracks.deep_view(),
            want == place_ints(g@).map_values(|x: int| copy_key(ts, x)),
            forall|i: int| 0 <= i < g@.len() ==> (#[trigger] g@[i]) < tracks@.len(),
            keys_ints(keys@) == want.take(i as int),
        decreases g@.len() - i,
    {
        let ghost before = keys_ints(keys@);
        let x: usize = g[i];
        let size = size_of_album(tracks, &tracks[x].album);
        let mut k: Vec<i128> = Vec::new();
        k.push(-(size as i128));
        push_path_key(&mut k, tracks[x].path.as_str());
        proof {
            assert(place_ints(g@)[i as int] == x);
            assert(ts[x as int].path == tracks@[x as int].path@ && ts[x as int].album == tracks@[x as int].album@);
            assert(key_ints(k@) =~= copy_key(ts, x as int));
        }
        keys.push(k);
        proof {
            assert(keys_ints(keys@) =~= before.push(want[i as int]));
            assert(want.take(i + 1) =~= want.take(i as int).push(want[i as int]));
        }
        i += 1;
    }
    proof {
        assert(want.take(i as int) =~= want);
        assert(keys@.len() == keys_ints(keys@).len());
    }
    let o = sort_order(&keys);
    let mut out: Vec<usize> = Vec::new();
    let mut j: usize = 0;
    while j < o.len()
        invariant
            j <= o@.len(),
            o@.len() == g@.len(),
            forall|i: int| 0 <= i < g@.len() ==> (#[trigger] g@[i]) < tracks@.len(),
            forall|i: int| 0 <= i < o@.len() ==> (#[trigger] o@[i]) < g@.len(),
            out@.len() == j,
            forall|i: int| 0 <= i < j ==> #[trigger] out@[i] == g@[o@[i] as int],
            forall|i: int| 0 <= i < j ==> (#[trigger] out@[i]) < tracks@.len(),
        decreases o@.len() - j,
    {
        out.push(g[o[j]]);
        j += 1;
    }
    assert(place_ints(out@) =~= copies(ts, place_ints(g@)));
    out
}

fn lengths_diverge(tracks: &[Track], g: &[usize]) -> (r: bool)
    requires
        forall|i: int| 0 <= i < g@.len() ==> (#[trigger] g@[i]) < tracks@.len(),
    ensures
        r == diverge(tracks.deep_view(), place_ints(g@)),
{
    let ghost ts = tracks.deep_view();
    let ghost gv = place_ints(g@);
    let mut range: Option<(u64, u64)> = None;
    let ghost mut least: int = 0;
    let ghost mut most: int = 0;
    let mut i: usize = 0;
    while i < g.len()
        invariant
            i <= g@.len(),
            ts == tracks.deep_view(),
            gv == place_ints(g@),
            forall|i: int| 0 <= i < g@.len() ==> (#[trigger] g@[i]) < tracks@.len(),
            range is None ==> forall|k: int| 0 <= k < i ==> ts[#[trigger] gv[k]].dur is None,
            range matches Some((lo, hi)) ==> {
                &&& lo <= hi
                &&& 0 <= least < i && ts[gv[least]].dur == Some(lo)
                &&& 0 <= most < i && ts[gv[most]].dur == Some(hi)
                &&& forall|k: int|
                    0 <= k < i ==> (ts[#[trigger] gv[k]].dur matches Some(d) ==> lo <= d <= hi)
            },
        decreases g@.len() - i,
    {
        assert(gv[i as int] == g@[i as int]);
        assert(ts[gv[i as int]].dur == tracks@[g@[i as int] as int].dur);
        if let Some(d) = tracks[g[i]].dur {
            match range {
                None => {
                    range = Some((d, d));
                    proof {
                        least = i as int;
                        most = i as int;
                    }
                },
                Some((lo, hi)) => {
                    if d < lo {
                        range = Some((d, hi));
                        proof {
                            least = i as int;
                        }
                    } else if d > hi {
                        range = Some((lo, d));
                        proof {
                            most = i as int;
                        }
                    }
                },
            }
        }
        i += 1;
    }
    match range {
        None => false,
        Some((lo, hi)) => {
            proof {
                if hi - lo > 10 {
                    assert(far_apart(ts[gv[most]].dur, ts[gv[least]].dur));
                }
            }
            hi - lo > 10
        },
    }
}

fn cluster(tracks: &[Track], g: &[usize]) -> (r: DupCluster)
    requires
        g@.len() >= 2,
        forall|i: int| 0 <= i < g@.len() ==> (#[trigger] g@[i]) < tracks@.len(),
    ensures
        r.deep_view() == cluster_of(tracks.deep_view(), place_ints(g@)),
{
    let ghost ts = tracks.deep_view();
    let c = order_copies(tracks, g);
    let ghost cv = place_ints(c@);
    let mut remove: Vec<String> = Vec::new();
    let mut i: usize = 1;
    let ghost want = cv.skip(1).map_values(|x: int| ts[x].path);
    while i < c.len()
        invariant
            1 <= i <= c@.len(),
            ts == tracks.deep_view(),
            cv == place_ints(c@),
            want == cv.skip(1).map_values(|x: int| ts[x].path),
            forall|i: int| 0 <= i < c@.len() ==> (#[trigger] c@[i]) < tracks@.len(),
            remove.deep_view() == want.take(i - 1),
        decreases c@.len() - i,
    {
        let ghost before = remove.deep_view();
        remove.push(tracks[c[i]].path.clone());
        proof {
            assert(cv.skip(1)[i - 1] == c@[i as int]);
            assert(want[i - 1] == tracks@[c@[i as int] as int].path@);
            assert(remove.deep_view() =~= before.push(want[i - 1]));
            assert(want.take(i as int) =~= want.take(i - 1).push(want[i - 1]));
        }
        i += 1;
    }
    assert(want.take(i - 1) =~= want);
    let keep = &tracks[c[0]];
    assert(cv[0] == c@[0]);
    DupCluster {
        artist: keep.artist.clone(),
        album: keep.album.clone(),
        title: keep.title.clone(),
        keep: keep.path.clone(),
        remove,
        durations_diverge: lengths_diverge(tracks, g),
    }
}

fn track_keys(tracks: &[Track]) -> (r: Vec<Vec<i128>>)
    ensures
        keys_ints(r@) == recording_keys(tracks.deep_view()),
        r@.len() == tracks@.len(),
{
    let ghost want = recording_keys(tracks.deep_view());
    let mut keys: Vec<Vec<i128>> = Vec::new();
    let mut i: usize = 0;
    while i < tracks.len()
        invariant
            i <= tracks@.len(),
            want == recording_keys(tracks.deep_view()),
            keys@.len() == i,
            keys_ints(keys@) == want.take(i as int),
        decreases tracks@.len() - i,
    {
        let ghost before = keys_ints(keys@);
        keys.push(key(&tracks[i]));
        proof {
            assert(keys_ints(keys@) =~= before.push(want[i as int]));
            assert(want.take(i + 1) =~= want.take(i as int).push(want[i as int]));
        }
        i += 1;
    }
    assert(want.take(i as int) =~= want);
    keys
}

/// The recordings that are there more than once, the most copies first.
pub fn exact_duplicates(tracks: &[Track]) -> (r: Vec<DupCluster>)
    ensures
        r.deep_view() == duplicates(tracks.deep_view()),
{
    let ghost ts = tracks.deep_view();
    let keys = track_keys(tracks);
    let gs = group(&keys);
    let ghost gv = group_ints(gs@);
    let mut cs: Vec<DupCluster> = Vec::new();
    let mut order: Vec<Vec<i128>> = Vec::new();
    let mut n: usize = 0;
    assert(cs.deep_view() =~= clusters_upto(ts, gv, 0));
    while n < gs.len()
        invariant
            n <= gs@.len(),
            ts == tracks.deep_view(),
            gv == group_ints(gs@),
            forall|k: int, i: int| 0 <= k < gs@.len() && 0 <= i < gs@[k]@.len() ==> (#[trigger] gs@[k]@[i]) < tracks@.len(),
            cs.deep_view() == clusters_upto(ts, gv, n as int),
            keys_ints(order@) == cs.deep_view().map_values(|c: DupClusterV| cluster_key(c)),
            order@.len() == cs@.len(),
        decreases gs@.len() - n,
    {
        let ghost before = cs.deep_view();
        let ghost before_k = keys_ints(order@);
        assert(gv[n as int] == place_ints(gs@[n as int]@));
        if gs[n].len() >= 2 {
            let c = cluster(tracks, gs[n].as_slice());
            let ghost cv = c.deep_view();
            let mut k: Vec<i128> = Vec::new();
            k.push(-(c.remove.len() as i128));
            push_text_key(&mut k, c.album.as_str());
            push_text_key(&mut k, c.title.as_str());
            assert(key_ints(k@) =~= cluster_key(cv));
            cs.push(c);
            order.push(k);
            proof {
                assert(cs.deep_view() =~= before.push(cv));
                assert(keys_ints(order@) =~= before_k.push(cluster_key(cv)));
                assert(cs.deep_view().map_values(|c: DupClusterV| cluster_key(c)) =~= before_k.push(cluster_key(cv)));
            }
        }
        n += 1;
    }
    let o = sort_order(&order);
    proof {
        lemma_order_len(keys_ints(order@), place_ints(o@));
    }
    let ghost all = cs.deep_view();
    let r = arrange(cs, &o);
    assert(r.deep_view() =~= duplicates(ts));
    r
}

/// Two tracks are told to be the same recording exactly where artist, album and title
/// agree as they are compared: a copy on another release is not.
pub proof fn law_same_recording(ts: Seq<TrackV>, x: int, y: int)
    requires
        0 <= x < ts.len(),
        0 <= y < ts.len(),
    ensures
        together(groups_of(recording_keys(ts)), x, y) <==> {
            &&& squashed(ts[x].artist) == squashed(ts[y].artist)
            &&& album_key(ts[x].album) == album_key(ts[y].album)
            &&& squashed(ts[x].title) == squashed(ts[y].title)
        },
{
    law_groups(recording_keys(ts), x, y);
    let a = ts[x];
    let b = ts[y];
    assert(recording_keys(ts)[x] == recording_key(a));
    assert(recording_keys(ts)[y] == recording_key(b));
    if recording_key(a) == recording_key(b) {
        let a2 = text_key(album_key(a.album)) + text_key(squashed(a.title));
        let b2 = text_key(album_key(b.album)) + text_key(squashed(b.title));
        assert(recording_key(a) =~= text_key(squashed(a.artist)) + a2);
        assert(recording_key(b) =~= text_key(squashed(b.artist)) + b2);
        lemma_text_key_front(squashed(a.artist), a2, squashed(b.artist), b2);
        lemma_text_key_front(album_key(a.album), text_key(squashed(a.title)), album_key(b.album), text_key(squashed(b.title)));
        assert(text_key(squashed(a.title)) + seq![] =~= text_key(squashed(a.title)));
        assert(text_key(squashed(b.title)) + seq![] =~= text_key(squashed(b.title)));
        lemma_text_key_front(squashed(a.title), seq![], squashed(b.title), seq![]);
    }
}

/// Of the copies of a recording, all are accounted for, and the one to keep is in an
/// album with as many tracks as any.
pub proof fn law_keeper(ts: Seq<TrackV>, g: Seq<int>, i: int)
    requires
        0 <= i < g.len(),
    ensures
        copies(ts, g).len() == g.len(),
        copies(ts, g).contains(g[i]),
        album_size(ts, ts[g[i]].album, ts.len() as int) <= album_size(ts, ts[copies(ts, g)[0]].album, ts.len() as int),
{
    let keys = g.map_values(|x: int| copy_key(ts, x));
    lemma_order_exists(keys);
    let o = order_of(keys);
    lemma_order_len(keys, o);
    let c = copies(ts, g);
    assert(o.contains(i));
    let k = choose|k: int| 0 <= k < o.len() && o[k] == i;
    assert(c[k] == g[i]);
    let a = keys[o[0]];
    let b = keys[i];
    assert(a[0] == -(album_size(ts, ts[g[o[0]]].album, ts.len() as int) as int));
    assert(b[0] == -(album_size(ts, ts[g[i]].album, ts.len() as int) as int));
    if k > 0 {
        assert(crate::sort::precedes(keys, o[0], o[k]));
    }
}

/// The size of an album is how many tracks carry exactly its title.
pub proof fn law_album_size(ts: Seq<TrackV>, album: Seq<char>)
    ensures
        album_size(ts, album, ts.len() as int) == ts.filter(|t: TrackV| t.album == album).len(),
{
    lemma_album_size(ts, album, ts.len() as int);
    assert(ts.take(ts.len() as int) =~= ts);
}

proof fn lemma_album_size(ts: Seq<TrackV>, album: Seq<char>, n: int)
    requires
        0 <= n <= ts.len(),
    ensures
        album_size(ts, album, n) == ts.take(n).filter(|t: TrackV| t.album == album).len(),
    decreases n,
{
    reveal(Seq::filter);
    if n > 0 {
        lemma_album_size(ts, album, n - 1);
        assert(ts.take(n).drop_last() =~= ts.take(n - 1));
        assert(ts.take(n).last() == ts[n - 1]);
    }
}

/// The places of the tracks that a test holds for, in order, each once.
pub open spec fn places(ts: Seq<TrackV>, test: spec_fn(TrackV) -> bool, g: Seq<int>) -> bool {
    &&& forall|x: int| #[trigger] g.contains(x) <==> 0 <= x < ts.len() && test(ts[x])
    &&& forall|i: int, j: int| 0 <= i < j < g.len() ==> #[trigger] g[i] < #[trigger] g[j]
}

/// A track is a copy of this recording: artist, album and title agree as they are compared.
pub open spec fn same_recording(t: TrackV, artist: Seq<char>, album: Seq<char>, title: Seq<char>) -> bool {
    &&& squashed(t.artist) == squashed(artist)
    &&& album_key(t.album) == album_key(album)
    &&& squashed(t.title) == squashed(title)
}

proof fn lemma_recording_key(a: TrackV, b: TrackV)
    ensures
        recording_key(a) == recording_key(b) <==> same_recording(a, b.artist, b.album, b.title),
{
    let ts = seq![a, b];
    law_same_recording(ts, 0, 1);
    law_groups(recording_keys(ts), 0, 1);
    assert(recording_keys(ts)[0] == recording_key(a));
    assert(recording_keys(ts)[1] == recording_key(b));
}

/// The groups behind the clusters: those of more than one track, in order.
proof fn lemma_cluster_places(ts: Seq<TrackV>, gs: Seq<Seq<int>>, n: int) -> (es: Seq<int>)
    requires
        0 <= n <= gs.len(),
    ensures
        ({
            let v = clusters_upto(ts, gs, n);
            &&& es.len() == v.len()
            &&& forall|i: int|
                0 <= i < es.len() ==> 0 <= #[trigger] es[i] < n && gs[es[i]].len() >= 2 && v[i] == cluster_of(ts, gs[es[i]])
            &&& forall|i: int, j: int| 0 <= i < j < es.len() ==> #[trigger] es[i] < #[trigger] es[j]
            &&& forall|e: int| 0 <= e < n && (#[trigger] gs[e]).len() >= 2 ==> es.contains(e)
        }),
    decreases n,
{
    if n <= 0 {
        seq![]
    } else {
        let before = lemma_cluster_places(ts, gs, n - 1);
        if gs[n - 1].len() < 2 {
            before
        } else {
            let es = before.push(n - 1);
            assert forall|e: int| 0 <= e < n && (#[trigger] gs[e]).len() >= 2 implies es.contains(e) by {
                if e < n - 1 {
                    let i = choose|i: int| 0 <= i < before.len() && before[i] == e;
                    assert(es[i] == e);
                } else {
                    assert(es[before.len() as int] == e);
                }
            }
            es
        }
    }
}

/// A cluster is one recording with all of its copies: it holds every track that agrees with
/// it on artist, album and title, two at least. One copy is kept, with its own artist, album
/// and title: one whose album has the most tracks, and of those the first by path. All of the
/// others are listed to go, none of them twice. It is told to diverge exactly where two of
/// its tracks have lengths more than ten seconds apart. The places of its tracks are given,
/// the one to keep in front.
pub proof fn law_cluster(ts: Seq<TrackV>, p: int) -> (r: (Seq<int>, Seq<int>))
    requires
        0 <= p < duplicates(ts).len(),
    ensures
        ({
            let c = duplicates(ts)[p];
            let (g, o) = r;
            &&& places(ts, |t: TrackV| same_recording(t, c.artist, c.album, c.title), g)
            &&& g.len() >= 2
            &&& o.to_multiset() == g.to_multiset()
            &&& c.artist == ts[o[0]].artist && c.album == ts[o[0]].album && c.title == ts[o[0]].title
            &&& seq![c.keep] + c.remove == o.map_values(|x: int| ts[x].path)
            &&& forall|i: int|
                1 <= i < o.len() ==> {
                    let kept = album_size(ts, c.album, ts.len() as int);
                    let other = album_size(ts, ts[#[trigger] o[i]].album, ts.len() as int);
                    kept > other || (kept == other && !less(path_key(ts[o[i]].path), path_key(c.keep)))
                }
            &&& c.durations_diverge <==> exists|x: int, y: int|
                0 <= x < ts.len() && 0 <= y < ts.len() && same_recording(
                    #[trigger] ts[x],
                    c.artist,
                    c.album,
                    c.title,
                ) && same_recording(#[trigger] ts[y], c.artist, c.album, c.title) && (ts[x].dur matches Some(a) && ts[y].dur matches Some(b)
                    && a - b > 10)
        }),
{
    let keys = recording_keys(ts);
    let gs = groups_of(keys);
    let cs = clusters_upto(ts, gs, gs.len() as int);
    let es = lemma_cluster_places(ts, gs, gs.len() as int);
    let order = cs.map_values(|c: DupClusterV| cluster_key(c));
    law_sorted(cs, order);
    let q = order_of(order)[p];
    let e = es[q];
    let g = gs[e];
    law_group_members(keys, e);
    let c = duplicates(ts)[p];
    assert(c == cluster_of(ts, g));
    let ck = g.map_values(|x: int| copy_key(ts, x));
    law_sorted(g, ck);
    let o = copies(ts, g);
    let oo = order_of(ck);
    assert(o.contains(o[0]));
    assert(o[0] == g[oo[0]]);
    assert(g.contains(o[0]));
    assert forall|x: int| #[trigger] g.contains(x) <==> 0 <= x < ts.len() && same_recording(
        ts[x],
        c.artist,
        c.album,
        c.title,
    ) by {
        if 0 <= x < ts.len() {
            assert(keys[x] == recording_key(ts[x]));
            assert(keys[g[0]] == recording_key(ts[g[0]]));
            assert(keys[o[0]] == recording_key(ts[o[0]]));
            lemma_recording_key(ts[x], ts[o[0]]);
        }
    }
    assert(seq![c.keep] + c.remove =~= o.map_values(|x: int| ts[x].path));
    assert forall|i: int| 1 <= i < o.len() implies {
        let kept = album_size(ts, c.album, ts.len() as int);
        let other = album_size(ts, ts[#[trigger] o[i]].album, ts.len() as int);
        kept > other || (kept == other && !less(path_key(ts[o[i]].path), path_key(c.keep)))
    } by {
        let a = ck[oo[0]];
        let b = ck[oo[i]];
        assert(o[i] == g[oo[i]]);
        assert(a == copy_key(ts, o[0]) && b == copy_key(ts, o[i]));
        assert(!less(ck[oo[i]], ck[oo[0]]));
        let n = ts.len() as int;
        let x = -(album_size(ts, ts[o[i]].album, n) as int);
        let y = -(album_size(ts, ts[o[0]].album, n) as int);
        assert(b[0] == x && a[0] == y);
        lemma_less_behind(x, path_key(ts[o[i]].path), path_key(ts[o[0]].path), 0);
    }
    if c.durations_diverge {
        let (i, j) = choose|i: int, j: int|
            0 <= i < g.len() && 0 <= j < g.len() && far_apart(ts[#[trigger] g[i]].dur, ts[#[trigger] g[j]].dur);
        assert(g.contains(g[i]) && g.contains(g[j]));
        let (x, y) = (g[i], g[j]);
        assert(same_recording(ts[x], c.artist, c.album, c.title) && same_recording(ts[y], c.artist, c.album, c.title));
    }
    if exists|x: int, y: int|
        0 <= x < ts.len() && 0 <= y < ts.len() && same_recording(#[trigger] ts[x], c.artist, c.album, c.title)
            && same_recording(#[trigger] ts[y], c.artist, c.album, c.title) && (ts[x].dur matches Some(a) && ts[y].dur matches Some(b)
            && a - b > 10) {
        let (x, y) = choose|x: int, y: int|
            0 <= x < ts.len() && 0 <= y < ts.len() && same_recording(#[trigger] ts[x], c.artist, c.album, c.title)
                && same_recording(#[trigger] ts[y], c.artist, c.album, c.title) && (ts[x].dur matches Some(a) && ts[y].dur matches Some(b)
                && a - b > 10);
        assert(g.contains(x) && g.contains(y));
        let i = choose|i: int| 0 <= i < g.len() && g[i] == x;
        let j = choose|j: int| 0 <= j < g.len() && g[j] == y;
        assert(far_apart(ts[g[i]].dur, ts[g[j]].dur));
    }
    (g, o)
}

/// Every recording that is there twice has its cluster, and no recording has two. The
/// clusters go by how many copies could go, the most first, then by album and by title.
pub proof fn law_clusters(ts: Seq<TrackV>)
    ensures
        forall|x: int, y: int|
            0 <= x < ts.len() && 0 <= y < ts.len() && x != y && same_recording(
                #[trigger] ts[x],
                #[trigger] ts[y].artist,
                ts[y].album,
                ts[y].title,
            ) ==> exists|p: int|
                0 <= p < duplicates(ts).len() && same_recording(
                    ts[x],
                    (#[trigger] duplicates(ts)[p]).artist,
                    duplicates(ts)[p].album,
                    duplicates(ts)[p].title,
                ),
        forall|p: int, q: int|
            0 <= p < q < duplicates(ts).len() ==> {
                let a = #[trigger] duplicates(ts)[p];
                let b = #[trigger] duplicates(ts)[q];
                &&& !(squashed(a.artist) == squashed(b.artist) && album_key(a.album) == album_key(b.album) && squashed(a.title)
                    == squashed(b.title))
                &&& a.remove.len() > b.remove.len() || (a.remove.len() == b.remove.len() && !less(
                    text_key(b.album) + text_key(b.title),
                    text_key(a.album) + text_key(a.title),
                ))
            },
{
    let keys = recording_keys(ts);
    let gs = groups_of(keys);
    let cs = clusters_upto(ts, gs, gs.len() as int);
    let es = lemma_cluster_places(ts, gs, gs.len() as int);
    let order = cs.map_values(|c: DupClusterV| cluster_key(c));
    law_sorted(cs, order);
    let o = order_of(order);
    let d = duplicates(ts);
    assert forall|x: int, y: int|
        0 <= x < ts.len() && 0 <= y < ts.len() && x != y && same_recording(
            #[trigger] ts[x],
            #[trigger] ts[y].artist,
            ts[y].album,
            ts[y].title,
        ) implies exists|p: int|
        0 <= p < d.len() && same_recording(ts[x], (#[trigger] d[p]).artist, d[p].album, d[p].title) by {
        law_same_recording(ts, x, y);
        let k = choose|k: int| 0 <= k < gs.len() && (#[trigger] gs[k]).contains(x) && gs[k].contains(y);
        let i = choose|i: int| 0 <= i < gs[k].len() && gs[k][i] == x;
        let j = choose|j: int| 0 <= j < gs[k].len() && gs[k][j] == y;
        assert(gs[k].len() >= 2);
        let q = choose|q: int| 0 <= q < es.len() && es[q] == k;
        assert(o.contains(q));
        let p = choose|p: int| 0 <= p < o.len() && o[p] == q;
        assert(d[p] == cluster_of(ts, gs[k]));
        lemma_keeper_agrees(ts, k, x);
    }
    assert forall|p: int, q: int| 0 <= p < q < d.len() implies {
        let a = #[trigger] d[p];
        let b = #[trigger] d[q];
        &&& !(squashed(a.artist) == squashed(b.artist) && album_key(a.album) == album_key(b.album) && squashed(a.title)
            == squashed(b.title))
        &&& a.remove.len() > b.remove.len() || (a.remove.len() == b.remove.len() && !less(
            text_key(b.album) + text_key(b.title),
            text_key(a.album) + text_key(a.title),
        ))
    } by {
        let a = d[p];
        let b = d[q];
        assert(o[p] != o[q]);
        let (e, f) = (es[o[p]], es[o[q]]);
        assert(e != f);
        assert(a == cluster_of(ts, gs[e]) && b == cluster_of(ts, gs[f]));
        if squashed(a.artist) == squashed(b.artist) && album_key(a.album) == album_key(b.album) && squashed(a.title)
            == squashed(b.title) {
            let x = gs[f][0];
            law_group_members(keys, f);
            law_group_members(keys, e);
            assert(gs[f].contains(x));
            lemma_keeper_agrees(ts, f, x);
            assert(same_recording(ts[x], a.artist, a.album, a.title));
            let y = gs[e][0];
            assert(gs[e].contains(y));
            lemma_keeper_agrees(ts, e, y);
            lemma_recording_key(ts[x], ts[y]);
            assert(keys[x] == recording_key(ts[x]) && keys[y] == recording_key(ts[y]));
            assert(gs[e].contains(x));
            if e < f {
                crate::sort::lemma_less_asymmetric(keys[y], keys[x], 0);
                assert(less(keys[gs[e][0]], keys[gs[f][0]]));
            } else {
                crate::sort::lemma_less_asymmetric(keys[x], keys[y], 0);
                assert(less(keys[gs[f][0]], keys[gs[e][0]]));
            }
        }
        assert(order[o[p]] == cluster_key(a) && order[o[q]] == cluster_key(b));
        assert(!less(order[o[q]], order[o[p]]));
        let ra = text_key(a.album) + text_key(a.title);
        let rb = text_key(b.album) + text_key(b.title);
        let na = -(a.remove.len() as int);
        let nb = -(b.remove.len() as int);
        assert(cluster_key(a) =~= seq![na] + ra);
        assert(cluster_key(b) =~= seq![nb] + rb);
        assert(cluster_key(a)[0] == na && cluster_key(b)[0] == nb);
        lemma_less_behind(na, rb, ra, 0);
    }
}

/// The tracks of a group agree with the one to keep.
proof fn lemma_keeper_agrees(ts: Seq<TrackV>, k: int, x: int)
    requires
        0 <= k < groups_of(recording_keys(ts)).len(),
        groups_of(recording_keys(ts))[k].contains(x),
    ensures
        ({
            let c = cluster_of(ts, groups_of(recording_keys(ts))[k]);
            same_recording(ts[x], c.artist, c.album, c.title)
        }),
{
    let keys = recording_keys(ts);
    let g = groups_of(keys)[k];
    law_group_members(keys, k);
    let ck = g.map_values(|x: int| copy_key(ts, x));
    law_sorted(g, ck);
    let y = copies(ts, g)[0];
    assert(y == g[order_of(ck)[0]]);
    assert(g.contains(y));
    assert(keys[x] == recording_key(ts[x]) && keys[y] == recording_key(ts[y]));
    lemma_recording_key(ts[x], ts[y]);
}

// ---- subset editions -----------------------------------------------------------------

/// What a release is known by: artist and album, as they are compared.
pub open spec fn release_key(t: TrackV) -> Seq<int> {
    text_key(squashed(t.artist)) + text_key(album_key(t.album))
}

/// What an edition of a release is known by: the release, and the album title as it stands.
pub open spec fn edition_key(t: TrackV) -> Seq<int> {
    release_key(t) + text_key(t.album)
}

pub open spec fn edition_keys(ts: Seq<TrackV>) -> Seq<Seq<int>> {
    ts.map_values(|t: TrackV| edition_key(t))
}

/// The titles in a group of tracks, as they are compared.
pub open spec fn titles_of(ts: Seq<TrackV>, g: Seq<int>) -> Seq<Seq<char>> {
    g.map_values(|x: int| squashed(ts[x].title))
}

/// All of `a` is in `b`, there is something in `a`, and something more in `b`.
pub open spec fn strict_subset(a: Seq<Seq<char>>, b: Seq<Seq<char>>) -> bool {
    &&& a.len() > 0
    &&& forall|i: int| 0 <= i < a.len() ==> #[trigger] b.contains(a[i])
    &&& exists|j: int| 0 <= j < b.len() && !a.contains(#[trigger] b[j])
}

/// Edition `f` covers edition `e`: another edition of the same release, with all of its
/// titles and more.
pub open spec fn covers_edition(ts: Seq<TrackV>, gs: Seq<Seq<int>>, e: int, f: int) -> bool {
    &&& e != f
    &&& release_key(ts[gs[e][0]]) == release_key(ts[gs[f][0]])
    &&& strict_subset(titles_of(ts, gs[e]), titles_of(ts, gs[f]))
}

/// The first edition from `f` on that covers edition `e`.
pub open spec fn cover_from(ts: Seq<TrackV>, gs: Seq<Seq<int>>, e: int, f: int) -> Option<int>
    decreases gs.len() - f,
{
    if f >= gs.len() {
        None
    } else if covers_edition(ts, gs, e, f) {
        Some(f)
    } else {
        cover_from(ts, gs, e, f + 1)
    }
}

/// The finding for edition `e`, covered by edition `f`.
pub open spec fn subset_of(ts: Seq<TrackV>, gs: Seq<Seq<int>>, e: int, f: int) -> SubsetEditionV {
    SubsetEditionV {
        artist: ts[gs[e][0]].artist,
        album: ts[gs[e][0]].album,
        covered_by: ts[gs[f][0]].album,
        tracks: gs[e].len() as int,
        remove: sorted_texts(gs[e].map_values(|x: int| ts[x].path)),
    }
}

/// The findings for the first `n` editions.
pub open spec fn subsets_upto(ts: Seq<TrackV>, gs: Seq<Seq<int>>, n: int) -> Seq<SubsetEditionV>
    decreases n,
{
    if n <= 0 {
        seq![]
    } else {
        match cover_from(ts, gs, n - 1, 0) {
            Some(f) => subsets_upto(ts, gs, n - 1).push(subset_of(ts, gs, n - 1, f)),
            None => subsets_upto(ts, gs, n - 1),
        }
    }
}

/// The key by which the findings are ordered: the most tracks first, then by album.
pub open spec fn subset_key(s: SubsetEditionV) -> Seq<int> {
    seq![-s.tracks] + text_key(s.album)
}

/// All subset editions, in order.
pub open spec fn subsets(ts: Seq<TrackV>) -> Seq<SubsetEditionV> {
    let gs = groups_of(edition_keys(ts));
    let v = subsets_upto(ts, gs, gs.len() as int);
    arranged(v, order_of(v.map_values(|s: SubsetEditionV| subset_key(s))))
}

/// A track is of this artist's edition: the artist agrees as it is compared, and the album
/// title is the same to the letter.
pub open spec fn of_edition(t: TrackV, artist: Seq<char>, album: Seq<char>) -> bool {
    squashed(t.artist) == squashed(artist) && t.album == album
}

/// A track of this artist's edition has this title, as titles are compared.
pub open spec fn edition_has(ts: Seq<TrackV>, artist: Seq<char>, album: Seq<char>, title: Seq<char>) -> bool {
    exists|x: int| 0 <= x < ts.len() && of_edition(#[trigger] ts[x], artist, album) && squashed(ts[x].title) == title
}

proof fn lemma_edition_key(a: TrackV, b: TrackV)
    ensures
        release_key(a) == release_key(b) <==> squashed(a.artist) == squashed(b.artist) && album_key(a.album) == album_key(
            b.album,
        ),
        edition_key(a) == edition_key(b) <==> of_edition(a, b.artist, b.album),
{
    if release_key(a) == release_key(b) {
        lemma_text_key_front(
            squashed(a.artist),
            text_key(album_key(a.album)),
            squashed(b.artist),
            text_key(album_key(b.album)),
        );
        assert(text_key(album_key(a.album)) + seq![] =~= text_key(album_key(a.album)));
        assert(text_key(album_key(b.album)) + seq![] =~= text_key(album_key(b.album)));
        lemma_text_key_front(album_key(a.album), seq![], album_key(b.album), seq![]);
    }
    if edition_key(a) == edition_key(b) {
        let a2 = text_key(album_key(a.album)) + text_key(a.album);
        let b2 = text_key(album_key(b.album)) + text_key(b.album);
        assert(edition_key(a) =~= text_key(squashed(a.artist)) + a2);
        assert(edition_key(b) =~= text_key(squashed(b.artist)) + b2);
        lemma_text_key_front(squashed(a.artist), a2, squashed(b.artist), b2);
        lemma_text_key_front(album_key(a.album), text_key(a.album), album_key(b.album), text_key(b.album));
        assert(text_key(a.album) + seq![] =~= text_key(a.album));
        assert(text_key(b.album) + seq![] =~= text_key(b.album));
        lemma_text_key_front(a.album, seq![], b.album, seq![]);
    }
}

proof fn lemma_cover_from(ts: Seq<TrackV>, gs: Seq<Seq<int>>, e: int, f: int)
    requires
        0 <= f,
    ensures
        match cover_from(ts, gs, e, f) {
            Some(c) => f <= c < gs.len() && covers_edition(ts, gs, e, c),
            None => forall|c: int| f <= c < gs.len() ==> !#[trigger] covers_edition(ts, gs, e, c),
        },
    decreases gs.len() - f,
{
    if f < gs.len() && !covers_edition(ts, gs, e, f) {
        lemma_cover_from(ts, gs, e, f + 1);
    }
}

/// The groups behind the findings: those that another covers, in order.
proof fn lemma_subset_places(ts: Seq<TrackV>, gs: Seq<Seq<int>>, n: int) -> (es: Seq<int>)
    requires
        0 <= n <= gs.len(),
    ensures
        ({
            let v = subsets_upto(ts, gs, n);
            &&& es.len() == v.len()
            &&& forall|i: int|
                0 <= i < es.len() ==> 0 <= #[trigger] es[i] < n && (cover_from(ts, gs, es[i], 0) matches Some(f) && v[i]
                    == subset_of(ts, gs, es[i], f))
            &&& forall|i: int, j: int| 0 <= i < j < es.len() ==> #[trigger] es[i] < #[trigger] es[j]
            &&& forall|e: int| 0 <= e < n && #[trigger] cover_from(ts, gs, e, 0) is Some ==> es.contains(e)
        }),
    decreases n,
{
    if n <= 0 {
        seq![]
    } else {
        let before = lemma_subset_places(ts, gs, n - 1);
        if cover_from(ts, gs, n - 1, 0) is None {
            before
        } else {
            let es = before.push(n - 1);
            assert forall|e: int| 0 <= e < n && #[trigger] cover_from(ts, gs, e, 0) is Some implies es.contains(e) by {
                if e < n - 1 {
                    let i = choose|i: int| 0 <= i < before.len() && before[i] == e;
                    assert(es[i] == e);
                } else {
                    assert(es[before.len() as int] == e);
                }
            }
            es
        }
    }
}

/// The group of an edition holds exactly its tracks.
proof fn lemma_edition_members(ts: Seq<TrackV>, k: int)
    requires
        0 <= k < groups_of(edition_keys(ts)).len(),
    ensures
        ({
            let g = groups_of(edition_keys(ts))[k];
            let t = ts[g[0]];
            &&& g.len() > 0 && 0 <= g[0] < ts.len()
            &&& places(ts, |u: TrackV| of_edition(u, t.artist, t.album), g)
            &&& forall|w: Seq<char>| #[trigger] titles_of(ts, g).contains(w) <==> edition_has(ts, t.artist, t.album, w)
        }),
{
    let keys = edition_keys(ts);
    let g = groups_of(keys)[k];
    law_group_members(keys, k);
    let t = ts[g[0]];
    assert(keys[g[0]] == edition_key(t));
    assert forall|x: int| #[trigger] g.contains(x) <==> 0 <= x < ts.len() && of_edition(ts[x], t.artist, t.album) by {
        if 0 <= x < ts.len() {
            assert(keys[x] == edition_key(ts[x]));
            lemma_edition_key(ts[x], t);
        }
    }
    assert forall|w: Seq<char>| #[trigger] titles_of(ts, g).contains(w) <==> edition_has(ts, t.artist, t.album, w) by {
        let l = titles_of(ts, g);
        if l.contains(w) {
            let i = choose|i: int| 0 <= i < l.len() && l[i] == w;
            assert(g.contains(g[i]));
            assert(of_edition(ts[g[i]], t.artist, t.album));
        }
        if edition_has(ts, t.artist, t.album, w) {
            let x = choose|x: int|
                0 <= x < ts.len() && of_edition(#[trigger] ts[x], t.artist, t.album) && squashed(ts[x].title) == w;
            assert(g.contains(x));
            let i = choose|i: int| 0 <= i < g.len() && g[i] == x;
            assert(l[i] == w);
        }
    }
}

/// A subset edition names an edition and one that holds all of its titles and more: another
/// title of the same release by the same artist. What could go is all of the edition and
/// nothing else: the path of every track that carries it, each once, as many as are counted,
/// in order. The artist is shown as its first track has it. The places of its tracks are given.
pub proof fn law_subset_edition(ts: Seq<TrackV>, p: int) -> (g: Seq<int>)
    requires
        0 <= p < subsets(ts).len(),
    ensures
        ({
            let s = subsets(ts)[p];
            &&& places(ts, |t: TrackV| of_edition(t, s.artist, s.album), g)
            &&& g.len() > 0 && s.artist == ts[g[0]].artist
            &&& s.tracks == g.len() && s.remove.len() == g.len()
            &&& s.remove.to_multiset() == g.map_values(|x: int| ts[x].path).to_multiset()
            &&& forall|x: int|
                0 <= x < ts.len() && of_edition(#[trigger] ts[x], s.artist, s.album) ==> s.remove.contains(ts[x].path)
            &&& forall|i: int|
                0 <= i < s.remove.len() ==> exists|x: int|
                    0 <= x < ts.len() && of_edition(#[trigger] ts[x], s.artist, s.album) && ts[x].path
                        == #[trigger] s.remove[i]
            &&& forall|i: int, j: int|
                0 <= i < j < s.remove.len() ==> !less(text_key(#[trigger] s.remove[j]), text_key(#[trigger] s.remove[i]))
            &&& s.covered_by != s.album && album_key(s.covered_by) == album_key(s.album)
            &&& forall|w: Seq<char>| #[trigger]
                edition_has(ts, s.artist, s.album, w) ==> edition_has(ts, s.artist, s.covered_by, w)
            &&& exists|w: Seq<char>| #[trigger]
                edition_has(ts, s.artist, s.covered_by, w) && !edition_has(ts, s.artist, s.album, w)
        }),
{
    let keys = edition_keys(ts);
    let gs = groups_of(keys);
    let v = subsets_upto(ts, gs, gs.len() as int);
    let es = lemma_subset_places(ts, gs, gs.len() as int);
    let order = v.map_values(|s: SubsetEditionV| subset_key(s));
    law_sorted(v, order);
    let q = order_of(order)[p];
    let e = es[q];
    let f = cover_from(ts, gs, e, 0)->0;
    lemma_cover_from(ts, gs, e, 0);
    let s = subsets(ts)[p];
    assert(s == subset_of(ts, gs, e, f));
    let g = gs[e];
    let h = gs[f];
    lemma_edition_members(ts, e);
    lemma_edition_members(ts, f);
    let paths = g.map_values(|x: int| ts[x].path);
    let pk = paths.map_values(|t: Seq<char>| text_key(t));
    law_sorted(paths, pk);
    let o = order_of(pk);
    assert forall|x: int| 0 <= x < ts.len() && of_edition(#[trigger] ts[x], s.artist, s.album) implies s.remove.contains(
        ts[x].path,
    ) by {
        assert(g.contains(x));
        let i = choose|i: int| 0 <= i < g.len() && g[i] == x;
        assert(o.contains(i));
        let k = choose|k: int| 0 <= k < o.len() && o[k] == i;
        assert(s.remove[k] == paths[o[k]]);
    }
    assert forall|i: int| 0 <= i < s.remove.len() implies exists|x: int|
        0 <= x < ts.len() && of_edition(#[trigger] ts[x], s.artist, s.album) && ts[x].path == #[trigger] s.remove[i] by {
        let x = g[o[i]];
        assert(g.contains(x));
        assert(ts[x].path == s.remove[i]);
    }
    assert forall|i: int, j: int| 0 <= i < j < s.remove.len() implies !less(
        text_key(#[trigger] s.remove[j]),
        text_key(#[trigger] s.remove[i]),
    ) by {
        assert(!less(pk[o[j]], pk[o[i]]));
    }
    let a = ts[g[0]];
    let b = ts[h[0]];
    lemma_edition_key(a, b);
    if s.covered_by == s.album {
        law_group_members(keys, e);
        law_group_members(keys, f);
        assert(keys[g[0]] == edition_key(a) && keys[h[0]] == edition_key(b));
        if e < f {
            assert(less(keys[gs[e][0]], keys[gs[f][0]]));
            crate::sort::lemma_less_asymmetric(keys[g[0]], keys[h[0]], 0);
        } else {
            assert(less(keys[gs[f][0]], keys[gs[e][0]]));
            crate::sort::lemma_less_asymmetric(keys[h[0]], keys[g[0]], 0);
        }
    }
    let inner = titles_of(ts, g);
    let outer = titles_of(ts, h);
    assert forall|w: Seq<char>| edition_has(ts, b.artist, b.album, w) <==> #[trigger] edition_has(ts, s.artist, b.album, w) by {
        assert forall|t: TrackV| of_edition(t, b.artist, b.album) == #[trigger] of_edition(t, s.artist, b.album) by {}
    }
    assert forall|w: Seq<char>| #[trigger] edition_has(ts, s.artist, s.album, w) implies edition_has(
        ts,
        s.artist,
        s.covered_by,
        w,
    ) by {
        assert(inner.contains(w));
        let i = choose|i: int| 0 <= i < inner.len() && inner[i] == w;
        assert(outer.contains(inner[i]));
    }
    let j = choose|j: int| 0 <= j < outer.len() && !inner.contains(#[trigger] outer[j]);
    assert(outer.contains(outer[j]));
    assert(edition_has(ts, s.artist, s.covered_by, outer[j]));
    g
}

/// Every edition that another edition of its release covers is found, once, and the findings
/// go by how many tracks they have, the most first, then by album title.
pub proof fn law_subset_editions(ts: Seq<TrackV>)
    ensures
        forall|x: int, y: int|
            0 <= x < ts.len() && 0 <= y < ts.len() && squashed((#[trigger] ts[x]).artist) == squashed(
                (#[trigger] ts[y]).artist,
            ) && album_key(ts[x].album) == album_key(ts[y].album) && (forall|w: Seq<char>| #[trigger]
                edition_has(ts, ts[x].artist, ts[x].album, w) ==> edition_has(ts, ts[y].artist, ts[y].album, w)) && (exists|w: Seq<
                char,
            >| #[trigger]
                edition_has(ts, ts[y].artist, ts[y].album, w) && !edition_has(ts, ts[x].artist, ts[x].album, w))
                ==> exists|p: int| 0 <= p < subsets(ts).len() && of_edition(
                ts[x],
                (#[trigger] subsets(ts)[p]).artist,
                subsets(ts)[p].album,
            ),
        forall|p: int, q: int|
            0 <= p < q < subsets(ts).len() ==> {
                let a = #[trigger] subsets(ts)[p];
                let b = #[trigger] subsets(ts)[q];
                &&& !(squashed(a.artist) == squashed(b.artist) && a.album == b.album)
                &&& a.tracks > b.tracks || (a.tracks == b.tracks && !less(text_key(b.album), text_key(a.album)))
            },
{
    let keys = edition_keys(ts);
    let gs = groups_of(keys);
    let v = subsets_upto(ts, gs, gs.len() as int);
    let es = lemma_subset_places(ts, gs, gs.len() as int);
    let order = v.map_values(|s: SubsetEditionV| subset_key(s));
    law_sorted(v, order);
    let o = order_of(order);
    let d = subsets(ts);
    assert forall|x: int, y: int|
        0 <= x < ts.len() && 0 <= y < ts.len() && squashed((#[trigger] ts[x]).artist) == squashed(
            (#[trigger] ts[y]).artist,
        ) && album_key(ts[x].album) == album_key(ts[y].album) && (forall|w: Seq<char>| #[trigger]
            edition_has(ts, ts[x].artist, ts[x].album, w) ==> edition_has(ts, ts[y].artist, ts[y].album, w)) && (exists|w: Seq<
            char,
        >| #[trigger]
            edition_has(ts, ts[y].artist, ts[y].album, w) && !edition_has(ts, ts[x].artist, ts[x].album, w)) implies exists|
        p: int,
    |
        0 <= p < d.len() && of_edition(ts[x], (#[trigger] d[p]).artist, d[p].album) by {
        law_groups(keys, x, x);
        law_groups(keys, y, y);
        let e = choose|k: int| 0 <= k < gs.len() && (#[trigger] gs[k]).contains(x) && gs[k].contains(x);
        let f = choose|k: int| 0 <= k < gs.len() && (#[trigger] gs[k]).contains(y) && gs[k].contains(y);
        lemma_edition_members(ts, e);
        lemma_edition_members(ts, f);
        let a = ts[gs[e][0]];
        let b = ts[gs[f][0]];
        lemma_edition_alike(ts, ts[x], a);
        lemma_edition_alike(ts, ts[y], b);
        lemma_edition_key(a, b);
        let inner = titles_of(ts, gs[e]);
        let outer = titles_of(ts, gs[f]);
        assert forall|i: int| 0 <= i < inner.len() implies #[trigger] outer.contains(inner[i]) by {
            assert(inner.contains(inner[i]));
            assert(edition_has(ts, ts[x].artist, ts[x].album, inner[i]));
        }
        let w = choose|w: Seq<char>| #[trigger]
            edition_has(ts, ts[y].artist, ts[y].album, w) && !edition_has(ts, ts[x].artist, ts[x].album, w);
        assert(outer.contains(w) && !inner.contains(w));
        let j = choose|j: int| 0 <= j < outer.len() && outer[j] == w;
        assert(!inner.contains(outer[j]));
        assert(strict_subset(inner, outer));
        assert(covers_edition(ts, gs, e, f));
        lemma_cover_from(ts, gs, e, 0);
        assert(es.contains(e));
        let q = choose|q: int| 0 <= q < es.len() && es[q] == e;
        assert(o.contains(q));
        let p = choose|p: int| 0 <= p < o.len() && o[p] == q;
        assert(d[p] == v[q]);
    }
    assert forall|p: int, q: int| 0 <= p < q < d.len() implies {
        let a = #[trigger] d[p];
        let b = #[trigger] d[q];
        &&& !(squashed(a.artist) == squashed(b.artist) && a.album == b.album)
        &&& a.tracks > b.tracks || (a.tracks == b.tracks && !less(text_key(b.album), text_key(a.album)))
    } by {
        let a = d[p];
        let b = d[q];
        assert(o[p] != o[q]);
        let (e, f) = (es[o[p]], es[o[q]]);
        assert(e != f);
        law_group_members(keys, e);
        law_group_members(keys, f);
        let (x, y) = (gs[e][0], gs[f][0]);
        assert(a.album == ts[x].album && a.artist == ts[x].artist);
        assert(b.album == ts[y].album && b.artist == ts[y].artist);
        assert(keys[x] == edition_key(ts[x]) && keys[y] == edition_key(ts[y]));
        lemma_edition_key(ts[x], ts[y]);
        if e < f {
            assert(less(keys[gs[e][0]], keys[gs[f][0]]));
            crate::sort::lemma_less_asymmetric(keys[x], keys[y], 0);
        } else {
            assert(less(keys[gs[f][0]], keys[gs[e][0]]));
            crate::sort::lemma_less_asymmetric(keys[y], keys[x], 0);
        }
        assert(order[o[p]] == subset_key(a) && order[o[q]] == subset_key(b));
        assert(!less(order[o[q]], order[o[p]]));
        assert(subset_key(a)[0] == -a.tracks && subset_key(b)[0] == -b.tracks);
        lemma_less_behind(-a.tracks, text_key(b.album), text_key(a.album), 0);
    }
}

/// Two tracks of one edition speak of the same edition.
proof fn lemma_edition_alike(ts: Seq<TrackV>, a: TrackV, b: TrackV)
    requires
        of_edition(a, b.artist, b.album),
    ensures
        forall|w: Seq<char>| #[trigger] edition_has(ts, a.artist, a.album, w) <==> edition_has(ts, b.artist, b.album, w),
{
    assert forall|w: Seq<char>| #[trigger] edition_has(ts, a.artist, a.album, w) <==> edition_has(
        ts,
        b.artist,
        b.album,
        w,
    ) by {
        assert forall|t: TrackV| of_edition(t, a.artist, a.album) == #[trigger] of_edition(t, b.artist, b.album) by {}
    }
}

/// All that could go is what the clusters list, then what the subset editions list, each
/// list whole and in its order.
pub proof fn law_removals(cs: Seq<DupClusterV>, v: Seq<SubsetEditionV>)
    ensures
        cluster_removals(cs, cs.len() as int) == cs.map_values(|c: DupClusterV| c.remove).flatten(),
        subset_removals(v, v.len() as int) == v.map_values(|s: SubsetEditionV| s.remove).flatten(),
{
    lemma_cluster_removals(cs, cs.len() as int);
    lemma_subset_removals(v, v.len() as int);
    assert(cs.take(cs.len() as int) =~= cs);
    assert(v.take(v.len() as int) =~= v);
}

proof fn lemma_cluster_removals(cs: Seq<DupClusterV>, n: int)
    requires
        0 <= n <= cs.len(),
    ensures
        cluster_removals(cs, n) == cs.take(n).map_values(|c: DupClusterV| c.remove).flatten(),
    decreases n,
{
    let l = cs.take(n).map_values(|c: DupClusterV| c.remove);
    l.lemma_flatten_and_flatten_alt_are_equivalent();
    if n > 0 {
        lemma_cluster_removals(cs, n - 1);
        let b = cs.take(n - 1).map_values(|c: DupClusterV| c.remove);
        b.lemma_flatten_and_flatten_alt_are_equivalent();
        assert(l.drop_last() =~= b);
        assert(l.last() == cs[n - 1].remove);
    }
}

proof fn lemma_subset_removals(v: Seq<SubsetEditionV>, n: int)
    requires
        0 <= n <= v.len(),
    ensures
        subset_removals(v, n) == v.take(n).map_values(|s: SubsetEditionV| s.remove).flatten(),
    decreases n,
{
    let l = v.take(n).map_values(|s: SubsetEditionV| s.remove);
    l.lemma_flatten_and_flatten_alt_are_equivalent();
    if n > 0 {
        lemma_subset_removals(v, n - 1);
        let b = v.take(n - 1).map_values(|s: SubsetEditionV| s.remove);
        b.lemma_flatten_and_flatten_alt_are_equivalent();
        assert(l.drop_last() =~= b);
        assert(l.last() == v[n - 1].remove);
    }
}

/// Nothing is lost by a subset edition alone: each title in it is in the edition that covers
/// it, which is another edition of the same release and has a title more.
pub proof fn law_subset_is_covered(ts: Seq<TrackV>, gs: Seq<Seq<int>>, e: int, f: int, i: int)
    requires
        0 <= f,
        0 <= i < gs[e].len(),
    ensures
        cover_from(ts, gs, e, f) matches Some(c) ==> {
            &&& f <= c < gs.len() && c != e
            &&& release_key(ts[gs[e][0]]) == release_key(ts[gs[c][0]])
            &&& titles_of(ts, gs[c]).contains(squashed(ts[gs[e][i]].title))
            &&& exists|j: int| 0 <= j < gs[c].len() && !titles_of(ts, gs[e]).contains(#[trigger] titles_of(ts, gs[c])[j])
        },
    decreases gs.len() - f,
{
    if f < gs.len() {
        if covers_edition(ts, gs, e, f) {
            assert(titles_of(ts, gs[e])[i] == squashed(ts[gs[e][i]].title));
        } else {
            law_subset_is_covered(ts, gs, e, f + 1, i);
        }
    }
}

/// Editions that share no title, such as the discs of a set, are never subsets of each
/// other, and neither are editions with the same titles.
pub proof fn law_discs_are_safe(a: Seq<Seq<char>>, b: Seq<Seq<char>>)
    ensures
        (forall|i: int| 0 <= i < a.len() ==> !b.contains(#[trigger] a[i])) ==> !strict_subset(a, b),
        (forall|j: int| 0 <= j < b.len() ==> a.contains(#[trigger] b[j])) ==> !strict_subset(a, b),
{
    if strict_subset(a, b) {
        assert(b.contains(a[0]));
    }
}

/// Whether `a` is a non-empty strict subset of `b`. Equal sets are not: those are
/// duplicates; nor are disjoint ones, such as the discs of a set.
pub fn is_strict_subset(a: &[String], b: &[String]) -> (r: bool)
    ensures
        r == strict_subset(a.deep_view(), b.deep_view()),
{
    if a.len() == 0 {
        return false;
    }
    let ghost av = a.deep_view();
    let ghost bv = b.deep_view();
    let mut i: usize = 0;
    while i < a.len()
        invariant
            i <= a@.len(),
            av == a.deep_view(),
            bv == b.deep_view(),
            forall|j: int| 0 <= j < i ==> #[trigger] bv.contains(av[j]),
        decreases a@.len() - i,
    {
        assert(av[i as int] == a@[i as int]@);
        if !holds(b, a[i].as_str()) {
            assert(!bv.contains(av[i as int]));
            return false;
        }
        i += 1;
    }
    let mut j: usize = 0;
    while j < b.len()
        invariant
            j <= b@.len(),
            av == a.deep_view(),
            bv == b.deep_view(),
            av.len() > 0,
            forall|k: int| 0 <= k < av.len() ==> #[trigger] bv.contains(av[k]),
            forall|k: int| 0 <= k < j ==> av.contains(#[trigger] bv[k]),
        decreases b@.len() - j,
    {
        assert(bv[j as int] == b@[j as int]@);
        if !holds(a, b[j].as_str()) {
            assert(!av.contains(bv[j as int]));
            return true;
        }
        j += 1;
    }
    false
}

fn push_release_key(k: &mut Vec<i128>, t: &Track)
    ensures
        key_ints(final(k)@) == key_ints(old(k)@) + release_key(t.deep_view()),
{
    push_text_key(k, squash(t.artist.as_str()).as_str());
    push_text_key(k, norm_album(t.album.as_str()).as_str());
    assert(key_ints(k@) =~= key_ints(old(k)@) + release_key(t.deep_view()));
}

fn track_edition_keys(tracks: &[Track]) -> (r: Vec<Vec<i128>>)
    ensures
        keys_ints(r@) == edition_keys(tracks.deep_view()),
        r@.len() == tracks@.len(),
{
    let ghost want = edition_keys(tracks.deep_view());
    let mut keys: Vec<Vec<i128>> = Vec::new();
    let mut i: usize = 0;
    while i < tracks.len()
        invariant
            i <= tracks@.len(),
            want == edition_keys(tracks.deep_view()),
            keys@.len() == i,
            keys_ints(keys@) == want.take(i as int),
        decreases tracks@.len() - i,
    {
        let ghost before = keys_ints(keys@);
        let mut k: Vec<i128> = Vec::new();
        push_release_key(&mut k, &tracks[i]);
        push_text_key(&mut k, tracks[i].album.as_str());
        assert(key_ints(k@) =~= want[i as int]);
        keys.push(k);
        proof {
            assert(keys_ints(keys@) =~= before.push(want[i as int]));
            assert(want.take(i + 1) =~= want.take(i as int).push(want[i as int]));
        }
        i += 1;
    }
    assert(want.take(i as int) =~= want);
    keys
}

fn group_titles(tracks: &[Track], g: &[usize]) -> (r: Vec<String>)
    requires
        forall|i: int| 0 <= i < g@.len() ==> (#[trigger] g@[i]) < tracks@.len(),
    ensures
        r.deep_view() == titles_of(tracks.deep_view(), place_ints(g@)),
{
    let ghost want = titles_of(tracks.deep_view(), place_ints(g@));
    let mut out: Vec<String> = Vec::new();
    let mut i: usize = 0;
    while i < g.len()
        invariant
            i <= g@.len(),
            forall|i: int| 0 <= i < g@.len() ==> (#[trigger] g@[i]) < tracks@.len(),
            want == titles_of(tracks.deep_view(), place_ints(g@)),
            out.deep_view() == want.take(i as int),
        decreases g@.len() - i,
    {
        let ghost before = out.deep_view();
        out.push(squash(tracks[g[i]].title.as_str()));
        proof {
            assert(place_ints(g@)[i as int] == g@[i as int]);
            assert(tracks.deep_view()[g@[i as int] as int].title == tracks@[g@[i as int] as int].title@);
            assert(out.deep_view() =~= before.push(want[i as int]));
            assert(want.take(i + 1) =~= want.take(i as int).push(want[i as int]));
        }
        i += 1;
    }
    assert(want.take(i as int) =~= want);
    out
}

fn group_paths(tracks: &[Track], g: &[usize]) -> (r: Vec<String>)
    requires
        forall|i: int| 0 <= i < g@.len() ==> (#[trigger] g@[i]) < tracks@.len(),
    ensures
        r.deep_view() == place_ints(g@).map_values(|x: int| tracks.deep_view()[x].path),
{
    let ghost want = place_ints(g@).map_values(|x: int| tracks.deep_view()[x].path);
    let mut out: Vec<String> = Vec::new();
    let mut i: usize = 0;
    while i < g.len()
        invariant
            i <= g@.len(),
            forall|i: int| 0 <= i < g@.len() ==> (#[trigger] g@[i]) < tracks@.len(),
            want == place_ints(g@).map_values(|x: int| tracks.deep_view()[x].path),
            out.deep_view() == want.take(i as int),
        decreases g@.len() - i,
    {
        let ghost before = out.deep_view();
        out.push(tracks[g[i]].path.clone());
        proof {
            assert(place_ints(g@)[i as int] == g@[i as int]);
            assert(out.deep_view() =~= before.push(want[i as int]));
            assert(want.take(i + 1) =~= want.take(i as int).push(want[i as int]));
        }
        i += 1;
    }
    assert(want.take(i as int) =~= want);
    out
}

fn same_release(a: &Track, b: &Track) -> (r: bool)
    ensures
        r == (release_key(a.deep_view()) == release_key(b.deep_view())),
{
    let aa = squash(a.artist.as_str());
    let ba = squash(b.artist.as_str());
    let al = norm_album(a.album.as_str());
    let bl = norm_album(b.album.as_str());
    proof {
        if release_key(a.deep_view()) == release_key(b.deep_view()) {
            lemma_text_key_front(aa@, text_key(al@), ba@, text_key(bl@));
            assert(text_key(al@) + seq![] =~= text_key(al@));
            assert(text_key(bl@) + seq![] =~= text_key(bl@));
            lemma_text_key_front(al@, seq![], bl@, seq![]);
        }
    }
    aa == ba && al == bl
}

fn find_cover(tracks: &[Track], gs: &[Vec<usize>], e: usize) -> (r: Option<usize>)
    requires
        e < gs@.len(),
        forall|k: int, i: int| 0 <= k < gs@.len() && 0 <= i < gs@[k]@.len() ==> (#[trigger] gs@[k]@[i]) < tracks@.len(),
        forall|k: int| 0 <= k < gs@.len() ==> (#[trigger] gs@[k])@.len() > 0,
    ensures
        match r {
            Some(f) => f < gs@.len() && cover_from(tracks.deep_view(), group_ints(gs@), e as int, 0) == Some(f as int),
            None => cover_from(tracks.deep_view(), group_ints(gs@), e as int, 0) is None,
        },
{
    let ghost ts = tracks.deep_view();
    let ghost gv = group_ints(gs@);
    let titles = group_titles(tracks, gs[e].as_slice());
    let mut f: usize = 0;
    while f < gs.len()
        invariant
            f <= gs@.len(),
            e < gs@.len(),
            ts == tracks.deep_view(),
            gv == group_ints(gs@),
            forall|k: int, i: int| 0 <= k < gs@.len() && 0 <= i < gs@[k]@.len() ==> (#[trigger] gs@[k]@[i]) < tracks@.len(),
            forall|k: int| 0 <= k < gs@.len() ==> (#[trigger] gs@[k])@.len() > 0,
            titles.deep_view() == titles_of(ts, gv[e as int]),
            cover_from(ts, gv, e as int, 0) == cover_from(ts, gv, e as int, f as int),
        decreases gs@.len() - f,
    {
        proof {
            assert(gv[e as int] == place_ints(gs@[e as int]@));
            assert(gv[f as int] == place_ints(gs@[f as int]@));
            assert(gs@[e as int]@.len() > 0 && gs@[f as int]@.len() > 0);
            assert(gv[e as int][0] == gs@[e as int]@[0]);
            assert(gv[f as int][0] == gs@[f as int]@[0]);
        }
        if f != e && same_release(&tracks[gs[e][0]], &tracks[gs[f][0]]) && is_strict_subset(
            titles.as_slice(),
            group_titles(tracks, gs[f].as_slice()).as_slice(),
        ) {
            return Some(f);
        }
        f += 1;
    }
    None
}

/// The editions that another edition of the same release covers, the most tracks first.
pub fn subset_editions(tracks: &[Track]) -> (r: Vec<SubsetEdition>)
    ensures
        r.deep_view() == subsets(tracks.deep_view()),
{
    let ghost ts = tracks.deep_view();
    let keys = track_edition_keys(tracks);
    let gs = group(&keys);
    let ghost gv = group_ints(gs@);
    let mut v: Vec<SubsetEdition> = Vec::new();
    let mut order: Vec<Vec<i128>> = Vec::new();
    let mut n: usize = 0;
    assert(v.deep_view() =~= subsets_upto(ts, gv, 0));
    while n < gs.len()
        invariant
            n <= gs@.len(),
            ts == tracks.deep_view(),
            gv == group_ints(gs@),
            forall|k: int, i: int| 0 <= k < gs@.len() && 0 <= i < gs@[k]@.len() ==> (#[trigger] gs@[k]@[i]) < tracks@.len(),
            forall|k: int| 0 <= k < gs@.len() ==> (#[trigger] gs@[k])@.len() > 0,
            v.deep_view() == subsets_upto(ts, gv, n as int),
            keys_ints(order@) == v.deep_view().map_values(|s: SubsetEditionV| subset_key(s)),
            order@.len() == v@.len(),
        decreases gs@.len() - n,
    {
        let ghost before = v.deep_view();
        let ghost before_k = keys_ints(order@);
        if let Some(f) = find_cover(tracks, &gs, n) {
            proof {
                assert(gv[n as int] == place_ints(gs@[n as int]@));
                assert(gv[f as int] == place_ints(gs@[f as int]@));
                assert(gs@[n as int]@.len() > 0 && gs@[f as int]@.len() > 0);
                assert(gv[n as int][0] == gs@[n as int]@[0]);
                assert(gv[f as int][0] == gs@[f as int]@[0]);
            }
            let first = &tracks[gs[n][0]];
            let s = SubsetEdition {
                artist: first.artist.clone(),
                album: first.album.clone(),
                covered_by: tracks[gs[f][0]].album.clone(),
                tracks: gs[n].len(),
                remove: sort_texts(group_paths(tracks, gs[n].as_slice())),
            };
            let ghost sv = s.deep_view();
            assert(sv =~= subset_of(ts, gv, n as int, f as int));
            let mut k: Vec<i128> = Vec::new();
            k.push(-(s.tracks as i128));
            push_text_key(&mut k, s.album.as_str());
            assert(key_ints(k@) =~= subset_key(sv));
            v.push(s);
            order.push(k);
            proof {
                assert(v.deep_view() =~= before.push(sv));
                assert(keys_ints(order@) =~= before_k.push(subset_key(sv)));
                assert(v.deep_view().map_values(|s: SubsetEditionV| subset_key(s)) =~= before_k.push(subset_key(sv)));
            }
        }
        n += 1;
    }
    let o = sort_order(&order);
    proof {
        lemma_order_len(keys_ints(order@), place_ints(o@));
    }
    let r = arrange(v, &o);
    assert(r.deep_view() =~= subsets(ts));
    r
}

// ---- the report ------------------------------------------------------------------------

/// All paths of the first `n` clusters that could go.
pub open spec fn cluster_removals(cs: Seq<DupClusterV>, n: int) -> Seq<Seq<char>>
    decreases n,
{
    if n <= 0 {
        seq![]
    } else {
        cluster_removals(cs, n - 1) + cs[n - 1].remove
    }
}

/// All paths of the first `n` subset editions that could go.
pub open spec fn subset_removals(v: Seq<SubsetEditionV>, n: int) -> Seq<Seq<char>>
    decreases n,
{
    if n <= 0 {
        seq![]
    } else {
        subset_removals(v, n - 1) + v[n - 1].remove
    }
}

impl Report {
    /// Nothing redundant was found.
    pub fn is_clean(&self) -> (r: bool)
        ensures
            r == (self.exact_duplicates@.len() == 0 && self.subset_editions@.len() == 0),
    {
        self.exact_duplicates.len() == 0 && self.subset_editions.len() == 0
    }

    /// The copies that could go, in the order of the report.
    pub fn removals(&self) -> (r: Vec<String>)
        ensures
            r.deep_view() == cluster_removals(self.exact_duplicates.deep_view(), self.exact_duplicates@.len() as int)
                + subset_removals(self.subset_editions.deep_view(), self.subset_editions@.len() as int),
    {
        let ghost cs = self.exact_duplicates.deep_view();
        let ghost ss = self.subset_editions.deep_view();
        let mut out: Vec<String> = Vec::new();
        let mut i: usize = 0;
        assert(out.deep_view() =~= cluster_removals(cs, 0));
        while i < self.exact_duplicates.len()
            invariant
                i <= self.exact_duplicates@.len(),
                cs == self.exact_duplicates.deep_view(),
                out.deep_view() == cluster_removals(cs, i as int),
            decreases self.exact_duplicates@.len() - i,
        {
            append_all(&mut out, &self.exact_duplicates[i].remove);
            assert(cs[i as int].remove == self.exact_duplicates@[i as int].remove.deep_view());
            i += 1;
        }
        let ghost front = out.deep_view();
        let mut j: usize = 0;
        assert(front + subset_removals(ss, 0) =~= front);
        while j < self.subset_editions.len()
            invariant
                j <= self.subset_editions@.len(),
                ss == self.subset_editions.deep_view(),
                out.deep_view() == front + subset_removals(ss, j as int),
            decreases self.subset_editions@.len() - j,
        {
            append_all(&mut out, &self.subset_editions[j].remove);
            proof {
                assert(ss[j as int].remove == self.subset_editions@[j as int].remove.deep_view());
                assert(front + subset_removals(ss, j as int) + ss[j as int].remove =~= front + subset_removals(ss, j + 1));
            }
            j += 1;
        }
        out
    }
}

/// The report on a library of `total` files, of which `tracks` have all their tags.
pub fn run(total: usize, tracks: &[Track]) -> (r: Report)
    ensures
        r.total == total,
        r.exact_duplicates.deep_view() == duplicates(tracks.deep_view()),
        r.subset_editions.deep_view() == subsets(tracks.deep_view()),
{
    Report { total, exact_duplicates: exact_duplicates(tracks), subset_editions: subset_editions(tracks) }
}

/// A file counts as a track exactly where its artist, its album and its title are all there and
/// none is empty, and it is then the track that its tags say.
pub proof fn law_track(path: Seq<char>, artist: Option<Seq<char>>, album: Option<Seq<char>>, title: Option<Seq<char>>, dur: Option<u64>)
    ensures
        match track_of(path, artist, album, title, dur) {
            Some(t) => {
                &&& t.artist.len() > 0 && t.album.len() > 0 && t.title.len() > 0
                &&& artist == Some(t.artist) && album == Some(t.album) && title == Some(t.title)
                &&& t.path == path && t.dur == dur
            },
            None => {
                ||| artist is None || artist->0.len() == 0
                ||| album is None || album->0.len() == 0
                ||| title is None || title->0.len() == 0
            },
        },
{
}

} // verus!
