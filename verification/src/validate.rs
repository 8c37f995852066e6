//! Whether a file decodes, from what a full decode printed.
use vstd::prelude::*;
use crate::text::contains_text;

verus! {

/// What a decoder prints of a payload that is damaged or still encrypted.
pub open spec fn bad_signature_list() -> Seq<Seq<char>> {
    seq![
        "Invalid data found when processing input"@,
        "Prediction not allowed in AAC-LC"@,
        "channel element"@,
        "exceeds limit"@,
    ]
}

/// One of the signatures occurs in what was printed.
pub open spec fn shows_damage(stderr: Seq<char>) -> bool {
    exists|i: int| 0 <= i < bad_signature_list().len() && contains_text(stderr, #[trigger] bad_signature_list()[i])
}

/// Whether a decode was clean: it succeeded, and printed nothing.
pub fn probe_ok(success: bool, stderr: &str) -> (r: bool)
    ensures
        r == (success && stderr@.len() == 0),
{
    success && stderr.is_empty()
}

/// A decode that printed a signature of damage was not clean.
pub proof fn law_damage_is_noticed(stderr: Seq<char>)
    requires
        shows_damage(stderr),
    ensures
        stderr.len() > 0,
{
    let i = choose|i: int| 0 <= i < bad_signature_list().len() && contains_text(stderr, #[trigger] bad_signature_list()[i]);
    reveal_strlit("Invalid data found when processing input");
    reveal_strlit("Prediction not allowed in AAC-LC");
    reveal_strlit("channel element");
    reveal_strlit("exceeds limit");
    assert(bad_signature_list()[i].len() > 0);
}

/// The tracks among the first `n` that do not decode.
pub open spec fn bad_upto(tracks: Seq<Seq<char>>, ok: Seq<bool>, n: int) -> Seq<Seq<char>>
    decreases n,
{
    if n <= 0 {
        seq![]
    } else if ok[n - 1] {
        bad_upto(tracks, ok, n - 1)
    } else {
        bad_upto(tracks, ok, n - 1).push(tracks[n - 1])
    }
}

/// The tracks that do not decode, in their order. `ok` holds the answer for each.
pub fn probe_bad(tracks: &[String], ok: &[bool]) -> (r: Vec<String>)
    requires
        tracks@.len() == ok@.len(),
    ensures
        r.deep_view() == bad_upto(tracks.deep_view(), ok@, tracks@.len() as int),
{
    let ghost tv = tracks.deep_view();
    let mut out: Vec<String> = Vec::new();
    let mut i: usize = 0;
    assert(out.deep_view() =~= bad_upto(tv, ok@, 0));
    while i < tracks.len()
        invariant
            i <= tracks@.len(),
            tracks@.len() == ok@.len(),
            tv == tracks.deep_view(),
            out.deep_view() == bad_upto(tv, ok@, i as int),
        decreases tracks@.len() - i,
    {
        let ghost before = out.deep_view();
        assert(tv[i as int] == tracks@[i as int]@);
        if !ok[i] {
            out.push(tracks[i].clone());
            assert(out.deep_view() =~= before.push(tv[i as int]));
        }
        i += 1;
    }
    out
}

/// The bad tracks are those whose answer is no, in their order.
pub proof fn law_bad_tracks(tracks: Seq<Seq<char>>, ok: Seq<bool>)
    requires
        tracks.len() == ok.len(),
    ensures
        bad_upto(tracks, ok, tracks.len() as int) == Seq::new(tracks.len(), |i: int| i).filter(|i: int| !ok[i]).map_values(
            |i: int| tracks[i],
        ),
{
    lemma_bad_tracks(tracks, ok, tracks.len() as int);
    let all = Seq::new(tracks.len(), |i: int| i);
    assert(all.take(all.len() as int) =~= all);
}

proof fn lemma_bad_tracks(tracks: Seq<Seq<char>>, ok: Seq<bool>, n: int)
    requires
        0 <= n <= tracks.len(),
    ensures
        bad_upto(tracks, ok, n) == Seq::new(tracks.len(), |i: int| i).take(n).filter(|i: int| !ok[i]).map_values(
            |i: int| tracks[i],
        ),
    decreases n,
{
    reveal(Seq::filter);
    let all = Seq::new(tracks.len(), |i: int| i);
    let p = |i: int| !ok[i];
    let f = |i: int| tracks[i];
    if n > 0 {
        lemma_bad_tracks(tracks, ok, n - 1);
        assert(all.take(n).drop_last() =~= all.take(n - 1));
        assert(all.take(n).last() == n - 1);
        let before = all.take(n - 1).filter(p);
        if p(n - 1) {
            assert(all.take(n).filter(p) =~= before.push(n - 1));
            assert(before.push(n - 1).map_values(f) =~= before.map_values(f).push(f(n - 1)));
        } else {
            assert(all.take(n).filter(p) =~= before);
        }
    } else {
        assert(all.take(0).filter(p).map_values(f) =~= seq![]);
    }
}

} // verus!
