//! Driving the downloader: one address, tried in one store after another until one
//! yields tracks, since what is available differs by country.
use vstd::prelude::*;
use crate::recover::{fresh_files, fresh_upto};
use crate::text::{chars_of, find_chars, find_from, lemma_find_from, matches_at, owned, text_of};

verus! {

/// The host of the store, with the slash before the store's own part.
pub const HOST: &'static str = "music.apple.com/";

/// The address with its store replaced: the part between the host and the next slash.
/// An address without that part stays as it is.
pub open spec fn store_swapped(url: Seq<char>, sf: Seq<char>) -> Seq<char> {
    match find_from(url, HOST@, 0) {
        None => url,
        Some(i) => match find_from(url, seq!['/'], i + HOST@.len()) {
            None => url,
            Some(j) => url.take(i + HOST@.len()) + sf + url.skip(j),
        },
    }
}

/// The address with its store replaced.
pub fn swap_storefront(url: &str, sf: &str) -> (r: String)
    ensures
        r@ == store_swapped(url@, sf@),
{
    let c = chars_of(url);
    let h = chars_of(HOST);
    let slash: Vec<char> = vec!['/'];
    assert(slash@ =~= seq!['/']);
    proof {
        lemma_find_from(url@, HOST@, 0);
    }
    let n: usize = c.len();
    let m: usize = h.len();
    if let Some(i) = find_chars(&c, &h, 0) {
        assert(i + m <= n);
        let start: usize = i + m;
        proof {
            lemma_find_from(url@, seq!['/'], start as int);
        }
        if let Some(j) = find_chars(&c, &slash, start) {
            let mut out = text_of(&c, 0, start);
            out.append(sf);
            out.append(text_of(&c, j, n).as_str());
            assert(c@.subrange(0, start as int) =~= url@.take(start as int));
            assert(c@.subrange(j as int, c@.len() as int) =~= url@.skip(j as int));
            return out;
        }
    }
    url.to_string()
}

/// The arguments that the downloader is called with.
pub open spec fn arguments(output: Seq<char>, cookies: Seq<char>, artist_auto: bool, url: Seq<char>) -> Seq<Seq<char>> {
    seq!["--output-path"@, output, "--cookies-path"@, cookies] + (if artist_auto {
        seq!["--artist-auto-select"@, "main-albums"@]
    } else {
        seq![]
    }) + seq![url]
}

/// The arguments that the downloader is called with.
pub fn gamdl_args(output: &str, cookies: &str, artist_auto: bool, url: &str) -> (r: Vec<String>)
    ensures
        r.deep_view() == arguments(output@, cookies@, artist_auto, url@),
{
    let mut v: Vec<&str> = vec!["--output-path", output, "--cookies-path", cookies];
    if artist_auto {
        v.push("--artist-auto-select");
        v.push("main-albums");
    }
    v.push(url);
    assert(v.deep_view() =~= arguments(output@, cookies@, artist_auto, url@));
    owned(v.as_slice())
}

/// What came of one store.
#[derive(Debug)]
pub enum Tried {
    /// It yielded these files.
    Tracks(Vec<String>),
    /// It yielded nothing, or the downloader failed: the next store is tried.
    Next,
}

/// What came of one store: the files that were not there before, where the downloader
/// succeeded and there are any.
pub fn tried(success: bool, before: &[String], after: &[String]) -> (r: Tried)
    ensures
        ({
            let fresh = fresh_upto(before.deep_view(), after.deep_view(), after@.len() as int);
            match r {
                Tried::Tracks(v) => success && fresh.len() > 0 && v.deep_view() == fresh,
                Tried::Next => !success || fresh.len() == 0,
            }
        }),
{
    let fresh = fresh_files(before, after);
    assert(fresh.deep_view().len() == fresh@.len());
    if success && fresh.len() > 0 {
        Tried::Tracks(fresh)
    } else {
        Tried::Next
    }
}

/// The addresses that are tried, in order: one for each store.
pub open spec fn attempt_list(url: Seq<char>, stores: Seq<Seq<char>>) -> Seq<Seq<char>> {
    stores.map_values(|s: Seq<char>| store_swapped(url, s))
}

/// The addresses that are tried, in order.
pub fn attempts(url: &str, stores: &[String]) -> (r: Vec<String>)
    ensures
        r.deep_view() == attempt_list(url@, stores.deep_view()),
{
    let ghost want = attempt_list(url@, stores.deep_view());
    let mut out: Vec<String> = Vec::new();
    let mut i: usize = 0;
    assert(out.deep_view() =~= want.take(0));
    while i < stores.len()
        invariant
            i <= stores@.len(),
            want == attempt_list(url@, stores.deep_view()),
            want.len() == stores@.len(),
            out.deep_view() == want.take(i as int),
        decreases stores@.len() - i,
    {
        let ghost before = out.deep_view();
        assert(stores.deep_view()[i as int] == stores@[i as int]@);
        out.push(swap_storefront(url, stores[i].as_str()));
        assert(out.deep_view() =~= before.push(want[i as int]));
        assert(want.take(i + 1) =~= want.take(i as int).push(want[i as int]));
        i += 1;
    }
    assert(want.take(i as int) =~= want);
    out
}

/// Trying another store changes the part of an address between the host and the next slash, and
/// nothing else; an address without that part stays as it is.
pub proof fn law_store_swapped(front: Seq<char>, store: Seq<char>, rest: Seq<char>, sf: Seq<char>)
    requires
        forall|i: int| 0 <= i < store.len() ==> #[trigger] store[i] != '/',
        forall|i: int| 0 <= i < front.len() ==> !matches_at(front + HOST@ + store + seq!['/'] + rest, HOST@, i),
    ensures
        store_swapped(front + "music.apple.com/"@ + store + seq!['/'] + rest, sf) == front + "music.apple.com/"@ + sf + seq!['/']
            + rest,
{
    let url = front + HOST@ + store + seq!['/'] + rest;
    let n = front.len() as int;
    let h = HOST@.len() as int;
    lemma_find_from(url, HOST@, 0);
    assert(url.subrange(n, n + h) =~= HOST@);
    assert(matches_at(url, HOST@, n));
    assert(find_from(url, HOST@, 0) == Some(n));
    let slash = seq!['/'];
    let e = n + h + store.len();
    lemma_find_from(url, slash, n + h);
    assert(url.subrange(e, e + 1) =~= slash);
    assert(matches_at(url, slash, e));
    let j = find_from(url, slash, n + h)->0;
    if j < e {
        assert(url.subrange(j, j + 1)[0] == url[j]);
        assert(url[j] == store[j - n - h]);
    }
    assert(j == e);
    assert(url.take(n + h) + sf + url.skip(e) =~= front + HOST@ + sf + slash + rest);
}

/// An address without the host, or without a slash behind it, is left as it is.
pub proof fn law_other_address(url: Seq<char>, sf: Seq<char>)
    requires
        (forall|i: int| !matches_at(url, "music.apple.com/"@, i)) || (exists|i: int|
            matches_at(url, "music.apple.com/"@, i) && (forall|j: int| 0 <= j < i ==> !matches_at(url, "music.apple.com/"@, j))
                && (forall|j: int| i + "music.apple.com/"@.len() <= j < url.len() ==> #[trigger] url[j] != '/')),
    ensures
        store_swapped(url, sf) == url,
{
    lemma_find_from(url, HOST@, 0);
    if let Some(i) = find_from(url, HOST@, 0) {
        let from = i + HOST@.len();
        lemma_find_from(url, seq!['/'], from);
        if let Some(j) = find_from(url, seq!['/'], from) {
            assert(url.subrange(j, j + 1)[0] == url[j]);
            assert(url[j] == '/');
        }
    }
}

/// Every store is tried, in order, with the address for it.
pub proof fn law_attempts(url: Seq<char>, stores: Seq<Seq<char>>)
    ensures
        attempt_list(url, stores).len() == stores.len(),
        forall|i: int|
            0 <= i < stores.len() ==> #[trigger] attempt_list(url, stores)[i] == store_swapped(url, stores[i]),
{
}

/// The downloader is told where to write and which cookies to use, and the address is its last
/// argument; of an artist it takes the main albums.
pub proof fn law_arguments(output: Seq<char>, cookies: Seq<char>, url: Seq<char>)
    ensures
        arguments(output, cookies, false, url) == seq!["--output-path"@, output, "--cookies-path"@, cookies, url],
        arguments(output, cookies, true, url) == seq![
            "--output-path"@,
            output,
            "--cookies-path"@,
            cookies,
            "--artist-auto-select"@,
            "main-albums"@,
            url,
        ],
{
    assert(arguments(output, cookies, false, url) =~= seq!["--output-path"@, output, "--cookies-path"@, cookies, url]);
    assert(arguments(output, cookies, true, url) =~= seq![
        "--output-path"@,
        output,
        "--cookies-path"@,
        cookies,
        "--artist-auto-select"@,
        "main-albums"@,
        url,
    ]);
}

} // verus!
