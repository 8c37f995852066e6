//! Paths as texts: their components, their order, and the name, stem and extension of
//! the file they lead to. A slash separates components.
use vstd::prelude::*;
use crate::sort::{key_ints, lemma_less_behind, less, push_text_key, text_key};
use crate::text::{
    chars_of, first_of, law_split, law_split_apart, lemma_first_of, lemma_split_cons, lemma_split_one, same, split,
    split_on, text_of,
};

verus! {

/// A component of a path.
#[derive(Debug)]
pub enum Component {
    /// The slash at the front of an absolute path.
    Root,
    /// A single dot at the front of a relative path.
    Here,
    /// Two dots.
    Up,
    Name(String),
}

/// What a component is.
#[verifier::ext_equal]
pub enum ComponentV {
    Root,
    Here,
    Up,
    Name(Seq<char>),
}

impl DeepView for Component {
    type V = ComponentV;

    open spec fn deep_view(&self) -> ComponentV {
        match *self {
            Component::Root => ComponentV::Root,
            Component::Here => ComponentV::Here,
            Component::Up => ComponentV::Up,
            Component::Name(s) => ComponentV::Name(s@),
        }
    }
}

/// The components that the first `n` pieces between slashes make. Empty pieces make
/// none, nor does a dot that is not at the front.
pub open spec fn pieces_components(pieces: Seq<Seq<char>>, n: int) -> Seq<ComponentV>
    decreases n,
{
    if n <= 0 {
        seq![]
    } else {
        let before = pieces_components(pieces, n - 1);
        let p = pieces[n - 1];
        if p.len() == 0 {
            before
        } else if p == seq!['.'] {
            if n == 1 {
                before.push(ComponentV::Here)
            } else {
                before
            }
        } else if p == seq!['.', '.'] {
            before.push(ComponentV::Up)
        } else {
            before.push(ComponentV::Name(p))
        }
    }
}

/// The components of a path.
pub open spec fn components_of(p: Seq<char>) -> Seq<ComponentV> {
    let pieces = split_on(p, seq!['/']);
    (if p.len() > 0 && p[0] == '/' {
        seq![ComponentV::Root]
    } else {
        seq![]
    }) + pieces_components(pieces, pieces.len() as int)
}

/// The components of a path.
pub fn components(p: &str) -> (r: Vec<Component>)
    ensures
        r.deep_view() == components_of(p@),
{
    let c = chars_of(p);
    let slash: [char; 1] = ['/'];
    assert(slash@ =~= seq!['/']);
    let pieces = split(p, &slash);
    let ghost pv = pieces.deep_view();
    let mut out: Vec<Component> = Vec::new();
    if c.len() > 0 && c[0] == '/' {
        out.push(Component::Root);
    }
    let ghost front = out.deep_view();
    proof {
        reveal_strlit(".");
        reveal_strlit("..");
        assert("."@ =~= seq!['.']);
        assert(".."@ =~= seq!['.', '.']);
        assert(front =~= (if p@.len() > 0 && p@[0] == '/' {
            seq![ComponentV::Root]
        } else {
            seq![]
        }));
        assert(front + pieces_components(pv, 0) =~= front);
    }
    let mut i: usize = 0;
    while i < pieces.len()
        invariant
            i <= pieces@.len(),
            pv == pieces.deep_view(),
            "."@ == seq!['.'],
            ".."@ == seq!['.', '.'],
            out.deep_view() == front + pieces_components(pv, i as int),
        decreases pieces@.len() - i,
    {
        let ghost before = out.deep_view();
        assert(pv[i as int] == pieces@[i as int]@);
        let piece = pieces[i].as_str();
        if !piece.is_empty() {
            if same(piece, ".") {
                if i == 0 {
                    out.push(Component::Here);
                    assert(out.deep_view() =~= before.push(ComponentV::Here));
                }
            } else if same(piece, "..") {
                out.push(Component::Up);
                assert(out.deep_view() =~= before.push(ComponentV::Up));
            } else {
                out.push(Component::Name(piece.to_string()));
                assert(out.deep_view() =~= before.push(ComponentV::Name(pv[i as int])));
            }
        }
        assert(out.deep_view() =~= front + pieces_components(pv, i + 1));
        i += 1;
    }
    out
}

pub open spec fn component_key(c: ComponentV) -> Seq<int> {
    match c {
        ComponentV::Root => seq![1],
        ComponentV::Here => seq![2],
        ComponentV::Up => seq![3],
        ComponentV::Name(s) => seq![4] + text_key(s),
    }
}

pub open spec fn components_key(cs: Seq<ComponentV>) -> Seq<int>
    decreases cs.len(),
{
    if cs.len() == 0 {
        seq![]
    } else {
        components_key(cs.drop_last()) + component_key(cs.last())
    }
}

/// The key by which paths are ordered: component by component.
pub open spec fn path_key(p: Seq<char>) -> Seq<int> {
    components_key(components_of(p))
}

/// Appends the key by which paths are ordered.
pub fn push_path_key(k: &mut Vec<i128>, p: &str)
    ensures
        key_ints(final(k)@) == key_ints(old(k)@) + path_key(p@),
{
    let cs = components(p);
    let ghost cv = cs.deep_view();
    let ghost before = key_ints(k@);
    let mut i: usize = 0;
    assert(before + components_key(cv.take(0)) =~= before);
    while i < cs.len()
        invariant
            i <= cs@.len(),
            cv == cs.deep_view(),
            key_ints(k@) == before + components_key(cv.take(i as int)),
        decreases cs@.len() - i,
    {
        let ghost mid = key_ints(k@);
        assert(cv[i as int] == cs@[i as int].deep_view());
        match &cs[i] {
            Component::Root => {
                k.push(1);
                assert(key_ints(k@) =~= mid.push(1));
            },
            Component::Here => {
                k.push(2);
                assert(key_ints(k@) =~= mid.push(2));
            },
            Component::Up => {
                k.push(3);
                assert(key_ints(k@) =~= mid.push(3));
            },
            Component::Name(s) => {
                k.push(4);
                assert(key_ints(k@) =~= mid.push(4));
                push_text_key(k, s.as_str());
            },
        }
        proof {
            assert(cv.take(i + 1).drop_last() =~= cv.take(i as int));
            assert(key_ints(k@) =~= before + components_key(cv.take(i + 1)));
        }
        i += 1;
    }
    assert(cv.take(i as int) =~= cv);
}

/// The key by which paths are ordered.
pub fn path_order_key(p: &str) -> (r: Vec<i128>)
    ensures
        key_ints(r@) == path_key(p@),
{
    let mut k: Vec<i128> = Vec::new();
    push_path_key(&mut k, p);
    assert(key_ints(Seq::<i128>::empty()) + path_key(p@) =~= path_key(p@));
    k
}

/// The name of the file that a path leads to: its last component, where that is a name.
pub open spec fn name_of(p: Seq<char>) -> Option<Seq<char>> {
    let cs = components_of(p);
    if cs.len() > 0 {
        match cs.last() {
            ComponentV::Name(s) => Some(s),
            _ => None,
        }
    } else {
        None
    }
}

/// The name of the file that a path leads to.
pub fn file_name(p: &str) -> (r: Option<String>)
    ensures
        r.deep_view() == name_of(p@),
{
    let mut cs = components(p);
    let ghost cv = cs.deep_view();
    match cs.pop() {
        Some(c) => {
            assert(cv.last() == c.deep_view());
            match c {
                Component::Name(s) => Some(s),
                _ => None,
            }
        },
        None => None,
    }
}

/// The place of the last dot among the first `n` characters, or -1.
pub open spec fn last_dot(s: Seq<char>, n: int) -> int
    decreases n,
{
    if n <= 0 {
        -1
    } else if s[n - 1] == '.' {
        n - 1
    } else {
        last_dot(s, n - 1)
    }
}

/// A file name without what follows its last dot. A dot at the front is no such dot.
pub open spec fn stem_of_name(name: Seq<char>) -> Seq<char> {
    let d = last_dot(name, name.len() as int);
    if d > 0 {
        name.take(d)
    } else {
        name
    }
}

/// What follows the last dot of a file name. A dot at the front is no such dot.
pub open spec fn extension_of_name(name: Seq<char>) -> Option<Seq<char>> {
    let d = last_dot(name, name.len() as int);
    if d > 0 {
        Some(name.skip(d + 1))
    } else {
        None
    }
}

fn find_dot(c: &[char]) -> (r: usize)
    ensures
        r <= c@.len(),
        r > 0 ==> last_dot(c@, c@.len() as int) == r - 1,
        r == 0 ==> last_dot(c@, c@.len() as int) == -1,
{
    let mut n: usize = c.len();
    while n > 0 && c[n - 1] != '.'
        invariant
            n <= c@.len(),
            last_dot(c@, c@.len() as int) == last_dot(c@, n as int),
        decreases n,
    {
        n -= 1;
    }
    n
}

/// The extension of the file that a path leads to.
pub open spec fn extension_of(p: Seq<char>) -> Option<Seq<char>> {
    match name_of(p) {
        Some(name) => extension_of_name(name),
        None => None,
    }
}

/// The stem of the file that a path leads to.
pub open spec fn stem_of(p: Seq<char>) -> Option<Seq<char>> {
    match name_of(p) {
        Some(name) => Some(stem_of_name(name)),
        None => None,
    }
}

/// The extension of the file that a path leads to.
pub fn extension(p: &str) -> (r: Option<String>)
    ensures
        r.deep_view() == extension_of(p@),
{
    match file_name(p) {
        None => None,
        Some(name) => {
            let c = chars_of(name.as_str());
            let n = find_dot(&c);
            if n > 1 {
                assert(c@.subrange(n as int, c@.len() as int) =~= name@.skip(n as int));
                Some(text_of(&c, n, c.len()))
            } else {
                None
            }
        },
    }
}

/// The stem of the file that a path leads to.
pub fn file_stem(p: &str) -> (r: Option<String>)
    ensures
        r.deep_view() == stem_of(p@),
{
    match file_name(p) {
        None => None,
        Some(name) => {
            let c = chars_of(name.as_str());
            let n = find_dot(&c);
            if n > 1 {
                assert(c@.subrange(0, n - 1) =~= name@.take(n - 1));
                Some(text_of(&c, 0, n - 1))
            } else {
                Some(name)
            }
        },
    }
}

/// The name of the directory that a path's last component is in.
pub open spec fn parent_name_of(p: Seq<char>) -> Option<Seq<char>> {
    let cs = components_of(p);
    if cs.len() > 1 {
        match cs[cs.len() - 2] {
            ComponentV::Name(s) => Some(s),
            _ => None,
        }
    } else {
        None
    }
}

/// The name of the directory that a path's last component is in.
pub fn parent_name(p: &str) -> (r: Option<String>)
    ensures
        r.deep_view() == parent_name_of(p@),
{
    let cs = components(p);
    let ghost cv = cs.deep_view();
    if cs.len() > 1 {
        let i: usize = cs.len() - 2;
        assert(cv[i as int] == cs@[i as int].deep_view());
        match &cs[i] {
            Component::Name(s) => Some(s.clone()),
            _ => None,
        }
    } else {
        None
    }
}

/// The name of a file with an extension splits at its last dot, unless that is in front; a name
/// without a dot behind its front is all stem.
pub proof fn law_extension(stem: Seq<char>, ext: Seq<char>)
    requires
        stem.len() > 0,
        forall|i: int| 0 <= i < ext.len() ==> #[trigger] ext[i] != '.',
    ensures
        extension_of_name(stem + seq!['.'] + ext) == Some(ext),
        stem_of_name(stem + seq!['.'] + ext) == stem,
        extension_of_name(ext) is None,
        stem_of_name(ext) == ext,
        extension_of_name(seq!['.'] + ext) is None,
        stem_of_name(seq!['.'] + ext) == seq!['.'] + ext,
{
    let s = stem + seq!['.'] + ext;
    let n = stem.len() as int;
    assert(s[n] == '.');
    assert forall|i: int| n < i < s.len() implies #[trigger] s[i] != '.' by {
        assert(s[i] == ext[i - n - 1]);
    }
    lemma_last_dot(s, s.len() as int, n);
    assert(s.skip(n + 1) =~= ext);
    assert(s.take(n) =~= stem);
    lemma_last_dot(ext, ext.len() as int, -1);
    let h = seq!['.'] + ext;
    assert forall|i: int| 0 < i < h.len() implies #[trigger] h[i] != '.' by {
        assert(h[i] == ext[i - 1]);
    }
    lemma_last_dot(h, h.len() as int, 0);
}

proof fn lemma_last_dot(s: Seq<char>, n: int, d: int)
    requires
        -1 <= d < n <= s.len() || (d == -1 && n == 0),
        d >= 0 ==> s[d] == '.',
        forall|i: int| d < i < n ==> #[trigger] s[i] != '.',
    ensures
        last_dot(s, n) == d,
    decreases n,
{
    if n > 0 && d < n - 1 {
        lemma_last_dot(s, n - 1, d);
    }
}

/// A path leads to what stands behind its last slash, where that is a name.
pub proof fn law_name(dir: Seq<char>, name: Seq<char>)
    requires
        name.len() > 0,
        name != seq!['.'],
        name != seq!['.', '.'],
        forall|i: int| 0 <= i < name.len() ==> #[trigger] name[i] != '/',
    ensures
        name_of(dir + seq!['/'] + name) == Some(name),
        name_of(name) == Some(name),
{
    let slash = seq!['/'];
    assert(slash[0] == '/');
    assert(slash.contains('/'));
    lemma_split_last(dir, name);
    let p = dir + slash + name;
    let pieces = split_on(p, slash);
    assert(pieces[pieces.len() - 1] == name);
    lemma_split_one(name, slash);
    let one = split_on(name, slash);
    assert(one =~= seq![name]);
    reveal_with_fuel(pieces_components, 2);
}

proof fn lemma_split_last(dir: Seq<char>, name: Seq<char>)
    requires
        forall|i: int| 0 <= i < name.len() ==> #[trigger] name[i] != '/',
    ensures
        split_on(dir + seq!['/'] + name, seq!['/']).len() > 0,
        split_on(dir + seq!['/'] + name, seq!['/']).last() == name,
    decreases dir.len(),
{
    let slash = seq!['/'];
    assert(slash[0] == '/');
    assert(slash.contains('/'));
    lemma_first_of(dir, slash, 0);
    let j = first_of(dir, slash, 0);
    let a = dir.take(j);
    assert forall|x: int| 0 <= x < a.len() implies !slash.contains(#[trigger] a[x]) by {
        assert(a[x] == dir[x]);
    }
    assert forall|x: int| 0 <= x < name.len() implies !slash.contains(#[trigger] name[x]) by {}
    if j < dir.len() {
        assert(slash.contains(dir[j]));
        let rest = dir.skip(j + 1);
        assert(dir + slash + name =~= a + seq!['/'] + (rest + slash + name));
        lemma_split_cons(a, '/', rest + slash + name, slash);
        lemma_split_last(rest, name);
        let r = split_on(rest + slash + name, slash);
        assert((seq![a] + r).last() == r.last());
    } else {
        assert(a =~= dir);
        lemma_split_cons(dir, '/', name, slash);
        lemma_split_one(name, slash);
        assert((seq![dir] + seq![name]).last() == name);
    }
}

/// A path goes on behind its last slash: a name comes to the components, two dots go up, and one
/// dot or nothing adds none.
pub proof fn law_components(dir: Seq<char>, name: Seq<char>)
    requires
        dir.len() > 0,
        forall|i: int| 0 <= i < name.len() ==> #[trigger] name[i] != '/',
    ensures
        components_of(dir + seq!['/'] + name) == (if name.len() == 0 || name == seq!['.'] {
            components_of(dir)
        } else if name == seq!['.', '.'] {
            components_of(dir).push(ComponentV::Up)
        } else {
            components_of(dir).push(ComponentV::Name(name))
        }),
{
    let slash = seq!['/'];
    let p = dir + slash + name;
    assert(slash[0] == '/');
    assert forall|x: int| 0 <= x < name.len() implies !slash.contains(#[trigger] name[x]) by {
        assert(name[x] != '/');
    }
    lemma_split_one(name, slash);
    law_split_apart(dir, '/', name);
    law_split(dir, '/');
    let d = split_on(dir, slash);
    assert(split_on(p, slash) =~= d.push(name));
    lemma_pieces_front(d, name, d.len() as int);
    assert(p[0] == dir[0]);
    let root: Seq<ComponentV> = if dir[0] == '/' {
        seq![ComponentV::Root]
    } else {
        seq![]
    };
    let c = pieces_components(d, d.len() as int);
    assert(root + c.push(ComponentV::Up) =~= (root + c).push(ComponentV::Up));
    assert(root + c.push(ComponentV::Name(name)) =~= (root + c).push(ComponentV::Name(name)));
}

proof fn lemma_pieces_front(d: Seq<Seq<char>>, name: Seq<char>, n: int)
    requires
        0 <= n <= d.len(),
    ensures
        pieces_components(d.push(name), n) == pieces_components(d, n),
    decreases n,
{
    if n > 0 {
        lemma_pieces_front(d, name, n - 1);
    }
}

/// The directory that a file is in is named by what stands before its last slash.
pub proof fn law_parent_name(front: Seq<char>, dir: Seq<char>, name: Seq<char>)
    requires
        front.len() > 0,
        dir.len() > 0 && dir != seq!['.'] && dir != seq!['.', '.'],
        name.len() > 0 && name != seq!['.'] && name != seq!['.', '.'],
        forall|i: int| 0 <= i < dir.len() ==> #[trigger] dir[i] != '/',
        forall|i: int| 0 <= i < name.len() ==> #[trigger] name[i] != '/',
    ensures
        parent_name_of(front + seq!['/'] + dir + seq!['/'] + name) == Some(dir),
        parent_name_of(dir + seq!['/'] + name) == Some(dir),
        parent_name_of(name) is None,
{
    let slash = seq!['/'];
    assert(slash[0] == '/');
    law_components(front, dir);
    law_components(front + slash + dir, name);
    lemma_one_name(dir);
    law_components(dir, name);
    lemma_one_name(name);
}

proof fn lemma_one_name(name: Seq<char>)
    requires
        name.len() > 0 && name != seq!['.'] && name != seq!['.', '.'],
        forall|i: int| 0 <= i < name.len() ==> #[trigger] name[i] != '/',
    ensures
        components_of(name) == seq![ComponentV::Name(name)],
{
    let slash = seq!['/'];
    assert forall|x: int| 0 <= x < name.len() implies !slash.contains(#[trigger] name[x]) by {
        assert(name[x] != '/');
    }
    lemma_split_one(name, slash);
    assert(name[0] != '/');
    reveal_with_fuel(pieces_components, 2);
    assert(components_of(name) =~= seq![ComponentV::Name(name)]);
}

/// Files in one directory go by their names.
pub proof fn law_name_order(dir: Seq<char>, a: Seq<char>, b: Seq<char>)
    requires
        dir.len() > 0,
        a.len() > 0 && a != seq!['.'] && a != seq!['.', '.'],
        b.len() > 0 && b != seq!['.'] && b != seq!['.', '.'],
        forall|i: int| 0 <= i < a.len() ==> #[trigger] a[i] != '/',
        forall|i: int| 0 <= i < b.len() ==> #[trigger] b[i] != '/',
    ensures
        less(
            components_key(components_of(dir + seq!['/'] + a)),
            components_key(components_of(dir + seq!['/'] + b)),
        ) <==> less(text_key(a), text_key(b)),
{
    law_components(dir, a);
    law_components(dir, b);
    let c = components_of(dir);
    let x = c.push(ComponentV::Name(a));
    let y = c.push(ComponentV::Name(b));
    assert(x.drop_last() =~= c);
    assert(y.drop_last() =~= c);
    lemma_less_prefix(components_key(c), seq![4] + text_key(a), seq![4] + text_key(b));
    lemma_less_behind(4, text_key(a), text_key(b), 0);
    assert((seq![4int] + text_key(a))[0] == 4);
    assert((seq![4int] + text_key(b))[0] == 4);
}

proof fn lemma_less_prefix(p: Seq<int>, a: Seq<int>, b: Seq<int>)
    requires
        b.len() > 0,
    ensures
        less(p + a, p + b) == less(a, b),
    decreases p.len(),
{
    if p.len() == 0 {
        assert(p + a =~= a);
        assert(p + b =~= b);
    } else {
        let q = p.skip(1);
        lemma_less_prefix(q, a, b);
        assert(p + a =~= seq![p[0]] + (q + a));
        assert(p + b =~= seq![p[0]] + (q + b));
        lemma_less_behind(p[0], q + a, q + b, 0);
    }
}

} // verus!
