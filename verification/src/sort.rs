//! Stable sorting by keys.
//!
//! A key is a sequence of numbers, and keys are compared from the front. Texts are
//! turned into keys by their characters, so that the order of keys is the order of
//! texts; a count that sorts the largest first goes in with its sign changed.
use vstd::prelude::*;
use crate::text::chars_of;

verus! {

/// `a[i..]` comes before `b[i..]`: at the first place where they differ it has the
/// smaller number, or it ends there.
pub open spec fn less_from(a: Seq<int>, b: Seq<int>, i: int) -> bool
    decreases b.len() - i,
{
    if i < 0 || i >= b.len() {
        false
    } else if i >= a.len() || a[i] < b[i] {
        true
    } else if a[i] > b[i] {
        false
    } else {
        less_from(a, b, i + 1)
    }
}

/// The key `a` comes before the key `b`.
pub open spec fn less(a: Seq<int>, b: Seq<int>) -> bool {
    less_from(a, b, 0)
}

/// The item `x` comes before the item `y`: by its key, and between equal keys by its
/// place.
pub open spec fn precedes(keys: Seq<Seq<int>>, x: int, y: int) -> bool {
    less(keys[x], keys[y]) || (!less(keys[y], keys[x]) && x < y)
}

/// The items of `o` are in order.
pub open spec fn in_order(keys: Seq<Seq<int>>, o: Seq<int>) -> bool {
    forall|i: int, j: int| 0 <= i < j < o.len() ==> precedes(keys, #[trigger] o[i], #[trigger] o[j])
}

/// `o` holds exactly the numbers from `lo` on, below `hi`.
pub open spec fn covers(o: Seq<int>, lo: int, hi: int) -> bool {
    &&& forall|i: int| 0 <= i < o.len() ==> lo <= #[trigger] o[i] < hi
    &&& forall|x: int| lo <= x < hi ==> #[trigger] o.contains(x)
}

/// `o` lists all of the items in order.
pub open spec fn is_order(keys: Seq<Seq<int>>, o: Seq<int>) -> bool {
    in_order(keys, o) && covers(o, 0, keys.len() as int)
}

/// The places of the items in sorted order.
pub open spec fn order_of(keys: Seq<Seq<int>>) -> Seq<int> {
    choose|o: Seq<int>| is_order(keys, o)
}

/// The items in the order `o`.
pub open spec fn arranged<T>(items: Seq<T>, o: Seq<int>) -> Seq<T> {
    o.map_values(|x: int| items[x])
}

/// No key is before and behind another.
pub proof fn lemma_less_asymmetric(a: Seq<int>, b: Seq<int>, i: int)
    requires
        0 <= i,
    ensures
        !(less_from(a, b, i) && less_from(b, a, i)),
    decreases a.len() + b.len() - i,
{
    if i < a.len() && i < b.len() && a[i] == b[i] {
        lemma_less_asymmetric(a, b, i + 1);
    }
}

/// A key that both begin with makes no difference.
pub proof fn lemma_less_behind(x: int, a: Seq<int>, b: Seq<int>, i: int)
    requires
        0 <= i,
    ensures
        less_from(seq![x] + a, seq![x] + b, i + 1) == less_from(a, b, i),
    decreases b.len() - i,
{
    let p = seq![x] + a;
    let q = seq![x] + b;
    assert(i < a.len() ==> p[i + 1] == a[i]);
    assert(i < b.len() ==> q[i + 1] == b[i]);
    if i < b.len() {
        lemma_less_behind(x, a, b, i + 1);
    }
}

/// What is before `b` is before all that is not before `b`.
proof fn lemma_less_step(a: Seq<int>, b: Seq<int>, c: Seq<int>, i: int)
    requires
        0 <= i,
    ensures
        less_from(a, b, i) && !less_from(c, b, i) ==> less_from(a, c, i),
        !less_from(b, a, i) && less_from(b, c, i) ==> less_from(a, c, i),
        !less_from(b, a, i) && !less_from(c, b, i) ==> !less_from(c, a, i),
    decreases a.len() + b.len() + c.len() - i,
{
    if i < a.len() && i < b.len() && i < c.len() && a[i] == b[i] && b[i] == c[i] {
        lemma_less_step(a, b, c, i + 1);
    }
}

proof fn lemma_precedes_transitive(keys: Seq<Seq<int>>, x: int, y: int, z: int)
    requires
        precedes(keys, x, y),
        precedes(keys, y, z),
    ensures
        precedes(keys, x, z),
{
    lemma_less_step(keys[x], keys[y], keys[z], 0);
    lemma_less_asymmetric(keys[x], keys[y], 0);
    lemma_less_asymmetric(keys[y], keys[z], 0);
}

proof fn lemma_precedes_asymmetric(keys: Seq<Seq<int>>, x: int, y: int)
    ensures
        !(precedes(keys, x, y) && precedes(keys, y, x)),
{
    lemma_less_asymmetric(keys[x], keys[y], 0);
}

/// There is only one order: two listings of the items in order are the same.
pub proof fn law_one_order(keys: Seq<Seq<int>>, o: Seq<int>, p: Seq<int>)
    requires
        is_order(keys, o),
        is_order(keys, p),
    ensures
        o == p,
{
    lemma_same_front(keys, o, p, o.len() as int);
    if o.len() < p.len() {
        let x = p[o.len() as int];
        assert(o.contains(x));
        let k = choose|k: int| 0 <= k < o.len() && o[k] == x;
        assert(o.take(o.len() as int)[k] == p.take(o.len() as int)[k]);
        assert(p[k] == x);
        assert(precedes(keys, p[k], p[o.len() as int]));
        lemma_precedes_asymmetric(keys, x, x);
    }
    assert(o.take(o.len() as int) =~= o);
    assert(p.take(o.len() as int) =~= p);
}

proof fn lemma_same_front(keys: Seq<Seq<int>>, o: Seq<int>, p: Seq<int>, n: int)
    requires
        is_order(keys, o),
        is_order(keys, p),
        0 <= n <= o.len(),
    ensures
        n <= p.len(),
        o.take(n) == p.take(n),
    decreases n,
{
    if n > 0 {
        lemma_same_front(keys, o, p, n - 1);
        let k = n - 1;
        assert forall|i: int| 0 <= i < k implies o[i] == p[i] by {
            assert(o.take(k)[i] == p.take(k)[i]);
        }
        assert(p.contains(o[k]));
        let a = choose|a: int| 0 <= a < p.len() && p[a] == o[k];
        if a < k {
            assert(o[a] == o[k]);
            assert(precedes(keys, o[a], o[k]));
            lemma_precedes_asymmetric(keys, o[k], o[k]);
        }
        assert(o.contains(p[k]));
        let b = choose|b: int| 0 <= b < o.len() && o[b] == p[k];
        if b < k {
            assert(p[b] == p[k]);
            assert(precedes(keys, p[b], p[k]));
            lemma_precedes_asymmetric(keys, p[k], p[k]);
        }
        if a > k && b > k {
            assert(precedes(keys, p[k], p[a]));
            assert(precedes(keys, o[k], o[b]));
            lemma_precedes_asymmetric(keys, o[k], p[k]);
        }
        assert(o[k] == p[k]);
        assert(o.take(n) =~= p.take(n));
    }
}

/// The first place at or after `i` whose item does not stand before `x`.
spec fn insert_at(keys: Seq<Seq<int>>, o: Seq<int>, x: int, i: int) -> int
    decreases o.len() - i,
{
    if i >= o.len() || precedes(keys, x, o[i]) {
        i
    } else {
        insert_at(keys, o, x, i + 1)
    }
}

proof fn lemma_insert_at(keys: Seq<Seq<int>>, o: Seq<int>, x: int, i: int)
    requires
        0 <= i <= o.len(),
    ensures
        i <= insert_at(keys, o, x, i) <= o.len(),
        forall|j: int| i <= j < insert_at(keys, o, x, i) ==> !precedes(keys, x, #[trigger] o[j]),
        insert_at(keys, o, x, i) < o.len() ==> precedes(keys, x, o[insert_at(keys, o, x, i)]),
    decreases o.len() - i,
{
    if i < o.len() && !precedes(keys, x, o[i]) {
        lemma_insert_at(keys, o, x, i + 1);
    }
}

/// Items can always be listed in order.
pub proof fn lemma_order_exists(keys: Seq<Seq<int>>)
    ensures
        is_order(keys, order_of(keys)),
    decreases keys.len(),
{
    if keys.len() == 0 {
        assert(is_order(keys, seq![]));
    } else {
        let front = keys.drop_last();
        lemma_order_exists(front);
        let o = order_of(front);
        let x = keys.len() - 1;
        lemma_insert_at(keys, o, x, 0);
        let p = insert_at(keys, o, x, 0);
        let r = o.insert(p, x);
        assert forall|i: int, j: int| 0 <= i < j < o.len() implies precedes(keys, #[trigger] o[i], #[trigger] o[j]) by {
            assert(precedes(front, o[i], o[j]));
            assert(keys[o[i]] == front[o[i]] && keys[o[j]] == front[o[j]]);
        }
        assert forall|i: int| p <= i < o.len() implies precedes(keys, x, #[trigger] o[i]) by {
            if i > p {
                lemma_precedes_transitive(keys, x, o[p], o[i]);
            }
        }
        assert forall|i: int, j: int| 0 <= i < j < r.len() implies precedes(keys, #[trigger] r[i], #[trigger] r[j]) by {
            if j == p {
                assert(r[i] == o[i]);
                assert(!precedes(keys, x, o[i]));
                assert(o[i] < x);
            } else if i == p {
                assert(r[j] == o[j - 1]);
            } else {
                let a = if i < p {
                    i
                } else {
                    i - 1
                };
                let b = if j < p {
                    j
                } else {
                    j - 1
                };
                assert(r[i] == o[a] && r[j] == o[b]);
            }
        }
        assert forall|y: int| 0 <= y < keys.len() implies #[trigger] r.contains(y) by {
            if y == x {
                assert(r[p] == x);
            } else {
                assert(o.contains(y));
                let i = choose|i: int| 0 <= i < o.len() && o[i] == y;
                if i < p {
                    assert(r[i] == y);
                } else {
                    assert(r[i + 1] == y);
                }
            }
        }
        assert forall|i: int| 0 <= i < r.len() implies 0 <= #[trigger] r[i] < keys.len() by {
            if i < p {
                assert(r[i] == o[i]);
            } else if i > p {
                assert(r[i] == o[i - 1]);
            }
        }
        assert(is_order(keys, r));
    }
}

pub open spec fn key_ints(k: Seq<i128>) -> Seq<int> {
    k.map_values(|x: i128| x as int)
}

pub open spec fn keys_ints(keys: Seq<Vec<i128>>) -> Seq<Seq<int>> {
    keys.map_values(|k: Vec<i128>| key_ints(k@))
}

pub open spec fn place_ints(o: Seq<usize>) -> Seq<int> {
    o.map_values(|x: usize| x as int)
}

fn key_less(a: &[i128], b: &[i128]) -> (r: bool)
    ensures
        r == less(key_ints(a@), key_ints(b@)),
{
    let ghost x = key_ints(a@);
    let ghost y = key_ints(b@);
    let mut i: usize = 0;
    while i < b.len()
        invariant
            i <= b@.len(),
            x == key_ints(a@),
            y == key_ints(b@),
            less(x, y) == less_from(x, y, i as int),
        decreases b@.len() - i,
    {
        assert(y[i as int] == b@[i as int]);
        if i >= a.len() {
            return true;
        }
        assert(x[i as int] == a@[i as int]);
        if a[i] < b[i] {
            return true;
        }
        if a[i] > b[i] {
            return false;
        }
        i += 1;
    }
    false
}

/// Merges two listings in order, where all of the first stand before all of the second.
fn merge(keys: &[Vec<i128>], a: &[usize], b: &[usize], Ghost(lo): Ghost<int>, Ghost(mid): Ghost<int>, Ghost(hi): Ghost<int>) -> (r: Vec<usize>)
    requires
        0 <= lo <= mid <= hi <= keys@.len(),
        in_order(keys_ints(keys@), place_ints(a@)),
        in_order(keys_ints(keys@), place_ints(b@)),
        covers(place_ints(a@), lo, mid),
        covers(place_ints(b@), mid, hi),
    ensures
        in_order(keys_ints(keys@), place_ints(r@)),
        covers(place_ints(r@), lo, hi),
{
    let ghost kv = keys_ints(keys@);
    let ghost av = place_ints(a@);
    let ghost bv = place_ints(b@);
    let mut out: Vec<usize> = Vec::new();
    let mut i: usize = 0;
    let mut j: usize = 0;
    while i < a.len() || j < b.len()
        invariant
            i <= a@.len(),
            j <= b@.len(),
            0 <= lo <= mid <= hi <= keys@.len(),
            kv == keys_ints(keys@),
            av == place_ints(a@),
            bv == place_ints(b@),
            in_order(kv, av),
            in_order(kv, bv),
            covers(av, lo, mid),
            covers(bv, mid, hi),
            in_order(kv, place_ints(out@)),
            forall|k: int| 0 <= k < out@.len() ==> lo <= (#[trigger] place_ints(out@)[k]) < hi,
            forall|k: int, l: int|
                0 <= k < out@.len() && i <= l < av.len() ==> precedes(
                    kv,
                    #[trigger] place_ints(out@)[k],
                    #[trigger] av[l],
                ),
            forall|k: int, l: int|
                0 <= k < out@.len() && j <= l < bv.len() ==> precedes(
                    kv,
                    #[trigger] place_ints(out@)[k],
                    #[trigger] bv[l],
                ),
            forall|l: int| 0 <= l < i ==> #[trigger] place_ints(out@).contains(av[l]),
            forall|l: int| 0 <= l < j ==> #[trigger] place_ints(out@).contains(bv[l]),
        decreases a@.len() - i + b@.len() - j,
    {
        let ghost before = place_ints(out@);
        let first: bool = if i >= a.len() {
            false
        } else if j >= b.len() {
            true
        } else {
            assert(av[i as int] == a@[i as int] && bv[j as int] == b@[j as int]);
            assert(kv[av[i as int]] == key_ints(keys@[av[i as int]]@));
            assert(kv[bv[j as int]] == key_ints(keys@[bv[j as int]]@));
            !key_less(keys[b[j]].as_slice(), keys[a[i]].as_slice())
        };
        if first {
            let ghost x = av[i as int];
            proof {
                assert(x == a@[i as int]);
                assert forall|l: int| j <= l < bv.len() implies precedes(kv, x, #[trigger] bv[l]) by {
                    assert(precedes(kv, x, bv[j as int]));
                    if l > j {
                        lemma_precedes_transitive(kv, x, bv[j as int], bv[l]);
                    }
                }
            }
            out.push(a[i]);
            assert(place_ints(out@) =~= before.push(x));
            proof {
                assert forall|l: int| 0 <= l < i + 1 implies #[trigger] place_ints(out@).contains(av[l]) by {
                    if l == i {
                        assert(place_ints(out@)[before.len() as int] == x);
                    } else {
                        assert(before.contains(av[l]));
                        let k = choose|k: int| 0 <= k < before.len() && before[k] == av[l];
                        assert(place_ints(out@)[k] == av[l]);
                    }
                }
                assert forall|l: int| 0 <= l < j implies #[trigger] place_ints(out@).contains(bv[l]) by {
                    assert(before.contains(bv[l]));
                    let k = choose|k: int| 0 <= k < before.len() && before[k] == bv[l];
                    assert(place_ints(out@)[k] == bv[l]);
                }
            }
            i += 1;
        } else {
            let ghost x = bv[j as int];
            proof {
                assert(x == b@[j as int]);
                assert forall|l: int| i <= l < av.len() implies precedes(kv, x, #[trigger] av[l]) by {
                    assert(precedes(kv, x, av[i as int]));
                    if l > i {
                        lemma_precedes_transitive(kv, x, av[i as int], av[l]);
                    }
                }
            }
            out.push(b[j]);
            assert(place_ints(out@) =~= before.push(x));
            proof {
                assert forall|l: int| 0 <= l < i implies #[trigger] place_ints(out@).contains(av[l]) by {
                    assert(before.contains(av[l]));
                    let k = choose|k: int| 0 <= k < before.len() && before[k] == av[l];
                    assert(place_ints(out@)[k] == av[l]);
                }
                assert forall|l: int| 0 <= l < j + 1 implies #[trigger] place_ints(out@).contains(bv[l]) by {
                    if l == j {
                        assert(place_ints(out@)[before.len() as int] == x);
                    } else {
                        assert(before.contains(bv[l]));
                        let k = choose|k: int| 0 <= k < before.len() && before[k] == bv[l];
                        assert(place_ints(out@)[k] == bv[l]);
                    }
                }
            }
            j += 1;
        }
    }
    proof {
        let o = place_ints(out@);
        assert forall|x: int| lo <= x < hi implies #[trigger] o.contains(x) by {
            if x < mid {
                assert(av.contains(x));
                let l = choose|l: int| 0 <= l < av.len() && av[l] == x;
                assert(o.contains(av[l]));
            } else {
                assert(bv.contains(x));
                let l = choose|l: int| 0 <= l < bv.len() && bv[l] == x;
                assert(o.contains(bv[l]));
            }
        }
    }
    out
}

fn sort_range(keys: &[Vec<i128>], lo: usize, hi: usize) -> (r: Vec<usize>)
    requires
        lo <= hi <= keys@.len(),
    ensures
        in_order(keys_ints(keys@), place_ints(r@)),
        covers(place_ints(r@), lo as int, hi as int),
    decreases hi - lo,
{
    if hi - lo <= 1 {
        let mut v: Vec<usize> = Vec::new();
        if hi > lo {
            v.push(lo);
            assert(place_ints(v@)[0] == lo);
        }
        return v;
    }
    let mid: usize = lo + (hi - lo) / 2;
    let a = sort_range(keys, lo, mid);
    let b = sort_range(keys, mid, hi);
    merge(keys, &a, &b, Ghost(lo as int), Ghost(mid as int), Ghost(hi as int))
}

/// The places of the items in sorted order: by key, and between equal keys as they stand.
pub fn sort_order(keys: &[Vec<i128>]) -> (r: Vec<usize>)
    ensures
        place_ints(r@) == order_of(keys_ints(keys@)),
        is_order(keys_ints(keys@), place_ints(r@)),
        r@.len() == keys@.len(),
        forall|i: int| 0 <= i < r@.len() ==> (#[trigger] r@[i]) < keys@.len(),
{
    let r = sort_range(keys, 0, keys.len());
    proof {
        let kv = keys_ints(keys@);
        let o = place_ints(r@);
        assert(is_order(kv, o));
        assert(is_order(kv, order_of(kv)));
        law_one_order(kv, o, order_of(kv));
        lemma_order_len(kv, o);
        assert forall|i: int| 0 <= i < r@.len() implies (#[trigger] r@[i]) < keys@.len() by {
            assert(o[i] == r@[i]);
        }
    }
    r
}

/// An order lists each item once.
pub proof fn lemma_order_len(keys: Seq<Seq<int>>, o: Seq<int>)
    requires
        is_order(keys, o),
    ensures
        o.len() == keys.len(),
        o.no_duplicates(),
{
    assert forall|i: int, j: int| 0 <= i < j < o.len() implies o[i] != o[j] by {
        assert(precedes(keys, o[i], o[j]));
        lemma_precedes_asymmetric(keys, o[i], o[j]);
    }
    assert(o.no_duplicates());
    o.unique_seq_to_set();
    let s = vstd::set_lib::set_int_range(0, keys.len() as int);
    vstd::set_lib::lemma_int_range(0, keys.len() as int);
    assert(o.to_set() =~= s) by {
        assert forall|x: int| s.contains(x) implies o.to_set().contains(x) by {
            assert(o.contains(x));
        }
        assert forall|x: int| o.to_set().contains(x) implies s.contains(x) by {
            let i = choose|i: int| 0 <= i < o.len() && o[i] == x;
            assert(0 <= o[i] < keys.len());
        }
    }
}

/// Sorting keeps what it sorts and puts it in order: every item is in the result, each as
/// often as before, and none stands before one with a smaller key. Between equal keys the
/// order stays as it was.
pub proof fn law_sorted<T>(items: Seq<T>, keys: Seq<Seq<int>>)
    requires
        items.len() == keys.len(),
    ensures
        ({
            let o = order_of(keys);
            let r = arranged(items, o);
            &&& r.len() == items.len()
            &&& r.to_multiset() == items.to_multiset()
            &&& o.len() == items.len() && o.no_duplicates()
            &&& forall|i: int| 0 <= i < r.len() ==> 0 <= #[trigger] o[i] < items.len() && r[i] == items[o[i]]
            &&& forall|x: int| 0 <= x < items.len() ==> #[trigger] o.contains(x)
            &&& forall|i: int, j: int|
                0 <= i < j < r.len() ==> !less(keys[#[trigger] o[j]], keys[#[trigger] o[i]]) && (keys[o[i]] == keys[o[j]]
                    ==> o[i] < o[j])
        }),
{
    lemma_order_exists(keys);
    let o = order_of(keys);
    lemma_order_len(keys, o);
    let r = arranged(items, o);
    assert forall|i: int, j: int| 0 <= i < j < r.len() implies !less(keys[#[trigger] o[j]], keys[#[trigger] o[i]]) && (
    keys[o[i]] == keys[o[j]] ==> o[i] < o[j]) by {
        assert(precedes(keys, o[i], o[j]));
        lemma_less_asymmetric(keys[o[i]], keys[o[j]], 0);
    }
    lemma_arranged_multiset(items, o);
}

/// Listing all items in another order keeps each as often as it is there.
proof fn lemma_arranged_multiset<T>(v: Seq<T>, o: Seq<int>)
    requires
        o.len() == v.len(),
        o.no_duplicates(),
        covers(o, 0, v.len() as int),
    ensures
        arranged(v, o).to_multiset() == v.to_multiset(),
    decreases v.len(),
{
    broadcast use vstd::seq_lib::group_to_multiset_ensures;

    if v.len() > 0 {
        let n = v.len() - 1;
        assert(o.contains(n));
        let p = choose|p: int| 0 <= p < o.len() && o[p] == n;
        let q = o.remove(p);
        let w = v.drop_last();
        assert forall|i: int| 0 <= i < q.len() implies 0 <= #[trigger] q[i] < w.len() by {
            let k = if i < p { i } else { i + 1 };
            assert(q[i] == o[k]);
            assert(o[k] != o[p]);
        }
        assert forall|x: int| 0 <= x < w.len() implies #[trigger] q.contains(x) by {
            assert(o.contains(x));
            let k = choose|k: int| 0 <= k < o.len() && o[k] == x;
            if k < p {
                assert(q[k] == x);
            } else {
                assert(q[k - 1] == x);
            }
        }
        assert forall|i: int, j: int| 0 <= i < q.len() && 0 <= j < q.len() && i != j implies q[i] != q[j] by {
            let k = if i < p { i } else { i + 1 };
            let l = if j < p { j } else { j + 1 };
            assert(q[i] == o[k] && q[j] == o[l]);
        }
        lemma_arranged_multiset(w, q);
        let r = arranged(v, o);
        assert(r.remove(p) =~= arranged(w, q));
        assert(r[p] == v[n]);
        assert(r.remove(p).to_multiset() == r.to_multiset().remove(r[p]));
        assert(r.to_multiset().contains(r[p])) by {
            assert(r.contains(r[p]));
        }
        assert(r.to_multiset() =~= r.remove(p).to_multiset().insert(v[n]));
        assert(w.push(v[n]) =~= v);
        assert(v.to_multiset() =~= w.to_multiset().insert(v[n]));
    } else {
        assert(arranged(v, o) =~= v);
    }
}

/// The items in the order `o`, which lists each of them once.
pub fn arrange<T>(items: Vec<T>, o: &[usize]) -> (r: Vec<T>)
    requires
        o@.len() == items@.len(),
        forall|i: int| 0 <= i < o@.len() ==> (#[trigger] o@[i]) < items@.len(),
        place_ints(o@).no_duplicates(),
    ensures
        r@ == arranged(items@, place_ints(o@)),
{
    let ghost all = items@;
    let mut slots: Vec<Option<T>> = Vec::new();
    for x in it: items
        invariant
            it.seq() == all,
            slots@.len() == it.index(),
            forall|k: int| 0 <= k < slots@.len() ==> #[trigger] slots@[k] == Some(all[k]),
    {
        slots.push(Some(x));
    }
    let mut out: Vec<T> = Vec::new();
    let mut i: usize = 0;
    while i < o.len()
        invariant
            i <= o@.len(),
            slots@.len() == all.len(),
            o@.len() == all.len(),
            forall|k: int| 0 <= k < o@.len() ==> (#[trigger] o@[k]) < all.len(),
            place_ints(o@).no_duplicates(),
            forall|k: int| i <= k < o@.len() ==> slots@[#[trigger] o@[k] as int] == Some(all[o@[k] as int]),
            out@ == arranged(all, place_ints(o@.take(i as int))),
        decreases o@.len() - i,
    {
        let k: usize = o[i];
        let ghost before = slots@;
        let taken = slots[k].take();
        proof {
            assert forall|l: int| i + 1 <= l < o@.len() implies slots@[#[trigger] o@[l] as int] == Some(all[o@[l] as int]) by {
                assert(place_ints(o@)[l] == o@[l] && place_ints(o@)[i as int] == o@[i as int]);
                assert(o@[l] != k);
                assert(slots@[o@[l] as int] == before[o@[l] as int]);
            }
            assert(o@.take(i + 1) =~= o@.take(i as int).push(k));
        }
        if let Some(x) = taken {
            out.push(x);
        }
        assert(out@ =~= arranged(all, place_ints(o@.take(i + 1))));
        i += 1;
    }
    assert(o@.take(i as int) =~= o@);
    out
}

// ---- keys --------------------------------------------------------------------------

/// The key of a text: its characters, and an end that comes before all of them.
pub open spec fn text_key(s: Seq<char>) -> Seq<int> {
    s.map_values(|c: char| c as int).push(-1)
}

fn char_code(c: char) -> (r: i128)
    ensures
        r == c as int,
{
    c as u32 as i128
}

/// Appends the key of a text.
pub fn push_text_key(k: &mut Vec<i128>, s: &str)
    ensures
        key_ints(final(k)@) == key_ints(old(k)@) + text_key(s@),
{
    let c = chars_of(s);
    let ghost before = key_ints(k@);
    let mut i: usize = 0;
    while i < c.len()
        invariant
            i <= c@.len(),
            key_ints(k@) == before + c@.take(i as int).map_values(|c: char| c as int),
        decreases c@.len() - i,
    {
        let ghost mid = key_ints(k@);
        k.push(char_code(c[i]));
        proof {
            assert(key_ints(k@) =~= mid.push(c@[i as int] as int));
            assert(c@.take(i + 1) =~= c@.take(i as int).push(c@[i as int]));
        }
        i += 1;
    }
    let ghost mid = key_ints(k@);
    k.push(-1);
    proof {
        assert(c@.take(i as int) =~= c@);
        assert(key_ints(k@) =~= mid.push(-1));
        assert(key_ints(k@) =~= before + text_key(s@));
    }
}

proof fn lemma_char_code(c: char)
    ensures
        c as int >= 0,
{
}

/// A text's end tells it from the key that follows it.
pub proof fn lemma_text_key_front(a: Seq<char>, x: Seq<int>, b: Seq<char>, y: Seq<int>)
    requires
        text_key(a) + x == text_key(b) + y,
    ensures
        a == b,
        x == y,
{
    let l = text_key(a) + x;
    let r = text_key(b) + y;
    let m = a.len() as int;
    let n = b.len() as int;
    assert(l[m] == -1);
    assert(r[n] == -1);
    if m < n {
        assert(r[m] == b[m] as int);
        lemma_char_code(b[m]);
    }
    if n < m {
        assert(l[n] == a[n] as int);
        lemma_char_code(a[n]);
    }
    assert forall|i: int| 0 <= i < m implies a[i] == b[i] by {
        assert(l[i] == a[i] as int);
        assert(r[i] == b[i] as int);
    }
    assert(a =~= b);
    assert(x =~= l.skip(m + 1));
    assert(y =~= r.skip(n + 1));
}

/// Texts in their own order.
pub open spec fn sorted_texts(v: Seq<Seq<char>>) -> Seq<Seq<char>> {
    arranged(v, order_of(v.map_values(|s: Seq<char>| text_key(s))))
}

/// Texts in their own order.
pub fn sort_texts(v: Vec<String>) -> (r: Vec<String>)
    ensures
        r.deep_view() == sorted_texts(v.deep_view()),
{
    let ghost vv = v.deep_view();
    let ghost want = vv.map_values(|s: Seq<char>| text_key(s));
    let mut keys: Vec<Vec<i128>> = Vec::new();
    let mut i: usize = 0;
    while i < v.len()
        invariant
            i <= v@.len(),
            vv == v.deep_view(),
            want == vv.map_values(|s: Seq<char>| text_key(s)),
            keys_ints(keys@) == want.take(i as int),
        decreases v@.len() - i,
    {
        let ghost before = keys_ints(keys@);
        let mut k: Vec<i128> = Vec::new();
        push_text_key(&mut k, v[i].as_str());
        assert(key_ints(k@) =~= want[i as int]);
        keys.push(k);
        proof {
            assert(keys_ints(keys@) =~= before.push(want[i as int]));
            assert(want.take(i + 1) =~= want.take(i as int).push(want[i as int]));
        }
        i += 1;
    }
    proof {
        assert(want.take(i as int) =~= want);
        assert(keys@.len() == keys_ints(keys@).len());
    }
    let o = sort_order(&keys);
    proof {
        lemma_order_len(want, place_ints(o@));
    }
    let r = arrange(v, &o);
    assert(r.deep_view() =~= sorted_texts(vv));
    r
}

/// Sorted texts are the same texts, each as often as before, none before one that comes before it
/// in the order of its characters.
pub proof fn law_sorted_texts(v: Seq<Seq<char>>)
    ensures
        sorted_texts(v).to_multiset() == v.to_multiset(),
        sorted_texts(v).len() == v.len(),
        forall|i: int, j: int|
            0 <= i < j < sorted_texts(v).len() ==> !less(
                text_key(#[trigger] sorted_texts(v)[j]),
                text_key(#[trigger] sorted_texts(v)[i]),
            ),
{
    let keys = v.map_values(|s: Seq<char>| text_key(s));
    law_sorted(v, keys);
    let o = order_of(keys);
    let r = sorted_texts(v);
    assert forall|i: int, j: int| 0 <= i < j < r.len() implies !less(text_key(#[trigger] r[j]), text_key(#[trigger] r[i])) by {
        assert(!less(keys[o[j]], keys[o[i]]));
    }
}

/// A text comes before another exactly where, at the first place at which they differ, its
/// character is the smaller one, or where it ends there.
pub proof fn law_text_order(a: Seq<char>, b: Seq<char>)
    ensures
        less(text_key(a), text_key(b)) <==> exists|k: int|
            {
                &&& 0 <= k <= a.len() && k < b.len()
                &&& #[trigger] a.take(k) == b.take(k)
                &&& k == a.len() || a[k] < b[k]
            },
{
    assert(a.take(0) =~= b.take(0));
    lemma_text_order(a, b, 0);
}

proof fn lemma_text_order(a: Seq<char>, b: Seq<char>, i: int)
    requires
        0 <= i <= a.len(),
        i <= b.len(),
        a.take(i) == b.take(i),
    ensures
        less_from(text_key(a), text_key(b), i) <==> exists|k: int|
            {
                &&& i <= k <= a.len() && k < b.len()
                &&& #[trigger] a.take(k) == b.take(k)
                &&& k == a.len() || a[k] < b[k]
            },
    decreases a.len() - i,
{
    let x = text_key(a);
    let y = text_key(b);
    reveal_with_fuel(less_from, 2);
    if i < a.len() && i < b.len() {
        assert(x[i] == a[i] as int && y[i] == b[i] as int);
        if a[i] == b[i] {
            assert(a.take(i + 1) =~= a.take(i).push(a[i]));
            assert(b.take(i + 1) =~= b.take(i).push(b[i]));
            lemma_text_order(a, b, i + 1);
            if less_from(x, y, i + 1) {
                let k = choose|k: int|
                    {
                        &&& i + 1 <= k <= a.len() && k < b.len()
                        &&& #[trigger] a.take(k) == b.take(k)
                        &&& k == a.len() || a[k] < b[k]
                    };
                assert(a.take(k) == b.take(k));
            }
        } else {
            if a[i] < b[i] {
                assert(a.take(i) == b.take(i));
            }
            assert forall|k: int| i < k && k <= a.len() && k < b.len() implies #[trigger] a.take(k) != b.take(k) by {
                assert(a.take(k)[i] == a[i]);
                assert(b.take(k)[i] == b[i]);
            }
        }
    } else if i < b.len() {
        lemma_char_code(b[i]);
        assert(x[i] == -1);
        assert(y[i] == b[i] as int);
        assert(a.take(i) == b.take(i));
    } else {
        assert(y[i] == -1);
        assert(y.len() == i + 1);
        if i < a.len() {
            lemma_char_code(a[i]);
            assert(x[i] == a[i] as int);
        } else {
            assert(x[i] == -1);
        }
    }
}

// ---- groups ------------------------------------------------------------------------

/// The first `n` places of the order `o`, those with equal keys together.
pub open spec fn runs(keys: Seq<Seq<int>>, o: Seq<int>, n: int) -> Seq<Seq<int>>
    decreases n,
{
    if n <= 0 {
        seq![]
    } else {
        let g = runs(keys, o, n - 1);
        let x = o[n - 1];
        if g.len() > 0 && keys[g.last().last()] == keys[x] {
            g.drop_last().push(g.last().push(x))
        } else {
            g.push(seq![x])
        }
    }
}

/// The places of the items in groups of equal keys, the groups by key.
pub open spec fn groups_of(keys: Seq<Seq<int>>) -> Seq<Seq<int>> {
    runs(keys, order_of(keys), order_of(keys).len() as int)
}

/// Places `a` and `b` of the order are in one group.
pub open spec fn together(g: Seq<Seq<int>>, x: int, y: int) -> bool {
    exists|k: int| 0 <= k < g.len() && (#[trigger] g[k]).contains(x) && g[k].contains(y)
}

/// What holds of the runs of the first `n` places.
spec fn runs_fine(keys: Seq<Seq<int>>, o: Seq<int>, g: Seq<Seq<int>>, n: int) -> bool {
    &&& forall|k: int| 0 <= k < g.len() ==> (#[trigger] g[k]).len() > 0
    &&& forall|k: int, i: int|
        0 <= k < g.len() && 0 <= i < g[k].len() ==> o.take(n).contains(#[trigger] g[k][i]) && keys[g[k][i]] == keys[g[k][0]]
    &&& forall|k: int, l: int| 0 <= k < l < g.len() ==> less(keys[(#[trigger] g[k])[0]], keys[(#[trigger] g[l])[0]])
    &&& forall|j: int| 0 <= j < n ==> in_some(g, #[trigger] o[j])
    &&& n > 0 ==> g.len() > 0 && g.last().last() == o[n - 1]
}

spec fn in_some(g: Seq<Seq<int>>, x: int) -> bool {
    exists|k: int| 0 <= k < g.len() && (#[trigger] g[k]).contains(x)
}

pub proof fn lemma_less_total(a: Seq<int>, b: Seq<int>, i: int)
    requires
        0 <= i,
        i <= a.len(),
        i <= b.len(),
        !less_from(a, b, i),
        !less_from(b, a, i),
        a.take(i) == b.take(i),
    ensures
        a == b,
    decreases a.len() - i,
{
    if i < a.len() && i < b.len() {
        assert(a[i] == b[i]);
        assert(a.take(i + 1) =~= a.take(i).push(a[i]));
        assert(b.take(i + 1) =~= b.take(i).push(b[i]));
        lemma_less_total(a, b, i + 1);
    } else {
        assert(a.len() == i && b.len() == i);
        assert(a.take(i) =~= a);
        assert(b.take(i) =~= b);
    }
}

#[verifier::spinoff_prover]
#[verifier::rlimit(60)]
proof fn lemma_runs(keys: Seq<Seq<int>>, o: Seq<int>, n: int)
    requires
        is_order(keys, o),
        0 <= n <= o.len(),
    ensures
        runs_fine(keys, o, runs(keys, o, n), n),
    decreases n,
{
    if n > 0 {
        lemma_runs(keys, o, n - 1);
        let g = runs(keys, o, n - 1);
        let h = runs(keys, o, n);
        let x = o[n - 1];
        let joins = g.len() > 0 && keys[g.last().last()] == keys[x];
        let m = g.len() as int;
        assert forall|y: int| o.take(n - 1).contains(y) implies o.take(n).contains(y) by {
            let t = o.take(n - 1);
            let j = choose|j: int| 0 <= j < t.len() && t[j] == y;
            assert(o.take(n)[j] == y);
        }
        assert(o.take(n).contains(x)) by {
            assert(o.take(n)[n - 1] == x);
        }
        if joins {
            assert(h.last() =~= g.last().push(x));
            assert(h[m - 1][0] == g[m - 1][0]);
            assert(keys[g[m - 1][g[m - 1].len() - 1]] == keys[g[m - 1][0]]);
        } else if n > 1 {
            assert(precedes(keys, o[n - 2], o[n - 1]));
            assert(keys[g[m - 1][g[m - 1].len() - 1]] == keys[g[m - 1][0]]);
            if !less(keys[o[n - 2]], keys[x]) {
                assert(keys[o[n - 2]].take(0) =~= keys[x].take(0));
                lemma_less_total(keys[o[n - 2]], keys[x], 0);
            }
        }
        assert forall|k: int| 0 <= k < h.len() implies (#[trigger] h[k]).len() > 0 by {
            if k < m - 1 || (!joins && k < m) {
                assert(h[k] == g[k]);
            }
        }
        assert forall|k: int, i: int| 0 <= k < h.len() && 0 <= i < h[k].len() implies o.take(n).contains(
            #[trigger] h[k][i],
        ) && keys[h[k][i]] == keys[h[k][0]] by {
            if k < m - 1 || (!joins && k < m) {
                assert(h[k] == g[k]);
                assert(o.take(n - 1).contains(g[k][i]));
            } else if joins {
                if i < g[k].len() {
                    assert(h[k][i] == g[k][i]);
                    assert(o.take(n - 1).contains(g[k][i]));
                }
            }
        }
        assert forall|k: int, l: int| 0 <= k < l < h.len() implies less(
            keys[(#[trigger] h[k])[0]],
            keys[(#[trigger] h[l])[0]],
        ) by {
            if k < m && l < m {
                assert(less(keys[g[k][0]], keys[g[l][0]]));
            } else {
                assert(!joins && l == m);
                assert(h[l][0] == x);
                if k < m - 1 {
                    assert(less(keys[g[k][0]], keys[g[m - 1][0]]));
                    lemma_less_asymmetric(keys[g[m - 1][0]], keys[x], 0);
                    lemma_less_step(keys[g[k][0]], keys[g[m - 1][0]], keys[x], 0);
                }
            }
        }
        assert forall|j: int| 0 <= j < n implies in_some(h, #[trigger] o[j]) by {
            if j < n - 1 {
                assert(in_some(g, o[j]));
                let k = choose|k: int| 0 <= k < g.len() && (#[trigger] g[k]).contains(o[j]);
                let i = choose|i: int| 0 <= i < g[k].len() && g[k][i] == o[j];
                assert(h[k][i] == o[j]);
                assert(h[k].contains(o[j]));
            } else {
                let k = h.len() - 1;
                assert(h[k][h[k].len() - 1] == x);
                assert(h[k].contains(x));
            }
        }
    }
}

/// Grouping loses nothing and mixes nothing: no group is empty, a group holds places
/// of items, every item is in a group, and two items are in one group exactly where
/// their keys are equal.
pub proof fn law_groups(keys: Seq<Seq<int>>, x: int, y: int)
    requires
        0 <= x < keys.len(),
        0 <= y < keys.len(),
    ensures
        forall|k: int| 0 <= k < groups_of(keys).len() ==> (#[trigger] groups_of(keys)[k]).len() > 0,
        forall|k: int, i: int|
            0 <= k < groups_of(keys).len() && 0 <= i < groups_of(keys)[k].len() ==> 0 <= #[trigger] groups_of(keys)[k][i]
                < keys.len(),
        together(groups_of(keys), x, y) <==> keys[x] == keys[y],
{
    lemma_order_exists(keys);
    let o = order_of(keys);
    let g = groups_of(keys);
    lemma_runs(keys, o, o.len() as int);
    assert(o.take(o.len() as int) =~= o);
    assert forall|k: int, i: int| 0 <= k < g.len() && 0 <= i < g[k].len() implies 0 <= #[trigger] g[k][i] < keys.len() by {
        assert(o.contains(g[k][i]));
    }
    if together(g, x, y) {
        let k = choose|k: int| 0 <= k < g.len() && (#[trigger] g[k]).contains(x) && g[k].contains(y);
        let i = choose|i: int| 0 <= i < g[k].len() && g[k][i] == x;
        let j = choose|j: int| 0 <= j < g[k].len() && g[k][j] == y;
        assert(keys[g[k][i]] == keys[g[k][0]] && keys[g[k][j]] == keys[g[k][0]]);
    }
    if keys[x] == keys[y] {
        assert(o.contains(x) && o.contains(y));
        let a = choose|a: int| 0 <= a < o.len() && o[a] == x;
        let b = choose|b: int| 0 <= b < o.len() && o[b] == y;
        assert(in_some(g, o[a]) && in_some(g, o[b]));
        let k = choose|k: int| 0 <= k < g.len() && (#[trigger] g[k]).contains(x);
        let l = choose|l: int| 0 <= l < g.len() && (#[trigger] g[l]).contains(y);
        let i = choose|i: int| 0 <= i < g[k].len() && g[k][i] == x;
        let j = choose|j: int| 0 <= j < g[l].len() && g[l][j] == y;
        assert(keys[g[k][i]] == keys[g[k][0]] && keys[g[l][j]] == keys[g[l][0]]);
        if k < l {
            lemma_less_asymmetric(keys[g[k][0]], keys[g[l][0]], 0);
        }
        if l < k {
            lemma_less_asymmetric(keys[g[l][0]], keys[g[k][0]], 0);
        }
        assert(k == l);
    }
}

/// A group holds the places of exactly the items with its key, each once, the first of them
/// in front; and the groups go by their keys.
pub proof fn law_group_members(keys: Seq<Seq<int>>, k: int)
    requires
        0 <= k < groups_of(keys).len(),
    ensures
        ({
            let g = groups_of(keys)[k];
            &&& g.len() > 0
            &&& forall|x: int| #[trigger] g.contains(x) <==> 0 <= x < keys.len() && keys[x] == keys[g[0]]
            &&& forall|i: int| 0 <= i < g.len() ==> 0 <= #[trigger] g[i] < keys.len() && keys[g[i]] == keys[g[0]]
            &&& forall|i: int, j: int| 0 <= i < j < g.len() ==> #[trigger] g[i] < #[trigger] g[j]
            &&& forall|l: int| k < l < groups_of(keys).len() ==> less(keys[g[0]], keys[(#[trigger] groups_of(keys)[l])[0]])
        }),
{
    lemma_order_exists(keys);
    let o = order_of(keys);
    let gs = groups_of(keys);
    let g = gs[k];
    lemma_runs(keys, o, o.len() as int);
    lemma_runs_ascend(keys, o, o.len() as int);
    assert(o.take(o.len() as int) =~= o);
    assert forall|i: int| 0 <= i < g.len() implies 0 <= #[trigger] g[i] < keys.len() && keys[g[i]] == keys[g[0]] by {
        assert(o.contains(gs[k][i]));
    }
    assert forall|x: int| #[trigger] g.contains(x) <==> 0 <= x < keys.len() && keys[x] == keys[g[0]] by {
        if g.contains(x) {
            let i = choose|i: int| 0 <= i < g.len() && g[i] == x;
            assert(0 <= g[i] < keys.len());
        }
        if 0 <= x < keys.len() && keys[x] == keys[g[0]] {
            assert(0 <= g[0] < keys.len());
            law_groups(keys, x, g[0]);
            let l = choose|l: int| 0 <= l < gs.len() && (#[trigger] gs[l]).contains(x) && gs[l].contains(g[0]);
            let j = choose|j: int| 0 <= j < gs[l].len() && gs[l][j] == g[0];
            assert(keys[gs[l][j]] == keys[gs[l][0]]);
            if l < k {
                lemma_less_asymmetric(keys[gs[l][0]], keys[gs[k][0]], 0);
            }
            if k < l {
                lemma_less_asymmetric(keys[gs[k][0]], keys[gs[l][0]], 0);
            }
        }
    }
}

proof fn lemma_runs_ascend(keys: Seq<Seq<int>>, o: Seq<int>, n: int)
    requires
        is_order(keys, o),
        0 <= n <= o.len(),
    ensures
        forall|k: int, i: int, j: int|
            0 <= k < runs(keys, o, n).len() && 0 <= i < j < runs(keys, o, n)[k].len() ==> #[trigger] runs(keys, o, n)[k][i]
                < #[trigger] runs(keys, o, n)[k][j],
    decreases n,
{
    if n > 0 {
        lemma_runs_ascend(keys, o, n - 1);
        lemma_runs(keys, o, n - 1);
        let g = runs(keys, o, n - 1);
        let h = runs(keys, o, n);
        let x = o[n - 1];
        let m = g.len() as int;
        let joins = m > 0 && keys[g.last().last()] == keys[x];
        assert forall|k: int, i: int, j: int| 0 <= k < h.len() && 0 <= i < j < h[k].len() implies #[trigger] h[k][i]
            < #[trigger] h[k][j] by {
            if k < m - 1 || (!joins && k < m) {
                assert(h[k] == g[k]);
                assert(g[k][i] < g[k][j]);
            } else if joins {
                assert(n > 1);
                assert(h[k][i] == g[k][i]);
                let e = g[k].len() - 1;
                assert(g[k][e] == o[n - 2]);
                assert(precedes(keys, o[n - 2], o[n - 1]));
                lemma_less_asymmetric(keys[o[n - 2]], keys[x], 0);
                assert(o[n - 2] < x);
                if j < g[k].len() {
                    assert(h[k][j] == g[k][j]);
                    assert(g[k][i] < g[k][j]);
                } else if i < e {
                    assert(g[k][i] < g[k][e]);
                }
            }
        }
    }
}

/// There are as many groups as there are different keys.
pub proof fn law_group_count(keys: Seq<Seq<int>>)
    ensures
        groups_of(keys).len() == keys.to_set().len(),
{
    lemma_order_exists(keys);
    let o = order_of(keys);
    let g = groups_of(keys);
    lemma_runs(keys, o, o.len() as int);
    assert(o.take(o.len() as int) =~= o);
    let reps = g.map_values(|v: Seq<int>| keys[v[0]]);
    assert forall|k: int, l: int| 0 <= k < l < reps.len() implies reps[k] != reps[l] by {
        assert(less(keys[g[k][0]], keys[g[l][0]]));
        lemma_less_asymmetric(keys[g[k][0]], keys[g[l][0]], 0);
    }
    assert(reps.no_duplicates());
    reps.unique_seq_to_set();
    assert(reps.to_set() =~= keys.to_set()) by {
        assert forall|x: Seq<int>| reps.to_set().contains(x) implies keys.to_set().contains(x) by {
            let k = choose|k: int| 0 <= k < reps.len() && reps[k] == x;
            assert(o.contains(g[k][0]));
            assert(keys[g[k][0]] == x);
        }
        assert forall|x: Seq<int>| keys.to_set().contains(x) implies reps.to_set().contains(x) by {
            let a = choose|a: int| 0 <= a < keys.len() && keys[a] == x;
            assert(o.contains(a));
            let j = choose|j: int| 0 <= j < o.len() && o[j] == a;
            assert(in_some(g, o[j]));
            let k = choose|k: int| 0 <= k < g.len() && (#[trigger] g[k]).contains(a);
            let i = choose|i: int| 0 <= i < g[k].len() && g[k][i] == a;
            assert(keys[g[k][i]] == keys[g[k][0]]);
            assert(reps[k] == x);
        }
    }
}

fn same_key(a: &[i128], b: &[i128]) -> (r: bool)
    ensures
        r == (key_ints(a@) == key_ints(b@)),
{
    if a.len() != b.len() {
        assert(key_ints(a@).len() != key_ints(b@).len());
        return false;
    }
    let mut i: usize = 0;
    while i < a.len()
        invariant
            i <= a@.len(),
            a@.len() == b@.len(),
            forall|j: int| 0 <= j < i ==> a@[j] == b@[j],
        decreases a@.len() - i,
    {
        if a[i] != b[i] {
            assert(key_ints(a@)[i as int] != key_ints(b@)[i as int]);
            return false;
        }
        i += 1;
    }
    assert(key_ints(a@) =~= key_ints(b@));
    true
}

pub open spec fn group_ints(g: Seq<Vec<usize>>) -> Seq<Seq<int>> {
    g.map_values(|v: Vec<usize>| place_ints(v@))
}

/// The places of the items in groups of equal keys, the groups by key.
pub fn group(keys: &[Vec<i128>]) -> (r: Vec<Vec<usize>>)
    ensures
        group_ints(r@) == groups_of(keys_ints(keys@)),
        forall|k: int, i: int| 0 <= k < r@.len() && 0 <= i < r@[k]@.len() ==> (#[trigger] r@[k]@[i]) < keys@.len(),
        forall|k: int| 0 <= k < r@.len() ==> (#[trigger] r@[k])@.len() > 0,
{
    let o = sort_order(keys);
    let ghost kv = keys_ints(keys@);
    let ghost ov = place_ints(o@);
    let mut out: Vec<Vec<usize>> = Vec::new();
    let mut n: usize = 0;
    assert(group_ints(out@) =~= runs(kv, ov, 0));
    while n < o.len()
        invariant
            n <= o@.len(),
            kv == keys_ints(keys@),
            ov == place_ints(o@),
            forall|i: int| 0 <= i < o@.len() ==> (#[trigger] o@[i]) < keys@.len(),
            group_ints(out@) == runs(kv, ov, n as int),
            forall|k: int, i: int| 0 <= k < out@.len() && 0 <= i < out@[k]@.len() ==> (#[trigger] out@[k]@[i]) < keys@.len(),
            forall|k: int| 0 <= k < out@.len() ==> (#[trigger] out@[k])@.len() > 0,
        decreases o@.len() - n,
    {
        let ghost before = group_ints(out@);
        let x: usize = o[n];
        assert(ov[n as int] == x);
        let m: usize = out.len();
        let joins: bool = if m > 0 {
            let last: usize = out[m - 1][out[m - 1].len() - 1];
            proof {
                assert(before[m - 1] == place_ints(out@[m - 1]@));
                assert(before.last().last() == last);
                assert(kv[last as int] == key_ints(keys@[last as int]@));
                assert(kv[x as int] == key_ints(keys@[x as int]@));
            }
            same_key(keys[last].as_slice(), keys[x].as_slice())
        } else {
            false
        };
        if joins {
            let ghost old_out = out@;
            let mut top = match out.pop() {
                Some(t) => t,
                None => Vec::new(),
            };
            let ghost t0 = top@;
            top.push(x);
            out.push(top);
            proof {
                assert(place_ints(top@) =~= place_ints(t0).push(x as int));
                assert(group_ints(out@) =~= before.drop_last().push(before.last().push(x as int)));
            }
        } else {
            let mut single: Vec<usize> = Vec::new();
            single.push(x);
            out.push(single);
            proof {
                assert(place_ints(single@) =~= seq![x as int]);
                assert(group_ints(out@) =~= before.push(seq![x as int]));
            }
        }
        n += 1;
    }
    out
}

// ---- sums --------------------------------------------------------------------------

/// The sum of numbers.
pub open spec fn total(v: Seq<int>) -> int
    decreases v.len(),
{
    if v.len() == 0 {
        0
    } else {
        total(v.drop_last()) + v.last()
    }
}

/// One number less in a sum.
proof fn lemma_total_remove(v: Seq<int>, p: int)
    requires
        0 <= p < v.len(),
    ensures
        total(v) == total(v.remove(p)) + v[p],
    decreases v.len(),
{
    if p == v.len() - 1 {
        assert(v.remove(p) =~= v.drop_last());
    } else {
        lemma_total_remove(v.drop_last(), p);
        assert(v.remove(p).drop_last() =~= v.drop_last().remove(p));
        assert(v.remove(p).last() == v.last());
    }
}

/// A sum does not depend on the order.
proof fn lemma_total_any_order(v: Seq<int>, o: Seq<int>)
    requires
        o.len() == v.len(),
        o.no_duplicates(),
        covers(o, 0, v.len() as int),
    ensures
        total(arranged(v, o)) == total(v),
    decreases v.len(),
{
    if v.len() > 0 {
        let n = v.len() - 1;
        assert(o.contains(n));
        let p = choose|p: int| 0 <= p < o.len() && o[p] == n;
        let q = o.remove(p);
        let w = v.drop_last();
        assert forall|i: int| 0 <= i < q.len() implies 0 <= #[trigger] q[i] < w.len() by {
            let k = if i < p { i } else { i + 1 };
            assert(q[i] == o[k]);
            assert(o[k] != o[p]);
        }
        assert forall|x: int| 0 <= x < w.len() implies #[trigger] q.contains(x) by {
            assert(o.contains(x));
            let k = choose|k: int| 0 <= k < o.len() && o[k] == x;
            if k < p {
                assert(q[k] == x);
            } else {
                assert(q[k - 1] == x);
            }
        }
        assert forall|i: int, j: int| 0 <= i < q.len() && 0 <= j < q.len() && i != j implies q[i] != q[j] by {
            let k = if i < p { i } else { i + 1 };
            let l = if j < p { j } else { j + 1 };
            assert(q[i] == o[k] && q[j] == o[l]);
        }
        lemma_total_any_order(w, q);
        lemma_total_remove(arranged(v, o), p);
        assert(arranged(v, o).remove(p) =~= arranged(w, q));
    }
}

/// Sorting numbers along with other things does not change their sum.
pub proof fn lemma_total_sorted(v: Seq<int>, keys: Seq<Seq<int>>)
    requires
        v.len() == keys.len(),
    ensures
        total(arranged(v, order_of(keys))) == total(v),
{
    lemma_order_exists(keys);
    lemma_order_len(keys, order_of(keys));
    lemma_total_any_order(v, order_of(keys));
}

/// The sizes of groups.
pub open spec fn sizes(g: Seq<Seq<int>>) -> Seq<int> {
    g.map_values(|v: Seq<int>| v.len() as int)
}

/// The groups together are as large as what was grouped.
pub proof fn law_group_sizes(keys: Seq<Seq<int>>)
    ensures
        total(sizes(groups_of(keys))) == keys.len(),
{
    lemma_order_exists(keys);
    lemma_order_len(keys, order_of(keys));
    lemma_run_sizes(keys, order_of(keys), keys.len() as int);
}

proof fn lemma_run_sizes(keys: Seq<Seq<int>>, o: Seq<int>, n: int)
    requires
        0 <= n <= o.len(),
    ensures
        total(sizes(runs(keys, o, n))) == n,
    decreases n,
{
    if n > 0 {
        lemma_run_sizes(keys, o, n - 1);
        let g = runs(keys, o, n - 1);
        let h = runs(keys, o, n);
        let x = o[n - 1];
        if g.len() > 0 && keys[g.last().last()] == keys[x] {
            assert(sizes(h).drop_last() =~= sizes(g).drop_last());
            assert(sizes(h).last() == sizes(g).last() + 1);
        } else {
            assert(sizes(h).drop_last() =~= sizes(g));
            assert(sizes(h).last() == 1);
        }
    }
}

} // verus!
