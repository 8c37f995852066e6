//! JSON values as plain data.
//!
//! The text is read by `serde_json`; the logic works on [`Json`]. A number is kept as
//! the decimal text that `serde_json` writes for it, and read as a whole number of small
//! units, millionths for most.
use vstd::prelude::*;
use crate::text::{
    all_digits, ascii_digit, ascii_lowered, chars_of, decimal, digits_number, digits_value, first_of,
    first_of_chars, law_decimal, lemma_digits_value_grows, lemma_first_of, same, same_ignoring_ascii_case, text_of,
};

verus! {

/// A JSON value.
#[derive(Debug)]
pub enum Json {
    Null,
    Bool(bool),
    /// The decimal text of a number.
    Num(String),
    Text(String),
    List(Vec<Json>),
    /// The members, each key once.
    Object(Vec<Member>),
}

/// A member of a JSON object.
#[derive(Debug)]
pub struct Member {
    pub key: String,
    pub value: Json,
}

/// What a JSON value says.
pub enum JsonV {
    Null,
    Bool(bool),
    Num(Seq<char>),
    Text(Seq<char>),
    List(Seq<JsonV>),
    Object(Seq<MemberV>),
}

pub struct MemberV {
    pub key: Seq<char>,
    pub value: JsonV,
}

impl DeepView for Json {
    type V = JsonV;

    open spec fn deep_view(&self) -> JsonV
        decreases self,
    {
        match *self {
            Json::Null => JsonV::Null,
            Json::Bool(b) => JsonV::Bool(b),
            Json::Num(s) => JsonV::Num(s@),
            Json::Text(s) => JsonV::Text(s@),
            Json::List(v) => JsonV::List(
                Seq::new(
                    v@.len(),
                    |i: int|
                        if 0 <= i < v@.len() {
                            v@[i].deep_view()
                        } else {
                            JsonV::Null
                        },
                ),
            ),
            Json::Object(v) => JsonV::Object(
                Seq::new(
                    v@.len(),
                    |i: int|
                        if 0 <= i < v@.len() {
                            MemberV { key: v@[i].key@, value: v@[i].value.deep_view() }
                        } else {
                            MemberV { key: seq![], value: JsonV::Null }
                        },
                ),
            ),
        }
    }
}

// ---- reading ---------------------------------------------------------------------------

#[verifier::external_type_specification]
#[verifier::external_body]
pub struct ExValue(serde_json::Value);

/// What `serde_json::from_str` reads a text as, `None` where it is no JSON.
pub uninterp spec fn json_value(text: Seq<char>) -> Option<JsonV>;

/// Moves a `serde_json::Value` into a [`Json`], variant by variant. A number becomes
/// the text that its `Display` writes. Nothing is claimed of the result.
#[verifier::external_body]
fn convert(v: serde_json::Value) -> (r: Json) {
    match v {
        serde_json::Value::Null => Json::Null,
        serde_json::Value::Bool(b) => Json::Bool(b),
        serde_json::Value::Number(n) => Json::Num(n.to_string()),
        serde_json::Value::String(s) => Json::Text(s),
        serde_json::Value::Array(a) => Json::List(a.into_iter().map(convert).collect()),
        serde_json::Value::Object(o) => Json::Object(o.into_iter().map(|(key, x)| Member { key, value: convert(x) }).collect()),
    }
}

/// Reads a text with `serde_json::from_str`. What it yields depends on the text alone.
#[verifier::external_body]
pub(crate) fn parse(text: &str) -> (r: Option<Json>)
    ensures
        r.deep_view() == json_value(text@),
{
    serde_json::from_str::<serde_json::Value>(text).ok().map(convert)
}

// ---- looking into a value ----------------------------------------------------------------

/// The value of the first member from `i` on that has this key.
pub open spec fn member_from(ms: Seq<MemberV>, key: Seq<char>, i: int) -> Option<JsonV>
    decreases ms.len() - i,
{
    if i < 0 || i >= ms.len() {
        None
    } else if ms[i].key == key {
        Some(ms[i].value)
    } else {
        member_from(ms, key, i + 1)
    }
}

/// The value under a key, where the value is an object that has it.
pub open spec fn field(v: JsonV, key: Seq<char>) -> Option<JsonV> {
    match v {
        JsonV::Object(ms) => member_from(ms, key, 0),
        _ => None,
    }
}

pub open spec fn text_in(v: JsonV) -> Option<Seq<char>> {
    match v {
        JsonV::Text(s) => Some(s),
        _ => None,
    }
}

pub open spec fn bool_in(v: JsonV) -> Option<bool> {
    match v {
        JsonV::Bool(b) => Some(b),
        _ => None,
    }
}

pub open spec fn list_in(v: JsonV) -> Option<Seq<JsonV>> {
    match v {
        JsonV::List(l) => Some(l),
        _ => None,
    }
}

/// The text under a key.
pub open spec fn text_field(v: JsonV, key: Seq<char>) -> Option<Seq<char>> {
    match field(v, key) {
        Some(x) => text_in(x),
        None => None,
    }
}

/// The list under a key.
pub open spec fn list_field(v: JsonV, key: Seq<char>) -> Option<Seq<JsonV>> {
    match field(v, key) {
        Some(x) => list_in(x),
        None => None,
    }
}

/// The truth value under a key; false where there is none.
pub open spec fn flag_field(v: JsonV, key: Seq<char>) -> bool {
    match field(v, key) {
        Some(x) => bool_in(x) == Some(true),
        None => false,
    }
}

/// The number under a key, in units of which `10^places` are one.
pub open spec fn scaled_field(v: JsonV, key: Seq<char>, places: int) -> Option<int> {
    match field(v, key) {
        Some(JsonV::Num(s)) => scaled_of(s, places),
        _ => None,
    }
}

/// The number under a key, in millionths.
pub open spec fn micros_field(v: JsonV, key: Seq<char>) -> Option<int> {
    match field(v, key) {
        Some(JsonV::Num(s)) => micros_of(s),
        _ => None,
    }
}

impl Json {
    /// The value under a key, where this is an object that has it.
    pub fn get(&self, key: &str) -> (r: Option<&Json>)
        ensures
            r.deep_view() == field(self.deep_view(), key@),
    {
        match self {
            Json::Object(ms) => {
                let ghost mv = self.deep_view()->Object_0;
                assert(mv =~= Seq::new(ms@.len(), |i: int| MemberV { key: ms@[i].key@, value: ms@[i].value.deep_view() }));
                let mut i: usize = 0;
                while i < ms.len()
                    invariant
                        i <= ms@.len(),
                        mv.len() == ms@.len(),
                        self.deep_view() == JsonV::Object(mv),
                        forall|k: int| 0 <= k < ms@.len() ==> #[trigger] mv[k] == (MemberV { key: ms@[k].key@, value: ms@[k].value.deep_view() }),
                        field(self.deep_view(), key@) == member_from(mv, key@, i as int),
                    decreases ms@.len() - i,
                {
                    if same(ms[i].key.as_str(), key) {
                        return Some(&ms[i].value);
                    }
                    i += 1;
                }
                None
            },
            _ => None,
        }
    }

    /// The text that this is.
    pub fn text(&self) -> (r: Option<&str>)
        ensures
            r.deep_view() == text_in(self.deep_view()),
    {
        match self {
            Json::Text(s) => Some(s.as_str()),
            _ => None,
        }
    }

    /// The items of the list that this is.
    pub fn list(&self) -> (r: Option<&Vec<Json>>)
        ensures
            match r {
                Some(v) => list_in(self.deep_view()) == Some(v.deep_view()),
                None => list_in(self.deep_view()) is None,
            },
    {
        match self {
            Json::List(v) => {
                assert(self.deep_view()->List_0 =~= v.deep_view());
                Some(v)
            },
            _ => None,
        }
    }

    /// The text under a key.
    pub fn text_at(&self, key: &str) -> (r: Option<&str>)
        ensures
            r.deep_view() == text_field(self.deep_view(), key@),
    {
        match self.get(key) {
            Some(x) => x.text(),
            None => None,
        }
    }

    /// The list under a key.
    pub fn list_at(&self, key: &str) -> (r: Option<&Vec<Json>>)
        ensures
            match r {
                Some(v) => list_field(self.deep_view(), key@) == Some(v.deep_view()),
                None => list_field(self.deep_view(), key@) is None,
            },
    {
        match self.get(key) {
            Some(x) => x.list(),
            None => None,
        }
    }

    /// The truth value under a key; false where there is none.
    pub fn flag_at(&self, key: &str) -> (r: bool)
        ensures
            r == flag_field(self.deep_view(), key@),
    {
        match self.get(key) {
            Some(Json::Bool(b)) => *b,
            _ => false,
        }
    }

    /// The number under a key, in units of which `10^places` are one.
    pub fn scaled_at(&self, key: &str, places: u8) -> (r: Option<i64>)
        requires
            places <= 18,
        ensures
            match r {
                Some(n) => scaled_field(self.deep_view(), key@, places as int) == Some(n as int),
                None => scaled_field(self.deep_view(), key@, places as int) is None,
            },
    {
        match self.get(key) {
            Some(Json::Num(s)) => parse_scaled(s.as_str(), places),
            _ => None,
        }
    }

    /// The number under a key, in millionths.
    pub fn micros_at(&self, key: &str) -> (r: Option<i64>)
        ensures
            match r {
                Some(n) => micros_field(self.deep_view(), key@) == Some(n as int),
                None => micros_field(self.deep_view(), key@) is None,
            },
    {
        match self.get(key) {
            Some(Json::Num(s)) => parse_micros(s.as_str()),
            _ => None,
        }
    }
}

// ---- numbers -----------------------------------------------------------------------------

/// The digits with the point moved `k` places to the right: zeros behind, or digits cut off.
pub open spec fn shifted(d: Seq<char>, k: int) -> Seq<char> {
    if k >= 0 {
        d + Seq::new(k as nat, |i: int| '0')
    } else if d.len() + k <= 0 {
        seq![]
    } else {
        d.take(d.len() + k)
    }
}

/// The value of an exponent: digits behind a sign, if there is one.
pub open spec fn exponent_of(s: Seq<char>) -> Option<int> {
    let signed = s.len() > 0 && (s[0] == '-' || s[0] == '+');
    let d = if signed {
        s.skip(1)
    } else {
        s
    };
    if d.len() > 0 && all_digits(d) {
        Some(
            if signed && s[0] == '-' {
                -(digits_value(d) as int)
            } else {
                digits_value(d) as int
            },
        )
    } else {
        None
    }
}

/// The number that digits write with the point moved, or the largest that fits.
pub open spec fn fitting_value(d: Seq<char>, k: int) -> int {
    let v = digits_value(shifted(d, k));
    if v <= i64::MAX {
        v as int
    } else {
        i64::MAX as int
    }
}

/// A word for a number that is beyond all others.
pub open spec fn names_infinity(s: Seq<char>) -> bool {
    ascii_lowered(s) == "inf"@ || ascii_lowered(s) == "infinity"@
}

/// A decimal number in units of which `10^places` are one: what is finer is cut off, and what
/// does not fit is the number closest to it that does. There may be a sign, and there must be
/// a digit before or behind the point.
pub open spec fn scaled_of(s: Seq<char>, places: int) -> Option<int> {
    let neg = s.len() > 0 && s[0] == '-';
    let body = if neg || (s.len() > 0 && s[0] == '+') {
        s.skip(1)
    } else {
        s
    };
    let e = first_of(body, seq!['e', 'E'], 0);
    let mantissa = body.take(e);
    let dot = first_of(mantissa, seq!['.'], 0);
    let whole = mantissa.take(dot);
    let frac = mantissa.skip(if dot < mantissa.len() {
        dot + 1
    } else {
        dot
    });
    let x = if e < body.len() {
        exponent_of(body.skip(e + 1))
    } else {
        Some(0)
    };
    let m = if names_infinity(body) {
        Some(i64::MAX as int)
    } else if (whole + frac).len() > 0 && all_digits(whole + frac) && x is Some {
        Some(fitting_value(whole + frac, x->0 - frac.len() + places))
    } else {
        None
    };
    match m {
        Some(v) => Some(
            if neg {
                -v
            } else {
                v
            },
        ),
        None => None,
    }
}

/// A decimal number in millionths.
pub open spec fn micros_of(s: Seq<char>) -> Option<int> {
    scaled_of(s, 6)
}

/// More than any exponent that makes a difference.
const EXPONENT_CAP: i128 = 1_180_591_620_717_411_303_424;

/// An exponent, or one that is as good as it.
spec fn stands_for(x: int, e: int) -> bool {
    x == e || (x == EXPONENT_CAP && e >= EXPONENT_CAP) || (x == -EXPONENT_CAP && e <= -EXPONENT_CAP)
}

/// The number that the digits of `c[lo..]` write, but no more than the cap.
fn capped_number(c: &[char], lo: usize) -> (r: Option<i128>)
    requires
        lo <= c@.len(),
    ensures
        match r {
            Some(n) => {
                &&& lo < c@.len() && all_digits(c@.skip(lo as int)) && 0 <= n <= EXPONENT_CAP
                &&& n == digits_value(c@.skip(lo as int)) || (n == EXPONENT_CAP && digits_value(c@.skip(lo as int)) >= EXPONENT_CAP)
            },
            None => lo == c@.len() || !all_digits(c@.skip(lo as int)),
        },
{
    if lo == c.len() {
        return None;
    }
    let ghost d = c@.skip(lo as int);
    let mut n: i128 = 0;
    let mut i: usize = lo;
    while i < c.len()
        invariant
            lo <= i <= c@.len(),
            d == c@.skip(lo as int),
            all_digits(d.take(i - lo)),
            0 <= n <= EXPONENT_CAP,
            n == digits_value(d.take(i - lo)) || (n == EXPONENT_CAP && digits_value(d.take(i - lo)) >= EXPONENT_CAP),
        decreases c@.len() - i,
    {
        let x = c[i];
        assert(d[i - lo] == x);
        if x < '0' || x > '9' {
            assert(!ascii_digit(d[i - lo]));
            return None;
        }
        let v: i128 = (x as u8 - 48) as i128;
        proof {
            let t = d.take(i + 1 - lo);
            assert(t.drop_last() =~= d.take(i - lo));
            assert(t.last() == x);
            assert forall|k: int| 0 <= k < t.len() implies ascii_digit(#[trigger] t[k]) by {
                if k < i - lo {
                    assert(t[k] == d.take(i - lo)[k]);
                }
            }
        }
        n = n * 10 + v;
        if n > EXPONENT_CAP {
            n = EXPONENT_CAP;
        }
        i += 1;
    }
    assert(d.take(i - lo) =~= d);
    Some(n)
}

fn parse_exponent(c: &[char], lo: usize) -> (r: Option<i128>)
    requires
        lo <= c@.len(),
    ensures
        match r {
            Some(x) => exponent_of(c@.skip(lo as int)) matches Some(e) && stands_for(x as int, e) && -EXPONENT_CAP <= x
                <= EXPONENT_CAP,
            None => exponent_of(c@.skip(lo as int)) is None,
        },
{
    let ghost s = c@.skip(lo as int);
    let signed = lo < c.len() && (c[lo] == '-' || c[lo] == '+');
    let minus = lo < c.len() && c[lo] == '-';
    assert(s.len() > 0 ==> s[0] == c@[lo as int]);
    let start: usize = if signed {
        lo + 1
    } else {
        lo
    };
    assert(signed ==> c@.skip(start as int) =~= s.skip(1));
    match capped_number(c, start) {
        Some(n) => Some(
            if minus {
                -n
            } else {
                n
            },
        ),
        None => None,
    }
}

/// The characters of `c[lo..hi]` without the one at `dot`, where that is among them.
fn digits_without_dot(c: &[char], lo: usize, dot: usize, hi: usize) -> (r: Vec<char>)
    requires
        lo <= dot <= hi <= c@.len(),
    ensures
        r@ == c@.subrange(lo as int, dot as int) + c@.subrange(
            if dot < hi {
                dot + 1
            } else {
                hi as int
            },
            hi as int,
        ),
{
    let mut out: Vec<char> = Vec::new();
    let mut i: usize = lo;
    while i < dot
        invariant
            lo <= i <= dot <= hi <= c@.len(),
            out@ == c@.subrange(lo as int, i as int),
        decreases dot - i,
    {
        out.push(c[i]);
        i += 1;
    }
    let ghost front = out@;
    let start: usize = if dot < hi {
        dot + 1
    } else {
        hi
    };
    let mut j: usize = start;
    assert(front + c@.subrange(start as int, start as int) =~= front);
    while j < hi
        invariant
            start <= j <= hi <= c@.len(),
            out@ == front + c@.subrange(start as int, j as int),
        decreases hi - j,
    {
        out.push(c[j]);
        assert(out@ =~= front + c@.subrange(start as int, j + 1));
        j += 1;
    }
    out
}

fn shift_digits(d: Vec<char>, k: i128) -> (r: Vec<char>)
    ensures
        r@ == shifted(d@, k as int),
{
    let mut out = d;
    let ghost d0 = d@;
    if k >= 0 {
        let mut i: i128 = 0;
        assert(out@ =~= d0 + Seq::new(0, |i: int| '0'));
        while i < k
            invariant
                0 <= i <= k,
                out@ == d0 + Seq::new(i as nat, |i: int| '0'),
            decreases k - i,
        {
            out.push('0');
            assert(out@ =~= d0 + Seq::new((i + 1) as nat, |i: int| '0'));
            i += 1;
        }
    } else {
        let mut i: i128 = 0;
        assert(out@ =~= d0.take(d0.len() as int));
        while i > k && out.len() > 0
            invariant
                k <= i <= 0,
                out@.len() == d0.len() + i,
                out@ == d0.take(d0.len() + i),
            decreases out@.len(),
        {
            let _ = out.pop();
            assert(out@ =~= d0.take(d0.len() + i - 1));
            i -= 1;
        }
        assert(out@ =~= shifted(d0, k as int));
    }
    out
}

fn rest_of(c: &[char], lo: usize) -> (r: Vec<char>)
    requires
        lo <= c@.len(),
    ensures
        r@ == c@.skip(lo as int),
{
    let mut out: Vec<char> = Vec::new();
    let mut i: usize = lo;
    while i < c.len()
        invariant
            lo <= i <= c@.len(),
            out@ == c@.subrange(lo as int, i as int),
        decreases c@.len() - i,
    {
        out.push(c[i]);
        i += 1;
    }
    out
}

fn front_of(c: &[char], hi: usize) -> (r: Vec<char>)
    requires
        hi <= c@.len(),
    ensures
        r@ == c@.take(hi as int),
{
    let mut out: Vec<char> = Vec::new();
    let mut i: usize = 0;
    while i < hi
        invariant
            i <= hi <= c@.len(),
            out@ == c@.take(i as int),
        decreases hi - i,
    {
        out.push(c[i]);
        i += 1;
    }
    out
}

fn only_digits(c: &[char]) -> (r: bool)
    ensures
        r == all_digits(c@),
{
    let mut i: usize = 0;
    while i < c.len()
        invariant
            i <= c@.len(),
            forall|k: int| 0 <= k < i ==> ascii_digit(#[trigger] c@[k]),
        decreases c@.len() - i,
    {
        if c[i] < '0' || c[i] > '9' {
            assert(!ascii_digit(c@[i as int]));
            return false;
        }
        i += 1;
    }
    true
}

/// Ten to the power of `k`.
spec fn ten_to(k: int) -> nat
    decreases k,
{
    if k <= 0 {
        1
    } else {
        10 * ten_to(k - 1)
    }
}

proof fn lemma_shift_up(d: Seq<char>, k: int)
    requires
        0 <= k,
    ensures
        digits_value(shifted(d, k)) == digits_value(d) * ten_to(k),
    decreases k,
{
    if k > 0 {
        lemma_shift_up(d, k - 1);
        let t = shifted(d, k);
        assert(t.drop_last() =~= shifted(d, k - 1));
        assert(t.last() == '0');
        assert(digits_value(t) == digits_value(t.drop_last()) * 10);
        let v = digits_value(d);
        let w = ten_to(k - 1);
        assert((v * w) * 10 == v * (10 * w)) by (nonlinear_arith);
    } else {
        assert(shifted(d, k) =~= d);
        let v = digits_value(d);
        assert(v * 1 == v);
    }
}

/// Moved so far, any number but zero is too large.
proof fn lemma_shift_far(d: Seq<char>, k: int)
    requires
        k >= 19,
    ensures
        fitting_value(d, k) == (if digits_value(d) == 0 {
            0
        } else {
            i64::MAX as int
        }),
{
    lemma_shift_up(d, k);
    lemma_ten_grows(k);
    assert(ten_to(19) == 10_000_000_000_000_000_000) by {
        reveal_with_fuel(ten_to, 20);
    }
    let v = digits_value(d);
    let w = ten_to(k);
    if v == 0 {
        assert(v * w == 0) by (nonlinear_arith)
            requires
                v == 0,
        ;
    } else {
        assert(v * w >= w) by (nonlinear_arith)
            requires
                v >= 1,
        ;
    }
}

proof fn lemma_ten_grows(k: int)
    requires
        k >= 19,
    ensures
        ten_to(k) >= ten_to(19),
    decreases k,
{
    if k > 19 {
        lemma_ten_grows(k - 1);
    }
}

proof fn lemma_zeros(d: Seq<char>)
    requires
        forall|i: int| 0 <= i < d.len() ==> #[trigger] d[i] == '0',
    ensures
        digits_value(d) == 0,
    decreases d.len(),
{
    if d.len() > 0 {
        lemma_zeros(d.drop_last());
        assert(d.last() == d[d.len() - 1]);
    }
}

/// An exponent that stands for another gives the same number.
proof fn lemma_stands_for(d: Seq<char>, x: int, e: int, f: int, places: int)
    requires
        stands_for(x, e),
        0 <= f <= d.len() <= usize::MAX,
        0 <= places <= 18,
    ensures
        fitting_value(d, x - f + places) == fitting_value(d, e - f + places),
{
    if x == EXPONENT_CAP {
        lemma_shift_far(d, x - f + places);
        lemma_shift_far(d, e - f + places);
    } else if x == -EXPONENT_CAP {
        assert(shifted(d, x - f + places) =~= seq![]);
        assert(shifted(d, e - f + places) =~= seq![]);
    }
}

/// Whether digits write zero.
fn is_zero(d: &[char]) -> (r: bool)
    requires
        all_digits(d@),
    ensures
        r == (digits_value(d@) == 0),
{
    let mut i: usize = 0;
    while i < d.len()
        invariant
            i <= d@.len(),
            all_digits(d@),
            forall|k: int| 0 <= k < i ==> #[trigger] d@[k] == '0',
        decreases d@.len() - i,
    {
        if d[i] != '0' {
            proof {
                let t = d@.take(i + 1);
                assert(ascii_digit(d@[i as int]));
                assert(t.last() == d@[i as int]);
                lemma_digits_value_grows(d@, i + 1);
            }
            return false;
        }
        i += 1;
    }
    proof {
        lemma_zeros(d@);
    }
    true
}

/// The number that digits write with the point moved, or the largest that fits.
fn number_of(d: Vec<char>, k: i128) -> (r: i64)
    requires
        all_digits(d@),
    ensures
        0 <= r,
        r == fitting_value(d@, k as int),
{
    let ghost dv = d@;
    if k >= 19 {
        proof {
            lemma_shift_far(dv, k as int);
        }
        return if is_zero(&d) {
            0
        } else {
            i64::MAX
        };
    }
    let moved = shift_digits(d, k);
    assert(all_digits(moved@)) by {
        assert forall|i: int| 0 <= i < moved@.len() implies ascii_digit(#[trigger] moved@[i]) by {
            if i < dv.len() {
                assert(moved@[i] == dv[i]);
            }
        }
    }
    assert(moved@.skip(0) =~= moved@);
    if moved.len() == 0 {
        0
    } else {
        match digits_number(&moved, 0) {
            Some(v) if v <= 0x7fff_ffff_ffff_ffff => v as i64,
            _ => i64::MAX,
        }
    }
}

/// The digits of a mantissa, and how many of them are behind the point.
fn mantissa_digits(m: &[char]) -> (r: Option<(Vec<char>, usize)>)
    ensures
        ({
            let dot = first_of(m@, seq!['.'], 0);
            let whole = m@.take(dot);
            let frac = m@.skip(if dot < m@.len() {
                dot + 1
            } else {
                dot
            });
            match r {
                Some((d, f)) => d@.len() > 0 && all_digits(whole + frac) && d@ == whole + frac && f == frac.len(),
                None => (whole + frac).len() == 0 || !all_digits(whole + frac),
            }
        }),
{
    let ds: [char; 1] = ['.'];
    assert(ds@ =~= seq!['.']);
    let dot = first_of_chars(m, &ds, 0);
    proof {
        crate::text::lemma_first_of(m@, seq!['.'], 0);
    }
    let n: usize = m.len();
    let frac_len: usize = if dot < n {
        n - dot - 1
    } else {
        0
    };
    let d = digits_without_dot(m, 0, dot, n);
    proof {
        let frac = m@.skip(if dot < n {
            dot + 1
        } else {
            dot as int
        });
        assert(d@ =~= m@.take(dot as int) + frac);
    }
    if d.len() > 0 && only_digits(&d) {
        Some((d, frac_len))
    } else {
        None
    }
}

/// A decimal number in units of which `10^places` are one.
pub fn parse_scaled(s: &str, places: u8) -> (r: Option<i64>)
    requires
        places <= 18,
    ensures
        match r {
            Some(n) => scaled_of(s@, places as int) == Some(n as int),
            None => scaled_of(s@, places as int) is None,
        },
{
    let c = chars_of(s);
    let neg = c.len() > 0 && c[0] == '-';
    let signed = neg || (c.len() > 0 && c[0] == '+');
    let lo: usize = if signed {
        1
    } else {
        0
    };
    let body: Vec<char> = rest_of(&c, lo);
    assert(!signed ==> s@.skip(0) =~= s@);
    let word = text_of(&body, 0, body.len());
    assert(word@ =~= body@);
    if same_ignoring_ascii_case(word.as_str(), "inf") || same_ignoring_ascii_case(word.as_str(), "infinity") {
        proof {
            lemma_infinity_words();
        }
        return Some(
            if neg {
                -i64::MAX
            } else {
                i64::MAX
            },
        );
    }
    proof {
        lemma_infinity_words();
    }
    let es: [char; 2] = ['e', 'E'];
    assert(es@ =~= seq!['e', 'E']);
    let e = first_of_chars(&body, &es, 0);
    let mantissa: Vec<char> = front_of(&body, e);
    let x: i128 = if e < body.len() {
        match parse_exponent(&body, e + 1) {
            Some(x) => x,
            None => return None,
        }
    } else {
        0
    };
    match mantissa_digits(&mantissa) {
        None => None,
        Some((d, f)) => {
            let ghost dv = d@;
            let n: usize = d.len();
            proof {
                let true_x = if e < body.len() {
                    exponent_of(body@.skip(e + 1))->0
                } else {
                    0
                };
                lemma_stands_for(dv, x as int, true_x, f as int, places as int);
            }
            let m = number_of(d, x - f as i128 + places as i128);
            Some(
                if neg {
                    -m
                } else {
                    m
                },
            )
        },
    }
}

proof fn lemma_infinity_words()
    ensures
        ascii_lowered("inf"@) == "inf"@,
        ascii_lowered("infinity"@) == "infinity"@,
{
    reveal_strlit("inf");
    reveal_strlit("infinity");
    assert(ascii_lowered("inf"@) =~= "inf"@);
    assert(ascii_lowered("infinity"@) =~= "infinity"@);
}

/// A decimal number in millionths.
pub fn parse_micros(s: &str) -> (r: Option<i64>)
    ensures
        match r {
            Some(n) => micros_of(s@) == Some(n as int),
            None => micros_of(s@) is None,
        },
{
    parse_scaled(s, 6)
}

// ---- what reading a value means ------------------------------------------------------------

/// What is under a key of an object is the value of its first member with that key; an object
/// without one has nothing there, and nothing else has members.
pub proof fn law_field(v: JsonV, key: Seq<char>)
    ensures
        match field(v, key) {
            Some(x) => v matches JsonV::Object(ms) && exists|i: int|
                0 <= i < ms.len() && (#[trigger] ms[i]).key == key && ms[i].value == x && forall|j: int|
                    0 <= j < i ==> (#[trigger] ms[j]).key != key,
            None => v matches JsonV::Object(ms) ==> forall|i: int| 0 <= i < ms.len() ==> (#[trigger] ms[i]).key != key,
        },
        forall|t: Seq<char>| text_field(v, key) == Some(t) <==> #[trigger] is_field(v, key, JsonV::Text(t)),
        forall|l: Seq<JsonV>| list_field(v, key) == Some(l) <==> #[trigger] is_field(v, key, JsonV::List(l)),
        flag_field(v, key) <==> is_field(v, key, JsonV::Bool(true)),
{
    if let JsonV::Object(ms) = v {
        lemma_member_from(ms, key, 0);
    }
}

/// The value `x` is what is under the key.
pub open spec fn is_field(v: JsonV, key: Seq<char>, x: JsonV) -> bool {
    field(v, key) == Some(x)
}

proof fn lemma_member_from(ms: Seq<MemberV>, key: Seq<char>, i: int)
    requires
        0 <= i,
    ensures
        match member_from(ms, key, i) {
            Some(x) => exists|k: int|
                i <= k < ms.len() && (#[trigger] ms[k]).key == key && ms[k].value == x && forall|j: int|
                    i <= j < k ==> (#[trigger] ms[j]).key != key,
            None => forall|k: int| i <= k < ms.len() ==> (#[trigger] ms[k]).key != key,
        },
    decreases ms.len() - i,
{
    if i < ms.len() {
        if ms[i].key != key {
            lemma_member_from(ms, key, i + 1);
            if member_from(ms, key, i) is Some {
                let x = member_from(ms, key, i)->0;
                let k = choose|k: int|
                    i + 1 <= k < ms.len() && (#[trigger] ms[k]).key == key && ms[k].value == x && forall|j: int|
                        i + 1 <= j < k ==> (#[trigger] ms[j]).key != key;
                assert(ms[k].key == key);
            }
        }
    }
}

/// A sign turns a number round or leaves it.
pub proof fn law_sign(s: Seq<char>, places: int)
    requires
        s.len() > 0 ==> s[0] != '-' && s[0] != '+',
    ensures
        scaled_of(seq!['-'] + s, places) == (match scaled_of(s, places) {
            Some(v) => Some(-v),
            None => None,
        }),
        scaled_of(seq!['+'] + s, places) == scaled_of(s, places),
{
    assert((seq!['-'] + s).skip(1) =~= s);
    assert((seq!['+'] + s).skip(1) =~= s);
}

/// Digits without a point.
proof fn lemma_plain(w: Seq<char>, places: int)
    requires
        w.len() > 0,
        all_digits(w),
    ensures
        scaled_of(w, places) == Some(fitting_value(w, places)),
{
    lemma_not_infinity(w);
    let ee = seq!['e', 'E'];
    let dot = seq!['.'];
    lemma_first_of(w, ee, 0);
    assert forall|i: int| 0 <= i < w.len() implies !ee.contains(#[trigger] w[i]) && !dot.contains(w[i]) by {
        assert(ascii_digit(w[i]));
    }
    assert(first_of(w, ee, 0) == w.len());
    assert(w.take(w.len() as int) =~= w);
    lemma_first_of(w, dot, 0);
    assert(first_of(w, dot, 0) == w.len());
    assert(w.skip(w.len() as int) =~= seq![]);
    assert(w + seq![] =~= w);
    assert(ascii_digit(w[0]));
}

/// Digits with a point.
proof fn lemma_pointed(w: Seq<char>, f: Seq<char>, places: int)
    requires
        w.len() + f.len() > 0,
        all_digits(w),
        all_digits(f),
    ensures
        scaled_of(w + seq!['.'] + f, places) == Some(fitting_value(w + f, places - f.len())),
{
    let b = w + seq!['.'] + f;
    let ee = seq!['e', 'E'];
    let dot = seq!['.'];
    assert(dot[0] == '.');
    assert(dot.contains('.'));
    assert forall|i: int| 0 <= i < b.len() implies !ee.contains(#[trigger] b[i]) by {
        if i < w.len() {
            assert(b[i] == w[i]);
            assert(ascii_digit(w[i]));
        } else if i > w.len() {
            assert(b[i] == f[i - w.len() - 1]);
            assert(ascii_digit(f[i - w.len() - 1]));
        }
    }
    if w.len() > 0 {
        assert(b[0] == w[0]);
        assert(ascii_digit(w[0]));
    } else {
        assert(b[0] == '.');
    }
    lemma_not_infinity(b);
    lemma_first_of(b, ee, 0);
    assert(first_of(b, ee, 0) == b.len());
    assert(b.take(b.len() as int) =~= b);
    lemma_first_of(b, dot, 0);
    assert forall|i: int| 0 <= i < w.len() implies !dot.contains(#[trigger] b[i]) by {
        assert(b[i] == w[i]);
        assert(ascii_digit(w[i]));
    }
    assert(b[w.len() as int] == '.');
    assert(first_of(b, dot, 0) == w.len());
    assert(b.take(w.len() as int) =~= w);
    assert(b.skip(w.len() as int + 1) =~= f);
    assert(all_digits(w + f)) by {
        let d = w + f;
        assert forall|i: int| 0 <= i < d.len() implies ascii_digit(#[trigger] d[i]) by {
            if i < w.len() {
                assert(d[i] == w[i]);
            } else {
                assert(d[i] == f[i - w.len()]);
            }
        }
    }
}

proof fn lemma_not_infinity(s: Seq<char>)
    requires
        s.len() > 0,
        s[0] != 'i' && s[0] != 'I',
    ensures
        !names_infinity(s),
{
    reveal_strlit("inf");
    reveal_strlit("infinity");
    assert(ascii_lowered(s)[0] != 'i');
}

/// The point can be moved over a digit where the unit is made so much smaller or larger; one behind
/// the last digit makes no difference.
pub proof fn law_point(w: Seq<char>, d: char, f: Seq<char>, places: int)
    requires
        all_digits(w),
        ascii_digit(d),
        all_digits(f),
    ensures
        scaled_of(w + seq![d] + seq!['.'] + f, places) == scaled_of(w + seq!['.'] + (seq![d] + f), places + 1),
        scaled_of(w + seq![d] + seq!['.'], places) == scaled_of(w + seq![d], places),
{
    let wd = w + seq![d];
    let df = seq![d] + f;
    assert(all_digits(wd)) by {
        assert forall|i: int| 0 <= i < wd.len() implies ascii_digit(#[trigger] wd[i]) by {
            if i < w.len() {
                assert(wd[i] == w[i]);
            }
        }
    }
    assert(all_digits(df)) by {
        assert forall|i: int| 0 <= i < df.len() implies ascii_digit(#[trigger] df[i]) by {
            if i > 0 {
                assert(df[i] == f[i - 1]);
            }
        }
    }
    lemma_pointed(wd, f, places);
    lemma_pointed(w, df, places + 1);
    assert(wd + f =~= w + df);
    lemma_pointed(wd, seq![], places);
    assert(wd + seq!['.'] + seq![] =~= wd + seq!['.']);
    assert(wd + seq![] =~= wd);
    lemma_plain(wd, places);
}

/// A whole number is read as it is written, or as the largest that fits; in units ten times as
/// large it is what it is without its last digit, and in units ten times as small it is what it is
/// with a nought behind it.
pub proof fn law_whole_number(n: nat, w: Seq<char>, d: char, places: int)
    requires
        w.len() > 0,
        all_digits(w),
        ascii_digit(d),
    ensures
        scaled_of(decimal(n), 0) == Some(
            if n <= i64::MAX {
                n as int
            } else {
                i64::MAX as int
            },
        ),
        scaled_of(w + seq!['0'], places) == scaled_of(w, places + 1),
        places <= 0 ==> scaled_of(w + seq![d], places - 1) == scaled_of(w, places),
{
    law_decimal(n);
    lemma_plain(decimal(n), 0);
    assert(shifted(decimal(n), 0) =~= decimal(n));
    let w0 = w + seq!['0'];
    let wd = w + seq![d];
    assert(all_digits(w0)) by {
        assert forall|i: int| 0 <= i < w0.len() implies ascii_digit(#[trigger] w0[i]) by {
            if i < w.len() {
                assert(w0[i] == w[i]);
            }
        }
    }
    assert(all_digits(wd)) by {
        assert forall|i: int| 0 <= i < wd.len() implies ascii_digit(#[trigger] wd[i]) by {
            if i < w.len() {
                assert(wd[i] == w[i]);
            }
        }
    }
    lemma_plain(w, places);
    lemma_plain(w, places + 1);
    lemma_plain(w0, places);
    lemma_plain(wd, places - 1);
    assert(shifted(w0, places) =~= shifted(w, places + 1));
    if places <= 0 {
        assert(shifted(wd, places - 1) =~= shifted(w, places));
    }
}

/// An exponent makes the unit so much smaller or, below nought, so much larger.
pub proof fn law_exponent(m: Seq<char>, mark: char, k: nat, places: int)
    requires
        m.len() > 0,
        m[0] != '-' && m[0] != '+' && m[0] != 'i' && m[0] != 'I',
        forall|i: int| 0 <= i < m.len() ==> #[trigger] m[i] != 'e' && m[i] != 'E',
        mark == 'e' || mark == 'E',
    ensures
        scaled_of(m + seq![mark] + decimal(k), places) == scaled_of(m, places + k),
        scaled_of(m + seq![mark] + (seq!['+'] + decimal(k)), places) == scaled_of(m, places + k),
        scaled_of(m + seq![mark] + (seq!['-'] + decimal(k)), places) == scaled_of(m, places - k),
{
    law_decimal(k);
    assert(ascii_digit(decimal(k)[0]));
    assert((seq!['+'] + decimal(k)).skip(1) =~= decimal(k));
    assert((seq!['-'] + decimal(k)).skip(1) =~= decimal(k));
    lemma_exponent(m, mark, decimal(k), k as int, places);
    lemma_exponent(m, mark, seq!['+'] + decimal(k), k as int, places);
    lemma_exponent(m, mark, seq!['-'] + decimal(k), -(k as int), places);
}

proof fn lemma_exponent(m: Seq<char>, mark: char, x: Seq<char>, k: int, places: int)
    requires
        m.len() > 0,
        m[0] != '-' && m[0] != '+' && m[0] != 'i' && m[0] != 'I',
        forall|i: int| 0 <= i < m.len() ==> #[trigger] m[i] != 'e' && m[i] != 'E',
        mark == 'e' || mark == 'E',
        exponent_of(x) == Some(k),
    ensures
        scaled_of(m + seq![mark] + x, places) == scaled_of(m, places + k),
{
    let b = m + seq![mark] + x;
    let ee = seq!['e', 'E'];
    assert(ee[0] == 'e' && ee[1] == 'E');
    assert(ee.contains(mark));
    assert(b[0] == m[0]);
    lemma_not_infinity(b);
    lemma_not_infinity(m);
    lemma_first_of(b, ee, 0);
    lemma_first_of(m, ee, 0);
    assert forall|i: int| 0 <= i < m.len() implies !ee.contains(#[trigger] m[i]) by {
        assert(m[i] != 'e' && m[i] != 'E');
    }
    assert forall|i: int| 0 <= i < m.len() implies !ee.contains(#[trigger] b[i]) by {
        assert(b[i] == m[i]);
    }
    assert(b[m.len() as int] == mark);
    assert(first_of(b, ee, 0) == m.len());
    assert(first_of(m, ee, 0) == m.len());
    assert(b.take(m.len() as int) =~= m);
    assert(m.take(m.len() as int) =~= m);
    assert(b.skip(m.len() as int + 1) =~= x);
}

} // verus!
