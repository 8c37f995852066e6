//! What is printed: log lines, result summaries and their colours, as text. A failure
//! never hides inside a line that looks like success.
use vstd::prelude::*;
use crate::text::{blank, cat3, cat5, decimal, decimal_text, is_blank, join, joined, same};

verus! {

/// How much is printed, and whether the two streams take colour.
#[derive(Clone, Copy, PartialEq, Eq, Structural, Debug)]
pub struct Console {
    /// 0 is quiet, 1 is normal, 2 is verbose.
    pub verbosity: u8,
    pub color_out: bool,
    pub color_err: bool,
}

/// Whether a stream takes colour: it is a terminal, and colour was not switched off.
pub fn takes_color(no_color: bool, terminal: bool) -> (r: bool)
    ensures
        r == (!no_color && terminal),
{
    !no_color && terminal
}

pub fn set_verbosity(c: &mut Console, level: u8)
    ensures
        *final(c) == (Console { verbosity: level, ..*old(c) }),
{
    c.verbosity = level;
}

pub fn is_verbose(c: &Console) -> (r: bool)
    ensures
        r == (c.verbosity >= 2),
{
    c.verbosity >= 2
}

pub fn is_quiet(c: &Console) -> (r: bool)
    ensures
        r == (c.verbosity == 0),
{
    c.verbosity == 0
}

// ---- log lines -----------------------------------------------------------------------------

/// A line that starts with a symbol, in a colour where the stream takes one.
pub open spec fn painted(color: bool, code: Seq<char>, symbol: Seq<char>, m: Seq<char>) -> Seq<char> {
    if color {
        "\x1b["@ + code + "m"@ + symbol + " "@ + m + "\x1b[0m"@
    } else {
        symbol + " "@ + m
    }
}

fn paint(color: bool, code: &str, symbol: &str, m: &str) -> (r: String)
    ensures
        r@ == painted(color, code@, symbol@, m@),
{
    if color {
        let mut o = cat5("\x1b[", code, "m", symbol, " ");
        o.append(m);
        o.append("\x1b[0m");
        o
    } else {
        cat3(symbol, " ", m)
    }
}

/// A note, unless quiet.
pub fn info(c: &Console, m: &str) -> (r: Option<String>)
    ensures
        r.deep_view() == (if c.verbosity >= 1 {
            Some(painted(c.color_out, "1;34"@, "▸"@, m@))
        } else {
            None
        }),
{
    if c.verbosity >= 1 {
        Some(paint(c.color_out, "1;34", "▸", m))
    } else {
        None
    }
}

/// A success, unless quiet.
pub fn ok(c: &Console, m: &str) -> (r: Option<String>)
    ensures
        r.deep_view() == (if c.verbosity >= 1 {
            Some(painted(c.color_out, "1;32"@, "✓"@, m@))
        } else {
            None
        }),
{
    if c.verbosity >= 1 {
        Some(paint(c.color_out, "1;32", "✓", m))
    } else {
        None
    }
}

/// A warning, unless quiet.
pub fn warn(c: &Console, m: &str) -> (r: Option<String>)
    ensures
        r.deep_view() == (if c.verbosity >= 1 {
            Some(painted(c.color_out, "1;33"@, "⚠"@, m@))
        } else {
            None
        }),
{
    if c.verbosity >= 1 {
        Some(paint(c.color_out, "1;33", "⚠", m))
    } else {
        None
    }
}

/// An error. It is printed whatever the verbosity is.
pub fn err(c: &Console, m: &str) -> (r: String)
    ensures
        r@ == painted(c.color_err, "1;31"@, "✗"@, m@),
{
    paint(c.color_err, "1;31", "✗", m)
}

/// The detail of one item, where verbose.
pub fn detail(c: &Console, m: &str) -> (r: Option<String>)
    ensures
        r.deep_view() == (if c.verbosity >= 2 {
            Some("    "@ + m@)
        } else {
            None
        }),
{
    if c.verbosity >= 2 {
        Some(crate::text::cat("    ", m))
    } else {
        None
    }
}

// ---- result summaries ------------------------------------------------------------------------

/// How bad a number is: it gives the colour, and whether the headline warns.
#[derive(Clone, Copy, PartialEq, Eq, Structural, Debug)]
pub enum Tone {
    Good,
    Dim,
    Warn,
    Bad,
}

pub open spec fn code_of(t: Tone) -> Seq<char> {
    match t {
        Tone::Good => "32"@,
        Tone::Dim => "90"@,
        Tone::Warn => "33"@,
        Tone::Bad => "31"@,
    }
}

impl Tone {
    pub fn code(self) -> (r: &'static str)
        ensures
            r@ == code_of(self),
    {
        match self {
            Tone::Good => "32",
            Tone::Dim => "90",
            Tone::Warn => "33",
            Tone::Bad => "31",
        }
    }
}

#[derive(Debug)]
pub struct Metric {
    pub label: String,
    pub value: String,
    pub tone: Tone,
}

#[verifier::ext_equal]
pub struct MetricV {
    pub label: Seq<char>,
    pub value: Seq<char>,
    pub tone: Tone,
}

impl DeepView for Metric {
    type V = MetricV;

    open spec fn deep_view(&self) -> MetricV {
        MetricV { label: self.label@, value: self.value@, tone: self.tone }
    }
}

/// A value with its tone.
pub fn metric(label: &str, value: &str, tone: Tone) -> (r: Metric)
    ensures
        r.deep_view() == (MetricV { label: label@, value: value@, tone }),
{
    Metric { label: label.to_string(), value: value.to_string(), tone }
}

/// A count: nought is dim, whatever the tone.
pub open spec fn tally_of(label: Seq<char>, n: nat, active: Tone) -> MetricV {
    MetricV {
        label,
        value: decimal(n),
        tone: if n == 0 {
            Tone::Dim
        } else {
            active
        },
    }
}

/// A count: nought is dim, whatever the tone.
pub fn tally(label: &str, n: usize, active: Tone) -> (r: Metric)
    ensures
        r.deep_view() == tally_of(label@, n as nat, active),
{
    Metric {
        label: label.to_string(),
        value: decimal_text(n as u64),
        tone: if n == 0 {
            Tone::Dim
        } else {
            active
        },
    }
}

pub open spec fn is_problem(m: MetricV) -> bool {
    m.tone == Tone::Bad && m.value != "0"@
}

/// One of the metrics is a problem.
pub open spec fn has_problem(ms: Seq<MetricV>) -> bool {
    exists|i: int| 0 <= i < ms.len() && is_problem(#[trigger] ms[i])
}

fn any_problem(ms: &[Metric]) -> (r: bool)
    ensures
        r == has_problem(ms.deep_view()),
{
    let ghost mv = ms.deep_view();
    let mut i: usize = 0;
    while i < ms.len()
        invariant
            i <= ms@.len(),
            mv == ms.deep_view(),
            forall|k: int| 0 <= k < i ==> !is_problem(#[trigger] mv[k]),
        decreases ms@.len() - i,
    {
        assert(mv[i as int] == ms@[i as int].deep_view());
        if ms[i].tone == Tone::Bad && !same(ms[i].value.as_str(), "0") {
            assert(is_problem(mv[i as int]));
            return true;
        }
        i += 1;
    }
    false
}

pub open spec fn headline_text(c: Console, headline: Seq<char>, dry_run: bool, problem: bool) -> Seq<char> {
    painted(
        c.color_out,
        if problem {
            "1;33"@
        } else {
            "1;32"@
        },
        if problem {
            "⚠"@
        } else {
            "✓"@
        },
        headline,
    ) + (if !dry_run {
        ""@
    } else if c.color_out {
        " \x1b[90m[dry-run]\x1b[0m"@
    } else {
        " [dry-run]"@
    })
}

pub open spec fn metric_text(c: Console, m: MetricV) -> Seq<char> {
    if c.color_out {
        m.label + " \x1b[1;"@ + code_of(m.tone) + "m"@ + m.value + "\x1b[0m"@
    } else {
        m.label + " "@ + m.value
    }
}

pub open spec fn hint_text(c: Console, h: Seq<char>) -> Seq<char> {
    (if c.color_out {
        "    \x1b[36m→\x1b[0m "@
    } else {
        "    → "@
    }) + h
}

/// The lines of a result: the headline, which always prints; then, unless quiet, the
/// metrics on a line and the hints, each on its own.
pub open spec fn result_lines(
    c: Console,
    headline: Seq<char>,
    dry_run: bool,
    ms: Seq<MetricV>,
    hints: Seq<Seq<char>>,
) -> Seq<Seq<char>> {
    let head = seq![headline_text(c, headline, dry_run, has_problem(ms))];
    if c.verbosity == 0 {
        head
    } else {
        head + (if ms.len() == 0 {
            seq![]
        } else {
            seq!["    "@ + joined(ms.map_values(|m: MetricV| metric_text(c, m)), "  ·  "@)]
        }) + hints.map_values(|h: Seq<char>| hint_text(c, h))
    }
}

fn metric_line(c: &Console, m: &Metric) -> (r: String)
    ensures
        r@ == metric_text(*c, m.deep_view()),
{
    if c.color_out {
        let mut o = cat5(m.label.as_str(), " \x1b[1;", m.tone.code(), "m", m.value.as_str());
        o.append("\x1b[0m");
        o
    } else {
        cat3(m.label.as_str(), " ", m.value.as_str())
    }
}

fn metric_parts(c: &Console, ms: &[Metric]) -> (r: Vec<String>)
    ensures
        r.deep_view() == ms.deep_view().map_values(|m: MetricV| metric_text(*c, m)),
{
    let ghost want = ms.deep_view().map_values(|m: MetricV| metric_text(*c, m));
    let mut out: Vec<String> = Vec::new();
    let mut i: usize = 0;
    assert(out.deep_view() =~= want.take(0));
    while i < ms.len()
        invariant
            i <= ms@.len(),
            want == ms.deep_view().map_values(|m: MetricV| metric_text(*c, m)),
            want.len() == ms@.len(),
            out.deep_view() == want.take(i as int),
        decreases ms@.len() - i,
    {
        let ghost before = out.deep_view();
        assert(ms.deep_view()[i as int] == ms@[i as int].deep_view());
        out.push(metric_line(c, &ms[i]));
        assert(out.deep_view() =~= before.push(want[i as int]));
        assert(want.take(i + 1) =~= want.take(i as int).push(want[i as int]));
        i += 1;
    }
    assert(want.take(i as int) =~= want);
    out
}

/// The lines of a result.
pub fn result(c: &Console, headline: &str, dry_run: bool, metrics: &[Metric], hints: &[String]) -> (r: Vec<String>)
    ensures
        r.deep_view() == result_lines(*c, headline@, dry_run, metrics.deep_view(), hints.deep_view()),
{
    let ghost mv = metrics.deep_view();
    let ghost hv = hints.deep_view();
    let problem = any_problem(metrics);
    let (symbol, code) = if problem {
        ("⚠", "1;33")
    } else {
        ("✓", "1;32")
    };
    let mut head = paint(c.color_out, code, symbol, headline);
    head.append(
        if !dry_run {
            ""
        } else if c.color_out {
            " \x1b[90m[dry-run]\x1b[0m"
        } else {
            " [dry-run]"
        },
    );
    let mut out: Vec<String> = Vec::new();
    out.push(head);
    assert(out.deep_view() =~= seq![headline_text(*c, headline@, dry_run, problem)]);
    if c.verbosity == 0 {
        return out;
    }
    if metrics.len() > 0 {
        let ghost before = out.deep_view();
        let parts = metric_parts(c, metrics);
        let line = crate::text::cat("    ", join(&parts, "  ·  ").as_str());
        out.push(line);
        assert(out.deep_view() =~= before.push(
            "    "@ + joined(mv.map_values(|m: MetricV| metric_text(*c, m)), "  ·  "@),
        ));
    }
    let ghost sofar = out.deep_view();
    let ghost want = hv.map_values(|h: Seq<char>| hint_text(*c, h));
    let mut i: usize = 0;
    assert(out.deep_view() =~= sofar + want.take(0));
    while i < hints.len()
        invariant
            i <= hints@.len(),
            hv == hints.deep_view(),
            want == hv.map_values(|h: Seq<char>| hint_text(*c, h)),
            want.len() == hints@.len(),
            out.deep_view() == sofar + want.take(i as int),
        decreases hints@.len() - i,
    {
        let ghost before = out.deep_view();
        assert(hv[i as int] == hints@[i as int]@);
        let line = crate::text::cat(
            if c.color_out {
                "    \x1b[36m→\x1b[0m "
            } else {
                "    → "
            },
            hints[i].as_str(),
        );
        out.push(line);
        assert(out.deep_view() =~= before.push(want[i as int]));
        assert(want.take(i + 1) =~= want.take(i as int).push(want[i as int]));
        assert(before.push(want[i as int]) =~= sofar + want.take(i + 1));
        i += 1;
    }
    assert(want.take(i as int) =~= want);
    assert(out.deep_view() =~= result_lines(*c, headline@, dry_run, mv, hv));
    out
}

/// A problem always shows in the headline, however quiet the run is: its first line
/// starts with the warning sign, plain or painted, exactly where a metric is a problem.
pub proof fn law_problem_shows(c: Console, headline: Seq<char>, dry_run: bool, ms: Seq<MetricV>, hints: Seq<Seq<char>>)
    ensures
        result_lines(c, headline, dry_run, ms, hints).len() >= 1,
        result_lines(c, headline, dry_run, ms, hints)[0] == headline_text(c, headline, dry_run, has_problem(ms)),
        !c.color_out ==> (result_lines(c, headline, dry_run, ms, hints)[0][0] == '⚠' <==> has_problem(ms)),
{
    reveal_strlit("⚠");
    reveal_strlit("✓");
    reveal_strlit(" ");
}

/// A count of nought is never a problem, and one of a bad thing that is not nought always
/// is.
pub proof fn law_tally_problem(label: Seq<char>, n: nat)
    ensures
        is_problem(tally_of(label, n, Tone::Bad)) <==> n > 0,
        forall|tone: Tone| !is_problem(#[trigger] tally_of(label, 0, tone)),
{
    reveal_strlit("0");
    if n > 0 {
        lemma_decimal_front(n);
    }
}

/// A number above nought does not start with nought.
proof fn lemma_decimal_front(n: nat)
    requires
        n > 0,
    ensures
        decimal(n).len() > 0,
        decimal(n)[0] != '0',
    decreases n,
{
    if n >= 10 {
        lemma_decimal_front(n / 10);
        assert(decimal(n)[0] == decimal(n / 10)[0]);
    }
}

// ---- what is read ----------------------------------------------------------------------------

/// The block that lines from `i` on add: they are taken until a blank one that follows
/// something.
pub open spec fn block_from(ls: Seq<Seq<char>>, i: int, taken: bool) -> Seq<char>
    decreases ls.len() - i,
{
    if i < 0 || i >= ls.len() || (is_blank(ls[i]) && taken) {
        seq![]
    } else {
        ls[i] + "\n"@ + block_from(ls, i + 1, true)
    }
}

/// The block at the start of these lines: all up to a blank one that follows something.
pub fn read_block(ls: &[String]) -> (r: String)
    ensures
        r@ == block_from(ls.deep_view(), 0, false),
{
    let ghost lv = ls.deep_view();
    let mut out = String::new();
    let mut i: usize = 0;
    assert(out@ =~= seq![]);
    while i < ls.len()
        invariant_except_break
            i <= ls@.len(),
            lv == ls.deep_view(),
            out@ + block_from(lv, i as int, i > 0) == block_from(lv, 0, false),
        ensures
            out@ == block_from(lv, 0, false),
        decreases ls@.len() - i,
    {
        assert(lv[i as int] == ls@[i as int]@);
        if i > 0 && blank(ls[i].as_str()) {
            assert(out@ + seq![] =~= out@);
            break ;
        }
        let ghost before = out@;
        out.append(ls[i].as_str());
        out.append("\n");
        assert(out@ + block_from(lv, i + 1, true) =~= before + (lv[i as int] + "\n"@ + block_from(lv, i + 1, true)));
        i += 1;
        if i == ls.len() {
            assert(out@ + seq![] =~= out@);
        }
    }
    out
}

/// A quiet run prints the headline alone; any other prints every metric on the line below it, where
/// there is one, and then every hint on a line of its own.
pub proof fn law_result_lines(c: Console, headline: Seq<char>, dry_run: bool, ms: Seq<MetricV>, hints: Seq<Seq<char>>, i: int)
    ensures
        ({
            let l = result_lines(c, headline, dry_run, ms, hints);
            let n: int = if ms.len() > 0 {
                1
            } else {
                0
            };
            &&& c.verbosity == 0 ==> l.len() == 1
            &&& c.verbosity > 0 ==> l.len() == 1 + n + hints.len()
            &&& c.verbosity > 0 && 0 <= i < hints.len() ==> l[1 + n + i] == hint_text(c, hints[i])
            &&& c.verbosity > 0 && ms.len() > 0 ==> l[1] == "    "@ + joined(
                ms.map_values(|m: MetricV| metric_text(c, m)),
                "  ·  "@,
            )
        }),
{
}

/// A block is its lines up to the first blank one behind something, each with a line feed.
pub proof fn law_block(ls: Seq<Seq<char>>, n: int)
    requires
        0 < n <= ls.len(),
        forall|i: int| 0 < i < n ==> !is_blank(#[trigger] ls[i]),
        n < ls.len() ==> is_blank(ls[n]),
    ensures
        block_from(ls, 0, false) == ls.take(n).map_values(|l: Seq<char>| l + "\n"@).flatten(),
{
    lemma_block(ls, 1, n);
    let f = |l: Seq<char>| l + "\n"@;
    let all = ls.take(n).map_values(f);
    let rest = ls.subrange(1, n).map_values(f);
    assert(all =~= seq![f(ls[0])] + rest);
    all.lemma_flatten_and_flatten_alt_are_equivalent();
    assert(all.drop_first() =~= rest);
    assert(all.first() == f(ls[0]));
    assert(block_from(ls, 0, false) == f(ls[0]) + block_from(ls, 1, true));
}

proof fn lemma_block(ls: Seq<Seq<char>>, i: int, n: int)
    requires
        1 <= i <= n <= ls.len(),
        forall|k: int| 0 < k < n ==> !is_blank(#[trigger] ls[k]),
        n < ls.len() ==> is_blank(ls[n]),
    ensures
        block_from(ls, i, true) == ls.subrange(i, n).map_values(|l: Seq<char>| l + "\n"@).flatten(),
    decreases n - i,
{
    let f = |l: Seq<char>| l + "\n"@;
    let all = ls.subrange(i, n).map_values(f);
    if i < n {
        lemma_block(ls, i + 1, n);
        let rest = ls.subrange(i + 1, n).map_values(f);
        assert(all.drop_first() =~= rest);
        assert(all.first() == f(ls[i]));
    } else {
        assert(all =~= seq![]);
    }
}

/// A headline says what it is told behind its sign, and that the run was a dry one exactly where it
/// was; a metric says its name and its value.
pub proof fn law_headline(c: Console, headline: Seq<char>, problem: bool, m: MetricV)
    requires
        !c.color_out,
    ensures
        headline_text(c, headline, false, problem) == (if problem {
            "⚠"@
        } else {
            "✓"@
        }) + (" "@ + headline),
        headline_text(c, headline, true, problem) == headline_text(c, headline, false, problem) + " [dry-run]"@,
        metric_text(c, m) == m.label + (" "@ + m.value),
{
    reveal_strlit("");
    let s = if problem {
        "⚠"@
    } else {
        "✓"@
    };
    assert(headline_text(c, headline, false, problem) =~= s + (" "@ + headline));
    assert(headline_text(c, headline, true, problem) =~= headline_text(c, headline, false, problem) + " [dry-run]"@);
    assert(metric_text(c, m) =~= m.label + (" "@ + m.value));
}

/// Colours change no words: a painted line is the plain one between two codes.
pub proof fn law_colours(code: Seq<char>, symbol: Seq<char>, m: Seq<char>)
    ensures
        painted(true, code, symbol, m) == ("\x1b["@ + code + "m"@) + painted(false, code, symbol, m) + "\x1b[0m"@,
        painted(false, code, symbol, m) == symbol + (" "@ + m),
{
    assert(painted(true, code, symbol, m) =~= ("\x1b["@ + code + "m"@) + painted(false, code, symbol, m) + "\x1b[0m"@);
    assert(painted(false, code, symbol, m) =~= symbol + (" "@ + m));
}

} // verus!
