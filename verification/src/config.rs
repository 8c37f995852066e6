//! The durable defaults in `~/.config/amdl/config.toml`.
//!
//! Everything is optional and flags always override. Settings can be edited by hand
//! or managed one at a time (see [`set_value`]); every such write renders the whole
//! file anew with [`render`], so the help in it is always kept.
use vstd::prelude::*;
use crate::text::{
    append_lines, ascii_lowered, cat3, cat5, clean_line, find_from, lemma_find_from, lemma_lines_of_unlines, lemma_replaced_add,
    lemma_replaced_one, lemma_unlines_add, lines_of, lower_ascii, matches_at, one_line, replace, replaced, same, starts_with,
    unlines,
};

verus! {

#[derive(Debug)]
pub struct Config {
    pub paths: Paths,
    pub convert: Convert,
    pub keys: Keys,
    pub lyrics: Lyrics,
}

#[derive(Debug)]
pub struct Paths {
    /// The read-only source library.
    pub source: Option<String>,
    /// The derived library.
    pub output: Option<String>,
}

#[derive(Debug)]
pub struct Convert {
    /// The Opus bitrate, such as `192k`.
    pub bitrate: Option<String>,
}

#[derive(Debug)]
pub struct Keys {
    /// The AcoustID application key.
    pub acoustid: Option<String>,
    /// The Discogs personal token.
    pub discogs: Option<String>,
}

#[derive(Debug)]
pub struct Lyrics {
    /// A second lyrics server, speaking the LrcApi protocol.
    pub lrcapi_url: Option<String>,
    /// The key for `lrcapi_url`, sent as it is in the `Authorization` header.
    pub lrcapi_key: Option<String>,
    /// Ask the second server first. It decides which source wins a tie and is
    /// consulted first; a synced hit beats a plain one either way.
    pub lrcapi_first: bool,
    /// A forced-alignment service. Alignment runs once it is set.
    pub aligner_url: Option<String>,
    /// Show the tip that suggests an alignment service. On unless it is turned off.
    pub hints: bool,
}

impl Default for Config {
    fn default() -> (r: Config)
        ensures
            r.deep_view() == unset_config(),
    {
        Config {
            paths: Paths { source: None, output: None },
            convert: Convert { bitrate: None },
            keys: Keys { acoustid: None, discogs: None },
            lyrics: Lyrics {
                lrcapi_url: None,
                lrcapi_key: None,
                lrcapi_first: false,
                aligner_url: None,
                hints: true,
            },
        }
    }
}

/// What a configuration says, as plain values.
#[verifier::ext_equal]
pub struct ConfigV {
    pub source: Option<Seq<char>>,
    pub output: Option<Seq<char>>,
    pub bitrate: Option<Seq<char>>,
    pub acoustid: Option<Seq<char>>,
    pub discogs: Option<Seq<char>>,
    pub lrcapi_url: Option<Seq<char>>,
    pub lrcapi_key: Option<Seq<char>>,
    pub lrcapi_first: bool,
    pub aligner_url: Option<Seq<char>>,
    pub hints: bool,
}

impl DeepView for Config {
    type V = ConfigV;

    open spec fn deep_view(&self) -> ConfigV {
        ConfigV {
            source: self.paths.source.deep_view(),
            output: self.paths.output.deep_view(),
            bitrate: self.convert.bitrate.deep_view(),
            acoustid: self.keys.acoustid.deep_view(),
            discogs: self.keys.discogs.deep_view(),
            lrcapi_url: self.lyrics.lrcapi_url.deep_view(),
            lrcapi_key: self.lyrics.lrcapi_key.deep_view(),
            lrcapi_first: self.lyrics.lrcapi_first,
            aligner_url: self.lyrics.aligner_url.deep_view(),
            hints: self.lyrics.hints,
        }
    }
}

/// The configuration in which nothing is set.
pub open spec fn unset_config() -> ConfigV {
    ConfigV {
        source: None,
        output: None,
        bitrate: None,
        acoustid: None,
        discogs: None,
        lrcapi_url: None,
        lrcapi_key: None,
        lrcapi_first: false,
        aligner_url: None,
        hints: true,
    }
}

// ---- the settings ------------------------------------------------------------------

/// A setting that has a key of its own.
#[derive(Clone, Copy, PartialEq, Eq, Structural, Debug)]
pub enum Setting {
    Source,
    Output,
    Bitrate,
    Acoustid,
    Discogs,
    LrcapiUrl,
    LrcapiKey,
    LrcapiFirst,
    AlignerUrl,
    Hints,
}

pub const SOURCE_KEY: &'static str = "paths.source";

pub const OUTPUT_KEY: &'static str = "paths.output";

pub const BITRATE_KEY: &'static str = "convert.bitrate";

pub const ACOUSTID_KEY: &'static str = "keys.acoustid";

pub const DISCOGS_KEY: &'static str = "keys.discogs";

pub const LRCAPI_URL_KEY: &'static str = "lyrics.lrcapi_url";

pub const LRCAPI_KEY_KEY: &'static str = "lyrics.lrcapi_key";

pub const LRCAPI_FIRST_KEY: &'static str = "lyrics.lrcapi_first";

pub const ALIGNER_URL_KEY: &'static str = "lyrics.aligner_url";

pub const HINTS_KEY: &'static str = "lyrics.hints";

/// The setting that a dotted key names.
pub open spec fn setting(key: Seq<char>) -> Option<Setting> {
    if key == SOURCE_KEY@ {
        Some(Setting::Source)
    } else if key == OUTPUT_KEY@ {
        Some(Setting::Output)
    } else if key == BITRATE_KEY@ {
        Some(Setting::Bitrate)
    } else if key == ACOUSTID_KEY@ {
        Some(Setting::Acoustid)
    } else if key == DISCOGS_KEY@ {
        Some(Setting::Discogs)
    } else if key == LRCAPI_URL_KEY@ {
        Some(Setting::LrcapiUrl)
    } else if key == LRCAPI_KEY_KEY@ {
        Some(Setting::LrcapiKey)
    } else if key == LRCAPI_FIRST_KEY@ {
        Some(Setting::LrcapiFirst)
    } else if key == ALIGNER_URL_KEY@ {
        Some(Setting::AlignerUrl)
    } else if key == HINTS_KEY@ {
        Some(Setting::Hints)
    } else {
        None
    }
}

fn find_setting(key: &str) -> (r: Option<Setting>)
    ensures
        r == setting(key@),
{
    if same(key, SOURCE_KEY) {
        Some(Setting::Source)
    } else if same(key, OUTPUT_KEY) {
        Some(Setting::Output)
    } else if same(key, BITRATE_KEY) {
        Some(Setting::Bitrate)
    } else if same(key, ACOUSTID_KEY) {
        Some(Setting::Acoustid)
    } else if same(key, DISCOGS_KEY) {
        Some(Setting::Discogs)
    } else if same(key, LRCAPI_URL_KEY) {
        Some(Setting::LrcapiUrl)
    } else if same(key, LRCAPI_KEY_KEY) {
        Some(Setting::LrcapiKey)
    } else if same(key, LRCAPI_FIRST_KEY) {
        Some(Setting::LrcapiFirst)
    } else if same(key, ALIGNER_URL_KEY) {
        Some(Setting::AlignerUrl)
    } else if same(key, HINTS_KEY) {
        Some(Setting::Hints)
    } else {
        None
    }
}

/// The dotted keys, in the order in which they are listed.
pub open spec fn key_list() -> Seq<Seq<char>> {
    seq![
        SOURCE_KEY@,
        OUTPUT_KEY@,
        BITRATE_KEY@,
        ACOUSTID_KEY@,
        DISCOGS_KEY@,
        LRCAPI_URL_KEY@,
        LRCAPI_KEY_KEY@,
        LRCAPI_FIRST_KEY@,
        ALIGNER_URL_KEY@,
        HINTS_KEY@,
    ]
}

/// Every dotted key with a one-line description.
pub open spec fn described_keys() -> Seq<(Seq<char>, Seq<char>)> {
    seq![
        (SOURCE_KEY@, "read-only source (input) library path"@),
        (OUTPUT_KEY@, "derived Opus output library path"@),
        (BITRATE_KEY@, "default Opus bitrate/quality, e.g. 192k"@),
        (ACOUSTID_KEY@, "AcoustID application key (needed by `identify`)"@),
        (DISCOGS_KEY@, "Discogs personal token (optional, better cover art)"@),
        (LRCAPI_URL_KEY@, "fallback LrcApi lyrics server URL"@),
        (LRCAPI_KEY_KEY@, "LrcApi key, sent as the Authorization header"@),
        (LRCAPI_FIRST_KEY@, "query LrcApi before lrclib.net (true/false)"@),
        (ALIGNER_URL_KEY@, "amdl-aligner service URL (enables lyrics alignment)"@),
        (HINTS_KEY@, "show the 'set up an aligner' tip in lyrics runs (on/off)"@),
    ]
}

/// Every dotted key with a one-line description.
pub fn keys() -> (r: Vec<(&'static str, &'static str)>)
    ensures
        r@.map_values(|k: (&'static str, &'static str)| (k.0@, k.1@)) == described_keys(),
        r@.map_values(|k: (&'static str, &'static str)| k.0@) == key_list(),
{
    let mut v: Vec<(&'static str, &'static str)> = Vec::new();
    v.push((SOURCE_KEY, "read-only source (input) library path"));
    v.push((OUTPUT_KEY, "derived Opus output library path"));
    v.push((BITRATE_KEY, "default Opus bitrate/quality, e.g. 192k"));
    v.push((ACOUSTID_KEY, "AcoustID application key (needed by `identify`)"));
    v.push((DISCOGS_KEY, "Discogs personal token (optional, better cover art)"));
    v.push((LRCAPI_URL_KEY, "fallback LrcApi lyrics server URL"));
    v.push((LRCAPI_KEY_KEY, "LrcApi key, sent as the Authorization header"));
    v.push((LRCAPI_FIRST_KEY, "query LrcApi before lrclib.net (true/false)"));
    v.push((ALIGNER_URL_KEY, "amdl-aligner service URL (enables lyrics alignment)"));
    v.push((HINTS_KEY, "show the 'set up an aligner' tip in lyrics runs (on/off)"));
    assert(v@.map_values(|k: (&'static str, &'static str)| (k.0@, k.1@)) =~= described_keys());
    assert(v@.map_values(|k: (&'static str, &'static str)| k.0@) =~= key_list());
    v
}

// ---- reading and changing one setting ------------------------------------------------

/// The value of a setting as it is shown. Only a setting that takes a text can be
/// unset.
pub open spec fn shown(c: ConfigV, s: Setting) -> Option<Seq<char>> {
    match s {
        Setting::Source => c.source,
        Setting::Output => c.output,
        Setting::Bitrate => c.bitrate,
        Setting::Acoustid => c.acoustid,
        Setting::Discogs => c.discogs,
        Setting::LrcapiUrl => c.lrcapi_url,
        Setting::LrcapiKey => c.lrcapi_key,
        Setting::LrcapiFirst => Some(if c.lrcapi_first {
            "true"@
        } else {
            "false"@
        }),
        Setting::AlignerUrl => c.aligner_url,
        Setting::Hints => Some(if c.hints {
            "on"@
        } else {
            "off"@
        }),
    }
}

/// The truth value that a text writes: on or true, off or false, in any case.
pub open spec fn truth(v: Seq<char>) -> Option<bool> {
    let low = ascii_lowered(v);
    if low == "true"@ || low == "on"@ {
        Some(true)
    } else if low == "false"@ || low == "off"@ {
        Some(false)
    } else {
        None
    }
}

/// The configuration after a setting is given a value; `None` where the setting is a
/// switch and the value is no truth value.
pub open spec fn assigned(c: ConfigV, s: Setting, v: Seq<char>) -> Option<ConfigV> {
    match s {
        Setting::Source => Some(ConfigV { source: Some(v), ..c }),
        Setting::Output => Some(ConfigV { output: Some(v), ..c }),
        Setting::Bitrate => Some(ConfigV { bitrate: Some(v), ..c }),
        Setting::Acoustid => Some(ConfigV { acoustid: Some(v), ..c }),
        Setting::Discogs => Some(ConfigV { discogs: Some(v), ..c }),
        Setting::LrcapiUrl => Some(ConfigV { lrcapi_url: Some(v), ..c }),
        Setting::LrcapiKey => Some(ConfigV { lrcapi_key: Some(v), ..c }),
        Setting::LrcapiFirst => match truth(v) {
            Some(b) => Some(ConfigV { lrcapi_first: b, ..c }),
            None => None,
        },
        Setting::AlignerUrl => Some(ConfigV { aligner_url: Some(v), ..c }),
        Setting::Hints => match truth(v) {
            Some(b) => Some(ConfigV { hints: b, ..c }),
            None => None,
        },
    }
}

/// The configuration after a setting is cleared: a text becomes unset, a switch goes
/// back to its default.
pub open spec fn cleared(c: ConfigV, s: Setting) -> ConfigV {
    match s {
        Setting::Source => ConfigV { source: None, ..c },
        Setting::Output => ConfigV { output: None, ..c },
        Setting::Bitrate => ConfigV { bitrate: None, ..c },
        Setting::Acoustid => ConfigV { acoustid: None, ..c },
        Setting::Discogs => ConfigV { discogs: None, ..c },
        Setting::LrcapiUrl => ConfigV { lrcapi_url: None, ..c },
        Setting::LrcapiKey => ConfigV { lrcapi_key: None, ..c },
        Setting::LrcapiFirst => ConfigV { lrcapi_first: false, ..c },
        Setting::AlignerUrl => ConfigV { aligner_url: None, ..c },
        Setting::Hints => ConfigV { hints: true, ..c },
    }
}

pub open spec fn unknown_key_text(key: Seq<char>) -> Seq<char> {
    "unknown setting `"@ + key + "` — run `amdl configure keys` for the full list"@
}

pub open spec fn empty_value_text(key: Seq<char>) -> Seq<char> {
    "empty value for `"@ + key + "` — use `amdl configure unset "@ + key + "` to clear it"@
}

pub open spec fn bad_switch_text(v: Seq<char>) -> Seq<char> {
    "expected `on` or `off` (`true` or `false`), got `"@ + v + "`"@
}

fn unknown_key(key: &str) -> (r: String)
    ensures
        r@ == unknown_key_text(key@),
{
    cat3("unknown setting `", key, "` — run `amdl configure keys` for the full list")
}

fn parse_bool(v: &str) -> (r: Result<bool, String>)
    ensures
        match r {
            Ok(b) => truth(v@) == Some(b),
            Err(e) => truth(v@) is None && e@ == bad_switch_text(v@),
        },
{
    let low = lower_ascii(v);
    if same(low.as_str(), "true") || same(low.as_str(), "on") {
        Ok(true)
    } else if same(low.as_str(), "false") || same(low.as_str(), "off") {
        Ok(false)
    } else {
        Err(cat3("expected `on` or `off` (`true` or `false`), got `", v, "`"))
    }
}

/// Reads one setting as it is shown. `Ok(None)`: the key is known and nothing is set.
pub fn get_value(cfg: &Config, key: &str) -> (r: Result<Option<String>, String>)
    ensures
        match r {
            Ok(v) => setting(key@) matches Some(s) && v.deep_view() == shown(cfg.deep_view(), s),
            Err(e) => setting(key@) is None && e@ == unknown_key_text(key@),
        },
{
    match find_setting(key) {
        None => Err(unknown_key(key)),
        Some(s) => Ok(
            match s {
                Setting::Source => cfg.paths.source.clone(),
                Setting::Output => cfg.paths.output.clone(),
                Setting::Bitrate => cfg.convert.bitrate.clone(),
                Setting::Acoustid => cfg.keys.acoustid.clone(),
                Setting::Discogs => cfg.keys.discogs.clone(),
                Setting::LrcapiUrl => cfg.lyrics.lrcapi_url.clone(),
                Setting::LrcapiKey => cfg.lyrics.lrcapi_key.clone(),
                Setting::LrcapiFirst => Some(
                    if cfg.lyrics.lrcapi_first {
                        "true".to_string()
                    } else {
                        "false".to_string()
                    },
                ),
                Setting::AlignerUrl => cfg.lyrics.aligner_url.clone(),
                Setting::Hints => Some(
                    if cfg.lyrics.hints {
                        "on".to_string()
                    } else {
                        "off".to_string()
                    },
                ),
            },
        ),
    }
}

/// Sets one setting. An empty value, an unknown key and a switch with no truth value
/// are refused, and then nothing changes.
pub fn set_value(cfg: &mut Config, key: &str, value: &str) -> (r: Result<(), String>)
    ensures
        match r {
            Ok(_) => {
                &&& value@.len() > 0
                &&& setting(key@) matches Some(s) && assigned(old(cfg).deep_view(), s, value@) == Some(
                    final(cfg).deep_view(),
                )
            },
            Err(e) => {
                &&& *final(cfg) == *old(cfg)
                &&& if value@.len() == 0 {
                    e@ == empty_value_text(key@)
                } else {
                    match setting(key@) {
                        None => e@ == unknown_key_text(key@),
                        Some(s) => assigned(old(cfg).deep_view(), s, value@) is None && e@ == bad_switch_text(value@),
                    }
                }
            },
        },
{
    if value.is_empty() {
        return Err(cat5("empty value for `", key, "` — use `amdl configure unset ", key, "` to clear it"));
    }
    match find_setting(key) {
        None => return Err(unknown_key(key)),
        Some(s) => match s {
            Setting::Source => {
                cfg.paths.source = Some(value.to_string());
            },
            Setting::Output => {
                cfg.paths.output = Some(value.to_string());
            },
            Setting::Bitrate => {
                cfg.convert.bitrate = Some(value.to_string());
            },
            Setting::Acoustid => {
                cfg.keys.acoustid = Some(value.to_string());
            },
            Setting::Discogs => {
                cfg.keys.discogs = Some(value.to_string());
            },
            Setting::LrcapiUrl => {
                cfg.lyrics.lrcapi_url = Some(value.to_string());
            },
            Setting::LrcapiKey => {
                cfg.lyrics.lrcapi_key = Some(value.to_string());
            },
            Setting::LrcapiFirst => match parse_bool(value) {
                Ok(b) => {
                    cfg.lyrics.lrcapi_first = b;
                },
                Err(e) => return Err(e),
            },
            Setting::AlignerUrl => {
                cfg.lyrics.aligner_url = Some(value.to_string());
            },
            Setting::Hints => match parse_bool(value) {
                Ok(b) => {
                    cfg.lyrics.hints = b;
                },
                Err(e) => return Err(e),
            },
        },
    }
    Ok(())
}

/// Clears one setting. An unknown key is refused, and then nothing changes.
pub fn unset_value(cfg: &mut Config, key: &str) -> (r: Result<(), String>)
    ensures
        match r {
            Ok(_) => setting(key@) matches Some(s) && final(cfg).deep_view() == cleared(old(cfg).deep_view(), s),
            Err(e) => setting(key@) is None && *final(cfg) == *old(cfg) && e@ == unknown_key_text(key@),
        },
{
    match find_setting(key) {
        None => return Err(unknown_key(key)),
        Some(s) => match s {
            Setting::Source => {
                cfg.paths.source = None;
            },
            Setting::Output => {
                cfg.paths.output = None;
            },
            Setting::Bitrate => {
                cfg.convert.bitrate = None;
            },
            Setting::Acoustid => {
                cfg.keys.acoustid = None;
            },
            Setting::Discogs => {
                cfg.keys.discogs = None;
            },
            Setting::LrcapiUrl => {
                cfg.lyrics.lrcapi_url = None;
            },
            Setting::LrcapiKey => {
                cfg.lyrics.lrcapi_key = None;
            },
            Setting::LrcapiFirst => {
                cfg.lyrics.lrcapi_first = false;
            },
            Setting::AlignerUrl => {
                cfg.lyrics.aligner_url = None;
            },
            Setting::Hints => {
                cfg.lyrics.hints = true;
            },
        },
    }
    Ok(())
}

/// Whether a setting is a switch.
pub open spec fn is_switch(s: Setting) -> bool {
    s == Setting::LrcapiFirst || s == Setting::Hints
}

/// A text that was set is what is read back; a switch reads back as the truth value
/// that was set. Every other setting stays as it was.
pub proof fn law_set_then_get(c: ConfigV, s: Setting, v: Seq<char>, t: Setting)
    requires
        assigned(c, s, v) is Some,
    ensures
        ({
            let after = assigned(c, s, v)->0;
            &&& !is_switch(s) ==> shown(after, s) == Some(v)
            &&& is_switch(s) ==> shown(after, s) is Some && truth(shown(after, s)->0) == truth(v)
            &&& t != s ==> shown(after, t) == shown(c, t)
        }),
{
    lemma_switch_words();
}

/// A text that was cleared reads back as unset, a switch as its default. Every other
/// setting stays as it was, and clearing undoes setting.
pub proof fn law_unset(c: ConfigV, s: Setting, v: Seq<char>, t: Setting)
    ensures
        shown(cleared(c, s), s) == shown(unset_config(), s),
        !is_switch(s) ==> shown(cleared(c, s), s) is None,
        t != s ==> shown(cleared(c, s), t) == shown(c, t),
        assigned(c, s, v) matches Some(after) ==> cleared(after, s) == cleared(c, s),
{
}

proof fn lemma_switch_words()
    ensures
        truth("true"@) == Some(true),
        truth("false"@) == Some(false),
        truth("on"@) == Some(true),
        truth("off"@) == Some(false),
{
    reveal_strlit("true");
    reveal_strlit("false");
    reveal_strlit("on");
    reveal_strlit("off");
    assert(ascii_lowered("true"@) =~= "true"@);
    assert(ascii_lowered("false"@) =~= "false"@);
    assert(ascii_lowered("on"@) =~= "on"@);
    assert(ascii_lowered("off"@) =~= "off"@);
    assert("false"@ != "true"@ && "false"@ != "on"@);
    assert("off"@ != "true"@ && "off"@ != "on"@);
}

// ---- the file ------------------------------------------------------------------------

/// A text between double quotes, with a backslash before each backslash and each
/// double quote.
pub open spec fn escaped(s: Seq<char>) -> Seq<char> {
    replaced(replaced(s, '\\', "\\\\"@), '"', "\\\""@)
}

/// The line of a text setting: the value where there is one, else an example behind
/// a comment sign.
pub open spec fn text_line(key: Seq<char>, val: Option<Seq<char>>, example: Seq<char>) -> Seq<char> {
    match val {
        Some(v) => key + " = \""@ + escaped(v) + "\""@,
        None => "# "@ + key + " = \""@ + example + "\""@,
    }
}

/// The line of a switch: behind a comment sign where it has its default.
pub open spec fn switch_line(key: Seq<char>, val: bool, default: bool) -> Seq<char> {
    (if val == default {
        "# "@
    } else {
        ""@
    }) + key + (if val {
        " = true"@
    } else {
        " = false"@
    })
}

pub open spec fn head_lines() -> Seq<Seq<char>> {
    seq![
        "# ~/.config/amdl/config.toml — amdl defaults. All optional; command flags override."@,
        "# Edit by hand, or manage programmatically: `amdl configure set/unset/get/list`."@,
        "# Every `configure` write re-renders this file, so the help below is always kept."@,
        ""@,
    ]
}

pub open spec fn paths_lines(c: ConfigV) -> Seq<Seq<char>> {
    seq![
        "[paths]"@,
        "# The read-only input library (originals)."@,
        text_line("source"@, c.source, "/mnt/music/originals"@),
        "# The derived Opus output library."@,
        text_line("output"@, c.output, "/mnt/music/library"@),
        ""@,
    ]
}

pub open spec fn convert_lines(c: ConfigV) -> Seq<Seq<char>> {
    seq![
        "[convert]"@,
        "# Opus quality. Common values: \"128k\" (small), \"192k\" (default), \"256k\" (high)."@,
        text_line("bitrate"@, c.bitrate, "192k"@),
        ""@,
    ]
}

pub open spec fn keys_lines(c: ConfigV) -> Seq<Seq<char>> {
    seq![
        "[keys]"@,
        "# AcoustID — needed by `identify`. This must be the APPLICATION key, NOT your"@,
        "# account/user API key (the account key is rejected as \"invalid API key\")."@,
        "# Create one (application type: \"personal\") at https://acoustid.org/new-application"@,
        "# It's a short token, roughly 10 chars."@,
        text_line("acoustid"@, c.acoustid, "AbCdEfGhIj"@),
        "# Discogs — optional, improves cover art for obscure/physical compilations."@,
        "# Create a personal token at https://www.discogs.com/settings/developers"@,
        "# It's a ~40-char string."@,
        text_line("discogs"@, c.discogs, "aBcDeFgHiJkLmNoPqRsTuVwXyZ0123456789aBcD"@),
        ""@,
    ]
}

pub open spec fn lyrics_lines(c: ConfigV) -> Seq<Seq<char>> {
    seq![
        "[lyrics]"@,
        "# Optional fallback lyrics server, tried by `lyrics` only when lrclib.net has no"@,
        "# synced match — a synced hit from either source still wins. Must speak the LrcApi"@,
        "# protocol (https://github.com/HisAtri/LrcApi): GET {url}/jsonapi with title/artist/"@,
        "# album query params. Both url + key are required to enable the fallback."@,
        text_line("lrcapi_url"@, c.lrcapi_url, "https://lyrics.example.cloud"@),
        "# API key for lrcapi_url, sent verbatim as the Authorization header."@,
        text_line("lrcapi_key"@, c.lrcapi_key, "your-api-key-here"@),
        "# Flip priority to query the LrcApi server first, falling back to lrclib.net."@,
        "# Default (false) keeps lrclib.net primary. A synced match still beats a plain one."@,
        switch_line("lrcapi_first"@, c.lrcapi_first, false),
        "# Optional forced-alignment service (amdl-aligner) for `lyrics`: generates *synced*"@,
        "# lyrics from plain ones by listening to the track when no source has timed lyrics."@,
        "# Alignment runs by default once this is set (`--no-align` opts out per run)."@,
        "# See https://github.com/jakobhviid/amdl-aligner"@,
        text_line("aligner_url"@, c.aligner_url, "http://192.168.1.6:8790"@),
        "# When no aligner_url is set, `lyrics` prints a one-line tip suggesting one."@,
        "# Set this false to silence that tip."@,
        switch_line("hints"@, c.hints, true),
    ]
}

/// The lines of the whole file.
pub open spec fn file_lines(c: ConfigV) -> Seq<Seq<char>> {
    head_lines() + paths_lines(c) + convert_lines(c) + keys_lines(c) + lyrics_lines(c)
}

fn toml_escape(s: &str) -> (r: String)
    ensures
        r@ == escaped(s@),
{
    replace(replace(s, '\\', "\\\\").as_str(), '"', "\\\"")
}

fn line_str(key: &str, val: &Option<String>, example: &str) -> (r: String)
    ensures
        r@ == text_line(key@, val.deep_view(), example@),
{
    match val {
        Some(v) => {
            let mut o = cat3(key, " = \"", toml_escape(v.as_str()).as_str());
            o.append("\"");
            o
        },
        None => cat5("# ", key, " = \"", example, "\""),
    }
}

fn line_bool(key: &str, val: bool, default: bool) -> (r: String)
    ensures
        r@ == switch_line(key@, val, default),
{
    let sign = if val == default {
        "# "
    } else {
        ""
    };
    let value = if val {
        " = true"
    } else {
        " = false"
    };
    cat3(sign, key, value)
}

fn put_head(cfg: &Config) -> (r: Vec<String>)
    ensures
        r.deep_view() == head_lines(),
{
    let mut v: Vec<String> = Vec::new();
    v.push("# ~/.config/amdl/config.toml — amdl defaults. All optional; command flags override.".to_string());
    v.push("# Edit by hand, or manage programmatically: `amdl configure set/unset/get/list`.".to_string());
    v.push("# Every `configure` write re-renders this file, so the help below is always kept.".to_string());
    v.push("".to_string());
    assert(v.deep_view() =~= head_lines());
    v
}

fn put_paths(cfg: &Config) -> (r: Vec<String>)
    ensures
        r.deep_view() == paths_lines(cfg.deep_view()),
{
    let mut v: Vec<String> = Vec::new();
    v.push("[paths]".to_string());
    v.push("# The read-only input library (originals).".to_string());
    v.push(line_str("source", &cfg.paths.source, "/mnt/music/originals"));
    v.push("# The derived Opus output library.".to_string());
    v.push(line_str("output", &cfg.paths.output, "/mnt/music/library"));
    v.push("".to_string());
    assert(v.deep_view() =~= paths_lines(cfg.deep_view()));
    v
}

fn put_convert(cfg: &Config) -> (r: Vec<String>)
    ensures
        r.deep_view() == convert_lines(cfg.deep_view()),
{
    let mut v: Vec<String> = Vec::new();
    v.push("[convert]".to_string());
    v.push("# Opus quality. Common values: \"128k\" (small), \"192k\" (default), \"256k\" (high).".to_string());
    v.push(line_str("bitrate", &cfg.convert.bitrate, "192k"));
    v.push("".to_string());
    assert(v.deep_view() =~= convert_lines(cfg.deep_view()));
    v
}

fn put_keys(cfg: &Config) -> (r: Vec<String>)
    ensures
        r.deep_view() == keys_lines(cfg.deep_view()),
{
    let mut v: Vec<String> = Vec::new();
    v.push("[keys]".to_string());
    v.push("# AcoustID — needed by `identify`. This must be the APPLICATION key, NOT your".to_string());
    v.push("# account/user API key (the account key is rejected as \"invalid API key\").".to_string());
    v.push("# Create one (application type: \"personal\") at https://acoustid.org/new-application".to_string());
    v.push("# It's a short token, roughly 10 chars.".to_string());
    v.push(line_str("acoustid", &cfg.keys.acoustid, "AbCdEfGhIj"));
    v.push("# Discogs — optional, improves cover art for obscure/physical compilations.".to_string());
    v.push("# Create a personal token at https://www.discogs.com/settings/developers".to_string());
    v.push("# It's a ~40-char string.".to_string());
    v.push(line_str("discogs", &cfg.keys.discogs, "aBcDeFgHiJkLmNoPqRsTuVwXyZ0123456789aBcD"));
    v.push("".to_string());
    assert(v.deep_view() =~= keys_lines(cfg.deep_view()));
    v
}

fn put_lyrics(cfg: &Config) -> (r: Vec<String>)
    ensures
        r.deep_view() == lyrics_lines(cfg.deep_view()),
{
    let mut v: Vec<String> = Vec::new();
    v.push("[lyrics]".to_string());
    v.push("# Optional fallback lyrics server, tried by `lyrics` only when lrclib.net has no".to_string());
    v.push("# synced match — a synced hit from either source still wins. Must speak the LrcApi".to_string());
    v.push("# protocol (https://github.com/HisAtri/LrcApi): GET {url}/jsonapi with title/artist/".to_string());
    v.push("# album query params. Both url + key are required to enable the fallback.".to_string());
    v.push(line_str("lrcapi_url", &cfg.lyrics.lrcapi_url, "https://lyrics.example.cloud"));
    v.push("# API key for lrcapi_url, sent verbatim as the Authorization header.".to_string());
    v.push(line_str("lrcapi_key", &cfg.lyrics.lrcapi_key, "your-api-key-here"));
    v.push("# Flip priority to query the LrcApi server first, falling back to lrclib.net.".to_string());
    v.push("# Default (false) keeps lrclib.net primary. A synced match still beats a plain one.".to_string());
    v.push(line_bool("lrcapi_first", cfg.lyrics.lrcapi_first, false));
    v.push("# Optional forced-alignment service (amdl-aligner) for `lyrics`: generates *synced*".to_string());
    v.push("# lyrics from plain ones by listening to the track when no source has timed lyrics.".to_string());
    v.push("# Alignment runs by default once this is set (`--no-align` opts out per run).".to_string());
    v.push("# See https://github.com/jakobhviid/amdl-aligner".to_string());
    v.push(line_str("aligner_url", &cfg.lyrics.aligner_url, "http://192.168.1.6:8790"));
    v.push("# When no aligner_url is set, `lyrics` prints a one-line tip suggesting one.".to_string());
    v.push("# Set this false to silence that tip.".to_string());
    v.push(line_bool("hints", cfg.lyrics.hints, true));
    assert(v.deep_view() =~= lyrics_lines(cfg.deep_view()));
    v
}

/// The file that a fresh start writes: all of the help, and nothing set.
pub fn template() -> (r: String)
    ensures
        r@ == unlines(file_lines(unset_config())),
{
    render(&Config::default())
}

/// The whole file for `cfg`. Every section and every comment is always there; a
/// setting stands as `key = value` where it is set and as a commented example where
/// it is not.
pub fn render(cfg: &Config) -> (r: String)
    ensures
        r@ == unlines(file_lines(cfg.deep_view())),
{
    let mut o = String::new();
    let ghost c = cfg.deep_view();
    append_lines(&mut o, &put_head(cfg));
    append_lines(&mut o, &put_paths(cfg));
    append_lines(&mut o, &put_convert(cfg));
    append_lines(&mut o, &put_keys(cfg));
    append_lines(&mut o, &put_lyrics(cfg));
    proof {
        lemma_unlines_add(head_lines(), paths_lines(c));
        lemma_unlines_add(head_lines() + paths_lines(c), convert_lines(c));
        lemma_unlines_add(head_lines() + paths_lines(c) + convert_lines(c), keys_lines(c));
        lemma_unlines_add(head_lines() + paths_lines(c) + convert_lines(c) + keys_lines(c), lyrics_lines(c));
        assert(o@ =~= unlines(file_lines(c)));
    }
    o
}

// ---- reading the file back -------------------------------------------------------------

/// The text that `escaped` wrote.
pub open spec fn unescaped(s: Seq<char>) -> Seq<char>
    decreases s.len(),
{
    if s.len() == 0 {
        seq![]
    } else if s[0] == '\\' && s.len() > 1 {
        seq![s[1]] + unescaped(s.skip(2))
    } else {
        seq![s[0]] + unescaped(s.skip(1))
    }
}

/// How far a file has been read: the section that is open, and what was set.
#[verifier::ext_equal]
pub struct Reading {
    pub section: Seq<char>,
    pub config: ConfigV,
}

/// The configuration after the entry `key = raw` is read.
pub open spec fn read_entry(c: ConfigV, key: Seq<char>, raw: Seq<char>) -> ConfigV {
    match setting(key) {
        None => c,
        Some(s) => match assigned(
            c,
            s,
            if is_switch(s) {
                raw
            } else {
                unescaped(raw.subrange(1, raw.len() - 1))
            },
        ) {
            Some(after) => after,
            None => c,
        },
    }
}

/// What one line adds: nothing where it is empty or a comment, a section's name
/// between brackets, or an entry of the open section.
pub open spec fn read_line(st: Reading, line: Seq<char>) -> Reading {
    if line.len() == 0 || line[0] == '#' {
        st
    } else if line[0] == '[' {
        Reading { section: line.subrange(1, line.len() - 1), ..st }
    } else {
        match find_from(line, " = "@, 0) {
            None => st,
            Some(k) => Reading {
                config: read_entry(st.config, st.section + "."@ + line.take(k), line.skip(k + 3)),
                ..st
            },
        }
    }
}

/// What all of the lines add.
#[verifier::opaque]
pub open spec fn read_all(st: Reading, ls: Seq<Seq<char>>) -> Reading
    decreases ls.len(),
{
    if ls.len() == 0 {
        st
    } else {
        read_line(read_all(st, ls.drop_last()), ls.last())
    }
}

/// The configuration that a file of this form holds.
pub open spec fn read_config(text: Seq<char>) -> ConfigV {
    read_all(Reading { section: seq![], config: unset_config() }, lines_of(text)).config
}

/// Every text that is set is on one line.
pub open spec fn one_line_values(c: ConfigV) -> bool {
    forall|s: Setting| #[trigger] shown(c, s) matches Some(v) ==> one_line(v)
}

/// One character, escaped.
spec fn escaped_char(x: char) -> Seq<char> {
    if x == '\\' || x == '"' {
        seq!['\\', x]
    } else {
        seq![x]
    }
}

proof fn lemma_escaped_step(v: Seq<char>)
    requires
        v.len() > 0,
    ensures
        escaped(v) == escaped_char(v[0]) + escaped(v.skip(1)),
{
    reveal_strlit("\\\\");
    reveal_strlit("\\\"");
    let x = v[0];
    let rest = v.skip(1);
    let two = "\\\\"@;
    let quote = "\\\""@;
    assert(v =~= seq![x] + rest);
    lemma_replaced_add(seq![x], rest, '\\', two);
    lemma_replaced_one(x, '\\', two);
    lemma_replaced_add(replaced(seq![x], '\\', two), replaced(rest, '\\', two), '"', quote);
    if x == '\\' {
        assert(two =~= seq!['\\'] + seq!['\\']);
        lemma_replaced_add(seq!['\\'], seq!['\\'], '"', quote);
        lemma_replaced_one('\\', '"', quote);
        assert(replaced(two, '"', quote) =~= escaped_char(x));
    } else {
        lemma_replaced_one(x, '"', quote);
        assert(quote =~= seq!['\\', '"']);
        assert(replaced(seq![x], '"', quote) =~= escaped_char(x));
    }
}

/// Escaping loses nothing: reading an escaped text gives the text back.
pub proof fn law_escape_round_trip(v: Seq<char>)
    ensures
        unescaped(escaped(v)) == v,
    decreases v.len(),
{
    if v.len() == 0 {
        assert(replaced(v, '\\', "\\\\"@) =~= seq![]);
        assert(escaped(v) =~= seq![]);
        assert(unescaped(escaped(v)) =~= v);
    } else {
        lemma_escaped_step(v);
        law_escape_round_trip(v.skip(1));
        let e = escaped(v);
        let rest = escaped(v.skip(1));
        if escaped_char(v[0]).len() == 2 {
            assert(e.skip(2) =~= rest);
            assert(e[0] == '\\' && e[1] == v[0]);
        } else {
            assert(e.skip(1) =~= rest);
            assert(e[0] == v[0]);
        }
        assert(unescaped(e) =~= seq![v[0]] + v.skip(1));
        assert(seq![v[0]] + v.skip(1) =~= v);
    }
}

proof fn lemma_escaped_one_line(v: Seq<char>)
    requires
        one_line(v),
    ensures
        one_line(escaped(v)),
    decreases v.len(),
{
    if v.len() == 0 {
        assert(replaced(v, '\\', "\\\\"@) =~= seq![]);
        assert(escaped(v) =~= seq![]);
    } else {
        lemma_escaped_step(v);
        assert forall|i: int| 0 <= i < v.skip(1).len() implies #[trigger] v.skip(1)[i] != '\n' by {
            assert(v.skip(1)[i] == v[i + 1]);
        }
        lemma_escaped_one_line(v.skip(1));
        let h = escaped_char(v[0]);
        let e = escaped(v);
        assert forall|i: int| 0 <= i < e.len() implies #[trigger] e[i] != '\n' by {
            assert(v[0] != '\n');
            if i >= h.len() {
                assert(e[i] == escaped(v.skip(1))[i - h.len()]);
            }
        }
    }
}

proof fn lemma_read_push(st: Reading, ls: Seq<Seq<char>>, line: Seq<char>)
    ensures
        read_all(st, ls.push(line)) == read_line(read_all(st, ls), line),
{
    reveal(read_all);
    assert(ls.push(line).drop_last() =~= ls);
}

proof fn lemma_read_add(st: Reading, a: Seq<Seq<char>>, b: Seq<Seq<char>>)
    ensures
        read_all(st, a + b) == read_all(read_all(st, a), b),
    decreases b.len(),
{
    reveal(read_all);
    if b.len() == 0 {
        assert(a + b =~= a);
    } else {
        assert((a + b).drop_last() =~= a + b.drop_last());
        lemma_read_add(st, a, b.drop_last());
    }
}

/// Lines that the file can hold, read from `st` to `end`.
#[verifier::opaque]
spec fn reads(st: Reading, ls: Seq<Seq<char>>, end: Reading) -> bool {
    &&& read_all(st, ls) == end
    &&& forall|i: int| 0 <= i < ls.len() ==> clean_line(#[trigger] ls[i])
}

proof fn step_none(st: Reading)
    ensures
        reads(st, seq![], st),
{
    reveal(reads);
    reveal(read_all);
}

proof fn step(st: Reading, ls: Seq<Seq<char>>, mid: Reading, l: Seq<char>, end: Reading)
    requires
        reads(st, ls, mid),
        clean_line(l),
        read_line(mid, l) == end,
    ensures
        reads(st, ls.push(l), end),
{
    reveal(reads);
    lemma_read_push(st, ls, l);
}

proof fn step_comment(st: Reading, ls: Seq<Seq<char>>, mid: Reading, l: Seq<char>)
    requires
        reads(st, ls, mid),
        clean_line(l),
        l.len() == 0 || l[0] == '#',
    ensures
        reads(st, ls.push(l), mid),
{
    step(st, ls, mid, l, mid);
}

proof fn step_section(st: Reading, ls: Seq<Seq<char>>, mid: Reading, l: Seq<char>, name: Seq<char>)
    requires
        reads(st, ls, mid),
        clean_line(l),
        l.len() > 0 && l[0] == '[',
        l.subrange(1, l.len() - 1) == name,
    ensures
        reads(st, ls.push(l), Reading { section: name, ..mid }),
{
    step(st, ls, mid, l, Reading { section: name, ..mid });
}

/// A key that can stand before an equals sign.
spec fn plain_key(key: Seq<char>) -> bool {
    &&& key.len() > 0
    &&& key[0] != '#' && key[0] != '['
    &&& forall|i: int| 0 <= i < key.len() ==> #[trigger] key[i] != ' ' && key[i] != '\n'
}

/// A line that holds an entry is read as that entry.
proof fn lemma_read_entry(st: Reading, key: Seq<char>, raw: Seq<char>)
    requires
        plain_key(key),
    ensures
        read_line(st, key + " = "@ + raw) == (Reading { config: read_entry(st.config, st.section + "."@ + key, raw), ..st }),
{
    reveal_strlit(" = ");
    let line = key + " = "@ + raw;
    let k = key.len() as int;
    assert(line.subrange(k, k + 3) =~= " = "@);
    assert(matches_at(line, " = "@, k));
    lemma_find_from(line, " = "@, 0);
    assert forall|j: int| 0 <= j < k implies !matches_at(line, " = "@, j) by {
        if matches_at(line, " = "@, j) {
            assert(line.subrange(j, j + 3)[0] == ' ');
            assert(line[j] == key[j]);
        }
    }
    assert(find_from(line, " = "@, 0) == Some(k));
    assert(line.take(k) =~= key);
    assert(line.skip(k + 3) =~= raw);
    assert(line[0] == key[0]);
}

/// The line of a text setting is on one line, and is read as its value.
proof fn lemma_text_line(st: Reading, key: Seq<char>, val: Option<Seq<char>>, example: Seq<char>, s: Setting)
    requires
        plain_key(key),
        one_line(example),
        val matches Some(v) ==> one_line(v),
        setting(st.section + "."@ + key) == Some(s),
        !is_switch(s),
    ensures
        clean_line(text_line(key, val, example)),
        read_line(st, text_line(key, val, example)) == (match val {
            Some(v) => Reading { config: assigned(st.config, s, v)->0, ..st },
            None => st,
        }),
{
    reveal_strlit(" = \"");
    reveal_strlit(" = ");
    reveal_strlit("\"");
    reveal_strlit("# ");
    let line = text_line(key, val, example);
    match val {
        Some(v) => {
            lemma_escaped_one_line(v);
            law_escape_round_trip(v);
            let e = escaped(v);
            let raw = "\""@ + e + "\""@;
            assert(line =~= key + " = "@ + raw);
            lemma_read_entry(st, key, raw);
            assert(raw.subrange(1, raw.len() - 1) =~= e);
            let n = key.len() as int;
            assert forall|i: int| 0 <= i < line.len() implies #[trigger] line[i] != '\n' by {
                if i < n {
                    assert(line[i] == key[i]);
                } else if i >= n + 4 && i < n + 4 + e.len() {
                    assert(line[i] == e[i - n - 4]);
                }
            }
        },
        None => {
            let n = key.len() as int;
            assert forall|i: int| 0 <= i < line.len() implies #[trigger] line[i] != '\n' by {
                if 2 <= i < n + 2 {
                    assert(line[i] == key[i - 2]);
                } else if i >= n + 6 && i < n + 6 + example.len() {
                    assert(line[i] == example[i - n - 6]);
                }
            }
        },
    }
}

/// The line of a switch is on one line, and is read as its value.
proof fn lemma_switch_line(st: Reading, key: Seq<char>, val: bool, default: bool, s: Setting)
    requires
        plain_key(key),
        setting(st.section + "."@ + key) == Some(s),
        is_switch(s),
    ensures
        clean_line(switch_line(key, val, default)),
        read_line(st, switch_line(key, val, default)) == (if val == default {
            st
        } else {
            Reading {
                config: assigned(
                    st.config,
                    s,
                    if val {
                        "true"@
                    } else {
                        "false"@
                    },
                )->0,
                ..st
            }
        }),
{
    lemma_switch_words();
    reveal_strlit(" = ");
    reveal_strlit(" = true");
    reveal_strlit(" = false");
    reveal_strlit("true");
    reveal_strlit("false");
    reveal_strlit("# ");
    reveal_strlit("");
    let line = switch_line(key, val, default);
    let word = if val {
        "true"@
    } else {
        "false"@
    };
    let d: int = if val == default {
        2
    } else {
        0
    };
    let n = key.len() as int;
    assert forall|i: int| 0 <= i < line.len() implies #[trigger] line[i] != '\n' by {
        if d <= i < n + d {
            assert(line[i] == key[i - d]);
        }
    }
    if val != default {
        assert(line =~= key + " = "@ + word);
        lemma_read_entry(st, key, word);
    }
}


/// The keys are what the sections and the names in them make.
proof fn lemma_keys()
    ensures
        setting("paths"@ + "."@ + "source"@) == Some(Setting::Source),
        plain_key("source"@),
        SOURCE_KEY@ == "paths"@ + "."@ + "source"@,
        setting("paths"@ + "."@ + "output"@) == Some(Setting::Output),
        plain_key("output"@),
        OUTPUT_KEY@ == "paths"@ + "."@ + "output"@,
        setting("convert"@ + "."@ + "bitrate"@) == Some(Setting::Bitrate),
        plain_key("bitrate"@),
        BITRATE_KEY@ == "convert"@ + "."@ + "bitrate"@,
        setting("keys"@ + "."@ + "acoustid"@) == Some(Setting::Acoustid),
        plain_key("acoustid"@),
        ACOUSTID_KEY@ == "keys"@ + "."@ + "acoustid"@,
        setting("keys"@ + "."@ + "discogs"@) == Some(Setting::Discogs),
        plain_key("discogs"@),
        DISCOGS_KEY@ == "keys"@ + "."@ + "discogs"@,
        setting("lyrics"@ + "."@ + "lrcapi_url"@) == Some(Setting::LrcapiUrl),
        plain_key("lrcapi_url"@),
        LRCAPI_URL_KEY@ == "lyrics"@ + "."@ + "lrcapi_url"@,
        setting("lyrics"@ + "."@ + "lrcapi_key"@) == Some(Setting::LrcapiKey),
        plain_key("lrcapi_key"@),
        LRCAPI_KEY_KEY@ == "lyrics"@ + "."@ + "lrcapi_key"@,
        setting("lyrics"@ + "."@ + "lrcapi_first"@) == Some(Setting::LrcapiFirst),
        plain_key("lrcapi_first"@),
        LRCAPI_FIRST_KEY@ == "lyrics"@ + "."@ + "lrcapi_first"@,
        setting("lyrics"@ + "."@ + "aligner_url"@) == Some(Setting::AlignerUrl),
        plain_key("aligner_url"@),
        ALIGNER_URL_KEY@ == "lyrics"@ + "."@ + "aligner_url"@,
        setting("lyrics"@ + "."@ + "hints"@) == Some(Setting::Hints),
        plain_key("hints"@),
        HINTS_KEY@ == "lyrics"@ + "."@ + "hints"@,
{
    reveal_strlit("paths.source");
    reveal_strlit("paths.output");
    reveal_strlit("convert.bitrate");
    reveal_strlit("keys.acoustid");
    reveal_strlit("keys.discogs");
    reveal_strlit("lyrics.lrcapi_url");
    reveal_strlit("lyrics.lrcapi_key");
    reveal_strlit("lyrics.lrcapi_first");
    reveal_strlit("lyrics.aligner_url");
    reveal_strlit("lyrics.hints");
    reveal_strlit(".");
    reveal_strlit("paths");
    reveal_strlit("convert");
    reveal_strlit("keys");
    reveal_strlit("lyrics");
    reveal_strlit("source");
    reveal_strlit("output");
    reveal_strlit("bitrate");
    reveal_strlit("acoustid");
    reveal_strlit("discogs");
    reveal_strlit("lrcapi_url");
    reveal_strlit("lrcapi_key");
    reveal_strlit("lrcapi_first");
    reveal_strlit("aligner_url");
    reveal_strlit("hints");
    assert("paths"@ + "."@ + "source"@ =~= SOURCE_KEY@);
    assert("paths"@ + "."@ + "output"@ =~= OUTPUT_KEY@);
    assert("convert"@ + "."@ + "bitrate"@ =~= BITRATE_KEY@);
    assert("keys"@ + "."@ + "acoustid"@ =~= ACOUSTID_KEY@);
    assert("keys"@ + "."@ + "discogs"@ =~= DISCOGS_KEY@);
    assert("lyrics"@ + "."@ + "lrcapi_url"@ =~= LRCAPI_URL_KEY@);
    assert("lyrics"@ + "."@ + "lrcapi_key"@ =~= LRCAPI_KEY_KEY@);
    assert("lyrics"@ + "."@ + "lrcapi_first"@ =~= LRCAPI_FIRST_KEY@);
    assert("lyrics"@ + "."@ + "aligner_url"@ =~= ALIGNER_URL_KEY@);
    assert("lyrics"@ + "."@ + "hints"@ =~= HINTS_KEY@);
    assert(SOURCE_KEY@[6] != OUTPUT_KEY@[6]);
    assert(SOURCE_KEY@[0] != DISCOGS_KEY@[0]);
    assert(SOURCE_KEY@[0] != HINTS_KEY@[0]);
    assert(OUTPUT_KEY@[0] != DISCOGS_KEY@[0]);
    assert(OUTPUT_KEY@[0] != HINTS_KEY@[0]);
    assert(DISCOGS_KEY@[0] != HINTS_KEY@[0]);
    assert(LRCAPI_URL_KEY@[14] != LRCAPI_KEY_KEY@[14]);
}

/// The lines of `head_lines` are read as their settings.
proof fn lemma_head_0()
    ensures
        clean_line("# ~/.config/amdl/config.toml — amdl defaults. All optional; command flags override."@),
        "# ~/.config/amdl/config.toml — amdl defaults. All optional; command flags override."@.len() == 0 || "# ~/.config/amdl/config.toml — amdl defaults. All optional; command flags override."@[0] == '#',
{
    reveal_strlit("# ~/.config/amdl/config.toml — amdl defaults. All optional; command flags override.");
}

proof fn lemma_head_1()
    ensures
        clean_line("# Edit by hand, or manage programmatically: `amdl configure set/unset/get/list`."@),
        "# Edit by hand, or manage programmatically: `amdl configure set/unset/get/list`."@.len() == 0 || "# Edit by hand, or manage programmatically: `amdl configure set/unset/get/list`."@[0] == '#',
{
    reveal_strlit("# Edit by hand, or manage programmatically: `amdl configure set/unset/get/list`.");
}

proof fn lemma_head_2()
    ensures
        clean_line("# Every `configure` write re-renders this file, so the help below is always kept."@),
        "# Every `configure` write re-renders this file, so the help below is always kept."@.len() == 0 || "# Every `configure` write re-renders this file, so the help below is always kept."@[0] == '#',
{
    reveal_strlit("# Every `configure` write re-renders this file, so the help below is always kept.");
}

proof fn lemma_head_3()
    ensures
        clean_line(""@),
        ""@.len() == 0 || ""@[0] == '#',
{
    reveal_strlit("");
}

proof fn lemma_head_lines(st: Reading, c: ConfigV)
    requires
        one_line_values(c),
    ensures
        reads(
            st,
            head_lines(),
            Reading {
                config: st.config,
                ..st
            },
        ),
{
    step_none(st);
    let a = seq![];
    let s = st;
    lemma_head_0();
    let l = "# ~/.config/amdl/config.toml — amdl defaults. All optional; command flags override."@;
    step_comment(st, a, s, l);
    let a = a.push(l);
    lemma_head_1();
    let l = "# Edit by hand, or manage programmatically: `amdl configure set/unset/get/list`."@;
    step_comment(st, a, s, l);
    let a = a.push(l);
    lemma_head_2();
    let l = "# Every `configure` write re-renders this file, so the help below is always kept."@;
    step_comment(st, a, s, l);
    let a = a.push(l);
    lemma_head_3();
    let l = ""@;
    step_comment(st, a, s, l);
    let a = a.push(l);
    assert(a =~= head_lines());
}

/// The lines of `paths_lines` are read as their settings.
proof fn lemma_paths_0()
    ensures
        clean_line("[paths]"@),
        "[paths]"@.len() > 0,
        "[paths]"@[0] == '[',
        "[paths]"@.subrange(1, "[paths]"@.len() - 1) == "paths"@,
{
    reveal_strlit("[paths]");
    reveal_strlit("paths");
}

proof fn lemma_paths_1()
    ensures
        clean_line("# The read-only input library (originals)."@),
        "# The read-only input library (originals)."@.len() == 0 || "# The read-only input library (originals)."@[0] == '#',
{
    reveal_strlit("# The read-only input library (originals).");
}

proof fn lemma_paths_3()
    ensures
        clean_line("# The derived Opus output library."@),
        "# The derived Opus output library."@.len() == 0 || "# The derived Opus output library."@[0] == '#',
{
    reveal_strlit("# The derived Opus output library.");
}

proof fn lemma_paths_5()
    ensures
        clean_line(""@),
        ""@.len() == 0 || ""@[0] == '#',
{
    reveal_strlit("");
}

proof fn lemma_paths_lines(st: Reading, c: ConfigV)
    requires
        one_line_values(c),
        st.config.source is None,
        st.config.output is None,
    ensures
        reads(
            st,
            paths_lines(c),
            Reading {
                section: "paths"@,
                config: ConfigV { source: c.source, output: c.output, ..st.config },
                ..st
            },
        ),
{
    lemma_keys();
    step_none(st);
    let a = seq![];
    let s = st;
    lemma_paths_0();
    let l = "[paths]"@;
    step_section(st, a, s, l, "paths"@);
    let s = Reading { section: "paths"@, ..s };
    let a = a.push(l);
    lemma_paths_1();
    let l = "# The read-only input library (originals)."@;
    step_comment(st, a, s, l);
    let a = a.push(l);
    let l = text_line("source"@, c.source, "/mnt/music/originals"@);
    assert(one_line("/mnt/music/originals"@)) by {
        reveal_strlit("/mnt/music/originals");
    }
    assert(shown(c, Setting::Source) == c.source);
    lemma_text_line(s, "source"@, c.source, "/mnt/music/originals"@, Setting::Source);
    let t = Reading { config: ConfigV { source: c.source, ..s.config }, ..s };
    assert(read_line(s, l) == t);
    step(st, a, s, l, t);
    let s = t;
    let a = a.push(l);
    lemma_paths_3();
    let l = "# The derived Opus output library."@;
    step_comment(st, a, s, l);
    let a = a.push(l);
    let l = text_line("output"@, c.output, "/mnt/music/library"@);
    assert(one_line("/mnt/music/library"@)) by {
        reveal_strlit("/mnt/music/library");
    }
    assert(shown(c, Setting::Output) == c.output);
    lemma_text_line(s, "output"@, c.output, "/mnt/music/library"@, Setting::Output);
    let t = Reading { config: ConfigV { output: c.output, ..s.config }, ..s };
    assert(read_line(s, l) == t);
    step(st, a, s, l, t);
    let s = t;
    let a = a.push(l);
    lemma_paths_5();
    let l = ""@;
    step_comment(st, a, s, l);
    let a = a.push(l);
    assert(a =~= paths_lines(c));
}

/// The lines of `convert_lines` are read as their settings.
proof fn lemma_convert_0()
    ensures
        clean_line("[convert]"@),
        "[convert]"@.len() > 0,
        "[convert]"@[0] == '[',
        "[convert]"@.subrange(1, "[convert]"@.len() - 1) == "convert"@,
{
    reveal_strlit("[convert]");
    reveal_strlit("convert");
}

proof fn lemma_convert_1()
    ensures
        clean_line("# Opus quality. Common values: \"128k\" (small), \"192k\" (default), \"256k\" (high)."@),
        "# Opus quality. Common values: \"128k\" (small), \"192k\" (default), \"256k\" (high)."@.len() == 0 || "# Opus quality. Common values: \"128k\" (small), \"192k\" (default), \"256k\" (high)."@[0] == '#',
{
    reveal_strlit("# Opus quality. Common values: \"128k\" (small), \"192k\" (default), \"256k\" (high).");
}

proof fn lemma_convert_3()
    ensures
        clean_line(""@),
        ""@.len() == 0 || ""@[0] == '#',
{
    reveal_strlit("");
}

proof fn lemma_convert_lines(st: Reading, c: ConfigV)
    requires
        one_line_values(c),
        st.config.bitrate is None,
    ensures
        reads(
            st,
            convert_lines(c),
            Reading {
                section: "convert"@,
                config: ConfigV { bitrate: c.bitrate, ..st.config },
                ..st
            },
        ),
{
    lemma_keys();
    step_none(st);
    let a = seq![];
    let s = st;
    lemma_convert_0();
    let l = "[convert]"@;
    step_section(st, a, s, l, "convert"@);
    let s = Reading { section: "convert"@, ..s };
    let a = a.push(l);
    lemma_convert_1();
    let l = "# Opus quality. Common values: \"128k\" (small), \"192k\" (default), \"256k\" (high)."@;
    step_comment(st, a, s, l);
    let a = a.push(l);
    let l = text_line("bitrate"@, c.bitrate, "192k"@);
    assert(one_line("192k"@)) by {
        reveal_strlit("192k");
    }
    assert(shown(c, Setting::Bitrate) == c.bitrate);
    lemma_text_line(s, "bitrate"@, c.bitrate, "192k"@, Setting::Bitrate);
    let t = Reading { config: ConfigV { bitrate: c.bitrate, ..s.config }, ..s };
    assert(read_line(s, l) == t);
    step(st, a, s, l, t);
    let s = t;
    let a = a.push(l);
    lemma_convert_3();
    let l = ""@;
    step_comment(st, a, s, l);
    let a = a.push(l);
    assert(a =~= convert_lines(c));
}

/// The lines of `keys_lines` are read as their settings.
proof fn lemma_keys_0()
    ensures
        clean_line("[keys]"@),
        "[keys]"@.len() > 0,
        "[keys]"@[0] == '[',
        "[keys]"@.subrange(1, "[keys]"@.len() - 1) == "keys"@,
{
    reveal_strlit("[keys]");
    reveal_strlit("keys");
}

proof fn lemma_keys_1()
    ensures
        clean_line("# AcoustID — needed by `identify`. This must be the APPLICATION key, NOT your"@),
        "# AcoustID — needed by `identify`. This must be the APPLICATION key, NOT your"@.len() == 0 || "# AcoustID — needed by `identify`. This must be the APPLICATION key, NOT your"@[0] == '#',
{
    reveal_strlit("# AcoustID — needed by `identify`. This must be the APPLICATION key, NOT your");
}

proof fn lemma_keys_2()
    ensures
        clean_line("# account/user API key (the account key is rejected as \"invalid API key\")."@),
        "# account/user API key (the account key is rejected as \"invalid API key\")."@.len() == 0 || "# account/user API key (the account key is rejected as \"invalid API key\")."@[0] == '#',
{
    reveal_strlit("# account/user API key (the account key is rejected as \"invalid API key\").");
}

proof fn lemma_keys_3()
    ensures
        clean_line("# Create one (application type: \"personal\") at https://acoustid.org/new-application"@),
        "# Create one (application type: \"personal\") at https://acoustid.org/new-application"@.len() == 0 || "# Create one (application type: \"personal\") at https://acoustid.org/new-application"@[0] == '#',
{
    reveal_strlit("# Create one (application type: \"personal\") at https://acoustid.org/new-application");
}

proof fn lemma_keys_4()
    ensures
        clean_line("# It's a short token, roughly 10 chars."@),
        "# It's a short token, roughly 10 chars."@.len() == 0 || "# It's a short token, roughly 10 chars."@[0] == '#',
{
    reveal_strlit("# It's a short token, roughly 10 chars.");
}

proof fn lemma_keys_6()
    ensures
        clean_line("# Discogs — optional, improves cover art for obscure/physical compilations."@),
        "# Discogs — optional, improves cover art for obscure/physical compilations."@.len() == 0 || "# Discogs — optional, improves cover art for obscure/physical compilations."@[0] == '#',
{
    reveal_strlit("# Discogs — optional, improves cover art for obscure/physical compilations.");
}

proof fn lemma_keys_7()
    ensures
        clean_line("# Create a personal token at https://www.discogs.com/settings/developers"@),
        "# Create a personal token at https://www.discogs.com/settings/developers"@.len() == 0 || "# Create a personal token at https://www.discogs.com/settings/developers"@[0] == '#',
{
    reveal_strlit("# Create a personal token at https://www.discogs.com/settings/developers");
}

proof fn lemma_keys_8()
    ensures
        clean_line("# It's a ~40-char string."@),
        "# It's a ~40-char string."@.len() == 0 || "# It's a ~40-char string."@[0] == '#',
{
    reveal_strlit("# It's a ~40-char string.");
}

proof fn lemma_keys_10()
    ensures
        clean_line(""@),
        ""@.len() == 0 || ""@[0] == '#',
{
    reveal_strlit("");
}

proof fn lemma_keys_lines(st: Reading, c: ConfigV)
    requires
        one_line_values(c),
        st.config.acoustid is None,
        st.config.discogs is None,
    ensures
        reads(
            st,
            keys_lines(c),
            Reading {
                section: "keys"@,
                config: ConfigV { acoustid: c.acoustid, discogs: c.discogs, ..st.config },
                ..st
            },
        ),
{
    lemma_keys();
    step_none(st);
    let a = seq![];
    let s = st;
    lemma_keys_0();
    let l = "[keys]"@;
    step_section(st, a, s, l, "keys"@);
    let s = Reading { section: "keys"@, ..s };
    let a = a.push(l);
    lemma_keys_1();
    let l = "# AcoustID — needed by `identify`. This must be the APPLICATION key, NOT your"@;
    step_comment(st, a, s, l);
    let a = a.push(l);
    lemma_keys_2();
    let l = "# account/user API key (the account key is rejected as \"invalid API key\")."@;
    step_comment(st, a, s, l);
    let a = a.push(l);
    lemma_keys_3();
    let l = "# Create one (application type: \"personal\") at https://acoustid.org/new-application"@;
    step_comment(st, a, s, l);
    let a = a.push(l);
    lemma_keys_4();
    let l = "# It's a short token, roughly 10 chars."@;
    step_comment(st, a, s, l);
    let a = a.push(l);
    let l = text_line("acoustid"@, c.acoustid, "AbCdEfGhIj"@);
    assert(one_line("AbCdEfGhIj"@)) by {
        reveal_strlit("AbCdEfGhIj");
    }
    assert(shown(c, Setting::Acoustid) == c.acoustid);
    lemma_text_line(s, "acoustid"@, c.acoustid, "AbCdEfGhIj"@, Setting::Acoustid);
    let t = Reading { config: ConfigV { acoustid: c.acoustid, ..s.config }, ..s };
    assert(read_line(s, l) == t);
    step(st, a, s, l, t);
    let s = t;
    let a = a.push(l);
    lemma_keys_6();
    let l = "# Discogs — optional, improves cover art for obscure/physical compilations."@;
    step_comment(st, a, s, l);
    let a = a.push(l);
    lemma_keys_7();
    let l = "# Create a personal token at https://www.discogs.com/settings/developers"@;
    step_comment(st, a, s, l);
    let a = a.push(l);
    lemma_keys_8();
    let l = "# It's a ~40-char string."@;
    step_comment(st, a, s, l);
    let a = a.push(l);
    let l = text_line("discogs"@, c.discogs, "aBcDeFgHiJkLmNoPqRsTuVwXyZ0123456789aBcD"@);
    assert(one_line("aBcDeFgHiJkLmNoPqRsTuVwXyZ0123456789aBcD"@)) by {
        reveal_strlit("aBcDeFgHiJkLmNoPqRsTuVwXyZ0123456789aBcD");
    }
    assert(shown(c, Setting::Discogs) == c.discogs);
    lemma_text_line(s, "discogs"@, c.discogs, "aBcDeFgHiJkLmNoPqRsTuVwXyZ0123456789aBcD"@, Setting::Discogs);
    let t = Reading { config: ConfigV { discogs: c.discogs, ..s.config }, ..s };
    assert(read_line(s, l) == t);
    step(st, a, s, l, t);
    let s = t;
    let a = a.push(l);
    lemma_keys_10();
    let l = ""@;
    step_comment(st, a, s, l);
    let a = a.push(l);
    assert(a =~= keys_lines(c));
}

/// The lines of `lyrics_lines` are read as their settings.
proof fn lemma_lyrics_0()
    ensures
        clean_line("[lyrics]"@),
        "[lyrics]"@.len() > 0,
        "[lyrics]"@[0] == '[',
        "[lyrics]"@.subrange(1, "[lyrics]"@.len() - 1) == "lyrics"@,
{
    reveal_strlit("[lyrics]");
    reveal_strlit("lyrics");
}

proof fn lemma_lyrics_1()
    ensures
        clean_line("# Optional fallback lyrics server, tried by `lyrics` only when lrclib.net has no"@),
        "# Optional fallback lyrics server, tried by `lyrics` only when lrclib.net has no"@.len() == 0 || "# Optional fallback lyrics server, tried by `lyrics` only when lrclib.net has no"@[0] == '#',
{
    reveal_strlit("# Optional fallback lyrics server, tried by `lyrics` only when lrclib.net has no");
}

proof fn lemma_lyrics_2()
    ensures
        clean_line("# synced match — a synced hit from either source still wins. Must speak the LrcApi"@),
        "# synced match — a synced hit from either source still wins. Must speak the LrcApi"@.len() == 0 || "# synced match — a synced hit from either source still wins. Must speak the LrcApi"@[0] == '#',
{
    reveal_strlit("# synced match — a synced hit from either source still wins. Must speak the LrcApi");
}

proof fn lemma_lyrics_3()
    ensures
        clean_line("# protocol (https://github.com/HisAtri/LrcApi): GET {url}/jsonapi with title/artist/"@),
        "# protocol (https://github.com/HisAtri/LrcApi): GET {url}/jsonapi with title/artist/"@.len() == 0 || "# protocol (https://github.com/HisAtri/LrcApi): GET {url}/jsonapi with title/artist/"@[0] == '#',
{
    reveal_strlit("# protocol (https://github.com/HisAtri/LrcApi): GET {url}/jsonapi with title/artist/");
}

proof fn lemma_lyrics_4()
    ensures
        clean_line("# album query params. Both url + key are required to enable the fallback."@),
        "# album query params. Both url + key are required to enable the fallback."@.len() == 0 || "# album query params. Both url + key are required to enable the fallback."@[0] == '#',
{
    reveal_strlit("# album query params. Both url + key are required to enable the fallback.");
}

proof fn lemma_lyrics_6()
    ensures
        clean_line("# API key for lrcapi_url, sent verbatim as the Authorization header."@),
        "# API key for lrcapi_url, sent verbatim as the Authorization header."@.len() == 0 || "# API key for lrcapi_url, sent verbatim as the Authorization header."@[0] == '#',
{
    reveal_strlit("# API key for lrcapi_url, sent verbatim as the Authorization header.");
}

proof fn lemma_lyrics_8()
    ensures
        clean_line("# Flip priority to query the LrcApi server first, falling back to lrclib.net."@),
        "# Flip priority to query the LrcApi server first, falling back to lrclib.net."@.len() == 0 || "# Flip priority to query the LrcApi server first, falling back to lrclib.net."@[0] == '#',
{
    reveal_strlit("# Flip priority to query the LrcApi server first, falling back to lrclib.net.");
}

proof fn lemma_lyrics_9()
    ensures
        clean_line("# Default (false) keeps lrclib.net primary. A synced match still beats a plain one."@),
        "# Default (false) keeps lrclib.net primary. A synced match still beats a plain one."@.len() == 0 || "# Default (false) keeps lrclib.net primary. A synced match still beats a plain one."@[0] == '#',
{
    reveal_strlit("# Default (false) keeps lrclib.net primary. A synced match still beats a plain one.");
}

proof fn lemma_lyrics_11()
    ensures
        clean_line("# Optional forced-alignment service (amdl-aligner) for `lyrics`: generates *synced*"@),
        "# Optional forced-alignment service (amdl-aligner) for `lyrics`: generates *synced*"@.len() == 0 || "# Optional forced-alignment service (amdl-aligner) for `lyrics`: generates *synced*"@[0] == '#',
{
    reveal_strlit("# Optional forced-alignment service (amdl-aligner) for `lyrics`: generates *synced*");
}

proof fn lemma_lyrics_12()
    ensures
        clean_line("# lyrics from plain ones by listening to the track when no source has timed lyrics."@),
        "# lyrics from plain ones by listening to the track when no source has timed lyrics."@.len() == 0 || "# lyrics from plain ones by listening to the track when no source has timed lyrics."@[0] == '#',
{
    reveal_strlit("# lyrics from plain ones by listening to the track when no source has timed lyrics.");
}

proof fn lemma_lyrics_13()
    ensures
        clean_line("# Alignment runs by default once this is set (`--no-align` opts out per run)."@),
        "# Alignment runs by default once this is set (`--no-align` opts out per run)."@.len() == 0 || "# Alignment runs by default once this is set (`--no-align` opts out per run)."@[0] == '#',
{
    reveal_strlit("# Alignment runs by default once this is set (`--no-align` opts out per run).");
}

proof fn lemma_lyrics_14()
    ensures
        clean_line("# See https://github.com/jakobhviid/amdl-aligner"@),
        "# See https://github.com/jakobhviid/amdl-aligner"@.len() == 0 || "# See https://github.com/jakobhviid/amdl-aligner"@[0] == '#',
{
    reveal_strlit("# See https://github.com/jakobhviid/amdl-aligner");
}

proof fn lemma_lyrics_16()
    ensures
        clean_line("# When no aligner_url is set, `lyrics` prints a one-line tip suggesting one."@),
        "# When no aligner_url is set, `lyrics` prints a one-line tip suggesting one."@.len() == 0 || "# When no aligner_url is set, `lyrics` prints a one-line tip suggesting one."@[0] == '#',
{
    reveal_strlit("# When no aligner_url is set, `lyrics` prints a one-line tip suggesting one.");
}

proof fn lemma_lyrics_17()
    ensures
        clean_line("# Set this false to silence that tip."@),
        "# Set this false to silence that tip."@.len() == 0 || "# Set this false to silence that tip."@[0] == '#',
{
    reveal_strlit("# Set this false to silence that tip.");
}

proof fn lemma_lyrics_lines(st: Reading, c: ConfigV)
    requires
        one_line_values(c),
        st.config.lrcapi_url is None,
        st.config.lrcapi_key is None,
        st.config.lrcapi_first == false,
        st.config.aligner_url is None,
        st.config.hints == true,
    ensures
        reads(
            st,
            lyrics_lines(c),
            Reading {
                section: "lyrics"@,
                config: ConfigV { lrcapi_url: c.lrcapi_url, lrcapi_key: c.lrcapi_key, lrcapi_first: c.lrcapi_first, aligner_url: c.aligner_url, hints: c.hints, ..st.config },
                ..st
            },
        ),
{
    lemma_keys();
    lemma_switch_words();
    step_none(st);
    let a = seq![];
    let s = st;
    lemma_lyrics_0();
    let l = "[lyrics]"@;
    step_section(st, a, s, l, "lyrics"@);
    let s = Reading { section: "lyrics"@, ..s };
    let a = a.push(l);
    lemma_lyrics_1();
    let l = "# Optional fallback lyrics server, tried by `lyrics` only when lrclib.net has no"@;
    step_comment(st, a, s, l);
    let a = a.push(l);
    lemma_lyrics_2();
    let l = "# synced match — a synced hit from either source still wins. Must speak the LrcApi"@;
    step_comment(st, a, s, l);
    let a = a.push(l);
    lemma_lyrics_3();
    let l = "# protocol (https://github.com/HisAtri/LrcApi): GET {url}/jsonapi with title/artist/"@;
    step_comment(st, a, s, l);
    let a = a.push(l);
    lemma_lyrics_4();
    let l = "# album query params. Both url + key are required to enable the fallback."@;
    step_comment(st, a, s, l);
    let a = a.push(l);
    let l = text_line("lrcapi_url"@, c.lrcapi_url, "https://lyrics.example.cloud"@);
    assert(one_line("https://lyrics.example.cloud"@)) by {
        reveal_strlit("https://lyrics.example.cloud");
    }
    assert(shown(c, Setting::LrcapiUrl) == c.lrcapi_url);
    lemma_text_line(s, "lrcapi_url"@, c.lrcapi_url, "https://lyrics.example.cloud"@, Setting::LrcapiUrl);
    let t = Reading { config: ConfigV { lrcapi_url: c.lrcapi_url, ..s.config }, ..s };
    assert(read_line(s, l) == t);
    step(st, a, s, l, t);
    let s = t;
    let a = a.push(l);
    lemma_lyrics_6();
    let l = "# API key for lrcapi_url, sent verbatim as the Authorization header."@;
    step_comment(st, a, s, l);
    let a = a.push(l);
    let l = text_line("lrcapi_key"@, c.lrcapi_key, "your-api-key-here"@);
    assert(one_line("your-api-key-here"@)) by {
        reveal_strlit("your-api-key-here");
    }
    assert(shown(c, Setting::LrcapiKey) == c.lrcapi_key);
    lemma_text_line(s, "lrcapi_key"@, c.lrcapi_key, "your-api-key-here"@, Setting::LrcapiKey);
    let t = Reading { config: ConfigV { lrcapi_key: c.lrcapi_key, ..s.config }, ..s };
    assert(read_line(s, l) == t);
    step(st, a, s, l, t);
    let s = t;
    let a = a.push(l);
    lemma_lyrics_8();
    let l = "# Flip priority to query the LrcApi server first, falling back to lrclib.net."@;
    step_comment(st, a, s, l);
    let a = a.push(l);
    lemma_lyrics_9();
    let l = "# Default (false) keeps lrclib.net primary. A synced match still beats a plain one."@;
    step_comment(st, a, s, l);
    let a = a.push(l);
    let l = switch_line("lrcapi_first"@, c.lrcapi_first, false);
    lemma_switch_line(s, "lrcapi_first"@, c.lrcapi_first, false, Setting::LrcapiFirst);
    let t = Reading { config: ConfigV { lrcapi_first: c.lrcapi_first, ..s.config }, ..s };
    assert(read_line(s, l) == t);
    step(st, a, s, l, t);
    let s = t;
    let a = a.push(l);
    lemma_lyrics_11();
    let l = "# Optional forced-alignment service (amdl-aligner) for `lyrics`: generates *synced*"@;
    step_comment(st, a, s, l);
    let a = a.push(l);
    lemma_lyrics_12();
    let l = "# lyrics from plain ones by listening to the track when no source has timed lyrics."@;
    step_comment(st, a, s, l);
    let a = a.push(l);
    lemma_lyrics_13();
    let l = "# Alignment runs by default once this is set (`--no-align` opts out per run)."@;
    step_comment(st, a, s, l);
    let a = a.push(l);
    lemma_lyrics_14();
    let l = "# See https://github.com/jakobhviid/amdl-aligner"@;
    step_comment(st, a, s, l);
    let a = a.push(l);
    let l = text_line("aligner_url"@, c.aligner_url, "http://192.168.1.6:8790"@);
    assert(one_line("http://192.168.1.6:8790"@)) by {
        reveal_strlit("http://192.168.1.6:8790");
    }
    assert(shown(c, Setting::AlignerUrl) == c.aligner_url);
    lemma_text_line(s, "aligner_url"@, c.aligner_url, "http://192.168.1.6:8790"@, Setting::AlignerUrl);
    let t = Reading { config: ConfigV { aligner_url: c.aligner_url, ..s.config }, ..s };
    assert(read_line(s, l) == t);
    step(st, a, s, l, t);
    let s = t;
    let a = a.push(l);
    lemma_lyrics_16();
    let l = "# When no aligner_url is set, `lyrics` prints a one-line tip suggesting one."@;
    step_comment(st, a, s, l);
    let a = a.push(l);
    lemma_lyrics_17();
    let l = "# Set this false to silence that tip."@;
    step_comment(st, a, s, l);
    let a = a.push(l);
    let l = switch_line("hints"@, c.hints, true);
    lemma_switch_line(s, "hints"@, c.hints, true, Setting::Hints);
    let t = Reading { config: ConfigV { hints: c.hints, ..s.config }, ..s };
    assert(read_line(s, l) == t);
    step(st, a, s, l, t);
    let s = t;
    let a = a.push(l);
    assert(a =~= lyrics_lines(c));
}

/// Lines read after lines.
proof fn lemma_joined_reads(st: Reading, a: Seq<Seq<char>>, mid: Reading, b: Seq<Seq<char>>, end: Reading)
    requires
        reads(st, a, mid),
        reads(mid, b, end),
    ensures
        reads(st, a + b, end),
{
    reveal(reads);
    lemma_read_add(st, a, b);
    assert forall|i: int| 0 <= i < (a + b).len() implies clean_line(#[trigger] (a + b)[i]) by {
        if i < a.len() {
            assert((a + b)[i] == a[i]);
        } else {
            assert((a + b)[i] == b[i - a.len()]);
        }
    }
}

/// The lines of a rendered file are those that it was rendered from, and they hold the
/// configuration.
proof fn lemma_file_lines(c: ConfigV)
    requires
        one_line_values(c),
    ensures
        lines_of(unlines(file_lines(c))) == file_lines(c),
        read_config(unlines(file_lines(c))) == c,
{
    let s0 = Reading { section: seq![], config: unset_config() };
    lemma_head_lines(s0, c);
    let s1 = s0;
    lemma_paths_lines(s1, c);
    let s2 = Reading { section: "paths"@, config: ConfigV { source: c.source, output: c.output, ..s1.config } };
    lemma_joined_reads(s0, head_lines(), s1, paths_lines(c), s2);
    lemma_convert_lines(s2, c);
    let s3 = Reading { section: "convert"@, config: ConfigV { bitrate: c.bitrate, ..s2.config } };
    lemma_joined_reads(s0, head_lines() + paths_lines(c), s2, convert_lines(c), s3);
    lemma_keys_lines(s3, c);
    let s4 = Reading { section: "keys"@, config: ConfigV { acoustid: c.acoustid, discogs: c.discogs, ..s3.config } };
    lemma_joined_reads(s0, head_lines() + paths_lines(c) + convert_lines(c), s3, keys_lines(c), s4);
    lemma_lyrics_lines(s4, c);
    let s5 = Reading { section: "lyrics"@, config: c };
    let front = head_lines() + paths_lines(c) + convert_lines(c) + keys_lines(c);
    lemma_joined_reads(s0, front, s4, lyrics_lines(c), s5);
    let all = file_lines(c);
    assert(reads(s0, all, s5));
    reveal(reads);
    lemma_lines_of_unlines(all);
}

/// What is written is read back: the rendered file holds the configuration that it
/// was rendered from, where every text in it is on one line.
pub proof fn law_render_round_trip(c: ConfigV)
    requires
        one_line_values(c),
    ensures
        read_config(unlines(file_lines(c))) == c,
{
    lemma_file_lines(c);
}

/// The setting whose line stands at this place of the file.
pub open spec fn setting_at(i: int) -> Option<Setting> {
    if i == 6 {
        Some(Setting::Source)
    } else if i == 8 {
        Some(Setting::Output)
    } else if i == 12 {
        Some(Setting::Bitrate)
    } else if i == 19 {
        Some(Setting::Acoustid)
    } else if i == 23 {
        Some(Setting::Discogs)
    } else if i == 30 {
        Some(Setting::LrcapiUrl)
    } else if i == 32 {
        Some(Setting::LrcapiKey)
    } else if i == 35 {
        Some(Setting::LrcapiFirst)
    } else if i == 40 {
        Some(Setting::AlignerUrl)
    } else if i == 43 {
        Some(Setting::Hints)
    } else {
        None
    }
}

/// The name of a setting within its section.
pub open spec fn field_name(s: Setting) -> Seq<char> {
    match s {
        Setting::Source => "source"@,
        Setting::Output => "output"@,
        Setting::Bitrate => "bitrate"@,
        Setting::Acoustid => "acoustid"@,
        Setting::Discogs => "discogs"@,
        Setting::LrcapiUrl => "lrcapi_url"@,
        Setting::LrcapiKey => "lrcapi_key"@,
        Setting::LrcapiFirst => "lrcapi_first"@,
        Setting::AlignerUrl => "aligner_url"@,
        Setting::Hints => "hints"@,
    }
}

/// The line of a setting that is set: a text that is there, or a switch that is not at its
/// default.
pub open spec fn active_line(c: ConfigV, s: Setting) -> Option<Seq<char>> {
    match s {
        Setting::LrcapiFirst => if c.lrcapi_first {
            Some(field_name(s) + " = true"@)
        } else {
            None
        },
        Setting::Hints => if c.hints {
            None
        } else {
            Some(field_name(s) + " = false"@)
        },
        _ => match shown(c, s) {
            Some(v) => Some(field_name(s) + " = \""@ + escaped(v) + "\""@),
            None => None,
        },
    }
}

/// The help is always kept: a rendered file has the lines of the template, each in its
/// place, but that a setting that is set stands as an active line where the template has its
/// example behind a comment sign.
pub proof fn law_render_keeps_template(c: ConfigV, i: int)
    requires
        one_line_values(c),
    ensures
        ({
            let now = lines_of(unlines(file_lines(c)));
            let blank = lines_of(unlines(file_lines(unset_config())));
            &&& now.len() == blank.len()
            &&& 0 <= i < blank.len() ==> match setting_at(i) {
                Some(s) => {
                    &&& starts_with(blank[i], "# "@ + field_name(s) + " = "@)
                    &&& now[i] == (match active_line(c, s) {
                        Some(l) => l,
                        None => blank[i],
                    })
                },
                None => now[i] == blank[i],
            }
        }),
{
    let u = unset_config();
    assert(one_line_values(u)) by {
        reveal_strlit("false");
        reveal_strlit("on");
    }
    lemma_file_lines(c);
    lemma_file_lines(u);
    let (a, b) = (file_lines(c), file_lines(u));
    assert(a.len() == 44 && b.len() == 44);
    if let Some(s) = setting_at(i) {
        if is_switch(s) {
            lemma_template_switch(c, s, i);
        } else {
            lemma_template_text(c, s, i);
        }
    }
}

proof fn lemma_template_text(c: ConfigV, s: Setting, i: int)
    requires
        setting_at(i) == Some(s),
        !is_switch(s),
    ensures
        starts_with(file_lines(unset_config())[i], "# "@ + field_name(s) + " = "@),
        file_lines(c)[i] == (match active_line(c, s) {
            Some(l) => l,
            None => file_lines(unset_config())[i],
        }),
{
    reveal_strlit(" = \"");
    reveal_strlit(" = ");
    let head = "# "@ + field_name(s) + " = "@;
    let l = file_lines(unset_config())[i];
    assert(exists|example: Seq<char>| l == #[trigger] text_line(field_name(s), None, example) && file_lines(c)[i] == text_line(
        field_name(s),
        shown(c, s),
        example,
    )) by {
        match s {
            Setting::Source => {
                assert(l == text_line(field_name(s), None, "/mnt/music/originals"@));
            },
            Setting::Output => {
                assert(l == text_line(field_name(s), None, "/mnt/music/library"@));
            },
            Setting::Bitrate => {
                assert(l == text_line(field_name(s), None, "192k"@));
            },
            Setting::Acoustid => {
                assert(l == text_line(field_name(s), None, "AbCdEfGhIj"@));
            },
            Setting::Discogs => {
                assert(l == text_line(field_name(s), None, "aBcDeFgHiJkLmNoPqRsTuVwXyZ0123456789aBcD"@));
            },
            Setting::LrcapiUrl => {
                assert(l == text_line(field_name(s), None, "https://lyrics.example.cloud"@));
            },
            Setting::LrcapiKey => {
                assert(l == text_line(field_name(s), None, "your-api-key-here"@));
            },
            Setting::AlignerUrl => {
                assert(l == text_line(field_name(s), None, "http://192.168.1.6:8790"@));
            },
            _ => {},
        }
    }
    assert(" = \""@ =~= " = "@ + seq!['"']);
    assert(l.subrange(0, head.len() as int) =~= head);
    assert(starts_with(l, head));
}

proof fn lemma_template_switch(c: ConfigV, s: Setting, i: int)
    requires
        setting_at(i) == Some(s),
        is_switch(s),
    ensures
        starts_with(file_lines(unset_config())[i], "# "@ + field_name(s) + " = "@),
        file_lines(c)[i] == (match active_line(c, s) {
            Some(l) => l,
            None => file_lines(unset_config())[i],
        }),
{
    reveal_strlit("");
    reveal_strlit(" = ");
    reveal_strlit(" = true");
    reveal_strlit(" = false");
    let head = "# "@ + field_name(s) + " = "@;
    let l = file_lines(unset_config())[i];
    assert(l == switch_line(field_name(s), s == Setting::Hints, s == Setting::Hints));
    assert(l.subrange(0, head.len() as int) =~= head);
    assert(starts_with(l, head));
    if let Some(x) = active_line(c, s) {
        assert(file_lines(c)[i] =~= x);
    }
}

/// Every key that is listed names a setting of its own, and no other text names one; every key is
/// described, in the order in which it is listed.
pub proof fn law_keys_listed(key: Seq<char>, i: int, j: int)
    ensures
        setting(key) is Some <==> key_list().contains(key),
        0 <= i < j < key_list().len() ==> setting(key_list()[i]) != setting(key_list()[j]),
        key_list().len() == 10,
        described_keys().map_values(|d: (Seq<char>, Seq<char>)| d.0) == key_list(),
        setting("paths.source"@) == Some(Setting::Source),
        setting("paths.output"@) == Some(Setting::Output),
        setting("convert.bitrate"@) == Some(Setting::Bitrate),
        setting("keys.acoustid"@) == Some(Setting::Acoustid),
        setting("keys.discogs"@) == Some(Setting::Discogs),
        setting("lyrics.lrcapi_url"@) == Some(Setting::LrcapiUrl),
        setting("lyrics.lrcapi_key"@) == Some(Setting::LrcapiKey),
        setting("lyrics.lrcapi_first"@) == Some(Setting::LrcapiFirst),
        setting("lyrics.aligner_url"@) == Some(Setting::AlignerUrl),
        setting("lyrics.hints"@) == Some(Setting::Hints),
{
    let l = key_list();
    lemma_keys();
    assert(described_keys().map_values(|d: (Seq<char>, Seq<char>)| d.0) =~= l);
    assert(setting(key) is Some ==> l.contains(key)) by {
        assert(l[0] == SOURCE_KEY@ && l[1] == OUTPUT_KEY@ && l[2] == BITRATE_KEY@ && l[3] == ACOUSTID_KEY@ && l[4]
            == DISCOGS_KEY@ && l[5] == LRCAPI_URL_KEY@ && l[6] == LRCAPI_KEY_KEY@ && l[7] == LRCAPI_FIRST_KEY@ && l[8]
            == ALIGNER_URL_KEY@ && l[9] == HINTS_KEY@);
    }
    if l.contains(key) {
        let k = choose|k: int| 0 <= k < l.len() && l[k] == key;
        assert(setting(l[k]) is Some);
    }
}

/// A switch is on where a text says on or true, off where it says off or false, in whatever case,
/// and nothing else says either.
pub proof fn law_truth(v: Seq<char>, w: Seq<char>)
    ensures
        ascii_lowered(v) == ascii_lowered(w) ==> truth(v) == truth(w),
        truth("on"@) == Some(true),
        truth("true"@) == Some(true),
        truth("off"@) == Some(false),
        truth("false"@) == Some(false),
        truth(v) is Some ==> ascii_lowered(v) == "on"@ || ascii_lowered(v) == "true"@ || ascii_lowered(v) == "off"@
            || ascii_lowered(v) == "false"@,
{
    lemma_switch_words();
}

} // verus!
