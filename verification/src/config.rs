//! Settings, and the layers that they come from.
use vstd::prelude::*;
use vstd::string::*;
use crate::chars;
use crate::text;

verus! {

/// All configuration keys supported by ruckup.
///
/// Resolution order (later wins):
/// 1. Built-in defaults
/// 2. `~/.ruckuprc` (global)
/// 3. `./.ruckuprc` (project-local)
/// 4. Environment variables (`RUCKUP_*`)
#[derive(Debug, Clone, Copy, PartialEq, Eq, Structural)]
pub struct Config {
    /// Whether to preserve range prefixes (^, ~, >=, etc.) when updating versions.
    /// Default: true
    pub preserve_range: bool,
    /// Max concurrent registry lookups for Cargo/crates.io.
    /// crates.io has strict rate limits, so keep this conservative.
    /// Default: 5
    pub cargo_concurrency: usize,
    /// Max concurrent registry lookups for npm/pnpm/yarn.
    /// npm registry is more lenient.
    /// Default: 16
    pub npm_concurrency: usize,
    /// Max concurrent registry lookups for PyPI.
    /// Default: 10
    pub pypi_concurrency: usize,
}

/// The built-in settings.
pub open spec fn default_config() -> Config {
    Config {
        preserve_range: true,
        cargo_concurrency: 5,
        npm_concurrency: 16,
        pypi_concurrency: 10,
    }
}

impl Default for Config {
    fn default() -> (r: Self)
        ensures
            r == default_config(),
    {
        Config {
            preserve_range: true,
            cargo_concurrency: 5,
            npm_concurrency: 16,
            pypi_concurrency: 10,
        }
    }
}

/// What a configuration file says. Each setting is optional, so that partial
/// files merge cleanly.
#[derive(Debug, Clone, Copy, PartialEq, Eq, Structural)]
pub struct RcFile {
    pub preserve_range: Option<bool>,
    pub cargo_concurrency: Option<usize>,
    pub npm_concurrency: Option<usize>,
    pub pypi_concurrency: Option<usize>,
}

impl Default for RcFile {
    fn default() -> (r: Self)
        ensures
            r == (RcFile {
                preserve_range: None,
                cargo_concurrency: None,
                npm_concurrency: None,
                pypi_concurrency: None,
            }),
    {
        RcFile {
            preserve_range: None,
            cargo_concurrency: None,
            npm_concurrency: None,
            pypi_concurrency: None,
        }
    }
}

/// The setting of a layer, or that of the layers below where it has none.
pub open spec fn or_else<A>(layer: Option<A>, below: A) -> A {
    match layer {
        Some(value) => value,
        None => below,
    }
}

/// A concurrency of a file; it is at least one.
pub open spec fn at_least_one(n: Option<usize>) -> Option<usize> {
    match n {
        Some(n) => if n == 0 {
            Some(1)
        } else {
            Some(n)
        },
        None => None,
    }
}

impl RcFile {
    /// The settings with those of this file on top.
    pub open spec fn over(self, config: Config) -> Config {
        Config {
            preserve_range: or_else(self.preserve_range, config.preserve_range),
            cargo_concurrency: or_else(
                at_least_one(self.cargo_concurrency),
                config.cargo_concurrency,
            ),
            npm_concurrency: or_else(at_least_one(self.npm_concurrency), config.npm_concurrency),
            pypi_concurrency: or_else(at_least_one(self.pypi_concurrency), config.pypi_concurrency),
        }
    }

    /// Apply the settings that this file has onto `config`.
    pub fn apply_to(&self, config: &mut Config)
        ensures
            *final(config) == self.over(*old(config)),
    {
        if let Some(v) = self.preserve_range {
            config.preserve_range = v;
        }
        if let Some(v) = self.cargo_concurrency {
            config.cargo_concurrency = positive(v);
        }
        if let Some(v) = self.npm_concurrency {
            config.npm_concurrency = positive(v);
        }
        if let Some(v) = self.pypi_concurrency {
            config.pypi_concurrency = positive(v);
        }
    }
}

fn positive(n: usize) -> (r: usize)
    ensures
        Some(r) == at_least_one(Some(n)),
{
    if n == 0 {
        1
    } else {
        n
    }
}

/// The values of the environment variables, where they are set. Each supported
/// key maps to `RUCKUP_<UPPER_SNAKE>`.
#[derive(Debug)]
pub struct EnvLayer {
    pub preserve_range: Option<String>,
    pub cargo_concurrency: Option<String>,
    pub npm_concurrency: Option<String>,
    pub pypi_concurrency: Option<String>,
}

/// The truth value that a text stands for, in any case.
pub open spec fn bool_value(s: Seq<char>) -> Option<bool> {
    let word = chars::lower(s);
    if word == "true"@ || word == "1"@ || word == "yes"@ {
        Some(true)
    } else if word == "false"@ || word == "0"@ || word == "no"@ {
        Some(false)
    } else {
        None
    }
}

/// `s` without one plus sign in front.
pub open spec fn unsigned(s: Seq<char>) -> Seq<char> {
    if s.len() > 0 && s[0] == '+' {
        s.skip(1)
    } else {
        s
    }
}

/// The positive number that a text stands for, where it fits.
pub open spec fn count_value(s: Seq<char>) -> Option<usize> {
    let digits = unsigned(s);
    if chars::is_number(digits) && 1 <= chars::value(digits) <= usize::MAX {
        Some(chars::value(digits) as usize)
    } else {
        None
    }
}

/// What the value of a truth-valued variable says.
pub open spec fn env_bool(value: Option<String>) -> Option<bool> {
    match value {
        Some(s) => bool_value(s@),
        None => None,
    }
}

/// What the value of a counting variable says.
pub open spec fn env_count(value: Option<String>) -> Option<usize> {
    match value {
        Some(s) => count_value(s@),
        None => None,
    }
}

impl EnvLayer {
    pub fn read_bool(value: &str) -> (r: Option<bool>)
        ensures
            r == bool_value(value@),
    {
        let word: String = text::lower(value);
        let word: &str = word.as_str();
        if text::eq(word, "true") || text::eq(word, "1") || text::eq(word, "yes") {
            Some(true)
        } else if text::eq(word, "false") || text::eq(word, "0") || text::eq(word, "no") {
            Some(false)
        } else {
            None
        }
    }

    pub fn read_usize(value: &str) -> (r: Option<usize>)
        ensures
            r == count_value(value@),
    {
        let digits: &str = if text::starts_with_char(value, '+') {
            text::skip(value, 1)
        } else {
            value
        };
        match text::parse_u64(digits) {
            Some(n) => {
                if 1 <= n && n <= usize::MAX as u64 {
                    Some(n as usize)
                } else {
                    None
                }
            },
            None => None,
        }
    }

    /// The settings with those of the environment on top. A value that cannot be
    /// read counts as not set.
    pub open spec fn over(self, config: Config) -> Config {
        Config {
            preserve_range: or_else(env_bool(self.preserve_range), config.preserve_range),
            cargo_concurrency: or_else(
                env_count(self.cargo_concurrency),
                config.cargo_concurrency,
            ),
            npm_concurrency: or_else(env_count(self.npm_concurrency), config.npm_concurrency),
            pypi_concurrency: or_else(env_count(self.pypi_concurrency), config.pypi_concurrency),
        }
    }

    /// Apply the settings of the environment onto `config`.
    pub fn apply_to(&self, config: &mut Config)
        ensures
            *final(config) == self.over(*old(config)),
    {
        if let Some(s) = &self.preserve_range {
            if let Some(v) = Self::read_bool(s.as_str()) {
                config.preserve_range = v;
            }
        }
        if let Some(s) = &self.cargo_concurrency {
            if let Some(v) = Self::read_usize(s.as_str()) {
                config.cargo_concurrency = v;
            }
        }
        if let Some(s) = &self.npm_concurrency {
            if let Some(v) = Self::read_usize(s.as_str()) {
                config.npm_concurrency = v;
            }
        }
        if let Some(s) = &self.pypi_concurrency {
            if let Some(v) = Self::read_usize(s.as_str()) {
                config.pypi_concurrency = v;
            }
        }
    }

    /// The warnings about values that cannot be read, in the order of the keys.
    pub open spec fn complaints(self) -> Seq<Seq<char>> {
        bool_complaint("RUCKUP_PRESERVE_RANGE"@, self.preserve_range) + count_complaint(
            "RUCKUP_CARGO_CONCURRENCY"@,
            self.cargo_concurrency,
        ) + count_complaint("RUCKUP_NPM_CONCURRENCY"@, self.npm_concurrency) + count_complaint(
            "RUCKUP_PYPI_CONCURRENCY"@,
            self.pypi_concurrency,
        )
    }

    /// The warnings about values that cannot be read.
    pub fn warnings(&self) -> (r: Vec<String>)
        ensures
            chars::views(r@) == self.complaints(),
    {
        let mut out: Vec<String> = Vec::new();
        assert(chars::views(out@) =~= seq![]);
        warn_bool(&mut out, "RUCKUP_PRESERVE_RANGE", &self.preserve_range);
        warn_count(&mut out, "RUCKUP_CARGO_CONCURRENCY", &self.cargo_concurrency);
        warn_count(&mut out, "RUCKUP_NPM_CONCURRENCY", &self.npm_concurrency);
        warn_count(&mut out, "RUCKUP_PYPI_CONCURRENCY", &self.pypi_concurrency);
        assert(chars::views(out@) =~= self.complaints());
        out
    }
}

/// The warning about a variable's value.
pub open spec fn complaint(kind: Seq<char>, key: Seq<char>, value: Seq<char>) -> Seq<char> {
    "  warning: invalid "@ + kind + " for "@ + key + "="@ + value + ", ignoring"@
}

pub open spec fn bool_complaint(key: Seq<char>, value: Option<String>) -> Seq<Seq<char>> {
    match value {
        Some(s) => if bool_value(s@) is None {
            seq![complaint("boolean"@, key, s@)]
        } else {
            seq![]
        },
        None => seq![],
    }
}

pub open spec fn count_complaint(key: Seq<char>, value: Option<String>) -> Seq<Seq<char>> {
    match value {
        Some(s) => if count_value(s@) is None {
            seq![complaint("positive integer"@, key, s@)]
        } else {
            seq![]
        },
        None => seq![],
    }
}

fn describe(kind: &str, key: &str, value: &str) -> (r: String)
    ensures
        r@ == complaint(kind@, key@, value@),
{
    let mut out: String = "  warning: invalid ".to_owned();
    out.append(kind);
    out.append(" for ");
    out.append(key);
    out.append("=");
    out.append(value);
    out.append(", ignoring");
    out
}

fn warn_bool(out: &mut Vec<String>, key: &str, value: &Option<String>)
    ensures
        chars::views(final(out)@) == chars::views(old(out)@) + bool_complaint(key@, *value),
{
    let ghost sofar = out@;
    if let Some(s) = value {
        if EnvLayer::read_bool(s.as_str()).is_none() {
            out.push(describe("boolean", key, s.as_str()));
        }
    }
    assert(chars::views(out@) =~= chars::views(sofar) + bool_complaint(key@, *value));
}

fn warn_count(out: &mut Vec<String>, key: &str, value: &Option<String>)
    ensures
        chars::views(final(out)@) == chars::views(old(out)@) + count_complaint(key@, *value),
{
    let ghost sofar = out@;
    if let Some(s) = value {
        if EnvLayer::read_usize(s.as_str()).is_none() {
            out.push(describe("positive integer", key, s.as_str()));
        }
    }
    assert(chars::views(out@) =~= chars::views(sofar) + count_complaint(key@, *value));
}

/// The settings with those of a file on top, where there is one.
pub open spec fn file_over(rc: Option<RcFile>, config: Config) -> Config {
    match rc {
        Some(rc) => rc.over(config),
        None => config,
    }
}

/// The fully resolved configuration.
///
/// Layers (later wins):
/// 1. defaults
/// 2. ~/.ruckuprc
/// 3. <dir>/.ruckuprc
/// 4. RUCKUP_* env vars
pub fn load(global: &Option<RcFile>, local: &Option<RcFile>, env: &EnvLayer) -> (r: Config)
    ensures
        r == env.over(file_over(*local, file_over(*global, default_config()))),
{
    let mut config: Config = Config::default();
    if let Some(rc) = global {
        rc.apply_to(&mut config);
    }
    if let Some(rc) = local {
        rc.apply_to(&mut config);
    }
    env.apply_to(&mut config);
    config
}

/// Every concurrency is positive.
pub open spec fn is_workable(config: Config) -> bool {
    config.cargo_concurrency >= 1 && config.npm_concurrency >= 1 && config.pypi_concurrency >= 1
}

/// Whatever the layers say, lookups can go on: no concurrency is zero.
pub proof fn law_loaded_config_is_workable(
    global: Option<RcFile>,
    local: Option<RcFile>,
    env: EnvLayer,
)
    ensures
        is_workable(env.over(file_over(local, file_over(global, default_config())))),
{
}

/// What the environment says wins over both files, what the project's file says
/// wins over the global one, and what no layer says is the default.
pub proof fn law_later_layers_win(global: Option<RcFile>, local: Option<RcFile>, env: EnvLayer)
    ensures
        ({
            let r = env.over(file_over(local, file_over(global, default_config())));
            let said = |rc: Option<RcFile>|
                match rc {
                    Some(rc) => rc.preserve_range,
                    None => None,
                };
            let counts = |rc: Option<RcFile>|
                match rc {
                    Some(rc) => (
                        at_least_one(rc.cargo_concurrency),
                        at_least_one(rc.npm_concurrency),
                        at_least_one(rc.pypi_concurrency),
                    ),
                    None => (None, None, None),
                };
            let first = |a: Option<usize>, b: Option<usize>, c: Option<usize>, d: usize|
                or_else(a, or_else(b, or_else(c, d)));
            &&& r.preserve_range == or_else(
                env_bool(env.preserve_range),
                or_else(said(local), or_else(said(global), true)),
            )
            &&& r.cargo_concurrency == first(
                env_count(env.cargo_concurrency),
                counts(local).0,
                counts(global).0,
                5,
            )
            &&& r.npm_concurrency == first(
                env_count(env.npm_concurrency),
                counts(local).1,
                counts(global).1,
                16,
            )
            &&& r.pypi_concurrency == first(
                env_count(env.pypi_concurrency),
                counts(local).2,
                counts(global).2,
                10,
            )
        }),
{
}

/// The words for yes and for no, in letters of either case. Any other word says nothing.
pub proof fn law_words_for_yes_and_no(s: Seq<char>)
    ensures
        bool_value(s) == Some(true) <==> chars::lower(s) == "true"@ || chars::lower(s) == "1"@
            || chars::lower(s) == "yes"@,
        bool_value(s) == Some(false) <==> chars::lower(s) == "false"@ || chars::lower(s) == "0"@
            || chars::lower(s) == "no"@,
{
    reveal_strlit("true");
    reveal_strlit("1");
    reveal_strlit("yes");
    reveal_strlit("false");
    reveal_strlit("0");
    reveal_strlit("no");
    assert("true"@.len() == 4);
    assert("false"@.len() == 5);
    assert("yes"@.len() == 3);
    assert("no"@.len() == 2);
    assert("1"@[0] == '1');
    assert("0"@[0] == '0');
}

/// A count is read in decimals, with a plus sign or without. Zero is no count, and a
/// text with anything but digits behind the sign is none.
pub proof fn law_counts(n: usize, s: Seq<char>)
    ensures
        n > 0 ==> count_value(chars::decimal(n as nat)) == Some(n),
        n > 0 ==> count_value(seq!['+'] + chars::decimal(n as nat)) == Some(n),
        count_value(chars::decimal(0)) is None,
        count_value(s) is Some ==> count_value(s)->0 > 0,
        forall|i: int| 1 <= i < s.len() && !('0' <= #[trigger] s[i] && s[i] <= '9') ==> count_value(
            s,
        ) is None,
        s.len() == 0 ==> count_value(s) is None,
        at_least_one(Some(0)) == Some(1usize),
        n > 0 ==> at_least_one(Some(n)) == Some(n),
        at_least_one(None) is None,
{
    let d = chars::decimal(n as nat);
    chars::lemma_decimal(n as nat);
    chars::lemma_decimal(0);
    assert(chars::is_digit(d[0]));
    assert(d[0] != '+');
    assert((seq!['+'] + d).skip(1) =~= d);
    assert(chars::is_digit(chars::decimal(0)[0]));
    assert forall|i: int| 1 <= i < s.len() && !('0' <= #[trigger] s[i] && s[i] <= '9') implies count_value(
        s,
    ) is None by {
        let t = unsigned(s);
        let j = i - (s.len() - t.len());
        assert(t[j] == s[i]);
        if chars::is_number(t) {
            assert(chars::is_digit(t[j]));
        }
    }
}

/// A setting comes from the first of the layers that says something of it: the
/// environment, the local file, the global file. Where none does, it is the default.
pub proof fn law_first_layer_counts(global: RcFile, local: RcFile, env: EnvLayer)
    ensures
        ({
            let r = env.over(file_over(Some(local), file_over(Some(global), default_config())));
            let count = |e: Option<String>, l: Option<usize>, g: Option<usize>, r: usize, d: usize|
                {
                    &&& e is Some && count_value(e->0@) is Some ==> r == count_value(e->0@)->0
                    &&& (e is None || count_value(e->0@) is None) && l is Some && l->0 > 0 ==> r
                        == l->0
                    &&& (e is None || count_value(e->0@) is None) && l is Some && l->0 == 0 ==> r
                        == 1
                    &&& (e is None || count_value(e->0@) is None) && l is None && g is Some && g->0
                        > 0 ==> r == g->0
                    &&& (e is None || count_value(e->0@) is None) && l is None && g is Some && g->0
                        == 0 ==> r == 1
                    &&& (e is None || count_value(e->0@) is None) && l is None && g is None ==> r
                        == d
                };
            let e = env.preserve_range;
            let unsaid = e is None || bool_value(e->0@) is None;
            &&& !unsaid ==> r.preserve_range == bool_value(e->0@)->0
            &&& unsaid && local.preserve_range is Some ==> r.preserve_range
                == local.preserve_range->0
            &&& unsaid && local.preserve_range is None && global.preserve_range is Some
                ==> r.preserve_range == global.preserve_range->0
            &&& unsaid && local.preserve_range is None && global.preserve_range is None
                ==> r.preserve_range
            &&& count(
                env.cargo_concurrency,
                local.cargo_concurrency,
                global.cargo_concurrency,
                r.cargo_concurrency,
                5,
            )
            &&& count(
                env.npm_concurrency,
                local.npm_concurrency,
                global.npm_concurrency,
                r.npm_concurrency,
                16,
            )
            &&& count(
                env.pypi_concurrency,
                local.pypi_concurrency,
                global.pypi_concurrency,
                r.pypi_concurrency,
                10,
            )
        }),
        file_over(None, default_config()) == default_config(),
{
}

/// There is a warning for each variable that is set and cannot be read, with its name
/// and its value, and no other.
pub proof fn law_warnings(key: Seq<char>, value: String)
    ensures
        bool_complaint(key, None).len() == 0,
        count_complaint(key, None).len() == 0,
        bool_value(value@) is Some ==> bool_complaint(key, Some(value)).len() == 0,
        count_value(value@) is Some ==> count_complaint(key, Some(value)).len() == 0,
        bool_value(value@) is None ==> bool_complaint(key, Some(value)) == seq![
            "  warning: invalid boolean for "@ + (key + "="@ + value@) + ", ignoring"@,
        ],
        count_value(value@) is None ==> count_complaint(key, Some(value)) == seq![
            "  warning: invalid positive integer for "@ + (key + "="@ + value@) + ", ignoring"@,
        ],
{
    reveal_strlit("  warning: invalid ");
    reveal_strlit("boolean");
    reveal_strlit("positive integer");
    reveal_strlit(" for ");
    reveal_strlit("  warning: invalid boolean for ");
    reveal_strlit("  warning: invalid positive integer for ");
    assert("  warning: invalid "@ + "boolean"@ + " for "@ =~= "  warning: invalid boolean for "@);
    assert("  warning: invalid "@ + "positive integer"@ + " for "@
        =~= "  warning: invalid positive integer for "@);
    let rest = key + "="@ + value@;
    assert(complaint("boolean"@, key, value@) =~= "  warning: invalid boolean for "@ + rest
        + ", ignoring"@);
    assert(complaint("positive integer"@, key, value@)
        =~= "  warning: invalid positive integer for "@ + rest + ", ignoring"@);
}

} // verus!
