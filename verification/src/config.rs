//! The configuration file: where it is, and what it sets.

use vstd::prelude::*;
use vstd::string::*;

use crate::binds::Bind;
use crate::keys::parse_key;
#[allow(unused_imports)]
use crate::keys::key_named;
#[allow(unused_imports)]
use crate::options::text_of;
#[allow(unused_imports)]
use crate::pattern::{opt_view, regex_error};
use crate::pattern::{Pattern, PatternError};

verus! {

/// What a configuration file sets.
pub struct Config {
    pub line_pattern: Option<Pattern>,
    pub binds: Vec<Bind>,
}

/// Why a configuration was refused.
#[derive(Debug)]
pub enum ConfigError {
    /// A bind's key name stands for no key.
    Key(String),
    /// The line pattern is not a regular expression.
    Pattern(PatternError),
    /// There is no file at the path that was asked for.
    Missing(String),
}

/// A bind as it is written down: the name of the key, and the shell command.
#[derive(Debug)]
pub struct RawBind {
    pub key: String,
    pub run: String,
}

/// The index of the first bind whose key name stands for no key.
pub open spec fn first_unknown(raw: Seq<RawBind>) -> Option<int>
    decreases raw.len(),
{
    if raw.len() == 0 {
        None
    } else if key_named(raw[0].key@) is None {
        Some(0)
    } else {
        match first_unknown(raw.skip(1)) {
            Some(i) => Some(i + 1),
            None => None,
        }
    }
}

/// Reads the binds: each with the key that its name stands for. The first name
/// that stands for no key is refused.
pub fn read_binds(raw: Vec<RawBind>) -> (binds: Result<Vec<Bind>, ConfigError>)
    ensures
        match binds {
            Ok(binds) => {
                &&& first_unknown(raw@) is None
                &&& binds@.len() == raw@.len()
                &&& forall|i: int|
                    0 <= i < raw@.len() ==> Some((#[trigger] binds@[i]).key) == key_named(
                        raw@[i].key@,
                    ) && binds@[i].run == raw@[i].run
            },
            Err(ConfigError::Key(name)) => {
                &&& first_unknown(raw@) is Some
                &&& name == raw@[first_unknown(raw@)->0].key
            },
            _ => false,
        },
{
    let mut binds: Vec<Bind> = Vec::new();
    let ghost given = raw@;
    assert(given.skip(0) =~= given);
    for b in it: raw
        invariant
            it.seq() == given,
            binds@.len() == it.index(),
            first_unknown(given) == match first_unknown(given.skip(it.index() as int)) {
                Some(i) => Some(i + it.index()),
                None => None::<int>,
            },
            forall|i: int|
                0 <= i < binds@.len() ==> Some((#[trigger] binds@[i]).key) == key_named(
                    given[i].key@,
                ) && binds@[i].run == given[i].run,
    {
        let ghost k = it.index() as int;
        proof {
            assert(b == given[k]);
            assert(given.skip(k)[0] == b);
            assert(given.skip(k).skip(1) =~= given.skip(k + 1));
        }
        match parse_key(b.key.as_str()) {
            Some(key) => {
                binds.push(Bind { key, run: b.run });
            },
            None => {
                return Err(ConfigError::Key(b.key));
            },
        }
    }
    Ok(binds)
}

/// `config` is what reading a line pattern and binds gives. The binds are read
/// before the line pattern, so an unknown key name is what is refused where both
/// are wrong.
pub open spec fn is_config_of(
    line_pattern: Option<Seq<char>>,
    raw: Seq<RawBind>,
    config: Result<Config, ConfigError>,
) -> bool {
    match config {
        Ok(config) => {
            &&& first_unknown(raw) is None
            &&& config.binds@.len() == raw.len()
            &&& forall|i: int|
                0 <= i < raw.len() ==> Some((#[trigger] config.binds@[i]).key) == key_named(
                    raw[i].key@,
                ) && config.binds@[i].run == raw[i].run
            &&& match (line_pattern, config.line_pattern) {
                (Some(source), Some(re)) => regex_error(source) is None && re@ == source,
                (None, None) => true,
                _ => false,
            }
        },
        Err(ConfigError::Key(name)) => {
            &&& first_unknown(raw) is Some
            &&& name == raw[first_unknown(raw)->0].key
        },
        Err(ConfigError::Pattern(e)) => {
            &&& first_unknown(raw) is None
            &&& line_pattern is Some
            &&& regex_error(line_pattern->0) == Some(e.message@)
        },
        Err(ConfigError::Missing(_)) => false,
    }
}

/// Reads a configuration: the binds, then the line pattern.
pub fn read_config(line_pattern: Option<&str>, raw: Vec<RawBind>) -> (config: Result<
    Config,
    ConfigError,
>)
    ensures
        is_config_of(text_of(line_pattern), raw@, config),
{
    let binds = match read_binds(raw) {
        Ok(binds) => binds,
        Err(e) => {
            return Err(e);
        },
    };
    match line_pattern {
        Some(source) => match Pattern::new(source) {
            Ok(re) => Ok(Config { line_pattern: Some(re), binds }),
            Err(e) => Err(ConfigError::Pattern(e)),
        },
        None => Ok(Config { line_pattern: None, binds }),
    }
}

/// Where the configuration file is, and whether it must be there.
#[derive(Debug)]
pub struct ConfigPath {
    pub path: String,
    pub required: bool,
}

/// Where to look for the configuration file, and whether it must be there.
pub open spec fn config_place(
    asked: Option<Seq<char>>,
    xdg: Option<Seq<char>>,
    home: Option<Seq<char>>,
) -> Option<(Seq<char>, bool)> {
    match (asked, xdg, home) {
        (Some(path), _, _) => Some((path, true)),
        (None, Some(dir), _) if dir.len() > 0 => Some((dir + "/pager/config.toml"@, false)),
        (None, _, Some(dir)) => Some((dir + "/.config/pager/config.toml"@, false)),
        _ => None,
    }
}

/// The path of the configuration file: the one that was asked for, which must be
/// there; else `pager/config.toml` in `XDG_CONFIG_HOME`, or where that is unset or
/// empty in `.config` of the home directory. None where nothing says where to look.
pub fn config_path(asked: Option<&str>, xdg: Option<&str>, home: Option<&str>) -> (at: Option<
    ConfigPath,
>)
    ensures
        at is None <==> asked is None && !(xdg is Some && xdg->0@.len() > 0) && home is None,
        at matches Some(at) ==> at.required == asked is Some && at.path@ == if asked is Some {
            asked->0@
        } else if xdg is Some && xdg->0@.len() > 0 {
            xdg->0@ + "/pager/config.toml"@
        } else {
            home->0@ + "/.config/pager/config.toml"@
        },
        match at {
            Some(at) => config_place(text_of(asked), text_of(xdg), text_of(home)) == Some(
                (at.path@, at.required),
            ),
            None => config_place(text_of(asked), text_of(xdg), text_of(home)) is None,
        },
{
    if let Some(p) = asked {
        let mut path = String::new();
        path.append(p);
        assert(path@ =~= p@);
        return Some(ConfigPath { path, required: true });
    }
    if let Some(dir) = xdg {
        if !dir.is_empty() {
            let mut path = String::new();
            path.append(dir);
            path.append("/pager/config.toml");
            assert(path@ =~= dir@ + "/pager/config.toml"@);
            return Some(ConfigPath { path, required: false });
        }
    }
    if let Some(dir) = home {
        let mut path = String::new();
        path.append(dir);
        path.append("/.config/pager/config.toml");
        assert(path@ =~= dir@ + "/.config/pager/config.toml"@);
        return Some(ConfigPath { path, required: false });
    }
    None
}

/// A configuration file as it is written down.
#[derive(Debug)]
pub struct RawConfig {
    pub line_pattern: Option<String>,
    pub binds: Vec<RawBind>,
}

/// The configuration, from where its file is and what the file holds, none where
/// there is no such file. That is an error only where the file was asked for:
/// otherwise nothing is set.
pub fn load_config(at: Option<ConfigPath>, file: Option<RawConfig>) -> (config: Result<
    Config,
    ConfigError,
>)
    ensures
        match (file, at) {
            (Some(raw), _) => is_config_of(opt_view(raw.line_pattern), raw.binds@, config),
            (None, Some(at)) if at.required => config == Err::<Config, ConfigError>(
                ConfigError::Missing(at.path),
            ),
            (None, _) => config matches Ok(c) && c.line_pattern is None && c.binds@.len() == 0,
        },
{
    match file {
        Some(raw) => match raw.line_pattern {
            Some(source) => read_config(Some(source.as_str()), raw.binds),
            None => read_config(None, raw.binds),
        },
        None => {
            if let Some(at) = at {
                if at.required {
                    return Err(ConfigError::Missing(at.path));
                }
            }
            Ok(Config { line_pattern: None, binds: Vec::new() })
        },
    }
}

/// The first unknown name is one, and all names before it are known.
pub proof fn law_first_unknown(raw: Seq<RawBind>)
    ensures
        match first_unknown(raw) {
            Some(i) => {
                &&& 0 <= i < raw.len()
                &&& key_named(raw[i].key@) is None
                &&& forall|k: int| 0 <= k < i ==> key_named((#[trigger] raw[k]).key@) is Some
            },
            None => forall|k: int|
                0 <= k < raw.len() ==> key_named((#[trigger] raw[k]).key@) is Some,
        },
    decreases raw.len(),
{
    if raw.len() > 0 && key_named(raw[0].key@) is Some {
        let rest = raw.skip(1);
        law_first_unknown(rest);
        assert(forall|k: int| 0 < k < raw.len() ==> #[trigger] raw[k] == rest[k - 1]);
    }
}

/// A configuration that is read has each bind that was written, in order, with the
/// key of its name and its command, and the line pattern that was written.
pub proof fn law_config_keeps_what_is_written(
    line_pattern: Option<Seq<char>>,
    raw: Seq<RawBind>,
    config: Config,
)
    requires
        is_config_of(line_pattern, raw, Ok(config)),
    ensures
        config.binds@.len() == raw.len(),
        forall|i: int|
            0 <= i < raw.len() ==> Some((#[trigger] config.binds@[i]).key) == key_named(raw[i].key@)
                && config.binds@[i].run@ == raw[i].run@,
        line_pattern is Some <==> config.line_pattern is Some,
        line_pattern is Some ==> config.line_pattern->0@ == line_pattern->0,
{
}

/// A configuration is refused exactly for an unknown key name, and then for the
/// first, or for a line pattern that does not compile, and then with its message.
pub proof fn law_config_is_refused(
    line_pattern: Option<Seq<char>>,
    raw: Seq<RawBind>,
    config: Result<Config, ConfigError>,
)
    requires
        is_config_of(line_pattern, raw, config),
    ensures
        config is Ok <==> (forall|k: int|
            0 <= k < raw.len() ==> key_named((#[trigger] raw[k]).key@) is Some) && (
        line_pattern is Some ==> regex_error(line_pattern->0) is None),
        config matches Err(ConfigError::Key(name)) ==> exists|i: int|
            #![trigger raw[i]]
            0 <= i < raw.len() && raw[i].key@ == name@ && key_named(name@) is None && forall|k: int|
                0 <= k < i ==> key_named((#[trigger] raw[k]).key@) is Some,
        config matches Err(ConfigError::Pattern(e)) ==> (forall|k: int|
            0 <= k < raw.len() ==> key_named((#[trigger] raw[k]).key@) is Some) && line_pattern
            is Some && regex_error(line_pattern->0) == Some(e.message@),
        !(config matches Err(ConfigError::Missing(_))),
{
    law_first_unknown(raw);
    if let Err(ConfigError::Key(_)) = config {
        let i = first_unknown(raw)->0;
        assert(raw[i].key@ == raw[first_unknown(raw)->0].key@);
    }
}

/// The path that was asked for is taken as it is and goes before all others, and it
/// alone must be there. Else the file is `pager/config.toml` in the directory of
/// `XDG_CONFIG_HOME`, and without one in `.config` of the home directory.
pub proof fn law_config_place(
    asked: Seq<char>,
    xdg: Option<Seq<char>>,
    dir: Seq<char>,
    home: Option<Seq<char>>,
)
    requires
        dir.len() > 0,
    ensures
        config_place(Some(asked), xdg, home) == Some((asked, true)),
        config_place(None, Some(dir), home) == Some((dir + "/pager/config.toml"@, false)),
        config_place(None, None, Some(dir)) == Some((dir + "/.config/pager/config.toml"@, false)),
        config_place(None, Some(Seq::empty()), home) == config_place(None, None, home),
        config_place(None, None, None) is None,
{
}

} // verus!
