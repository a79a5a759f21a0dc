//! The configuration file `.cadence/config.yml`: the marker prefix.
use vstd::prelude::*;

use crate::text::{
    find, lacks, lemma_split_char, lines, split_lines, split_once_char, starts_with, strip_prefix_chars, subrange, to_chars,
    to_string, trim, trim_chars, views,
};

verus! {

/// The marker prefix when the configuration names none.
pub const DEFAULT_MARKER_PREFIX: &'static str = "$$";

/// The characters of the default marker prefix.
pub open spec fn default_prefix() -> Seq<char> {
    seq!['$', '$']
}

/// The settings of `.cadence/config.yml`.
#[derive(Debug, Clone, PartialEq, Eq)]
pub struct CadenceConfig {
    pub marker_prefix: String,
}

impl Default for CadenceConfig {
    fn default() -> (r: Self)
        ensures
            r.marker_prefix@ == default_prefix(),
    {
        proof {
            reveal_strlit("$$");
        }
        CadenceConfig { marker_prefix: to_string(&to_chars(DEFAULT_MARKER_PREFIX)) }
    }
}

/// Why the configuration was refused.
#[derive(Debug, Clone, Copy, PartialEq, Eq)]
pub enum ConfigError {
    /// A value opened with `"` has no closing `"`.
    MissingClosingDoubleQuote,
    /// A value opened with `'` has no closing `'`.
    MissingClosingSingleQuote,
    /// The marker prefix is empty.
    EmptyMarkerPrefix,
}

impl ConfigError {
    /// The message that describes the error.
    pub fn message(&self) -> (r: String)
        ensures
            r@ == config_error_message(*self),
    {
        proof {
            reveal_strlit("Invalid marker_prefix: missing closing double quote");
            reveal_strlit("Invalid marker_prefix: missing closing single quote");
            reveal_strlit("marker_prefix cannot be empty");
        }
        match self {
            ConfigError::MissingClosingDoubleQuote => to_string(
                &to_chars("Invalid marker_prefix: missing closing double quote"),
            ),
            ConfigError::MissingClosingSingleQuote => to_string(
                &to_chars("Invalid marker_prefix: missing closing single quote"),
            ),
            ConfigError::EmptyMarkerPrefix => to_string(&to_chars("marker_prefix cannot be empty")),
        }
    }
}

/// The message of each configuration error.
pub open spec fn config_error_message(e: ConfigError) -> Seq<char> {
    match e {
        ConfigError::MissingClosingDoubleQuote => "Invalid marker_prefix: missing closing double quote"@,
        ConfigError::MissingClosingSingleQuote => "Invalid marker_prefix: missing closing single quote"@,
        ConfigError::EmptyMarkerPrefix => "marker_prefix cannot be empty"@,
    }
}

/// The text of a value before any `#` comment.
pub open spec fn before_comment(v: Seq<char>) -> Seq<char> {
    match find(v, seq!['#']) {
        Some(k) => v.take(k),
        None => v,
    }
}

/// A `marker_prefix` value: the text between a pair of double or single quotes,
/// or else the text before any `#`, trimmed. It must not be empty.
pub open spec fn marker_prefix_value(v: Seq<char>) -> Result<Seq<char>, ConfigError> {
    let p = if v.len() > 0 && v[0] == '"' {
        match find(v.drop_first(), seq!['"']) {
            Some(k) => Ok(v.drop_first().take(k)),
            None => Err(ConfigError::MissingClosingDoubleQuote),
        }
    } else if v.len() > 0 && v[0] == '\'' {
        match find(v.drop_first(), seq!['\'']) {
            Some(k) => Ok(v.drop_first().take(k)),
            None => Err(ConfigError::MissingClosingSingleQuote),
        }
    } else {
        Ok(trim(before_comment(v)))
    };
    match p {
        Ok(p) => if p.len() == 0 {
            Err(ConfigError::EmptyMarkerPrefix)
        } else {
            Ok(p)
        },
        Err(e) => Err(e),
    }
}

/// The characters of `marker_prefix:`.
pub open spec fn prefix_key() -> Seq<char> {
    "marker_prefix:"@
}

/// One line of `config.yml`: blank lines and `#` comments are skipped; a line
/// `marker_prefix: <value>` sets the prefix (a later one wins); a bad value is an error.
pub open spec fn config_step(prefix: Seq<char>, line: Seq<char>) -> Result<Seq<char>, ConfigError> {
    let l = trim(line);
    if l.len() == 0 || l[0] == '#' {
        Ok(prefix)
    } else if starts_with(l, prefix_key()) {
        marker_prefix_value(trim(l.skip(prefix_key().len() as int)))
    } else {
        Ok(prefix)
    }
}

/// The prefix after the lines `ls`, starting from the default; the first error stops the reading.
pub open spec fn config_state(ls: Seq<Seq<char>>) -> Result<Seq<char>, ConfigError>
    decreases ls.len(),
{
    if ls.len() == 0 {
        Ok(default_prefix())
    } else {
        match config_state(ls.drop_last()) {
            Ok(p) => config_step(p, ls.last()),
            Err(e) => Err(e),
        }
    }
}

/// The marker prefix that the text of `config.yml` sets.
pub open spec fn config_prefix(content: Seq<char>) -> Result<Seq<char>, ConfigError> {
    config_state(lines(content))
}

/// Reads a `marker_prefix` value.
pub fn parse_marker_prefix(value: &str) -> (r: Result<String, ConfigError>)
    ensures
        r matches Ok(p) ==> marker_prefix_value(value@) == Ok::<Seq<char>, ConfigError>(p@),
        r matches Err(e) ==> marker_prefix_value(value@) == Err::<Seq<char>, ConfigError>(e),
{
    let v = to_chars(value);
    match prefix_value(&v) {
        Ok(p) => Ok(to_string(&p)),
        Err(e) => Err(e),
    }
}

/// Reads a `marker_prefix` value held as characters.
fn prefix_value(v: &Vec<char>) -> (r: Result<Vec<char>, ConfigError>)
    ensures
        r matches Ok(p) ==> marker_prefix_value(v@) == Ok::<Seq<char>, ConfigError>(p@),
        r matches Err(e) ==> marker_prefix_value(v@) == Err::<Seq<char>, ConfigError>(e),
{
    let n = v.len();
    let p = if n > 0 && (v[0] == '"' || v[0] == '\'') {
        let q = v[0];
        let rest = subrange(v, 1, n);
        assert(rest@ == v@.drop_first());
        match split_once_char(&rest, q) {
            Some((inner, _)) => inner,
            None => {
                if q == '"' {
                    return Err(ConfigError::MissingClosingDoubleQuote);
                } else {
                    return Err(ConfigError::MissingClosingSingleQuote);
                }
            },
        }
    } else {
        let before = match split_once_char(v, '#') {
            Some((a, _)) => a,
            None => subrange(v, 0, n),
        };
        assert(before@ == before_comment(v@));
        trim_chars(&before)
    };
    if p.len() == 0 {
        Err(ConfigError::EmptyMarkerPrefix)
    } else {
        Ok(p)
    }
}

/// Reads the text of `config.yml`.
pub fn parse_config(content: &str) -> (r: Result<CadenceConfig, ConfigError>)
    ensures
        r matches Ok(c) ==> config_prefix(content@) == Ok::<Seq<char>, ConfigError>(
            c.marker_prefix@,
        ),
        r matches Err(e) ==> config_prefix(content@) == Err::<Seq<char>, ConfigError>(e),
{
    let chars = to_chars(content);
    let ls = split_lines(&chars);
    let ghost lv = views(ls@);
    let key = to_chars("marker_prefix:");
    proof {
        reveal_strlit("marker_prefix:");
        reveal_strlit("$$");
    }
    assert(key@ == prefix_key());
    let mut prefix = to_chars(DEFAULT_MARKER_PREFIX);
    assert(prefix@ == default_prefix());
    assert(config_state(lv.take(0)) == Ok::<Seq<char>, ConfigError>(default_prefix()));
    assert(lv.take(0) =~= Seq::<Seq<char>>::empty());
    let mut i: usize = 0;
    while i < ls.len()
        invariant
            i <= ls@.len(),
            lv == views(ls@),
            lv == lines(content@),
            key@ == prefix_key(),
            config_state(lv.take(i as int)) == Ok::<Seq<char>, ConfigError>(prefix@),
        decreases ls@.len() - i,
    {
        let line = &ls[i];
        assert(lv.take(i + 1).drop_last() == lv.take(i as int));
        assert(lv.take(i + 1).last() == line@);
        let l = trim_chars(line);
        if l.len() == 0 || l[0] == '#' {
        } else {
            match strip_prefix_chars(&l, &key) {
                Some(rest) => {
                    match prefix_value(&trim_chars(&rest)) {
                        Ok(p) => {
                            prefix = p;
                        },
                        Err(e) => {
                            assert(config_step(prefix@, line@) == Err::<Seq<char>, ConfigError>(e));
                            assert(config_state(lv.take(i + 1)) == Err::<Seq<char>, ConfigError>(e));
                            proof {
                                lemma_config_error_stays(lv, i + 1);
                            }
                            assert(lv.take(ls@.len() as int) == lv);
                            return Err(e);
                        },
                    }
                },
                None => {},
            }
        }
        i = i + 1;
    }
    assert(lv.take(ls@.len() as int) == lv);
    Ok(CadenceConfig { marker_prefix: to_string(&prefix) })
}

proof fn lemma_config_error_stays(ls: Seq<Seq<char>>, i: int)
    requires
        0 <= i <= ls.len(),
        config_state(ls.take(i)) is Err,
    ensures
        config_state(ls) == config_state(ls.take(i)),
    decreases ls.len() - i,
{
    if i < ls.len() {
        assert(ls.take(i + 1).drop_last() == ls.take(i));
        lemma_config_error_stays(ls, i + 1);
    } else {
        assert(ls.take(i) == ls);
    }
}

/// The configuration given the text of `config.yml`, or the default when there is no such file.
pub fn load_config(content: Option<&str>) -> (r: Result<CadenceConfig, ConfigError>)
    ensures
        content is None ==> (r matches Ok(c) && c.marker_prefix@ == default_prefix()),
        content matches Some(t) ==> (r matches Ok(c) ==> config_prefix(t@) == Ok::<
            Seq<char>,
            ConfigError,
        >(c.marker_prefix@)),
        content matches Some(t) ==> (r matches Err(e) ==> config_prefix(t@) == Err::<
            Seq<char>,
            ConfigError,
        >(e)),
{
    match content {
        Some(t) => parse_config(t),
        None => Ok(CadenceConfig::default()),
    }
}

/// The marker prefix given the text of `config.yml`, or the default when there is no such file.
pub fn load_marker_prefix(content: Option<&str>) -> (r: Result<String, ConfigError>)
    ensures
        content is None ==> (r matches Ok(p) && p@ == default_prefix()),
        content matches Some(t) ==> (r matches Ok(p) ==> config_prefix(t@) == Ok::<
            Seq<char>,
            ConfigError,
        >(p@)),
        content matches Some(t) ==> (r matches Err(e) ==> config_prefix(t@) == Err::<
            Seq<char>,
            ConfigError,
        >(e)),
{
    match load_config(content) {
        Ok(c) => Ok(c.marker_prefix),
        Err(e) => Err(e),
    }
}

/// A quoted `marker_prefix` value reads as the text between the quotes, when
/// that text is not empty and holds no quote of the same kind; whatever
/// follows the closing quote is ignored.
pub proof fn lemma_quoted_prefix_read(q: char, p: Seq<char>, rest: Seq<char>)
    requires
        q == '"' || q == '\'',
        p.len() > 0,
        lacks(p, q),
    ensures
        marker_prefix_value(seq![q] + p + seq![q] + rest) == Ok::<Seq<char>, ConfigError>(p),
{
    let v = seq![q] + p + seq![q] + rest;
    assert(v[0] == q);
    assert(v.drop_first() =~= p + seq![q] + rest);
    lemma_split_char(p, q, rest);
    assert((p + seq![q] + rest).take(p.len() as int) =~= p);
}

} // verus!
