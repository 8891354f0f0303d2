//! The configuration: watched directories and glob patterns of names to
//! leave out.

use vstd::prelude::*;

verus! {

#[verifier::external_type_specification]
#[verifier::external_body]
pub struct ExPattern(globber::Pattern);

#[verifier::external_type_specification]
#[verifier::external_body]
pub struct ExPatternError(globber::Error);

/// Whether the glob pattern written `pattern` matches `text`, as globber
/// decides it.
pub uninterp spec fn glob_matches(pattern: Seq<char>, text: Seq<char>) -> bool;

/// Relies on `globber::Pattern::new`: parses a glob pattern, or fails on a
/// syntax error.
#[verifier::external_body]
fn compile(source: &str) -> (r: Result<globber::Pattern, globber::Error>) {
    globber::Pattern::new(source)
}

/// A glob pattern, kept with the text it was parsed from.
pub struct IgnorePattern {
    source: String,
    compiled: globber::Pattern,
}

/// A pattern that did not parse.
#[derive(Clone, Debug)]
pub struct PatternError {
    pub pattern: String,
}

impl IgnorePattern {
    /// The text the pattern was parsed from.
    pub closed spec fn source(&self) -> Seq<char> {
        self.source@
    }

    /// Parses a glob pattern.
    pub fn new(source: &str) -> (r: Result<IgnorePattern, PatternError>)
        ensures
            match r {
                Ok(p) => p.source() == source@,
                Err(e) => e.pattern@ == source@,
            },
    {
        match compile(source) {
            Ok(compiled) => Ok(IgnorePattern { source: String::from_str(source), compiled }),
            Err(_) => Err(PatternError { pattern: String::from_str(source) }),
        }
    }

    /// The text the pattern was parsed from.
    pub fn as_str(&self) -> (r: &str)
        ensures
            r@ == self.source(),
    {
        self.source.as_str()
    }

    /// Relies on `globber::Pattern::matches`: whether `text` matches the
    /// pattern, which depends on the two texts alone.
    #[verifier::external_body]
    pub(crate) fn matches(&self, text: &str) -> (r: bool)
        ensures
            r == glob_matches(self.source(), text@),
    {
        self.compiled.matches(text)
    }
}

/// Parses each pattern in turn; the first that does not parse is the error.
pub fn parse_pattern_vec(sources: &Vec<String>) -> (r: Result<Vec<IgnorePattern>, PatternError>)
    ensures
        match r {
            Ok(v) => v@.len() == sources@.len() && forall|i: int|
                0 <= i < v@.len() ==> (#[trigger] v@[i]).source() == sources@[i]@,
            Err(e) => exists|i: int| 0 <= i < sources@.len() && sources@[i]@ == e.pattern@,
        },
{
    let mut v: Vec<IgnorePattern> = Vec::new();
    let mut i: usize = 0;
    while i < sources.len()
        invariant
            i <= sources@.len(),
            v@.len() == i,
            forall|k: int| 0 <= k < i ==> (#[trigger] v@[k]).source() == sources@[k]@,
        decreases sources@.len() - i,
    {
        match IgnorePattern::new(sources[i].as_str()) {
            Ok(p) => v.push(p),
            Err(e) => {
                return Err(e);
            },
        }
        i = i + 1;
    }
    Ok(v)
}

/// Some pattern of `ps` matches `text`.
pub open spec fn any_match(ps: Seq<IgnorePattern>, text: Seq<char>) -> bool {
    exists|k: int| 0 <= k < ps.len() && glob_matches(#[trigger] ps[k].source(), text)
}

/// Whether some pattern of `ps` matches `text`.
pub fn matches_any(ps: &Vec<IgnorePattern>, text: &str) -> (r: bool)
    ensures
        r == any_match(ps@, text@),
{
    let mut k: usize = 0;
    while k < ps.len()
        invariant
            k <= ps@.len(),
            forall|q: int| 0 <= q < k ==> !glob_matches(#[trigger] ps@[q].source(), text@),
        decreases ps@.len() - k,
    {
        if ps[k].matches(text) {
            return true;
        }
        k = k + 1;
    }
    false
}

/// A directory to index.
pub struct WatchDir {
    /// The directory's absolute path.
    pub path: String,
    /// Names and paths to leave out.
    pub ignored: Vec<IgnorePattern>,
    /// Whether subdirectories are indexed and watched too.
    pub recurse: bool,
}

/// The directories to index, and patterns left out everywhere.
pub struct Config {
    pub directories: Vec<WatchDir>,
    pub ignored: Vec<IgnorePattern>,
}

/// `text` is left out of the directory at position `i`: its own patterns or
/// the global ones match it.
pub open spec fn ignores(cfg: Config, i: int, text: Seq<char>) -> bool {
    0 <= i < cfg.directories@.len() && (any_match(cfg.directories@[i].ignored@, text) || any_match(
        cfg.ignored@,
        text,
    ))
}

/// The directory at position `i` is indexed recursively.
pub open spec fn recurses(cfg: Config, i: int) -> bool {
    0 <= i < cfg.directories@.len() && cfg.directories@[i].recurse
}

impl Config {
    /// A configuration with nothing to index.
    pub fn empty() -> (r: Config)
        ensures
            r.directories@.len() == 0,
            r.ignored@.len() == 0,
    {
        Config { directories: Vec::new(), ignored: Vec::new() }
    }

    /// Whether `text` is left out of the directory at position `i`.
    pub fn is_ignored(&self, i: usize, text: &str) -> (r: bool)
        ensures
            r == ignores(*self, i as int, text@),
    {
        if i >= self.directories.len() {
            return false;
        }
        matches_any(&self.directories[i].ignored, text) || matches_any(&self.ignored, text)
    }

    /// Whether the directory at position `i` is indexed recursively.
    pub fn recurse(&self, i: usize) -> (r: bool)
        ensures
            r == recurses(*self, i as int),
    {
        i < self.directories.len() && self.directories[i].recurse
    }
}

} // verus!
