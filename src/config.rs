//! The options of one listing, and the name patterns that select entries.
use vstd::prelude::*;

verus! {

#[verifier::external_type_specification]
#[verifier::external_body]
pub struct ExRegex(regex::Regex);

#[verifier::external_type_specification]
#[verifier::external_body]
pub struct ExRegexError(regex::Error);

/// Whether `pattern` compiles as a regular expression with default options.
pub uninterp spec fn pattern_compiles(pattern: Seq<char>) -> bool;

/// Whether the regular expression `pattern` matches somewhere in `text`.
pub uninterp spec fn pattern_matches(pattern: Seq<char>, text: Seq<char>) -> bool;

/// Relies on `regex::Regex::new`: it compiles the pattern with default
/// options, and whether it succeeds depends on the pattern alone.
#[verifier::external_body]
fn compile_regex(pattern: &str) -> (r: Result<regex::Regex, regex::Error>)
    ensures
        r is Ok <==> pattern_compiles(pattern@),
{
    regex::Regex::new(pattern)
}

/// A compiled name pattern, with the text it was compiled from.
pub struct Pattern {
    source: String,
    regex: regex::Regex,
}

/// Relies on `regex::Regex::is_match`: whether the regex matches anywhere in
/// the text. The regex of a `Pattern` is always the one compiled from its
/// source, by `Pattern::new`.
#[verifier::external_body]
fn regex_is_match(p: &Pattern, text: &str) -> (r: bool)
    ensures
        r == pattern_matches(p.source(), text@),
{
    p.regex.is_match(text)
}

/// A pattern that could not be compiled.
#[derive(Debug)]
pub struct PatternError {
    pub pattern: String,
}

impl Pattern {
    /// The text the pattern was compiled from.
    pub closed spec fn source(&self) -> Seq<char> {
        self.source@
    }

    /// Compiles `source`.
    pub fn new(source: &str) -> (r: Result<Pattern, PatternError>)
        ensures
            r is Ok <==> pattern_compiles(source@),
            r matches Ok(p) ==> p.source() == source@,
            r matches Err(e) ==> e.pattern@ == source@,
    {
        match compile_regex(source) {
            Ok(regex) => Ok(Pattern { source: source.to_owned(), regex }),
            Err(_) => Err(PatternError { pattern: source.to_owned() }),
        }
    }

    /// Whether the pattern matches somewhere in `text`.
    pub fn is_match(&self, text: &str) -> (r: bool)
        ensures
            r == pattern_matches(self.source(), text@),
    {
        regex_is_match(self, text)
    }
}

/// The listing options as given on the command line.
#[derive(Clone, Debug)]
pub struct Args {
    /// Show hidden entries too.
    pub all: bool,
    /// Draw the tree with plain ASCII characters.
    pub ascii: bool,
    /// Colour the names.
    pub color: bool,
    /// List directories only.
    pub dirs_only: bool,
    /// Show modification times.
    pub mtime: bool,
    /// Append a type mark to each name.
    pub filelimit: bool,
    /// Show each entry by its full path.
    pub full_path: bool,
    /// Show the group of each entry.
    pub gid: bool,
    /// Reduced mode: no indentation and no summary.
    pub noreport: bool,
    /// Pattern of names to leave out.
    pub exclude: Option<String>,
    /// Follow symbolic links.
    pub follow_links: bool,
    /// Never colour the names.
    pub no_color: bool,
    /// Print names as they are.
    pub literal: bool,
    /// Pattern of names to keep.
    pub include_pattern: Option<String>,
    /// Show permissions.
    pub perms: bool,
    /// Replace unprintable characters in names with `?`.
    pub quiet: bool,
    /// Show sizes.
    pub size: bool,
    /// Sort mode; `time` sorts newest first.
    pub sort: Option<String>,
    /// Show the owner of each entry.
    pub uid: bool,
    /// Stay on the root's filesystem.
    pub samefilesystem: bool,
    /// Depth limit.
    pub level: Option<usize>,
    /// Root of the listing.
    pub path: Option<String>,
    /// Print a JSON document instead of a tree.
    pub json: bool,
    /// Show progress while walking.
    pub progress: bool,
    /// Number of worker threads; asks for the parallel assembler.
    pub threads: Option<usize>,
}

/// The depth limit when none is given.
pub const DEFAULT_DEPTH: usize = 3;

/// The options of one listing, with its patterns compiled.
pub struct Config {
    pub args: Args,
    pub color_enabled: bool,
    pub exclude_regex: Option<Pattern>,
    pub include_regex: Option<Pattern>,
    pub depth: usize,
}

/// The text of an optional pattern.
pub open spec fn pattern_source(p: Option<Pattern>) -> Option<Seq<char>> {
    match p {
        Some(p) => Some(p.source()),
        None => None,
    }
}

/// The text of an optional string.
pub open spec fn text_of(s: Option<String>) -> Option<Seq<char>> {
    match s {
        Some(s) => Some(s@),
        None => None,
    }
}

/// Whether an optional pattern text is absent or compiles.
pub open spec fn compiles_or_absent(s: Option<String>) -> bool {
    match s {
        Some(s) => pattern_compiles(s@),
        None => true,
    }
}

/// Compiles an optional pattern.
fn compile_optional(s: &Option<String>) -> (r: Result<Option<Pattern>, PatternError>)
    ensures
        r is Ok <==> compiles_or_absent(*s),
        r matches Ok(p) ==> pattern_source(p) == text_of(*s),
        r matches Err(e) ==> s is Some && e.pattern@ == s->0@,
{
    match s {
        Some(text) => match Pattern::new(text.as_str()) {
            Ok(p) => Ok(Some(p)),
            Err(e) => Err(e),
        },
        None => Ok(None),
    }
}

impl Config {
    /// Builds the configuration from the parsed options; `stdout_is_terminal`
    /// decides colouring when neither `color` nor `no_color` is given.
    /// The exclude pattern is compiled first; the first that fails is the error.
    pub fn new(args: Args, stdout_is_terminal: bool) -> (r: Result<Config, PatternError>)
        ensures
            r is Ok <==> compiles_or_absent(args.exclude) && compiles_or_absent(args.include_pattern),
            r matches Err(e) ==> if !compiles_or_absent(args.exclude) {
                e.pattern@ == args.exclude->0@
            } else {
                e.pattern@ == args.include_pattern->0@
            },
            r matches Ok(c) ==> {
                &&& c.args == args
                &&& c.depth == match args.level {
                    Some(l) => l,
                    None => DEFAULT_DEPTH,
                }
                &&& c.color_enabled == (!args.no_color && (args.color || stdout_is_terminal))
                &&& pattern_source(c.exclude_regex) == text_of(args.exclude)
                &&& pattern_source(c.include_regex) == text_of(args.include_pattern)
            },
    {
        let depth = match args.level {
            Some(l) => l,
            None => DEFAULT_DEPTH,
        };
        let color_enabled = if args.no_color {
            false
        } else if args.color {
            true
        } else {
            stdout_is_terminal
        };
        let exclude_regex = match compile_optional(&args.exclude) {
            Ok(p) => p,
            Err(e) => return Err(e),
        };
        let include_regex = match compile_optional(&args.include_pattern) {
            Ok(p) => p,
            Err(e) => return Err(e),
        };
        Ok(Config { args, color_enabled, exclude_regex, include_regex, depth })
    }

    /// Whether siblings are ordered by modification time.
    pub open spec fn by_time(&self) -> bool {
        self.args.sort matches Some(s) && s@ == seq!['t', 'i', 'm', 'e']
    }

    /// Whether siblings are ordered by modification time.
    pub fn sort_by_time(&self) -> (r: bool)
        ensures
            r == self.by_time(),
    {
        match &self.args.sort {
            Some(s) => {
                let time = String::from_str("time");
                proof {
                    reveal_strlit("time");
                }
                assert(time@ =~= seq!['t', 'i', 'm', 'e']);
                *s == time
            },
            None => false,
        }
    }
}

} // verus!
