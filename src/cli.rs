//! Command-line options and the skip rules they select.

use vstd::prelude::*;
use vstd::string::StringExecFns;
use crate::skip::SkipRules;
use crate::scheduler::Error as PTreeSchedulerError;

verus! {

/// What `str::to_lowercase` makes of a string.
pub uninterp spec fn lower_of(s: Seq<char>) -> Seq<char>;

/// Relies on str::to_lowercase: the result depends on the characters alone.
#[verifier::external_body]
fn lowercase(s: &str) -> (r: String)
    ensures
        r@ == lower_of(s@),
{
    s.to_lowercase()
}

/// What `str::trim` makes of a string.
pub uninterp spec fn trim_of(s: Seq<char>) -> Seq<char>;

/// Relies on str::trim: it drops leading and trailing white space; the result
/// depends on the characters alone.
#[verifier::external_body]
fn trim(s: &str) -> (r: String)
    ensures
        r@ == trim_of(s@),
{
    s.trim().to_string()
}

/// The pieces of `s` between commas, in order: one more piece than there are
/// commas, empty pieces included.
pub open spec fn comma_pieces(s: Seq<char>) -> Seq<Seq<char>>
    decreases s.len(),
{
    if s.len() == 0 {
        seq![Seq::<char>::empty()]
    } else if s.last() == ',' {
        comma_pieces(s.drop_last()).push(Seq::empty())
    } else {
        let p = comma_pieces(s.drop_last());
        p.update(p.len() - 1, p.last().push(s.last()))
    }
}

/// Relies on str::split with a `char` pattern: the pieces between the commas.
#[verifier::external_body]
fn split_commas(s: &str) -> (r: Vec<String>)
    ensures
        r@.map_values(|p: String| p@) == comma_pieces(s@),
{
    s.split(',').map(|p| p.to_string()).collect()
}

/// What can go wrong before a scan starts.
#[derive(Debug, PartialEq, Eq)]
pub enum Error {
    /// The requested drive or root does not exist.
    InvalidDrive(String),
    /// Installing, removing or checking the refresh task failed.
    PTreeScheduler(PTreeSchedulerError),
}

/// How the tree is printed.
#[derive(Debug, Clone, Copy, PartialEq, Eq)]
pub enum OutputFormat {
    Tree,
    Json,
}

/// Whether the output is colored.
#[derive(Debug, Clone, Copy, PartialEq, Eq)]
pub enum ColorMode {
    Auto,
    Always,
    Never,
}

impl OutputFormat {
    /// Reads a format name, ignoring case: "tree" or "ascii", or "json".
    pub fn parse(s: &str) -> (r: Result<OutputFormat, String>)
        ensures
            lower_of(s@) == "tree"@ || lower_of(s@) == "ascii"@ ==> r == Ok::<OutputFormat, String>(
                OutputFormat::Tree,
            ),
            lower_of(s@) == "json"@ ==> r == Ok::<OutputFormat, String>(OutputFormat::Json),
            lower_of(s@) != "tree"@ && lower_of(s@) != "ascii"@ && lower_of(s@) != "json"@ ==> r is Err
                && r->Err_0@ == "Unknown format: "@ + lower_of(s@),
    {
        let l = lowercase(s);
        proof {
            reveal_strlit("tree");
            reveal_strlit("ascii");
            reveal_strlit("json");
            assert("tree"@[0] != "ascii"@[0] && "tree"@[0] != "json"@[0] && "ascii"@[0] != "json"@[0]);
        }
        if l == String::from_str("tree") || l == String::from_str("ascii") {
            Ok(OutputFormat::Tree)
        } else if l == String::from_str("json") {
            Ok(OutputFormat::Json)
        } else {
            Err(String::from_str("Unknown format: ").concat(l.as_str()))
        }
    }
}

impl ColorMode {
    /// Reads a color mode name, ignoring case: "auto", "always" or "never".
    pub fn parse(s: &str) -> (r: Result<ColorMode, String>)
        ensures
            lower_of(s@) == "auto"@ ==> r == Ok::<ColorMode, String>(ColorMode::Auto),
            lower_of(s@) == "always"@ ==> r == Ok::<ColorMode, String>(ColorMode::Always),
            lower_of(s@) == "never"@ ==> r == Ok::<ColorMode, String>(ColorMode::Never),
            lower_of(s@) != "auto"@ && lower_of(s@) != "always"@ && lower_of(s@) != "never"@ ==> r is Err
                && r->Err_0@ == "Unknown color mode: "@ + lower_of(s@),
    {
        let l = lowercase(s);
        proof {
            reveal_strlit("auto");
            reveal_strlit("always");
            reveal_strlit("never");
            assert("auto"@[1] != "always"@[1] && "auto"@[0] != "never"@[0] && "always"@[0] != "never"@[0]);
        }
        if l == String::from_str("auto") {
            Ok(ColorMode::Auto)
        } else if l == String::from_str("always") {
            Ok(ColorMode::Always)
        } else if l == String::from_str("never") {
            Ok(ColorMode::Never)
        } else {
            Err(String::from_str("Unknown color mode: ").concat(l.as_str()))
        }
    }
}

impl std::str::FromStr for OutputFormat {
    type Err = String;

    fn from_str(s: &str) -> Result<OutputFormat, String> {
        OutputFormat::parse(s)
    }
}

impl std::str::FromStr for ColorMode {
    type Err = String;

    fn from_str(s: &str) -> Result<ColorMode, String> {
        ColorMode::parse(s)
    }
}

/// The options of one run.
#[derive(Debug)]
pub struct Args {
    /// Drive letter of the tree to scan on a first run.
    pub drive: char,
    /// Scan system directories too.
    pub admin: bool,
    /// Rescan even when the cache is fresh.
    pub force: bool,
    /// Print no tree.
    pub quiet: bool,
    pub format: OutputFormat,
    pub color: ColorMode,
    /// Deepest level to print.
    pub max_depth: Option<usize>,
    /// Extra directory names to skip, separated by commas.
    pub skip: Option<String>,
    /// Print hidden entries.
    pub hidden: bool,
    /// Number of workers; twice the logical core count when absent.
    pub threads: Option<usize>,
    /// Use the change journal where the platform has one.
    pub incremental: bool,
    /// Print timings.
    pub debug: bool,
}

/// Names that are always skipped.
pub open spec fn default_rules() -> Set<Seq<char>> {
    set!["System Volume Information"@, "$Recycle.Bin"@, ".git"@]
}

/// System directories, skipped unless in admin mode.
pub open spec fn system_rules() -> Set<Seq<char>> {
    set!["System32"@, "WinSxS"@, "Temp"@, "Temporary Internet Files"@]
}

/// The trimmed comma-separated names of a user's skip list.
pub open spec fn user_rules(skip: Option<Seq<char>>) -> Set<Seq<char>> {
    match skip {
        Some(s) => comma_pieces(s).map_values(|p: Seq<char>| trim_of(p)).to_set(),
        None => Set::empty(),
    }
}

impl Args {
    /// The skip rules of this run: the defaults, the system directories unless
    /// in admin mode, and each trimmed name of the user's comma-separated list.
    pub fn skip_dirs(&self) -> (r: SkipRules)
        ensures
            r@ == default_rules().union(
                if self.admin {
                    Set::empty()
                } else {
                    system_rules()
                },
            ).union(
                user_rules(
                    match self.skip {
                        Some(s) => Some(s@),
                        None => None,
                    },
                ),
            ),
    {
        let mut skip = Self::default_skip_dirs();
        let ghost base = skip@;
        if !self.admin {
            skip.insert(String::from_str("System32"));
            skip.insert(String::from_str("WinSxS"));
            skip.insert(String::from_str("Temp"));
            skip.insert(String::from_str("Temporary Internet Files"));
            assert(skip@ =~= base.union(system_rules()));
        } else {
            assert(skip@ =~= base.union(Set::empty()));
        }
        let ghost mid = skip@;
        match &self.skip {
            Some(list) => {
                let pieces = split_commas(list.as_str());
                let ghost ps = comma_pieces(list@);
                let mut i: usize = 0;
                while i < pieces.len()
                    invariant
                        i <= pieces@.len(),
                        pieces@.map_values(|p: String| p@) == ps,
                        skip@ == mid.union(ps.take(i as int).map_values(|p: Seq<char>| trim_of(p)).to_set()),
                    decreases pieces@.len() - i,
                {
                    let name = trim(pieces[i].as_str());
                    let ghost before = skip@;
                    skip.insert(name);
                    proof {
                        assert(ps[i as int] == pieces@[i as int]@);
                        let prev = ps.take(i as int).map_values(|p: Seq<char>| trim_of(p));
                        let next = ps.take(i + 1).map_values(|p: Seq<char>| trim_of(p));
                        assert(next =~= prev.push(trim_of(ps[i as int])));
                        assert(next.to_set() =~= prev.to_set().insert(trim_of(ps[i as int]))) by {
                            assert forall|x: Seq<char>| #[trigger] next.to_set().contains(x) implies prev.to_set().insert(
                                trim_of(ps[i as int]),
                            ).contains(x) by {
                                let j = choose|j: int| 0 <= j < next.len() && next[j] == x;
                                if j < prev.len() {
                                    assert(prev[j] == x);
                                }
                            }
                            assert forall|x: Seq<char>| #[trigger] prev.to_set().insert(
                                trim_of(ps[i as int]),
                            ).contains(x) implies next.to_set().contains(x) by {
                                if x == trim_of(ps[i as int]) {
                                    assert(next[prev.len() as int] == x);
                                } else {
                                    let j = choose|j: int| 0 <= j < prev.len() && prev[j] == x;
                                    assert(next[j] == x);
                                }
                            }
                        }
                    }
                    i += 1;
                    assert(skip@ =~= mid.union(ps.take(i as int).map_values(|p: Seq<char>| trim_of(p)).to_set()));
                }
                assert(ps.take(i as int) =~= ps);
            },
            None => {
                assert(skip@ =~= mid.union(Set::empty()));
            },
        }
        skip
    }

    /// The names that are always skipped.
    fn default_skip_dirs() -> (r: SkipRules)
        ensures
            r@ == default_rules(),
    {
        let mut skip = SkipRules::new();
        skip.insert(String::from_str("System Volume Information"));
        skip.insert(String::from_str("$Recycle.Bin"));
        skip.insert(String::from_str(".git"));
        assert(skip@ =~= default_rules());
        skip
    }
}

} // verus!
