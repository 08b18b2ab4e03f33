//! The decisions of a run over a set of files: configuration checks, the outcome for each
//! file read, and the messages of failures.
use vstd::prelude::*;
use crate::substitute::{covered, has_known_token, lemma_no_known_token_unchanged, replace_tokens, substitute};
use crate::tokens::{names_of, token_names, tokens_from_string, unknown_tokens};
use crate::vars::{prefix_map, starts_with, VarMap};

verus! {

/// Why a run stopped.
pub enum EnvReplacerError {
    /// The current working directory could not be read.
    CurrentDir,
    /// The current working directory is not valid Unicode.
    CurrentDirNotUnicode,
    /// The pattern given is not valid glob syntax.
    GlobSyntax,
    /// The pattern rooted at the working directory is not valid glob syntax.
    GlobRead,
    /// No variable name begins with the prefix.
    NoVariables { prefix: String },
    /// A glob entry could not be turned into a path.
    GlobEntry,
    /// The file holds a token that no variable names.
    MissingTokens { path: String },
    /// The file could not be read.
    ReadFailed { path: String },
    /// The file could not be written back.
    WriteFailed { path: String },
}

/// Whether `s` is valid glob syntax, as the glob crate's pattern compiler decides.
pub uninterp spec fn glob_syntax_ok(s: Seq<char>) -> bool;

/// Relies on glob::Pattern::new: it compiles the pattern or returns a `PatternError`, and
/// depends on the pattern's characters alone.
#[verifier::external_body]
fn glob_compiles(s: &str) -> (r: bool)
    ensures
        r == glob_syntax_ok(s@),
{
    glob::Pattern::new(s).is_ok()
}

/// Accepts `glob_str` when it is valid glob syntax.
pub fn parse_glob(glob_str: &str) -> (r: Result<String, EnvReplacerError>)
    ensures
        glob_syntax_ok(glob_str@) ==> (r matches Ok(g) && g@ == glob_str@),
        !glob_syntax_ok(glob_str@) ==> r matches Err(EnvReplacerError::GlobSyntax),
{
    if glob_compiles(glob_str) {
        Ok(String::from_str(glob_str))
    } else {
        Err(EnvReplacerError::GlobSyntax)
    }
}

/// The pattern `glob` rooted at the directory `cwd`: the two written one after the other.
pub fn glob_pattern(cwd: &str, glob: &str) -> (r: String)
    ensures
        r@ == cwd@ + glob@,
{
    let mut r = String::from_str(cwd);
    r.append(glob);
    r
}

/// A name is in the prefix mapping of `vars` exactly when some pair holds it and it begins
/// with the prefix.
pub proof fn lemma_prefix_map_names(vars: Seq<(String, String)>, prefix: Seq<char>, k: Seq<char>)
    ensures
        prefix_map(vars, prefix).contains_key(k) <==> exists|i: int|
            0 <= i < vars.len() && vars[i].0@ == k && starts_with(k, prefix),
    decreases vars.len(),
{
    if vars.len() > 0 {
        let init = vars.drop_last();
        lemma_prefix_map_names(init, prefix, k);
        if exists|i: int| 0 <= i < vars.len() && vars[i].0@ == k && starts_with(k, prefix) {
            let i = choose|i: int| 0 <= i < vars.len() && vars[i].0@ == k && starts_with(k, prefix);
            if i < init.len() {
                assert(init[i] == vars[i]);
            }
        }
        if exists|i: int| 0 <= i < init.len() && init[i].0@ == k && starts_with(k, prefix) {
            let i = choose|i: int| 0 <= i < init.len() && init[i].0@ == k && starts_with(k, prefix);
            assert(vars[i] == init[i]);
        }
    }
}

/// The variable mapping of a run: the pairs of `vars` whose name begins with `prefix`. A run
/// with no such pair is refused.
pub fn mapping_from_vars(vars: &Vec<(String, String)>, prefix: &String) -> (r: Result<
    VarMap,
    EnvReplacerError,
>)
    ensures
        (exists|i: int| 0 <= i < vars@.len() && starts_with(vars@[i].0@, prefix@)) ==> (r matches Ok(
            m,
        ) && m.wf() && m@ == prefix_map(vars@, prefix@)),
        (forall|i: int| 0 <= i < vars@.len() ==> !starts_with(#[trigger] vars@[i].0@, prefix@))
            ==> (r matches Err(EnvReplacerError::NoVariables { prefix: p }) && p@ == prefix@),
{
    let m = VarMap::from_vars(vars, prefix);
    if m.len() == 0 {
        proof {
            assert forall|i: int| 0 <= i < vars@.len() implies !starts_with(
                #[trigger] vars@[i].0@,
                prefix@,
            ) by {
                lemma_prefix_map_names(vars@, prefix@, vars@[i].0@);
                if starts_with(vars@[i].0@, prefix@) {
                    assert(m@.dom().contains(vars@[i].0@));
                    m@.dom().lemma_len0_is_empty();
                }
            }
        }
        Err(EnvReplacerError::NoVariables { prefix: prefix.clone() })
    } else {
        proof {
            if forall|i: int| 0 <= i < vars@.len() ==> !starts_with(#[trigger] vars@[i].0@, prefix@) {
                assert(m@.dom() =~= Set::<Seq<char>>::empty()) by {
                    assert forall|k: Seq<char>| !m@.dom().contains(k) by {
                        lemma_prefix_map_names(vars@, prefix@, k);
                    }
                }
            }
        }
        Ok(m)
    }
}

/// What one run leaves in a file that held `t`: the substituted text when every token of `t`
/// is known, else `t` itself.
pub open spec fn run_once(t: Seq<char>, m: Map<Seq<char>, Seq<char>>) -> Seq<char> {
    if covered(t, m) {
        substitute(t, m)
    } else {
        t
    }
}

/// The new content of the file at `path` that held `content`: refused, naming the file, when
/// a token of it has no variable; else every token replaced by its value.
pub fn process_content(token_map: &VarMap, path: &String, content: &String) -> (r: Result<
    String,
    EnvReplacerError,
>)
    requires
        token_map.wf(),
    ensures
        covered(content@, token_map@) ==> (r matches Ok(c) && c@ == substitute(
            content@,
            token_map@,
        )),
        !covered(content@, token_map@) ==> (r matches Err(EnvReplacerError::MissingTokens { path: p })
            && p@ == path@),
{
    let tokens = tokens_from_string(content);
    let names = token_map.names();
    let unknown = unknown_tokens(&tokens, &names);
    if unknown.len() > 0 {
        proof {
            let w = unknown@[0]@;
            assert(names_of(unknown@).contains(w));
            assert(token_names(content@).contains(w));
        }
        Err(EnvReplacerError::MissingTokens { path: path.clone() })
    } else {
        proof {
            assert forall|w: Seq<char>| crate::tokens::has_token(content@, w) implies token_map@.contains_key(
                w,
            ) by {
                assert(token_names(content@).contains(w));
                if !token_map@.contains_key(w) {
                    assert(names_of(unknown@).contains(w));
                    let a = choose|a: int| 0 <= a < unknown@.len() && unknown@[a]@ == w;
                }
            }
        }
        let mut out = content.clone();
        replace_tokens(token_map, &mut out);
        Ok(out)
    }
}

/// The file at index `j` of `files` is the first, in order, that holds a token without a
/// variable.
pub open spec fn first_uncovered(
    files: Seq<(String, String)>,
    m: Map<Seq<char>, Seq<char>>,
    j: int,
) -> bool {
    &&& 0 <= j < files.len()
    &&& !covered(files[j].1@, m)
    &&& forall|k: int| 0 <= k < j ==> covered(#[trigger] files[k].1@, m)
}

/// The new contents of all the files of a run, given as (path, content) pairs in the order
/// in which they were found. Every file is checked before any result is given: when some file
/// holds a token without a variable, the run is refused, naming the first such file, and no
/// content is given.
pub fn plan_files(token_map: &VarMap, files: &Vec<(String, String)>) -> (r: Result<
    Vec<String>,
    EnvReplacerError,
>)
    requires
        token_map.wf(),
    ensures
        (forall|k: int| 0 <= k < files@.len() ==> covered(#[trigger] files@[k].1@, token_map@))
            ==> (r matches Ok(out) && out@.len() == files@.len() && forall|k: int|
            0 <= k < files@.len() ==> #[trigger] out@[k]@ == substitute(files@[k].1@, token_map@)),
        forall|j: int|
            first_uncovered(files@, token_map@, j) ==> (r matches Err(
                EnvReplacerError::MissingTokens { path },
            ) && path@ == files@[j].0@),
{
    let mut out: Vec<String> = Vec::new();
    let mut i: usize = 0;
    while i < files.len()
        invariant
            token_map.wf(),
            i <= files@.len(),
            out@.len() == i,
            forall|k: int| 0 <= k < i ==> covered(#[trigger] files@[k].1@, token_map@),
            forall|k: int|
                0 <= k < i ==> #[trigger] out@[k]@ == substitute(files@[k].1@, token_map@),
        decreases files@.len() - i,
    {
        match process_content(token_map, &files[i].0, &files[i].1) {
            Ok(c) => {
                out.push(c);
            },
            Err(e) => {
                proof {
                    assert forall|j: int| first_uncovered(files@, token_map@, j) implies j == i by {
                        if j < i {
                        } else if j > i {
                            assert(covered(files@[i as int].1@, token_map@));
                        }
                    }
                }
                return Err(e);
            },
        }
        i = i + 1;
    }
    Ok(out)
}

/// What a glob entry that could not be resolved leads to: skipped when missing entries are
/// tolerated, else the end of the run.
pub fn on_entry_error(ignore_missing: bool) -> (r: Result<(), EnvReplacerError>)
    ensures
        ignore_missing ==> r is Ok,
        !ignore_missing ==> r matches Err(EnvReplacerError::GlobEntry),
{
    if ignore_missing {
        Ok(())
    } else {
        Err(EnvReplacerError::GlobEntry)
    }
}

/// A second run leaves a file as the first run left it, whenever that second run would not
/// find the first one's output both fully covered and still holding a known token.
pub proof fn lemma_run_twice(t: Seq<char>, m: Map<Seq<char>, Seq<char>>)
    requires
        covered(run_once(t, m), m) ==> !has_known_token(run_once(t, m), m),
    ensures
        run_once(run_once(t, m), m) == run_once(t, m),
{
    let t1 = run_once(t, m);
    if covered(t1, m) {
        lemma_no_known_token_unchanged(t1, m);
    }
}

/// The one-line text that reports `e`.
pub open spec fn message_text(e: EnvReplacerError) -> Seq<char> {
    match e {
        EnvReplacerError::CurrentDir => "Failed to retrieve the current working directory"@,
        EnvReplacerError::CurrentDirNotUnicode =>
            "Failed to convert the current working directory path to a string"@,
        EnvReplacerError::GlobSyntax => "Failed to parse glob"@,
        EnvReplacerError::GlobRead => "Failed to read glob pattern"@,
        EnvReplacerError::NoVariables { prefix } => "Could not find any env vars starting with \""@
            + prefix@ + "\""@,
        EnvReplacerError::GlobEntry => "Failed to unwrap one of the glob entries"@,
        EnvReplacerError::MissingTokens { path } => "Missing variables for tokens in file: "@ + path@,
        EnvReplacerError::ReadFailed { path } => "Failed to read file: "@ + path@,
        EnvReplacerError::WriteFailed { path } => "Failed to update file: "@ + path@,
    }
}

impl EnvReplacerError {
    /// The one-line text that reports this error.
    pub fn message(&self) -> (r: String)
        ensures
            r@ == message_text(*self),
    {
        match self {
            EnvReplacerError::CurrentDir => String::from_str(
                "Failed to retrieve the current working directory",
            ),
            EnvReplacerError::CurrentDirNotUnicode => String::from_str(
                "Failed to convert the current working directory path to a string",
            ),
            EnvReplacerError::GlobSyntax => String::from_str("Failed to parse glob"),
            EnvReplacerError::GlobRead => String::from_str("Failed to read glob pattern"),
            EnvReplacerError::NoVariables { prefix } => {
                let mut r = String::from_str("Could not find any env vars starting with \"");
                r.append(prefix.as_str());
                r.append("\"");
                r
            },
            EnvReplacerError::GlobEntry => String::from_str(
                "Failed to unwrap one of the glob entries",
            ),
            EnvReplacerError::MissingTokens { path } => {
                let mut r = String::from_str("Missing variables for tokens in file: ");
                r.append(path.as_str());
                r
            },
            EnvReplacerError::ReadFailed { path } => {
                let mut r = String::from_str("Failed to read file: ");
                r.append(path.as_str());
                r
            },
            EnvReplacerError::WriteFailed { path } => {
                let mut r = String::from_str("Failed to update file: ");
                r.append(path.as_str());
                r
            },
        }
    }
}

/// The process exit code of a run's outcome: zero on success, 65 on any failure.
pub fn exit_code(outcome: &Result<(), EnvReplacerError>) -> (r: i32)
    ensures
        outcome is Ok ==> r == 0,
        outcome is Err ==> r == 65,
{
    match outcome {
        Ok(_) => 0,
        Err(_) => 65,
    }
}

} // verus!
