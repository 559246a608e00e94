//! Languages the highlighter ships grammars for, looked up by name or
//! by a file's extension.
use vstd::prelude::*;

use crate::highlight::theme::is_kind;

verus! {

/// A language with a bundled grammar.
#[derive(Clone, Copy, Debug, PartialEq, Eq, Structural)]
pub enum Language {
    Json,
    Toml,
    Sql,
    Rust,
    JavaScript,
    Go,
    C,
    Css,
}

/// The language a name or alias stands for: `sql|sqlite`, `rs|rust`,
/// `js|javascript|mjs|cjs`, `c|h`, and `json`, `toml`, `go`, `css`.
pub open spec fn language_named(name: Seq<char>) -> Option<Language> {
    if name == "json"@ {
        Some(Language::Json)
    } else if name == "toml"@ {
        Some(Language::Toml)
    } else if name == "sql"@ || name == "sqlite"@ {
        Some(Language::Sql)
    } else if name == "rs"@ || name == "rust"@ {
        Some(Language::Rust)
    } else if name == "js"@ || name == "javascript"@ || name == "mjs"@ || name == "cjs"@ {
        Some(Language::JavaScript)
    } else if name == "go"@ {
        Some(Language::Go)
    } else if name == "c"@ || name == "h"@ {
        Some(Language::C)
    } else if name == "css"@ {
        Some(Language::Css)
    } else {
        None
    }
}

/// Resolve a language name or common alias.
pub fn by_name(name: &str) -> (r: Option<Language>)
    ensures
        r == language_named(name@),
{
    if is_kind(name, "json") {
        Some(Language::Json)
    } else if is_kind(name, "toml") {
        Some(Language::Toml)
    } else if is_kind(name, "sql") || is_kind(name, "sqlite") {
        Some(Language::Sql)
    } else if is_kind(name, "rs") || is_kind(name, "rust") {
        Some(Language::Rust)
    } else if is_kind(name, "js") || is_kind(name, "javascript") || is_kind(name, "mjs")
        || is_kind(name, "cjs") {
        Some(Language::JavaScript)
    } else if is_kind(name, "go") {
        Some(Language::Go)
    } else if is_kind(name, "c") || is_kind(name, "h") {
        Some(Language::C)
    } else if is_kind(name, "css") {
        Some(Language::Css)
    } else {
        None
    }
}

/// Index of the last `c` in `s[..n]`, or `-1`.
pub open spec fn last_index_before(s: Seq<char>, c: char, n: int) -> int
    decreases n,
{
    if n <= 0 {
        -1
    } else if s[n - 1] == c {
        n - 1
    } else {
        last_index_before(s, c, n - 1)
    }
}

/// Length of `s[..n]` without its trailing slashes.
pub open spec fn trimmed_len(s: Seq<char>, n: int) -> int
    decreases n,
{
    if n > 0 && s[n - 1] == '/' {
        trimmed_len(s, n - 1)
    } else {
        n
    }
}

/// The final component of a `/`-separated path, trailing slashes ignored.
pub open spec fn file_name(path: Seq<char>) -> Seq<char> {
    let end = trimmed_len(path, path.len() as int);
    path.subrange(last_index_before(path, '/', end) + 1, end)
}

/// The extension of a path: what follows the last `.` of its file name,
/// when that `.` is not the name's first character; none for `..`.
pub open spec fn extension(path: Seq<char>) -> Option<Seq<char>> {
    let name = file_name(path);
    let dot = last_index_before(name, '.', name.len() as int);
    if name == ".."@ || dot <= 0 {
        None
    } else {
        Some(name.subrange(dot + 1, name.len() as int))
    }
}

/// The language a path's extension names.
pub open spec fn language_for_path(path: Seq<char>) -> Option<Language> {
    match extension(path) {
        Some(ext) => language_named(ext),
        None => None,
    }
}

proof fn lemma_last_index_bounds(s: Seq<char>, c: char, n: int)
    requires
        0 <= n <= s.len(),
    ensures
        -1 <= last_index_before(s, c, n) < n,
        last_index_before(s, c, n) >= 0 ==> s[last_index_before(s, c, n)] == c,
    decreases n,
{
    if n > 0 && s[n - 1] != c {
        lemma_last_index_bounds(s, c, n - 1);
    }
}

/// Index of the last `c` in `text[..n]`, if there is one.
fn find_last(text: &str, c: char, n: usize) -> (r: Option<usize>)
    requires
        n <= text@.len(),
    ensures
        r matches Some(k) ==> k == last_index_before(text@, c, n as int),
        r is None ==> last_index_before(text@, c, n as int) == -1,
{
    let mut k = n;
    while k > 0
        invariant
            k <= n,
            n <= text@.len(),
            last_index_before(text@, c, n as int) == last_index_before(text@, c, k as int),
        decreases k,
    {
        if text.get_char(k - 1) == c {
            return Some(k - 1);
        }
        k -= 1;
    }
    None
}

/// Resolve a path's extension to a language.
pub fn by_extension(path: &str) -> (r: Option<Language>)
    ensures
        r == language_for_path(path@),
{
    let len = path.unicode_len();
    let mut end = len;
    while end > 0 && path.get_char(end - 1) == '/'
        invariant
            end <= len,
            len == path@.len(),
            trimmed_len(path@, len as int) == trimmed_len(path@, end as int),
        decreases end,
    {
        end -= 1;
    }
    proof {
        lemma_last_index_bounds(path@, '/', end as int);
    }
    let from = match find_last(path, '/', end) {
        Some(k) => k + 1,
        None => 0,
    };
    let name = path.substring_char(from, end);
    let nlen = name.unicode_len();
    proof {
        lemma_last_index_bounds(name@, '.', nlen as int);
    }
    let dot = match find_last(name, '.', nlen) {
        Some(k) => k,
        None => 0,
    };
    if is_kind(name, "..") || dot == 0 {
        return None;
    }
    let ext = name.substring_char(dot + 1, nlen);
    by_name(ext)
}


// ---------------------------------------------------------------------
// Command line of the demo highlighter
// ---------------------------------------------------------------------

/// What the demo's command line asks for: a language given by name, and
/// the path of the input (standard input when absent).
#[derive(Debug)]
pub struct Cli {
    pub language: Option<Language>,
    pub path: Option<String>,
}

/// Why a command line is refused.
#[derive(Debug)]
pub enum CliError {
    /// `-l` / `--lang` with no value after it.
    MissingValue(String),
    /// A language name that no language has.
    UnknownLanguage(String),
    /// A second input path.
    ExtraArgument(String),
    /// No language given, and the path's extension names none.
    CannotInfer(String),
}

/// A refusal by its kind and the text it names.
pub enum CliFault {
    MissingValue(Seq<char>),
    UnknownLanguage(Seq<char>),
    ExtraArgument(Seq<char>),
    CannotInfer(Seq<char>),
}

pub open spec fn cli_error_view(e: CliError) -> CliFault {
    match e {
        CliError::MissingValue(s) => CliFault::MissingValue(s@),
        CliError::UnknownLanguage(s) => CliFault::UnknownLanguage(s@),
        CliError::ExtraArgument(s) => CliFault::ExtraArgument(s@),
        CliError::CannotInfer(s) => CliFault::CannotInfer(s@),
    }
}

/// `--lang=`.
pub open spec fn lang_eq_prefix() -> Seq<char> {
    seq!['-', '-', 'l', 'a', 'n', 'g', '=']
}

/// The arguments from `i` on, read with `lang` and `path` found so far:
/// `-l NAME` / `--lang NAME` / `--lang=NAME` set the language (a later
/// one wins), anything else is the one input path.
pub open spec fn read_args(
    args: Seq<Seq<char>>,
    i: int,
    lang: Option<Language>,
    path: Option<Seq<char>>,
) -> Result<(Option<Language>, Option<Seq<char>>), CliFault>
    decreases args.len() - i,
{
    if i < 0 || i >= args.len() {
        Ok((lang, path))
    } else {
        let a = args[i];
        if a == "-l"@ || a == "--lang"@ {
            if i + 1 >= args.len() {
                Err(CliFault::MissingValue(a))
            } else {
                match language_named(args[i + 1]) {
                    Some(l) => read_args(args, i + 2, Some(l), path),
                    None => Err(CliFault::UnknownLanguage(args[i + 1])),
                }
            }
        } else if a.len() >= 7 && a.subrange(0, 7) == lang_eq_prefix() {
            let name = a.subrange(7, a.len() as int);
            match language_named(name) {
                Some(l) => read_args(args, i + 1, Some(l), path),
                None => Err(CliFault::UnknownLanguage(name)),
            }
        } else if path is Some {
            Err(CliFault::ExtraArgument(a))
        } else {
            read_args(args, i + 1, lang, Some(a))
        }
    }
}

fn starts_with_lang_eq(a: &str) -> (b: bool)
    ensures
        b == (a@.len() >= 7 && a@.subrange(0, 7) == lang_eq_prefix()),
{
    let n = a.unicode_len();
    if n < 7 {
        return false;
    }
    let head = a.substring_char(0, 7);
    let r = is_kind(head, "--lang=");
    proof {
        reveal_strlit("--lang=");
        assert("--lang="@ =~= lang_eq_prefix());
    }
    r
}

/// Read the demo's arguments.
pub fn parse_args(args: &[String]) -> (r: Result<Cli, CliError>)
    ensures
        match read_args(args@.map_values(|s: String| s@), 0, None, None) {
            Ok((l, p)) => r matches Ok(c) && c.language == l && match c.path {
                Some(x) => p == Some(x@),
                None => p is None,
            },
            Err(f) => r matches Err(e) && cli_error_view(e) == f,
        },
{
    let ghost av = args@.map_values(|s: String| s@);
    let mut language: Option<Language> = None;
    let mut path: Option<String> = None;
    let mut i: usize = 0;
    proof {
        reveal_strlit("-l");
        reveal_strlit("--lang");
    }
    while i < args.len()
        invariant
            av == args@.map_values(|s: String| s@),
            i <= args@.len() + 1,
            read_args(av, 0, None, None) == read_args(
                av,
                i as int,
                language,
                match path {
                    Some(x) => Some(x@),
                    None => None,
                },
            ),
        decreases args.len() - i,
    {
        let a = args[i].as_str();
        assert(av[i as int] == a@);
        if is_kind(a, "-l") || is_kind(a, "--lang") {
            if i + 1 >= args.len() {
                return Err(CliError::MissingValue(args[i].clone()));
            }
            assert(av[i + 1] == args@[i + 1]@);
            match by_name(args[i + 1].as_str()) {
                Some(l) => {
                    language = Some(l);
                },
                None => {
                    return Err(CliError::UnknownLanguage(args[i + 1].clone()));
                },
            }
            i += 2;
        } else if starts_with_lang_eq(a) {
            let n = a.unicode_len();
            let name = a.substring_char(7, n);
            match by_name(name) {
                Some(l) => {
                    language = Some(l);
                },
                None => {
                    return Err(CliError::UnknownLanguage(name.to_owned()));
                },
            }
            i += 1;
        } else {
            if path.is_some() {
                return Err(CliError::ExtraArgument(args[i].clone()));
            }
            path = Some(args[i].clone());
            i += 1;
        }
    }
    Ok(Cli { language, path })
}

/// The language to highlight in: the one named on the command line,
/// else the one the input path's extension names, else JSON for
/// standard input.
pub fn pick_language(cli: &Cli) -> (r: Result<Language, CliError>)
    ensures
        match cli.language {
            Some(l) => r == Ok::<Language, CliError>(l),
            None => match &cli.path {
                Some(p) => match language_for_path(p@) {
                    Some(l) => r == Ok::<Language, CliError>(l),
                    None => r matches Err(e) && cli_error_view(e) == CliFault::CannotInfer(p@),
                },
                None => r == Ok::<Language, CliError>(Language::Json),
            },
        },
{
    if let Some(l) = cli.language {
        return Ok(l);
    }
    match &cli.path {
        Some(p) => match by_extension(p.as_str()) {
            Some(l) => Ok(l),
            None => Err(CliError::CannotInfer(p.clone())),
        },
        None => Ok(Language::Json),
    }
}

} // verus!
