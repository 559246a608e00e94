use syntax_highlighter::languages::{by_extension, by_name, parse_args, pick_language, Cli, CliError, Language};

#[test]
fn aliases_resolve_to_canonical_grammars() {
    assert_eq!(by_name("sqlite"), by_name("sql"));
    assert_eq!(by_name("rs"), by_name("rust"));
    assert_eq!(by_name("javascript"), by_name("js"));
    assert_eq!(by_name("mjs"), by_name("js"));
    assert_eq!(by_name("cjs"), by_name("js"));
    assert_eq!(by_name("h"), by_name("c"));
}

#[test]
fn unknown_names_return_none() {
    assert!(by_name("python").is_none());
    assert!(by_name("").is_none());
}

#[test]
fn by_extension_uses_name_table() {
    assert!(by_extension("foo.rs").is_some());
    assert!(by_extension("foo.json").is_some());
    assert!(by_extension("foo.unknown").is_none());
    assert!(by_extension("Makefile").is_none());
}

#[test]
fn canonical_names_map_to_their_language() {
    assert_eq!(by_name("json"), Some(Language::Json));
    assert_eq!(by_name("toml"), Some(Language::Toml));
    assert_eq!(by_name("sql"), Some(Language::Sql));
    assert_eq!(by_name("rust"), Some(Language::Rust));
    assert_eq!(by_name("js"), Some(Language::JavaScript));
    assert_eq!(by_name("go"), Some(Language::Go));
    assert_eq!(by_name("c"), Some(Language::C));
    assert_eq!(by_name("css"), Some(Language::Css));
    assert_eq!(by_name("JSON"), None);
}

#[test]
fn extension_comes_from_the_file_name() {
    assert_eq!(by_extension("src/main.rs"), Some(Language::Rust));
    assert_eq!(by_extension("dir.json/file"), None);
    assert_eq!(by_extension(".css"), None);
    assert_eq!(by_extension("a/b.c/"), Some(Language::C));
    assert_eq!(by_extension("style.min.css"), Some(Language::Css));
    assert_eq!(by_extension("trailing."), None);
    assert_eq!(by_extension(".."), None);
    assert_eq!(by_extension(""), None);
}

fn args(v: &[&str]) -> Vec<String> {
    v.iter().map(|s| s.to_string()).collect()
}

#[test]
fn cli_reads_language_and_path() {
    let cli = parse_args(&args(&["-l", "rs", "main.txt"])).expect("ok");
    assert_eq!(cli.language, Some(Language::Rust));
    assert_eq!(cli.path.as_deref(), Some("main.txt"));
    let cli = parse_args(&args(&["--lang=css", "--lang", "go"])).expect("ok");
    assert_eq!(cli.language, Some(Language::Go));
    assert!(cli.path.is_none());
}

#[test]
fn cli_refusals() {
    assert!(matches!(parse_args(&args(&["-l"])), Err(CliError::MissingValue(a)) if a == "-l"));
    assert!(matches!(parse_args(&args(&["--lang", "python"])), Err(CliError::UnknownLanguage(n)) if n == "python"));
    assert!(matches!(parse_args(&args(&["--lang=cobol"])), Err(CliError::UnknownLanguage(n)) if n == "cobol"));
    assert!(matches!(parse_args(&args(&["a.json", "b.json"])), Err(CliError::ExtraArgument(a)) if a == "b.json"));
}

#[test]
fn language_is_picked_from_flag_then_extension_then_default() {
    let flag = Cli { language: Some(Language::Toml), path: Some("x.json".to_string()) };
    assert_eq!(pick_language(&flag).ok(), Some(Language::Toml));
    let ext = Cli { language: None, path: Some("dir/x.json".to_string()) };
    assert_eq!(pick_language(&ext).ok(), Some(Language::Json));
    let none = Cli { language: None, path: None };
    assert_eq!(pick_language(&none).ok(), Some(Language::Json));
    let unknown = Cli { language: None, path: Some("Makefile".to_string()) };
    assert!(matches!(pick_language(&unknown), Err(CliError::CannotInfer(p)) if p == "Makefile"));
}
