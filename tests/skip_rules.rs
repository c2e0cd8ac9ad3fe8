use ptree::cli::{Args, ColorMode, OutputFormat};
use ptree::skip::{should_skip, SkipRules};

#[test]
fn test_should_skip() {
    let mut skip = SkipRules::new();
    skip.insert("System32".to_string());
    skip.insert(".git".to_string());

    assert!(should_skip("System32", &skip));
    assert!(should_skip(".git", &skip));
    assert!(!should_skip("Documents", &skip));
}

#[test]
fn skip_ignores_ascii_case() {
    let mut skip = SkipRules::new();
    skip.insert("System32".to_string());
    assert!(should_skip("SYSTEM32", &skip));
    assert!(should_skip("system32", &skip));
    assert!(!should_skip("System3", &skip));
}

fn args(admin: bool, skip: Option<&str>) -> Args {
    Args {
        drive: 'C',
        admin,
        force: false,
        quiet: false,
        format: OutputFormat::Tree,
        color: ColorMode::Auto,
        max_depth: None,
        skip: skip.map(|s| s.to_string()),
        hidden: false,
        threads: None,
        incremental: false,
        debug: false,
    }
}

#[test]
fn skip_dirs_adds_system_rules_unless_admin() {
    let plain = args(false, None).skip_dirs();
    assert!(should_skip("winsxs", &plain));
    assert!(should_skip(".GIT", &plain));
    assert!(should_skip("$recycle.bin", &plain));
    let admin = args(true, None).skip_dirs();
    assert!(!should_skip("System32", &admin));
    assert!(should_skip("System Volume Information", &admin));
}

#[test]
fn skip_dirs_reads_trimmed_user_list() {
    let rules = args(true, Some(" node_modules , target,build ")).skip_dirs();
    assert!(should_skip("node_modules", &rules));
    assert!(should_skip("TARGET", &rules));
    assert!(should_skip("build", &rules));
    assert!(!should_skip(" target", &rules));
}

#[test]
fn formats_parse_ignoring_case() {
    assert_eq!(OutputFormat::parse("ASCII"), Ok(OutputFormat::Tree));
    assert_eq!(OutputFormat::parse("json"), Ok(OutputFormat::Json));
    assert_eq!(OutputFormat::parse("Xml"), Err("Unknown format: xml".to_string()));
    assert_eq!(ColorMode::parse("Never"), Ok(ColorMode::Never));
    assert_eq!(ColorMode::parse("sometimes"), Err("Unknown color mode: sometimes".to_string()));
}
