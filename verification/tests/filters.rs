//! Which files are kept.
use kairos::filter::{FilterError, ProjectFilter};

const ROOT: &str = "/work/project";

fn filter(gitignore: &str) -> ProjectFilter {
    ProjectFilter::new(ROOT.to_string(), Some(gitignore.as_bytes().to_vec()), 100).unwrap()
}

fn ignored(filter: &ProjectFilter, path: &str, is_dir: bool) -> bool {
    let whole = format!("{ROOT}/{path}");
    assert!(filter.is_tellable(&whole, is_dir));
    filter.is_path_ignored(&whole, is_dir)
}

#[test]
fn builtin_directories_are_ignored_at_any_depth() {
    let filter = ProjectFilter::new(ROOT.to_string(), None, 100).unwrap();
    for name in [".timeline", ".git", "node_modules", "dist", "build", ".next", "target"] {
        assert!(ignored(&filter, name, true));
        assert!(ignored(&filter, &format!("a/{name}/b.rs"), false));
        assert!(!ignored(&filter, &format!("a/{name}x/b.rs"), false));
    }
    assert!(!filter.is_path_ignored(ROOT, true));
}

#[test]
fn secrets_and_noise_are_ignored_as_files() {
    let filter = ProjectFilter::new(ROOT.to_string(), None, 100).unwrap();
    for name in [
        ".env", ".env.local", "a.pem", "a.key", "a.crt", "a.p12", "a.pfx", "a.swp", "a.swo",
        "a.tmp", "a.temp", "a~", ".DS_Store", ".#a", "my-credentials.txt", "secret.rs",
    ] {
        assert!(ignored(&filter, name, false), "{name}");
        assert!(!ignored(&filter, name, true), "{name}");
    }
    for name in ["env", ".envrc", "a.keys", "a.rs", "Secret.rs"] {
        assert!(!ignored(&filter, name, false), "{name}");
    }
}

#[test]
fn gitignore_patterns_are_followed() {
    let filter = filter("*.log\n!keep.log\n/only_here\nlogs/\n# comment\n");
    assert!(ignored(&filter, "a.log", false));
    assert!(ignored(&filter, "deep/a.log", false));
    assert!(!ignored(&filter, "keep.log", false));
    assert!(ignored(&filter, "only_here", false));
    assert!(!ignored(&filter, "sub/only_here", false));
    assert!(ignored(&filter, "logs", true));
    assert!(!ignored(&filter, "logs", false));
    assert!(ignored(&filter, "logs/today.txt", false));
    assert!(!ignored(&filter, "comment", false));
}

#[test]
fn gitignore_lines_end_at_the_first_that_is_not_text() {
    let bytes = [b"a.txt\n".to_vec(), vec![0xff, b'\n'], b"b.txt\n".to_vec()].concat();
    let filter = ProjectFilter::new(ROOT.to_string(), Some(bytes), 100).unwrap();
    assert!(ignored(&filter, "a.txt", false));
    assert!(!ignored(&filter, "b.txt", false));
}

#[test]
fn paths_outside_the_project_cannot_be_asked_about() {
    let with_lines = filter("*.log\n");
    assert!(!with_lines.is_tellable("/elsewhere/a.log", false));
    assert!(with_lines.is_tellable("/elsewhere/a.swp", false));
    let without = ProjectFilter::new(ROOT.to_string(), None, 100).unwrap();
    assert!(without.is_tellable("/elsewhere/a.log", false));
    assert!(!without.is_path_ignored("/elsewhere/a.log", false));
    assert!(without.is_path_ignored("/elsewhere/a.swp", false));
}

#[test]
fn lines_that_say_nothing_ignore_nothing() {
    let silent = filter("# only a comment\n\n  \t\n#*.log\n");
    assert!(silent.is_tellable("/elsewhere/a.log", false));
    assert!(!silent.is_path_ignored("/elsewhere/a.log", false));
    assert!(!silent.is_path_ignored("/work/project/a.log", false));
    let unreadable = filter("[z-a]\n");
    assert!(unreadable.is_tellable("/elsewhere/z", false));
    assert!(!unreadable.is_path_ignored("/elsewhere/z", false));
    assert!(!unreadable.is_path_ignored("/work/project/z", false));
    let escaped = filter("\\#a.log\n");
    assert!(!escaped.is_tellable("/elsewhere/a.log", false));
    assert!(escaped.is_path_ignored("/work/project/#a.log", false));
}

#[test]
fn only_small_text_files_are_kept() {
    let filter = ProjectFilter::new(ROOT.to_string(), None, 4).unwrap();
    let read = |is_file: bool, size: u64, bytes: &[u8]| {
        filter.read_trackable_text("/work/project/a.rs", is_file, size, bytes.to_vec())
    };
    assert_eq!(read(true, 4, b"abcd"), Some("abcd".to_string()));
    assert_eq!(read(true, 0, b""), Some(String::new()));
    assert_eq!(read(true, 5, b"abcde"), None);
    // The file may have grown since its size was read.
    assert_eq!(read(true, 4, b"abcde"), None);
    assert_eq!(read(false, 4, b"abcd"), None);
    assert_eq!(read(true, 3, b"a\0b"), None);
    assert_eq!(read(true, 1, &[0xff]), None);
    assert_eq!(filter.text_of_bytes("caf\u{e9}".as_bytes()[3..].to_vec()), Some("\u{e9}".to_string()));
    assert!(filter.admits(true, 4));
    assert!(!filter.admits(true, 5));
    assert!(!filter.admits(false, 1));
}

#[test]
fn bad_filters_say_so() {
    assert_eq!(FilterError::BadGitignore.message(), "failed to parse .gitignore");
}

#[test]
fn builtin_rules_cannot_be_lifted() {
    let filter = filter("!.env\n!node_modules/\n!.timeline/\n");
    assert!(ignored(&filter, ".env", false));
    assert!(ignored(&filter, "node_modules", true));
    assert!(ignored(&filter, "node_modules/a/b.js", false));
    assert!(ignored(&filter, ".timeline/kairos.db", false));
    assert!(!ignored(&filter, "env", false));
}
