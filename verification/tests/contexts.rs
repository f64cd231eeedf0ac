//! Contexts that a project is worked on in.
use kairos::git::{
    detect_context, detect_runtime_context, git_dir_candidate, git_output, is_inside_worktree,
    ContextKind, GitAnswers, GitContext, GitError, RuntimeContext,
};

fn answers() -> GitAnswers {
    GitAnswers {
        inside_worktree: Some("true".to_string()),
        worktree_root: Some("/work/project".to_string()),
        common_git_dir: Some("/work/project/.git".to_string()),
        branch_name: Some("main".to_string()),
        head_commit: Some("0123456789abcdef".to_string()),
    }
}

fn context() -> GitContext {
    detect_context(answers()).unwrap().unwrap()
}

#[test]
fn fingerprints_hold_every_field() {
    assert_eq!(
        context().fingerprint(),
        "git|worktree=/work/project|common=/work/project/.git|branch=main|head=0123456789abcdef\
         |detached=false"
    );
    let bare = GitContext { branch_name: None, head_commit: None, ..context() };
    assert_eq!(
        bare.fingerprint(),
        "git|worktree=/work/project|common=/work/project/.git|branch=-|head=-|detached=false"
    );
    assert_eq!(RuntimeContext::local("/p".to_string()).fingerprint(), "local|root=/p");
}

#[test]
fn fingerprints_tell_contexts_apart() {
    let same = context().fingerprint();
    let others = [
        GitContext { worktree_root: "/work/linked".to_string(), ..context() },
        GitContext { common_git_dir: "/work/other/.git".to_string(), ..context() },
        GitContext { branch_name: Some("feature".to_string()), ..context() },
        GitContext { branch_name: None, ..context() },
        GitContext { head_commit: Some("fedcba9876543210".to_string()), ..context() },
        GitContext { detached_head: true, ..context() },
    ];
    for other in others {
        assert_ne!(other.fingerprint(), same);
    }
    assert_ne!(RuntimeContext::local("/work/project".to_string()).fingerprint(), same);
}

#[test]
fn one_field_alone_makes_another_fingerprint() {
    let barred = GitContext { branch_name: Some("x|head=y".to_string()), ..context() };
    let other = GitContext { branch_name: Some("x|head=y|head=z".to_string()), ..context() };
    assert_ne!(barred.fingerprint(), other.fingerprint());
    let barred = GitContext { worktree_root: "/a|common=/b".to_string(), ..context() };
    let other = GitContext { worktree_root: "/a".to_string(), ..context() };
    assert_ne!(barred.fingerprint(), other.fingerprint());
    // Where two fields differ, bars can hide it.
    let left = GitContext {
        worktree_root: "/a|common=/b".to_string(),
        common_git_dir: "/c".to_string(),
        ..context()
    };
    let right = GitContext {
        worktree_root: "/a".to_string(),
        common_git_dir: "/b|common=/c".to_string(),
        ..context()
    };
    assert_eq!(left.fingerprint(), right.fingerprint());
}

#[test]
fn labels_are_short() {
    assert_eq!(context().short_head(), Some("0123456789ab".to_string()));
    assert_eq!(context().display_label(), "main @ 0123456789ab");
    let short = GitContext { head_commit: Some("abc".to_string()), ..context() };
    assert_eq!(short.display_label(), "main @ abc");
    let detached = GitContext { branch_name: None, ..context() };
    assert_eq!(detached.display_label(), "detached @ 0123456789ab");
    let unborn = GitContext { head_commit: None, ..context() };
    assert_eq!(unborn.short_head(), None);
    assert_eq!(unborn.display_label(), "main");
}

#[test]
fn runtime_contexts_tell_what_they_are() {
    let git = detect_runtime_context("/work/project/sub".to_string(), answers()).unwrap();
    assert_eq!(git.kind(), ContextKind::Git);
    assert_eq!(git.project_root(), "/work/project");
    assert_eq!(git.git(), Some(&context()));
    assert_eq!(git.display_label(), "main @ 0123456789ab");

    let outside = GitAnswers { inside_worktree: None, ..answers() };
    let local = detect_runtime_context("/work/project".to_string(), outside).unwrap();
    assert_eq!(local.kind(), ContextKind::Local);
    assert_eq!(local.project_root(), "/work/project");
    assert_eq!(local.git(), None);
    assert_eq!(local.display_label(), "local timeline");
}

#[test]
fn detection_needs_the_directories() {
    let in_git_dir = GitAnswers { inside_worktree: Some("false".to_string()), ..answers() };
    assert_eq!(detect_context(in_git_dir), Ok(None));
    let no_root = GitAnswers { worktree_root: None, ..answers() };
    assert_eq!(detect_context(no_root), Err(GitError::NoWorktree));
    let no_common = GitAnswers { common_git_dir: None, ..answers() };
    assert_eq!(detect_context(no_common), Err(GitError::NoCommonDir));
}

#[test]
fn detached_heads_are_at_a_commit_on_no_branch() {
    let detached = GitAnswers { branch_name: None, ..answers() };
    assert!(detect_context(detached).unwrap().unwrap().detached_head);
    let unborn = GitAnswers { branch_name: None, head_commit: None, ..answers() };
    assert!(!detect_context(unborn).unwrap().unwrap().detached_head);
    assert!(!context().detached_head);
}

#[test]
fn what_git_prints_is_trimmed() {
    assert_eq!(git_output(true, b" main\n".to_vec()), Ok(Some("main".to_string())));
    assert_eq!(git_output(true, b" \n".to_vec()), Ok(None));
    assert_eq!(git_output(false, b"main\n".to_vec()), Ok(None));
    assert_eq!(git_output(false, vec![0xff]), Ok(None));
    assert_eq!(git_output(true, vec![0xff]), Err(GitError::NotUtf8));
    assert!(is_inside_worktree(&Some("true".to_string())));
    assert!(!is_inside_worktree(&Some("false".to_string())));
    assert!(!is_inside_worktree(&None));
    assert_eq!(git_dir_candidate("/work/project", ".git"), "/work/project/.git");
    assert_eq!(git_dir_candidate("/work/linked", "/work/project/.git"), "/work/project/.git");
}

#[test]
fn git_errors_say_what_is_wrong() {
    assert_eq!(GitError::NotUtf8.message(), "git returned invalid UTF-8");
    assert_eq!(GitError::NoWorktree.message(), "failed to determine Git worktree");
    assert_eq!(GitError::NoCommonDir.message(), "failed to determine Git git common dir");
}
