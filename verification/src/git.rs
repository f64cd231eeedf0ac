//! The contexts in which a project is worked on: a Git worktree with its branch and
//! head, or the plain project directory.
use vstd::prelude::*;
use vstd::string::*;
use vstd::utf8::*;

use crate::path::{join_path, joined_path};
use crate::text::{chars_of, concat, opt_text, opt_text_is, text_from_utf8, text_of, trim, trimmed};

verus! {

/// The state of a Git worktree.
#[derive(Debug, Clone, PartialEq, Eq)]
pub struct GitContext {
    pub worktree_root: String,
    pub common_git_dir: String,
    pub branch_name: Option<String>,
    pub head_commit: Option<String>,
    pub detached_head: bool,
}

/// The view of a [`GitContext`].
pub struct GitContextView {
    pub worktree_root: Seq<char>,
    pub common_git_dir: Seq<char>,
    pub branch_name: Option<Seq<char>>,
    pub head_commit: Option<Seq<char>>,
    pub detached_head: bool,
}

impl View for GitContext {
    type V = GitContextView;

    open spec fn view(&self) -> GitContextView {
        GitContextView {
            worktree_root: self.worktree_root@,
            common_git_dir: self.common_git_dir@,
            branch_name: opt_text(self.branch_name),
            head_commit: opt_text(self.head_commit),
            detached_head: self.detached_head,
        }
    }
}

/// A text, or a dash where there is none.
pub open spec fn or_dash(o: Option<Seq<char>>) -> Seq<char> {
    match o {
        Some(s) => s,
        None => "-"@,
    }
}

/// The text that tells one Git context from another.
pub open spec fn git_fingerprint(git: GitContextView) -> Seq<char> {
    "git|worktree="@ + git.worktree_root + "|common="@ + git.common_git_dir + "|branch="@
        + or_dash(git.branch_name) + "|head="@ + or_dash(git.head_commit) + "|detached="@ + (
    if git.detached_head {
        "true"@
    } else {
        "false"@
    })
}

/// The text that tells one project outside Git from another.
pub open spec fn local_fingerprint(project_root: Seq<char>) -> Seq<char> {
    "local|root="@ + project_root
}

/// The first twelve characters of a commit name.
pub open spec fn short_commit(head: Seq<char>) -> Seq<char> {
    if head.len() <= 12 {
        head
    } else {
        head.take(12)
    }
}

/// The short name of the commit that a context is at.
pub open spec fn short_head_of(git: GitContextView) -> Option<Seq<char>> {
    match git.head_commit {
        Some(head) => Some(short_commit(head)),
        None => None,
    }
}

/// How a Git context is shown.
pub open spec fn git_label(git: GitContextView) -> Seq<char> {
    let branch = match git.branch_name {
        Some(name) => name,
        None => "detached"@,
    };
    match short_head_of(git) {
        Some(head) => branch + " @ "@ + head,
        None => branch,
    }
}

fn append_or_dash(s: &mut String, o: &Option<String>)
    ensures
        final(s)@ == old(s)@ + or_dash(opt_text(*o)),
{
    match o {
        Some(t) => s.append(t.as_str()),
        None => s.append("-"),
    }
}

impl GitContext {
    /// The text that tells this context from another.
    pub fn fingerprint(&self) -> (s: String)
        ensures
            s@ == git_fingerprint(self@),
    {
        let mut s = "git|worktree=".to_owned();
        s.append(self.worktree_root.as_str());
        s.append("|common=");
        s.append(self.common_git_dir.as_str());
        s.append("|branch=");
        append_or_dash(&mut s, &self.branch_name);
        s.append("|head=");
        append_or_dash(&mut s, &self.head_commit);
        s.append("|detached=");
        if self.detached_head {
            s.append("true");
        } else {
            s.append("false");
        }
        s
    }

    /// The short name of the commit that the context is at.
    pub fn short_head(&self) -> (res: Option<String>)
        ensures
            opt_text(res) == short_head_of(self@),
    {
        match &self.head_commit {
            Some(head) => {
                let v = chars_of(head.as_str());
                let n: usize = if v.len() < 12 {
                    v.len()
                } else {
                    12
                };
                let s = text_of(&v, 0, n);
                assert(s@ =~= short_commit(head@));
                Some(s)
            },
            None => None,
        }
    }

    /// How the context is shown.
    pub fn display_label(&self) -> (s: String)
        ensures
            s@ == git_label(self@),
    {
        let mut s = match &self.branch_name {
            Some(name) => name.clone(),
            None => "detached".to_owned(),
        };
        match self.short_head() {
            Some(head) => {
                s.append(" @ ");
                s.append(head.as_str());
            },
            None => {},
        }
        s
    }
}

/// Whether a context belongs to Git.
#[derive(Debug, Clone, Copy, PartialEq, Eq, Structural)]
pub enum ContextKind {
    Local,
    Git,
}

/// The context that is active now.
#[derive(Debug, Clone, PartialEq, Eq)]
pub struct RuntimeContext {
    kind: ContextKind,
    fingerprint: String,
    project_root: String,
    git: Option<GitContext>,
}

/// The view of a [`RuntimeContext`].
pub struct RuntimeView {
    pub kind: ContextKind,
    pub fingerprint: Seq<char>,
    pub project_root: Seq<char>,
    pub git: Option<GitContextView>,
}

impl View for RuntimeContext {
    type V = RuntimeView;

    closed spec fn view(&self) -> RuntimeView {
        RuntimeView {
            kind: self.kind,
            fingerprint: self.fingerprint@,
            project_root: self.project_root@,
            git: match self.git {
                Some(git) => Some(git@),
                None => None,
            },
        }
    }
}

/// The runtime context of a project outside Git.
pub open spec fn local_runtime(project_root: Seq<char>) -> RuntimeView {
    RuntimeView {
        kind: ContextKind::Local,
        fingerprint: local_fingerprint(project_root),
        project_root: project_root,
        git: None,
    }
}

/// The runtime context of a Git worktree.
pub open spec fn git_runtime(git: GitContextView) -> RuntimeView {
    RuntimeView {
        kind: ContextKind::Git,
        fingerprint: git_fingerprint(git),
        project_root: git.worktree_root,
        git: Some(git),
    }
}

impl RuntimeContext {
    /// The context of a project outside Git. `project_root` is the canonical path of
    /// the project.
    pub fn local(project_root: String) -> (c: Self)
        ensures
            c@ == local_runtime(project_root@),
    {
        RuntimeContext {
            kind: ContextKind::Local,
            fingerprint: concat("local|root=", project_root.as_str()),
            project_root,
            git: None,
        }
    }

    /// The context of a Git worktree.
    pub fn from_git(context: GitContext) -> (c: Self)
        ensures
            c@ == git_runtime(context@),
    {
        RuntimeContext {
            kind: ContextKind::Git,
            fingerprint: context.fingerprint(),
            project_root: context.worktree_root.clone(),
            git: Some(context),
        }
    }

    /// Whether the context belongs to Git.
    pub fn kind(&self) -> (k: ContextKind)
        ensures
            k == self@.kind,
    {
        self.kind
    }

    /// The text that tells the context from another.
    pub fn fingerprint(&self) -> (s: &str)
        ensures
            s@ == self@.fingerprint,
    {
        self.fingerprint.as_str()
    }

    /// The project directory of the context.
    pub fn project_root(&self) -> (s: &str)
        ensures
            s@ == self@.project_root,
    {
        self.project_root.as_str()
    }

    /// The Git side of the context.
    pub fn git(&self) -> (res: Option<&GitContext>)
        ensures
            match res {
                Some(git) => self@.git == Some(git@),
                None => self@.git is None,
            },
    {
        self.git.as_ref()
    }

    /// How the context is shown.
    pub fn display_label(&self) -> (s: String)
        ensures
            s@ == (match self@.git {
                Some(git) => git_label(git),
                None => "local timeline"@,
            }),
    {
        match self.git() {
            Some(context) => context.display_label(),
            None => "local timeline".to_owned(),
        }
    }
}

// ---------------------------------------------------------------------------
// Asking Git
// ---------------------------------------------------------------------------

/// Why the Git state of a project cannot be told.
#[derive(Debug, Clone, Copy, PartialEq, Eq, Structural)]
pub enum GitError {
    /// What Git printed is not UTF-8.
    NotUtf8,
    /// Git did not tell where the worktree is.
    NoWorktree,
    /// Git did not tell where the common directory is.
    NoCommonDir,
}

impl GitError {
    /// What the error says to the user.
    pub fn message(&self) -> (m: &'static str)
        ensures
            m@ == (match *self {
                GitError::NotUtf8 => "git returned invalid UTF-8"@,
                GitError::NoWorktree => "failed to determine Git worktree"@,
                GitError::NoCommonDir => "failed to determine Git git common dir"@,
            }),
    {
        match self {
            GitError::NotUtf8 => "git returned invalid UTF-8",
            GitError::NoWorktree => "failed to determine Git worktree",
            GitError::NoCommonDir => "failed to determine Git git common dir",
        }
    }
}

/// What Git answered, by how it ended and what it printed: nothing where it failed or
/// printed only white space.
pub open spec fn git_answer(succeeded: bool, printed: Seq<u8>) -> Result<
    Option<Seq<char>>,
    GitError,
> {
    if !succeeded {
        Ok(None)
    } else if !valid_utf8(printed) {
        Err(GitError::NotUtf8)
    } else if trimmed(decode_utf8(printed)).len() == 0 {
        Ok(None)
    } else {
        Ok(Some(trimmed(decode_utf8(printed))))
    }
}

/// What Git answered, by how it ended and what it printed.
pub fn git_output(succeeded: bool, printed: Vec<u8>) -> (res: Result<Option<String>, GitError>)
    ensures
        match res {
            Ok(answer) => git_answer(succeeded, printed@) == Ok::<Option<Seq<char>>, GitError>(
                opt_text(answer),
            ),
            Err(e) => git_answer(succeeded, printed@) == Err::<Option<Seq<char>>, GitError>(e),
        },
{
    if !succeeded {
        return Ok(None);
    }
    match text_from_utf8(printed) {
        None => Err(GitError::NotUtf8),
        Some(text) => {
            let answer = trim(text.as_str());
            if answer.as_str().unicode_len() == 0 {
                Ok(None)
            } else {
                Ok(Some(answer))
            }
        },
    }
}

/// Whether Git answered that the project lies in a worktree.
pub fn is_inside_worktree(answer: &Option<String>) -> (r: bool)
    ensures
        r == (opt_text(*answer) == Some("true"@)),
{
    opt_text_is(answer, "true")
}

/// The common directory that Git named: as it is where it is absolute, else below the
/// worktree.
pub fn git_dir_candidate(worktree_root: &str, git_dir: &str) -> (s: String)
    ensures
        s@ == joined_path(worktree_root@, git_dir@),
{
    join_path(worktree_root, git_dir)
}

/// What Git answered to each question. The two directories are canonical paths.
#[derive(Debug, Clone)]
pub struct GitAnswers {
    pub inside_worktree: Option<String>,
    pub worktree_root: Option<String>,
    pub common_git_dir: Option<String>,
    pub branch_name: Option<String>,
    pub head_commit: Option<String>,
}

/// The Git state that the answers tell of; none outside a worktree. The head is detached
/// where it is at a commit but on no branch.
pub open spec fn detected(a: GitAnswers) -> Result<Option<GitContextView>, GitError> {
    if opt_text(a.inside_worktree) != Some("true"@) {
        Ok(None)
    } else if a.worktree_root is None {
        Err(GitError::NoWorktree)
    } else if a.common_git_dir is None {
        Err(GitError::NoCommonDir)
    } else {
        Ok(
            Some(
                GitContextView {
                    worktree_root: a.worktree_root->Some_0@,
                    common_git_dir: a.common_git_dir->Some_0@,
                    branch_name: opt_text(a.branch_name),
                    head_commit: opt_text(a.head_commit),
                    detached_head: a.branch_name is None && a.head_commit is Some,
                },
            ),
        )
    }
}

/// The Git state that the answers tell of; none outside a worktree.
pub fn detect_context(answers: GitAnswers) -> (res: Result<Option<GitContext>, GitError>)
    ensures
        match res {
            Ok(Some(git)) => detected(answers) == Ok::<Option<GitContextView>, GitError>(
                Some(git@),
            ),
            Ok(None) => detected(answers) == Ok::<Option<GitContextView>, GitError>(None),
            Err(e) => detected(answers) == Err::<Option<GitContextView>, GitError>(e),
        },
{
    if !is_inside_worktree(&answers.inside_worktree) {
        return Ok(None);
    }
    let worktree_root = match answers.worktree_root {
        Some(root) => root,
        None => {
            return Err(GitError::NoWorktree);
        },
    };
    let common_git_dir = match answers.common_git_dir {
        Some(dir) => dir,
        None => {
            return Err(GitError::NoCommonDir);
        },
    };
    let detached_head = answers.branch_name.is_none() && answers.head_commit.is_some();
    Ok(
        Some(
            GitContext {
                worktree_root,
                common_git_dir,
                branch_name: answers.branch_name,
                head_commit: answers.head_commit,
                detached_head,
            },
        ),
    )
}

/// The context of a project: that of its Git worktree, or the plain directory. `root` is
/// the canonical path of the project.
pub fn detect_runtime_context(root: String, answers: GitAnswers) -> (res: Result<
    RuntimeContext,
    GitError,
>)
    ensures
        match res {
            Ok(context) => match detected(answers) {
                Ok(Some(git)) => context@ == git_runtime(git),
                Ok(None) => context@ == local_runtime(root@),
                Err(_) => false,
            },
            Err(e) => detected(answers) == Err::<Option<GitContextView>, GitError>(e),
        },
{
    match detect_context(answers) {
        Ok(Some(git)) => Ok(RuntimeContext::from_git(git)),
        Ok(None) => Ok(RuntimeContext::local(root)),
        Err(e) => Err(e),
    }
}

// ---------------------------------------------------------------------------
// What a fingerprint promises
// ---------------------------------------------------------------------------

/// Whether two texts are the same, or can be told apart inside a fingerprint because
/// neither holds the character between its fields.
pub open spec fn fields_are_clear(a: Seq<char>, b: Seq<char>) -> bool {
    a == b || (!a.contains('|') && !b.contains('|'))
}

/// Texts that start with clear fields, each followed by a bar, agree only where the fields
/// do.
proof fn lemma_first_field(a: Seq<char>, b: Seq<char>, after_a: Seq<char>, after_b: Seq<char>)
    requires
        fields_are_clear(a, b),
        after_a.len() > 0,
        after_b.len() > 0,
        after_a[0] == '|',
        after_b[0] == '|',
        a + after_a == b + after_b,
    ensures
        a == b,
        after_a == after_b,
{
    let whole = a + after_a;
    if a.len() < b.len() {
        assert(whole[a.len() as int] == '|');
        assert((b + after_b)[a.len() as int] == b[a.len() as int]);
        assert(b.contains('|'));
    } else if b.len() < a.len() {
        assert((b + after_b)[b.len() as int] == '|');
        assert(whole[b.len() as int] == a[b.len() as int]);
        assert(a.contains('|'));
    }
    assert(a =~= whole.take(a.len() as int));
    assert(b =~= (b + after_b).take(b.len() as int));
    assert(after_a =~= whole.skip(a.len() as int));
    assert(after_b =~= (b + after_b).skip(b.len() as int));
}

spec fn detached_text(detached: bool) -> Seq<char> {
    if detached {
        "true"@
    } else {
        "false"@
    }
}

proof fn lemma_last_fields(a: Seq<char>, b: Seq<char>, x: bool, y: bool)
    requires
        a + "|detached="@ + detached_text(x) == b + "|detached="@ + detached_text(y),
    ensures
        a == b,
        x == y,
{
    reveal_strlit("|detached=");
    reveal_strlit("true");
    reveal_strlit("false");
    let left = a + "|detached="@ + detached_text(x);
    let right = b + "|detached="@ + detached_text(y);
    assert("true"@[0] == 't');
    assert("false"@[1] == 'a');
    assert(left[left.len() - 4] == detached_text(x)[detached_text(x).len() - 4]);
    assert(right[right.len() - 4] == detached_text(y)[detached_text(y).len() - 4]);
    assert(x == y);
    assert(a.len() == b.len());
    assert(a =~= left.take(a.len() as int));
    assert(b =~= right.take(b.len() as int));
}

proof fn lemma_regroup(x: Seq<char>, y: Seq<char>, z: Seq<char>)
    ensures
        x + y + z == x + (y + z),
{
    assert(x + y + z =~= x + (y + z));
}

/// A fingerprint, grouped from its end.
proof fn lemma_fingerprint_fields(git: GitContextView)
    ensures
        git_fingerprint(git) == "git|worktree="@ + (git.worktree_root + ("|common="@ + (
        git.common_git_dir + ("|branch="@ + (or_dash(git.branch_name) + ("|head="@ + (or_dash(
            git.head_commit,
        ) + "|detached="@ + detached_text(git.detached_head)))))))),
{
    let s1 = "git|worktree="@;
    let s2 = s1 + git.worktree_root;
    let s3 = s2 + "|common="@;
    let s4 = s3 + git.common_git_dir;
    let s5 = s4 + "|branch="@;
    let s6 = s5 + or_dash(git.branch_name);
    let s7 = s6 + "|head="@;
    let head = or_dash(git.head_commit);
    lemma_regroup(s7, head, "|detached="@);
    lemma_regroup(s7, head + "|detached="@, detached_text(git.detached_head));
    let t7 = head + "|detached="@ + detached_text(git.detached_head);
    lemma_regroup(s6, "|head="@, t7);
    let t6 = "|head="@ + t7;
    lemma_regroup(s5, or_dash(git.branch_name), t6);
    let t5 = or_dash(git.branch_name) + t6;
    lemma_regroup(s4, "|branch="@, t5);
    let t4 = "|branch="@ + t5;
    lemma_regroup(s3, git.common_git_dir, t4);
    let t3 = git.common_git_dir + t4;
    lemma_regroup(s2, "|common="@, t3);
    let t2 = "|common="@ + t3;
    lemma_regroup(s1, git.worktree_root, t2);
}

proof fn lemma_same_start(a: Seq<char>, b: Seq<char>, start: Seq<char>)
    requires
        start + a == start + b,
    ensures
        a == b,
{
    assert(a =~= (start + a).skip(start.len() as int));
    assert(b =~= (start + b).skip(start.len() as int));
}

/// Git contexts with the same fingerprint are in the same worktree of the same repository,
/// on the same branch and at the same commit, where their fields are clear: a switch to
/// another branch, or a linked worktree, is another context.
pub proof fn law_fingerprints_tell_git_contexts_apart(a: GitContextView, b: GitContextView)
    requires
        fields_are_clear(a.worktree_root, b.worktree_root),
        fields_are_clear(a.common_git_dir, b.common_git_dir),
        fields_are_clear(or_dash(a.branch_name), or_dash(b.branch_name)),
        git_fingerprint(a) == git_fingerprint(b),
    ensures
        a.worktree_root == b.worktree_root,
        a.common_git_dir == b.common_git_dir,
        or_dash(a.branch_name) == or_dash(b.branch_name),
        or_dash(a.head_commit) == or_dash(b.head_commit),
        a.detached_head == b.detached_head,
{
    reveal_strlit("|common=");
    reveal_strlit("|branch=");
    reveal_strlit("|head=");
    let end_a = or_dash(a.head_commit) + "|detached="@ + detached_text(a.detached_head);
    let end_b = or_dash(b.head_commit) + "|detached="@ + detached_text(b.detached_head);
    let branch_a = or_dash(a.branch_name) + ("|head="@ + end_a);
    let branch_b = or_dash(b.branch_name) + ("|head="@ + end_b);
    let common_a = a.common_git_dir + ("|branch="@ + branch_a);
    let common_b = b.common_git_dir + ("|branch="@ + branch_b);
    let root_a = a.worktree_root + ("|common="@ + common_a);
    let root_b = b.worktree_root + ("|common="@ + common_b);
    lemma_fingerprint_fields(a);
    lemma_fingerprint_fields(b);
    lemma_same_start(root_a, root_b, "git|worktree="@);
    lemma_first_field(
        a.worktree_root,
        b.worktree_root,
        "|common="@ + common_a,
        "|common="@ + common_b,
    );
    lemma_same_start(common_a, common_b, "|common="@);
    lemma_first_field(
        a.common_git_dir,
        b.common_git_dir,
        "|branch="@ + branch_a,
        "|branch="@ + branch_b,
    );
    lemma_same_start(branch_a, branch_b, "|branch="@);
    lemma_first_field(
        or_dash(a.branch_name),
        or_dash(b.branch_name),
        "|head="@ + end_a,
        "|head="@ + end_b,
    );
    lemma_same_start(end_a, end_b, "|head="@);
    lemma_last_fields(
        or_dash(a.head_commit),
        or_dash(b.head_commit),
        a.detached_head,
        b.detached_head,
    );
}

/// How many of the fields of two Git contexts differ.
pub open spec fn differing_fields(a: GitContextView, b: GitContextView) -> nat {
    let root: nat = if a.worktree_root == b.worktree_root {
        0
    } else {
        1
    };
    let common: nat = if a.common_git_dir == b.common_git_dir {
        0
    } else {
        1
    };
    let branch: nat = if a.branch_name == b.branch_name {
        0
    } else {
        1
    };
    let head: nat = if a.head_commit == b.head_commit {
        0
    } else {
        1
    };
    let detached: nat = if a.detached_head == b.detached_head {
        0
    } else {
        1
    };
    root + common + branch + head + detached
}

/// Whether neither the branch nor the commit is named `-`, which stands for none.
pub open spec fn names_no_dash(git: GitContextView) -> bool {
    git.branch_name != Some("-"@) && git.head_commit != Some("-"@)
}

proof fn lemma_same_end(a: Seq<char>, b: Seq<char>, end: Seq<char>)
    requires
        a + end == b + end,
    ensures
        a == b,
{
    assert((a + end).len() == (b + end).len());
    assert(a =~= (a + end).take(a.len() as int));
    assert(b =~= (b + end).take(b.len() as int));
}

/// Git contexts that differ in one field have different fingerprints, whatever the field
/// holds: another branch, another commit, another worktree or another repository alone
/// makes another context.
pub proof fn law_one_field_makes_another_fingerprint(a: GitContextView, b: GitContextView)
    requires
        differing_fields(a, b) == 1,
        names_no_dash(a),
        names_no_dash(b),
    ensures
        git_fingerprint(a) != git_fingerprint(b),
{
    if git_fingerprint(a) == git_fingerprint(b) {
        let end_a = or_dash(a.head_commit) + "|detached="@ + detached_text(a.detached_head);
        let end_b = or_dash(b.head_commit) + "|detached="@ + detached_text(b.detached_head);
        let branch_a = or_dash(a.branch_name) + ("|head="@ + end_a);
        let branch_b = or_dash(b.branch_name) + ("|head="@ + end_b);
        let common_a = a.common_git_dir + ("|branch="@ + branch_a);
        let common_b = b.common_git_dir + ("|branch="@ + branch_b);
        let root_a = a.worktree_root + ("|common="@ + common_a);
        let root_b = b.worktree_root + ("|common="@ + common_b);
        lemma_fingerprint_fields(a);
        lemma_fingerprint_fields(b);
        lemma_same_start(root_a, root_b, "git|worktree="@);
        if a.worktree_root != b.worktree_root {
            lemma_same_end(a.worktree_root, b.worktree_root, "|common="@ + common_a);
        } else {
            lemma_same_start("|common="@ + common_a, "|common="@ + common_b, a.worktree_root);
            lemma_same_start(common_a, common_b, "|common="@);
            if a.common_git_dir != b.common_git_dir {
                lemma_same_end(a.common_git_dir, b.common_git_dir, "|branch="@ + branch_a);
            } else {
                lemma_same_start("|branch="@ + branch_a, "|branch="@ + branch_b, a.common_git_dir);
                lemma_same_start(branch_a, branch_b, "|branch="@);
                if a.branch_name != b.branch_name {
                    lemma_same_end(
                        or_dash(a.branch_name),
                        or_dash(b.branch_name),
                        "|head="@ + end_a,
                    );
                } else {
                    lemma_same_start("|head="@ + end_a, "|head="@ + end_b, or_dash(a.branch_name));
                    lemma_same_start(end_a, end_b, "|head="@);
                    lemma_last_fields(
                        or_dash(a.head_commit),
                        or_dash(b.head_commit),
                        a.detached_head,
                        b.detached_head,
                    );
                }
            }
        }
    }
}

/// Projects outside Git with the same fingerprint are the same directory, and none of
/// their fingerprints is that of a Git context.
pub proof fn law_fingerprints_tell_projects_apart(
    a: Seq<char>,
    b: Seq<char>,
    git: GitContextView,
)
    ensures
        local_fingerprint(a) == local_fingerprint(b) ==> a == b,
        local_fingerprint(a) != git_fingerprint(git),
{
    reveal_strlit("local|root=");
    reveal_strlit("git|worktree=");
    if local_fingerprint(a) == local_fingerprint(b) {
        lemma_same_start(a, b, "local|root="@);
    }
    assert(local_fingerprint(a)[0] == 'l');
    assert(git_fingerprint(git)[0] == 'g');
}

} // verus!
