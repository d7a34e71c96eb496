//! Run-wide configuration and the description of one invocation: the URL
//! scheme override, the execution context, and the command built for one
//! target, together with the fixed-width label and line formatting used when
//! results are printed.

use vstd::prelude::*;

verus! {

/// URL scheme to force for git operations.
#[derive(Clone, Copy, PartialEq, Eq, Structural)]
pub enum UrlScheme {
    /// Force SSH remotes.
    Ssh,
    /// Force HTTPS remotes.
    Https,
}

/// The captured result of running one target's process: either the process
/// ran to completion (its exit state and captured output streams), or it
/// failed to start or to be collected (the error text).
///
/// A non-zero exit status is data inside `Success`, not a failure: the core
/// does not interpret the tool's exit codes.
pub enum ProcessOutcome {
    /// The process completed; `exit_ok` is whether its exit status reported
    /// success, and the two buffers are its captured stdout and stderr.
    Success { exit_ok: bool, stdout: Vec<u8>, stderr: Vec<u8> },
    /// The process could not be started, or its status or output could not
    /// be collected; `message` is the underlying error text.
    Failure { message: String },
}

/// One target's outcome tagged with its position in the discovery order: the
/// unit that crosses from the scheduler to the emitter. Exactly one is
/// produced per target.
pub struct IndexedOutcome {
    /// The target's position in the discovery order.
    pub index: usize,
    /// The target this outcome belongs to.
    pub target: String,
    /// The captured result.
    pub outcome: ProcessOutcome,
}

/// Execution context holding configuration for one run.
pub struct ExecutionContext {
    dry_run: bool,
    url_scheme: Option<UrlScheme>,
    max_connections: usize,
}

impl ExecutionContext {
    /// Whether this run only renders commands instead of executing them.
    pub closed spec fn spec_dry_run(&self) -> bool {
        self.dry_run
    }

    /// The URL scheme override for this run, if any.
    pub closed spec fn spec_url_scheme(&self) -> Option<UrlScheme> {
        self.url_scheme
    }

    /// The concurrency cap for this run; 0 means unlimited.
    pub closed spec fn spec_max_connections(&self) -> usize {
        self.max_connections
    }

    pub fn new(dry_run: bool, url_scheme: Option<UrlScheme>, max_connections: usize) -> (r: Self)
        ensures
            r.spec_dry_run() == dry_run,
            r.spec_url_scheme() == url_scheme,
            r.spec_max_connections() == max_connections,
    {
        Self { dry_run, url_scheme, max_connections }
    }

    pub fn is_dry_run(&self) -> (r: bool)
        ensures
            r == self.spec_dry_run(),
    {
        self.dry_run
    }

    pub fn url_scheme(&self) -> (r: Option<UrlScheme>)
        ensures
            r == self.spec_url_scheme(),
    {
        self.url_scheme
    }

    pub fn max_connections(&self) -> (r: usize)
        ensures
            r == self.spec_max_connections(),
    {
        self.max_connections
    }
}

/// A git command ready to be executed against one repository: the invocation
/// the run performs for one target. Starting the described process is the
/// caller's affair; the command itself only knows how to render the exact
/// invocation text.
pub struct GitCommand {
    /// The repository the command runs in.
    pub repo_path: String,
    /// The arguments handed to the tool after the repository selection.
    pub args: Vec<String>,
}

/// The configuration text inserted before the other arguments for a forced
/// URL scheme, followed by one space; empty when no scheme is forced.
pub open spec fn spec_scheme_args(scheme: Option<UrlScheme>) -> Seq<char> {
    match scheme {
        Some(UrlScheme::Ssh) => "-c \"url.git@github.com:.insteadOf=https://github.com/\" "@,
        Some(UrlScheme::Https) => "-c \"url.https://github.com/.insteadOf=git@github.com:\" "@,
        None => Seq::empty(),
    }
}

/// The arguments joined by single spaces, in order.
pub open spec fn spec_join_spaces(args: Seq<Seq<char>>) -> Seq<char>
    decreases args.len(),
{
    if args.len() == 0 {
        Seq::empty()
    } else if args.len() == 1 {
        args[0]
    } else {
        spec_join_spaces(args.drop_last()) + seq![' '] + args.last()
    }
}

/// The exact invocation text for one command under a scheme override:
/// `git <scheme args><-C> <repository> <joined arguments>`.
pub open spec fn spec_command_string(
    repo_path: Seq<char>,
    args: Seq<Seq<char>>,
    scheme: Option<UrlScheme>,
) -> Seq<char> {
    "git "@ + spec_scheme_args(scheme) + "-C "@ + repo_path + seq![' '] + spec_join_spaces(args)
}

/// The arguments joined by single spaces.
fn join_spaces(args: &Vec<String>) -> (r: String)
    ensures
        r@ == spec_join_spaces(args.deep_view()),
{
    let mut r = String::new();
    let mut i: usize = 0;
    while i < args.len()
        invariant
            i <= args@.len(),
            r@ == spec_join_spaces(args.deep_view().subrange(0, i as int)),
        decreases args@.len() - i,
    {
        if i > 0 {
            r.append(" ");
        }
        r.append(args[i].as_str());
        i = i + 1;
        proof {
            reveal_strlit(" ");
            let dv = args.deep_view();
            assert(dv.subrange(0, i as int).drop_last() =~= dv.subrange(0, i - 1));
            assert(dv.subrange(0, i as int).last() == dv[i - 1]);
            assert(r@ =~= spec_join_spaces(dv.subrange(0, i as int)));
        }
    }
    proof {
        assert(args.deep_view().subrange(0, args@.len() as int) =~= args.deep_view());
    }
    r
}

impl GitCommand {
    pub fn new(repo_path: String, args: Vec<String>) -> (r: Self)
        ensures
            r.repo_path == repo_path,
            r.args == args,
    {
        Self { repo_path, args }
    }

    /// Build the full command string for display (used in dry-run). The text
    /// is exactly the invocation the run would perform for this command.
    pub fn command_string_with_scheme(&self, url_scheme: Option<UrlScheme>) -> (r: String)
        ensures
            r@ == spec_command_string(self.repo_path@, self.args.deep_view(), url_scheme),
    {
        let mut s = String::new();
        s.append("git ");
        match url_scheme {
            Some(UrlScheme::Ssh) => {
                s.append("-c \"url.git@github.com:.insteadOf=https://github.com/\" ");
            },
            Some(UrlScheme::Https) => {
                s.append("-c \"url.https://github.com/.insteadOf=git@github.com:\" ");
            },
            None => {},
        }
        s.append("-C ");
        s.append(self.repo_path.as_str());
        s.append(" ");
        let joined = join_spaces(&self.args);
        s.append(joined.as_str());
        proof {
            reveal_strlit(" ");
            assert(s@ =~= spec_command_string(self.repo_path@, self.args.deep_view(), url_scheme));
        }
        s
    }
}

/// One rendered invocation line per command, in discovery order: the whole
/// of a dry run. No process is started; each line is exactly the text the
/// real run would execute for that target.
pub fn dry_run_lines(cmds: &Vec<GitCommand>, url_scheme: Option<UrlScheme>) -> (r: Vec<String>)
    ensures
        r@.len() == cmds@.len(),
        forall|k: int|
            0 <= k < r@.len() ==> #[trigger] r@[k]@ == spec_command_string(
                cmds@[k].repo_path@,
                cmds@[k].args.deep_view(),
                url_scheme,
            ),
{
    let mut r: Vec<String> = Vec::new();
    let mut i: usize = 0;
    while i < cmds.len()
        invariant
            i <= cmds@.len(),
            r@.len() == i,
            forall|k: int|
                0 <= k < i ==> #[trigger] r@[k]@ == spec_command_string(
                    cmds@[k].repo_path@,
                    cmds@[k].args.deep_view(),
                    url_scheme,
                ),
        decreases cmds@.len() - i,
    {
        let line = cmds[i].command_string_with_scheme(url_scheme);
        r.push(line);
        i = i + 1;
    }
    r
}

/// The fixed width of the repository label between the brackets.
pub const MAX_REPO_NAME_WIDTH: usize = 24;

/// `n` space characters.
pub open spec fn spec_spaces(n: nat) -> Seq<char>
    decreases n,
{
    if n == 0 {
        Seq::empty()
    } else {
        spec_spaces((n - 1) as nat).push(' ')
    }
}

/// Padding is as long as asked for, and is nothing but spaces.
pub proof fn lemma_spaces_len(n: nat)
    ensures
        spec_spaces(n).len() == n,
        forall|i: int| 0 <= i < n ==> spec_spaces(n)[i] == ' ',
    decreases n,
{
    if n > 0 {
        lemma_spaces_len((n - 1) as nat);
    }
}

/// The fixed-width bracketed label for a repository name: a name longer than
/// the width is cut to `width - 4` characters followed by `-...`; a shorter
/// one is padded with spaces; either way the text between the brackets is
/// exactly the width.
pub open spec fn spec_format_repo_name(name: Seq<char>) -> Seq<char> {
    if name.len() > MAX_REPO_NAME_WIDTH {
        seq!['['] + name.subrange(0, MAX_REPO_NAME_WIDTH - 4) + seq!['-', '.', '.', '.'] + seq![
            ']',
        ]
    } else {
        seq!['['] + name + spec_spaces((MAX_REPO_NAME_WIDTH - name.len()) as nat) + seq![']']
    }
}

/// Whatever the name, the label is always `MAX_REPO_NAME_WIDTH + 2`
/// characters: the width between the brackets never varies.
pub proof fn lemma_format_repo_name_len(name: Seq<char>)
    ensures
        spec_format_repo_name(name).len() == MAX_REPO_NAME_WIDTH + 2,
{
    if name.len() <= MAX_REPO_NAME_WIDTH {
        lemma_spaces_len((MAX_REPO_NAME_WIDTH - name.len()) as nat);
    }
}

/// Format a repository name with fixed width: truncate long names, pad short
/// ones.
pub fn format_repo_name(name: &str) -> (r: String)
    ensures
        r@ == spec_format_repo_name(name@),
        r@.len() == MAX_REPO_NAME_WIDTH + 2,
{
    proof {
        reveal_strlit("[");
        reveal_strlit("]");
        reveal_strlit("-...");
        reveal_strlit(" ");
        lemma_format_repo_name_len(name@);
    }
    let len = name.unicode_len();
    let mut s = String::new();
    s.append("[");
    if len > MAX_REPO_NAME_WIDTH {
        let prefix = name.substring_char(0, MAX_REPO_NAME_WIDTH - 4);
        s.append(prefix);
        s.append("-...");
        proof {
            assert(s@ =~= seq!['['] + name@.subrange(0, MAX_REPO_NAME_WIDTH - 4) + seq![
                '-',
                '.',
                '.',
                '.',
            ]);
        }
    } else {
        s.append(name);
        let mut k = len;
        proof {
            assert(s@ =~= seq!['['] + name@ + spec_spaces((k - len) as nat));
        }
        while k < MAX_REPO_NAME_WIDTH
            invariant
                len <= k <= MAX_REPO_NAME_WIDTH,
                s@ == seq!['['] + name@ + spec_spaces((k - len) as nat),
                len == name@.len(),
            decreases MAX_REPO_NAME_WIDTH - k,
        {
            s.append(" ");
            k = k + 1;
            proof {
                reveal_strlit(" ");
                assert(s@ =~= seq!['['] + name@ + spec_spaces((k - len) as nat));
            }
        }
    }
    s.append("]");
    proof {
        assert(s@ =~= spec_format_repo_name(name@));
    }
    s
}

/// The display line for a target whose process ran: the fixed-width label,
/// one space, and the formatted body.
pub open spec fn spec_result_line(name: Seq<char>, body: Seq<char>) -> Seq<char> {
    spec_format_repo_name(name) + seq![' '] + body
}

/// Render the display line for a target whose process ran. The body is the
/// formatter's text for the captured outcome.
pub fn render_result_line(name: &str, body: &str) -> (r: String)
    ensures
        r@ == spec_result_line(name@, body@),
{
    let mut s = format_repo_name(name);
    s.append(" ");
    s.append(body);
    proof {
        reveal_strlit(" ");
        assert(s@ =~= spec_result_line(name@, body@));
    }
    s
}

/// The display line for a target that failed: the fixed-width label, the
/// error marker, and the error text.
pub open spec fn spec_error_line(name: Seq<char>, message: Seq<char>) -> Seq<char> {
    spec_format_repo_name(name) + " ERROR: "@ + message
}

/// Render the display line for a target whose process failed to start or to
/// be collected.
pub fn render_error_line(name: &str, message: &str) -> (r: String)
    ensures
        r@ == spec_error_line(name@, message@),
{
    let mut s = format_repo_name(name);
    s.append(" ERROR: ");
    s.append(message);
    proof {
        assert(s@ =~= spec_error_line(name@, message@));
    }
    s
}

} // verus!
