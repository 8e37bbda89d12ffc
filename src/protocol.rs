//! The per-connection protocol handler: turns each command into work on the
//! sandbox (a process run through the container engine, or a call to the
//! settings store) and turns the results into the response.
//!
//! The handler is a state machine. `start` takes a command and returns the
//! first action; the caller performs it and hands the result to `resume`
//! (after a process run) or to `settings_loaded`, until an action is a
//! `Reply`. The caller sends that response under the id of the request.
use crate::messages::{
    enc_server, law_server_round_trip, server_from_bytes, strings_view, ClientMessage, Command,
    CommandView, ProjectTree, Response, ResponseView, ServerMessage, ServerMessageView, TreeView,
};
use vstd::prelude::*;
use vstd::string::{StrSliceExecFns, StringExecFns};

verus! {

broadcast use vstd::string::axiom_spec_iter;

// ----- text -----

/// Length of the first line of `s`, without its newline.
pub open spec fn line_len(s: Seq<char>) -> nat
    decreases s.len(),
{
    if s.len() == 0 || s[0] == '\n' {
        0
    } else {
        1 + line_len(s.drop_first())
    }
}

/// The non-empty lines of `s`, in order.
pub open spec fn entries_of(s: Seq<char>) -> Seq<Seq<char>>
    decreases s.len(),
{
    if s.len() == 0 {
        Seq::empty()
    } else {
        let n = line_len(s);
        let rest = if n < s.len() {
            s.skip(n + 1 as int)
        } else {
            Seq::empty()
        };
        if n == 0 {
            entries_of(rest)
        } else {
            seq![s.take(n as int)] + entries_of(rest)
        }
    }
}

proof fn lemma_line_len(s: Seq<char>, start: int, i: int)
    requires
        0 <= start <= i <= s.len(),
        forall|j: int| start <= j < i ==> s[j] != '\n',
        i == s.len() || s[i] == '\n',
    ensures
        line_len(s.skip(start)) == i - start,
    decreases i - start,
{
    let t = s.skip(start);
    if start < i {
        assert(t[0] == s[start]);
        assert(t.drop_first() =~= s.skip(start + 1));
        lemma_line_len(s, start + 1, i);
    } else if i < s.len() {
        assert(t[0] == s[i]);
    }
}

/// Splits `text` into its non-empty lines.
pub fn split_entries(text: &str) -> (r: Vec<String>)
    ensures
        strings_view(r@) == entries_of(text@),
{
    let ghost s = text@;
    let n = text.unicode_len();
    let mut out: Vec<String> = Vec::new();
    let mut start: usize = 0;
    let mut i: usize = 0;
    assert(s.skip(0) =~= s);
    assert(strings_view(out@) + entries_of(s) =~= entries_of(s));
    for c in it: text.chars()
        invariant
            s == text@,
            n == s.len(),
            it.seq() == s,
            i == it.index(),
            start <= i <= s.len(),
            forall|j: int| start <= j < i ==> s[j] != '\n',
            entries_of(s) == strings_view(out@) + entries_of(s.skip(start as int)),
    {
        assert(i < s.len());
        assert(c == s[i as int]);
        if c == '\n' {
            proof {
                lemma_line_len(s, start as int, i as int);
                let t = s.skip(start as int);
                assert(t.skip(i - start + 1) =~= s.skip(i + 1));
                assert(t.take(i - start) =~= s.subrange(start as int, i as int));
            }
            if start < i {
                let line = text.substring_char(start, i).to_owned();
                proof {
                    assert(strings_view(out@.push(line)) =~= strings_view(out@).push(line@));
                    assert(strings_view(out@) + entries_of(s.skip(start as int)) =~= strings_view(
                        out@,
                    ).push(line@) + entries_of(s.skip(i + 1)));
                }
                out.push(line);
            }
            start = i + 1;
        }
        i = i + 1;
    }
    proof {
        lemma_line_len(s, start as int, s.len() as int);
        let t = s.skip(start as int);
        assert(t.take(s.len() - start) =~= s.subrange(start as int, s.len() as int));
        assert(entries_of(Seq::<char>::empty()) == Seq::<Seq<char>>::empty());
    }
    if start < i {
        let line = text.substring_char(start, i).to_owned();
        proof {
            assert(strings_view(out@.push(line)) =~= strings_view(out@).push(line@));
            assert(strings_view(out@) + entries_of(s.skip(start as int)) =~= strings_view(
                out@,
            ).push(line@));
        }
        out.push(line);
    } else {
        assert(strings_view(out@) + entries_of(s.skip(start as int)) =~= strings_view(out@));
    }
    out
}

// ----- paths -----

/// Where the project volume is mounted inside every sandbox.
pub const WORKSPACE_PATH: &'static str = "/home/workspace";

/// The project's settings file, relative to the project root.
pub const SETTINGS_FILE: &'static str = ".ide/project.toml";

/// The hidden metadata directory that the project tree still shows.
pub const METADATA_DIR: &'static str = ".ide/";

pub open spec fn ends_with_slash(p: Seq<char>) -> bool {
    p.len() > 0 && p.last() == '/'
}

/// `name` inside directory `dir`.
pub open spec fn join(dir: Seq<char>, name: Seq<char>) -> Seq<char> {
    if ends_with_slash(dir) {
        dir + name
    } else {
        dir + seq!['/'] + name
    }
}

/// Each of `names` inside `dir`.
pub open spec fn join_all(dir: Seq<char>, names: Seq<Seq<char>>) -> Seq<Seq<char>> {
    names.map_values(|n: Seq<char>| join(dir, n))
}

pub fn path_ends_with_slash(p: &str) -> (r: bool)
    ensures
        r == ends_with_slash(p@),
{
    let n = p.unicode_len();
    n > 0 && p.get_char(n - 1) == '/'
}

/// `name` inside directory `dir`.
pub fn join_path(dir: &str, name: &str) -> (r: String)
    ensures
        r@ == join(dir@, name@),
{
    let mut out = dir.to_owned();
    if !path_ends_with_slash(dir) {
        out.append("/");
        proof {
            reveal_strlit("/");
        }
    }
    out.append(name);
    out
}

impl ProjectTree {
    /// A path names a directory when it ends in `/`; the directory's children
    /// are not listed yet.
    pub fn from_path(path: String) -> (r: ProjectTree)
        ensures
            ends_with_slash(path@) ==> r == (ProjectTree::Directory { path, children: r->children })
                && r->children@.len() == 0,
            !ends_with_slash(path@) ==> r == (ProjectTree::File { path }),
    {
        if path_ends_with_slash(path.as_str()) {
            ProjectTree::Directory { path, children: Vec::new() }
        } else {
            ProjectTree::File { path }
        }
    }

    pub fn path(&self) -> (r: &String)
        ensures
            r == (match self {
                ProjectTree::Directory { path, .. } => path,
                ProjectTree::File { path } => path,
            }),
    {
        match self {
            ProjectTree::Directory { path, .. } => path,
            ProjectTree::File { path } => path,
        }
    }
}

impl Response {
    /// The response itself, or an `Error` carrying the failure's message.
    pub fn from_result(res: Result<Response, String>) -> (r: Response)
        ensures
            r == (match res {
                Ok(resp) => resp,
                Err(msg) => Response::Error { msg },
            }),
    {
        match res {
            Ok(resp) => resp,
            Err(msg) => Response::Error { msg },
        }
    }
}

/// The response to `request`: it carries the request's id.
pub fn reply_to(request: &ClientMessage, resp: Response) -> (r: ServerMessage)
    ensures
        r.id == request.id,
        r.resp == resp,
{
    ServerMessage { id: request.id, resp }
}

// ----- listings -----

/// The entries of a listing that are directories (marked by a final `/`).
pub open spec fn dir_names(es: Seq<Seq<char>>) -> Seq<Seq<char>>
    decreases es.len(),
{
    if es.len() == 0 {
        Seq::empty()
    } else {
        let rest = dir_names(es.drop_last());
        if ends_with_slash(es.last()) {
            rest.push(es.last())
        } else {
            rest
        }
    }
}

proof fn lemma_dir_names_end_with_slash(es: Seq<Seq<char>>)
    ensures
        forall|i: int| 0 <= i < dir_names(es).len() ==> ends_with_slash(#[trigger] dir_names(es)[i]),
    decreases es.len(),
{
    if es.len() > 0 {
        lemma_dir_names_end_with_slash(es.drop_last());
        let rest = dir_names(es.drop_last());
        assert forall|i: int| 0 <= i < dir_names(es).len() implies ends_with_slash(
            #[trigger] dir_names(es)[i],
        ) by {
            if i < rest.len() {
                assert(dir_names(es)[i] == rest[i]);
            }
        }
    }
}

/// The project tree hides dot entries, but for the metadata directory.
pub open spec fn shown(e: Seq<char>) -> bool {
    !(e.len() > 0 && e[0] == '.') || e == METADATA_DIR@
}

/// The paths of the shown entries of a listing of `root`.
pub open spec fn tree_children(root: Seq<char>, es: Seq<Seq<char>>) -> Seq<Seq<char>>
    decreases es.len(),
{
    if es.len() == 0 {
        Seq::empty()
    } else {
        let rest = tree_children(root, es.drop_last());
        if shown(es.last()) {
            rest.push(join(root, es.last()))
        } else {
            rest
        }
    }
}

/// The project directory found in a listing of the mount: the one directory
/// there, if there is exactly one.
pub open spec fn project_dir(es: Seq<Seq<char>>) -> Option<Seq<char>> {
    if dir_names(es).len() == 1 {
        Some(dir_names(es)[0])
    } else {
        None
    }
}

/// The project root for a directory entry of the mount listing.
pub open spec fn root_for(entry: Seq<char>) -> Seq<char> {
    join(WORKSPACE_PATH@, entry.drop_last())
}

fn directories(es: &Vec<String>) -> (r: Vec<String>)
    ensures
        strings_view(r@) == dir_names(strings_view(es@)),
{
    let ghost v = strings_view(es@);
    let mut out: Vec<String> = Vec::new();
    let mut i: usize = 0;
    assert(v.take(0) =~= Seq::<Seq<char>>::empty());
    assert(strings_view(out@) =~= Seq::<Seq<char>>::empty());
    while i < es.len()
        invariant
            i <= es@.len(),
            v == strings_view(es@),
            strings_view(out@) == dir_names(v.take(i as int)),
        decreases es@.len() - i,
    {
        assert(v.take(i + 1).drop_last() =~= v.take(i as int));
        assert(v.take(i + 1).last() == es@[i as int]@);
        if path_ends_with_slash(es[i].as_str()) {
            let e = es[i].clone();
            assert(strings_view(out@.push(e)) =~= strings_view(out@).push(e@));
            out.push(e);
        }
        i = i + 1;
    }
    assert(v.take(es@.len() as int) =~= v);
    out
}

fn is_shown(e: &String) -> (r: bool)
    ensures
        r == shown(e@),
{
    let meta = String::from_str(METADATA_DIR);
    let n = e.as_str().unicode_len();
    let hidden = n > 0 && e.as_str().get_char(0) == '.';
    !hidden || e.eq(&meta)
}

fn children_paths(root: &str, es: &Vec<String>) -> (r: Vec<String>)
    ensures
        strings_view(r@) == tree_children(root@, strings_view(es@)),
{
    let ghost v = strings_view(es@);
    let mut out: Vec<String> = Vec::new();
    let mut i: usize = 0;
    assert(v.take(0) =~= Seq::<Seq<char>>::empty());
    assert(strings_view(out@) =~= Seq::<Seq<char>>::empty());
    while i < es.len()
        invariant
            i <= es@.len(),
            v == strings_view(es@),
            strings_view(out@) == tree_children(root@, v.take(i as int)),
        decreases es@.len() - i,
    {
        assert(v.take(i + 1).drop_last() =~= v.take(i as int));
        assert(v.take(i + 1).last() == es@[i as int]@);
        if is_shown(&es[i]) {
            let p = join_path(root, es[i].as_str());
            assert(strings_view(out@.push(p)) =~= strings_view(out@).push(p@));
            out.push(p);
        }
        i = i + 1;
    }
    assert(v.take(es@.len() as int) =~= v);
    out
}

fn join_each(dir: &str, es: &Vec<String>) -> (r: Vec<String>)
    ensures
        strings_view(r@) == join_all(dir@, strings_view(es@)),
{
    let mut out: Vec<String> = Vec::new();
    let mut i: usize = 0;
    while i < es.len()
        invariant
            i <= es@.len(),
            strings_view(out@) == join_all(dir@, strings_view(es@)).take(i as int),
        decreases es@.len() - i,
    {
        let p = join_path(dir, es[i].as_str());
        assert(strings_view(es@)[i as int] == es@[i as int]@);
        assert(join_all(dir@, strings_view(es@))[i as int] == p@);
        assert(strings_view(out@.push(p)) =~= strings_view(out@).push(p@));
        assert(join_all(dir@, strings_view(es@)).take(i + 1) =~= join_all(
            dir@,
            strings_view(es@),
        ).take(i as int).push(p@));
        out.push(p);
        i = i + 1;
    }
    assert(join_all(dir@, strings_view(es@)).take(es@.len() as int) =~= join_all(
        dir@,
        strings_view(es@),
    ));
    out
}

// ----- the handler -----

/// The shell script that writes its standard input to the file `$0`.
pub const WRITE_SCRIPT: &'static str = "cat > \"$0\"";

pub const NO_PROJECT: &'static str = "no project is open on this connection";

pub const NO_PROJECT_DIR: &'static str = "the workspace does not hold exactly one project directory";

pub const NOT_SUPPORTED: &'static str = "this command is not supported";

/// One process to run in the sandbox: its arguments, the directory to run
/// it in, and the text to write to its input before closing it.
#[derive(Clone, Debug)]
pub struct ExecRequest {
    pub argv: Vec<String>,
    pub workdir: Option<String>,
    pub stdin: Option<String>,
}

/// What a process run gave back: its combined output, its exit code (when
/// the engine reported one) and its process id (when known).
#[derive(Clone, Debug)]
pub struct ExecOutcome {
    pub output: String,
    pub exit_code: Option<i64>,
    pub pid: Option<i64>,
}

/// What the handler does with the outcome of the process it asked for.
#[derive(Clone, Debug)]
pub enum Continuation {
    ListMount,
    ListRoot { root: String },
    ReadSettings,
    Run,
    ReadFile,
    ReadDir { path: String },
    Done,
}

/// The next thing to do for the command in progress.
#[derive(Clone, Debug)]
pub enum Action {
    /// Run `request` in the sandbox, then pass the outcome and `then` to
    /// `Connection::resume`.
    Exec { request: ExecRequest, then: Continuation },
    /// Fetch the user's editor settings, then pass them and `tree` to
    /// `Connection::settings_loaded`.
    LoadSettings { tree: ProjectTree },
    /// Store `contents` as the user's editor settings, then pass the result
    /// to `Connection::settings_stored`.
    StoreSettings { contents: String },
    /// Send `resp`; the command is done.
    Reply { resp: Response },
}

/// The execution state of one connection: the project root found by
/// `OpenProject` and the id of the last process started by `Run`.
#[derive(Debug)]
pub struct Connection {
    project_root: Option<String>,
    last_pid: Option<i64>,
}

pub struct ExecView {
    pub argv: Seq<Seq<char>>,
    pub workdir: Option<Seq<char>>,
    pub stdin: Option<Seq<char>>,
}

pub struct OutcomeView {
    pub output: Seq<char>,
    pub exit_code: Option<i64>,
    pub pid: Option<i64>,
}

pub enum ContinuationView {
    ListMount,
    ListRoot { root: Seq<char> },
    ReadSettings,
    Run,
    ReadFile,
    ReadDir { path: Seq<char> },
    Done,
}

pub enum ActionView {
    Exec { request: ExecView, then: ContinuationView },
    LoadSettings { tree: TreeView },
    StoreSettings { contents: Seq<char> },
    Reply { resp: ResponseView },
}

pub struct ConnectionView {
    pub project_root: Option<Seq<char>>,
    pub last_pid: Option<i64>,
}

pub open spec fn opt_view(o: Option<String>) -> Option<Seq<char>> {
    match o {
        Some(s) => Some(s@),
        None => None,
    }
}

impl View for ExecRequest {
    type V = ExecView;

    open spec fn view(&self) -> ExecView {
        ExecView {
            argv: strings_view(self.argv@),
            workdir: opt_view(self.workdir),
            stdin: opt_view(self.stdin),
        }
    }
}

impl View for ExecOutcome {
    type V = OutcomeView;

    open spec fn view(&self) -> OutcomeView {
        OutcomeView { output: self.output@, exit_code: self.exit_code, pid: self.pid }
    }
}

impl View for Continuation {
    type V = ContinuationView;

    open spec fn view(&self) -> ContinuationView {
        match self {
            Continuation::ListMount => ContinuationView::ListMount,
            Continuation::ListRoot { root } => ContinuationView::ListRoot { root: root@ },
            Continuation::ReadSettings => ContinuationView::ReadSettings,
            Continuation::Run => ContinuationView::Run,
            Continuation::ReadFile => ContinuationView::ReadFile,
            Continuation::ReadDir { path } => ContinuationView::ReadDir { path: path@ },
            Continuation::Done => ContinuationView::Done,
        }
    }
}

impl View for Action {
    type V = ActionView;

    open spec fn view(&self) -> ActionView {
        match self {
            Action::Exec { request, then } => ActionView::Exec { request: request@, then: then@ },
            Action::LoadSettings { tree } => ActionView::LoadSettings { tree: tree@ },
            Action::StoreSettings { contents } => ActionView::StoreSettings { contents: contents@ },
            Action::Reply { resp } => ActionView::Reply { resp: resp@ },
        }
    }
}

impl View for Connection {
    type V = ConnectionView;

    closed spec fn view(&self) -> ConnectionView {
        ConnectionView { project_root: opt_view(self.project_root), last_pid: self.last_pid }
    }
}

pub open spec fn run(argv: Seq<Seq<char>>, then: ContinuationView) -> ActionView {
    ActionView::Exec { request: ExecView { argv, workdir: None, stdin: None }, then }
}

pub open spec fn reply(resp: ResponseView) -> ActionView {
    ActionView::Reply { resp }
}

pub open spec fn fail(msg: Seq<char>) -> ActionView {
    ActionView::Reply { resp: ResponseView::Error { msg } }
}

pub const EXITED_WITH: &'static str = "the command printed nothing and exited with code ";

pub const NO_EXIT_CODE: &'static str = "the command printed nothing and reported no exit code";

pub open spec fn digit_char(d: nat) -> char {
    if d == 0 {
        '0'
    } else if d == 1 {
        '1'
    } else if d == 2 {
        '2'
    } else if d == 3 {
        '3'
    } else if d == 4 {
        '4'
    } else if d == 5 {
        '5'
    } else if d == 6 {
        '6'
    } else if d == 7 {
        '7'
    } else if d == 8 {
        '8'
    } else {
        '9'
    }
}

/// The decimal digits of `n`.
pub open spec fn decimal(n: nat) -> Seq<char>
    decreases n,
{
    if n < 10 {
        seq![digit_char(n)]
    } else {
        decimal(n / 10).push(digit_char(n % 10))
    }
}

/// An exit code as text, with a minus sign when negative.
pub open spec fn code_text(c: i64) -> Seq<char> {
    if c < 0 {
        seq!['-'] + decimal((-c) as nat)
    } else {
        decimal(c as nat)
    }
}

/// The message of a failed run: its output, or, when it printed nothing,
/// what is known of its exit.
pub open spec fn failure_message(out: OutcomeView) -> Seq<char> {
    if out.output.len() > 0 {
        out.output
    } else {
        match out.exit_code {
            Some(c) => EXITED_WITH@ + code_text(c),
            None => NO_EXIT_CODE@,
        }
    }
}

/// A failed run always has a message to show.
pub proof fn lemma_failure_message_not_empty(out: OutcomeView)
    ensures
        failure_message(out).len() > 0,
{
    reveal_strlit("the command printed nothing and exited with code ");
    reveal_strlit("the command printed nothing and reported no exit code");
}

/// The first action for `cmd`.
pub open spec fn start_spec(c: ConnectionView, cmd: CommandView) -> ActionView {
    match cmd {
        CommandView::OpenProject => run(
            seq!["ls"@, "-Ap"@, "--"@, WORKSPACE_PATH@],
            ContinuationView::ListMount,
        ),
        CommandView::ReadSettings { .. } => match c.project_root {
            Some(root) => run(
                seq!["cat"@, "--"@, join(root, SETTINGS_FILE@)],
                ContinuationView::ReadSettings,
            ),
            None => fail(NO_PROJECT@),
        },
        CommandView::UpdateSettings { contents } => ActionView::StoreSettings { contents },
        CommandView::Run { command } => ActionView::Exec {
            request: ExecView {
                argv: seq!["sh"@, "-c"@, command],
                workdir: Some(
                    match c.project_root {
                        Some(root) => root,
                        None => WORKSPACE_PATH@,
                    },
                ),
                stdin: None,
            },
            then: ContinuationView::Run,
        },
        CommandView::ReadFile { path } => run(seq!["cat"@, "--"@, path], ContinuationView::ReadFile),
        CommandView::ReadDir { path } => run(
            seq!["ls"@, "-Ap"@, "--"@, path],
            ContinuationView::ReadDir { path },
        ),
        CommandView::WriteFile { path, contents } => ActionView::Exec {
            request: ExecView {
                argv: seq!["sh"@, "-c"@, WRITE_SCRIPT@, path],
                workdir: None,
                stdin: Some(contents),
            },
            then: ContinuationView::Done,
        },
        CommandView::Delete { path } => run(seq!["rm"@, "-rf"@, "--"@, path], ContinuationView::Done),
        CommandView::Rename { from, to } => run(
            seq!["mv"@, "--"@, from, to],
            ContinuationView::Done,
        ),
        CommandView::StopRunning => fail(NOT_SUPPORTED@),
    }
}

/// The state and the next action after a process run.
pub open spec fn resume_spec(c: ConnectionView, then: ContinuationView, out: OutcomeView) -> (
    ConnectionView,
    ActionView,
) {
    let ok = out.exit_code == Some(0i64);
    match then {
        ContinuationView::ListMount => if !ok {
            (c, fail(failure_message(out)))
        } else {
            match project_dir(entries_of(out.output)) {
                None => (c, fail(NO_PROJECT_DIR@)),
                Some(d) => {
                    let root = root_for(d);
                    (
                        ConnectionView { project_root: Some(root), last_pid: c.last_pid },
                        run(seq!["ls"@, "-Ap"@, "--"@, root], ContinuationView::ListRoot { root }),
                    )
                },
            }
        },
        ContinuationView::ListRoot { root } => if !ok {
            (c, fail(failure_message(out)))
        } else {
            (
                c,
                ActionView::LoadSettings {
                    tree: TreeView::Directory {
                        path: join(root, Seq::empty()),
                        children: tree_children(root, entries_of(out.output)),
                    },
                },
            )
        },
        ContinuationView::ReadSettings => (
            c,
            if ok {
                reply(ResponseView::ProjectSettings { contents: out.output })
            } else {
                fail(failure_message(out))
            },
        ),
        ContinuationView::Run => (
            ConnectionView { project_root: c.project_root, last_pid: out.pid },
            reply(ResponseView::Output { output: out.output }),
        ),
        ContinuationView::ReadFile => (
            c,
            if ok {
                reply(ResponseView::FileContents { contents: out.output })
            } else {
                fail(failure_message(out))
            },
        ),
        ContinuationView::ReadDir { path } => (
            c,
            if ok {
                reply(
                    ResponseView::DirContents {
                        contents_paths: join_all(path, entries_of(out.output)),
                    },
                )
            } else {
                fail(failure_message(out))
            },
        ),
        ContinuationView::Done => (c, if ok {
            reply(ResponseView::Success)
        } else {
            fail(failure_message(out))
        }),
    }
}

fn text(s: &'static str) -> (r: String)
    ensures
        r@ == s@,
{
    String::from_str(s)
}

fn run_action(argv: Vec<String>, then: Continuation) -> (r: Action)
    ensures
        r@ == run(strings_view(argv@), then@),
{
    Action::Exec { request: ExecRequest { argv, workdir: None, stdin: None }, then }
}

fn fail_action(msg: String) -> (r: Action)
    ensures
        r@ == fail(msg@),
{
    Action::Reply { resp: Response::Error { msg } }
}

fn digit_text(d: u64) -> (r: &'static str)
    requires
        d < 10,
    ensures
        r@ == seq![digit_char(d as nat)],
{
    proof {
        reveal_strlit("0");
        reveal_strlit("1");
        reveal_strlit("2");
        reveal_strlit("3");
        reveal_strlit("4");
        reveal_strlit("5");
        reveal_strlit("6");
        reveal_strlit("7");
        reveal_strlit("8");
        reveal_strlit("9");
    }
    if d == 0 {
        "0"
    } else if d == 1 {
        "1"
    } else if d == 2 {
        "2"
    } else if d == 3 {
        "3"
    } else if d == 4 {
        "4"
    } else if d == 5 {
        "5"
    } else if d == 6 {
        "6"
    } else if d == 7 {
        "7"
    } else if d == 8 {
        "8"
    } else {
        "9"
    }
}

fn write_decimal(out: &mut String, n: u64)
    ensures
        final(out)@ == old(out)@ + decimal(n as nat),
    decreases n,
{
    if n >= 10 {
        write_decimal(out, n / 10);
    }
    out.append(digit_text(n % 10));
    assert(final(out)@ =~= old(out)@ + decimal(n as nat));
}

fn fail_outcome(outcome: ExecOutcome) -> (r: Action)
    ensures
        r@ == fail(failure_message(outcome@)),
{
    if outcome.output.as_str().unicode_len() > 0 {
        return fail_action(outcome.output);
    }
    let msg = match outcome.exit_code {
        Some(c) => {
            let mut m = text(EXITED_WITH);
            if c < 0 {
                m.append("-");
                proof {
                    reveal_strlit("-");
                }
                let magnitude = (0i128 - c as i128) as u64;
                write_decimal(&mut m, magnitude);
            } else {
                write_decimal(&mut m, c as u64);
            }
            assert(m@ =~= EXITED_WITH@ + code_text(c));
            m
        },
        None => text(NO_EXIT_CODE),
    };
    fail_action(msg)
}

impl Connection {
    pub fn new() -> (r: Self)
        ensures
            r@ == (ConnectionView { project_root: None, last_pid: None }),
    {
        Connection { project_root: None, last_pid: None }
    }

    /// The project root that `OpenProject` found, if it ran.
    pub fn project_root(&self) -> (r: Option<&String>)
        ensures
            r matches Some(root) ==> self@.project_root == Some(root@),
            r is None ==> self@.project_root is None,
    {
        self.project_root.as_ref()
    }

    /// The id of the process that the last `Run` started, if known.
    pub fn last_pid(&self) -> (r: Option<i64>)
        ensures
            r == self@.last_pid,
    {
        self.last_pid
    }

    /// The first action for `cmd`.
    pub fn start(&self, cmd: &Command) -> (r: Action)
        ensures
            r@ == start_spec(self@, cmd@),
    {
        match cmd {
            Command::OpenProject => {
                let argv = vec![text("ls"), text("-Ap"), text("--"), text(WORKSPACE_PATH)];
                proof {
                    assert(strings_view(argv@) =~= seq!["ls"@, "-Ap"@, "--"@, WORKSPACE_PATH@]);
                }
                run_action(argv, Continuation::ListMount)
            },
            Command::ReadSettings { .. } => match &self.project_root {
                Some(root) => {
                    let argv = vec![text("cat"), text("--"), join_path(root.as_str(), SETTINGS_FILE)];
                    proof {
                        assert(strings_view(argv@) =~= seq![
                            "cat"@,
                            "--"@,
                            join(root@, SETTINGS_FILE@),
                        ]);
                    }
                    run_action(argv, Continuation::ReadSettings)
                },
                None => fail_action(text(NO_PROJECT)),
            },
            Command::UpdateSettings { contents } => Action::StoreSettings {
                contents: contents.clone(),
            },
            Command::Run { command } => {
                let argv = vec![text("sh"), text("-c"), command.clone()];
                proof {
                    assert(strings_view(argv@) =~= seq!["sh"@, "-c"@, command@]);
                }
                let workdir = match &self.project_root {
                    Some(root) => root.clone(),
                    None => text(WORKSPACE_PATH),
                };
                Action::Exec {
                    request: ExecRequest { argv, workdir: Some(workdir), stdin: None },
                    then: Continuation::Run,
                }
            },
            Command::ReadFile { path } => {
                let argv = vec![text("cat"), text("--"), path.clone()];
                proof {
                    assert(strings_view(argv@) =~= seq!["cat"@, "--"@, path@]);
                }
                run_action(argv, Continuation::ReadFile)
            },
            Command::ReadDir { path } => {
                let argv = vec![text("ls"), text("-Ap"), text("--"), path.clone()];
                proof {
                    assert(strings_view(argv@) =~= seq!["ls"@, "-Ap"@, "--"@, path@]);
                }
                run_action(argv, Continuation::ReadDir { path: path.clone() })
            },
            Command::WriteFile { path, contents } => {
                let argv = vec![text("sh"), text("-c"), text(WRITE_SCRIPT), path.clone()];
                proof {
                    assert(strings_view(argv@) =~= seq!["sh"@, "-c"@, WRITE_SCRIPT@, path@]);
                }
                Action::Exec {
                    request: ExecRequest { argv, workdir: None, stdin: Some(contents.clone()) },
                    then: Continuation::Done,
                }
            },
            Command::Delete { path } => {
                let argv = vec![text("rm"), text("-rf"), text("--"), path.clone()];
                proof {
                    assert(strings_view(argv@) =~= seq!["rm"@, "-rf"@, "--"@, path@]);
                }
                run_action(argv, Continuation::Done)
            },
            Command::Rename { from, to } => {
                let argv = vec![text("mv"), text("--"), from.clone(), to.clone()];
                proof {
                    assert(strings_view(argv@) =~= seq!["mv"@, "--"@, from@, to@]);
                }
                run_action(argv, Continuation::Done)
            },
            Command::StopRunning => fail_action(text(NOT_SUPPORTED)),
        }
    }

    /// The next action once the process that `then` waited for has run.
    pub fn resume(&mut self, then: Continuation, outcome: ExecOutcome) -> (r: Action)
        ensures
            (final(self)@, r@) == resume_spec(old(self)@, then@, outcome@),
    {
        let ok = match outcome.exit_code {
            Some(code) => code == 0,
            None => false,
        };
        match then {
            Continuation::ListMount => {
                if !ok {
                    return fail_outcome(outcome);
                }
                let entries = split_entries(outcome.output.as_str());
                let dirs = directories(&entries);
                if dirs.len() != 1 {
                    return fail_action(text(NO_PROJECT_DIR));
                }
                proof {
                    lemma_dir_names_end_with_slash(strings_view(entries@));
                    assert(ends_with_slash(strings_view(dirs@)[0]));
                }
                let d = dirs[0].as_str();
                let n = d.unicode_len();
                let name = d.substring_char(0, n - 1);
                assert(name@ =~= dirs@[0]@.drop_last());
                let root = join_path(WORKSPACE_PATH, name);
                let argv = vec![text("ls"), text("-Ap"), text("--"), root.clone()];
                proof {
                    assert(strings_view(argv@) =~= seq!["ls"@, "-Ap"@, "--"@, root@]);
                }
                self.project_root = Some(root.clone());
                run_action(argv, Continuation::ListRoot { root })
            },
            Continuation::ListRoot { root } => {
                if !ok {
                    return fail_outcome(outcome);
                }
                let entries = split_entries(outcome.output.as_str());
                let children = children_paths(root.as_str(), &entries);
                let path = join_path(root.as_str(), "");
                proof {
                    reveal_strlit("");
                }
                Action::LoadSettings { tree: ProjectTree::Directory { path, children } }
            },
            Continuation::ReadSettings => {
                if ok {
                    Action::Reply { resp: Response::ProjectSettings { contents: outcome.output } }
                } else {
                    fail_outcome(outcome)
                }
            },
            Continuation::Run => {
                self.last_pid = outcome.pid;
                Action::Reply { resp: Response::Output { output: outcome.output } }
            },
            Continuation::ReadFile => {
                if ok {
                    Action::Reply { resp: Response::FileContents { contents: outcome.output } }
                } else {
                    fail_outcome(outcome)
                }
            },
            Continuation::ReadDir { path } => {
                if ok {
                    let entries = split_entries(outcome.output.as_str());
                    let paths = join_each(path.as_str(), &entries);
                    Action::Reply { resp: Response::DirContents { contents_paths: paths } }
                } else {
                    fail_outcome(outcome)
                }
            },
            Continuation::Done => {
                if ok {
                    Action::Reply { resp: Response::Success }
                } else {
                    fail_outcome(outcome)
                }
            },
        }
    }

    /// The response to `OpenProject` once the settings store answered.
    pub fn settings_loaded(tree: ProjectTree, settings: Result<String, String>) -> (r: Response)
        ensures
            r == (match settings {
                Ok(s) => Response::ProjectContents { contents: tree, settings: s },
                Err(msg) => Response::Error { msg },
            }),
    {
        match settings {
            Ok(s) => Response::ProjectContents { contents: tree, settings: s },
            Err(msg) => Response::Error { msg },
        }
    }

    /// The response to `UpdateSettings` once the settings store answered.
    pub fn settings_stored(result: Result<(), String>) -> (r: Response)
        ensures
            r == (match result {
                Ok(()) => Response::Success,
                Err(msg) => Response::Error { msg },
            }),
    {
        match result {
            Ok(()) => Response::Success,
            Err(msg) => Response::Error { msg },
        }
    }
}

/// Every response goes out under the id of the request it answers, and the
/// client reads that same id, with that same response, back from the frame.
pub proof fn law_reply_correlates(request: ClientMessage, resp: Response)
    requires
        enc_server(ServerMessageView { id: request.id@, resp: resp@ }).len() <= usize::MAX,
    ensures
        server_from_bytes(enc_server(ServerMessageView { id: request.id@, resp: resp@ })) == Some(
            ServerMessageView { id: request@.id, resp: resp@ },
        ),
{
    let m = ServerMessage { id: request.id, resp };
    law_server_round_trip(m);
}

/// A successful directory listing answers with the path of every entry the
/// listing shows, inside the listed directory, whatever order the entries
/// were created in.
pub proof fn law_read_dir_lists_every_entry(
    c: ConnectionView,
    path: Seq<char>,
    out: OutcomeView,
    name: Seq<char>,
)
    requires
        out.exit_code == Some(0i64),
        entries_of(out.output).contains(name),
    ensures
        resume_spec(c, ContinuationView::ReadDir { path }, out).1 matches ActionView::Reply {
            resp: ResponseView::DirContents { contents_paths },
        } && contents_paths.contains(join(path, name)),
{
    let es = entries_of(out.output);
    let k = choose|k: int| 0 <= k < es.len() && es[k] == name;
    assert(join_all(path, es)[k] == join(path, name));
}

} // verus!
