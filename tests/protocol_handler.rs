use std::collections::BTreeMap;

use ide_backend::messages::{ClientMessage, Command, MessageId, ProjectTree, Response};
use ide_backend::protocol::{
    join_path, reply_to, split_entries, Action, Connection, Continuation, ExecOutcome, ExecRequest,
    WORKSPACE_PATH, WRITE_SCRIPT,
};

/// A stand-in for a sandbox: a map from file path to contents, and the few
/// programs the handler runs.
struct FakeSandbox {
    files: BTreeMap<String, String>,
    runs: Vec<ExecRequest>,
    settings: String,
}

impl FakeSandbox {
    fn new() -> Self {
        FakeSandbox { files: BTreeMap::new(), runs: vec![], settings: "auto_save = true".to_string() }
    }

    fn ok(output: String) -> ExecOutcome {
        ExecOutcome { output, exit_code: Some(0), pid: Some(42) }
    }

    fn failed(output: &str) -> ExecOutcome {
        ExecOutcome { output: output.to_string(), exit_code: Some(1), pid: Some(43) }
    }

    fn list(&self, dir: &str) -> ExecOutcome {
        let prefix = if dir.ends_with('/') { dir.to_string() } else { format!("{}/", dir) };
        let mut names: Vec<String> = vec![];
        for path in self.files.keys() {
            if let Some(rest) = path.strip_prefix(&prefix) {
                let name = match rest.find('/') {
                    Some(i) => format!("{}/", &rest[..i]),
                    None => rest.to_string(),
                };
                if !names.contains(&name) {
                    names.push(name);
                }
            }
        }
        if names.is_empty() {
            return Self::failed("ls: cannot access: No such file or directory\n");
        }
        Self::ok(names.iter().map(|n| format!("{}\n", n)).collect())
    }

    fn exec(&mut self, req: &ExecRequest) -> ExecOutcome {
        self.runs.push(req.clone());
        let argv: Vec<&str> = req.argv.iter().map(|s| s.as_str()).collect();
        match argv.as_slice() {
            ["cat", "--", path] => match self.files.get(*path) {
                Some(c) => Self::ok(c.clone()),
                None => Self::failed("cat: No such file or directory\n"),
            },
            ["ls", "-Ap", "--", dir] => self.list(dir),
            ["sh", "-c", script, path] if *script == WRITE_SCRIPT => {
                self.files.insert(path.to_string(), req.stdin.clone().unwrap_or_default());
                Self::ok(String::new())
            }
            ["sh", "-c", command] => match command.strip_prefix("echo ") {
                Some(text) => Self::ok(format!("{}\n", text)),
                None => Self::failed("sh: not found\n"),
            },
            ["rm", "-rf", "--", path] => {
                self.files.remove(*path);
                Self::ok(String::new())
            }
            ["mv", "--", from, to] => match self.files.remove(*from) {
                Some(c) => {
                    self.files.insert(to.to_string(), c);
                    Self::ok(String::new())
                }
                None => Self::failed("mv: cannot stat\n"),
            },
            _ => Self::failed("unknown program\n"),
        }
    }

    fn run(&mut self, conn: &mut Connection, cmd: &Command) -> Response {
        let mut action = conn.start(cmd);
        loop {
            action = match action {
                Action::Exec { request, then } => {
                    let outcome = self.exec(&request);
                    conn.resume(then, outcome)
                }
                Action::LoadSettings { tree } => {
                    return Connection::settings_loaded(tree, Ok(self.settings.clone()));
                }
                Action::StoreSettings { contents } => {
                    self.settings = contents;
                    return Connection::settings_stored(Ok(()));
                }
                Action::Reply { resp } => return resp,
            }
        }
    }
}

fn show(r: &Response) -> String {
    format!("{:?}", r)
}

#[test]
fn write_then_read_returns_contents() {
    let mut sb = FakeSandbox::new();
    let mut conn = Connection::new();
    let w = sb.run(&mut conn, &Command::WriteFile { path: "/root/a.txt".to_string(), contents: "hello".to_string() });
    assert!(matches!(w, Response::Success), "{}", show(&w));
    let r = sb.run(&mut conn, &Command::ReadFile { path: "/root/a.txt".to_string() });
    match r {
        Response::FileContents { contents } => assert_eq!(contents, "hello"),
        other => panic!("unexpected {}", show(&other)),
    }
}

#[test]
fn read_dir_lists_both_written_files() {
    for order in [["a.txt", "b.txt"], ["b.txt", "a.txt"]] {
        let mut sb = FakeSandbox::new();
        let mut conn = Connection::new();
        for name in order {
            let path = format!("/root/{}", name);
            let w = sb.run(&mut conn, &Command::WriteFile { path, contents: "x".to_string() });
            assert!(matches!(w, Response::Success));
        }
        match sb.run(&mut conn, &Command::ReadDir { path: "/root".to_string() }) {
            Response::DirContents { contents_paths } => {
                assert!(contents_paths.contains(&"/root/a.txt".to_string()));
                assert!(contents_paths.contains(&"/root/b.txt".to_string()));
                assert_eq!(contents_paths.len(), 2);
            }
            other => panic!("unexpected {}", show(&other)),
        }
    }
}

#[test]
fn run_echo_returns_its_output() {
    let mut sb = FakeSandbox::new();
    sb.files.insert("/home/workspace/proj/main.py".to_string(), "print(1)".to_string());
    let mut conn = Connection::new();
    let open = sb.run(&mut conn, &Command::OpenProject);
    assert!(matches!(open, Response::ProjectContents { .. }), "{}", show(&open));
    match sb.run(&mut conn, &Command::Run { command: "echo hi".to_string() }) {
        Response::Output { output } => assert!(output.contains("hi")),
        other => panic!("unexpected {}", show(&other)),
    }
    assert_eq!(conn.last_pid(), Some(42));
    let last = sb.runs.last().unwrap();
    assert_eq!(last.argv, vec!["sh".to_string(), "-c".to_string(), "echo hi".to_string()]);
    assert_eq!(last.workdir, Some("/home/workspace/proj".to_string()));
}

#[test]
fn open_project_lists_root_and_metadata_dir() {
    let mut sb = FakeSandbox::new();
    sb.files.insert("/home/workspace/proj/main.py".to_string(), String::new());
    sb.files.insert("/home/workspace/proj/src/lib.py".to_string(), String::new());
    sb.files.insert("/home/workspace/proj/.git/HEAD".to_string(), String::new());
    sb.files.insert("/home/workspace/proj/.ide/project.toml".to_string(), "run_command = \"python main.py\"".to_string());
    let mut conn = Connection::new();
    match sb.run(&mut conn, &Command::OpenProject) {
        Response::ProjectContents { contents: ProjectTree::Directory { path, children }, settings } => {
            assert_eq!(path, "/home/workspace/proj/");
            assert_eq!(settings, "auto_save = true");
            assert!(children.contains(&"/home/workspace/proj/main.py".to_string()));
            assert!(children.contains(&"/home/workspace/proj/src/".to_string()));
            assert!(children.contains(&"/home/workspace/proj/.ide/".to_string()));
            assert!(!children.iter().any(|c| c.contains(".git")));
        }
        other => panic!("unexpected {}", show(&other)),
    }
    assert_eq!(conn.project_root(), Some(&"/home/workspace/proj".to_string()));
    match sb.run(&mut conn, &Command::ReadSettings { action: ide_backend::messages::RunAction::Run }) {
        Response::ProjectSettings { contents } => assert_eq!(contents, "run_command = \"python main.py\""),
        other => panic!("unexpected {}", show(&other)),
    }
}

#[test]
fn open_project_without_single_directory_fails() {
    let mut sb = FakeSandbox::new();
    sb.files.insert("/home/workspace/a/x".to_string(), String::new());
    sb.files.insert("/home/workspace/b/y".to_string(), String::new());
    let mut conn = Connection::new();
    assert!(matches!(sb.run(&mut conn, &Command::OpenProject), Response::Error { .. }));
    assert_eq!(conn.project_root(), None);
}

#[test]
fn run_on_a_fresh_connection_uses_the_workspace() {
    let mut sb = FakeSandbox::new();
    let mut conn = Connection::new();
    match sb.run(&mut conn, &Command::Run { command: "echo hi".to_string() }) {
        Response::Output { output } => assert!(output.contains("hi")),
        other => panic!("unexpected {}", show(&other)),
    }
    assert_eq!(sb.runs[0].workdir, Some(WORKSPACE_PATH.to_string()));
    assert!(matches!(
        sb.run(&mut conn, &Command::ReadSettings { action: ide_backend::messages::RunAction::Debug }),
        Response::Error { .. }
    ));
}

#[test]
fn silent_failures_still_carry_a_message() {
    let mut conn = Connection::new();
    let r = conn.resume(Continuation::Done, ExecOutcome { output: String::new(), exit_code: Some(2), pid: None });
    match r {
        Action::Reply { resp: Response::Error { msg } } => {
            assert_eq!(msg, "the command printed nothing and exited with code 2")
        }
        other => panic!("unexpected {:?}", other),
    }
    let r = conn.resume(Continuation::ReadFile, ExecOutcome { output: String::new(), exit_code: Some(-130), pid: None });
    match r {
        Action::Reply { resp: Response::Error { msg } } => assert!(msg.ends_with("code -130")),
        other => panic!("unexpected {:?}", other),
    }
    let r = conn.resume(Continuation::Done, ExecOutcome { output: String::new(), exit_code: None, pid: None });
    match r {
        Action::Reply { resp: Response::Error { msg } } => {
            assert_eq!(msg, "the command printed nothing and reported no exit code")
        }
        other => panic!("unexpected {:?}", other),
    }
    let r = conn.resume(Continuation::Done, ExecOutcome { output: "boom\n".to_string(), exit_code: Some(1), pid: None });
    assert!(matches!(r, Action::Reply { resp: Response::Error { msg } } if msg == "boom\n"));
}

#[test]
fn failures_become_error_responses() {
    let mut sb = FakeSandbox::new();
    let mut conn = Connection::new();
    match sb.run(&mut conn, &Command::ReadFile { path: "/missing".to_string() }) {
        Response::Error { msg } => assert!(msg.contains("No such file")),
        other => panic!("unexpected {}", show(&other)),
    }
    assert!(matches!(sb.run(&mut conn, &Command::StopRunning), Response::Error { .. }));
    assert!(matches!(
        sb.run(&mut conn, &Command::Rename { from: "/nope".to_string(), to: "/x".to_string() }),
        Response::Error { .. }
    ));
}

#[test]
fn rename_delete_and_settings_update() {
    let mut sb = FakeSandbox::new();
    let mut conn = Connection::new();
    sb.run(&mut conn, &Command::WriteFile { path: "/r/a".to_string(), contents: "1".to_string() });
    assert!(matches!(
        sb.run(&mut conn, &Command::Rename { from: "/r/a".to_string(), to: "/r/b".to_string() }),
        Response::Success
    ));
    assert_eq!(sb.files.get("/r/b"), Some(&"1".to_string()));
    assert!(matches!(sb.run(&mut conn, &Command::Delete { path: "/r/b".to_string() }), Response::Success));
    assert!(sb.files.is_empty());
    assert!(matches!(
        sb.run(&mut conn, &Command::UpdateSettings { contents: "auto_save = false".to_string() }),
        Response::Success
    ));
    assert_eq!(sb.settings, "auto_save = false");
}

#[test]
fn replies_carry_the_request_id() {
    let req = ClientMessage { id: MessageId { bytes: [5; 16] }, cmd: Command::OpenProject };
    let reply = reply_to(&req, Response::Success);
    assert_eq!(reply.id, req.id);
    assert!(matches!(reply.resp, Response::Success));
}

#[test]
fn split_entries_drops_empty_lines() {
    let v = split_entries("a.txt\n\nsrc/\nlast");
    assert_eq!(v, vec!["a.txt".to_string(), "src/".to_string(), "last".to_string()]);
    assert!(split_entries("").is_empty());
    assert!(split_entries("\n\n").is_empty());
}

#[test]
fn join_path_adds_one_separator() {
    assert_eq!(join_path("/root", "a"), "/root/a");
    assert_eq!(join_path("/root/", "a"), "/root/a");
    assert_eq!(join_path("", "a"), "/a");
    assert_eq!(WORKSPACE_PATH, "/home/workspace");
}

#[test]
fn project_tree_from_path_marks_directories() {
    assert!(matches!(ProjectTree::from_path("src/".to_string()), ProjectTree::Directory { .. }));
    assert!(matches!(ProjectTree::from_path("main.py".to_string()), ProjectTree::File { .. }));
    assert_eq!(ProjectTree::from_path("x/".to_string()).path(), "x/");
}

#[test]
fn response_from_result_wraps_errors() {
    assert!(matches!(Response::from_result(Ok(Response::Success)), Response::Success));
    match Response::from_result(Err("boom".to_string())) {
        Response::Error { msg } => assert_eq!(msg, "boom"),
        other => panic!("unexpected {}", show(&other)),
    }
}
