//! The messages exchanged over an editor connection, and their encoding.
//!
//! A client sends `ClientMessage { id, cmd }`; the server answers each one
//! with a `ServerMessage` carrying the same `id`. One message travels per
//! binary frame. Decoding accepts exactly the bytes of one encoded message:
//! anything malformed, unknown or trailing is a `DecodeError`.
use crate::wire::{
    enc_str, enc_varint, lemma_str_round_trip, lemma_varint_round_trip, parse_str, parse_varint,
    read_str, read_varint, write_raw, write_str, write_varint,
};
use vstd::prelude::*;
use vstd::utf8::encode_utf8;

verus! {

/// Which run configuration of the project settings is asked for.
#[derive(Clone, Copy, Debug, PartialEq, Eq)]
pub enum RunAction {
    Run,
    Debug,
    Format,
}

/// The correlation token of a request, echoed verbatim in its response.
#[derive(Clone, Copy, Debug, PartialEq, Eq)]
pub struct MessageId {
    pub bytes: [u8; 16],
}

/// An operation that a client asks of its sandbox.
#[derive(Clone, Debug)]
pub enum Command {
    OpenProject,
    ReadSettings { action: RunAction },
    ReadFile { path: String },
    ReadDir { path: String },
    Rename { from: String, to: String },
    WriteFile { path: String, contents: String },
    Delete { path: String },
    Run { command: String },
    StopRunning,
    UpdateSettings { contents: String },
}

/// One level of the project: a directory with the paths of its children
/// (a directory's path ends in `/`), or a file.
#[derive(Clone, Debug)]
pub enum ProjectTree {
    Directory { path: String, children: Vec<String> },
    File { path: String },
}

/// The answer to a command.
#[derive(Clone, Debug)]
#[allow(inconsistent_fields)]
pub enum Response {
    ProjectContents { contents: ProjectTree, settings: String },
    ProjectSettings { contents: String },
    FileContents { contents: String },
    DirContents { contents_paths: Vec<String> },
    Output { output: String },
    Success,
    Error { msg: String },
}

#[derive(Clone, Debug)]
pub struct ClientMessage {
    pub id: MessageId,
    pub cmd: Command,
}

#[derive(Clone, Debug)]
pub struct ServerMessage {
    pub id: MessageId,
    pub resp: Response,
}

/// A byte string that is not the encoding of one message.
#[derive(Clone, Copy, Debug, PartialEq, Eq)]
pub struct DecodeError;

// ----- abstract values -----

pub enum CommandView {
    OpenProject,
    ReadSettings { action: RunAction },
    ReadFile { path: Seq<char> },
    ReadDir { path: Seq<char> },
    Rename { from: Seq<char>, to: Seq<char> },
    WriteFile { path: Seq<char>, contents: Seq<char> },
    Delete { path: Seq<char> },
    Run { command: Seq<char> },
    StopRunning,
    UpdateSettings { contents: Seq<char> },
}

pub enum TreeView {
    Directory { path: Seq<char>, children: Seq<Seq<char>> },
    File { path: Seq<char> },
}

#[allow(inconsistent_fields)]
pub enum ResponseView {
    ProjectContents { contents: TreeView, settings: Seq<char> },
    ProjectSettings { contents: Seq<char> },
    FileContents { contents: Seq<char> },
    DirContents { contents_paths: Seq<Seq<char>> },
    Output { output: Seq<char> },
    Success,
    Error { msg: Seq<char> },
}

pub struct ClientMessageView {
    pub id: Seq<u8>,
    pub cmd: CommandView,
}

pub struct ServerMessageView {
    pub id: Seq<u8>,
    pub resp: ResponseView,
}

pub open spec fn strings_view(v: Seq<String>) -> Seq<Seq<char>> {
    v.map_values(|s: String| s@)
}

impl View for MessageId {
    type V = Seq<u8>;

    open spec fn view(&self) -> Seq<u8> {
        self.bytes@
    }
}

impl View for Command {
    type V = CommandView;

    open spec fn view(&self) -> CommandView {
        match self {
            Command::OpenProject => CommandView::OpenProject,
            Command::ReadSettings { action } => CommandView::ReadSettings { action: *action },
            Command::ReadFile { path } => CommandView::ReadFile { path: path@ },
            Command::ReadDir { path } => CommandView::ReadDir { path: path@ },
            Command::Rename { from, to } => CommandView::Rename { from: from@, to: to@ },
            Command::WriteFile { path, contents } => CommandView::WriteFile {
                path: path@,
                contents: contents@,
            },
            Command::Delete { path } => CommandView::Delete { path: path@ },
            Command::Run { command } => CommandView::Run { command: command@ },
            Command::StopRunning => CommandView::StopRunning,
            Command::UpdateSettings { contents } => CommandView::UpdateSettings {
                contents: contents@,
            },
        }
    }
}

impl View for ProjectTree {
    type V = TreeView;

    open spec fn view(&self) -> TreeView {
        match self {
            ProjectTree::Directory { path, children } => TreeView::Directory {
                path: path@,
                children: strings_view(children@),
            },
            ProjectTree::File { path } => TreeView::File { path: path@ },
        }
    }
}

impl View for Response {
    type V = ResponseView;

    open spec fn view(&self) -> ResponseView {
        match self {
            Response::ProjectContents { contents, settings } => ResponseView::ProjectContents {
                contents: contents@,
                settings: settings@,
            },
            Response::ProjectSettings { contents } => ResponseView::ProjectSettings {
                contents: contents@,
            },
            Response::FileContents { contents } => ResponseView::FileContents {
                contents: contents@,
            },
            Response::DirContents { contents_paths } => ResponseView::DirContents {
                contents_paths: strings_view(contents_paths@),
            },
            Response::Output { output } => ResponseView::Output { output: output@ },
            Response::Success => ResponseView::Success,
            Response::Error { msg } => ResponseView::Error { msg: msg@ },
        }
    }
}

impl View for ClientMessage {
    type V = ClientMessageView;

    open spec fn view(&self) -> ClientMessageView {
        ClientMessageView { id: self.id@, cmd: self.cmd@ }
    }
}

impl View for ServerMessage {
    type V = ServerMessageView;

    open spec fn view(&self) -> ServerMessageView {
        ServerMessageView { id: self.id@, resp: self.resp@ }
    }
}

// ----- encoding -----

pub open spec fn enc_action(a: RunAction) -> Seq<u8> {
    match a {
        RunAction::Run => seq![0u8],
        RunAction::Debug => seq![1u8],
        RunAction::Format => seq![2u8],
    }
}

/// An id is a byte string of length 16.
pub open spec fn enc_id(id: Seq<u8>) -> Seq<u8> {
    seq![16u8] + id
}

pub open spec fn enc_command(c: CommandView) -> Seq<u8> {
    match c {
        CommandView::OpenProject => seq![0u8],
        CommandView::ReadSettings { action } => seq![1u8] + enc_action(action),
        CommandView::ReadFile { path } => seq![2u8] + enc_str(path),
        CommandView::ReadDir { path } => seq![3u8] + enc_str(path),
        CommandView::Rename { from, to } => seq![4u8] + enc_str(from) + enc_str(to),
        CommandView::WriteFile { path, contents } => seq![5u8] + enc_str(path) + enc_str(contents),
        CommandView::Delete { path } => seq![6u8] + enc_str(path),
        CommandView::Run { command } => seq![7u8] + enc_str(command),
        CommandView::StopRunning => seq![8u8],
        CommandView::UpdateSettings { contents } => seq![9u8] + enc_str(contents),
    }
}

pub open spec fn enc_client(m: ClientMessageView) -> Seq<u8> {
    enc_id(m.id) + enc_command(m.cmd)
}

/// The strings one after the other, without a count.
pub open spec fn enc_str_list(v: Seq<Seq<char>>) -> Seq<u8>
    decreases v.len(),
{
    if v.len() == 0 {
        Seq::empty()
    } else {
        enc_str(v[0]) + enc_str_list(v.drop_first())
    }
}

/// A list of strings: the count, then the strings.
pub open spec fn enc_strs(v: Seq<Seq<char>>) -> Seq<u8> {
    enc_varint(v.len() as u64) + enc_str_list(v)
}

pub open spec fn enc_tree(t: TreeView) -> Seq<u8> {
    match t {
        TreeView::Directory { path, children } => seq![0u8] + enc_str(path) + enc_strs(children),
        TreeView::File { path } => seq![1u8] + enc_str(path),
    }
}

pub open spec fn enc_response(r: ResponseView) -> Seq<u8> {
    match r {
        ResponseView::ProjectContents { contents, settings } => seq![0u8] + enc_tree(contents)
            + enc_str(settings),
        ResponseView::ProjectSettings { contents } => seq![1u8] + enc_str(contents),
        ResponseView::FileContents { contents } => seq![2u8] + enc_str(contents),
        ResponseView::DirContents { contents_paths } => seq![3u8] + enc_strs(contents_paths),
        ResponseView::Output { output } => seq![4u8] + enc_str(output),
        ResponseView::Success => seq![5u8],
        ResponseView::Error { msg } => seq![6u8] + enc_str(msg),
    }
}

pub open spec fn enc_server(m: ServerMessageView) -> Seq<u8> {
    enc_id(m.id) + enc_response(m.resp)
}

// ----- parsing -----

pub open spec fn parse_action(b: Seq<u8>) -> Option<(RunAction, nat)> {
    if b.len() == 0 {
        None
    } else if b[0] == 0 {
        Some((RunAction::Run, 1))
    } else if b[0] == 1 {
        Some((RunAction::Debug, 1))
    } else if b[0] == 2 {
        Some((RunAction::Format, 1))
    } else {
        None
    }
}

pub open spec fn parse_id(b: Seq<u8>) -> Option<(Seq<u8>, nat)> {
    if b.len() >= 17 && b[0] == 16 {
        Some((b.subrange(1, 17), 17))
    } else {
        None
    }
}

/// Two strings one after the other.
pub open spec fn parse_two_strs(b: Seq<u8>) -> Option<(Seq<char>, Seq<char>, nat)> {
    match parse_str(b) {
        None => None,
        Some((x, k1)) => match parse_str(b.skip(k1 as int)) {
            None => None,
            Some((y, k2)) => Some((x, y, k1 + k2)),
        },
    }
}

pub open spec fn parse_command(b: Seq<u8>) -> Option<(CommandView, nat)> {
    if b.len() == 0 {
        None
    } else {
        let t = b[0];
        let r = b.skip(1);
        if t == 0 {
            Some((CommandView::OpenProject, 1))
        } else if t == 1 {
            match parse_action(r) {
                Some((action, k)) => Some((CommandView::ReadSettings { action }, 1 + k)),
                None => None,
            }
        } else if t == 2 || t == 3 || t == 6 || t == 7 || t == 9 {
            match parse_str(r) {
                Some((x, k)) => Some(
                    (
                        if t == 2 {
                            CommandView::ReadFile { path: x }
                        } else if t == 3 {
                            CommandView::ReadDir { path: x }
                        } else if t == 6 {
                            CommandView::Delete { path: x }
                        } else if t == 7 {
                            CommandView::Run { command: x }
                        } else {
                            CommandView::UpdateSettings { contents: x }
                        },
                        1 + k,
                    ),
                ),
                None => None,
            }
        } else if t == 4 || t == 5 {
            match parse_two_strs(r) {
                Some((x, y, k)) => Some(
                    (
                        if t == 4 {
                            CommandView::Rename { from: x, to: y }
                        } else {
                            CommandView::WriteFile { path: x, contents: y }
                        },
                        1 + k,
                    ),
                ),
                None => None,
            }
        } else if t == 8 {
            Some((CommandView::StopRunning, 1))
        } else {
            None
        }
    }
}

/// `n` strings one after the other.
pub open spec fn parse_str_list(b: Seq<u8>, n: nat) -> Option<(Seq<Seq<char>>, nat)>
    decreases n,
{
    if n == 0 {
        Some((Seq::empty(), 0))
    } else {
        match parse_str(b) {
            None => None,
            Some((s, k)) => match parse_str_list(b.skip(k as int), (n - 1) as nat) {
                None => None,
                Some((rest, k2)) => Some((seq![s] + rest, k + k2)),
            },
        }
    }
}

pub open spec fn parse_strs(b: Seq<u8>) -> Option<(Seq<Seq<char>>, nat)> {
    match parse_varint(b) {
        None => None,
        Some((n, k)) => match parse_str_list(b.skip(k as int), n as nat) {
            None => None,
            Some((v, k2)) => Some((v, k + k2)),
        },
    }
}

pub open spec fn parse_tree(b: Seq<u8>) -> Option<(TreeView, nat)> {
    if b.len() == 0 {
        None
    } else if b[0] == 0 {
        match parse_str(b.skip(1)) {
            None => None,
            Some((path, k1)) => match parse_strs(b.skip(1 + k1 as int)) {
                None => None,
                Some((children, k2)) => Some((TreeView::Directory { path, children }, 1 + k1 + k2)),
            },
        }
    } else if b[0] == 1 {
        match parse_str(b.skip(1)) {
            None => None,
            Some((path, k)) => Some((TreeView::File { path }, 1 + k)),
        }
    } else {
        None
    }
}

pub open spec fn parse_response(b: Seq<u8>) -> Option<(ResponseView, nat)> {
    if b.len() == 0 {
        None
    } else {
        let t = b[0];
        let r = b.skip(1);
        if t == 0 {
            match parse_tree(r) {
                None => None,
                Some((contents, k1)) => match parse_str(r.skip(k1 as int)) {
                    None => None,
                    Some((settings, k2)) => Some(
                        (ResponseView::ProjectContents { contents, settings }, 1 + k1 + k2),
                    ),
                },
            }
        } else if t == 1 || t == 2 || t == 4 || t == 6 {
            match parse_str(r) {
                Some((x, k)) => Some(
                    (
                        if t == 1 {
                            ResponseView::ProjectSettings { contents: x }
                        } else if t == 2 {
                            ResponseView::FileContents { contents: x }
                        } else if t == 4 {
                            ResponseView::Output { output: x }
                        } else {
                            ResponseView::Error { msg: x }
                        },
                        1 + k,
                    ),
                ),
                None => None,
            }
        } else if t == 3 {
            match parse_strs(r) {
                Some((v, k)) => Some((ResponseView::DirContents { contents_paths: v }, 1 + k)),
                None => None,
            }
        } else if t == 5 {
            Some((ResponseView::Success, 1))
        } else {
            None
        }
    }
}

/// The client message that `b` encodes, if `b` is exactly one encoding.
pub open spec fn client_from_bytes(b: Seq<u8>) -> Option<ClientMessageView> {
    match parse_id(b) {
        None => None,
        Some((id, k1)) => match parse_command(b.skip(k1 as int)) {
            None => None,
            Some((cmd, k2)) => if k1 + k2 == b.len() {
                Some(ClientMessageView { id, cmd })
            } else {
                None
            },
        },
    }
}

/// The server message that `b` encodes, if `b` is exactly one encoding.
pub open spec fn server_from_bytes(b: Seq<u8>) -> Option<ServerMessageView> {
    match parse_id(b) {
        None => None,
        Some((id, k1)) => match parse_response(b.skip(k1 as int)) {
            None => None,
            Some((resp, k2)) => if k1 + k2 == b.len() {
                Some(ServerMessageView { id, resp })
            } else {
                None
            },
        },
    }
}

// ----- round trips -----

proof fn lemma_skip_concat(x: Seq<u8>, y: Seq<u8>)
    ensures
        (x + y).skip(x.len() as int) == y,
{
    assert((x + y).skip(x.len() as int) =~= y);
}

/// A string read back from its encoding, with what follows left over.
proof fn lemma_str_then(s: Seq<char>, rest: Seq<u8>)
    requires
        encode_utf8(s).len() <= u64::MAX,
    ensures
        parse_str(enc_str(s) + rest) == Some((s, enc_str(s).len())),
        (enc_str(s) + rest).skip(enc_str(s).len() as int) == rest,
{
    lemma_str_round_trip(s, rest);
    lemma_skip_concat(enc_str(s), rest);
}

proof fn lemma_two_strs_then(x: Seq<char>, y: Seq<char>, rest: Seq<u8>)
    requires
        encode_utf8(x).len() <= u64::MAX,
        encode_utf8(y).len() <= u64::MAX,
    ensures
        parse_two_strs(enc_str(x) + enc_str(y) + rest) == Some(
            (x, y, enc_str(x).len() + enc_str(y).len()),
        ),
{
    let b = enc_str(x) + enc_str(y) + rest;
    assert(b =~= enc_str(x) + (enc_str(y) + rest));
    lemma_str_then(x, enc_str(y) + rest);
    lemma_str_then(y, rest);
}

#[verifier::rlimit(50)]
proof fn lemma_command_round_trip(c: CommandView, rest: Seq<u8>)
    requires
        enc_command(c).len() <= u64::MAX,
    ensures
        parse_command(enc_command(c) + rest) == Some((c, enc_command(c).len())),
{
    let e = enc_command(c);
    let b = e + rest;
    assert(b[0] == e[0]);
    let r = b.skip(1);
    match c {
        CommandView::ReadSettings { action } => {
            assert(r =~= enc_action(action) + rest);
        },
        CommandView::ReadFile { path: x } => {
            assert(r =~= enc_str(x) + rest);
            lemma_str_then(x, rest);
        },
        CommandView::ReadDir { path: x } => {
            assert(r =~= enc_str(x) + rest);
            lemma_str_then(x, rest);
        },
        CommandView::Delete { path: x } => {
            assert(r =~= enc_str(x) + rest);
            lemma_str_then(x, rest);
        },
        CommandView::Run { command: x } => {
            assert(r =~= enc_str(x) + rest);
            lemma_str_then(x, rest);
        },
        CommandView::UpdateSettings { contents: x } => {
            assert(r =~= enc_str(x) + rest);
            lemma_str_then(x, rest);
        },
        CommandView::Rename { from: x, to: y } => {
            assert(r =~= enc_str(x) + enc_str(y) + rest);
            lemma_two_strs_then(x, y, rest);
        },
        CommandView::WriteFile { path: x, contents: y } => {
            assert(r =~= enc_str(x) + enc_str(y) + rest);
            lemma_two_strs_then(x, y, rest);
        },
        _ => {},
    }
}

proof fn lemma_str_list_round_trip(v: Seq<Seq<char>>, rest: Seq<u8>)
    requires
        enc_str_list(v).len() <= u64::MAX,
    ensures
        parse_str_list(enc_str_list(v) + rest, v.len()) == Some((v, enc_str_list(v).len())),
        v.len() <= enc_str_list(v).len(),
    decreases v.len(),
{
    if v.len() > 0 {
        let t = v.drop_first();
        let b = enc_str_list(v) + rest;
        assert(b =~= enc_str(v[0]) + (enc_str_list(t) + rest));
        lemma_str_then(v[0], enc_str_list(t) + rest);
        lemma_str_list_round_trip(t, rest);
        assert(seq![v[0]] + t =~= v);
    } else {
        assert(enc_str_list(v) + rest =~= rest);
    }
}

proof fn lemma_strs_then(v: Seq<Seq<char>>, rest: Seq<u8>)
    requires
        enc_str_list(v).len() <= u64::MAX,
    ensures
        parse_strs(enc_strs(v) + rest) == Some((v, enc_strs(v).len())),
        (enc_strs(v) + rest).skip(enc_strs(v).len() as int) == rest,
{
    lemma_str_list_round_trip(v, rest);
    let n = v.len() as u64;
    let b = enc_strs(v) + rest;
    assert(b =~= enc_varint(n) + (enc_str_list(v) + rest));
    lemma_varint_round_trip(n, enc_str_list(v) + rest);
    lemma_skip_concat(enc_varint(n), enc_str_list(v) + rest);
    lemma_skip_concat(enc_strs(v), rest);
}

proof fn lemma_tree_round_trip(t: TreeView, rest: Seq<u8>)
    requires
        enc_tree(t).len() <= u64::MAX,
    ensures
        parse_tree(enc_tree(t) + rest) == Some((t, enc_tree(t).len())),
{
    let b = enc_tree(t) + rest;
    match t {
        TreeView::Directory { path, children } => {
            assert(b.skip(1) =~= enc_str(path) + (enc_strs(children) + rest));
            lemma_str_then(path, enc_strs(children) + rest);
            assert(b.skip(1 + enc_str(path).len() as int) =~= enc_strs(children) + rest);
            lemma_strs_then(children, rest);
        },
        TreeView::File { path } => {
            assert(b.skip(1) =~= enc_str(path) + rest);
            lemma_str_then(path, rest);
        },
    }
}

proof fn lemma_tree_then_str(t: TreeView, x: Seq<char>, rest: Seq<u8>)
    requires
        enc_tree(t).len() + enc_str(x).len() <= u64::MAX,
    ensures
        ({
            let b = enc_tree(t) + (enc_str(x) + rest);
            &&& parse_tree(b) == Some((t, enc_tree(t).len()))
            &&& parse_str(b.skip(enc_tree(t).len() as int)) == Some((x, enc_str(x).len()))
        }),
{
    lemma_tree_round_trip(t, enc_str(x) + rest);
    lemma_skip_concat(enc_tree(t), enc_str(x) + rest);
    lemma_str_then(x, rest);
}

#[verifier::rlimit(50)]
proof fn lemma_response_round_trip(r: ResponseView, rest: Seq<u8>)
    requires
        enc_response(r).len() <= u64::MAX,
    ensures
        parse_response(enc_response(r) + rest) == Some((r, enc_response(r).len())),
{
    let e = enc_response(r);
    let b = e + rest;
    assert(b[0] == e[0]);
    let tail = b.skip(1);
    match r {
        ResponseView::ProjectContents { contents, settings } => {
            assert(tail =~= enc_tree(contents) + (enc_str(settings) + rest));
            lemma_tree_then_str(contents, settings, rest);
        },
        ResponseView::ProjectSettings { contents: x } => {
            assert(tail =~= enc_str(x) + rest);
            lemma_str_then(x, rest);
        },
        ResponseView::FileContents { contents: x } => {
            assert(tail =~= enc_str(x) + rest);
            lemma_str_then(x, rest);
        },
        ResponseView::Output { output: x } => {
            assert(tail =~= enc_str(x) + rest);
            lemma_str_then(x, rest);
        },
        ResponseView::Error { msg: x } => {
            assert(tail =~= enc_str(x) + rest);
            lemma_str_then(x, rest);
        },
        ResponseView::DirContents { contents_paths: v } => {
            assert(tail =~= enc_strs(v) + rest);
            lemma_strs_then(v, rest);
        },
        ResponseView::Success => {},
    }
}

/// Decoding the encoding of a client message gives the message back, for
/// every command and id, as long as the encoding fits in memory.
pub proof fn law_client_round_trip(m: ClientMessage)
    requires
        enc_client(m@).len() <= usize::MAX,
    ensures
        client_from_bytes(enc_client(m@)) == Some(m@),
{
    let b = enc_client(m@);
    assert(m.id@.len() == 16);
    assert(b.subrange(1, 17) =~= m.id@);
    assert(b.skip(17) =~= enc_command(m.cmd@) + Seq::<u8>::empty());
    lemma_command_round_trip(m.cmd@, Seq::empty());
}

/// Decoding the encoding of a server message gives the message back, for
/// every response and id, as long as the encoding fits in memory.
pub proof fn law_server_round_trip(m: ServerMessage)
    requires
        enc_server(m@).len() <= usize::MAX,
    ensures
        server_from_bytes(enc_server(m@)) == Some(m@),
{
    let b = enc_server(m@);
    assert(m.id@.len() == 16);
    assert(b.subrange(1, 17) =~= m.id@);
    assert(b.skip(17) =~= enc_response(m.resp@) + Seq::<u8>::empty());
    lemma_response_round_trip(m.resp@, Seq::empty());
}

// ----- writers -----

proof fn lemma_enc_str_list_push(v: Seq<Seq<char>>, x: Seq<char>)
    ensures
        enc_str_list(v.push(x)) == enc_str_list(v) + enc_str(x),
    decreases v.len(),
{
    let w = v.push(x);
    assert(w[0] == (if v.len() == 0 { x } else { v[0] }));
    if v.len() == 0 {
        assert(w.drop_first() =~= Seq::<Seq<char>>::empty());
        assert(enc_str_list(w.drop_first()) == Seq::<u8>::empty());
        assert(enc_str_list(v) == Seq::<u8>::empty());
        assert(enc_str_list(w) =~= enc_str_list(v) + enc_str(x));
    } else {
        lemma_enc_str_list_push(v.drop_first(), x);
        assert(w.drop_first() =~= v.drop_first().push(x));
        assert(enc_str_list(w) == enc_str(v[0]) + enc_str_list(v.drop_first().push(x)));
        assert(enc_str_list(w) =~= enc_str_list(v) + enc_str(x));
    }
}

fn write_action(out: &mut Vec<u8>, a: RunAction)
    ensures
        final(out)@ == old(out)@ + enc_action(a),
{
    let ghost before = out@;
    let tag: u8 = match a {
        RunAction::Run => 0,
        RunAction::Debug => 1,
        RunAction::Format => 2,
    };
    out.push(tag);
    assert(final(out)@ =~= before + enc_action(a));
}

fn write_id(out: &mut Vec<u8>, id: &MessageId)
    ensures
        final(out)@ == old(out)@ + enc_id(id@),
{
    let ghost before = out@;
    out.push(16u8);
    write_raw(out, id.bytes.as_slice());
    assert(final(out)@ =~= before + enc_id(id@));
}

fn write_tag(out: &mut Vec<u8>, tag: u8)
    ensures
        final(out)@ == old(out)@ + seq![tag],
{
    out.push(tag);
}

fn write_command(out: &mut Vec<u8>, c: &Command)
    ensures
        final(out)@ == old(out)@ + enc_command(c@),
{
    let ghost before = out@;
    match c {
        Command::OpenProject => write_tag(out, 0),
        Command::ReadSettings { action } => {
            write_tag(out, 1);
            write_action(out, *action);
        },
        Command::ReadFile { path } => {
            write_tag(out, 2);
            write_str(out, path.as_str());
        },
        Command::ReadDir { path } => {
            write_tag(out, 3);
            write_str(out, path.as_str());
        },
        Command::Rename { from, to } => {
            write_tag(out, 4);
            write_str(out, from.as_str());
            write_str(out, to.as_str());
        },
        Command::WriteFile { path, contents } => {
            write_tag(out, 5);
            write_str(out, path.as_str());
            write_str(out, contents.as_str());
        },
        Command::Delete { path } => {
            write_tag(out, 6);
            write_str(out, path.as_str());
        },
        Command::Run { command } => {
            write_tag(out, 7);
            write_str(out, command.as_str());
        },
        Command::StopRunning => write_tag(out, 8),
        Command::UpdateSettings { contents } => {
            write_tag(out, 9);
            write_str(out, contents.as_str());
        },
    }
    assert(final(out)@ =~= before + enc_command(c@));
}

fn write_strs(out: &mut Vec<u8>, v: &Vec<String>)
    ensures
        final(out)@ == old(out)@ + enc_strs(strings_view(v@)),
{
    let ghost before = out@;
    let ghost sv = strings_view(v@);
    write_varint(out, v.len() as u64);
    let ghost mid = out@;
    let mut i: usize = 0;
    while i < v.len()
        invariant
            i <= v@.len(),
            sv == strings_view(v@),
            mid == before + enc_varint(v@.len() as u64),
            out@ == mid + enc_str_list(sv.take(i as int)),
        decreases v@.len() - i,
    {
        write_str(out, v[i].as_str());
        proof {
            assert(sv.take(i + 1) =~= sv.take(i as int).push(v@[i as int]@));
            lemma_enc_str_list_push(sv.take(i as int), v@[i as int]@);
        }
        i = i + 1;
    }
    assert(sv.take(v@.len() as int) =~= sv);
    assert(final(out)@ =~= before + enc_strs(sv));
}

fn write_tree(out: &mut Vec<u8>, t: &ProjectTree)
    ensures
        final(out)@ == old(out)@ + enc_tree(t@),
{
    let ghost before = out@;
    match t {
        ProjectTree::Directory { path, children } => {
            write_tag(out, 0);
            write_str(out, path.as_str());
            write_strs(out, children);
        },
        ProjectTree::File { path } => {
            write_tag(out, 1);
            write_str(out, path.as_str());
        },
    }
    assert(final(out)@ =~= before + enc_tree(t@));
}

fn write_response(out: &mut Vec<u8>, r: &Response)
    ensures
        final(out)@ == old(out)@ + enc_response(r@),
{
    let ghost before = out@;
    match r {
        Response::ProjectContents { contents, settings } => {
            write_tag(out, 0);
            write_tree(out, contents);
            write_str(out, settings.as_str());
        },
        Response::ProjectSettings { contents } => {
            write_tag(out, 1);
            write_str(out, contents.as_str());
        },
        Response::FileContents { contents } => {
            write_tag(out, 2);
            write_str(out, contents.as_str());
        },
        Response::DirContents { contents_paths } => {
            write_tag(out, 3);
            write_strs(out, contents_paths);
        },
        Response::Output { output } => {
            write_tag(out, 4);
            write_str(out, output.as_str());
        },
        Response::Success => write_tag(out, 5),
        Response::Error { msg } => {
            write_tag(out, 6);
            write_str(out, msg.as_str());
        },
    }
    assert(final(out)@ =~= before + enc_response(r@));
}

// ----- readers -----

fn read_id(b: &[u8], pos: usize) -> (r: Option<(MessageId, usize)>)
    requires
        pos <= b@.len(),
    ensures
        r matches Some((id, next)) ==> pos <= next <= b@.len() && parse_id(b@.skip(pos as int))
            == Some((id@, (next - pos) as nat)),
        r is None ==> parse_id(b@.skip(pos as int)) is None,
{
    let ghost t = b@.skip(pos as int);
    if b.len() - pos < 17 || b[pos] != 16 {
        return None;
    }
    let p = pos + 1;
    let bytes: [u8; 16] = [
        b[p],
        b[p + 1],
        b[p + 2],
        b[p + 3],
        b[p + 4],
        b[p + 5],
        b[p + 6],
        b[p + 7],
        b[p + 8],
        b[p + 9],
        b[p + 10],
        b[p + 11],
        b[p + 12],
        b[p + 13],
        b[p + 14],
        b[p + 15],
    ];
    let id = MessageId { bytes };
    assert(id@ =~= t.subrange(1, 17));
    Some((id, pos + 17))
}

fn read_two_strs(b: &[u8], pos: usize) -> (r: Option<(String, String, usize)>)
    requires
        pos <= b@.len(),
    ensures
        r matches Some((x, y, next)) ==> pos <= next <= b@.len() && parse_two_strs(
            b@.skip(pos as int),
        ) == Some((x@, y@, (next - pos) as nat)),
        r is None ==> parse_two_strs(b@.skip(pos as int)) is None,
{
    let ghost t = b@.skip(pos as int);
    match read_str(b, pos) {
        None => None,
        Some((x, n1)) => {
            assert(t.skip(n1 - pos) =~= b@.skip(n1 as int));
            match read_str(b, n1) {
                None => None,
                Some((y, n2)) => Some((x, y, n2)),
            }
        },
    }
}

fn read_command(b: &[u8], pos: usize) -> (r: Option<(Command, usize)>)
    requires
        pos <= b@.len(),
    ensures
        r matches Some((c, next)) ==> pos <= next <= b@.len() && parse_command(
            b@.skip(pos as int),
        ) == Some((c@, (next - pos) as nat)),
        r is None ==> parse_command(b@.skip(pos as int)) is None,
{
    let ghost t = b@.skip(pos as int);
    if pos >= b.len() {
        return None;
    }
    let tag = b[pos];
    assert(t[0] == tag);
    assert(t.skip(1) =~= b@.skip(pos + 1));
    if tag == 0 {
        Some((Command::OpenProject, pos + 1))
    } else if tag == 1 {
        if pos + 1 >= b.len() {
            return None;
        }
        let a = b[pos + 1];
        assert(t.skip(1)[0] == a);
        let action = if a == 0 {
            RunAction::Run
        } else if a == 1 {
            RunAction::Debug
        } else if a == 2 {
            RunAction::Format
        } else {
            return None;
        };
        Some((Command::ReadSettings { action }, pos + 2))
    } else if tag == 2 || tag == 3 || tag == 6 || tag == 7 || tag == 9 {
        match read_str(b, pos + 1) {
            None => None,
            Some((x, next)) => {
                let c = if tag == 2 {
                    Command::ReadFile { path: x }
                } else if tag == 3 {
                    Command::ReadDir { path: x }
                } else if tag == 6 {
                    Command::Delete { path: x }
                } else if tag == 7 {
                    Command::Run { command: x }
                } else {
                    Command::UpdateSettings { contents: x }
                };
                Some((c, next))
            },
        }
    } else if tag == 4 || tag == 5 {
        match read_two_strs(b, pos + 1) {
            None => None,
            Some((x, y, next)) => {
                let c = if tag == 4 {
                    Command::Rename { from: x, to: y }
                } else {
                    Command::WriteFile { path: x, contents: y }
                };
                Some((c, next))
            },
        }
    } else if tag == 8 {
        Some((Command::StopRunning, pos + 1))
    } else {
        None
    }
}

fn read_strs(b: &[u8], pos: usize) -> (r: Option<(Vec<String>, usize)>)
    requires
        pos <= b@.len(),
    ensures
        r matches Some((v, next)) ==> pos <= next <= b@.len() && parse_strs(b@.skip(pos as int))
            == Some((strings_view(v@), (next - pos) as nat)),
        r is None ==> parse_strs(b@.skip(pos as int)) is None,
{
    let ghost t = b@.skip(pos as int);
    match read_varint(b, pos) {
        None => None,
        Some((n, start)) => {
            assert(t.skip(start - pos) =~= b@.skip(start as int));
            let mut out: Vec<String> = Vec::new();
            let mut cur: usize = start;
            let mut i: u64 = 0;
            assert(strings_view(out@) + Seq::<Seq<char>>::empty() =~= Seq::<Seq<char>>::empty());
            assert forall|rest: Seq<Seq<char>>| strings_view(out@) + rest == rest by {
                assert(strings_view(out@) + rest =~= rest);
            }
            while i < n
                invariant
                    pos <= start <= cur <= b@.len(),
                    i <= n,
                    parse_varint(t) == Some((n, (start - pos) as nat)),
                    t == b@.skip(pos as int),
                    t.skip(start - pos) == b@.skip(start as int),
                    parse_str_list(b@.skip(start as int), n as nat) == (match parse_str_list(
                        b@.skip(cur as int),
                        (n - i) as nat,
                    ) {
                        None => None,
                        Some((rest, k)) => Some((strings_view(out@) + rest, ((cur - start) + k) as nat)),
                    }),
                decreases n - i,
            {
                match read_str(b, cur) {
                    None => {
                        return None;
                    },
                    Some((x, next)) => {
                        proof {
                            assert(b@.skip(cur as int).skip(next - cur) =~= b@.skip(next as int));
                            let sv = strings_view(out@);
                            assert(strings_view(out@.push(x)) =~= sv.push(x@));
                            assert forall|rest: Seq<Seq<char>>|
                                sv + (seq![x@] + rest) == sv.push(x@) + rest by {
                                assert(sv + (seq![x@] + rest) =~= sv.push(x@) + rest);
                            }
                        }
                        out.push(x);
                        cur = next;
                        i = i + 1;
                    },
                }
            }
            assert(strings_view(out@) + Seq::<Seq<char>>::empty() =~= strings_view(out@));
            Some((out, cur))
        },
    }
}

fn read_tree(b: &[u8], pos: usize) -> (r: Option<(ProjectTree, usize)>)
    requires
        pos <= b@.len(),
    ensures
        r matches Some((tree, next)) ==> pos <= next <= b@.len() && parse_tree(b@.skip(pos as int))
            == Some((tree@, (next - pos) as nat)),
        r is None ==> parse_tree(b@.skip(pos as int)) is None,
{
    let ghost t = b@.skip(pos as int);
    if pos >= b.len() {
        return None;
    }
    let tag = b[pos];
    assert(t[0] == tag);
    assert(t.skip(1) =~= b@.skip(pos + 1));
    if tag == 0 {
        match read_str(b, pos + 1) {
            None => None,
            Some((path, n1)) => {
                assert(t.skip(1 + (n1 - pos - 1)) =~= b@.skip(n1 as int));
                match read_strs(b, n1) {
                    None => None,
                    Some((children, n2)) => Some((ProjectTree::Directory { path, children }, n2)),
                }
            },
        }
    } else if tag == 1 {
        match read_str(b, pos + 1) {
            None => None,
            Some((path, next)) => Some((ProjectTree::File { path }, next)),
        }
    } else {
        None
    }
}

#[verifier::rlimit(50)]
fn read_response(b: &[u8], pos: usize) -> (r: Option<(Response, usize)>)
    requires
        pos <= b@.len(),
    ensures
        r matches Some((resp, next)) ==> pos <= next <= b@.len() && parse_response(
            b@.skip(pos as int),
        ) == Some((resp@, (next - pos) as nat)),
        r is None ==> parse_response(b@.skip(pos as int)) is None,
{
    let ghost t = b@.skip(pos as int);
    if pos >= b.len() {
        return None;
    }
    let tag = b[pos];
    assert(t[0] == tag);
    assert(t.skip(1) =~= b@.skip(pos + 1));
    if tag == 0 {
        match read_tree(b, pos + 1) {
            None => None,
            Some((contents, n1)) => {
                assert(t.skip(1).skip(n1 - pos - 1) =~= b@.skip(n1 as int));
                match read_str(b, n1) {
                    None => None,
                    Some((settings, n2)) => Some(
                        (Response::ProjectContents { contents, settings }, n2),
                    ),
                }
            },
        }
    } else if tag == 1 || tag == 2 || tag == 4 || tag == 6 {
        match read_str(b, pos + 1) {
            None => None,
            Some((x, next)) => {
                let resp = if tag == 1 {
                    Response::ProjectSettings { contents: x }
                } else if tag == 2 {
                    Response::FileContents { contents: x }
                } else if tag == 4 {
                    Response::Output { output: x }
                } else {
                    Response::Error { msg: x }
                };
                Some((resp, next))
            },
        }
    } else if tag == 3 {
        match read_strs(b, pos + 1) {
            None => None,
            Some((v, next)) => Some((Response::DirContents { contents_paths: v }, next)),
        }
    } else if tag == 5 {
        Some((Response::Success, pos + 1))
    } else {
        None
    }
}

// ----- public operations -----

/// The bytes of a version-4 UUID made from `b`: the version nibble of byte 6
/// becomes 4 and the top bits of byte 8 become the RFC 4122 variant.
pub open spec fn uuid_v4_bytes(b: Seq<u8>) -> Seq<u8> {
    b.update(6, (b[6] & 0x0f) | 0x40).update(8, (b[8] & 0x3f) | 0x80)
}

/// Relies on uuid's `Builder::from_random_bytes`, which sets the version
/// (`with_version`: byte 6) and the variant (`with_variant`: byte 8) and keeps
/// the other bytes.
#[verifier::external_body]
fn uuid_from_random_bytes(bytes: [u8; 16]) -> (r: [u8; 16])
    ensures
        r@ == uuid_v4_bytes(bytes@),
{
    uuid::Builder::from_random_bytes(bytes).into_uuid().into_bytes()
}

impl MessageId {
    /// A fresh random (version 4) correlation id; `None` when the system's
    /// random source fails.
    pub fn random() -> (r: Option<Self>)
        ensures
            r matches Some(id) ==> exists|b: Seq<u8>| b.len() == 16 && id@ == uuid_v4_bytes(b),
    {
        match crate::crypto::random_bytes(16) {
            None => None,
            Some(v) => {
                let b: [u8; 16] = [
                    v[0],
                    v[1],
                    v[2],
                    v[3],
                    v[4],
                    v[5],
                    v[6],
                    v[7],
                    v[8],
                    v[9],
                    v[10],
                    v[11],
                    v[12],
                    v[13],
                    v[14],
                    v[15],
                ];
                assert(b@.len() == 16);
                Some(MessageId { bytes: uuid_from_random_bytes(b) })
            },
        }
    }
}

impl ClientMessage {
    /// A request for `cmd` under a fresh random id; `None` when the system's
    /// random source fails.
    pub fn new(cmd: Command) -> (r: Option<Self>)
        ensures
            r matches Some(m) ==> m.cmd == cmd,
    {
        match MessageId::random() {
            None => None,
            Some(id) => Some(ClientMessage { id, cmd }),
        }
    }

    pub fn encode(&self) -> (r: Vec<u8>)
        ensures
            r@ == enc_client(self@),
    {
        let mut out: Vec<u8> = Vec::new();
        write_id(&mut out, &self.id);
        write_command(&mut out, &self.cmd);
        assert(out@ =~= enc_client(self@));
        out
    }

    /// The message that `encoded` holds; an error unless `encoded` is exactly
    /// the encoding of one message.
    pub fn decode(encoded: &[u8]) -> (r: Result<Self, DecodeError>)
        ensures
            r is Ok <==> client_from_bytes(encoded@) is Some,
            r matches Ok(m) ==> client_from_bytes(encoded@) == Some(m@),
    {
        assert(encoded@.skip(0) =~= encoded@);
        match read_id(encoded, 0) {
            None => Err(DecodeError),
            Some((id, pos)) => match read_command(encoded, pos) {
                None => Err(DecodeError),
                Some((cmd, end)) => if end == encoded.len() {
                    Ok(ClientMessage { id, cmd })
                } else {
                    Err(DecodeError)
                },
            },
        }
    }
}

impl ServerMessage {
    pub fn encode(&self) -> (r: Vec<u8>)
        ensures
            r@ == enc_server(self@),
    {
        let mut out: Vec<u8> = Vec::new();
        write_id(&mut out, &self.id);
        write_response(&mut out, &self.resp);
        assert(out@ =~= enc_server(self@));
        out
    }

    /// The message that `encoded` holds; an error unless `encoded` is exactly
    /// the encoding of one message.
    pub fn decode(encoded: &[u8]) -> (r: Result<Self, DecodeError>)
        ensures
            r is Ok <==> server_from_bytes(encoded@) is Some,
            r matches Ok(m) ==> server_from_bytes(encoded@) == Some(m@),
    {
        assert(encoded@.skip(0) =~= encoded@);
        match read_id(encoded, 0) {
            None => Err(DecodeError),
            Some((id, pos)) => match read_response(encoded, pos) {
                None => Err(DecodeError),
                Some((resp, end)) => if end == encoded.len() {
                    Ok(ServerMessage { id, resp })
                } else {
                    Err(DecodeError)
                },
            },
        }
    }
}

} // verus!
