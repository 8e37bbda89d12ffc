use ide_backend::messages::{
    ClientMessage, Command, MessageId, ProjectTree, Response, RunAction, ServerMessage,
};

fn id(b: u8) -> MessageId {
    MessageId { bytes: [b; 16] }
}

fn same_command(a: &Command, b: &Command) -> bool {
    format!("{:?}", a) == format!("{:?}", b)
}

fn round_trip(cmd: Command) {
    let msg = ClientMessage { id: id(9), cmd: cmd.clone() };
    let bytes = msg.encode();
    let back = ClientMessage::decode(&bytes).expect("decodes");
    assert_eq!(back.id, msg.id);
    assert!(same_command(&back.cmd, &cmd), "{:?} != {:?}", back.cmd, cmd);
}

#[test]
fn every_command_round_trips() {
    round_trip(Command::OpenProject);
    round_trip(Command::ReadSettings { action: RunAction::Run });
    round_trip(Command::ReadSettings { action: RunAction::Debug });
    round_trip(Command::ReadSettings { action: RunAction::Format });
    round_trip(Command::ReadFile { path: "/root/a.txt".to_string() });
    round_trip(Command::ReadDir { path: "/root".to_string() });
    round_trip(Command::Rename { from: "a".to_string(), to: "b/c".to_string() });
    round_trip(Command::WriteFile { path: "/root/a.txt".to_string(), contents: "hello".to_string() });
    round_trip(Command::Delete { path: "/tmp/x".to_string() });
    round_trip(Command::Run { command: "echo hi".to_string() });
    round_trip(Command::StopRunning);
    round_trip(Command::UpdateSettings { contents: "auto_save = true".to_string() });
}

#[test]
fn long_and_unicode_strings_round_trip() {
    round_trip(Command::WriteFile { path: "é/ü".to_string(), contents: "x".repeat(300) });
    round_trip(Command::WriteFile { path: "big".to_string(), contents: "y".repeat(70_000) });
    round_trip(Command::Run { command: "echo 日本 🎉".to_string() });
    round_trip(Command::ReadFile { path: String::new() });
}

#[test]
fn client_encoding_matches_layout() {
    let msg = ClientMessage { id: id(1), cmd: Command::ReadFile { path: "ab".to_string() } };
    let mut expected = vec![16u8];
    expected.extend_from_slice(&[1u8; 16]);
    expected.extend_from_slice(&[2, 2, b'a', b'b']);
    assert_eq!(msg.encode(), expected);
}

#[test]
fn lengths_from_251_use_two_byte_form() {
    let msg = ClientMessage { id: id(0), cmd: Command::Run { command: "z".repeat(300) } };
    let bytes = msg.encode();
    // id (17 bytes), tag 7, then 251 and 300 as two little-endian bytes
    assert_eq!(&bytes[17..21], &[7, 251, 44, 1]);
    assert_eq!(bytes.len(), 21 + 300);
}

#[test]
fn malformed_frames_are_errors() {
    assert!(ClientMessage::decode(&[]).is_err());
    assert!(ClientMessage::decode(&[16, 1, 2]).is_err());
    let mut bytes = ClientMessage { id: id(2), cmd: Command::OpenProject }.encode();
    bytes.push(0);
    assert!(ClientMessage::decode(&bytes).is_err());
    let mut unknown = vec![16u8];
    unknown.extend_from_slice(&[0u8; 16]);
    unknown.push(42);
    assert!(ClientMessage::decode(&unknown).is_err());
    let mut bad_utf8 = vec![16u8];
    bad_utf8.extend_from_slice(&[0u8; 16]);
    bad_utf8.extend_from_slice(&[2, 1, 0xff]);
    assert!(ClientMessage::decode(&bad_utf8).is_err());
    let mut cut = ClientMessage { id: id(3), cmd: Command::ReadDir { path: "/root".to_string() } }.encode();
    cut.pop();
    assert!(ClientMessage::decode(&cut).is_err());
}

fn server_round_trip(resp: Response) {
    let msg = ServerMessage { id: id(4), resp };
    let back = ServerMessage::decode(&msg.encode()).expect("decodes");
    assert_eq!(back.id, msg.id);
    assert_eq!(format!("{:?}", back.resp), format!("{:?}", msg.resp));
}

#[test]
fn every_response_round_trips() {
    server_round_trip(Response::ProjectContents {
        contents: ProjectTree::Directory {
            path: "/home/workspace/p/".to_string(),
            children: vec!["/home/workspace/p/src/".to_string(), "/home/workspace/p/main.py".to_string()],
        },
        settings: "auto_save = true".to_string(),
    });
    server_round_trip(Response::ProjectContents {
        contents: ProjectTree::File { path: "f".to_string() },
        settings: String::new(),
    });
    server_round_trip(Response::ProjectSettings { contents: "run = 1".to_string() });
    server_round_trip(Response::FileContents { contents: "hello".to_string() });
    server_round_trip(Response::DirContents { contents_paths: vec![] });
    server_round_trip(Response::DirContents {
        contents_paths: vec!["/root/a.txt".to_string(), "/root/b.txt".to_string()],
    });
    server_round_trip(Response::Output { output: "hi\n".to_string() });
    server_round_trip(Response::Success);
    server_round_trip(Response::Error { msg: "nope".to_string() });
}

#[test]
fn new_messages_get_fresh_ids() {
    let a = ClientMessage::new(Command::OpenProject).expect("random source");
    let b = ClientMessage::new(Command::OpenProject).expect("random source");
    assert_ne!(a.id, b.id);
    assert!(matches!(a.cmd, Command::OpenProject));
    // version 4, RFC 4122 variant
    assert_eq!(a.id.bytes[6] >> 4, 4);
    assert_eq!(a.id.bytes[8] & 0xc0, 0x80);
    let id = MessageId::random().expect("random source");
    assert_eq!(id.bytes[6] & 0xf0, 0x40);
}
