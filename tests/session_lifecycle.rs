use ide_backend::session::{IdleStep, OpenStep, EditorSessionManager, SessionMode};

fn open_new(mgr: &mut EditorSessionManager, user: i32, project: i32, container: &str) {
    match mgr.begin_open(user, project) {
        OpenStep::Create => {}
        other => panic!("expected Create, got {:?}", other),
    }
    assert!(mgr.commit_open(user, project, container.to_string()));
}

#[test]
fn concurrent_opens_keep_one_session() {
    let mut mgr = EditorSessionManager::new();
    // both opens find no session and create a container
    assert!(matches!(mgr.begin_open(7, 1), OpenStep::Create));
    assert!(matches!(mgr.begin_open(7, 1), OpenStep::Create));
    assert!(mgr.commit_open(7, 1, "c1".to_string()));
    assert!(!mgr.commit_open(7, 1, "c2".to_string()));
    let s = mgr.session(7).unwrap();
    assert_eq!(s.handle.container_id, "c1");
    assert_eq!(mgr.shutdown(), vec!["c1".to_string()]);
}

#[test]
fn second_open_while_active_conflicts() {
    let mut mgr = EditorSessionManager::new();
    open_new(&mut mgr, 1, 10, "c1");
    assert!(matches!(mgr.begin_open(1, 10), OpenStep::Conflict));
    let s = mgr.session(1).unwrap();
    assert_eq!(s.mode, SessionMode::Active);
    assert_eq!(s.handle.container_id, "c1");
}

#[test]
fn reconnect_same_project_reuses_container() {
    let mut mgr = EditorSessionManager::new();
    open_new(&mut mgr, 1, 10, "c1");
    assert!(matches!(mgr.idle_session(1), IdleStep::Armed { generation: 0 }));
    match mgr.begin_open(1, 10) {
        OpenStep::Reuse { container_id } => assert_eq!(container_id, "c1"),
        other => panic!("expected Reuse, got {:?}", other),
    }
    assert_eq!(mgr.session(1).unwrap().mode, SessionMode::Active);
}

#[test]
fn reconnect_other_project_replaces_container() {
    let mut mgr = EditorSessionManager::new();
    open_new(&mut mgr, 1, 10, "c1");
    mgr.idle_session(1);
    match mgr.begin_open(1, 20) {
        OpenStep::Replace { stale_container_id } => assert_eq!(stale_container_id, "c1"),
        other => panic!("expected Replace, got {:?}", other),
    }
    assert!(mgr.session(1).is_none());
    assert!(mgr.commit_open(1, 20, "c2".to_string()));
    let s = mgr.session(1).unwrap();
    assert_eq!(s.handle.container_id, "c2");
    assert_eq!(s.handle.project_id, 20);
}

#[test]
fn idle_timeout_ends_session_once() {
    let mut mgr = EditorSessionManager::new();
    open_new(&mut mgr, 3, 10, "c1");
    let generation = match mgr.idle_session(3) {
        IdleStep::Armed { generation } => generation,
        other => panic!("expected Armed, got {:?}", other),
    };
    assert_eq!(mgr.expire(3, generation), Some("c1".to_string()));
    assert_eq!(mgr.expire(3, generation), None);
    assert!(matches!(mgr.begin_open(3, 99), OpenStep::Create));
}

#[test]
fn stale_timer_leaves_reactivated_session() {
    let mut mgr = EditorSessionManager::new();
    open_new(&mut mgr, 3, 10, "c1");
    let first = match mgr.idle_session(3) {
        IdleStep::Armed { generation } => generation,
        other => panic!("expected Armed, got {:?}", other),
    };
    assert!(matches!(mgr.begin_open(3, 10), OpenStep::Reuse { .. }));
    assert_eq!(mgr.expire(3, first), None);
    let second = match mgr.idle_session(3) {
        IdleStep::Armed { generation } => generation,
        other => panic!("expected Armed, got {:?}", other),
    };
    assert_ne!(first, second);
    assert_eq!(mgr.expire(3, first), None);
    assert!(mgr.session(3).is_some());
    assert_eq!(mgr.expire(3, second), Some("c1".to_string()));
}

#[test]
fn idle_without_session_is_unchanged() {
    let mut mgr = EditorSessionManager::new();
    assert!(matches!(mgr.idle_session(5), IdleStep::Unchanged));
    open_new(&mut mgr, 5, 1, "c");
    mgr.idle_session(5);
    assert!(matches!(mgr.idle_session(5), IdleStep::Unchanged));
}

#[test]
fn end_stops_container_in_any_mode() {
    let mut mgr = EditorSessionManager::new();
    open_new(&mut mgr, 1, 1, "a");
    open_new(&mut mgr, 2, 1, "b");
    mgr.idle_session(2);
    assert_eq!(mgr.end_session(1), Some("a".to_string()));
    assert_eq!(mgr.end_session(2), Some("b".to_string()));
    assert_eq!(mgr.end_session(2), None);
}

#[test]
fn shutdown_returns_every_container() {
    let mut mgr = EditorSessionManager::new();
    open_new(&mut mgr, 1, 1, "a");
    open_new(&mut mgr, 2, 1, "b");
    open_new(&mut mgr, 3, 1, "c");
    mgr.idle_session(2);
    let mut stopped = mgr.shutdown();
    stopped.sort();
    assert_eq!(stopped, vec!["a".to_string(), "b".to_string(), "c".to_string()]);
    assert!(mgr.session(1).is_none());
    assert!(mgr.shutdown().is_empty());
}
