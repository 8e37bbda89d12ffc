//! The session table: which user owns a live sandbox, in which mode, and the
//! decisions of the session lifecycle (open, idle, expire, end, shutdown).
//!
//! All container-engine work happens outside this module: each decision
//! returns what the caller must do (create, stop) and the caller reports back.
use std::collections::HashMap;
use vstd::prelude::*;
use vstd::std_specs::iter::IteratorSpec;

verus! {

broadcast use vstd::std_specs::hash::group_hash_axioms;

/// The sandbox that backs a session.
#[derive(Debug)]
pub struct SessionHandle {
    pub project_id: i32,
    pub container_id: String,
}

/// Whether a connection is bound to the session, or it waits for one.
#[derive(Clone, Copy, Debug, PartialEq, Eq)]
pub enum SessionMode {
    Active,
    /// Waiting for a reconnect; `generation` names the eviction timer that
    /// was armed when the session went idle.
    Idle { generation: u64 },
}

#[derive(Debug)]
pub struct SessionState {
    pub handle: SessionHandle,
    pub mode: SessionMode,
}

/// The abstract table: user id to session.
pub type Sessions = Map<i32, SessionState>;

pub open spec fn active_state(project_id: i32, container_id: String) -> SessionState {
    SessionState { handle: SessionHandle { project_id, container_id }, mode: SessionMode::Active }
}

pub open spec fn with_mode(s: SessionState, mode: SessionMode) -> SessionState {
    SessionState { handle: s.handle, mode }
}

/// Map from user id to session state: at most one entry per user.
#[derive(Debug)]
pub struct SessionTable {
    entries: HashMap<i32, SessionState>,
}

impl View for SessionTable {
    type V = Sessions;

    closed spec fn view(&self) -> Sessions {
        self.entries@
    }
}

impl SessionTable {
    pub fn new() -> (r: Self)
        ensures
            r@ == Map::<i32, SessionState>::empty(),
    {
        SessionTable { entries: HashMap::new() }
    }

    /// Looks up the session of `user`.
    pub fn get(&self, user: i32) -> (r: Option<&SessionState>)
        ensures
            r == (if self@.contains_key(user) { Some(&self@[user]) } else { None::<&SessionState> }),
    {
        self.entries.get(&user)
    }

    /// Records a brand-new active session, replacing any entry of `user`.
    pub fn insert_active(&mut self, user: i32, project_id: i32, container_id: String)
        ensures
            final(self)@ == old(self)@.insert(user, active_state(project_id, container_id)),
    {
        let state = SessionState {
            handle: SessionHandle { project_id, container_id },
            mode: SessionMode::Active,
        };
        self.entries.insert(user, state);
    }

    /// Puts an existing session in idle mode under the timer `generation`;
    /// does nothing when `user` has no session.
    pub fn set_idle(&mut self, user: i32, generation: u64)
        ensures
            final(self)@ == (if old(self)@.contains_key(user) {
                old(self)@.insert(user, with_mode(old(self)@[user], SessionMode::Idle { generation }))
            } else {
                old(self)@
            }),
    {
        if let Some(state) = self.entries.remove(&user) {
            let state = SessionState { handle: state.handle, mode: SessionMode::Idle { generation } };
            self.entries.insert(user, state);
        }
    }

    /// Turns an idle session active again, dropping its timer; does nothing
    /// unless the session of `user` is idle.
    pub fn set_active(&mut self, user: i32)
        ensures
            final(self)@ == (if old(self)@.contains_key(user) && old(self)@[user].mode is Idle {
                old(self)@.insert(user, with_mode(old(self)@[user], SessionMode::Active))
            } else {
                old(self)@
            }),
    {
        let idle = match self.entries.get(&user) {
            Some(state) => matches!(state.mode, SessionMode::Idle { .. }),
            None => false,
        };
        if idle {
            if let Some(state) = self.entries.remove(&user) {
                let state = SessionState { handle: state.handle, mode: SessionMode::Active };
                self.entries.insert(user, state);
            }
        }
    }

    /// The users that have a session, each once, in no particular order.
    pub fn users(&self) -> (r: Vec<i32>)
        ensures
            r@.no_duplicates(),
            r@.to_set() == self@.dom(),
    {
        let ghost keys = vstd::std_specs::hash::spec_keys_iter(&self.entries).remaining();
        let mut out: Vec<i32> = Vec::new();
        for u in it: self.entries.keys()
            invariant
                it.seq() == keys,
                out@ == keys.unref().take(it.index() as int),
            ensures
                out@ == keys.unref(),
        {
            out.push(*u);
        }
        proof {
            vstd::std_specs::hash::axiom_spec_keys_iter(&self.entries);
            assert forall|i: int, j: int| 0 <= i < out@.len() && 0 <= j < out@.len() && i != j
                implies out@[i] != out@[j] by {
                assert(keys[i] != keys[j]);
            }
        }
        out
    }

    /// Deletes the session of `user` and hands it back.
    pub fn remove(&mut self, user: i32) -> (r: Option<SessionState>)
        ensures
            final(self)@ == old(self)@.remove(user),
            r == (if old(self)@.contains_key(user) { Some(old(self)@[user]) } else { None }),
    {
        self.entries.remove(&user)
    }
}

/// What the caller of `EditorSessionManager::begin_open` must do next.
#[derive(Debug)]
pub enum OpenStep {
    /// The user already has a connected session: refuse the second one.
    Conflict,
    /// An idle session of the same project was made active again: bind the
    /// connection to its container; no container work is needed.
    Reuse { container_id: String },
    /// The user has no session: create and start a container, upload the
    /// project, then call `commit_open`.
    Create,
    /// An idle session of another project was ended: stop its container,
    /// then go on as for `Create`.
    Replace { stale_container_id: String },
}

/// What the caller of `EditorSessionManager::idle_session` must do next.
#[derive(Debug)]
pub enum IdleStep {
    /// Arm an eviction timer that calls `expire(user, generation)`.
    Armed { generation: u64 },
    /// No timer generation is left: the session was ended at once, stop
    /// this container.
    Ended { container_id: String },
    /// The user had no active session: nothing to do.
    Unchanged,
}

/// The abstract state of a session manager.
pub struct ManagerModel {
    pub sessions: Sessions,
    /// The generation that the next armed eviction timer will carry.
    pub next_generation: u64,
}

pub open spec fn is_active(s: Sessions, user: i32) -> bool {
    s.contains_key(user) && s[user].mode is Active
}

pub open spec fn is_idle(s: Sessions, user: i32) -> bool {
    s.contains_key(user) && s[user].mode is Idle
}

/// Every idle session carries a generation older than the next one.
pub open spec fn generations_fresh(m: ManagerModel) -> bool {
    forall|u: i32| #[trigger]
        is_idle(m.sessions, u) ==> m.sessions[u].mode->generation < m.next_generation
}

pub open spec fn open_step(s: Sessions, user: i32, project_id: i32) -> OpenStep {
    if !s.contains_key(user) {
        OpenStep::Create
    } else if s[user].mode is Active {
        OpenStep::Conflict
    } else if s[user].handle.project_id == project_id {
        OpenStep::Reuse { container_id: s[user].handle.container_id }
    } else {
        OpenStep::Replace { stale_container_id: s[user].handle.container_id }
    }
}

pub open spec fn sessions_after_open(s: Sessions, user: i32, project_id: i32) -> Sessions {
    if !s.contains_key(user) || s[user].mode is Active {
        s
    } else if s[user].handle.project_id == project_id {
        s.insert(user, with_mode(s[user], SessionMode::Active))
    } else {
        s.remove(user)
    }
}

pub open spec fn sessions_after_commit(
    s: Sessions,
    user: i32,
    project_id: i32,
    container_id: String,
) -> Sessions {
    if s.contains_key(user) {
        s
    } else {
        s.insert(user, active_state(project_id, container_id))
    }
}

pub open spec fn idle_step(m: ManagerModel, user: i32) -> IdleStep {
    if !is_active(m.sessions, user) {
        IdleStep::Unchanged
    } else if m.next_generation < u64::MAX {
        IdleStep::Armed { generation: m.next_generation }
    } else {
        IdleStep::Ended { container_id: m.sessions[user].handle.container_id }
    }
}

pub open spec fn after_idle(m: ManagerModel, user: i32) -> ManagerModel {
    if !is_active(m.sessions, user) {
        m
    } else if m.next_generation < u64::MAX {
        ManagerModel {
            sessions: m.sessions.insert(
                user,
                with_mode(m.sessions[user], SessionMode::Idle { generation: m.next_generation }),
            ),
            next_generation: (m.next_generation + 1) as u64,
        }
    } else {
        ManagerModel { sessions: m.sessions.remove(user), next_generation: m.next_generation }
    }
}

/// The timer `generation` of `user` is still the one that counts.
pub open spec fn timer_current(s: Sessions, user: i32, generation: u64) -> bool {
    s.contains_key(user) && s[user].mode == (SessionMode::Idle { generation })
}

pub open spec fn container_of(s: Sessions, user: i32) -> Option<String> {
    if s.contains_key(user) {
        Some(s[user].handle.container_id)
    } else {
        None
    }
}

/// A step that touches at most the entry of `user`, never moves the
/// generation counter back, and leaves that entry fresh keeps every
/// generation fresh.
proof fn lemma_fresh_step(m: ManagerModel, n: ManagerModel, user: i32)
    requires
        generations_fresh(m),
        m.next_generation <= n.next_generation,
        n.sessions.remove(user) =~= m.sessions.remove(user),
        is_idle(n.sessions, user) ==> n.sessions[user].mode->generation < n.next_generation,
    ensures
        generations_fresh(n),
{
    assert forall|u: i32| is_idle(n.sessions, u) implies n.sessions[u].mode->generation
        < n.next_generation by {
        if u != user {
            assert(n.sessions.remove(user).contains_key(u));
            assert(n.sessions.remove(user)[u] == n.sessions[u]);
            assert(m.sessions.remove(user)[u] == m.sessions[u]);
            assert(is_idle(m.sessions, u));
        }
    }
}

/// The lifecycle decisions over the session table.
#[derive(Debug)]
pub struct EditorSessionManager {
    table: SessionTable,
    next_generation: u64,
}

impl EditorSessionManager {
    pub closed spec fn model(&self) -> ManagerModel {
        ManagerModel { sessions: self.table@, next_generation: self.next_generation }
    }

    pub open spec fn wf(&self) -> bool {
        generations_fresh(self.model())
    }

    pub fn new() -> (r: Self)
        ensures
            r.wf(),
            r.model().sessions == Map::<i32, SessionState>::empty(),
            r.model().next_generation == 0,
    {
        EditorSessionManager { table: SessionTable::new(), next_generation: 0 }
    }

    /// The session of `user`, if any.
    pub fn session(&self, user: i32) -> (r: Option<&SessionState>)
        ensures
            r == (if self.model().sessions.contains_key(user) {
                Some(&self.model().sessions[user])
            } else {
                None::<&SessionState>
            }),
    {
        self.table.get(user)
    }

    /// First half of opening a session for `user` on `project_id`: decides
    /// from the table alone, and commits the reactivation or the ending of
    /// a stale idle session at once.
    pub fn begin_open(&mut self, user: i32, project_id: i32) -> (r: OpenStep)
        requires
            old(self).wf(),
        ensures
            final(self).wf(),
            r == open_step(old(self).model().sessions, user, project_id),
            final(self).model().sessions == sessions_after_open(
                old(self).model().sessions,
                user,
                project_id,
            ),
            final(self).model().next_generation == old(self).model().next_generation,
    {
        let ghost m0 = self.model();
        let step = match self.table.get(user) {
            None => OpenStep::Create,
            Some(state) => match state.mode {
                SessionMode::Active => OpenStep::Conflict,
                SessionMode::Idle { .. } => {
                    if state.handle.project_id == project_id {
                        OpenStep::Reuse { container_id: state.handle.container_id.clone() }
                    } else {
                        OpenStep::Replace {
                            stale_container_id: state.handle.container_id.clone(),
                        }
                    }
                },
            },
        };
        match step {
            OpenStep::Reuse { .. } => self.table.set_active(user),
            OpenStep::Replace { .. } => {
                self.table.remove(user);
            },
            _ => {},
        }
        proof {
            lemma_fresh_step(m0, self.model(), user);
        }
        step
    }

    /// Second half of opening: records the started container as the active
    /// session of `user`. Returns false, and leaves the table unchanged, when
    /// another open of the same user committed first; the caller then stops
    /// `container_id` and reports a conflict.
    pub fn commit_open(&mut self, user: i32, project_id: i32, container_id: String) -> (r: bool)
        requires
            old(self).wf(),
        ensures
            final(self).wf(),
            r == !old(self).model().sessions.contains_key(user),
            final(self).model().sessions == sessions_after_commit(
                old(self).model().sessions,
                user,
                project_id,
                container_id,
            ),
            final(self).model().next_generation == old(self).model().next_generation,
    {
        let ghost m0 = self.model();
        if self.table.get(user).is_some() {
            false
        } else {
            self.table.insert_active(user, project_id, container_id);
            proof {
                lemma_fresh_step(m0, self.model(), user);
            }
            true
        }
    }

    /// The connection of `user` closed: keep the sandbox warm and ask for an
    /// eviction timer.
    pub fn idle_session(&mut self, user: i32) -> (r: IdleStep)
        requires
            old(self).wf(),
        ensures
            final(self).wf(),
            r == idle_step(old(self).model(), user),
            final(self).model() == after_idle(old(self).model(), user),
    {
        let ghost m0 = self.model();
        let active = match self.table.get(user) {
            Some(state) => matches!(state.mode, SessionMode::Active),
            None => false,
        };
        if !active {
            IdleStep::Unchanged
        } else if self.next_generation < u64::MAX {
            let generation = self.next_generation;
            self.table.set_idle(user, generation);
            self.next_generation = generation + 1;
            proof {
                lemma_fresh_step(m0, self.model(), user);
            }
            IdleStep::Armed { generation }
        } else {
            let removed = self.table.remove(user);
            proof {
                lemma_fresh_step(m0, self.model(), user);
            }
            match removed {
                Some(state) => IdleStep::Ended { container_id: state.handle.container_id },
                None => IdleStep::Unchanged,
            }
        }
    }

    /// The eviction timer `generation` of `user` fired. Ends the session only
    /// if it is still idle under that same timer, and then returns the
    /// container to stop.
    pub fn expire(&mut self, user: i32, generation: u64) -> (r: Option<String>)
        requires
            old(self).wf(),
        ensures
            final(self).wf(),
            r == (if timer_current(old(self).model().sessions, user, generation) {
                container_of(old(self).model().sessions, user)
            } else {
                None
            }),
            final(self).model().sessions == (if timer_current(
                old(self).model().sessions,
                user,
                generation,
            ) {
                old(self).model().sessions.remove(user)
            } else {
                old(self).model().sessions
            }),
            final(self).model().next_generation == old(self).model().next_generation,
    {
        let ghost m0 = self.model();
        let current = match self.table.get(user) {
            Some(state) => match state.mode {
                SessionMode::Idle { generation: g } => g == generation,
                SessionMode::Active => false,
            },
            None => false,
        };
        if current {
            let removed = self.table.remove(user);
            proof {
                lemma_fresh_step(m0, self.model(), user);
            }
            match removed {
                Some(state) => Some(state.handle.container_id),
                None => None,
            }
        } else {
            None
        }
    }

    /// Process shutdown: empties the table and returns the container of every
    /// session, active or idle, one per user, in no particular order.
    pub fn shutdown(&mut self) -> (r: Vec<String>)
        requires
            old(self).wf(),
        ensures
            final(self).wf(),
            final(self).model().sessions == Map::<i32, SessionState>::empty(),
            final(self).model().next_generation == old(self).model().next_generation,
            exists|users: Seq<i32>|
                {
                    &&& users.no_duplicates()
                    &&& users.to_set() == old(self).model().sessions.dom()
                    &&& r@ == users.map_values(
                        |u: i32| old(self).model().sessions[u].handle.container_id,
                    )
                },
    {
        let ghost start = self.model().sessions;
        let users = self.table.users();
        let mut out: Vec<String> = Vec::new();
        let mut i: usize = 0;
        while i < users.len()
            invariant
                i <= users.len(),
                users@.no_duplicates(),
                users@.to_set() == start.dom(),
                self.next_generation == old(self).next_generation,
                forall|k: i32| #[trigger]
                    self.table@.contains_key(k) <==> (start.contains_key(k)
                        && !users@.subrange(0, i as int).contains(k)),
                forall|k: i32| #[trigger]
                    self.table@.contains_key(k) ==> self.table@[k] == start[k],
                out@ == users@.subrange(0, i as int).map_values(
                    |u: i32| start[u].handle.container_id,
                ),
            decreases users.len() - i,
        {
            let u = users[i];
            assert(users@.to_set().contains(u));
            assert(!users@.subrange(0, i as int).contains(u)) by {
                if users@.subrange(0, i as int).contains(u) {
                    let j = choose|j: int| 0 <= j < i && users@.subrange(0, i as int)[j] == u;
                    assert(users@[j] == users@[i as int]);
                }
            }
            let removed = self.table.remove(u);
            if let Some(state) = removed {
                out.push(state.handle.container_id);
            }
            proof {
                let next = users@.subrange(0, i + 1);
                assert(next == users@.subrange(0, i as int).push(u));
                assert forall|k: i32| next.contains(k) <==> (users@.subrange(0, i as int).contains(k)
                    || k == u) by {
                    if next.contains(k) && k != u {
                        let j = choose|j: int| 0 <= j < next.len() && next[j] == k;
                        assert(users@.subrange(0, i as int)[j] == k);
                    }
                    if k == u {
                        assert(next[i as int] == u);
                    }
                }
            }
            i = i + 1;
        }
        proof {
            assert(users@.subrange(0, users@.len() as int) == users@);
            assert(self.table@ =~= Map::<i32, SessionState>::empty()) by {
                assert forall|k: i32| !self.table@.contains_key(k) by {
                    if start.contains_key(k) {
                        assert(users@.to_set().contains(k));
                    }
                }
            }
        }
        out
    }

    /// Ends the session of `user` in whatever mode, and returns the container
    /// to stop.
    pub fn end_session(&mut self, user: i32) -> (r: Option<String>)
        requires
            old(self).wf(),
        ensures
            final(self).wf(),
            r == container_of(old(self).model().sessions, user),
            final(self).model().sessions == old(self).model().sessions.remove(user),
            final(self).model().next_generation == old(self).model().next_generation,
    {
        let ghost m0 = self.model();
        let removed = self.table.remove(user);
        proof {
            lemma_fresh_step(m0, self.model(), user);
        }
        match removed {
            Some(state) => Some(state.handle.container_id),
            None => None,
        }
    }
}

/// Two opens of one user that both found no session and both created a
/// container: the first to commit is recorded, the second is refused, and
/// the table keeps a single session for the user, with the first container.
pub proof fn law_one_session_per_user(
    s: Sessions,
    user: i32,
    project_a: i32,
    container_a: String,
    project_b: i32,
    container_b: String,
)
    requires
        !s.contains_key(user),
    ensures
        open_step(s, user, project_a) == OpenStep::Create,
        open_step(s, user, project_b) == OpenStep::Create,
        ({
            let s1 = sessions_after_commit(s, user, project_a, container_a);
            let s2 = sessions_after_commit(s1, user, project_b, container_b);
            &&& !s.contains_key(user)
            &&& s1.contains_key(user)
            &&& s2 == s1
            &&& s2[user] == active_state(project_a, container_a)
        }),
{
}

/// Opening a project twice while the first session is still active: the
/// second open is a conflict and changes nothing, so no second container is
/// created.
pub proof fn law_second_open_conflicts(s: Sessions, user: i32, project_id: i32, container_id: String)
    requires
        !s.contains_key(user),
    ensures
        open_step(s, user, project_id) == OpenStep::Create,
        ({
            let s1 = sessions_after_commit(s, user, project_id, container_id);
            &&& open_step(s1, user, project_id) == OpenStep::Conflict
            &&& sessions_after_open(s1, user, project_id) == s1
        }),
{
}

/// Open, idle, then open the same project again before the timer fires:
/// the session is reused with the same container. Only the first open asks
/// for a container, and no step asks to stop one.
pub proof fn law_reconnect_reuses_container(
    m: ManagerModel,
    user: i32,
    project_id: i32,
    container_id: String,
)
    requires
        !m.sessions.contains_key(user),
        m.next_generation < u64::MAX,
    ensures
        open_step(m.sessions, user, project_id) == OpenStep::Create,
        ({
            let m1 = ManagerModel {
                sessions: sessions_after_commit(m.sessions, user, project_id, container_id),
                next_generation: m.next_generation,
            };
            let m2 = after_idle(m1, user);
            &&& idle_step(m1, user) == (IdleStep::Armed { generation: m.next_generation })
            &&& open_step(m2.sessions, user, project_id) == (OpenStep::Reuse { container_id })
            &&& sessions_after_open(m2.sessions, user, project_id)[user] == active_state(
                project_id,
                container_id,
            )
        }),
{
}

/// Open, idle, then open another project before the timer fires: the first
/// container is to be stopped and its session is gone; the container created
/// next, when it differs from the first, becomes the session's container.
pub proof fn law_reconnect_other_project_replaces(
    m: ManagerModel,
    user: i32,
    project_a: i32,
    container_a: String,
    project_b: i32,
    container_b: String,
)
    requires
        !m.sessions.contains_key(user),
        m.next_generation < u64::MAX,
        project_a != project_b,
        container_a != container_b,
    ensures
        ({
            let m1 = ManagerModel {
                sessions: sessions_after_commit(m.sessions, user, project_a, container_a),
                next_generation: m.next_generation,
            };
            let m2 = after_idle(m1, user);
            let s3 = sessions_after_open(m2.sessions, user, project_b);
            let s4 = sessions_after_commit(s3, user, project_b, container_b);
            &&& open_step(m2.sessions, user, project_b) == (OpenStep::Replace { stale_container_id: container_a })
            &&& !s3.contains_key(user)
            &&& s4[user] == active_state(project_b, container_b)
            &&& s4[user].handle.container_id != container_a
        }),
{
}

/// Idle with no open or end before the timer fires: the timer ends the
/// session exactly once (a second firing does nothing), and a later open
/// creates a fresh container.
pub proof fn law_idle_timeout_ends_once(
    m: ManagerModel,
    user: i32,
    project_a: i32,
    project_b: i32,
)
    requires
        is_active(m.sessions, user),
        m.next_generation < u64::MAX,
    ensures
        ({
            let g = m.next_generation;
            let m1 = after_idle(m, user);
            let s2 = m1.sessions.remove(user);
            &&& idle_step(m, user) == (IdleStep::Armed { generation: g })
            &&& timer_current(m1.sessions, user, g)
            &&& container_of(m1.sessions, user) == Some(m.sessions[user].handle.container_id)
            &&& !timer_current(s2, user, g)
            &&& open_step(s2, user, project_a) == OpenStep::Create
            &&& open_step(s2, user, project_b) == OpenStep::Create
        }),
{
}

/// A timer armed before a reactivation never ends the reactivated session,
/// neither while it stays active nor after it goes idle again under a newer
/// timer.
pub proof fn law_stale_timer_ignored(m: ManagerModel, user: i32, project_id: i32)
    requires
        generations_fresh(m),
        is_active(m.sessions, user),
        m.sessions[user].handle.project_id == project_id,
        m.next_generation < u64::MAX - 1,
    ensures
        ({
            let g = m.next_generation;
            let m1 = after_idle(m, user);
            let m2 = ManagerModel {
                sessions: sessions_after_open(m1.sessions, user, project_id),
                next_generation: m1.next_generation,
            };
            let m3 = after_idle(m2, user);
            &&& idle_step(m, user) == (IdleStep::Armed { generation: g })
            &&& open_step(m1.sessions, user, project_id) is Reuse
            &&& !timer_current(m2.sessions, user, g)
            &&& idle_step(m2, user) == (IdleStep::Armed { generation: (g + 1) as u64 })
            &&& !timer_current(m3.sessions, user, g)
        }),
{
}

/// One call on the session manager, as the connection handlers and the
/// eviction timers make them, in any interleaving.
pub enum ManagerOp {
    BeginOpen { user: i32, project_id: i32 },
    CommitOpen { user: i32, project_id: i32, container_id: String },
    Idle { user: i32 },
    Expire { user: i32, generation: u64 },
    End { user: i32 },
}

pub open spec fn op_user(op: ManagerOp) -> i32 {
    match op {
        ManagerOp::BeginOpen { user, .. } => user,
        ManagerOp::CommitOpen { user, .. } => user,
        ManagerOp::Idle { user } => user,
        ManagerOp::Expire { user, .. } => user,
        ManagerOp::End { user } => user,
    }
}

/// The manager's state after `op`, as the methods' contracts give it.
pub open spec fn op_next(m: ManagerModel, op: ManagerOp) -> ManagerModel {
    match op {
        ManagerOp::BeginOpen { user, project_id } => ManagerModel {
            sessions: sessions_after_open(m.sessions, user, project_id),
            next_generation: m.next_generation,
        },
        ManagerOp::CommitOpen { user, project_id, container_id } => ManagerModel {
            sessions: sessions_after_commit(m.sessions, user, project_id, container_id),
            next_generation: m.next_generation,
        },
        ManagerOp::Idle { user } => after_idle(m, user),
        ManagerOp::Expire { user, generation } => ManagerModel {
            sessions: if timer_current(m.sessions, user, generation) {
                m.sessions.remove(user)
            } else {
                m.sessions
            },
            next_generation: m.next_generation,
        },
        ManagerOp::End { user } => ManagerModel {
            sessions: m.sessions.remove(user),
            next_generation: m.next_generation,
        },
    }
}

/// The container that the caller of `op` is told to stop, if any: a stale
/// idle session replaced by an open, a container whose commit was refused,
/// an idle session ended for want of a timer, an expired or ended session.
pub open spec fn op_stops(m: ManagerModel, op: ManagerOp) -> Option<String> {
    match op {
        ManagerOp::BeginOpen { user, project_id } => match open_step(m.sessions, user, project_id) {
            OpenStep::Replace { stale_container_id } => Some(stale_container_id),
            _ => None,
        },
        ManagerOp::CommitOpen { user, container_id, .. } => if m.sessions.contains_key(user) {
            Some(container_id)
        } else {
            None
        },
        ManagerOp::Idle { user } => match idle_step(m, user) {
            IdleStep::Ended { container_id } => Some(container_id),
            _ => None,
        },
        ManagerOp::Expire { user, generation } => if timer_current(m.sessions, user, generation) {
            container_of(m.sessions, user)
        } else {
            None
        },
        ManagerOp::End { user } => container_of(m.sessions, user),
    }
}

pub open spec fn run_ops(m: ManagerModel, ops: Seq<ManagerOp>) -> ManagerModel
    decreases ops.len(),
{
    if ops.len() == 0 {
        m
    } else {
        op_next(run_ops(m, ops.drop_last()), ops.last())
    }
}

/// The (user, container) pairs of the table.
pub open spec fn table_pairs(s: Sessions) -> Set<(i32, String)> {
    Set::new(|p: (i32, String)| s.contains_key(p.0) && s[p.0].handle.container_id == p.1)
}

/// The sandboxes that are up for each user after `ops`, counted from the
/// engine's side: those in the table at the start, plus each container whose
/// commit was accepted, minus each container the caller was told to stop.
pub open spec fn live_after(m: ManagerModel, ops: Seq<ManagerOp>) -> Set<(i32, String)>
    decreases ops.len(),
{
    if ops.len() == 0 {
        table_pairs(m.sessions)
    } else {
        let before = run_ops(m, ops.drop_last());
        let prev = live_after(m, ops.drop_last());
        let op = ops.last();
        let added = match op {
            ManagerOp::CommitOpen { user, container_id, .. } => if !before.sessions.contains_key(
                user,
            ) {
                prev.insert((user, container_id))
            } else {
                prev
            },
            _ => prev,
        };
        match op_stops(before, op) {
            Some(c) => added.remove((op_user(op), c)),
            None => added,
        }
    }
}

/// Each accepted or refused commit names a container that is not already
/// the user's sandbox in the table: the engine hands out fresh ids.
pub open spec fn fresh_commits(m: ManagerModel, ops: Seq<ManagerOp>) -> bool
    decreases ops.len(),
{
    if ops.len() == 0 {
        true
    } else {
        &&& fresh_commits(m, ops.drop_last())
        &&& match ops.last() {
            ManagerOp::CommitOpen { user, container_id, .. } => !table_pairs(
                run_ops(m, ops.drop_last()).sessions,
            ).contains((user, container_id)),
            _ => true,
        }
    }
}

/// Whatever calls the handlers and the timers make, in whatever order: the
/// sandboxes left up are exactly the table's entries, so a user never has
/// more than one sandbox up, and it is the one the table names.
pub proof fn law_one_live_sandbox_per_user(m: ManagerModel, ops: Seq<ManagerOp>)
    requires
        fresh_commits(m, ops),
    ensures
        live_after(m, ops) == table_pairs(run_ops(m, ops).sessions),
        forall|u: i32, a: String, b: String|
            live_after(m, ops).contains((u, a)) && live_after(m, ops).contains((u, b)) ==> a == b,
    decreases ops.len(),
{
    if ops.len() > 0 {
        law_one_live_sandbox_per_user(m, ops.drop_last());
        let before = run_ops(m, ops.drop_last());
        let after = run_ops(m, ops);
        let s = before.sessions;
        let t = after.sessions;
        let op = ops.last();
        let u = op_user(op);
        let prev = live_after(m, ops.drop_last());
        assert(prev == table_pairs(s));
        assert(after == op_next(before, op));
        assert forall|p: (i32, String)| live_after(m, ops).contains(p) <==> table_pairs(t).contains(
            p,
        ) by {
            if p.0 != u {
                assert(t.contains_key(p.0) == s.contains_key(p.0));
                if s.contains_key(p.0) {
                    assert(t[p.0] == s[p.0]);
                }
            } else {
                match op {
                    ManagerOp::BeginOpen { user, project_id } => {
                        if s.contains_key(u) && s[u].mode is Idle && s[u].handle.project_id
                            == project_id {
                            assert(t[u].handle == s[u].handle);
                        }
                    },
                    ManagerOp::CommitOpen { user, project_id, container_id } => {},
                    ManagerOp::Idle { user } => {
                        if is_active(s, u) && before.next_generation < u64::MAX {
                            assert(t[u].handle == s[u].handle);
                        }
                    },
                    ManagerOp::Expire { user, generation } => {},
                    ManagerOp::End { user } => {},
                }
            }
        }
        assert(live_after(m, ops) =~= table_pairs(t));
    }
}

} // verus!
