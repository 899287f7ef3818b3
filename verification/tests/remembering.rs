//! The memory of conversations, carried out on SQLite.
use agent_toolkit::agent::{end_turn, Message};
use agent_toolkit::rag::context::Context;
use agent_toolkit::rag::types::now_unix;
use agent_toolkit::sessions::{
    plan_append, stale_sessions, Activity, Place, MAX_MESSAGES_PER_SESSION, SESSION_TTL_SECS,
};
use rusqlite::Connection;

/// The memory in a SQLite database in memory, which lives as long as a connection
/// to it is open.
struct Store {
    conn: Connection,
}

impl Store {
    fn open(name: &str) -> Store {
        let conn = Connection::open(format!("file:{name}?mode=memory&cache=shared")).unwrap();
        conn.execute_batch(
            "CREATE TABLE IF NOT EXISTS messages(
                id INTEGER PRIMARY KEY AUTOINCREMENT, session_id TEXT NOT NULL,
                seq INTEGER NOT NULL, role TEXT NOT NULL, content TEXT, tool_call_id TEXT,
                name TEXT, created_at INTEGER NOT NULL);",
        )
        .unwrap();
        Store { conn }
    }

    fn history(&self, session_id: &str) -> Vec<Message> {
        let mut stmt = self
            .conn
            .prepare(
                "SELECT role, content, tool_call_id, name FROM messages \
                 WHERE session_id = ?1 ORDER BY seq",
            )
            .unwrap();
        let rows = stmt
            .query_map((session_id,), |r| {
                Ok(Message {
                    role: r.get(0)?,
                    content: r.get(1)?,
                    tool_calls: None,
                    tool_call_id: r.get(2)?,
                    name: r.get(3)?,
                })
            })
            .unwrap();
        rows.map(|r| r.unwrap()).collect()
    }

    fn append(&mut self, session_id: &str, messages: &[Message]) {
        let tx = self.conn.transaction().unwrap();
        let places: Vec<Place> = {
            let mut stmt = tx
                .prepare("SELECT id, seq FROM messages WHERE session_id = ?1 ORDER BY seq, id")
                .unwrap();
            let rows = stmt
                .query_map((session_id,), |r| Ok(Place { id: r.get(0)?, seq: r.get(1)? }))
                .unwrap();
            rows.map(|r| r.unwrap()).collect()
        };
        let plan = plan_append(&places, messages.len()).unwrap();
        for id in &plan.drop {
            tx.execute("DELETE FROM messages WHERE id = ?1", (id,)).unwrap();
        }
        for (m, seq) in messages.iter().skip(plan.skip).zip(&plan.seqs) {
            tx.execute(
                "INSERT INTO messages(session_id, seq, role, content, tool_call_id, name, \
                 created_at) VALUES (?1, ?2, ?3, ?4, ?5, ?6, ?7)",
                (session_id, seq, &m.role, &m.content, &m.tool_call_id, &m.name, now_unix()),
            )
            .unwrap();
        }
        tx.commit().unwrap();
    }

    fn clear(&mut self, session_id: &str) {
        self.conn.execute("DELETE FROM messages WHERE session_id = ?1", (session_id,)).unwrap();
    }

    fn prune(&mut self, now: i64) {
        let log: Vec<Activity> = {
            let mut stmt =
                self.conn.prepare("SELECT session_id, created_at FROM messages").unwrap();
            let rows = stmt
                .query_map((), |r| Ok(Activity { session_id: r.get(0)?, created_at: r.get(1)? }))
                .unwrap();
            rows.map(|r| r.unwrap()).collect()
        };
        for s in stale_sessions(&log, now) {
            self.clear(&s);
        }
    }
}

fn msg(role: &str, text: &str) -> Message {
    Message {
        role: role.into(),
        content: Some(text.into()),
        tool_calls: None,
        tool_call_id: None,
        name: None,
    }
}

#[test]
fn history_persists_across_reopen() {
    let _open = Store::open("persist");
    {
        let mut store = Store::open("persist");
        store.append("s1", &[msg("user", "hi"), msg("assistant", "hello")]);
    }
    let store = Store::open("persist");
    let history = store.history("s1");
    assert_eq!(history.len(), 2);
    assert_eq!(history[0].role, "user");
    assert_eq!(history[1].content.as_deref(), Some("hello"));
}

#[test]
fn sessions_are_isolated() {
    let mut store = Store::open("isolated");
    store.append("a", &[msg("user", "from a")]);
    store.append("b", &[msg("user", "from b")]);
    assert_eq!(store.history("a").len(), 1);
    assert_eq!(store.history("b").len(), 1);
}

#[test]
fn history_is_capped() {
    let mut store = Store::open("capped");
    for i in 0..60 {
        store.append("s1", &[msg("user", &format!("turn {i}"))]);
    }
    let history = store.history("s1");
    assert_eq!(history.len(), MAX_MESSAGES_PER_SESSION);
    assert_eq!(history.last().unwrap().content.as_deref(), Some("turn 59"));
    assert_eq!(history[0].content.as_deref(), Some("turn 20"));
}

#[test]
fn clear_removes_history() {
    let mut store = Store::open("clear");
    store.append("s1", &[msg("user", "hi")]);
    store.append("s2", &[msg("user", "ho")]);
    store.clear("s1");
    assert!(store.history("s1").is_empty());
    assert_eq!(store.history("s2").len(), 1);
}

#[test]
fn long_appends_keep_their_end() {
    let mut store = Store::open("long");
    store.append("s1", &[msg("user", "old")]);
    let many: Vec<Message> = (0..50).map(|i| msg("user", &format!("m{i}"))).collect();
    store.append("s1", &many);
    let history = store.history("s1");
    assert_eq!(history.len(), MAX_MESSAGES_PER_SESSION);
    assert_eq!(history[0].content.as_deref(), Some("m10"));
    assert_eq!(history[39].content.as_deref(), Some("m49"));
}

#[test]
fn plans_number_on_and_drop_the_oldest() {
    let p = plan_append(&[], 2).unwrap();
    assert_eq!(p.seqs, vec![0, 1]);
    assert!(p.drop.is_empty());
    let places: Vec<Place> = (0..40).map(|i| Place { id: 100 + i, seq: 10 + i }).collect();
    let p = plan_append(&places, 2).unwrap();
    assert_eq!(p.drop, vec![100, 101]);
    assert_eq!(p.seqs, vec![50, 51]);
    assert_eq!(p.skip, 0);
    let none = plan_append(&places, 0).unwrap();
    assert!(none.drop.is_empty() && none.seqs.is_empty());
    assert!(plan_append(&[Place { id: 1, seq: i64::MAX }], 1).is_none());
    let last = plan_append(&[Place { id: 1, seq: i64::MAX - 1 }], 1).unwrap();
    assert_eq!(last.seqs, vec![i64::MAX]);
    assert!(plan_append(&[Place { id: 1, seq: i64::MAX - 1 }], 2).is_none());
}

#[test]
fn stale_sessions_are_dropped() {
    let log = |s: &str, t: i64| Activity { session_id: s.to_string(), created_at: t };
    let now = 10_000_000;
    let old = now - SESSION_TTL_SECS - 1;
    let entries = [
        log("z", old),
        log("mixed", old),
        log("mixed", now),
        log("edge", now - SESSION_TTL_SECS),
        log("a", old),
        log("z", old - 5),
    ];
    assert_eq!(stale_sessions(&entries, now), vec!["a", "z"]);
    assert!(stale_sessions(&[], now).is_empty());
    assert_eq!(SESSION_TTL_SECS, 60 * 60 * 24 * 30);
}

#[test]
fn unused_sessions_are_pruned() {
    let mut store = Store::open("prune");
    store.append("s1", &[msg("user", "hi")]);
    let now = now_unix();
    store.prune(now);
    assert_eq!(store.history("s1").len(), 1);
    store.prune(now + SESSION_TTL_SECS + 60);
    assert!(store.history("s1").is_empty());
}

#[test]
fn failed_turns_leave_no_trace() {
    let mut store = Store::open("turns");
    let context = || Context { text: String::new(), sources: Vec::new(), truncated: false };
    store.append("other", &[msg("user", "mine")]);

    let end = end_turn("question", Ok("answer".to_string()), context());
    assert_eq!(end.result.unwrap().answer, "answer");
    store.append("s", &end.remember);
    let said: Vec<String> =
        store.history("s").into_iter().map(|m| m.content.unwrap()).collect();
    assert_eq!(said, ["question", "answer"]);

    let end = end_turn("again", Err("CONN: no".to_string()), context());
    assert_eq!(end.result.err().unwrap(), "CONN: no");
    assert!(end.remember.is_empty());
    store.append("s", &end.remember);
    assert_eq!(store.history("s").len(), 2);
    assert_eq!(store.history("other").len(), 1);
}
