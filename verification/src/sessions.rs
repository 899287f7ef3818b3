//! The memory of conversations: what an append stores and drops, and which
//! sessions have gone stale.
//!
//! The messages of a session are numbered in increasing order. The library plans
//! what becomes of the table; whoever holds the database carries it out in one
//! transaction.
use vstd::prelude::*;

use crate::agent::{plain, remembered, MessageView};
use crate::order::{set_of_texts, text_set};
use crate::search::same_text;

verus! {

/// How many messages a session keeps.
pub const MAX_MESSAGES_PER_SESSION: usize = 40;

/// After how many seconds without activity a session is dropped: 30 days.
pub const SESSION_TTL_SECS: i64 = 2_592_000;

// ── Appending ────────────────────────────────────────────────────────────────

/// The place of a stored message: its row and its number within the session.
#[derive(Debug, Clone, Copy, PartialEq, Eq, Structural)]
pub struct Place {
    pub id: i64,
    pub seq: i64,
}

/// What an append does to the table.
#[derive(Debug)]
pub struct AppendPlan {
    /// The rows that are deleted, the oldest first.
    pub drop: Vec<i64>,
    /// How many of the new messages are not stored, from the first on.
    pub skip: usize,
    /// The numbers of the new messages that are stored.
    pub seqs: Vec<i64>,
}

/// What an [`AppendPlan`] stands for.
#[verifier::ext_equal]
pub struct PlanView {
    pub drop: Seq<i64>,
    pub skip: int,
    pub seqs: Seq<i64>,
}

impl View for AppendPlan {
    type V = PlanView;

    open spec fn view(&self) -> PlanView {
        PlanView { drop: self.drop@, skip: self.skip as int, seqs: self.seqs@ }
    }
}

/// The number of the first new message of a session.
pub open spec fn next_seq(places: Seq<Place>) -> int {
    if places.len() == 0 {
        0
    } else {
        places.last().seq + 1
    }
}

/// How many messages are too many when `n` come to `held`. Where none come,
/// nothing is dropped.
pub open spec fn excess(held: int, n: int) -> int {
    if n > 0 && held + n > MAX_MESSAGES_PER_SESSION {
        held + n - MAX_MESSAGES_PER_SESSION
    } else {
        0
    }
}

/// What an append of `n` messages does, the oldest message of the session being
/// at the first place: the new ones are numbered on, and the oldest are dropped.
pub open spec fn append_plan(places: Seq<Place>, n: int) -> PlanView {
    let over = excess(places.len() as int, n);
    let gone = if over > places.len() {
        places.len() as int
    } else {
        over
    };
    PlanView {
        drop: places.take(gone).map_values(|p: Place| p.id),
        skip: over - gone,
        seqs: Seq::new(
            (n - (over - gone)) as nat,
            |i: int| (next_seq(places) + (over - gone) + i) as i64,
        ),
    }
}

/// Plans the append of `n` messages to a session whose messages are at `places`,
/// the oldest first. Nothing is planned if the numbers run out.
pub fn plan_append(places: &[Place], n: usize) -> (r: Option<AppendPlan>)
    ensures
        match r {
            Some(p) => p@ == append_plan(places@, n as int) && next_seq(places@) + n - 1 <= i64::MAX,
            None => next_seq(places@) + n - 1 > i64::MAX,
        },
{
    let held: usize = places.len();
    let first: i128 = if held == 0 {
        0
    } else {
        places[held - 1].seq as i128 + 1
    };
    if first + n as i128 - 1 > i64::MAX as i128 {
        return None;
    }
    let skip: usize = if n > MAX_MESSAGES_PER_SESSION {
        n - MAX_MESSAGES_PER_SESSION
    } else {
        0
    };
    let room: usize = MAX_MESSAGES_PER_SESSION - (n - skip);
    let gone: usize = if n > 0 && held > room {
        held - room
    } else {
        0
    };
    let mut drop: Vec<i64> = Vec::new();
    let mut i: usize = 0;
    while i < gone
        invariant
            i <= gone <= places@.len(),
            drop@.len() == i,
            forall|k: int| 0 <= k < i ==> #[trigger] drop@[k] == places@[k].id,
        decreases gone - i,
    {
        drop.push(places[i].id);
        i = i + 1;
    }
    let mut seqs: Vec<i64> = Vec::new();
    let mut j: usize = skip;
    while j < n
        invariant
            skip <= j <= n,
            first + n - 1 <= i64::MAX,
            first >= i64::MIN,
            seqs@.len() == j - skip,
            forall|k: int| 0 <= k < j - skip ==> #[trigger] seqs@[k] == first + skip + k,
        decreases n - j,
    {
        seqs.push((first + j as i128) as i64);
        j = j + 1;
    }
    let r = AppendPlan { drop: drop, skip: skip, seqs: seqs };
    proof {
        let p = append_plan(places@, n as int);
        assert(r@.skip == p.skip);
        assert(r@.drop =~= p.drop);
        assert(r@.seqs =~= p.seqs);
    }
    Some(r)
}

// ── What appends do to a session ─────────────────────────────────────────────

/// A stored message of a session.
#[verifier::ext_equal]
pub struct Held {
    pub place: Place,
    pub message: MessageView,
    pub created_at: i64,
}

/// Where the messages of a session are.
pub open spec fn places(held: Seq<Held>) -> Seq<Place> {
    held.map_values(|h: Held| h.place)
}

/// The conversation of a session.
pub open spec fn history(held: Seq<Held>) -> Seq<MessageView> {
    held.map_values(|h: Held| h.message)
}

/// The last messages of a conversation, as many as a session keeps.
pub open spec fn recent(messages: Seq<MessageView>) -> Seq<MessageView> {
    if messages.len() > MAX_MESSAGES_PER_SESSION {
        messages.skip(messages.len() - MAX_MESSAGES_PER_SESSION)
    } else {
        messages
    }
}

/// The rows of a session after a plan is carried out: `ids` are the rows that the
/// new messages get, and `now` is the time.
pub open spec fn carried_out(
    held: Seq<Held>,
    plan: PlanView,
    messages: Seq<MessageView>,
    ids: spec_fn(int) -> i64,
    now: i64,
) -> Seq<Held> {
    held.filter(|h: Held| !plan.drop.contains(h.place.id)) + Seq::new(
        plan.seqs.len(),
        |i: int|
            Held {
                place: Place { id: ids(i), seq: plan.seqs[i] },
                message: messages[plan.skip + i],
                created_at: now,
            },
    )
}

/// The messages of a session stand in different rows and are numbered in
/// increasing order.
pub open spec fn well_kept(held: Seq<Held>) -> bool {
    forall|i: int, j: int|
        0 <= i < j < held.len() ==> (#[trigger] held[i]).place.id != (#[trigger] held[j]).place.id
            && held[i].place.seq < held[j].place.seq
}

proof fn lemma_filter_front(held: Seq<Held>, n: int, p: spec_fn(Held) -> bool)
    requires
        0 <= n <= held.len(),
        forall|i: int| 0 <= i < held.len() ==> p(#[trigger] held[i]) == (i >= n),
    ensures
        held.filter(p) == held.skip(n),
    decreases held.len(),
{
    reveal(Seq::filter);
    if held.len() > 0 {
        let d = held.drop_last();
        assert(p(held[held.len() - 1]) == (held.len() - 1 >= n));
        if n == held.len() {
            assert forall|i: int| 0 <= i < d.len() implies p(#[trigger] d[i]) == (i >= n - 1) by {
                assert(d[i] == held[i]);
            }
            lemma_filter_front(d, n - 1, p);
            assert(d.skip(n - 1) =~= held.skip(n));
        } else {
            assert forall|i: int| 0 <= i < d.len() implies p(#[trigger] d[i]) == (i >= n) by {
                assert(d[i] == held[i]);
            }
            lemma_filter_front(d, n, p);
            assert(d.skip(n).push(held.last()) =~= held.skip(n));
        }
    } else {
        assert(held.filter(p) =~= held.skip(n));
    }
}

proof fn lemma_dropped(held: Seq<Held>, n: int)
    requires
        well_kept(held),
        0 <= n,
    ensures
        ({
            let plan = append_plan(places(held), n);
            held.filter(|h: Held| !plan.drop.contains(h.place.id)) == held.skip(
                plan.drop.len() as int,
            )
        }),
{
    let plan = append_plan(places(held), n);
    let gone = plan.drop.len() as int;
    let p = |h: Held| !plan.drop.contains(h.place.id);
    assert forall|i: int| 0 <= i < held.len() implies p(#[trigger] held[i]) == (i >= gone) by {
        if i < gone {
            assert(plan.drop[i] == held[i].place.id);
        } else if plan.drop.contains(held[i].place.id) {
            let k = choose|k: int|
                0 <= k < plan.drop.len() && plan.drop[k] == held[i].place.id;
            assert(plan.drop[k] == held[k].place.id);
            assert(held[k].place.id != held[i].place.id);
        }
    }
    lemma_filter_front(held, gone, p);
}

/// After an append a session holds the last messages of the conversation so far
/// and the new ones, in order, and no more than it may keep.
pub proof fn appending_keeps_the_recent_messages(
    held: Seq<Held>,
    messages: Seq<MessageView>,
    ids: spec_fn(int) -> i64,
    now: i64,
)
    requires
        well_kept(held),
        messages.len() > 0 || held.len() <= MAX_MESSAGES_PER_SESSION,
    ensures
        ({
            let plan = append_plan(places(held), messages.len() as int);
            history(carried_out(held, plan, messages, ids, now)) == recent(
                history(held) + messages,
            )
        }),
        held.len() <= MAX_MESSAGES_PER_SESSION ==> carried_out(
            held,
            append_plan(places(held), messages.len() as int),
            messages,
            ids,
            now,
        ).len() <= MAX_MESSAGES_PER_SESSION,
{
    let n = messages.len() as int;
    let plan = append_plan(places(held), n);
    let after = carried_out(held, plan, messages, ids, now);
    let gone = plan.drop.len() as int;
    lemma_dropped(held, n);
    let all = history(held) + messages;
    let over = excess(held.len() as int, n);
    assert(history(after).len() == recent(all).len());
    assert forall|i: int| 0 <= i < history(after).len() implies history(after)[i] == recent(
        all,
    )[i] by {
        if i < held.len() - gone {
            assert(after[i] == held[gone + i]);
            assert(all[gone + i] == history(held)[gone + i]);
        } else {
            let k = i - (held.len() - gone);
            assert(after[i].message == messages[plan.skip + k]);
        }
    }
    assert(history(after) =~= recent(all));
}

/// The messages of a session stay numbered in increasing order, as long as new
/// rows are different from each other and from those that are there.
pub proof fn appending_keeps_the_order(
    held: Seq<Held>,
    messages: Seq<MessageView>,
    ids: spec_fn(int) -> i64,
    now: i64,
)
    requires
        well_kept(held),
        next_seq(places(held)) + messages.len() - 1 <= i64::MAX,
        next_seq(places(held)) >= i64::MIN,
        forall|i: int, j: int| 0 <= i < j < messages.len() ==> #[trigger] ids(i) != #[trigger] ids(j),
        forall|i: int, j: int|
            0 <= i < messages.len() && 0 <= j < held.len() ==> #[trigger] ids(i) != (
            #[trigger] held[j]).place.id,
    ensures
        well_kept(
            carried_out(held, append_plan(places(held), messages.len() as int), messages, ids, now),
        ),
{
    let n = messages.len() as int;
    let plan = append_plan(places(held), n);
    let after = carried_out(held, plan, messages, ids, now);
    let gone = plan.drop.len() as int;
    let kept = held.len() - gone;
    lemma_dropped(held, n);
    assert forall|i: int, j: int| 0 <= i < j < after.len() implies (#[trigger] after[i]).place.id != (
    #[trigger] after[j]).place.id && after[i].place.seq < after[j].place.seq by {
        if j < kept {
            assert(after[i] == held[gone + i]);
            assert(after[j] == held[gone + j]);
        } else {
            let b = j - kept;
            assert(after[j].place.id == ids(b));
            assert(after[j].place.seq == plan.seqs[b]);
            assert(plan.seqs[b] == next_seq(places(held)) + plan.skip + b);
            if i < kept {
                assert(after[i] == held[gone + i]);
                if gone + i < held.len() - 1 {
                    assert(held[gone + i].place.seq < held[held.len() - 1].place.seq);
                }
                assert(places(held).last() == held[held.len() - 1].place);
            } else {
                let a = i - kept;
                assert(after[i].place.id == ids(a));
                assert(plan.seqs[a] == next_seq(places(held)) + plan.skip + a);
            }
        }
    }
}

/// An append deletes only rows of its own session.
pub proof fn sessions_are_isolated(mine: Seq<Held>, other: Seq<Held>, n: int)
    requires
        0 <= n,
        forall|i: int, j: int|
            0 <= i < mine.len() && 0 <= j < other.len() ==> (#[trigger] mine[i]).place.id != (
            #[trigger] other[j]).place.id,
    ensures
        forall|j: int|
            0 <= j < other.len() ==> !append_plan(places(mine), n).drop.contains(
                (#[trigger] other[j]).place.id,
            ),
{
    let plan = append_plan(places(mine), n);
    assert forall|j: int| 0 <= j < other.len() implies !plan.drop.contains(
        (#[trigger] other[j]).place.id,
    ) by {
        if plan.drop.contains(other[j].place.id) {
            let k = choose|k: int|
                0 <= k < plan.drop.len() && plan.drop[k] == other[j].place.id;
            assert(plan.drop[k] == mine[k].place.id);
        }
    }
}

// ── The table of all sessions ────────────────────────────────────────────────

/// A row of the table: a message and the session that it belongs to.
#[verifier::ext_equal]
pub struct Row {
    pub session_id: Seq<char>,
    pub held: Held,
}

/// What a table holds of a session, the oldest message first.
pub open spec fn held_by(table: Seq<Row>, session: Seq<char>) -> Seq<Held>
    decreases table.len(),
{
    if table.len() == 0 {
        Seq::empty()
    } else {
        let before = held_by(table.drop_last(), session);
        if table.last().session_id == session {
            before.push(table.last().held)
        } else {
            before
        }
    }
}

/// The new rows of a session when a plan is carried out.
pub open spec fn new_rows(
    session: Seq<char>,
    plan: PlanView,
    messages: Seq<MessageView>,
    ids: spec_fn(int) -> i64,
    now: i64,
) -> Seq<Row> {
    Seq::new(
        plan.seqs.len(),
        |i: int|
            Row {
                session_id: session,
                held: Held {
                    place: Place { id: ids(i), seq: plan.seqs[i] },
                    message: messages[plan.skip + i],
                    created_at: now,
                },
            },
    )
}

/// The table after messages are appended to a session.
pub open spec fn appended(
    table: Seq<Row>,
    session: Seq<char>,
    messages: Seq<MessageView>,
    ids: spec_fn(int) -> i64,
    now: i64,
) -> Seq<Row> {
    let plan = append_plan(places(held_by(table, session)), messages.len() as int);
    table.filter(|r: Row| !plan.drop.contains(r.held.place.id)) + new_rows(
        session,
        plan,
        messages,
        ids,
        now,
    )
}

/// No two messages stand in the same row.
pub open spec fn rows_differ(table: Seq<Row>) -> bool {
    forall|i: int, j: int|
        0 <= i < j < table.len() ==> (#[trigger] table[i]).held.place.id != (
        #[trigger] table[j]).held.place.id
}

proof fn lemma_held_filter(
    table: Seq<Row>,
    session: Seq<char>,
    p: spec_fn(Row) -> bool,
    q: spec_fn(Held) -> bool,
)
    requires
        forall|i: int|
            0 <= i < table.len() && (#[trigger] table[i]).session_id == session ==> p(table[i])
                == q(table[i].held),
    ensures
        held_by(table.filter(p), session) == held_by(table, session).filter(q),
    decreases table.len(),
{
    reveal(Seq::filter);
    if table.len() > 0 {
        let d = table.drop_last();
        let r = table.last();
        assert forall|i: int|
            0 <= i < d.len() && (#[trigger] d[i]).session_id == session implies p(d[i]) == q(
            d[i].held,
        ) by {
            assert(d[i] == table[i]);
        }
        lemma_held_filter(d, session, p, q);
        assert(table[table.len() - 1] == r);
        if p(r) {
            assert(d.filter(p).push(r).drop_last() =~= d.filter(p));
        }
        if r.session_id == session {
            let h = held_by(d, session);
            assert(h.push(r.held).drop_last() =~= h);
        }
    } else {
        assert(held_by(table.filter(p), session) =~= held_by(table, session).filter(q));
    }
}

proof fn lemma_held_add(a: Seq<Row>, b: Seq<Row>, session: Seq<char>)
    ensures
        held_by(a + b, session) == held_by(a, session) + held_by(b, session),
    decreases b.len(),
{
    if b.len() > 0 {
        let d = b.drop_last();
        lemma_held_add(a, d, session);
        assert((a + b).drop_last() =~= a + d);
        assert((a + b).last() == b.last());
        assert(held_by(a + b, session) =~= held_by(a, session) + held_by(b, session));
    } else {
        assert(a + b =~= a);
        assert(held_by(a, session) + held_by(b, session) =~= held_by(a, session));
    }
}

proof fn lemma_held_one(rows: Seq<Row>, mine: Seq<char>, session: Seq<char>)
    requires
        forall|i: int| 0 <= i < rows.len() ==> (#[trigger] rows[i]).session_id == mine,
    ensures
        mine == session ==> held_by(rows, session) == rows.map_values(|r: Row| r.held),
        mine != session ==> held_by(rows, session).len() == 0,
    decreases rows.len(),
{
    if rows.len() > 0 {
        let d = rows.drop_last();
        assert forall|i: int| 0 <= i < d.len() implies (#[trigger] d[i]).session_id == mine by {
            assert(d[i] == rows[i]);
        }
        lemma_held_one(d, mine, session);
        assert(rows[rows.len() - 1].session_id == mine);
    }
    if mine == session {
        assert(held_by(rows, session) =~= rows.map_values(|r: Row| r.held));
    }
}

/// What a table holds of a session stands in rows of that session.
proof fn lemma_held_from(table: Seq<Row>, session: Seq<char>, k: int) -> (i: int)
    requires
        0 <= k < held_by(table, session).len(),
    ensures
        0 <= i < table.len(),
        table[i].session_id == session,
        table[i].held == held_by(table, session)[k],
    decreases table.len(),
{
    let d = table.drop_last();
    let before = held_by(d, session);
    if k < before.len() {
        let i = lemma_held_from(d, session, k);
        assert(table[i] == d[i]);
        i
    } else {
        table.len() - 1
    }
}

/// An append leaves its session with the last messages of the conversation so far
/// and the new ones, and leaves every other session as it is.
pub proof fn appending_touches_one_session(
    table: Seq<Row>,
    session: Seq<char>,
    messages: Seq<MessageView>,
    ids: spec_fn(int) -> i64,
    now: i64,
    other: Seq<char>,
)
    requires
        rows_differ(table),
        well_kept(held_by(table, session)),
        messages.len() > 0 || held_by(table, session).len() <= MAX_MESSAGES_PER_SESSION,
    ensures
        held_by(appended(table, session, messages, ids, now), session) == carried_out(
            held_by(table, session),
            append_plan(places(held_by(table, session)), messages.len() as int),
            messages,
            ids,
            now,
        ),
        history(held_by(appended(table, session, messages, ids, now), session)) == recent(
            history(held_by(table, session)) + messages,
        ),
        other != session ==> held_by(appended(table, session, messages, ids, now), other)
            == held_by(table, other),
{
    let held = held_by(table, session);
    let plan = append_plan(places(held), messages.len() as int);
    let p = |r: Row| !plan.drop.contains(r.held.place.id);
    let q = |h: Held| !plan.drop.contains(h.place.id);
    let rows = new_rows(session, plan, messages, ids, now);
    lemma_held_filter(table, session, p, q);
    lemma_held_add(table.filter(p), rows, session);
    lemma_held_one(rows, session, session);
    let fresh = rows.map_values(|r: Row| r.held);
    let carried = carried_out(held, plan, messages, ids, now);
    assert(carried =~= held.filter(q) + fresh);
    appending_keeps_the_recent_messages(held, messages, ids, now);
    if other != session {
        let all = |h: Held| true;
        assert forall|i: int|
            0 <= i < table.len() && (#[trigger] table[i]).session_id == other implies p(table[i])
            == all(table[i].held) by {
            if plan.drop.contains(table[i].held.place.id) {
                let k = choose|k: int|
                    0 <= k < plan.drop.len() && plan.drop[k] == table[i].held.place.id;
                assert(plan.drop[k] == places(held)[k].id);
                let j = lemma_held_from(table, session, k);
                assert(table[j].held.place.id == table[i].held.place.id);
                assert(i != j);
                if i < j {
                    assert(table[i].held.place.id != table[j].held.place.id);
                } else {
                    assert(table[j].held.place.id != table[i].held.place.id);
                }
            }
        }
        lemma_held_filter(table, other, p, all);
        lemma_filter_front(held_by(table, other), 0, all);
        assert(held_by(table, other).skip(0) =~= held_by(table, other));
        lemma_held_add(table.filter(p), rows, other);
        lemma_held_one(rows, session, other);
        assert(held_by(table, other) + held_by(rows, other) =~= held_by(table, other));
    }
}

/// A turn that is answered leaves its session with the last messages of the
/// conversation, what the user said and the answer; one that fails leaves it as it
/// is. Either way no other session changes, and nothing but what the user and the
/// assistant said is added.
pub proof fn turns_are_remembered_or_leave_no_trace(
    table: Seq<Row>,
    session: Seq<char>,
    message: Seq<char>,
    outcome: Result<String, String>,
    ids: spec_fn(int) -> i64,
    now: i64,
    other: Seq<char>,
)
    requires
        rows_differ(table),
        well_kept(held_by(table, session)),
    ensures
        ({
            let old = history(held_by(table, session));
            let new = appended(table, session, remembered(message, outcome), ids, now);
            &&& match outcome {
                Ok(a) => history(held_by(new, session)) == recent(
                    old + seq![plain("user"@, message), plain("assistant"@, a@)],
                ),
                Err(_) => new == table,
            }
            &&& other != session ==> held_by(new, other) == held_by(table, other)
        }),
{
    match outcome {
        Ok(_) => {
            appending_touches_one_session(
                table,
                session,
                remembered(message, outcome),
                ids,
                now,
                other,
            );
        },
        Err(_) => {
            let plan = append_plan(places(held_by(table, session)), 0);
            let p = |r: Row| !plan.drop.contains(r.held.place.id);
            assert(plan.drop.len() == 0);
            lemma_keeps_all(table, p);
            let new = appended(table, session, remembered(message, outcome), ids, now);
            assert(new =~= table);
        },
    }
}

proof fn lemma_keeps_all(table: Seq<Row>, p: spec_fn(Row) -> bool)
    requires
        forall|r: Row| #[trigger] p(r),
    ensures
        table.filter(p) == table,
    decreases table.len(),
{
    reveal(Seq::filter);
    if table.len() > 0 {
        lemma_keeps_all(table.drop_last(), p);
        assert(table.drop_last().push(table.last()) =~= table);
    } else {
        assert(table.filter(p) =~= table);
    }
}

// ── Conversations ────────────────────────────────────────────────────────────

/// Messages that are appended to a session, the rows that they get, and the time.
pub struct Append {
    pub session: Seq<char>,
    pub messages: Seq<MessageView>,
    pub ids: spec_fn(int) -> i64,
    pub now: i64,
}

/// The table after a number of appends, from an empty one.
pub open spec fn table_after(appends: Seq<Append>) -> Seq<Row>
    decreases appends.len(),
{
    if appends.len() == 0 {
        Seq::empty()
    } else {
        let a = appends.last();
        appended(table_after(appends.drop_last()), a.session, a.messages, a.ids, a.now)
    }
}

/// All that was ever appended to a session.
pub open spec fn said(appends: Seq<Append>, session: Seq<char>) -> Seq<MessageView>
    decreases appends.len(),
{
    if appends.len() == 0 {
        Seq::empty()
    } else {
        let before = said(appends.drop_last(), session);
        if appends.last().session == session {
            before + appends.last().messages
        } else {
            before
        }
    }
}

/// The rows of new messages are different from each other and from those that are
/// there, and the numbers of the session do not run out.
pub open spec fn has_room(table: Seq<Row>, a: Append) -> bool {
    &&& next_seq(places(held_by(table, a.session))) + a.messages.len() - 1 <= i64::MAX
    &&& forall|i: int, j: int|
        0 <= i < j < a.messages.len() ==> #[trigger] (a.ids)(i) != #[trigger] (a.ids)(j)
    &&& forall|i: int, j: int|
        0 <= i < a.messages.len() && 0 <= j < table.len() ==> #[trigger] (a.ids)(i) != (
        #[trigger] table[j]).held.place.id
}

/// There was room for every one of the appends.
pub open spec fn all_fit(appends: Seq<Append>) -> bool
    decreases appends.len(),
{
    appends.len() > 0 ==> all_fit(appends.drop_last()) && has_room(
        table_after(appends.drop_last()),
        appends.last(),
    )
}

proof fn lemma_recent_twice(a: Seq<MessageView>, b: Seq<MessageView>)
    ensures
        recent(recent(a) + b) == recent(a + b),
{
    assert(recent(recent(a) + b) =~= recent(a + b));
}

proof fn lemma_filter_differs(table: Seq<Row>, p: spec_fn(Row) -> bool)
    requires
        rows_differ(table),
    ensures
        rows_differ(table.filter(p)),
    decreases table.len(),
{
    reveal(Seq::filter);
    if table.len() > 0 {
        let d = table.drop_last();
        let r = table.last();
        let before = d.filter(p);
        assert(rows_differ(d)) by {
            assert forall|i: int, j: int| 0 <= i < j < d.len() implies (
            #[trigger] d[i]).held.place.id != (#[trigger] d[j]).held.place.id by {
                assert(table[i].held.place.id != table[j].held.place.id);
            }
        }
        lemma_filter_differs(d, p);
        assert forall|i: int| 0 <= i < before.len() implies (#[trigger] before[i]).held.place.id
            != r.held.place.id by {
            assert(before.contains(before[i]));
            d.lemma_filter_contains_rev(p, before[i]);
            let k = choose|k: int| 0 <= k < d.len() && d[k] == before[i];
            assert(table[k].held.place.id != table[table.len() - 1].held.place.id);
        }
    }
}

proof fn lemma_rows_still_differ(table: Seq<Row>, a: Append)
    requires
        rows_differ(table),
        has_room(table, a),
    ensures
        rows_differ(appended(table, a.session, a.messages, a.ids, a.now)),
{
    let plan = append_plan(places(held_by(table, a.session)), a.messages.len() as int);
    let p = |r: Row| !plan.drop.contains(r.held.place.id);
    let kept = table.filter(p);
    let rows = new_rows(a.session, plan, a.messages, a.ids, a.now);
    let all = appended(table, a.session, a.messages, a.ids, a.now);
    lemma_filter_differs(table, p);
    assert forall|i: int, j: int| 0 <= i < j < all.len() implies (#[trigger] all[i]).held.place.id
        != (#[trigger] all[j]).held.place.id by {
        if j < kept.len() {
            assert(kept[i].held.place.id != kept[j].held.place.id);
        } else {
            let n = j - kept.len();
            assert(all[j].held.place.id == (a.ids)(n));
            if i < kept.len() {
                assert(kept.contains(kept[i]));
                table.lemma_filter_contains_rev(p, kept[i]);
                let k = choose|k: int| 0 <= k < table.len() && table[k] == kept[i];
                assert((a.ids)(n) != table[k].held.place.id);
            } else {
                assert(all[i].held.place.id == (a.ids)(i - kept.len()));
            }
        }
    }
}

/// After any number of appends to any sessions, each session holds the last
/// messages of all that was ever appended to it, in order, and no more than it may
/// keep.
pub proof fn sessions_hold_the_recent_conversation(appends: Seq<Append>, session: Seq<char>)
    requires
        all_fit(appends),
    ensures
        history(held_by(table_after(appends), session)) == recent(said(appends, session)),
        held_by(table_after(appends), session).len() <= MAX_MESSAGES_PER_SESSION,
        well_kept(held_by(table_after(appends), session)),
        rows_differ(table_after(appends)),
    decreases appends.len(),
{
    if appends.len() == 0 {
        assert(history(held_by(table_after(appends), session)) =~= recent(said(appends, session)));
    } else {
        let before = appends.drop_last();
        let a = appends.last();
        let table = table_after(before);
        let held = held_by(table, a.session);
        sessions_hold_the_recent_conversation(before, session);
        sessions_hold_the_recent_conversation(before, a.session);
        lemma_rows_still_differ(table, a);
        appending_touches_one_session(table, a.session, a.messages, a.ids, a.now, session);
        if a.session == session {
            assert forall|i: int, j: int|
                0 <= i < a.messages.len() && 0 <= j < held.len() implies #[trigger] (a.ids)(i) != (
            #[trigger] held[j]).place.id by {
                let k = lemma_held_from(table, session, j);
                assert((a.ids)(i) != table[k].held.place.id);
            }
            appending_keeps_the_order(held, a.messages, a.ids, a.now);
            lemma_recent_twice(said(before, session), a.messages);
            assert(history(held_by(table_after(appends), session)).len() == held_by(
                table_after(appends),
                session,
            ).len());
        }
    }
}

// ── Staleness ────────────────────────────────────────────────────────────────

/// When a message of a session was stored.
#[derive(Debug)]
pub struct Activity {
    pub session_id: String,
    pub created_at: i64,
}

/// What an [`Activity`] stands for.
#[verifier::ext_equal]
pub struct ActivityView {
    pub session_id: Seq<char>,
    pub created_at: i64,
}

impl DeepView for Activity {
    type V = ActivityView;

    open spec fn deep_view(&self) -> ActivityView {
        ActivityView { session_id: self.session_id@, created_at: self.created_at }
    }
}

/// A session is stale if all its messages are older than the limit.
pub open spec fn is_stale(log: Seq<ActivityView>, session: Seq<char>, now: i64) -> bool {
    forall|i: int|
        0 <= i < log.len() && (#[trigger] log[i]).session_id == session ==> log[i].created_at
            < now - SESSION_TTL_SECS
}

/// The stale sessions of a log, in the order of their first messages, with
/// repetitions.
pub open spec fn stale_entries(log: Seq<ActivityView>, n: int, now: i64) -> Seq<Seq<char>>
    decreases n,
{
    if n <= 0 {
        Seq::empty()
    } else if is_stale(log, log[n - 1].session_id, now) {
        stale_entries(log, n - 1, now).push(log[n - 1].session_id)
    } else {
        stale_entries(log, n - 1, now)
    }
}

fn went_stale(log: &[Activity], session: &str, now: i64) -> (r: bool)
    ensures
        r == is_stale(log.deep_view(), session@, now),
{
    let ghost all = log.deep_view();
    let mut i: usize = 0;
    while i < log.len()
        invariant
            i <= log@.len(),
            all == log.deep_view(),
            all.len() == log@.len(),
            forall|k: int|
                0 <= k < i && (#[trigger] all[k]).session_id == session@ ==> all[k].created_at < now
                    - SESSION_TTL_SECS,
        decreases log@.len() - i,
    {
        proof {
            assert(all[i as int] == log@[i as int].deep_view());
        }
        if same_text(log[i].session_id.as_str(), session) && log[i].created_at as i128 >= now
            as i128 - SESSION_TTL_SECS as i128 {
            return false;
        }
        i = i + 1;
    }
    true
}

/// The sessions whose messages are all older than the limit, each once, in
/// increasing order. They are dropped at startup.
pub fn stale_sessions(log: &[Activity], now: i64) -> (r: Vec<String>)
    ensures
        r.deep_view() == text_set(stale_entries(log.deep_view(), log@.len() as int, now)),
{
    let ghost all = log.deep_view();
    let mut entries: Vec<String> = Vec::new();
    let mut i: usize = 0;
    proof {
        assert(entries.deep_view() =~= stale_entries(all, 0, now));
    }
    while i < log.len()
        invariant
            i <= log@.len(),
            all == log.deep_view(),
            all.len() == log@.len(),
            entries.deep_view() == stale_entries(all, i as int, now),
        decreases log@.len() - i,
    {
        let ghost before = entries.deep_view();
        proof {
            assert(all[i as int] == log@[i as int].deep_view());
        }
        if went_stale(log, log[i].session_id.as_str(), now) {
            let s = log[i].session_id.clone();
            entries.push(s);
            proof {
                assert(entries.deep_view() =~= before.push(s@));
            }
        }
        i = i + 1;
    }
    set_of_texts(&entries)
}

proof fn lemma_stale_entries(log: Seq<ActivityView>, n: int, now: i64, s: Seq<char>)
    requires
        0 <= n <= log.len(),
    ensures
        stale_entries(log, n, now).contains(s) <==> is_stale(log, s, now) && exists|i: int|
            0 <= i < n && (#[trigger] log[i]).session_id == s,
    decreases n,
{
    if n > 0 {
        lemma_stale_entries(log, n - 1, now, s);
        let before = stale_entries(log, n - 1, now);
        let here = stale_entries(log, n, now);
        if before.contains(s) {
            let k = choose|k: int| 0 <= k < before.len() && before[k] == s;
            assert(here[k] == s);
        }
        if log[n - 1].session_id == s && is_stale(log, s, now) {
            assert(here[before.len() as int] == s);
        }
        if here.contains(s) && !before.contains(s) {
            let k = choose|k: int| 0 <= k < here.len() && here[k] == s;
            if k < before.len() {
                assert(before[k] == s);
            }
        }
    }
}

/// A session is dropped if and only if it has messages and all of them are older
/// than the limit.
pub proof fn only_stale_sessions_are_dropped(log: Seq<ActivityView>, now: i64, s: Seq<char>)
    ensures
        text_set(stale_entries(log, log.len() as int, now)).contains(s) <==> is_stale(log, s, now)
            && exists|i: int| 0 <= i < log.len() && (#[trigger] log[i]).session_id == s,
{
    crate::order::text_set_is_a_set(stale_entries(log, log.len() as int, now));
    lemma_stale_entries(log, log.len() as int, now, s);
}

/// A session is dropped if and only if it has messages and none of them was stored
/// within the last thirty days.
pub proof fn sessions_are_dropped_after_thirty_days(
    log: Seq<ActivityView>,
    now: i64,
    s: Seq<char>,
)
    ensures
        text_set(stale_entries(log, log.len() as int, now)).contains(s) <==> {
            &&& exists|i: int| 0 <= i < log.len() && (#[trigger] log[i]).session_id == s
            &&& forall|i: int|
                0 <= i < log.len() && (#[trigger] log[i]).session_id == s ==> log[i].created_at
                    < now - 30 * 24 * 60 * 60
        },
        crate::order::increasing(text_set(stale_entries(log, log.len() as int, now))),
{
    only_stale_sessions_are_dropped(log, now, s);
    crate::order::text_set_is_a_set(stale_entries(log, log.len() as int, now));
}

/// After an append a session holds all messages that it held and all new ones, in
/// order, as long as these are forty at most; else the last forty of them.
pub proof fn the_last_forty_messages_are_kept(
    held: Seq<Held>,
    messages: Seq<MessageView>,
    ids: spec_fn(int) -> i64,
    now: i64,
)
    requires
        well_kept(held),
        messages.len() > 0,
    ensures
        ({
            let plan = append_plan(
                held.map_values(|h: Held| h.place),
                messages.len() as int,
            );
            let kept = carried_out(held, plan, messages, ids, now).map_values(
                |h: Held| h.message,
            );
            let all = held.map_values(|h: Held| h.message) + messages;
            kept == if all.len() > 40 {
                all.skip(all.len() - 40)
            } else {
                all
            }
        }),
{
    appending_keeps_the_recent_messages(held, messages, ids, now);
}

/// An append drops the oldest rows, as many as forty messages leave no room for;
/// of the new messages it leaves out the first ones only where they alone are too
/// many; and those it stores are numbered on, one by one.
pub proof fn appends_drop_the_oldest(places: Seq<Place>, n: int)
    requires
        n > 0,
        next_seq(places) >= i64::MIN,
        next_seq(places) + n - 1 <= i64::MAX,
    ensures
        ({
            let p = append_plan(places, n);
            let left = p.drop.len() as int;
            &&& p.skip == if n > 40 {
                n - 40
            } else {
                0
            }
            &&& p.seqs.len() == n - p.skip
            &&& 0 <= left <= places.len()
            &&& places.len() - left + p.seqs.len() <= 40
            &&& left > 0 ==> places.len() - left + p.seqs.len() == 40
            &&& forall|i: int| 0 <= i < left ==> #[trigger] p.drop[i] == places[i].id
            &&& forall|i: int|
                0 <= i < p.seqs.len() ==> #[trigger] p.seqs[i] == (if places.len() == 0 {
                    0
                } else {
                    places[places.len() - 1].seq + 1
                }) + p.skip + i
        }),
{
}

} // verus!
