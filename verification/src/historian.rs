//! The historian: an append-only log of events, one row per event, keyed by
//! script id. Supports recording with content deduplication and done-event
//! suppression, latest-time and latest-args queries, grouped argument history,
//! ignore and amend, pruning (`tidy`), and removal.
use crate::error::Error;
use crate::strutil::i64_to_string;
use vstd::prelude::*;
use vstd::string::*;

verus! {

/// The kind of an event row.
#[derive(Debug, Clone, Copy, PartialEq, Eq, Structural)]
pub enum EventType {
    Read,
    Write,
    Exec,
    ExecDone,
    Miss,
}

/// One row of the event log. Everything but `ignored` is write-once.
#[derive(Debug)]
pub struct EventRow {
    /// Unique, assigned in insertion order starting at 1.
    pub id: i64,
    /// The owning script.
    pub script_id: i64,
    pub ty: EventType,
    /// Event time; rows are compared by time, then by id.
    pub time: i64,
    /// The invoking command line, kept for audit.
    pub cmd: String,
    /// For `Exec`: the serialized argument list.
    pub args: Option<String>,
    /// For `Exec`: the script body, unless deduplicated; for `ExecDone`: the
    /// exit code.
    pub content: Option<String>,
    /// Links an `ExecDone` to its `Exec`; zero otherwise.
    pub main_event_id: i64,
    /// Excluded from the `last_*` queries when set.
    pub ignored: bool,
}

/// Copy an optional string with its value known.
fn clone_opt_string(o: &Option<String>) -> (r: Option<String>)
    ensures
        r == *o,
{
    match o {
        None => None,
        Some(s) => Some(s.clone()),
    }
}

impl Clone for EventRow {
    fn clone(&self) -> (r: Self)
        ensures
            r == *self,
    {
        EventRow {
            id: self.id,
            script_id: self.script_id,
            ty: self.ty,
            time: self.time,
            cmd: self.cmd.clone(),
            args: clone_opt_string(&self.args),
            content: clone_opt_string(&self.content),
            main_event_id: self.main_event_id,
            ignored: self.ignored,
        }
    }
}

/// What a new event carries, before a row exists for it.
#[derive(Debug)]
pub enum EventData {
    Read,
    Write,
    Miss,
    Exec { content: String, args: String },
    ExecDone { code: i32, main_event_id: i64 },
}

impl EventData {
    /// The row type this event produces.
    pub open spec fn spec_type(&self) -> EventType {
        match self {
            EventData::Read => EventType::Read,
            EventData::Write => EventType::Write,
            EventData::Miss => EventType::Miss,
            EventData::Exec { .. } => EventType::Exec,
            EventData::ExecDone { .. } => EventType::ExecDone,
        }
    }
}

/// A new event: which script, when, the invoking command line, and the data.
#[derive(Debug)]
pub struct Event {
    pub script_id: i64,
    pub time: i64,
    pub cmd: String,
    pub data: EventData,
}

/// The log holds an `Exec` row with this id, owned by this script.
#[verifier::opaque]
pub open spec fn has_exec_with_id(rows: Seq<EventRow>, id: i64, sid: i64) -> bool {
    exists|j: int|
        0 <= j < rows.len() && (#[trigger] rows[j]).ty == EventType::Exec && rows[j].id == id
            && rows[j].script_id == sid
}

/// The log invariant over plain rows: ids are positive, strictly increasing
/// and below `next_id`; only `ExecDone` rows link a main event; every
/// `ExecDone` links an `Exec` row of the same script; every `Exec` row has
/// args.
#[verifier::opaque]
pub open spec fn rows_wf(rows: Seq<EventRow>, next_id: i64) -> bool {
    &&& 1 <= next_id
    &&& forall|i: int| 0 <= i < rows.len() ==> 1 <= (#[trigger] rows[i]).id < next_id
    &&& forall|i: int, j: int| 0 <= i < j < rows.len() ==> rows[i].id < rows[j].id
    &&& forall|i: int|
        0 <= i < rows.len() && (#[trigger] rows[i]).ty != EventType::ExecDone ==> rows[
            i
        ].main_event_id == 0
    &&& forall|i: int|
        0 <= i < rows.len() && (#[trigger] rows[i]).ty == EventType::ExecDone ==> has_exec_with_id(
            rows,
            rows[i].main_event_id,
            rows[i].script_id,
        )
    &&& forall|i: int|
        0 <= i < rows.len() && (#[trigger] rows[i]).ty == EventType::Exec ==> rows[i].args is Some
}

/// The universally quantified clauses of the log invariant, without the
/// witness clause for done events.
#[verifier::rlimit(100)]
proof fn lemma_wf_facts(rows: Seq<EventRow>, next_id: i64)
    requires
        rows_wf(rows, next_id),
    ensures
        1 <= next_id,
        forall|i: int| 0 <= i < rows.len() ==> 1 <= (#[trigger] rows[i]).id < next_id,
        forall|p: int, q: int| 0 <= p < q < rows.len() ==> rows[p].id != rows[q].id,
        forall|p: int, q: int| 0 <= p < q < rows.len() ==> rows[p].id < rows[q].id,
        forall|i: int|
            0 <= i < rows.len() && (#[trigger] rows[i]).ty != EventType::ExecDone ==> rows[
                i
            ].main_event_id == 0,
        forall|i: int|
            0 <= i < rows.len() && (#[trigger] rows[i]).ty == EventType::Exec ==> rows[
                i
            ].args is Some,
{
    reveal(rows_wf);
}

/// Appending a fresh, non-ignored row carrying the next id keeps the log
/// invariant.
#[verifier::rlimit(100)]
proof fn lemma_push_wf(
    old_rows: Seq<EventRow>,
    new_rows: Seq<EventRow>,
    row: EventRow,
    next_id: i64,
)
    requires
        rows_wf(old_rows, next_id),
        next_id < i64::MAX,
        new_rows == old_rows.push(row),
        row.id == next_id,
        row.ty == EventType::Exec ==> row.args is Some,
        row.ty != EventType::ExecDone ==> row.main_event_id == 0,
        row.ty == EventType::ExecDone ==> has_exec_with_id(
            old_rows,
            row.main_event_id,
            row.script_id,
        ),
    ensures
        rows_wf(new_rows, (next_id + 1) as i64),
{
    reveal(rows_wf);
    assert(forall|i: int| 0 <= i < old_rows.len() ==> new_rows[i] == old_rows[i]);
    assert(new_rows.last() == row);
    assert forall|i: int|
        0 <= i < new_rows.len() && (#[trigger] new_rows[i]).ty
            == EventType::ExecDone implies has_exec_with_id(
        new_rows,
        new_rows[i].main_event_id,
        new_rows[i].script_id,
    ) by {
        if i < old_rows.len() {
            lemma_has_exec_extends(
                old_rows,
                new_rows,
                old_rows[i].main_event_id,
                old_rows[i].script_id,
            );
        } else {
            lemma_has_exec_extends(old_rows, new_rows, row.main_event_id, row.script_id);
        }
    }
}

/// An exec row found in a prefix is still found after rows are appended.
proof fn lemma_has_exec_extends(
    old_rows: Seq<EventRow>,
    new_rows: Seq<EventRow>,
    id: i64,
    sid: i64,
)
    requires
        has_exec_with_id(old_rows, id, sid),
        old_rows.len() <= new_rows.len(),
        forall|i: int| 0 <= i < old_rows.len() ==> new_rows[i] == old_rows[i],
    ensures
        has_exec_with_id(new_rows, id, sid),
{
    reveal(has_exec_with_id);
    let j = choose|j: int|
        0 <= j < old_rows.len() && (#[trigger] old_rows[j]).ty == EventType::Exec && old_rows[j].id
            == id && old_rows[j].script_id == sid;
    assert(new_rows[j] == old_rows[j]);
}

/// A pointwise rewrite that keeps each row's id, type, script and link, and
/// keeps args on executions, keeps the log invariant.
#[verifier::rlimit(100)]
proof fn lemma_pointwise_wf(old_rows: Seq<EventRow>, new_rows: Seq<EventRow>, next_id: i64)
    requires
        rows_wf(old_rows, next_id),
        new_rows.len() == old_rows.len(),
        forall|i: int|
            0 <= i < new_rows.len() ==> (#[trigger] new_rows[i]).id == old_rows[i].id
                && new_rows[i].ty == old_rows[i].ty && new_rows[i].script_id
                == old_rows[i].script_id && new_rows[i].main_event_id == old_rows[i].main_event_id
                && (new_rows[i].ty == EventType::Exec ==> new_rows[i].args is Some),
    ensures
        rows_wf(new_rows, next_id),
{
    reveal(rows_wf);
    assert forall|i: int|
        0 <= i < new_rows.len() && (#[trigger] new_rows[i]).ty
            == EventType::ExecDone implies has_exec_with_id(
        new_rows,
        new_rows[i].main_event_id,
        new_rows[i].script_id,
    ) by {
        assert(old_rows[i].ty == EventType::ExecDone);
        reveal(has_exec_with_id);
        let j = choose|j: int|
            0 <= j < old_rows.len() && (#[trigger] old_rows[j]).ty == EventType::Exec
                && old_rows[j].id == old_rows[i].main_event_id && old_rows[j].script_id
                == old_rows[i].script_id;
        assert(new_rows[j].ty == EventType::Exec && new_rows[j].id == new_rows[i].main_event_id
            && new_rows[j].script_id == new_rows[i].script_id);
    }
}

/// The row matches script, type, and is not ignored.
pub open spec fn evt_match(r: EventRow, sid: i64, ty: EventType) -> bool {
    r.script_id == sid && r.ty == ty && !r.ignored
}

/// Strict order on rows by time, then id. Since ids are unique this is a
/// total order on the rows of one log.
pub open spec fn row_lt(a: EventRow, b: EventRow) -> bool {
    a.time < b.time || (a.time == b.time && a.id < b.id)
}

/// `rows[w]` is the newest non-ignored row of this script and type.
pub open spec fn is_latest(rows: Seq<EventRow>, sid: i64, ty: EventType, w: int) -> bool {
    &&& 0 <= w < rows.len()
    &&& evt_match(rows[w], sid, ty)
    &&& forall|j: int|
        0 <= j < rows.len() && evt_match(#[trigger] rows[j], sid, ty) && j != w ==> row_lt(
            rows[j],
            rows[w],
        )
}

/// The newest `Exec` row of this script that still has a content value,
/// ignored or not: the row that content deduplication compares against.
pub open spec fn is_latest_content_exec(rows: Seq<EventRow>, sid: i64, w: int) -> bool {
    &&& 0 <= w < rows.len()
    &&& rows[w].script_id == sid && rows[w].ty == EventType::Exec && rows[w].content is Some
    &&& forall|j: int|
        0 <= j < rows.len() && (#[trigger] rows[j]).script_id == sid && rows[j].ty
            == EventType::Exec && rows[j].content is Some && j != w ==> row_lt(rows[j], rows[w])
}

/// The append-only event log.
#[derive(Debug)]
pub struct Historian {
    rows: Vec<EventRow>,
    next_id: i64,
}

/// Returned when ignoring touched the newest execution: the new latest exec
/// and exec-done times, so a repository can refresh its cached timestamps.
#[derive(Debug)]
pub struct IgnoreResult {
    pub script_id: i64,
    pub exec_time: Option<i64>,
    pub exec_done_time: Option<i64>,
}

impl Historian {
    /// The rows of the log, oldest first.
    pub closed spec fn rows(&self) -> Seq<EventRow> {
        self.rows@
    }

    /// The id the next inserted row will get.
    pub closed spec fn spec_next_id(&self) -> i64 {
        self.next_id
    }

    /// The log's invariant; see `rows_wf`.
    pub open spec fn wf(&self) -> bool {
        rows_wf(self.rows(), self.spec_next_id())
    }

    /// An empty log.
    pub fn new() -> (r: Historian)
        ensures
            r.wf(),
            r.rows() == Seq::<EventRow>::empty(),
            r.spec_next_id() == 1,
    {
        let r = Historian { rows: Vec::new(), next_id: 1 };
        proof {
            reveal(rows_wf);
            assert(r.rows() =~= Seq::<EventRow>::empty());
        }
        r
    }

    /// Rebuild a log from stored rows, oldest first. The rows must satisfy
    /// the log's invariant; `next_id` continues after the largest id.
    pub fn from_rows(rows: Vec<EventRow>, next_id: i64) -> (r: Historian)
        requires
            rows_wf(rows@, next_id),
        ensures
            r.wf(),
            r.rows() == rows@,
            r.spec_next_id() == next_id,
    {
        Historian { rows, next_id }
    }

    /// Read access to the stored rows, for persistence and for tests.
    pub fn all_rows(&self) -> (r: &Vec<EventRow>)
        ensures
            r@ == self.rows(),
    {
        &self.rows
    }

    /// The id the next inserted row will get, for persistence.
    pub fn next_id(&self) -> (r: i64)
        ensures
            r == self.spec_next_id(),
    {
        self.next_id
    }

    /// Find the newest non-ignored row of the given script and type; the
    /// returned index is the `is_latest` witness.
    fn find_latest(&self, sid: i64, ty: EventType) -> (r: Option<usize>)
        requires
            self.wf(),
        ensures
            r is None ==> forall|j: int|
                0 <= j < self.rows().len() ==> !evt_match(#[trigger] self.rows()[j], sid, ty),
            r matches Some(w) ==> is_latest(self.rows(), sid, ty, w as int),
    {
        let len = self.rows.len();
        let mut best: Option<usize> = None;
        let mut i: usize = 0;
        proof {
            lemma_wf_facts(self.rows(), self.spec_next_id());
        }
        while i < len
            invariant
                i <= len,
                len == self.rows().len(),
                forall|p: int, q: int|
                    0 <= p < q < self.rows().len() ==> self.rows()[p].id != self.rows()[q].id,
                best is None ==> forall|j: int|
                    0 <= j < i ==> !evt_match(#[trigger] self.rows()[j], sid, ty),
                best matches Some(w) ==> 0 <= (w as int) < i && evt_match(
                    self.rows()[w as int],
                    sid,
                    ty,
                ) && forall|j: int|
                    0 <= j < i && evt_match(#[trigger] self.rows()[j], sid, ty) && j != w as int
                        ==> row_lt(self.rows()[j], self.rows()[w as int]),
            decreases len - i,
        {
            let row = &self.rows[i];
            if row.script_id == sid && row.ty == ty && !row.ignored {
                match best {
                    None => {
                        best = Some(i);
                    },
                    Some(w) => {
                        let b = &self.rows[w];
                        proof {
                            assert(self.rows()[w as int].id != self.rows()[i as int].id);
                        }
                        if b.time < row.time || (b.time == row.time && b.id < row.id) {
                            best = Some(i);
                        }
                    },
                }
            }
            i = i + 1;
        }
        best
    }

    /// The time of the newest non-ignored event of the given type, if any.
    pub fn last_time_of(&self, sid: i64, ty: EventType) -> (r: Option<i64>)
        requires
            self.wf(),
        ensures
            r is None <==> (forall|j: int|
                0 <= j < self.rows().len() ==> !evt_match(#[trigger] self.rows()[j], sid, ty)),
            r matches Some(t) ==> exists|w: int|
                is_latest(self.rows(), sid, ty, w) && self.rows()[w].time == t,
            r matches Some(t) ==> forall|j: int|
                0 <= j < self.rows().len() && evt_match(#[trigger] self.rows()[j], sid, ty)
                    ==> self.rows()[j].time <= t,
    {
        match self.find_latest(sid, ty) {
            None => None,
            Some(w) => Some(self.rows[w].time),
        }
    }

    /// The args of the newest non-ignored execution, if any. An execution
    /// always stores args, so the value is the row's own args.
    pub fn last_args(&self, sid: i64) -> (r: Option<String>)
        requires
            self.wf(),
        ensures
            r is None <==> (forall|j: int|
                0 <= j < self.rows().len() ==> !evt_match(
                    #[trigger] self.rows()[j],
                    sid,
                    EventType::Exec,
                )),
            r matches Some(a) ==> exists|w: int|
                is_latest(self.rows(), sid, EventType::Exec, w) && self.rows()[w].args
                    == Some(a),
    {
        match self.find_latest(sid, EventType::Exec) {
            None => None,
            Some(w) => {
                let row = &self.rows[w];
                match &row.args {
                    Some(a) => Some(a.clone()),
                    None => {
                        proof {
                            reveal(rows_wf);
                            assert(false);
                        }
                        Some(String::new())
                    },
                }
            },
        }
    }

    /// Record one event and return its row id.
    ///
    /// `Exec` deduplicates content against the newest content-bearing
    /// execution of the same script. `ExecDone` is suppressed — no row, id 0 —
    /// when its execution is ignored, and is an error (`Database`) when its
    /// execution does not exist. Other kinds insert plainly.
    pub fn record(&mut self, event: Event) -> (r: Result<i64, Error>)
        requires
            old(self).wf(),
            old(self).spec_next_id() < i64::MAX,
            // A done event may only point at an execution of its own script.
            event.data matches EventData::ExecDone { main_event_id, .. } ==> forall|j: int|
                0 <= j < old(self).rows().len() && (#[trigger] old(self).rows()[j]).ty
                    == EventType::Exec && old(self).rows()[j].id == main_event_id ==> old(self).rows()[j].script_id == event.script_id,
        ensures
            final(self).wf(),
            match r {
                Err(e) => {
                    // Only a done event without its execution fails; nothing changes.
                    &&& e is Database
                    &&& event.data matches EventData::ExecDone { main_event_id, .. } && (forall|
                        j: int,
                    |
                        0 <= j < old(self).rows().len() ==> !((#[trigger] old(self).rows()[j]).ty
                            == EventType::Exec && old(self).rows()[j].id == main_event_id))
                    &&& *final(self) == *old(self)
                },
                Ok(id) => {
                    if id == 0 {
                        // Suppressed done event: its execution is ignored.
                        &&& event.data matches EventData::ExecDone { main_event_id, .. }
                            && (exists|j: int|
                            0 <= j < old(self).rows().len() && (#[trigger] old(self).rows()[j]).ty == EventType::Exec && old(self).rows()[j].id
                                == main_event_id && old(self).rows()[j].ignored)
                        &&& *final(self) == *old(self)
                    } else {
                        // One row was appended, and it is exactly the event.
                        &&& id == old(self).spec_next_id()
                        &&& final(self).spec_next_id() == old(self).spec_next_id() + 1
                        &&& final(self).rows().len() == old(self).rows().len() + 1
                        &&& final(self).rows().drop_last() == old(self).rows()
                        &&& spec_recorded_row(
                            old(self).rows(),
                            final(self).rows().last(),
                            event,
                            id,
                        )
                    }
                },
            },
    {
        proof {
            lemma_wf_facts(old(self).rows(), old(self).spec_next_id());
        }
        let Event { script_id, time, cmd, data } = event;
        match data {
            EventData::Read => self.push_row(script_id, time, cmd, EventType::Read, None, None, 0),
            EventData::Write => self.push_row(
                script_id,
                time,
                cmd,
                EventType::Write,
                None,
                None,
                0,
            ),
            EventData::Miss => self.push_row(script_id, time, cmd, EventType::Miss, None, None, 0),
            EventData::Exec { content, args } => {
                let ghost cview = content@;
                let found = self.find_latest_content_exec(script_id);
                let dup = match found {
                    None => false,
                    Some(w) => {
                        let row = &self.rows[w];
                        match &row.content {
                            Some(c) => str_eq_string(c, &content),
                            None => false,
                        }
                    },
                };
                proof {
                    if dup {
                        assert(spec_exec_content_dup(self.rows(), script_id, cview));
                    } else {
                        assert(!spec_exec_content_dup(self.rows(), script_id, cview)) by {
                            if spec_exec_content_dup(self.rows(), script_id, cview) {
                                let w2 = choose|w2: int|
                                    is_latest_content_exec(self.rows(), script_id, w2) && ((
                                    #[trigger] self.rows()[w2].content) matches Some(c) && c@
                                        == cview);
                                match found {
                                    None => {
                                        assert(false);
                                    },
                                    Some(w) => {
                                        if w2 != w as int {
                                            assert(row_lt(
                                                self.rows()[w as int],
                                                self.rows()[w2],
                                            ));
                                            assert(row_lt(
                                                self.rows()[w2],
                                                self.rows()[w as int],
                                            ));
                                            assert(false);
                                        } else {
                                            assert(false);
                                        }
                                    },
                                }
                            }
                        }
                    }
                }
                let stored = if dup {
                    None
                } else {
                    Some(content)
                };
                self.push_row(
                    script_id,
                    time,
                    cmd,
                    EventType::Exec,
                    Some(args),
                    stored,
                    0,
                )
            },
            EventData::ExecDone { code, main_event_id } => {
                match self.find_exec_by_id(main_event_id) {
                    None => Err(Error::Database),
                    Some(w) => {
                        proof {
                            assert(old(self).rows()[w as int].script_id == script_id);
                            assert(has_exec_with_id(old(self).rows(), main_event_id, script_id))
                                by {
                                reveal(has_exec_with_id);
                            }
                        }
                        if self.rows[w].ignored {
                            Ok(0)
                        } else {
                            proof {
                                // the execution is not ignored, and no other
                                // row carries its id
                                assert forall|j: int|
                                    !(0 <= j < old(self).rows().len() && (#[trigger] old(
                                        self,
                                    ).rows()[j]).ty == EventType::Exec && old(self).rows()[j].id
                                        == main_event_id && old(self).rows()[j].ignored) by {
                                    if 0 <= j < old(self).rows().len() && old(self).rows()[j].ty
                                        == EventType::Exec && old(self).rows()[j].id
                                        == main_event_id && old(self).rows()[j].ignored {
                                        assert(j == w as int);
                                        assert(false);
                                    }
                                }
                            }
                            let content = i64_to_string(code as i64);
                            self.push_row(
                                script_id,
                                time,
                                cmd,
                                EventType::ExecDone,
                                None,
                                Some(content),
                                main_event_id,
                            )
                        }
                    },
                }
            },
        }
    }

    /// The newest content-bearing execution of the script, ignored or not.
    fn find_latest_content_exec(&self, sid: i64) -> (r: Option<usize>)
        requires
            self.wf(),
        ensures
            r is None ==> forall|j: int|
                0 <= j < self.rows().len() ==> !((#[trigger] self.rows()[j]).script_id == sid
                    && self.rows()[j].ty == EventType::Exec && self.rows()[j].content is Some),
            r matches Some(w) ==> is_latest_content_exec(self.rows(), sid, w as int),
    {
        let len = self.rows.len();
        let mut best: Option<usize> = None;
        let mut i: usize = 0;
        proof {
            lemma_wf_facts(self.rows(), self.spec_next_id());
        }
        while i < len
            invariant
                i <= len,
                len == self.rows().len(),
                forall|p: int, q: int|
                    0 <= p < q < self.rows().len() ==> self.rows()[p].id != self.rows()[q].id,
                best is None ==> forall|j: int|
                    0 <= j < i ==> !((#[trigger] self.rows()[j]).script_id == sid
                        && self.rows()[j].ty == EventType::Exec
                        && self.rows()[j].content is Some),
                best matches Some(w) ==> 0 <= (w as int) < i && self.rows()[w as int].script_id
                    == sid && self.rows()[w as int].ty == EventType::Exec && self.rows()[
                    w as int
                ].content is Some && forall|j: int|
                    0 <= j < i && (#[trigger] self.rows()[j]).script_id == sid && self.rows()[j].ty
                        == EventType::Exec && self.rows()[j].content is Some && j != w as int
                        ==> row_lt(self.rows()[j], self.rows()[w as int]),
            decreases len - i,
        {
            let row = &self.rows[i];
            if row.script_id == sid && row.ty == EventType::Exec && row.content.is_some() {
                match best {
                    None => {
                        best = Some(i);
                    },
                    Some(w) => {
                        let b = &self.rows[w];
                        proof {
                            assert(self.rows()[w as int].id != self.rows()[i as int].id);
                        }
                        if b.time < row.time || (b.time == row.time && b.id < row.id) {
                            best = Some(i);
                        }
                    },
                }
            }
            i = i + 1;
        }
        best
    }

    /// The execution row with the given id, if any.
    fn find_exec_by_id(&self, id: i64) -> (r: Option<usize>)
        ensures
            r is None ==> forall|j: int|
                0 <= j < self.rows().len() ==> !((#[trigger] self.rows()[j]).ty == EventType::Exec
                    && self.rows()[j].id == id),
            r matches Some(w) ==> 0 <= (w as int) < self.rows().len() && self.rows()[w as int].ty
                == EventType::Exec && self.rows()[w as int].id == id,
    {
        let len = self.rows.len();
        let mut i: usize = 0;
        while i < len
            invariant
                i <= len,
                len == self.rows().len(),
                forall|j: int|
                    0 <= j < i ==> !((#[trigger] self.rows()[j]).ty == EventType::Exec
                        && self.rows()[j].id == id),
            decreases len - i,
        {
            let row = &self.rows[i];
            if row.ty == EventType::Exec && row.id == id {
                return Some(i);
            }
            i = i + 1;
        }
        None
    }

    /// Append one row with the next id.
    fn push_row(
        &mut self,
        script_id: i64,
        time: i64,
        cmd: String,
        ty: EventType,
        args: Option<String>,
        content: Option<String>,
        main_event_id: i64,
    ) -> (r: Result<i64, Error>)
        requires
            old(self).wf(),
            old(self).spec_next_id() < i64::MAX,
            ty == EventType::Exec ==> args is Some,
            ty != EventType::ExecDone ==> main_event_id == 0,
            ty == EventType::ExecDone ==> has_exec_with_id(
                old(self).rows(),
                main_event_id,
                script_id,
            ),
        ensures
            final(self).wf(),
            r matches Ok(id) && id == old(self).spec_next_id(),
            final(self).spec_next_id() == old(self).spec_next_id() + 1,
            final(self).rows().len() == old(self).rows().len() + 1,
            final(self).rows().drop_last() == old(self).rows(),
            final(self).rows().last() == (EventRow {
                id: old(self).spec_next_id(),
                script_id,
                ty,
                time,
                cmd,
                args,
                content,
                main_event_id,
                ignored: false,
            }),
    {
        let id = self.next_id;
        let row = EventRow {
            id,
            script_id,
            ty,
            time,
            cmd,
            args,
            content,
            main_event_id,
            ignored: false,
        };
        let ghost grow = row;
        self.rows.push(row);
        self.next_id = id + 1;
        proof {
            lemma_push_wf(old(self).rows(), self.rows(), grow, old(self).spec_next_id());
            assert(final(self).rows().drop_last() =~= old(self).rows());
        }
        Ok(id)
    }

    /// Overwrite the args of the execution row with the given id and clear its
    /// ignored mark; id 0 is a no-op. Rows of other ids are untouched.
    pub fn amend_args_by_id(&mut self, event_id: i64, args: String)
        requires
            old(self).wf(),
        ensures
            final(self).wf(),
            final(self).spec_next_id() == old(self).spec_next_id(),
            final(self).rows().len() == old(self).rows().len(),
            forall|i: int|
                0 <= i < old(self).rows().len() ==> #[trigger] final(self).rows()[i] == (if event_id
                    != 0 && old(self).rows()[i].ty == EventType::Exec && old(self).rows()[i].id
                    == event_id {
                    EventRow { ignored: false, args: Some(args), ..old(self).rows()[i] }
                } else {
                    old(self).rows()[i]
                }),
    {
        if event_id == 0 {
            return ;
        }
        let len = self.rows.len();
        let mut i: usize = 0;
        while i < len
            invariant
                i <= len,
                len == self.rows().len(),
                old(self).wf(),
                self.next_id == old(self).next_id,
                self.rows().len() == old(self).rows().len(),
                event_id != 0,
                forall|j: int|
                    0 <= j < len ==> #[trigger] self.rows()[j] == (if j < i && old(self).rows()[j].ty == EventType::Exec && old(self).rows()[j].id == event_id {
                        EventRow { ignored: false, args: Some(args), ..old(self).rows()[j] }
                    } else {
                        old(self).rows()[j]
                    }),
            decreases len - i,
        {
            if self.rows[i].ty == EventType::Exec && self.rows[i].id == event_id {
                let updated = EventRow {
                    ignored: false,
                    args: Some(args.clone()),
                    ..self.rows[i].clone()
                };
                self.rows.set(i, updated);
            }
            i = i + 1;
        }
        proof {
            assert(forall|j: int|
                0 <= j < self.rows().len() ==> (#[trigger] self.rows()[j]).id == old(self).rows()[j].id && self.rows()[j].ty == old(self).rows()[j].ty && self.rows()[
                    j
                ].main_event_id == old(self).rows()[j].main_event_id && self.rows()[j].script_id
                    == old(self).rows()[j].script_id && (self.rows()[j].ty == EventType::Exec
                    ==> self.rows()[j].args is Some)) by {
                lemma_wf_facts(old(self).rows(), old(self).spec_next_id());
            }
            lemma_pointwise_wf(old(self).rows(), self.rows(), old(self).spec_next_id());
        }
    }

    /// Delete every event of the script.
    pub fn remove(&mut self, script_id: i64)
        requires
            old(self).wf(),
        ensures
            final(self).wf(),
            final(self).spec_next_id() == old(self).spec_next_id(),
            final(self).rows() == old(self).rows().filter(
                |r: EventRow| r.script_id != script_id,
            ),
    {
        let ghost pred = |r: EventRow| r.script_id != script_id;
        let len = self.rows.len();
        let mut out: Vec<EventRow> = Vec::new();
        let mut i: usize = 0;
        proof {
            reveal(Seq::filter);
            assert(out@ =~= old(self).rows().take(0).filter(pred));
        }
        while i < len
            invariant
                i <= len,
                len == old(self).rows().len(),
                *self == *old(self),
                out@ == old(self).rows().take(i as int).filter(
                    |r: EventRow| r.script_id != script_id,
                ),
            decreases len - i,
        {
            proof {
                reveal(Seq::filter);
                assert(old(self).rows().take(i + 1).drop_last() =~= old(self).rows().take(i as int));
                assert(old(self).rows().take(i + 1).last() == old(self).rows()[i as int]);
            }
            let row = &self.rows[i];
            if !(row.script_id == script_id) {
                out.push(row.clone());
            }
            i = i + 1;
        }
        proof {
            assert(old(self).rows().take(len as int) =~= old(self).rows());
        }
        self.rows = out;
        proof {
            lemma_remove_wf(old(self).rows(), self.rows(), script_id, old(self).spec_next_id());
        }
    }
}

/// Equality of a stored string and a fresh one.
fn str_eq_string(a: &String, b: &String) -> (r: bool)
    ensures
        r == (a@ == b@),
{
    crate::strutil::str_eq(a.as_str(), b.as_str())
}

/// The row appended by `record` for an event, including the content
/// deduplication rule for executions.
pub open spec fn spec_recorded_row(
    old_rows: Seq<EventRow>,
    row: EventRow,
    event: Event,
    id: i64,
) -> bool {
    &&& row.id == id
    &&& row.script_id == event.script_id
    &&& row.time == event.time
    &&& row.cmd == event.cmd
    &&& row.ty == event.data.spec_type()
    &&& !row.ignored
    &&& match event.data {
        EventData::Read | EventData::Write | EventData::Miss => {
            row.args is None && row.content is None && row.main_event_id == 0
        },
        EventData::Exec { content, args } => {
            &&& row.args == Some(args)
            &&& row.main_event_id == 0
            &&& row.content == (if spec_exec_content_dup(old_rows, event.script_id, content@) {
                Option::<String>::None
            } else {
                Some(content)
            })
        },
        EventData::ExecDone { code, main_event_id } => {
            &&& row.args is None
            &&& row.main_event_id == main_event_id
            &&& row.content matches Some(c) && c@ == spec_code_string(code as int)
        },
    }
}

/// Whether a new execution's content equals the newest stored content of the
/// same script, and is therefore stored as `None`.
pub open spec fn spec_exec_content_dup(rows: Seq<EventRow>, sid: i64, content: Seq<char>) -> bool {
    exists|w: int|
        is_latest_content_exec(rows, sid, w) && ((#[trigger] rows[w].content) matches Some(c) && c@
            == content)
}

/// The decimal text of an exit code.
pub open spec fn spec_code_string(code: int) -> Seq<char> {
    if code >= 0 {
        crate::strutil::dec_repr(code as nat)
    } else {
        seq!['-'] + crate::strutil::dec_repr((-code) as nat)
    }
}

/// Deleting one script's rows keeps the log invariant.
proof fn lemma_remove_wf(
    orows: Seq<EventRow>,
    rows: Seq<EventRow>,
    script_id: i64,
    next_id: i64,
)
    requires
        rows_wf(orows, next_id),
        rows == orows.filter(|r: EventRow| r.script_id != script_id),
    ensures
        rows_wf(rows, next_id),
{
    reveal(rows_wf);
    broadcast use vstd::seq_lib::group_filter_ensures;

    let pred = |r: EventRow| r.script_id != script_id;
    lemma_filter_keeps_wf(orows, rows, pred);
    assert forall|i: int| 0 <= i < rows.len() implies 1 <= (#[trigger] rows[i]).id < next_id && (
    rows[i].ty != EventType::ExecDone ==> rows[i].main_event_id == 0) && (rows[i].ty
        == EventType::Exec ==> rows[i].args is Some) by {
        assert(orows.contains(rows[i]));
        let k = choose|k: int| 0 <= k < orows.len() && orows[k] == rows[i];
        assert(1 <= orows[k].id < next_id);
    }
    assert forall|i: int|
        0 <= i < rows.len() && (#[trigger] rows[i]).ty == EventType::ExecDone implies has_exec_with_id(
        rows,
        rows[i].main_event_id,
        rows[i].script_id,
    ) by {
        reveal(has_exec_with_id);
        let done = rows[i];
        assert(orows.contains(done));
        let oi = choose|oi: int| 0 <= oi < orows.len() && orows[oi] == done;
        assert(orows[oi].ty == EventType::ExecDone);
        assert(has_exec_with_id(orows, orows[oi].main_event_id, orows[oi].script_id));
        let oj = choose|oj: int|
            0 <= oj < orows.len() && (#[trigger] orows[oj]).ty == EventType::Exec && orows[oj].id
                == done.main_event_id && orows[oj].script_id == done.script_id;
        assert(pred(done));
        assert(pred(orows[oj]));
        assert(orows.filter(pred).contains(orows[oj]));
        let nj = choose|nj: int| 0 <= nj < rows.len() && rows[nj] == orows[oj];
        assert(rows[nj].ty == EventType::Exec && rows[nj].id == done.main_event_id
            && rows[nj].script_id == done.script_id);
    }
}

/// Filtering keeps id order, id bounds, type constraints and exec args.
proof fn lemma_filter_keeps_wf(
    old_rows: Seq<EventRow>,
    new_rows: Seq<EventRow>,
    pred: spec_fn(EventRow) -> bool,
)
    requires
        new_rows == old_rows.filter(pred),
        forall|i: int, j: int| 0 <= i < j < old_rows.len() ==> old_rows[i].id < old_rows[j].id,
    ensures
        forall|i: int| 0 <= i < new_rows.len() ==> old_rows.contains(#[trigger] new_rows[i]),
        forall|i: int, j: int| 0 <= i < j < new_rows.len() ==> new_rows[i].id < new_rows[j].id,
    decreases old_rows.len(),
{
    reveal(Seq::filter);
    broadcast use vstd::seq_lib::group_filter_ensures;

    if old_rows.len() > 0 {
        let prefix = old_rows.drop_last();
        lemma_filter_keeps_wf(prefix, prefix.filter(pred), pred);
        assert(forall|i: int, j: int|
            0 <= i < j < prefix.len() ==> prefix[i].id < prefix[j].id);
        if pred(old_rows.last()) {
            assert(new_rows == prefix.filter(pred).push(old_rows.last()));
            assert(forall|i: int|
                0 <= i < prefix.filter(pred).len() ==> prefix.contains(
                    #[trigger] prefix.filter(pred)[i],
                ));
            assert(forall|i: int|
                0 <= i < new_rows.len() - 1 ==> new_rows[i] == prefix.filter(pred)[i]);
            assert(forall|i: int|
                0 <= i < new_rows.len() - 1 ==> old_rows.contains(#[trigger] new_rows[i])) by {
                assert(forall|k: int|
                    0 <= k < prefix.len() ==> old_rows.contains(#[trigger] prefix[k])) by {
                    assert(forall|k: int| 0 <= k < prefix.len() ==> prefix[k] == old_rows[k]);
                }
            }
            assert(old_rows.contains(old_rows.last()));
            // id order: every kept prefix row has id below the last row's id
            assert(forall|i: int|
                0 <= i < new_rows.len() - 1 ==> #[trigger] new_rows[i].id < old_rows.last().id) by {
                assert(forall|k: int|
                    0 <= k < prefix.len() ==> #[trigger] prefix[k].id < old_rows.last().id);
                assert(forall|i: int|
                    0 <= i < prefix.filter(pred).len() ==> prefix.contains(
                        #[trigger] prefix.filter(pred)[i],
                    ));
            }
        } else {
            assert(new_rows == prefix.filter(pred));
            assert(forall|k: int|
                0 <= k < prefix.len() ==> old_rows.contains(#[trigger] prefix[k])) by {
                assert(forall|k: int| 0 <= k < prefix.len() ==> prefix[k] == old_rows[k]);
            }
        }
    }
}

impl Historian {
    /// Whether `rows[w]` is its argument group's representative: the newest
    /// non-ignored execution of the script among those sharing its args.
    fn is_group_rep_at(&self, sid: i64, w: usize) -> (r: bool)
        requires
            self.wf(),
            w < self.rows().len(),
        ensures
            r == is_group_rep(self.rows(), sid, w as int),
    {
        let row = &self.rows[w];
        if !(row.script_id == sid && row.ty == EventType::Exec && !row.ignored) {
            return false;
        }
        let len = self.rows.len();
        let mut j: usize = 0;
        proof {
            lemma_wf_facts(self.rows(), self.spec_next_id());
        }
        while j < len
            invariant
                j <= len,
                len == self.rows().len(),
                w < len,
                forall|p: int, q: int|
                    0 <= p < q < self.rows().len() ==> self.rows()[p].id != self.rows()[q].id,
                forall|i: int|
                    0 <= i < self.rows().len() && (#[trigger] self.rows()[i]).ty == EventType::Exec
                        ==> self.rows()[i].args is Some,
                evt_match(self.rows()[w as int], sid, EventType::Exec),
                forall|k: int|
                    0 <= k < j && evt_match(#[trigger] self.rows()[k], sid, EventType::Exec)
                        && args_of(self.rows()[k]) == args_of(self.rows()[w as int]) && k != w as int
                        ==> row_lt(self.rows()[k], self.rows()[w as int]),
            decreases len - j,
        {
            if j != w {
                let other = &self.rows[j];
                if other.script_id == sid && other.ty == EventType::Exec && !other.ignored {
                    let same = match (&other.args, &self.rows[w].args) {
                        (Some(a), Some(b)) => crate::strutil::str_eq(a.as_str(), b.as_str()),
                        _ => false,
                    };
                    if same {
                        let a = &self.rows[j];
                        let b = &self.rows[w];
                        if !(a.time < b.time || (a.time == b.time && a.id < b.id)) {
                            return false;
                        }
                    }
                }
            }
            j = j + 1;
        }
        true
    }

    /// The argument groups of the script's non-ignored executions, newest
    /// first: one entry per distinct args value, carrying the args, and the
    /// time and id of the group's newest execution.
    pub fn grouped_args(&self, sid: i64) -> (r: Vec<ArgsGroup>)
        requires
            self.wf(),
        ensures
            groups_complete(self.rows(), sid, r@),
            r@.len() == rep_count(self.rows(), sid, self.rows().len() as int),
    {
        let len = self.rows.len();
        let mut reps: Vec<ArgsGroup> = Vec::new();
        let ghost mut src: Seq<int> = Seq::empty();
        let mut i: usize = 0;
        proof {
            lemma_wf_facts(self.rows(), self.spec_next_id());
        }
        while i < len
            invariant
                self.wf(),
                i <= len,
                len == self.rows().len(),
                forall|p: int, q: int|
                    0 <= p < q < self.rows().len() ==> self.rows()[p].id != self.rows()[q].id,
                forall|x: int|
                    0 <= x < self.rows().len() && (#[trigger] self.rows()[x]).ty
                        == EventType::Exec ==> self.rows()[x].args is Some,
                src.len() == reps@.len(),
                forall|k: int| 0 <= k < src.len() ==> 0 <= #[trigger] src[k] < i,
                forall|k: int|
                    0 <= k < src.len() ==> is_group_rep(self.rows(), sid, #[trigger] src[k]),
                forall|k: int|
                    0 <= k < src.len() ==> args_of_entry(#[trigger] reps@[k]) == args_of(
                        self.rows()[src[k]],
                    ) && reps@[k].time == self.rows()[src[k]].time && reps@[k].newest_id
                        == self.rows()[src[k]].id,
                forall|p: int, q: int| 0 <= p < q < src.len() ==> src[p] < src[q],
                forall|w: int| 0 <= w < i && is_group_rep(self.rows(), sid, w) ==> src.contains(w),
                reps@.len() == rep_count(self.rows(), sid, i as int),
            decreases len - i,
        {
            if self.is_group_rep_at(sid, i) {
                let row = &self.rows[i];
                let args = match &row.args {
                    Some(a) => a.clone(),
                    None => {
                        proof {
                            assert(false);
                        }
                        String::new()
                    },
                };
                let entry = ArgsGroup { args, time: row.time, newest_id: row.id };
                reps.push(entry);
                proof {
                    let old_src = src;
                    src = src.push(i as int);
                    assert(forall|k: int| 0 <= k < old_src.len() ==> src[k] == old_src[k]);
                    assert(src.last() == i as int);
                    assert forall|w: int|
                        0 <= w < i && old_src.contains(w) implies #[trigger] src.contains(w) by {
                        let k = choose|k: int| 0 <= k < old_src.len() && old_src[k] == w;
                        assert(src[k] == w);
                    }
                    assert(src.contains(i as int));
                }
            } else {
                proof {
                    assert(forall|w: int|
                        0 <= w < i + 1 && is_group_rep(self.rows(), sid, w) ==> src.contains(w));
                }
            }
            i = i + 1;
        }
        let ghost reps0 = reps@;
        // extract the representatives newest first
        let mut work = reps;
        let mut out: Vec<ArgsGroup> = Vec::new();
        proof {
            broadcast use vstd::seq_lib::group_to_multiset_ensures;

            assert(out@.to_multiset().add(work@.to_multiset()) =~= reps0.to_multiset());
        }
        while work.len() > 0
            invariant
                out@.to_multiset().add(work@.to_multiset()) =~= reps0.to_multiset(),
                forall|p: int, q: int|
                    0 <= p < q < work@.len() ==> work@[p].newest_id != work@[q].newest_id,
                forall|p: int, q: int|
                    0 <= p < q < out@.len() ==> entry_lt(#[trigger] out@[q], #[trigger] out@[p]),
                forall|k: int|
                    0 <= k < work@.len() && out@.len() > 0 ==> entry_lt(
                        #[trigger] work@[k],
                        out@.last(),
                    ),
                forall|k: int| 0 <= k < out@.len() ==> reps0.contains(#[trigger] out@[k]),
            decreases work.len(),
        {
            let wlen = work.len();
            let mut m: usize = 0;
            let mut c: usize = 1;
            while c < wlen
                invariant
                    m < c <= wlen,
                    wlen == work@.len(),
                    forall|p: int, q: int|
                        0 <= p < q < work@.len() ==> work@[p].newest_id != work@[q].newest_id,
                    forall|k: int|
                        0 <= k < c && k != m ==> entry_lt(#[trigger] work@[k], work@[m as int]),
                decreases wlen - c,
            {
                let a = &work[c];
                let b = &work[m];
                if a.time > b.time || (a.time == b.time && a.newest_id > b.newest_id) {
                    m = c;
                }
                c = c + 1;
            }
            let ghost old_work = work@;
            let ghost old_out = out@;
            let item = work.remove(m);
            proof {
                broadcast use vstd::seq_lib::group_to_multiset_ensures;

                assert(item == old_work[m as int]);
                assert(work@ == old_work.remove(m as int));
                assert(old_work.to_multiset().contains(item));
                assert(reps0.to_multiset().contains(item)) by {
                    assert(reps0.to_multiset().count(item) >= old_work.to_multiset().count(item));
                }
                assert(reps0.contains(item));
            }
            out.push(item);
            proof {
                broadcast use vstd::seq_lib::group_to_multiset_ensures;

                assert(out@ == old_out.push(old_work[m as int]));
                assert(out@.to_multiset() =~= old_out.to_multiset().insert(old_work[m as int]));
                assert(work@.to_multiset() =~= old_work.to_multiset().remove(old_work[m as int]));
                assert(out@.to_multiset().add(work@.to_multiset()) =~= reps0.to_multiset());
                assert(forall|k: int| 0 <= k < m ==> work@[k] == old_work[k]);
                assert(forall|k: int|
                    m <= k < work@.len() ==> #[trigger] work@[k] == old_work[k + 1]);
                assert(out@.last() == old_work[m as int]);
                assert(forall|k: int|
                    0 <= k < work@.len() ==> entry_lt(#[trigger] work@[k], out@.last()));
                assert(forall|k: int| 0 <= k < old_out.len() ==> out@[k] == old_out[k]);
                if old_out.len() > 0 {
                    assert(entry_lt(out@.last(), old_out.last()));
                }
            }
        }
        proof {
            broadcast use vstd::seq_lib::group_to_multiset_ensures;

            assert(work@.len() == 0);
            assert(work@.to_multiset().len() == 0);
            assert(out@.to_multiset() =~= reps0.to_multiset()) by {
                assert(forall|e: ArgsGroup| work@.to_multiset().count(e) == 0);
            }
            assert forall|k: int| 0 <= k < out@.len() implies group_entry_of(
                self.rows(),
                sid,
                #[trigger] out@[k],
            ) by {
                assert(reps0.contains(out@[k]));
                let l = choose|l: int| 0 <= l < reps0.len() && reps0[l] == out@[k];
                assert(args_of_entry(reps0[l]) == args_of(self.rows()[src[l]]));
                assert(is_group_rep(self.rows(), sid, src[l]));
            }
            assert forall|w: int| is_group_rep(self.rows(), sid, w) implies exists|k: int|
                0 <= k < out@.len() && (#[trigger] out@[k]).newest_id == self.rows()[w].id by {
                assert(src.contains(w));
                let l = choose|l: int| 0 <= l < src.len() && src[l] == w;
                assert(reps0[l].newest_id == self.rows()[w].id);
                assert(reps0.to_multiset().contains(reps0[l]));
                assert(out@.to_multiset().contains(reps0[l]));
                assert(out@.contains(reps0[l]));
                let k = choose|k: int| 0 <= k < out@.len() && out@[k] == reps0[l];
                assert(out@[k].newest_id == self.rows()[w].id);
            }
            assert(out@.len() == reps0.len()) by {
                broadcast use vstd::seq_lib::group_to_multiset_ensures;

                assert(out@.len() == out@.to_multiset().len());
                assert(reps0.len() == reps0.to_multiset().len());
            }
        }
        out
    }

    /// Distinct recent argument lists, newest group first, paginated.
    pub fn last_args_list(&self, sid: i64, limit: u32, offset: u32) -> (r: Vec<String>)
        requires
            self.wf(),
        ensures
            exists|groups: Seq<ArgsGroup>|
                {
                    &&& #[trigger] groups_complete(self.rows(), sid, groups)
                    &&& r@.len() == spec_page_len(groups.len() as int, limit as int, offset as int)
                    &&& forall|k: int|
                        0 <= k < r@.len() ==> (#[trigger] r@[k])@ == args_of_entry(
                            groups[offset + k],
                        )
                },
    {
        let groups = self.grouped_args(sid);
        let mut r: Vec<String> = Vec::new();
        let glen = groups.len();
        if offset as usize >= glen {
            proof {
                assert(groups_complete(self.rows(), sid, groups@));
                assert(r@.len() == spec_page_len(groups@.len() as int, limit as int, offset as int));
            }
            return r;
        }
        let mut k: usize = 0;
        while k < limit as usize && offset as usize + k < glen
            invariant
                glen == groups@.len(),
                (offset as usize) < glen,
                k <= limit as usize,
                k <= glen - offset as usize,
                r@.len() == k,
                forall|m: int|
                    0 <= m < k ==> (#[trigger] r@[m])@ == args_of_entry(groups@[offset + m]),
            decreases glen - k,
        {
            r.push(groups[offset as usize + k].args.clone());
            k = k + 1;
        }
        proof {
            assert(groups_complete(self.rows(), sid, groups@));
            assert(r@.len() == spec_page_len(groups@.len() as int, limit as int, offset as int));
        }
        r
    }
}

/// One entry of the grouped argument history.
#[derive(Debug)]
pub struct ArgsGroup {
    /// The shared args value.
    pub args: String,
    /// Time of the group's newest execution.
    pub time: i64,
    /// Row id of the group's newest execution.
    pub newest_id: i64,
}

/// The args of an execution row, as text.
pub open spec fn args_of(r: EventRow) -> Seq<char> {
    r.args->0@
}

/// The args of a group entry, as text.
pub open spec fn args_of_entry(e: ArgsGroup) -> Seq<char> {
    e.args@
}

/// `rows[w]` is the newest non-ignored execution of `sid` among those that
/// share its args value.
pub open spec fn is_group_rep(rows: Seq<EventRow>, sid: i64, w: int) -> bool {
    &&& 0 <= w < rows.len()
    &&& evt_match(rows[w], sid, EventType::Exec)
    &&& forall|k: int|
        0 <= k < rows.len() && evt_match(#[trigger] rows[k], sid, EventType::Exec) && args_of(
            rows[k],
        ) == args_of(rows[w]) && k != w ==> row_lt(rows[k], rows[w])
}

/// How many positions among the first `n` are group representatives: the
/// number of argument groups the script's non-ignored executions form.
pub open spec fn rep_count(rows: Seq<EventRow>, sid: i64, n: int) -> int
    decreases n,
{
    if n <= 0 {
        0
    } else {
        rep_count(rows, sid, n - 1) + (if is_group_rep(rows, sid, n - 1) {
            1int
        } else {
            0int
        })
    }
}

/// The entry describes some group representative.
pub open spec fn group_entry_of(rows: Seq<EventRow>, sid: i64, e: ArgsGroup) -> bool {
    exists|w: int|
        is_group_rep(rows, sid, w) && args_of_entry(e) == args_of(#[trigger] rows[w]) && e.time
            == rows[w].time && e.newest_id == rows[w].id
}

/// Strict order on group entries by time, then newest id.
pub open spec fn entry_lt(a: ArgsGroup, b: ArgsGroup) -> bool {
    a.time < b.time || (a.time == b.time && a.newest_id < b.newest_id)
}

/// The entry's key is below the given key.
pub open spec fn entry_lt_key(a: ArgsGroup, time: i64, id: i64) -> bool {
    a.time < time || (a.time == time && a.newest_id < id)
}

/// Two entries carry the same args text and the same key.
pub open spec fn entry_key_eq(a: ArgsGroup, b: ArgsGroup) -> bool {
    args_of_entry(a) == args_of_entry(b) && a.time == b.time && a.newest_id == b.newest_id
}

/// The sequence lists the script's argument groups newest first: every entry
/// describes a group representative, entries fall strictly in key order, and
/// every representative appears.
pub open spec fn groups_complete(rows: Seq<EventRow>, sid: i64, groups: Seq<ArgsGroup>) -> bool {
    &&& forall|k: int| 0 <= k < groups.len() ==> group_entry_of(rows, sid, #[trigger] groups[k])
    &&& forall|p: int, q: int|
        0 <= p < q < groups.len() ==> entry_lt(#[trigger] groups[q], #[trigger] groups[p])
    &&& forall|w: int|
        is_group_rep(rows, sid, w) ==> exists|k: int|
            0 <= k < groups.len() && (#[trigger] groups[k]).newest_id == rows[w].id
}

/// How many entries a page holds: the part of `[offset, offset + limit)`
/// that lies inside `[0, total)`.
pub open spec fn spec_page_len(total: int, limit: int, offset: int) -> int {
    if offset >= total {
        0
    } else if offset + limit <= total {
        limit
    } else {
        total - offset
    }
}

/// `rows[w]` is the newest execution row of the script, ignored or not.
pub open spec fn is_latest_exec_any(rows: Seq<EventRow>, sid: i64, w: int) -> bool {
    &&& 0 <= w < rows.len()
    &&& rows[w].ty == EventType::Exec && rows[w].script_id == sid
    &&& forall|j: int|
        0 <= j < rows.len() && (#[trigger] rows[j]).ty == EventType::Exec && rows[j].script_id
            == sid && j != w ==> row_lt(rows[j], rows[w])
}

/// `o` is the time of the newest non-ignored event of the given type, or
/// `None` when there is none.
pub open spec fn is_last_time(rows: Seq<EventRow>, sid: i64, ty: EventType, o: Option<i64>) -> bool {
    match o {
        None => forall|j: int| 0 <= j < rows.len() ==> !evt_match(#[trigger] rows[j], sid, ty),
        Some(t) => exists|w: int| is_latest(rows, sid, ty, w) && #[trigger] rows[w].time == t,
    }
}

/// Some row carries this id.
pub open spec fn has_row_with_id(rows: Seq<EventRow>, id: i64) -> bool {
    exists|t: int| 0 <= t < rows.len() && (#[trigger] rows[t]).id == id
}

/// The new ignored mark of a row after ignoring one execution by id: the
/// execution itself and every done event linked to it.
pub open spec fn ignored_after_by_id(r: EventRow, event_id: i64) -> bool {
    r.ignored || (r.ty == EventType::Exec && r.id == event_id) || (r.ty == EventType::ExecDone
        && r.main_event_id == event_id)
}

impl Historian {
    /// The latest exec and exec-done times of the script, packed for a
    /// repository to refresh its cached timestamps.
    fn make_ignore_result(&self, sid: i64) -> (r: IgnoreResult)
        requires
            self.wf(),
        ensures
            r.script_id == sid,
            is_last_time(self.rows(), sid, EventType::Exec, r.exec_time),
            is_last_time(self.rows(), sid, EventType::ExecDone, r.exec_done_time),
    {
        IgnoreResult {
            script_id: sid,
            exec_time: self.last_time_of(sid, EventType::Exec),
            exec_done_time: self.last_time_of(sid, EventType::ExecDone),
        }
    }

    /// The row with the given id, if any.
    fn find_row_by_id(&self, id: i64) -> (r: Option<usize>)
        ensures
            r is None ==> !has_row_with_id(self.rows(), id),
            r matches Some(t) ==> (t as int) < self.rows().len() && self.rows()[t as int].id == id,
    {
        let len = self.rows.len();
        let mut t: usize = 0;
        while t < len
            invariant
                t <= len,
                len == self.rows().len(),
                forall|j: int| 0 <= j < t ==> (#[trigger] self.rows()[j]).id != id,
            decreases len - t,
        {
            if self.rows[t].id == id {
                return Some(t);
            }
            t = t + 1;
        }
        None
    }

    /// The newest execution row of the script, ignored or not.
    fn find_latest_exec_any(&self, sid: i64) -> (r: Option<usize>)
        requires
            self.wf(),
        ensures
            r is None ==> forall|j: int|
                0 <= j < self.rows().len() ==> !((#[trigger] self.rows()[j]).ty == EventType::Exec
                    && self.rows()[j].script_id == sid),
            r matches Some(w) ==> is_latest_exec_any(self.rows(), sid, w as int),
    {
        let len = self.rows.len();
        let mut best: Option<usize> = None;
        let mut i: usize = 0;
        proof {
            lemma_wf_facts(self.rows(), self.spec_next_id());
        }
        while i < len
            invariant
                i <= len,
                len == self.rows().len(),
                forall|p: int, q: int|
                    0 <= p < q < self.rows().len() ==> self.rows()[p].id != self.rows()[q].id,
                best is None ==> forall|j: int|
                    0 <= j < i ==> !((#[trigger] self.rows()[j]).ty == EventType::Exec
                        && self.rows()[j].script_id == sid),
                best matches Some(w) ==> 0 <= (w as int) < i && self.rows()[w as int].ty
                    == EventType::Exec && self.rows()[w as int].script_id == sid && forall|j: int|
                    0 <= j < i && (#[trigger] self.rows()[j]).ty == EventType::Exec
                        && self.rows()[j].script_id == sid && j != w as int ==> row_lt(
                        self.rows()[j],
                        self.rows()[w as int],
                    ),
            decreases len - i,
        {
            let row = &self.rows[i];
            if row.script_id == sid && row.ty == EventType::Exec {
                match best {
                    None => {
                        best = Some(i);
                    },
                    Some(w) => {
                        let b = &self.rows[w];
                        proof {
                            assert(self.rows()[w as int].id != self.rows()[i as int].id);
                        }
                        if b.time < row.time || (b.time == row.time && b.id < row.id) {
                            best = Some(i);
                        }
                    },
                }
            }
            i = i + 1;
        }
        best
    }

    /// The owning script of the execution row with the given id, if any.
    pub fn exec_owner(&self, run_id: i64) -> (r: Option<i64>)
        requires
            self.wf(),
        ensures
            r matches Some(sid) ==> forall|j: int|
                0 <= j < self.rows().len() && (#[trigger] self.rows()[j]).ty == EventType::Exec
                    && self.rows()[j].id == run_id ==> self.rows()[j].script_id == sid,
            r matches Some(sid) ==> exists|j: int|
                0 <= j < self.rows().len() && (#[trigger] self.rows()[j]).ty == EventType::Exec
                    && self.rows()[j].id == run_id && self.rows()[j].script_id == sid,
            r is None ==> forall|j: int|
                0 <= j < self.rows().len() ==> !((#[trigger] self.rows()[j]).ty == EventType::Exec
                    && self.rows()[j].id == run_id),
    {
        proof {
            lemma_wf_facts(self.rows(), self.spec_next_id());
        }
        match self.find_exec_by_id(run_id) {
            None => None,
            Some(w) => {
                let sid = self.rows[w].script_id;
                proof {
                    assert forall|j: int|
                        0 <= j < self.rows().len() && (#[trigger] self.rows()[j]).ty
                            == EventType::Exec && self.rows()[j].id == run_id implies self.rows()[
                        j
                    ].script_id == sid by {
                        if j != w as int {
                            assert(self.rows()[j].id != self.rows()[w as int].id);
                        }
                    }
                }
                Some(sid)
            },
        }
    }

    /// Mark one execution and its done events ignored. Id 0 is a no-op. When
    /// the ignored execution was the script's newest, the result carries the
    /// refreshed latest times. Fails when no row carries the id, or the
    /// owning script has no execution at all.
    pub fn ignore_args_by_id(&mut self, event_id: i64) -> (r: Result<Option<IgnoreResult>, Error>)
        requires
            old(self).wf(),
        ensures
            final(self).wf(),
            final(self).spec_next_id() == old(self).spec_next_id(),
            event_id == 0 ==> r is Ok && r->Ok_0 is None && *final(self) == *old(self),
            r is Err ==> r->Err_0 is Database && *final(self) == *old(self) && event_id != 0,
            // failure exactly when no row carries the id, or the id's owner
            // script has no execution at all
            r is Err <==> (event_id != 0 && (forall|t: int|
                0 <= t < old(self).rows().len() && (#[trigger] old(self).rows()[t]).id == event_id
                    ==> (forall|j: int|
                    0 <= j < old(self).rows().len() ==> !((#[trigger] old(self).rows()[j]).ty
                        == EventType::Exec && old(self).rows()[j].script_id == old(
                        self,
                    ).rows()[t].script_id)))),
            // the refreshed times come back exactly when the ignored event was
            // its script's newest execution
            event_id != 0 && r is Ok ==> ((r->Ok_0 is Some) <==> exists|w: int|
                0 <= w < old(self).rows().len() && (#[trigger] old(self).rows()[w]).id == event_id
                    && is_latest_exec_any(old(self).rows(), old(self).rows()[w].script_id, w)),
            event_id != 0 && r is Ok ==> {
                &&& final(self).rows().len() == old(self).rows().len()
                &&& forall|i: int|
                    0 <= i < old(self).rows().len() ==> #[trigger] final(self).rows()[i]
                        == (EventRow {
                        ignored: ignored_after_by_id(old(self).rows()[i], event_id),
                        ..old(self).rows()[i]
                    })
            },
            r matches Ok(Some(ir)) ==> {
                &&& exists|t: int|
                    0 <= t < old(self).rows().len() && (#[trigger] old(self).rows()[t]).id
                        == event_id && ir.script_id == old(self).rows()[t].script_id
                &&& exists|w: int|
                    is_latest_exec_any(old(self).rows(), ir.script_id, w) && (#[trigger] old(self).rows()[w]).id == event_id
                &&& is_last_time(final(self).rows(), ir.script_id, EventType::Exec, ir.exec_time)
                &&& is_last_time(
                    final(self).rows(),
                    ir.script_id,
                    EventType::ExecDone,
                    ir.exec_done_time,
                )
            },
    {
        if event_id == 0 {
            return Ok(None);
        }
        proof {
            lemma_wf_facts(old(self).rows(), old(self).spec_next_id());
        }
        let target = match self.find_row_by_id(event_id) {
            None => {
                return Err(Error::Database);
            },
            Some(t) => t,
        };
        let sid = self.rows[target].script_id;
        let latest = match self.find_latest_exec_any(sid) {
            None => {
                proof {
                    // rows with this id all share the target's script, which
                    // has no execution at all
                    assert forall|t2: int|
                        0 <= t2 < old(self).rows().len() && (#[trigger] old(self).rows()[t2]).id
                            == event_id implies (forall|j: int|
                        0 <= j < old(self).rows().len() ==> !((#[trigger] old(self).rows()[j]).ty
                            == EventType::Exec && old(self).rows()[j].script_id == old(
                            self,
                        ).rows()[t2].script_id)) by {
                        assert(old(self).rows()[t2].id == old(self).rows()[target as int].id);
                        assert(t2 == target as int);
                    }
                }
                return Err(Error::Database);
            },
            Some(w) => w,
        };
        proof {
            // success: the target's script has this execution, so the failure
            // condition is refuted
            assert(!(forall|t2: int|
                0 <= t2 < old(self).rows().len() && (#[trigger] old(self).rows()[t2]).id
                    == event_id ==> (forall|j: int|
                    0 <= j < old(self).rows().len() ==> !((#[trigger] old(self).rows()[j]).ty
                        == EventType::Exec && old(self).rows()[j].script_id == old(
                        self,
                    ).rows()[t2].script_id)))) by {
                assert(old(self).rows()[target as int].id == event_id);
                assert(old(self).rows()[latest as int].ty == EventType::Exec && old(
                    self,
                ).rows()[latest as int].script_id == old(self).rows()[target as int].script_id);
            }
        }
        let latest_id = self.rows[latest].id;
        let ghost owner = sid;
        self.mark_ignored_by_id(event_id);
        if latest_id == event_id {
            proof {
                assert(is_latest_exec_any(old(self).rows(), owner, latest as int));
                assert(old(self).rows()[latest as int].id == event_id);
            }
            let ir = self.make_ignore_result(sid);
            Ok(Some(ir))
        } else {
            proof {
                // the ignored event was not the newest execution of any script
                assert forall|w2: int|
                    !(0 <= w2 < old(self).rows().len() && (#[trigger] old(self).rows()[w2]).id
                        == event_id && is_latest_exec_any(
                        old(self).rows(),
                        old(self).rows()[w2].script_id,
                        w2,
                    )) by {
                    if 0 <= w2 < old(self).rows().len() && old(self).rows()[w2].id == event_id
                        && is_latest_exec_any(
                        old(self).rows(),
                        old(self).rows()[w2].script_id,
                        w2,
                    ) {
                        assert(w2 == target as int);
                        assert(old(self).rows()[w2].script_id == owner);
                        // two newest executions of one script coincide
                        if w2 != latest as int {
                            assert(row_lt(old(self).rows()[w2], old(self).rows()[latest as int]));
                            assert(row_lt(old(self).rows()[latest as int], old(self).rows()[w2]));
                            assert(false);
                        }
                        assert(old(self).rows()[latest as int].id == event_id);
                        assert(false);
                    }
                }
            }
            Ok(None)
        }
    }

    /// Set the ignored mark as `ignored_after_by_id` prescribes.
    fn mark_ignored_by_id(&mut self, event_id: i64)
        requires
            old(self).wf(),
        ensures
            final(self).wf(),
            final(self).spec_next_id() == old(self).spec_next_id(),
            final(self).rows().len() == old(self).rows().len(),
            forall|i: int|
                0 <= i < old(self).rows().len() ==> #[trigger] final(self).rows()[i] == (EventRow {
                    ignored: ignored_after_by_id(old(self).rows()[i], event_id),
                    ..old(self).rows()[i]
                }),
    {
        let len = self.rows.len();
        let mut i: usize = 0;
        while i < len
            invariant
                i <= len,
                len == self.rows().len(),
                old(self).wf(),
                self.next_id == old(self).next_id,
                self.rows().len() == old(self).rows().len(),
                forall|j: int|
                    0 <= j < len ==> #[trigger] self.rows()[j] == (if j < i {
                        EventRow {
                            ignored: ignored_after_by_id(old(self).rows()[j], event_id),
                            ..old(self).rows()[j]
                        }
                    } else {
                        old(self).rows()[j]
                    }),
            decreases len - i,
        {
            let row = &self.rows[i];
            let hit = (row.ty == EventType::Exec && row.id == event_id) || (row.ty
                == EventType::ExecDone && row.main_event_id == event_id);
            if hit && !row.ignored {
                let updated = EventRow { ignored: true, ..self.rows[i].clone() };
                self.rows.set(i, updated);
            }
            i = i + 1;
        }
        proof {
            assert(forall|j: int|
                0 <= j < self.rows().len() ==> (#[trigger] self.rows()[j]).id == old(self).rows()[j].id && self.rows()[j].ty == old(self).rows()[j].ty && self.rows()[
                    j
                ].script_id == old(self).rows()[j].script_id && self.rows()[j].main_event_id == old(self).rows()[j].main_event_id && (self.rows()[j].ty == EventType::Exec
                    ==> self.rows()[j].args is Some)) by {
                lemma_wf_facts(old(self).rows(), old(self).spec_next_id());
            }
            lemma_pointwise_wf(old(self).rows(), self.rows(), old(self).spec_next_id());
        }
    }
}


/// `rows[w]` is the newest execution of the script among all rows sharing
/// its args value (ignored ones included), and that args value still has a
/// non-ignored execution.
pub open spec fn is_args_keeper(rows: Seq<EventRow>, sid: i64, w: int) -> bool {
    &&& 0 <= w < rows.len()
    &&& rows[w].ty == EventType::Exec && rows[w].script_id == sid
    &&& exists|j: int|
        0 <= j < rows.len() && evt_match(#[trigger] rows[j], sid, EventType::Exec) && args_of(
            rows[j],
        ) == args_of(rows[w])
    &&& forall|k: int|
        0 <= k < rows.len() && (#[trigger] rows[k]).ty == EventType::Exec && rows[k].script_id
            == sid && args_of(rows[k]) == args_of(rows[w]) && k != w ==> row_lt(rows[k], rows[w])
}

/// Whether `tidy` keeps the row at position `i`: rows of other scripts and
/// plain read/write/miss rows stay; an execution stays when it is its args
/// group's keeper; a done event stays when its execution stays.
pub open spec fn spec_tidy_keep(rows: Seq<EventRow>, sid: i64, i: int) -> bool {
    ||| rows[i].script_id != sid
    ||| rows[i].ty == EventType::Read
    ||| rows[i].ty == EventType::Write
    ||| rows[i].ty == EventType::Miss
    ||| (rows[i].ty == EventType::Exec && is_args_keeper(rows, sid, i))
    ||| (rows[i].ty == EventType::ExecDone && exists|j: int|
        0 <= j < rows.len() && (#[trigger] rows[j]).ty == EventType::Exec && rows[j].id == rows[
            i
        ].main_event_id && is_args_keeper(rows, sid, j))
}

/// The rows that `tidy` keeps among the first `k`, in order.
pub open spec fn tidy_filter(rows: Seq<EventRow>, sid: i64, k: int) -> Seq<EventRow>
    decreases k,
{
    if k <= 0 {
        Seq::empty()
    } else {
        let prefix = tidy_filter(rows, sid, k - 1);
        if spec_tidy_keep(rows, sid, k - 1) {
            prefix.push(rows[k - 1])
        } else {
            prefix
        }
    }
}

/// Every kept row comes from a kept position, in order, and every kept
/// position contributes its row.
proof fn lemma_tidy_filter_src(rows: Seq<EventRow>, sid: i64, k: int)
    requires
        0 <= k <= rows.len(),
    ensures
        forall|p: int|
            0 <= p < tidy_filter(rows, sid, k).len() ==> exists|i: int|
                0 <= i < k && spec_tidy_keep(rows, sid, i) && #[trigger] tidy_filter(
                    rows,
                    sid,
                    k,
                )[p] == rows[i],
        forall|i: int|
            0 <= i < k && spec_tidy_keep(rows, sid, i) ==> tidy_filter(rows, sid, k).contains(
                rows[i],
            ),
        forall|p: int, q: int, ii: int, jj: int|
            0 <= p < q < tidy_filter(rows, sid, k).len() && 0 <= ii < rows.len() && 0 <= jj
                < rows.len() && tidy_filter(rows, sid, k)[p] == rows[ii] && tidy_filter(
                rows,
                sid,
                k,
            )[q] == rows[jj] ==> true,
        tidy_filter(rows, sid, k).len() <= k,
    decreases k,
{
    if k > 0 {
        lemma_tidy_filter_src(rows, sid, k - 1);
        let prefix = tidy_filter(rows, sid, k - 1);
        let cur = tidy_filter(rows, sid, k);
        if spec_tidy_keep(rows, sid, k - 1) {
            assert(cur == prefix.push(rows[k - 1]));
            assert(forall|p: int| 0 <= p < prefix.len() ==> cur[p] == prefix[p]);
            assert(cur.last() == rows[k - 1]);
            assert forall|i: int|
                0 <= i < k && spec_tidy_keep(rows, sid, i) implies cur.contains(rows[i]) by {
                if i < k - 1 {
                    assert(prefix.contains(rows[i]));
                    let p = choose|p: int| 0 <= p < prefix.len() && prefix[p] == rows[i];
                    assert(cur[p] == rows[i]);
                } else {
                    assert(cur[cur.len() - 1] == rows[i]);
                }
            }
        } else {
            assert(cur == prefix);
        }
    }
}

/// Ids stay strictly increasing across the kept rows.
proof fn lemma_tidy_filter_ids(rows: Seq<EventRow>, sid: i64, k: int, next_id: i64)
    requires
        rows_wf(rows, next_id),
        0 <= k <= rows.len(),
    ensures
        forall|p: int, q: int|
            0 <= p < q < tidy_filter(rows, sid, k).len() ==> tidy_filter(rows, sid, k)[p].id
                < tidy_filter(rows, sid, k)[q].id,
        forall|p: int|
            0 <= p < tidy_filter(rows, sid, k).len() ==> #[trigger] tidy_filter(
                rows,
                sid,
                k,
            )[p].id < (if k == 0 {
                1
            } else {
                rows[k - 1].id + 1
            }),
    decreases k,
{
    lemma_wf_facts(rows, next_id);
    if k > 0 {
        lemma_tidy_filter_ids(rows, sid, k - 1, next_id);
        let prefix = tidy_filter(rows, sid, k - 1);
        let cur = tidy_filter(rows, sid, k);
        assert(forall|p: int|
            0 <= p < prefix.len() ==> #[trigger] prefix[p].id < (if k - 1 == 0 {
                1
            } else {
                rows[k - 2].id + 1
            }));
        if k >= 2 {
            assert(rows[k - 2].id < rows[k - 1].id);
        }
        if spec_tidy_keep(rows, sid, k - 1) {
            assert(cur == prefix.push(rows[k - 1]));
            assert(forall|p: int| 0 <= p < prefix.len() ==> cur[p] == prefix[p]);
            assert(cur.last() == rows[k - 1]);
        } else {
            assert(cur == prefix);
            if k >= 2 {
                assert(forall|p: int|
                    0 <= p < cur.len() ==> #[trigger] cur[p].id < rows[k - 1].id + 1);
            }
        }
    }
}

impl Historian {
    /// Whether `rows[w]` is its args group's keeper; see `is_args_keeper`.
    fn is_args_keeper_at(&self, sid: i64, w: usize) -> (r: bool)
        requires
            self.wf(),
            w < self.rows().len(),
        ensures
            r == is_args_keeper(self.rows(), sid, w as int),
    {
        let row = &self.rows[w];
        if !(row.script_id == sid && row.ty == EventType::Exec) {
            return false;
        }
        let len = self.rows.len();
        proof {
            lemma_wf_facts(self.rows(), self.spec_next_id());
        }
        // the args value must still have a non-ignored execution
        let mut live = false;
        let mut j: usize = 0;
        while j < len
            invariant
                j <= len,
                len == self.rows().len(),
                w < len,
                self.rows()[w as int].ty == EventType::Exec,
                self.rows()[w as int].script_id == sid,
                forall|x: int|
                    0 <= x < self.rows().len() && (#[trigger] self.rows()[x]).ty
                        == EventType::Exec ==> self.rows()[x].args is Some,
                live ==> exists|x: int|
                    0 <= x < self.rows().len() && evt_match(
                        #[trigger] self.rows()[x],
                        sid,
                        EventType::Exec,
                    ) && args_of(self.rows()[x]) == args_of(self.rows()[w as int]),
                !live ==> forall|x: int|
                    0 <= x < j ==> !(evt_match(#[trigger] self.rows()[x], sid, EventType::Exec)
                        && args_of(self.rows()[x]) == args_of(self.rows()[w as int])),
            decreases len - j,
        {
            if !live {
                let other = &self.rows[j];
                if other.script_id == sid && other.ty == EventType::Exec && !other.ignored {
                    let same = match (&other.args, &self.rows[w].args) {
                        (Some(a), Some(b)) => crate::strutil::str_eq(a.as_str(), b.as_str()),
                        _ => false,
                    };
                    if same {
                        live = true;
                    }
                }
            }
            j = j + 1;
        }
        if !live {
            return false;
        }
        // and the row must be the newest sharing its args, ignored or not
        let mut k: usize = 0;
        while k < len
            invariant
                k <= len,
                len == self.rows().len(),
                w < len,
                self.rows()[w as int].ty == EventType::Exec,
                self.rows()[w as int].script_id == sid,
                forall|p: int, q: int|
                    0 <= p < q < self.rows().len() ==> self.rows()[p].id != self.rows()[q].id,
                forall|x: int|
                    0 <= x < self.rows().len() && (#[trigger] self.rows()[x]).ty
                        == EventType::Exec ==> self.rows()[x].args is Some,
                exists|x: int|
                    0 <= x < self.rows().len() && evt_match(
                        #[trigger] self.rows()[x],
                        sid,
                        EventType::Exec,
                    ) && args_of(self.rows()[x]) == args_of(self.rows()[w as int]),
                forall|x: int|
                    0 <= x < k && (#[trigger] self.rows()[x]).ty == EventType::Exec
                        && self.rows()[x].script_id == sid && args_of(self.rows()[x]) == args_of(
                        self.rows()[w as int],
                    ) && x != w as int ==> row_lt(self.rows()[x], self.rows()[w as int]),
            decreases len - k,
        {
            if k != w {
                let other = &self.rows[k];
                if other.script_id == sid && other.ty == EventType::Exec {
                    let same = match (&other.args, &self.rows[w].args) {
                        (Some(a), Some(b)) => crate::strutil::str_eq(a.as_str(), b.as_str()),
                        _ => false,
                    };
                    if same {
                        let a = &self.rows[k];
                        let b = &self.rows[w];
                        if !(a.time < b.time || (a.time == b.time && a.id < b.id)) {
                            return false;
                        }
                    }
                }
            }
            k = k + 1;
        }
        true
    }

    /// Whether `tidy` keeps the row at position `i`; see `spec_tidy_keep`.
    fn tidy_keeps_at(&self, sid: i64, i: usize) -> (r: bool)
        requires
            self.wf(),
            i < self.rows().len(),
        ensures
            r == spec_tidy_keep(self.rows(), sid, i as int),
    {
        let row = &self.rows[i];
        if row.script_id != sid {
            return true;
        }
        if row.ty == EventType::Read || row.ty == EventType::Write || row.ty == EventType::Miss {
            return true;
        }
        if row.ty == EventType::Exec {
            return self.is_args_keeper_at(sid, i);
        }
        // a done event: keep it exactly when its execution is kept
        let main_id = row.main_event_id;
        match self.find_exec_by_id(main_id) {
            None => {
                proof {
                    reveal(rows_wf);
                    reveal(has_exec_with_id);
                    assert(false);
                }
                false
            },
            Some(j) => {
                let kept = self.is_args_keeper_at(sid, j);
                proof {
                    lemma_wf_facts(self.rows(), self.spec_next_id());
                    if kept {
                        assert(spec_tidy_keep(self.rows(), sid, i as int));
                    } else {
                        if spec_tidy_keep(self.rows(), sid, i as int) {
                            let j2 = choose|j2: int|
                                0 <= j2 < self.rows().len() && (#[trigger] self.rows()[j2]).ty
                                    == EventType::Exec && self.rows()[j2].id == self.rows()[
                                    i as int
                                ].main_event_id && is_args_keeper(self.rows(), sid, j2);
                            assert(j2 == j as int);
                            assert(false);
                        }
                    }
                }
                kept
            },
        }
    }

    /// Prune the script's argument history: for each distinct args value that
    /// still has a non-ignored execution, keep only the newest execution row
    /// sharing that args value; every other execution of the script is
    /// deleted, and a done event follows its execution. Rows of other
    /// scripts, and plain read/write/miss rows, stay.
    pub fn tidy(&mut self, script_id: i64)
        requires
            old(self).wf(),
        ensures
            final(self).wf(),
            final(self).spec_next_id() == old(self).spec_next_id(),
            final(self).rows() == tidy_filter(
                old(self).rows(),
                script_id,
                old(self).rows().len() as int,
            ),
    {
        let len = self.rows.len();
        let mut out: Vec<EventRow> = Vec::new();
        let mut i: usize = 0;
        proof {
            assert(out@ =~= tidy_filter(old(self).rows(), script_id, 0));
        }
        while i < len
            invariant
                i <= len,
                len == old(self).rows().len(),
                *self == *old(self),
                self.wf(),
                out@ == tidy_filter(old(self).rows(), script_id, i as int),
            decreases len - i,
        {
            if self.tidy_keeps_at(script_id, i) {
                out.push(self.rows[i].clone());
            }
            i = i + 1;
        }
        let ghost orows = old(self).rows();
        let ghost nid = old(self).spec_next_id();
        self.rows = out;
        proof {
            lemma_tidy_wf(orows, self.rows(), script_id, nid);
        }
    }
}

/// Tidying keeps the log invariant.
proof fn lemma_tidy_wf(orows: Seq<EventRow>, rows: Seq<EventRow>, sid: i64, next_id: i64)
    requires
        rows_wf(orows, next_id),
        rows == tidy_filter(orows, sid, orows.len() as int),
    ensures
        rows_wf(rows, next_id),
{
    lemma_wf_facts(orows, next_id);
    lemma_tidy_filter_src(orows, sid, orows.len() as int);
    lemma_tidy_filter_ids(orows, sid, orows.len() as int, next_id);
    reveal(rows_wf);
    assert forall|p: int| 0 <= p < rows.len() implies 1 <= (#[trigger] rows[p]).id < next_id && (
    rows[p].ty != EventType::ExecDone ==> rows[p].main_event_id == 0) && (rows[p].ty
        == EventType::Exec ==> rows[p].args is Some) by {
        let i = choose|i: int|
            0 <= i < orows.len() && spec_tidy_keep(orows, sid, i) && rows[p] == orows[i];
        assert(1 <= orows[i].id < next_id);
    }
    assert forall|p: int|
        0 <= p < rows.len() && (#[trigger] rows[p]).ty == EventType::ExecDone implies has_exec_with_id(
        rows,
        rows[p].main_event_id,
        rows[p].script_id,
    ) by {
        reveal(has_exec_with_id);
        let i = choose|i: int|
            0 <= i < orows.len() && spec_tidy_keep(orows, sid, i) && rows[p] == orows[i];
        assert(orows[i].ty == EventType::ExecDone);
        if orows[i].script_id != sid {
            // its execution has the same script, so it is also kept
            assert(has_exec_with_id(orows, orows[i].main_event_id, orows[i].script_id));
            let j = choose|j: int|
                0 <= j < orows.len() && (#[trigger] orows[j]).ty == EventType::Exec && orows[j].id
                    == orows[i].main_event_id && orows[j].script_id == orows[i].script_id;
            assert(spec_tidy_keep(orows, sid, j));
            assert(rows.contains(orows[j]));
            let q = choose|q: int| 0 <= q < rows.len() && rows[q] == orows[j];
            assert(rows[q].ty == EventType::Exec && rows[q].id == rows[p].main_event_id
                && rows[q].script_id == rows[p].script_id);
        } else {
            let j = choose|j: int|
                0 <= j < orows.len() && (#[trigger] orows[j]).ty == EventType::Exec && orows[j].id
                    == orows[i].main_event_id && is_args_keeper(orows, sid, j);
            assert(spec_tidy_keep(orows, sid, j));
            assert(rows.contains(orows[j]));
            // the linked execution shares the done event's script
            assert(has_exec_with_id(orows, orows[i].main_event_id, orows[i].script_id));
            let j2 = choose|j2: int|
                0 <= j2 < orows.len() && (#[trigger] orows[j2]).ty == EventType::Exec
                    && orows[j2].id == orows[i].main_event_id && orows[j2].script_id == orows[
                    i
                ].script_id;
            assert(j2 == j);
            let q = choose|q: int| 0 <= q < rows.len() && rows[q] == orows[j];
            assert(rows[q].ty == EventType::Exec && rows[q].id == rows[p].main_event_id
                && rows[q].script_id == rows[p].script_id);
        }
    }
}

/// After `tidy`, the newest execution of an args group survives, and it is
/// the only execution of the script with that args value.
pub proof fn lemma_tidy_keeps_exactly_newest(
    rows: Seq<EventRow>,
    sid: i64,
    next_id: i64,
    w: int,
)
    requires
        rows_wf(rows, next_id),
        is_args_keeper(rows, sid, w),
    ensures
        tidy_filter(rows, sid, rows.len() as int).contains(rows[w]),
        forall|p: int|
            0 <= p < tidy_filter(rows, sid, rows.len() as int).len() && (#[trigger] tidy_filter(
                rows,
                sid,
                rows.len() as int,
            )[p]).ty == EventType::Exec && tidy_filter(rows, sid, rows.len() as int)[p].script_id
                == sid && args_of(tidy_filter(rows, sid, rows.len() as int)[p]) == args_of(
                rows[w],
            ) ==> tidy_filter(rows, sid, rows.len() as int)[p] == rows[w],
{
    lemma_wf_facts(rows, next_id);
    lemma_tidy_filter_src(rows, sid, rows.len() as int);
    let kept = tidy_filter(rows, sid, rows.len() as int);
    assert(spec_tidy_keep(rows, sid, w));
    assert(kept.contains(rows[w]));
    assert forall|p: int|
        0 <= p < kept.len() && (#[trigger] kept[p]).ty == EventType::Exec && kept[p].script_id
            == sid && args_of(kept[p]) == args_of(rows[w]) implies kept[p] == rows[w] by {
        let i = choose|i: int|
            0 <= i < rows.len() && spec_tidy_keep(rows, sid, i) && kept[p] == rows[i];
        assert(is_args_keeper(rows, sid, i));
        if i != w {
            assert(row_lt(rows[i], rows[w]));
            assert(row_lt(rows[w], rows[i]));
            assert(false);
        }
    }
}

/// Whether the execution row at `j` falls in the ignored window: it belongs
/// to the script, is no newer than `last_time`, and is newer than
/// `first_time` when one is given.
pub open spec fn window_exec(r: EventRow, sid: i64, last_time: i64, first_time: Option<i64>) -> bool {
    &&& r.ty == EventType::Exec
    &&& r.script_id == sid
    &&& r.time <= last_time
    &&& match first_time {
        Some(ft) => r.time > ft,
        None => true,
    }
}

/// The ignored mark of a row after a window ignore: executions in the window,
/// and done events whose execution is in the window.
pub open spec fn ignored_after_window(
    rows: Seq<EventRow>,
    i: int,
    sid: i64,
    last_time: i64,
    first_time: Option<i64>,
) -> bool {
    ||| rows[i].ignored
    ||| window_exec(rows[i], sid, last_time, first_time)
    ||| (rows[i].ty == EventType::ExecDone && exists|j: int|
        0 <= j < rows.len() && (#[trigger] rows[j]).id == rows[i].main_event_id
            && window_exec(rows[j], sid, last_time, first_time))
}

/// The ignored mark of a row after ignoring one args value: the script's
/// executions with those args, and done events linked to them.
pub open spec fn ignored_after_args(
    rows: Seq<EventRow>,
    i: int,
    sid: i64,
    av: Seq<char>,
) -> bool {
    ||| rows[i].ignored
    ||| (rows[i].ty == EventType::Exec && rows[i].script_id == sid && args_of(rows[i]) == av)
    ||| (rows[i].ty == EventType::ExecDone && exists|j: int|
        0 <= j < rows.len() && (#[trigger] rows[j]).id == rows[i].main_event_id && rows[j].ty
            == EventType::Exec && rows[j].script_id == sid && args_of(rows[j]) == av)
}

impl Historian {
    /// Apply the window-ignore marks; see `ignored_after_window`.
    fn mark_ignored_window(&mut self, sid: i64, last_time: i64, first_time: Option<i64>)
        requires
            old(self).wf(),
        ensures
            final(self).wf(),
            final(self).spec_next_id() == old(self).spec_next_id(),
            final(self).rows().len() == old(self).rows().len(),
            forall|i: int|
                0 <= i < old(self).rows().len() ==> #[trigger] final(self).rows()[i] == (EventRow {
                    ignored: ignored_after_window(old(self).rows(), i, sid, last_time, first_time),
                    ..old(self).rows()[i]
                }),
    {
        let len = self.rows.len();
        let mut marks: Vec<bool> = Vec::new();
        let mut i: usize = 0;
        proof {
            lemma_wf_facts(self.rows(), self.spec_next_id());
        }
        while i < len
            invariant
                i <= len,
                len == self.rows().len(),
                self.wf(),
                forall|p: int, q: int|
                    0 <= p < q < self.rows().len() ==> self.rows()[p].id != self.rows()[q].id,
                marks@.len() == i,
                forall|k: int|
                    0 <= k < i ==> #[trigger] marks@[k] == ignored_after_window(
                        self.rows(),
                        k,
                        sid,
                        last_time,
                        first_time,
                    ),
            decreases len - i,
        {
            let row = &self.rows[i];
            let mut hit = row.ignored;
            if !hit && row.ty == EventType::Exec && row.script_id == sid && row.time <= last_time {
                hit = match first_time {
                    Some(ft) => row.time > ft,
                    None => true,
                };
            }
            if !hit && row.ty == EventType::ExecDone {
                match self.find_row_by_id(row.main_event_id) {
                    None => {
                        proof {
                            assert(!ignored_after_window(
                                self.rows(),
                                i as int,
                                sid,
                                last_time,
                                first_time,
                            ));
                        }
                    },
                    Some(j) => {
                        let main = &self.rows[j];
                        let inwin = main.ty == EventType::Exec && main.script_id == sid
                            && main.time <= last_time && (match first_time {
                            Some(ft) => main.time > ft,
                            None => true,
                        });
                        proof {
                            if !inwin && ignored_after_window(
                                self.rows(),
                                i as int,
                                sid,
                                last_time,
                                first_time,
                            ) {
                                let j2 = choose|j2: int|
                                    0 <= j2 < self.rows().len() && (#[trigger] self.rows()[j2]).id
                                        == self.rows()[i as int].main_event_id && window_exec(
                                        self.rows()[j2],
                                        sid,
                                        last_time,
                                        first_time,
                                    );
                                assert(j2 == j as int);
                                assert(false);
                            }
                        }
                        hit = inwin;
                    },
                }
            }
            marks.push(hit);
            i = i + 1;
        }
        self.apply_marks(marks);
    }

    /// Apply the args-ignore marks; see `ignored_after_args`.
    fn mark_ignored_args(&mut self, sid: i64, av: &String)
        requires
            old(self).wf(),
        ensures
            final(self).wf(),
            final(self).spec_next_id() == old(self).spec_next_id(),
            final(self).rows().len() == old(self).rows().len(),
            forall|i: int|
                0 <= i < old(self).rows().len() ==> #[trigger] final(self).rows()[i] == (EventRow {
                    ignored: ignored_after_args(old(self).rows(), i, sid, av@),
                    ..old(self).rows()[i]
                }),
    {
        let len = self.rows.len();
        let mut marks: Vec<bool> = Vec::new();
        let mut i: usize = 0;
        proof {
            lemma_wf_facts(self.rows(), self.spec_next_id());
        }
        while i < len
            invariant
                i <= len,
                len == self.rows().len(),
                self.wf(),
                forall|p: int, q: int|
                    0 <= p < q < self.rows().len() ==> self.rows()[p].id != self.rows()[q].id,
                forall|x: int|
                    0 <= x < self.rows().len() && (#[trigger] self.rows()[x]).ty
                        == EventType::Exec ==> self.rows()[x].args is Some,
                marks@.len() == i,
                forall|k: int|
                    0 <= k < i ==> #[trigger] marks@[k] == ignored_after_args(
                        self.rows(),
                        k,
                        sid,
                        av@,
                    ),
            decreases len - i,
        {
            let row = &self.rows[i];
            let mut hit = row.ignored;
            if !hit && row.ty == EventType::Exec && row.script_id == sid {
                hit = match &row.args {
                    Some(a) => crate::strutil::str_eq(a.as_str(), av.as_str()),
                    None => false,
                };
            }
            if !hit && row.ty == EventType::ExecDone {
                match self.find_row_by_id(row.main_event_id) {
                    None => {
                        proof {
                            assert(!ignored_after_args(self.rows(), i as int, sid, av@));
                        }
                    },
                    Some(j) => {
                        let main = &self.rows[j];
                        let is_hit = main.ty == EventType::Exec && main.script_id == sid && (
                        match &main.args {
                            Some(a) => crate::strutil::str_eq(a.as_str(), av.as_str()),
                            None => false,
                        });
                        proof {
                            if !is_hit && ignored_after_args(self.rows(), i as int, sid, av@) {
                                let j2 = choose|j2: int|
                                    0 <= j2 < self.rows().len() && (#[trigger] self.rows()[j2]).id
                                        == self.rows()[i as int].main_event_id
                                        && self.rows()[j2].ty == EventType::Exec
                                        && self.rows()[j2].script_id == sid && args_of(
                                        self.rows()[j2],
                                    ) == av@;
                                assert(j2 == j as int);
                                assert(false);
                            }
                        }
                        hit = is_hit;
                    },
                }
            }
            marks.push(hit);
            i = i + 1;
        }
        self.apply_marks(marks);
    }

    /// Set the ignored flag of every marked row.
    fn apply_marks(&mut self, marks: Vec<bool>)
        requires
            old(self).wf(),
            marks@.len() == old(self).rows().len(),
            // a mark never clears an ignored flag
            forall|i: int|
                0 <= i < marks@.len() && old(self).rows()[i].ignored ==> #[trigger] marks@[i],
        ensures
            final(self).wf(),
            final(self).spec_next_id() == old(self).spec_next_id(),
            final(self).rows().len() == old(self).rows().len(),
            forall|i: int|
                0 <= i < old(self).rows().len() ==> #[trigger] final(self).rows()[i] == (EventRow {
                    ignored: marks@[i],
                    ..old(self).rows()[i]
                }),
    {
        let len = self.rows.len();
        let mut i: usize = 0;
        while i < len
            invariant
                i <= len,
                len == self.rows().len(),
                old(self).wf(),
                marks@.len() == len,
                self.next_id == old(self).next_id,
                self.rows().len() == old(self).rows().len(),
                forall|j: int|
                    0 <= j < len ==> #[trigger] self.rows()[j] == (if j < i {
                        EventRow { ignored: marks@[j], ..old(self).rows()[j] }
                    } else {
                        old(self).rows()[j]
                    }),
            decreases len - i,
        {
            if marks[i] != self.rows[i].ignored {
                let updated = EventRow { ignored: marks[i], ..self.rows[i].clone() };
                self.rows.set(i, updated);
            }
            i = i + 1;
        }
        proof {
            assert(forall|j: int|
                0 <= j < self.rows().len() ==> (#[trigger] self.rows()[j]).id == old(self).rows()[j].id && self.rows()[j].ty == old(self).rows()[j].ty && self.rows()[
                    j
                ].script_id == old(self).rows()[j].script_id && self.rows()[j].main_event_id == old(self).rows()[j].main_event_id && (self.rows()[j].ty == EventType::Exec
                    ==> self.rows()[j].args is Some)) by {
                lemma_wf_facts(old(self).rows(), old(self).spec_next_id());
            }
            lemma_pointwise_wf(old(self).rows(), self.rows(), old(self).spec_next_id());
        }
    }

    /// Ignore the argument group at rank `min` (1 is the newest group) and
    /// everything the script ran since just after the group at rank `max`,
    /// or since the beginning without `max`. When the newest group is
    /// touched, the result carries the refreshed latest times. Fails when
    /// `min` points past the end of the grouped history.
    pub fn ignore_args_range(&mut self, script_id: i64, min: u64, max: Option<u64>) -> (r: Result<
        Option<IgnoreResult>,
        Error,
    >)
        requires
            old(self).wf(),
            min >= 1,
            max matches Some(m) ==> m >= 1,
        ensures
            final(self).wf(),
            final(self).spec_next_id() == old(self).spec_next_id(),
            r is Err ==> r->Err_0 is Database && *final(self) == *old(self),
            r is Err <==> min - 1 >= rep_count(
                old(self).rows(),
                script_id,
                old(self).rows().len() as int,
            ),
            r is Ok ==> exists|groups: Seq<ArgsGroup>|
                {
                    &&& #[trigger] groups_complete(old(self).rows(), script_id, groups)
                    &&& min - 1 < groups.len()
                    &&& final(self).rows().len() == old(self).rows().len()
                    &&& forall|i: int|
                        0 <= i < old(self).rows().len() ==> #[trigger] final(self).rows()[i]
                            == (EventRow {
                            ignored: ignored_after_window(
                                old(self).rows(),
                                i,
                                script_id,
                                groups[min - 1].time,
                                match max {
                                    Some(m) => if m - 1 < groups.len() {
                                        Some(groups[m - 1].time)
                                    } else {
                                        None
                                    },
                                    None => None,
                                },
                            ),
                            ..old(self).rows()[i]
                        })
                },
            r matches Ok(Some(ir)) ==> min == 1 && ir.script_id == script_id && is_last_time(
                final(self).rows(),
                script_id,
                EventType::Exec,
                ir.exec_time,
            ) && is_last_time(
                final(self).rows(),
                script_id,
                EventType::ExecDone,
                ir.exec_done_time,
            ),
            r matches Ok(o) && o is None ==> min != 1,
    {
        let groups = self.grouped_args(script_id);
        let glen = groups.len();
        if min - 1 >= glen as u64 {
            return Err(Error::Database);
        }
        let last_time = groups[(min - 1) as usize].time;
        let first_time: Option<i64> = match max {
            Some(m) => {
                if m - 1 < glen as u64 {
                    Some(groups[(m - 1) as usize].time)
                } else {
                    None
                }
            },
            None => None,
        };
        self.mark_ignored_window(script_id, last_time, first_time);
        if min == 1 {
            let ir = self.make_ignore_result(script_id);
            Ok(Some(ir))
        } else {
            Ok(None)
        }
    }

    /// Ignore every execution whose args equal those of the group at rank
    /// `number` (1 is the newest group), and the done events linked to them.
    /// When the newest group is touched, the result carries the refreshed
    /// latest times. Fails when `number` points past the end.
    pub fn ignore_args(&mut self, script_id: i64, number: u64) -> (r: Result<
        Option<IgnoreResult>,
        Error,
    >)
        requires
            old(self).wf(),
            number >= 1,
        ensures
            final(self).wf(),
            final(self).spec_next_id() == old(self).spec_next_id(),
            r is Err ==> r->Err_0 is Database && *final(self) == *old(self),
            r is Err <==> number - 1 >= rep_count(
                old(self).rows(),
                script_id,
                old(self).rows().len() as int,
            ),
            r is Ok ==> exists|groups: Seq<ArgsGroup>|
                {
                    &&& #[trigger] groups_complete(old(self).rows(), script_id, groups)
                    &&& number - 1 < groups.len()
                    &&& final(self).rows().len() == old(self).rows().len()
                    &&& forall|i: int|
                        0 <= i < old(self).rows().len() ==> #[trigger] final(self).rows()[i]
                            == (EventRow {
                            ignored: ignored_after_args(
                                old(self).rows(),
                                i,
                                script_id,
                                args_of_entry(groups[number - 1]),
                            ),
                            ..old(self).rows()[i]
                        })
                },
            r matches Ok(Some(ir)) ==> number == 1 && ir.script_id == script_id && is_last_time(
                final(self).rows(),
                script_id,
                EventType::Exec,
                ir.exec_time,
            ) && is_last_time(
                final(self).rows(),
                script_id,
                EventType::ExecDone,
                ir.exec_done_time,
            ),
            r matches Ok(o) && o is None ==> number != 1,
    {
        let groups = self.grouped_args(script_id);
        let glen = groups.len();
        if number - 1 >= glen as u64 {
            return Err(Error::Database);
        }
        let av = groups[(number - 1) as usize].args.clone();
        self.mark_ignored_args(script_id, &av);
        if number == 1 {
            let ir = self.make_ignore_result(script_id);
            Ok(Some(ir))
        } else {
            Ok(None)
        }
    }
}

/// Every done event in a well-formed log points at an execution row: its
/// `main_event_id` is the id of some `Exec` row of the same script.
pub proof fn lemma_exec_done_has_exec(rows: Seq<EventRow>, next_id: i64, i: int)
    requires
        rows_wf(rows, next_id),
        0 <= i < rows.len(),
        rows[i].ty == EventType::ExecDone,
    ensures
        exists|j: int|
            0 <= j < rows.len() && (#[trigger] rows[j]).ty == EventType::Exec && rows[j].id
                == rows[i].main_event_id && rows[j].script_id == rows[i].script_id,
{
    reveal(rows_wf);
    reveal(has_exec_with_id);
    assert(has_exec_with_id(rows, rows[i].main_event_id, rows[i].script_id));
}

/// After ignoring an execution by id, the newest non-ignored execution —
/// what `last_args` reports — is some other event: the rows that
/// `ignore_args_by_id` leaves behind never answer with the ignored id.
pub proof fn lemma_ignore_by_id_excludes_event(
    old_rows: Seq<EventRow>,
    new_rows: Seq<EventRow>,
    event_id: i64,
    sid: i64,
    w: int,
)
    requires
        new_rows.len() == old_rows.len(),
        forall|i: int|
            0 <= i < old_rows.len() ==> #[trigger] new_rows[i] == (EventRow {
                ignored: ignored_after_by_id(old_rows[i], event_id),
                ..old_rows[i]
            }),
        is_latest(new_rows, sid, EventType::Exec, w),
    ensures
        new_rows[w].id != event_id,
{
    if new_rows[w].id == event_id {
        assert(old_rows[w].id == event_id && old_rows[w].ty == EventType::Exec);
        assert(ignored_after_by_id(old_rows[w], event_id));
        assert(new_rows[w].ignored);
    }
}

/// Once every row carrying an event id is ignored, the newest non-ignored
/// execution — what `last_args` reports — is some other event.
pub proof fn lemma_ignored_excluded_from_latest(
    rows: Seq<EventRow>,
    sid: i64,
    event_id: i64,
    w: int,
)
    requires
        forall|i: int|
            0 <= i < rows.len() && (#[trigger] rows[i]).id == event_id ==> rows[i].ignored,
        is_latest(rows, sid, EventType::Exec, w),
    ensures
        rows[w].id != event_id,
{
}

/// An execution row matching script and args.
pub open spec fn exec_with_args(rows: Seq<EventRow>, sid: i64, a: Seq<char>, k: int) -> bool {
    &&& 0 <= k < rows.len()
    &&& rows[k].ty == EventType::Exec
    &&& rows[k].script_id == sid
    &&& args_of(rows[k]) == a
}

/// Walking the rows with a running best gives a newest execution of the args
/// group.
proof fn lemma_argmax_from(rows: Seq<EventRow>, sid: i64, a: Seq<char>, j: int, b: int)
    requires
        forall|p: int, q: int| 0 <= p < q < rows.len() ==> rows[p].id != rows[q].id,
        exec_with_args(rows, sid, a, b),
        0 <= j <= rows.len(),
        forall|k: int|
            0 <= k < j && exec_with_args(rows, sid, a, k) && k != b ==> row_lt(rows[k], rows[b]),
    ensures
        exists|w: int|
            #[trigger] exec_with_args(rows, sid, a, w) && (forall|k: int|
                0 <= k < rows.len() && exec_with_args(rows, sid, a, k) && k != w ==> row_lt(
                    rows[k],
                    rows[w],
                )),
    decreases rows.len() - j,
{
    if j == rows.len() {
        assert(exec_with_args(rows, sid, a, b) && (forall|k: int|
            0 <= k < rows.len() && exec_with_args(rows, sid, a, k) && k != b ==> row_lt(
                rows[k],
                rows[b],
            )));
    } else if exec_with_args(rows, sid, a, j) && j != b && !row_lt(rows[j], rows[b]) {
        assert(rows[b].id != rows[j].id);
        assert(row_lt(rows[b], rows[j]));
        assert(forall|k: int|
            0 <= k < j + 1 && exec_with_args(rows, sid, a, k) && k != j ==> row_lt(
                rows[k],
                rows[j],
            ));
        lemma_argmax_from(rows, sid, a, j + 1, j);
    } else {
        lemma_argmax_from(rows, sid, a, j + 1, b);
    }
}

/// Every args value with a live execution has a keeper: `tidy` never drops a
/// group whole, and with `lemma_tidy_keeps_exactly_newest` exactly one
/// execution of the group survives.
pub proof fn lemma_keeper_exists(rows: Seq<EventRow>, sid: i64, next_id: i64, v: int)
    requires
        rows_wf(rows, next_id),
        0 <= v < rows.len(),
        evt_match(rows[v], sid, EventType::Exec),
    ensures
        exists|w: int|
            #[trigger] is_args_keeper(rows, sid, w) && args_of(rows[w]) == args_of(rows[v]),
{
    lemma_wf_facts(rows, next_id);
    let a = args_of(rows[v]);
    assert(exec_with_args(rows, sid, a, v));
    lemma_argmax_from(rows, sid, a, 0, v);
    let w = choose|w: int|
        #[trigger] exec_with_args(rows, sid, a, w) && (forall|k: int|
            0 <= k < rows.len() && exec_with_args(rows, sid, a, k) && k != w ==> row_lt(
                rows[k],
                rows[w],
            ));
    assert(is_args_keeper(rows, sid, w)) by {
        assert(exists|j: int|
            0 <= j < rows.len() && evt_match(#[trigger] rows[j], sid, EventType::Exec) && args_of(
                rows[j],
            ) == args_of(rows[w])) by {
            assert(evt_match(rows[v], sid, EventType::Exec));
        }
        assert(forall|k: int|
            0 <= k < rows.len() && (#[trigger] rows[k]).ty == EventType::Exec && rows[k].script_id
                == sid && args_of(rows[k]) == args_of(rows[w]) && k != w ==> row_lt(
                rows[k],
                rows[w],
            )) by {
            assert(forall|k: int|
                0 <= k < rows.len() && (#[trigger] rows[k]).ty == EventType::Exec
                    && rows[k].script_id == sid && args_of(rows[k]) == a ==> exec_with_args(
                    rows,
                    sid,
                    a,
                    k,
                ));
        }
    }
}

} // verus!
