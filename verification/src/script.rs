//! Script metadata: the canonical record that binds a name, type and tag set
//! to the timestamps mirrored from the event history, with a dirty flag per
//! timestamp so a repository knows which events to emit on flush.
use crate::script_name::ScriptName;
use crate::tag::{TagSelector, TagSet};
use vstd::prelude::*;
use vstd::string::*;

verus! {

/// A cached timestamp and whether it changed since the last flush.
#[derive(Debug, Clone, Copy, PartialEq, Eq, Structural)]
pub struct ScriptTime {
    pub time: i64,
    pub changed: bool,
}

impl ScriptTime {
    /// A fresh, dirty timestamp.
    pub fn now(time: i64) -> (r: ScriptTime)
        ensures
            r == (ScriptTime { time, changed: true }),
    {
        ScriptTime { time, changed: true }
    }

    /// A stored, clean timestamp.
    pub fn stored(time: i64) -> (r: ScriptTime)
        ensures
            r == (ScriptTime { time, changed: false }),
    {
        ScriptTime { time, changed: false }
    }
}

/// The canonical metadata record of one script.
#[derive(Debug)]
pub struct ScriptInfo {
    /// Assigned on first insert; 0 means not yet persisted.
    pub id: i64,
    pub name: ScriptName,
    /// The script type, an opaque key resolved against configuration.
    pub ty: String,
    pub tags: TagSet,
    pub created_time: ScriptTime,
    pub read_time: ScriptTime,
    pub write_time: ScriptTime,
    pub exec_time: Option<ScriptTime>,
    /// Payload of the last execution: the content that ran.
    pub exec_content: Option<String>,
    /// Payload of the last execution: the serialized argument list.
    pub exec_args: Option<String>,
    pub exec_done_time: Option<ScriptTime>,
    /// Payload of the last completed execution: its exit code.
    pub exec_done_code: Option<i32>,
    pub miss_time: Option<ScriptTime>,
}

impl ScriptInfo {
    /// The record's invariant: the name and tags are well formed, and
    /// creation never postdates reading or writing.
    pub open spec fn wf(&self) -> bool {
        &&& self.name.wf()
        &&& self.tags.wf()
        &&& self.created_time.time <= self.read_time.time
        &&& self.created_time.time <= self.write_time.time
    }

    /// The moment the script was last active: the latest of its read, miss,
    /// exec and exec-done times.
    pub open spec fn spec_last_time(&self) -> i64 {
        let a = self.read_time.time;
        let b = opt_time(self.miss_time, a);
        let c = opt_time(self.exec_time, if b >= a {
            b
        } else {
            a
        });
        let m1 = if b >= a {
            b
        } else {
            a
        };
        let m2 = if c >= m1 {
            c
        } else {
            m1
        };
        let d = opt_time(self.exec_done_time, m2);
        if d >= m2 {
            d
        } else {
            m2
        }
    }

    /// The moment the script was last active; see `spec_last_time`.
    pub fn last_time(&self) -> (r: i64)
        ensures
            r == self.spec_last_time(),
            r >= self.read_time.time,
    {
        let mut m = self.read_time.time;
        if let Some(t) = &self.miss_time {
            if t.time > m {
                m = t.time;
            }
        }
        if let Some(t) = &self.exec_time {
            if t.time > m {
                m = t.time;
            }
        }
        if let Some(t) = &self.exec_done_time {
            if t.time > m {
                m = t.time;
            }
        }
        m
    }

    /// Mark the script read now.
    pub fn read(&mut self, now: i64)
        ensures
            *final(self) == (ScriptInfo {
                read_time: ScriptTime { time: now, changed: true },
                ..*old(self)
            }),
    {
        self.read_time = ScriptTime::now(now);
    }

    /// Mark the script written (and therefore read) now.
    pub fn write(&mut self, now: i64)
        ensures
            *final(self) == (ScriptInfo {
                read_time: ScriptTime { time: now, changed: true },
                write_time: ScriptTime { time: now, changed: true },
                ..*old(self)
            }),
    {
        self.read_time = ScriptTime::now(now);
        self.write_time = ScriptTime::now(now);
    }

    /// Record an execution: the content that runs and the serialized args.
    /// The read time is left alone, so the history tells operations apart.
    pub fn exec(&mut self, content: String, args_ser: String, now: i64)
        ensures
            *final(self) == (ScriptInfo {
                exec_time: Some(ScriptTime { time: now, changed: true }),
                exec_content: Some(content),
                exec_args: Some(args_ser),
                ..*old(self)
            }),
    {
        self.exec_time = Some(ScriptTime::now(now));
        self.exec_content = Some(content);
        self.exec_args = Some(args_ser);
    }

    /// Record a finished execution and its exit code.
    pub fn exec_done(&mut self, code: i32, now: i64)
        ensures
            *final(self) == (ScriptInfo {
                exec_done_time: Some(ScriptTime { time: now, changed: true }),
                exec_done_code: Some(code),
                ..*old(self)
            }),
    {
        self.exec_done_time = Some(ScriptTime::now(now));
        self.exec_done_code = Some(code);
    }

    /// Mark the script missed: a query resolved to it while it was hidden.
    pub fn miss(&mut self, now: i64)
        ensures
            *final(self) == (ScriptInfo {
                miss_time: Some(ScriptTime { time: now, changed: true }),
                ..*old(self)
            }),
    {
        self.miss_time = Some(ScriptTime::now(now));
    }

    /// Forget all dirty marks, after a flush.
    pub fn clear_changes(&mut self)
        ensures
            *final(self) == (ScriptInfo {
                created_time: ScriptTime { changed: false, ..old(self).created_time },
                read_time: ScriptTime { changed: false, ..old(self).read_time },
                write_time: ScriptTime { changed: false, ..old(self).write_time },
                exec_time: clear_opt(old(self).exec_time),
                exec_done_time: clear_opt(old(self).exec_done_time),
                miss_time: clear_opt(old(self).miss_time),
                ..*old(self)
            }),
    {
        self.created_time.changed = false;
        self.read_time.changed = false;
        self.write_time.changed = false;
        if let Some(t) = &self.exec_time {
            self.exec_time = Some(ScriptTime::stored(t.time));
        }
        if let Some(t) = &self.exec_done_time {
            self.exec_done_time = Some(ScriptTime::stored(t.time));
        }
        if let Some(t) = &self.miss_time {
            self.miss_time = Some(ScriptTime::stored(t.time));
        }
    }

    /// A copy under a new name, created now: the copy shares the type, tags
    /// and miss/done history, and starts with no execution payload.
    pub fn cp(&self, new_name: ScriptName, now: i64) -> (r: ScriptInfo)
        ensures
            r.name == new_name,
            r.ty@ == self.ty@,
            r.tags@ == self.tags@,
            r.id == self.id,
            r.created_time == (ScriptTime { time: now, changed: true }),
            r.read_time == (ScriptTime { time: now, changed: true }),
            r.write_time == (ScriptTime { time: now, changed: true }),
            r.exec_time is None,
            r.exec_content is None,
            r.exec_args is None,
            r.exec_done_time == self.exec_done_time,
            r.miss_time == self.miss_time,
    {
        ScriptInfo {
            id: self.id,
            name: new_name,
            ty: self.ty.clone(),
            tags: self.tags.clone_set(),
            created_time: ScriptTime::now(now),
            read_time: ScriptTime::now(now),
            write_time: ScriptTime::now(now),
            exec_time: None,
            exec_content: None,
            exec_args: None,
            exec_done_time: self.exec_done_time,
            exec_done_code: self.exec_done_code,
            miss_time: self.miss_time,
        }
    }

    /// Merge a tag selector into the script's tags: an append selector edits
    /// the existing set, any other replaces it with its allowed tags.
    pub fn append_tags(&mut self, selector: TagSelector)
        requires
            old(self).tags.wf(),
            selector.wf(),
        ensures
            final(self).tags.wf(),
            selector.append ==> final(self).tags@ == crate::tag::spec_fill_allowed(
                selector.tags@,
                old(self).tags@,
            ),
            !selector.append ==> final(self).tags@ == crate::tag::spec_fill_allowed(
                selector.tags@,
                Set::<Seq<char>>::empty(),
            ),
            final(self).id == old(self).id && final(self).name == old(self).name && final(self).ty
                == old(self).ty,
            final(self).created_time == old(self).created_time && final(self).read_time == old(self).read_time && final(self).write_time == old(self).write_time,
    {
        if selector.append {
            selector.fill_allowed_map(&mut self.tags);
        } else {
            self.tags = selector.into_allowed_iter();
        }
    }

    /// Start building a record from stored fields.
    pub fn builder(id: i64, name: ScriptName, ty: String, tags: TagSet) -> (r: ScriptBuilder)
        ensures
            r.id == id && r.name == name && r.ty == ty && r.tags == tags,
            r.read_time is None && r.created_time is None && r.write_time is None,
            r.exec_time is None && r.exec_done_time is None && r.miss_time is None,
    {
        ScriptBuilder {
            id,
            name,
            ty,
            tags,
            read_time: None,
            created_time: None,
            write_time: None,
            exec_time: None,
            exec_done_time: None,
            miss_time: None,
        }
    }
}

/// The stored time when present and newer, else the fallback.
pub open spec fn opt_time(t: Option<ScriptTime>, fallback: i64) -> i64 {
    match t {
        Some(st) => st.time,
        None => fallback,
    }
}

/// A cleaned copy of an optional timestamp.
pub open spec fn clear_opt(t: Option<ScriptTime>) -> Option<ScriptTime> {
    match t {
        Some(st) => Some(ScriptTime { changed: false, ..st }),
        None => None,
    }
}

/// Builds a `ScriptInfo` from whatever stored timestamps exist; missing ones
/// fall back to the creation time.
#[derive(Debug)]
pub struct ScriptBuilder {
    pub id: i64,
    pub name: ScriptName,
    pub ty: String,
    pub tags: TagSet,
    pub read_time: Option<i64>,
    pub created_time: Option<i64>,
    pub write_time: Option<i64>,
    pub exec_time: Option<i64>,
    pub exec_done_time: Option<i64>,
    pub miss_time: Option<i64>,
}

impl ScriptBuilder {
    pub fn read_time(self, time: i64) -> (r: Self)
        ensures
            r == (ScriptBuilder { read_time: Some(time), ..self }),
    {
        ScriptBuilder { read_time: Some(time), ..self }
    }

    pub fn created_time(self, time: i64) -> (r: Self)
        ensures
            r == (ScriptBuilder { created_time: Some(time), ..self }),
    {
        ScriptBuilder { created_time: Some(time), ..self }
    }

    pub fn write_time(self, time: i64) -> (r: Self)
        ensures
            r == (ScriptBuilder { write_time: Some(time), ..self }),
    {
        ScriptBuilder { write_time: Some(time), ..self }
    }

    pub fn exec_time(self, time: i64) -> (r: Self)
        ensures
            r == (ScriptBuilder { exec_time: Some(time), ..self }),
    {
        ScriptBuilder { exec_time: Some(time), ..self }
    }

    pub fn exec_done_time(self, time: i64) -> (r: Self)
        ensures
            r == (ScriptBuilder { exec_done_time: Some(time), ..self }),
    {
        ScriptBuilder { exec_done_time: Some(time), ..self }
    }

    pub fn miss_time(self, time: i64) -> (r: Self)
        ensures
            r == (ScriptBuilder { miss_time: Some(time), ..self }),
    {
        ScriptBuilder { miss_time: Some(time), ..self }
    }

    /// Finish the record: a missing creation time is `now`; missing read and
    /// write times fall back to the creation time; stored timestamps are
    /// clean. The record is well formed when stored times respect creation.
    pub fn build(self, now: i64) -> (r: ScriptInfo)
        ensures
            r.id == self.id && r.name == self.name && r.ty == self.ty && r.tags == self.tags,
            r.created_time.time == spec_or(self.created_time, now) && !r.created_time.changed,
            r.read_time.time == spec_or(self.read_time, r.created_time.time)
                && !r.read_time.changed,
            r.write_time.time == spec_or(self.write_time, r.created_time.time)
                && !r.write_time.changed,
            r.exec_time == spec_opt_stored(self.exec_time),
            r.exec_done_time == spec_opt_stored(self.exec_done_time),
            r.miss_time == spec_opt_stored(self.miss_time),
            r.exec_content is None && r.exec_args is None && r.exec_done_code is None,
    {
        let created = match self.created_time {
            Some(t) => t,
            None => now,
        };
        let read = match self.read_time {
            Some(t) => t,
            None => created,
        };
        let write = match self.write_time {
            Some(t) => t,
            None => created,
        };
        ScriptInfo {
            id: self.id,
            name: self.name,
            ty: self.ty,
            tags: self.tags,
            created_time: ScriptTime::stored(created),
            read_time: ScriptTime::stored(read),
            write_time: ScriptTime::stored(write),
            exec_time: match self.exec_time {
                Some(t) => Some(ScriptTime::stored(t)),
                None => None,
            },
            exec_content: None,
            exec_args: None,
            exec_done_time: match self.exec_done_time {
                Some(t) => Some(ScriptTime::stored(t)),
                None => None,
            },
            exec_done_code: None,
            miss_time: match self.miss_time {
                Some(t) => Some(ScriptTime::stored(t)),
                None => None,
            },
        }
    }
}

/// The stored value, or the fallback.
pub open spec fn spec_or(o: Option<i64>, fallback: i64) -> i64 {
    match o {
        Some(t) => t,
        None => fallback,
    }
}

/// A stored optional time, clean.
pub open spec fn spec_opt_stored(o: Option<i64>) -> Option<ScriptTime> {
    match o {
        Some(t) => Some(ScriptTime { time: t, changed: false }),
        None => None,
    }
}

} // verus!
