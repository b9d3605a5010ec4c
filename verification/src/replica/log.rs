use vstd::prelude::*;

use super::rpc::{InstallSnapshotArgs, ProtoEntry};

verus! {

/// A raft log entry: a command and the term in which a leader received it.
#[derive(Debug)]
pub struct LogEntry {
    pub data: Vec<u8>,
    pub term: u64,
}

impl View for LogEntry {
    type V = (u64, Seq<u8>);

    open spec fn view(&self) -> (u64, Seq<u8>) {
        (self.term, self.data@)
    }
}

impl Clone for LogEntry {
    fn clone(&self) -> (r: Self)
        ensures
            r@ == self@,
    {
        let data = self.data.clone();
        assert(data@ =~= self.data@);
        LogEntry { data, term: self.term }
    }
}

impl LogEntry {
    pub fn new(data: Vec<u8>, term: u64) -> (r: Self)
        ensures
            r.data == data,
            r.term == term,
    {
        LogEntry { data, term }
    }
}

impl From<ProtoEntry> for LogEntry {
    fn from(e: ProtoEntry) -> (r: LogEntry) {
        LogEntry { data: e.command, term: e.term }
    }
}

impl vstd::std_specs::convert::FromSpecImpl<ProtoEntry> for LogEntry {
    open spec fn obeys_from_spec() -> bool {
        true
    }

    open spec fn from_spec(e: ProtoEntry) -> LogEntry {
        LogEntry { data: e.command, term: e.term }
    }
}

impl From<LogEntry> for ProtoEntry {
    fn from(e: LogEntry) -> (r: ProtoEntry) {
        ProtoEntry { command: e.data, term: e.term }
    }
}

impl vstd::std_specs::convert::FromSpecImpl<LogEntry> for ProtoEntry {
    open spec fn obeys_from_spec() -> bool {
        true
    }

    open spec fn from_spec(e: LogEntry) -> ProtoEntry {
        ProtoEntry { command: e.data, term: e.term }
    }
}

/// The views of a sequence of entries.
pub open spec fn entry_views(s: Seq<LogEntry>) -> Seq<(u64, Seq<u8>)> {
    s.map_values(|e: LogEntry| e@)
}

/// The views of a sequence of wire entries.
pub open spec fn proto_views(s: Seq<ProtoEntry>) -> Seq<(u64, Seq<u8>)> {
    s.map_values(|e: ProtoEntry| (e.term, e.command@))
}

/// The state of the replicated state machine at the end of a snapshot.
#[derive(Debug)]
pub struct SnapshotFile {
    pub commands: Vec<Vec<u8>>,
}

impl Default for SnapshotFile {
    fn default() -> (r: SnapshotFile)
        ensures
            r.commands@.len() == 0,
    {
        SnapshotFile { commands: Vec::new() }
    }
}

/// A log whose prefix up to `last_included_index` has been replaced by a
/// snapshot. Entries are numbered from 1; entry `n` after the snapshot is
/// `commands[n - last_included_index - 1]`.
pub struct RaftLogWithSnapShot {
    pub last_included_index: u64,
    pub last_included_term: u64,
    pub state_machine_state: SnapshotFile,
    pub commands: Vec<LogEntry>,
}

impl RaftLogWithSnapShot {
    /// The length of the log, snapshot included, fits in a `usize`.
    pub open spec fn wf(&self) -> bool {
        self.last_included_index + self.commands@.len() < usize::MAX
    }

    /// The index of the last entry.
    pub open spec fn log_len(&self) -> int {
        self.last_included_index + self.commands@.len()
    }

    /// Whether entry `n` is covered by the snapshot.
    pub open spec fn covers(&self, n: int) -> bool {
        n <= self.last_included_index
    }

    /// The position in `commands` of entry `n`.
    pub open spec fn pos(&self, n: int) -> int {
        n - self.last_included_index - 1
    }

    /// Whether entry `n` is held after the snapshot.
    pub open spec fn holds(&self, n: int) -> bool {
        !self.covers(n) && self.pos(n) < self.commands@.len()
    }

    /// The term of entry `n`: the snapshot's term for an entry the snapshot
    /// covers, `0` for an entry past the end.
    pub open spec fn term_of(&self, n: int) -> u64 {
        if self.covers(n) {
            self.last_included_term
        } else if self.holds(n) {
            self.commands@[self.pos(n)].term
        } else {
            0
        }
    }

    /// Whether `next` is this log with its prefix up to entry `n` replaced
    /// by snapshot `state`: the snapshot ends at `n` with the term of `n`,
    /// and the entries after `n` stay.
    pub open spec fn compacted(&self, n: int, state: SnapshotFile, next: RaftLogWithSnapShot) -> bool {
        &&& next.last_included_index == n
        &&& next.last_included_term == self.term_of(n)
        &&& next.state_machine_state == state
        &&& next.commands@ == self.commands@.skip(self.pos(n) + 1)
    }

    /// The entries after the snapshot, by view.
    pub open spec fn entries(&self) -> Seq<(u64, Seq<u8>)> {
        entry_views(self.commands@)
    }

    /// The log a snapshot sent by a leader installs.
    pub fn from_install(args: InstallSnapshotArgs) -> (r: RaftLogWithSnapShot)
        ensures
            r.last_included_index == args.last_included_index,
            r.last_included_term == args.last_included_term,
            r.state_machine_state.commands@ == args.data@,
            r.commands@.len() == 0,
    {
        RaftLogWithSnapShot {
            last_included_index: args.last_included_index,
            last_included_term: args.last_included_term,
            state_machine_state: SnapshotFile { commands: args.data },
            commands: Vec::new(),
        }
    }

    /// Whether entry `index` is in the snapshot.
    pub fn is_in_snapshot(&self, index: usize) -> (r: bool)
        requires
            self.wf(),
        ensures
            r == self.covers(index as int),
    {
        self.checked_offset_index(index).is_none()
    }

    /// The position in `commands` of entry `origin`, which the snapshot does
    /// not cover.
    pub fn offset_index(&self, origin: usize) -> (r: usize)
        requires
            self.wf(),
            !self.covers(origin as int),
        ensures
            r == self.pos(origin as int),
    {
        match self.checked_offset_index(origin) {
            Some(i) => i,
            None => vstd::pervasive::unreached(),
        }
    }

    /// The position in `commands` of entry `origin`, or `None` if the
    /// snapshot covers it.
    pub fn checked_offset_index(&self, origin: usize) -> (r: Option<usize>)
        requires
            self.wf(),
        ensures
            r == (if self.covers(origin as int) { None } else { Some(self.pos(origin as int) as usize) }),
    {
        origin.checked_sub((self.last_included_index + 1) as usize)
    }

    /// The length of the log, snapshot included.
    pub fn len(&self) -> (r: usize)
        requires
            self.wf(),
        ensures
            r == self.log_len(),
    {
        self.last_included_index as usize + self.commands.len()
    }

    /// Appends an entry.
    pub fn push(&mut self, log: LogEntry)
        requires
            old(self).log_len() + 1 < usize::MAX,
        ensures
            final(self).commands@ == old(self).commands@.push(log),
            final(self).last_included_index == old(self).last_included_index,
            final(self).last_included_term == old(self).last_included_term,
            final(self).state_machine_state == old(self).state_machine_state,
    {
        self.commands.push(log)
    }

    /// Entry `n`, like `log[n]`: `None` for `0` or past the end. Entry `0`
    /// is a placeholder; the snapshot must not cover `n` otherwise.
    pub fn get(&self, n: usize) -> (r: Option<&LogEntry>)
        requires
            self.wf(),
            n == 0 || !self.covers(n as int),
        ensures
            r == (if n != 0 && self.holds(n as int) { Some(&self.commands@[self.pos(n as int)]) } else { None }),
    {
        if n == 0 {
            return None;
        }
        let i = self.offset_index(n);
        if i < self.commands.len() {
            Some(&self.commands[i])
        } else {
            None
        }
    }

    /// The entries from entry `n` on, like `log[n..]`.
    pub fn after(&self, n: usize) -> (r: &[LogEntry])
        requires
            self.wf(),
            !self.covers(n as int),
            n <= self.log_len() + 1,
        ensures
            r@ == self.commands@.subrange(self.pos(n as int), self.commands@.len() as int),
    {
        let i = self.offset_index(n);
        vstd::slice::slice_subrange(self.commands.as_slice(), i, self.commands.len())
    }

    /// Removes every entry from entry `target_size` on.
    pub fn truncate(&mut self, target_size: usize)
        requires
            old(self).wf(),
            !old(self).covers(target_size as int),
        ensures
            final(self).commands@ == (if old(self).pos(target_size as int) < old(self).commands@.len() {
                old(self).commands@.take(old(self).pos(target_size as int))
            } else {
                old(self).commands@
            }),
            final(self).last_included_index == old(self).last_included_index,
            final(self).last_included_term == old(self).last_included_term,
            final(self).state_machine_state == old(self).state_machine_state,
    {
        let i = self.offset_index(target_size);
        self.commands.truncate(i)
    }

    /// The term of the last entry, the snapshot's term when no entry
    /// follows the snapshot.
    pub fn last_term(&self) -> (r: u64)
        requires
            self.wf(),
        ensures
            r == self.term_of(self.log_len()),
    {
        let k = self.commands.len();
        if k > 0 {
            self.commands[k - 1].term
        } else {
            self.last_included_term
        }
    }

    /// The term of entry `n`.
    pub fn term_at(&self, n: usize) -> (r: u64)
        requires
            self.wf(),
        ensures
            r == self.term_of(n as int),
    {
        match self.checked_offset_index(n) {
            Some(i) => {
                if i < self.commands.len() {
                    self.commands[i].term
                } else {
                    0
                }
            },
            None => self.last_included_term,
        }
    }
}

impl Default for RaftLogWithSnapShot {
    fn default() -> (r: RaftLogWithSnapShot)
        ensures
            r.last_included_index == 0,
            r.last_included_term == 0,
            r.state_machine_state.commands@.len() == 0,
            r.commands@.len() == 0,
    {
        RaftLogWithSnapShot {
            last_included_index: 0,
            last_included_term: 0,
            state_machine_state: SnapshotFile::default(),
            commands: Vec::new(),
        }
    }
}

} // verus!
