use vstd::prelude::*;
use vstd::string::StringExecFns;

use super::command::{be_value, build_uuid, uuid_bytes, KvCommand};
use super::table::Table;

verus! {

/// What a waiting request learns once its command was applied: the id of
/// the command applied at its index, the value read for a get (empty for
/// other commands), and the index.
#[derive(Debug)]
pub struct CommandResponse {
    pub command_id: u128,
    pub reply: String,
    pub command_idx: usize,
}

impl CommandResponse {
    pub fn new(id: u128, reply: String, idx: usize) -> (r: CommandResponse)
        ensures
            r.command_id == id,
            r.reply == reply,
            r.command_idx == idx,
    {
        CommandResponse { command_id: id, reply, command_idx: idx }
    }
}

/// The effect of command `cmd` on a store `m`: a put sets the key, an
/// append extends its value (the empty string if it had none), a get
/// changes nothing.
pub open spec fn apply_command(m: Map<Seq<char>, Seq<char>>, cmd: KvCommand) -> Map<Seq<char>, Seq<char>> {
    match cmd {
        KvCommand::Put { key, value, .. } => m.insert(key@, value@),
        KvCommand::Append { key, value, .. } => m.insert(key@, value_of(m, key@) + value@),
        KvCommand::Get { .. } => m,
    }
}

/// The value of `key` in `m`, the empty string if it has none.
pub open spec fn value_of(m: Map<Seq<char>, Seq<char>>, key: Seq<char>) -> Seq<char> {
    if m.contains_key(key) {
        m[key]
    } else {
        Seq::empty()
    }
}

/// What a waiting request learns when `cmd` is applied at `idx` to store
/// `m`: the command's id, the value read for a get, the index.
pub open spec fn response_to(m: Map<Seq<char>, Seq<char>>, idx: u64, cmd: KvCommand) -> (u128, Seq<char>, usize) {
    match cmd {
        KvCommand::Get { id, key, .. } => (id, value_of(m, key@), idx as usize),
        _ => (cmd.id_spec(), Seq::empty(), idx as usize),
    }
}

/// Whether a replica should compact its log after applying the command at
/// `applied`: its persisted Raft state grew past `threshold` (nine tenths of
/// the most it may keep, `max`), and it is not far behind the commit index,
/// by less than `max / 50` entries (at least one).
pub fn snapshot_due(log_size: usize, threshold: usize, commit_index: u64, applied: u64, max: usize) -> (r: bool)
    requires
        applied <= commit_index,
    ensures
        r == (log_size > threshold && commit_index - applied < (if max / 50 > 1 { max / 50 } else { 1 })),
{
    let lag = commit_index - applied;
    let allowed = if max / 50 > 1 { max / 50 } else { 1 };
    log_size > threshold && (lag as u128) < (allowed as u128)
}

/// The keys of a list of pairs.
pub open spec fn keys_of<V>(s: Seq<(String, V)>) -> Seq<Seq<char>> {
    s.map_values(|p: (String, V)| p.0@)
}

/// `m` after inserting the pairs `s` in order.
pub open spec fn inserted_all<V>(m: Map<Seq<char>, V>, s: Seq<(Seq<char>, V)>) -> Map<Seq<char>, V>
    decreases s.len(),
{
    if s.len() == 0 {
        m
    } else {
        inserted_all(m, s.drop_last()).insert(s.last().0, s.last().1)
    }
}

/// The pairs `s` by view.
pub open spec fn pair_views(s: Seq<(String, String)>) -> Seq<(Seq<char>, Seq<char>)> {
    s.map_values(|p: (String, String)| (p.0@, p.1@))
}

/// The pairs `s` of clerk and command id bytes, with each id read as a
/// number.
pub open spec fn id_views(s: Seq<(String, Vec<u8>)>) -> Seq<(Seq<char>, u128)> {
    s.map_values(|p: (String, Vec<u8>)| (p.0@, be_value(p.1@) as u128))
}

/// The state a key/value replica keeps in its snapshot: its pairs, the
/// index of the last command applied, and the id of each clerk's last
/// command.
#[derive(Debug)]
pub struct SnapshotContents {
    pub kvs: Vec<(String, String)>,
    pub last_index: u64,
    pub last_commands: Vec<(String, Vec<u8>)>,
}

/// The replicated state machine of the key/value service: the store, the
/// last command applied for each clerk (so that a retried command is
/// applied once), and the index of the last command applied.
pub struct KvStateMachine {
    pub state: Table<String>,
    pub last_command: Table<u128>,
    pub last_index: usize,
}

impl KvStateMachine {
    /// The key/value pairs held.
    pub open spec fn store(&self) -> Map<Seq<char>, Seq<char>> {
        self.state.view().map_values(|v: String| v@)
    }

    /// The id of the last command applied for each clerk.
    pub open spec fn history(&self) -> Map<Seq<char>, u128> {
        self.last_command.view()
    }

    pub open spec fn wf(&self) -> bool {
        self.state.wf() && self.last_command.wf()
    }

    /// Whether `cmd` repeats the last command applied for its clerk.
    pub open spec fn is_duplicate(&self, cmd: KvCommand) -> bool {
        self.history().contains_key(cmd.client_spec()) && self.history()[cmd.client_spec()] == cmd.id_spec()
    }

    /// Whether `next` is this state machine after handling `cmd`: a
    /// command that repeats its clerk's last one changes nothing; any other
    /// is applied to the store and becomes its clerk's last command.
    pub open spec fn handled(&self, cmd: KvCommand, next: KvStateMachine) -> bool {
        &&& next.last_index == self.last_index
        &&& self.is_duplicate(cmd) ==> next.store() == self.store() && next.history() == self.history()
        &&& !self.is_duplicate(cmd) ==> next.store() == apply_command(self.store(), cmd)
            && next.history() == self.history().insert(cmd.client_spec(), cmd.id_spec())
    }

    /// Whether `snap` holds this state machine: every pair of the store once,
    /// the index of the last command applied, and every clerk's last command
    /// id once, as its 16 bytes.
    pub open spec fn snapshot_of(&self, snap: SnapshotContents) -> bool {
        &&& keys_of(snap.kvs@).no_duplicates()
        &&& forall|k: Seq<char>| self.store().contains_key(k) <==> keys_of(snap.kvs@).contains(k)
        &&& forall|i: int| 0 <= i < snap.kvs@.len() ==> self.store()[(#[trigger] snap.kvs@[i]).0@] == snap.kvs@[i].1@
        &&& snap.last_index == self.last_index as u64
        &&& keys_of(snap.last_commands@).no_duplicates()
        &&& forall|k: Seq<char>| self.history().contains_key(k) <==> keys_of(snap.last_commands@).contains(k)
        &&& forall|i: int| 0 <= i < snap.last_commands@.len() ==> {
            &&& (#[trigger] snap.last_commands@[i]).1@.len() == 16
            &&& be_value(snap.last_commands@[i].1@) == self.history()[snap.last_commands@[i].0@]
        }
    }

    /// An empty store that applied nothing.
    pub fn new() -> (r: KvStateMachine)
        ensures
            r.wf(),
            r.store() == Map::<Seq<char>, Seq<char>>::empty(),
            r.history() == Map::<Seq<char>, u128>::empty(),
            r.last_index == 0,
    {
        let r = KvStateMachine { state: Table::new(), last_command: Table::new(), last_index: 0 };
        assert(r.store() =~= Map::<Seq<char>, Seq<char>>::empty());
        r
    }

    /// The value of `key`, the empty string if it has none.
    pub fn get_value(&self, key: &str) -> (r: String)
        requires
            self.wf(),
        ensures
            r@ == value_of(self.store(), key@),
    {
        match self.state.get(key) {
            Some(v) => v.clone(),
            None => String::new(),
        }
    }

    /// Applies `cmd` unless it repeats the last command applied for its
    /// clerk; applying it records it as that clerk's last command.
    pub fn handle_command(&mut self, cmd: KvCommand)
        requires
            old(self).wf(),
        ensures
            final(self).wf(),
            old(self).handled(cmd, *final(self)),
    {
        let id = cmd.get_id();
        let done = match self.last_command.get(cmd.get_client()) {
            Some(i) => *i == id,
            None => false,
        };
        if done {
            return;
        }
        self.last_command.insert(cmd.get_client().to_owned(), id);
        match cmd {
            KvCommand::Put { key, value, .. } => {
                let ghost k = key@;
                let ghost v = value@;
                self.state.insert(key, value);
                assert(self.store() =~= old(self).store().insert(k, v));
            },
            KvCommand::Append { key, value, .. } => {
                let current = self.get_value(key.as_str());
                let next = current.concat(value.as_str());
                let ghost k = key@;
                let ghost v = next@;
                self.state.insert(key, next);
                assert(self.store() =~= old(self).store().insert(k, v));
            },
            KvCommand::Get { .. } => {},
        }
    }

    /// Whether `id` is the last command applied for clerk `client`.
    pub fn has_done(&self, client: &str, id: u128) -> (r: bool)
        requires
            self.wf(),
        ensures
            r == (self.history().contains_key(client@) && self.history()[client@] == id),
    {
        match self.last_command.get(client) {
            Some(i) => *i == id,
            None => false,
        }
    }

    /// What a request waiting at `idx` learns when `cmd` is applied there.
    pub fn command_response(&self, idx: u64, cmd: &KvCommand) -> (r: CommandResponse)
        requires
            self.wf(),
        ensures
            (r.command_id, r.reply@, r.command_idx) == response_to(self.store(), idx, *cmd),
    {
        match cmd {
            KvCommand::Get { id, key, .. } => CommandResponse::new(*id, self.get_value(key.as_str()), idx as usize),
            _ => CommandResponse::new(cmd.get_id(), String::new(), idx as usize),
        }
    }

    /// Applies the command committed at `index`, which follows the last
    /// one applied. Returns what a request waiting at `index` learns, as of
    /// the store before the command.
    pub fn apply(&mut self, index: u64, cmd: KvCommand) -> (r: CommandResponse)
        requires
            old(self).wf(),
            old(self).last_index < index as usize,
        ensures
            final(self).wf(),
            (r.command_id, r.reply@, r.command_idx) == response_to(old(self).store(), index, cmd),
            final(self).last_index == index as usize,
            old(self).is_duplicate(cmd) || cmd is Get ==> final(self).store() == old(self).store()
                && final(self).history() == old(self).history(),
            !(old(self).is_duplicate(cmd) || cmd is Get) ==> final(self).store() == apply_command(old(self).store(), cmd)
                && final(self).history() == old(self).history().insert(cmd.client_spec(), cmd.id_spec()),
    {
        let response = self.command_response(index, &cmd);
        if !cmd.is_readonly() {
            self.handle_command(cmd);
        }
        self.last_index = index as usize;
        response
    }

    /// Installs the clerks' last commands of a snapshot, in order; each id
    /// must be 16 bytes.
    pub fn install_last_commands(&mut self, cmds: Vec<(String, Vec<u8>)>)
        requires
            old(self).wf(),
            forall|i: int| 0 <= i < cmds@.len() ==> (#[trigger] cmds@[i]).1@.len() == 16,
        ensures
            final(self).wf(),
            final(self).store() == old(self).store(),
            final(self).last_index == old(self).last_index,
            final(self).history() == inserted_all(old(self).history(), id_views(cmds@)),
    {
        let ghost all = cmds@;
        let mut k: usize = 0;
        while k < cmds.len()
            invariant
                self.wf(),
                all == cmds@,
                k <= all.len(),
                forall|i: int| 0 <= i < all.len() ==> (#[trigger] all[i]).1@.len() == 16,
                self.store() == old(self).store(),
                self.last_index == old(self).last_index,
                self.history() == inserted_all(old(self).history(), id_views(all.take(k as int))),
            decreases all.len() - k,
        {
            let id = build_uuid(cmds[k].1.as_slice());
            let key = cmds[k].0.clone();
            let ghost before = self.history();
            self.last_command.insert(key, id);
            proof {
                let s1 = id_views(all.take(k + 1));
                let s0 = id_views(all.take(k as int));
                assert(s1.drop_last() =~= s0);
                assert(s1.last() == (all[k as int].0@, id));
                assert(inserted_all(old(self).history(), s1) == inserted_all(old(self).history(), s0).insert(all[k as int].0@, id));
            }
            k += 1;
        }
        assert(all.take(k as int) =~= all);
    }

    /// Installs the pairs of a snapshot, in order, and the index of the last
    /// command it covers.
    pub fn install_key_values(&mut self, kvs: Vec<(String, String)>, last_index: u64)
        requires
            old(self).wf(),
        ensures
            final(self).wf(),
            final(self).history() == old(self).history(),
            final(self).last_index == last_index as usize,
            final(self).store() == inserted_all(old(self).store(), pair_views(kvs@)),
    {
        let ghost all = kvs@;
        let mut k: usize = 0;
        while k < kvs.len()
            invariant
                self.wf(),
                all == kvs@,
                k <= all.len(),
                self.history() == old(self).history(),
                self.last_index == old(self).last_index,
                self.store() == inserted_all(old(self).store(), pair_views(all.take(k as int))),
            decreases all.len() - k,
        {
            let key = kvs[k].0.clone();
            let value = kvs[k].1.clone();
            let ghost before = self.store();
            self.state.insert(key, value);
            proof {
                assert(self.store() =~= before.insert(all[k as int].0@, all[k as int].1@));
                let s1 = pair_views(all.take(k + 1));
                let s0 = pair_views(all.take(k as int));
                assert(s1.drop_last() =~= s0);
                assert(s1.last() == (all[k as int].0@, all[k as int].1@));
                assert(inserted_all(old(self).store(), s1) == inserted_all(old(self).store(), s0).insert(all[k as int].0@, all[k as int].1@));
            }
            k += 1;
        }
        assert(all.take(k as int) =~= all);
        self.last_index = last_index as usize;
    }

    /// What the replica keeps in its snapshot: every pair of the store, the
    /// index of the last command applied, and every clerk's last command
    /// id as its 16 bytes. Each key is listed once.
    pub fn make_snapshot(&self) -> (r: SnapshotContents)
        requires
            self.wf(),
        ensures
            self.snapshot_of(r),
    {
        proof {
            self.state.lemma_keys();
            self.last_command.lemma_keys();
        }
        let keys = self.state.keys();
        let ghost key_list = self.state.key_list();
        let mut kvs: Vec<(String, String)> = Vec::new();
        let mut k: usize = 0;
        while k < keys.len()
            invariant
                self.wf(),
                keys@.map_values(|s: String| s@) == key_list,
                key_list == self.state.key_list(),
                forall|x: Seq<char>| self.store().contains_key(x) <==> key_list.contains(x),
                k <= keys@.len(),
                keys_of(kvs@) == key_list.take(k as int),
                forall|i: int| 0 <= i < kvs@.len() ==> self.store()[(#[trigger] kvs@[i]).0@] == kvs@[i].1@,
            decreases keys@.len() - k,
        {
            let key = keys[k].clone();
            assert(key@ == key_list[k as int]);
            assert(key_list.contains(key@));
            let value = self.get_value(key.as_str());
            let ghost before = kvs@;
            kvs.push((key, value));
            proof {
                assert(keys_of(kvs@) =~= keys_of(before).push(key_list[k as int]));
                assert(key_list.take(k + 1) =~= key_list.take(k as int).push(key_list[k as int]));
            }
            k += 1;
        }
        assert(key_list.take(k as int) =~= key_list);
        let ids = self.last_command.keys();
        let ghost id_list = self.last_command.key_list();
        let mut last_commands: Vec<(String, Vec<u8>)> = Vec::new();
        let mut j: usize = 0;
        while j < ids.len()
            invariant
                self.wf(),
                ids@.map_values(|s: String| s@) == id_list,
                id_list == self.last_command.key_list(),
                forall|x: Seq<char>| self.history().contains_key(x) <==> id_list.contains(x),
                j <= ids@.len(),
                keys_of(last_commands@) == id_list.take(j as int),
                forall|i: int| 0 <= i < last_commands@.len() ==> {
                    &&& (#[trigger] last_commands@[i]).1@.len() == 16
                    &&& be_value(last_commands@[i].1@) == self.history()[last_commands@[i].0@]
                },
            decreases ids@.len() - j,
        {
            let client = ids[j].clone();
            assert(client@ == id_list[j as int]);
            assert(id_list.contains(client@));
            let id = match self.last_command.get(client.as_str()) {
                Some(i) => *i,
                None => vstd::pervasive::unreached(),
            };
            let bytes = uuid_bytes(id);
            let ghost before = last_commands@;
            last_commands.push((client, bytes));
            proof {
                assert(keys_of(last_commands@) =~= keys_of(before).push(id_list[j as int]));
                assert(id_list.take(j + 1) =~= id_list.take(j as int).push(id_list[j as int]));
            }
            j += 1;
        }
        assert(id_list.take(j as int) =~= id_list);
        SnapshotContents { kvs, last_index: self.last_index as u64, last_commands }
    }
}

} // verus!
