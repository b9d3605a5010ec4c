use vstd::prelude::*;

use super::command::{be_value, KvCommand};
use super::config::{nth_other, partition_of};
use super::store::{
    apply_command, id_views, inserted_all, keys_of, pair_views, response_to, value_of, KvStateMachine,
    SnapshotContents,
};

verus! {

/// A command handled twice, as when a clerk retries it, takes effect once:
/// the second time changes neither the store nor the clerks' last commands.
pub proof fn law_retried_command_applies_once(
    s0: KvStateMachine,
    s1: KvStateMachine,
    s2: KvStateMachine,
    cmd: KvCommand,
)
    requires
        s0.handled(cmd, s1),
        s1.handled(cmd, s2),
    ensures
        s1.is_duplicate(cmd),
        s2.store() == s1.store(),
        s2.history() == s1.history(),
{
}

/// A command whose id is not the id of its clerk's last applied command is
/// new, and is applied: ids are random, so an id below the last one is as
/// new as one above it. The clerk's last command then has the command's
/// id; only a command equal to that last id is taken for a retry.
pub proof fn law_new_command_applies(s0: KvStateMachine, s1: KvStateMachine, cmd: KvCommand)
    requires
        s0.handled(cmd, s1),
        !s0.history().contains_key(cmd.client_spec()) || s0.history()[cmd.client_spec()] != cmd.id_spec(),
    ensures
        s1.store() == apply_command(s0.store(), cmd),
        s1.history().contains_key(cmd.client_spec()),
        s1.history()[cmd.client_spec()] == cmd.id_spec(),
{
}

/// A command whose id is the id of its clerk's last applied command is a
/// retry, and changes nothing.
pub proof fn law_retry_changes_nothing(s0: KvStateMachine, s1: KvStateMachine, cmd: KvCommand)
    requires
        s0.handled(cmd, s1),
        s0.history().contains_key(cmd.client_spec()),
        s0.history()[cmd.client_spec()] == cmd.id_spec(),
    ensures
        s1.store() == s0.store(),
        s1.history() == s0.history(),
{
}

/// A get handled after a put of the same key reads the value that was put.
pub proof fn law_get_reads_put_value(
    s0: KvStateMachine,
    s1: KvStateMachine,
    put: KvCommand,
    get: KvCommand,
    idx: u64,
)
    requires
        s0.handled(put, s1),
        !s0.is_duplicate(put),
        put is Put,
        get is Get,
        put->Put_key@ == get->Get_key@,
    ensures
        response_to(s1.store(), idx, get).1 == put->Put_value@,
{
}

/// An append extends the value of its key by its value; a key with no value
/// reads as the empty string.
pub proof fn law_append_extends_value(s0: KvStateMachine, s1: KvStateMachine, cmd: KvCommand)
    requires
        s0.handled(cmd, s1),
        !s0.is_duplicate(cmd),
        cmd is Append,
    ensures
        value_of(s1.store(), cmd->Append_key@) == value_of(s0.store(), cmd->Append_key@)
            + cmd->Append_value@,
{
}

/// Handling a command leaves every other key's value as it was, and a get
/// changes nothing in the store.
pub proof fn law_other_keys_unchanged(s0: KvStateMachine, s1: KvStateMachine, cmd: KvCommand, k: Seq<char>)
    requires
        s0.handled(cmd, s1),
        k != command_key(cmd) || cmd is Get,
    ensures
        value_of(s1.store(), k) == value_of(s0.store(), k),
{
}

/// The key a command reads or writes.
pub open spec fn command_key(cmd: KvCommand) -> Seq<char> {
    match cmd {
        KvCommand::Get { key, .. } => key@,
        KvCommand::Put { key, .. } => key@,
        KvCommand::Append { key, .. } => key@,
    }
}

/// A snapshot of a state machine installed into an empty one gives back its
/// store and the last command of each clerk.
pub proof fn law_snapshot_restores_state(s: KvStateMachine, snap: SnapshotContents)
    requires
        s.snapshot_of(snap),
    ensures
        inserted_all(Map::empty(), pair_views(snap.kvs@)) == s.store(),
        inserted_all(Map::empty(), id_views(snap.last_commands@)) == s.history(),
{
    let kvs = pair_views(snap.kvs@);
    assert(kvs.map_values(|p: (Seq<char>, Seq<char>)| p.0) =~= keys_of(snap.kvs@));
    assert forall|i: int| 0 <= i < kvs.len() implies s.store()[(#[trigger] kvs[i]).0] == kvs[i].1 by {
        assert(s.store()[snap.kvs@[i].0@] == snap.kvs@[i].1@);
    }
    lemma_inserted_all_agreeing(s.store(), kvs);
    let ids = id_views(snap.last_commands@);
    assert(ids.map_values(|p: (Seq<char>, u128)| p.0) =~= keys_of(snap.last_commands@));
    assert forall|i: int| 0 <= i < ids.len() implies s.history()[(#[trigger] ids[i]).0] == ids[i].1 by {
        let b = snap.last_commands@[i].1@;
        assert(be_value(b) == s.history()[snap.last_commands@[i].0@]);
    }
    lemma_inserted_all_agreeing(s.history(), ids);
}

/// Inserting pairs that each agree with `m`, and that cover the keys of `m`,
/// into an empty map gives `m`.
proof fn lemma_inserted_all_agreeing<V>(m: Map<Seq<char>, V>, s: Seq<(Seq<char>, V)>)
    requires
        forall|k: Seq<char>| m.contains_key(k) <==> s.map_values(|p: (Seq<char>, V)| p.0).contains(k),
        forall|i: int| 0 <= i < s.len() ==> m[(#[trigger] s[i]).0] == s[i].1,
    ensures
        inserted_all(Map::empty(), s) == m,
{
    lemma_inserted_all_prefix(s, s.len() as int);
    assert(s.take(s.len() as int) =~= s);
    let r = inserted_all(Map::empty(), s);
    let keys = s.map_values(|p: (Seq<char>, V)| p.0);
    assert forall|k: Seq<char>| r.contains_key(k) <==> m.contains_key(k) by {
        if keys.contains(k) {
            let i = choose|i: int| 0 <= i < keys.len() && keys[i] == k;
            assert(s[i].0 == k);
        }
        if r.contains_key(k) {
            let i = choose|i: int| 0 <= i < s.len() && s[i].0 == k;
            assert(keys[i] == k);
        }
    }
    assert forall|k: Seq<char>| r.contains_key(k) implies r[k] == m[k] by {
        let i = choose|i: int| 0 <= i < s.len() && s[i].0 == k && r[k] == s[i].1;
    }
    assert(r =~= m);
}

/// After inserting the first `n` pairs of `s` into an empty map, a key is
/// mapped exactly when one of those pairs has it, and its value is that of
/// one of those pairs with it.
proof fn lemma_inserted_all_prefix<V>(s: Seq<(Seq<char>, V)>, n: int)
    requires
        0 <= n <= s.len(),
    ensures
        forall|k: Seq<char>| #[trigger] inserted_all(Map::empty(), s.take(n)).contains_key(k) <==> exists|i: int|
            0 <= i < n && s[i].0 == k,
        forall|k: Seq<char>| #[trigger] inserted_all(Map::empty(), s.take(n)).contains_key(k) ==> exists|i: int|
            0 <= i < n && s[i].0 == k && inserted_all(Map::empty(), s.take(n))[k] == s[i].1,
    decreases n,
{
    if n > 0 {
        lemma_inserted_all_prefix(s, n - 1);
        assert(s.take(n).drop_last() =~= s.take(n - 1));
        let prev = inserted_all(Map::empty(), s.take(n - 1));
        let cur = inserted_all(Map::empty(), s.take(n));
        assert(cur == prev.insert(s[n - 1].0, s[n - 1].1));
        assert forall|k: Seq<char>| cur.contains_key(k) implies exists|i: int|
            0 <= i < n && s[i].0 == k && cur[k] == s[i].1 by {
            if k == s[n - 1].0 {
                assert(cur[k] == s[n - 1].1);
            } else {
                assert(prev.contains_key(k));
                let i = choose|i: int| 0 <= i < n - 1 && s[i].0 == k && prev[k] == s[i].1;
                assert(cur[k] == s[i].1);
            }
        }
        assert forall|k: Seq<char>| (exists|i: int| 0 <= i < n && s[i].0 == k) implies cur.contains_key(k) by {
            let i = choose|i: int| 0 <= i < n && s[i].0 == k;
            if i < n - 1 {
                assert(prev.contains_key(k));
            }
        }
    } else {
        assert(s.take(0) =~= Seq::<(Seq<char>, V)>::empty());
    }
}

/// Of three servers or more, the majority of a partition has `n / 2 + 1`
/// servers and not the leader `l`; the minority holds the rest, the leader
/// last; and every server is in exactly one of them.
pub proof fn law_partition_isolates_leader(n: nat, l: int)
    requires
        3 <= n <= usize::MAX,
        0 <= l < n,
    ensures
        ({
            let (p1, p2) = partition_of(n, l);
            &&& p1.len() == n / 2 + 1
            &&& p1.len() + p2.len() == n
            &&& p2.last() == l
            &&& !p1.contains(l as usize)
            &&& forall|s: usize|
                #![trigger p1.contains(s)]
                #![trigger p2.contains(s)]
                s < n ==> p1.contains(s) || p2.contains(s)
            &&& forall|a: int, b: int| 0 <= a < p1.len() && 0 <= b < p2.len() ==> p1[a] != p2[b]
        }),
{
    let (p1, p2) = partition_of(n, l);
    let cap: int = (n / 2 + 1) as int;
    assert forall|s: usize| s < n implies p1.contains(s) || p2.contains(s) by {
        if s == l {
            assert(p2[p2.len() - 1] == s);
        } else {
            let k: int = if s < l { s as int } else { s - 1 };
            assert(nth_other(l, k) == s);
            if k < cap {
                assert(p1[k] == s);
            } else {
                assert(p2[k - cap] == s);
            }
        }
    }
    assert forall|a: int, b: int| 0 <= a < p1.len() && 0 <= b < p2.len() implies p1[a] != p2[b] by {
        assert(p1[a] == nth_other(l, a));
        if b < p2.len() - 1 {
            assert(p2[b] == nth_other(l, b + cap));
        } else {
            assert(p2[b] == l);
        }
    }
    assert(!p1.contains(l as usize)) by {
        if p1.contains(l as usize) {
            let a = choose|a: int| 0 <= a < p1.len() && p1[a] == l as usize;
            assert(p1[a] == nth_other(l, a));
        }
    }
}

} // verus!
