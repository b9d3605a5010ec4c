use vstd::hash_map::StringHashMap;
use vstd::prelude::*;

use super::clerk::Clerk;
use crate::replica::persister::{Persister, SimplePersister};

verus! {

broadcast use vstd::std_specs::hash::group_hash_axioms;

/// Why the test configuration could not answer.
#[derive(Debug, Clone, Copy, PartialEq, Eq, Structural)]
pub enum Error {
    /// No server believes it leads.
    NoLeader,
}

/// A change to the simulated network: the end named `.0` is switched on
/// (`true`) or off.
pub type Toggle = (String, bool);

/// The toggles by view.
pub open spec fn toggle_views(v: Seq<Toggle>) -> Seq<(Seq<char>, bool)> {
    v.map_values(|t: Toggle| (t.0@, t.1))
}

/// Switching server `i`'s links with the servers `to` on or off: its
/// outgoing ends to each of them, then their ends to it.
pub open spec fn links(names: Seq<Seq<Seq<char>>>, i: int, to: Seq<usize>, on: bool) -> Seq<(Seq<char>, bool)> {
    to.map_values(|j: usize| (names[i][j as int], on)) + to.map_values(|j: usize| (names[j as int][i], on))
}

/// Every server from `0` to `n`, in order.
pub open spec fn all_servers(n: nat) -> Seq<usize> {
    Seq::new(n, |i: int| i as usize)
}

/// Connecting each server, in order, to every server.
pub open spec fn all_links(names: Seq<Seq<Seq<char>>>, n: nat) -> Seq<(Seq<char>, bool)> {
    Seq::new(n, |i: int| links(names, i, all_servers(n), true)).flatten_alt()
}

/// For each server of `group` in order: cutting it off from `other`, then
/// linking it with `group`.
pub open spec fn regroup(names: Seq<Seq<Seq<char>>>, group: Seq<usize>, other: Seq<usize>) -> Seq<(Seq<char>, bool)> {
    group.map_values(|i: usize| links(names, i as int, other, false) + links(names, i as int, group, true)).flatten_alt()
}

/// The `k`-th server other than `l`.
pub open spec fn nth_other(l: int, k: int) -> int {
    if k < l {
        k
    } else {
        k + 1
    }
}

/// The index of the first server that believes it leads.
pub open spec fn first_leader(flags: Seq<bool>, i: int) -> bool {
    0 <= i < flags.len() && flags[i] && forall|j: int| 0 <= j < i ==> !flags[j]
}

/// The majority and the minority into which `make_partition` splits `n`
/// servers around server `l`.
pub open spec fn partition_of(n: nat, l: int) -> (Seq<usize>, Seq<usize>) {
    let m: int = if n == 0 { 0 } else { n - 1 };
    let cap: int = (n / 2 + 1) as int;
    let c: int = if m < cap { m } else { cap };
    (
        Seq::new(c as nat, |k: int| nth_other(l, k) as usize),
        Seq::new((m - c) as nat, |k: int| nth_other(l, k + cap) as usize).push(l as usize),
    )
}

/// No two ends of `names` share a name, but for ends with no name yet (of a
/// server not started).
pub open spec fn distinct_names(names: Seq<Seq<Seq<char>>>) -> bool {
    forall|i: int, j: int, i2: int, j2: int|
        0 <= i < names.len() && 0 <= j < names[i].len() && 0 <= i2 < names.len() && 0 <= j2 < names[i2].len()
            && (i != i2 || j != j2) && #[trigger] names[i][j].len() > 0 ==> names[i][j] != #[trigger] names[i2][j2]
}

/// The test configuration of a key/value cluster of `n` servers: the names
/// of the network ends between them (`endnames[i][j]` leads from server `i`
/// to server `j`), what each server persisted, each clerk's ends, and the
/// count of clerk operations. The simulated network, the servers and the
/// clerks themselves are the driver's; the configuration decides which ends
/// to switch on or off, and the driver applies the toggles it returns.
pub struct Config {
    pub n: usize,
    endnames: Vec<Vec<String>>,
    saved: Vec<SimplePersister>,
    clerks: StringHashMap<Vec<String>>,
    maxraftstate: Option<usize>,
    ops: usize,
}

impl Config {
    /// The number of servers.
    pub closed spec fn size(&self) -> usize {
        self.n
    }

    /// The end names, by view.
    pub closed spec fn names(&self) -> Seq<Seq<Seq<char>>> {
        self.endnames@.map_values(|r: Vec<String>| r@.map_values(|s: String| s@))
    }

    /// What each server persisted: its Raft state and its snapshot.
    pub closed spec fn persisted(&self) -> Seq<(Seq<u8>, Seq<u8>)> {
        self.saved@.map_values(|p: SimplePersister| (p.saved_state(), p.saved_snapshot()))
    }

    /// Each clerk's ends, by the clerk's name.
    pub closed spec fn clerk_ends(&self) -> Map<Seq<char>, Seq<Seq<char>>> {
        self.clerks@.map_values(|v: Vec<String>| v@.map_values(|s: String| s@))
    }

    /// The count of clerk operations, wrapping.
    pub closed spec fn op_count(&self) -> usize {
        self.ops
    }

    /// The largest Raft state a server may keep before it snapshots.
    pub closed spec fn max_state(&self) -> Option<usize> {
        self.maxraftstate
    }

    /// There is a row of `n` end names for each of the `n` servers, and a
    /// persister for each.
    pub closed spec fn wf(&self) -> bool {
        &&& self.endnames@.len() == self.n
        &&& forall|i: int| 0 <= i < self.n ==> (#[trigger] self.endnames@[i])@.len() == self.n
        &&& self.saved@.len() == self.n
    }

    /// A configuration of `n` servers whose ends all have the empty name,
    /// that persisted nothing, and that has no clerk; the driver starts
    /// each server and then connects them all.
    pub fn new(n: usize, maxraftstate: Option<usize>) -> (cfg: Config)
        ensures
            cfg.wf(),
            cfg.size() == n,
            cfg.names() == Seq::new(n as nat, |i: int| Seq::new(n as nat, |j: int| Seq::<char>::empty())),
            distinct_names(cfg.names()),
            cfg.persisted() == Seq::new(n as nat, |i: int| (Seq::<u8>::empty(), Seq::<u8>::empty())),
            cfg.clerk_ends() == Map::<Seq<char>, Seq<Seq<char>>>::empty(),
            cfg.max_state() == maxraftstate,
            cfg.op_count() == 0,
    {
        let mut endnames: Vec<Vec<String>> = Vec::new();
        let mut saved: Vec<SimplePersister> = Vec::new();
        let mut i: usize = 0;
        while i < n
            invariant
                i <= n,
                endnames@.len() == i,
                saved@.len() == i,
                forall|k: int| 0 <= k < i ==> (#[trigger] endnames@[k])@.len() == n,
                forall|k: int, j: int| 0 <= k < i && 0 <= j < n ==> (#[trigger] endnames@[k]@[j])@ == Seq::<char>::empty(),
                forall|k: int| 0 <= k < i ==> (#[trigger] saved@[k]).saved_state() == Seq::<u8>::empty()
                    && saved@[k].saved_snapshot() == Seq::<u8>::empty(),
            decreases n - i,
        {
            let mut row: Vec<String> = Vec::new();
            let mut j: usize = 0;
            while j < n
                invariant
                    j <= n,
                    row@.len() == j,
                    forall|m: int| 0 <= m < j ==> (#[trigger] row@[m])@ == Seq::<char>::empty(),
                decreases n - j,
            {
                row.push(String::new());
                j += 1;
            }
            endnames.push(row);
            saved.push(SimplePersister::new());
            i += 1;
        }
        let cfg = Config { n, endnames, saved, clerks: StringHashMap::new(), maxraftstate, ops: 0 };
        assert(cfg.names() =~= Seq::new(n as nat, |i: int| Seq::new(n as nat, |j: int| Seq::<char>::empty()))) by {
            assert forall|k: int| 0 <= k < n implies cfg.names()[k] =~= Seq::new(n as nat, |j: int| Seq::<char>::empty()) by {
                assert forall|j: int| 0 <= j < n implies cfg.names()[k][j] == Seq::<char>::empty() by {
                    assert(cfg.endnames@[k]@[j]@ == Seq::<char>::empty());
                }
            }
        }
        assert(cfg.persisted() =~= Seq::new(n as nat, |i: int| (Seq::<u8>::empty(), Seq::<u8>::empty())));
        assert(cfg.clerk_ends() =~= Map::<Seq<char>, Seq<Seq<char>>>::empty());
        cfg
    }

    /// Counts one clerk operation.
    pub fn op(&mut self)
        ensures
            final(self).op_count() == old(self).op_count().wrapping_add(1),
            final(self).names() == old(self).names(),
            final(self).persisted() == old(self).persisted(),
            final(self).clerk_ends() == old(self).clerk_ends(),
            final(self).size() == old(self).size(),
            final(self).wf() == old(self).wf(),
    {
        self.ops = self.ops.wrapping_add(1);
    }

    /// The largest Raft state persisted by any server; `0` with no server.
    pub fn log_size(&self) -> (r: usize)
        requires
            self.wf(),
        ensures
            forall|i: int| 0 <= i < self.size() ==> (#[trigger] self.persisted()[i]).0.len() <= r,
            r == 0 || exists|i: int| 0 <= i < self.size() && (#[trigger] self.persisted()[i]).0.len() == r,
    {
        let mut logsize: usize = 0;
        let mut i: usize = 0;
        while i < self.saved.len()
            invariant
                self.wf(),
                i <= self.n,
                forall|k: int| 0 <= k < i ==> (#[trigger] self.persisted()[k]).0.len() <= logsize,
                logsize == 0 || exists|k: int| 0 <= k < i && (#[trigger] self.persisted()[k]).0.len() == logsize,
            decreases self.n - i,
        {
            let n = self.saved[i].raft_state().len();
            assert(self.persisted()[i as int].0 == self.saved@[i as int].saved_state());
            if n > logsize {
                logsize = n;
            }
            i += 1;
        }
        logsize
    }

    /// The largest snapshot persisted by any server; `0` with no server.
    pub fn snapshot_size(&self) -> (r: usize)
        requires
            self.wf(),
        ensures
            forall|i: int| 0 <= i < self.size() ==> (#[trigger] self.persisted()[i]).1.len() <= r,
            r == 0 || exists|i: int| 0 <= i < self.size() && (#[trigger] self.persisted()[i]).1.len() == r,
    {
        let mut snapshotsize: usize = 0;
        let mut i: usize = 0;
        while i < self.saved.len()
            invariant
                self.wf(),
                i <= self.n,
                forall|k: int| 0 <= k < i ==> (#[trigger] self.persisted()[k]).1.len() <= snapshotsize,
                snapshotsize == 0 || exists|k: int| 0 <= k < i && (#[trigger] self.persisted()[k]).1.len()
                    == snapshotsize,
            decreases self.n - i,
        {
            let n = self.saved[i].snapshot().len();
            assert(self.persisted()[i as int].1 == self.saved@[i as int].saved_snapshot());
            if n > snapshotsize {
                snapshotsize = n;
            }
            i += 1;
        }
        snapshotsize
    }

    /// Every server, in order.
    pub fn all(&self) -> (r: Vec<usize>)
        ensures
            r@ == all_servers(self.size() as nat),
    {
        let mut r: Vec<usize> = Vec::new();
        let mut i: usize = 0;
        while i < self.n
            invariant
                i <= self.n,
                r@ == all_servers(i as nat),
            decreases self.n - i,
        {
            r.push(i);
            i += 1;
            assert(r@ =~= all_servers(i as nat));
        }
        r
    }

    /// Appends to `out` the toggles that switch server `i`'s links with the
    /// servers `to` on or off.
    fn push_links(&self, out: &mut Vec<Toggle>, i: usize, to: &Vec<usize>, on: bool)
        requires
            self.wf(),
            i < self.n,
            forall|k: int| 0 <= k < to@.len() ==> #[trigger] to@[k] < self.n,
        ensures
            toggle_views(final(out)@) == toggle_views(old(out)@) + links(self.names(), i as int, to@, on),
    {
        let ghost names = self.names();
        let ghost start = toggle_views(out@);
        let ghost outgoing = to@.map_values(|j: usize| (names[i as int][j as int], on));
        let ghost incoming = to@.map_values(|j: usize| (names[j as int][i as int], on));
        let mut k: usize = 0;
        while k < to.len()
            invariant
                self.wf(),
                names == self.names(),
                i < self.n,
                forall|m: int| 0 <= m < to@.len() ==> #[trigger] to@[m] < self.n,
                k <= to@.len(),
                outgoing == to@.map_values(|j: usize| (names[i as int][j as int], on)),
                toggle_views(out@) == start + outgoing.take(k as int),
            decreases to@.len() - k,
        {
            let j = to[k];
            let name = self.endnames[i][j].clone();
            proof {
                assert(names[i as int][j as int] == self.endnames@[i as int]@[j as int]@);
            }
            let ghost before = out@;
            out.push((name, on));
            proof {
                assert(toggle_views(out@) =~= toggle_views(before).push((names[i as int][j as int], on)));
                assert(outgoing.take(k + 1) =~= outgoing.take(k as int).push(outgoing[k as int]));
            }
            k += 1;
        }
        assert(outgoing.take(k as int) =~= outgoing);
        let ghost mid = toggle_views(out@);
        let mut k: usize = 0;
        while k < to.len()
            invariant
                self.wf(),
                names == self.names(),
                i < self.n,
                forall|m: int| 0 <= m < to@.len() ==> #[trigger] to@[m] < self.n,
                k <= to@.len(),
                incoming == to@.map_values(|j: usize| (names[j as int][i as int], on)),
                toggle_views(out@) == mid + incoming.take(k as int),
            decreases to@.len() - k,
        {
            let j = to[k];
            let name = self.endnames[j][i].clone();
            proof {
                assert(names[j as int][i as int] == self.endnames@[j as int]@[i as int]@);
            }
            let ghost before = out@;
            out.push((name, on));
            proof {
                assert(toggle_views(out@) =~= toggle_views(before).push((names[j as int][i as int], on)));
                assert(incoming.take(k + 1) =~= incoming.take(k as int).push(incoming[k as int]));
            }
            k += 1;
        }
        assert(incoming.take(k as int) =~= incoming);
        assert(toggle_views(out@) =~= start + links(names, i as int, to@, on));
    }

    /// Links every server with every server: the toggles, in order, for
    /// each server from the first.
    pub fn connect_all(&self) -> (r: Vec<Toggle>)
        requires
            self.wf(),
        ensures
            toggle_views(r@) == all_links(self.names(), self.size() as nat),
    {
        let all = self.all();
        let ghost f = |i: int| links(self.names(), i, all_servers(self.n as nat), true);
        let mut r: Vec<Toggle> = Vec::new();
        let mut i: usize = 0;
        while i < self.n
            invariant
                self.wf(),
                all@ == all_servers(self.n as nat),
                f == (|i: int| links(self.names(), i, all_servers(self.n as nat), true)),
                i <= self.n,
                toggle_views(r@) == Seq::new(i as nat, f).flatten_alt(),
            decreases self.n - i,
        {
            self.push_links(&mut r, i, &all, true);
            proof {
                assert(Seq::new((i + 1) as nat, f).drop_last() =~= Seq::new(i as nat, f));
            }
            i += 1;
        }
        r
    }

    /// Splits the servers into two groups that reach each other only within
    /// a group: for each server of `p1`, then of `p2`, its links with the
    /// other group are cut and those with its own group are made.
    pub fn partition(&self, p1: &Vec<usize>, p2: &Vec<usize>) -> (r: Vec<Toggle>)
        requires
            self.wf(),
            forall|k: int| 0 <= k < p1@.len() ==> #[trigger] p1@[k] < self.size(),
            forall|k: int| 0 <= k < p2@.len() ==> #[trigger] p2@[k] < self.size(),
        ensures
            toggle_views(r@) == regroup(self.names(), p1@, p2@) + regroup(self.names(), p2@, p1@),
    {
        let mut r: Vec<Toggle> = Vec::new();
        self.push_regroup(&mut r, p1, p2);
        self.push_regroup(&mut r, p2, p1);
        r
    }

    /// Appends to `out`, for each server of `group`, the toggles that cut
    /// its links with `other` and make those with `group`.
    fn push_regroup(&self, out: &mut Vec<Toggle>, group: &Vec<usize>, other: &Vec<usize>)
        requires
            self.wf(),
            forall|k: int| 0 <= k < group@.len() ==> #[trigger] group@[k] < self.n,
            forall|k: int| 0 <= k < other@.len() ==> #[trigger] other@[k] < self.n,
        ensures
            toggle_views(final(out)@) == toggle_views(old(out)@) + regroup(self.names(), group@, other@),
    {
        let ghost names = self.names();
        let ghost start = toggle_views(out@);
        let ghost parts = group@.map_values(
            |i: usize| links(names, i as int, other@, false) + links(names, i as int, group@, true),
        );
        let mut k: usize = 0;
        while k < group.len()
            invariant
                self.wf(),
                names == self.names(),
                forall|m: int| 0 <= m < group@.len() ==> #[trigger] group@[m] < self.n,
                forall|m: int| 0 <= m < other@.len() ==> #[trigger] other@[m] < self.n,
                k <= group@.len(),
                parts == group@.map_values(
                    |i: usize| links(names, i as int, other@, false) + links(names, i as int, group@, true),
                ),
                toggle_views(out@) == start + parts.take(k as int).flatten_alt(),
            decreases group@.len() - k,
        {
            let i = group[k];
            self.push_links(out, i, other, false);
            self.push_links(out, i, group, true);
            proof {
                assert(parts.take(k + 1).drop_last() =~= parts.take(k as int));
                assert(parts.take(k + 1).last() == parts[k as int]);
                assert(toggle_views(out@) =~= start + parts.take(k + 1).flatten_alt());
            }
            k += 1;
        }
        assert(parts.take(k as int) =~= parts);
    }

    /// Registers a clerk named `ck_name` with its ends to each server, and
    /// links it with the servers `to`: the toggles that switch those ends on.
    pub fn add_client(&mut self, ck_name: String, ends: Vec<String>, to: &Vec<usize>) -> (r: Vec<Toggle>)
        requires
            forall|k: int| 0 <= k < to@.len() ==> #[trigger] to@[k] < ends@.len(),
        ensures
            final(self).clerk_ends() == old(self).clerk_ends().insert(ck_name@, ends@.map_values(|s: String| s@)),
            toggle_views(r@) == to@.map_values(|j: usize| (ends@[j as int]@, true)),
            final(self).names() == old(self).names(),
            final(self).persisted() == old(self).persisted(),
            final(self).size() == old(self).size(),
            final(self).op_count() == old(self).op_count(),
            final(self).wf() == old(self).wf(),
    {
        let ghost ends_view = ends@.map_values(|s: String| s@);
        let name = ck_name.clone();
        self.clerks.insert(ck_name, ends);
        assert(self.clerk_ends() =~= old(self).clerk_ends().insert(name@, ends_view));
        self.connect_client_by_name(name.as_str(), to)
    }

    /// Forgets the clerk `ck`.
    pub fn delete_client<C>(&mut self, ck: &Clerk<C>)
        ensures
            final(self).clerk_ends() == old(self).clerk_ends().remove(ck.name@),
            final(self).names() == old(self).names(),
            final(self).persisted() == old(self).persisted(),
            final(self).size() == old(self).size(),
            final(self).op_count() == old(self).op_count(),
            final(self).wf() == old(self).wf(),
    {
        self.clerks.remove(ck.name.as_str());
        assert(self.clerk_ends() =~= old(self).clerk_ends().remove(ck.name@));
    }

    /// Links the clerk `ck` with the servers `to`.
    pub fn connect_client<C>(&self, ck: &Clerk<C>, to: &Vec<usize>) -> (r: Vec<Toggle>)
        requires
            self.clerk_ends().contains_key(ck.name@),
            forall|k: int| 0 <= k < to@.len() ==> #[trigger] to@[k] < self.clerk_ends()[ck.name@].len(),
        ensures
            toggle_views(r@) == to@.map_values(|j: usize| (self.clerk_ends()[ck.name@][j as int], true)),
    {
        self.connect_client_by_name(ck.name.as_str(), to)
    }

    /// Links the clerk named `ck_name` with the servers `to`: the toggles
    /// that switch its ends to them on.
    pub fn connect_client_by_name(&self, ck_name: &str, to: &Vec<usize>) -> (r: Vec<Toggle>)
        requires
            self.clerk_ends().contains_key(ck_name@),
            forall|k: int| 0 <= k < to@.len() ==> #[trigger] to@[k] < self.clerk_ends()[ck_name@].len(),
        ensures
            toggle_views(r@) == to@.map_values(|j: usize| (self.clerk_ends()[ck_name@][j as int], true)),
    {
        let endnames = match self.clerks.get(ck_name) {
            Some(e) => e,
            None => vstd::pervasive::unreached(),
        };
        let ghost ends = self.clerk_ends()[ck_name@];
        assert(ends == endnames@.map_values(|s: String| s@));
        let ghost want = to@.map_values(|j: usize| (ends[j as int], true));
        let mut r: Vec<Toggle> = Vec::new();
        let mut k: usize = 0;
        while k < to.len()
            invariant
                ends == endnames@.map_values(|s: String| s@),
                forall|m: int| 0 <= m < to@.len() ==> #[trigger] to@[m] < ends.len(),
                want == to@.map_values(|j: usize| (ends[j as int], true)),
                k <= to@.len(),
                toggle_views(r@) == want.take(k as int),
            decreases to@.len() - k,
        {
            let j = to[k];
            let name = endnames[j].clone();
            let ghost before = r@;
            r.push((name, true));
            proof {
                assert(toggle_views(r@) =~= toggle_views(before).push((ends[j as int], true)));
                assert(want.take(k + 1) =~= want.take(k as int).push(want[k as int]));
            }
            k += 1;
        }
        assert(want.take(k as int) =~= want);
        r
    }

    /// Shuts server `i` down by cutting it off from every server: the
    /// toggles that switch its links off. It gets a fresh persister holding
    /// what the old one held, so that a server still running cannot
    /// overwrite what the next one starts from.
    pub fn shutdown_server(&mut self, i: usize) -> (r: Vec<Toggle>)
        requires
            old(self).wf(),
            i < old(self).size(),
        ensures
            final(self).wf(),
            toggle_views(r@) == links(old(self).names(), i as int, all_servers(old(self).size() as nat), false),
            final(self).names() == old(self).names(),
            final(self).persisted() == old(self).persisted(),
            final(self).clerk_ends() == old(self).clerk_ends(),
            final(self).size() == old(self).size(),
            final(self).op_count() == old(self).op_count(),
    {
        let all = self.all();
        let mut r: Vec<Toggle> = Vec::new();
        self.push_links(&mut r, i, &all, false);
        self.renew_persister(i);
        r
    }

    /// Gives server `i` a fresh persister holding what the old one held.
    fn renew_persister(&mut self, i: usize)
        requires
            old(self).wf(),
            i < old(self).n,
        ensures
            final(self).wf(),
            final(self).names() == old(self).names(),
            final(self).persisted() == old(self).persisted(),
            final(self).clerks == old(self).clerks,
            final(self).n == old(self).n,
            final(self).ops == old(self).ops,
            final(self).endnames == old(self).endnames,
    {
        let mut p = SimplePersister::new();
        p.save_state_and_snapshot(self.saved[i].raft_state(), self.saved[i].snapshot());
        self.saved.set(i, p);
        assert(self.persisted() =~= old(self).persisted());
    }

    /// Starts server `i` again with `ends`, fresh names for its ends to each
    /// server, and a fresh persister holding what the old one held. The
    /// names must be fresh: not empty, none twice, and none that another
    /// server's end has, so that the ends stay distinct.
    pub fn start_server(&mut self, i: usize, ends: Vec<String>)
        requires
            old(self).wf(),
            i < old(self).size(),
            ends@.len() == old(self).size(),
            forall|j: int| 0 <= j < ends@.len() ==> (#[trigger] ends@[j])@.len() > 0,
            forall|j: int, j2: int| 0 <= j < ends@.len() && 0 <= j2 < ends@.len() && j != j2 ==> (#[trigger] ends@[j])@ != (#[trigger] ends@[j2])@,
            forall|k: int, j: int, j2: int| 0 <= k < old(self).size() && k != i && 0 <= j < old(self).size() && 0 <= j2 < ends@.len()
                ==> #[trigger] old(self).names()[k][j] != (#[trigger] ends@[j2])@,
        ensures
            final(self).wf(),
            distinct_names(old(self).names()) ==> distinct_names(final(self).names()),
            final(self).names() == old(self).names().update(i as int, ends@.map_values(|s: String| s@)),
            final(self).persisted() == old(self).persisted(),
            final(self).clerk_ends() == old(self).clerk_ends(),
            final(self).size() == old(self).size(),
            final(self).op_count() == old(self).op_count(),
    {
        let ghost view = ends@.map_values(|s: String| s@);
        let ghost old_names = old(self).names();
        proof {
            assert(forall|k: int| 0 <= k < old_names.len() ==> (#[trigger] old_names[k]).len() == old(self).size());
        }
        self.endnames.set(i, ends);
        assert(self.names() =~= old(self).names().update(i as int, view));
        self.renew_persister(i);
        proof {
            let nn = self.names();
            if distinct_names(old_names) {
                assert forall|a: int, b: int, a2: int, b2: int|
                    0 <= a < nn.len() && 0 <= b < nn[a].len() && 0 <= a2 < nn.len() && 0 <= b2 < nn[a2].len()
                        && (a != a2 || b != b2) && #[trigger] nn[a][b].len() > 0 implies nn[a][b] != #[trigger] nn[a2][b2] by {
                    if a == i && a2 == i {
                        assert(nn[a][b] == view[b] && nn[a2][b2] == view[b2]);
                    } else if a == i {
                        assert(nn[a][b] == ends@[b]@);
                        assert(old_names[a2][b2] != ends@[b]@);
                    } else if a2 == i {
                        assert(nn[a2][b2] == ends@[b2]@);
                        assert(old_names[a][b] != ends@[b2]@);
                    } else {
                        assert(nn[a][b] == old_names[a][b] && nn[a2][b2] == old_names[a2][b2]);
                    }
                }
            }
        }
    }

    /// The first server that believes it leads, given whether each does.
    pub fn leader(&self, is_leader: &Vec<bool>) -> (r: Result<usize, Error>)
        ensures
            r matches Ok(i) ==> first_leader(is_leader@, i as int),
            r is Err ==> forall|j: int| 0 <= j < is_leader@.len() ==> !is_leader@[j],
    {
        let mut i: usize = 0;
        while i < is_leader.len()
            invariant
                i <= is_leader@.len(),
                forall|j: int| 0 <= j < i ==> !is_leader@[j],
            decreases is_leader@.len() - i,
        {
            if is_leader[i] {
                return Ok(i);
            }
            i += 1;
        }
        Err(Error::NoLeader)
    }

    /// Splits the servers into a majority and a minority that holds the
    /// current leader (server `0` when none leads): the servers other than
    /// it fill the majority in order, up to `n / 2 + 1` of them, the rest go
    /// to the minority, and the leader comes last.
    pub fn make_partition(&self, is_leader: &Vec<bool>) -> (r: (Vec<usize>, Vec<usize>))
        requires
            is_leader@.len() == self.size(),
        ensures
            ({
                let l = match self.leader_spec(is_leader@) {
                    Some(i) => i,
                    None => 0,
                };
                (r.0@, r.1@) == partition_of(self.size() as nat, l)
            }),
    {
        let l = match self.leader(is_leader) {
            Ok(i) => i,
            Err(_) => 0,
        };
        proof {
            match self.leader_spec(is_leader@) {
                Some(i) => {
                    assert(first_leader(is_leader@, l as int));
                    assert(i == l) by {
                        if i < l {
                            assert(!is_leader@[i]);
                        } else if l < i {
                            assert(!is_leader@[l as int]);
                        }
                    }
                },
                None => {
                    assert(forall|j: int| 0 <= j < is_leader@.len() ==> !is_leader@[j]);
                },
            }
        }
        let cap = self.n / 2 + 1;
        let mut p1: Vec<usize> = Vec::new();
        let mut p2: Vec<usize> = Vec::new();
        let mut i: usize = 0;
        while i < self.n
            invariant
                i <= self.n,
                cap == self.n / 2 + 1,
                l < self.n || self.n == 0,
                ({
                    let cnt = if l < i { i - 1 } else { i as int };
                    let c = if cnt < cap { cnt } else { cap as int };
                    &&& p1@ == Seq::new(c as nat, |k: int| nth_other(l as int, k) as usize)
                    &&& p2@ == Seq::new((cnt - c) as nat, |k: int| nth_other(l as int, k + cap) as usize)
                }),
            decreases self.n - i,
        {
            if i != l {
                if p1.len() < cap {
                    p1.push(i);
                } else {
                    p2.push(i);
                }
            }
            i += 1;
            proof {
                let cnt = if l < i { i - 1 } else { i as int };
                let c = if cnt < cap { cnt } else { cap as int };
                assert(p1@ =~= Seq::new(c as nat, |k: int| nth_other(l as int, k) as usize));
                assert(p2@ =~= Seq::new((cnt - c) as nat, |k: int| nth_other(l as int, k + cap) as usize));
            }
        }
        p2.push(l);
        proof {
            let (q1, q2) = partition_of(self.n as nat, l as int);
            assert(p1@ =~= q1);
            assert(p2@ =~= q2);
        }
        (p1, p2)
    }

    /// The first server that believes it leads, if any.
    pub open spec fn leader_spec(&self, is_leader: Seq<bool>) -> Option<int> {
        if exists|i: int| first_leader(is_leader, i) {
            Some(choose|i: int| first_leader(is_leader, i))
        } else {
            None
        }
    }
}

} // verus!
