use vstd::prelude::*;

use super::log::{entry_views, proto_views, RaftLogWithSnapShot, SnapshotFile};
use super::peer::{
    matched_by, recorded_reply,
    agrees, checked_term, committed_to, reaches_commit, restored_from, snapshot_of, status_of, diverges_at, entries_acceptable, judged_as, kept, proto_terms,
    took_entries, vote_granted, Effects, FailedAppendEntries, Raft,
};
use super::rpc::{AppendEntriesArgs, AppendEntriesReply, PersistedStatus, ProtoEntry, RequestVoteArgs, Snapshot};
use crate::buffers::byte_views;

verus! {

/// Once a peer in term `t` has voted for one candidate, no other candidate
/// gets its vote in `t`: `mid` is the peer after granting `first`, and a
/// request `second` of the same term is granted only to the same candidate.
pub proof fn law_one_vote_per_term(old: Raft, mid: Raft, first: RequestVoteArgs, second: RequestVoteArgs)
    requires
        vote_granted(old, first),
        first.candidate_id <= usize::MAX,
        mid.term == first.term,
        mid.voted_for == Some(first.candidate_id as usize),
        second.term == first.term,
        vote_granted(mid, second),
    ensures
        second.candidate_id == first.candidate_id,
{
}

/// A peer never goes back to an older term: whatever message it handles,
/// its term afterwards is at least its term before and the message's.
pub proof fn law_terms_never_decrease(old: Raft, new: Raft, term: u64)
    requires
        checked_term(old, new, term),
    ensures
        new.term >= old.term,
        new.term >= term,
{
}

/// A leader commits only an entry of its own term, and only forward.
pub proof fn law_leader_commits_own_term(old: Raft, new: Raft, e: Effects, q: u64)
    requires
        committed_to(old, new, e, q),
    ensures
        new.commit_index >= old.commit_index,
        new.commit_index != old.commit_index ==> old.log.term_of(new.commit_index as int) == old.term,
{
}

/// Where an entry after the snapshot sits, its term is the term of its view.
proof fn lemma_term_of_entry(log: RaftLogWithSnapShot, n: int)
    requires
        log.holds(n),
    ensures
        log.term_of(n) == log.entries()[log.pos(n)].0,
{
}

/// An entry that agrees with a term of at least 1 and that the snapshot
/// does not cover is in the log.
proof fn lemma_agreeing_entry_held(log: RaftLogWithSnapShot, n: int, term: u64)
    requires
        !log.covers(n),
        log.term_of(n) == term,
        term >= 1,
    ensures
        log.holds(n),
{
}

/// What a follower keeps of its log is a prefix of it, as long as the
/// position of the first new entry.
proof fn lemma_kept_prefix(old: RaftLogWithSnapShot, base: int, entries: Seq<ProtoEntry>, nb: int)
    requires
        old.wf(),
        !old.covers(base),
        base <= old.log_len() + 1,
        0 <= nb <= entries.len(),
        agrees(old, base, proto_terms(entries), nb),
        nb == entries.len() || diverges_at(old, base, proto_terms(entries), nb),
        forall|j: int| 0 <= j < entries.len() ==> (#[trigger] entries[j]).term >= 1,
    ensures
        kept(old, base, proto_terms(entries), nb).len() == (if nb == entries.len() {
            old.commands@.len() as int
        } else {
            old.pos(base + nb)
        }),
        kept(old, base, proto_terms(entries), nb) == old.commands@.take(kept(old, base, proto_terms(entries), nb).len() as int),
        forall|n: int| base <= n < base + nb ==> #[trigger] old.holds(n),
{
    let terms = proto_terms(entries);
    assert forall|n: int| base <= n < base + nb implies #[trigger] old.holds(n) by {
        let j = n - base;
        assert(old.term_of(base + j) == terms[j]);
        assert(terms[j] == entries[j].term);
        lemma_agreeing_entry_held(old, base + j, terms[j]);
    }
    if nb < entries.len() && !old.holds(base + nb) {
        if nb > 0 {
            assert(old.holds(base + nb - 1));
        }
    }
    assert(old.commands@.take(old.commands@.len() as int) =~= old.commands@);
}

/// Entry `j` of `entries`, placed from entry `base` on, is in `log` with its
/// term.
pub open spec fn in_place(log: RaftLogWithSnapShot, base: int, entries: Seq<ProtoEntry>, j: int) -> bool {
    log.holds(base + j) && log.term_of(base + j) == entries[j].term
}

/// Log matching: once a follower took a leader's entries, to stand from
/// entry `base` on, its log holds each of them at its place, and every entry
/// before `base` is as it was. Entries carry terms of at least 1, and the
/// entry before `base` is in the follower's log, after its snapshot.
pub proof fn law_accepted_entries_in_place(
    old: RaftLogWithSnapShot,
    new: RaftLogWithSnapShot,
    base: int,
    entries: Seq<ProtoEntry>,
    changed: bool,
)
    requires
        old.wf(),
        new.last_included_index == old.last_included_index,
        new.last_included_term == old.last_included_term,
        took_entries(old, new, base, entries, changed),
        !old.covers(base),
        base <= old.log_len() + 1,
        forall|j: int| 0 <= j < entries.len() ==> (#[trigger] entries[j]).term >= 1,
    ensures
        forall|j: int| 0 <= j < entries.len() ==> #[trigger] in_place(new, base, entries, j),
        forall|n: int| n < base ==> new.term_of(n) == old.term_of(n),
{
    let terms = proto_terms(entries);
    let nb = choose|nb: int| {
        &&& 0 <= nb <= entries.len()
        &&& agrees(old, base, terms, nb)
        &&& (nb == entries.len() || diverges_at(old, base, terms, nb))
        &&& new.entries() == entry_views(kept(old, base, terms, nb)) + proto_views(entries).skip(nb)
        &&& changed == (nb < entries.len())
    };
    lemma_kept_prefix(old, base, entries, nb);
    let k = kept(old, base, terms, nb);
    let klen = k.len() as int;
    assert(new.entries().len() == new.commands@.len());
    assert forall|j: int| 0 <= j < entries.len() implies #[trigger] in_place(new, base, entries, j) by {
        let n = base + j;
        let p = new.pos(n);
        assert(p == old.pos(n));
        if j < nb {
            assert(old.holds(n));
            assert(p < klen);
            assert(new.entries()[p] == entry_views(k)[p]);
            assert(k[p] == old.commands@[p]);
            assert(old.term_of(n) == terms[j]);
            lemma_term_of_entry(old, n);
            lemma_term_of_entry(new, n);
        } else {
            assert(p == klen + (j - nb));
            assert(new.entries()[p] == proto_views(entries).skip(nb)[j - nb]);
            assert(proto_views(entries).skip(nb)[j - nb] == proto_views(entries)[j]);
            lemma_term_of_entry(new, n);
        }
    }
    assert forall|n: int| n < base implies new.term_of(n) == old.term_of(n) by {
        if !old.covers(n) {
            if old.holds(n) {
                assert(old.pos(n) < klen);
                assert(new.entries()[new.pos(n)] == entry_views(k)[new.pos(n)]);
                assert(k[old.pos(n)] == old.commands@[old.pos(n)]);
                lemma_term_of_entry(old, n);
                lemma_term_of_entry(new, n);
            }
        }
    }
}

/// What a follower commits is never lost: when it took a leader's entries
/// that contradict none of its committed entries, every committed entry
/// after its snapshot is still in its log, as it was.
pub proof fn law_committed_entries_survive(
    old: Raft,
    new_log: RaftLogWithSnapShot,
    base: int,
    entries: Seq<ProtoEntry>,
    changed: bool,
)
    requires
        old.wf(),
        new_log.last_included_index == old.log.last_included_index,
        took_entries(old.log, new_log, base, entries, changed),
        forall|k: int| #[trigger] diverges_at(old.log, base, proto_terms(entries), k) ==> base + k > old.commit_index,
    ensures
        new_log.log_len() >= old.commit_index,
        forall|n: int| old.log.last_included_index < n <= old.commit_index ==> new_log.holds(n)
            && #[trigger] new_log.entries()[new_log.pos(n)] == old.log.entries()[old.log.pos(n)],
{
    let terms = proto_terms(entries);
    let nb = choose|nb: int| {
        &&& 0 <= nb <= entries.len()
        &&& agrees(old.log, base, terms, nb)
        &&& (nb == entries.len() || diverges_at(old.log, base, terms, nb))
        &&& new_log.entries() == entry_views(kept(old.log, base, terms, nb)) + proto_views(entries).skip(nb)
        &&& changed == (nb < entries.len())
    };
    let k = kept(old.log, base, terms, nb);
    let c = old.commit_index as int;
    if nb < entries.len() {
        assert(base + nb > c);
    }
    assert(k.len() >= old.log.pos(c + 1));
    assert(new_log.entries().len() == new_log.commands@.len());
    assert forall|n: int| old.log.last_included_index < n <= old.commit_index implies new_log.holds(n)
        && #[trigger] new_log.entries()[new_log.pos(n)] == old.log.entries()[old.log.pos(n)] by {
        assert(new_log.entries()[new_log.pos(n)] == entry_views(k)[new_log.pos(n)]);
    }
}

/// A success reply never lowers a follower's match index, whatever order
/// replies arrive in: afterwards it is the larger of the old match index and
/// the last entry the request carried, the next index stands just past it,
/// and no other follower's indices move.
pub proof fn law_match_index_never_decreases(
    old: Raft,
    new: Raft,
    e: Effects,
    request: AppendEntriesArgs,
    response: AppendEntriesReply,
    f: int,
)
    requires
        recorded_reply(old, new, e, request, response, f),
        old.term == request.term,
        response.success,
        0 <= f < old.matches().len(),
        old.nexts().len() == old.matches().len(),
        matched_by(request) < u64::MAX,
        old.matches()[f] < u64::MAX,
    ensures
        new.matches()[f] >= old.matches()[f],
        new.matches()[f] >= request.prev_log_index + request.entries@.len(),
        new.matches()[f] == old.matches()[f] || new.matches()[f] == request.prev_log_index + request.entries@.len(),
        new.nexts()[f] == new.matches()[f] + 1,
        forall|g: int| 0 <= g < old.matches().len() && g != f ==> new.matches()[g] == old.matches()[g] && new.nexts()[g]
            == old.nexts()[g],
{
}

/// Restoring a peer from what another peer keeps in stable storage gives
/// back that peer's term, vote, snapshot and log.
pub proof fn law_restore_after_persist(raft: Raft, st: PersistedStatus, ss: Snapshot, restored: Raft)
    requires
        status_of(raft, st),
        snapshot_of(raft, ss),
        restored_from(st, ss, restored),
    ensures
        restored.term == raft.term,
        restored.voted_for == raft.voted_for,
        restored.log.last_included_index == raft.log.last_included_index,
        restored.log.last_included_term == raft.log.last_included_term,
        byte_views(restored.log.state_machine_state.commands@) == byte_views(raft.log.state_machine_state.commands@),
        restored.log.entries() == raft.log.entries(),
{
    match raft.voted_for {
        Some(v) => {
            assert(st.voted_for@[0] == v as u64);
            assert((v as u64) as usize == v);
        },
        None => {},
    }
}

/// A follower's commit index never goes back, whatever replication request
/// it judges, as long as the request leaves its log reaching the commit
/// index, as a leader that never contradicts a committed entry ensures.
pub proof fn law_follower_commit_never_decreases(
    old: Raft,
    new: Raft,
    args: AppendEntriesArgs,
    judged: Result<(), FailedAppendEntries>,
    e: Effects,
)
    requires
        old.wf(),
        entries_acceptable(old, args),
        reaches_commit(old, args),
        judged_as(old, new, args, judged, e),
    ensures
        new.commit_index >= old.commit_index,
{
    if args.term >= old.term && old.log.term_of(args.prev_log_index as int) == args.prev_log_term {
        let changed = choose|changed: bool| {
            &&& #[trigger] took_entries(old.log, new.log, args.prev_log_index + 1, args.entries@, changed)
            &&& e.persist == (args.term > old.term || changed)
        };
        let base = args.prev_log_index + 1;
        let terms = proto_terms(args.entries@);
        let nb = choose|nb: int| {
            &&& 0 <= nb <= args.entries@.len()
            &&& agrees(old.log, base, terms, nb)
            &&& (nb == args.entries@.len() || diverges_at(old.log, base, terms, nb))
            &&& new.log.entries() == entry_views(kept(old.log, base, terms, nb)) + proto_views(args.entries@).skip(nb)
            &&& changed == (nb < args.entries@.len())
        };
        assert(new.log.entries().len() == new.log.commands@.len());
        if nb < args.entries@.len() && old.log.holds(base + nb) {
            assert(diverges_at(old.log, base, terms, nb));
        }
        assert(new.log.log_len() >= old.commit_index);
    }
}

/// Compacting a log into a snapshot up to entry `n` keeps its length and
/// the term of every entry from `n` on, and the entries after `n`.
pub proof fn law_snapshot_keeps_later_terms(
    old: RaftLogWithSnapShot,
    new: RaftLogWithSnapShot,
    n: int,
    state: SnapshotFile,
)
    requires
        !old.covers(n),
        n <= old.log_len(),
        old.compacted(n, state, new),
    ensures
        new.log_len() == old.log_len(),
        forall|m: int| n <= m <= old.log_len() ==> #[trigger] new.term_of(m) == old.term_of(m),
        new.entries() == old.entries().skip(old.pos(n) + 1),
{
    assert forall|m: int| n <= m <= old.log_len() implies #[trigger] new.term_of(m) == old.term_of(m) by {
        if m > n {
            assert(new.commands@[new.pos(m)] == old.commands@[old.pos(m)]);
        }
    }
    assert(new.entries() =~= old.entries().skip(old.pos(n) + 1));
}

} // verus!
