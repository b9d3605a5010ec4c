# dslabs

Verified building blocks for distributed-systems labs, written in Verus.

- `src/raft`: a Raft peer driven by ticks and messages; every step is a
  function from the peer's state and one message to its next state and reply.
- `src/replica`: a Raft peer whose log can be compacted into a snapshot, its
  persisted state, its election timer's decisions, and the laws it keeps
  (terms never go back, one vote per term, committed entries survive).
- `src/kv`: a key/value service on top of it: the commands, a state machine
  that applies each command once, clerks that follow the leader, the
  network toggles of a test cluster, and the check that concurrent appends
  all landed once and in order.
- `src/linearizability`: a checker that decides whether a history of
  operations is linearizable with respect to a sequential model. For one
  history (`check_history`) a `true` answer is proved sound, and the answer
  is proved exact for lawful models and histories of whole operations. The
  entry points that first split a history by the model's partition
  (`check_operations`, `check_events`) answer over the parts that partition
  returns: `true` means every part is linearizable, and a `false` answer is
  proved to mean that some part is not only for lawful models whose parts
  are made of whole operations (for `check_operations`, also for every
  well-timed history). The key/value model splits a history by key, and
  that split is proved unique up to the order of the parts.
- `src/labrpc.rs`: the simulated network's decision of each call's fate
  (lost request, delays, lost reply, held-back reply) from its random
  draws, what becomes of a reply once the server answered, the network's
  bookkeeping of its ends and servers, and how a server registers its
  services and routes a call by the method's full name.
- `src/codec`: the protobuf wire format of a small message, with its
  round trip proved.
- `src/game`: the rules of a number-guessing game.

`app/` holds what runs around the library: a parallel checker over the
parts of a history, the election timer's thread and channel, a test clock,
the guessing game's input loop, and the protobuf encoding of persisted state
and snapshots. It holds no driver for a Raft peer, a key/value server or a
clerk, and no simulated network: the library gives their decisions as
verified step functions, and running them is left to the caller.
