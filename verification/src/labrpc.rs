//! The simulated network of the labs: the fate of a call (whether the
//! request arrives, after what delay, and whether the reply comes back), and
//! how a server finds the service that a call names, and the network's
//! bookkeeping of its ends and servers.

use vstd::prelude::*;
use vstd::hash_map::StringHashMap;
use vstd::string::StringExecFns;

use crate::raft::random::{random_in_range, random_u64};

verus! {

/// What the network does with one call.
#[derive(Debug, Clone, Copy, PartialEq, Eq)]
pub enum RpcFate {
    /// The request is lost: the caller times out after `timeout_after`
    /// milliseconds.
    DropRequest { timeout_after: u64 },
    /// The caller is cut off, or no server stands at the other end: the
    /// caller times out after `timeout_after` milliseconds.
    NoServer { timeout_after: u64 },
    /// The request reaches the server after `delay` milliseconds, if any;
    /// the reply is then lost if `drop_reply` (the caller times out), and
    /// otherwise held back `reorder` milliseconds, if any.
    Deliver { delay: Option<u64>, drop_reply: bool, reorder: Option<u64> },
}

/// The random values that decide a call's fate.
#[derive(Debug, Clone, Copy)]
pub struct RpcDraws {
    /// Any value; its remainder by 27 is the short delay.
    pub short: u64,
    /// Any value; the request is lost when its remainder by 1000 is below 100.
    pub drop_request: u64,
    /// Any value; the reply is lost when its remainder by 1000 is below 100.
    pub drop_reply: u64,
    /// Below 900; the reply is held back when it is below 600.
    pub reorder: i32,
    /// Below 2000: one less than the bound of `long`.
    pub bound: u64,
    /// At most `bound`; the reply is held back `200 + long` milliseconds.
    pub long: u64,
    /// Any value; its remainder by 7000, or by 100, is the delay before a
    /// caller without a server times out.
    pub dead: u64,
}

impl RpcDraws {
    /// Whether each value lies in the range it is drawn from.
    pub open spec fn valid(&self) -> bool {
        &&& 0 <= self.reorder < 900
        &&& self.bound < 2000
        &&& self.long <= self.bound
    }
}

/// The fate of a call, as the network decides it from the state of the
/// caller's end (`enabled`, and whether a server is connected to it), the
/// network's settings, and the draws.
pub open spec fn fate_of(
    enabled: bool,
    has_server: bool,
    reliable: bool,
    long_reordering: bool,
    long_delays: bool,
    d: RpcDraws,
) -> RpcFate {
    if enabled && has_server {
        if !reliable && d.drop_request % 1000 < 100 {
            RpcFate::DropRequest { timeout_after: d.short % 27 }
        } else {
            RpcFate::Deliver {
                delay: if !reliable { Some(d.short % 27) } else { None },
                drop_reply: !reliable && d.drop_reply % 1000 < 100,
                reorder: if long_reordering && d.reorder < 600 { Some((200 + d.long) as u64) } else { None },
            }
        }
    } else if long_delays {
        RpcFate::NoServer { timeout_after: d.dead % 7000 }
    } else {
        RpcFate::NoServer { timeout_after: d.dead % 100 }
    }
}

/// Decides the fate of a call from the draws: an unreliable network loses a
/// tenth of the requests and a tenth of the replies and delays each request
/// by up to 26 milliseconds; long reordering holds back two thirds of the
/// replies by 200 milliseconds or more; a call with no server times out.
pub fn rpc_fate(
    enabled: bool,
    has_server: bool,
    reliable: bool,
    long_reordering: bool,
    long_delays: bool,
    draws: RpcDraws,
) -> (f: RpcFate)
    requires
        draws.valid(),
    ensures
        f == fate_of(enabled, has_server, reliable, long_reordering, long_delays, draws),
{
    if enabled && has_server {
        let short_delay = if !reliable { Some(draws.short % 27) } else { None };
        if !reliable && draws.drop_request % 1000 < 100 {
            return RpcFate::DropRequest { timeout_after: draws.short % 27 };
        }
        let drop_reply = !reliable && draws.drop_reply % 1000 < 100;
        let reorder = if long_reordering && draws.reorder < 600 { Some(200 + draws.long) } else { None };
        RpcFate::Deliver { delay: short_delay, drop_reply, reorder }
    } else if long_delays {
        RpcFate::NoServer { timeout_after: draws.dead % 7000 }
    } else {
        RpcFate::NoServer { timeout_after: draws.dead % 100 }
    }
}

/// How the network treats a delivered call. Its reply is held back only
/// under long reordering, by `200 + long` milliseconds, and always when the
/// reorder draw is below 600; whether the network is reliable changes only
/// the request's delay and whether the reply is lost, never the holding
/// back. A reliable network loses nothing and delays no request.
pub proof fn law_delivered_reply_fate(
    enabled: bool,
    has_server: bool,
    reliable: bool,
    long_reordering: bool,
    long_delays: bool,
    d: RpcDraws,
)
    requires
        d.valid(),
        enabled && has_server,
    ensures
        fate_of(enabled, has_server, reliable, long_reordering, long_delays, d) matches RpcFate::Deliver { reorder, .. } ==> {
            &&& reorder matches Some(x) ==> long_reordering && x == 200 + d.long && 200 <= x < 2200
            &&& long_reordering && d.reorder < 600 ==> reorder == Some((200 + d.long) as u64)
            &&& !long_reordering || d.reorder >= 600 ==> reorder is None
        },
        fate_of(enabled, has_server, true, long_reordering, long_delays, d) == (RpcFate::Deliver {
            delay: None,
            drop_reply: false,
            reorder: if long_reordering && d.reorder < 600 { Some((200 + d.long) as u64) } else { None },
        }),
        !reliable && d.drop_request % 1000 >= 100 ==> (fate_of(enabled, has_server, false, long_reordering, long_delays, d) matches RpcFate::Deliver { reorder, .. }
            && reorder == fate_of(enabled, has_server, true, long_reordering, long_delays, d)->Deliver_reorder),
{
}

/// Which calls are lost, and how long the waits are: only an unreliable
/// network loses a request, when its draw is below 100 of 1000, or a reply,
/// likewise; a request is delayed less than 27 milliseconds, and only on an
/// unreliable network; a call with its end cut off or no server times out,
/// within 7000 milliseconds under long delays and within 100 otherwise.
pub proof fn law_rpc_losses_and_waits(
    enabled: bool,
    has_server: bool,
    reliable: bool,
    long_reordering: bool,
    long_delays: bool,
    d: RpcDraws,
)
    requires
        d.valid(),
    ensures
        ({
            let f = fate_of(enabled, has_server, reliable, long_reordering, long_delays, d);
            &&& (f is NoServer) == !(enabled && has_server)
            &&& f matches RpcFate::NoServer { timeout_after } ==> timeout_after < (if long_delays { 7000u64 } else { 100u64 })
            &&& (f is DropRequest) == (enabled && has_server && !reliable && d.drop_request % 1000 < 100)
            &&& f matches RpcFate::DropRequest { timeout_after } ==> timeout_after < 27
            &&& f matches RpcFate::Deliver { delay, drop_reply, .. } ==> {
                &&& delay is Some <==> !reliable
                &&& delay matches Some(x) ==> x < 27
                &&& drop_reply == (!reliable && d.drop_reply % 1000 < 100)
            }
        }),
{
}

/// Draws the random values for a call and decides its fate: the fate is
/// that of some valid draws.
pub fn draw_rpc_fate(enabled: bool, has_server: bool, reliable: bool, long_reordering: bool, long_delays: bool) -> (f: RpcFate)
    ensures
        exists|d: RpcDraws| d.valid() && f == fate_of(enabled, has_server, reliable, long_reordering, long_delays, d),
{
    let reorder = random_in_range(0, 900) as i32;
    let bound = random_in_range(0, 2000) as u64;
    let long = random_in_range(0, bound as usize + 1) as u64;
    let draws = RpcDraws {
        short: random_u64(),
        drop_request: random_u64(),
        drop_reply: random_u64(),
        reorder,
        bound,
        long,
        dead: random_u64(),
    };
    let f = rpc_fate(enabled, has_server, reliable, long_reordering, long_delays, draws);
    assert(draws.valid() && f == fate_of(enabled, has_server, reliable, long_reordering, long_delays, draws));
    f
}

/// Where the segment of `s` that starts at `from` ends: at the first '.'
/// from there on, or at the end of `s`.
pub open spec fn seg_end(s: Seq<char>, from: int) -> int
    decreases s.len() - from,
{
    if from >= s.len() || s[from] == '.' {
        from
    } else {
        seg_end(s, from + 1)
    }
}

/// The name of the service and of the method in the full name `s` of a
/// method: the text before the first '.', and the text between it and the
/// next '.' or the end. A name without a '.' names no method.
pub open spec fn name_parts(s: Seq<char>) -> Option<(Seq<char>, Seq<char>)> {
    let i = seg_end(s, 0);
    if i >= s.len() {
        None
    } else {
        Some((s.take(i), s.subrange(i + 1, seg_end(s, i + 1))))
    }
}

/// The end of the segment of `s` that starts at `from`.
fn find_segment_end(s: &str, from: usize) -> (i: usize)
    requires
        from <= s@.len(),
    ensures
        i == seg_end(s@, from as int),
        from <= i <= s@.len(),
{
    let n = s.unicode_len();
    let mut i = from;
    while i < n && s.get_char(i) != '.'
        invariant
            n == s@.len(),
            from <= i <= n,
            seg_end(s@, from as int) == seg_end(s@, i as int),
        decreases n - i,
    {
        i = i + 1;
    }
    i
}

/// Splits the full name of a method, such as `"raft.append_entries"`, into
/// the name of its service and that of the method.
pub fn split_name(fq_name: &str) -> (r: Option<(String, String)>)
    ensures
        r is None <==> name_parts(fq_name@) is None,
        r matches Some((service, method)) ==> name_parts(fq_name@) == Some((service@, method@)),
{
    let i = find_segment_end(fq_name, 0);
    if i == fq_name.unicode_len() {
        return None;
    }
    let j = find_segment_end(fq_name, i + 1);
    let service = fq_name.substring_char(0, i).to_owned();
    let method = fq_name.substring_char(i + 1, j).to_owned();
    proof {
        assert(service@ =~= fq_name@.take(i as int));
    }
    Some((service, method))
}

/// The services of a server, by name, each with what serves its calls; no
/// name comes twice.
pub struct ServiceTable<F> {
    entries: Vec<(String, F)>,
}

impl<F> ServiceTable<F> {
    /// The names of the services, in the order they were added.
    pub closed spec fn names(&self) -> Seq<Seq<char>> {
        self.entries@.map_values(|e: (String, F)| e.0@)
    }

    /// What serves the calls of each service, in the same order.
    pub closed spec fn factories(&self) -> Seq<F> {
        self.entries@.map_values(|e: (String, F)| e.1)
    }

    /// No name comes twice.
    pub open spec fn wf(&self) -> bool {
        self.names().no_duplicates() && self.factories().len() == self.names().len()
    }

    /// A table of no services.
    pub fn new() -> (t: Self)
        ensures
            t.wf(),
            t.names() == Seq::<Seq<char>>::empty(),
    {
        let t = ServiceTable { entries: Vec::new() };
        assert(t.names() =~= Seq::<Seq<char>>::empty());
        t
    }

    /// Registers a service under `service_name`; a name that is already
    /// registered is refused, and the table stays as it was.
    pub fn add_service(&mut self, service_name: &str, factory: F) -> (r: Result<(), String>)
        requires
            old(self).wf(),
        ensures
            final(self).wf(),
            r is Ok <==> !old(self).names().contains(service_name@),
            r matches Err(e) ==> e@ == service_name@ + " has already registered"@ && final(self).names() == old(self).names()
                && final(self).factories() == old(self).factories(),
            r is Ok ==> final(self).names() == old(self).names().push(service_name@) && final(self).factories()
                == old(self).factories().push(factory),
    {
        let key = service_name.to_owned();
        let mut i: usize = 0;
        while i < self.entries.len()
            invariant
                *self == *old(self),
                self.wf(),
                key@ == service_name@,
                i <= self.entries@.len(),
                forall|k: int| 0 <= k < i ==> self.names()[k] != key@,
            decreases self.entries@.len() - i,
        {
            if self.entries[i].0 == key {
                assert(self.names()[i as int] == key@);
                return Err(key.concat(" has already registered"));
            }
            i = i + 1;
        }
        let ghost old_names = self.names();
        let ghost old_factories = self.factories();
        self.entries.push((key, factory));
        proof {
            assert(self.names() =~= old_names.push(service_name@));
            assert(self.factories() =~= old_factories.push(factory));
            assert forall|a: int, b: int| 0 <= a < b < self.names().len() implies self.names()[a] != self.names()[b] by {
                if b == old_names.len() {
                    assert(old_names[a] != key@);
                }
            }
        }
        Ok(())
    }

    /// The position of the service named `service_name`, if one is
    /// registered.
    pub fn find(&self, service_name: &str) -> (r: Option<usize>)
        requires
            self.wf(),
        ensures
            r is None <==> !self.names().contains(service_name@),
            r matches Some(i) ==> i < self.names().len() && self.names()[i as int] == service_name@,
    {
        let key = service_name.to_owned();
        let mut i: usize = 0;
        while i < self.entries.len()
            invariant
                key@ == service_name@,
                i <= self.entries@.len(),
                forall|k: int| 0 <= k < i ==> self.names()[k] != key@,
            decreases self.entries@.len() - i,
        {
            if self.entries[i].0 == key {
                assert(self.names()[i as int] == key@);
                return Some(i);
            }
            i = i + 1;
        }
        None
    }

    /// What serves the calls of the service at position `i`.
    pub fn factory(&self, i: usize) -> (f: &F)
        requires
            self.wf(),
            i < self.names().len(),
        ensures
            *f == self.factories()[i as int],
    {
        &self.entries[i].1
    }

    /// Where a call of `fq_name` goes: the position of its service and the
    /// name of its method. A name without a '.', or whose service is not
    /// registered, is refused as `unknown` followed by the name.
    pub fn route(&self, fq_name: &str) -> (r: Result<(usize, String), String>)
        requires
            self.wf(),
        ensures
            r matches Err(e) ==> e@ == "unknown "@ + fq_name@,
            r is Ok <==> (name_parts(fq_name@) matches Some(p) && self.names().contains(p.0)),
            r matches Ok((i, method)) ==> i < self.names().len() && name_parts(fq_name@) == Some((self.names()[i as int], method@)),
    {
        match split_name(fq_name) {
            Some((service, method)) => match self.find(service.as_str()) {
                Some(i) => Ok((i, method)),
                None => Err("unknown ".to_owned().concat(fq_name)),
            },
            None => Err("unknown ".to_owned().concat(fq_name)),
        }
    }
}

/// What the network does with a call once the server has answered it: a
/// server that died meanwhile stops the call, a dropped reply times it out,
/// and otherwise the reply comes back, held back `hold` milliseconds if any.
#[derive(Debug, Clone, Copy, PartialEq, Eq)]
pub enum ReplyFate {
    Stopped,
    TimedOut,
    Reply { hold: Option<u64> },
}

/// The fate of a reply: whether the server is dead by now, whether the
/// reply is dropped, and how long it is held back.
pub fn reply_fate(server_dead: bool, drop_reply: bool, reorder: Option<u64>) -> (f: ReplyFate)
    ensures
        f == (if server_dead {
            ReplyFate::Stopped
        } else if drop_reply {
            ReplyFate::TimedOut
        } else {
            ReplyFate::Reply { hold: reorder }
        }),
{
    if server_dead {
        ReplyFate::Stopped
    } else if drop_reply {
        ReplyFate::TimedOut
    } else {
        ReplyFate::Reply { hold: reorder }
    }
}

/// The name that an optional name holds, by view.
pub open spec fn name_view(o: Option<String>) -> Option<Seq<char>> {
    match o {
        Some(s) => Some(s@),
        None => None,
    }
}

/// The network's ends and servers: whether each end (by its client's name)
/// is enabled, which server each end is connected to, and, by name, the id
/// of each server that stands (`None` once deleted).
pub struct Endpoints {
    enabled: StringHashMap<bool>,
    servers: StringHashMap<Option<usize>>,
    connections: StringHashMap<Option<String>>,
}

impl Endpoints {
    /// Whether each end is enabled, by its name.
    pub closed spec fn enabled(&self) -> Map<Seq<char>, bool> {
        self.enabled@
    }

    /// The id of each server, by its name; `None` once deleted.
    pub closed spec fn servers(&self) -> Map<Seq<char>, Option<usize>> {
        self.servers@
    }

    /// The server each end is connected to, if any, by the end's name.
    pub closed spec fn connections(&self) -> Map<Seq<char>, Option<Seq<char>>> {
        self.connections@.map_values(|o: Option<String>| name_view(o))
    }

    /// The server that the end `client` reaches, if it is connected to a
    /// server that stands.
    pub open spec fn server_of(&self, client: Seq<char>) -> Option<usize> {
        match self.connections().get(client) {
            Some(Some(name)) => self.servers()[name],
            _ => None,
        }
    }

    /// No ends and no servers.
    pub fn new() -> (r: Endpoints)
        ensures
            r.enabled() == Map::<Seq<char>, bool>::empty(),
            r.servers() == Map::<Seq<char>, Option<usize>>::empty(),
            r.connections() == Map::<Seq<char>, Option<Seq<char>>>::empty(),
    {
        let r = Endpoints { enabled: StringHashMap::new(), servers: StringHashMap::new(), connections: StringHashMap::new() };
        assert(r.connections() =~= Map::<Seq<char>, Option<Seq<char>>>::empty());
        r
    }

    /// Adds the server `name`, with id `id`, in place of any of that name.
    pub fn add_server(&mut self, name: String, id: usize)
        ensures
            final(self).servers() == old(self).servers().insert(name@, Some(id)),
            final(self).enabled() == old(self).enabled(),
            final(self).connections() == old(self).connections(),
    {
        self.servers.insert(name, Some(id));
    }

    /// Deletes the server `name`: its ends reach no server any more.
    pub fn delete_server(&mut self, name: &str)
        ensures
            final(self).servers() == (if old(self).servers().contains_key(name@) {
                old(self).servers().insert(name@, None)
            } else {
                old(self).servers()
            }),
            final(self).enabled() == old(self).enabled(),
            final(self).connections() == old(self).connections(),
    {
        if self.servers.contains_key(name) {
            self.servers.insert(name.to_owned(), None);
        }
    }

    /// Creates the end `name`, disabled and connected to no server.
    pub fn create_client(&mut self, name: String)
        ensures
            final(self).enabled() == old(self).enabled().insert(name@, false),
            final(self).connections() == old(self).connections().insert(name@, None),
            final(self).servers() == old(self).servers(),
    {
        let ghost before = self.connections();
        let key = name.clone();
        self.enabled.insert(name, false);
        self.connections.insert(key, None);
        assert(self.connections() =~= before.insert(key@, None));
    }

    /// Connects the end `client_name` to the server `server_name`.
    pub fn connect(&mut self, client_name: &str, server_name: &str)
        ensures
            final(self).connections() == old(self).connections().insert(client_name@, Some(server_name@)),
            final(self).enabled() == old(self).enabled(),
            final(self).servers() == old(self).servers(),
    {
        let ghost before = self.connections();
        let server = server_name.to_owned();
        self.connections.insert(client_name.to_owned(), Some(server));
        assert(self.connections() =~= before.insert(client_name@, Some(server_name@)));
    }

    /// Enables or disables the end `client_name`.
    pub fn enable(&mut self, client_name: &str, enabled: bool)
        ensures
            final(self).enabled() == old(self).enabled().insert(client_name@, enabled),
            final(self).connections() == old(self).connections(),
            final(self).servers() == old(self).servers(),
    {
        self.enabled.insert(client_name.to_owned(), enabled);
    }

    /// Whether the end `client_name` is enabled, and the id of the server it
    /// reaches, if any. The end must exist, and a server it is connected to
    /// must have been added.
    pub fn end_info(&self, client_name: &str) -> (r: (bool, Option<usize>))
        requires
            self.enabled().contains_key(client_name@),
            self.connections().get(client_name@) matches Some(Some(name)) ==> self.servers().contains_key(name),
        ensures
            r.0 == self.enabled()[client_name@],
            r.1 == self.server_of(client_name@),
    {
        let enabled = match self.enabled.get(client_name) {
            Some(e) => *e,
            None => vstd::pervasive::unreached(),
        };
        let server = match self.connections.get(client_name) {
            Some(Some(name)) => match self.servers.get(name.as_str()) {
                Some(s) => *s,
                None => vstd::pervasive::unreached(),
            },
            _ => None,
        };
        (enabled, server)
    }

    /// Whether the call of the end `client_name` to the server `server_name`,
    /// whose id was `server_id`, can no longer be answered: the end is
    /// disabled, or no server of that name stands, or it is another one.
    pub fn is_server_dead(&self, client_name: &str, server_name: &str, server_id: usize) -> (r: bool)
        requires
            self.enabled().contains_key(client_name@),
        ensures
            r == (!self.enabled()[client_name@] || match self.servers().get(server_name@) {
                Some(Some(id)) => id != server_id,
                _ => true,
            }),
    {
        let enabled = match self.enabled.get(client_name) {
            Some(e) => *e,
            None => vstd::pervasive::unreached(),
        };
        if !enabled {
            return true;
        }
        match self.servers.get(server_name) {
            Some(Some(id)) => *id != server_id,
            _ => true,
        }
    }
}

} // verus!
