use vstd::prelude::*;

use super::service::{GetRequest, Op, PutAppendRequest};

verus! {

/// The number that the bytes `b` write in base 256, most significant first.
pub open spec fn be_value(b: Seq<u8>) -> nat
    decreases b.len(),
{
    if b.len() == 0 {
        0
    } else {
        be_value(b.drop_last()) * 256 + b.last() as nat
    }
}

/// Reads a command id: `uuid::Uuid::from_slice` on the 16 bytes `origin`,
/// then `as_u128`. `from_slice` fails only on another length; `as_u128`
/// reads the bytes as a big-endian number.
#[verifier::external_body]
pub(crate) fn build_uuid(origin: &[u8]) -> (r: u128)
    requires
        origin@.len() == 16,
    ensures
        r == be_value(origin@),
{
    uuid::Uuid::from_slice(origin).expect("Failed to parse uuid from request.").as_u128()
}

/// The bytes of a command id: `uuid::Uuid::from_u128`, then `as_bytes`,
/// which write the number big-endian in 16 bytes.
#[verifier::external_body]
pub(crate) fn uuid_bytes(id: u128) -> (r: Vec<u8>)
    ensures
        r@.len() == 16,
        be_value(r@) == id,
{
    uuid::Uuid::from_u128(id).as_bytes().to_vec()
}

/// A fresh random command id: `uuid::Uuid::new_v4`, as its 16 bytes. The
/// bytes rest on chance; only their number is claimed.
#[verifier::external_body]
pub(crate) fn new_id() -> (r: Vec<u8>)
    ensures
        r@.len() == 16,
{
    uuid::Uuid::new_v4().as_bytes().to_vec()
}

/// The command a put or append request asks for.
pub open spec fn put_append_command(request: PutAppendRequest) -> KvCommand {
    if request.op == 1 {
        KvCommand::Put { id: be_value(request.id@) as u128, key: request.key, value: request.value, client: request.client }
    } else {
        KvCommand::Append { id: be_value(request.id@) as u128, key: request.key, value: request.value, client: request.client }
    }
}

/// The command a get request asks for.
pub open spec fn get_command(request: GetRequest) -> KvCommand {
    KvCommand::Get { id: be_value(request.id@) as u128, key: request.key, client: request.client }
}

/// A command the replicas agree on, with the id and the clerk of the
/// request it came from.
#[derive(Clone, Debug)]
pub enum KvCommand {
    Get { id: u128, key: String, client: String },
    Put { id: u128, key: String, value: String, client: String },
    Append { id: u128, key: String, value: String, client: String },
}

impl KvCommand {
    /// The id of the command.
    pub open spec fn id_spec(&self) -> u128 {
        match self {
            KvCommand::Get { id, .. } => *id,
            KvCommand::Put { id, .. } => *id,
            KvCommand::Append { id, .. } => *id,
        }
    }

    /// The clerk of the command.
    pub open spec fn client_spec(&self) -> Seq<char> {
        match self {
            KvCommand::Get { client, .. } => client@,
            KvCommand::Put { client, .. } => client@,
            KvCommand::Append { client, .. } => client@,
        }
    }

    /// The command a put or append request asks for. Its op must be one of
    /// the two, and its id 16 bytes.
    pub fn from_put_append(request: PutAppendRequest) -> (r: KvCommand)
        requires
            request.op == 1 || request.op == 2,
            request.id@.len() == 16,
        ensures
            request.op == 1 ==> r == (KvCommand::Put {
                id: be_value(request.id@) as u128,
                key: request.key,
                value: request.value,
                client: request.client,
            }),
            request.op == 2 ==> r == (KvCommand::Append {
                id: be_value(request.id@) as u128,
                key: request.key,
                value: request.value,
                client: request.client,
            }),
    {
        let id = build_uuid(request.id.as_slice());
        match Op::from_i32(request.op) {
            Some(Op::Put) => KvCommand::Put { id, key: request.key, value: request.value, client: request.client },
            _ => KvCommand::Append { id, key: request.key, value: request.value, client: request.client },
        }
    }

    /// The command a get request asks for. Its id must be 16 bytes.
    pub fn from_get(request: GetRequest) -> (r: KvCommand)
        requires
            request.id@.len() == 16,
        ensures
            r == (KvCommand::Get { id: be_value(request.id@) as u128, key: request.key, client: request.client }),
    {
        let id = build_uuid(request.id.as_slice());
        KvCommand::Get { id, key: request.key, client: request.client }
    }

    /// The command a committed entry carries, from what the entry decoded
    /// to: `put_append` when it decoded as a put or append request, else
    /// `get` when it decoded as a get request; `None` when it decoded as
    /// neither. A put or append must name one of the two ops and a get or a
    /// put or append must carry a 16-byte id.
    pub fn from_decoded(put_append: Option<PutAppendRequest>, get: Option<GetRequest>) -> (r: Option<KvCommand>)
        requires
            put_append matches Some(p) ==> (p.op == 1 || p.op == 2) && p.id@.len() == 16,
            put_append is None ==> (get matches Some(g) ==> g.id@.len() == 16),
        ensures
            put_append matches Some(p) ==> r == Some(put_append_command(p)),
            put_append is None ==> match get {
                Some(g) => r == Some(get_command(g)),
                None => r is None,
            },
    {
        match put_append {
            Some(p) => Some(KvCommand::from_put_append(p)),
            None => match get {
                Some(g) => Some(KvCommand::from_get(g)),
                None => None,
            },
        }
    }

    /// The id of the command.
    pub fn get_id(&self) -> (r: u128)
        ensures
            r == self.id_spec(),
    {
        match self {
            KvCommand::Get { id, .. } => *id,
            KvCommand::Put { id, .. } => *id,
            KvCommand::Append { id, .. } => *id,
        }
    }

    /// The clerk of the command.
    pub fn get_client(&self) -> (r: &str)
        ensures
            r@ == self.client_spec(),
    {
        match self {
            KvCommand::Get { client, .. } => client.as_str(),
            KvCommand::Put { client, .. } => client.as_str(),
            KvCommand::Append { client, .. } => client.as_str(),
        }
    }

    /// Whether the command leaves the state alone.
    pub fn is_readonly(&self) -> (r: bool)
        ensures
            r == (self is Get),
    {
        match self {
            KvCommand::Get { .. } => true,
            KvCommand::Put { .. } | KvCommand::Append { .. } => false,
        }
    }
}

impl PutAppendRequest {
    /// The id of the request, which must be 16 bytes.
    pub fn get_id(&self) -> (r: u128)
        requires
            self.id@.len() == 16,
        ensures
            r == be_value(self.id@),
    {
        build_uuid(self.id.as_slice())
    }

    /// A put or append changes the state.
    pub fn is_readonly(&self) -> (r: bool)
        ensures
            !r,
    {
        false
    }
}

impl GetRequest {
    /// The id of the request, which must be 16 bytes.
    pub fn get_id(&self) -> (r: u128)
        requires
            self.id@.len() == 16,
        ensures
            r == be_value(self.id@),
    {
        build_uuid(self.id.as_slice())
    }

    /// A get leaves the state alone.
    pub fn is_readonly(&self) -> (r: bool)
        ensures
            r,
    {
        true
    }
}

} // verus!
