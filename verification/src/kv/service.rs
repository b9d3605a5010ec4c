use vstd::prelude::*;

verus! {

/// Put or Append.
#[derive(Clone, Copy, Debug, PartialEq, Eq, Structural, Hash, PartialOrd, Ord)]
pub enum Op {
    Unknown,
    Put,
    Append,
}

impl Op {
    /// Whether `value` is the number of a variant.
    pub fn is_valid(value: i32) -> (r: bool)
        ensures
            r == (0 <= value <= 2),
    {
        match value {
            0 => true,
            1 => true,
            2 => true,
            _ => false,
        }
    }

    /// The variant numbered `value`, if any.
    pub fn from_i32(value: i32) -> (r: Option<Op>)
        ensures
            r == (if value == 0 {
                Some(Op::Unknown)
            } else if value == 1 {
                Some(Op::Put)
            } else if value == 2 {
                Some(Op::Append)
            } else {
                None
            }),
    {
        match value {
            0 => Some(Op::Unknown),
            1 => Some(Op::Put),
            2 => Some(Op::Append),
            _ => None,
        }
    }
}

/// Put or Append, with the id that makes a retry of it recognisable and
/// the name of the clerk that sent it.
#[derive(Clone, Debug)]
pub struct PutAppendRequest {
    pub key: String,
    pub value: String,
    /// The number of an `Op`.
    pub op: i32,
    pub id: Vec<u8>,
    pub client: String,
}

#[derive(Clone, Debug)]
pub struct PutAppendReply {
    pub wrong_leader: bool,
    pub err: String,
}

#[derive(Clone, Debug)]
pub struct GetRequest {
    pub key: String,
    pub id: Vec<u8>,
    pub client: String,
}

#[derive(Clone, Debug)]
pub struct GetReply {
    pub wrong_leader: bool,
    pub err: String,
    pub value: String,
}

} // verus!
