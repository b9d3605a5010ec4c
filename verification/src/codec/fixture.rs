use vstd::prelude::*;
use vstd::std_specs::cmp::PartialEqSpecImpl;
use vstd::utf8::{decode_utf8, encode_utf8, valid_utf8};

use super::message::Message;
use super::wire::{
    bytes_encode_repeated, bytes_encoded_len_repeated, bytes_merge_repeated, bytes_read,
    decode_key, delimited_field, delimited_fields, delimited_pieces, int32_encode, int32_encoded_len,
    int32_merge, int32_read, key, skip_field, skip_read, string_encode, string_encoded_len,
    string_merge, string_read, uint64_encode, uint64_encoded_len, uint64_merge,
    uint64_read, varint, varint_field,
};
use crate::buffers::{byte_strings_equal, byte_views, clone_byte_strings};

verus! {

/// The kind of a `Msg`.
#[derive(Clone, Copy, Debug, PartialEq, Eq, Structural, Hash, PartialOrd, Ord)]
pub enum Type {
    Unknown,
    Put,
    Get,
    Del,
}

impl Default for Type {
    fn default() -> (r: Type)
        ensures
            r == Type::Unknown,
    {
        Type::Unknown
    }
}

/// The number of a kind.
pub open spec fn type_number(t: Type) -> i32 {
    match t {
        Type::Unknown => 0,
        Type::Put => 1,
        Type::Get => 2,
        Type::Del => 3,
    }
}

impl Type {
    /// Whether `value` is the number of a kind.
    pub fn is_valid(value: i32) -> (r: bool)
        ensures
            r == (0 <= value <= 3),
    {
        match value {
            0 => true,
            1 => true,
            2 => true,
            3 => true,
            _ => false,
        }
    }

    /// The kind numbered `value`, if any.
    pub fn from_i32(value: i32) -> (r: Option<Type>)
        ensures
            0 <= value <= 3 ==> (r matches Some(t) && type_number(t) == value),
            !(0 <= value <= 3) ==> r is None,
    {
        match value {
            0 => Some(Type::Unknown),
            1 => Some(Type::Put),
            2 => Some(Type::Get),
            3 => Some(Type::Del),
            _ => None,
        }
    }
}

/// A simple protobuf message: a kind (field 1), an id (field 2), a name
/// (field 3) and a list of payloads (field 4).
#[derive(Debug)]
pub struct Msg {
    /// The number of a `Type`.
    pub type_: i32,
    pub id: u64,
    pub name: String,
    pub paylad: Vec<Vec<u8>>,
}

impl View for Msg {
    type V = (i32, u64, Seq<char>, Seq<Seq<u8>>);

    open spec fn view(&self) -> (i32, u64, Seq<char>, Seq<Seq<u8>>) {
        (self.type_, self.id, self.name@, byte_views(self.paylad@))
    }
}

impl Clone for Msg {
    fn clone(&self) -> (r: Msg)
        ensures
            r@ == self@,
    {
        Msg { type_: self.type_, id: self.id, name: self.name.clone(), paylad: clone_byte_strings(&self.paylad) }
    }
}

impl PartialEq for Msg {
    fn eq(&self, other: &Msg) -> (r: bool) {
        self.type_ == other.type_ && self.id == other.id && self.name == other.name && byte_strings_equal(
            &self.paylad,
            &other.paylad,
        )
    }
}

impl PartialEqSpecImpl for Msg {
    open spec fn obeys_eq_spec() -> bool {
        true
    }

    open spec fn eq_spec(&self, other: &Msg) -> bool {
        self@ == other@
    }
}

impl Default for Msg {
    fn default() -> (r: Msg)
        ensures
            r@ == (0i32, 0u64, Seq::<char>::empty(), Seq::<Seq<u8>>::empty()),
    {
        let r = Msg { type_: 0, id: 0, name: String::new(), paylad: Vec::new() };
        assert(byte_views(r.paylad@) =~= Seq::<Seq<u8>>::empty());
        r
    }
}

impl Msg {
    /// The kind of the message; `Unknown` when its number is no kind's.
    pub fn type_(&self) -> (r: Type)
        ensures
            0 <= self.type_ <= 3 ==> type_number(r) == self.type_,
            !(0 <= self.type_ <= 3) ==> r == Type::Unknown,
    {
        match Type::from_i32(self.type_) {
            Some(t) => t,
            None => Type::default(),
        }
    }

    /// Sets the kind of the message.
    pub fn set_type(&mut self, value: Type)
        ensures
            final(self).type_ == type_number(value),
            final(self).id == old(self).id,
            final(self).name == old(self).name,
            final(self).paylad == old(self).paylad,
    {
        self.type_ = match value {
            Type::Unknown => 0,
            Type::Put => 1,
            Type::Get => 2,
            Type::Del => 3,
        };
    }
}

/// Field 1 of a message, absent when the kind is `0`.
pub open spec fn type_part(v: (i32, u64, Seq<char>, Seq<Seq<u8>>)) -> Seq<Seq<u8>> {
    if v.0 != 0 { seq![varint_field(1, v.0 as u64)] } else { Seq::empty() }
}

/// Field 2 of a message, absent when the id is `0`.
pub open spec fn id_part(v: (i32, u64, Seq<char>, Seq<Seq<u8>>)) -> Seq<Seq<u8>> {
    if v.1 != 0 { seq![varint_field(2, v.1)] } else { Seq::empty() }
}

/// Field 3 of a message, absent when the name is empty.
pub open spec fn name_part(v: (i32, u64, Seq<char>, Seq<Seq<u8>>)) -> Seq<Seq<u8>> {
    if v.2.len() != 0 { seq![delimited_field(3, encode_utf8(v.2))] } else { Seq::empty() }
}

/// The fields of a message, in order: the kind, the id and the name where
/// they are not empty, then one field per payload.
pub open spec fn pieces(v: (i32, u64, Seq<char>, Seq<Seq<u8>>)) -> Seq<Seq<u8>> {
    type_part(v) + id_part(v) + name_part(v) + delimited_pieces(4, v.3)
}

/// The bytes of a message.
pub open spec fn msg_wire(v: (i32, u64, Seq<char>, Seq<Seq<u8>>)) -> Seq<u8> {
    type_part(v).flatten() + id_part(v).flatten() + name_part(v).flatten() + delimited_fields(4, v.3)
}

/// What a message holds once its first `i` fields are decoded into an
/// empty message.
pub open spec fn partial(v: (i32, u64, Seq<char>, Seq<Seq<u8>>), i: int) -> (i32, u64, Seq<char>, Seq<Seq<u8>>) {
    let t = type_part(v).len() as int;
    let d = t + id_part(v).len();
    let h = d + name_part(v).len();
    (
        if i >= t { v.0 } else { 0 },
        if i >= d { v.1 } else { 0 },
        if i >= h { v.2 } else { Seq::empty() },
        v.3.take(if i > h { i - h } else { 0 }),
    )
}

/// Flattening a concatenation concatenates the flattenings.
proof fn lemma_flatten_concat(a: Seq<Seq<u8>>, b: Seq<Seq<u8>>)
    ensures
        (a + b).flatten() == a.flatten() + b.flatten(),
    decreases a.len(),
{
    if a.len() == 0 {
        assert(a + b =~= b);
        assert(a.flatten() + b.flatten() =~= b.flatten());
    } else {
        lemma_flatten_concat(a.drop_first(), b);
        assert((a + b).drop_first() =~= a.drop_first() + b);
        assert((a + b).first() == a.first());
        assert(a.first() + (a.drop_first().flatten() + b.flatten()) =~= (a.first() + a.drop_first().flatten()) + b.flatten());
    }
}

/// A one-field part flattens to its field.
proof fn lemma_flatten_single(x: Seq<u8>)
    ensures
        seq![x].flatten() == x,
{
    seq![x].lemma_flatten_one_element();
}

/// The bytes of a message are its fields, one after the other.
proof fn lemma_wire_pieces(v: (i32, u64, Seq<char>, Seq<Seq<u8>>))
    ensures
        msg_wire(v) == pieces(v).flatten(),
{
    lemma_flatten_concat(type_part(v), id_part(v));
    lemma_flatten_concat(type_part(v) + id_part(v), name_part(v));
    lemma_flatten_concat(type_part(v) + id_part(v) + name_part(v), delimited_pieces(4, v.3));
}

/// Each field of a message is at least one byte long.
proof fn lemma_pieces_nonempty(v: (i32, u64, Seq<char>, Seq<Seq<u8>>), i: int)
    requires
        0 <= i < pieces(v).len(),
    ensures
        pieces(v)[i].len() > 0,
{
    let p = pieces(v);
    let h = (type_part(v) + id_part(v) + name_part(v)).len();
    if i < h {
        assert(p[i] == (type_part(v) + id_part(v) + name_part(v))[i]);
    } else {
        assert(p[i] == delimited_field(4, v.3[i - h]));
    }
}

/// Once every field is decoded, the message is whole.
proof fn lemma_partial_all(v: (i32, u64, Seq<char>, Seq<Seq<u8>>))
    ensures
        partial(v, pieces(v).len() as int) == v,
{
    assert(v.3.take(v.3.len() as int) =~= v.3);
}

/// A message whose bytes remain to be read, field by field, with `rest`
/// left after its first `i` fields.
pub open spec fn reading(v: (i32, u64, Seq<char>, Seq<Seq<u8>>), i: int, rest: Seq<u8>) -> bool {
    0 <= i <= pieces(v).len() && rest == pieces(v).skip(i).flatten()
}

/// The effect on a message holding `old` of merging a field `tag` of wire
/// type `wt` read from the start of `buf`, with result `r`: the field's
/// value replaces (or, for a payload, is appended to) the message's; an
/// unknown field is skipped. On an error the message is unchanged.
pub open spec fn merged(
    old: (i32, u64, Seq<char>, Seq<Seq<u8>>),
    new: (i32, u64, Seq<char>, Seq<Seq<u8>>),
    tag: u32,
    wt: u8,
    buf: Seq<u8>,
    r: Result<&[u8], prost::DecodeError>,
) -> bool {
    match r {
        Ok(rest) => {
            let n = (buf.len() - rest@.len()) as nat;
            &&& rest@.len() <= buf.len()
            &&& rest@ == buf.skip(n as int)
            &&& if tag == 1 {
                int32_read(wt, buf) == Some((new.0, n)) && new == (new.0, old.1, old.2, old.3)
            } else if tag == 2 {
                uint64_read(wt, buf) == Some((new.1, n)) && new == (old.0, new.1, old.2, old.3)
            } else if tag == 3 {
                string_read(wt, buf) == Some((new.2, n)) && new == (old.0, old.1, new.2, old.3)
            } else if tag == 4 {
                new.3.len() == old.3.len() + 1 && bytes_read(wt, buf) == Some((new.3.last(), n))
                    && new == (old.0, old.1, old.2, old.3.push(new.3.last()))
            } else {
                skip_read(wt, tag, buf) == Some(n) && new == old
            }
        },
        Err(_) => {
            &&& new == old
            &&& tag == 1 ==> int32_read(wt, buf) is None
            &&& tag == 2 ==> uint64_read(wt, buf) is None
            &&& tag == 3 ==> string_read(wt, buf) is None
            &&& tag == 4 ==> bytes_read(wt, buf) is None
            &&& !(1 <= tag <= 4) ==> skip_read(wt, tag, buf) is None
        },
    }
}

/// A field written for the message's own tags reads back: its value lands
/// in the message and `r` is what follows it.
pub open spec fn merges_back(
    old: (i32, u64, Seq<char>, Seq<Seq<u8>>),
    new: (i32, u64, Seq<char>, Seq<Seq<u8>>),
    tag: u32,
    wt: u8,
    buf: Seq<u8>,
    r: Result<&[u8], prost::DecodeError>,
) -> bool {
    &&& forall|u: u64, tail: Seq<u8>| tag == 1 && wt == 0 && #[trigger] (varint(u) + tail) == buf
        ==> (r matches Ok(rest) && rest@ == tail && new.0 == u as i32)
    &&& forall|u: u64, tail: Seq<u8>| tag == 2 && wt == 0 && #[trigger] (varint(u) + tail) == buf
        ==> (r matches Ok(rest) && rest@ == tail && new.1 == u)
    &&& forall|b: Seq<u8>, tail: Seq<u8>| tag == 3 && wt == 2 && valid_utf8(b)
        && #[trigger] (varint(b.len() as u64) + b + tail) == buf
        ==> (r matches Ok(rest) && rest@ == tail && new.2 == decode_utf8(b))
    &&& forall|b: Seq<u8>, tail: Seq<u8>| tag == 4 && wt == 2 && #[trigger] (varint(b.len() as u64) + b + tail) == buf
        ==> (r matches Ok(rest) && rest@ == tail && new.3 == old.3.push(b))
}

impl Msg {
    /// Merges field `tag`, of wire type `wt`, read from the start of `buf`
    /// into the message; see `merged` and `merges_back`. Returns what
    /// follows the field.
    pub fn merge_field<'a>(&mut self, tag: u32, wt: u8, buf: &'a [u8]) -> (r: Result<&'a [u8], prost::DecodeError>)
        requires
            wt <= 5,
        ensures
            merged(old(self)@, final(self)@, tag, wt, buf@, r),
            merges_back(old(self)@, final(self)@, tag, wt, buf@, r),
    {
        if tag == 1 {
            let (v, rest) = match int32_merge(wt, buf) {
                Ok(x) => x,
                Err(e) => return Err(e),
            };
            self.type_ = v;
            Ok(rest)
        } else if tag == 2 {
            let (v, rest) = match uint64_merge(wt, buf) {
                Ok(x) => x,
                Err(e) => return Err(e),
            };
            self.id = v;
            Ok(rest)
        } else if tag == 3 {
            let (v, rest) = match string_merge(wt, buf) {
                Ok(x) => x,
                Err(e) => return Err(e),
            };
            self.name = v;
            Ok(rest)
        } else if tag == 4 {
            let (mut vs, rest) = match bytes_merge_repeated(wt, buf) {
                Ok(x) => x,
                Err(e) => return Err(e),
            };
            let ghost before = byte_views(self.paylad@);
            let ghost b = vs@[0]@;
            self.paylad.append(&mut vs);
            assert(byte_views(self.paylad@) =~= before.push(b));
            Ok(rest)
        } else {
            skip_field(wt, tag, buf)
        }
    }
}

/// The number of fields of a message before its payloads.
pub open spec fn head_count(v: (i32, u64, Seq<char>, Seq<Seq<u8>>)) -> int {
    (type_part(v) + id_part(v) + name_part(v)).len() as int
}

/// The tag of field `i` of a message.
pub open spec fn field_tag(v: (i32, u64, Seq<char>, Seq<Seq<u8>>), i: int) -> u32 {
    let t = type_part(v).len() as int;
    let d = t + id_part(v).len();
    if i < t { 1 } else if i < d { 2 } else if i < head_count(v) { 3 } else { 4 }
}

/// The wire type of field `i` of a message.
pub open spec fn field_wt(v: (i32, u64, Seq<char>, Seq<Seq<u8>>), i: int) -> u8 {
    let d = type_part(v).len() + id_part(v).len();
    if i < d { 0 } else { 2 }
}

/// Field `i` of a message without its key.
pub open spec fn field_body(v: (i32, u64, Seq<char>, Seq<Seq<u8>>), i: int) -> Seq<u8> {
    let t = type_part(v).len() as int;
    let d = t + id_part(v).len();
    let h = head_count(v);
    if i < t {
        varint(v.0 as u64)
    } else if i < d {
        varint(v.1)
    } else if i < h {
        varint(encode_utf8(v.2).len() as u64) + encode_utf8(v.2)
    } else {
        varint(v.3[i - h].len() as u64) + v.3[i - h]
    }
}

/// Field `i` of a message is its key and its body.
proof fn lemma_piece(v: (i32, u64, Seq<char>, Seq<Seq<u8>>), i: int)
    requires
        0 <= i < pieces(v).len(),
    ensures
        pieces(v)[i] == key(field_tag(v, i), field_wt(v, i)) + field_body(v, i),
{
    let tp = type_part(v);
    let ip = id_part(v);
    let np = name_part(v);
    let h = head_count(v);
    let p = pieces(v);
    if i < tp.len() {
        assert(p[i] == tp[i]);
    } else if i < tp.len() + ip.len() {
        assert(p[i] == ip[i - tp.len()]);
    } else if i < h {
        assert(p[i] == np[i - tp.len() - ip.len()]);
        assert(delimited_field(3, encode_utf8(v.2)) =~= key(3, 2) + (varint(encode_utf8(v.2).len() as u64) + encode_utf8(v.2)));
    } else {
        assert(p[i] == delimited_field(4, v.3[i - h]));
        assert(delimited_field(4, v.3[i - h]) =~= key(4, 2) + (varint(v.3[i - h].len() as u64) + v.3[i - h]));
    }
}

/// What reading the key of field `i` gives, when the bytes `before` left
/// are the message's from field `i` on.
pub open spec fn next_field(
    v: (i32, u64, Seq<char>, Seq<Seq<u8>>),
    i: int,
    before: Seq<u8>,
    kr: Result<(u32, u8, &[u8]), prost::DecodeError>,
) -> bool {
    reading(v, i, before) && before.len() > 0 ==> {
        &&& i < pieces(v).len()
        &&& kr matches Ok((t, w, rest)) && t == field_tag(v, i) && w == field_wt(v, i)
            && rest@ == field_body(v, i) + pieces(v).skip(i + 1).flatten()
    }
}

proof fn lemma_next_field(
    v: (i32, u64, Seq<char>, Seq<Seq<u8>>),
    i: int,
    before: Seq<u8>,
    kr: Result<(u32, u8, &[u8]), prost::DecodeError>,
)
    requires
        super::wire::key_reads_back(before, kr),
    ensures
        next_field(v, i, before, kr),
{
    if reading(v, i, before) && before.len() > 0 {
        let p = pieces(v);
        if i == p.len() {
            assert(p.skip(i) =~= Seq::<Seq<u8>>::empty());
        }
        assert(p.skip(i).first() == p[i]);
        assert(p.skip(i).drop_first() =~= p.skip(i + 1));
        lemma_piece(v, i);
        let tail = p.skip(i + 1).flatten();
        assert(before == key(field_tag(v, i), field_wt(v, i)) + (field_body(v, i) + tail));
    }
}

/// Sign-extending a 32-bit number to 64 bits and truncating it back gives
/// the number.
proof fn lemma_i32_round_trip(x: i32)
    ensures
        (x as u64) as i32 == x,
{
    assert((x as u64) as i32 == x) by (bit_vector);
}

proof fn lemma_field_read(
    v: (i32, u64, Seq<char>, Seq<Seq<u8>>),
    i: int,
    before: Seq<u8>,
    tag: u32,
    wt: u8,
    after_key: Seq<u8>,
    m0: (i32, u64, Seq<char>, Seq<Seq<u8>>),
    m1: (i32, u64, Seq<char>, Seq<Seq<u8>>),
    mr: Result<&[u8], prost::DecodeError>,
)
    requires
        reading(v, i, before),
        before.len() > 0,
        i < pieces(v).len(),
        m0 == partial(v, i),
        tag == field_tag(v, i),
        wt == field_wt(v, i),
        after_key == field_body(v, i) + pieces(v).skip(i + 1).flatten(),
        merged(m0, m1, tag, wt, after_key, mr),
        merges_back(m0, m1, tag, wt, after_key, mr),
    ensures
        mr is Ok,
        reading(v, i + 1, mr->Ok_0@),
        m1 == partial(v, i + 1),
{
    broadcast use vstd::utf8::encode_utf8_valid_utf8, vstd::utf8::encode_utf8_decode_utf8;

    let tail = pieces(v).skip(i + 1).flatten();
    let t = type_part(v).len() as int;
    let d = t + id_part(v).len();
    let h = head_count(v);
    if i < t {
        let u = v.0 as u64;
        assert(after_key == varint(u) + tail);
        lemma_i32_round_trip(v.0);
    } else if i < d {
        assert(after_key == varint(v.1) + tail);
    } else if i < h {
        let b = encode_utf8(v.2);
        assert(after_key == varint(b.len() as u64) + b + tail);
        assert(valid_utf8(b));
    } else {
        let b = v.3[i - h];
        assert(after_key == varint(b.len() as u64) + b + tail);
        assert(v.3.take(i + 1 - h) =~= v.3.take(i - h).push(b));
    }
}

proof fn lemma_read_all(v: (i32, u64, Seq<char>, Seq<Seq<u8>>), i: int)
    requires
        reading(v, i, Seq::empty()),
    ensures
        partial(v, i) == v,
{
    let p = pieces(v);
    if i < p.len() {
        lemma_pieces_nonempty(v, i);
        assert(p.skip(i).first() == p[i]);
        assert(p.skip(i).flatten().len() >= p[i].len());
    }
    lemma_partial_all(v);
}

impl Message for Msg {
    open spec fn wire(&self) -> Seq<u8> {
        msg_wire(self@)
    }

    open spec fn same(&self, other: &Msg) -> bool {
        self@ == other@
    }

    fn encode_raw(&self, buf: &mut Vec<u8>) {
        let ghost start = buf@;
        let ghost v = self@;
        if self.type_ != 0 {
            int32_encode(1, self.type_, buf);
        }
        proof {
            lemma_flatten_single(varint_field(1, v.0 as u64));
            assert(buf@ =~= start + type_part(v).flatten());
        }
        if self.id != 0 {
            uint64_encode(2, self.id, buf);
        }
        proof {
            lemma_flatten_single(varint_field(2, v.1));
            assert(buf@ =~= start + type_part(v).flatten() + id_part(v).flatten());
        }
        if !self.name.as_str().is_empty() {
            string_encode(3, &self.name, buf);
        }
        proof {
            lemma_flatten_single(delimited_field(3, encode_utf8(v.2)));
            assert(buf@ =~= start + type_part(v).flatten() + id_part(v).flatten() + name_part(v).flatten());
        }
        bytes_encode_repeated(4, &self.paylad, buf);
        assert(buf@ =~= start + msg_wire(v));
    }

    fn encoded_len(&self) -> (r: usize) {
        let ghost v = self@;
        proof {
            lemma_flatten_single(varint_field(1, v.0 as u64));
            lemma_flatten_single(varint_field(2, v.1));
            lemma_flatten_single(delimited_field(3, encode_utf8(v.2)));
        }
        let mut n: usize = 0;
        if self.type_ != 0 {
            n = n + int32_encoded_len(1, self.type_);
        }
        if self.id != 0 {
            n = n + uint64_encoded_len(2, self.id);
        }
        if !self.name.as_str().is_empty() {
            n = n + string_encoded_len(3, &self.name);
        }
        n + bytes_encoded_len_repeated(4, &self.paylad)
    }

    fn decode(buf: &[u8]) -> (r: Result<Msg, prost::DecodeError>) {
        let mut msg = Msg::default();
        let mut rest = buf;
        let ghost mut i: int = 0;
        proof {
            assert forall|v: (i32, u64, Seq<char>, Seq<Seq<u8>>)| msg_wire(v) == buf@ implies reading(v, 0, rest@)
                && msg@ == partial(v, 0) by {
                lemma_wire_pieces(v);
                assert(pieces(v).skip(0) =~= pieces(v));
                assert(v.3.take(0) =~= Seq::<Seq<u8>>::empty());
            }
        }
        while rest.len() > 0
            invariant
                forall|v: (i32, u64, Seq<char>, Seq<Seq<u8>>)| msg_wire(v) == buf@ ==> reading(v, i, rest@)
                    && msg@ == partial(v, i),
            decreases rest@.len(),
        {
            let ghost before = rest@;
            let ghost m0 = msg@;
            let kr = decode_key(rest);
            proof {
                assert forall|v: (i32, u64, Seq<char>, Seq<Seq<u8>>)| msg_wire(v) == buf@ implies
                    next_field(v, i, before, kr) by {
                    lemma_next_field(v, i, before, kr);
                }
            }
            let (tag, wt, after_key) = match kr {
                Ok(x) => x,
                Err(e) => {
                    return Err(e);
                },
            };
            let mr = msg.merge_field(tag, wt, after_key);
            proof {
                assert forall|v: (i32, u64, Seq<char>, Seq<Seq<u8>>)| msg_wire(v) == buf@ implies
                    (mr is Ok && reading(v, i + 1, mr->Ok_0@) && msg@ == partial(v, i + 1)) by {
                    lemma_field_read(v, i, before, tag, wt, after_key@, m0, msg@, mr);
                }
            }
            rest = match mr {
                Ok(x) => x,
                Err(e) => {
                    return Err(e);
                },
            };
            proof {
                i = i + 1;
            }
        }
        proof {
            assert forall|v: (i32, u64, Seq<char>, Seq<Seq<u8>>)| msg_wire(v) == buf@ implies msg@ == v by {
                lemma_read_all(v, i);
            }
        }
        Ok(msg)
    }
}

} // verus!
