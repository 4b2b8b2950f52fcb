//! State objects: an identifier, the address of a predicate, and data.
use vstd::prelude::*;
use bytes::{BufMut, BytesMut};
use ethabi::{ParamType, Token};
use crate::abi::{abi_can_decode, abi_fits, abi_layout, abi_parse, lemma_abi_round_trip};
use crate::abi_error::{Error, ErrorKind};
use crate::endian::u64_le_bytes;

verus! {

/// The growable byte buffer of the `bytes` crate.
#[verifier::external_type_specification]
#[verifier::external_body]
pub struct ExBytesMut(BytesMut);

/// The bytes that a buffer holds.
pub uninterp spec fn buffer_bytes(buf: BytesMut) -> Seq<u8>;

/// `BytesMut::with_capacity`: a buffer that holds no bytes.  The
/// capacity is handed to `Vec::with_capacity`, which takes no more than
/// `isize::MAX`.
#[verifier::external_body]
fn buffer_with_capacity(capacity: usize) -> (buf: BytesMut)
    requires
        capacity <= isize::MAX,
    ensures
        buffer_bytes(buf) == Seq::<u8>::empty(),
{
    BytesMut::with_capacity(capacity)
}

/// `BufMut::put_u64_le` on a `BytesMut`: the eight bytes of `n`, least
/// significant first, are appended; the buffer grows as needed, up to
/// `isize::MAX` bytes.
#[verifier::external_body]
fn buffer_put_u64_le(buf: &mut BytesMut, n: u64)
    requires
        buffer_bytes(*old(buf)).len() + 8 <= isize::MAX,
    ensures
        buffer_bytes(*final(buf)) == buffer_bytes(*old(buf)) + u64_le_bytes(n),
{
    buf.put_u64_le(n)
}

/// `to_vec` on the bytes that a `BytesMut` dereferences to: a copy of
/// what the buffer holds.
#[verifier::external_body]
fn buffer_to_vec(buf: &BytesMut) -> (v: Vec<u8>)
    ensures
        v@ == buffer_bytes(*buf),
{
    buf.to_vec()
}

/// The identifier of the object of a range: the start, then the end,
/// each as eight bytes, least significant first.
pub fn create_object_id(start: u64, end: u64) -> (id: Vec<u8>)
    ensures
        id@ == u64_le_bytes(start) + u64_le_bytes(end),
{
    let mut object_id_buf = buffer_with_capacity(64);
    buffer_put_u64_le(&mut object_id_buf, start);
    buffer_put_u64_le(&mut object_id_buf, end);
    buffer_to_vec(&object_id_buf)
}

/// The address of a predicate: twenty bytes.
#[derive(Clone, Copy, Debug, PartialEq, Eq)]
pub struct Address {
    bytes: [u8; 20],
}

impl View for Address {
    type V = Seq<u8>;

    closed spec fn view(&self) -> Seq<u8> {
        self.bytes@
    }
}

impl Address {
    /// The address of the given bytes.
    pub fn new(bytes: [u8; 20]) -> (a: Address)
        ensures
            a@ == bytes@,
    {
        Address { bytes }
    }

    /// The address whose bytes are all zero.
    pub fn zero() -> (a: Address)
        ensures
            a@ == Seq::new(20, |i: int| 0u8),
    {
        let a = Address { bytes: [0u8; 20] };
        proof {
            assert(a.bytes@ =~= Seq::new(20, |i: int| 0u8));
        }
        a
    }

    /// The bytes of the address.
    pub fn as_bytes(&self) -> (b: &[u8; 20])
        ensures
            b@ == self@,
    {
        &self.bytes
    }

    /// An address has twenty bytes.
    pub proof fn lemma_len(&self)
        ensures
            self@.len() == 20,
    {
    }
}

/// One value of a decoded tuple, as far as a state object has use for it.
#[derive(Debug, PartialEq, Eq)]
pub enum AbiToken {
    /// A byte string of any length.
    Bytes(Vec<u8>),
    /// An address.
    Address(Address),
    /// A value of another kind.
    Other,
}

/// One value of a decoded tuple, as a mathematical value.
pub enum AbiTokenView {
    Bytes(Seq<u8>),
    Address(Seq<u8>),
    Other,
}

impl View for AbiToken {
    type V = AbiTokenView;

    open spec fn view(&self) -> AbiTokenView {
        match self {
            AbiToken::Bytes(b) => AbiTokenView::Bytes(b@),
            AbiToken::Address(a) => AbiTokenView::Address(a@),
            AbiToken::Other => AbiTokenView::Other,
        }
    }
}

/// The values of a decoded tuple as mathematical values.
pub open spec fn token_views(tokens: Seq<AbiToken>) -> Seq<AbiTokenView> {
    Seq::new(tokens.len(), |i: int| tokens[i]@)
}

/// `ethabi::encode` on the tuple of a byte string, an address and a byte
/// string: the head of three words and the tail of the two byte strings,
/// as `abi_layout` writes them out.  The library counts in 32 bits and
/// allocates a word for each byte of the result, whence the bound.
#[verifier::external_body]
fn abi_encode(id: &Vec<u8>, predicate: &Address, data: &Vec<u8>) -> (out: Vec<u8>)
    requires
        abi_fits(id@.len() as int, data@.len() as int),
    ensures
        out@ == abi_layout(id@, predicate@, data@),
{
    ethabi::encode(
        &[
            Token::Bytes(id.clone()),
            Token::Address(ethabi::Address::from(predicate.bytes)),
            Token::Bytes(data.clone()),
        ],
    )
}

/// `ethabi::decode` for the types byte string, address, byte string: the
/// three values that `abi_parse` reads, or nothing where the library
/// reports an error.  The library adds offsets and lengths of up to 32
/// bits each in `usize`, whence the demand on the machine.
#[verifier::external_body]
fn abi_decode(bytes: &[u8]) -> (r: Option<Vec<AbiToken>>)
    requires
        abi_can_decode(),
    ensures
        r is Some <==> abi_parse(bytes@) is Some,
        r matches Some(tokens) ==> token_views(tokens@) == seq![
            AbiTokenView::Bytes(abi_parse(bytes@)->Some_0.0),
            AbiTokenView::Address(abi_parse(bytes@)->Some_0.1),
            AbiTokenView::Bytes(abi_parse(bytes@)->Some_0.2),
        ],
{
    let types = [ParamType::Bytes, ParamType::Address, ParamType::Bytes];
    let tokens = ethabi::decode(&types, bytes).ok()?;
    let convert = |t: Token| match t {
        Token::Bytes(b) => AbiToken::Bytes(b),
        Token::Address(a) => AbiToken::Address(Address { bytes: a.0 }),
        Token::FixedBytes(_) | Token::Int(_) | Token::Uint(_) | Token::Bool(_) | Token::String(_) => AbiToken::Other,
        Token::FixedArray(_) | Token::Array(_) | Token::Tuple(_) => AbiToken::Other,
    };
    Some(tokens.into_iter().map(convert).collect())
}

/// Round trip for the object of a range: whatever the bounds, the
/// address and the data, the encoding of the object decodes to its
/// identifier, its address and its data.
pub proof fn lemma_range_object_round_trip(start: u64, end: u64, predicate: Address, data: Seq<u8>)
    requires
        abi_fits(16, data.len() as int),
    ensures
        abi_parse(abi_layout(u64_le_bytes(start) + u64_le_bytes(end), predicate@, data)) == Some(
            (u64_le_bytes(start) + u64_le_bytes(end), predicate@, data),
        ),
{
    let id = u64_le_bytes(start) + u64_le_bytes(end);
    assert(id.len() == 16);
    predicate.lemma_len();
    lemma_abi_round_trip(id, predicate@, data);
}

/// A state object as a mathematical value.
pub struct StateObjectView {
    pub id: Seq<u8>,
    pub predicate: Seq<u8>,
    pub data: Seq<u8>,
}

/// A state object: what a range of the ledger holds.
#[derive(Debug, PartialEq)]
pub struct StateObject {
    id: Vec<u8>,
    predicate: Address,
    data: Vec<u8>,
}

impl View for StateObject {
    type V = StateObjectView;

    closed spec fn view(&self) -> StateObjectView {
        StateObjectView { id: self.id@, predicate: self.predicate@, data: self.data@ }
    }
}

impl Clone for StateObject {
    fn clone(&self) -> (r: Self)
        ensures
            r@ == self@,
    {
        StateObject { id: self.id.clone(), predicate: self.predicate, data: self.data.clone() }
    }
}

impl StateObject {
    /// The object of the range from `start` to `end`.
    pub fn from_range(start: u64, end: u64, predicate: Address, data: &[u8]) -> (o: StateObject)
        ensures
            o@ == (StateObjectView { id: u64_le_bytes(start) + u64_le_bytes(end), predicate: predicate@, data: data@ }),
    {
        let id = create_object_id(start, end);
        StateObject::new(id.as_slice(), predicate, data)
    }

    /// The object of the given identifier.
    pub fn new(object_id: &[u8], predicate: Address, data: &[u8]) -> (o: StateObject)
        ensures
            o@ == (StateObjectView { id: object_id@, predicate: predicate@, data: data@ }),
    {
        StateObject {
            id: vstd::slice::slice_to_vec(object_id),
            predicate,
            data: vstd::slice::slice_to_vec(data),
        }
    }

    /// The identifier of the object.
    pub fn id(&self) -> (r: &[u8])
        ensures
            r@ == self@.id,
    {
        self.id.as_slice()
    }

    /// The address of the predicate of the object.
    pub fn predicate(&self) -> (r: Address)
        ensures
            r@ == self@.predicate,
    {
        self.predicate
    }

    /// The data of the object.
    pub fn data(&self) -> (r: &[u8])
        ensures
            r@ == self@.data,
    {
        self.data.as_slice()
    }

    /// Whether `to_abi` can encode this object.
    pub open spec fn encodable(&self) -> bool {
        abi_fits(self@.id.len() as int, self@.data.len() as int)
    }

    /// Tells whether `to_abi` can encode this object.
    pub fn can_encode(&self) -> (b: bool)
        ensures
            b == self.encodable(),
    {
        let limit: u64 = if (isize::MAX as u64) / 32 < 0xffff_ffff {
            (isize::MAX as u64) / 32
        } else {
            0xffff_ffff
        };
        let id_len = self.id.len() as u64;
        let data_len = self.data.len() as u64;
        if id_len > limit || data_len > limit {
            return false;
        }
        let id_padded = (id_len + 31) / 32 * 32;
        let data_padded = (data_len + 31) / 32 * 32;
        160 + id_padded + data_padded <= limit
    }

    /// The encoding of the object.
    pub fn to_abi(&self) -> (out: Vec<u8>)
        requires
            self.encodable(),
        ensures
            out@ == abi_layout(self@.id, self@.predicate, self@.data),
    {
        abi_encode(&self.id, &self.predicate, &self.data)
    }

    /// The object of a decoded tuple: the tuple has to be a byte string,
    /// an address and a byte string, in this order.
    pub fn from_tokens(tokens: Vec<AbiToken>) -> (r: Result<StateObject, Error>)
        ensures
            r is Ok <==> tokens@.len() == 3 && tokens@[0] is Bytes && tokens@[1] is Address && tokens@[2] is Bytes,
            r matches Ok(o) ==> token_views(tokens@) == seq![
                AbiTokenView::Bytes(o@.id),
                AbiTokenView::Address(o@.predicate),
                AbiTokenView::Bytes(o@.data),
            ],
            r matches Err(e) ==> e@ == ErrorKind::AbiDecode,
    {
        if tokens.len() != 3 {
            return Err(Error::new(ErrorKind::AbiDecode));
        }
        match (&tokens[0], &tokens[1], &tokens[2]) {
            (AbiToken::Bytes(id), AbiToken::Address(predicate), AbiToken::Bytes(data)) => {
                let o = StateObject::new(id.as_slice(), *predicate, data.as_slice());
                proof {
                    assert(token_views(tokens@) =~= seq![
                        AbiTokenView::Bytes(o@.id),
                        AbiTokenView::Address(o@.predicate),
                        AbiTokenView::Bytes(o@.data),
                    ]);
                }
                Ok(o)
            },
            _ => Err(Error::new(ErrorKind::AbiDecode)),
        }
    }

    /// Decodes an object.  Fails if the bytes are not the encoding of a
    /// state object, or if the machine cannot decode at all.
    pub fn from_abi(data: &[u8]) -> (r: Result<StateObject, Error>)
        ensures
            r is Ok <==> abi_parse(data@) is Some && abi_can_decode(),
            r matches Ok(o) ==> abi_parse(data@) == Some((o@.id, o@.predicate, o@.data)),
            r matches Err(e) ==> e@ == ErrorKind::AbiDecode,
    {
        if (usize::MAX as u64) < 0x2_0000_0040 {
            return Err(Error::new(ErrorKind::AbiDecode));
        }
        match abi_decode(data) {
            None => Err(Error::new(ErrorKind::AbiDecode)),
            Some(decoded) => {
                proof {
                    let views = token_views(decoded@);
                    assert(views.len() == 3);
                    assert(views[0] == decoded@[0]@ && views[1] == decoded@[1]@ && views[2] == decoded@[2]@);
                }
                let r = StateObject::from_tokens(decoded);
                proof {
                    if r is Ok {
                        let o = r->Ok_0;
                        let views = token_views(decoded@);
                        assert(views[0] == AbiTokenView::Bytes(o@.id));
                        assert(views[1] == AbiTokenView::Address(o@.predicate));
                        assert(views[2] == AbiTokenView::Bytes(o@.data));
                    }
                }
                r
            },
        }
    }
}

} // verus!
