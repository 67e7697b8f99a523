use crate::le_bytes::{le_u64, lemma_le_u64_round_trip, push_u64_le, read_u64_le, u64_le};
use vstd::prelude::*;
use vstd::slice::{slice_subrange, slice_to_vec};

verus! {

/// The schema version written in front of every encoded operation.
pub const SCHEMA_VERSION: u8 = 1;

pub const TAG_CREATE_COLLECTION: u8 = 0;
pub const TAG_DELETE_COLLECTION: u8 = 1;
pub const TAG_ADD_PEER: u8 = 2;
pub const TAG_REMOVE_PEER: u8 = 3;

/// A cluster metadata operation carried in a consensus entry's payload. Variants this
/// version does not know are kept, with their raw bytes, as `Unrecognized`.
#[derive(Debug, Clone)]
pub enum ConsensusOperation {
    CreateCollection { name: Vec<u8>, shard_number: u64 },
    DeleteCollection { name: Vec<u8> },
    AddPeer { peer_id: u64, uri: Vec<u8> },
    RemovePeer { peer_id: u64 },
    Unrecognized { tag: u8, payload: Vec<u8> },
}

/// An operation as a value.
pub ghost enum OpView {
    CreateCollection { name: Seq<u8>, shard_number: u64 },
    DeleteCollection { name: Seq<u8> },
    AddPeer { peer_id: u64, uri: Seq<u8> },
    RemovePeer { peer_id: u64 },
    Unrecognized { tag: u8, payload: Seq<u8> },
}

impl View for ConsensusOperation {
    type V = OpView;

    open spec fn view(&self) -> OpView {
        match self {
            ConsensusOperation::CreateCollection { name, shard_number } => OpView::CreateCollection {
                name: name@,
                shard_number: *shard_number,
            },
            ConsensusOperation::DeleteCollection { name } => OpView::DeleteCollection { name: name@ },
            ConsensusOperation::AddPeer { peer_id, uri } => OpView::AddPeer {
                peer_id: *peer_id,
                uri: uri@,
            },
            ConsensusOperation::RemovePeer { peer_id } => OpView::RemovePeer { peer_id: *peer_id },
            ConsensusOperation::Unrecognized { tag, payload } => OpView::Unrecognized {
                tag: *tag,
                payload: payload@,
            },
        }
    }
}

/// Why a payload does not decode into an operation.
#[derive(Debug, Clone, Copy, PartialEq, Eq, Structural)]
pub enum CodecError {
    /// The payload is written in a schema version this code does not read.
    UnknownSchema,
    /// The payload is cut short, too long, or empty.
    Malformed,
}

/// A tag that names a known variant.
pub open spec fn known_tag(t: u8) -> bool {
    t <= TAG_REMOVE_PEER
}

/// An operation that encodes to bytes it decodes back from: an unrecognized one carries a
/// tag no known variant has.
pub open spec fn representable(op: OpView) -> bool {
    op matches OpView::Unrecognized { tag, .. } ==> !known_tag(tag)
}

/// A length-prefixed byte string.
pub open spec fn bytes_field(b: Seq<u8>) -> Seq<u8> {
    u64_le(b.len() as u64) + b
}

/// The encoding of an operation: version, tag, then the variant's fields.
pub open spec fn op_bytes(op: OpView) -> Seq<u8> {
    match op {
        OpView::CreateCollection { name, shard_number } => seq![SCHEMA_VERSION, TAG_CREATE_COLLECTION]
            + bytes_field(name) + u64_le(shard_number),
        OpView::DeleteCollection { name } => seq![SCHEMA_VERSION, TAG_DELETE_COLLECTION]
            + bytes_field(name),
        OpView::AddPeer { peer_id, uri } => seq![SCHEMA_VERSION, TAG_ADD_PEER] + u64_le(peer_id)
            + bytes_field(uri),
        OpView::RemovePeer { peer_id } => seq![SCHEMA_VERSION, TAG_REMOVE_PEER] + u64_le(peer_id),
        OpView::Unrecognized { tag, payload } => seq![SCHEMA_VERSION, tag] + payload,
    }
}

/// The length-prefixed byte string at the start of `b`, and what follows it.
pub open spec fn take_bytes(b: Seq<u8>) -> Option<(Seq<u8>, Seq<u8>)> {
    if b.len() >= 8 && le_u64(b.subrange(0, 8)) <= b.len() - 8 {
        let end = 8 + le_u64(b.subrange(0, 8));
        Some((b.subrange(8, end), b.subrange(end, b.len() as int)))
    } else {
        None
    }
}

/// The operation that `b` encodes.
pub open spec fn parse_op(b: Seq<u8>) -> Result<OpView, CodecError> {
    if b.len() < 2 {
        if b.len() == 1 && b[0] != SCHEMA_VERSION {
            Err(CodecError::UnknownSchema)
        } else {
            Err(CodecError::Malformed)
        }
    } else if b[0] != SCHEMA_VERSION {
        Err(CodecError::UnknownSchema)
    } else {
        let tag = b[1];
        let body = b.subrange(2, b.len() as int);
        if tag == TAG_CREATE_COLLECTION {
            match take_bytes(body) {
                Some((name, rest)) => if rest.len() == 8 {
                    Ok(OpView::CreateCollection { name, shard_number: le_u64(rest) })
                } else {
                    Err(CodecError::Malformed)
                },
                None => Err(CodecError::Malformed),
            }
        } else if tag == TAG_DELETE_COLLECTION {
            match take_bytes(body) {
                Some((name, rest)) => if rest.len() == 0 {
                    Ok(OpView::DeleteCollection { name })
                } else {
                    Err(CodecError::Malformed)
                },
                None => Err(CodecError::Malformed),
            }
        } else if tag == TAG_ADD_PEER {
            if body.len() < 8 {
                Err(CodecError::Malformed)
            } else {
                match take_bytes(body.subrange(8, body.len() as int)) {
                    Some((uri, rest)) => if rest.len() == 0 {
                        Ok(OpView::AddPeer { peer_id: le_u64(body.subrange(0, 8)), uri })
                    } else {
                        Err(CodecError::Malformed)
                    },
                    None => Err(CodecError::Malformed),
                }
            }
        } else if tag == TAG_REMOVE_PEER {
            if body.len() == 8 {
                Ok(OpView::RemovePeer { peer_id: le_u64(body) })
            } else {
                Err(CodecError::Malformed)
            }
        } else {
            Ok(OpView::Unrecognized { tag, payload: body })
        }
    }
}

proof fn lemma_take_bytes(b: Seq<u8>, rest: Seq<u8>)
    requires
        b.len() <= u64::MAX,
    ensures
        take_bytes(bytes_field(b) + rest) == Some((b, rest)),
{
    let s = bytes_field(b) + rest;
    lemma_le_u64_round_trip(b.len() as u64);
    assert(s.subrange(0, 8) =~= u64_le(b.len() as u64));
    assert(s.subrange(8, 8 + b.len() as int) =~= b);
    assert(s.subrange(8 + b.len() as int, s.len() as int) =~= rest);
}

/// Decoding an encoded operation gives the operation back.
pub proof fn lemma_codec_round_trip(op: OpView)
    requires
        representable(op),
        op matches OpView::CreateCollection { name, .. } ==> name.len() <= u64::MAX,
        op matches OpView::DeleteCollection { name } ==> name.len() <= u64::MAX,
        op matches OpView::AddPeer { uri, .. } ==> uri.len() <= u64::MAX,
    ensures
        parse_op(op_bytes(op)) == Ok::<OpView, CodecError>(op),
{
    let b = op_bytes(op);
    let body = b.subrange(2, b.len() as int);
    match op {
        OpView::CreateCollection { name, shard_number } => {
            assert(body =~= bytes_field(name) + u64_le(shard_number));
            lemma_take_bytes(name, u64_le(shard_number));
            lemma_le_u64_round_trip(shard_number);
        },
        OpView::DeleteCollection { name } => {
            assert(body =~= bytes_field(name) + Seq::<u8>::empty());
            lemma_take_bytes(name, Seq::<u8>::empty());
        },
        OpView::AddPeer { peer_id, uri } => {
            assert(body.subrange(0, 8) =~= u64_le(peer_id));
            assert(body.subrange(8, body.len() as int) =~= bytes_field(uri) + Seq::<u8>::empty());
            lemma_take_bytes(uri, Seq::<u8>::empty());
            lemma_le_u64_round_trip(peer_id);
        },
        OpView::RemovePeer { peer_id } => {
            assert(body =~= u64_le(peer_id));
            lemma_le_u64_round_trip(peer_id);
        },
        OpView::Unrecognized { tag, payload } => {
            assert(body =~= payload);
        },
    }
}

fn push_bytes(out: &mut Vec<u8>, b: &[u8])
    ensures
        final(out)@ == old(out)@ + b@,
{
    let mut i: usize = 0;
    while i < b.len()
        invariant
            i <= b@.len(),
            out@ == old(out)@ + b@.take(i as int),
        decreases b@.len() - i,
    {
        out.push(b[i]);
        assert(b@.take(i + 1) =~= b@.take(i as int).push(b@[i as int]));
        i = i + 1;
    }
    assert(b@.take(i as int) =~= b@);
}

fn push_bytes_field(out: &mut Vec<u8>, b: &[u8])
    ensures
        final(out)@ == old(out)@ + bytes_field(b@),
{
    push_u64_le(out, b.len() as u64);
    push_bytes(out, b);
    assert(out@ =~= old(out)@ + bytes_field(b@));
}

/// The bytes of `op`; the same operation always gives the same bytes.
pub fn encode(op: &ConsensusOperation) -> (r: Vec<u8>)
    ensures
        r@ == op_bytes(op@),
{
    let mut b: Vec<u8> = Vec::new();
    b.push(SCHEMA_VERSION);
    match op {
        ConsensusOperation::CreateCollection { name, shard_number } => {
            b.push(TAG_CREATE_COLLECTION);
            push_bytes_field(&mut b, name.as_slice());
            push_u64_le(&mut b, *shard_number);
        },
        ConsensusOperation::DeleteCollection { name } => {
            b.push(TAG_DELETE_COLLECTION);
            push_bytes_field(&mut b, name.as_slice());
        },
        ConsensusOperation::AddPeer { peer_id, uri } => {
            b.push(TAG_ADD_PEER);
            push_u64_le(&mut b, *peer_id);
            push_bytes_field(&mut b, uri.as_slice());
        },
        ConsensusOperation::RemovePeer { peer_id } => {
            b.push(TAG_REMOVE_PEER);
            push_u64_le(&mut b, *peer_id);
        },
        ConsensusOperation::Unrecognized { tag, payload } => {
            b.push(*tag);
            push_bytes(&mut b, payload.as_slice());
        },
    }
    assert(b@ =~= op_bytes(op@));
    b
}

/// The length-prefixed byte string at `b[at..]`, and where it ends.
fn read_bytes_field(b: &[u8], at: usize) -> (r: Option<(Vec<u8>, usize)>)
    requires
        at <= b@.len(),
    ensures
        r is None <==> take_bytes(b@.subrange(at as int, b@.len() as int)) is None,
        r matches Some((v, end)) ==> ({
            let t = take_bytes(b@.subrange(at as int, b@.len() as int))->Some_0;
            &&& v@ == t.0
            &&& end <= b@.len()
            &&& b@.subrange(end as int, b@.len() as int) == t.1
        }),
{
    let ghost s = b@.subrange(at as int, b@.len() as int);
    if b.len() - at < 8 {
        return None;
    }
    let len = read_u64_le(b, at);
    assert(s.subrange(0, 8) =~= b@.subrange(at as int, at + 8));
    if len > (b.len() - at - 8) as u64 {
        return None;
    }
    let end = at + 8 + len as usize;
    let v = slice_to_vec(slice_subrange(b, at + 8, end));
    assert(v@ =~= s.subrange(8, 8 + len));
    assert(b@.subrange(end as int, b@.len() as int) =~= s.subrange(8 + len, s.len() as int));
    Some((v, end))
}

/// The operation that `b` encodes: `UnknownSchema` when it starts with another version,
/// `Malformed` when it is cut short, too long, or empty.
pub fn decode(b: &[u8]) -> (r: Result<ConsensusOperation, CodecError>)
    ensures
        r matches Ok(op) ==> parse_op(b@) == Ok::<OpView, CodecError>(op@),
        r matches Err(e) ==> parse_op(b@) == Err::<OpView, CodecError>(e),
{
    if b.len() < 2 {
        if b.len() == 1 && b[0] != SCHEMA_VERSION {
            return Err(CodecError::UnknownSchema);
        }
        return Err(CodecError::Malformed);
    }
    if b[0] != SCHEMA_VERSION {
        return Err(CodecError::UnknownSchema);
    }
    let tag = b[1];
    let ghost body = b@.subrange(2, b@.len() as int);
    if tag == TAG_CREATE_COLLECTION {
        assert(body =~= b@.subrange(2, b@.len() as int));
        match read_bytes_field(b, 2) {
            Some((name, end)) => {
                if b.len() - end == 8 {
                    let shard_number = read_u64_le(b, end);
                    assert(b@.subrange(end as int, end + 8) =~= b@.subrange(end as int, b@.len() as int));
                    Ok(ConsensusOperation::CreateCollection { name, shard_number })
                } else {
                    Err(CodecError::Malformed)
                }
            },
            None => Err(CodecError::Malformed),
        }
    } else if tag == TAG_DELETE_COLLECTION {
        match read_bytes_field(b, 2) {
            Some((name, end)) => {
                if b.len() == end {
                    Ok(ConsensusOperation::DeleteCollection { name })
                } else {
                    Err(CodecError::Malformed)
                }
            },
            None => Err(CodecError::Malformed),
        }
    } else if tag == TAG_ADD_PEER {
        if b.len() - 2 < 8 {
            return Err(CodecError::Malformed);
        }
        let peer_id = read_u64_le(b, 2);
        assert(body.subrange(0, 8) =~= b@.subrange(2, 10));
        assert(body.subrange(8, body.len() as int) =~= b@.subrange(10, b@.len() as int));
        match read_bytes_field(b, 10) {
            Some((uri, end)) => {
                if b.len() == end {
                    Ok(ConsensusOperation::AddPeer { peer_id, uri })
                } else {
                    Err(CodecError::Malformed)
                }
            },
            None => Err(CodecError::Malformed),
        }
    } else if tag == TAG_REMOVE_PEER {
        if b.len() - 2 == 8 {
            let peer_id = read_u64_le(b, 2);
            assert(body =~= b@.subrange(2, 10));
            Ok(ConsensusOperation::RemovePeer { peer_id })
        } else {
            Err(CodecError::Malformed)
        }
    } else {
        let payload = slice_to_vec(slice_subrange(b, 2, b.len()));
        Ok(ConsensusOperation::Unrecognized { tag, payload })
    }
}

} // verus!
