//! The peer wire protocol: handshake, message frames, per-peer session state.
use crate::error::{PeerError, TrackerError, TrackerErrorModel};
use crate::text::{nat_text, push_decimal};
use crate::value::{dict_lookup, BValue, ByteString, Dictionary, Integer};
use vstd::prelude::*;
use vstd::string::StringSliceAdditionalSpecFns;

verus! {

/// Big-endian bytes of a 32-bit number.
pub open spec fn be32(x: u32) -> Seq<u8> {
    seq![((x >> 24u32) & 0xffu32) as u8, ((x >> 16u32) & 0xffu32) as u8, ((x >> 8u32) & 0xffu32) as u8, (x & 0xffu32) as u8]
}

/// The number that four big-endian bytes spell.
pub open spec fn be32_value(a: u8, b: u8, c: u8, d: u8) -> u32 {
    ((a as u32) << 24u32) | ((b as u32) << 16u32) | ((c as u32) << 8u32) | (d as u32)
}

/// The 32-bit number at `start` in `s`, if four bytes are there.
pub open spec fn read_u32_at(s: Seq<u8>, start: int) -> Option<u32> {
    if 0 <= start && start + 4 <= s.len() {
        Some(be32_value(s[start], s[start + 1], s[start + 2], s[start + 3]))
    } else {
        None
    }
}

pub proof fn lemma_be32_round_trip(x: u32)
    ensures
        be32_value(be32(x)[0], be32(x)[1], be32(x)[2], be32(x)[3]) == x,
{
    assert(((((x >> 24u32) & 0xffu32) as u8) as u32) << 24u32 | ((((x >> 16u32) & 0xffu32) as u8) as u32) << 16u32
        | ((((x >> 8u32) & 0xffu32) as u8) as u32) << 8u32 | (((x & 0xffu32) as u8) as u32) == x) by (bit_vector);
}

/// Reads the big-endian 32-bit number at `start..start + 4` of `slice`.
pub fn try_from_slice(slice: &[u8], start: usize) -> (r: Result<u32, PeerError>)
    ensures
        match read_u32_at(slice@, start as int) {
            Some(x) => r == Ok::<u32, PeerError>(x),
            None => r == Err::<u32, PeerError>(PeerError::MalformedFrame),
        },
{
    if start > slice.len() || slice.len() - start < 4 {
        return Err(PeerError::MalformedFrame);
    }
    let a = slice[start];
    let b = slice[start + 1];
    let c = slice[start + 2];
    let d = slice[start + 3];
    Ok(((a as u32) << 24u32) | ((b as u32) << 16u32) | ((c as u32) << 8u32) | (d as u32))
}

/// Appends the big-endian bytes of `x`.
fn push_be32(x: u32, out: &mut Vec<u8>)
    ensures
        final(out)@ == old(out)@ + be32(x),
{
    out.push(((x >> 24u32) & 0xffu32) as u8);
    out.push(((x >> 16u32) & 0xffu32) as u8);
    out.push(((x >> 8u32) & 0xffu32) as u8);
    out.push((x & 0xffu32) as u8);
    assert(final(out)@ =~= old(out)@ + be32(x));
}

/// Appends every byte of `data`.
fn push_all(data: &[u8], out: &mut Vec<u8>)
    ensures
        final(out)@ == old(out)@ + data@,
{
    let ghost start = out@;
    let mut i: usize = 0;
    while i < data.len()
        invariant
            i <= data@.len(),
            out@ == start + data@.subrange(0, i as int),
        decreases data@.len() - i,
    {
        out.push(data[i]);
        i = i + 1;
        assert(out@ =~= start + data@.subrange(0, i as int));
    }
    assert(data@.subrange(0, i as int) =~= data@);
}

/// Copies `data[start..]` into a new vector.
fn copy_from(data: &[u8], start: usize) -> (r: Vec<u8>)
    requires
        start <= data@.len(),
    ensures
        r@ == data@.subrange(start as int, data@.len() as int),
{
    let mut out: Vec<u8> = Vec::new();
    let mut i: usize = start;
    while i < data.len()
        invariant
            start <= i <= data@.len(),
            out@ == data@.subrange(start as int, i as int),
        decreases data@.len() - i,
    {
        out.push(data[i]);
        i = i + 1;
        assert(out@ =~= data@.subrange(start as int, i as int));
    }
    out
}

/// A peer wire message.
#[derive(Debug, PartialEq, Eq)]
pub enum PeerMessage {
    Choke,
    Unchoke,
    Interested,
    NotInterested,
    /// `index`
    Have(u32),
    /// `bitfield`
    Bitfield(Vec<u8>),
    /// `index`, `begin`, `length`
    Request(u32, u32, u32),
    /// `index`, `begin`, `piece`
    Piece(u32, u32, Vec<u8>),
    /// `index`, `begin`, `length`
    Cancel(u32, u32, u32),
}

/// The model of a peer wire message.
pub enum MessageModel {
    Choke,
    Unchoke,
    Interested,
    NotInterested,
    Have(u32),
    Bitfield(Seq<u8>),
    Request(u32, u32, u32),
    Piece(u32, u32, Seq<u8>),
    Cancel(u32, u32, u32),
}

impl View for PeerMessage {
    type V = MessageModel;

    open spec fn view(&self) -> MessageModel {
        match self {
            PeerMessage::Choke => MessageModel::Choke,
            PeerMessage::Unchoke => MessageModel::Unchoke,
            PeerMessage::Interested => MessageModel::Interested,
            PeerMessage::NotInterested => MessageModel::NotInterested,
            PeerMessage::Have(i) => MessageModel::Have(*i),
            PeerMessage::Bitfield(b) => MessageModel::Bitfield(b@),
            PeerMessage::Request(i, b, l) => MessageModel::Request(*i, *b, *l),
            PeerMessage::Piece(i, b, p) => MessageModel::Piece(*i, *b, p@),
            PeerMessage::Cancel(i, b, l) => MessageModel::Cancel(*i, *b, *l),
        }
    }
}

/// The message id on the wire.
pub open spec fn message_id(m: MessageModel) -> u8 {
    match m {
        MessageModel::Choke => 0,
        MessageModel::Unchoke => 1,
        MessageModel::Interested => 2,
        MessageModel::NotInterested => 3,
        MessageModel::Have(_) => 4,
        MessageModel::Bitfield(_) => 5,
        MessageModel::Request(_, _, _) => 6,
        MessageModel::Piece(_, _, _) => 7,
        MessageModel::Cancel(_, _, _) => 8,
    }
}

/// The bytes after the message id.
pub open spec fn payload(m: MessageModel) -> Seq<u8> {
    match m {
        MessageModel::Have(i) => be32(i),
        MessageModel::Bitfield(b) => b,
        MessageModel::Request(i, b, l) => be32(i) + be32(b) + be32(l),
        MessageModel::Piece(i, b, p) => be32(i) + be32(b) + p,
        MessageModel::Cancel(i, b, l) => be32(i) + be32(b) + be32(l),
        _ => Seq::empty(),
    }
}

/// The whole frame: length prefix (`1 +` payload length), id, payload.
pub open spec fn frame(m: MessageModel) -> Seq<u8> {
    be32((1 + payload(m).len()) as u32) + seq![message_id(m)] + payload(m)
}

/// What [`PeerMessage::try_from_bytes`] makes of a frame. The length prefix is
/// not consulted: `Bitfield` and `Piece` take every byte to the end.
pub open spec fn spec_parse_message(c: Seq<u8>) -> Result<MessageModel, PeerError> {
    if c.len() < 5 {
        Err(PeerError::MalformedFrame)
    } else {
        let id = c[4];
        let field_a = read_u32_at(c, 5);
        let field_b = read_u32_at(c, 9);
        let field_c = read_u32_at(c, 13);
        if id == 0 {
            Ok(MessageModel::Choke)
        } else if id == 1 {
            Ok(MessageModel::Unchoke)
        } else if id == 2 {
            Ok(MessageModel::Interested)
        } else if id == 3 {
            Ok(MessageModel::NotInterested)
        } else if id == 4 {
            match field_a {
                Some(a) => Ok(MessageModel::Have(a)),
                None => Err(PeerError::MalformedFrame),
            }
        } else if id == 5 {
            Ok(MessageModel::Bitfield(c.subrange(5, c.len() as int)))
        } else if id == 6 || id == 8 {
            match (field_a, field_b, field_c) {
                (Some(a), Some(b), Some(l)) => if id == 6 {
                    Ok(MessageModel::Request(a, b, l))
                } else {
                    Ok(MessageModel::Cancel(a, b, l))
                },
                _ => Err(PeerError::MalformedFrame),
            }
        } else if id == 7 {
            match (field_a, field_b) {
                (Some(a), Some(b)) => Ok(MessageModel::Piece(a, b, c.subrange(13, c.len() as int))),
                _ => Err(PeerError::MalformedFrame),
            }
        } else {
            Err(PeerError::UnknownMessage)
        }
    }
}

impl PeerMessage {
    /// The message id on the wire.
    pub fn id(&self) -> (r: u8)
        ensures
            r == message_id(self@),
    {
        match self {
            PeerMessage::Choke => 0,
            PeerMessage::Unchoke => 1,
            PeerMessage::Interested => 2,
            PeerMessage::NotInterested => 3,
            PeerMessage::Have(_) => 4,
            PeerMessage::Bitfield(_) => 5,
            PeerMessage::Request(_, _, _) => 6,
            PeerMessage::Piece(_, _, _) => 7,
            PeerMessage::Cancel(_, _, _) => 8,
        }
    }

    /// Get inner message (if any) as bytes.
    fn message_as_bytes(&self) -> (r: Vec<u8>)
        ensures
            r@ == payload(self@),
    {
        let mut out: Vec<u8> = Vec::new();
        match self {
            PeerMessage::Have(f1) => push_be32(*f1, &mut out),
            PeerMessage::Bitfield(f1) => push_all(f1.as_slice(), &mut out),
            PeerMessage::Request(f1, f2, f3) | PeerMessage::Cancel(f1, f2, f3) => {
                push_be32(*f1, &mut out);
                push_be32(*f2, &mut out);
                push_be32(*f3, &mut out);
            },
            PeerMessage::Piece(f1, f2, f3) => {
                push_be32(*f1, &mut out);
                push_be32(*f2, &mut out);
                push_all(f3.as_slice(), &mut out);
            },
            _ => {},
        }
        assert(out@ =~= payload(self@));
        out
    }

    /// The wire frame of this message.
    pub fn as_bytes(&self) -> (r: Vec<u8>)
        requires
            payload(self@).len() < u32::MAX,
        ensures
            r@ == frame(self@),
    {
        let mut payload_bytes = self.message_as_bytes();
        let mut out: Vec<u8> = Vec::new();
        push_be32((1 + payload_bytes.len()) as u32, &mut out);
        out.push(self.id());
        out.append(&mut payload_bytes);
        assert(out@ =~= frame(self@));
        out
    }

    /// Decode a wire frame (length prefix included).
    pub fn try_from_bytes(contents: &[u8]) -> (r: Result<Self, PeerError>)
        ensures
            match spec_parse_message(contents@) {
                Ok(m) => r is Ok && r->Ok_0@ == m,
                Err(e) => r is Err && r->Err_0 == e,
            },
    {
        if contents.len() < 5 {
            return Err(PeerError::MalformedFrame);
        }
        let variant = contents[4];
        let field_a = try_from_slice(contents, 5);
        let field_b = try_from_slice(contents, 9);
        let field_c = try_from_slice(contents, 13);
        if variant == 0 {
            Ok(PeerMessage::Choke)
        } else if variant == 1 {
            Ok(PeerMessage::Unchoke)
        } else if variant == 2 {
            Ok(PeerMessage::Interested)
        } else if variant == 3 {
            Ok(PeerMessage::NotInterested)
        } else if variant == 4 {
            match field_a {
                Ok(a) => Ok(PeerMessage::Have(a)),
                Err(e) => Err(e),
            }
        } else if variant == 5 {
            Ok(PeerMessage::Bitfield(copy_from(contents, 5)))
        } else if variant == 6 || variant == 8 {
            match (field_a, field_b, field_c) {
                (Ok(a), Ok(b), Ok(l)) => if variant == 6 {
                    Ok(PeerMessage::Request(a, b, l))
                } else {
                    Ok(PeerMessage::Cancel(a, b, l))
                },
                _ => Err(PeerError::MalformedFrame),
            }
        } else if variant == 7 {
            match (field_a, field_b) {
                (Ok(a), Ok(b)) => Ok(PeerMessage::Piece(a, b, copy_from(contents, 13))),
                _ => Err(PeerError::MalformedFrame),
            }
        } else {
            Err(PeerError::UnknownMessage)
        }
    }
}

/// `BitTorrent protocol`, the protocol identifier of the handshake.
pub open spec fn protocol_name() -> Seq<u8> {
    seq![66u8, 105, 116, 84, 111, 114, 114, 101, 110, 116, 32, 112, 114, 111, 116, 111, 99, 111, 108]
}

/// The 68-byte handshake: 19, the protocol name, eight zero bytes, the
/// info-hash and the peer id.
pub open spec fn handshake_bytes(hash: Seq<u8>, id: Seq<u8>) -> Seq<u8> {
    seq![19u8] + protocol_name() + Seq::new(8, |i: int| 0u8) + hash + id
}

/// Peer handshake: always the 68 bytes of [`handshake_bytes`].
#[derive(Debug, PartialEq, Eq)]
pub struct PeerHandshake(Vec<u8>);

impl PeerHandshake {
    /// The bytes of this handshake.
    pub closed spec fn bytes(&self) -> Seq<u8> {
        self.0@
    }

    /// A handshake is 68 bytes long.
    #[verifier::type_invariant]
    pub open spec fn inv(self) -> bool {
        self.bytes().len() == 68
    }

    /// Create the handshake for the torrent `hash` (a 20-byte info-hash) and
    /// the local peer `id`.
    pub fn new(hash: Vec<u8>, id: [u8; 20]) -> (r: Self)
        requires
            hash@.len() == 20,
        ensures
            r.bytes() == handshake_bytes(hash@, id@),
            r.bytes().len() == 68,
    {
        let mut bytes: Vec<u8> = Vec::new();
        bytes.push(19u8);
        let name: Vec<u8> = vec![66u8, 105, 116, 84, 111, 114, 114, 101, 110, 116, 32, 112, 114, 111, 116, 111, 99, 111, 108];
        assert(name@ =~= protocol_name());
        push_all(name.as_slice(), &mut bytes);
        let mut k: usize = 0;
        let ghost before = bytes@;
        while k < 8
            invariant
                k <= 8,
                bytes@ == before + Seq::new(k as nat, |i: int| 0u8),
            decreases 8 - k,
        {
            bytes.push(0u8);
            k = k + 1;
            assert(bytes@ =~= before + Seq::new(k as nat, |i: int| 0u8));
        }
        push_all(hash.as_slice(), &mut bytes);
        push_all(id.as_slice(), &mut bytes);
        assert(bytes@ =~= handshake_bytes(hash@, id@));
        Self(bytes)
    }

    /// Get handshake as bytes.
    pub fn as_bytes(&self) -> (r: Vec<u8>)
        ensures
            r@ == self.bytes(),
            r@.len() == 68,
    {
        proof {
            use_type_invariant(self);
        }
        let mut out: Vec<u8> = Vec::new();
        push_all(self.0.as_slice(), &mut out);
        out
    }

    /// Check a remote handshake: it must be 68 bytes long and carry our
    /// info-hash at bytes 28..48. The peer id is not checked.
    pub fn verify(&self, bytes: &[u8]) -> (r: Result<(), PeerError>)
        ensures
            r is Ok <==> (bytes@.len() == 68 && bytes@.subrange(28, 48) == self.bytes().subrange(28, 48)),
            r is Err ==> r->Err_0 == PeerError::Handshake,
    {
        proof {
            use_type_invariant(self);
        }
        if bytes.len() != 68 {
            return Err(PeerError::Handshake);
        }
        let mut k: usize = 28;
        while k < 48
            invariant
                bytes@.len() == 68,
                self.0@.len() == 68,
                28 <= k <= 48,
                forall|j: int| 28 <= j < k ==> #[trigger] bytes@[j] == self.0@[j],
            decreases 48 - k,
        {
            if bytes[k] != self.0[k] {
                assert(bytes@.subrange(28, 48)[k - 28] != self.0@.subrange(28, 48)[k - 28]);
                return Err(PeerError::Handshake);
            }
            k = k + 1;
        }
        assert forall|j: int| 0 <= j < 20 implies #[trigger] bytes@.subrange(28, 48)[j] == self.0@.subrange(28, 48)[j] by {
            assert(bytes@[28 + j] == self.0@[28 + j]);
        }
        assert(bytes@.subrange(28, 48) =~= self.0@.subrange(28, 48));
        Ok(())
    }
}

/// The bit of piece `index`: byte `index / 8`, mask `0x80 >> (index % 8)`.
pub open spec fn bit_mask(index: int) -> u8 {
    (128u8 >> ((index % 8) as u8)) as u8
}

/// Sets the bit of piece `index` in `bitfield`. Returns `false`, leaving the
/// bitfield as it was, when `index` is beyond its end.
pub fn set_bit(bitfield: &mut Vec<u8>, index: usize) -> (r: bool)
    ensures
        r == (index / 8 < old(bitfield)@.len()),
        r ==> final(bitfield)@ == old(bitfield)@.update(
            (index / 8) as int,
            old(bitfield)@[(index / 8) as int] | bit_mask(index as int),
        ),
        !r ==> final(bitfield)@ == old(bitfield)@,
{
    let byte_index = index / 8;
    if byte_index >= bitfield.len() {
        return false;
    }
    let bit_index = (index % 8) as u8;
    let old_byte = bitfield[byte_index];
    bitfield.set(byte_index, old_byte | (128u8 >> bit_index));
    true
}

/// Whether the bit of piece `index` is set (`false` beyond the end).
pub fn has_bit(bitfield: &Vec<u8>, index: usize) -> (r: bool)
    ensures
        r == (index / 8 < bitfield@.len() && bitfield@[(index / 8) as int] & bit_mask(index as int) != 0),
{
    let byte_index = index / 8;
    if byte_index >= bitfield.len() {
        return false;
    }
    let bit_index = (index % 8) as u8;
    bitfield[byte_index] & (128u8 >> bit_index) != 0
}

/// Bytes asked for in one request.
pub const BLOCK_LENGTH: u32 = 16384;

/// The length of piece `index` when `total_length` bytes are cut into pieces
/// of `piece_length` (the last piece may be shorter; none past the end).
pub open spec fn piece_size(index: int, piece_length: int, total_length: int) -> int {
    let start = index * piece_length;
    if start >= total_length {
        0
    } else if total_length - start < piece_length {
        total_length - start
    } else {
        piece_length
    }
}

/// The request for the block that starts at `begin` in piece `index`: up to
/// [`BLOCK_LENGTH`] bytes, never past the end of the piece; `None` once
/// `begin` has reached that end.
pub fn block_request(index: u32, begin: u32, piece_length: u32, total_length: u64) -> (r: Option<PeerMessage>)
    ensures
        ({
            let size = piece_size(index as int, piece_length as int, total_length as int);
            if begin < size {
                let rest = size - begin;
                let len = if rest < BLOCK_LENGTH { rest } else { BLOCK_LENGTH as int };
                r matches Some(m) && m@ == MessageModel::Request(index, begin, len as u32)
            } else {
                r is None
            }
        }),
{
    assert((index as u64) * (piece_length as u64) <= 0xffff_ffffu64 * 0xffff_ffffu64) by (nonlinear_arith)
        requires
            index <= 0xffff_ffffu32,
            piece_length <= 0xffff_ffffu32,
    ;
    let start: u64 = (index as u64) * (piece_length as u64);
    let size: u64 = if start >= total_length {
        0
    } else if total_length - start < piece_length as u64 {
        total_length - start
    } else {
        piece_length as u64
    };
    if (begin as u64) >= size {
        return None;
    }
    let rest = size - begin as u64;
    let len: u32 = if rest < BLOCK_LENGTH as u64 { rest as u32 } else { BLOCK_LENGTH };
    Some(PeerMessage::Request(index, begin, len))
}

/// The requests for the blocks of piece `index` from offset `begin` to its end.
pub open spec fn blocks_from(index: u32, begin: int, piece_length: u32, total_length: u64) -> Seq<MessageModel>
    decreases piece_size(index as int, piece_length as int, total_length as int) - begin,
{
    let size = piece_size(index as int, piece_length as int, total_length as int);
    if 0 <= begin < size {
        let rest = size - begin;
        let len = if rest < BLOCK_LENGTH {
            rest
        } else {
            BLOCK_LENGTH as int
        };
        seq![MessageModel::Request(index, begin as u32, len as u32)] + blocks_from(
            index,
            begin + len,
            piece_length,
            total_length,
        )
    } else {
        Seq::empty()
    }
}

/// Whether the bit of piece `index` is set in `bits`.
pub open spec fn bit_set(bits: Seq<u8>, index: int) -> bool {
    index / 8 < bits.len() && bits[index / 8] & bit_mask(index) != 0
}

/// The requests for every block of the first `n` pieces that `bits` marks,
/// piece after piece.
pub open spec fn wanted_blocks(bits: Seq<u8>, n: int, piece_length: u32, total_length: u64) -> Seq<MessageModel>
    decreases n,
{
    if n <= 0 {
        Seq::empty()
    } else {
        wanted_blocks(bits, n - 1, piece_length, total_length) + if bit_set(bits, n - 1) {
            blocks_from((n - 1) as u32, 0, piece_length, total_length)
        } else {
            Seq::empty()
        }
    }
}

/// The requests to send a peer whose bitfield is `bits`: every block of
/// every piece among the first `piece_count` that the peer has, in order.
pub fn plan_requests(bits: &Vec<u8>, piece_count: u32, piece_length: u32, total_length: u64) -> (r: Vec<PeerMessage>)
    ensures
        r@.map_values(|m: PeerMessage| m@) == wanted_blocks(bits@, piece_count as int, piece_length, total_length),
{
    let mut out: Vec<PeerMessage> = Vec::new();
    let mut i: u32 = 0;
    assert(out@.map_values(|m: PeerMessage| m@) =~= Seq::<MessageModel>::empty());
    while i < piece_count
        invariant
            i <= piece_count,
            out@.map_values(|m: PeerMessage| m@) == wanted_blocks(bits@, i as int, piece_length, total_length),
        decreases piece_count - i,
    {
        let ghost target = wanted_blocks(bits@, i + 1, piece_length, total_length);
        if has_bit(bits, i as usize) {
            let mut begin: u32 = 0;
            loop
                invariant
                    out@.map_values(|m: PeerMessage| m@) + blocks_from(i, begin as int, piece_length, total_length) == target,
                    target == wanted_blocks(bits@, i + 1, piece_length, total_length),
                    begin as int <= piece_size(i as int, piece_length as int, total_length as int),
                ensures
                    out@.map_values(|m: PeerMessage| m@) == target,
                decreases piece_size(i as int, piece_length as int, total_length as int) - begin,
            {
                match block_request(i, begin, piece_length, total_length) {
                    Some(request) => {
                        let ghost before = out@.map_values(|m: PeerMessage| m@);
                        let ghost rm = request@;
                        let length = match request {
                            PeerMessage::Request(_, _, length) => length,
                            _ => 0,
                        };
                        out.push(request);
                        proof {
                            assert(out@.map_values(|m: PeerMessage| m@) =~= before.push(rm));
                        }
                        begin = begin + length;
                    },
                    None => {
                        assert(blocks_from(i, begin as int, piece_length, total_length) =~= Seq::<MessageModel>::empty());
                        break;
                    },
                }
            }
        } else {
            assert(wanted_blocks(bits@, i + 1, piece_length, total_length) =~= wanted_blocks(bits@, i as int, piece_length, total_length));
        }
        i = i + 1;
    }
    out
}

/// A block of piece data: piece index, offset in the piece, bytes.
pub type Block = (u32, u32, Vec<u8>);

/// The session state of one peer connection.
pub struct PeerState {
    /// We are choking the peer.
    pub am_choking: bool,
    /// We are interested in the peer.
    pub am_interested: bool,
    /// The peer is choking us.
    pub peer_choking: bool,
    /// The peer is interested in us.
    pub peer_interested: bool,
    /// The pieces the peer has, one bit each.
    pub bitfield: Vec<u8>,
    /// Block requests have been sent to the peer.
    pub requested: bool,
}

impl PeerState {
    /// The state of a fresh connection: both sides choking and not interested,
    /// no piece known, room for `bitfield_length` bytes of bits.
    pub fn new(bitfield_length: usize) -> (r: Self)
        ensures
            r.am_choking && !r.am_interested && r.peer_choking && !r.peer_interested && !r.requested,
            r.bitfield@ == Seq::new(bitfield_length as nat, |i: int| 0u8),
    {
        let mut bitfield: Vec<u8> = Vec::new();
        let mut k: usize = 0;
        while k < bitfield_length
            invariant
                k <= bitfield_length,
                bitfield@ == Seq::new(k as nat, |i: int| 0u8),
            decreases bitfield_length - k,
        {
            bitfield.push(0u8);
            k = k + 1;
            assert(bitfield@ =~= Seq::new(k as nat, |i: int| 0u8));
        }
        PeerState {
            am_choking: true,
            am_interested: false,
            peer_choking: true,
            peer_interested: false,
            bitfield,
            requested: false,
        }
    }

    /// Apply one message from the peer. A `Piece` is handed back for the
    /// download buffer; `Request` and `Cancel` change nothing (this client
    /// does not upload); a `Have` beyond the bitfield is ignored.
    pub fn handle(&mut self, message: PeerMessage) -> (r: Option<Block>)
        ensures
            final(self).am_choking == old(self).am_choking,
            final(self).am_interested == old(self).am_interested,
            final(self).requested == old(self).requested,
            final(self).peer_choking == match message@ {
                MessageModel::Choke => true,
                MessageModel::Unchoke => false,
                _ => old(self).peer_choking,
            },
            final(self).peer_interested == match message@ {
                MessageModel::Interested => true,
                MessageModel::NotInterested => false,
                _ => old(self).peer_interested,
            },
            final(self).bitfield@ == match message@ {
                MessageModel::Have(i) => if (i as int) / 8 < old(self).bitfield@.len() {
                    old(self).bitfield@.update(
                        (i as int) / 8,
                        old(self).bitfield@[(i as int) / 8] | bit_mask(i as int),
                    )
                } else {
                    old(self).bitfield@
                },
                MessageModel::Bitfield(b) => b,
                _ => old(self).bitfield@,
            },
            match message@ {
                MessageModel::Piece(i, b, p) => r matches Some(blk) && blk.0 == i && blk.1 == b && blk.2@ == p,
                _ => r is None,
            },
    {
        match message {
            PeerMessage::Choke => {
                self.peer_choking = true;
                None
            },
            PeerMessage::Unchoke => {
                self.peer_choking = false;
                None
            },
            PeerMessage::Interested => {
                self.peer_interested = true;
                None
            },
            PeerMessage::NotInterested => {
                self.peer_interested = false;
                None
            },
            PeerMessage::Have(index) => {
                set_bit(&mut self.bitfield, index as usize);
                None
            },
            PeerMessage::Bitfield(bits) => {
                self.bitfield = bits;
                None
            },
            PeerMessage::Piece(index, begin, block) => Some((index, begin, block)),
            PeerMessage::Request(_, _, _) | PeerMessage::Cancel(_, _, _) => None,
        }
    }
}

impl PeerState {
    /// The requests to send now: once the peer no longer chokes us, every
    /// block of every piece it has, and only the first time; nothing otherwise.
    pub fn take_requests(&mut self, piece_count: u32, piece_length: u32, total_length: u64) -> (r: Vec<PeerMessage>)
        ensures
            final(self).am_choking == old(self).am_choking,
            final(self).am_interested == old(self).am_interested,
            final(self).peer_choking == old(self).peer_choking,
            final(self).peer_interested == old(self).peer_interested,
            final(self).bitfield@ == old(self).bitfield@,
            !old(self).peer_choking && !old(self).requested ==> final(self).requested
                && r@.map_values(|m: PeerMessage| m@) == wanted_blocks(
                old(self).bitfield@,
                piece_count as int,
                piece_length,
                total_length,
            ),
            old(self).peer_choking || old(self).requested ==> final(self).requested == old(self).requested
                && r@.len() == 0,
    {
        if !self.peer_choking && !self.requested {
            self.requested = true;
            plan_requests(&self.bitfield, piece_count, piece_length, total_length)
        } else {
            Vec::new()
        }
    }
}

/// The body length that a frame's 4-byte prefix announces; `None` for a
/// keep-alive (length zero), which has no body.
pub fn frame_length(prefix: &[u8]) -> (r: Result<Option<u32>, PeerError>)
    ensures
        match read_u32_at(prefix@, 0) {
            None => r == Err::<Option<u32>, PeerError>(PeerError::MalformedFrame),
            Some(n) => if n == 0 {
                r == Ok::<Option<u32>, PeerError>(None)
            } else {
                r == Ok::<Option<u32>, PeerError>(Some(n))
            },
        },
{
    match try_from_slice(prefix, 0) {
        Ok(0) => Ok(None),
        Ok(n) => Ok(Some(n)),
        Err(e) => Err(e),
    }
}

/// Torrent peer.
#[derive(Debug)]
pub struct Peer {
    /// Peer ID.
    id: Vec<u8>,
    /// IP address.
    ip: Vec<u8>,
    /// IP port.
    port: u16,
}

impl Peer {
    pub closed spec fn spec_id(&self) -> Seq<u8> {
        self.id@
    }

    pub closed spec fn spec_ip(&self) -> Seq<u8> {
        self.ip@
    }

    pub closed spec fn spec_port(&self) -> u16 {
        self.port
    }

    /// Create [`Peer`] from its tracker dictionary: `peer id` and `ip` byte
    /// strings and a `port` integer in `0..=65535`.
    pub fn from_dictionary(dictionary: &Dictionary) -> (r: Result<Self, TrackerError>)
        ensures
            match peer_spec(dictionary@) {
                Ok((id, ip, port)) => r is Ok && r->Ok_0.spec_id() == id && r->Ok_0.spec_ip() == ip
                    && r->Ok_0.spec_port() == port,
                Err(e) => r is Err && r->Err_0@ == e,
            },
    {
        let id = match dictionary.try_get_as::<ByteString>("peer id") {
            Ok(v) => v.0,
            Err(e) => return Err(TrackerError::Bencode(e)),
        };
        let ip = match dictionary.try_get_as::<ByteString>("ip") {
            Ok(v) => v.0,
            Err(e) => return Err(TrackerError::Bencode(e)),
        };
        let port = match dictionary.try_get_as::<Integer>("port") {
            Ok(v) => v.0,
            Err(e) => return Err(TrackerError::Bencode(e)),
        };
        if port < 0 || port > 65535 {
            return Err(TrackerError::InvalidPort);
        }
        Ok(Self { id, ip, port: port as u16 })
    }

    /// Peer ID.
    pub fn id(&self) -> (r: &Vec<u8>)
        ensures
            r@ == self.spec_id(),
    {
        &self.id
    }

    /// IP address, as text.
    pub fn ip(&self) -> (r: &Vec<u8>)
        ensures
            r@ == self.spec_ip(),
    {
        &self.ip
    }

    /// IP port.
    pub fn port(&self) -> (r: u16)
        ensures
            r == self.spec_port(),
    {
        self.port
    }

    /// `ip:port`, the address to dial. IPv6 literals (an `ip` holding `:`) are
    /// refused rather than dialled.
    pub fn socket_address(&self) -> (r: Result<Vec<u8>, PeerError>)
        ensures
            (exists|k: int| 0 <= k < self.spec_ip().len() && #[trigger] self.spec_ip()[k] == 58u8)
                ==> r == Err::<Vec<u8>, PeerError>(PeerError::UnsupportedAddress),
            !(exists|k: int| 0 <= k < self.spec_ip().len() && #[trigger] self.spec_ip()[k] == 58u8)
                ==> r is Ok && r->Ok_0@ == self.spec_ip() + seq![58u8] + nat_text(self.spec_port() as nat),
    {
        let mut out: Vec<u8> = Vec::new();
        let mut k: usize = 0;
        while k < self.ip.len()
            invariant
                k <= self.ip@.len(),
                out@ == self.ip@.subrange(0, k as int),
                forall|j: int| 0 <= j < k ==> self.ip@[j] != 58u8,
            decreases self.ip@.len() - k,
        {
            if self.ip[k] == 58u8 {
                assert(self.spec_ip()[k as int] == 58u8);
                return Err(PeerError::UnsupportedAddress);
            }
            out.push(self.ip[k]);
            k = k + 1;
            assert(out@ =~= self.ip@.subrange(0, k as int));
        }
        assert(self.ip@.subrange(0, k as int) =~= self.ip@);
        out.push(58u8);
        push_decimal(self.port as u64, &mut out);
        Ok(out)
    }
}

/// The three fields of a peer entry, in the order they are read.
pub open spec fn peer_spec(d: Seq<(Seq<u8>, BValue)>) -> Result<(Seq<u8>, Seq<u8>, u16), TrackerErrorModel> {
    match dict_lookup(d, "peer id".spec_bytes()) {
        None => Err(TrackerErrorModel::Bencode(crate::error::BencodeError::MissingKey)),
        Some(BValue::Bytes(id)) => match dict_lookup(d, "ip".spec_bytes()) {
            None => Err(TrackerErrorModel::Bencode(crate::error::BencodeError::MissingKey)),
            Some(BValue::Bytes(ip)) => match dict_lookup(d, "port".spec_bytes()) {
                None => Err(TrackerErrorModel::Bencode(crate::error::BencodeError::MissingKey)),
                Some(BValue::Int(port)) => if 0 <= port <= 65535 {
                    Ok((id, ip, port as u16))
                } else {
                    Err(TrackerErrorModel::InvalidPort)
                },
                Some(_) => Err(TrackerErrorModel::Bencode(crate::error::BencodeError::WrongType)),
            },
            Some(_) => Err(TrackerErrorModel::Bencode(crate::error::BencodeError::WrongType)),
        },
        Some(_) => Err(TrackerErrorModel::Bencode(crate::error::BencodeError::WrongType)),
    }
}

} // verus!
