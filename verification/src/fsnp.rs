//! The block-transfer datagram exchanged between nodes.
//!
//! Layout: action (1) | chunk id (4, little-endian) | name length (1) |
//! payload length (2, little-endian) | name | payload.

use vstd::prelude::*;
use vstd::std_specs::cmp::PartialEqSpecImpl;
use vstd::string::*;
use vstd::utf8::{encode_utf8, valid_utf8};
use crate::bytes::{
    ascii_safe, lemma_ascii_is_utf8, lemma_bytes_roundtrip, lemma_text_roundtrip,
    lemma_u16_bytes_roundtrip, lemma_u16_roundtrip, lemma_u32_bytes_roundtrip,
    lemma_u32_roundtrip, push_all, read_u16_le, read_u32_le, same_text, spec_u16_from_le,
    spec_u16_le, spec_u32_from_le, spec_u32_le, string_of, text_of,
};

verus! {

/// Largest datagram: the header, the longest name and a full block.
pub const MAX_PACKET_SIZE: usize = 1453;

/// Size of every block of a file but possibly the last.
pub const MAX_CHUNK_SIZE: usize = 1420;

/// Longest file name a datagram can carry, in bytes.
pub const MAX_NAME_SIZE: usize = 25;

/// Bytes in front of the name: action, chunk id and the two lengths.
pub const HEADER_SIZE: usize = 8;

/// Port on which every node serves blocks.
pub const SERVER_UDP_PORT: usize = 9090;

/// Acknowledges a reply.
pub const ACTION_ACK: u8 = 0;

/// Asks for one block.
pub const ACTION_REQUEST: u8 = 1;

/// Carries one block.
pub const ACTION_REPLY: u8 = 2;

/// Why a datagram could not be built or read.
#[derive(Debug, Clone, Copy, PartialEq, Eq, Structural)]
pub enum FsnpError {
    /// Fewer bytes than a header.
    ShortFrame,
    /// The lengths in the header reach past the bytes that were received.
    BadLength,
    /// The name is longer than `MAX_NAME_SIZE` bytes.
    NameTooLong,
    /// The payload is longer than `MAX_CHUNK_SIZE` bytes.
    ChunkTooBig,
    /// The name holds a NUL or a byte outside 7-bit ASCII.
    BadName,
}

/// One datagram. The payload is the first `len_chunk` bytes of `chunk_data`.
#[derive(Debug)]
pub struct Protocol<'a> {
    pub action: u8,
    pub chunk_id: u32,
    pub filename: &'a str,
    pub len_chunk: u16,
    pub chunk_data: [u8; MAX_CHUNK_SIZE],
}

/// What a datagram says, apart from how it is stored.
pub struct Datagram {
    pub action: u8,
    pub chunk_id: u32,
    pub name: Seq<u8>,
    pub payload: Seq<u8>,
}

impl Datagram {
    /// A datagram that fits the format: a short, NUL-free ASCII name and at
    /// most one block of payload.
    pub open spec fn well_formed(self) -> bool {
        &&& self.name.len() <= MAX_NAME_SIZE
        &&& ascii_safe(self.name)
        &&& self.payload.len() <= MAX_CHUNK_SIZE
    }

    /// The bytes that go on the wire.
    pub open spec fn wire(self) -> Seq<u8> {
        seq![self.action] + spec_u32_le(self.chunk_id) + seq![self.name.len() as u8] + spec_u16_le(
            self.payload.len() as u16,
        ) + self.name + self.payload
    }
}

/// The name length that the header of `b` declares.
pub open spec fn declared_name_len(b: Seq<u8>) -> int {
    b[5] as int
}

/// The payload length that the header of `b` declares.
pub open spec fn declared_payload_len(b: Seq<u8>) -> int {
    spec_u16_from_le(b.subrange(6, 8)) as int
}

/// What the received bytes `b` say: a datagram, or the first check they fail.
/// Bytes behind the declared payload are ignored.
pub open spec fn parse(b: Seq<u8>) -> Result<Datagram, FsnpError> {
    if b.len() < HEADER_SIZE {
        Err(FsnpError::ShortFrame)
    } else if declared_name_len(b) > MAX_NAME_SIZE {
        Err(FsnpError::NameTooLong)
    } else if declared_payload_len(b) > MAX_CHUNK_SIZE {
        Err(FsnpError::ChunkTooBig)
    } else if HEADER_SIZE + declared_name_len(b) + declared_payload_len(b) > b.len() {
        Err(FsnpError::BadLength)
    } else if !ascii_safe(b.subrange(HEADER_SIZE as int, HEADER_SIZE + declared_name_len(b))) {
        Err(FsnpError::BadName)
    } else {
        Ok(
            Datagram {
                action: b[0],
                chunk_id: spec_u32_from_le(b.subrange(1, 5)),
                name: b.subrange(HEADER_SIZE as int, HEADER_SIZE + declared_name_len(b)),
                payload: b.subrange(
                    HEADER_SIZE + declared_name_len(b),
                    HEADER_SIZE + declared_name_len(b) + declared_payload_len(b),
                ),
            },
        )
    }
}

/// Reading what was written gives the datagram back, name and payload byte
/// for byte, whatever follows it in the buffer.
pub proof fn lemma_parse_wire(d: Datagram, rest: Seq<u8>)
    requires
        d.well_formed(),
    ensures
        parse(d.wire() + rest) == Ok::<Datagram, FsnpError>(d),
        parse(d.wire()) == Ok::<Datagram, FsnpError>(d),
        d.wire().len() == HEADER_SIZE + d.name.len() + d.payload.len(),
{
    lemma_parse_wire_one(d, rest);
    lemma_parse_wire_one(d, Seq::empty());
    assert(d.wire() + Seq::<u8>::empty() =~= d.wire());
}

proof fn lemma_parse_wire_one(d: Datagram, rest: Seq<u8>)
    requires
        d.well_formed(),
    ensures
        parse(d.wire() + rest) == Ok::<Datagram, FsnpError>(d),
        d.wire().len() == HEADER_SIZE + d.name.len() + d.payload.len(),
{
    let b: Seq<u8> = d.wire() + rest;
    let n: int = d.name.len() as int;
    let m: int = d.payload.len() as int;
    lemma_u32_roundtrip(d.chunk_id);
    lemma_u16_roundtrip(m as u16);
    assert(b.subrange(1, 5) =~= spec_u32_le(d.chunk_id));
    assert(b.subrange(6, 8) =~= spec_u16_le(m as u16));
    assert(b[5] == n as u8);
    assert(b.subrange(8, 8 + n) =~= d.name);
    assert(b.subrange(8 + n, 8 + n + m) =~= d.payload);
    assert(b[0] == d.action);
}

/// A datagram that parses is well formed, and writing it gives the bytes
/// that were read, up to the end of its payload.
pub proof fn lemma_wire_parse(b: Seq<u8>)
    requires
        parse(b) is Ok,
    ensures
        parse(b).unwrap().well_formed(),
        parse(b).unwrap().wire() == b.subrange(0, parse(b).unwrap().wire().len() as int),
{
    let d: Datagram = parse(b).unwrap();
    let n: int = declared_name_len(b);
    let m: int = declared_payload_len(b);
    lemma_u32_bytes_roundtrip(b.subrange(1, 5));
    lemma_u16_bytes_roundtrip(b.subrange(6, 8));
    assert(d.wire() =~= b.subrange(0, 8 + n + m));
}

/// Whether every byte of `b` is a 7-bit character other than NUL.
pub fn is_ascii_safe(b: &[u8]) -> (r: bool)
    ensures
        r == ascii_safe(b@),
{
    let mut i: usize = 0;
    while i < b.len()
        invariant
            i <= b.len(),
            forall|j: int| 0 <= j < i ==> 0 < #[trigger] b@[j] < 128,
        decreases b.len() - i,
    {
        if b[i] == 0 || b[i] >= 128 {
            return false;
        }
        i += 1;
    }
    true
}

/// The decimal digits of `n`, as ASCII.
pub open spec fn decimal(n: nat) -> Seq<u8>
    decreases n,
{
    if n < 10 {
        seq![(48 + n) as u8]
    } else {
        decimal(n / 10).push((48 + n % 10) as u8)
    }
}

/// Decimal digits are text.
pub proof fn lemma_decimal_is_text(n: nat)
    ensures
        valid_utf8(decimal(n)),
        decimal(n).len() >= 1,
        forall|i: int| 0 <= i < decimal(n).len() ==> 48 <= #[trigger] decimal(n)[i] <= 57,
    decreases n,
{
    if n >= 10 {
        lemma_decimal_is_text(n / 10);
    }
    lemma_ascii_is_utf8(decimal(n));
}

/// Appends the decimal digits of `n`.
fn push_decimal(out: &mut Vec<u8>, n: u32)
    ensures
        final(out)@ == old(out)@ + decimal(n as nat),
    decreases n,
{
    if n >= 10 {
        push_decimal(out, n / 10);
    }
    out.push(48 + (n % 10) as u8);
    assert(out@ =~= old(out)@ + decimal(n as nat));
}

/// The request for block `chunk_id` of the file whose name is `name`.
pub open spec fn request_for(chunk_id: u32, name: Seq<u8>) -> Datagram {
    Datagram { action: ACTION_REQUEST, chunk_id, name, payload: Seq::empty() }
}

/// Whether `d` is the reply that carries block `chunk_id` of the file whose
/// name is `name`.
pub open spec fn is_reply_for(d: Datagram, chunk_id: u32, name: Seq<u8>) -> bool {
    d.action == ACTION_REPLY && d.chunk_id == chunk_id && d.name == name
}

impl<'a> Protocol<'a> {
    /// The payload: the first `len_chunk` bytes of the block buffer.
    pub open spec fn payload(&self) -> Seq<u8> {
        self.chunk_data@.subrange(0, self.len_chunk as int)
    }

    /// The first reason why this datagram cannot be written, if there is one.
    pub open spec fn build_error(&self) -> Option<FsnpError> {
        if self.filename.spec_bytes().len() > MAX_NAME_SIZE {
            Some(FsnpError::NameTooLong)
        } else if !ascii_safe(self.filename.spec_bytes()) {
            Some(FsnpError::BadName)
        } else if self.len_chunk > MAX_CHUNK_SIZE {
            Some(FsnpError::ChunkTooBig)
        } else {
            None
        }
    }

    /// Reads the first `length` bytes of `packet` as a datagram.
    ///
    /// Fails with `ShortFrame` below a header's length, with `BadLength`
    /// where `packet` holds fewer than `length` bytes, and otherwise as
    /// `parse` says. The block buffer of the result is zero behind the
    /// payload.
    pub fn read_packet(packet: &'a [u8], length: u16) -> (r: Result<Protocol<'a>, FsnpError>)
        ensures
            length < HEADER_SIZE ==> r == Err::<Protocol<'a>, FsnpError>(FsnpError::ShortFrame),
            length >= HEADER_SIZE && packet@.len() < length ==> r == Err::<Protocol<'a>, FsnpError>(
                FsnpError::BadLength,
            ),
            length >= HEADER_SIZE && packet@.len() >= length ==> match parse(
                packet@.subrange(0, length as int),
            ) {
                Ok(d) => r is Ok && r.unwrap()@ == d && r.unwrap().len_chunk <= MAX_CHUNK_SIZE
                    && forall|i: int|
                    r.unwrap().len_chunk <= i < MAX_CHUNK_SIZE ==> r.unwrap().chunk_data@[i] == 0,
                Err(e) => r == Err::<Protocol<'a>, FsnpError>(e),
            },
    {
        if (length as usize) < HEADER_SIZE {
            return Err(FsnpError::ShortFrame);
        }
        if packet.len() < length as usize {
            return Err(FsnpError::BadLength);
        }
        Protocol::read_datagram(vstd::slice::slice_subrange(packet, 0, length as usize))
    }

    /// Reads `packet` as a datagram, as `parse` says. The block buffer of
    /// the result is zero behind the payload.
    pub fn read_datagram(packet: &'a [u8]) -> (r: Result<Protocol<'a>, FsnpError>)
        ensures
            match parse(packet@) {
                Ok(d) => r is Ok && r.unwrap()@ == d && r.unwrap().len_chunk <= MAX_CHUNK_SIZE
                    && forall|i: int|
                    r.unwrap().len_chunk <= i < MAX_CHUNK_SIZE ==> r.unwrap().chunk_data@[i] == 0,
                Err(e) => r == Err::<Protocol<'a>, FsnpError>(e),
            },
    {
        if packet.len() < HEADER_SIZE {
            return Err(FsnpError::ShortFrame);
        }
        let ghost b: Seq<u8> = packet@;
        let name_len: usize = packet[5] as usize;
        let len_c: u16 = read_u16_le(packet, 6);
        let chunk_id: u32 = read_u32_le(packet, 1);
        if name_len > MAX_NAME_SIZE {
            return Err(FsnpError::NameTooLong);
        }
        if len_c as usize > MAX_CHUNK_SIZE {
            return Err(FsnpError::ChunkTooBig);
        }
        let start: usize = HEADER_SIZE + name_len;
        if start + len_c as usize > packet.len() {
            return Err(FsnpError::BadLength);
        }
        let name_bytes: &'a [u8] = vstd::slice::slice_subrange(packet, HEADER_SIZE, start);
        assert(name_bytes@ =~= b.subrange(HEADER_SIZE as int, start as int));
        if !is_ascii_safe(name_bytes) {
            return Err(FsnpError::BadName);
        }
        proof {
            lemma_ascii_is_utf8(name_bytes@);
        }
        let mut data: [u8; MAX_CHUNK_SIZE] = [0u8; MAX_CHUNK_SIZE];
        let mut i: usize = 0;
        while i < len_c as usize
            invariant
                i <= len_c,
                len_c <= MAX_CHUNK_SIZE,
                start <= HEADER_SIZE + MAX_NAME_SIZE,
                start + len_c <= packet@.len(),
                forall|j: int| 0 <= j < i ==> data@[j] == packet@[start + j],
                forall|j: int| i <= j < MAX_CHUNK_SIZE ==> data@[j] == 0,
            decreases len_c - i,
        {
            data[i] = packet[start + i];
            i += 1;
        }
        match text_of(name_bytes) {
            Some(f) => {
                let p = Protocol {
                    action: packet[0],
                    chunk_id,
                    filename: f,
                    len_chunk: len_c,
                    chunk_data: data,
                };
                assert(p.payload() =~= b.subrange(start as int, start + len_c));
                Ok(p)
            },
            None => Err(FsnpError::BadName),
        }
    }

    /// Writes the datagram into a zeroed buffer of the largest size and
    /// says how many of its bytes are the datagram.
    ///
    /// Fails with `NameTooLong`, `BadName` or `ChunkTooBig`, in that order of
    /// precedence, exactly where `build_error` names one.
    pub fn build_packet(&self) -> (r: Result<([u8; MAX_PACKET_SIZE], u16), FsnpError>)
        ensures
            match r {
                Ok((packet, len)) => {
                    &&& self.build_error() is None
                    &&& self@.well_formed()
                    &&& len == HEADER_SIZE + self@.name.len() + self@.payload.len()
                    &&& packet@.subrange(0, len as int) == self@.wire()
                    &&& forall|i: int| len <= i < MAX_PACKET_SIZE ==> packet@[i] == 0
                },
                Err(e) => self.build_error() == Some(e),
            },
    {
        let name: &[u8] = self.filename.as_bytes();
        if name.len() > MAX_NAME_SIZE {
            return Err(FsnpError::NameTooLong);
        }
        if !is_ascii_safe(name) {
            return Err(FsnpError::BadName);
        }
        if self.len_chunk as usize > MAX_CHUNK_SIZE {
            return Err(FsnpError::ChunkTooBig);
        }
        let n: usize = name.len();
        let m: usize = self.len_chunk as usize;
        let mut packet: [u8; MAX_PACKET_SIZE] = [0u8; MAX_PACKET_SIZE];
        packet[0] = self.action;
        packet[1] = (self.chunk_id % 256) as u8;
        packet[2] = ((self.chunk_id / 0x100) % 256) as u8;
        packet[3] = ((self.chunk_id / 0x1_0000) % 256) as u8;
        packet[4] = (self.chunk_id / 0x100_0000) as u8;
        packet[5] = n as u8;
        packet[6] = (self.len_chunk % 256) as u8;
        packet[7] = (self.len_chunk / 256) as u8;
        let ghost head: Seq<u8> = packet@.subrange(0, 8);
        let mut i: usize = 0;
        while i < n
            invariant
                i <= n,
                n == name@.len(),
                n <= MAX_NAME_SIZE,
                packet@.subrange(0, 8) == head,
                forall|j: int| 0 <= j < i ==> packet@[8 + j] == name@[j],
                forall|j: int| 8 + i <= j < MAX_PACKET_SIZE ==> packet@[j] == 0,
            decreases n - i,
        {
            packet[HEADER_SIZE + i] = name[i];
            i += 1;
            assert(packet@.subrange(0, 8) =~= head);
        }
        let mut k: usize = 0;
        while k < m
            invariant
                k <= m,
                n == name@.len(),
                n <= MAX_NAME_SIZE,
                m == self.len_chunk,
                m <= MAX_CHUNK_SIZE,
                packet@.subrange(0, 8) == head,
                forall|j: int| 0 <= j < n ==> packet@[8 + j] == name@[j],
                forall|j: int| 0 <= j < k ==> packet@[8 + n + j] == self.chunk_data@[j],
                forall|j: int| 8 + n + k <= j < MAX_PACKET_SIZE ==> packet@[j] == 0,
            decreases m - k,
        {
            packet[HEADER_SIZE + n + k] = self.chunk_data[k];
            k += 1;
            assert(packet@.subrange(0, 8) =~= head);
        }
        let len: u16 = (HEADER_SIZE + n + m) as u16;
        proof {
            let d: Datagram = self@;
            assert(d.payload.len() == m);
            assert(head =~= seq![self.action] + spec_u32_le(self.chunk_id) + seq![n as u8]
                + spec_u16_le(m as u16));
            assert(packet@.subrange(0, len as int) =~= d.wire()) by {
                assert forall|j: int| 0 <= j < len implies packet@.subrange(0, len as int)[j]
                    == d.wire()[j] by {
                    if j < 8 {
                        assert(packet@[j] == head[j]);
                    } else if j < 8 + n {
                        assert(packet@[8 + (j - 8)] == name@[j - 8]);
                    } else {
                        assert(packet@[8 + n + (j - 8 - n)] == self.chunk_data@[j - 8 - n]);
                    }
                }
            }
        }
        Ok((packet, len))
    }

    /// A request for block `chunk_id` of the file `filename`.
    pub fn request(chunk_id: u32, filename: &'a str) -> (r: Protocol<'a>)
        ensures
            r@ == request_for(chunk_id, filename.spec_bytes()),
            r.filename == filename,
            r.len_chunk == 0,
    {
        let r = Protocol {
            action: ACTION_REQUEST,
            chunk_id,
            filename,
            len_chunk: 0,
            chunk_data: [0u8; MAX_CHUNK_SIZE],
        };
        assert(r.payload() =~= Seq::<u8>::empty());
        r
    }

    /// The acknowledgement of this datagram: the same block and name, no
    /// payload.
    pub fn ack(&self) -> (r: Protocol<'a>)
        ensures
            r@ == (Datagram {
                action: ACTION_ACK,
                chunk_id: self@.chunk_id,
                name: self@.name,
                payload: Seq::empty(),
            }),
    {
        let r = Protocol {
            action: ACTION_ACK,
            chunk_id: self.chunk_id,
            filename: self.filename,
            len_chunk: 0,
            chunk_data: [0u8; MAX_CHUNK_SIZE],
        };
        assert(r.payload() =~= Seq::<u8>::empty());
        r
    }

    /// The bytes to send: the datagram without the unused rest of the
    /// buffer. Fails as `build_packet` does.
    pub fn to_datagram(&self) -> (r: Result<Vec<u8>, FsnpError>)
        ensures
            match r {
                Ok(bytes) => self.build_error() is None && self@.well_formed() && bytes@
                    == self@.wire(),
                Err(e) => self.build_error() == Some(e),
            },
    {
        let (packet, len) = match self.build_packet() {
            Ok(built) => built,
            Err(e) => {
                return Err(e);
            },
        };
        let mut out: Vec<u8> = Vec::new();
        let mut i: usize = 0;
        while i < len as usize
            invariant
                i <= len <= MAX_PACKET_SIZE,
                out@ == packet@.subrange(0, i as int),
            decreases len - i,
        {
            out.push(packet[i]);
            i += 1;
            assert(out@ =~= packet@.subrange(0, i as int));
        }
        Ok(out)
    }

    /// What `to_string` spells, as bytes: the header fields under their
    /// labels, a line break, and the payload.
    pub open spec fn rendering(&self) -> Seq<u8> {
        encode_utf8("Action:"@) + decimal(self.action as nat) + encode_utf8(" ID:"@) + decimal(
            self.chunk_id as nat,
        ) + encode_utf8(" Filename:"@) + encode_utf8(self.filename@) + encode_utf8(" LenChunk:"@)
            + decimal(self.len_chunk as nat) + encode_utf8("\n"@) + self.payload()
    }

    /// The datagram for a reader: the header fields under their labels, a
    /// line break, and the payload as text. The payload has to be text.
    pub fn to_string(&self) -> (r: String)
        requires
            self.len_chunk <= MAX_CHUNK_SIZE,
            valid_utf8(self.payload()),
        ensures
            encode_utf8(r@) == self.rendering(),
    {
        let mut text: Vec<u8> = Vec::new();
        proof {
            lemma_text_roundtrip("Action:"@);
            lemma_text_roundtrip(" ID:"@);
            lemma_text_roundtrip(" Filename:"@);
            lemma_text_roundtrip(" LenChunk:"@);
            lemma_text_roundtrip("\n"@);
            lemma_text_roundtrip(self.filename@);
            lemma_decimal_is_text(self.action as nat);
            lemma_decimal_is_text(self.chunk_id as nat);
            lemma_decimal_is_text(self.len_chunk as nat);
        }
        push_all(&mut text, "Action:".as_bytes());
        push_decimal(&mut text, self.action as u32);
        proof {
            vstd::utf8::valid_utf8_concat(encode_utf8("Action:"@), decimal(self.action as nat));
        }
        let ghost t1: Seq<u8> = text@;
        push_all(&mut text, " ID:".as_bytes());
        proof {
            vstd::utf8::valid_utf8_concat(t1, encode_utf8(" ID:"@));
        }
        let ghost t2: Seq<u8> = text@;
        push_decimal(&mut text, self.chunk_id);
        proof {
            vstd::utf8::valid_utf8_concat(t2, decimal(self.chunk_id as nat));
        }
        let ghost t3: Seq<u8> = text@;
        push_all(&mut text, " Filename:".as_bytes());
        proof {
            vstd::utf8::valid_utf8_concat(t3, encode_utf8(" Filename:"@));
        }
        let ghost t4: Seq<u8> = text@;
        push_all(&mut text, self.filename.as_bytes());
        proof {
            vstd::utf8::valid_utf8_concat(t4, encode_utf8(self.filename@));
        }
        let ghost t5: Seq<u8> = text@;
        push_all(&mut text, " LenChunk:".as_bytes());
        proof {
            vstd::utf8::valid_utf8_concat(t5, encode_utf8(" LenChunk:"@));
        }
        let ghost t6: Seq<u8> = text@;
        push_decimal(&mut text, self.len_chunk as u32);
        proof {
            vstd::utf8::valid_utf8_concat(t6, decimal(self.len_chunk as nat));
        }
        let ghost t7: Seq<u8> = text@;
        push_all(&mut text, "\n".as_bytes());
        proof {
            vstd::utf8::valid_utf8_concat(t7, encode_utf8("\n"@));
        }
        let ghost t8: Seq<u8> = text@;
        let mut i: usize = 0;
        while i < self.len_chunk as usize
            invariant
                i <= self.len_chunk <= MAX_CHUNK_SIZE,
                text@ == t8 + self.chunk_data@.subrange(0, i as int),
            decreases self.len_chunk - i,
        {
            text.push(self.chunk_data[i]);
            i += 1;
            assert(text@ =~= t8 + self.chunk_data@.subrange(0, i as int));
        }
        proof {
            vstd::utf8::valid_utf8_concat(t8, self.payload());
            assert(text@ =~= self.rendering());
            lemma_bytes_roundtrip(text@);
        }
        match string_of(text.as_slice()) {
            Some(s) => s,
            None => String::new(),
        }
    }

    /// A copy: the same header fields, name and block buffer.
    pub fn clone(&self) -> (r: Protocol<'a>)
        ensures
            r == *self,
    {
        Protocol {
            action: self.action,
            chunk_id: self.chunk_id,
            filename: self.filename,
            len_chunk: self.len_chunk,
            chunk_data: self.chunk_data,
        }
    }
}

impl<'a> View for Protocol<'a> {
    type V = Datagram;

    open spec fn view(&self) -> Datagram {
        Datagram {
            action: self.action,
            chunk_id: self.chunk_id,
            name: self.filename.spec_bytes(),
            payload: self.payload(),
        }
    }
}

impl<'a> PartialEq for Protocol<'a> {
    /// Whether two datagrams say the same: the block buffers are compared
    /// as far as the payload goes.
    fn eq(&self, other: &Self) -> (r: bool) {
        if self.action != other.action || self.chunk_id != other.chunk_id || self.len_chunk
            != other.len_chunk || !same_text(self.filename, other.filename) {
            return false;
        }
        let n: usize = if self.len_chunk as usize > MAX_CHUNK_SIZE {
            MAX_CHUNK_SIZE
        } else {
            self.len_chunk as usize
        };
        let mut same: bool = true;
        let mut i: usize = 0;
        while i < n
            invariant
                i <= n <= MAX_CHUNK_SIZE,
                same == (forall|k: int| 0 <= k < i ==> self.chunk_data@[k] == other.chunk_data@[k]),
            decreases n - i,
        {
            if self.chunk_data[i] != other.chunk_data[i] {
                same = false;
            }
            i += 1;
        }
        same
    }
}

impl<'a> PartialEqSpecImpl for Protocol<'a> {
    open spec fn obeys_eq_spec() -> bool {
        true
    }

    open spec fn eq_spec(&self, other: &Self) -> bool {
        &&& self.action == other.action
        &&& self.chunk_id == other.chunk_id
        &&& self.len_chunk == other.len_chunk
        &&& self.filename@ == other.filename@
        &&& forall|k: int|
            0 <= k < self.len_chunk && k < MAX_CHUNK_SIZE ==> self.chunk_data@[k]
                == other.chunk_data@[k]
    }
}

} // verus!
