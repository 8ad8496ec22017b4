//! The control frame between a node and the tracker, and the payloads that
//! carry no inventory: a block announcement and a list of names.
//!
//! Frame layout: flag (1) | data size (2, big-endian) | data.

use vstd::prelude::*;
use vstd::string::*;
use vstd::utf8::*;
use crate::bytes::{
    lemma_bytes_roundtrip, lemma_text_roundtrip, lemma_u16_bytes_roundtrip, lemma_u16_roundtrip,
    lemma_u32_bytes_roundtrip, lemma_u32_roundtrip, push_all, push_u16_be, push_u32_le,
    read_u16_be, read_u32_le, spec_u16_be, spec_u16_from_be, spec_u32_from_le, spec_u32_le,
    string_of,
};

verus! {

/// Bytes in front of the data: the flag and the data size.
pub const FRAME_HEADER_SIZE: usize = 3;

/// Most data bytes that one frame can carry.
pub const MAX_DATA_SIZE: usize = 0xffff;

/// Why a control frame or its payload could not be built or read.
#[derive(Debug, Clone, Copy, PartialEq, Eq, Structural)]
pub enum FstpError {
    /// Fewer bytes than a frame header.
    ShortFrame,
    /// The flag byte names no message kind.
    UnknownFlag,
    /// The declared data size does not fit: it reaches past the buffer, or
    /// differs from the data that is to be sent.
    BadLength,
    /// The data is not a payload of the expected structure.
    MalformedPayload,
}

/// The kind of a control message.
#[derive(Debug, Clone, Copy, PartialEq, Eq, Structural)]
pub enum Flag {
    Okay,
    Add,
    List,
    File,
    AddBlock,
}

/// The frame header.
#[derive(Debug)]
pub struct FstpHeader {
    pub flag: Flag,
    pub data_size: u16,
}

/// One control message. `data` is absent exactly when `data_size` is zero.
#[derive(Debug)]
pub struct FstpMessage<'a> {
    pub header: FstpHeader,
    pub data: Option<&'a [u8]>,
}

/// What a control message says: its kind and its data.
pub struct ControlMessage {
    pub flag: Flag,
    pub data: Seq<u8>,
}

/// The byte that stands for `flag` on the wire.
pub open spec fn flag_byte(flag: Flag) -> u8 {
    match flag {
        Flag::Okay => 1,
        Flag::Add => 2,
        Flag::List => 3,
        Flag::File => 4,
        Flag::AddBlock => 5,
    }
}

/// The flag that `byte` stands for, if it stands for one.
pub open spec fn byte_flag(byte: u8) -> Option<Flag> {
    if byte == 1 {
        Some(Flag::Okay)
    } else if byte == 2 {
        Some(Flag::Add)
    } else if byte == 3 {
        Some(Flag::List)
    } else if byte == 4 {
        Some(Flag::File)
    } else if byte == 5 {
        Some(Flag::AddBlock)
    } else {
        None
    }
}

impl Flag {
    /// The byte that stands for this flag.
    pub fn to_bytes(&self) -> (b: u8)
        ensures
            b == flag_byte(*self),
    {
        match self {
            Flag::Okay => 1u8,
            Flag::Add => 2u8,
            Flag::List => 3u8,
            Flag::File => 4u8,
            Flag::AddBlock => 5u8,
        }
    }

    /// The flag that `byte` stands for; `UnknownFlag` for any byte but 1 to 5.
    pub fn from_bytes(byte: &u8) -> (r: Result<Flag, FstpError>)
        ensures
            match byte_flag(*byte) {
                Some(f) => r == Ok::<Flag, FstpError>(f),
                None => r == Err::<Flag, FstpError>(FstpError::UnknownFlag),
            },
    {
        let b: u8 = *byte;
        if b == 1 {
            Ok(Flag::Okay)
        } else if b == 2 {
            Ok(Flag::Add)
        } else if b == 3 {
            Ok(Flag::List)
        } else if b == 4 {
            Ok(Flag::File)
        } else if b == 5 {
            Ok(Flag::AddBlock)
        } else {
            Err(FstpError::UnknownFlag)
        }
    }
}

impl ControlMessage {
    /// A message whose data fits the 16-bit size field.
    pub open spec fn well_formed(self) -> bool {
        self.data.len() <= MAX_DATA_SIZE
    }

    /// The bytes that go on the wire.
    pub open spec fn wire(self) -> Seq<u8> {
        seq![flag_byte(self.flag)] + spec_u16_be(self.data.len() as u16) + self.data
    }
}

/// The data size that the header of `b` declares.
pub open spec fn declared_data_size(b: Seq<u8>) -> int {
    spec_u16_from_be(b.subrange(1, 3)) as int
}

/// What the buffer `b` says: the message at its start, or the first check it
/// fails. Bytes of the buffer behind the declared data are not part of the
/// frame.
pub open spec fn parse_frame(b: Seq<u8>) -> Result<ControlMessage, FstpError> {
    if b.len() < FRAME_HEADER_SIZE {
        Err(FstpError::ShortFrame)
    } else if byte_flag(b[0]) is None {
        Err(FstpError::UnknownFlag)
    } else if FRAME_HEADER_SIZE + declared_data_size(b) > b.len() {
        Err(FstpError::BadLength)
    } else {
        Ok(
            ControlMessage {
                flag: byte_flag(b[0]).unwrap(),
                data: b.subrange(
                    FRAME_HEADER_SIZE as int,
                    FRAME_HEADER_SIZE + declared_data_size(b),
                ),
            },
        )
    }
}

/// Every flag is read back from its byte.
pub proof fn lemma_flag_roundtrip(flag: Flag)
    ensures
        byte_flag(flag_byte(flag)) == Some(flag),
{
}

/// Reading a written frame gives the message back, whatever follows the
/// frame in the buffer.
pub proof fn lemma_parse_frame_wire(m: ControlMessage, rest: Seq<u8>)
    requires
        m.well_formed(),
    ensures
        parse_frame(m.wire() + rest) == Ok::<ControlMessage, FstpError>(m),
        m.wire().len() == FRAME_HEADER_SIZE + m.data.len(),
{
    let b: Seq<u8> = m.wire() + rest;
    lemma_u16_roundtrip(m.data.len() as u16);
    assert(b.subrange(1, 3) =~= spec_u16_be(m.data.len() as u16));
    assert(b.subrange(3, 3 + m.data.len() as int) =~= m.data);
    assert(b[0] == flag_byte(m.flag));
}

/// Writing a frame that was read gives the bytes of the buffer back, up to
/// the end of the frame.
pub proof fn lemma_wire_parse_frame(b: Seq<u8>)
    requires
        parse_frame(b) is Ok,
    ensures
        parse_frame(b).unwrap().well_formed(),
        parse_frame(b).unwrap().wire() == b.subrange(
            0,
            FRAME_HEADER_SIZE + declared_data_size(b),
        ),
{
    let m: ControlMessage = parse_frame(b).unwrap();
    lemma_u16_bytes_roundtrip(b.subrange(1, 3));
    assert(m.wire() =~= b.subrange(0, FRAME_HEADER_SIZE + declared_data_size(b)));
}

/// The length of the frame whose header stands at the start of `header`:
/// the header and the data it declares. None below a header's length.
pub fn frame_len(header: &[u8]) -> (r: Option<usize>)
    ensures
        header@.len() < FRAME_HEADER_SIZE ==> r is None,
        header@.len() >= FRAME_HEADER_SIZE ==> r == Some(
            (FRAME_HEADER_SIZE + declared_data_size(header@)) as usize,
        ),
{
    if header.len() < FRAME_HEADER_SIZE {
        return None;
    }
    let size: u16 = read_u16_be(header, 1);
    Some(FRAME_HEADER_SIZE + size as usize)
}

impl<'a> FstpMessage<'a> {
    /// The data of the message; none where `data` is absent.
    pub open spec fn data_seq(&self) -> Seq<u8> {
        match self.data {
            Some(d) => d@,
            None => Seq::empty(),
        }
    }

    /// Whether the header's size is the length of the data.
    pub open spec fn consistent(&self) -> bool {
        self.header.data_size == self.data_seq().len()
    }

    /// A message of kind `flag` that carries `data`; `BadLength` where the
    /// data is longer than the size field can say.
    pub fn new(flag: Flag, data: &'a [u8]) -> (r: Result<FstpMessage<'a>, FstpError>)
        ensures
            data@.len() > MAX_DATA_SIZE ==> r == Err::<FstpMessage<'a>, FstpError>(
                FstpError::BadLength,
            ),
            data@.len() <= MAX_DATA_SIZE ==> r is Ok && r.unwrap().consistent() && r.unwrap()@
                == (ControlMessage { flag, data: data@ }),
    {
        if data.len() > MAX_DATA_SIZE {
            return Err(FstpError::BadLength);
        }
        let size: u16 = data.len() as u16;
        if size == 0 {
            let m = FstpMessage { header: FstpHeader { flag, data_size: 0 }, data: None };
            assert(m.data_seq() =~= data@);
            Ok(m)
        } else {
            Ok(FstpMessage { header: FstpHeader { flag, data_size: size }, data: Some(data) })
        }
    }

    /// The frame of this message. Fails with `BadLength` exactly where the
    /// header's size is not the length of the data.
    pub fn as_bytes(&self) -> (r: Result<Vec<u8>, FstpError>)
        ensures
            self.consistent() ==> r is Ok && r.unwrap()@ == self@.wire(),
            !self.consistent() ==> r == Err::<Vec<u8>, FstpError>(FstpError::BadLength),
    {
        let n: usize = match self.data {
            Some(d) => d.len(),
            None => 0,
        };
        if n != self.header.data_size as usize {
            return Err(FstpError::BadLength);
        }
        let mut out: Vec<u8> = Vec::new();
        out.push(self.header.flag.to_bytes());
        push_u16_be(&mut out, self.header.data_size);
        match self.data {
            Some(d) => {
                push_all(&mut out, d);
            },
            None => {},
        }
        assert(out@ =~= self@.wire());
        Ok(out)
    }

    /// Reads the frame at the start of `bytes`, as `parse_frame` says.
    pub fn from_bytes(bytes: &'a [u8]) -> (r: Result<FstpMessage<'a>, FstpError>)
        ensures
            match parse_frame(bytes@) {
                Ok(m) => r is Ok && r.unwrap()@ == m && r.unwrap().consistent(),
                Err(e) => r == Err::<FstpMessage<'a>, FstpError>(e),
            },
    {
        if bytes.len() < FRAME_HEADER_SIZE {
            return Err(FstpError::ShortFrame);
        }
        let flag: Flag = match Flag::from_bytes(&bytes[0]) {
            Ok(f) => f,
            Err(e) => {
                return Err(e);
            },
        };
        let size: u16 = read_u16_be(bytes, 1);
        if FRAME_HEADER_SIZE + size as usize > bytes.len() {
            return Err(FstpError::BadLength);
        }
        if size == 0 {
            let m = FstpMessage { header: FstpHeader { flag, data_size: 0 }, data: None };
            assert(m.data_seq() =~= bytes@.subrange(3, 3));
            Ok(m)
        } else {
            let d: &'a [u8] = vstd::slice::slice_subrange(
                bytes,
                FRAME_HEADER_SIZE,
                FRAME_HEADER_SIZE + size as usize,
            );
            Ok(FstpMessage { header: FstpHeader { flag, data_size: size }, data: Some(d) })
        }
    }
}

impl<'a> View for FstpMessage<'a> {
    type V = ControlMessage;

    open spec fn view(&self) -> ControlMessage {
        ControlMessage { flag: self.header.flag, data: self.data_seq() }
    }
}

/// The data of a block announcement: block index (4, little-endian), name
/// length (4, little-endian), name.
pub open spec fn add_block_wire(block_index: u32, name: Seq<char>) -> Seq<u8> {
    spec_u32_le(block_index) + spec_u32_le(encode_utf8(name).len() as u32) + encode_utf8(name)
}

/// What the data `d` of a block announcement says, if it is one: the block
/// index and the name. The name has to fill the data to its end.
pub open spec fn parse_add_block(d: Seq<u8>) -> Option<(u32, Seq<char>)> {
    if d.len() < 8 {
        None
    } else if 8 + spec_u32_from_le(d.subrange(4, 8)) != d.len() {
        None
    } else if !valid_utf8(d.subrange(8, d.len() as int)) {
        None
    } else {
        Some((spec_u32_from_le(d.subrange(0, 4)), decode_utf8(d.subrange(8, d.len() as int))))
    }
}

/// A written block announcement is read back as it was.
pub proof fn lemma_add_block_roundtrip(block_index: u32, name: Seq<char>)
    requires
        encode_utf8(name).len() <= u32::MAX,
    ensures
        parse_add_block(add_block_wire(block_index, name)) == Some((block_index, name)),
        add_block_wire(block_index, name).len() == 8 + encode_utf8(name).len(),
{
    let d: Seq<u8> = add_block_wire(block_index, name);
    let n: u32 = encode_utf8(name).len() as u32;
    lemma_u32_roundtrip(block_index);
    lemma_u32_roundtrip(n);
    lemma_text_roundtrip(name);
    assert(d.subrange(0, 4) =~= spec_u32_le(block_index));
    assert(d.subrange(4, 8) =~= spec_u32_le(n));
    assert(d.subrange(8, d.len() as int) =~= encode_utf8(name));
}

/// A block announcement that was read is written back as the same bytes.
pub proof fn lemma_add_block_bytes_roundtrip(d: Seq<u8>)
    requires
        parse_add_block(d) is Some,
    ensures
        add_block_wire(parse_add_block(d).unwrap().0, parse_add_block(d).unwrap().1) == d,
{
    lemma_u32_bytes_roundtrip(d.subrange(0, 4));
    lemma_u32_bytes_roundtrip(d.subrange(4, 8));
    lemma_bytes_roundtrip(d.subrange(8, d.len() as int));
    let (i, name) = parse_add_block(d).unwrap();
    assert(add_block_wire(i, name) =~= d);
}

/// The data that announces block `block_index` of the file `name`.
pub fn encode_add_block(block_index: u32, name: &str) -> (r: Result<Vec<u8>, FstpError>)
    ensures
        name.spec_bytes().len() + 8 > MAX_DATA_SIZE ==> r == Err::<Vec<u8>, FstpError>(
            FstpError::BadLength,
        ),
        name.spec_bytes().len() + 8 <= MAX_DATA_SIZE ==> r is Ok && r.unwrap()@ == add_block_wire(
            block_index,
            name@,
        ),
{
    let b: &[u8] = name.as_bytes();
    if b.len() > MAX_DATA_SIZE - 8 {
        return Err(FstpError::BadLength);
    }
    let mut out: Vec<u8> = Vec::new();
    push_u32_le(&mut out, block_index);
    push_u32_le(&mut out, b.len() as u32);
    push_all(&mut out, b);
    assert(out@ =~= add_block_wire(block_index, name@));
    Ok(out)
}

/// Reads the data of a block announcement; `MalformedPayload` where
/// `parse_add_block` finds none.
pub fn decode_add_block(d: &[u8]) -> (r: Result<(u32, String), FstpError>)
    ensures
        match parse_add_block(d@) {
            Some((i, name)) => r is Ok && r.unwrap().0 == i && r.unwrap().1@ == name,
            None => r == Err::<(u32, String), FstpError>(FstpError::MalformedPayload),
        },
{
    if d.len() < 8 {
        return Err(FstpError::MalformedPayload);
    }
    let index: u32 = read_u32_le(d, 0);
    let name_len: u32 = read_u32_le(d, 4);
    if name_len as u64 + 8 != d.len() as u64 {
        return Err(FstpError::MalformedPayload);
    }
    let nb: &[u8] = vstd::slice::slice_subrange(d, 8, d.len());
    match string_of(nb) {
        Some(name) => Ok((index, name)),
        None => Err(FstpError::MalformedPayload),
    }
}

/// The kind of a bare message, which is one byte without size or data.
#[derive(Debug, Clone, Copy, PartialEq, Eq, Structural)]
pub enum Val {
    Okay,
    Add,
    List,
    File,
    Start,
    End,
}

/// The byte that stands for the kind `val`.
pub open spec fn val_byte(val: Val) -> u8 {
    match val {
        Val::Okay => 0,
        Val::Add => 1,
        Val::List => 2,
        Val::File => 3,
        Val::Start => 4,
        Val::End => 5,
    }
}

/// The kind that `byte` stands for, if it stands for one.
pub open spec fn byte_val(byte: u8) -> Option<Val> {
    if byte == 0 {
        Some(Val::Okay)
    } else if byte == 1 {
        Some(Val::Add)
    } else if byte == 2 {
        Some(Val::List)
    } else if byte == 3 {
        Some(Val::File)
    } else if byte == 4 {
        Some(Val::Start)
    } else if byte == 5 {
        Some(Val::End)
    } else {
        None
    }
}

/// Every kind is read back from its byte, and every byte that stands for a
/// kind is written back by it.
pub proof fn lemma_val_roundtrip(val: Val, byte: u8)
    ensures
        byte_val(val_byte(val)) == Some(val),
        byte_val(byte) is Some ==> val_byte(byte_val(byte).unwrap()) == byte,
{
}

impl Val {
    /// Writes the byte of this kind into the first place of `buf` and
    /// leaves the rest of it.
    pub fn to_bytes_val(&self, buf: &mut [u8])
        requires
            old(buf)@.len() > 0,
        ensures
            final(buf)@ == old(buf)@.update(0, val_byte(*self)),
    {
        let i: u8 = match self {
            Val::Okay => 0u8,
            Val::Add => 1u8,
            Val::List => 2u8,
            Val::File => 3u8,
            Val::Start => 4u8,
            Val::End => 5u8,
        };
        buf[0] = i;
        assert(buf@ =~= old(buf)@.update(0, val_byte(*self)));
    }

    /// The kind that `byte` stands for; `UnknownFlag` for any byte over 5.
    pub fn from_bytes_val(byte: &u8) -> (r: Result<Val, FstpError>)
        ensures
            match byte_val(*byte) {
                Some(v) => r == Ok::<Val, FstpError>(v),
                None => r == Err::<Val, FstpError>(FstpError::UnknownFlag),
            },
    {
        let b: u8 = *byte;
        if b == 0 {
            Ok(Val::Okay)
        } else if b == 1 {
            Ok(Val::Add)
        } else if b == 2 {
            Ok(Val::List)
        } else if b == 3 {
            Ok(Val::File)
        } else if b == 4 {
            Ok(Val::Start)
        } else if b == 5 {
            Ok(Val::End)
        } else {
            Err(FstpError::UnknownFlag)
        }
    }
}

/// The byte that stands between two names of a list.
pub const LIST_SEPARATOR: u8 = 0x2c;

/// What each text of `v` says, in the order of `v`.
pub open spec fn texts_view(v: Seq<String>) -> Seq<Seq<char>> {
    Seq::new(v.len(), |i: int| v[i]@)
}

/// The data of a list of names: the names with a comma between each two.
pub open spec fn list_wire(names: Seq<Seq<char>>) -> Seq<u8>
    decreases names.len(),
{
    if names.len() == 0 {
        Seq::empty()
    } else if names.len() == 1 {
        encode_utf8(names[0])
    } else {
        encode_utf8(names[0]) + seq![LIST_SEPARATOR] + list_wire(names.drop_first())
    }
}

/// The place of the first comma of `b`, or the length of `b` if it has none.
pub open spec fn first_comma(b: Seq<u8>) -> int
    decreases b.len(),
{
    if b.len() == 0 || b[0] == LIST_SEPARATOR {
        0
    } else {
        1 + first_comma(b.drop_first())
    }
}

/// The first comma is within `b` or at its end, with no comma in front of it.
pub proof fn lemma_first_comma(b: Seq<u8>)
    ensures
        0 <= first_comma(b) <= b.len(),
        first_comma(b) < b.len() ==> b[first_comma(b)] == LIST_SEPARATOR,
        forall|i: int| 0 <= i < first_comma(b) ==> b[i] != LIST_SEPARATOR,
    decreases b.len(),
{
    if b.len() == 0 || b[0] == LIST_SEPARATOR {
    } else {
        lemma_first_comma(b.drop_first());
        assert forall|i: int| 0 <= i < first_comma(b) implies b[i] != LIST_SEPARATOR by {
            if i > 0 {
                assert(b.drop_first()[i - 1] == b[i]);
            }
        }
    }
}

/// A place that holds a comma, with none in front of it, is the first comma.
pub proof fn lemma_first_comma_is(b: Seq<u8>, at: int)
    requires
        0 <= at <= b.len(),
        at < b.len() ==> b[at] == LIST_SEPARATOR,
        forall|i: int| 0 <= i < at ==> b[i] != LIST_SEPARATOR,
    ensures
        first_comma(b) == at,
{
    lemma_first_comma(b);
    let f: int = first_comma(b);
    if f < at {
        assert(b[f] != LIST_SEPARATOR);
    }
}

/// The pieces of `b` between its commas; one piece where it has none.
pub open spec fn split_list(b: Seq<u8>) -> Seq<Seq<u8>>
    decreases b.len(),
{
    let i = first_comma(b);
    if 0 <= i < b.len() {
        seq![b.subrange(0, i)] + split_list(b.subrange(i + 1, b.len() as int))
    } else {
        seq![b]
    }
}

/// Whether every piece is well-formed UTF-8.
pub open spec fn all_text(pieces: Seq<Seq<u8>>) -> bool {
    forall|i: int| 0 <= i < pieces.len() ==> valid_utf8(#[trigger] pieces[i])
}

/// The names that the pieces `pieces` spell.
pub open spec fn decoded(pieces: Seq<Seq<u8>>) -> Seq<Seq<char>> {
    Seq::new(pieces.len(), |i: int| decode_utf8(pieces[i]))
}

/// The names that the data `b` of a list spells: none for no data, else the
/// pieces between the commas, if each of them is text.
pub open spec fn parse_list(b: Seq<u8>) -> Option<Seq<Seq<char>>> {
    if b.len() == 0 {
        Some(Seq::empty())
    } else if all_text(split_list(b)) {
        Some(decoded(split_list(b)))
    } else {
        None
    }
}

/// Names that a list can carry: none of them is empty or holds a comma.
pub open spec fn listable(names: Seq<Seq<char>>) -> bool {
    forall|i: int|
        0 <= i < names.len() ==> encode_utf8(#[trigger] names[i]).len() > 0 && !encode_utf8(
            names[i],
        ).contains(LIST_SEPARATOR)
}

/// The pieces of a written list are the names' bytes.
proof fn lemma_split_list_wire(names: Seq<Seq<char>>)
    requires
        listable(names),
        names.len() > 0,
    ensures
        split_list(list_wire(names)) == Seq::new(names.len(), |i: int| encode_utf8(names[i])),
        list_wire(names).len() > 0,
    decreases names.len(),
{
    let b: Seq<u8> = list_wire(names);
    let first: Seq<u8> = encode_utf8(names[0]);
    let want: Seq<Seq<u8>> = Seq::new(names.len(), |i: int| encode_utf8(names[i]));
    assert forall|i: int| 0 <= i < first.len() implies first[i] != LIST_SEPARATOR by {
        if first[i] == LIST_SEPARATOR {
            assert(first.contains(LIST_SEPARATOR));
        }
    }
    if names.len() == 1 {
        lemma_first_comma_is(b, b.len() as int);
        assert(split_list(b) =~= want);
    } else {
        let rest: Seq<Seq<char>> = names.drop_first();
        assert(listable(rest)) by {
            assert forall|i: int| 0 <= i < rest.len() implies encode_utf8(#[trigger] rest[i]).len()
                > 0 && !encode_utf8(rest[i]).contains(LIST_SEPARATOR) by {
                assert(rest[i] == names[i + 1]);
            }
        }
        lemma_split_list_wire(rest);
        let at: int = first.len() as int;
        assert(b[at] == LIST_SEPARATOR);
        assert forall|i: int| 0 <= i < at implies b[i] != LIST_SEPARATOR by {
            assert(b[i] == first[i]);
        }
        lemma_first_comma_is(b, at);
        assert(b.subrange(0, at) =~= first);
        assert(b.subrange(at + 1, b.len() as int) =~= list_wire(rest));
        assert(split_list(b) =~= want) by {
            let tail: Seq<Seq<u8>> = split_list(list_wire(rest));
            assert(split_list(b) == seq![first] + tail);
            assert forall|i: int| 0 <= i < want.len() implies (seq![first] + tail)[i] == want[i] by {
                if i > 0 {
                    assert(tail[i - 1] == encode_utf8(rest[i - 1]));
                }
            }
        }
    }
}

/// A written list of names is read back as it was.
pub proof fn lemma_list_roundtrip(names: Seq<Seq<char>>)
    requires
        listable(names),
    ensures
        parse_list(list_wire(names)) == Some(names),
{
    if names.len() == 0 {
    } else {
        lemma_split_list_wire(names);
        let pieces: Seq<Seq<u8>> = split_list(list_wire(names));
        assert forall|i: int| 0 <= i < pieces.len() implies valid_utf8(#[trigger] pieces[i])
            && decode_utf8(pieces[i]) == names[i] by {
            lemma_text_roundtrip(names[i]);
        }
        assert(Seq::new(pieces.len(), |i: int| decode_utf8(pieces[i])) =~= names);
    }
}

/// The names that were read of a list are written back as the bytes they
/// were read from.
pub proof fn lemma_list_bytes_roundtrip(b: Seq<u8>)
    requires
        parse_list(b) is Some,
    ensures
        list_wire(parse_list(b).unwrap()) == b,
{
    if b.len() > 0 {
        lemma_join_split(b);
    }
}

/// Joining the pieces of `b` with commas gives `b`.
proof fn lemma_join_split(b: Seq<u8>)
    requires
        all_text(split_list(b)),
    ensures
        split_list(b).len() >= 1,
        list_wire(decoded(split_list(b))) == b,
    decreases b.len(),
{
    let i: int = first_comma(b);
    lemma_first_comma(b);
    let pieces: Seq<Seq<u8>> = split_list(b);
    let names: Seq<Seq<char>> = decoded(pieces);
    if i < b.len() {
        let head: Seq<u8> = b.subrange(0, i);
        let tail: Seq<u8> = b.subrange(i + 1, b.len() as int);
        let rest: Seq<Seq<u8>> = split_list(tail);
        assert(pieces == seq![head] + rest);
        assert(all_text(rest)) by {
            assert forall|k: int| 0 <= k < rest.len() implies valid_utf8(#[trigger] rest[k]) by {
                assert(pieces[k + 1] == rest[k]);
            }
        }
        lemma_join_split(tail);
        assert(pieces[0] == head);
        lemma_bytes_roundtrip(head);
        assert(names.drop_first() =~= decoded(rest)) by {
            assert forall|k: int| 0 <= k < rest.len() implies names.drop_first()[k] == decoded(
                rest,
            )[k] by {
                assert(pieces[k + 1] == rest[k]);
            }
        }
        assert(names.len() >= 2);
        assert(list_wire(names) == encode_utf8(names[0]) + seq![LIST_SEPARATOR] + list_wire(
            names.drop_first(),
        ));
        assert(head + seq![LIST_SEPARATOR] + tail =~= b);
    } else {
        assert(pieces == seq![b]);
        assert(pieces[0] == b);
        lemma_bytes_roundtrip(b);
        assert(names.len() == 1);
        assert(names[0] == decode_utf8(b));
    }
}

/// The data of the list `names`.
pub fn encode_list(names: &Vec<String>) -> (r: Vec<u8>)
    ensures
        r@ == list_wire(texts_view(names@)),
{
    let ghost all: Seq<Seq<char>> = texts_view(names@);
    let n: usize = names.len();
    let mut out: Vec<u8> = Vec::new();
    let mut i: usize = n;
    assert(all.subrange(n as int, n as int) =~= Seq::<Seq<char>>::empty());
    while i > 0
        invariant
            i <= n,
            n == names@.len(),
            all == texts_view(names@),
            out@ == list_wire(all.subrange(i as int, n as int)),
        decreases i,
    {
        i -= 1;
        let mut one: Vec<u8> = Vec::new();
        push_all(&mut one, names[i].as_str().as_bytes());
        if i + 1 < n {
            one.push(LIST_SEPARATOR);
            push_all(&mut one, out.as_slice());
        }
        proof {
            let s: Seq<Seq<char>> = all.subrange(i as int, n as int);
            assert(s.drop_first() =~= all.subrange(i + 1, n as int));
            assert(s[0] == names@[i as int]@);
            assert(one@ =~= list_wire(s));
        }
        out = one;
    }
    assert(all.subrange(0, n as int) =~= all);
    out
}

/// Reads the data of a list of names; `MalformedPayload` where a piece
/// between two commas is not text.
pub fn decode_list(data: &[u8]) -> (r: Result<Vec<String>, FstpError>)
    ensures
        match parse_list(data@) {
            Some(names) => r is Ok && texts_view(r.unwrap()@) == names,
            None => r == Err::<Vec<String>, FstpError>(FstpError::MalformedPayload),
        },
{
    let mut out: Vec<String> = Vec::new();
    if data.len() == 0 {
        assert(texts_view(out@) =~= Seq::<Seq<char>>::empty());
        return Ok(out);
    }
    let n: usize = data.len();
    let ghost mut pieces: Seq<Seq<u8>> = Seq::empty();
    let mut start: usize = 0;
    let mut at: usize = 0;
    assert(data@.subrange(0, n as int) =~= data@);
    assert(pieces + split_list(data@) =~= split_list(data@));
    while at < n
        invariant
            start <= at <= n,
            n == data@.len(),
            pieces.len() == out@.len(),
            all_text(pieces),
            forall|k: int| 0 <= k < pieces.len() ==> (#[trigger] out@[k])@ == decode_utf8(pieces[k]),
            forall|k: int| start <= k < at ==> data@[k] != LIST_SEPARATOR,
            split_list(data@) == pieces + split_list(data@.subrange(start as int, n as int)),
        decreases n - at,
    {
        if data[at] == LIST_SEPARATOR {
            let ghost here: Seq<u8> = data@.subrange(start as int, n as int);
            let piece: &[u8] = vstd::slice::slice_subrange(data, start, at);
            proof {
                lemma_first_comma_is(here, at - start);
                assert(here.subrange(0, at - start) =~= piece@);
                assert(here.subrange(at - start + 1, here.len() as int) =~= data@.subrange(
                    at + 1,
                    n as int,
                ));
                assert(pieces + (seq![piece@] + split_list(data@.subrange(at + 1, n as int)))
                    =~= pieces.push(piece@) + split_list(data@.subrange(at + 1, n as int)));
            }
            match string_of(piece) {
                Some(name) => {
                    out.push(name);
                },
                None => {
                    proof {
                        let all: Seq<Seq<u8>> = split_list(data@);
                        assert(all[pieces.len() as int] == piece@);
                        assert(!all_text(all));
                    }
                    return Err(FstpError::MalformedPayload);
                },
            }
            proof {
                pieces = pieces.push(piece@);
            }
            start = at + 1;
        }
        at += 1;
    }
    let ghost here: Seq<u8> = data@.subrange(start as int, n as int);
    let piece: &[u8] = vstd::slice::slice_subrange(data, start, n);
    proof {
        lemma_first_comma_is(here, here.len() as int);
        assert(here =~= piece@);
        assert(split_list(data@) == pieces + seq![piece@]);
    }
    match string_of(piece) {
        Some(name) => {
            out.push(name);
            proof {
                let all: Seq<Seq<u8>> = split_list(data@);
                assert(all =~= pieces.push(piece@));
                assert(all_text(all));
                assert(texts_view(out@) =~= Seq::new(all.len(), |i: int| decode_utf8(all[i])));
            }
            Ok(out)
        },
        None => {
            proof {
                let all: Seq<Seq<u8>> = split_list(data@);
                assert(all[pieces.len() as int] == piece@);
                assert(!all_text(all));
            }
            Err(FstpError::MalformedPayload)
        },
    }
}

} // verus!
