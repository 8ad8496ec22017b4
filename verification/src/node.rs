//! The node's side of the control connection: the frames it sends to the
//! tracker, what it reads from the replies, and the download it plans from
//! an answer.

use vstd::prelude::*;
use vstd::string::*;
use vstd::utf8::encode_utf8;
use crate::file_meta::{encode_inventory, entries_view, inventory_wire, FileMeta};
use crate::fstp::{
    decode_list, parse_frame, parse_list, texts_view, ControlMessage, Flag, FstpError,
    FstpMessage, MAX_DATA_SIZE,
};
use crate::peers::{lemma_with_missing, lemma_with_missing_fresh, with_missing};
use crate::peers_with_blocks::{parse_availability, PeersWithFile};
use crate::shared::Shared;

verus! {

/// The frame of a message of kind `flag` that carries `data`; `BadLength`
/// where one frame cannot carry it.
pub fn frame_of(flag: Flag, data: &[u8]) -> (r: Result<Vec<u8>, FstpError>)
    ensures
        data@.len() > MAX_DATA_SIZE ==> r == Err::<Vec<u8>, FstpError>(FstpError::BadLength),
        data@.len() <= MAX_DATA_SIZE ==> r is Ok && r.unwrap()@ == (ControlMessage {
            flag,
            data: data@,
        }).wire(),
{
    let msg: FstpMessage = match FstpMessage::new(flag, data) {
        Ok(m) => m,
        Err(e) => {
            return Err(e);
        },
    };
    msg.as_bytes()
}

/// The frame that announces the inventory `entries` to the tracker. Fails
/// with `MalformedPayload` where an entry is not well formed, and with
/// `BadLength` where the inventory is too long for one frame.
pub fn contact_tracker(entries: &Vec<FileMeta>) -> (r: Result<Vec<u8>, FstpError>)
    ensures
        match r {
            Ok(frame) => (forall|i: int|
                0 <= i < entries@.len() ==> (#[trigger] entries@[i]).well_formed())
                && inventory_wire(entries_view(entries@)).len() <= MAX_DATA_SIZE && frame@ == (
            ControlMessage {
                flag: Flag::Add,
                data: inventory_wire(entries_view(entries@)),
            }).wire(),
            Err(e) => if forall|i: int|
                0 <= i < entries@.len() ==> (#[trigger] entries@[i]).well_formed() {
                e == FstpError::BadLength && inventory_wire(entries_view(entries@)).len()
                    > MAX_DATA_SIZE
            } else {
                e == FstpError::MalformedPayload
            },
        },
{
    let data: Vec<u8> = match encode_inventory(entries) {
        Ok(d) => d,
        Err(e) => {
            return Err(e);
        },
    };
    frame_of(Flag::Add, data.as_slice())
}

/// The frame that asks the tracker for the names of all files.
pub fn list_request() -> (r: Vec<u8>)
    ensures
        r@ == (ControlMessage { flag: Flag::List, data: Seq::empty() }).wire(),
{
    let mut out: Vec<u8> = Vec::new();
    out.push(Flag::List.to_bytes());
    out.push(0u8);
    out.push(0u8);
    assert(out@ =~= (ControlMessage { flag: Flag::List, data: Seq::empty() }).wire());
    out
}

/// The frame that asks the tracker who holds the file `name`; `BadLength`
/// where the name is too long for one frame.
pub fn file_request(name: &str) -> (r: Result<Vec<u8>, FstpError>)
    ensures
        name.spec_bytes().len() > MAX_DATA_SIZE ==> r == Err::<Vec<u8>, FstpError>(
            FstpError::BadLength,
        ),
        name.spec_bytes().len() <= MAX_DATA_SIZE ==> r is Ok && r.unwrap()@ == (ControlMessage {
            flag: Flag::File,
            data: encode_utf8(name@),
        }).wire(),
{
    frame_of(Flag::File, name.as_bytes())
}

/// The data of the reply at the start of `b`, if `b` starts with a reply:
/// a frame of kind OK. A frame of another kind is `MalformedPayload`.
pub open spec fn reply_data(b: Seq<u8>) -> Result<Seq<u8>, FstpError> {
    match parse_frame(b) {
        Ok(m) => if m.flag == Flag::Okay {
            Ok(m.data)
        } else {
            Err(FstpError::MalformedPayload)
        },
        Err(e) => Err(e),
    }
}

/// The names that a reply to a list query carries.
pub fn read_list_reply(buffer: &[u8]) -> (r: Result<Vec<String>, FstpError>)
    ensures
        match reply_data(buffer@) {
            Ok(data) => match parse_list(data) {
                Some(names) => r is Ok && texts_view(r.unwrap()@) == names,
                None => r == Err::<Vec<String>, FstpError>(FstpError::MalformedPayload),
            },
            Err(e) => r == Err::<Vec<String>, FstpError>(e),
        },
{
    let msg: FstpMessage = match FstpMessage::from_bytes(buffer) {
        Ok(m) => m,
        Err(e) => {
            return Err(e);
        },
    };
    match msg.header.flag {
        Flag::Okay => {},
        _ => {
            return Err(FstpError::MalformedPayload);
        },
    }
    match msg.data {
        Some(d) => decode_list(d),
        None => {
            let names: Vec<String> = Vec::new();
            assert(texts_view(names@) =~= Seq::<Seq<char>>::empty());
            Ok(names)
        },
    }
}

/// The answer that a reply to a file lookup carries.
pub fn read_file_reply(buffer: &[u8]) -> (r: Result<PeersWithFile, FstpError>)
    ensures
        match reply_data(buffer@) {
            Ok(data) => match parse_availability(data) {
                Some(a) => r is Ok && r.unwrap()@ == a && r.unwrap().well_formed(),
                None => r == Err::<PeersWithFile, FstpError>(FstpError::MalformedPayload),
            },
            Err(e) => r == Err::<PeersWithFile, FstpError>(e),
        },
{
    let msg: FstpMessage = match FstpMessage::from_bytes(buffer) {
        Ok(m) => m,
        Err(e) => {
            return Err(e);
        },
    };
    match msg.header.flag {
        Flag::Okay => {},
        _ => {
            return Err(FstpError::MalformedPayload);
        },
    }
    match msg.data {
        Some(d) => PeersWithFile::from_bytes(d),
        None => Err(FstpError::MalformedPayload),
    }
}

/// The state of the download of the file `name` that the answer `found`
/// allows: for each block, the holders of the block followed by the full
/// holders. There is none where the answer is not well formed or names no
/// holder at all, which means that the file is not available.
pub fn plan_download(name: &str, found: &PeersWithFile) -> (r: Option<Shared>)
    ensures
        r is Some <==> found.well_formed() && !found@.unavailable(),
        r is Some ==> r.unwrap().well_formed() && r.unwrap()@.file_name == name@
            && r.unwrap()@.holders.len() == found@.blocks.len() && r.unwrap()@.next_index == 0
            && forall|i: int|
            0 <= i < found@.blocks.len() ==> (#[trigger] r.unwrap()@.holders[i]) == with_missing(
                found@.blocks[i],
                found@.full,
            ),
{
    if !found.is_well_formed() || found.is_unavailable() {
        return None;
    }
    let holders: Vec<Vec<u32>> = found.effective_holders();
    proof {
        assert forall|i: int| 0 <= i < holders@.len() implies with_missing(
            Seq::empty(),
            (#[trigger] holders@[i])@,
        ) == with_missing(found@.blocks[i], found@.full) by {
            lemma_with_missing(found@.blocks[i], found@.full);
            lemma_with_missing_fresh(holders@[i]@);
        }
    }
    Some(Shared::new(name.to_owned(), holders))
}

} // verus!
