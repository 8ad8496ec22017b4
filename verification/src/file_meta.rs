//! What a node advertises of one file, and the inventory that an
//! announcement carries.
//!
//! Entry layout: size (8, big-endian) | complete (1) | bitmap length (4,
//! big-endian) | name length (2, big-endian) | bitmap, one byte a block |
//! name.

use vstd::prelude::*;
use vstd::string::*;
use vstd::utf8::*;
use crate::bitmap::{all_true, Bitmap, MAX_BITS};
use crate::bytes::{
    lemma_bytes_roundtrip, lemma_text_roundtrip, lemma_u16_bytes_roundtrip, lemma_u16_roundtrip,
    lemma_u32_bytes_roundtrip, lemma_u32_roundtrip, lemma_u64_bytes_roundtrip,
    lemma_u64_roundtrip, push_all, push_u16_be, push_u32_be, push_u64_be, read_u16_be,
    read_u32_be, read_u64_be, spec_u16_be, spec_u16_from_be, spec_u32_be, spec_u32_from_be,
    spec_u64_be, spec_u64_from_be, string_of,
};
use crate::fsnp::MAX_CHUNK_SIZE;
use crate::fstp::FstpError;

verus! {

/// Bytes of an entry in front of its bitmap.
pub const ENTRY_HEADER_SIZE: usize = 15;

/// One inventory entry as a node holds it.
///
/// `blocks_len` and `name_len` are the two length fields of the wire form;
/// `well_formed` says when they agree with `blocks` and `name`.
#[derive(Debug, Clone)]
pub struct FileMeta {
    pub f_size: u64,
    pub has_full_file: bool,
    pub blocks_len: u32,
    pub name_len: u16,
    pub blocks: Bitmap,
    pub name: String,
}

/// What an inventory entry says.
pub struct InventoryEntry {
    pub size: u64,
    pub complete: bool,
    pub have: Seq<bool>,
    pub name: Seq<char>,
}

/// The number of blocks that a file of `size` bytes is cut into.
pub open spec fn block_count_of(size: int) -> int {
    (size + MAX_CHUNK_SIZE - 1) / (MAX_CHUNK_SIZE as int)
}

/// One byte a flag: 1 for a block that is there, 0 for one that is not.
pub open spec fn flag_bytes(have: Seq<bool>) -> Seq<u8> {
    Seq::new(
        have.len(),
        |i: int|
            if have[i] {
                1u8
            } else {
                0u8
            },
    )
}

/// The flags that the bytes `b` stand for.
pub open spec fn bytes_flags(b: Seq<u8>) -> Seq<bool> {
    Seq::new(b.len(), |i: int| b[i] == 1)
}

/// Whether every byte of `b` is 0 or 1.
pub open spec fn is_flag_bytes(b: Seq<u8>) -> bool {
    forall|i: int| 0 <= i < b.len() ==> #[trigger] b[i] <= 1
}

impl InventoryEntry {
    /// The entry keeps the rules of the format: the lengths fit their
    /// fields, a complete file has no unset flag, and there is one flag for
    /// each block of the file, or none at all for a complete file.
    pub open spec fn well_formed(self) -> bool {
        &&& encode_utf8(self.name).len() <= u16::MAX
        &&& self.have.len() <= MAX_BITS
        &&& self.complete ==> all_true(self.have)
        &&& (self.have.len() == block_count_of(self.size as int) || (self.complete
            && self.have.len() == 0))
    }

    /// The bytes that go on the wire.
    pub open spec fn wire(self) -> Seq<u8> {
        spec_u64_be(self.size) + seq![
            if self.complete {
                1u8
            } else {
                0u8
            },
        ] + spec_u32_be(self.have.len() as u32) + spec_u16_be(encode_utf8(self.name).len() as u16)
            + flag_bytes(self.have) + encode_utf8(self.name)
    }
}

/// The bitmap length that the header of `b` declares.
pub open spec fn declared_blocks_len(b: Seq<u8>) -> int {
    spec_u32_from_be(b.subrange(9, 13)) as int
}

/// The name length that the header of `b` declares.
pub open spec fn declared_entry_name_len(b: Seq<u8>) -> int {
    spec_u16_from_be(b.subrange(13, 15)) as int
}

/// The entry that the header and the bytes behind it spell, whether or not
/// it is a valid one.
pub open spec fn spelled_entry(b: Seq<u8>) -> InventoryEntry {
    let bl = declared_blocks_len(b);
    let nl = declared_entry_name_len(b);
    InventoryEntry {
        size: spec_u64_from_be(b.subrange(0, 8)),
        complete: b[8] == 1,
        have: bytes_flags(b.subrange(ENTRY_HEADER_SIZE as int, ENTRY_HEADER_SIZE + bl)),
        name: decode_utf8(b.subrange(ENTRY_HEADER_SIZE + bl, ENTRY_HEADER_SIZE + bl + nl)),
    }
}

/// The entry at the start of `b` and the number of bytes it takes, if the
/// bytes are an entry: a whole header, a completeness byte of 0 or 1, bitmap
/// and name within `b`, bitmap bytes of 0 or 1, a name in UTF-8, and the
/// rules of `well_formed`.
#[verifier::opaque]
pub open spec fn parse_entry(b: Seq<u8>) -> Option<(InventoryEntry, int)> {
    let bl = declared_blocks_len(b);
    let nl = declared_entry_name_len(b);
    if b.len() < ENTRY_HEADER_SIZE {
        None
    } else if b[8] > 1 {
        None
    } else if ENTRY_HEADER_SIZE + bl + nl > b.len() {
        None
    } else if !is_flag_bytes(b.subrange(ENTRY_HEADER_SIZE as int, ENTRY_HEADER_SIZE + bl)) {
        None
    } else if !valid_utf8(b.subrange(ENTRY_HEADER_SIZE + bl, ENTRY_HEADER_SIZE + bl + nl)) {
        None
    } else if !spelled_entry(b).well_formed() {
        None
    } else {
        Some((spelled_entry(b), ENTRY_HEADER_SIZE + bl + nl))
    }
}

/// Where the fields of a written entry stand.
proof fn lemma_entry_wire_parts(e: InventoryEntry, rest: Seq<u8>)
    ensures
        ({
            let b = e.wire() + rest;
            let bl = e.have.len() as int;
            let nl = encode_utf8(e.name).len() as int;
            &&& e.wire().len() == ENTRY_HEADER_SIZE + bl + nl
            &&& b.subrange(0, 8) == spec_u64_be(e.size)
            &&& b[8] == (if e.complete {
                1u8
            } else {
                0u8
            })
            &&& b.subrange(9, 13) == spec_u32_be(bl as u32)
            &&& b.subrange(13, 15) == spec_u16_be(nl as u16)
            &&& b.subrange(15, 15 + bl) == flag_bytes(e.have)
            &&& b.subrange(15 + bl, 15 + bl + nl) == encode_utf8(e.name)
        }),
{
    let b: Seq<u8> = e.wire() + rest;
    let bl: int = e.have.len() as int;
    let nl: int = encode_utf8(e.name).len() as int;
    assert(spec_u64_be(e.size).len() == 8);
    assert(b.subrange(0, 8) =~= spec_u64_be(e.size));
    assert(b.subrange(9, 13) =~= spec_u32_be(bl as u32));
    assert(b.subrange(13, 15) =~= spec_u16_be(nl as u16));
    assert(b.subrange(15, 15 + bl) =~= flag_bytes(e.have));
    assert(b.subrange(15 + bl, 15 + bl + nl) =~= encode_utf8(e.name));
}

/// A written entry is read back as it was, and takes as many bytes as were
/// written, whatever follows it.
pub proof fn lemma_parse_entry_wire(e: InventoryEntry, rest: Seq<u8>)
    requires
        e.well_formed(),
    ensures
        parse_entry(e.wire() + rest) == Some((e, e.wire().len() as int)),
        e.wire().len() == ENTRY_HEADER_SIZE + e.have.len() + encode_utf8(e.name).len(),
{
    let b: Seq<u8> = e.wire() + rest;
    let bl: int = e.have.len() as int;
    let nl: int = encode_utf8(e.name).len() as int;
    lemma_entry_wire_parts(e, rest);
    lemma_u64_roundtrip(e.size);
    lemma_u32_roundtrip(bl as u32);
    lemma_u16_roundtrip(nl as u16);
    lemma_text_roundtrip(e.name);
    assert(declared_blocks_len(b) == bl);
    assert(declared_entry_name_len(b) == nl);
    assert(bytes_flags(flag_bytes(e.have)) =~= e.have);
    assert(is_flag_bytes(flag_bytes(e.have)));
    let got: InventoryEntry = spelled_entry(b);
    assert(got.size == e.size);
    assert(got.complete == e.complete);
    assert(got.have == e.have);
    assert(got.name == e.name);
    assert(got == e);
    assert(parse_entry(b) == Some((e, e.wire().len() as int))) by {
        reveal(parse_entry);
    }
}

/// An entry that was read is written back as the bytes it was read from.
pub proof fn lemma_wire_parse_entry(b: Seq<u8>)
    requires
        parse_entry(b) is Some,
    ensures
        parse_entry(b).unwrap().0.well_formed(),
        ENTRY_HEADER_SIZE <= parse_entry(b).unwrap().1 <= b.len(),
        parse_entry(b).unwrap().0.wire() == b.subrange(0, parse_entry(b).unwrap().1),
{
    reveal(parse_entry);
    let (e, n) = parse_entry(b).unwrap();
    let bl: int = declared_blocks_len(b);
    let nl: int = declared_entry_name_len(b);
    lemma_u64_bytes_roundtrip(b.subrange(0, 8));
    lemma_u32_bytes_roundtrip(b.subrange(9, 13));
    lemma_u16_bytes_roundtrip(b.subrange(13, 15));
    lemma_bytes_roundtrip(b.subrange(15 + bl, 15 + bl + nl));
    let fb: Seq<u8> = b.subrange(15, 15 + bl);
    assert(flag_bytes(bytes_flags(fb)) =~= fb) by {
        assert forall|i: int| 0 <= i < fb.len() implies flag_bytes(bytes_flags(fb))[i] == fb[i] by {
            assert(fb[i] <= 1);
        }
    }
    assert(e.wire() =~= b.subrange(0, n));
}

/// The bytes of an inventory: its entries one after another.
pub open spec fn inventory_wire(es: Seq<InventoryEntry>) -> Seq<u8>
    decreases es.len(),
{
    if es.len() == 0 {
        Seq::empty()
    } else {
        es[0].wire() + inventory_wire(es.drop_first())
    }
}

/// The entries that fill `b` from its first byte to its last, if `b` is
/// made of entries and of nothing else.
pub open spec fn parse_inventory(b: Seq<u8>) -> Option<Seq<InventoryEntry>>
    decreases b.len(),
{
    if b.len() == 0 {
        Some(Seq::empty())
    } else {
        match parse_entry(b) {
            Some((e, n)) => if 0 < n <= b.len() {
                match parse_inventory(b.subrange(n, b.len() as int)) {
                    Some(rest) => Some(seq![e] + rest),
                    None => None,
                }
            } else {
                None
            },
            None => None,
        }
    }
}

/// Whether every entry of `es` is well formed.
pub open spec fn all_well_formed(es: Seq<InventoryEntry>) -> bool {
    forall|i: int| 0 <= i < es.len() ==> (#[trigger] es[i]).well_formed()
}

/// A written inventory is read back as it was.
pub proof fn lemma_parse_inventory_wire(es: Seq<InventoryEntry>)
    requires
        all_well_formed(es),
    ensures
        parse_inventory(inventory_wire(es)) == Some(es),
    decreases es.len(),
{
    if es.len() > 0 {
        let rest: Seq<InventoryEntry> = es.drop_first();
        let tail: Seq<u8> = inventory_wire(rest);
        assert(all_well_formed(rest)) by {
            assert forall|i: int| 0 <= i < rest.len() implies (#[trigger] rest[i]).well_formed() by {
                assert(rest[i] == es[i + 1]);
            }
        }
        lemma_parse_inventory_wire(rest);
        lemma_parse_step(es[0], tail, rest);
        assert(seq![es[0]] + rest =~= es);
    }
}

/// An entry in front of the bytes of an inventory is read first, and the
/// inventory behind it.
proof fn lemma_parse_step(e: InventoryEntry, tail: Seq<u8>, rest: Seq<InventoryEntry>)
    requires
        e.well_formed(),
        parse_inventory(tail) == Some(rest),
    ensures
        parse_inventory(e.wire() + tail) == Some(seq![e] + rest),
{
    let b: Seq<u8> = e.wire() + tail;
    let n: int = e.wire().len() as int;
    lemma_parse_entry_wire(e, tail);
    assert(b.subrange(n, b.len() as int) =~= tail);
    assert(b.len() > 0);
    assert(parse_entry(b) == Some((e, n)));
}

/// An inventory that was read is written back as the bytes it was read
/// from, and each of its entries is well formed.
pub proof fn lemma_wire_parse_inventory(b: Seq<u8>)
    requires
        parse_inventory(b) is Some,
    ensures
        all_well_formed(parse_inventory(b).unwrap()),
        inventory_wire(parse_inventory(b).unwrap()) == b,
    decreases b.len(),
{
    if b.len() == 0 {
        assert(inventory_wire(Seq::<InventoryEntry>::empty()) =~= b);
    } else {
        lemma_parse_inventory_first(b);
        let e: InventoryEntry = parse_entry(b).unwrap().0;
        let n: int = parse_entry(b).unwrap().1;
        let tail: Seq<u8> = b.subrange(n, b.len() as int);
        lemma_wire_parse_entry(b);
        lemma_wire_parse_inventory(tail);
        let rest: Seq<InventoryEntry> = parse_inventory(tail).unwrap();
        lemma_cons_inventory(e, rest);
        assert(b.subrange(0, n) + tail =~= b);
    }
}

/// What was read of a non-empty inventory is its first entry, followed by
/// what is read behind that entry.
proof fn lemma_parse_inventory_first(b: Seq<u8>)
    requires
        parse_inventory(b) is Some,
        b.len() > 0,
    ensures
        parse_entry(b) is Some,
        0 < parse_entry(b).unwrap().1 <= b.len(),
        parse_inventory(b.subrange(parse_entry(b).unwrap().1, b.len() as int)) is Some,
        parse_inventory(b) == Some(
            seq![parse_entry(b).unwrap().0] + parse_inventory(
                b.subrange(parse_entry(b).unwrap().1, b.len() as int),
            ).unwrap(),
        ),
{
}

/// Putting an entry in front of an inventory puts its bytes in front.
proof fn lemma_cons_inventory(e: InventoryEntry, rest: Seq<InventoryEntry>)
    requires
        e.well_formed(),
        all_well_formed(rest),
    ensures
        all_well_formed(seq![e] + rest),
        inventory_wire(seq![e] + rest) == e.wire() + inventory_wire(rest),
{
    let es: Seq<InventoryEntry> = seq![e] + rest;
    assert(es.drop_first() =~= rest);
    assert(es[0] == e);
    assert forall|i: int| 0 <= i < es.len() implies (#[trigger] es[i]).well_formed() by {
        if i > 0 {
            assert(es[i] == rest[i - 1]);
        }
    }
}

/// The number of blocks that a file of `size` bytes is cut into.
pub fn block_count(size: u64) -> (n: u64)
    ensures
        n == block_count_of(size as int),
{
    let whole: u64 = size / 1420;
    let part: u64 = size % 1420;
    assert(block_count_of(size as int) == (if part == 0 {
        whole as int
    } else {
        whole + 1
    })) by {
        assert(size as int == 1420 * whole + part);
        assert(size + 1420 - 1 == 1420 * whole + (part + 1419));
        if part == 0 {
            assert((1420 * whole + 1419) / 1420 == whole as int);
        } else {
            assert((1420 * (whole + 1) + (part - 1)) / 1420 == whole + 1);
        }
    }
    if part == 0 {
        whole
    } else {
        whole + 1
    }
}

impl FileMeta {
    /// The two length fields agree with the bitmap and the name, and the
    /// entry keeps the rules of the format.
    pub open spec fn well_formed(&self) -> bool {
        &&& self.blocks_len == self.blocks@.len()
        &&& self.name_len == encode_utf8(self.name@).len()
        &&& self@.well_formed()
    }

    /// An entry for a file that is held whole; its bitmap is left out.
    /// None where the name is longer than the name-length field can say.
    pub fn complete(name: &str, size: u64) -> (r: Option<FileMeta>)
        ensures
            r is Some <==> name.spec_bytes().len() <= u16::MAX,
            r is Some ==> r.unwrap().well_formed() && r.unwrap()@ == (InventoryEntry {
                size,
                complete: true,
                have: Seq::empty(),
                name: name@,
            }),
    {
        let name_len: usize = name.as_bytes().len();
        if name_len > u16::MAX as usize {
            return None;
        }
        let fm = FileMeta {
            f_size: size,
            has_full_file: true,
            blocks_len: 0,
            name_len: name_len as u16,
            blocks: Bitmap::new(),
            name: name.to_owned(),
        };
        Some(fm)
    }

    /// An entry for a file of which the blocks flagged in `have` are held.
    /// None where the name is too long for its length field or `have` does
    /// not hold one flag for each block of a file of `size` bytes.
    pub fn partial(name: &str, size: u64, have: &[bool]) -> (r: Option<FileMeta>)
        ensures
            r is Some <==> name.spec_bytes().len() <= u16::MAX && have@.len() <= MAX_BITS
                && have@.len() == block_count_of(size as int),
            r is Some ==> r.unwrap().well_formed() && r.unwrap()@ == (InventoryEntry {
                size,
                complete: false,
                have: have@,
                name: name@,
            }),
    {
        let name_len: usize = name.as_bytes().len();
        if name_len > u16::MAX as usize {
            return None;
        }
        if have.len() as u64 != block_count(size) {
            return None;
        }
        match Bitmap::from_flags(have) {
            Some(blocks) => Some(
                FileMeta {
                    f_size: size,
                    has_full_file: false,
                    blocks_len: have.len() as u32,
                    name_len: name_len as u16,
                    blocks,
                    name: name.to_owned(),
                },
            ),
            None => None,
        }
    }

    /// Whether the entry is well formed.
    pub fn is_well_formed(&self) -> (r: bool)
        ensures
            r == self.well_formed(),
    {
        let n: usize = self.blocks.len();
        if n != self.blocks_len as usize || n > MAX_BITS {
            return false;
        }
        if self.name.as_str().as_bytes().len() != self.name_len as usize {
            return false;
        }
        if self.has_full_file && !self.blocks.all_set() {
            return false;
        }
        n as u64 == block_count(self.f_size) || (self.has_full_file && n == 0)
    }

    /// The bytes of the entry; `MalformedPayload` for an entry that is not
    /// well formed.
    pub fn as_bytes(&self) -> (r: Result<Vec<u8>, FstpError>)
        ensures
            self.well_formed() ==> r is Ok && r.unwrap()@ == self@.wire(),
            !self.well_formed() ==> r == Err::<Vec<u8>, FstpError>(FstpError::MalformedPayload),
    {
        if !self.is_well_formed() {
            return Err(FstpError::MalformedPayload);
        }
        let mut out: Vec<u8> = Vec::new();
        push_u64_be(&mut out, self.f_size);
        out.push(
            if self.has_full_file {
                1u8
            } else {
                0u8
            },
        );
        push_u32_be(&mut out, self.blocks_len);
        push_u16_be(&mut out, self.name_len);
        let ghost head: Seq<u8> = out@;
        let n: usize = self.blocks.len();
        let mut i: usize = 0;
        while i < n
            invariant
                i <= n,
                n == self.blocks@.len(),
                out@ == head + flag_bytes(self.blocks@).subrange(0, i as int),
            decreases n - i,
        {
            let bit: bool = match self.blocks.get(i) {
                Some(b) => b,
                None => false,
            };
            out.push(
                if bit {
                    1u8
                } else {
                    0u8
                },
            );
            i += 1;
            assert(out@ =~= head + flag_bytes(self.blocks@).subrange(0, i as int));
        }
        assert(flag_bytes(self.blocks@).subrange(0, n as int) =~= flag_bytes(self.blocks@));
        push_all(&mut out, self.name.as_str().as_bytes());
        assert(out@ =~= self@.wire());
        Ok(out)
    }

    /// Reads the entry at the start of `bytes` and says how many bytes it
    /// takes; `MalformedPayload` where `parse_entry` finds none.
    #[verifier::loop_isolation(false)]
    pub fn from_bytes(bytes: &[u8]) -> (r: Result<(usize, FileMeta), FstpError>)
        ensures
            match parse_entry(bytes@) {
                Some((e, n)) => r is Ok && r.unwrap().0 == n && r.unwrap().1@ == e
                    && r.unwrap().1.well_formed(),
                None => r == Err::<(usize, FileMeta), FstpError>(FstpError::MalformedPayload),
            },
    {
        proof {
            reveal(parse_entry);
        }
        if bytes.len() < ENTRY_HEADER_SIZE {
            return Err(FstpError::MalformedPayload);
        }
        let f_size: u64 = read_u64_be(bytes, 0);
        let flag: u8 = bytes[8];
        let blocks_len: u32 = read_u32_be(bytes, 9);
        let name_len: u16 = read_u16_be(bytes, 13);
        if flag > 1 {
            return Err(FstpError::MalformedPayload);
        }
        let has_full_file: bool = flag == 1;
        if ENTRY_HEADER_SIZE as u64 + blocks_len as u64 + name_len as u64 > bytes.len() as u64 {
            return Err(FstpError::MalformedPayload);
        }
        let bl: usize = blocks_len as usize;
        let nl: usize = name_len as usize;
        let ghost fb: Seq<u8> = bytes@.subrange(ENTRY_HEADER_SIZE as int, ENTRY_HEADER_SIZE + bl);
        let ghost nb: Seq<u8> = bytes@.subrange(
            ENTRY_HEADER_SIZE + bl,
            ENTRY_HEADER_SIZE + bl + nl,
        );
        // The bitmap bytes are checked before anything is made of them.
        let mut i: usize = 0;
        while i < bl
            invariant
                i <= bl,
                ENTRY_HEADER_SIZE + bl <= bytes@.len() <= usize::MAX,
                fb == bytes@.subrange(ENTRY_HEADER_SIZE as int, ENTRY_HEADER_SIZE + bl),
                forall|k: int| 0 <= k < i ==> #[trigger] fb[k] <= 1,
            decreases bl - i,
        {
            if bytes[ENTRY_HEADER_SIZE + i] > 1 {
                assert(fb[i as int] > 1);
                return Err(FstpError::MalformedPayload);
            }
            i += 1;
        }
        let name_bytes: &[u8] = vstd::slice::slice_subrange(
            bytes,
            ENTRY_HEADER_SIZE + bl,
            ENTRY_HEADER_SIZE + bl + nl,
        );
        assert(name_bytes@ =~= nb);
        let name: String = match string_of(name_bytes) {
            Some(s) => s,
            None => {
                return Err(FstpError::MalformedPayload);
            },
        };
        proof {
            lemma_bytes_roundtrip(nb);
        }
        if bl > MAX_BITS {
            return Err(FstpError::MalformedPayload);
        }
        if !(bl as u64 == block_count(f_size) || (has_full_file && bl == 0)) {
            return Err(FstpError::MalformedPayload);
        }
        let mut blocks: Bitmap = Bitmap::new();
        let mut k: usize = 0;
        while k < bl
            invariant
                k <= bl <= MAX_BITS,
                ENTRY_HEADER_SIZE + bl <= bytes@.len() <= usize::MAX,
                fb == bytes@.subrange(ENTRY_HEADER_SIZE as int, ENTRY_HEADER_SIZE + bl),
                blocks@ == bytes_flags(fb).subrange(0, k as int),
                has_full_file ==> all_true(blocks@),
            decreases bl - k,
        {
            let bit: bool = bytes[ENTRY_HEADER_SIZE + k] == 1;
            if has_full_file && !bit {
                assert(!bytes_flags(fb)[k as int]);
                assert(!all_true(bytes_flags(fb)));
                return Err(FstpError::MalformedPayload);
            }
            blocks.push(bit);
            k += 1;
            assert(blocks@ =~= bytes_flags(fb).subrange(0, k as int));
        }
        assert(bytes_flags(fb).subrange(0, bl as int) =~= bytes_flags(fb));
        let fm = FileMeta { f_size, has_full_file, blocks_len, name_len, blocks, name };
        assert(fm@ == spelled_entry(bytes@));
        Ok((ENTRY_HEADER_SIZE + bl + nl, fm))
    }

    /// A copy of the entry.
    pub fn duplicate(&self) -> (r: FileMeta)
        ensures
            r@ == self@,
            r.blocks_len == self.blocks_len,
            r.name_len == self.name_len,
            r.well_formed() == self.well_formed(),
    {
        FileMeta {
            f_size: self.f_size,
            has_full_file: self.has_full_file,
            blocks_len: self.blocks_len,
            name_len: self.name_len,
            blocks: self.blocks.clone(),
            name: self.name.clone(),
        }
    }
}

impl View for FileMeta {
    type V = InventoryEntry;

    open spec fn view(&self) -> InventoryEntry {
        InventoryEntry {
            size: self.f_size,
            complete: self.has_full_file,
            have: self.blocks@,
            name: self.name@,
        }
    }
}

/// What each entry of `v` says, in the order of `v`.
pub open spec fn entries_view(v: Seq<FileMeta>) -> Seq<InventoryEntry> {
    Seq::new(v.len(), |i: int| v[i]@)
}

/// The data of an announcement of `entries`; `MalformedPayload` where one
/// of them is not well formed.
pub fn encode_inventory(entries: &Vec<FileMeta>) -> (r: Result<Vec<u8>, FstpError>)
    ensures
        (forall|i: int| 0 <= i < entries@.len() ==> (#[trigger] entries@[i]).well_formed()) ==> r is Ok
            && r.unwrap()@ == inventory_wire(entries_view(entries@)),
        !(forall|i: int| 0 <= i < entries@.len() ==> (#[trigger] entries@[i]).well_formed()) ==> r
            == Err::<Vec<u8>, FstpError>(FstpError::MalformedPayload),
{
    let mut out: Vec<u8> = Vec::new();
    let n: usize = entries.len();
    let mut i: usize = n;
    let ghost all: Seq<InventoryEntry> = entries_view(entries@);
    assert(all.subrange(n as int, n as int) =~= Seq::<InventoryEntry>::empty());
    while i > 0
        invariant
            i <= n,
            n == entries@.len(),
            all == entries_view(entries@),
            forall|k: int| i <= k < n ==> (#[trigger] entries@[k]).well_formed(),
            out@ == inventory_wire(all.subrange(i as int, n as int)),
        decreases i,
    {
        i -= 1;
        let one: Vec<u8> = match entries[i].as_bytes() {
            Ok(b) => b,
            Err(e) => {
                return Err(e);
            },
        };
        let ghost tail: Seq<u8> = out@;
        let mut next: Vec<u8> = one;
        push_all(&mut next, out.as_slice());
        out = next;
        proof {
            let s: Seq<InventoryEntry> = all.subrange(i as int, n as int);
            assert(s.drop_first() =~= all.subrange(i + 1, n as int));
            assert(s[0] == entries@[i as int]@);
        }
    }
    assert(all.subrange(0, n as int) =~= all);
    Ok(out)
}

/// Reads the data of an announcement; `MalformedPayload` where the data is
/// not made of entries from its first byte to its last.
pub fn decode_inventory(data: &[u8]) -> (r: Result<Vec<FileMeta>, FstpError>)
    ensures
        match parse_inventory(data@) {
            Some(es) => r is Ok && entries_view(r.unwrap()@) == es && forall|i: int|
                0 <= i < r.unwrap()@.len() ==> (#[trigger] r.unwrap()@[i]).well_formed(),
            None => r == Err::<Vec<FileMeta>, FstpError>(FstpError::MalformedPayload),
        },
{
    let mut out: Vec<FileMeta> = Vec::new();
    let mut at: usize = 0;
    assert(data@.subrange(0, data@.len() as int) =~= data@);
    assert(entries_view(out@) =~= Seq::<InventoryEntry>::empty());
    while at < data.len()
        invariant
            at <= data@.len(),
            forall|i: int| 0 <= i < out@.len() ==> (#[trigger] out@[i]).well_formed(),
            parse_inventory(data@) == (match parse_inventory(
                data@.subrange(at as int, data@.len() as int),
            ) {
                Some(rest) => Some(entries_view(out@) + rest),
                None => None,
            }),
        decreases data@.len() - at,
    {
        let ghost here: Seq<u8> = data@.subrange(at as int, data@.len() as int);
        let ghost done: Seq<InventoryEntry> = entries_view(out@);
        let tail: &[u8] = vstd::slice::slice_subrange(data, at, data.len());
        match FileMeta::from_bytes(tail) {
            Ok((n, fm)) => {
                proof {
                    lemma_wire_parse_entry(here);
                    assert(here.subrange(n as int, here.len() as int) =~= data@.subrange(
                        at + n,
                        data@.len() as int,
                    ));
                }
                let ghost e: InventoryEntry = fm@;
                out.push(fm);
                at = at + n;
                proof {
                    assert(entries_view(out@) =~= done + seq![e]);
                    let next: Seq<u8> = data@.subrange(at as int, data@.len() as int);
                    match parse_inventory(next) {
                        Some(rest) => {
                            assert(done + (seq![e] + rest) =~= entries_view(out@) + rest);
                        },
                        None => {},
                    }
                }
            },
            Err(e) => {
                return Err(e);
            },
        }
    }
    proof {
        let rest: Seq<InventoryEntry> = Seq::empty();
        assert(entries_view(out@) + rest =~= entries_view(out@));
    }
    Ok(out)
}

} // verus!
