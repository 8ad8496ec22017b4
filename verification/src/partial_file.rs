//! A file under construction: its blocks at their final places, followed by
//! a trailer that says which of them are there.
//!
//! Layout of a partial file of `n` blocks: `n` block areas of 1420 bytes;
//! `n` status bytes, `'1'` for a block that is written and `'0'` otherwise;
//! the size of the last block (2, little-endian); `n` (4, little-endian).
//!
//! The functions work on the bytes of a file. Reading those bytes from a
//! disk and writing them back is left to the caller, to whom the offsets
//! are given.

use vstd::prelude::*;
use vstd::string::*;
use crate::bytes::{
    lemma_u16_roundtrip, lemma_u32_roundtrip, push_u32_le, read_u16_le, read_u32_le,
    spec_u16_from_le, spec_u16_le, spec_u32_from_le, spec_u32_le,
};
use vstd::utf8::encode_utf8;
use crate::bitmap::MAX_BITS;
use crate::file_meta::{block_count_of, FileMeta, InventoryEntry};
use crate::fsnp::MAX_CHUNK_SIZE;

verus! {

/// The status byte of a block that is written.
pub const WRITTEN: u8 = 0x31;

/// The status byte of a block that is not written.
pub const MISSING: u8 = 0x30;

/// Bytes of the trailer behind the status bytes.
pub const TRAILER_TAIL_SIZE: usize = 6;

/// Why an operation on a partial file failed.
#[derive(Debug, Clone, Copy, PartialEq, Eq, Structural)]
pub enum PartialError {
    /// The block is not written yet.
    BlockNotAvailable,
    /// The file has no block of that index.
    BlockOutOfRange,
    /// The block is longer than `MAX_CHUNK_SIZE`, or than the buffer it
    /// comes from or goes to.
    ChunkTooBig,
    /// Not every block is written.
    NotComplete,
    /// The name is not that of a partial file.
    NotPartial,
    /// The bytes are not a partial file of the given number of blocks.
    BadTrailer,
    /// The file is too large for this machine's memory, or its size does not
    /// fit its blocks.
    TooLarge,
    /// The file's name is too long for an inventory entry.
    NameTooLong,
}

/// A partial file: its name on disk and its bytes.
#[derive(Debug)]
pub struct PartFile {
    pub name: String,
    pub content: Vec<u8>,
}

/// The place of block `i` in a file.
pub open spec fn block_start(i: int) -> int {
    i * 1420
}

/// The place of the status byte of block `i` in a partial file of `n`
/// blocks.
pub open spec fn status_place(n: int, i: int) -> int {
    n * 1420 + i
}

/// The length of a partial file of `n` blocks.
pub open spec fn part_len(n: int) -> int {
    n * 1420 + n + TRAILER_TAIL_SIZE
}

/// The size of the last block of a file of `size` bytes: what is left over
/// after the full blocks, or a full block where nothing is.
pub open spec fn last_size_of(size: int) -> int {
    if size % 1420 == 0 {
        1420
    } else {
        size % 1420
    }
}

/// The size of block `i` of a file of `n` blocks whose last block has
/// `last` bytes.
pub open spec fn block_size_of(n: int, last: int, i: int) -> int {
    if i == n - 1 {
        last
    } else {
        MAX_CHUNK_SIZE as int
    }
}

/// The number of blocks that the trailer of `img` declares.
pub open spec fn declared_count(img: Seq<u8>) -> int {
    spec_u32_from_le(img.subrange(img.len() - 4, img.len() as int)) as int
}

/// The size of the last block that the trailer of `img` declares.
pub open spec fn declared_last_size(img: Seq<u8>) -> int {
    spec_u16_from_le(img.subrange(img.len() - 6, img.len() - 4)) as int
}

/// Whether `img` is a partial file of `n` blocks: it has the length of one,
/// its trailer declares `n` blocks, and each status byte is `'0'` or `'1'`.
pub open spec fn is_part_image(img: Seq<u8>, n: int) -> bool {
    &&& 0 <= n <= u32::MAX
    &&& img.len() == part_len(n)
    &&& declared_count(img) == n
    &&& forall|i: int|
        0 <= i < n ==> #[trigger] img[status_place(n, i)] == WRITTEN || img[status_place(n, i)]
            == MISSING
}

/// Whether block `i` of the partial file `img` of `n` blocks is written.
pub open spec fn has_block(img: Seq<u8>, n: int, i: int) -> bool {
    img[status_place(n, i)] == WRITTEN
}

/// Whether every block of the partial file `img` of `n` blocks is written.
pub open spec fn all_written(img: Seq<u8>, n: int) -> bool {
    forall|i: int| 0 <= i < n ==> #[trigger] has_block(img, n, i)
}

/// The first `len` bytes of the area of block `i`.
pub open spec fn block_bytes(img: Seq<u8>, i: int, len: int) -> Seq<u8> {
    img.subrange(block_start(i), block_start(i) + len)
}

/// The partial file of `n` blocks in which no block is written, for a file
/// of `size` bytes.
pub open spec fn empty_image(size: int, n: int) -> Seq<u8> {
    Seq::new((n * 1420) as nat, |k: int| 0u8) + Seq::new(n as nat, |k: int| MISSING)
        + spec_u16_le(last_size_of(size) as u16) + spec_u32_le(n as u32)
}

/// `img` with `bytes` at the place of block `i` and the block's status
/// byte set.
pub open spec fn with_bytes(img: Seq<u8>, n: int, i: int, bytes: Seq<u8>) -> Seq<u8> {
    Seq::new(
        img.len(),
        |k: int|
            if block_start(i) <= k < block_start(i) + bytes.len() {
                bytes[k - block_start(i)]
            } else if k == status_place(n, i) {
                WRITTEN
            } else {
                img[k]
            },
    )
}

/// Whether a write of `bytes` as block `i` is taken by the partial file
/// `img` of `n` blocks.
pub open spec fn accepts(img: Seq<u8>, n: int, i: int, bytes: Seq<u8>) -> bool {
    is_part_image(img, n) && 0 <= i < n && bytes.len() <= MAX_CHUNK_SIZE
}

/// The partial file after a write of `bytes` as block `i`. A write that is
/// not taken changes nothing, and neither does one of a block that is
/// written already.
pub open spec fn written(img: Seq<u8>, n: int, i: int, bytes: Seq<u8>) -> Seq<u8> {
    if accepts(img, n, i, bytes) && !has_block(img, n, i) {
        with_bytes(img, n, i, bytes)
    } else {
        img
    }
}

/// The partial file after the writes `ws`, each a block index and bytes, in
/// their order.
pub open spec fn replayed(img: Seq<u8>, n: int, ws: Seq<(u32, Seq<u8>)>) -> Seq<u8>
    decreases ws.len(),
{
    if ws.len() == 0 {
        img
    } else {
        written(replayed(img, n, ws.drop_last()), n, ws.last().0 as int, ws.last().1)
    }
}

/// One write keeps a partial file a partial file. It sets the status byte
/// of its block and no other, leaves the rest of the trailer as it was, and
/// touches no other block's area.
pub proof fn lemma_written(img: Seq<u8>, n: int, i: int, bytes: Seq<u8>)
    requires
        is_part_image(img, n),
    ensures
        is_part_image(written(img, n, i, bytes), n),
        declared_last_size(written(img, n, i, bytes)) == declared_last_size(img),
        forall|j: int|
            0 <= j < n ==> (#[trigger] has_block(written(img, n, i, bytes), n, j) <==> has_block(
                img,
                n,
                j,
            ) || (j == i && accepts(img, n, i, bytes))),
        forall|j: int, len: int|
            0 <= j < n && j != i && 0 <= len <= MAX_CHUNK_SIZE ==> #[trigger] block_bytes(
                written(img, n, i, bytes),
                j,
                len,
            ) == block_bytes(img, j, len),
        accepts(img, n, i, bytes) && !has_block(img, n, i) ==> block_bytes(
            written(img, n, i, bytes),
            i,
            bytes.len() as int,
        ) == bytes,
        has_block(img, n, i) ==> written(img, n, i, bytes) == img,
{
    let out: Seq<u8> = written(img, n, i, bytes);
    if accepts(img, n, i, bytes) && !has_block(img, n, i) {
        let len: int = img.len() as int;
        assert(out.subrange(len - 4, len) =~= img.subrange(len - 4, len));
        assert(out.subrange(len - 6, len - 4) =~= img.subrange(len - 6, len - 4));
        assert forall|j: int, l: int|
            0 <= j < n && j != i && 0 <= l <= MAX_CHUNK_SIZE implies #[trigger] block_bytes(
            out,
            j,
            l,
        ) == block_bytes(img, j, l) by {
            assert(block_bytes(out, j, l) =~= block_bytes(img, j, l));
        }
        assert(block_bytes(out, i, bytes.len() as int) =~= bytes);
        assert forall|j: int| 0 <= j < n implies (#[trigger] has_block(out, n, j) <==> has_block(
            img,
            n,
            j,
        ) || j == i) by {
            assert(out[status_place(n, j)] == (if j == i {
                WRITTEN
            } else {
                img[status_place(n, j)]
            }));
        }
        assert forall|j: int| 0 <= j < n implies #[trigger] out[status_place(n, j)] == WRITTEN
            || out[status_place(n, j)] == MISSING by {
            assert(has_block(out, n, j) <==> has_block(img, n, j) || j == i);
            assert(img[status_place(n, j)] == WRITTEN || img[status_place(n, j)] == MISSING);
        }
    }
}

/// Writing a block twice is writing it once.
pub proof fn lemma_write_idempotent(img: Seq<u8>, n: int, i: int, bytes: Seq<u8>)
    requires
        is_part_image(img, n),
    ensures
        written(written(img, n, i, bytes), n, i, bytes) == written(img, n, i, bytes),
{
    lemma_written(img, n, i, bytes);
    let once: Seq<u8> = written(img, n, i, bytes);
    if accepts(img, n, i, bytes) {
        assert(has_block(once, n, i));
    }
}

/// After any writes, the status byte of a block is set exactly if it was
/// set before or one of the writes was a write of that block that was
/// taken; the file is still a partial file, and the rest of its trailer is
/// as it was.
pub proof fn lemma_trailer_after_writes(img: Seq<u8>, n: int, ws: Seq<(u32, Seq<u8>)>, i: int)
    requires
        is_part_image(img, n),
        0 <= i < n,
    ensures
        is_part_image(replayed(img, n, ws), n),
        declared_last_size(replayed(img, n, ws)) == declared_last_size(img),
        has_block(replayed(img, n, ws), n, i) <==> has_block(img, n, i) || exists|k: int|
            0 <= k < ws.len() && (#[trigger] ws[k]).0 == i && ws[k].1.len() <= MAX_CHUNK_SIZE,
    decreases ws.len(),
{
    if ws.len() > 0 {
        let front: Seq<(u32, Seq<u8>)> = ws.drop_last();
        let before: Seq<u8> = replayed(img, n, front);
        lemma_trailer_after_writes(img, n, front, i);
        lemma_written(before, n, ws.last().0 as int, ws.last().1);
        if exists|k: int|
            0 <= k < front.len() && (#[trigger] front[k]).0 == i && front[k].1.len()
                <= MAX_CHUNK_SIZE {
            let k: int = choose|k: int|
                0 <= k < front.len() && (#[trigger] front[k]).0 == i && front[k].1.len()
                    <= MAX_CHUNK_SIZE;
            assert(ws[k] == front[k]);
        }
        if exists|k: int|
            0 <= k < ws.len() && (#[trigger] ws[k]).0 == i && ws[k].1.len() <= MAX_CHUNK_SIZE {
            let k: int = choose|k: int|
                0 <= k < ws.len() && (#[trigger] ws[k]).0 == i && ws[k].1.len() <= MAX_CHUNK_SIZE;
            if k < front.len() {
                assert(front[k] == ws[k]);
            } else {
                assert(ws[k] == ws.last());
            }
        }
        if ws.last().0 == i && ws.last().1.len() <= MAX_CHUNK_SIZE {
            assert(ws[ws.len() - 1] == ws.last());
        }
    }
}

/// Once a block is written, no later write changes what is read of it.
pub proof fn lemma_block_stays(img: Seq<u8>, n: int, ws: Seq<(u32, Seq<u8>)>, i: int, len: int)
    requires
        is_part_image(img, n),
        0 <= i < n,
        0 <= len <= MAX_CHUNK_SIZE,
        has_block(img, n, i),
    ensures
        has_block(replayed(img, n, ws), n, i),
        block_bytes(replayed(img, n, ws), i, len) == block_bytes(img, i, len),
    decreases ws.len(),
{
    if ws.len() > 0 {
        let front: Seq<(u32, Seq<u8>)> = ws.drop_last();
        let before: Seq<u8> = replayed(img, n, front);
        lemma_block_stays(img, n, front, i, len);
        lemma_trailer_after_writes(img, n, front, i);
        lemma_written(before, n, ws.last().0 as int, ws.last().1);
    }
}

/// A block that was written is read back as it was written, whatever is
/// written afterwards.
pub proof fn lemma_read_after_write(
    img: Seq<u8>,
    n: int,
    i: int,
    bytes: Seq<u8>,
    later: Seq<(u32, Seq<u8>)>,
)
    requires
        accepts(img, n, i, bytes),
        !has_block(img, n, i),
    ensures
        has_block(replayed(written(img, n, i, bytes), n, later), n, i),
        block_bytes(replayed(written(img, n, i, bytes), n, later), i, bytes.len() as int)
            == bytes,
{
    lemma_written(img, n, i, bytes);
    lemma_block_stays(written(img, n, i, bytes), n, later, i, bytes.len() as int);
}

/// The place of block `index` in a file.
pub fn block_offset(index: u32) -> (r: u64)
    ensures
        r == block_start(index as int),
{
    (index as u64) * 1420
}

/// The place of the status byte of block `index` in a partial file of
/// `n_blocks` blocks.
pub fn status_offset(n_blocks: u32, index: u32) -> (r: u64)
    ensures
        r == status_place(n_blocks as int, index as int),
{
    (n_blocks as u64) * 1420 + (index as u64)
}

/// The length of a partial file of `n_blocks` blocks.
pub fn part_file_len(n_blocks: u32) -> (r: u64)
    ensures
        r == part_len(n_blocks as int),
{
    (n_blocks as u64) * 1420 + (n_blocks as u64) + (TRAILER_TAIL_SIZE as u64)
}

/// The size of the last block of a file of `file_size` bytes.
pub fn last_block_size(file_size: u32) -> (r: u16)
    ensures
        r == last_size_of(file_size as int),
        1 <= r <= MAX_CHUNK_SIZE,
{
    let rest: u32 = file_size % 1420;
    if rest == 0 {
        MAX_CHUNK_SIZE as u16
    } else {
        rest as u16
    }
}

/// The size of block `index` of a file of `n_blocks` blocks whose last
/// block has `last` bytes.
pub fn block_size(n_blocks: u32, last: u16, index: u32) -> (r: u16)
    ensures
        r == block_size_of(n_blocks as int, last as int, index as int),
{
    if index as u64 + 1 == n_blocks as u64 {
        last
    } else {
        MAX_CHUNK_SIZE as u16
    }
}

/// The trailer of a partial file of `n_blocks` blocks in which no block is
/// written, for a file of `file_size` bytes. None where the trailer is too
/// long for this machine's memory.
pub fn initial_trailer(file_size: u32, n_blocks: u32) -> (r: Option<Vec<u8>>)
    ensures
        r is Some <==> n_blocks + TRAILER_TAIL_SIZE <= usize::MAX,
        r is Some ==> r.unwrap()@ == Seq::new(n_blocks as nat, |k: int| MISSING) + spec_u16_le(
            last_size_of(file_size as int) as u16,
        ) + spec_u32_le(n_blocks),
{
    if n_blocks as u64 + TRAILER_TAIL_SIZE as u64 > usize::MAX as u64 {
        return None;
    }
    let mut out: Vec<u8> = Vec::new();
    let mut i: u32 = 0;
    while i < n_blocks
        invariant
            i <= n_blocks,
            out@ == Seq::new(i as nat, |k: int| MISSING),
        decreases n_blocks - i,
    {
        out.push(MISSING);
        i += 1;
        assert(out@ =~= Seq::new(i as nat, |k: int| MISSING));
    }
    let last: u16 = last_block_size(file_size);
    out.push((last % 256) as u8);
    out.push((last / 256) as u8);
    push_u32_le(&mut out, n_blocks);
    assert(out@ =~= Seq::new(n_blocks as nat, |k: int| MISSING) + spec_u16_le(last) + spec_u32_le(
        n_blocks,
    ));
    Some(out)
}

/// Whether `content` is a partial file of `n_blocks` blocks.
pub fn is_part_file(content: &[u8], n_blocks: u32) -> (r: bool)
    ensures
        r == is_part_image(content@, n_blocks as int),
{
    if content.len() as u64 != part_file_len(n_blocks) {
        return false;
    }
    let len: usize = content.len();
    if read_u32_le(content, len - 4) != n_blocks {
        return false;
    }
    let base: usize = len - TRAILER_TAIL_SIZE - n_blocks as usize;
    let mut i: usize = 0;
    while i < n_blocks as usize
        invariant
            i <= n_blocks,
            base == n_blocks * 1420,
            content@.len() == part_len(n_blocks as int),
            content@.len() <= usize::MAX,
            forall|k: int|
                0 <= k < i ==> #[trigger] content@[status_place(n_blocks as int, k)] == WRITTEN
                    || content@[status_place(n_blocks as int, k)] == MISSING,
        decreases n_blocks - i,
    {
        let s: u8 = content[base + i];
        if s != WRITTEN && s != MISSING {
            assert(content@[status_place(n_blocks as int, i as int)] == s);
            return false;
        }
        i += 1;
    }
    true
}

/// The name of the partial file of the file `name`: a dot, the name, and
/// `.part`.
pub open spec fn part_name_of(name: Seq<char>) -> Seq<char> {
    seq!['.'] + name + seq!['.', 'p', 'a', 'r', 't']
}

/// Whether `name` is the name of a partial file: a dot, at least one more
/// character, and `.part`.
pub open spec fn is_part_name_of(name: Seq<char>) -> bool {
    &&& name.len() >= 7
    &&& name[0] == '.'
    &&& name.subrange(name.len() - 5, name.len() as int) == seq!['.', 'p', 'a', 'r', 't']
}

/// The name of a partial file is one, and the name of the file is read
/// back from it.
pub proof fn lemma_part_name(name: Seq<char>)
    requires
        name.len() >= 1,
    ensures
        is_part_name_of(part_name_of(name)),
        part_name_of(name).subrange(1, part_name_of(name).len() - 5) == name,
{
    let p: Seq<char> = part_name_of(name);
    assert(p.subrange(p.len() - 5, p.len() as int) =~= seq!['.', 'p', 'a', 'r', 't']);
    assert(p.subrange(1, p.len() - 5) =~= name);
}

/// The name of the partial file of the file `file_name`.
pub fn part_name(file_name: &str) -> (r: String)
    ensures
        r@ == part_name_of(file_name@),
{
    proof {
        reveal_strlit(".");
        reveal_strlit(".part");
    }
    let mut out: String = String::from_str(".");
    out.append(file_name);
    out.append(".part");
    assert(out@ =~= part_name_of(file_name@));
    out
}

/// Whether `name` is the name of a partial file.
pub fn is_part_name(name: &str) -> (r: bool)
    ensures
        r == is_part_name_of(name@),
{
    let n: usize = name.unicode_len();
    if n < 7 {
        return false;
    }
    if name.get_char(0) != '.' {
        return false;
    }
    let ok: bool = name.get_char(n - 5) == '.' && name.get_char(n - 4) == 'p' && name.get_char(
        n - 3,
    ) == 'a' && name.get_char(n - 2) == 'r' && name.get_char(n - 1) == 't';
    proof {
        let tail: Seq<char> = name@.subrange(n - 5, n as int);
        if ok {
            assert(tail =~= seq!['.', 'p', 'a', 'r', 't']);
        } else {
            assert(tail[0] == name@[n - 5]);
            assert(tail[1] == name@[n - 4]);
            assert(tail[2] == name@[n - 3]);
            assert(tail[3] == name@[n - 2]);
            assert(tail[4] == name@[n - 1]);
        }
    }
    ok
}

/// The name under which a partial file is shared once it is complete: the
/// name without the dot in front and without `.part`. None for a name that
/// is not that of a partial file.
pub fn promoted_name(name: &str) -> (r: Option<String>)
    ensures
        r is Some <==> is_part_name_of(name@),
        r is Some ==> r.unwrap()@ == name@.subrange(1, name@.len() - 5),
{
    if !is_part_name(name) {
        return None;
    }
    let n: usize = name.unicode_len();
    Some(name.substring_char(1, n - 5).to_owned())
}

/// A new partial file for the file `file_name` of `file_size` bytes in
/// `n_blocks` blocks: no block is written. `TooLarge` where the file does
/// not fit this machine's memory.
pub fn create_part_file(file_name: &str, file_size: u32, n_blocks: u32) -> (r: Result<
    PartFile,
    PartialError,
>)
    ensures
        part_len(n_blocks as int) > usize::MAX ==> r == Err::<PartFile, PartialError>(
            PartialError::TooLarge,
        ),
        part_len(n_blocks as int) <= usize::MAX ==> r is Ok && r.unwrap().name@ == part_name_of(
            file_name@,
        ) && r.unwrap().content@ == empty_image(file_size as int, n_blocks as int)
            && is_part_image(r.unwrap().content@, n_blocks as int) && forall|i: int|
            0 <= i < n_blocks ==> !#[trigger] has_block(r.unwrap().content@, n_blocks as int, i),
{
    if part_file_len(n_blocks) > usize::MAX as u64 {
        return Err(PartialError::TooLarge);
    }
    let payload: usize = (n_blocks as usize) * 1420;
    let mut content: Vec<u8> = Vec::new();
    let mut i: usize = 0;
    while i < payload
        invariant
            i <= payload,
            content@ == Seq::new(i as nat, |k: int| 0u8),
        decreases payload - i,
    {
        content.push(0u8);
        i += 1;
        assert(content@ =~= Seq::new(i as nat, |k: int| 0u8));
    }
    let trailer: Vec<u8> = match initial_trailer(file_size, n_blocks) {
        Some(t) => t,
        None => {
            return Err(PartialError::TooLarge);
        },
    };
    crate::bytes::push_all(&mut content, trailer.as_slice());
    proof {
        let img: Seq<u8> = content@;
        let n: int = n_blocks as int;
        assert(img =~= empty_image(file_size as int, n));
        lemma_u32_roundtrip(n_blocks);
        assert(img.subrange(img.len() - 4, img.len() as int) =~= spec_u32_le(n_blocks));
        assert forall|k: int| 0 <= k < n implies #[trigger] img[status_place(n, k)] == MISSING by {}
    }
    Ok(PartFile { name: part_name(file_name), content })
}

/// Writes the first `block_size` bytes of `block` as block `block_index`
/// of the partial file, and marks the block as written. Writing a block
/// that is written already changes nothing and succeeds.
///
/// Fails with `BadTrailer` where the file is not a partial file of
/// `n_blocks` blocks, with `BlockOutOfRange` where it has no such block, and
/// with `ChunkTooBig` where `block_size` is over `MAX_CHUNK_SIZE` or over
/// the length of `block`. A failed write changes nothing.
pub fn write_block(
    file: &mut PartFile,
    n_blocks: u32,
    block_size: u32,
    block_index: u32,
    block: &[u8],
) -> (r: Result<(), PartialError>)
    ensures
        final(file).name == old(file).name,
        r == write_result(old(file).content@, n_blocks, block_size, block_index, block@),
        r is Ok ==> final(file).content@ == written(
            old(file).content@,
            n_blocks as int,
            block_index as int,
            block@.subrange(0, block_size as int),
        ),
        r is Err ==> final(file).content@ == old(file).content@,
{
    if !is_part_file(file.content.as_slice(), n_blocks) {
        return Err(PartialError::BadTrailer);
    }
    if block_index >= n_blocks {
        return Err(PartialError::BlockOutOfRange);
    }
    if block_size as usize > MAX_CHUNK_SIZE || block_size as usize > block.len() {
        return Err(PartialError::ChunkTooBig);
    }
    let ghost img: Seq<u8> = file.content@;
    let ghost n: int = n_blocks as int;
    let ghost bytes: Seq<u8> = block@.subrange(0, block_size as int);
    let total: usize = file.content.len();
    let status: usize = total - TRAILER_TAIL_SIZE - (n_blocks as usize) + (block_index as usize);
    assert(status == status_place(n, block_index as int));
    if file.content[status] == WRITTEN {
        return Ok(());
    }
    let start: usize = (block_index as usize) * 1420;
    let len: usize = block_size as usize;
    let mut k: usize = 0;
    while k < len
        invariant
            k <= len <= MAX_CHUNK_SIZE,
            len <= block@.len(),
            start == block_start(block_index as int),
            block_index < n_blocks,
            file.name == old(file).name,
            file.content@.len() == img.len(),
            img.len() == part_len(n),
            img.len() <= usize::MAX,
            n == n_blocks,
            forall|j: int|
                0 <= j < img.len() ==> file.content@[j] == (if start <= j < start + k {
                    block@[j - start]
                } else {
                    img[j]
                }),
        decreases len - k,
    {
        file.content[start + k] = block[k];
        k += 1;
    }
    file.content[status] = WRITTEN;
    assert(file.content@ =~= with_bytes(img, n, block_index as int, bytes));
    Ok(())
}

/// What a write answers: the first check that fails, or success.
pub open spec fn write_result(
    img: Seq<u8>,
    n_blocks: u32,
    block_size: u32,
    block_index: u32,
    block: Seq<u8>,
) -> Result<(), PartialError> {
    if !is_part_image(img, n_blocks as int) {
        Err(PartialError::BadTrailer)
    } else if block_index >= n_blocks {
        Err(PartialError::BlockOutOfRange)
    } else if block_size > MAX_CHUNK_SIZE || block_size > block.len() {
        Err(PartialError::ChunkTooBig)
    } else {
        Ok(())
    }
}

/// What a read of `block_size` bytes of block `block_index` of a partial
/// file gives: the bytes, or the first check that fails.
pub open spec fn read_part_result(
    img: Seq<u8>,
    n_blocks: u32,
    block_size: u32,
    block_index: u32,
    room: int,
) -> Result<Seq<u8>, PartialError> {
    if !is_part_image(img, n_blocks as int) {
        Err(PartialError::BadTrailer)
    } else if block_index >= n_blocks {
        Err(PartialError::BlockOutOfRange)
    } else if block_size > MAX_CHUNK_SIZE || block_size > room {
        Err(PartialError::ChunkTooBig)
    } else if !has_block(img, n_blocks as int, block_index as int) {
        Err(PartialError::BlockNotAvailable)
    } else {
        Ok(block_bytes(img, block_index as int, block_size as int))
    }
}

/// Reads the first `block_size` bytes of block `block_index` of the partial
/// file into `block` and says how many bytes were read.
///
/// Fails as `write_block` does, and with `BlockNotAvailable` where the
/// block is not written. A failed read leaves `block` as it was.
pub fn read_block_from_part_file(
    file: &PartFile,
    n_blocks: u32,
    block_size: u32,
    block_index: u32,
    block: &mut [u8],
) -> (r: Result<usize, PartialError>)
    ensures
        final(block)@.len() == old(block)@.len(),
        match read_part_result(
            file.content@,
            n_blocks,
            block_size,
            block_index,
            old(block)@.len() as int,
        ) {
            Ok(bytes) => {
                &&& r == Ok::<usize, PartialError>(block_size as usize)
                &&& final(block)@.subrange(0, block_size as int) == bytes
                &&& final(block)@.subrange(block_size as int, old(block)@.len() as int)
                    == old(block)@.subrange(block_size as int, old(block)@.len() as int)
            },
            Err(e) => r == Err::<usize, PartialError>(e) && final(block)@ == old(block)@,
        },
{
    read_part_block(file.content.as_slice(), n_blocks, block_size, block_index, block)
}

/// Reads a block of the partial file whose bytes are `content`, as
/// `read_block_from_part_file` does.
pub fn read_part_block(
    content: &[u8],
    n_blocks: u32,
    block_size: u32,
    block_index: u32,
    block: &mut [u8],
) -> (r: Result<usize, PartialError>)
    ensures
        final(block)@.len() == old(block)@.len(),
        match read_part_result(
            content@,
            n_blocks,
            block_size,
            block_index,
            old(block)@.len() as int,
        ) {
            Ok(bytes) => {
                &&& r == Ok::<usize, PartialError>(block_size as usize)
                &&& final(block)@.subrange(0, block_size as int) == bytes
                &&& final(block)@.subrange(block_size as int, old(block)@.len() as int)
                    == old(block)@.subrange(block_size as int, old(block)@.len() as int)
            },
            Err(e) => r == Err::<usize, PartialError>(e) && final(block)@ == old(block)@,
        },
{
    if !is_part_file(content, n_blocks) {
        return Err(PartialError::BadTrailer);
    }
    if block_index >= n_blocks {
        return Err(PartialError::BlockOutOfRange);
    }
    if block_size as usize > MAX_CHUNK_SIZE || block_size as usize > block.len() {
        return Err(PartialError::ChunkTooBig);
    }
    let total: usize = content.len();
    let status: usize = total - TRAILER_TAIL_SIZE - (n_blocks as usize) + (block_index as usize);
    assert(status == status_place(n_blocks as int, block_index as int));
    if content[status] != WRITTEN {
        return Err(PartialError::BlockNotAvailable);
    }
    let start: usize = (block_index as usize) * 1420;
    let len: usize = block_size as usize;
    let mut k: usize = 0;
    while k < len
        invariant
            k <= len <= MAX_CHUNK_SIZE,
            len <= block@.len(),
            block@.len() == old(block)@.len(),
            start == block_start(block_index as int),
            block_index < n_blocks,
            content@.len() == part_len(n_blocks as int),
            content@.len() <= usize::MAX,
            forall|j: int| 0 <= j < k ==> block@[j] == content@[start + j],
            forall|j: int| k <= j < block@.len() ==> block@[j] == old(block)@[j],
        decreases len - k,
    {
        block[k] = content[start + k];
        k += 1;
    }
    assert(block@.subrange(0, block_size as int) =~= block_bytes(
        content@,
        block_index as int,
        block_size as int,
    ));
    assert(block@.subrange(block_size as int, block@.len() as int) =~= old(block)@.subrange(
        block_size as int,
        old(block)@.len() as int,
    ));
    Ok(len)
}

/// The bytes of block `index` of a complete file `content` that fit into a
/// buffer of `room` bytes: from the block's place on, as many as the buffer
/// takes and the file has.
pub open spec fn complete_block(content: Seq<u8>, index: int, room: int) -> Seq<u8> {
    if block_start(index) >= content.len() {
        Seq::empty()
    } else if block_start(index) + room <= content.len() {
        content.subrange(block_start(index), block_start(index) + room)
    } else {
        content.subrange(block_start(index), content.len() as int)
    }
}

/// Reads block `block_index` of the complete file `file` into `block`, as
/// much of it as the buffer takes, and says how many bytes were read. Behind
/// them `block` is as it was.
pub fn read_block_from_complete_file(
    file: &[u8],
    _block_size: u32,
    block_index: u32,
    block: &mut [u8],
) -> (r: Result<usize, PartialError>)
    ensures
        final(block)@.len() == old(block)@.len(),
        r is Ok,
        final(block)@.subrange(0, r.unwrap() as int) == complete_block(
            file@,
            block_index as int,
            old(block)@.len() as int,
        ),
        r.unwrap() == complete_block(file@, block_index as int, old(block)@.len() as int).len(),
        final(block)@.subrange(r.unwrap() as int, old(block)@.len() as int) == old(block)@.subrange(
            r.unwrap() as int,
            old(block)@.len() as int,
        ),
{
    let start64: u64 = block_offset(block_index);
    if start64 >= file.len() as u64 {
        assert(block@.subrange(0, 0) =~= Seq::<u8>::empty());
        assert(block@.subrange(0, block@.len() as int) =~= old(block)@.subrange(
            0,
            block@.len() as int,
        ));
        return Ok(0);
    }
    let total: usize = file.len();
    let start: usize = start64 as usize;
    let len: usize = if file.len() - start < block.len() {
        file.len() - start
    } else {
        block.len()
    };
    let mut k: usize = 0;
    while k < len
        invariant
            k <= len <= block@.len(),
            start + len <= file@.len() <= usize::MAX,
            block@.len() == old(block)@.len(),
            forall|j: int| 0 <= j < k ==> block@[j] == file@[start + j],
            forall|j: int| k <= j < block@.len() ==> block@[j] == old(block)@[j],
        decreases len - k,
    {
        block[k] = file[start + k];
        k += 1;
    }
    assert(block@.subrange(0, len as int) =~= complete_block(
        file@,
        block_index as int,
        old(block)@.len() as int,
    ));
    assert(block@.subrange(len as int, block@.len() as int) =~= old(block)@.subrange(
        len as int,
        old(block)@.len() as int,
    ));
    Ok(len)
}

/// Promotes a partial file whose every block is written: gives the name
/// under which it is shared and its first `file_size` bytes.
///
/// Fails with `NotPartial` where the name is not that of a partial file,
/// with `BadTrailer` where the bytes are not a partial file of `n_blocks`
/// blocks, with `TooLarge` where `file_size` is over what the blocks hold,
/// and with `NotComplete` where a block is not written.
#[verifier::loop_isolation(false)]
pub fn complete_part_file(file: &PartFile, file_size: u32, n_blocks: u32) -> (r: Result<
    (String, Vec<u8>),
    PartialError,
>)
    ensures
        match complete_result(file.name@, file.content@, file_size, n_blocks) {
            Ok((name, bytes)) => r is Ok && r.unwrap().0@ == name && r.unwrap().1@ == bytes,
            Err(e) => r == Err::<(String, Vec<u8>), PartialError>(e),
        },
{
    let name: String = match promoted_name(file.name.as_str()) {
        Some(n) => n,
        None => {
            return Err(PartialError::NotPartial);
        },
    };
    if !is_part_file(file.content.as_slice(), n_blocks) {
        return Err(PartialError::BadTrailer);
    }
    if file_size as u64 > (n_blocks as u64) * 1420 {
        return Err(PartialError::TooLarge);
    }
    let ghost n: int = n_blocks as int;
    let total: usize = file.content.len();
    let base: usize = total - TRAILER_TAIL_SIZE - (n_blocks as usize);
    let mut i: usize = 0;
    while i < n_blocks as usize
        invariant
            i <= n_blocks,
            n == n_blocks,
            base == n * 1420,
            file.content@.len() == part_len(n),
            file.content@.len() <= usize::MAX,
            forall|k: int| 0 <= k < i ==> #[trigger] has_block(file.content@, n, k),
        decreases n_blocks - i,
    {
        if file.content[base + i] != WRITTEN {
            assert(!has_block(file.content@, n, i as int));
            return Err(PartialError::NotComplete);
        }
        i += 1;
    }
    let mut out: Vec<u8> = Vec::new();
    let mut k: usize = 0;
    while k < file_size as usize
        invariant
            k <= file_size,
            file_size <= file.content@.len(),
            out@ == file.content@.subrange(0, k as int),
        decreases file_size - k,
    {
        out.push(file.content[k]);
        k += 1;
        assert(out@ =~= file.content@.subrange(0, k as int));
    }
    Ok((name, out))
}

/// What a promotion gives: the shared name and the file's bytes, or the
/// first check that fails.
pub open spec fn complete_result(
    name: Seq<char>,
    img: Seq<u8>,
    file_size: u32,
    n_blocks: u32,
) -> Result<(Seq<char>, Seq<u8>), PartialError> {
    if !is_part_name_of(name) {
        Err(PartialError::NotPartial)
    } else if !is_part_image(img, n_blocks as int) {
        Err(PartialError::BadTrailer)
    } else if file_size > n_blocks * 1420 {
        Err(PartialError::TooLarge)
    } else if !all_written(img, n_blocks as int) {
        Err(PartialError::NotComplete)
    } else {
        Ok((name.subrange(1, name.len() - 5), img.subrange(0, file_size as int)))
    }
}

/// The size of a file of `n` blocks whose last block has `last` bytes.
pub open spec fn size_from(n: int, last: int) -> int {
    if n == 0 {
        0
    } else {
        (n - 1) * 1420 + last
    }
}

/// Whether `t` is the trailer of a partial file of `n` blocks: status bytes
/// of `'0'` or `'1'`, a last block of 1 to 1420 bytes, and the count `n`.
pub open spec fn is_trailer(t: Seq<u8>, n: int) -> bool {
    &&& 0 <= n <= u32::MAX
    &&& t.len() == n + TRAILER_TAIL_SIZE
    &&& declared_count(t) == n
    &&& 1 <= declared_last_size(t) <= MAX_CHUNK_SIZE
    &&& forall|i: int| 0 <= i < n ==> #[trigger] t[i] == WRITTEN || t[i] == MISSING
}

/// The flags that the status bytes of the trailer `t` of `n` blocks stand
/// for.
pub open spec fn trailer_flags(t: Seq<u8>, n: int) -> Seq<bool> {
    Seq::new(n as nat, |i: int| t[i] == WRITTEN)
}

/// The trailer of a partial file.
pub open spec fn trailer_of(img: Seq<u8>, n: int) -> Seq<u8> {
    img.subrange(n * 1420, img.len() as int)
}

/// The trailer of a partial file declares what the file declares, and its
/// status bytes are the file's.
pub proof fn lemma_trailer_of(img: Seq<u8>, n: int)
    requires
        is_part_image(img, n),
    ensures
        trailer_of(img, n).len() == n + TRAILER_TAIL_SIZE,
        declared_count(trailer_of(img, n)) == n,
        declared_last_size(trailer_of(img, n)) == declared_last_size(img),
        forall|i: int| 0 <= i < n ==> #[trigger] trailer_of(img, n)[i] == img[status_place(n, i)],
        trailer_flags(trailer_of(img, n), n) == Seq::new(n as nat, |i: int| has_block(img, n, i)),
{
    let t: Seq<u8> = trailer_of(img, n);
    let len: int = img.len() as int;
    assert(t.subrange(t.len() - 4, t.len() as int) =~= img.subrange(len - 4, len));
    assert(t.subrange(t.len() - 6, t.len() - 4) =~= img.subrange(len - 6, len - 4));
    assert(trailer_flags(t, n) =~= Seq::new(n as nat, |i: int| has_block(img, n, i)));
}

/// A new partial file has a trailer, and the size that the trailer stands
/// for is the file's, where the file has as many blocks as its size asks
/// for.
pub proof fn lemma_empty_image_trailer(size: u32, n: u32)
    requires
        n == block_count_of(size as int),
    ensures
        is_trailer(trailer_of(empty_image(size as int, n as int), n as int), n as int),
        size_from(n as int, declared_last_size(empty_image(size as int, n as int))) == size,
{
    let img: Seq<u8> = empty_image(size as int, n as int);
    let t: Seq<u8> = trailer_of(img, n as int);
    let last: int = last_size_of(size as int);
    lemma_u32_roundtrip(n);
    lemma_u16_roundtrip(last as u16);
    let len: int = img.len() as int;
    assert(img.subrange(len - 4, len) =~= spec_u32_le(n));
    assert(img.subrange(len - 6, len - 4) =~= spec_u16_le(last as u16));
    assert(t.subrange(t.len() - 4, t.len() as int) =~= img.subrange(len - 4, len));
    assert(t.subrange(t.len() - 6, t.len() - 4) =~= img.subrange(len - 6, len - 4));
    assert forall|i: int| 0 <= i < n implies #[trigger] t[i] == MISSING by {}
    if n > 0 {
        let whole: int = size as int / 1420;
        let part: int = size as int % 1420;
        assert(size as int == 1420 * whole + part);
        if part == 0 {
            assert((1420 * whole + 1419) / 1420 == whole);
        } else {
            assert((1420 * (whole + 1) + (part - 1)) / 1420 == whole + 1);
        }
    } else {
        assert(size == 0) by {
            if size > 0 {
                assert((size as int + 1419) / 1420 >= 1);
            }
        }
    }
}

/// The number of blocks and the size of the last block that the end of a
/// partial file declares. `tail` holds the last bytes of the file, at least
/// six of them; with fewer there is nothing to read.
pub fn trailer_fields(tail: &[u8]) -> (r: Option<(u32, u16)>)
    ensures
        tail@.len() < TRAILER_TAIL_SIZE ==> r is None,
        tail@.len() >= TRAILER_TAIL_SIZE ==> r == Some(
            (declared_count(tail@) as u32, declared_last_size(tail@) as u16),
        ),
{
    let len: usize = tail.len();
    if len < TRAILER_TAIL_SIZE {
        return None;
    }
    Some((read_u32_le(tail, len - 4), read_u16_le(tail, len - 6)))
}

/// The length of the trailer of a partial file of `n_blocks` blocks.
pub fn trailer_len(n_blocks: u32) -> (r: u64)
    ensures
        r == n_blocks + TRAILER_TAIL_SIZE,
{
    n_blocks as u64 + TRAILER_TAIL_SIZE as u64
}

/// Where to read a block of a partial file, and how much of it.
#[derive(Debug, Clone, Copy, PartialEq, Eq, Structural)]
pub struct BlockPlan {
    /// The place of the block's status byte.
    pub status_at: u64,
    /// The place of the block.
    pub block_at: u64,
    /// The number of bytes of the block.
    pub size: u16,
}

/// What is to be read for block `index` of the partial file that ends in
/// `tail`: the places of its status byte and its bytes, and its size.
pub open spec fn block_plan_of(tail: Seq<u8>, index: u32) -> Result<BlockPlan, PartialError> {
    if tail.len() < TRAILER_TAIL_SIZE || declared_last_size(tail) < 1 || declared_last_size(tail)
        > MAX_CHUNK_SIZE {
        Err(PartialError::BadTrailer)
    } else if index >= declared_count(tail) {
        Err(PartialError::BlockOutOfRange)
    } else {
        Ok(
            BlockPlan {
                status_at: status_place(declared_count(tail), index as int) as u64,
                block_at: block_start(index as int) as u64,
                size: block_size_of(declared_count(tail), declared_last_size(tail), index as int) as u16,
            },
        )
    }
}

/// Plans the read of block `index` of a partial file from the last bytes
/// of the file, at least six of them, as `block_plan_of` says. The block may
/// be read only if the byte at `status_at` is `WRITTEN`.
pub fn plan_block_read(tail: &[u8], index: u32) -> (r: Result<BlockPlan, PartialError>)
    ensures
        r == block_plan_of(tail@, index),
{
    let (n_blocks, last) = match trailer_fields(tail) {
        Some(fields) => fields,
        None => {
            return Err(PartialError::BadTrailer);
        },
    };
    if last == 0 || last as usize > MAX_CHUNK_SIZE {
        return Err(PartialError::BadTrailer);
    }
    if index >= n_blocks {
        return Err(PartialError::BlockOutOfRange);
    }
    Ok(
        BlockPlan {
            status_at: status_offset(n_blocks, index),
            block_at: block_offset(index),
            size: block_size(n_blocks, last, index),
        },
    )
}

/// Whether the status byte `status` allows the block to be read;
/// `BlockNotAvailable` unless it is `WRITTEN`.
pub fn check_status(status: u8) -> (r: Result<(), PartialError>)
    ensures
        r == (if status == WRITTEN {
            Ok::<(), PartialError>(())
        } else {
            Err::<(), PartialError>(PartialError::BlockNotAvailable)
        }),
{
    if status == WRITTEN {
        Ok(())
    } else {
        Err(PartialError::BlockNotAvailable)
    }
}

/// What a file of the shared directory contributes to the inventory. A file
/// under the name of a partial file contributes what its trailer says, under
/// the name that it will be shared by; any other file contributes itself as
/// complete.
pub open spec fn metadata_of(name: Seq<char>, file_len: u64, t: Seq<u8>) -> Result<
    InventoryEntry,
    PartialError,
> {
    if is_part_name_of(name) {
        if t.len() < TRAILER_TAIL_SIZE || !is_trailer(t, declared_count(t)) || file_len != part_len(
            declared_count(t),
        ) {
            Err(PartialError::BadTrailer)
        } else if declared_count(t) > MAX_BITS {
            Err(PartialError::TooLarge)
        } else if encode_utf8(name.subrange(1, name.len() - 5)).len() > u16::MAX {
            Err(PartialError::NameTooLong)
        } else {
            Ok(
                InventoryEntry {
                    size: size_from(declared_count(t), declared_last_size(t)) as u64,
                    complete: false,
                    have: trailer_flags(t, declared_count(t)),
                    name: name.subrange(1, name.len() - 5),
                },
            )
        }
    } else if encode_utf8(name).len() > u16::MAX {
        Err(PartialError::NameTooLong)
    } else {
        Ok(InventoryEntry { size: file_len, complete: true, have: Seq::empty(), name })
    }
}

/// The inventory entry of the file `file_name` of `file_len` bytes, as
/// `metadata_of` says. `trailer` holds the last bytes of the file, from its
/// first status byte on; it is read only for a partial file.
#[verifier::loop_isolation(false)]
pub fn get_file_metadata(file_name: &str, file_len: u64, trailer: &[u8]) -> (r: Result<
    FileMeta,
    PartialError,
>)
    ensures
        match metadata_of(file_name@, file_len, trailer@) {
            Ok(e) => r is Ok && r.unwrap()@ == e && r.unwrap().well_formed(),
            Err(e) => r == Err::<FileMeta, PartialError>(e),
        },
{
    let shared_name: String = match promoted_name(file_name) {
        Some(n) => n,
        None => {
            return match FileMeta::complete(file_name, file_len) {
                Some(fm) => Ok(fm),
                None => Err(PartialError::NameTooLong),
            };
        },
    };
    let len: usize = trailer.len();
    if len < TRAILER_TAIL_SIZE {
        return Err(PartialError::BadTrailer);
    }
    let n: u32 = read_u32_le(trailer, len - 4);
    let last: u16 = read_u16_le(trailer, len - 6);
    if len as u64 != n as u64 + TRAILER_TAIL_SIZE as u64 || file_len != part_file_len(n) {
        return Err(PartialError::BadTrailer);
    }
    if last == 0 || last as usize > MAX_CHUNK_SIZE {
        return Err(PartialError::BadTrailer);
    }
    let mut have: Vec<bool> = Vec::new();
    let mut i: usize = 0;
    while i < n as usize
        invariant
            i <= n,
            have@ == trailer_flags(trailer@, n as int).subrange(0, i as int),
            forall|k: int|
                0 <= k < i ==> #[trigger] trailer@[k] == WRITTEN || trailer@[k] == MISSING,
        decreases n - i,
    {
        let s: u8 = trailer[i];
        if s != WRITTEN && s != MISSING {
            return Err(PartialError::BadTrailer);
        }
        have.push(s == WRITTEN);
        i += 1;
        assert(have@ =~= trailer_flags(trailer@, n as int).subrange(0, i as int));
    }
    assert(have@ =~= trailer_flags(trailer@, n as int));
    if n as usize > MAX_BITS {
        return Err(PartialError::TooLarge);
    }
    let size: u64 = if n == 0 {
        0
    } else {
        (n as u64 - 1) * 1420 + last as u64
    };
    assert(block_count_of(size as int) == n) by {
        if n > 0 {
            assert((1420 * (n as int - 1) + (last as int + 1419)) / 1420 == n as int);
        }
    }
    match FileMeta::partial(shared_name.as_str(), size, have.as_slice()) {
        Some(fm) => Ok(fm),
        None => Err(PartialError::NameTooLong),
    }
}

/// What a read of block `index` of the shared file `name` gives, where
/// `content` holds the file's bytes and the buffer has room for `room`
/// bytes: the block's bytes, or the check that fails.
///
/// Of a partial file the block is read only if it is written, in the size
/// that the trailer gives it. Of any other file as much is read as the
/// buffer takes and the file has.
pub open spec fn read_file_result(name: Seq<char>, content: Seq<u8>, index: u32, room: int) -> Result<
    Seq<u8>,
    PartialError,
> {
    if !is_part_name_of(name) {
        Ok(complete_block(content, index as int, room))
    } else if content.len() < TRAILER_TAIL_SIZE || declared_last_size(content) < 1
        || declared_last_size(content) > MAX_CHUNK_SIZE {
        Err(PartialError::BadTrailer)
    } else {
        read_part_result(
            content,
            declared_count(content) as u32,
            block_size_of(declared_count(content), declared_last_size(content), index as int) as u32,
            index,
            room,
        )
    }
}

/// Reads block `block_index` of the shared file `file_name`, whose bytes
/// are `content`, into `block_buf`, and says how many bytes were read, as
/// `read_file_result` says. A failed read leaves the buffer as it was.
pub fn read_file(file_name: &str, content: &[u8], block_index: u32, block_buf: &mut [u8]) -> (r:
    Result<usize, PartialError>)
    ensures
        final(block_buf)@.len() == old(block_buf)@.len(),
        match read_file_result(file_name@, content@, block_index, old(block_buf)@.len() as int) {
            Ok(bytes) => r is Ok && r.unwrap() == bytes.len() && final(block_buf)@.subrange(
                0,
                bytes.len() as int,
            ) == bytes,
            Err(e) => r == Err::<usize, PartialError>(e) && final(block_buf)@ == old(block_buf)@,
        },
{
    if !is_part_name(file_name) {
        return read_block_from_complete_file(content, 0, block_index, block_buf);
    }
    let len: usize = content.len();
    if len < TRAILER_TAIL_SIZE {
        return Err(PartialError::BadTrailer);
    }
    let n: u32 = read_u32_le(content, len - 4);
    let last: u16 = read_u16_le(content, len - 6);
    if last == 0 || last as usize > MAX_CHUNK_SIZE {
        return Err(PartialError::BadTrailer);
    }
    let size: u16 = block_size(n, last, block_index);
    read_part_block(content, n, size as u32, block_index, block_buf)
}

} // verus!
