//! Little-endian numbers and length-prefixed blocks, and the two writers that
//! put them down.

use vstd::prelude::*;
use crate::codec::{decode_windows_1252, encode_windows_1252, encoded, sniffed_text};
use crate::error::{AppError, Failure};
use crate::params::{pair_views, parse_param_pairs, text_pairs, Pair, SchParams};

verus! {

/// The four bytes of `value`, least significant first.
pub open spec fn le_bytes(value: u32) -> Seq<u8> {
    seq![
        (value % 256) as u8,
        (value / 256 % 256) as u8,
        (value / 65536 % 256) as u8,
        (value / 16777216) as u8,
    ]
}

/// The number whose four bytes stand in `data` from `at` on.
pub open spec fn le_value(data: Seq<u8>, at: int) -> u32 {
    (data[at] + 256 * data[at + 1] + 65536 * data[at + 2] + 16777216 * data[at + 3]) as u32
}

/// A number is its four bytes added up, each as often as its place says.
proof fn lemma_le_parts(value: u32)
    ensures
        value % 256 + 256 * (value / 256 % 256) + 65536 * (value / 65536 % 256) + 16777216 * (value
            / 16777216) == value,
        value / 16777216 < 256,
{
}

/// The bytes of a number give the number back, wherever they stand.
pub proof fn law_le_round_trip(value: u32, before: Seq<u8>, after: Seq<u8>)
    ensures
        le_value(before + le_bytes(value) + after, before.len() as int) == value,
{
    let data = before + le_bytes(value) + after;
    let at = before.len() as int;
    lemma_le_parts(value);
    let b0 = (value % 256) as u8;
    let b1 = (value / 256 % 256) as u8;
    let b2 = (value / 65536 % 256) as u8;
    let b3 = (value / 16777216) as u8;
    assert(b0 == value % 256 && b1 == value / 256 % 256 && b2 == value / 65536 % 256 && b3 == value
        / 16777216);
    assert(le_bytes(value) == seq![b0, b1, b2, b3]);
    assert(data[at] == b0);
    assert(data[at + 1] == b1);
    assert(data[at + 2] == b2);
    assert(data[at + 3] == b3);
}

/// An `i32` written as its four bytes and read back is the same `i32`.
pub proof fn lemma_i32_round_trip(value: i32)
    ensures
        (value as u32) as i32 == value,
{
    assert((value as u32) as i32 == value) by (bit_vector);
}

pub fn u32_at(data: &[u8], at: usize) -> (r: u32)
    requires
        at + 4 <= data@.len(),
    ensures
        r == le_value(data@, at as int),
{
    data[at] as u32 + 256 * (data[at + 1] as u32) + 65536 * (data[at + 2] as u32) + 16777216 * (
    data[at + 3] as u32)
}

/// The word in front of a block: the flags in its highest byte, or'ed with the
/// payload's length.
pub open spec fn block_header(flags: u8, len: nat) -> u32 {
    ((flags as u32) << 24) | (len as u32)
}

/// A block: the header word and the payload.
pub open spec fn block_bytes(flags: u8, payload: Seq<u8>) -> Seq<u8> {
    le_bytes(block_header(flags, payload.len())) + payload
}

/// A block's flags and payload, and where the data goes on after it.
#[verifier::ext_equal]
pub struct BlockAt {
    pub flags: u8,
    pub payload: Seq<u8>,
    pub next: int,
}

/// The length that the block header at `at` gives its payload.
pub open spec fn block_len_at(data: Seq<u8>, at: int) -> int {
    data[at] + 256 * data[at + 1] + 65536 * data[at + 2]
}

/// Whether `data` holds a whole block header at `at`.
pub open spec fn header_fits(data: Seq<u8>, at: int) -> bool {
    0 <= at && at + 4 <= data.len()
}

/// Whether `data` holds a whole block at `at`.
pub open spec fn block_fits(data: Seq<u8>, at: int) -> bool {
    header_fits(data, at) && at + 4 + block_len_at(data, at) <= data.len()
}

/// The block that stands in `data` at `at`.
pub open spec fn block_at(data: Seq<u8>, at: int) -> BlockAt {
    let next = at + 4 + block_len_at(data, at);
    BlockAt { flags: data[at + 3], payload: data.subrange(at + 4, next), next }
}

/// A block read from data that it borrows.
#[derive(Debug, Clone, Copy)]
pub struct Block<'a> {
    pub flags: u8,
    pub payload: &'a [u8],
}

/// What reading the block of `data` at `at` comes to.
pub open spec fn block_result(data: Seq<u8>, at: int, label: Seq<char>) -> Result<
    BlockAt,
    Failure,
> {
    if !header_fits(data, at) {
        Err(Failure::InvalidResponse("truncated "@ + label + " block header"@))
    } else if !block_fits(data, at) {
        Err(Failure::InvalidResponse("truncated "@ + label + " block payload"@))
    } else {
        Ok(block_at(data, at))
    }
}

/// Whether the borrowed `block` has the flags and the payload of `model`.
pub open spec fn block_matches(block: Block<'_>, model: BlockAt) -> bool {
    block.flags == model.flags && block.payload@ == model.payload
}

fn truncated_error(label: &str, part: &str) -> (r: AppError)
    ensures
        r.failure() == Failure::InvalidResponse("truncated "@ + label@ + part@),
{
    let mut message = "truncated ".to_owned();
    message.append(label);
    message.append(part);
    AppError::InvalidResponse(message)
}

/// Reads the block at `*offset` and moves `*offset` past it.
pub fn read_block<'a>(data: &'a [u8], offset: &mut usize, label: &str) -> (r: Result<
    Block<'a>,
    AppError,
>)
    ensures
        match r {
            Ok(block) => {
                &&& block_result(data@, *old(offset) as int, label@) matches Ok(model)
                &&& block_matches(block, model)
                &&& *final(offset) == model.next
            },
            Err(e) => {
                &&& block_result(data@, *old(offset) as int, label@) == Err::<BlockAt, Failure>(
                    e.failure(),
                )
                &&& *final(offset) == if header_fits(data@, *old(offset) as int) {
                    *old(offset) + 4
                } else {
                    *old(offset) as int
                }
            },
        },
{
    let at: usize = *offset;
    if at > data.len() || data.len() - at < 4 {
        return Err(truncated_error(label, " block header"));
    }
    let flags = data[at + 3];
    let len: usize = data[at] as usize + 256 * (data[at + 1] as usize) + 65536 * (
    data[at + 2] as usize);
    *offset = at + 4;
    if data.len() - (at + 4) < len {
        return Err(truncated_error(label, " block payload"));
    }
    let payload = vstd::slice::slice_subrange(data, at + 4, at + 4 + len);
    *offset = at + 4 + len;
    Ok(Block { flags, payload })
}

/// What reading `data` from `at` on as a row of blocks comes to.
pub open spec fn blocks_result(data: Seq<u8>, at: int, label: Seq<char>) -> Result<
    Seq<BlockAt>,
    Failure,
>
    decreases data.len() - at,
{
    if at < 0 || at >= data.len() {
        Ok(Seq::empty())
    } else {
        match block_result(data, at, label) {
            Ok(block) => match blocks_result(data, block.next, label) {
                Ok(rest) => Ok(seq![block] + rest),
                Err(failure) => Err(failure),
            },
            Err(failure) => Err(failure),
        }
    }
}

/// Whether the borrowed `blocks` are the blocks `model`.
pub open spec fn blocks_match(blocks: Seq<Block<'_>>, model: Seq<BlockAt>) -> bool {
    &&& blocks.len() == model.len()
    &&& forall|i: int| 0 <= i < blocks.len() ==> block_matches(#[trigger] blocks[i], model[i])
}

/// Reads the blocks that make up `data`.
pub fn parse_block_stream<'a>(data: &'a [u8], label: &str) -> (r: Result<Vec<Block<'a>>, AppError>)
    ensures
        match r {
            Ok(blocks) => {
                &&& blocks_result(data@, 0, label@) matches Ok(model)
                &&& blocks_match(blocks@, model)
            },
            Err(e) => blocks_result(data@, 0, label@) == Err::<Seq<BlockAt>, Failure>(e.failure()),
        },
{
    let mut offset: usize = 0;
    let mut blocks: Vec<Block<'a>> = Vec::new();
    let ghost mut model: Seq<BlockAt> = Seq::empty();
    while offset < data.len()
        invariant
            offset <= data@.len(),
            blocks_match(blocks@, model),
            blocks_result(data@, 0, label@) == match blocks_result(
                data@,
                offset as int,
                label@,
            ) {
                Ok(rest) => Ok::<Seq<BlockAt>, Failure>(model + rest),
                Err(failure) => Err::<Seq<BlockAt>, Failure>(failure),
            },
        decreases data@.len() - offset,
    {
        let ghost at = offset as int;
        match read_block(data, &mut offset, label) {
            Ok(block) => {
                blocks.push(block);
                proof {
                    let next = model.push(block_at(data@, at));
                    if let Ok(rest) = blocks_result(data@, offset as int, label@) {
                        assert(model + (seq![block_at(data@, at)] + rest) =~= next + rest);
                    }
                    model = next;
                }
            },
            Err(e) => {
                return Err(e);
            },
        }
    }
    assert(model + Seq::<BlockAt>::empty() =~= model);
    Ok(blocks)
}

/// A written block is read back: the header's three low bytes are the length
/// and its high byte is the flags.
pub proof fn law_block_round_trip(before: Seq<u8>, flags: u8, payload: Seq<u8>, after: Seq<u8>)
    requires
        payload.len() < 0x100_0000,
    ensures
        ({
            let data = before + block_bytes(flags, payload) + after;
            let at = before.len() as int;
            &&& block_fits(data, at)
            &&& block_at(data, at) == (BlockAt {
                flags,
                payload,
                next: at + 4 + payload.len(),
            })
        }),
{
    let data = before + block_bytes(flags, payload) + after;
    let at = before.len() as int;
    let len = payload.len() as u32;
    let header = block_header(flags, payload.len());
    assert(header == ((flags as u32) << 24) | len);
    assert(header % 256 == len % 256 && header / 256 % 256 == len / 256 % 256 && header / 65536
        % 256 == len / 65536 && header / 16777216 == flags as u32) by (bit_vector)
        requires
            header == ((flags as u32) << 24) | len,
            len < 0x100_0000u32,
    ;
    let bytes = le_bytes(header);
    assert(data[at] == bytes[0]);
    assert(data[at + 1] == bytes[1]);
    assert(data[at + 2] == bytes[2]);
    assert(data[at + 3] == bytes[3]);
    assert(block_len_at(data, at) == payload.len());
    assert(data.subrange(at + 4, at + 4 + payload.len()) =~= payload);
}

/// Reading where a block was written gives its flags and payload, and goes on behind it.
pub proof fn lemma_block_read(
    data: Seq<u8>,
    before: Seq<u8>,
    flags: u8,
    payload: Seq<u8>,
    after: Seq<u8>,
    label: Seq<char>,
)
    requires
        payload.len() < 0x100_0000,
        data == before + block_bytes(flags, payload) + after,
    ensures
        block_result(data, before.len() as int, label) == Ok::<BlockAt, Failure>(
            BlockAt { flags, payload, next: (before + block_bytes(flags, payload)).len() as int },
        ),
{
    law_block_round_trip(before, flags, payload, after);
}

/// Blocks written one behind the other, each given by its flags and payload.
pub open spec fn blocks_bytes(blocks: Seq<(u8, Seq<u8>)>) -> Seq<u8>
    decreases blocks.len(),
{
    if blocks.len() == 0 {
        Seq::empty()
    } else {
        blocks_bytes(blocks.drop_last()) + block_bytes(blocks.last().0, blocks.last().1)
    }
}

/// Whether `read` are the blocks that were written.
pub open spec fn are_blocks(read: Seq<BlockAt>, blocks: Seq<(u8, Seq<u8>)>) -> bool {
    &&& read.len() == blocks.len()
    &&& forall|i: int|
        0 <= i < blocks.len() ==> (#[trigger] read[i]).flags == blocks[i].0 && read[i].payload
            == blocks[i].1
}

proof fn lemma_blocks_concat(a: Seq<(u8, Seq<u8>)>, b: Seq<(u8, Seq<u8>)>)
    ensures
        blocks_bytes(a + b) == blocks_bytes(a) + blocks_bytes(b),
    decreases b.len(),
{
    if b.len() == 0 {
        assert(a + b =~= a);
        assert(blocks_bytes(a) + blocks_bytes(b) =~= blocks_bytes(a));
    } else {
        assert((a + b).drop_last() =~= a + b.drop_last());
        lemma_blocks_concat(a, b.drop_last());
        assert(blocks_bytes(a + b) =~= blocks_bytes(a) + blocks_bytes(b));
    }
}

/// Blocks written one behind the other, parted at the one in place `k`.
proof fn lemma_blocks_parted(blocks: Seq<(u8, Seq<u8>)>, k: int, stray: Seq<u8>)
    requires
        0 <= k < blocks.len(),
    ensures
        ({
            let start = blocks_bytes(blocks.take(k));
            let block = block_bytes(blocks[k].0, blocks[k].1);
            &&& blocks_bytes(blocks) + stray == start + block + (blocks_bytes(blocks.skip(k + 1))
                + stray)
            &&& blocks_bytes(blocks.take(k + 1)) == start + block
        }),
{
    let one = seq![blocks[k]];
    let rest = blocks.skip(k + 1);
    let start = blocks_bytes(blocks.take(k));
    let block = block_bytes(blocks[k].0, blocks[k].1);
    assert(one.drop_last() =~= Seq::<(u8, Seq<u8>)>::empty());
    assert(blocks_bytes(one.drop_last()) =~= Seq::<u8>::empty());
    assert(blocks_bytes(one) =~= block);
    assert(blocks =~= blocks.take(k) + one + rest);
    assert(blocks.take(k + 1) =~= blocks.take(k) + one);
    lemma_blocks_concat(blocks.take(k), one);
    lemma_blocks_concat(blocks.take(k + 1), rest);
    let after = blocks_bytes(rest);
    assert(start + block + after + stray =~= start + block + (after + stray));
}

/// Reading blocks from the one in place `k` on.
proof fn lemma_blocks_read(blocks: Seq<(u8, Seq<u8>)>, k: int, stray: Seq<u8>, label: Seq<char>)
    requires
        0 <= k <= blocks.len(),
        stray.len() < 4,
        forall|i: int| 0 <= i < blocks.len() ==> (#[trigger] blocks[i]).1.len() < 0x100_0000,
    ensures
        ({
            let data = blocks_bytes(blocks) + stray;
            let result = blocks_result(data, blocks_bytes(blocks.take(k)).len() as int, label);
            if stray.len() == 0 {
                result matches Ok(read) && are_blocks(read, blocks.skip(k))
            } else {
                result == Err::<Seq<BlockAt>, Failure>(
                    Failure::InvalidResponse("truncated "@ + label + " block header"@),
                )
            }
        }),
    decreases blocks.len() - k,
{
    let data = blocks_bytes(blocks) + stray;
    let start = blocks_bytes(blocks.take(k));
    let at = start.len() as int;
    if k == blocks.len() {
        assert(blocks.take(k) =~= blocks);
        assert(are_blocks(Seq::<BlockAt>::empty(), blocks.skip(k)));
    } else {
        let (flags, payload) = blocks[k];
        let after = blocks_bytes(blocks.skip(k + 1)) + stray;
        lemma_blocks_parted(blocks, k, stray);
        lemma_block_read(data, start, flags, payload, after, label);
        lemma_blocks_read(blocks, k + 1, stray, label);
        let next = (start + block_bytes(flags, payload)).len() as int;
        let block = BlockAt { flags, payload, next };
        assert(at < data.len());
        if let Ok(rest) = blocks_result(data, next, label) {
            let read = seq![block] + rest;
            let left = blocks.skip(k);
            assert forall|i: int| 0 <= i < left.len() implies (#[trigger] read[i]).flags
                == left[i].0 && read[i].payload == left[i].1 by {
                if i > 0 {
                    assert(read[i] == rest[i - 1]);
                    assert(left[i] == blocks.skip(k + 1)[i - 1]);
                }
            }
        }
    }
}

/// A list of blocks written one behind the other is read back as that list;
/// with one to three stray bytes behind it, it is refused.
pub proof fn law_blocks_round_trip(blocks: Seq<(u8, Seq<u8>)>, stray: Seq<u8>, label: Seq<char>)
    requires
        forall|i: int| 0 <= i < blocks.len() ==> (#[trigger] blocks[i]).1.len() < 0x100_0000,
        stray.len() < 4,
    ensures
        blocks_result(blocks_bytes(blocks), 0, label) matches Ok(read) && are_blocks(read, blocks),
        stray.len() > 0 ==> blocks_result(blocks_bytes(blocks) + stray, 0, label) == Err::<
            Seq<BlockAt>,
            Failure,
        >(Failure::InvalidResponse("truncated "@ + label + " block header"@)),
{
    let none = Seq::<u8>::empty();
    assert(blocks.take(0) =~= Seq::<(u8, Seq<u8>)>::empty());
    assert(blocks.skip(0) =~= blocks);
    assert(blocks_bytes(blocks) + none =~= blocks_bytes(blocks));
    lemma_blocks_read(blocks, 0, none, label);
    lemma_blocks_read(blocks, 0, stray, label);
}

/// `text` with every NUL character replaced by a question mark.
pub open spec fn without_nul(text: Seq<char>) -> Seq<char> {
    text.map_values(
        |c: char|
            if c == '\0' {
                '?'
            } else {
                c
            },
    )
}

/// The bytes that a text field holds: Windows-1252, free of NUL.
pub open spec fn ansi(text: Seq<char>) -> Seq<u8> {
    encoded(without_nul(text))
}

fn nul_replaced(text: &str) -> (r: String)
    ensures
        r@ == without_nul(text@),
{
    let mut r = String::new();
    for c in it: text.chars()
        invariant
            it.seq() == text@,
            r@ == without_nul(text@.take(it.index() as int)),
    {
        proof {
            assert(text@.take(it.index() + 1) =~= text@.take(it.index() as int).push(c));
        }
        r.push(
            if c == '\0' {
                '?'
            } else {
                c
            },
        );
    }
    proof {
        assert(text@.take(text@.len() as int) =~= text@);
    }
    r
}

/// The bytes of a text field, by [`ansi`].
pub fn encode_ansi_lossy(text: &str) -> (r: Vec<u8>)
    ensures
        r@ == ansi(text@),
{
    let sanitized = nul_replaced(text);
    let (bytes, _) = encode_windows_1252(sanitized.as_str());
    bytes
}

/// The bytes of a short string: a length byte and at most 255 bytes of text.
pub open spec fn short_string(text: Seq<char>) -> Seq<u8> {
    let bytes = ansi(text);
    let len = if bytes.len() < 255 {
        bytes.len() as int
    } else {
        255
    };
    seq![len as u8] + bytes.take(len)
}

fn append_bytes(data: &mut Vec<u8>, more: &[u8])
    ensures
        final(data)@ == old(data)@ + more@,
{
    data.extend_from_slice(more);
    assert(data@ =~= old(data)@ + more@);
}

fn append_u32(data: &mut Vec<u8>, value: u32)
    ensures
        final(data)@ == old(data)@ + le_bytes(value),
{
    data.push((value % 256) as u8);
    data.push((value / 256 % 256) as u8);
    data.push((value / 65536 % 256) as u8);
    data.push((value / 16777216) as u8);
    assert(data@ =~= old(data)@ + le_bytes(value));
}

fn append_short_string(data: &mut Vec<u8>, text: &str)
    ensures
        final(data)@ == old(data)@ + short_string(text@),
{
    let bytes = encode_ansi_lossy(text);
    let len: usize = if bytes.len() < 255 {
        bytes.len()
    } else {
        255
    };
    data.push(len as u8);
    append_bytes(data, vstd::slice::slice_subrange(bytes.as_slice(), 0, len));
    assert(bytes@.subrange(0, len as int) =~= bytes@.take(len as int));
    assert(data@ =~= old(data)@ + short_string(text@));
}

/// Writes the streams of a schematic library.
#[derive(Debug)]
pub struct SchWriter {
    pub data: Vec<u8>,
}

impl Default for SchWriter {
    fn default() -> (r: Self)
        ensures
            r.data@ == Seq::<u8>::empty(),
    {
        SchWriter { data: Vec::new() }
    }
}

impl SchWriter {
    pub fn into_inner(self) -> (r: Vec<u8>)
        ensures
            r@ == self.data@,
    {
        self.data
    }

    pub fn write_u8(&mut self, value: u8)
        ensures
            final(self).data@ == old(self).data@.push(value),
    {
        self.data.push(value);
    }

    pub fn write_i32(&mut self, value: i32)
        ensures
            final(self).data@ == old(self).data@ + le_bytes(value as u32),
    {
        append_u32(&mut self.data, value as u32);
    }

    pub fn write_u32(&mut self, value: u32)
        ensures
            final(self).data@ == old(self).data@ + le_bytes(value),
    {
        append_u32(&mut self.data, value);
    }

    pub fn write_pascal_short_string(&mut self, value: &str)
        ensures
            final(self).data@ == old(self).data@ + short_string(value@),
    {
        append_short_string(&mut self.data, value);
    }

    pub fn write_cstring(&mut self, value: &str)
        ensures
            final(self).data@ == old(self).data@ + ansi(value@) + seq![0u8],
    {
        let bytes = encode_ansi_lossy(value);
        append_bytes(&mut self.data, bytes.as_slice());
        self.write_u8(0);
    }

    /// Writes what `child` holds as one block.
    pub fn write_block(&mut self, flags: u8, child: SchWriter)
        ensures
            final(self).data@ == old(self).data@ + block_bytes(flags, child.data@),
    {
        let payload = child.into_inner();
        self.write_u32(((flags as u32) << 24) | (payload.len() as u32));
        append_bytes(&mut self.data, payload.as_slice());
        assert(self.data@ =~= old(self).data@ + block_bytes(flags, child.data@));
    }

    pub fn write_string_block(&mut self, value: &str)
        ensures
            final(self).data@ == old(self).data@ + block_bytes(0, short_string(value@)),
    {
        let mut child = SchWriter::default();
        child.write_pascal_short_string(value);
        assert(child.data@ =~= short_string(value@));
        self.write_block(0, child);
    }

    pub fn write_cstring_param_block(&mut self, params: &SchParams)
        ensures
            final(self).data@ == old(self).data@ + block_bytes(
                0,
                ansi(params.text()) + seq![0u8],
            ),
    {
        let text = params.as_string();
        let mut child = SchWriter::default();
        child.write_cstring(text.as_str());
        assert(child.data@ =~= ansi(params.text()) + seq![0u8]);
        self.write_block(0, child);
    }
}

/// Writes the streams of a footprint library.
#[derive(Debug)]
pub struct PcbWriter {
    pub data: Vec<u8>,
}

impl Default for PcbWriter {
    fn default() -> (r: Self)
        ensures
            r.data@ == Seq::<u8>::empty(),
    {
        PcbWriter { data: Vec::new() }
    }
}

impl PcbWriter {
    pub fn into_inner(self) -> (r: Vec<u8>)
        ensures
            r@ == self.data@,
    {
        self.data
    }

    pub fn write_u8(&mut self, value: u8)
        ensures
            final(self).data@ == old(self).data@.push(value),
    {
        self.data.push(value);
    }

    pub fn write_i32(&mut self, value: i32)
        ensures
            final(self).data@ == old(self).data@ + le_bytes(value as u32),
    {
        append_u32(&mut self.data, value as u32);
    }

    pub fn write_u32(&mut self, value: u32)
        ensures
            final(self).data@ == old(self).data@ + le_bytes(value),
    {
        append_u32(&mut self.data, value);
    }

    pub fn write_bytes(&mut self, value: &[u8])
        ensures
            final(self).data@ == old(self).data@ + value@,
    {
        append_bytes(&mut self.data, value);
    }

    /// Writes what `child` holds as one block.
    pub fn write_block(&mut self, flags: u8, child: PcbWriter)
        ensures
            final(self).data@ == old(self).data@ + block_bytes(flags, child.data@),
    {
        let payload = child.into_inner();
        self.write_u32(((flags as u32) << 24) | (payload.len() as u32));
        self.write_bytes(payload.as_slice());
        assert(self.data@ =~= old(self).data@ + block_bytes(flags, child.data@));
    }

    pub fn write_pascal_short_string(&mut self, value: &str)
        ensures
            final(self).data@ == old(self).data@ + short_string(value@),
    {
        append_short_string(&mut self.data, value);
    }

    pub fn write_cstring(&mut self, value: &str)
        ensures
            final(self).data@ == old(self).data@ + ansi(value@) + seq![0u8],
    {
        let bytes = encode_ansi_lossy(value);
        self.write_bytes(bytes.as_slice());
        self.write_u8(0);
    }

    pub fn write_string_block(&mut self, value: &str)
        ensures
            final(self).data@ == old(self).data@ + block_bytes(0, short_string(value@)),
    {
        let mut child = PcbWriter::default();
        child.write_pascal_short_string(value);
        assert(child.data@ =~= short_string(value@));
        self.write_block(0, child);
    }

    /// Writes a short string with a NUL behind it as one block.
    pub fn write_pascal_string(&mut self, value: &str)
        ensures
            final(self).data@ == old(self).data@ + block_bytes(
                0,
                short_string(value@).push(0),
            ),
    {
        let mut child = PcbWriter::default();
        child.write_pascal_short_string(value);
        child.write_u8(0);
        assert(child.data@ =~= short_string(value@).push(0));
        self.write_block(0, child);
    }
}

/// The index of the first zero byte in `data`, or the length of `data`.
pub open spec fn nul_end(data: Seq<u8>) -> nat
    decreases data.len(),
{
    if data.len() == 0 || data[0] == 0 {
        0
    } else {
        1 + nul_end(data.drop_first())
    }
}

pub proof fn lemma_nul_end(data: Seq<u8>, n: nat)
    requires
        n <= data.len(),
        forall|i: int| 0 <= i < n ==> data[i] != 0,
        n < data.len() ==> data[n as int] == 0,
    ensures
        nul_end(data) == n,
    decreases data.len(),
{
    if data.len() > 0 && data[0] != 0 {
        let rest = data.drop_first();
        assert forall|i: int| 0 <= i < n - 1 implies rest[i] != 0 by {
            assert(rest[i] == data[i + 1]);
        }
        assert(n > 0);
        lemma_nul_end(rest, (n - 1) as nat);
    }
}

/// The text of a field that ends at its first zero byte.
pub open spec fn cstring(data: Seq<u8>) -> Seq<char> {
    sniffed_text(data.take(nul_end(data) as int))
}

pub fn cstring_text(data: &[u8]) -> (r: String)
    ensures
        r@ == cstring(data@),
{
    let mut len: usize = 0;
    while len < data.len() && data[len] != 0
        invariant
            len <= data@.len(),
            forall|i: int| 0 <= i < len ==> data@[i] != 0,
        decreases data.len() - len,
    {
        len += 1;
    }
    proof {
        lemma_nul_end(data@, len as nat);
        assert(data@.subrange(0, len as int) =~= data@.take(len as int));
    }
    decode_windows_1252(vstd::slice::slice_subrange(data, 0, len))
}

/// Each byte as the character of the same number.
pub open spec fn latin1(data: Seq<u8>) -> Seq<char> {
    data.map_values(|b: u8| b as char)
}

pub fn decode_single_byte_text(data: &[u8]) -> (r: String)
    ensures
        r@ == latin1(data@),
{
    let mut r = String::new();
    let mut i: usize = 0;
    while i < data.len()
        invariant
            i <= data@.len(),
            r@ == latin1(data@.take(i as int)),
        decreases data.len() - i,
    {
        assert(data@.take(i + 1) =~= data@.take(i as int).push(data@[i as int]));
        r.push(data[i] as char);
        assert(r@ =~= latin1(data@.take(i + 1)));
        i += 1;
    }
    assert(data@.take(i as int) =~= data@);
    r
}

/// The text of a short string: as many of the bytes after the length byte as it
/// says, or as there are.
pub open spec fn short_string_text(data: Seq<u8>) -> Seq<char> {
    if data.len() == 0 {
        Seq::empty()
    } else if 1 + data[0] <= data.len() {
        latin1(data.subrange(1, 1 + data[0]))
    } else {
        latin1(data.skip(1))
    }
}

pub fn parse_pascal_short_string(data: &[u8]) -> (r: String)
    ensures
        r@ == short_string_text(data@),
{
    if data.len() == 0 {
        return String::new();
    }
    let len: usize = data[0] as usize;
    let end: usize = if 1 + len <= data.len() {
        1 + len
    } else {
        data.len()
    };
    assert(data@.subrange(1, data@.len() as int) =~= data@.skip(1));
    decode_single_byte_text(vstd::slice::slice_subrange(data, 1, end))
}

/// What reading the parameters in the first block of `data` comes to.
pub open spec fn first_pairs_result(data: Seq<u8>, label: Seq<char>) -> Result<
    Seq<Pair>,
    Failure,
> {
    match block_result(data, 0, label) {
        Ok(block) => if block.flags == 0 {
            Ok(text_pairs(cstring(block.payload)))
        } else {
            Err(Failure::InvalidResponse("missing text block in "@ + label))
        },
        Err(failure) => Err(failure),
    }
}

/// Reads the parameters in the first block of `data`.
pub fn first_param_block_pairs(data: &[u8], label: &str) -> (r: Result<
    Vec<(String, String)>,
    AppError,
>)
    ensures
        match r {
            Ok(pairs) => first_pairs_result(data@, label@) == Ok::<Seq<Pair>, Failure>(
                pair_views(pairs@),
            ),
            Err(e) => first_pairs_result(data@, label@) == Err::<Seq<Pair>, Failure>(e.failure()),
        },
{
    let mut offset: usize = 0;
    match read_block(data, &mut offset, label) {
        Ok(block) => if block.flags == 0 {
            let text = cstring_text(block.payload);
            Ok(parse_param_pairs(text.as_str()))
        } else {
            let mut message = "missing text block in ".to_owned();
            message.append(label);
            Err(AppError::InvalidResponse(message))
        },
        Err(e) => Err(e),
    }
}

/// Reads the parameters in the first block of a schematic library's stream.
pub fn first_schlib_param_block_pairs(data: &[u8], label: &str) -> (r: Result<
    Vec<(String, String)>,
    AppError,
>)
    ensures
        match r {
            Ok(pairs) => first_pairs_result(data@, label@) == Ok::<Seq<Pair>, Failure>(
                pair_views(pairs@),
            ),
            Err(e) => first_pairs_result(data@, label@) == Err::<Seq<Pair>, Failure>(e.failure()),
        },
{
    first_param_block_pairs(data, label)
}

} // verus!
