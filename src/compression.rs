use vstd::prelude::*;
use crate::misc::{
    ByteReader, StreamError, VARINT_LIMIT, VarInt, VarIntReader, extend_bytes, le_u16_at, varint_at,
    varint_bytes,
};

verus! {

/// The four two-bit commands of a compressed block.
#[derive(Debug, Clone, Copy, PartialEq, Eq, Structural)]
pub enum CompressionCommand {
    EndBlock,
    Copy,
    Lz77,
    Rle,
}

impl CompressionCommand {
    pub open spec fn spec_code(self) -> u8 {
        match self {
            CompressionCommand::EndBlock => 0,
            CompressionCommand::Copy => 1,
            CompressionCommand::Lz77 => 2,
            CompressionCommand::Rle => 3,
        }
    }

    /// The command with the given two-bit code.
    pub fn try_from_code(code: u8) -> (r: Result<Self, u8>)
        ensures
            code <= 3 ==> r is Ok && r->Ok_0.spec_code() == code,
            code > 3 ==> r == Err::<Self, u8>(code),
    {
        if code == 0 {
            Ok(CompressionCommand::EndBlock)
        } else if code == 1 {
            Ok(CompressionCommand::Copy)
        } else if code == 2 {
            Ok(CompressionCommand::Lz77)
        } else if code == 3 {
            Ok(CompressionCommand::Rle)
        } else {
            Err(code)
        }
    }

    /// The command's two-bit code.
    pub fn code(self) -> (r: u8)
        ensures
            r == self.spec_code(),
    {
        match self {
            CompressionCommand::EndBlock => 0,
            CompressionCommand::Copy => 1,
            CompressionCommand::Lz77 => 2,
            CompressionCommand::Rle => 3,
        }
    }
}

#[derive(Debug, Clone, Copy, PartialEq, Eq, Structural)]
pub enum DecompressionError {
    InvalidCompressionCommand(u8),
    IncorrectUncompressedSize { declared: u32, actual: u64 },
    IncorrectBlockSize { declared: u16, actual: u64 },
    Io(StreamError),
}

/// Most commands a block may hold.
pub const MAX_BLOCK_COMMANDS: usize = 1024;

/// `out` extended by `length` bytes, each copied from `distance` bytes
/// behind the end at the time it is written (so a copy may overlap itself).
pub open spec fn lz_append(out: Seq<u8>, distance: nat, length: nat) -> Seq<u8>
    decreases length,
{
    if length == 0 {
        out
    } else {
        lz_append(out.push(out[out.len() - distance]), distance, (length - 1) as nat)
    }
}

/// `out` extended by `count` copies of `value`.
pub open spec fn rle_append(out: Seq<u8>, value: u8, count: nat) -> Seq<u8> {
    out + Seq::new(count, |i: int| value)
}

/// The code in slot `slot % 4` of a command group byte, low pair first.
pub open spec fn group_code(g: u8, slot: nat) -> u8 {
    (g >> ((2 * (slot % 4)) as u8)) & 3u8
}

pub open spec fn lz_distance(b0: u8, b1: u8) -> u16 {
    (b0 as u16) | (((b1 & 0xf0u8) as u16) << 4u16)
}

pub open spec fn lz_length(b1: u8) -> nat {
    ((b1 & 0x0fu8) + 2) as nat
}

pub open spec fn eof<T>() -> Result<T, DecompressionError> {
    Err(DecompressionError::Io(StreamError::UnexpectedEof))
}

/// Runs the command with code `code` (not zero) whose operands start at
/// `pos`: the position after them and the new output.
pub open spec fn decode_op(inp: Seq<u8>, pos: nat, code: u8, out: Seq<u8>) -> Result<
    (nat, Seq<u8>),
    DecompressionError,
> {
    if code == 1 {
        if pos >= inp.len() {
            eof()
        } else {
            Ok(((pos + 1) as nat, out.push(inp[pos as int])))
        }
    } else if pos + 1 >= inp.len() {
        eof()
    } else if code == 2 {
        let d = lz_distance(inp[pos as int], inp[pos + 1int]) as nat;
        if d < 2 || d > out.len() {
            Err(DecompressionError::Io(StreamError::InvalidSeek))
        } else {
            Ok(((pos + 2) as nat, lz_append(out, d, lz_length(inp[pos + 1int]))))
        }
    } else {
        Ok(((pos + 2) as nat, rle_append(out, inp[pos + 1int], (inp[pos as int] + 2) as nat)))
    }
}

/// Decoding a block from a group boundary: `slot` commands of the block are
/// done and the next group byte is at `pos`.
pub open spec fn decode_group(inp: Seq<u8>, pos: nat, slot: nat, out: Seq<u8>) -> Result<
    (nat, Seq<u8>),
    DecompressionError,
>
    decreases 2 * (MAX_BLOCK_COMMANDS - slot) + 1,
{
    if slot >= MAX_BLOCK_COMMANDS {
        Ok((pos, out))
    } else if pos >= inp.len() {
        eof()
    } else {
        decode_slot(inp, (pos + 1) as nat, inp[pos as int], slot, out)
    }
}

/// Decoding a block inside a group: its byte is `g`, `slot` commands of the
/// block are done and the next operand is at `pos`.
pub open spec fn decode_slot(inp: Seq<u8>, pos: nat, g: u8, slot: nat, out: Seq<u8>) -> Result<
    (nat, Seq<u8>),
    DecompressionError,
>
    decreases 2 * (MAX_BLOCK_COMMANDS - slot),
{
    if slot >= MAX_BLOCK_COMMANDS {
        Ok((pos, out))
    } else if group_code(g, slot) == 0 {
        Ok((pos, out))
    } else {
        match decode_op(inp, pos, group_code(g, slot), out) {
            Err(e) => Err(e),
            Ok((p, o)) => if (slot + 1) % 4 == 0 {
                decode_group(inp, p, slot + 1, o)
            } else {
                decode_slot(inp, p, g, slot + 1, o)
            },
        }
    }
}

/// Decoding `left` blocks, the first one's size prefix at `pos`.
pub open spec fn decode_blocks(inp: Seq<u8>, pos: nat, out: Seq<u8>, left: nat, strict: bool) -> Result<
    (nat, Seq<u8>),
    DecompressionError,
>
    decreases left,
{
    if left == 0 {
        Ok((pos, out))
    } else if pos + 2 > inp.len() {
        eof()
    } else {
        let declared = le_u16_at(inp, pos as int);
        let start = (pos + 2) as nat;
        match decode_group(inp, start, 0, out) {
            Err(e) => Err(e),
            Ok((p, o)) => if strict && p - start != declared {
                Err(
                    DecompressionError::IncorrectBlockSize {
                        declared: declared,
                        actual: (p - start) as u64,
                    },
                )
            } else {
                decode_blocks(inp, p, o, (left - 1) as nat, strict)
            },
        }
    }
}

/// What decoding the stream `inp` gives.
pub open spec fn decompressed(inp: Seq<u8>, strict: bool) -> Result<Seq<u8>, DecompressionError> {
    match varint_at(inp, 0) {
        None => eof(),
        Some((size, p1)) => match varint_at(inp, p1) {
            None => eof(),
            Some((raw, p2)) => match decode_blocks(inp, p2 as nat, seq![], (raw + 1) as nat, strict) {
                Err(e) => Err(e),
                Ok((p, out)) => if strict && out.len() != size {
                    Err(
                        DecompressionError::IncorrectUncompressedSize {
                            declared: size,
                            actual: out.len() as u64,
                        },
                    )
                } else {
                    Ok(out)
                },
            },
        },
    }
}


/// Appends `length` bytes copied from `distance` bytes behind the end.
fn copy_back(out: &mut Vec<u8>, distance: usize, length: usize)
    requires
        1 <= distance <= old(out)@.len(),
    ensures
        final(out)@ == lz_append(old(out)@, distance as nat, length as nat),
{
    let mut k: usize = 0;
    while k < length
        invariant
            k <= length,
            1 <= distance <= out@.len(),
            lz_append(old(out)@, distance as nat, length as nat) == lz_append(
                out@,
                distance as nat,
                (length - k) as nat,
            ),
        decreases length - k,
    {
        let b = out[out.len() - distance];
        out.push(b);
        k = k + 1;
    }
}

/// Appends `count` copies of `value`.
fn repeat_byte(out: &mut Vec<u8>, value: u8, count: usize)
    ensures
        final(out)@ == rle_append(old(out)@, value, count as nat),
{
    let mut k: usize = 0;
    while k < count
        invariant
            k <= count,
            out@ == rle_append(old(out)@, value, k as nat),
        decreases count - k,
    {
        out.push(value);
        k = k + 1;
        assert(out@ =~= rle_append(old(out)@, value, k as nat));
    }
}

/// Runs the command with code `code` (not zero), reading its operands.
fn run_op(src: &mut ByteReader, code: u8, out: &mut Vec<u8>) -> (r: Result<(), DecompressionError>)
    requires
        1 <= code <= 3,
    ensures
        final(src).bytes == old(src).bytes,
        final(src).pos >= old(src).pos,
        match decode_op(old(src).bytes@, old(src).pos as nat, code, old(out)@) {
            Ok((p, o)) => r is Ok && final(src).pos == p && final(out)@ == o,
            Err(e) => r == Err::<(), DecompressionError>(e),
        },
{
    if code == 1 {
        let b = match src.read_u8() {
            Ok(b) => b,
            Err(e) => return Err(DecompressionError::Io(e)),
        };
        out.push(b);
        Ok(())
    } else {
        let b0 = match src.read_u8() {
            Ok(b) => b,
            Err(e) => return Err(DecompressionError::Io(e)),
        };
        let b1 = match src.read_u8() {
            Ok(b) => b,
            Err(e) => return Err(DecompressionError::Io(e)),
        };
        if code == 2 {
            let distance = (b0 as u16) | (((b1 & 0xf0u8) as u16) << 4u16);
            if distance < 2 || distance as usize > out.len() {
                return Err(DecompressionError::Io(StreamError::InvalidSeek));
            }
            copy_back(out, distance as usize, (b1 & 0x0fu8) as usize + 2);
        } else {
            repeat_byte(out, b1, b0 as usize + 2);
        }
        Ok(())
    }
}

/// Decodes one block's commands, the first group byte at the reader's
/// position, appending to `out`.
fn decode_block(src: &mut ByteReader, out: &mut Vec<u8>) -> (r: Result<(), DecompressionError>)
    ensures
        final(src).bytes == old(src).bytes,
        final(src).pos >= old(src).pos,
        match decode_group(old(src).bytes@, old(src).pos as nat, 0, old(out)@) {
            Ok((p, o)) => r is Ok && final(src).pos == p && final(out)@ == o,
            Err(e) => r == Err::<(), DecompressionError>(e),
        },
{
    let ghost inp = old(src).bytes@;
    let ghost target = decode_group(inp, old(src).pos as nat, 0, old(out)@);
    let mut slot: usize = 0;
    while slot < MAX_BLOCK_COMMANDS
        invariant
            src.bytes == old(src).bytes,
            src.bytes@ == inp,
            src.pos >= old(src).pos,
            slot <= MAX_BLOCK_COMMANDS,
            slot % 4 == 0,
            inp == old(src).bytes@,
            target == decode_group(inp, old(src).pos as nat, 0, old(out)@),
            target == decode_group(inp, src.pos as nat, slot as nat, out@),
        decreases MAX_BLOCK_COMMANDS - slot,
    {
        let g = match src.read_u8() {
            Ok(g) => g,
            Err(e) => {
                return Err(DecompressionError::Io(e));
            },
        };
        let mut j: usize = 0;
        while j < 4
            invariant
                src.bytes == old(src).bytes,
                src.bytes@ == inp,
                src.pos >= old(src).pos,
                slot < MAX_BLOCK_COMMANDS,
                slot % 4 == 0,
                j <= 4,
                inp == old(src).bytes@,
                target == decode_group(inp, old(src).pos as nat, 0, old(out)@),
                j < 4 ==> target == decode_slot(inp, src.pos as nat, g, (slot + j) as nat, out@),
                j == 4 ==> target == decode_group(inp, src.pos as nat, (slot + 4) as nat, out@),
            decreases 4 - j,
        {
            let code = (g >> ((2 * j) as u8)) & 3u8;
            assert(code <= 3) by (bit_vector)
                requires
                    code == (g >> ((2 * j) as u8)) & 3u8,
            ;
            assert((slot + j) % 4 == j);
            assert(code == group_code(g, (slot + j) as nat));
            match CompressionCommand::try_from_code(code) {
                Err(c) => {
                    return Err(DecompressionError::InvalidCompressionCommand(c));
                },
                Ok(CompressionCommand::EndBlock) => {
                    return Ok(());
                },
                Ok(_) => {
                    run_op(src, code, out)?;
                },
            }
            j = j + 1;
        }
        slot = slot + 4;
    }
    Ok(())
}

/// Decodes the compressed stream `src`. With `strict`, each block's size
/// prefix and the header's total size are checked against what was read
/// and written.
pub fn decompress(src: &[u8], strict: bool) -> (r: Result<Vec<u8>, DecompressionError>)
    ensures
        match decompressed(src@, strict) {
            Ok(v) => r is Ok && r->Ok_0@ == v,
            Err(e) => r == Err::<Vec<u8>, DecompressionError>(e),
        },
{
    let mut reader = ByteReader::new(src);
    let uncompressed_size = match reader.read_varint() {
        Ok(v) => v,
        Err(e) => return Err(DecompressionError::Io(e)),
    };
    let raw_blocks = match reader.read_varint() {
        Ok(v) => v,
        Err(e) => return Err(DecompressionError::Io(e)),
    };
    let num_blocks: u64 = raw_blocks as u64 + 1;
    let ghost inp = src@;
    let ghost blocks_start = reader.pos as nat;
    let ghost header = varint_at(inp, 0);
    assert(header == Some((uncompressed_size, header->Some_0.1)));
    assert(varint_at(inp, header->Some_0.1) == Some((raw_blocks, blocks_start as int)));
    let mut out: Vec<u8> = Vec::new();
    let mut b: u64 = 0;
    while b < num_blocks
        invariant
            reader.bytes@ == inp,
            inp == src@,
            b <= num_blocks,
            num_blocks == raw_blocks + 1,
            header == Some((uncompressed_size, header->Some_0.1)),
            varint_at(inp, 0) == header,
            varint_at(inp, header->Some_0.1) == Some((raw_blocks, blocks_start as int)),
            decode_blocks(inp, blocks_start, seq![], num_blocks as nat, strict) == decode_blocks(
                inp,
                reader.pos as nat,
                out@,
                (num_blocks - b) as nat,
                strict,
            ),
        decreases num_blocks - b,
    {
        let declared = match reader.read_u16_le() {
            Ok(v) => v,
            Err(e) => return Err(DecompressionError::Io(e)),
        };
        let block_start = reader.pos;
        decode_block(&mut reader, &mut out)?;
        if strict {
            let actual = (reader.pos - block_start) as u64;
            if actual != declared as u64 {
                return Err(DecompressionError::IncorrectBlockSize { declared, actual });
            }
        }
        b = b + 1;
    }
    if strict && out.len() as u64 != uncompressed_size as u64 {
        return Err(
            DecompressionError::IncorrectUncompressedSize {
                declared: uncompressed_size,
                actual: out.len() as u64,
            },
        );
    }
    Ok(out)
}


#[derive(Debug, Clone, Copy, PartialEq, Eq, Structural)]
pub enum CompressionError {
    /// The input is too long for the stream header.
    TryFromInt,
}

/// Uncompressed bytes per block.
pub const BLOCK_SIZE: usize = 512;

/// Farthest back an Lz77 command can reach.
pub const MAX_DISTANCE: usize = 0xfff;

/// Longest Lz77 copy.
pub const MAX_MATCH: usize = 17;

/// Longest run of one Rle command.
pub const MAX_RUN: usize = 257;

/// One command with its operands, as the encoder chooses it.
#[derive(Debug, Clone, Copy, PartialEq, Eq, Structural)]
pub enum Op {
    Copy(u8),
    Lz77 { distance: u16, length: u8 },
    Rle { count: u16, value: u8 },
}

impl Op {
    /// Uncompressed bytes the command stands for.
    pub open spec fn spec_len(self) -> nat {
        match self {
            Op::Copy(_) => 1,
            Op::Lz77 { length, .. } => length as nat,
            Op::Rle { count, .. } => count as nat,
        }
    }

    pub open spec fn spec_command(self) -> CompressionCommand {
        match self {
            Op::Copy(_) => CompressionCommand::Copy,
            Op::Lz77 { .. } => CompressionCommand::Lz77,
            Op::Rle { .. } => CompressionCommand::Rle,
        }
    }

    /// The operand bytes that follow the command's group byte.
    pub open spec fn operand_bytes(self) -> Seq<u8> {
        match self {
            Op::Copy(b) => seq![b],
            Op::Lz77 { distance, length } => seq![
                (distance & 0xff) as u8,
                ((length - 2) as u8) | (((distance & 0xf00) >> 4u16) as u8),
            ],
            Op::Rle { count, value } => seq![(count - 2) as u8, value],
        }
    }

    /// Operands within the ranges the format can carry.
    pub open spec fn well_formed(self) -> bool {
        match self {
            Op::Copy(_) => true,
            Op::Lz77 { distance, length } => 2 <= distance <= MAX_DISTANCE && 2 <= length
                <= MAX_MATCH,
            Op::Rle { count, .. } => 2 <= count <= MAX_RUN,
        }
    }

    /// The output after running the command on `out`.
    pub open spec fn apply(self, out: Seq<u8>) -> Seq<u8> {
        match self {
            Op::Copy(b) => out.push(b),
            Op::Lz77 { distance, length } => lz_append(out, distance as nat, length as nat),
            Op::Rle { count, value } => rle_append(out, value, count as nat),
        }
    }

    pub fn command(&self) -> (r: CompressionCommand)
        ensures
            r == self.spec_command(),
    {
        match self {
            Op::Copy(_) => CompressionCommand::Copy,
            Op::Lz77 { .. } => CompressionCommand::Lz77,
            Op::Rle { .. } => CompressionCommand::Rle,
        }
    }

    /// Appends the operand bytes to `out`.
    pub fn write_operands(&self, out: &mut Vec<u8>)
        requires
            self.well_formed(),
        ensures
            final(out)@ == old(out)@ + self.operand_bytes(),
    {
        match *self {
            Op::Copy(b) => {
                out.push(b);
            },
            Op::Lz77 { distance, length } => {
                out.push((distance & 0xff) as u8);
                out.push(((length - 2) as u8) | (((distance & 0xf00) >> 4u16) as u8));
            },
            Op::Rle { count, value } => {
                out.push((count - 2) as u8);
                out.push(value);
            },
        }
        assert(out@ =~= old(out)@ + self.operand_bytes());
    }
}

/// Length of the match at `p` against `d` bytes back, from `l` on: it stops
/// at `MAX_MATCH`, at `d` and at the block end `end`.
pub open spec fn match_len(s: Seq<u8>, p: int, d: int, end: int, l: nat) -> nat
    decreases MAX_MATCH - l,
{
    if l < MAX_MATCH && l < d && p + l < end && s[p + l] == s[p - d + l] {
        match_len(s, p, d, end, l + 1)
    } else {
        l
    }
}

/// Best match length and distance among the distances `hi` down to `d`:
/// a later distance wins only with a strictly longer match.
pub open spec fn lz_scan(s: Seq<u8>, p: int, end: int, d: int, hi: int) -> (nat, nat)
    decreases hi + 1 - d,
{
    if d > hi {
        (0, 0)
    } else {
        let prev = lz_scan(s, p, end, d + 1, hi);
        let l = match_len(s, p, d, end, 0);
        if l > prev.0 {
            (l, d as nat)
        } else {
            prev
        }
    }
}

/// Farthest distance searched from `p`.
pub open spec fn max_distance_at(p: int) -> int {
    if p < MAX_DISTANCE {
        p
    } else {
        MAX_DISTANCE as int
    }
}

/// Best Lz77 match at `p`: its length and distance.
pub open spec fn lz_best(s: Seq<u8>, p: int, end: int) -> (nat, nat) {
    lz_scan(s, p, end, 2, max_distance_at(p))
}

/// Length of the run of bytes equal to `s[p]` starting at `p`, from `c` on,
/// capped at `MAX_RUN` and at the block end.
pub open spec fn run_len(s: Seq<u8>, p: int, end: int, c: nat) -> nat
    decreases MAX_RUN - c,
{
    if c < MAX_RUN && p + c < end && s[p + c] == s[p] {
        run_len(s, p, end, c + 1)
    } else {
        c
    }
}

/// The command the encoder emits at `p`: a copy unless a match or run of
/// two or more bytes exists; an Lz77 command only when its match is strictly
/// longer than the run.
pub open spec fn op_at(s: Seq<u8>, p: int, end: int) -> Op {
    let (bl, bd) = lz_best(s, p, end);
    let rc = run_len(s, p, end, 1);
    if bl <= 1 && rc <= 1 {
        Op::Copy(s[p])
    } else if bl > rc {
        Op::Lz77 { distance: bd as u16, length: bl as u8 }
    } else {
        Op::Rle { count: rc as u16, value: s[p] }
    }
}


proof fn lemma_match_len(s: Seq<u8>, p: int, d: int, end: int, l: nat)
    requires
        l <= MAX_MATCH,
        l <= d,
        p + l <= end,
    ensures
        l <= match_len(s, p, d, end, l) <= MAX_MATCH,
        match_len(s, p, d, end, l) <= d,
        p + match_len(s, p, d, end, l) <= end,
        forall|i: int|
            l <= i < match_len(s, p, d, end, l) ==> s[p + i] == #[trigger] s[p - d + i],
    decreases MAX_MATCH - l,
{
    if l < MAX_MATCH && l < d && p + l < end && s[p + l] == s[p - d + l] {
        lemma_match_len(s, p, d, end, l + 1);
    }
}

proof fn lemma_lz_scan(s: Seq<u8>, p: int, end: int, d: int, hi: int)
    requires
        2 <= d,
        p < end,
    ensures
        lz_scan(s, p, end, d, hi).0 <= MAX_MATCH,
        lz_scan(s, p, end, d, hi).0 > 0 ==> d <= lz_scan(s, p, end, d, hi).1 <= hi
            && lz_scan(s, p, end, d, hi).0 == match_len(
            s,
            p,
            lz_scan(s, p, end, d, hi).1 as int,
            end,
            0,
        ),
    decreases hi + 1 - d,
{
    if d <= hi {
        lemma_lz_scan(s, p, end, d + 1, hi);
        lemma_match_len(s, p, d, end, 0);
    }
}

proof fn lemma_run_len(s: Seq<u8>, p: int, end: int, c: nat)
    requires
        1 <= c <= MAX_RUN,
        p + c <= end,
    ensures
        c <= run_len(s, p, end, c) <= MAX_RUN,
        p + run_len(s, p, end, c) <= end,
        forall|i: int| c <= i < run_len(s, p, end, c) ==> #[trigger] s[p + i] == s[p],
    decreases MAX_RUN - c,
{
    if c < MAX_RUN && p + c < end && s[p + c] == s[p] {
        lemma_run_len(s, p, end, c + 1);
    }
}

/// The encoder's command at `p` is well formed, covers at least one byte,
/// stays within the block, and an Lz77 command reaches no farther back than
/// the input's start.
pub proof fn lemma_op_at_bounds(s: Seq<u8>, p: int, end: int)
    requires
        0 <= p < end,
    ensures
        op_at(s, p, end).well_formed(),
        1 <= op_at(s, p, end).spec_len(),
        p + op_at(s, p, end).spec_len() <= end,
        op_at(s, p, end) is Lz77 ==> op_at(s, p, end)->distance <= p,
{
    lemma_lz_scan(s, p, end, 2, max_distance_at(p));
    lemma_run_len(s, p, end, 1);
    let (bl, bd) = lz_best(s, p, end);
    if bl > 0 {
        lemma_match_len(s, p, bd as int, end, 0);
    }
}

/// The commands the encoder emits for `s[p..end]`.
pub open spec fn block_ops(s: Seq<u8>, p: int, end: int) -> Seq<Op>
    decreases end - p,
    when 0 <= p
    via block_ops_decreases
{
    if p >= end {
        seq![]
    } else {
        seq![op_at(s, p, end)] + block_ops(s, p + op_at(s, p, end).spec_len(), end)
    }
}

#[via_fn]
proof fn block_ops_decreases(s: Seq<u8>, p: int, end: int) {
    if 0 <= p < end {
        lemma_op_at_bounds(s, p, end);
    }
}

fn match_length(src: &[u8], p: usize, d: usize, end: usize) -> (l: usize)
    requires
        2 <= d <= p,
        p < end <= src@.len(),
    ensures
        l == match_len(src@, p as int, d as int, end as int, 0),
        l <= MAX_MATCH,
{
    let mut l: usize = 0;
    while l < MAX_MATCH && l < d && l < end - p && src[p + l] == src[p - d + l]
        invariant
            2 <= d <= p,
            p < end <= src@.len(),
            l <= MAX_MATCH,
            l <= d,
            match_len(src@, p as int, d as int, end as int, 0) == match_len(
                src@,
                p as int,
                d as int,
                end as int,
                l as nat,
            ),
        decreases MAX_MATCH - l,
    {
        l = l + 1;
    }
    l
}

fn run_length(src: &[u8], p: usize, end: usize) -> (c: usize)
    requires
        p < end <= src@.len(),
    ensures
        c == run_len(src@, p as int, end as int, 1),
        1 <= c <= MAX_RUN,
{
    let first = src[p];
    let mut c: usize = 1;
    while c < MAX_RUN && c < end - p && src[p + c] == first
        invariant
            p < end <= src@.len(),
            first == src@[p as int],
            1 <= c <= MAX_RUN,
            run_len(src@, p as int, end as int, 1) == run_len(src@, p as int, end as int, c as nat),
        decreases MAX_RUN - c,
    {
        c = c + 1;
    }
    c
}

/// The command to emit at `p` in the block that ends at `end`.
fn find_op(src: &[u8], p: usize, end: usize) -> (op: Op)
    requires
        p < end <= src@.len(),
    ensures
        op == op_at(src@, p as int, end as int),
{
    let hi: usize = if p < MAX_DISTANCE {
        p
    } else {
        MAX_DISTANCE
    };
    let mut best_len: usize = 0;
    let mut best_dist: usize = 0;
    let mut d: usize = hi;
    while d >= 2
        invariant
            p < end <= src@.len(),
            hi == max_distance_at(p as int),
            d <= hi,
            d == 0 ==> hi == 0,
            best_len <= MAX_MATCH,
            best_dist <= hi,
            (best_len as nat, best_dist as nat) == lz_scan(
                src@,
                p as int,
                end as int,
                d + 1,
                hi as int,
            ),
        decreases d,
    {
        let l = match_length(src, p, d, end);
        if l > best_len {
            best_len = l;
            best_dist = d;
        }
        d = d - 1;
    }
    let rc = run_length(src, p, end);
    if d == 0 {
        assert(lz_scan(src@, p as int, end as int, 2, 0) == (0nat, 0nat));
    }
    assert(lz_best(src@, p as int, end as int) == (best_len as nat, best_dist as nat));
    if best_len <= 1 && rc <= 1 {
        Op::Copy(src[p])
    } else if best_len > rc {
        Op::Lz77 { distance: best_dist as u16, length: best_len as u8 }
    } else {
        Op::Rle { count: rc as u16, value: src[p] }
    }
}


/// The code of command `j` of `ops`, or zero (end of block) past its end.
pub open spec fn code_at(ops: Seq<Op>, j: int) -> u8 {
    if 0 <= j < ops.len() {
        ops[j].spec_command().spec_code()
    } else {
        0
    }
}

/// The group byte for up to four commands, the first in the low bits.
pub open spec fn group_byte(ops: Seq<Op>) -> u8 {
    code_at(ops, 0) | (code_at(ops, 1) << 2u8) | (code_at(ops, 2) << 4u8) | (code_at(ops, 3)
        << 6u8)
}

/// The operand bytes of `ops`, in order.
pub open spec fn operands(ops: Seq<Op>) -> Seq<u8>
    decreases ops.len(),
{
    if ops.len() == 0 {
        seq![]
    } else {
        ops[0].operand_bytes() + operands(ops.drop_first())
    }
}

/// A block's commands as bytes: groups of four, each a group byte and the
/// operands; a zero byte ends the block unless the last group has a free
/// slot, whose zero code ends it.
pub open spec fn pack_ops(ops: Seq<Op>) -> Seq<u8>
    decreases ops.len(),
{
    if ops.len() == 0 {
        seq![0u8]
    } else if ops.len() < 4 {
        seq![group_byte(ops)] + operands(ops)
    } else {
        seq![group_byte(ops.take(4))] + operands(ops.take(4)) + pack_ops(ops.skip(4))
    }
}

/// The little-endian bytes of `v`.
pub open spec fn le_u16_bytes(v: u16) -> Seq<u8> {
    seq![(v & 0xff) as u8, (v >> 8u16) as u8]
}

/// The number of blocks for `n` bytes: one per started 512, and at least
/// one.
pub open spec fn block_count(n: nat) -> nat {
    if n == 0 {
        1
    } else {
        ((n + BLOCK_SIZE - 1) / BLOCK_SIZE as int) as nat
    }
}

/// End of block `b` of `s`.
pub open spec fn block_end(s: Seq<u8>, b: nat) -> int {
    if (b + 1) * BLOCK_SIZE < s.len() {
        (b + 1) * BLOCK_SIZE
    } else {
        s.len() as int
    }
}

/// Block `b` of `s` as written: the size prefix and the packed commands.
pub open spec fn block_bytes(s: Seq<u8>, b: nat) -> Seq<u8> {
    let body = pack_ops(block_ops(s, b * BLOCK_SIZE, block_end(s, b)));
    le_u16_bytes(body.len() as u16) + body
}

/// Blocks `b` up to `n` of `s`, as written.
pub open spec fn blocks_from(s: Seq<u8>, b: nat, n: nat) -> Seq<u8>
    decreases n - b,
{
    if b >= n {
        seq![]
    } else {
        block_bytes(s, b) + blocks_from(s, b + 1, n)
    }
}

/// The compressed stream for `s`: its size, its block count less one, and
/// the blocks.
pub open spec fn compressed(s: Seq<u8>) -> Seq<u8> {
    varint_bytes(s.len() as u32) + varint_bytes((block_count(s.len()) - 1) as u32) + blocks_from(
        s,
        0,
        block_count(s.len()),
    )
}

proof fn lemma_operands_concat(a: Seq<Op>, b: Seq<Op>)
    ensures
        operands(a + b) == operands(a) + operands(b),
    decreases a.len(),
{
    if a.len() == 0 {
        assert(a + b =~= b);
        assert(operands(a) + operands(b) =~= operands(b));
    } else {
        assert((a + b).drop_first() =~= a.drop_first() + b);
        lemma_operands_concat(a.drop_first(), b);
        assert(operands(a + b) =~= operands(a) + operands(b));
    }
}

proof fn lemma_operands_single(o: Op)
    ensures
        operands(seq![o]) == o.operand_bytes(),
{
    assert(seq![o].drop_first() =~= Seq::<Op>::empty());
    assert(operands(Seq::<Op>::empty()) == Seq::<u8>::empty());
    assert(seq![o][0] == o);
    assert(operands(seq![o]) =~= o.operand_bytes());
}

/// Appends the group byte and operands of `ops[i..i + k]`.
fn write_group(ops: &Vec<Op>, i: usize, k: usize, out: &mut Vec<u8>)
    requires
        1 <= k <= 4,
        i + k <= ops@.len(),
        forall|j: int| 0 <= j < ops@.len() ==> (#[trigger] ops@[j]).well_formed(),
    ensures
        final(out)@ == old(out)@ + seq![group_byte(ops@.subrange(i as int, (i + k) as int))]
            + operands(ops@.subrange(i as int, (i + k) as int)),
{
    let ghost g = ops@.subrange(i as int, (i + k) as int);
    let mut codes: [u8; 4] = [0u8; 4];
    let mut j: usize = 0;
    while j < k
        invariant
            j <= k <= 4,
            i + k <= ops.len(),
            g == ops@.subrange(i as int, (i + k) as int),
            forall|t: int| 0 <= t < j ==> codes@[t] == code_at(g, t),
            forall|t: int| j <= t < 4 ==> codes@[t] == 0,
        decreases k - j,
    {
        codes[j] = ops[i + j].command().code();
        j = j + 1;
    }
    assert forall|t: int| 0 <= t < 4 implies codes@[t] == code_at(g, t) by {}
    out.push(codes[0] | (codes[1] << 2u8) | (codes[2] << 4u8) | (codes[3] << 6u8));
    let ghost base = out@;
    let mut j: usize = 0;
    while j < k
        invariant
            j <= k <= 4,
            i + k <= ops.len(),
            g == ops@.subrange(i as int, (i + k) as int),
            forall|t: int| 0 <= t < ops@.len() ==> (#[trigger] ops@[t]).well_formed(),
            out@ == base + operands(g.take(j as int)),
        decreases k - j,
    {
        ops[i + j].write_operands(out);
        proof {
            assert(g.take(j + 1) =~= g.take(j as int) + seq![g[j as int]]);
            lemma_operands_concat(g.take(j as int), seq![g[j as int]]);
            lemma_operands_single(g[j as int]);
        }
        j = j + 1;
    }
    assert(g.take(k as int) =~= g);
}

/// The bytes of a block's commands.
fn pack(ops: &Vec<Op>) -> (r: Vec<u8>)
    requires
        forall|j: int| 0 <= j < ops@.len() ==> (#[trigger] ops@[j]).well_formed(),
    ensures
        r@ == pack_ops(ops@),
{
    let mut out: Vec<u8> = Vec::new();
    let n = ops.len();
    let mut i: usize = 0;
    let mut done = false;
    assert(ops@.skip(0) =~= ops@);
    while !done
        invariant
            n == ops@.len(),
            i <= n,
            forall|j: int| 0 <= j < ops@.len() ==> (#[trigger] ops@[j]).well_formed(),
            !done ==> out@ + pack_ops(ops@.skip(i as int)) == pack_ops(ops@),
            done ==> out@ == pack_ops(ops@),
        decreases n - i + (if done { 0int } else { 1int }),
    {
        let ghost rest = ops@.skip(i as int);
        if i == n {
            out.push(0u8);
            assert(rest.len() == 0);
            done = true;
        } else if n - i < 4 {
            write_group(ops, i, n - i, &mut out);
            assert(ops@.subrange(i as int, n as int) =~= rest);
            i = n;
            done = true;
        } else {
            write_group(ops, i, 4, &mut out);
            assert(ops@.subrange(i as int, i + 4) =~= rest.take(4));
            assert(ops@.skip(i + 4) =~= rest.skip(4));
            i = i + 4;
        }
    }
    out
}

/// The commands for `src[start..end]`.
fn block_commands(src: &[u8], start: usize, end: usize) -> (ops: Vec<Op>)
    requires
        start <= end <= src@.len(),
    ensures
        ops@ == block_ops(src@, start as int, end as int),
        forall|j: int| 0 <= j < ops@.len() ==> (#[trigger] ops@[j]).well_formed(),
{
    let mut ops: Vec<Op> = Vec::new();
    let mut p = start;
    while p < end
        invariant
            start <= p <= end <= src@.len(),
            ops@ + block_ops(src@, p as int, end as int) == block_ops(src@, start as int, end as int),
            forall|j: int| 0 <= j < ops@.len() ==> (#[trigger] ops@[j]).well_formed(),
        decreases end - p,
    {
        let op = find_op(src, p, end);
        proof {
            lemma_op_at_bounds(src@, p as int, end as int);
        }
        let len: usize = match op {
            Op::Copy(_) => 1,
            Op::Lz77 { length, .. } => length as usize,
            Op::Rle { count, .. } => count as usize,
        };
        let ghost before = ops@;
        ops.push(op);
        assert(ops@ + block_ops(src@, (p + len) as int, end as int) =~= before + block_ops(
            src@,
            p as int,
            end as int,
        ));
        p = p + len;
    }
    assert(ops@ + block_ops(src@, p as int, end as int) =~= ops@);
    ops
}


pub proof fn lemma_block_ops_len(s: Seq<u8>, p: int, end: int)
    requires
        0 <= p,
    ensures
        block_ops(s, p, end).len() <= if p < end {
            end - p
        } else {
            0
        },
    decreases end - p,
{
    if p < end {
        lemma_op_at_bounds(s, p, end);
        lemma_block_ops_len(s, p + op_at(s, p, end).spec_len(), end);
    }
}

proof fn lemma_operands_len(ops: Seq<Op>)
    ensures
        operands(ops).len() <= 2 * ops.len(),
    decreases ops.len(),
{
    if ops.len() > 0 {
        lemma_operands_len(ops.drop_first());
    }
}

pub proof fn lemma_pack_len(ops: Seq<Op>)
    ensures
        pack_ops(ops).len() <= 3 * ops.len() + 1,
    decreases ops.len(),
{
    if ops.len() == 0 {
    } else if ops.len() < 4 {
        lemma_operands_len(ops);
    } else {
        lemma_operands_len(ops.take(4));
        lemma_pack_len(ops.skip(4));
    }
}

/// Compresses `src` into a stream of blocks of at most 512 bytes each,
/// choosing each command greedily.
pub fn compress(src: &[u8]) -> (r: Result<Vec<u8>, CompressionError>)
    ensures
        src@.len() < VARINT_LIMIT ==> r is Ok && r->Ok_0@ == compressed(src@),
        src@.len() >= VARINT_LIMIT ==> r == Err::<Vec<u8>, CompressionError>(
            CompressionError::TryFromInt,
        ),
{
    let n = src.len();
    if n >= VARINT_LIMIT as usize {
        return Err(CompressionError::TryFromInt);
    }
    let nb: usize = if n == 0 {
        1
    } else {
        (n + BLOCK_SIZE - 1) / BLOCK_SIZE
    };
    assert(nb == block_count(n as nat));
    assert(nb <= n + 1) by (nonlinear_arith)
        requires
            nb == if n == 0 {
                1
            } else {
                (n + BLOCK_SIZE - 1) / BLOCK_SIZE as int
            },
    ;
    let mut out = (n as u32).encode_var();
    let header = ((nb - 1) as u32).encode_var();
    extend_bytes(&mut out, &header);
    let ghost s = src@;
    let mut b: usize = 0;
    assert(out@ + blocks_from(s, 0, nb as nat) =~= compressed(s));
    while b < nb
        invariant
            s == src@,
            n == s.len(),
            n < VARINT_LIMIT,
            nb == block_count(n as nat),
            nb <= n + 1,
            b <= nb,
            out@ + blocks_from(s, b as nat, nb as nat) == compressed(s),
        decreases nb - b,
    {
        assert(b * BLOCK_SIZE <= n) by (nonlinear_arith)
            requires
                b < nb,
                nb == if n == 0 {
                    1
                } else {
                    (n + BLOCK_SIZE - 1) / BLOCK_SIZE as int
                },
        ;
        let start = b * BLOCK_SIZE;
        let end = if start + BLOCK_SIZE < n {
            start + BLOCK_SIZE
        } else {
            n
        };
        assert(end == block_end(s, b as nat));
        let ops = block_commands(src, start, end);
        let body = pack(&ops);
        proof {
            lemma_block_ops_len(s, start as int, end as int);
            lemma_pack_len(ops@);
        }
        let size = body.len() as u16;
        out.push((size & 0xff) as u8);
        out.push((size >> 8u16) as u8);
        extend_bytes(&mut out, &body);
        proof {
            assert(body@ == pack_ops(block_ops(s, b * BLOCK_SIZE, block_end(s, b as nat))));
            assert(out@ + blocks_from(s, (b + 1) as nat, nb as nat) =~= compressed(s));
        }
        b = b + 1;
    }
    assert(out@ + blocks_from(s, b as nat, nb as nat) =~= out@);
    Ok(out)
}


/// What the best match at `p` guarantees: a distance in range, within the
/// input, and equal bytes over the whole length.
pub proof fn lemma_lz_scan_facts(s: Seq<u8>, p: int, end: int)
    requires
        0 <= p < end,
    ensures
        lz_best(s, p, end).0 <= MAX_MATCH,
        lz_best(s, p, end).0 > 0 ==> 2 <= lz_best(s, p, end).1 <= max_distance_at(p),
        lz_best(s, p, end).0 <= lz_best(s, p, end).1,
        p + lz_best(s, p, end).0 <= end,
        forall|i: int|
            0 <= i < lz_best(s, p, end).0 ==> s[p + i] == #[trigger] s[p
                - lz_best(s, p, end).1 + i],
{
    lemma_lz_scan(s, p, end, 2, max_distance_at(p));
    let (bl, bd) = lz_best(s, p, end);
    if bl > 0 {
        lemma_match_len(s, p, bd as int, end, 0);
    }
}

/// What the run at `p` guarantees: all its bytes equal the first.
pub proof fn lemma_run_len_facts(s: Seq<u8>, p: int, end: int)
    requires
        0 <= p < end,
    ensures
        1 <= run_len(s, p, end, 1) <= MAX_RUN,
        p + run_len(s, p, end, 1) <= end,
        forall|i: int| 1 <= i < run_len(s, p, end, 1) ==> #[trigger] s[p + i] == s[p],
{
    lemma_run_len(s, p, end, 1);
}

} // verus!
