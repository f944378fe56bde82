//! Properties of the codec as a whole, proved over its specification.
use vstd::prelude::*;
use crate::compression::{
    BLOCK_SIZE, DecompressionError, MAX_BLOCK_COMMANDS, Op, block_bytes, block_count, block_end,
    block_ops, blocks_from, compressed, decode_blocks, decode_group, decode_op, decode_slot,
    decompressed, group_byte, group_code, code_at, le_u16_bytes, lemma_lz_scan_facts,
    lemma_op_at_bounds, lemma_run_len_facts, lz_append, lz_best, lz_distance, lz_length, op_at,
    operands, pack_ops, rle_append, run_len, lemma_block_ops_len, lemma_pack_len,
};
use crate::misc::{VARINT_LIMIT, le_u16_at, lemma_varint_round_trip, varint_at, varint_bytes};

verus! {

/// `bytes` stands in `inp` from `q` on.
pub open spec fn bytes_at(inp: Seq<u8>, q: int, bytes: Seq<u8>) -> bool {
    0 <= q && q + bytes.len() <= inp.len() && forall|i: int|
        0 <= i < bytes.len() ==> inp[q + i] == #[trigger] bytes[i]
}

/// The output after running `ops` in order on `out`.
pub open spec fn run_ops(out: Seq<u8>, ops: Seq<Op>) -> Seq<u8>
    decreases ops.len(),
{
    if ops.len() == 0 {
        out
    } else {
        run_ops(ops[0].apply(out), ops.drop_first())
    }
}

/// Every command of `ops` is well formed, and each Lz77 command reaches no
/// farther back than the output it runs on.
pub open spec fn runs_ok(out: Seq<u8>, ops: Seq<Op>) -> bool
    decreases ops.len(),
{
    ops.len() == 0 || (ops[0].well_formed() && (ops[0] is Lz77 ==> ops[0]->distance <= out.len())
        && runs_ok(ops[0].apply(out), ops.drop_first()))
}

proof fn lemma_bytes_at_split(inp: Seq<u8>, q: int, a: Seq<u8>, b: Seq<u8>)
    requires
        bytes_at(inp, q, a + b),
    ensures
        bytes_at(inp, q, a),
        bytes_at(inp, q + a.len(), b),
{
    assert forall|i: int| 0 <= i < a.len() implies inp[q + i] == #[trigger] a[i] by {
        assert((a + b)[i] == a[i]);
    }
    assert forall|i: int| 0 <= i < b.len() implies inp[q + a.len() + i] == #[trigger] b[i] by {
        assert((a + b)[a.len() + i] == b[i]);
        assert(q + a.len() + i == q + (a.len() + i));
    }
}

proof fn lemma_run_ops_concat(out: Seq<u8>, a: Seq<Op>, b: Seq<Op>)
    ensures
        run_ops(out, a + b) == run_ops(run_ops(out, a), b),
        runs_ok(out, a + b) == (runs_ok(out, a) && runs_ok(run_ops(out, a), b)),
    decreases a.len(),
{
    if a.len() == 0 {
        assert(a + b =~= b);
    } else {
        assert((a + b).drop_first() =~= a.drop_first() + b);
        assert((a + b)[0] == a[0]);
        lemma_run_ops_concat(a[0].apply(out), a.drop_first(), b);
    }
}

proof fn lemma_lz_append_matches(s: Seq<u8>, d: int, q: int, e: int)
    requires
        1 <= d <= q <= e <= s.len(),
        forall|i: int| q <= i < e ==> #[trigger] s[i] == s[i - d],
    ensures
        lz_append(s.take(q), d as nat, (e - q) as nat) == s.take(e),
    decreases e - q,
{
    if q < e {
        let t = s.take(q);
        assert(t[t.len() - d] == s[q - d]);
        assert(t.push(t[t.len() - d]) =~= s.take(q + 1));
        lemma_lz_append_matches(s, d, q + 1, e);
    } else {
        assert(s.take(q) =~= s.take(e));
    }
}

/// Running the encoder's command at `p` on the input before `p` gives the
/// input up to the end of what the command covers.
proof fn lemma_op_at_apply(s: Seq<u8>, p: int, end: int)
    requires
        0 <= p < end <= s.len(),
    ensures
        op_at(s, p, end).apply(s.take(p)) == s.take(p + op_at(s, p, end).spec_len()),
{
    lemma_op_at_bounds(s, p, end);
    let op = op_at(s, p, end);
    let (bl, bd) = lz_best(s, p, end);
    let rc = run_len(s, p, end, 1);
    match op {
        Op::Copy(b) => {
            assert(s.take(p).push(s[p]) =~= s.take(p + 1));
        },
        Op::Lz77 { distance, length } => {
            lemma_lz_scan_facts(s, p, end);
            let d = bd as int;
            assert forall|i: int| p <= i < p + bl implies #[trigger] s[i] == s[i - d] by {
                assert(s[p + (i - p)] == s[p - d + (i - p)]);
            }
            lemma_lz_append_matches(s, d, p, p + bl);
        },
        Op::Rle { count, value } => {
            lemma_run_len_facts(s, p, end);
            assert(rle_append(s.take(p), s[p], rc) =~= s.take(p + rc)) by {
                assert forall|i: int| p <= i < p + rc implies #[trigger] s[i] == s[p] by {
                    if i > p {
                        assert(s[p + (i - p)] == s[p]);
                    }
                }
            }
        },
    }
}

/// The encoder's commands for `s[p..end]`, run on the input before `p`,
/// give the input up to `end`, each reaching only into what exists.
proof fn lemma_block_ops_run(s: Seq<u8>, p: int, end: int)
    requires
        0 <= p <= end <= s.len(),
    ensures
        runs_ok(s.take(p), block_ops(s, p, end)),
        run_ops(s.take(p), block_ops(s, p, end)) == s.take(end),
    decreases end - p,
{
    if p < end {
        lemma_op_at_bounds(s, p, end);
        lemma_op_at_apply(s, p, end);
        let op = op_at(s, p, end);
        let ops = block_ops(s, p, end);
        assert(ops[0] == op);
        assert(ops.drop_first() =~= block_ops(s, p + op.spec_len(), end));
        lemma_block_ops_run(s, p + op.spec_len(), end);
    } else {
        assert(s.take(p) =~= s.take(end));
    }
}


proof fn lemma_group_bits(a: u8, b: u8, c: u8, d: u8)
    by (bit_vector)
    requires
        a <= 3,
        b <= 3,
        c <= 3,
        d <= 3,
    ensures
        ((a | (b << 2u8) | (c << 4u8) | (d << 6u8)) >> 0u8) & 3u8 == a,
        ((a | (b << 2u8) | (c << 4u8) | (d << 6u8)) >> 2u8) & 3u8 == b,
        ((a | (b << 2u8) | (c << 4u8) | (d << 6u8)) >> 4u8) & 3u8 == c,
        ((a | (b << 2u8) | (c << 4u8) | (d << 6u8)) >> 6u8) & 3u8 == d,
{
}

proof fn lemma_lz_operand_bits(distance: u16, length: u8)
    by (bit_vector)
    requires
        2 <= distance <= 0xfff,
        2 <= length <= 17,
    ensures
        (((distance & 0xff) as u8) as u16) | (((((((length - 2) as u8) | (((distance & 0xf00)
            >> 4u16) as u8)) & 0xf0u8) as u16) << 4u16)) == distance,
        ((((length - 2) as u8) | (((distance & 0xf00) >> 4u16) as u8)) & 0x0fu8) + 2 == length,
{
}

proof fn lemma_le_u16_bits(v: u16)
    by (bit_vector)
    ensures
        ((((v & 0xff) as u8) as u16) | ((((v >> 8u16) as u8) as u16) << 8u16)) == v,
{
}

/// The code that slot `slot + j` of a group reads is that of command `j`.
proof fn lemma_group_code(gops: Seq<Op>, slot: nat, j: int)
    requires
        slot % 4 == 0,
        0 <= j < 4,
    ensures
        group_code(group_byte(gops), (slot + j) as nat) == code_at(gops, j),
        code_at(gops, j) <= 3,
{
    assert((slot + j) % 4 == j);
    assert forall|t: int| 0 <= t < 4 implies code_at(gops, t) <= 3 by {}
    lemma_group_bits(code_at(gops, 0), code_at(gops, 1), code_at(gops, 2), code_at(gops, 3));
}

/// One well-formed command's operands decode to the command.
proof fn lemma_decode_op(inp: Seq<u8>, q: nat, o: Op, out: Seq<u8>)
    requires
        bytes_at(inp, q as int, o.operand_bytes()),
        o.well_formed(),
        o is Lz77 ==> o->distance <= out.len(),
    ensures
        decode_op(inp, q, o.spec_command().spec_code(), out) == Ok::<
            (nat, Seq<u8>),
            DecompressionError,
        >(((q + o.operand_bytes().len()) as nat, o.apply(out))),
{
    let ob = o.operand_bytes();
    assert(inp[q as int + 0] == ob[0]);
    match o {
        Op::Copy(b) => {},
        Op::Lz77 { distance, length } => {
            assert(inp[q as int + 1] == ob[1]);
            lemma_lz_operand_bits(distance, length);
        },
        Op::Rle { count, value } => {
            assert(inp[q as int + 1] == ob[1]);
        },
    }
}


proof fn lemma_zero_code(x: u8)
    by (bit_vector)
    ensures
        (0u8 >> x) & 3u8 == 0u8,
{
}

/// Decoding the commands of one group, from its command `j` on.
proof fn lemma_decode_in_group(
    inp: Seq<u8>,
    q: nat,
    gops: Seq<Op>,
    j: int,
    slot: nat,
    o: Seq<u8>,
)
    requires
        1 <= gops.len() <= 4,
        0 <= j <= gops.len(),
        j < 4,
        slot % 4 == 0,
        slot + 4 <= MAX_BLOCK_COMMANDS,
        bytes_at(inp, q as int, operands(gops.skip(j))),
        runs_ok(o, gops.skip(j)),
    ensures
        decode_slot(inp, q, group_byte(gops), (slot + j) as nat, o) == if gops.len() < 4 {
            Ok::<(nat, Seq<u8>), DecompressionError>(
                ((q + operands(gops.skip(j)).len()) as nat, run_ops(o, gops.skip(j))),
            )
        } else {
            decode_group(
                inp,
                (q + operands(gops.skip(j)).len()) as nat,
                slot + 4,
                run_ops(o, gops.skip(j)),
            )
        },
    decreases gops.len() - j,
{
    let g = group_byte(gops);
    let r = gops.skip(j);
    lemma_group_code(gops, slot, j);
    if j == gops.len() {
        assert(r.len() == 0);
    } else {
        let op = gops[j];
        assert(r[0] == op);
        assert(r.drop_first() =~= gops.skip(j + 1));
        lemma_bytes_at_split(inp, q as int, op.operand_bytes(), operands(gops.skip(j + 1)));
        lemma_decode_op(inp, q, op, o);
        let q1 = (q + op.operand_bytes().len()) as nat;
        let o1 = op.apply(o);
        assert(op.spec_command().spec_code() != 0);
        if j == 3 {
            assert(gops.skip(4).len() == 0);
            assert((slot + j + 1) % 4 == 0);
        } else {
            assert((slot + j + 1) % 4 != 0);
            lemma_decode_in_group(inp, q1, gops, j + 1, slot, o1);
            assert((slot + j + 1) as nat == (slot + (j + 1)) as nat);
        }
    }
}

/// Decoding packed commands from a group boundary gives what running them
/// gives, and stops right after them.
proof fn lemma_decode_pack(inp: Seq<u8>, pos: nat, ops: Seq<Op>, slot: nat, out: Seq<u8>)
    requires
        slot % 4 == 0,
        slot + ops.len() < MAX_BLOCK_COMMANDS,
        bytes_at(inp, pos as int, pack_ops(ops)),
        runs_ok(out, ops),
    ensures
        decode_group(inp, pos, slot, out) == Ok::<(nat, Seq<u8>), DecompressionError>(
            ((pos + pack_ops(ops).len()) as nat, run_ops(out, ops)),
        ),
    decreases ops.len(),
{
    let pk = pack_ops(ops);
    assert(inp[pos as int + 0] == pk[0]);
    if ops.len() == 0 {
        lemma_zero_code(((2 * (slot % 4)) as u8));
    } else {
        let gops = if ops.len() < 4 {
            ops
        } else {
            ops.take(4)
        };
        let g = group_byte(gops);
        assert(gops.skip(0) =~= gops);
        if ops.len() < 4 {
            lemma_bytes_at_split(inp, pos as int, seq![g], operands(gops));
            lemma_decode_in_group(inp, (pos + 1) as nat, gops, 0, slot, out);
        } else {
            let tail = ops.skip(4);
            assert(ops =~= gops + tail);
            lemma_run_ops_concat(out, gops, tail);
            lemma_bytes_at_split(inp, pos as int, seq![g] + operands(gops), pack_ops(tail));
            lemma_bytes_at_split(inp, pos as int, seq![g], operands(gops));
            lemma_decode_in_group(inp, (pos + 1) as nat, gops, 0, slot, out);
            lemma_decode_pack(
                inp,
                (pos + 1 + operands(gops).len()) as nat,
                tail,
                slot + 4,
                run_ops(out, gops),
            );
        }
    }
}


proof fn lemma_block_index(n: nat, b: nat)
    requires
        b < block_count(n),
    ensures
        b * BLOCK_SIZE <= n,
        n > 0 ==> b * BLOCK_SIZE < n,
        b + 1 < block_count(n) ==> (b + 1) * BLOCK_SIZE < n,
        b + 1 == block_count(n) ==> (b + 1) * BLOCK_SIZE >= n,
        block_count(n) <= n + 1,
{
    if n > 0 {
        let nb = block_count(n);
        assert(nb == (n + 511) / 512);
        assert(b * 512 < n && (b + 1 < nb ==> (b + 1) * 512 < n) && (b + 1 == nb ==> (b + 1)
            * 512 >= n) && nb <= n + 1) by (nonlinear_arith)
            requires
                nb == (n + 511) / 512,
                b < nb,
                n > 0,
        ;
    }
}

/// Decoding the blocks from block `b` on, each written by the encoder.
#[verifier::rlimit(30)]
proof fn lemma_decode_blocks(s: Seq<u8>, inp: Seq<u8>, pos: nat, b: nat, strict: bool)
    requires
        b < block_count(s.len()),
        bytes_at(inp, pos as int, blocks_from(s, b, block_count(s.len()))),
    ensures
        decode_blocks(
            inp,
            pos,
            s.take(b * BLOCK_SIZE),
            (block_count(s.len()) - b) as nat,
            strict,
        ) == Ok::<(nat, Seq<u8>), DecompressionError>(
            ((pos + blocks_from(s, b, block_count(s.len())).len()) as nat, s),
        ),
    decreases block_count(s.len()) - b,
{
    let n = s.len();
    let nb = block_count(n);
    lemma_block_index(n, b);
    let start = b * BLOCK_SIZE;
    let end = block_end(s, b);
    let ops = block_ops(s, start as int, end);
    let body = pack_ops(ops);
    lemma_block_ops_len(s, start as int, end);
    lemma_pack_len(ops);
    let prefix = le_u16_bytes(body.len() as u16);
    let rest = blocks_from(s, b + 1, nb);
    assert(blocks_from(s, b, nb) == prefix + body + rest);
    lemma_bytes_at_split(inp, pos as int, prefix + body, rest);
    lemma_bytes_at_split(inp, pos as int, prefix, body);
    assert(inp[pos as int + 0] == prefix[0]);
    assert(inp[pos as int + 1] == prefix[1]);
    lemma_le_u16_bits(body.len() as u16);
    assert(le_u16_at(inp, pos as int) == body.len());
    lemma_block_ops_run(s, start as int, end);
    let out0 = s.take(start as int);
    lemma_decode_pack(inp, (pos + 2) as nat, ops, 0, out0);
    let p = (pos + 2 + body.len()) as nat;
    let left = (nb - b) as nat;
    assert(decode_group(inp, (pos + 2) as nat, 0, out0) == Ok::<
        (nat, Seq<u8>),
        DecompressionError,
    >((p, s.take(end))));
    assert(p - (pos + 2) == le_u16_at(inp, pos as int));
    assert(decode_blocks(inp, pos, out0, left, strict) == decode_blocks(
        inp,
        p,
        s.take(end),
        (left - 1) as nat,
        strict,
    ));
    assert(blocks_from(s, b, nb).len() == 2 + body.len() + rest.len());
    if b + 1 == nb {
        assert(s.take(end) =~= s);
        assert(rest.len() == 0);
        assert(decode_blocks(inp, p, s.take(end), 0, strict) == Ok::<
            (nat, Seq<u8>),
            DecompressionError,
        >((p, s.take(end))));
    } else {
        assert(end == (b + 1) * BLOCK_SIZE);
        lemma_decode_blocks(s, inp, p, b + 1, strict);
        assert((left - 1) as nat == (nb - (b + 1)) as nat);
        assert(p + rest.len() == pos + blocks_from(s, b, nb).len());
    }
}

/// Whatever `compress` produces, `decompress` turns back into the input,
/// with or without the strict size checks.
pub proof fn lemma_round_trip(s: Seq<u8>, strict: bool)
    requires
        s.len() < VARINT_LIMIT,
    ensures
        decompressed(compressed(s), strict) == Ok::<Seq<u8>, DecompressionError>(s),
{
    let n = s.len();
    let nb = block_count(n);
    lemma_block_index(n, 0);
    let v1 = varint_bytes(n as u32);
    let v2 = varint_bytes((nb - 1) as u32);
    let blocks = blocks_from(s, 0, nb);
    let c = compressed(s);
    assert(c =~= Seq::<u8>::empty() + v1 + (v2 + blocks));
    lemma_varint_round_trip(n as u32, Seq::<u8>::empty(), v2 + blocks);
    assert(c =~= v1 + v2 + blocks);
    lemma_varint_round_trip((nb - 1) as u32, v1, blocks);
    let p2 = v1.len() + v2.len();
    assert forall|i: int| 0 <= i < blocks.len() implies c[p2 + i] == #[trigger] blocks[i] by {}
    lemma_decode_blocks(s, c, p2 as nat, 0, strict);
    assert(s.take(0) =~= Seq::<u8>::empty());
    assert(((nb - 1) as u32 + 1) as nat == nb);
}

/// Decoding what the encoder wrote and encoding the result again gives the
/// same bytes.
pub proof fn lemma_reencode_same_bytes(s: Seq<u8>, strict: bool)
    requires
        s.len() < VARINT_LIMIT,
    ensures
        decompressed(compressed(s), strict) is Ok,
        compressed(decompressed(compressed(s), strict)->Ok_0) == compressed(s),
{
    lemma_round_trip(s, strict);
}

/// A group byte of zero ends the block at once: nothing is written and
/// decoding goes on right after that byte.
pub proof fn lemma_zero_group_ends_block(inp: Seq<u8>, pos: nat, out: Seq<u8>)
    requires
        pos < inp.len(),
        inp[pos as int] == 0,
    ensures
        decode_group(inp, pos, 0, out) == Ok::<(nat, Seq<u8>), DecompressionError>(
            ((pos + 1) as nat, out),
        ),
{
    lemma_zero_code(0u8);
}

/// Every command the encoder emits is within the format's ranges: an Lz77
/// distance between 2 and 4095 and a length between 2 and 17, an Rle count
/// between 2 and 257.
pub proof fn lemma_emitted_ops_in_range(s: Seq<u8>, p: int, end: int)
    requires
        0 <= p <= end <= s.len(),
    ensures
        forall|j: int|
            0 <= j < block_ops(s, p, end).len() ==> (#[trigger] block_ops(s, p, end)[j]).well_formed(),
{
    lemma_block_ops_run(s, p, end);
    lemma_runs_ok_well_formed(s.take(p), block_ops(s, p, end));
}

proof fn lemma_runs_ok_well_formed(out: Seq<u8>, ops: Seq<Op>)
    requires
        runs_ok(out, ops),
    ensures
        forall|j: int| 0 <= j < ops.len() ==> (#[trigger] ops[j]).well_formed(),
    decreases ops.len(),
{
    if ops.len() > 0 {
        lemma_runs_ok_well_formed(ops[0].apply(out), ops.drop_first());
        assert forall|j: int| 0 <= j < ops.len() implies (#[trigger] ops[j]).well_formed() by {
            if j > 0 {
                assert(ops[j] == ops.drop_first()[j - 1]);
            }
        }
    }
}

/// Every block but the last covers 512 input bytes; the last covers the
/// rest, at least one byte unless the input is empty.
pub proof fn lemma_block_coverage(s: Seq<u8>, b: nat)
    requires
        b < block_count(s.len()),
    ensures
        b + 1 < block_count(s.len()) ==> block_end(s, b) - b * BLOCK_SIZE == BLOCK_SIZE,
        b + 1 == block_count(s.len()) ==> block_end(s, b) == s.len() && (s.len() > 0
            ==> 1 <= block_end(s, b) - b * BLOCK_SIZE <= BLOCK_SIZE),
{
    lemma_block_index(s.len(), b);
}

/// A block whose last group is full is followed by an explicit zero byte
/// that ends it.
pub proof fn lemma_full_group_end_marker(ops: Seq<Op>)
    requires
        ops.len() % 4 == 0,
    ensures
        pack_ops(ops).len() >= 1,
        pack_ops(ops).last() == 0,
    decreases ops.len(),
{
    if ops.len() >= 4 {
        lemma_full_group_end_marker(ops.skip(4));
    }
}


proof fn lemma_mod_step(j: int, d: int)
    requires
        0 <= j,
        1 <= d,
    ensures
        j % d < d - 1 ==> (j + 1) % d == j % d + 1,
        j % d == d - 1 ==> (j + 1) % d == 0,
        0 <= j % d < d,
{
    vstd::arithmetic::div_mod::lemma_mod_bound(j, d);
    vstd::arithmetic::div_mod::lemma_mod_bound(j + 1, d);
    if d > 1 {
        vstd::arithmetic::div_mod::lemma_add_mod_noop(j, 1, d);
        vstd::arithmetic::div_mod::lemma_small_mod(1, d as nat);
        if j % d < d - 1 {
            vstd::arithmetic::div_mod::lemma_small_mod((j % d + 1) as nat, d as nat);
        } else {
            vstd::arithmetic::div_mod::lemma_mod_self_0(d);
        }
    }
}

/// A back-reference may overlap what it writes: byte `i` of what it appends
/// is byte `i mod distance` of the last `distance` bytes before it.
pub proof fn lemma_overlapping_copy(out: Seq<u8>, distance: nat, length: nat)
    requires
        1 <= distance <= out.len(),
    ensures
        lz_append(out, distance, length) == out + Seq::new(
            length,
            |i: int| out[out.len() - distance + i % (distance as int)],
        ),
    decreases length,
{
    let d = distance as int;
    let l = out.len() as int;
    let a = out + Seq::new(length, |i: int| out[l - d + i % d]);
    if length == 0 {
        assert(a =~= out);
    } else {
        let next = out.push(out[l - d]);
        lemma_overlapping_copy(next, distance, (length - 1) as nat);
        let b = next + Seq::new((length - 1) as nat, |i: int| next[l + 1 - d + i % d]);
        assert forall|k: int| 0 <= k < a.len() implies a[k] == b[k] by {
            if k == l {
                vstd::arithmetic::div_mod::lemma_small_mod(0, d as nat);
            } else if k > l {
                let j = k - l - 1;
                lemma_mod_step(j, d);
                assert(a[k] == out[l - d + (j + 1) % d]);
                assert(b[k] == next[l + 1 - d + j % d]);
            }
        }
        assert(a =~= b);
    }
}

/// Copying ten bytes from three back after `[1, 2, 3]` repeats them.
pub proof fn lemma_overlap_example(out: Seq<u8>)
    requires
        out.len() >= 3,
        out.subrange(out.len() - 3, out.len() as int) == seq![1u8, 2, 3],
    ensures
        lz_append(out, 3, 10) == out + seq![1u8, 2, 3, 1, 2, 3, 1, 2, 3, 1],
{
    lemma_overlapping_copy(out, 3, 10);
    let l = out.len() as int;
    assert(out[l - 3] == 1 && out[l - 2] == 2 && out[l - 1] == 3) by {
        assert(out.subrange(l - 3, l)[0] == out[l - 3]);
        assert(out.subrange(l - 3, l)[1] == out[l - 2]);
        assert(out.subrange(l - 3, l)[2] == out[l - 1]);
    }
    assert(Seq::new(10, |i: int| out[l - 3 + i % 3]) =~= seq![1u8, 2, 3, 1, 2, 3, 1, 2, 3, 1]);
}

} // verus!
