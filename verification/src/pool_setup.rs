//! Where the experts' parts come from, and where they go in the pool.

use vstd::prelude::*;
use crate::config::{N_EMBD, N_EXPERT, N_FF_EXP};
use crate::text::{push_decimal, push_text};
use crate::text;

verus! {

/// A part of an expert.
#[derive(Clone, Copy, PartialEq, Eq, Structural, Debug)]
pub enum Role {
    Gate,
    Up,
    Down,
}

/// The name of a part.
pub open spec fn role_text(role: Role) -> Seq<char> {
    match role {
        Role::Gate => "gate"@,
        Role::Up => "up"@,
        Role::Down => "down"@,
    }
}

/// The name of the tensor that holds a layer's experts' parts.
pub open spec fn tensor_text(layer: nat, role: Role) -> Seq<char> {
    "blk."@ + text::decimal(layer) + ".ffn_"@ + role_text(role) + "_exps.weight"@
}

/// The name of the tensor that holds a layer's experts' parts.
pub fn tensor_name(layer: u32, role: Role) -> (r: String)
    ensures
        r@ == tensor_text(layer as nat, role),
{
    let mut s = String::new();
    push_text(&mut s, "blk.");
    push_decimal(&mut s, layer as u64);
    push_text(&mut s, ".ffn_");
    match role {
        Role::Gate => push_text(&mut s, "gate"),
        Role::Up => push_text(&mut s, "up"),
        Role::Down => push_text(&mut s, "down"),
    }
    push_text(&mut s, "_exps.weight");
    assert(s@ =~= tensor_text(layer as nat, role));
    s
}

/// Does a tensor of that many bytes hold every expert of a layer, with that many
/// bytes for each?
pub fn tensor_fits(byte_size: u64, bytes_per_expert: u64) -> (r: bool)
    ensures
        r == (byte_size == N_EXPERT * bytes_per_expert),
{
    byte_size / N_EXPERT as u64 == bytes_per_expert && byte_size % N_EXPERT as u64 == 0
}

/// Bytes of a block of an expert's weights, as they are in the pool.
pub const POOL_BLOCK_BYTES: u64 = 17;

/// A part of an expert that goes to its place in the pool.
#[derive(Clone, Copy, PartialEq, Eq, Structural, Debug)]
pub struct RepackJob {
    pub role: Role,
    pub rows: u32,
    /// Blocks of a row.
    pub blocks: u32,
    /// First byte in the pool's buffer for that part.
    pub offset: u64,
}

/// Bytes of a part.
pub open spec fn part_bytes(rows: u32, blocks: u32) -> int {
    rows * blocks * POOL_BLOCK_BYTES
}

/// Where the parts of an expert in a slot go.
pub open spec fn repack_plan(slot: u32, bytes: Seq<u64>) -> Seq<RepackJob> {
    seq![
        RepackJob {
            role: Role::Gate,
            rows: N_FF_EXP,
            blocks: N_EMBD / 32,
            offset: (slot * bytes[0]) as u64,
        },
        RepackJob {
            role: Role::Up,
            rows: N_FF_EXP,
            blocks: N_EMBD / 32,
            offset: (slot * bytes[1]) as u64,
        },
        RepackJob {
            role: Role::Down,
            rows: N_EMBD,
            blocks: N_FF_EXP / 32,
            offset: (slot * bytes[2]) as u64,
        },
    ]
}

/// Where the parts of an expert in a slot go. `bytes` are the bytes of each part.
pub fn repack_jobs(slot: u32, bytes: [u64; 3]) -> (r: Vec<RepackJob>)
    requires
        forall|i: int| 0 <= i < 3 ==> #[trigger] bytes@[i] <= u32::MAX,
    ensures
        r@ == repack_plan(slot, bytes@),
{
    let at: u64 = slot as u64;
    assert(bytes@[0] <= u32::MAX && bytes@[1] <= u32::MAX && bytes@[2] <= u32::MAX);
    let (g, u, d): (u64, u64, u64) = (bytes[0], bytes[1], bytes[2]);
    assert(at * g <= u64::MAX && at * u <= u64::MAX && at * d <= u64::MAX) by (nonlinear_arith)
        requires
            at <= u32::MAX,
            g <= u32::MAX,
            u <= u32::MAX,
            d <= u32::MAX,
    ;
    let mut v: Vec<RepackJob> = Vec::new();
    v.push(RepackJob { role: Role::Gate, rows: N_FF_EXP, blocks: N_EMBD / 32, offset: at * g });
    v.push(RepackJob { role: Role::Up, rows: N_FF_EXP, blocks: N_EMBD / 32, offset: at * u });
    v.push(RepackJob { role: Role::Down, rows: N_EMBD, blocks: N_FF_EXP / 32, offset: at * d });
    assert(v@ =~= repack_plan(slot, bytes@));
    v
}

/// The parts of an expert have the same size, though not the same shape, and a part
/// that has it fills its place up to the next slot's.
pub proof fn a_part_fills_its_slot(slot: u32, bytes: Seq<u64>, i: int)
    requires
        slot < u32::MAX,
        bytes.len() == 3,
        forall|k: int|
            0 <= k < 3 ==> bytes[k] == part_bytes(
                #[trigger] repack_plan(slot, bytes)[k].rows,
                repack_plan(slot, bytes)[k].blocks,
            ),
        0 <= i < 3,
    ensures
        bytes[i] == bytes[0],
        repack_plan(slot, bytes)[i].offset + bytes[i] == repack_plan(
            (slot + 1) as u32,
            bytes,
        )[i].offset,
{
    let p = repack_plan(slot, bytes);
    assert(bytes[0] == part_bytes(p[0].rows, p[0].blocks));
    assert(bytes[1] == part_bytes(p[1].rows, p[1].blocks));
    assert(bytes[2] == part_bytes(p[2].rows, p[2].blocks));
    assert(2304 * 160 * 17 == 6266880 && 5120 * 72 * 17 == 6266880);
    assert(N_EMBD / 32 == 160 && N_FF_EXP / 32 == 72);
    assert((slot + 1) * 6266880 == slot * 6266880 + 6266880) by (nonlinear_arith);
}

} // verus!
