//! Mathematical model of the CTR engine.
//!
//! The driver's contracts are stated over [`EngineState`], an abstract image
//! of the driver: the 48-byte shared hardware buffer, the two caller buffers
//! held while a request is in flight, the keystream accumulator, and the
//! request cursor. The spec functions here describe one step of the
//! interrupt-driven protocol; the lemmas state the driver-wide laws (what the
//! whole keystream looks like, how far the counter has advanced, and that
//! combining with the same keystream twice restores the original bytes).

use vstd::prelude::*;
use vstd::arithmetic::div_mod::*;
use vstd::arithmetic::mul::*;
use vstd::arithmetic::power2::*;

verus! {

/// Bytes in one hardware block (the AES-128 block size).
pub const AES128_BLOCK_SIZE: usize = 16;
/// Bytes in an AES-128 key.
pub const AES128_KEY_SIZE: usize = 16;
/// First byte of the key field in the shared hardware buffer.
pub const KEY_START: usize = 0;
/// First byte of the counter field in the shared hardware buffer.
pub const PLAINTEXT_START: usize = 16;
/// One past the last byte of the counter field; the hardware writes its
/// keystream output starting here.
pub const PLAINTEXT_END: usize = 32;
/// Total size of the shared hardware buffer.
pub const ECB_DATA_SIZE: usize = 48;
/// Longest span, in bytes, that a single request may cover.
pub const MAX_LENGTH: usize = 128;

/// Abstract state of the CTR engine.
pub struct EngineState {
    /// The 48-byte buffer shared with the hardware: key, counter-in,
    /// keystream-out, at fixed offsets.
    pub ecb: Seq<u8>,
    /// The caller's source buffer, held while a request is in flight.
    pub input: Option<Seq<u8>>,
    /// The caller's destination buffer, held while a request is in flight.
    pub output: Option<Seq<u8>>,
    /// Keystream accumulator, always `MAX_LENGTH` bytes.
    pub keystream: Seq<u8>,
    /// How many keystream bytes have been generated for the request so far.
    pub current_idx: nat,
    /// First byte of the destination span.
    pub start_idx: nat,
    /// One past the last byte of the destination span.
    pub end_idx: nat,
    /// Whether the hardware completion interrupt is armed.
    pub interrupts_enabled: bool,
}

/// The key field of the shared buffer.
pub open spec fn key_of(v: EngineState) -> Seq<u8> {
    v.ecb.subrange(KEY_START as int, PLAINTEXT_START as int)
}

/// The counter field of the shared buffer.
pub open spec fn counter_of(v: EngineState) -> Seq<u8> {
    v.ecb.subrange(PLAINTEXT_START as int, PLAINTEXT_END as int)
}

/// Well-formedness of the engine: fixed buffer sizes, a valid span, and
/// caller buffers long enough for the span they were accepted with.
pub open spec fn wf(v: EngineState) -> bool {
    &&& v.ecb.len() == ECB_DATA_SIZE
    &&& v.keystream.len() == MAX_LENGTH
    &&& v.start_idx <= v.end_idx
    &&& v.end_idx <= MAX_LENGTH
    &&& (v.input is Some <==> v.output is Some)
    &&& (v.output is Some ==> v.output.unwrap().len() >= v.end_idx)
    &&& (v.input is Some ==> v.input.unwrap().len() >= v.end_idx - v.start_idx)
}

/// The engine as built: everything zeroed, no request in flight.
pub open spec fn init_state() -> EngineState {
    EngineState {
        ecb: Seq::new(ECB_DATA_SIZE as nat, |i: int| 0u8),
        input: None,
        output: None,
        keystream: Seq::new(MAX_LENGTH as nat, |i: int| 0u8),
        current_idx: 0,
        start_idx: 0,
        end_idx: 0,
        interrupts_enabled: false,
    }
}

/// `s` with the bytes at `[at, at + val.len())` replaced by `val`.
pub open spec fn write_seq(s: Seq<u8>, at: int, val: Seq<u8>) -> Seq<u8> {
    Seq::new(s.len(), |i: int| if at <= i < at + val.len() { val[i - at] } else { s[i] })
}

/// Big-endian increment of a byte string: the last byte goes up by one; a
/// byte that wraps to zero carries into the next more significant byte.
pub open spec fn be_inc(s: Seq<u8>) -> Seq<u8>
    decreases s.len(),
{
    if s.len() == 0 {
        s
    } else if s.last() == 255 {
        be_inc(s.drop_last()).push(0)
    } else {
        s.update(s.len() - 1, (s.last() + 1) as u8)
    }
}

/// The value of a byte string read as a big-endian unsigned integer.
pub open spec fn be_val(s: Seq<u8>) -> nat
    decreases s.len(),
{
    if s.len() == 0 {
        0
    } else {
        be_val(s.drop_last()) * 256 + (s.last() as nat)
    }
}

/// Incrementing keeps the length.
pub proof fn lemma_be_inc_len(s: Seq<u8>)
    ensures
        be_inc(s).len() == s.len(),
    decreases s.len(),
{
    if s.len() > 0 && s.last() == 255 {
        lemma_be_inc_len(s.drop_last());
    }
}

/// A string of `n` bytes holds a value below `2^(8n)`.
pub proof fn lemma_be_val_bound(s: Seq<u8>)
    ensures
        be_val(s) < pow2(8 * s.len()),
    decreases s.len(),
{
    if s.len() == 0 {
        lemma2_to64();
    } else {
        let d = s.drop_last();
        lemma_be_val_bound(d);
        lemma_pow2_adds(8 * d.len(), 8);
        lemma2_to64();
        lemma_mul_inequality(be_val(d) as int, pow2(8 * d.len()) as int - 1, 256);
    }
}

/// The big-endian increment adds one to the value, modulo `2^(8n)`.
pub proof fn lemma_be_inc_val(s: Seq<u8>)
    ensures
        be_val(be_inc(s)) == ((be_val(s) + 1) as int) % (pow2(8 * s.len()) as int),
    decreases s.len(),
{
    lemma_pow2_pos(8 * s.len());
    if s.len() == 0 {
        lemma2_to64();
    } else if s.last() == 255 {
        let d = s.drop_last();
        let t = be_inc(d).push(0);
        let m = pow2(8 * d.len()) as int;
        let vd = be_val(d) as int;
        lemma_be_inc_len(d);
        assert(t.drop_last() =~= be_inc(d));
        lemma_be_inc_val(d);
        lemma_pow2_adds(8 * d.len(), 8);
        lemma2_to64();
        lemma_pow2_pos(8 * d.len());
        lemma_truncate_middle(vd + 1, 256, m);
        assert(be_val(t) == be_val(be_inc(d)) * 256);
        assert(be_val(s) as int == vd * 256 + 255);
    } else {
        let d = s.drop_last();
        let t = s.update(s.len() - 1, (s.last() + 1) as u8);
        assert(t.drop_last() =~= d);
        assert(t.last() == s.last() + 1);
        assert(be_val(t) == be_val(s) + 1);
        lemma_be_val_bound(d);
        lemma_pow2_adds(8 * d.len(), 8);
        lemma2_to64();
        lemma_mul_inequality(be_val(d) as int, pow2(8 * d.len()) as int - 1, 256);
        lemma_small_mod((be_val(s) + 1) as nat, pow2(8 * s.len()));
    }
}

/// A string of all-255 bytes wraps around to all zeros.
pub proof fn lemma_be_inc_all_wrap(s: Seq<u8>)
    requires
        forall|j: int| 0 <= j < s.len() ==> s[j] == 255,
    ensures
        be_inc(s) == Seq::new(s.len(), |j: int| 0u8),
    decreases s.len(),
{
    if s.len() == 0 {
        assert(be_inc(s) =~= Seq::new(s.len(), |j: int| 0u8));
    } else {
        lemma_be_inc_all_wrap(s.drop_last());
        assert(be_inc(s) =~= Seq::new(s.len(), |j: int| 0u8));
    }
}

/// When byte `k` does not wrap and every byte after it does, the increment
/// leaves the bytes before `k` alone, raises byte `k` by one, and zeroes the
/// rest.
pub proof fn lemma_be_inc_partial(s: Seq<u8>, k: int)
    requires
        0 <= k < s.len(),
        s[k] != 255,
        forall|j: int| k < j < s.len() ==> s[j] == 255,
    ensures
        be_inc(s) == Seq::new(
            s.len(),
            |j: int|
                if j < k {
                    s[j]
                } else if j == k {
                    (s[j] + 1) as u8
                } else {
                    0u8
                },
        ),
    decreases s.len(),
{
    let t = Seq::new(
        s.len(),
        |j: int|
            if j < k {
                s[j]
            } else if j == k {
                (s[j] + 1) as u8
            } else {
                0u8
            },
    );
    if k == s.len() - 1 {
        assert(be_inc(s) =~= t);
    } else {
        let d = s.drop_last();
        lemma_be_inc_partial(d, k);
        assert(be_inc(s) =~= t);
    }
}

/// How many keystream bytes a completed block contributes: a full block, or
/// the remainder of the span, or nothing once the cursor has reached the end.
pub open spec fn take_of(v: EngineState) -> nat {
    if v.current_idx > v.end_idx {
        0
    } else if v.end_idx - v.current_idx > AES128_BLOCK_SIZE {
        AES128_BLOCK_SIZE as nat
    } else {
        (v.end_idx - v.current_idx) as nat
    }
}

/// The keystream-generation part of one completed block operation: the
/// hardware's output lands in the shared buffer's output field; if bytes are
/// still owed, they move into the accumulator at the cursor, the cursor
/// advances, and the counter field is incremented in place.
pub open spec fn gen_step(v: EngineState, block: Seq<u8>) -> EngineState {
    let hw = EngineState { ecb: write_seq(v.ecb, PLAINTEXT_END as int, block), ..v };
    let t = take_of(hw);
    if t > 0 {
        EngineState {
            ecb: write_seq(hw.ecb, PLAINTEXT_START as int, be_inc(counter_of(hw))),
            keystream: write_seq(hw.keystream, hw.current_idx as int, block.take(t as int)),
            current_idx: hw.current_idx + t,
            ..hw
        }
    } else {
        hw
    }
}

/// One full interrupt: the generation step, then either another block
/// operation (interrupts re-armed), or completion (the caller's buffers
/// leave the engine), or nothing when no request is in flight.
pub open spec fn interrupt_transition(v: EngineState, block: Seq<u8>) -> EngineState {
    let g = gen_step(v, block);
    if g.current_idx < g.end_idx {
        EngineState { interrupts_enabled: true, ..g }
    } else if g.input is Some && g.output is Some {
        EngineState { input: None, output: None, interrupts_enabled: false, ..g }
    } else {
        EngineState { interrupts_enabled: false, ..g }
    }
}

/// The destination buffer after the combine step: each byte of the span
/// `[start, end)` is the XOR of a keystream byte and a source byte, counted
/// from the beginning of each; bytes outside the span keep their old value.
pub open spec fn combine_bytes(
    out: Seq<u8>,
    src: Seq<u8>,
    ks: Seq<u8>,
    start: int,
    end: int,
) -> Seq<u8> {
    Seq::new(
        out.len(),
        |i: int| if start <= i < end { (ks[i - start] ^ src[i - start]) as u8 } else { out[i] },
    )
}

/// The engine right after a request `(src, dst, start, end)` was accepted:
/// both buffers held, the cursor reset, the first block operation issued with
/// interrupts armed.
pub open spec fn accepted_state(
    v: EngineState,
    src: Seq<u8>,
    dst: Seq<u8>,
    start: nat,
    end: nat,
) -> EngineState {
    EngineState {
        input: Some(src),
        output: Some(dst),
        current_idx: 0,
        start_idx: start,
        end_idx: end,
        interrupts_enabled: true,
        ..v
    }
}

/// The engine state after a sequence of completed block operations, each
/// handing over one 16-byte hardware output.
pub open spec fn run_steps(v: EngineState, blocks: Seq<Seq<u8>>) -> EngineState
    decreases blocks.len(),
{
    if blocks.len() == 0 {
        v
    } else {
        run_steps(interrupt_transition(v, blocks[0]), blocks.skip(1))
    }
}

/// How many block operations a span of `len` bytes needs.
pub open spec fn num_blocks(len: int) -> int {
    (len + 15) / 16
}

/// Facts about how many block operations a span needs.
proof fn lemma_num_blocks(rem: int)
    requires
        rem >= 1,
    ensures
        num_blocks(rem) >= 1,
        num_blocks(rem) <= rem,
        rem <= 16 ==> num_blocks(rem) == 1,
        rem > 16 ==> num_blocks(rem) == num_blocks(rem - 16) + 1,
    decreases rem,
{
    if rem > 16 {
        lemma_hoist_over_denominator(rem - 1, 1, 16);
        lemma_num_blocks(rem - 16);
    }
}

/// Driving a request to completion. From a state that still owes
/// `end - current` keystream bytes, feeding the engine one completed block
/// operation per owed block:
/// - the keystream accumulator takes the hardware outputs verbatim, in order,
///   16 bytes per block from the cursor on, and nothing below the cursor moves;
/// - the key field never changes, and before block operation `k` the counter
///   field reads, as a 128-bit big-endian integer, exactly `k` more than at
///   the start (modulo `2^128`) — so block `k` of the keystream is the
///   encryption of `initial counter + k`;
/// - every block operation but the last leaves the request pending, and the
///   last one completes it, releasing both caller buffers.
pub proof fn lemma_run_generation(v: EngineState, blocks: Seq<Seq<u8>>)
    requires
        wf(v),
        v.input is Some,
        v.current_idx < v.end_idx,
        blocks.len() == num_blocks(v.end_idx - v.current_idx),
        forall|k: int| 0 <= k < blocks.len() ==> (#[trigger] blocks[k]).len() == AES128_BLOCK_SIZE,
    ensures
        ({
            let f = run_steps(v, blocks);
            &&& f.current_idx == v.end_idx
            &&& f.end_idx == v.end_idx
            &&& f.start_idx == v.start_idx
            &&& f.input is None
            &&& f.output is None
            &&& f.keystream.len() == v.keystream.len()
            &&& key_of(f) == key_of(v)
            &&& be_val(counter_of(f)) == ((be_val(counter_of(v)) + blocks.len()) as int) % (
            pow2(128) as int)
            &&& forall|j: int| 0 <= j < v.current_idx ==> f.keystream[j] == v.keystream[j]
            &&& forall|k: int, j: int|
                0 <= k < blocks.len() && 0 <= j < AES128_BLOCK_SIZE && v.current_idx + 16 * k + j
                    < v.end_idx ==> f.keystream[v.current_idx + 16 * k + j] == #[trigger] blocks[k][j]
        }),
        forall|k: int|
            0 <= k < blocks.len() ==> {
                let m = #[trigger] run_steps(v, blocks.take(k));
                &&& m.current_idx == v.current_idx + 16 * k
                &&& m.current_idx < m.end_idx
                &&& m.end_idx == v.end_idx
                &&& m.input == v.input
                &&& m.output == v.output
                &&& key_of(m) == key_of(v)
                &&& be_val(counter_of(m)) == ((be_val(counter_of(v)) + k) as int) % (
                pow2(128) as int)
            },
    decreases blocks.len(),
{
    let m128 = pow2(128) as int;
    let c0 = be_val(counter_of(v)) as int;
    let rem = v.end_idx - v.current_idx;
    lemma_num_blocks(rem);
    lemma_pow2_pos(128);
    lemma_pow2_strictly_increases(8, 128);
    lemma2_to64();
    lemma_be_val_bound(counter_of(v));
    lemma_small_mod(c0 as nat, pow2(128));

    let b0 = blocks[0];
    let hw = EngineState { ecb: write_seq(v.ecb, PLAINTEXT_END as int, b0), ..v };
    let g = gen_step(v, b0);
    let v1 = interrupt_transition(v, b0);
    let t = take_of(hw);
    assert(counter_of(hw) =~= counter_of(v));
    assert(key_of(hw) =~= key_of(v));
    lemma_be_inc_len(counter_of(v));
    assert(t > 0);
    assert(key_of(g) =~= key_of(v));
    assert(counter_of(g) =~= be_inc(counter_of(v)));
    lemma_be_inc_val(counter_of(v));
    assert(be_val(counter_of(g)) == (c0 + 1) % m128);

    // The prefix claim at k == 0 is about `v` itself.
    assert(blocks.take(0).len() == 0);
    assert(run_steps(v, blocks.take(0)) == v);

    if blocks.len() == 1 {
        assert(rem <= 16);
        assert(t == rem);
        assert(g.current_idx == g.end_idx);
        assert(g.input is Some && g.output is Some);
        assert(blocks.skip(1).len() == 0);
        let f = run_steps(v, blocks);
        assert(f == v1);
        assert(f.keystream == write_seq(v.keystream, v.current_idx as int, b0.take(t as int)));
        assert forall|k: int, j: int|
            0 <= k < blocks.len() && 0 <= j < AES128_BLOCK_SIZE && v.current_idx + 16 * k + j
                < v.end_idx implies f.keystream[v.current_idx + 16 * k + j] == blocks[k][j] by {
            assert(k == 0);
            assert(j < t);
            assert(b0.take(t as int)[j] == b0[j]);
        }
    } else {
        assert(rem > 16);
        assert(t == 16);
        assert(g.current_idx < g.end_idx);
        assert(v1 == EngineState { interrupts_enabled: true, ..g });
        assert(wf(v1));
        assert(blocks.skip(1).len() == num_blocks(v1.end_idx - v1.current_idx));
        assert forall|k: int| 0 <= k < blocks.skip(1).len() implies (#[trigger] blocks.skip(
            1,
        )[k]).len() == AES128_BLOCK_SIZE by {
            assert(blocks.skip(1)[k] == blocks[k + 1]);
        }
        lemma_run_generation(v1, blocks.skip(1));
        let f = run_steps(v1, blocks.skip(1));
        assert(run_steps(v, blocks) == f);
        let c1 = be_val(counter_of(v1)) as int;
        assert(c1 == (c0 + 1) % m128);

        // Chain the modular counter fact of the whole tail run onto `c0`.
        lemma_small_mod((blocks.len() - 1) as nat, pow2(128));
        lemma_add_mod_noop(c0 + 1, blocks.len() as int - 1, m128);

        // Keystream bytes below the old cursor never move.
        assert(v1.keystream == write_seq(v.keystream, v.current_idx as int, b0.take(16)));
        assert forall|j: int| 0 <= j < v.current_idx implies f.keystream[j] == v.keystream[j] by {
            assert(v1.keystream[j] == v.keystream[j]);
        }

        // Keystream bytes of block 0 come from `b0`; later blocks come from
        // the tail run.
        assert forall|k: int, j: int|
            0 <= k < blocks.len() && 0 <= j < AES128_BLOCK_SIZE && v.current_idx + 16 * k + j
                < v.end_idx implies f.keystream[v.current_idx + 16 * k + j] == blocks[k][j] by {
            if k == 0 {
                assert(v1.keystream[v.current_idx + j] == b0.take(16)[j]);
                assert(f.keystream[v.current_idx + j] == v1.keystream[v.current_idx + j]);
            } else {
                assert(blocks.skip(1)[k - 1] == blocks[k]);
                assert(f.keystream[v1.current_idx as int + 16 * (k - 1) + j] == blocks.skip(1)[k
                    - 1][j]);
            }
        }

        // The prefix claim: step 0 is `v` itself; later prefixes follow the
        // tail run shifted by one.
        assert forall|k: int| 0 <= k < blocks.len() implies {
            let m = #[trigger] run_steps(v, blocks.take(k));
            &&& m.current_idx == v.current_idx + 16 * k
            &&& m.current_idx < m.end_idx
            &&& m.end_idx == v.end_idx
            &&& m.input == v.input
            &&& m.output == v.output
            &&& key_of(m) == key_of(v)
            &&& be_val(counter_of(m)) == ((c0 + k) as int) % m128
        } by {
            if k > 0 {
                assert(blocks.take(k)[0] == b0);
                assert(blocks.take(k).skip(1) =~= blocks.skip(1).take(k - 1));
                assert(run_steps(v, blocks.take(k)) == run_steps(
                    v1,
                    blocks.skip(1).take(k - 1),
                ));
                assert(run_steps(v1, blocks.skip(1).take(k - 1)).current_idx == v1.current_idx + 16
                    * (k - 1));
                lemma_small_mod((k - 1) as nat, pow2(128));
                lemma_add_mod_noop(c0 + 1, k - 1, m128);
            }
        }
    }
}

/// The full round trip. Encrypt a plaintext over one accepted request, then
/// run a second request over the resulting ciphertext span with the same key
/// and the same initial counter: because both runs present the hardware with
/// the same counter sequence, the hardware hands back the same outputs
/// (`blocks` stands for both), the two keystreams agree, and the second
/// destination span reads back the original plaintext bytes exactly.
pub proof fn lemma_ctr_round_trip(a1: EngineState, a2: EngineState, blocks: Seq<Seq<u8>>)
    requires
        wf(a1),
        wf(a2),
        a1.input is Some,
        a2.input is Some,
        a1.current_idx == 0,
        a2.current_idx == 0,
        a2.start_idx == a1.start_idx,
        a2.end_idx == a1.end_idx,
        1 <= a1.end_idx,
        blocks.len() == num_blocks(a1.end_idx as int),
        forall|k: int| 0 <= k < blocks.len() ==> (#[trigger] blocks[k]).len() == AES128_BLOCK_SIZE,
        a2.input.unwrap() == combine_bytes(
            a1.output.unwrap(),
            a1.input.unwrap(),
            run_steps(a1, blocks).keystream,
            a1.start_idx as int,
            a1.end_idx as int,
        ).subrange(a1.start_idx as int, a1.end_idx as int),
    ensures
        combine_bytes(
            a2.output.unwrap(),
            a2.input.unwrap(),
            run_steps(a2, blocks).keystream,
            a2.start_idx as int,
            a2.end_idx as int,
        ).subrange(a2.start_idx as int, a2.end_idx as int) =~= a1.input.unwrap().subrange(
            0,
            a1.end_idx - a1.start_idx,
        ),
{
    let start = a1.start_idx as int;
    let end = a1.end_idx as int;
    lemma_run_generation(a1, blocks);
    lemma_run_generation(a2, blocks);
    lemma_num_blocks(end);
    let ks1 = run_steps(a1, blocks).keystream;
    let ks2 = run_steps(a2, blocks).keystream;
    // Both runs bank the same hardware outputs, so the two keystreams agree
    // over the whole requested span.
    assert forall|q: int| 0 <= q < end implies ks1[q] == ks2[q] by {
        let k = q / 16;
        let j = q % 16;
        lemma_fundamental_div_mod(q, 16);
        lemma_div_is_ordered(q, end - 1, 16);
        lemma_div_pos_is_pos(q, 16);
        lemma_hoist_over_denominator(end - 1, 1, 16);
        assert(0 <= k < blocks.len());
        assert(ks1[16 * k + j] == blocks[k][j]);
        assert(ks2[16 * k + j] == blocks[k][j]);
    }
    let p = a1.input.unwrap();
    let c = a2.input.unwrap();
    let res = combine_bytes(a2.output.unwrap(), c, ks2, start, end).subrange(start, end);
    assert forall|j: int| 0 <= j < end - start implies res[j] == p[j] by {
        assert(c[j] == (ks1[j] ^ p[j]) as u8);
        assert(res[j] == (ks2[j] ^ c[j]) as u8);
        let a = ks1[j];
        let b = p[j];
        assert(a ^ (a ^ b) == b) by (bit_vector);
    }
}

/// CTR mode is its own inverse: combining a destination span with a keystream
/// and then combining the resulting span with the same keystream restores the
/// source bytes exactly.
pub proof fn lemma_combine_round_trip(
    dst1: Seq<u8>,
    dst2: Seq<u8>,
    src: Seq<u8>,
    ks: Seq<u8>,
    start: int,
    end: int,
)
    requires
        0 <= start <= end,
        end <= dst1.len(),
        end <= dst2.len(),
        end - start <= src.len(),
        end - start <= ks.len(),
    ensures
        combine_bytes(
            dst2,
            combine_bytes(dst1, src, ks, start, end).subrange(start, end),
            ks,
            start,
            end,
        ).subrange(start, end) =~= src.subrange(0, end - start),
{
    let c = combine_bytes(dst1, src, ks, start, end).subrange(start, end);
    let p = combine_bytes(dst2, c, ks, start, end).subrange(start, end);
    assert forall|j: int| 0 <= j < end - start implies p[j] == src[j] by {
        assert(c[j] == (ks[j] ^ src[j]) as u8);
        assert(p[j] == (ks[j] ^ (ks[j] ^ src[j])) as u8);
        let a = ks[j];
        let b = src[j];
        assert((a ^ (a ^ b)) == b) by (bit_vector);
    }
}

} // verus!
