//! The CTR engine: an AES-128-CTR encrypt/decrypt service driven, one block
//! per completion interrupt, by a single-block AES-128-ECB hardware engine.
//!
//! The hardware reads the key and counter fields of a 48-byte shared buffer,
//! encrypts the counter, and writes the result into the buffer's output
//! field; completion arrives as an interrupt. This module holds everything
//! the driver decides in software. The hardware's part is handed in and out
//! as plain values: [`AesECB::handle_interrupt`] takes the output block the
//! hardware produced, and reports in its result whether the caller must run
//! one more block operation ([`CryptOutcome::Pending`]) or the request is
//! complete ([`CryptOutcome::Done`]).

use crate::model::{
    accepted_state, be_inc, combine_bytes, counter_of, gen_step, init_state, interrupt_transition,
    key_of, lemma_be_inc_all_wrap, lemma_be_inc_len, lemma_be_inc_partial, take_of, wf, write_seq,
    EngineState, AES128_BLOCK_SIZE, AES128_KEY_SIZE, ECB_DATA_SIZE, KEY_START, MAX_LENGTH,
    PLAINTEXT_END, PLAINTEXT_START,
};
use vstd::prelude::*;

verus! {

/// Errors a call can report synchronously, before any hardware activity.
#[derive(Clone, Copy, Debug, PartialEq, Eq, Structural)]
pub enum SymError {
    /// A key or counter of the wrong length, or a missing source buffer.
    InvalidArgument,
    /// A requested span longer than `MAX_LENGTH` bytes.
    SizeExceeded,
}

/// What an interrupt asks of the surrounding system next.
pub enum CryptOutcome {
    /// More keystream is owed: the engine re-armed the completion interrupt
    /// and the hardware must encrypt the counter field once more.
    Pending,
    /// The request completed: both caller buffers come back, the destination
    /// span holding the combined result. This stands for the client's
    /// `crypt_done` callback.
    Done(Option<Vec<u8>>, Vec<u8>),
    /// Nothing to do: no completion event was raised, or no request is in
    /// flight.
    Idle,
}

/// The AES-128-CTR engine.
///
/// `ecb_data` is the engine's image of the buffer shared with the hardware:
/// the key at `[KEY_START, PLAINTEXT_START)`, the counter at
/// `[PLAINTEXT_START, PLAINTEXT_END)` — which the hardware reads as its
/// per-block input — and the hardware's keystream output from `PLAINTEXT_END`
/// on. The field roles are fixed for the engine's lifetime.
pub struct AesECB {
    ecb_data: Vec<u8>,
    input: Option<Vec<u8>>,
    output: Option<Vec<u8>>,
    keystream: Vec<u8>,
    current_idx: usize,
    start_idx: usize,
    end_idx: usize,
    interrupts_enabled: bool,
}

/// The abstract image of an optionally held buffer.
pub open spec fn opt_view(o: Option<Vec<u8>>) -> Option<Seq<u8>> {
    match o {
        Some(v) => Some(v@),
        None => None,
    }
}

impl View for AesECB {
    type V = EngineState;

    closed spec fn view(&self) -> EngineState {
        EngineState {
            ecb: self.ecb_data@,
            input: opt_view(self.input),
            output: opt_view(self.output),
            keystream: self.keystream@,
            current_idx: self.current_idx as nat,
            start_idx: self.start_idx as nat,
            end_idx: self.end_idx as nat,
            interrupts_enabled: self.interrupts_enabled,
        }
    }
}

/// A vector of `n` zero bytes.
fn zero_vec(n: usize) -> (r: Vec<u8>)
    ensures
        r@ == Seq::new(n as nat, |i: int| 0u8),
{
    let mut v: Vec<u8> = Vec::new();
    while v.len() < n
        invariant
            v@.len() <= n,
            forall|i: int| 0 <= i < v@.len() ==> v@[i] == 0u8,
        decreases n - v.len(),
    {
        v.push(0u8);
    }
    proof {
        assert(v@ =~= Seq::new(n as nat, |i: int| 0u8));
    }
    v
}

/// Copy `src` into `dst` starting at offset `at`.
fn write_bytes(dst: &mut Vec<u8>, at: usize, src: &Vec<u8>)
    requires
        at + src@.len() <= old(dst)@.len(),
    ensures
        final(dst)@ == write_seq(old(dst)@, at as int, src@),
{
    let dlen = dst.len();
    let mut i: usize = 0;
    while i < src.len()
        invariant
            i <= src@.len(),
            at + src@.len() <= dlen,
            dst@.len() == old(dst)@.len(),
            dlen == old(dst)@.len(),
            forall|j: int| at <= j < at + i ==> dst@[j] == src@[j - at],
            forall|j: int|
                0 <= j < dst@.len() && !(at <= j < at + i) ==> dst@[j] == old(dst)@[j],
        decreases src@.len() - i,
    {
        let b = src[i];
        dst[at + i] = b;
        i += 1;
    }
    proof {
        assert(dst@ =~= write_seq(old(dst)@, at as int, src@));
    }
}

/// Copy the bytes `[from, to)` of `v` out into a fresh vector.
fn copy_range(v: &Vec<u8>, from: usize, to: usize) -> (r: Vec<u8>)
    requires
        from <= to <= v@.len(),
    ensures
        r@ == v@.subrange(from as int, to as int),
{
    let mut r: Vec<u8> = Vec::new();
    let mut i: usize = from;
    while i < to
        invariant
            from <= i <= to <= v@.len(),
            r@.len() == i - from,
            forall|j: int| 0 <= j < r@.len() ==> r@[j] == v@[from + j],
        decreases to - i,
    {
        let b = v[i];
        r.push(b);
        i += 1;
    }
    proof {
        assert(r@ =~= v@.subrange(from as int, to as int));
    }
    r
}

impl AesECB {
    /// A fresh engine: shared buffer and keystream accumulator zeroed, no
    /// request in flight, interrupts disarmed. A request issued before
    /// `set_iv` therefore starts from the all-zero counter.
    pub fn new() -> (r: AesECB)
        ensures
            r@ == init_state(),
    {
        AesECB {
            ecb_data: zero_vec(ECB_DATA_SIZE),
            input: None,
            output: None,
            keystream: zero_vec(MAX_LENGTH),
            current_idx: 0,
            start_idx: 0,
            end_idx: 0,
            interrupts_enabled: false,
        }
    }

    /// Load a 16-byte key into the key field of the shared buffer. A key of
    /// any other length is rejected with `InvalidArgument`, and previously
    /// stored key material stays exactly as it was. No hardware operation is
    /// triggered.
    pub fn set_key(&mut self, key: &Vec<u8>) -> (r: Result<(), SymError>)
        requires
            wf(old(self)@),
        ensures
            wf(final(self)@),
            key@.len() != AES128_KEY_SIZE ==> r == Err::<(), SymError>(SymError::InvalidArgument)
                && final(self)@ == old(self)@,
            key@.len() == AES128_KEY_SIZE ==> r == Ok::<(), SymError>(()) && final(self)@ == (
            EngineState { ecb: write_seq(old(self)@.ecb, KEY_START as int, key@), ..old(self)@ }),
    {
        if key.len() != AES128_KEY_SIZE {
            Err(SymError::InvalidArgument)
        } else {
            write_bytes(&mut self.ecb_data, KEY_START, key);
            Ok(())
        }
    }

    /// Load a 16-byte initial counter into the counter field of the shared
    /// buffer. A value of any other length is rejected with
    /// `InvalidArgument` and nothing changes. No hardware operation is
    /// triggered.
    pub fn set_iv(&mut self, iv: &Vec<u8>) -> (r: Result<(), SymError>)
        requires
            wf(old(self)@),
        ensures
            wf(final(self)@),
            iv@.len() != AES128_BLOCK_SIZE ==> r == Err::<(), SymError>(SymError::InvalidArgument)
                && final(self)@ == old(self)@,
            iv@.len() == AES128_BLOCK_SIZE ==> r == Ok::<(), SymError>(()) && final(self)@ == (
            EngineState {
                ecb: write_seq(old(self)@.ecb, PLAINTEXT_START as int, iv@),
                ..old(self)@
            }),
    {
        if iv.len() != AES128_BLOCK_SIZE {
            Err(SymError::InvalidArgument)
        } else {
            write_bytes(&mut self.ecb_data, PLAINTEXT_START, iv);
            Ok(())
        }
    }

    /// Increment the counter field in place: the last byte goes up by one; a
    /// byte that wraps to zero carries into the next more significant byte.
    /// The walk stops at the first byte that does not wrap, so the time taken
    /// varies with the counter value — kept exactly as the hardware protocol
    /// has it; making it constant-time is an open hardening question.
    #[verifier::loop_isolation(false)]
    fn update_ctr(&mut self)
        requires
            wf(old(self)@),
        ensures
            wf(final(self)@),
            final(self)@ == (EngineState {
                ecb: write_seq(
                    old(self)@.ecb,
                    PLAINTEXT_START as int,
                    be_inc(counter_of(old(self)@)),
                ),
                ..old(self)@
            }),
    {
        let ghost c = counter_of(old(self)@);
        let mut i: usize = PLAINTEXT_END;
        let mut done = false;
        while !done && i > PLAINTEXT_START
            invariant
                PLAINTEXT_START <= i <= PLAINTEXT_END,
                self@.ecb.len() == ECB_DATA_SIZE,
                self@.input == old(self)@.input,
                self@.output == old(self)@.output,
                self@.keystream == old(self)@.keystream,
                self@.current_idx == old(self)@.current_idx,
                self@.start_idx == old(self)@.start_idx,
                self@.end_idx == old(self)@.end_idx,
                self@.interrupts_enabled == old(self)@.interrupts_enabled,
                forall|j: int|
                    0 <= j < ECB_DATA_SIZE && !(i <= j < PLAINTEXT_END) ==> self@.ecb[j] == old(
                        self,
                    )@.ecb[j],
                !done ==> forall|j: int|
                    i <= j < PLAINTEXT_END ==> self@.ecb[j] == 0 && old(self)@.ecb[j] == 255,
                done ==> self@.ecb.subrange(PLAINTEXT_START as int, PLAINTEXT_END as int)
                    == be_inc(c),
            decreases i,
        {
            i -= 1;
            let b = self.ecb_data[i];
            if b == 255 {
                self.ecb_data[i] = 0;
            } else {
                self.ecb_data[i] = b + 1;
                done = true;
                proof {
                    lemma_be_inc_partial(c, i - PLAINTEXT_START);
                    assert(self@.ecb.subrange(PLAINTEXT_START as int, PLAINTEXT_END as int)
                        =~= be_inc(c));
                }
            }
        }
        proof {
            if !done {
                lemma_be_inc_all_wrap(c);
                assert(self@.ecb.subrange(PLAINTEXT_START as int, PLAINTEXT_END as int) =~= be_inc(
                    c,
                ));
            }
            lemma_be_inc_len(c);
            assert(self@.ecb =~= write_seq(old(self)@.ecb, PLAINTEXT_START as int, be_inc(c)));
        }
    }

    /// Start one encrypt/decrypt request over the span `[start_index,
    /// stop_index)` of `dest`.
    ///
    /// Checked synchronously, before any hardware activity: a missing source
    /// fails with `InvalidArgument`; a span longer than `MAX_LENGTH` fails
    /// with `SizeExceeded`. Either failure returns both buffers to the caller
    /// unconsumed and leaves the engine untouched. On acceptance the engine
    /// takes ownership of both buffers, resets the keystream cursor, records
    /// the span, issues the first block operation and returns `None`: the
    /// outcome arrives later, through the value `handle_interrupt` returns
    /// once the last block completes. At most one request may be in flight.
    pub fn crypt(
        &mut self,
        source: Option<Vec<u8>>,
        dest: Vec<u8>,
        start_index: usize,
        stop_index: usize,
    ) -> (r: Option<(Result<(), SymError>, Option<Vec<u8>>, Vec<u8>)>)
        requires
            wf(old(self)@),
            start_index <= stop_index,
            source is Some && stop_index - start_index <= MAX_LENGTH ==> {
                &&& old(self)@.input is None
                &&& stop_index <= MAX_LENGTH
                &&& stop_index <= dest@.len()
                &&& source.unwrap()@.len() >= stop_index - start_index
            },
        ensures
            wf(final(self)@),
            source is None ==> {
                &&& final(self)@ == old(self)@
                &&& r matches Some((e, s, d)) && e == Err::<(), SymError>(
                    SymError::InvalidArgument,
                ) && s is None && d@ == dest@
            },
            source is Some && stop_index - start_index > MAX_LENGTH ==> {
                &&& final(self)@ == old(self)@
                &&& r matches Some((e, s, d)) && (e == Err::<(), SymError>(SymError::SizeExceeded)
                    && (s matches Some(sv) && sv@ == source.unwrap()@) && d@ == dest@)
            },
            source is Some && stop_index - start_index <= MAX_LENGTH ==> {
                &&& r is None
                &&& final(self)@ == accepted_state(
                    old(self)@,
                    source.unwrap()@,
                    dest@,
                    start_index as nat,
                    stop_index as nat,
                )
            },
    {
        match source {
            None => Some((Err(SymError::InvalidArgument), None, dest)),
            Some(src) => {
                if stop_index - start_index <= MAX_LENGTH {
                    self.input = Some(src);
                    self.output = Some(dest);
                    self.current_idx = 0;
                    self.start_idx = start_index;
                    self.end_idx = stop_index;
                    // the first block operation starts here; its completion
                    // arrives through `handle_interrupt`
                    self.enable_interrupts();
                    None
                } else {
                    Some((Err(SymError::SizeExceeded), Some(src), dest))
                }
            },
        }
    }

    /// Handle one hardware interrupt.
    ///
    /// `end_event` says whether the completion event fired (as opposed to the
    /// hardware's error event, which is read but not translated further);
    /// `block` is the 16-byte output the hardware left in the shared buffer.
    /// The handler disarms the interrupt at entry. If the completion event
    /// fired, it banks the new keystream bytes, increments the counter field,
    /// and either starts the next block operation (`Pending`, interrupt
    /// re-armed) or, once the whole span is covered, XORs keystream and
    /// source into the destination span and hands both buffers back
    /// (`Done`). A completion with no request in flight changes nothing
    /// beyond the shared buffer's output field (`Idle`).
    #[verifier::loop_isolation(false)]
    pub fn handle_interrupt(&mut self, end_event: bool, block: &Vec<u8>) -> (r: CryptOutcome)
        requires
            wf(old(self)@),
            block@.len() == AES128_BLOCK_SIZE,
        ensures
            wf(final(self)@),
            !end_event ==> final(self)@ == (EngineState {
                interrupts_enabled: false,
                ..old(self)@
            }) && r is Idle,
            end_event ==> final(self)@ == interrupt_transition(old(self)@, block@),
            end_event ==> match r {
                CryptOutcome::Pending => gen_step(old(self)@, block@).current_idx
                    < old(self)@.end_idx,
                CryptOutcome::Done(rsrc, rout) => {
                    let g = gen_step(old(self)@, block@);
                    &&& g.current_idx >= g.end_idx
                    &&& old(self)@.input is Some
                    &&& opt_view(rsrc) == old(self)@.input
                    &&& rout@ == combine_bytes(
                        old(self)@.output.unwrap(),
                        old(self)@.input.unwrap(),
                        g.keystream,
                        old(self)@.start_idx as int,
                        old(self)@.end_idx as int,
                    )
                },
                CryptOutcome::Idle => gen_step(old(self)@, block@).current_idx
                    >= old(self)@.end_idx && old(self)@.input is None,
            },
    {
        self.disable_interrupts();
        if !end_event {
            return CryptOutcome::Idle;
        }
        let ghost v0 = old(self)@;
        let ghost g = gen_step(v0, block@);

        // The hardware's output block lands in the shared buffer.
        write_bytes(&mut self.ecb_data, PLAINTEXT_END, block);
        let ghost hw = self@;
        proof {
            assert(counter_of(hw) =~= counter_of(v0));
        }

        let current_idx = self.current_idx;
        let end_idx = self.end_idx;
        // How many new keystream bytes this block contributes; zero once the
        // cursor has reached the end (defence against spurious interrupts).
        let take: usize = if current_idx > end_idx {
            0
        } else if end_idx - current_idx > AES128_BLOCK_SIZE {
            AES128_BLOCK_SIZE
        } else {
            end_idx - current_idx
        };
        proof {
            assert(take == take_of(EngineState { ecb: hw.ecb, ..v0 }));
        }

        if take > 0 {
            // Append this block to the keystream accumulator.
            let mut j: usize = 0;
            while j < take
                invariant
                    j <= take,
                    take <= AES128_BLOCK_SIZE,
                    current_idx + take <= MAX_LENGTH,
                    self@.keystream.len() == MAX_LENGTH,
                    self@.ecb == hw.ecb,
                    self@.input == hw.input,
                    self@.output == hw.output,
                    self@.current_idx == hw.current_idx,
                    self@.start_idx == hw.start_idx,
                    self@.end_idx == hw.end_idx,
                    self@.interrupts_enabled == hw.interrupts_enabled,
                    forall|q: int|
                        current_idx <= q < current_idx + j ==> self@.keystream[q] == block@[q
                            - current_idx],
                    forall|q: int|
                        0 <= q < MAX_LENGTH && !(current_idx <= q < current_idx + j)
                            ==> self@.keystream[q] == hw.keystream[q],
                decreases take - j,
            {
                let b = self.ecb_data[PLAINTEXT_END + j];
                self.keystream[current_idx + j] = b;
                j += 1;
            }
            self.current_idx = current_idx + take;
            self.update_ctr();
            proof {
                assert(self@.keystream =~= write_seq(
                    hw.keystream,
                    current_idx as int,
                    block@.take(take as int),
                ));
                assert(self@.ecb == g.ecb);
                assert(self@ == (EngineState { interrupts_enabled: false, ..g }));
            }
        } else {
            proof {
                assert(self@ == (EngineState { interrupts_enabled: false, ..g }));
            }
        }

        if self.current_idx < self.end_idx {
            // More keystream is owed: run the hardware once more on the
            // incremented counter.
            self.enable_interrupts();
            return CryptOutcome::Pending;
        }

        if self.input.is_some() && self.output.is_some() {
            // The whole span is covered: combine and hand the buffers back.
            let src = match self.input.take() {
                Some(s) => s,
                None => {
                    return CryptOutcome::Idle;  // unreachable: just tested
                },
            };
            let mut out = match self.output.take() {
                Some(o) => o,
                None => {
                    return CryptOutcome::Idle;  // unreachable: just tested
                },
            };
            let ghost out0 = out@;
            let start = self.start_idx;
            let end = self.end_idx;
            let mut i: usize = start;
            while i < end
                invariant
                    start <= i <= end,
                    end <= out@.len(),
                    end <= MAX_LENGTH,
                    out@.len() == out0.len(),
                    src@.len() >= end - start,
                    self@.keystream.len() == MAX_LENGTH,
                    forall|q: int|
                        start <= q < i ==> out@[q] == (self@.keystream[q - start] ^ src@[q
                            - start]) as u8,
                    forall|q: int| 0 <= q < out@.len() && !(start <= q < i) ==> out@[q] == out0[q],
                decreases end - i,
            {
                let k = self.keystream[i - start];
                let s = src[i - start];
                out[i] = k ^ s;
                i += 1;
            }
            proof {
                assert(out@ =~= combine_bytes(
                    out0,
                    src@,
                    g.keystream,
                    start as int,
                    end as int,
                ));
            }
            return CryptOutcome::Done(Some(src), out);
        }

        CryptOutcome::Idle
    }

    /// Arm the completion interrupt. Stands for the write to the hardware's
    /// interrupt-enable register that accompanies every block start.
    fn enable_interrupts(&mut self)
        ensures
            final(self)@ == (EngineState { interrupts_enabled: true, ..old(self)@ }),
    {
        self.interrupts_enabled = true;
    }

    /// Disarm the completion interrupt. Stands for the write to the
    /// hardware's interrupt-disable register at the entry of the handler.
    fn disable_interrupts(&mut self)
        ensures
            final(self)@ == (EngineState { interrupts_enabled: false, ..old(self)@ }),
    {
        self.interrupts_enabled = false;
    }

    /// Bring the hardware path up. The engine's own state does not change:
    /// on this hardware, enabling only points the engine at the shared
    /// buffer.
    pub fn enable(&self)
    {
    }

    /// Stop the hardware path: any executing block operation is aborted and
    /// the completion interrupt is disarmed. A request left in flight never
    /// resolves; its callback is never delivered.
    pub fn disable(&mut self)
        ensures
            final(self)@ == (EngineState { interrupts_enabled: false, ..old(self)@ }),
    {
        self.disable_interrupts();
    }

    /// Begin a message. Nothing is needed on this hardware.
    pub fn start_message(&self)
    {
    }

    /// The key field of the shared buffer, as configured by `set_key`.
    pub fn key_block(&self) -> (r: Vec<u8>)
        requires
            wf(self@),
        ensures
            r@ == key_of(self@),
    {
        copy_range(&self.ecb_data, KEY_START, PLAINTEXT_START)
    }

    /// The counter field of the shared buffer: the value the hardware reads
    /// as its input for the next block operation.
    pub fn counter_block(&self) -> (r: Vec<u8>)
        requires
            wf(self@),
        ensures
            r@ == counter_of(self@),
    {
        copy_range(&self.ecb_data, PLAINTEXT_START, PLAINTEXT_END)
    }

    /// Whether the completion interrupt is armed: true exactly while a block
    /// operation is outstanding.
    pub fn interrupts_armed(&self) -> (r: bool)
        ensures
            r == self@.interrupts_enabled,
    {
        self.interrupts_enabled
    }
}

} // verus!
