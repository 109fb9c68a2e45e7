//! The call dispatcher: top-level `create` and `call`, the frame loop,
//! and deterministic contract-address derivation.
//!
//! Policies fixed here: validation requires only that the caller can
//! pay the value; the fee, `gas_used * gas_price`, is settled once,
//! after the run, from whatever the caller then holds; a creator's
//! nonce increment survives a failed creation; a frame that fails
//! discards every write it made, value transfer included; a fatal
//! outcome discards everything, the fee included.

use vstd::prelude::*;
use crate::account::{AccountV, Address};
use crate::exit::{ErrorKind, ExitReason, FatalKind, ValidationError};
use crate::gas::GasMeter;
use crate::interp::{
    Frame, GAS_CALL, GAS_CREATE, GAS_MEMWORD, HaltM, MState, StepOut, code_is_local,
    is_jumpdest, lemma_jumpdest_is_pos, lemma_reaches_extend, lemma_spec_run_mono, mk_ctx,
    opcode_of, pop_word, pos_width, reaches_pos, spec_run, spec_step, step, with_storage,
    FrameCtx, MEM_CAP, OP_CALL, OP_CREATE,
};
use crate::ledger::{Ledger, acct_at};
use crate::machine::{be_val, mem_copy_padded, mem_grow, mem_slice};
use crate::word::{U256, pow256};

verus! {

/// The Keccak-256 digest of a byte string, named: the digest depends
/// on the input bytes alone, so the name stands for one fixed function.
pub uninterp spec fn keccak_of(s: Seq<u8>) -> Seq<u8>;

/// Relies on tiny_keccak's Keccak-256 (`Keccak::v256`, `update`,
/// `finalize`): the digest is a function of the absorbed bytes alone,
/// and squeezing a 32-byte buffer yields the 256-bit digest.
#[verifier::external_body]
fn keccak256(bytes: &Vec<u8>) -> (r: Vec<u8>)
    ensures
        r@ == keccak_of(bytes@),
        r@.len() == 32,
{
    let mut out = [0u8; 32];
    let mut hasher = tiny_keccak::Keccak::v256();
    tiny_keccak::Hasher::update(&mut hasher, bytes.as_slice());
    tiny_keccak::Hasher::finalize(hasher, &mut out);
    out.to_vec()
}

/// The tagged byte encoding of a `(creator, nonce)` pair that the
/// address derivation hashes.
pub open spec fn encode_pair(a: Address, nonce: u64) -> Seq<u8> {
    seq![0xd6u8, 0x94u8, (a.hi >> 24) as u8, (a.hi >> 16) as u8, (a.hi >> 8) as u8, a.hi as u8]
        + enc64(a.mid) + enc64(a.lo) + seq![0x88u8] + enc64(nonce)
}

/// Eight big-endian bytes of a 64-bit value.
pub open spec fn enc64(x: u64) -> Seq<u8> {
    seq![
        (x >> 56) as u8,
        (x >> 48) as u8,
        (x >> 40) as u8,
        (x >> 32) as u8,
        (x >> 24) as u8,
        (x >> 16) as u8,
        (x >> 8) as u8,
        x as u8,
    ]
}

/// The low 160 bits of a 32-byte digest, as an address.
pub open spec fn addr_of_digest(d: Seq<u8>) -> Address {
    Address {
        hi: be_val(d.subrange(12, 16)) as u32,
        mid: be_val(d.subrange(16, 24)) as u64,
        lo: be_val(d.subrange(24, 32)) as u64,
    }
}

/// The derived address of a creation by `a` at `nonce`: the low 160
/// bits of the Keccak-256 digest of the encoded pair.
pub open spec fn derive_spec(a: Address, nonce: u64) -> Address {
    addr_of_digest(keccak_of(encode_pair(a, nonce)))
}

/// Address derivation is a function of the creator and nonce alone:
/// the same pair always yields the same address.
pub proof fn lemma_derive_deterministic(a1: Address, n1: u64, a2: Address, n2: u64)
    requires
        a1.val() == a2.val(),
        n1 == n2,
    ensures
        derive_spec(a1, n1) == derive_spec(a2, n2),
{
    crate::account::lemma_addr_injective(a1, a2);
}

/// Pushes the eight big-endian bytes of `x`.
fn push_enc64(out: &mut Vec<u8>, x: u64)
    ensures
        final(out)@ == old(out)@ + enc64(x),
{
    out.push((x >> 56) as u8);
    out.push((x >> 48) as u8);
    out.push((x >> 40) as u8);
    out.push((x >> 32) as u8);
    out.push((x >> 24) as u8);
    out.push((x >> 16) as u8);
    out.push((x >> 8) as u8);
    out.push(x as u8);
    proof {
        assert(out@ =~= old(out)@ + enc64(x));
    }
}

/// Derives the address a creation by `a` at `nonce` deploys to.
pub fn derive_address(a: &Address, nonce: u64) -> (r: Address)
    ensures
        r == derive_spec(*a, nonce),
{
    let mut bytes: Vec<u8> = Vec::new();
    bytes.push(0xd6);
    bytes.push(0x94);
    bytes.push((a.hi >> 24) as u8);
    bytes.push((a.hi >> 16) as u8);
    bytes.push((a.hi >> 8) as u8);
    bytes.push(a.hi as u8);
    push_enc64(&mut bytes, a.mid);
    push_enc64(&mut bytes, a.lo);
    bytes.push(0x88);
    push_enc64(&mut bytes, nonce);
    proof {
        assert(bytes@ =~= encode_pair(*a, nonce));
    }
    let dig = keccak256(&bytes);
    let hi = crate::machine::read_u32_be(&dig, 12);
    let mid = crate::machine::read_u64_be(&dig, 16);
    let lo = crate::machine::read_u64_be(&dig, 24);
    proof {
        crate::machine::lemma_be_val_bound(dig@.subrange(12, 16));
        crate::machine::lemma_be_val_bound(dig@.subrange(16, 24));
        crate::machine::lemma_be_val_bound(dig@.subrange(24, 32));
        vstd::arithmetic::power2::lemma2_to64();
        vstd::arithmetic::power2::lemma2_to64_rest();
    }
    Address { hi, mid, lo }
}


/// The deepest nesting of execution contexts the engine allows; going
/// past it is a fatal failure, not an ordinary error.
pub const MAX_DEPTH: u64 = 1024;

/// What a finished frame hands back.
pub struct FrameResult {
    pub reason: ExitReason,
    pub output: Vec<u8>,
    pub gas_used: u64,
}

/// The machine state a frame starts in.
pub open spec fn mk_init(c: FrameCtx, m: Map<int, AccountV>) -> MState {
    MState {
        pc: 0,
        stack: Seq::empty(),
        mem: Seq::empty(),
        storage: acct_at(m, c.self_addr).storage,
        gas_used: 0,
    }
}

/// Saturating subtraction: what is left after paying `f` out of `b`.
pub open spec fn sat_sub(b: int, f: int) -> int {
    if b >= f {
        b - f
    } else {
        0
    }
}

/// What a frame over call-free code leaves behind: the result triple
/// is the halt `spec_run` reaches, no account but the frame's own is
/// touched, and of that one only the storage, which becomes the
/// halt's.
pub open spec fn frame_pins(
    code: Seq<u8>,
    input: Seq<u8>,
    value: U256,
    a: int,
    gas_limit: int,
    m0: Map<int, AccountV>,
    mf: Map<int, AccountV>,
    reason: ExitReason,
    output: Seq<u8>,
    gas_used: int,
) -> bool {
    let c = mk_ctx(code, input, value, a, gas_limit);
    match spec_run(c, mk_init(c, m0), (gas_limit + 1) as nat) {
        Some(h) => reason == h.reason && output == h.output && gas_used == h.gas_used && (forall|
            b: int,
        |
            b != a ==> #[trigger] acct_at(mf, b) == acct_at(m0, b)) && acct_at(mf, a)
            == (AccountV { storage: h.storage, ..acct_at(m0, a) }),
        None => false,
    }
}

/// The result triple of a finished top-level entry: for call-free
/// code it must be the halt `spec_run` reaches, whatever the exit
/// reason is. This is the clause that forces an entry point to run the
/// code rather than report a failure of its own choosing.
pub open spec fn triple_pinned(
    code: Seq<u8>,
    input: Seq<u8>,
    value: U256,
    a: int,
    gas_limit: int,
    m0: Map<int, AccountV>,
    reason: ExitReason,
    output: Seq<u8>,
    gas_used: int,
) -> bool {
    let c = mk_ctx(code, input, value, a, gas_limit);
    match spec_run(c, mk_init(c, m0), (gas_limit + 1) as nat) {
        Some(h) => reason == h.reason && output == h.output && gas_used == h.gas_used,
        None => false,
    }
}

/// Handing storage back through `with_storage` changes that account's
/// storage and nothing else.
proof fn lemma_with_storage_fields(m: Map<int, AccountV>, a: int, st: Map<int, int>)
    ensures
        forall|b: int|
            b != a ==> #[trigger] acct_at(with_storage(m, a, st), b) == acct_at(m, b),
        acct_at(with_storage(m, a, st), a) == (AccountV { storage: st, ..acct_at(m, a) }),
{
    if acct_at(m, a).storage == st {
        assert(acct_at(m, a) == (AccountV { storage: st, ..acct_at(m, a) }));
    }
}

/// Runs one execution context to completion, recursing into nested
/// contexts for the call-family and create-family opcodes. For
/// call-free code the result and the ledger effect are pinned exactly
/// by `spec_run`.
#[verifier::loop_isolation(false)]
#[verifier::rlimit(100)]
pub fn exec_frame(
    led: &mut Ledger,
    code: &Vec<u8>,
    input: &Vec<u8>,
    value: &U256,
    self_addr: &Address,
    gas_limit: u64,
    depth: u64,
) -> (r: FrameResult)
    requires
        code@.len() <= MEM_CAP,
        depth <= MAX_DEPTH,
    ensures
        r.gas_used <= gas_limit,
        r.output@.len() <= MEM_CAP,
        code_is_local(code@) ==> frame_pins(
            code@,
            input@,
            *value,
            self_addr.val(),
            gas_limit as int,
            old(led).model(),
            final(led).model(),
            r.reason,
            r.output@,
            r.gas_used as int,
        ),
    decreases MAX_DEPTH - depth, 1int,
{
    let ghost c = mk_ctx(code@, input@, *value, self_addr.val(), gas_limit as int);
    let ghost m0 = old(led).model();
    let ghost fuel0 = (gas_limit + 1) as nat;
    let mut f = Frame { pc: 0, stack: Vec::new(), mem: Vec::new(), gas: GasMeter::new(gas_limit) };
    proof {
        assert(f.stack@ =~= Seq::<U256>::empty());
        assert(f.mem@ =~= Seq::<u8>::empty());
        assert(code@.len() == 0 || reaches_pos(code@, 0, 0));
    }
    loop
        invariant
            f.inv(),
            f.gas.limit == gas_limit,
            f.pc as int >= code@.len() || reaches_pos(code@, 0, f.pc as int),
            code_is_local(code@) ==> (forall|b: int|
                b != self_addr.val() ==> #[trigger] acct_at(led.model(), b) == acct_at(m0, b)),
            code_is_local(code@) ==> acct_at(led.model(), self_addr.val()) == (AccountV {
                storage: acct_at(led.model(), self_addr.val()).storage,
                ..acct_at(m0, self_addr.val())
            }),
            code_is_local(code@) ==> (forall|h: HaltM|
                spec_run(
                    c,
                    f.model(acct_at(led.model(), self_addr.val()).storage),
                    (f.gas.limit - f.gas.used + 1) as nat,
                ) == Some(h) ==> spec_run(c, mk_init(c, m0), fuel0) == Some(h)),
        decreases f.gas.limit - f.gas.used,
    {
        let op: u8 = if f.pc < code.len() {
            code[f.pc]
        } else {
            0x00
        };
        if op == OP_CALL {
            let ghost pre_pc = f.pc as int;
            proof {
                assert(reaches_pos(code@, 0, pre_pc));
                assert(!code_is_local(code@));
            }
            match nested_call(&mut f, led, code, self_addr, depth) {
                Some(fr) => {
                    return fr;
                },
                None => {
                    proof {
                        assert(pos_width(code@, pre_pc) == 1);
                        lemma_reaches_extend(code@, 0, pre_pc);
                    }
                    continue ;
                },
            }
        }
        if op == OP_CREATE {
            let ghost pre_pc = f.pc as int;
            proof {
                assert(reaches_pos(code@, 0, pre_pc));
                assert(!code_is_local(code@));
            }
            match nested_create(&mut f, led, code, self_addr, depth) {
                Some(fr) => {
                    return fr;
                },
                None => {
                    proof {
                        assert(pos_width(code@, pre_pc) == 1);
                        lemma_reaches_extend(code@, 0, pre_pc);
                    }
                    continue ;
                },
            }
        }
        let ghost pre_model = f.model(acct_at(led.model(), self_addr.val()).storage);
        let ghost pre_led = led.model();
        let ghost pre_used = f.gas.used as int;
        proof {
            assert(opcode_of(code@, f.pc as int) == op);
            assert(!(spec_step(c, pre_model) is Invoke));
        }
        match step(&mut f, led, code, input, value, self_addr) {
            StepOut::Cont => {
                proof {
                    if f.pc as int == pre_model.pc + pos_width(code@, pre_model.pc) {
                        lemma_reaches_extend(code@, 0, pre_model.pc);
                    } else {
                        lemma_jumpdest_is_pos(code@, 0, f.pc as int);
                    }
                    let m2 = spec_step(c, pre_model)->Cont_0;
                    lemma_with_storage_fields(pre_led, self_addr.val(), m2.storage);
                    if code_is_local(code@) {
                        assert forall|h: HaltM|
                            spec_run(
                                c,
                                f.model(acct_at(led.model(), self_addr.val()).storage),
                                (f.gas.limit - f.gas.used + 1) as nat,
                            ) == Some(h) implies spec_run(c, mk_init(c, m0), fuel0) == Some(
                            h,
                        ) by {
                            let cur = f.model(acct_at(led.model(), self_addr.val()).storage);
                            lemma_spec_run_mono(
                                c,
                                cur,
                                (f.gas.limit - f.gas.used + 1) as nat,
                                (f.gas.limit - pre_used) as nat,
                            );
                            assert(spec_run(c, pre_model, (f.gas.limit - pre_used + 1) as nat)
                                == Some(h));
                        }
                    }
                }
            },
            StepOut::Halt(reason, output) => {
                let gas_used = f.gas.gas_used();
                proof {
                    let h = spec_step(c, pre_model)->Halt_0;
                    if code_is_local(code@) {
                        assert(spec_run(c, pre_model, (f.gas.limit - pre_used + 1) as nat)
                            == Some(h));
                    }
                    assert(output@.len() <= MEM_CAP);
                }
                return FrameResult { reason, output, gas_used };
            },
        }
    }
}

/// Grows frame memory to cover `[off, off + len)` and charges for the
/// growth. `Err` stands for a request no gas limit can pay.
fn grow_range(f: &mut Frame, off_w: &U256, len_w: &U256) -> (r: Result<(u64, u64), ()>)
    requires
        old(f).inv(),
    ensures
        final(f).inv(),
        final(f).gas.limit == old(f).gas.limit,
        final(f).pc == old(f).pc,
        final(f).stack == old(f).stack,
        old(f).gas.used <= final(f).gas.used,
        old(f).mem@.len() <= final(f).mem@.len(),
        match r {
            Ok((o, l)) => o + l <= final(f).mem@.len(),
            Err(()) => *final(f) == *old(f),
        },
{
    let o: u64 = match off_w.to_u64() {
        Some(o) => o,
        None => {
            return Err(());
        },
    };
    let l: u64 = match len_w.to_u64() {
        Some(l) => l,
        None => {
            return Err(());
        },
    };
    if l == 0 {
        return Ok((0, 0));
    }
    if l > MEM_CAP || o > MEM_CAP - l {
        return Err(());
    }
    let ml: u64 = f.mem.len() as u64;
    let need: u64 = o + l;
    let tgt: u64 = if need <= ml {
        ml
    } else {
        ((need + 31) / 32) * 32
    };
    proof {
        vstd::arithmetic::div_mod::lemma_fundamental_div_mod(need as int + 31, 32);
    }
    let mcost: u64 = GAS_MEMWORD * ((tgt - ml) / 32);
    if !f.gas.charge(mcost) {
        return Err(());
    }
    mem_grow(&mut f.mem, tgt as usize);
    Ok((o, l))
}

/// One halt that ends the frame from inside a nested-call arm.
fn arm_halt(f: &Frame, reason: ExitReason) -> (r: FrameResult)
    requires
        f.gas.wf(),
    ensures
        r.gas_used <= f.gas.limit,
        r.output@.len() == 0,
        r.reason == reason,
{
    FrameResult { reason, output: Vec::new(), gas_used: f.gas.gas_used() }
}

/// The `CALL` opcode: carves out a gas stipend (all but one 64th of
/// what remains, capped by the requested amount), transfers the value,
/// runs the target's code one context deeper, and commits or discards
/// that context's writes by its outcome. A fatal outcome ends this
/// frame too. Sub-call revert isolation is a contract: when the arm
/// pushes the failure flag, the ledger — every account the sub-call or
/// its children wrote — is exactly what it was before the arm.
#[verifier::rlimit(100)]
fn nested_call(
    f: &mut Frame,
    led: &mut Ledger,
    code: &Vec<u8>,
    self_addr: &Address,
    depth: u64,
) -> (r: Option<FrameResult>)
    requires
        old(f).inv(),
        code@.len() <= MEM_CAP,
        depth <= MAX_DEPTH,
        old(f).pc < code@.len(),
    ensures
        final(f).inv(),
        final(f).gas.limit == old(f).gas.limit,
        (r is None) ==> old(f).gas.used < final(f).gas.used,
        (r is None) ==> final(f).pc == old(f).pc + 1 && final(f).stack@.len() + 6 == old(
            f,
        ).stack@.len() && (final(f).stack@.last().val() == 0 ==> final(led).model() == old(
            led,
        ).model()),
        match r {
            Some(fr) => fr.gas_used <= old(f).gas.limit && fr.output@.len() <= MEM_CAP,
            None => true,
        },
    decreases MAX_DEPTH - depth, 0int,
{
    if !f.gas.charge(GAS_CALL) {
        f.gas.consume_all();
        return Some(arm_halt(f, ExitReason::Error(ErrorKind::OutOfGas)));
    }
    if f.stack.len() < 7 {
        f.gas.consume_all();
        return Some(arm_halt(f, ExitReason::Error(ErrorKind::StackUnderflow)));
    }
    let gas_w = pop_word(&mut f.stack);
    let to_w = pop_word(&mut f.stack);
    let val_w = pop_word(&mut f.stack);
    let in_off_w = pop_word(&mut f.stack);
    let in_len_w = pop_word(&mut f.stack);
    let out_off_w = pop_word(&mut f.stack);
    let out_len_w = pop_word(&mut f.stack);
    let (io, il) = match grow_range(f, &in_off_w, &in_len_w) {
        Ok(p) => p,
        Err(()) => {
            f.gas.consume_all();
            return Some(arm_halt(f, ExitReason::Error(ErrorKind::OutOfGas)));
        },
    };
    let (oo, ol) = match grow_range(f, &out_off_w, &out_len_w) {
        Ok(p) => p,
        Err(()) => {
            f.gas.consume_all();
            return Some(arm_halt(f, ExitReason::Error(ErrorKind::OutOfGas)));
        },
    };
    if depth >= MAX_DEPTH {
        return Some(arm_halt(f, ExitReason::Fatal(FatalKind::CallDepthExceeded)));
    }
    let to = Address::from_word(&to_w);
    let rem = f.gas.remaining();
    let avail = rem - rem / 64;
    let req: u64 = match gas_w.to_u64() {
        Some(g) => g,
        None => u64::MAX,
    };
    let fwd: u64 = if req < avail {
        req
    } else {
        avail
    };
    let sub_input = mem_slice(&f.mem, io as usize, il as usize);
    let snap = led.snapshot();
    let moved = led.transfer(self_addr, &to, &val_w);
    if !moved {
        f.stack.push(U256::zero());
        f.pc = f.pc + 1;
        return None;
    }
    let child_code = led.get_account(&to).code;
    if child_code.len() as u64 > MEM_CAP {
        *led = snap;
        f.stack.push(U256::zero());
        f.pc = f.pc + 1;
        return None;
    }
    let fr = exec_frame(led, &child_code, &sub_input, &val_w, &to, fwd, depth + 1);
    let charged = f.gas.charge(fr.gas_used);
    proof {
        assert(charged);
    }
    if fr.reason.is_fatal_exec() {
        return Some(arm_halt(f, fr.reason));
    }
    if fr.reason.is_success() {
        let n: usize = if (ol as usize) < fr.output.len() {
            ol as usize
        } else {
            fr.output.len()
        };
        mem_copy_padded(&mut f.mem, oo as usize, &fr.output, 0, n);
        f.stack.push(U256::from_u64(1));
    } else {
        *led = snap;
        f.stack.push(U256::zero());
    }
    f.pc = f.pc + 1;
    None
}

/// The `CREATE` opcode: derives the child address from this account
/// and its nonce, bumps the nonce (the bump survives a failed run),
/// transfers the value, runs the init code one context deeper, and on
/// success installs the returned bytes as the child's code, pushing
/// the child address; any failure discards the child's writes and
/// pushes zero. Revert isolation is a contract: unless the arm pushed
/// the derived address (success), the ledger is exactly what it was
/// before the arm, nonce bump aside.
#[verifier::rlimit(100)]
fn nested_create(
    f: &mut Frame,
    led: &mut Ledger,
    code: &Vec<u8>,
    self_addr: &Address,
    depth: u64,
) -> (r: Option<FrameResult>)
    requires
        old(f).inv(),
        code@.len() <= MEM_CAP,
        depth <= MAX_DEPTH,
        old(f).pc < code@.len(),
    ensures
        final(f).inv(),
        final(f).gas.limit == old(f).gas.limit,
        (r is None) ==> old(f).gas.used < final(f).gas.used,
        (r is None) ==> final(f).pc == old(f).pc + 1 && final(f).stack@.len() + 2 == old(
            f,
        ).stack@.len() && (({
            let a0 = acct_at(old(led).model(), self_addr.val());
            final(led).model() == old(led).model().insert(
                self_addr.val(),
                AccountV {
                    nonce: if a0.nonce == u64::MAX {
                        a0.nonce as int
                    } else {
                        a0.nonce + 1
                    },
                    ..a0
                },
            )
        }) || final(f).stack@.last().val() == derive_spec(
            *self_addr,
            acct_at(old(led).model(), self_addr.val()).nonce as u64,
        ).val()),
        match r {
            Some(fr) => fr.gas_used <= old(f).gas.limit && fr.output@.len() <= MEM_CAP,
            None => true,
        },
    decreases MAX_DEPTH - depth, 0int,
{
    if !f.gas.charge(GAS_CREATE) {
        f.gas.consume_all();
        return Some(arm_halt(f, ExitReason::Error(ErrorKind::OutOfGas)));
    }
    if f.stack.len() < 3 {
        f.gas.consume_all();
        return Some(arm_halt(f, ExitReason::Error(ErrorKind::StackUnderflow)));
    }
    let val_w = pop_word(&mut f.stack);
    let off_w = pop_word(&mut f.stack);
    let len_w = pop_word(&mut f.stack);
    let (io, il) = match grow_range(f, &off_w, &len_w) {
        Ok(p) => p,
        Err(()) => {
            f.gas.consume_all();
            return Some(arm_halt(f, ExitReason::Error(ErrorKind::OutOfGas)));
        },
    };
    if depth >= MAX_DEPTH {
        return Some(arm_halt(f, ExitReason::Fatal(FatalKind::CallDepthExceeded)));
    }
    let init = mem_slice(&f.mem, io as usize, il as usize);
    let nonce0 = led.get_account(self_addr).nonce;
    let derived = derive_address(self_addr, nonce0);
    led.increment_nonce(self_addr);
    let acct_d = led.get_account(&derived);
    if acct_d.code.len() > 0 || acct_d.nonce > 0 {
        f.stack.push(U256::zero());
        f.pc = f.pc + 1;
        return None;
    }
    let snap = led.snapshot();
    let moved = led.transfer(self_addr, &derived, &val_w);
    if !moved {
        f.stack.push(U256::zero());
        f.pc = f.pc + 1;
        return None;
    }
    let rem = f.gas.remaining();
    let fwd = rem - rem / 64;
    let empty_input: Vec<u8> = Vec::new();
    let fr = exec_frame(led, &init, &empty_input, &val_w, &derived, fwd, depth + 1);
    let charged = f.gas.charge(fr.gas_used);
    proof {
        assert(charged);
    }
    if fr.reason.is_fatal_exec() {
        return Some(arm_halt(f, fr.reason));
    }
    if fr.reason.is_success() {
        let deployed = crate::account::clone_bytes(&fr.output);
        match led.set_code(&derived, deployed) {
            Ok(()) => {
                f.stack.push(derived.to_word());
            },
            Err(_) => {
                *led = snap;
                f.stack.push(U256::zero());
            },
        }
    } else {
        *led = snap;
        f.stack.push(U256::zero());
    }
    f.pc = f.pc + 1;
    None
}


/// The outcome of a top-level entry point.
#[derive(Debug)]
pub struct CallOutcome {
    pub address: Address,
    pub reason: ExitReason,
    pub output: Vec<u8>,
    pub gas_used: u64,
}

/// Why a creation is rejected before any code runs, if it is: the
/// caller's balance is short of the value transferred, the derived
/// address is already occupied, or the credit would wrap past 2^256.
/// The wrap case is a machine limit with no name of its own in the
/// error taxonomy; it is folded into `InsufficientBalance`, the funds
/// being unmovable either way.
pub open spec fn create_rejected(m: Map<int, AccountV>, caller: Address, value: int) -> Option<
    ValidationError,
> {
    let a = acct_at(m, caller.val());
    let d = derive_spec(caller, a.nonce as u64);
    let ad = acct_at(m, d.val());
    if a.balance < value {
        Some(ValidationError::InsufficientBalance)
    } else if ad.code.len() > 0 || ad.nonce > 0 {
        Some(ValidationError::AddressCollision)
    } else if caller.val() != d.val() && ad.balance + value >= pow256() {
        Some(ValidationError::InsufficientBalance)
    } else {
        None
    }
}

/// What a successful creation with call-free init code leaves behind:
/// the result triple is the halt `spec_run` reaches for the init code,
/// the new account holds the transferred value, the returned bytes as
/// code, and the frame's storage, the caller is debited the value and
/// the fee and its nonce advanced, and no other account moved.
pub open spec fn create_success_post(
    m0: Map<int, AccountV>,
    mf: Map<int, AccountV>,
    caller: Address,
    value: U256,
    gas_limit: int,
    gas_price: int,
    init_code: Seq<u8>,
    reason: ExitReason,
    output: Seq<u8>,
    gas_used: int,
) -> bool {
    let a0 = acct_at(m0, caller.val());
    let d = derive_spec(caller, a0.nonce as u64);
    let ad = acct_at(m0, d.val());
    let nonce2: int = if a0.nonce == u64::MAX {
        a0.nonce as int
    } else {
        a0.nonce + 1
    };
    let fee = gas_used * gas_price;
    let c = mk_ctx(init_code, Seq::empty(), value, d.val(), gas_limit);
    match spec_run(c, mk_init(c, m0), (gas_limit + 1) as nat) {
        Some(h) => reason == h.reason && output == h.output && gas_used == h.gas_used && (forall|
            b: int,
        |
            b != caller.val() && b != d.val() ==> #[trigger] acct_at(mf, b) == acct_at(m0, b))
            && acct_at(mf, d.val()) == (AccountV {
            balance: ad.balance + value.val(),
            nonce: ad.nonce,
            code: output,
            storage: h.storage,
        }) && acct_at(mf, caller.val()) == (AccountV {
            balance: sat_sub(a0.balance - value.val(), fee),
            nonce: nonce2,
            ..a0
        }),
        None => false,
    }
}


/// Chains the creation steps — nonce bump, value transfer, frame,
/// code install, fee — into `create_success_post`.
proof fn lemma_create_success(
    m0: Map<int, AccountV>,
    m1: Map<int, AccountV>,
    m2: Map<int, AccountV>,
    m3: Map<int, AccountV>,
    m4: Map<int, AccountV>,
    mf: Map<int, AccountV>,
    caller: Address,
    value: U256,
    gas_limit: int,
    gas_price: int,
    init_code: Seq<u8>,
    reason: ExitReason,
    output: Seq<u8>,
    gas_used: int,
)
    requires
        caller.val() != derive_spec(caller, acct_at(m0, caller.val()).nonce as u64).val(),
        ({
            let a0 = acct_at(m0, caller.val());
            m1 == m0.insert(
                caller.val(),
                AccountV {
                    nonce: if a0.nonce == u64::MAX {
                        a0.nonce as int
                    } else {
                        a0.nonce + 1
                    },
                    ..a0
                },
            )
        }),
        ({
            let d = derive_spec(caller, acct_at(m0, caller.val()).nonce as u64);
            m2 == m1.insert(
                caller.val(),
                AccountV {
                    balance: acct_at(m1, caller.val()).balance - value.val(),
                    ..acct_at(m1, caller.val())
                },
            ).insert(
                d.val(),
                AccountV {
                    balance: acct_at(m1, d.val()).balance + value.val(),
                    ..acct_at(m1, d.val())
                },
            )
        }),
        frame_pins(
            init_code,
            Seq::empty(),
            value,
            derive_spec(caller, acct_at(m0, caller.val()).nonce as u64).val(),
            gas_limit,
            m2,
            m3,
            reason,
            output,
            gas_used,
        ),
        ({
            let d = derive_spec(caller, acct_at(m0, caller.val()).nonce as u64);
            m4 == m3.insert(d.val(), AccountV { code: output, ..acct_at(m3, d.val()) })
        }),
        mf == m4.insert(
            caller.val(),
            AccountV {
                balance: sat_sub(acct_at(m4, caller.val()).balance, gas_used * gas_price),
                ..acct_at(m4, caller.val())
            },
        ),
    ensures
        create_success_post(
            m0,
            mf,
            caller,
            value,
            gas_limit,
            gas_price,
            init_code,
            reason,
            output,
            gas_used,
        ),
{
    let a0 = acct_at(m0, caller.val());
    let d = derive_spec(caller, a0.nonce as u64);
    let ad = acct_at(m0, d.val());
    let c = mk_ctx(init_code, Seq::empty(), value, d.val(), gas_limit);
    assert(acct_at(m1, d.val()) == ad);
    assert(acct_at(m2, d.val()).storage == ad.storage);
    assert(mk_init(c, m2) == mk_init(c, m0));
    match spec_run(c, mk_init(c, m0), (gas_limit + 1) as nat) {
        Some(h) => {
            assert forall|b: int|
                b != caller.val() && b != d.val() implies #[trigger] acct_at(mf, b) == acct_at(
                m0,
                b,
            ) by {
                assert(acct_at(m3, b) == acct_at(m2, b));
            }
            assert(acct_at(m3, d.val()) == (AccountV {
                storage: h.storage,
                ..acct_at(m2, d.val())
            }));
            assert(acct_at(mf, d.val()) == (AccountV {
                balance: ad.balance + value.val(),
                nonce: ad.nonce,
                code: output,
                storage: h.storage,
            }));
            assert(acct_at(m3, caller.val()) == acct_at(m2, caller.val()));
            assert(acct_at(mf, caller.val()) == (AccountV {
                balance: sat_sub(a0.balance - value.val(), gas_used * gas_price),
                nonce: if a0.nonce == u64::MAX {
                    a0.nonce as int
                } else {
                    a0.nonce + 1
                },
                ..a0
            }));
        },
        None => {
            assert(false);
        },
    }
}


/// Chains the call steps — value transfer, frame, fee — into
/// `call_success_post`.
proof fn lemma_call_success(
    m0: Map<int, AccountV>,
    m2: Map<int, AccountV>,
    m3: Map<int, AccountV>,
    mf: Map<int, AccountV>,
    caller: Address,
    target: Address,
    input: Seq<u8>,
    value: U256,
    gas_limit: int,
    gas_price: int,
    reason: ExitReason,
    output: Seq<u8>,
    gas_used: int,
)
    requires
        caller.val() != target.val(),
        m2 == m0.insert(
            caller.val(),
            AccountV {
                balance: acct_at(m0, caller.val()).balance - value.val(),
                ..acct_at(m0, caller.val())
            },
        ).insert(
            target.val(),
            AccountV {
                balance: acct_at(m0, target.val()).balance + value.val(),
                ..acct_at(m0, target.val())
            },
        ),
        frame_pins(
            acct_at(m0, target.val()).code,
            input,
            value,
            target.val(),
            gas_limit,
            m2,
            m3,
            reason,
            output,
            gas_used,
        ),
        mf == m3.insert(
            caller.val(),
            AccountV {
                balance: sat_sub(acct_at(m3, caller.val()).balance, gas_used * gas_price),
                ..acct_at(m3, caller.val())
            },
        ),
    ensures
        call_success_post(
            m0,
            mf,
            caller,
            target,
            input,
            value,
            gas_limit,
            gas_price,
            reason,
            output,
            gas_used,
        ),
{
    let a0 = acct_at(m0, caller.val());
    let t0 = acct_at(m0, target.val());
    let c = mk_ctx(t0.code, input, value, target.val(), gas_limit);
    assert(acct_at(m2, target.val()).storage == t0.storage);
    assert(mk_init(c, m2) == mk_init(c, m0));
    match spec_run(c, mk_init(c, m0), (gas_limit + 1) as nat) {
        Some(h) => {
            assert forall|b: int|
                b != caller.val() && b != target.val() implies #[trigger] acct_at(mf, b)
                == acct_at(m0, b) by {
                assert(acct_at(m3, b) == acct_at(m2, b));
            }
            assert(acct_at(m3, target.val()) == (AccountV {
                storage: h.storage,
                ..acct_at(m2, target.val())
            }));
            assert(acct_at(mf, target.val()) == (AccountV {
                balance: t0.balance + value.val(),
                storage: h.storage,
                ..t0
            }));
            assert(acct_at(m3, caller.val()) == acct_at(m2, caller.val()));
            assert(acct_at(mf, caller.val()) == (AccountV {
                balance: sat_sub(a0.balance - value.val(), gas_used * gas_price),
                ..a0
            }));
        },
        None => {
            assert(false);
        },
    }
}

/// Balance conservation and exact gas settlement for creation, as a
/// consequence of `create`'s contract: a successful creation with
/// call-free init code moves `value` to the new account, burns exactly
/// `gas_used * gas_price` from the caller, and touches no other
/// account.
pub proof fn lemma_create_settlement(
    m0: Map<int, AccountV>,
    mf: Map<int, AccountV>,
    caller: Address,
    value: U256,
    gas_limit: int,
    gas_price: int,
    init_code: Seq<u8>,
    reason: ExitReason,
    output: Seq<u8>,
    gas_used: int,
)
    requires
        caller.val() != derive_spec(caller, acct_at(m0, caller.val()).nonce as u64).val(),
        create_success_post(
            m0,
            mf,
            caller,
            value,
            gas_limit,
            gas_price,
            init_code,
            reason,
            output,
            gas_used,
        ),
        acct_at(m0, caller.val()).balance - value.val() >= gas_used * gas_price,
    ensures
        ({
            let d = derive_spec(caller, acct_at(m0, caller.val()).nonce as u64);
            acct_at(mf, caller.val()).balance == acct_at(m0, caller.val()).balance - value.val()
                - gas_used * gas_price && acct_at(mf, d.val()).balance == acct_at(
                m0,
                d.val(),
            ).balance + value.val() && (forall|b: int|
                b != caller.val() && b != d.val() ==> #[trigger] acct_at(mf, b) == acct_at(
                    m0,
                    b,
                ))
        }),
{
    let a0 = acct_at(m0, caller.val());
    let d = derive_spec(caller, a0.nonce as u64);
    let c = mk_ctx(init_code, Seq::empty(), value, d.val(), gas_limit);
    match spec_run(c, mk_init(c, m0), (gas_limit + 1) as nat) {
        Some(h) => {
        },
        None => {
            assert(false);
        },
    }
}

/// Deploys `init_code` as the account derived from the caller and its
/// current nonce. Validation checks only that the caller can pay the
/// value; gas is settled after the run, `gas_used * gas_price`, taken
/// saturating from what the caller then holds. The nonce increment
/// survives a failed run; every other write of a failed run is
/// discarded; a fatal outcome discards everything, the fee included.
#[verifier::rlimit(100)]
pub fn create(
    led: &mut Ledger,
    caller: &Address,
    init_code: &Vec<u8>,
    value: &U256,
    gas_limit: u64,
    gas_price: u64,
) -> (r: Result<CallOutcome, ValidationError>)
    requires
        init_code@.len() <= MEM_CAP,
    ensures
        match create_rejected(old(led).model(), *caller, value.val()) {
            Some(e) => r == Err::<CallOutcome, ValidationError>(e) && *final(led) == *old(led),
            None => match r {
                Ok(o) => o.gas_used <= gas_limit && o.address == derive_spec(
                    *caller,
                    acct_at(old(led).model(), caller.val()).nonce as u64,
                ) && (o.reason.is_fatal() ==> final(led).model() == old(led).model()) && (
                !o.reason.is_succeed() && !o.reason.is_fatal() ==> ({
                    let a0 = acct_at(old(led).model(), caller.val());
                    let fee = o.gas_used * gas_price;
                    final(led).model() == old(led).model().insert(
                        caller.val(),
                        AccountV {
                            nonce: if a0.nonce == u64::MAX {
                                a0.nonce as int
                            } else {
                                a0.nonce + 1
                            },
                            balance: sat_sub(a0.balance, fee),
                            ..a0
                        },
                    )
                })) && (code_is_local(init_code@) ==> triple_pinned(
                    init_code@,
                    Seq::empty(),
                    *value,
                    derive_spec(
                        *caller,
                        acct_at(old(led).model(), caller.val()).nonce as u64,
                    ).val(),
                    gas_limit as int,
                    old(led).model(),
                    o.reason,
                    o.output@,
                    o.gas_used as int,
                )) && (o.reason.is_succeed() && caller.val() != derive_spec(
                    *caller,
                    acct_at(old(led).model(), caller.val()).nonce as u64,
                ).val() && code_is_local(init_code@) ==> create_success_post(
                    old(led).model(),
                    final(led).model(),
                    *caller,
                    *value,
                    gas_limit as int,
                    gas_price as int,
                    init_code@,
                    o.reason,
                    o.output@,
                    o.gas_used as int,
                )),
                Err(_) => false,
            },
        },
{
    let acct_c = led.get_account(caller);
    if acct_c.balance.lt(value) {
        return Err(ValidationError::InsufficientBalance);
    }
    let nonce0 = acct_c.nonce;
    let derived = derive_address(caller, nonce0);
    let acct_d = led.get_account(&derived);
    if acct_d.code.len() > 0 || acct_d.nonce > 0 {
        return Err(ValidationError::AddressCollision);
    }
    if !caller.eq_addr(&derived) {
        if acct_d.balance.checked_add(value).is_none() {
            return Err(ValidationError::InsufficientBalance);
        }
    }
    let ghost m0 = led.model();
    let snap0 = led.snapshot();
    led.increment_nonce(caller);
    let snap1 = led.snapshot();
    let ghost m1 = led.model();
    let moved = led.transfer(caller, &derived, value);
    proof {
        assert(moved);
    }
    let ghost m2 = led.model();
    let empty_input: Vec<u8> = Vec::new();
    let fr = exec_frame(led, init_code, &empty_input, value, &derived, gas_limit, 0);
    let ghost m3 = led.model();
    proof {
        if code_is_local(init_code@) {
            assert(empty_input@ =~= Seq::<u8>::empty());
            assert(acct_at(m2, derived.val()).storage == acct_at(m0, derived.val()).storage);
            let c = mk_ctx(init_code@, Seq::empty(), *value, derived.val(), gas_limit as int);
            assert(mk_init(c, m2) == mk_init(c, m0));
        }
    }
    let fee = settle_fee(fr.gas_used, gas_price);
    if fr.reason.is_fatal_exec() {
        *led = snap0;
        return Ok(
            CallOutcome {
                address: derived,
                reason: fr.reason,
                output: fr.output,
                gas_used: fr.gas_used,
            },
        );
    }
    if fr.reason.is_success() {
        let deployed = crate::account::clone_bytes(&fr.output);
        match led.set_code(&derived, deployed) {
            Ok(()) => {
                let ghost m4 = led.model();
                deduct(led, caller, &fee);
                proof {
                    assert(empty_input@ =~= Seq::<u8>::empty());
                    if caller.val() != derived.val() && code_is_local(init_code@) {
                        lemma_create_success(
                            m0,
                            m1,
                            m2,
                            m3,
                            m4,
                            led.model(),
                            *caller,
                            *value,
                            gas_limit as int,
                            gas_price as int,
                            init_code@,
                            fr.reason,
                            fr.output@,
                            fr.gas_used as int,
                        );
                    }
                }
                return Ok(
                    CallOutcome {
                        address: derived,
                        reason: fr.reason,
                        output: fr.output,
                        gas_used: fr.gas_used,
                    },
                );
            },
            Err(_) => {
                proof {
                    // the derived account acquired code during the init run:
                    // reachable only through a hash collision of a nested
                    // creation, so never for call-free init code
                    if code_is_local(init_code@) {
                        assert(acct_at(m2, derived.val()).code == acct_at(
                            m0,
                            derived.val(),
                        ).code);
                        assert(false);
                    }
                }
                *led = snap1;
                deduct(led, caller, &fee);
                proof {
                    assert(led.model() =~= old(led).model().insert(
                        caller.val(),
                        AccountV {
                            nonce: if acct_at(old(led).model(), caller.val()).nonce == u64::MAX {
                                acct_at(old(led).model(), caller.val()).nonce as int
                            } else {
                                acct_at(old(led).model(), caller.val()).nonce + 1
                            },
                            balance: sat_sub(
                                acct_at(old(led).model(), caller.val()).balance,
                                fee.val(),
                            ),
                            ..acct_at(old(led).model(), caller.val())
                        },
                    ));
                }
                return Ok(
                    CallOutcome {
                        address: derived,
                        reason: ExitReason::Error(ErrorKind::InvalidOpcode),
                        output: Vec::new(),
                        gas_used: fr.gas_used,
                    },
                );
            },
        }
    } else {
        *led = snap1;
        deduct(led, caller, &fee);
        proof {
            assert(led.model() =~= old(led).model().insert(
        caller.val(),
        AccountV {
            nonce: if acct_at(old(led).model(), caller.val()).nonce == u64::MAX {
                acct_at(old(led).model(), caller.val()).nonce as int
            } else {
                acct_at(old(led).model(), caller.val()).nonce + 1
            },
            balance: sat_sub(acct_at(old(led).model(), caller.val()).balance, fee.val()),
            ..acct_at(old(led).model(), caller.val())
        },
            ));
        }
        return Ok(
            CallOutcome {
                address: derived,
                reason: fr.reason,
                output: fr.output,
                gas_used: fr.gas_used,
            },
        );
    }
}

/// The fee a finished top-level entry owes: `gas_used * gas_price`.
fn settle_fee(gas_used: u64, gas_price: u64) -> (r: U256)
    ensures
        r.val() == gas_used * gas_price,
{
    proof {
        assert((gas_used as int) * (gas_price as int) <= 0xfffffffffffffffe_0000000000000001int)
            by (nonlinear_arith)
            requires
                gas_used <= 0xffff_ffff_ffff_ffffu64,
                gas_price <= 0xffff_ffff_ffff_ffffu64,
        ;
    }
    U256::from_u128((gas_used as u128) * (gas_price as u128))
}

/// Takes `fee` from the account, saturating at zero.
fn deduct(led: &mut Ledger, caller: &Address, fee: &U256)
    ensures
        final(led).model() == old(led).model().insert(
            caller.val(),
            AccountV {
                balance: sat_sub(acct_at(old(led).model(), caller.val()).balance, fee.val()),
                ..acct_at(old(led).model(), caller.val())
            },
        ),
{
    let acct = led.get_account(caller);
    match acct.balance.checked_sub(fee) {
        Some(b) => led.set_balance(caller, b),
        None => led.set_balance(caller, U256::zero()),
    }
}

/// Why a call is rejected before any code runs, if it is: the caller
/// cannot pay the value, or the credit would wrap past 2^256. The
/// wrap case is a machine limit with no name of its own in the error
/// taxonomy; it is folded into `InsufficientBalance`.
pub open spec fn call_rejected(
    m: Map<int, AccountV>,
    caller: Address,
    target: Address,
    value: int,
) -> Option<ValidationError> {
    let a = acct_at(m, caller.val());
    let t = acct_at(m, target.val());
    if a.balance < value {
        Some(ValidationError::InsufficientBalance)
    } else if caller.val() != target.val() && t.balance + value >= pow256() {
        Some(ValidationError::InsufficientBalance)
    } else {
        None
    }
}

/// What a successful call of a call-free target leaves behind: the
/// result triple is the halt `spec_run` reaches for the target's code,
/// the target holds the transferred value and the frame's storage, the
/// caller is debited the value and the fee, and no other account
/// moved.
pub open spec fn call_success_post(
    m0: Map<int, AccountV>,
    mf: Map<int, AccountV>,
    caller: Address,
    target: Address,
    input: Seq<u8>,
    value: U256,
    gas_limit: int,
    gas_price: int,
    reason: ExitReason,
    output: Seq<u8>,
    gas_used: int,
) -> bool {
    let a0 = acct_at(m0, caller.val());
    let t0 = acct_at(m0, target.val());
    let fee = gas_used * gas_price;
    let c = mk_ctx(t0.code, input, value, target.val(), gas_limit);
    match spec_run(c, mk_init(c, m0), (gas_limit + 1) as nat) {
        Some(h) => reason == h.reason && output == h.output && gas_used == h.gas_used && (forall|
            b: int,
        |
            b != caller.val() && b != target.val() ==> #[trigger] acct_at(mf, b) == acct_at(
                m0,
                b,
            )) && acct_at(mf, target.val()) == (AccountV {
            balance: t0.balance + value.val(),
            storage: h.storage,
            ..t0
        }) && acct_at(mf, caller.val()) == (AccountV {
            balance: sat_sub(a0.balance - value.val(), fee),
            ..a0
        }),
        None => false,
    }
}

/// Balance conservation and exact gas settlement, as a consequence of
/// `call`'s contract: a successful call of a call-free target moves
/// `value` from caller to target, burns exactly `gas_used * gas_price`
/// from the caller, and touches no other account. In particular, when
/// the caller can pay,
/// `balance_before - value - gas_used * gas_price == balance_after`.
pub proof fn lemma_call_settlement(
    m0: Map<int, AccountV>,
    mf: Map<int, AccountV>,
    caller: Address,
    target: Address,
    input: Seq<u8>,
    value: U256,
    gas_limit: int,
    gas_price: int,
    reason: ExitReason,
    output: Seq<u8>,
    gas_used: int,
)
    requires
        caller.val() != target.val(),
        call_success_post(
            m0,
            mf,
            caller,
            target,
            input,
            value,
            gas_limit,
            gas_price,
            reason,
            output,
            gas_used,
        ),
        acct_at(m0, caller.val()).balance - value.val() >= gas_used * gas_price,
    ensures
        acct_at(mf, caller.val()).balance == acct_at(m0, caller.val()).balance - value.val()
            - gas_used * gas_price,
        acct_at(mf, target.val()).balance == acct_at(m0, target.val()).balance + value.val(),
        acct_at(mf, caller.val()).balance + acct_at(mf, target.val()).balance == acct_at(
            m0,
            caller.val(),
        ).balance + acct_at(m0, target.val()).balance - gas_used * gas_price,
        forall|b: int|
            b != caller.val() && b != target.val() ==> #[trigger] acct_at(mf, b) == acct_at(
                m0,
                b,
            ),
{
    let t0 = acct_at(m0, target.val());
    let c = mk_ctx(t0.code, input, value, target.val(), gas_limit);
    match spec_run(c, mk_init(c, m0), (gas_limit + 1) as nat) {
        Some(h) => {
        },
        None => {
            assert(false);
        },
    }
}

/// Calls `target` with `input`, transferring `value` first; an empty
/// target account is a pure transfer. Validation checks only that the
/// caller can pay the value; gas is settled after the run, `gas_used *
/// gas_price`, taken saturating. A failed run discards every write
/// including the transfer; a fatal outcome discards the fee as well.
#[verifier::rlimit(100)]
pub fn call(
    led: &mut Ledger,
    caller: &Address,
    target: &Address,
    input: &Vec<u8>,
    value: &U256,
    gas_limit: u64,
    gas_price: u64,
) -> (r: Result<CallOutcome, ValidationError>)
    ensures
        match call_rejected(old(led).model(), *caller, *target, value.val()) {
            Some(e) => r == Err::<CallOutcome, ValidationError>(e) && *final(led) == *old(led),
            None => match r {
                Ok(o) => o.gas_used <= gas_limit && o.address == *target && (o.reason.is_fatal()
                    ==> final(led).model() == old(led).model()) && (!o.reason.is_succeed()
                    && !o.reason.is_fatal() ==> ({
                    let a0 = acct_at(old(led).model(), caller.val());
                    let fee = o.gas_used * gas_price;
                    final(led).model() == old(led).model().insert(
                        caller.val(),
                        AccountV { balance: sat_sub(a0.balance, fee), ..a0 },
                    )
                })) && ({
                    let t0 = acct_at(old(led).model(), target.val());
                    code_is_local(t0.code) && t0.code.len() <= MEM_CAP ==> triple_pinned(
                        t0.code,
                        input@,
                        *value,
                        target.val(),
                        gas_limit as int,
                        old(led).model(),
                        o.reason,
                        o.output@,
                        o.gas_used as int,
                    )
                }) && (o.reason.is_succeed() && caller.val() != target.val() && code_is_local(
                    acct_at(old(led).model(), target.val()).code,
                ) ==> call_success_post(
                    old(led).model(),
                    final(led).model(),
                    *caller,
                    *target,
                    input@,
                    *value,
                    gas_limit as int,
                    gas_price as int,
                    o.reason,
                    o.output@,
                    o.gas_used as int,
                )),
                Err(_) => false,
            },
        },
{
    let acct_c = led.get_account(caller);
    if acct_c.balance.lt(value) {
        return Err(ValidationError::InsufficientBalance);
    }
    if !caller.eq_addr(target) {
        let acct_t = led.get_account(target);
        if acct_t.balance.checked_add(value).is_none() {
            return Err(ValidationError::InsufficientBalance);
        }
    }
    let ghost m0 = led.model();
    let snap0 = led.snapshot();
    let moved = led.transfer(caller, target, value);
    proof {
        assert(moved);
    }
    let ghost m2 = led.model();
    let code = led.get_account(target).code;
    proof {
        assert(code@ == acct_at(m0, target.val()).code);
    }
    let fr = if code.len() as u64 <= MEM_CAP {
        exec_frame(led, &code, input, value, target, gas_limit, 0)
    } else {
        FrameResult {
            reason: ExitReason::Error(ErrorKind::OutOfGas),
            output: Vec::new(),
            gas_used: gas_limit,
        }
    };
    let ghost m3 = led.model();
    proof {
        if code_is_local(code@) && code@.len() <= MEM_CAP {
            assert(acct_at(m2, target.val()).storage == acct_at(m0, target.val()).storage);
            let c = mk_ctx(code@, input@, *value, target.val(), gas_limit as int);
            assert(mk_init(c, m2) == mk_init(c, m0));
        }
    }
    let fee = settle_fee(fr.gas_used, gas_price);
    if fr.reason.is_fatal_exec() {
        *led = snap0;
        return Ok(
            CallOutcome {
                address: *target,
                reason: fr.reason,
                output: fr.output,
                gas_used: fr.gas_used,
            },
        );
    }
    if fr.reason.is_success() {
        deduct(led, caller, &fee);
        proof {
            if caller.val() != target.val() && code_is_local(acct_at(m0, target.val()).code) {
                lemma_call_success(
                    m0,
                    m2,
                    m3,
                    led.model(),
                    *caller,
                    *target,
                    input@,
                    *value,
                    gas_limit as int,
                    gas_price as int,
                    fr.reason,
                    fr.output@,
                    fr.gas_used as int,
                );
            }
        }
        Ok(
            CallOutcome {
                address: *target,
                reason: fr.reason,
                output: fr.output,
                gas_used: fr.gas_used,
            },
        )
    } else {
        *led = snap0;
        deduct(led, caller, &fee);
        proof {
            assert(led.model() =~= old(led).model().insert(
                caller.val(),
                AccountV {
                    balance: sat_sub(
                        acct_at(old(led).model(), caller.val()).balance,
                        fee.val(),
                    ),
                    ..acct_at(old(led).model(), caller.val())
                },
            ));
        }
        Ok(
            CallOutcome {
                address: *target,
                reason: fr.reason,
                output: fr.output,
                gas_used: fr.gas_used,
            },
        )
    }
}

} // verus!
