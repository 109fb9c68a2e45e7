//! The bytecode interpreter: a stack machine over 256-bit words with
//! byte-addressable memory, metered by gas.
//!
//! The semantics are given once, as the specification function
//! `spec_step` over a mathematical machine state; the executable
//! `step` is proved to implement it, and `spec_run` iterates it.
//! Call-family and create-family opcodes are not part of `spec_step`:
//! they recurse into the dispatcher and are handled at the frame level.

use vstd::prelude::*;
use vstd::arithmetic::power2::pow2;
use crate::account::{AccountV, Address};
use crate::exit::{ErrorKind, ExitReason, SucceedKind};
use crate::gas::GasMeter;
use crate::ledger::{Ledger, acct_at};
use crate::machine::{
    be_val, copied, grown, load32, load32_exec, mem_copy_padded, mem_grow, mem_read_word,
    mem_slice, mem_write_word, push_arg, push_arg_exec, stored32, word_from_be32,
};
use crate::word::{U256, pow256, u256_of, lemma_canonical};

verus! {

pub const OP_STOP: u8 = 0x00;
pub const OP_ADD: u8 = 0x01;
pub const OP_MUL: u8 = 0x02;
pub const OP_SUB: u8 = 0x03;
pub const OP_DIV: u8 = 0x04;
pub const OP_MOD: u8 = 0x06;
pub const OP_LT: u8 = 0x10;
pub const OP_GT: u8 = 0x11;
pub const OP_EQ: u8 = 0x14;
pub const OP_ISZERO: u8 = 0x15;
pub const OP_SHR: u8 = 0x1c;
pub const OP_CALLVALUE: u8 = 0x34;
pub const OP_CALLDATALOAD: u8 = 0x35;
pub const OP_CALLDATASIZE: u8 = 0x36;
pub const OP_CODECOPY: u8 = 0x39;
pub const OP_POP: u8 = 0x50;
pub const OP_MLOAD: u8 = 0x51;
pub const OP_MSTORE: u8 = 0x52;
pub const OP_SLOAD: u8 = 0x54;
pub const OP_SSTORE: u8 = 0x55;
pub const OP_JUMP: u8 = 0x56;
pub const OP_JUMPI: u8 = 0x57;
pub const OP_JUMPDEST: u8 = 0x5b;
pub const OP_PUSH1: u8 = 0x60;
pub const OP_PUSH32: u8 = 0x7f;
pub const OP_DUP1: u8 = 0x80;
pub const OP_DUP16: u8 = 0x8f;
pub const OP_SWAP1: u8 = 0x90;
pub const OP_SWAP16: u8 = 0x9f;
pub const OP_CREATE: u8 = 0xf0;
pub const OP_CALL: u8 = 0xf1;
pub const OP_RETURN: u8 = 0xf3;
pub const OP_REVERT: u8 = 0xfd;

pub const GAS_BASE: u64 = 2;
pub const GAS_VERYLOW: u64 = 3;
pub const GAS_LOW: u64 = 5;
pub const GAS_MID: u64 = 8;
pub const GAS_HIGH: u64 = 10;
pub const GAS_JUMPDEST: u64 = 1;
pub const GAS_SLOAD: u64 = 200;
pub const GAS_SSTORE: u64 = 5000;
pub const GAS_MEMWORD: u64 = 3;
pub const GAS_COPYWORD: u64 = 3;
pub const GAS_CALL: u64 = 700;
pub const GAS_CREATE: u64 = 32000;

/// The largest memory extent a frame may address; asking past it is
/// treated as a cost no gas limit can pay.
pub const MEM_CAP: u64 = 0x4000_0000;

/// The value stack holds at most this many words.
pub const STACK_CAP: usize = 1024;

/// The immutable surroundings of one frame.
pub ghost struct FrameCtx {
    pub code: Seq<u8>,
    pub input: Seq<u8>,
    pub value: U256,
    pub self_addr: int,
    pub gas_limit: int,
}

/// The changing part of one frame.
pub ghost struct MState {
    pub pc: int,
    pub stack: Seq<U256>,
    pub mem: Seq<u8>,
    pub storage: Map<int, int>,
    pub gas_used: int,
}

/// A finished frame: its exit classification, output bytes, the gas it
/// used, and its final persistent storage.
pub ghost struct HaltM {
    pub reason: ExitReason,
    pub output: Seq<u8>,
    pub gas_used: int,
    pub storage: Map<int, int>,
}

pub ghost enum StepSpec {
    Cont(MState),
    Halt(HaltM),
    Invoke,
}

/// An execution error consumes all gas supplied to the frame.
pub open spec fn halt_error(c: FrameCtx, s: MState, k: ErrorKind) -> StepSpec {
    StepSpec::Halt(
        HaltM {
            reason: ExitReason::Error(k),
            output: Seq::empty(),
            gas_used: c.gas_limit,
            storage: s.storage,
        },
    )
}

/// The memory extent after an access to `[_, need)`: unchanged when it
/// already fits, else rounded up to a word boundary.
pub open spec fn mtarget(len: int, need: int) -> int {
    if need <= len {
        len
    } else {
        ((need + 31) / 32) * 32
    }
}

/// The gas charged for growing memory from `len` to `mtarget`.
pub open spec fn mem_cost(len: int, need: int) -> int {
    GAS_MEMWORD * ((mtarget(len, need) - len) / 32)
}

/// Whether `dest` is a jump destination marker standing in code, not
/// inside the operand of a push instruction; scanned from `i`.
pub open spec fn jumpdest_from(code: Seq<u8>, i: int, dest: int) -> bool
    decreases code.len() - i
        when 0 <= i <= code.len()
{
    if i >= code.len() || i > dest {
        false
    } else if i == dest {
        code[i] == OP_JUMPDEST
    } else {
        let w: int = if OP_PUSH1 <= code[i] <= OP_PUSH32 {
            1 + (code[i] - (OP_PUSH1 - 1))
        } else {
            1
        };
        if i + w > code.len() {
            false
        } else {
            jumpdest_from(code, i + w, dest)
        }
    }
}

pub open spec fn is_jumpdest(code: Seq<u8>, dest: int) -> bool {
    jumpdest_from(code, 0, dest)
}

/// One interpreter step. Fetches the opcode at `pc` (an implicit stop
/// past the end of code), charges its gas, validates the stack, and
/// executes; the work is split into opcode groups.
pub open spec fn spec_step(c: FrameCtx, s: MState) -> StepSpec {
    let op: u8 = opcode_of(c.code, s.pc);
    if op == OP_STOP || op == OP_ADD || op == OP_MUL || op == OP_SUB || op == OP_DIV
        || op == OP_MOD || op == OP_LT || op == OP_GT || op == OP_EQ || op == OP_SHR
        || op == OP_ISZERO {
        spec_step_a(c, s)
    } else if op == OP_CALLVALUE || op == OP_CALLDATASIZE || op == OP_CALLDATALOAD
        || op == OP_POP || (OP_PUSH1 <= op && op <= OP_PUSH32)
        || (OP_DUP1 <= op && op <= OP_DUP16) || (OP_SWAP1 <= op && op <= OP_SWAP16) {
        spec_step_b(c, s)
    } else if op == OP_SLOAD || op == OP_SSTORE || op == OP_JUMP || op == OP_JUMPI
        || op == OP_JUMPDEST {
        spec_step_c(c, s)
    } else if op == OP_CALL || op == OP_CREATE {
        StepSpec::Invoke
    } else {
        spec_step_d(c, s)
    }
}

/// The opcode fetched at `pc`: an implicit stop past the end of code.
pub open spec fn opcode_of(code: Seq<u8>, pc: int) -> u8 {
    if pc < code.len() {
        code[pc]
    } else {
        OP_STOP
    }
}

pub open spec fn spec_step_a(c: FrameCtx, s: MState) -> StepSpec {
    let n = s.stack.len() as int;
    let op: u8 = opcode_of(c.code, s.pc);
    if op == OP_STOP {
        StepSpec::Halt(
            HaltM {
                reason: ExitReason::Succeed(SucceedKind::Stop),
                output: Seq::empty(),
                gas_used: s.gas_used,
                storage: s.storage,
            },
        )
    } else if op == OP_ADD || op == OP_MUL || op == OP_SUB || op == OP_DIV || op == OP_MOD || op
        == OP_LT || op == OP_GT || op == OP_EQ || op == OP_SHR {
        let cost: int = if op == OP_MUL || op == OP_DIV || op == OP_MOD {
            GAS_LOW as int
        } else {
            GAS_VERYLOW as int
        };
        if s.gas_used + cost > c.gas_limit {
            halt_error(c, s, ErrorKind::OutOfGas)
        } else if n < 2 {
            halt_error(c, s, ErrorKind::StackUnderflow)
        } else {
            let x = s.stack[n - 1].val();
            let y = s.stack[n - 2].val();
            let v: int = if op == OP_ADD {
                (x + y) % pow256()
            } else if op == OP_MUL {
                (x * y) % pow256()
            } else if op == OP_SUB {
                (x - y) % pow256()
            } else if op == OP_DIV {
                if y == 0 {
                    0
                } else {
                    x / y
                }
            } else if op == OP_MOD {
                if y == 0 {
                    0
                } else {
                    x % y
                }
            } else if op == OP_LT {
                if x < y {
                    1
                } else {
                    0
                }
            } else if op == OP_GT {
                if x > y {
                    1
                } else {
                    0
                }
            } else if op == OP_EQ {
                if x == y {
                    1
                } else {
                    0
                }
            } else {
                if x >= 256 {
                    0
                } else {
                    y / pow2(x as nat) as int
                }
            };
            StepSpec::Cont(
                MState {
                    pc: s.pc + 1,
                    stack: s.stack.take(n - 2).push(u256_of(v)),
                    gas_used: s.gas_used + cost,
                    ..s
                },
            )
        }
    } else if op == OP_ISZERO {
        if s.gas_used + GAS_VERYLOW > c.gas_limit {
            halt_error(c, s, ErrorKind::OutOfGas)
        } else if n < 1 {
            halt_error(c, s, ErrorKind::StackUnderflow)
        } else {
            let x = s.stack[n - 1].val();
            let v: int = if x == 0 {
                1
            } else {
                0
            };
            StepSpec::Cont(
                MState {
                    pc: s.pc + 1,
                    stack: s.stack.take(n - 1).push(u256_of(v)),
                    gas_used: s.gas_used + GAS_VERYLOW,
                    ..s
                },
            )
        }
    } else {
        halt_error(c, s, ErrorKind::InvalidOpcode)
    }
}

pub open spec fn spec_step_b(c: FrameCtx, s: MState) -> StepSpec {
    let n = s.stack.len() as int;
    let op: u8 = opcode_of(c.code, s.pc);
    if op == OP_CALLVALUE || op == OP_CALLDATASIZE {
        if s.gas_used + GAS_BASE > c.gas_limit {
            halt_error(c, s, ErrorKind::OutOfGas)
        } else if n >= STACK_CAP {
            halt_error(c, s, ErrorKind::StackOverflow)
        } else {
            let w: U256 = if op == OP_CALLVALUE {
                c.value
            } else {
                u256_of(c.input.len() as int)
            };
            StepSpec::Cont(
                MState {
                    pc: s.pc + 1,
                    stack: s.stack.push(w),
                    gas_used: s.gas_used + GAS_BASE,
                    ..s
                },
            )
        }
    } else if op == OP_CALLDATALOAD {
        if s.gas_used + GAS_VERYLOW > c.gas_limit {
            halt_error(c, s, ErrorKind::OutOfGas)
        } else if n < 1 {
            halt_error(c, s, ErrorKind::StackUnderflow)
        } else {
            let off = s.stack[n - 1].val();
            StepSpec::Cont(
                MState {
                    pc: s.pc + 1,
                    stack: s.stack.take(n - 1).push(u256_of(be_val(load32(c.input, off)))),
                    gas_used: s.gas_used + GAS_VERYLOW,
                    ..s
                },
            )
        }
    } else if op == OP_POP {
        if s.gas_used + GAS_BASE > c.gas_limit {
            halt_error(c, s, ErrorKind::OutOfGas)
        } else if n < 1 {
            halt_error(c, s, ErrorKind::StackUnderflow)
        } else {
            StepSpec::Cont(
                MState {
                    pc: s.pc + 1,
                    stack: s.stack.take(n - 1),
                    gas_used: s.gas_used + GAS_BASE,
                    ..s
                },
            )
        }
    } else if OP_PUSH1 <= op <= OP_PUSH32 {
        let w: int = 1 + (op - (OP_PUSH1 - 1));
        if s.gas_used + GAS_VERYLOW > c.gas_limit {
            halt_error(c, s, ErrorKind::OutOfGas)
        } else if n >= STACK_CAP {
            halt_error(c, s, ErrorKind::StackOverflow)
        } else {
            StepSpec::Cont(
                MState {
                    pc: s.pc + w,
                    stack: s.stack.push(
                        u256_of(be_val(push_arg(c.code, s.pc, (op - (OP_PUSH1 - 1)) as int))),
                    ),
                    gas_used: s.gas_used + GAS_VERYLOW,
                    ..s
                },
            )
        }
    } else if OP_DUP1 <= op <= OP_DUP16 {
        let d: int = 1 + (op - OP_DUP1);
        if s.gas_used + GAS_VERYLOW > c.gas_limit {
            halt_error(c, s, ErrorKind::OutOfGas)
        } else if n < d {
            halt_error(c, s, ErrorKind::StackUnderflow)
        } else if n >= STACK_CAP {
            halt_error(c, s, ErrorKind::StackOverflow)
        } else {
            StepSpec::Cont(
                MState {
                    pc: s.pc + 1,
                    stack: s.stack.push(s.stack[n - d]),
                    gas_used: s.gas_used + GAS_VERYLOW,
                    ..s
                },
            )
        }
    } else if OP_SWAP1 <= op <= OP_SWAP16 {
        let d: int = 1 + (op - OP_SWAP1);
        if s.gas_used + GAS_VERYLOW > c.gas_limit {
            halt_error(c, s, ErrorKind::OutOfGas)
        } else if n < d + 1 {
            halt_error(c, s, ErrorKind::StackUnderflow)
        } else {
            StepSpec::Cont(
                MState {
                    pc: s.pc + 1,
                    stack: s.stack.update(n - 1, s.stack[n - 1 - d]).update(
                        n - 1 - d,
                        s.stack[n - 1],
                    ),
                    gas_used: s.gas_used + GAS_VERYLOW,
                    ..s
                },
            )
        }
    } else {
        halt_error(c, s, ErrorKind::InvalidOpcode)
    }
}

pub open spec fn spec_step_c(c: FrameCtx, s: MState) -> StepSpec {
    let n = s.stack.len() as int;
    let op: u8 = opcode_of(c.code, s.pc);
    if op == OP_SLOAD {
        if s.gas_used + GAS_SLOAD > c.gas_limit {
            halt_error(c, s, ErrorKind::OutOfGas)
        } else if n < 1 {
            halt_error(c, s, ErrorKind::StackUnderflow)
        } else {
            let k = s.stack[n - 1].val();
            let v: int = if s.storage.dom().contains(k) {
                s.storage[k]
            } else {
                0
            };
            StepSpec::Cont(
                MState {
                    pc: s.pc + 1,
                    stack: s.stack.take(n - 1).push(u256_of(v)),
                    gas_used: s.gas_used + GAS_SLOAD,
                    ..s
                },
            )
        }
    } else if op == OP_SSTORE {
        if s.gas_used + GAS_SSTORE > c.gas_limit {
            halt_error(c, s, ErrorKind::OutOfGas)
        } else if n < 2 {
            halt_error(c, s, ErrorKind::StackUnderflow)
        } else {
            let k = s.stack[n - 1].val();
            let v = s.stack[n - 2].val();
            StepSpec::Cont(
                MState {
                    pc: s.pc + 1,
                    stack: s.stack.take(n - 2),
                    storage: s.storage.insert(k, v),
                    gas_used: s.gas_used + GAS_SSTORE,
                    ..s
                },
            )
        }
    } else if op == OP_JUMP {
        if s.gas_used + GAS_MID > c.gas_limit {
            halt_error(c, s, ErrorKind::OutOfGas)
        } else if n < 1 {
            halt_error(c, s, ErrorKind::StackUnderflow)
        } else {
            let dest = s.stack[n - 1].val();
            if !is_jumpdest(c.code, dest) {
                halt_error(c, s, ErrorKind::InvalidJump)
            } else {
                StepSpec::Cont(
                    MState {
                        pc: dest,
                        stack: s.stack.take(n - 1),
                        gas_used: s.gas_used + GAS_MID,
                        ..s
                    },
                )
            }
        }
    } else if op == OP_JUMPI {
        if s.gas_used + GAS_HIGH > c.gas_limit {
            halt_error(c, s, ErrorKind::OutOfGas)
        } else if n < 2 {
            halt_error(c, s, ErrorKind::StackUnderflow)
        } else {
            let dest = s.stack[n - 1].val();
            let cond = s.stack[n - 2].val();
            if cond == 0 {
                StepSpec::Cont(
                    MState {
                        pc: s.pc + 1,
                        stack: s.stack.take(n - 2),
                        gas_used: s.gas_used + GAS_HIGH,
                        ..s
                    },
                )
            } else if !is_jumpdest(c.code, dest) {
                halt_error(c, s, ErrorKind::InvalidJump)
            } else {
                StepSpec::Cont(
                    MState {
                        pc: dest,
                        stack: s.stack.take(n - 2),
                        gas_used: s.gas_used + GAS_HIGH,
                        ..s
                    },
                )
            }
        }
    } else if op == OP_JUMPDEST {
        if s.gas_used + GAS_JUMPDEST > c.gas_limit {
            halt_error(c, s, ErrorKind::OutOfGas)
        } else {
            StepSpec::Cont(
                MState { pc: s.pc + 1, gas_used: s.gas_used + GAS_JUMPDEST, ..s },
            )
        }
    } else {
        halt_error(c, s, ErrorKind::InvalidOpcode)
    }
}

pub open spec fn spec_step_d(c: FrameCtx, s: MState) -> StepSpec {
    let n = s.stack.len() as int;
    let op: u8 = opcode_of(c.code, s.pc);
    if op == OP_MLOAD || op == OP_MSTORE {
        let pops: int = if op == OP_MLOAD {
            1
        } else {
            2
        };
        if s.gas_used + GAS_VERYLOW > c.gas_limit {
            halt_error(c, s, ErrorKind::OutOfGas)
        } else if n < pops {
            halt_error(c, s, ErrorKind::StackUnderflow)
        } else {
            let off = s.stack[n - 1].val();
            if off + 32 > MEM_CAP {
                halt_error(c, s, ErrorKind::OutOfGas)
            } else {
                let tgt = mtarget(s.mem.len() as int, off + 32);
                let cost = GAS_VERYLOW + mem_cost(s.mem.len() as int, off + 32);
                if s.gas_used + cost > c.gas_limit {
                    halt_error(c, s, ErrorKind::OutOfGas)
                } else {
                    let grown_mem = grown(s.mem, tgt);
                    if op == OP_MLOAD {
                        StepSpec::Cont(
                            MState {
                                pc: s.pc + 1,
                                stack: s.stack.take(n - 1).push(
                                    u256_of(be_val(grown_mem.subrange(off, off + 32))),
                                ),
                                mem: grown_mem,
                                gas_used: s.gas_used + cost,
                                ..s
                            },
                        )
                    } else {
                        StepSpec::Cont(
                            MState {
                                pc: s.pc + 1,
                                stack: s.stack.take(n - 2),
                                mem: stored32(grown_mem, off, s.stack[n - 2].val()),
                                gas_used: s.gas_used + cost,
                                ..s
                            },
                        )
                    }
                }
            }
        }
    } else if op == OP_CODECOPY {
        if s.gas_used + GAS_VERYLOW > c.gas_limit {
            halt_error(c, s, ErrorKind::OutOfGas)
        } else if n < 3 {
            halt_error(c, s, ErrorKind::StackUnderflow)
        } else {
            let dest = s.stack[n - 1].val();
            let src = s.stack[n - 2].val();
            let len = s.stack[n - 3].val();
            if len == 0 {
                StepSpec::Cont(
                    MState {
                        pc: s.pc + 1,
                        stack: s.stack.take(n - 3),
                        gas_used: s.gas_used + GAS_VERYLOW,
                        ..s
                    },
                )
            } else if dest + len > MEM_CAP {
                halt_error(c, s, ErrorKind::OutOfGas)
            } else {
                let tgt = mtarget(s.mem.len() as int, dest + len);
                let cost = GAS_VERYLOW + mem_cost(s.mem.len() as int, dest + len) + GAS_COPYWORD
                    * ((len + 31) / 32);
                if s.gas_used + cost > c.gas_limit {
                    halt_error(c, s, ErrorKind::OutOfGas)
                } else {
                    StepSpec::Cont(
                        MState {
                            pc: s.pc + 1,
                            stack: s.stack.take(n - 3),
                            mem: copied(grown(s.mem, tgt), dest, c.code, src, len),
                            gas_used: s.gas_used + cost,
                            ..s
                        },
                    )
                }
            }
        }
    } else if op == OP_RETURN || op == OP_REVERT {
        if n < 2 {
            halt_error(c, s, ErrorKind::StackUnderflow)
        } else {
            let off = s.stack[n - 1].val();
            let len = s.stack[n - 2].val();
            if off + len > MEM_CAP {
                halt_error(c, s, ErrorKind::OutOfGas)
            } else {
                let tgt = mtarget(s.mem.len() as int, off + len);
                let cost = mem_cost(s.mem.len() as int, off + len);
                if s.gas_used + cost > c.gas_limit {
                    halt_error(c, s, ErrorKind::OutOfGas)
                } else {
                    StepSpec::Halt(
                        HaltM {
                            reason: if op == OP_RETURN {
                                ExitReason::Succeed(SucceedKind::Returned)
                            } else {
                                ExitReason::Revert
                            },
                            output: grown(s.mem, tgt).subrange(off, off + len),
                            gas_used: s.gas_used + cost,
                            storage: s.storage,
                        },
                    )
                }
            }
        }
    } else {
        halt_error(c, s, ErrorKind::InvalidOpcode)
    }
}

/// Iterated stepping with fuel. `None` means the fuel ran out or a
/// call-family opcode was reached; gas bounds the number of steps, so
/// with fuel beyond the gas limit only the latter remains.
pub open spec fn spec_run(c: FrameCtx, s: MState, fuel: nat) -> Option<HaltM>
    decreases fuel,
{
    if fuel == 0 {
        None
    } else {
        match spec_step(c, s) {
            StepSpec::Halt(h) => Some(h),
            StepSpec::Cont(s2) => spec_run(c, s2, (fuel - 1) as nat),
            StepSpec::Invoke => None,
        }
    }
}

/// Whatever a run reaches with some fuel, it reaches with more.
pub proof fn lemma_spec_run_mono(c: FrameCtx, s: MState, f1: nat, f2: nat)
    requires
        f1 <= f2,
        spec_run(c, s, f1) is Some,
    ensures
        spec_run(c, s, f2) == spec_run(c, s, f1),
    decreases f1,
{
    if f1 > 0 {
        match spec_step(c, s) {
            StepSpec::Cont(s2) => {
                lemma_spec_run_mono(c, s2, (f1 - 1) as nat, (f2 - 1) as nat);
            },
            _ => {},
        }
    }
}

/// The width of the instruction standing at `p`: one byte, plus the
/// operand of a push.
pub open spec fn pos_width(code: Seq<u8>, p: int) -> int {
    if OP_PUSH1 <= code[p] <= OP_PUSH32 {
        1 + (code[p] - (OP_PUSH1 - 1))
    } else {
        1
    }
}

/// Whether `p` is an instruction position: reached from `i` by walking
/// instruction widths, never landing inside a push operand.
pub open spec fn reaches_pos(code: Seq<u8>, i: int, p: int) -> bool
    decreases code.len() - i
        when 0 <= i <= code.len()
{
    if i >= code.len() || i > p {
        false
    } else if i == p {
        true
    } else {
        let w = pos_width(code, i);
        if i + w > code.len() {
            false
        } else {
            reaches_pos(code, i + w, p)
        }
    }
}

/// Code that never reaches the dispatcher: no call-family or
/// create-family opcode stands at an instruction position. A call
/// byte inside a push operand is data, not an instruction.
pub open spec fn code_is_local(code: Seq<u8>) -> bool {
    forall|p: int|
        0 <= p < code.len() && #[trigger] reaches_pos(code, 0, p) ==> code[p] != OP_CALL
            && code[p] != OP_CREATE
}

/// Walking one instruction keeps us on instruction positions (or runs
/// off the end of the code).
pub proof fn lemma_reaches_extend(code: Seq<u8>, i: int, p: int)
    requires
        0 <= i <= code.len(),
        reaches_pos(code, i, p),
    ensures
        p + pos_width(code, p) >= code.len() || reaches_pos(code, i, p + pos_width(code, p)),
    decreases code.len() - i,
{
    if i < code.len() && i < p {
        let w = pos_width(code, i);
        if i + w <= code.len() {
            lemma_reaches_extend(code, i + w, p);
        }
    } else if i == p {
        let w = pos_width(code, p);
        if p + w < code.len() {
            assert(reaches_pos(code, p + w, p + w));
            assert(reaches_pos(code, p, p + w));
        }
    }
}

/// A valid jump destination is an instruction position.
pub proof fn lemma_jumpdest_is_pos(code: Seq<u8>, i: int, dest: int)
    requires
        0 <= i <= code.len(),
        jumpdest_from(code, i, dest),
    ensures
        reaches_pos(code, i, dest),
    decreases code.len() - i,
{
    if i < code.len() && i < dest {
        let w: int = if OP_PUSH1 <= code[i] <= OP_PUSH32 {
            1 + (code[i] - (OP_PUSH1 - 1))
        } else {
            1
        };
        if i + w <= code.len() {
            lemma_jumpdest_is_pos(code, i + w, dest);
        }
    }
}

/// The account map after a frame hands back its persistent storage.
pub open spec fn with_storage(m: Map<int, AccountV>, a: int, st: Map<int, int>) -> Map<
    int,
    AccountV,
> {
    if acct_at(m, a).storage == st {
        m
    } else {
        m.insert(a, AccountV { storage: st, ..acct_at(m, a) })
    }
}

/// A storage write through the ledger is `with_storage` of the account
/// map.
pub proof fn lemma_with_storage_insert(m: Map<int, AccountV>, a: int, k: int, v: int)
    ensures
        m.insert(
            a,
            AccountV { storage: acct_at(m, a).storage.insert(k, v), ..acct_at(m, a) },
        ) == with_storage(m, a, acct_at(m, a).storage.insert(k, v)),
{
    let st0 = acct_at(m, a).storage;
    let st = st0.insert(k, v);
    if st == st0 {
        assert(st.dom().contains(k));
        if m.dom().contains(a) {
            assert(AccountV { storage: st, ..acct_at(m, a) } == acct_at(m, a));
            assert(m.insert(a, acct_at(m, a)) =~= m);
        } else {
            assert(st0 =~= Map::<int, int>::empty());
            assert(!st0.dom().contains(k));
        }
    }
}

/// The frame a single execution context runs in.
pub struct Frame {
    pub pc: usize,
    pub stack: Vec<U256>,
    pub mem: Vec<u8>,
    pub gas: GasMeter,
}

impl Frame {
    pub open spec fn inv(&self) -> bool {
        self.gas.wf() && self.stack@.len() <= STACK_CAP && self.mem@.len() <= MEM_CAP
    }

    pub open spec fn model(&self, storage: Map<int, int>) -> MState {
        MState {
            pc: self.pc as int,
            stack: self.stack@,
            mem: self.mem@,
            storage,
            gas_used: self.gas.used as int,
        }
    }
}

pub open spec fn mk_ctx(
    code: Seq<u8>,
    input: Seq<u8>,
    value: U256,
    self_addr: int,
    gas_limit: int,
) -> FrameCtx {
    FrameCtx { code, input, value, self_addr, gas_limit }
}

/// What the executable step hands back to the frame loop.
pub enum StepOut {
    Cont,
    Halt(ExitReason, Vec<u8>),
}

/// Removes and returns the top of the stack.
pub fn pop_word(stack: &mut Vec<U256>) -> (r: U256)
    requires
        old(stack)@.len() > 0,
    ensures
        r == old(stack)@.last(),
        final(stack)@ == old(stack)@.drop_last(),
{
    let r = match stack.pop() {
        Some(w) => w,
        None => U256 { l0: 0, l1: 0, l2: 0, l3: 0 },
    };
    proof {
        assert(stack@ =~= old(stack)@.drop_last());
    }
    r
}

/// Whether `dest` is a valid jump destination; mirrors the scanner
/// `jumpdest_from`.
fn scan_jumpdest(code: &Vec<u8>, i: usize, dest: u64) -> (r: bool)
    requires
        i <= code@.len(),
        code@.len() <= MEM_CAP,
    ensures
        r == jumpdest_from(code@, i as int, dest as int),
    decreases code@.len() - i,
{
    if i >= code.len() || (i as u64) > dest {
        false
    } else if (i as u64) == dest {
        code[i] == OP_JUMPDEST
    } else {
        let b = code[i];
        let w: usize = if OP_PUSH1 <= b && b <= OP_PUSH32 {
            1 + (b - (OP_PUSH1 - 1)) as usize
        } else {
            1
        };
        if i + w > code.len() {
            false
        } else {
            scan_jumpdest(code, i + w, dest)
        }
    }
}

/// No position at or past the end of code is a jump destination.
proof fn lemma_jumpdest_past_end(code: Seq<u8>, i: int, dest: int)
    requires
        0 <= i <= code.len(),
        dest >= code.len(),
    ensures
        !jumpdest_from(code, i, dest),
    decreases code.len() - i,
{
    if i < code.len() && i < dest {
        let w: int = if OP_PUSH1 <= code[i] <= OP_PUSH32 {
            1 + (code[i] - (OP_PUSH1 - 1))
        } else {
            1
        };
        if i + w <= code.len() {
            lemma_jumpdest_past_end(code, i + w, dest);
        }
    }
}

/// Checks a jump target taken from the stack.
fn check_jumpdest(code: &Vec<u8>, dest: &U256) -> (r: bool)
    requires
        code@.len() <= MEM_CAP,
    ensures
        r == is_jumpdest(code@, dest.val()),
{
    let n: usize = code.len();
    match dest.to_u64() {
        Some(d) => {
            if d < n as u64 {
                scan_jumpdest(code, 0, d)
            } else {
                proof {
                    lemma_jumpdest_past_end(code@, 0, dest.val());
                }
                false
            }
        },
        None => {
            proof {
                lemma_jumpdest_past_end(code@, 0, dest.val());
            }
            false
        },
    }
}

/// What `step` promises: the executable step agrees with `spec_step`
/// on the model state, and touches the ledger only through the frame's
/// own storage.
pub open spec fn step_post(
    c: FrameCtx,
    s0: MState,
    st0: Map<int, int>,
    m0: Map<int, AccountV>,
    f2: Frame,
    led2: Ledger,
    led1: Ledger,
    r: StepOut,
) -> bool {
    match spec_step(c, s0) {
        StepSpec::Cont(m2) => (r is Cont) && f2.model(m2.storage) == m2 && led2.model()
            == with_storage(m0, c.self_addr, m2.storage),
        StepSpec::Halt(h) => (match r {
            StepOut::Halt(reason, out) => reason == h.reason && out@ == h.output,
            _ => false,
        }) && f2.gas.used == h.gas_used && led2 == led1 && h.storage == st0,
        StepSpec::Invoke => false,
    }
}

/// One executable interpreter step; the implementation of `spec_step`.
pub fn step(
    f: &mut Frame,
    led: &mut Ledger,
    code: &Vec<u8>,
    input: &Vec<u8>,
    value: &U256,
    self_addr: &Address,
) -> (r: StepOut)
    requires
        old(f).inv(),
        code@.len() <= MEM_CAP,
        !(spec_step(
            mk_ctx(code@, input@, *value, self_addr.val(), old(f).gas.limit as int),
            old(f).model(acct_at(old(led).model(), self_addr.val()).storage),
        ) is Invoke),
    ensures
        final(f).inv(),
        final(f).gas.limit == old(f).gas.limit,
        ((r is Cont) ==> old(f).gas.used < final(f).gas.used),
        ((r is Cont) ==> old(f).pc < code@.len() && (final(f).pc == old(f).pc + pos_width(
            code@,
            old(f).pc as int,
        ) || is_jumpdest(code@, final(f).pc as int))),
        step_post(
            mk_ctx(code@, input@, *value, self_addr.val(), old(f).gas.limit as int),
            old(f).model(acct_at(old(led).model(), self_addr.val()).storage),
            acct_at(old(led).model(), self_addr.val()).storage,
            old(led).model(),
            *final(f),
            *final(led),
            *old(led),
            r,
        ),
{
    let op: u8 = if f.pc < code.len() {
        code[f.pc]
    } else {
        OP_STOP
    };
    if op == OP_STOP || op == OP_ISZERO {
        step_a1(f, led, code, input, value, self_addr)
    } else if op == OP_ADD || op == OP_SUB || op == OP_LT || op == OP_GT || op == OP_EQ {
        step_a2(f, led, code, input, value, self_addr)
    } else if op == OP_MUL || op == OP_DIV || op == OP_MOD || op == OP_SHR {
        step_a3(f, led, code, input, value, self_addr)
    } else if op == OP_CALLVALUE || op == OP_CALLDATASIZE || op == OP_CALLDATALOAD || op == OP_POP
        || (OP_PUSH1 <= op && op <= OP_PUSH32) || (OP_DUP1 <= op && op <= OP_DUP16) || (OP_SWAP1
        <= op && op <= OP_SWAP16) {
        step_b(f, led, code, input, value, self_addr)
    } else if op == OP_SLOAD {
        step_c1(f, led, code, input, value, self_addr)
    } else if op == OP_SSTORE {
        step_c0(f, led, code, input, value, self_addr)
    } else if op == OP_JUMP || op == OP_JUMPI {
        step_c2(f, led, code, input, value, self_addr)
    } else if op == OP_JUMPDEST {
        step_c3(f, led, code, input, value, self_addr)
    } else if op == OP_MLOAD {
        step_d1(f, led, code, input, value, self_addr)
    } else if op == OP_MSTORE {
        step_d0(f, led, code, input, value, self_addr)
    } else if op == OP_CODECOPY {
        step_d2(f, led, code, input, value, self_addr)
    } else {
        step_d3(f, led, code, input, value, self_addr)
    }
}


#[verifier::rlimit(100)]
fn step_b(
    f: &mut Frame,
    led: &mut Ledger,
    code: &Vec<u8>,
    input: &Vec<u8>,
    value: &U256,
    self_addr: &Address,
) -> (r: StepOut)
    requires
        old(f).inv(),
        code@.len() <= MEM_CAP,
        ({
            let gop = opcode_of(code@, old(f).pc as int);
            gop == OP_CALLVALUE || gop == OP_CALLDATASIZE || gop == OP_CALLDATALOAD
                || gop == OP_POP || (OP_PUSH1 <= gop && gop <= OP_PUSH32)
                || (OP_DUP1 <= gop && gop <= OP_DUP16)
                || (OP_SWAP1 <= gop && gop <= OP_SWAP16)
        }),
    ensures
        final(f).inv(),
        final(f).gas.limit == old(f).gas.limit,
        ((r is Cont) ==> old(f).gas.used < final(f).gas.used),
        ((r is Cont) ==> old(f).pc < code@.len() && (final(f).pc == old(f).pc + pos_width(
            code@,
            old(f).pc as int,
        ) || is_jumpdest(code@, final(f).pc as int))),
        step_post(
            mk_ctx(code@, input@, *value, self_addr.val(), old(f).gas.limit as int),
            old(f).model(acct_at(old(led).model(), self_addr.val()).storage),
            acct_at(old(led).model(), self_addr.val()).storage,
            old(led).model(),
            *final(f),
            *final(led),
            *old(led),
            r,
        ),
{
    let ghost c = mk_ctx(code@, input@, *value, self_addr.val(), old(f).gas.limit as int);
    let ghost st0 = acct_at(old(led).model(), self_addr.val()).storage;
    let ghost s0 = old(f).model(st0);
    let op: u8 = if f.pc < code.len() {
        code[f.pc]
    } else {
        OP_STOP
    };
    if op == OP_CALLVALUE || op == OP_CALLDATASIZE {
        if !f.gas.charge(GAS_BASE) {
            f.gas.consume_all();
            return StepOut::Halt(ExitReason::Error(ErrorKind::OutOfGas), Vec::new());
        }
        if f.stack.len() >= STACK_CAP {
            f.gas.consume_all();
            return StepOut::Halt(ExitReason::Error(ErrorKind::StackOverflow), Vec::new());
        }
        let w: U256 = if op == OP_CALLVALUE {
            *value
        } else {
            let n64: u64 = input.len() as u64;
            U256 { l0: n64, l1: 0, l2: 0, l3: 0 }
        };
        f.stack.push(w);
        f.pc = f.pc + 1;
        proof {
            let m2 = spec_step(c, s0)->Cont_0;
            if op == OP_CALLDATASIZE {
                lemma_canonical(w, c.input.len() as int);
            }
            assert(f.model(m2.storage) =~~= m2);
        }
        return StepOut::Cont;
    } else if op == OP_CALLDATALOAD {
        if !f.gas.charge(GAS_VERYLOW) {
            f.gas.consume_all();
            return StepOut::Halt(ExitReason::Error(ErrorKind::OutOfGas), Vec::new());
        }
        if f.stack.len() < 1 {
            f.gas.consume_all();
            return StepOut::Halt(ExitReason::Error(ErrorKind::StackUnderflow), Vec::new());
        }
        let off = pop_word(&mut f.stack);
        let buf: Vec<u8> = match off.to_u64() {
            Some(o) => load32_exec(input, o),
            None => {
                let ilen: usize = input.len();
                let mut z: Vec<u8> = Vec::new();
                let mut j: usize = 0;
                while j < 32
                    invariant
                        j <= 32,
                        z@.len() == j,
                        forall|t: int| 0 <= t < j ==> z@[t] == 0u8,
                    decreases 32 - j,
                {
                    z.push(0);
                    j = j + 1;
                }
                proof {
                    assert(input@.len() <= u64::MAX < off.val());
                    assert(z@ =~= load32(input@, off.val()));
                }
                z
            },
        };
        let w = word_from_be32(&buf);
        f.stack.push(w);
        f.pc = f.pc + 1;
        proof {
            let n = s0.stack.len() as int;
            assert(old(f).stack@.drop_last() =~= s0.stack.take(n - 1));
            crate::machine::lemma_be_val_bound(load32(c.input, off.val()));
            crate::word::lemma_pow2_val();
            let m2 = spec_step(c, s0)->Cont_0;
            lemma_canonical(w, be_val(load32(c.input, off.val())));
            assert(f.model(m2.storage) =~~= m2);
        }
        return StepOut::Cont;
    } else if op == OP_POP {
        if !f.gas.charge(GAS_BASE) {
            f.gas.consume_all();
            return StepOut::Halt(ExitReason::Error(ErrorKind::OutOfGas), Vec::new());
        }
        if f.stack.len() < 1 {
            f.gas.consume_all();
            return StepOut::Halt(ExitReason::Error(ErrorKind::StackUnderflow), Vec::new());
        }
        let _ = pop_word(&mut f.stack);
        f.pc = f.pc + 1;
        proof {
            let n = s0.stack.len() as int;
            assert(old(f).stack@.drop_last() =~= s0.stack.take(n - 1));
            let m2 = spec_step(c, s0)->Cont_0;
            assert(f.model(m2.storage) =~~= m2);
        }
        return StepOut::Cont;
    } else if OP_PUSH1 <= op && op <= OP_PUSH32 {
        let nbytes: usize = (op - (OP_PUSH1 - 1)) as usize;
        if !f.gas.charge(GAS_VERYLOW) {
            f.gas.consume_all();
            return StepOut::Halt(ExitReason::Error(ErrorKind::OutOfGas), Vec::new());
        }
        if f.stack.len() >= STACK_CAP {
            f.gas.consume_all();
            return StepOut::Halt(ExitReason::Error(ErrorKind::StackOverflow), Vec::new());
        }
        let buf = push_arg_exec(code, f.pc, nbytes);
        let w = word_from_be32(&buf);
        f.stack.push(w);
        f.pc = f.pc + 1 + nbytes;
        proof {
            crate::machine::lemma_be_val_bound(push_arg(c.code, s0.pc, nbytes as int));
            crate::word::lemma_pow2_val();
            let m2 = spec_step(c, s0)->Cont_0;
            lemma_canonical(w, be_val(push_arg(c.code, s0.pc, nbytes as int)));
            assert(f.model(m2.storage) =~~= m2);
        }
        return StepOut::Cont;
    } else if OP_DUP1 <= op && op <= OP_DUP16 {
        let d: usize = 1 + (op - OP_DUP1) as usize;
        if !f.gas.charge(GAS_VERYLOW) {
            f.gas.consume_all();
            return StepOut::Halt(ExitReason::Error(ErrorKind::OutOfGas), Vec::new());
        }
        if f.stack.len() < d {
            f.gas.consume_all();
            return StepOut::Halt(ExitReason::Error(ErrorKind::StackUnderflow), Vec::new());
        }
        if f.stack.len() >= STACK_CAP {
            f.gas.consume_all();
            return StepOut::Halt(ExitReason::Error(ErrorKind::StackOverflow), Vec::new());
        }
        let w = f.stack[f.stack.len() - d];
        f.stack.push(w);
        f.pc = f.pc + 1;
        proof {
            let m2 = spec_step(c, s0)->Cont_0;
            assert(f.model(m2.storage) =~~= m2);
        }
        return StepOut::Cont;
    } else {
        let d: usize = 1 + (op - OP_SWAP1) as usize;
        if !f.gas.charge(GAS_VERYLOW) {
            f.gas.consume_all();
            return StepOut::Halt(ExitReason::Error(ErrorKind::OutOfGas), Vec::new());
        }
        if f.stack.len() < d + 1 {
            f.gas.consume_all();
            return StepOut::Halt(ExitReason::Error(ErrorKind::StackUnderflow), Vec::new());
        }
        let n = f.stack.len();
        let a = f.stack[n - 1];
        let b = f.stack[n - 1 - d];
        f.stack.set(n - 1, b);
        f.stack.set(n - 1 - d, a);
        f.pc = f.pc + 1;
        proof {
            let m2 = spec_step(c, s0)->Cont_0;
            assert(f.model(m2.storage) =~~= m2);
        }
        return StepOut::Cont;
    }
}



#[verifier::rlimit(100)]
fn step_a1(
    f: &mut Frame,
    led: &mut Ledger,
    code: &Vec<u8>,
    input: &Vec<u8>,
    value: &U256,
    self_addr: &Address,
) -> (r: StepOut)
    requires
        old(f).inv(),
        code@.len() <= MEM_CAP,
        ({
            let gop = opcode_of(code@, old(f).pc as int);
            gop == OP_STOP || gop == OP_ISZERO
        }),
    ensures
        final(f).inv(),
        final(f).gas.limit == old(f).gas.limit,
        ((r is Cont) ==> old(f).gas.used < final(f).gas.used),
        ((r is Cont) ==> old(f).pc < code@.len() && (final(f).pc == old(f).pc + pos_width(
            code@,
            old(f).pc as int,
        ) || is_jumpdest(code@, final(f).pc as int))),
        step_post(
            mk_ctx(code@, input@, *value, self_addr.val(), old(f).gas.limit as int),
            old(f).model(acct_at(old(led).model(), self_addr.val()).storage),
            acct_at(old(led).model(), self_addr.val()).storage,
            old(led).model(),
            *final(f),
            *final(led),
            *old(led),
            r,
        ),
{
    let ghost c = mk_ctx(code@, input@, *value, self_addr.val(), old(f).gas.limit as int);
    let ghost st0 = acct_at(old(led).model(), self_addr.val()).storage;
    let ghost s0 = old(f).model(st0);
    let op: u8 = if f.pc < code.len() {
        code[f.pc]
    } else {
        OP_STOP
    };
    if op == OP_STOP {
        return StepOut::Halt(ExitReason::Succeed(SucceedKind::Stop), Vec::new());
    } else if op == OP_ISZERO {
        if !f.gas.charge(GAS_VERYLOW) {
            f.gas.consume_all();
            return StepOut::Halt(ExitReason::Error(ErrorKind::OutOfGas), Vec::new());
        }
        if f.stack.len() < 1 {
            f.gas.consume_all();
            return StepOut::Halt(ExitReason::Error(ErrorKind::StackUnderflow), Vec::new());
        }
        let x = pop_word(&mut f.stack);
        let w: U256 = if x.is_zero() {
            U256 { l0: 1, l1: 0, l2: 0, l3: 0 }
        } else {
            U256 { l0: 0, l1: 0, l2: 0, l3: 0 }
        };
        f.stack.push(w);
        f.pc = f.pc + 1;
        proof {
            let n = s0.stack.len() as int;
            assert(old(f).stack@.drop_last() =~= s0.stack.take(n - 1));
            let m2 = spec_step(c, s0)->Cont_0;
            lemma_canonical(w, if x.val() == 0 { 1int } else { 0int });
            assert(f.model(m2.storage) =~~= m2);
        }
        return StepOut::Cont;    } else {
        proof {
            assert(false);
        }
        return StepOut::Cont;
    }
}

#[verifier::rlimit(100)]
fn step_a2(
    f: &mut Frame,
    led: &mut Ledger,
    code: &Vec<u8>,
    input: &Vec<u8>,
    value: &U256,
    self_addr: &Address,
) -> (r: StepOut)
    requires
        old(f).inv(),
        code@.len() <= MEM_CAP,
        ({
            let gop = opcode_of(code@, old(f).pc as int);
            gop == OP_ADD || gop == OP_SUB || gop == OP_LT || gop == OP_GT || gop == OP_EQ
        }),
    ensures
        final(f).inv(),
        final(f).gas.limit == old(f).gas.limit,
        ((r is Cont) ==> old(f).gas.used < final(f).gas.used),
        ((r is Cont) ==> old(f).pc < code@.len() && (final(f).pc == old(f).pc + pos_width(
            code@,
            old(f).pc as int,
        ) || is_jumpdest(code@, final(f).pc as int))),
        step_post(
            mk_ctx(code@, input@, *value, self_addr.val(), old(f).gas.limit as int),
            old(f).model(acct_at(old(led).model(), self_addr.val()).storage),
            acct_at(old(led).model(), self_addr.val()).storage,
            old(led).model(),
            *final(f),
            *final(led),
            *old(led),
            r,
        ),
{
    let ghost c = mk_ctx(code@, input@, *value, self_addr.val(), old(f).gas.limit as int);
    let ghost st0 = acct_at(old(led).model(), self_addr.val()).storage;
    let ghost s0 = old(f).model(st0);
    let op: u8 = if f.pc < code.len() {
        code[f.pc]
    } else {
        OP_STOP
    };
    {
        let cost: u64 = if op == OP_MUL || op == OP_DIV || op == OP_MOD {
            GAS_LOW
        } else {
            GAS_VERYLOW
        };
        if !f.gas.charge(cost) {
            f.gas.consume_all();
            return StepOut::Halt(ExitReason::Error(ErrorKind::OutOfGas), Vec::new());
        }
        if f.stack.len() < 2 {
            f.gas.consume_all();
            return StepOut::Halt(ExitReason::Error(ErrorKind::StackUnderflow), Vec::new());
        }
        let x = pop_word(&mut f.stack);
        let y = pop_word(&mut f.stack);
        let w: U256 = if op == OP_ADD {
            x.wrapping_add(&y)
        } else if op == OP_MUL {
            x.wrapping_mul(&y)
        } else if op == OP_SUB {
            x.wrapping_sub(&y)
        } else if op == OP_DIV || op == OP_MOD {
            if y.is_zero() {
                U256 { l0: 0, l1: 0, l2: 0, l3: 0 }
            } else {
                let qr = x.div_rem(&y);
                if op == OP_DIV {
                    qr.0
                } else {
                    qr.1
                }
            }
        } else if op == OP_LT {
            if x.lt(&y) {
                U256 { l0: 1, l1: 0, l2: 0, l3: 0 }
            } else {
                U256 { l0: 0, l1: 0, l2: 0, l3: 0 }
            }
        } else if op == OP_GT {
            if y.lt(&x) {
                U256 { l0: 1, l1: 0, l2: 0, l3: 0 }
            } else {
                U256 { l0: 0, l1: 0, l2: 0, l3: 0 }
            }
        } else if op == OP_EQ {
            if x.eq_word(&y) {
                U256 { l0: 1, l1: 0, l2: 0, l3: 0 }
            } else {
                U256 { l0: 0, l1: 0, l2: 0, l3: 0 }
            }
        } else {
            match x.to_u64() {
                Some(sv) => {
                    if sv < 256 {
                        y.shr_small(sv)
                    } else {
                        U256 { l0: 0, l1: 0, l2: 0, l3: 0 }
                    }
                },
                None => U256 { l0: 0, l1: 0, l2: 0, l3: 0 },
            }
        };
        f.stack.push(w);
        f.pc = f.pc + 1;
        proof {
            let n = s0.stack.len() as int;
            assert(old(f).stack@.drop_last().drop_last() =~= s0.stack.take(n - 2));
            let m2 = spec_step(c, s0)->Cont_0;
            if (op == OP_DIV || op == OP_MOD) && y.val() != 0 {
                vstd::arithmetic::div_mod::lemma_div_pos_is_pos(x.val(), y.val());
                vstd::arithmetic::div_mod::lemma_div_nonincreasing(x.val(), y.val());
                vstd::arithmetic::div_mod::lemma_mod_bound(x.val(), y.val());
            }
            if op == OP_SHR {
                if x.val() < 256 {
                    vstd::arithmetic::power2::lemma_pow2_pos(x.val() as nat);
                    vstd::arithmetic::div_mod::lemma_div_pos_is_pos(
                        y.val(),
                        pow2(x.val() as nat) as int,
                    );
                    vstd::arithmetic::div_mod::lemma_div_nonincreasing(
                        y.val(),
                        pow2(x.val() as nat) as int,
                    );
                }
            }
            let v: int = if op == OP_ADD {
                (x.val() + y.val()) % pow256()
            } else if op == OP_MUL {
                (x.val() * y.val()) % pow256()
            } else if op == OP_SUB {
                (x.val() - y.val()) % pow256()
            } else if op == OP_DIV {
                if y.val() == 0 {
                    0int
                } else {
                    x.val() / y.val()
                }
            } else if op == OP_MOD {
                if y.val() == 0 {
                    0int
                } else {
                    x.val() % y.val()
                }
            } else if op == OP_LT {
                if x.val() < y.val() { 1int } else { 0int }
            } else if op == OP_GT {
                if x.val() > y.val() { 1int } else { 0int }
            } else if op == OP_EQ {
                if x.val() == y.val() { 1int } else { 0int }
            } else {
                if x.val() >= 256 { 0int } else { y.val() / pow2(x.val() as nat) as int }
            };
            lemma_canonical(w, v);
            assert(f.model(m2.storage) =~~= m2);
        }
        return StepOut::Cont;
    }
}

#[verifier::rlimit(100)]
fn step_a3(
    f: &mut Frame,
    led: &mut Ledger,
    code: &Vec<u8>,
    input: &Vec<u8>,
    value: &U256,
    self_addr: &Address,
) -> (r: StepOut)
    requires
        old(f).inv(),
        code@.len() <= MEM_CAP,
        ({
            let gop = opcode_of(code@, old(f).pc as int);
            gop == OP_MUL || gop == OP_DIV || gop == OP_MOD || gop == OP_SHR
        }),
    ensures
        final(f).inv(),
        final(f).gas.limit == old(f).gas.limit,
        ((r is Cont) ==> old(f).gas.used < final(f).gas.used),
        ((r is Cont) ==> old(f).pc < code@.len() && (final(f).pc == old(f).pc + pos_width(
            code@,
            old(f).pc as int,
        ) || is_jumpdest(code@, final(f).pc as int))),
        step_post(
            mk_ctx(code@, input@, *value, self_addr.val(), old(f).gas.limit as int),
            old(f).model(acct_at(old(led).model(), self_addr.val()).storage),
            acct_at(old(led).model(), self_addr.val()).storage,
            old(led).model(),
            *final(f),
            *final(led),
            *old(led),
            r,
        ),
{
    let ghost c = mk_ctx(code@, input@, *value, self_addr.val(), old(f).gas.limit as int);
    let ghost st0 = acct_at(old(led).model(), self_addr.val()).storage;
    let ghost s0 = old(f).model(st0);
    let op: u8 = if f.pc < code.len() {
        code[f.pc]
    } else {
        OP_STOP
    };
    {
        let cost: u64 = if op == OP_MUL || op == OP_DIV || op == OP_MOD {
            GAS_LOW
        } else {
            GAS_VERYLOW
        };
        if !f.gas.charge(cost) {
            f.gas.consume_all();
            return StepOut::Halt(ExitReason::Error(ErrorKind::OutOfGas), Vec::new());
        }
        if f.stack.len() < 2 {
            f.gas.consume_all();
            return StepOut::Halt(ExitReason::Error(ErrorKind::StackUnderflow), Vec::new());
        }
        let x = pop_word(&mut f.stack);
        let y = pop_word(&mut f.stack);
        let w: U256 = if op == OP_ADD {
            x.wrapping_add(&y)
        } else if op == OP_MUL {
            x.wrapping_mul(&y)
        } else if op == OP_SUB {
            x.wrapping_sub(&y)
        } else if op == OP_DIV || op == OP_MOD {
            if y.is_zero() {
                U256 { l0: 0, l1: 0, l2: 0, l3: 0 }
            } else {
                let qr = x.div_rem(&y);
                if op == OP_DIV {
                    qr.0
                } else {
                    qr.1
                }
            }
        } else if op == OP_LT {
            if x.lt(&y) {
                U256 { l0: 1, l1: 0, l2: 0, l3: 0 }
            } else {
                U256 { l0: 0, l1: 0, l2: 0, l3: 0 }
            }
        } else if op == OP_GT {
            if y.lt(&x) {
                U256 { l0: 1, l1: 0, l2: 0, l3: 0 }
            } else {
                U256 { l0: 0, l1: 0, l2: 0, l3: 0 }
            }
        } else if op == OP_EQ {
            if x.eq_word(&y) {
                U256 { l0: 1, l1: 0, l2: 0, l3: 0 }
            } else {
                U256 { l0: 0, l1: 0, l2: 0, l3: 0 }
            }
        } else {
            match x.to_u64() {
                Some(sv) => {
                    if sv < 256 {
                        y.shr_small(sv)
                    } else {
                        U256 { l0: 0, l1: 0, l2: 0, l3: 0 }
                    }
                },
                None => U256 { l0: 0, l1: 0, l2: 0, l3: 0 },
            }
        };
        f.stack.push(w);
        f.pc = f.pc + 1;
        proof {
            let n = s0.stack.len() as int;
            assert(old(f).stack@.drop_last().drop_last() =~= s0.stack.take(n - 2));
            let m2 = spec_step(c, s0)->Cont_0;
            if (op == OP_DIV || op == OP_MOD) && y.val() != 0 {
                vstd::arithmetic::div_mod::lemma_div_pos_is_pos(x.val(), y.val());
                vstd::arithmetic::div_mod::lemma_div_nonincreasing(x.val(), y.val());
                vstd::arithmetic::div_mod::lemma_mod_bound(x.val(), y.val());
            }
            if op == OP_SHR {
                if x.val() < 256 {
                    vstd::arithmetic::power2::lemma_pow2_pos(x.val() as nat);
                    vstd::arithmetic::div_mod::lemma_div_pos_is_pos(
                        y.val(),
                        pow2(x.val() as nat) as int,
                    );
                    vstd::arithmetic::div_mod::lemma_div_nonincreasing(
                        y.val(),
                        pow2(x.val() as nat) as int,
                    );
                }
            }
            let v: int = if op == OP_ADD {
                (x.val() + y.val()) % pow256()
            } else if op == OP_MUL {
                (x.val() * y.val()) % pow256()
            } else if op == OP_SUB {
                (x.val() - y.val()) % pow256()
            } else if op == OP_DIV {
                if y.val() == 0 {
                    0int
                } else {
                    x.val() / y.val()
                }
            } else if op == OP_MOD {
                if y.val() == 0 {
                    0int
                } else {
                    x.val() % y.val()
                }
            } else if op == OP_LT {
                if x.val() < y.val() { 1int } else { 0int }
            } else if op == OP_GT {
                if x.val() > y.val() { 1int } else { 0int }
            } else if op == OP_EQ {
                if x.val() == y.val() { 1int } else { 0int }
            } else {
                if x.val() >= 256 { 0int } else { y.val() / pow2(x.val() as nat) as int }
            };
            lemma_canonical(w, v);
            assert(f.model(m2.storage) =~~= m2);
        }
        return StepOut::Cont;
    }
}

#[verifier::rlimit(100)]
fn step_c1(
    f: &mut Frame,
    led: &mut Ledger,
    code: &Vec<u8>,
    input: &Vec<u8>,
    value: &U256,
    self_addr: &Address,
) -> (r: StepOut)
    requires
        old(f).inv(),
        code@.len() <= MEM_CAP,
        ({
            let gop = opcode_of(code@, old(f).pc as int);
            gop == OP_SLOAD
        }),
    ensures
        final(f).inv(),
        final(f).gas.limit == old(f).gas.limit,
        ((r is Cont) ==> old(f).gas.used < final(f).gas.used),
        ((r is Cont) ==> old(f).pc < code@.len() && (final(f).pc == old(f).pc + pos_width(
            code@,
            old(f).pc as int,
        ) || is_jumpdest(code@, final(f).pc as int))),
        step_post(
            mk_ctx(code@, input@, *value, self_addr.val(), old(f).gas.limit as int),
            old(f).model(acct_at(old(led).model(), self_addr.val()).storage),
            acct_at(old(led).model(), self_addr.val()).storage,
            old(led).model(),
            *final(f),
            *final(led),
            *old(led),
            r,
        ),
{
    let ghost c = mk_ctx(code@, input@, *value, self_addr.val(), old(f).gas.limit as int);
    let ghost st0 = acct_at(old(led).model(), self_addr.val()).storage;
    let ghost s0 = old(f).model(st0);
    let op: u8 = if f.pc < code.len() {
        code[f.pc]
    } else {
        OP_STOP
    };
    if op == OP_SLOAD {
        if !f.gas.charge(GAS_SLOAD) {
            f.gas.consume_all();
            return StepOut::Halt(ExitReason::Error(ErrorKind::OutOfGas), Vec::new());
        }
        if f.stack.len() < 1 {
            f.gas.consume_all();
            return StepOut::Halt(ExitReason::Error(ErrorKind::StackUnderflow), Vec::new());
        }
        let k = pop_word(&mut f.stack);
        let v = led.read_storage(self_addr, &k);
        f.stack.push(v);
        f.pc = f.pc + 1;
        proof {
            let n = s0.stack.len() as int;
            assert(old(f).stack@.drop_last() =~= s0.stack.take(n - 1));
            let m2 = spec_step(c, s0)->Cont_0;
            lemma_canonical(v, crate::account::slot_val(st0, k.val()));
            assert(f.model(m2.storage) =~~= m2);
        }
        return StepOut::Cont;
    } else if op == OP_SSTORE {
        if !f.gas.charge(GAS_SSTORE) {
            f.gas.consume_all();
            return StepOut::Halt(ExitReason::Error(ErrorKind::OutOfGas), Vec::new());
        }
        if f.stack.len() < 2 {
            f.gas.consume_all();
            return StepOut::Halt(ExitReason::Error(ErrorKind::StackUnderflow), Vec::new());
        }
        let k = pop_word(&mut f.stack);
        let v = pop_word(&mut f.stack);
        led.write_storage(self_addr, k, v);
        f.pc = f.pc + 1;
        proof {
            let n = s0.stack.len() as int;
            assert(old(f).stack@.drop_last().drop_last() =~= s0.stack.take(n - 2));
            lemma_with_storage_insert(old(led).model(), self_addr.val(), k.val(), v.val());
            let m2 = spec_step(c, s0)->Cont_0;
            assert(f.model(m2.storage) =~~= m2);
        }
        return StepOut::Cont;    } else {
        proof {
            assert(false);
        }
        return StepOut::Cont;
    }
}

#[verifier::rlimit(100)]
fn step_c0(
    f: &mut Frame,
    led: &mut Ledger,
    code: &Vec<u8>,
    input: &Vec<u8>,
    value: &U256,
    self_addr: &Address,
) -> (r: StepOut)
    requires
        old(f).inv(),
        code@.len() <= MEM_CAP,
        ({
            let gop = opcode_of(code@, old(f).pc as int);
            gop == OP_SSTORE
        }),
    ensures
        final(f).inv(),
        final(f).gas.limit == old(f).gas.limit,
        ((r is Cont) ==> old(f).gas.used < final(f).gas.used),
        ((r is Cont) ==> old(f).pc < code@.len() && (final(f).pc == old(f).pc + pos_width(
            code@,
            old(f).pc as int,
        ) || is_jumpdest(code@, final(f).pc as int))),
        step_post(
            mk_ctx(code@, input@, *value, self_addr.val(), old(f).gas.limit as int),
            old(f).model(acct_at(old(led).model(), self_addr.val()).storage),
            acct_at(old(led).model(), self_addr.val()).storage,
            old(led).model(),
            *final(f),
            *final(led),
            *old(led),
            r,
        ),
{
    let ghost c = mk_ctx(code@, input@, *value, self_addr.val(), old(f).gas.limit as int);
    let ghost st0 = acct_at(old(led).model(), self_addr.val()).storage;
    let ghost s0 = old(f).model(st0);
    let op: u8 = if f.pc < code.len() {
        code[f.pc]
    } else {
        OP_STOP
    };
    if op == OP_SLOAD {
        if !f.gas.charge(GAS_SLOAD) {
            f.gas.consume_all();
            return StepOut::Halt(ExitReason::Error(ErrorKind::OutOfGas), Vec::new());
        }
        if f.stack.len() < 1 {
            f.gas.consume_all();
            return StepOut::Halt(ExitReason::Error(ErrorKind::StackUnderflow), Vec::new());
        }
        let k = pop_word(&mut f.stack);
        let v = led.read_storage(self_addr, &k);
        f.stack.push(v);
        f.pc = f.pc + 1;
        proof {
            let n = s0.stack.len() as int;
            assert(old(f).stack@.drop_last() =~= s0.stack.take(n - 1));
            let m2 = spec_step(c, s0)->Cont_0;
            lemma_canonical(v, crate::account::slot_val(st0, k.val()));
            assert(f.model(m2.storage) =~~= m2);
        }
        return StepOut::Cont;
    } else if op == OP_SSTORE {
        if !f.gas.charge(GAS_SSTORE) {
            f.gas.consume_all();
            return StepOut::Halt(ExitReason::Error(ErrorKind::OutOfGas), Vec::new());
        }
        if f.stack.len() < 2 {
            f.gas.consume_all();
            return StepOut::Halt(ExitReason::Error(ErrorKind::StackUnderflow), Vec::new());
        }
        let k = pop_word(&mut f.stack);
        let v = pop_word(&mut f.stack);
        led.write_storage(self_addr, k, v);
        f.pc = f.pc + 1;
        proof {
            let n = s0.stack.len() as int;
            assert(old(f).stack@.drop_last().drop_last() =~= s0.stack.take(n - 2));
            lemma_with_storage_insert(old(led).model(), self_addr.val(), k.val(), v.val());
            let m2 = spec_step(c, s0)->Cont_0;
            assert(f.model(m2.storage) =~~= m2);
        }
        return StepOut::Cont;    } else {
        proof {
            assert(false);
        }
        return StepOut::Cont;
    }
}

#[verifier::rlimit(100)]
fn step_c2(
    f: &mut Frame,
    led: &mut Ledger,
    code: &Vec<u8>,
    input: &Vec<u8>,
    value: &U256,
    self_addr: &Address,
) -> (r: StepOut)
    requires
        old(f).inv(),
        code@.len() <= MEM_CAP,
        ({
            let gop = opcode_of(code@, old(f).pc as int);
            gop == OP_JUMP || gop == OP_JUMPI
        }),
    ensures
        final(f).inv(),
        final(f).gas.limit == old(f).gas.limit,
        ((r is Cont) ==> old(f).gas.used < final(f).gas.used),
        ((r is Cont) ==> old(f).pc < code@.len() && (final(f).pc == old(f).pc + pos_width(
            code@,
            old(f).pc as int,
        ) || is_jumpdest(code@, final(f).pc as int))),
        step_post(
            mk_ctx(code@, input@, *value, self_addr.val(), old(f).gas.limit as int),
            old(f).model(acct_at(old(led).model(), self_addr.val()).storage),
            acct_at(old(led).model(), self_addr.val()).storage,
            old(led).model(),
            *final(f),
            *final(led),
            *old(led),
            r,
        ),
{
    let ghost c = mk_ctx(code@, input@, *value, self_addr.val(), old(f).gas.limit as int);
    let ghost st0 = acct_at(old(led).model(), self_addr.val()).storage;
    let ghost s0 = old(f).model(st0);
    let op: u8 = if f.pc < code.len() {
        code[f.pc]
    } else {
        OP_STOP
    };
    if op == OP_JUMP {
        if f.gas.remaining() < GAS_MID {
            f.gas.consume_all();
            return StepOut::Halt(ExitReason::Error(ErrorKind::OutOfGas), Vec::new());
        }
        if f.stack.len() < 1 {
            f.gas.consume_all();
            return StepOut::Halt(ExitReason::Error(ErrorKind::StackUnderflow), Vec::new());
        }
        let dest = pop_word(&mut f.stack);
        if !check_jumpdest(code, &dest) {
            f.gas.consume_all();
            return StepOut::Halt(ExitReason::Error(ErrorKind::InvalidJump), Vec::new());
        }
        let ok = f.gas.charge(GAS_MID);
        proof {
            assert(ok);
            lemma_jumpdest_in_range(code@, 0, dest.val());
        }
        let d: u64 = match dest.to_u64() {
            Some(d) => d,
            None => 0,
        };
        f.pc = d as usize;
        proof {
            let n = s0.stack.len() as int;
            assert(old(f).stack@.drop_last() =~= s0.stack.take(n - 1));
            let m2 = spec_step(c, s0)->Cont_0;
            assert(f.model(m2.storage) =~~= m2);
        }
        return StepOut::Cont;
    } else if op == OP_JUMPI {
        if f.gas.remaining() < GAS_HIGH {
            f.gas.consume_all();
            return StepOut::Halt(ExitReason::Error(ErrorKind::OutOfGas), Vec::new());
        }
        if f.stack.len() < 2 {
            f.gas.consume_all();
            return StepOut::Halt(ExitReason::Error(ErrorKind::StackUnderflow), Vec::new());
        }
        let dest = pop_word(&mut f.stack);
        let cond = pop_word(&mut f.stack);
        if cond.is_zero() {
            let ok = f.gas.charge(GAS_HIGH);
            proof {
                assert(ok);
            }
            f.pc = f.pc + 1;
            proof {
                let n = s0.stack.len() as int;
                assert(old(f).stack@.drop_last().drop_last() =~= s0.stack.take(n - 2));
                let m2 = spec_step(c, s0)->Cont_0;
                assert(f.model(m2.storage) =~~= m2);
            }
            return StepOut::Cont;
        }
        if !check_jumpdest(code, &dest) {
            f.gas.consume_all();
            return StepOut::Halt(ExitReason::Error(ErrorKind::InvalidJump), Vec::new());
        }
        let ok = f.gas.charge(GAS_HIGH);
        proof {
            assert(ok);
            lemma_jumpdest_in_range(code@, 0, dest.val());
        }
        let d: u64 = match dest.to_u64() {
            Some(d) => d,
            None => 0,
        };
        f.pc = d as usize;
        proof {
            let n = s0.stack.len() as int;
            assert(old(f).stack@.drop_last().drop_last() =~= s0.stack.take(n - 2));
            let m2 = spec_step(c, s0)->Cont_0;
            assert(f.model(m2.storage) =~~= m2);
        }
        return StepOut::Cont;    } else {
        proof {
            assert(false);
        }
        return StepOut::Cont;
    }
}

#[verifier::rlimit(100)]
fn step_c3(
    f: &mut Frame,
    led: &mut Ledger,
    code: &Vec<u8>,
    input: &Vec<u8>,
    value: &U256,
    self_addr: &Address,
) -> (r: StepOut)
    requires
        old(f).inv(),
        code@.len() <= MEM_CAP,
        ({
            let gop = opcode_of(code@, old(f).pc as int);
            gop == OP_JUMPDEST
        }),
    ensures
        final(f).inv(),
        final(f).gas.limit == old(f).gas.limit,
        ((r is Cont) ==> old(f).gas.used < final(f).gas.used),
        ((r is Cont) ==> old(f).pc < code@.len() && (final(f).pc == old(f).pc + pos_width(
            code@,
            old(f).pc as int,
        ) || is_jumpdest(code@, final(f).pc as int))),
        step_post(
            mk_ctx(code@, input@, *value, self_addr.val(), old(f).gas.limit as int),
            old(f).model(acct_at(old(led).model(), self_addr.val()).storage),
            acct_at(old(led).model(), self_addr.val()).storage,
            old(led).model(),
            *final(f),
            *final(led),
            *old(led),
            r,
        ),
{
    let ghost c = mk_ctx(code@, input@, *value, self_addr.val(), old(f).gas.limit as int);
    let ghost st0 = acct_at(old(led).model(), self_addr.val()).storage;
    let ghost s0 = old(f).model(st0);
    let op: u8 = if f.pc < code.len() {
        code[f.pc]
    } else {
        OP_STOP
    };
    {
        if !f.gas.charge(GAS_JUMPDEST) {
            f.gas.consume_all();
            return StepOut::Halt(ExitReason::Error(ErrorKind::OutOfGas), Vec::new());
        }
        f.pc = f.pc + 1;
        proof {
            let m2 = spec_step(c, s0)->Cont_0;
            assert(f.model(m2.storage) =~~= m2);
        }
        return StepOut::Cont;
    }
}

#[verifier::rlimit(100)]
fn step_d1(
    f: &mut Frame,
    led: &mut Ledger,
    code: &Vec<u8>,
    input: &Vec<u8>,
    value: &U256,
    self_addr: &Address,
) -> (r: StepOut)
    requires
        old(f).inv(),
        code@.len() <= MEM_CAP,
        ({
            let gop = opcode_of(code@, old(f).pc as int);
            gop == OP_MLOAD
        }),
    ensures
        final(f).inv(),
        final(f).gas.limit == old(f).gas.limit,
        ((r is Cont) ==> old(f).gas.used < final(f).gas.used),
        ((r is Cont) ==> old(f).pc < code@.len() && (final(f).pc == old(f).pc + pos_width(
            code@,
            old(f).pc as int,
        ) || is_jumpdest(code@, final(f).pc as int))),
        step_post(
            mk_ctx(code@, input@, *value, self_addr.val(), old(f).gas.limit as int),
            old(f).model(acct_at(old(led).model(), self_addr.val()).storage),
            acct_at(old(led).model(), self_addr.val()).storage,
            old(led).model(),
            *final(f),
            *final(led),
            *old(led),
            r,
        ),
{
    let ghost c = mk_ctx(code@, input@, *value, self_addr.val(), old(f).gas.limit as int);
    let ghost st0 = acct_at(old(led).model(), self_addr.val()).storage;
    let ghost s0 = old(f).model(st0);
    let op: u8 = if f.pc < code.len() {
        code[f.pc]
    } else {
        OP_STOP
    };
    if op == OP_MLOAD || op == OP_MSTORE {
        let pops: usize = if op == OP_MLOAD {
            1
        } else {
            2
        };
        if f.gas.remaining() < GAS_VERYLOW {
            f.gas.consume_all();
            return StepOut::Halt(ExitReason::Error(ErrorKind::OutOfGas), Vec::new());
        }
        if f.stack.len() < pops {
            f.gas.consume_all();
            return StepOut::Halt(ExitReason::Error(ErrorKind::StackUnderflow), Vec::new());
        }
        let off = pop_word(&mut f.stack);
        let o: u64 = match off.to_u64() {
            Some(o) => o,
            None => {
                f.gas.consume_all();
                return StepOut::Halt(ExitReason::Error(ErrorKind::OutOfGas), Vec::new());
            },
        };
        if o > MEM_CAP - 32 {
            f.gas.consume_all();
            return StepOut::Halt(ExitReason::Error(ErrorKind::OutOfGas), Vec::new());
        }
        let ml: u64 = f.mem.len() as u64;
        let need: u64 = o + 32;
        let tgt: u64 = if need <= ml {
            ml
        } else {
            ((need + 31) / 32) * 32
        };
        proof {
            vstd::arithmetic::div_mod::lemma_fundamental_div_mod(need as int + 31, 32);
        }
        let mcost: u64 = GAS_MEMWORD * ((tgt - ml) / 32);
        if !f.gas.charge(GAS_VERYLOW + mcost) {
            f.gas.consume_all();
            return StepOut::Halt(ExitReason::Error(ErrorKind::OutOfGas), Vec::new());
        }
        mem_grow(&mut f.mem, tgt as usize);
        if op == OP_MLOAD {
            let w = mem_read_word(&f.mem, o as usize);
            f.stack.push(w);
            f.pc = f.pc + 1;
            proof {
                let n = s0.stack.len() as int;
                assert(old(f).stack@.drop_last() =~= s0.stack.take(n - 1));
                crate::machine::lemma_be_val_bound(
                    grown(s0.mem, tgt as int).subrange(o as int, o + 32),
                );
                crate::word::lemma_pow2_val();
                let m2 = spec_step(c, s0)->Cont_0;
                lemma_canonical(w, be_val(grown(s0.mem, tgt as int).subrange(o as int, o + 32)));
                assert(f.model(m2.storage) =~~= m2);
            }
            return StepOut::Cont;
        } else {
            let x = pop_word(&mut f.stack);
            mem_write_word(&mut f.mem, o as usize, &x);
            f.pc = f.pc + 1;
            proof {
                let n = s0.stack.len() as int;
                assert(old(f).stack@.drop_last().drop_last() =~= s0.stack.take(n - 2));
                let m2 = spec_step(c, s0)->Cont_0;
                assert(f.model(m2.storage) =~~= m2);
            }
            return StepOut::Cont;
        }    } else {
        proof {
            assert(false);
        }
        return StepOut::Cont;
    }
}

#[verifier::rlimit(100)]
fn step_d0(
    f: &mut Frame,
    led: &mut Ledger,
    code: &Vec<u8>,
    input: &Vec<u8>,
    value: &U256,
    self_addr: &Address,
) -> (r: StepOut)
    requires
        old(f).inv(),
        code@.len() <= MEM_CAP,
        ({
            let gop = opcode_of(code@, old(f).pc as int);
            gop == OP_MSTORE
        }),
    ensures
        final(f).inv(),
        final(f).gas.limit == old(f).gas.limit,
        ((r is Cont) ==> old(f).gas.used < final(f).gas.used),
        ((r is Cont) ==> old(f).pc < code@.len() && (final(f).pc == old(f).pc + pos_width(
            code@,
            old(f).pc as int,
        ) || is_jumpdest(code@, final(f).pc as int))),
        step_post(
            mk_ctx(code@, input@, *value, self_addr.val(), old(f).gas.limit as int),
            old(f).model(acct_at(old(led).model(), self_addr.val()).storage),
            acct_at(old(led).model(), self_addr.val()).storage,
            old(led).model(),
            *final(f),
            *final(led),
            *old(led),
            r,
        ),
{
    let ghost c = mk_ctx(code@, input@, *value, self_addr.val(), old(f).gas.limit as int);
    let ghost st0 = acct_at(old(led).model(), self_addr.val()).storage;
    let ghost s0 = old(f).model(st0);
    let op: u8 = if f.pc < code.len() {
        code[f.pc]
    } else {
        OP_STOP
    };
    if op == OP_MLOAD || op == OP_MSTORE {
        let pops: usize = if op == OP_MLOAD {
            1
        } else {
            2
        };
        if f.gas.remaining() < GAS_VERYLOW {
            f.gas.consume_all();
            return StepOut::Halt(ExitReason::Error(ErrorKind::OutOfGas), Vec::new());
        }
        if f.stack.len() < pops {
            f.gas.consume_all();
            return StepOut::Halt(ExitReason::Error(ErrorKind::StackUnderflow), Vec::new());
        }
        let off = pop_word(&mut f.stack);
        let o: u64 = match off.to_u64() {
            Some(o) => o,
            None => {
                f.gas.consume_all();
                return StepOut::Halt(ExitReason::Error(ErrorKind::OutOfGas), Vec::new());
            },
        };
        if o > MEM_CAP - 32 {
            f.gas.consume_all();
            return StepOut::Halt(ExitReason::Error(ErrorKind::OutOfGas), Vec::new());
        }
        let ml: u64 = f.mem.len() as u64;
        let need: u64 = o + 32;
        let tgt: u64 = if need <= ml {
            ml
        } else {
            ((need + 31) / 32) * 32
        };
        proof {
            vstd::arithmetic::div_mod::lemma_fundamental_div_mod(need as int + 31, 32);
        }
        let mcost: u64 = GAS_MEMWORD * ((tgt - ml) / 32);
        if !f.gas.charge(GAS_VERYLOW + mcost) {
            f.gas.consume_all();
            return StepOut::Halt(ExitReason::Error(ErrorKind::OutOfGas), Vec::new());
        }
        mem_grow(&mut f.mem, tgt as usize);
        if op == OP_MLOAD {
            let w = mem_read_word(&f.mem, o as usize);
            f.stack.push(w);
            f.pc = f.pc + 1;
            proof {
                let n = s0.stack.len() as int;
                assert(old(f).stack@.drop_last() =~= s0.stack.take(n - 1));
                crate::machine::lemma_be_val_bound(
                    grown(s0.mem, tgt as int).subrange(o as int, o + 32),
                );
                crate::word::lemma_pow2_val();
                let m2 = spec_step(c, s0)->Cont_0;
                lemma_canonical(w, be_val(grown(s0.mem, tgt as int).subrange(o as int, o + 32)));
                assert(f.model(m2.storage) =~~= m2);
            }
            return StepOut::Cont;
        } else {
            let x = pop_word(&mut f.stack);
            mem_write_word(&mut f.mem, o as usize, &x);
            f.pc = f.pc + 1;
            proof {
                let n = s0.stack.len() as int;
                assert(old(f).stack@.drop_last().drop_last() =~= s0.stack.take(n - 2));
                let m2 = spec_step(c, s0)->Cont_0;
                assert(f.model(m2.storage) =~~= m2);
            }
            return StepOut::Cont;
        }    } else {
        proof {
            assert(false);
        }
        return StepOut::Cont;
    }
}

#[verifier::rlimit(100)]
fn step_d2(
    f: &mut Frame,
    led: &mut Ledger,
    code: &Vec<u8>,
    input: &Vec<u8>,
    value: &U256,
    self_addr: &Address,
) -> (r: StepOut)
    requires
        old(f).inv(),
        code@.len() <= MEM_CAP,
        ({
            let gop = opcode_of(code@, old(f).pc as int);
            gop == OP_CODECOPY
        }),
    ensures
        final(f).inv(),
        final(f).gas.limit == old(f).gas.limit,
        ((r is Cont) ==> old(f).gas.used < final(f).gas.used),
        ((r is Cont) ==> old(f).pc < code@.len() && (final(f).pc == old(f).pc + pos_width(
            code@,
            old(f).pc as int,
        ) || is_jumpdest(code@, final(f).pc as int))),
        step_post(
            mk_ctx(code@, input@, *value, self_addr.val(), old(f).gas.limit as int),
            old(f).model(acct_at(old(led).model(), self_addr.val()).storage),
            acct_at(old(led).model(), self_addr.val()).storage,
            old(led).model(),
            *final(f),
            *final(led),
            *old(led),
            r,
        ),
{
    let ghost c = mk_ctx(code@, input@, *value, self_addr.val(), old(f).gas.limit as int);
    let ghost st0 = acct_at(old(led).model(), self_addr.val()).storage;
    let ghost s0 = old(f).model(st0);
    let op: u8 = if f.pc < code.len() {
        code[f.pc]
    } else {
        OP_STOP
    };
    if op == OP_CODECOPY {
        if f.gas.remaining() < GAS_VERYLOW {
            f.gas.consume_all();
            return StepOut::Halt(ExitReason::Error(ErrorKind::OutOfGas), Vec::new());
        }
        if f.stack.len() < 3 {
            f.gas.consume_all();
            return StepOut::Halt(ExitReason::Error(ErrorKind::StackUnderflow), Vec::new());
        }
        let dest_w = pop_word(&mut f.stack);
        let src_w = pop_word(&mut f.stack);
        let len_w = pop_word(&mut f.stack);
        if len_w.is_zero() {
            let ok = f.gas.charge(GAS_VERYLOW);
            proof {
                assert(ok);
            }
            f.pc = f.pc + 1;
            proof {
                let n = s0.stack.len() as int;
                assert(old(f).stack@.drop_last().drop_last().drop_last() =~= s0.stack.take(
                    n - 3,
                ));
                let m2 = spec_step(c, s0)->Cont_0;
                assert(f.model(m2.storage) =~~= m2);
            }
            return StepOut::Cont;
        }
        let d: u64 = match dest_w.to_u64() {
            Some(d) => d,
            None => {
                f.gas.consume_all();
                return StepOut::Halt(ExitReason::Error(ErrorKind::OutOfGas), Vec::new());
            },
        };
        let l: u64 = match len_w.to_u64() {
            Some(l) => l,
            None => {
                f.gas.consume_all();
                return StepOut::Halt(ExitReason::Error(ErrorKind::OutOfGas), Vec::new());
            },
        };
        if l > MEM_CAP || d > MEM_CAP - l {
            f.gas.consume_all();
            return StepOut::Halt(ExitReason::Error(ErrorKind::OutOfGas), Vec::new());
        }
        let ml: u64 = f.mem.len() as u64;
        let need: u64 = d + l;
        let tgt: u64 = if need <= ml {
            ml
        } else {
            ((need + 31) / 32) * 32
        };
        proof {
            vstd::arithmetic::div_mod::lemma_fundamental_div_mod(need as int + 31, 32);
        }
        let mcost: u64 = GAS_MEMWORD * ((tgt - ml) / 32);
        let ccost: u64 = GAS_COPYWORD * ((l + 31) / 32);
        if !f.gas.charge(GAS_VERYLOW + mcost + ccost) {
            f.gas.consume_all();
            return StepOut::Halt(ExitReason::Error(ErrorKind::OutOfGas), Vec::new());
        }
        mem_grow(&mut f.mem, tgt as usize);
        let so: u64 = match src_w.to_u64() {
            Some(s) => s,
            None => u64::MAX,
        };
        mem_copy_padded(&mut f.mem, d as usize, code, so, l as usize);
        f.pc = f.pc + 1;
        proof {
            let n = s0.stack.len() as int;
            assert(old(f).stack@.drop_last().drop_last().drop_last() =~= s0.stack.take(n - 3));
            let g = grown(s0.mem, tgt as int);
            assert(copied(g, d as int, c.code, so as int, l as int) =~= copied(
                g,
                d as int,
                c.code,
                src_w.val(),
                l as int,
            ));
            let m2 = spec_step(c, s0)->Cont_0;
            assert(f.model(m2.storage) =~~= m2);
        }
        return StepOut::Cont;    } else {
        proof {
            assert(false);
        }
        return StepOut::Cont;
    }
}

#[verifier::rlimit(100)]
fn step_d3(
    f: &mut Frame,
    led: &mut Ledger,
    code: &Vec<u8>,
    input: &Vec<u8>,
    value: &U256,
    self_addr: &Address,
) -> (r: StepOut)
    requires
        old(f).inv(),
        code@.len() <= MEM_CAP,
        ({
            let gop = opcode_of(code@, old(f).pc as int);
            !(gop == OP_STOP || gop == OP_ADD || gop == OP_MUL || gop == OP_SUB || gop == OP_DIV
                || gop == OP_MOD || gop == OP_LT
                || gop == OP_GT || gop == OP_EQ || gop == OP_SHR || gop == OP_ISZERO) && !(gop
                == OP_CALLVALUE || gop == OP_CALLDATASIZE || gop == OP_CALLDATALOAD || gop
                == OP_POP || (OP_PUSH1 <= gop && gop <= OP_PUSH32) || (OP_DUP1 <= gop && gop
                <= OP_DUP16) || (OP_SWAP1 <= gop && gop <= OP_SWAP16)) && !(gop == OP_SLOAD
                || gop == OP_SSTORE || gop == OP_JUMP || gop == OP_JUMPI || gop == OP_JUMPDEST)
                && !(gop == OP_MLOAD || gop == OP_MSTORE) && gop != OP_CODECOPY
                && gop != OP_CALL && gop != OP_CREATE
        }),
    ensures
        final(f).inv(),
        final(f).gas.limit == old(f).gas.limit,
        ((r is Cont) ==> old(f).gas.used < final(f).gas.used),
        ((r is Cont) ==> old(f).pc < code@.len() && (final(f).pc == old(f).pc + pos_width(
            code@,
            old(f).pc as int,
        ) || is_jumpdest(code@, final(f).pc as int))),
        step_post(
            mk_ctx(code@, input@, *value, self_addr.val(), old(f).gas.limit as int),
            old(f).model(acct_at(old(led).model(), self_addr.val()).storage),
            acct_at(old(led).model(), self_addr.val()).storage,
            old(led).model(),
            *final(f),
            *final(led),
            *old(led),
            r,
        ),
{
    let ghost c = mk_ctx(code@, input@, *value, self_addr.val(), old(f).gas.limit as int);
    let ghost st0 = acct_at(old(led).model(), self_addr.val()).storage;
    let ghost s0 = old(f).model(st0);
    let op: u8 = if f.pc < code.len() {
        code[f.pc]
    } else {
        OP_STOP
    };
    if op == OP_RETURN || op == OP_REVERT {
        if f.stack.len() < 2 {
            f.gas.consume_all();
            return StepOut::Halt(ExitReason::Error(ErrorKind::StackUnderflow), Vec::new());
        }
        let off_w = pop_word(&mut f.stack);
        let len_w = pop_word(&mut f.stack);
        let o: u64 = match off_w.to_u64() {
            Some(o) => o,
            None => {
                f.gas.consume_all();
                return StepOut::Halt(ExitReason::Error(ErrorKind::OutOfGas), Vec::new());
            },
        };
        let l: u64 = match len_w.to_u64() {
            Some(l) => l,
            None => {
                f.gas.consume_all();
                return StepOut::Halt(ExitReason::Error(ErrorKind::OutOfGas), Vec::new());
            },
        };
        if l > MEM_CAP || o > MEM_CAP - l {
            f.gas.consume_all();
            return StepOut::Halt(ExitReason::Error(ErrorKind::OutOfGas), Vec::new());
        }
        let ml: u64 = f.mem.len() as u64;
        let need: u64 = o + l;
        let tgt: u64 = if need <= ml {
            ml
        } else {
            ((need + 31) / 32) * 32
        };
        proof {
            vstd::arithmetic::div_mod::lemma_fundamental_div_mod(need as int + 31, 32);
        }
        let mcost: u64 = GAS_MEMWORD * ((tgt - ml) / 32);
        if !f.gas.charge(mcost) {
            f.gas.consume_all();
            return StepOut::Halt(ExitReason::Error(ErrorKind::OutOfGas), Vec::new());
        }
        mem_grow(&mut f.mem, tgt as usize);
        let out = mem_slice(&f.mem, o as usize, l as usize);
        let reason = if op == OP_RETURN {
            ExitReason::Succeed(SucceedKind::Returned)
        } else {
            ExitReason::Revert
        };
        return StepOut::Halt(reason, out);
    } else {
        f.gas.consume_all();
        return StepOut::Halt(ExitReason::Error(ErrorKind::InvalidOpcode), Vec::new());
    }
}

/// A jump destination lies inside the code.
proof fn lemma_jumpdest_in_range(code: Seq<u8>, i: int, dest: int)
    requires
        0 <= i <= code.len(),
        jumpdest_from(code, i, dest),
    ensures
        0 <= dest < code.len(),
    decreases code.len() - i,
{
    if i < code.len() && i < dest {
        let w: int = if OP_PUSH1 <= code[i] <= OP_PUSH32 {
            1 + (code[i] - (OP_PUSH1 - 1))
        } else {
            1
        };
        if i + w <= code.len() {
            lemma_jumpdest_in_range(code, i + w, dest);
        }
    }
}

} // verus!
