//! The register file of the simulated digitizer board: how a control request is
//! answered and which registers it changes.
use vstd::prelude::*;
use std::collections::BTreeMap;

verus! {

/// One register operation of a control request or of its acknowledgement.
#[derive(Debug, Clone, Copy, PartialEq, Eq, Structural)]
pub enum CtrlReg {
    Read16 { address: u16, value: u16 },
    Write16 { address: u16, value: u16 },
    Read32 { address: u16, value: u32 },
    Write32 { address: u16, value: u32 },
}

/// Why a control request cannot be answered.
#[derive(Debug, Clone, Copy, PartialEq, Eq, Structural)]
pub enum CtrlError {
    /// A 16-bit read of a register that holds no value.
    UnknownRegister(u16),
    /// An operation that the simulated board does not handle.
    Unsupported(CtrlReg),
}

/// The state of the register file while a request is handled.
pub struct RegState {
    pub regs16: Map<u16, u16>,
    pub regs32: Map<u16, u32>,
    pub acks: Seq<CtrlReg>,
    pub runs: nat,
    pub failed: Option<CtrlError>,
}

/// One operation applied to the state: a read answers with the stored value, a write
/// stores its value and is echoed, and each 16-bit write of `run_value` to the device
/// control register starts a run (and is counted). Once an operation fails the rest are ignored.
pub open spec fn spec_apply_reg(s: RegState, reg: CtrlReg, device_ctrl: u16, run_value: u16) -> RegState {
    if s.failed is Some {
        s
    } else {
        match reg {
            CtrlReg::Read16 { address, value } => if s.regs16.contains_key(address) {
                RegState {
                    acks: s.acks.push(CtrlReg::Read16 { address, value: s.regs16[address] }),
                    ..s
                }
            } else {
                RegState { failed: Some(CtrlError::UnknownRegister(address)), ..s }
            },
            CtrlReg::Write16 { address, value } => RegState {
                regs16: s.regs16.insert(address, value),
                acks: s.acks.push(reg),
                runs: if address == device_ctrl && value == run_value {
                    s.runs + 1
                } else {
                    s.runs
                },
                ..s
            },
            CtrlReg::Write32 { address, value } => RegState {
                regs32: s.regs32.insert(address, value),
                acks: s.acks.push(reg),
                ..s
            },
            CtrlReg::Read32 { .. } => RegState { failed: Some(CtrlError::Unsupported(reg)), ..s },
        }
    }
}

/// The state after the operations of a request, in order.
pub open spec fn spec_apply_regs(s: RegState, regs: Seq<CtrlReg>, device_ctrl: u16, run_value: u16) -> RegState
    decreases regs.len(),
{
    if regs.len() == 0 {
        s
    } else {
        spec_apply_reg(
            spec_apply_regs(s, regs.drop_last(), device_ctrl, run_value),
            regs.last(),
            device_ctrl,
            run_value,
        )
    }
}

/// The starting state of a request.
pub open spec fn start_state(regs16: Map<u16, u16>, regs32: Map<u16, u32>) -> RegState {
    RegState { regs16, regs32, acks: Seq::empty(), runs: 0, failed: None }
}

/// The answer to a control request.
pub struct CtrlAnswer {
    /// The acknowledged operations.
    pub acks: Vec<CtrlReg>,
    /// How many of the request's writes started a run, each signalled once.
    pub runs: usize,
}

/// Handles the operations of a control request on the register file, in order. On
/// success returns the acknowledgements and the number of runs started; on the first
/// operation that cannot be handled returns its error, the registers keeping the
/// writes made before it.
pub fn handle_ctrl_request(
    regs16: &mut BTreeMap<u16, u16>,
    regs32: &mut BTreeMap<u16, u32>,
    request: &[CtrlReg],
    device_ctrl: u16,
    run_value: u16,
) -> (r: Result<CtrlAnswer, CtrlError>)
    ensures
        ({
            let s = spec_apply_regs(
                start_state(old(regs16)@, old(regs32)@),
                request@,
                device_ctrl,
                run_value,
            );
            &&& final(regs16)@ == s.regs16
            &&& final(regs32)@ == s.regs32
            &&& match r {
                Ok(answer) => s.failed is None && answer.acks@ == s.acks && answer.runs == s.runs,
                Err(e) => s.failed == Some(e),
            }
        }),
{
    let ghost s0 = start_state(regs16@, regs32@);
    let mut acks: Vec<CtrlReg> = Vec::new();
    let mut runs: usize = 0;
    let mut i: usize = 0;
    assert(request@.take(0) =~= Seq::<CtrlReg>::empty());
    while i < request.len()
        invariant
            i <= request@.len(),
            s0 == start_state(old(regs16)@, old(regs32)@),
            ({
                let s = spec_apply_regs(s0, request@.take(i as int), device_ctrl, run_value);
                &&& s.failed is None
                &&& regs16@ == s.regs16
                &&& regs32@ == s.regs32
                &&& acks@ == s.acks
                &&& runs == s.runs
                &&& runs <= i
            }),
        decreases request@.len() - i,
    {
        let reg = request[i];
        assert(request@.take(i + 1).drop_last() =~= request@.take(i as int));
        assert(request@.take(i + 1).last() == reg);
        proof {
            lemma_u16_keys_ordered();
        }
        match reg {
            CtrlReg::Read16 { address, value: _ } => {
                match regs16.get(&address) {
                    Some(v) => {
                        acks.push(CtrlReg::Read16 { address, value: *v });
                    },
                    None => {
                        proof {
                            lemma_failure_persists(s0, request@, i as int + 1, device_ctrl, run_value);
                        }
                        return Err(CtrlError::UnknownRegister(address));
                    },
                }
            },
            CtrlReg::Write16 { address, value } => {
                regs16.insert(address, value);
                acks.push(reg);
                if address == device_ctrl && value == run_value {
                    runs = runs + 1;
                }
            },
            CtrlReg::Write32 { address, value } => {
                proof {
                    lemma_u16_keys_ordered();
                }
                regs32.insert(address, value);
                acks.push(reg);
            },
            CtrlReg::Read32 { .. } => {
                proof {
                    lemma_failure_persists(s0, request@, i as int + 1, device_ctrl, run_value);
                }
                return Err(CtrlError::Unsupported(reg));
            },
        }
        i += 1;
    }
    assert(request@.take(request@.len() as int) =~= request@);
    Ok(CtrlAnswer { acks, runs })
}

proof fn lemma_failure_persists(s0: RegState, regs: Seq<CtrlReg>, k: int, device_ctrl: u16, run_value: u16)
    requires
        0 < k <= regs.len(),
        spec_apply_regs(s0, regs.take(k), device_ctrl, run_value).failed is Some,
    ensures
        spec_apply_regs(s0, regs, device_ctrl, run_value) == spec_apply_regs(
            s0,
            regs.take(k),
            device_ctrl,
            run_value,
        ),
    decreases regs.len() - k,
{
    if k < regs.len() {
        assert(regs.take(k + 1).drop_last() =~= regs.take(k));
        lemma_failure_persists(s0, regs, k + 1, device_ctrl, run_value);
    } else {
        assert(regs.take(k) =~= regs);
    }
}

proof fn lemma_u16_keys_ordered()
    ensures
        vstd::laws_cmp::obeys_cmp::<u16>(),
{
}

/// Reading a register just written gives the written value, and a request of writes
/// alone never fails.
pub proof fn lemma_write_then_read(
    regs16: Map<u16, u16>,
    regs32: Map<u16, u32>,
    address: u16,
    value: u16,
    device_ctrl: u16,
    run_value: u16,
)
    ensures
        ({
            let s = spec_apply_regs(
                start_state(regs16, regs32),
                seq![CtrlReg::Write16 { address, value }, CtrlReg::Read16 { address, value: 0 }],
                device_ctrl,
                run_value,
            );
            &&& s.failed is None
            &&& s.acks == seq![
                CtrlReg::Write16 { address, value },
                CtrlReg::Read16 { address, value },
            ]
            &&& s.regs16 == regs16.insert(address, value)
        }),
{
    let regs = seq![CtrlReg::Write16 { address, value }, CtrlReg::Read16 { address, value: 0 }];
    let s0 = start_state(regs16, regs32);
    assert(regs.drop_last() =~= seq![CtrlReg::Write16 { address, value }]);
    assert(regs.drop_last().drop_last() =~= Seq::<CtrlReg>::empty());
    assert(spec_apply_regs(s0, regs.drop_last().drop_last(), device_ctrl, run_value) == s0);
    assert(regs.drop_last().last() == CtrlReg::Write16 { address, value });
    assert(regs.last() == CtrlReg::Read16 { address, value: 0 });
    let s1 = spec_apply_regs(s0, regs.drop_last(), device_ctrl, run_value);
    assert(s1 == spec_apply_reg(s0, CtrlReg::Write16 { address, value }, device_ctrl, run_value));
    assert(s1.acks =~= seq![CtrlReg::Write16 { address, value }]);
    let s2 = spec_apply_reg(s1, CtrlReg::Read16 { address, value: 0 }, device_ctrl, run_value);
    assert(s2.acks =~= seq![CtrlReg::Write16 { address, value }, CtrlReg::Read16 { address, value }]);
}

} // verus!
