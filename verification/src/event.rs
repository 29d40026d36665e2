//! The routing syscall as the executor sees it: what a call records.

use vstd::prelude::*;

verus! {

/// Topological route event.
#[derive(Clone, Copy, Debug, Default, PartialEq, Eq, Structural)]
pub struct TopologicalRouteEvent {
    /// The current node ID in the graph.
    pub current_node: u64,
    /// The next valid node ID in the graph.
    pub next_node: u64,
}

/// A routing syscall as recorded by the executor: the clock cycle of the call and its event.
#[derive(Clone, Copy, Debug, PartialEq, Eq, Structural)]
pub struct RouteRecord {
    /// Clock cycle of the syscall.
    pub clk: u64,
    /// The hop the syscall asked for.
    pub event: TopologicalRouteEvent,
}

/// The syscall record that the executor stores beside a precompile event: the clock cycle of
/// the call, the syscall's code, its two arguments, whether it writes register `a0` (the
/// routing syscall does not), the program counter after the call and the exit code.
#[derive(Clone, Copy, Debug, PartialEq, Eq, Structural)]
pub struct SyscallRecord {
    /// Clock cycle of the call.
    pub clk: u64,
    /// The syscall's code.
    pub syscall_code: u32,
    /// First argument.
    pub arg1: u64,
    /// Second argument.
    pub arg2: u64,
    /// Whether the syscall writes register `a0`.
    pub op_a_0: bool,
    /// Program counter after the call.
    pub next_pc: u64,
    /// Exit code at the call.
    pub exit_code: u32,
}

/// What a routing call hands the executor to record: the syscall's code, its syscall record
/// and its precompile event.
#[derive(Clone, Copy, Debug, PartialEq, Eq, Structural)]
pub struct RecordedRoute {
    /// The code under which the event is filed.
    pub syscall_code: u32,
    /// The syscall record.
    pub syscall_event: SyscallRecord,
    /// The hop.
    pub event: TopologicalRouteEvent,
}

/// The syscall record of a routing call: the call's clock, code and arguments, no write to
/// `a0`, and the executor's next program counter and exit code.
pub open spec fn route_syscall_spec(
    clk: u64,
    syscall_code: u32,
    arg1: u64,
    arg2: u64,
    next_pc: u64,
    exit_code: u32,
) -> SyscallRecord {
    SyscallRecord { clk, syscall_code, arg1, arg2, op_a_0: false, next_pc, exit_code }
}

/// Builds the syscall record of a routing call.
pub fn route_syscall_record(
    clk: u64,
    syscall_code: u32,
    arg1: u64,
    arg2: u64,
    next_pc: u64,
    exit_code: u32,
) -> (r: SyscallRecord)
    ensures
        r == route_syscall_spec(clk, syscall_code, arg1, arg2, next_pc, exit_code),
{
    SyscallRecord { clk, syscall_code, arg1, arg2, op_a_0: false, next_pc, exit_code }
}

/// The event that a call with arguments `arg1`, `arg2` records: one when tracing and both
/// arguments fit in 32 bits, none otherwise.
pub open spec fn recorded_event(tracing: bool, arg1: u64, arg2: u64) -> Option<
    TopologicalRouteEvent,
> {
    if tracing && arg1 <= u32::MAX && arg2 <= u32::MAX {
        Some(TopologicalRouteEvent { current_node: arg1, next_node: arg2 })
    } else {
        None
    }
}

/// What a routing call records, given the executor's clock, next program counter and exit code
/// at the call: the event of `recorded_event`, filed under the call's code together with its
/// syscall record, or nothing.
pub open spec fn recorded_route(
    tracing: bool,
    clk: u64,
    syscall_code: u32,
    arg1: u64,
    arg2: u64,
    next_pc: u64,
    exit_code: u32,
) -> Option<RecordedRoute> {
    match recorded_event(tracing, arg1, arg2) {
        Some(event) => Some(
            RecordedRoute {
                syscall_code,
                syscall_event: route_syscall_spec(clk, syscall_code, arg1, arg2, next_pc, exit_code),
                event,
            },
        ),
        None => None,
    }
}

/// Executes the routing syscall in the tracing executor, whose clock, next program counter and
/// exit code at the call are `clk`, `next_pc` and `exit_code`. The syscall writes no register,
/// so the first result is always `None`; the second is what the executor records for the call,
/// if anything: the hop is recorded whether or not it is a valid one.
pub fn topological_route(
    tracing: bool,
    clk: u64,
    syscall_code: u32,
    arg1: u64,
    arg2: u64,
    next_pc: u64,
    exit_code: u32,
) -> (r: (Option<u64>, Option<RecordedRoute>))
    ensures
        r.0 is None,
        r.1 == recorded_route(tracing, clk, syscall_code, arg1, arg2, next_pc, exit_code),
{
    if tracing {
        let current_node = match u32::try_from(arg1).ok() {
            Some(v) => v,
            None => {
                return (None, None);
            },
        };
        let next_node = match u32::try_from(arg2).ok() {
            Some(v) => v,
            None => {
                return (None, None);
            },
        };
        let event = TopologicalRouteEvent {
            current_node: current_node as u64,
            next_node: next_node as u64,
        };
        let syscall_event = route_syscall_record(clk, syscall_code, arg1, arg2, next_pc, exit_code);
        return (None, Some(RecordedRoute { syscall_code, syscall_event, event }));
    }
    (None, None)
}

/// Executes the routing syscall in the JIT executor, which runs outside the proving
/// environment: the syscall only constrains the trace, so nothing is done and no register is
/// written.
pub fn jit_topological_route(arg1: u64, arg2: u64) -> (r: Option<u64>)
    ensures
        r is None,
{
    None
}

} // verus!
