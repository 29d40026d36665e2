use topology::air::{TopologicalRouterAir, NUM_CONSTRAINTS};
use topology::benchmark;
use topology::bits::{validate_route, RouteError, NUM_NODES};
use topology::chip::{InteractionKind, InteractionScope, TopologyChip, CHIP_COLS, TOPOLOGY_DIM};
use topology::cols::{num_cols, TopologyCols, DIM, NUM_COLS};
use topology::event::{
    jit_topological_route, route_syscall_record, topological_route, RecordedRoute, RouteRecord,
    SyscallRecord, TopologicalRouteEvent,
};
use topology::field::{Fe, P};

/// A syscall code for the routing syscall, as an executor might number it.
const ROUTE_CODE: u32 = 0x00_00_01_40;

fn fe(v: u32) -> Fe {
    Fe::from_canonical_u32(v)
}

fn flat<const D: usize>(row: &TopologyCols<Fe, D>) -> Vec<Fe> {
    (0..num_cols::<D>()).map(|j| row.col(j)).collect()
}

/// The low `n` bits of `v`, least significant first.
fn bits(v: u64, n: usize) -> Vec<u32> {
    (0..n).map(|i| ((v >> i) & 1) as u32).collect()
}

/// A one-hot vector of `n` entries with the one at `k`.
fn one_hot(k: usize, n: usize) -> Vec<u32> {
    (0..n).map(|i| if i == k { 1 } else { 0 }).collect()
}

fn zero_row() -> TopologyCols<Fe, DIM> {
    TopologyCols::<Fe, DIM>::zero_row()
}

fn chip_air() -> TopologicalRouterAir<TOPOLOGY_DIM> {
    TopologicalRouterAir::<TOPOLOGY_DIM>
}

fn vals(cells: &[Fe]) -> Vec<u32> {
    cells.iter().map(|c| c.val).collect()
}

#[test]
fn field_arithmetic_reduces_mod_p() {
    assert_eq!(P, 2013265921);
    assert_eq!(fe(5).add(fe(P - 1)).val, 4);
    assert_eq!(fe(3).sub(fe(5)).val, P - 2);
    assert_eq!(fe(P - 1).mul(fe(P - 1)).val, 1);
    assert_eq!(fe(7).mul(fe(6)).val, 42);
    assert_eq!(Fe::from_canonical_u64(9).as_canonical_u32(), 9);
    assert_eq!(Fe::zero().val, 0);
    assert_eq!(Fe::one().val, 1);
}

#[test]
fn validate_route_accepts_single_bit_hops() {
    assert_eq!(NUM_NODES, 1024);
    assert_eq!(validate_route(0, 1), Ok(()));
    assert_eq!(validate_route(512, 0), Ok(()));
    assert_eq!(validate_route(1023, 1015), Ok(()));
}

#[test]
fn validate_route_refuses_other_pairs() {
    assert_eq!(validate_route(0, 3), Err(RouteError::NotSingleBitFlip));
    assert_eq!(validate_route(7, 7), Err(RouteError::NotSingleBitFlip));
    // Range is checked first, even when the XOR has a single bit set.
    assert_eq!(validate_route(1024, 0), Err(RouteError::NodeOutOfRange));
    assert_eq!(validate_route(0, 1025), Err(RouteError::NodeOutOfRange));
    assert_eq!(validate_route(u32::MAX, 0), Err(RouteError::NodeOutOfRange));
}

#[test]
fn topological_route_records_event_when_tracing() {
    let (ret, rec) = topological_route(true, 77, ROUTE_CODE, 5, 4, 0x2004, 0);
    assert_eq!(ret, None);
    assert_eq!(
        rec,
        Some(RecordedRoute {
            syscall_code: ROUTE_CODE,
            syscall_event: SyscallRecord {
                clk: 77,
                syscall_code: ROUTE_CODE,
                arg1: 5,
                arg2: 4,
                op_a_0: false,
                next_pc: 0x2004,
                exit_code: 0,
            },
            event: TopologicalRouteEvent { current_node: 5, next_node: 4 },
        })
    );
    // An invalid hop is recorded all the same: the chip's AIR is what refuses it.
    let (_, rec) = topological_route(true, 1, ROUTE_CODE, 0, 3, 8, 2);
    assert_eq!(rec.unwrap().event, TopologicalRouteEvent { current_node: 0, next_node: 3 });
    assert_eq!(rec.unwrap().syscall_event.exit_code, 2);
}

#[test]
fn topological_route_records_nothing_otherwise() {
    assert_eq!(topological_route(false, 1, ROUTE_CODE, 5, 4, 8, 0), (None, None));
    assert_eq!(topological_route(true, 1, ROUTE_CODE, 1u64 << 32, 4, 8, 0), (None, None));
    assert_eq!(topological_route(true, 1, ROUTE_CODE, 4, 1u64 << 40, 8, 0), (None, None));
    let rec = topological_route(true, 1, ROUTE_CODE, u32::MAX as u64, 0, 8, 0).1.unwrap();
    assert_eq!(rec.event.current_node, u32::MAX as u64);
    assert_eq!(rec.syscall_event.arg1, u32::MAX as u64);
    assert_eq!(jit_topological_route(1, 2), None);
}

#[test]
fn syscall_record_keeps_every_field() {
    let r = route_syscall_record(9, 0x140, 11, 12, 0x100, 3);
    assert_eq!(r.clk, 9);
    assert_eq!(r.syscall_code, 0x140);
    assert_eq!(r.arg1, 11);
    assert_eq!(r.arg2, 12);
    assert!(!r.op_a_0);
    assert_eq!(r.next_pc, 0x100);
    assert_eq!(r.exit_code, 3);
}

#[test]
fn event_row_unpacks_nodes_and_marks_the_flipped_dimension() {
    let clk: u64 = (3u64 << 24) | 7;
    let row = TopologyChip::event_row(clk, &TopologicalRouteEvent { current_node: 5, next_node: 4 });
    assert_eq!(row.clk_high.val, 3);
    assert_eq!(row.clk_low.val, 7);
    assert_eq!(row.is_routing.val, 1);
    assert_eq!(vals(&row.current_bits), bits(5, TOPOLOGY_DIM));
    assert_eq!(vals(&row.current_bits[..4]), vec![1, 0, 1, 0]);
    assert_eq!(vals(&row.next_bits), bits(4, TOPOLOGY_DIM));
    assert_eq!(vals(&row.selectors), one_hot(0, TOPOLOGY_DIM));
}

#[test]
fn event_row_selects_highest_difference() {
    // Nodes 0 and 0b1000000101 differ in dimensions 0, 2 and 9; the selector marks 9.
    let row = TopologyChip::event_row(0, &TopologicalRouteEvent { current_node: 0, next_node: 517 });
    assert_eq!(vals(&row.selectors), one_hot(9, TOPOLOGY_DIM));
    // Equal nodes: the selector falls back to dimension 0.
    let row = TopologyChip::event_row(0, &TopologicalRouteEvent { current_node: 9, next_node: 9 });
    assert_eq!(vals(&row.selectors), one_hot(0, TOPOLOGY_DIM));
    // Only the low TOPOLOGY_DIM bits of a node are kept.
    let row = TopologyChip::event_row(0, &TopologicalRouteEvent { current_node: (1u64 << 40) + 2, next_node: 2 });
    assert_eq!(vals(&row.current_bits), bits(2, TOPOLOGY_DIM));
}

#[test]
fn event_row_keeps_high_dimensions() {
    // A hop in dimension 20 lies beyond the library's DIM but within TOPOLOGY_DIM.
    let a: u64 = 1 << 20;
    let row = TopologyChip::event_row(0, &TopologicalRouteEvent { current_node: a, next_node: a + 1 });
    assert_eq!(row.current_bits[20].val, 1);
    assert_eq!(row.next_bits[20].val, 1);
    assert_eq!(row.next_bits[0].val, 1);
    assert_eq!(vals(&row.selectors), one_hot(0, TOPOLOGY_DIM));
    let (c, m) = TopologyChip::new().eval(&flat(&row), ROUTE_CODE);
    assert!(c.iter().all(|x| x.val == 0));
    assert_eq!(m.arg1[0].val, 1 << 20);
    assert_eq!(m.arg2[0].val, (1 << 20) + 1);
    // Dimension 39, the highest, and a node above the field's modulus taken mod P.
    let a: u64 = 1 << 39;
    let row = TopologyChip::event_row(0, &TopologicalRouteEvent { current_node: 0, next_node: a });
    assert_eq!(vals(&row.selectors), one_hot(39, TOPOLOGY_DIM));
    let (c, m) = TopologyChip::new().eval(&flat(&row), ROUTE_CODE);
    assert!(c.iter().all(|x| x.val == 0));
    assert_eq!(m.arg1[0].val, 0);
    assert_eq!(m.arg2[0].val as u64, a % (P as u64));
}

#[test]
fn clock_splits_into_high_and_low_parts() {
    let clk: u64 = 0x12_345678;
    let row = TopologyChip::event_row(clk, &TopologicalRouteEvent { current_node: 0, next_node: 1 });
    assert_eq!(row.clk_high.val, 0x12);
    assert_eq!(row.clk_low.val, 0x345678);
}

#[test]
fn air_accepts_a_valid_hop_row() {
    let row = TopologyChip::event_row(11, &TopologicalRouteEvent { current_node: 512, next_node: 0 });
    let c = chip_air().eval(&flat(&row));
    assert_eq!(c.len(), 2 + 4 * TOPOLOGY_DIM);
    assert_eq!(c.len(), 162);
    assert!(c.iter().all(|x| x.val == 0));
    assert_eq!(NUM_CONSTRAINTS, 42);
}

#[test]
fn air_accepts_any_single_bit_hop_row() {
    // Routing flag set, the bits of c, the selector on k, the bits of c with bit k flipped, and
    // arbitrary clock cells: every constraint vanishes, in DIM and in TOPOLOGY_DIM dimensions.
    for (c0, k) in [(0u64, 0usize), (0b1011, 2), (1023, 9), (517, 5)] {
        let mut row = zero_row();
        row.clk_high = fe(123_456);
        row.clk_low = fe(P - 1);
        row.is_routing = Fe::one();
        let next = c0 ^ (1 << k);
        for i in 0..DIM {
            row.current_bits[i] = fe(((c0 >> i) & 1) as u32);
            row.selectors[i] = fe(if i == k { 1 } else { 0 });
            row.next_bits[i] = fe(((next >> i) & 1) as u32);
        }
        let c = TopologicalRouterAir::<DIM>.eval(&flat(&row));
        assert_eq!(c.len(), NUM_CONSTRAINTS);
        assert!(c.iter().all(|x| x.val == 0));
    }
    let c0: u64 = (1 << 39) | (1 << 20) | 5;
    for k in [0usize, 20, 33, 39] {
        let mut row = TopologyChip::event_row(0, &TopologicalRouteEvent { current_node: 0, next_node: 0 });
        row.clk_high = fe(P - 7);
        row.clk_low = fe(99);
        let next = c0 ^ (1 << k);
        for i in 0..TOPOLOGY_DIM {
            row.current_bits[i] = fe(((c0 >> i) & 1) as u32);
            row.selectors[i] = fe(if i == k { 1 } else { 0 });
            row.next_bits[i] = fe(((next >> i) & 1) as u32);
        }
        let c = chip_air().eval(&flat(&row));
        assert!(c.iter().all(|x| x.val == 0));
    }
}

#[test]
fn air_accepts_padding_row() {
    let c = TopologicalRouterAir::<DIM>.eval(&flat(&zero_row()));
    assert!(c.iter().all(|x| x.val == 0));
    let zero = TopologyCols::<Fe, TOPOLOGY_DIM>::zero_row();
    let c = chip_air().eval(&flat(&zero));
    assert!(c.iter().all(|x| x.val == 0));
}

#[test]
fn air_rejects_two_bit_hop() {
    // 0 -> 3 differs in two dimensions: the selector marks only one, so the flip equation
    // fails in the other.
    let row = TopologyChip::event_row(0, &TopologicalRouteEvent { current_node: 0, next_node: 3 });
    let c = chip_air().eval(&flat(&row));
    // Selector on dimension 1; dimension 0 has next bit 1 but flip value 0.
    assert_eq!(c[2 + 3 * TOPOLOGY_DIM].val, 1);
    assert_eq!(c[2 + 3 * TOPOLOGY_DIM + 1].val, 0);
    assert_eq!(c[1 + 3 * TOPOLOGY_DIM].val, 0);
}

#[test]
fn air_rejects_two_selectors_and_non_bits() {
    let mut row = TopologyChip::event_row(0, &TopologicalRouteEvent { current_node: 0, next_node: 1 });
    row.selectors[5] = Fe::one();
    let c = chip_air().eval(&flat(&row));
    // Sum of selectors is 2: is_routing * (2 - 1) = 1.
    assert_eq!(c[1 + 3 * TOPOLOGY_DIM].val, 1);
    let mut row = TopologyChip::event_row(0, &TopologicalRouteEvent { current_node: 0, next_node: 1 });
    row.current_bits[3] = fe(2);
    let c = chip_air().eval(&flat(&row));
    // 2 * (2 - 1) = 2.
    assert_eq!(c[1 + 3 * 3].val, 2);
    // Boolean check on the routing flag: 3 * 2 = 6.
    let mut row = zero_row();
    row.is_routing = fe(3);
    let c = TopologicalRouterAir::<DIM>.eval(&flat(&row));
    assert_eq!(c[0].val, 6);
}

#[test]
fn chip_eval_sends_the_nodes() {
    let chip = TopologyChip::new();
    let clk: u64 = (2u64 << 24) | 9;
    let row = TopologyChip::event_row(clk, &TopologicalRouteEvent { current_node: 700, next_node: 188 });
    let (c, m) = chip.eval(&flat(&row), ROUTE_CODE);
    assert!(c.iter().all(|x| x.val == 0));
    assert_eq!(m.clk_high.val, 2);
    assert_eq!(m.clk_low.val, 9);
    assert_eq!(vals(&m.arg1), vec![700, 0, 0]);
    assert_eq!(vals(&m.arg2), vec![188, 0, 0]);
    assert_eq!(m.multiplicity.val, 1);
    assert_eq!(m.syscall_code.val, ROUTE_CODE);
    assert_eq!(m.kind, InteractionKind::Receive);
    assert_eq!(m.scope, InteractionScope::Local);
    assert_eq!(m.clk_high.val * (1 << 24) + m.clk_low.val, clk as u32);
}

#[test]
fn chip_eval_of_padding_sends_nothing() {
    let zero = TopologyCols::<Fe, TOPOLOGY_DIM>::zero_row();
    let (c, m) = TopologyChip::new().eval(&flat(&zero), ROUTE_CODE);
    assert!(c.iter().all(|x| x.val == 0));
    assert_eq!(m.multiplicity.val, 0);
    assert_eq!(vals(&m.arg1), vec![0, 0, 0]);
    assert_eq!(m.syscall_code.val, ROUTE_CODE);
    assert_eq!(m.kind, InteractionKind::Receive);
    assert_eq!(m.scope, InteractionScope::Local);
}

#[test]
fn chip_width_and_name() {
    let chip = TopologyChip::new();
    assert_eq!(TOPOLOGY_DIM, 40);
    assert_eq!(chip.width(), 123);
    assert_eq!(CHIP_COLS, 123);
    assert_eq!(chip_air().width(), 123);
    assert_eq!(NUM_COLS, 33);
    assert_eq!(TopologicalRouterAir::<DIM>.width(), 33);
    assert_eq!(num_cols::<4>(), 15);
    assert_eq!(chip.name(), "TopologicalRoute");
}

#[test]
fn num_rows_pads_to_multiple_of_32_or_fixed_height() {
    let chip = TopologyChip::new();
    assert_eq!(chip.num_rows(0, None), Some(0));
    assert_eq!(chip.num_rows(5, None), Some(32));
    assert_eq!(chip.num_rows(32, None), Some(32));
    assert_eq!(chip.num_rows(33, None), Some(64));
    assert_eq!(chip.num_rows(5, Some(128)), Some(128));
}

#[test]
fn included_follows_shape_or_events() {
    let chip = TopologyChip::new();
    assert!(!chip.included(Some(false), 3));
    assert!(chip.included(Some(true), 0));
    assert!(!chip.included(None, 0));
    assert!(chip.included(None, 2));
}

#[test]
fn generate_trace_into_fills_event_rows_and_zero_padding() {
    let chip = TopologyChip::new();
    let events = vec![
        RouteRecord { clk: 1, event: TopologicalRouteEvent { current_node: 0, next_node: 1 } },
        RouteRecord { clk: (1u64 << 24) + 2, event: TopologicalRouteEvent { current_node: 3, next_node: 7 } },
        RouteRecord { clk: 5, event: TopologicalRouteEvent { current_node: 1 << 30, next_node: (1 << 30) | (1 << 35) } },
    ];
    let mut buffer = vec![Fe::one(); 32 * CHIP_COLS + 4];
    chip.generate_trace_into(&events, None, &mut buffer);
    assert_eq!(buffer.len(), 32 * CHIP_COLS + 4);
    for (r, e) in events.iter().enumerate() {
        let expected = flat(&TopologyChip::event_row(e.clk, &e.event));
        assert_eq!(vals(&buffer[r * CHIP_COLS..(r + 1) * CHIP_COLS]), vals(&expected));
    }
    assert_eq!(buffer[CHIP_COLS].val, 1);
    assert_eq!(buffer[CHIP_COLS + 1].val, 2);
    assert!(buffer[3 * CHIP_COLS..32 * CHIP_COLS].iter().all(|x| x.val == 0));
    assert!(buffer[32 * CHIP_COLS..].iter().all(|x| x.val == 1));
    for r in 0..32 {
        let c = chip_air().eval(&buffer[r * CHIP_COLS..(r + 1) * CHIP_COLS]);
        assert!(c.iter().all(|x| x.val == 0));
    }
    // The third row receives its event's nodes: the second one above P, so taken mod P.
    let (_, m) = chip.eval(&buffer[2 * CHIP_COLS..3 * CHIP_COLS], ROUTE_CODE);
    assert_eq!(m.arg1[0].val, 1 << 30);
    assert_eq!(m.arg2[0].val as u64, ((1u64 << 30) | (1u64 << 35)) % (P as u64));
    assert_eq!(m.multiplicity.val, 1);
    assert_eq!(m.clk_low.val, 5);
    let (_, m) = chip.eval(&buffer[3 * CHIP_COLS..4 * CHIP_COLS], ROUTE_CODE);
    assert_eq!(m.multiplicity.val, 0);
}

#[test]
fn generate_trace_into_with_fixed_height() {
    let chip = TopologyChip::new();
    let events = vec![RouteRecord { clk: 0, event: TopologicalRouteEvent { current_node: 8, next_node: 0 } }];
    let mut buffer = vec![Fe::one(); 4 * CHIP_COLS];
    chip.generate_trace_into(&events, Some(4), &mut buffer);
    assert_eq!(buffer[2].val, 1);
    assert!(buffer[CHIP_COLS..].iter().all(|x| x.val == 0));
}

#[test]
fn accepted_hop_row_is_accepted_by_air() {
    for (a, b) in [(0u32, 1u32), (1023, 511), (6, 2), (100, 96)] {
        assert_eq!(validate_route(a, b), Ok(()));
        let row = TopologyChip::event_row(0, &TopologicalRouteEvent { current_node: a as u64, next_node: b as u64 });
        let (c, m) = TopologyChip::new().eval(&flat(&row), ROUTE_CODE);
        assert!(c.iter().all(|x| x.val == 0));
        assert_eq!(m.arg1[0].val, a);
        assert_eq!(m.arg2[0].val, b);
    }
}

#[test]
fn from_row_reads_flat_layout() {
    let cells: Vec<Fe> = (0..NUM_COLS as u32).map(fe).collect();
    let row = TopologyCols::<Fe, DIM>::from_row(&cells);
    assert_eq!(row.clk_high.val, 0);
    assert_eq!(row.is_routing.val, 2);
    assert_eq!(row.current_bits[0].val, 3);
    assert_eq!(row.selectors[0].val, 13);
    assert_eq!(row.next_bits[9].val, 32);
    let mut buf = vec![Fe::zero(); NUM_COLS + 2];
    row.write_row(&mut buf, 1);
    assert_eq!(buf[0].val, 0);
    assert_eq!(vals(&buf[1..NUM_COLS + 1]), vals(&cells));
    assert_eq!(buf[NUM_COLS + 1].val, 0);
    let wide: Vec<Fe> = (0..CHIP_COLS as u32).map(fe).collect();
    let row = TopologyCols::<Fe, TOPOLOGY_DIM>::from_row(&wide);
    assert_eq!(row.selectors[0].val, 43);
    assert_eq!(row.next_bits[39].val, 122);
}

#[test]
fn benchmark_trace_from_flips() {
    let trace = benchmark::generate_trace_from_flips(&vec![0, 3, 0]);
    assert_eq!(trace.len(), 3 * benchmark::WIDTH);
    assert_eq!(vals(&trace[0..20]), vec![0, 0, 0, 0, 0, 0, 0, 0, 0, 0, 1, 0, 0, 0, 0, 0, 0, 0, 0, 0]);
    assert_eq!(vals(&trace[20..40]), vec![1, 0, 0, 0, 0, 0, 0, 0, 0, 0, 0, 0, 0, 1, 0, 0, 0, 0, 0, 0]);
    assert_eq!(vals(&trace[40..60]), vec![1, 0, 0, 1, 0, 0, 0, 0, 0, 0, 1, 0, 0, 0, 0, 0, 0, 0, 0, 0]);
    let air = benchmark::TopologicalRouterAir;
    assert_eq!(air.width(), 20);
    let c = air.eval(&trace[0..20], &trace[20..40], Fe::one());
    assert_eq!(c.len(), 31);
    assert!(c.iter().all(|x| x.val == 0));
    let c = air.eval(&trace[20..40], &trace[40..60], Fe::one());
    assert!(c.iter().all(|x| x.val == 0));
    // The last row pairs with the first; with the transition off only booleanity remains.
    let c = air.eval(&trace[40..60], &trace[0..20], Fe::zero());
    assert!(c.iter().all(|x| x.val == 0));
    // With the transition on, the wrap-around pair is not a hop.
    let c = air.eval(&trace[40..60], &trace[0..20], Fe::one());
    assert!(c.iter().any(|x| x.val != 0));
}

#[test]
fn benchmark_random_trace_is_a_walk_of_hops() {
    let n = 64;
    let trace = benchmark::generate_trace(n);
    assert_eq!(trace.len(), n * benchmark::WIDTH);
    let air = benchmark::TopologicalRouterAir;
    for k in 0..n {
        let row = &trace[k * 20..(k + 1) * 20];
        let sels: Vec<u32> = vals(&row[10..20]);
        assert_eq!(sels.iter().filter(|v| **v == 1).count(), 1);
        assert!(sels.iter().all(|v| *v <= 1));
        if k + 1 < n {
            let c = air.eval(row, &trace[(k + 1) * 20..(k + 2) * 20], Fe::one());
            assert!(c.iter().all(|x| x.val == 0));
        }
    }
    // The walk starts at node 0.
    assert!(trace[0..10].iter().all(|x| x.val == 0));
}

#[test]
fn benchmark_air_rejects_non_bit_selector_and_double_flip() {
    let trace = benchmark::generate_trace_from_flips(&vec![2, 5]);
    let air = benchmark::TopologicalRouterAir;
    let mut local: Vec<Fe> = trace[0..20].to_vec();
    local[12] = fe(3);
    let c = air.eval(&local, &trace[20..40], Fe::one());
    // 3 * (3 - 1) = 6 on selector 2; the sum becomes 3, so (3 - 1) = 2.
    assert_eq!(c[2].val, 6);
    assert_eq!(c[10].val, 2);
    let mut local: Vec<Fe> = trace[0..20].to_vec();
    local[17] = Fe::one();
    let c = air.eval(&local, &trace[20..40], Fe::one());
    assert_eq!(c[10].val, 1);
    // Dimension 7 is selected but not flipped in the next row: next - xor = 0 - 1.
    assert_eq!(c[11 + 7].val, P - 1);
}

#[test]
fn benchmark_air_rejects_non_bit_node() {
    // Node bit 0 is 2 in both rows, and the hop flips bit 1: only the node-bit constraint fails.
    let air = benchmark::TopologicalRouterAir;
    let mut local = vec![Fe::zero(); 20];
    let mut next = vec![Fe::zero(); 20];
    local[0] = fe(2);
    next[0] = fe(2);
    next[1] = Fe::one();
    local[11] = Fe::one();
    let c = air.eval(&local, &next, Fe::one());
    assert_eq!(c.len(), 31);
    // 2 * (2 - 1) = 2 on node bit 0.
    assert_eq!(c[21].val, 2);
    assert!(c[..21].iter().all(|x| x.val == 0));
    assert!(c[22..].iter().all(|x| x.val == 0));
}
