use cell_ring::cell::{AddrMode, LifeCell};
use cell_ring::ring::{BoundaryPolicy, Ring, CELL_COUNT};

#[test]
fn fixed_table_first_row_and_address_load() {
    let mut r = Ring::with_fixed_table(BoundaryPolicy::ForceLeLow);
    let row = r.render_row();
    assert_eq!(row.len(), CELL_COUNT);
    assert_eq!(row[0], 0x6);
    assert!(row.iter().all(|&x| x == 0x6));
    for i in 0..CELL_COUNT {
        assert_eq!(r.cell(i).addr_reg(), (i & 0xF) as u8);
        assert_eq!(r.cell(i).latched_reg(), 0x5);
        assert_eq!(r.cell(i).lut(), 0xF300);
    }
    let n: u8 = 0;
    r.tick(n & 0xF);
    assert_eq!(r.cell(0).addr_reg(), 0x0);
    // Every other cell loads its upstream neighbour's latch.
    assert_eq!(r.cell(1).addr_reg(), 0x5);
}

#[test]
fn drifting_table_initial_cells() {
    let r = Ring::with_drifting_table(BoundaryPolicy::ThreadLe);
    for i in 0..CELL_COUNT {
        let c = r.cell(i);
        assert_eq!(c.lut(), (i as u16).wrapping_mul(0x010F));
        assert_eq!(c.bias(), (i & 0xF) as u8);
        assert_eq!(c.addr_reg(), 0xE);
        assert_eq!(c.latched_reg(), 0x5);
        assert_eq!(c.as_u4(), if i == 0 { 0 } else { 6 });
    }
}

#[test]
fn widths_hold_over_many_ticks() {
    let mut r = Ring::with_drifting_table(BoundaryPolicy::ThreadLe);
    let mut n: u8 = 0;
    for _ in 0..500 {
        r.tick(n & 0xF);
        for i in 0..CELL_COUNT {
            let c = r.cell(i);
            assert!(c.as_u4() < 16);
            assert!(c.addr_reg() < 16);
            assert!(c.latched_reg() < 16);
        }
        n = n.wrapping_add(1);
    }
}

#[test]
fn identical_rings_render_identically() {
    let mut a = Ring::with_fixed_table(BoundaryPolicy::ForceLeLow);
    let mut b = Ring::with_fixed_table(BoundaryPolicy::ForceLeLow);
    let mut n: u8 = 0;
    for _ in 0..300 {
        a.tick(n & 0xF);
        b.tick(n & 0xF);
        assert_eq!(a.render_row(), b.render_row());
        n = n.wrapping_add(1);
    }
}

fn ring_with(first: LifeCell, last: LifeCell, policy: BoundaryPolicy) -> Ring {
    let mut cells = Vec::new();
    for i in 0..CELL_COUNT {
        cells.push(if i == 0 {
            first
        } else if i == CELL_COUNT - 1 {
            last
        } else {
            LifeCell::new(0, 0, AddrMode::ExternalLoad, 0, 0, 0)
        });
    }
    Ring::new(cells, policy)
}

#[test]
fn cell_zero_reads_last_cell_before_its_tick() {
    // Cell 0 shifts only if its se input is 1. The last cell broadcasts
    // se = 1 before the tick (address 4) and se = 0 after it (it loads 0).
    let first = LifeCell::new(0xFFFF, 0, AddrMode::ExternalLoad, 0, 0, 0);
    let last = LifeCell::new(0, 0, AddrMode::ExternalLoad, 4, 0, 0);
    let mut r = ring_with(first, last, BoundaryPolicy::ForceLeLow);
    r.tick(0);
    assert_eq!(r.cell(CELL_COUNT - 1).addr_reg(), 0);
    assert_eq!(r.cell(0).as_u4(), 0x8);

    // The other way round: se = 0 before the tick, se = 1 after it.
    let first = LifeCell::new(0xFFFF, 0, AddrMode::ExternalLoad, 0, 0, 0);
    let last = LifeCell::new(0, 0, AddrMode::FreeRunningCounter, 3, 0, 0);
    let mut r = ring_with(first, last, BoundaryPolicy::ForceLeLow);
    r.tick(0);
    assert_eq!(r.cell(CELL_COUNT - 1).addr_reg(), 4);
    assert_eq!(r.cell(0).as_u4(), 0x0);
}

#[test]
fn boundary_latch_enable_follows_policy() {
    // The last cell broadcasts le = 1 (address 8).
    let first = LifeCell::new(0, 0, AddrMode::ExternalLoad, 0, 0x7, 0x2);
    let last = LifeCell::new(0, 0, AddrMode::ExternalLoad, 8, 0, 0);
    let mut forced = ring_with(first, last, BoundaryPolicy::ForceLeLow);
    forced.tick(9);
    assert_eq!(forced.cell(0).latched_reg(), 0x2);
    assert_eq!(forced.cell(0).addr_reg(), 9);
    let mut threaded = ring_with(first, last, BoundaryPolicy::ThreadLe);
    threaded.tick(9);
    assert_eq!(threaded.cell(0).latched_reg(), 0x7);
    assert_eq!(threaded.cell(0).addr_reg(), 9);
}

#[test]
fn cells_read_neighbour_state_before_tick() {
    // Cell 1 loads cell 0's latch as it was before the tick, even though
    // cell 0 latches a new value during the same tick.
    let first = LifeCell::new(0, 0, AddrMode::ExternalLoad, 2, 0x9, 0x4);
    let last = LifeCell::new(0, 0, AddrMode::ExternalLoad, 0, 0, 0);
    let mut r = ring_with(first, last, BoundaryPolicy::ForceLeLow);
    r.tick(0);
    assert_eq!(r.cell(0).latched_reg(), 0x9);
    assert_eq!(r.cell(1).addr_reg(), 0x4);
}
