use gol::grid::Life;
use gol::render::{Color, DrawOp};
use gol::seed::rand;

fn blank(w: u32, h: u32) -> Life {
    let mut l = Life::new();
    l.init_blank(w, h);
    l
}

/// Forces the cell at grid coordinates (x, y) alive through `click`, using
/// a canvas exactly as large as the grid so that one pixel is one cell.
fn click_cell(l: &mut Life, x: u32, y: u32) {
    let (w, h) = (l.w, l.h);
    l.click(x, y, w, h);
}

fn live_cells(l: &Life) -> Vec<(u32, u32)> {
    let mut out = Vec::new();
    for y in 0..l.h {
        for x in 0..l.w {
            if l.get(x, y) == 1 {
                out.push((x, y));
            }
        }
    }
    out
}

#[test]
fn lcg_formula() {
    // seed' = seed * 1103515245 + 12345 mod 2^32
    assert_eq!(rand(0), 12345);
    assert_eq!(rand(1), 1103527590);
    assert_eq!(rand(u32::MAX), (1103515245u64.wrapping_mul(u32::MAX as u64) + 12345) as u32 );
    // deterministic
    assert_eq!(rand(42), rand(42));
}

#[test]
fn coordinate_mapping_roundtrip() {
    let l = blank(7, 5);
    for y in 0..5 {
        for x in 0..7 {
            let idx = l.coord2idx(x, y);
            assert_eq!(idx, y * 7 + x);
            assert_eq!(l.idx2coord(idx), (x, y));
        }
    }
}

#[test]
fn set_writes_the_other_buffer() {
    let mut l = blank(3, 3);
    l.set(1, 1, 1);
    // The write went to the non-current buffer; the readable state is unchanged.
    assert_eq!(l.get(1, 1), 0);
    l.toggle();
    assert_eq!(l.get(1, 1), 1);
    l.toggle();
    assert_eq!(l.get(1, 1), 0);
}

#[test]
fn set_out_of_range_is_ignored() {
    let mut l = blank(3, 3);
    let dirty_before = l.near_alive_list.len();
    l.set(3, 0, 1);
    l.set(0, 3, 1);
    l.set(1000, 1000, 1);
    assert_eq!(l.near_alive_list.len(), dirty_before);
    assert_eq!(live_cells(&l).len(), 0);
}

#[test]
fn set_marks_the_neighborhood_dirty() {
    let mut l = blank(5, 5);
    assert_eq!(l.near_alive_list.len(), 0);
    l.set(2, 2, 1);
    // The changed cell's full 3x3 neighborhood is on the worklist, once each.
    let mut got: Vec<u32> = l.near_alive_list.clone();
    got.sort();
    let mut want: Vec<u32> = vec![
        1 * 5 + 1, 1 * 5 + 2, 1 * 5 + 3,
        2 * 5 + 1, 2 * 5 + 2, 2 * 5 + 3,
        3 * 5 + 1, 3 * 5 + 2, 3 * 5 + 3,
    ];
    want.sort();
    assert_eq!(got, want);
    // Writing the same value again adds nothing.
    l.set(2, 2, 1);
    assert_eq!(l.near_alive_list.len(), 9);
}

#[test]
fn neighbor_count_matches_naive_recount() {
    // A small pattern, then every cell's count is checked against an
    // independent recount done by hand here.
    let mut l = blank(6, 6);
    for &(x, y) in &[(1, 1), (2, 1), (1, 2), (4, 4), (0, 5)] {
        click_cell(&mut l, x, y);
    }
    let live: Vec<(u32, u32)> = live_cells(&l);
    for y in 0..6u32 {
        for x in 0..6u32 {
            let mut naive = 0u8;
            for dy in [5u32, 0, 1] {
                for dx in [5u32, 0, 1] {
                    if dx == 0 && dy == 0 {
                        continue;
                    }
                    let nx = (x + dx) % 6;
                    let ny = (y + dy) % 6;
                    if live.contains(&(nx, ny)) {
                        naive += 1;
                    }
                }
            }
            assert_eq!(l.live_neighbors(x, y), naive, "at ({x},{y})");
        }
    }
}

#[test]
fn toroidal_wrap_counts_across_corners() {
    let mut l = blank(4, 4);
    click_cell(&mut l, 0, 0);
    // A live cell at (0,0) is a neighbor of all three opposite corners.
    assert_eq!(l.live_neighbors(3, 3), 1);
    assert_eq!(l.live_neighbors(3, 0), 1);
    assert_eq!(l.live_neighbors(0, 3), 1);
    assert_eq!(l.live_neighbors(1, 1), 1);
    assert_eq!(l.live_neighbors(2, 2), 0);
    // The cell itself is not counted as its own neighbor.
    assert_eq!(l.live_neighbors(0, 0), 0);
}

#[test]
fn rule_on_all_interior_neighborhoods() {
    // Every assignment of the 3x3 block centered at (2,2) of a 5x5 grid:
    // the center survives iff alive with 2 or 3 live neighbors, and is
    // born iff dead with exactly 3.
    for mask in 0u32..512 {
        let mut l = blank(5, 5);
        let mut neighbors = 0u32;
        let mut center_alive = false;
        for bit in 0..9 {
            if mask & (1 << bit) != 0 {
                let x = 1 + (bit % 3) as u32;
                let y = 1 + (bit / 3) as u32;
                click_cell(&mut l, x, y);
                if x == 2 && y == 2 {
                    center_alive = true;
                } else {
                    neighbors += 1;
                }
            }
        }
        l.update();
        let expect = if neighbors == 3 || (neighbors == 2 && center_alive) {
            1
        } else {
            0
        };
        assert_eq!(l.get(2, 2), expect, "mask {mask}");
    }
}

#[test]
fn click_on_isolated_cell_then_step_kills_it() {
    let mut l = blank(8, 8);
    click_cell(&mut l, 3, 3);
    // Exactly that cell is alive.
    assert_eq!(live_cells(&l), vec![(3, 3)]);
    // Exactly its 9-cell neighborhood is dirty.
    let mut got: Vec<u32> = l.near_alive_list.clone();
    got.sort();
    let mut want: Vec<u32> = Vec::new();
    for y in 2..=4u32 {
        for x in 2..=4u32 {
            want.push(y * 8 + x);
        }
    }
    want.sort();
    assert_eq!(got, want);
    // The isolated cell has no live neighbor, so the next step kills it.
    l.update();
    assert_eq!(live_cells(&l).len(), 0);
    // And the change re-marked its neighborhood for the following step.
    assert_eq!(l.near_alive_list.len(), 9);
    // One more step and nothing changes anywhere, so nothing stays dirty.
    l.update();
    assert_eq!(live_cells(&l).len(), 0);
    assert_eq!(l.near_alive_list.len(), 0);
}

#[test]
fn glider_travels_one_cell_per_four_steps() {
    let mut l = blank(10, 10);
    let base: Vec<(u32, u32)> = vec![(1, 0), (2, 1), (0, 2), (1, 2), (2, 2)];
    for &(dx, dy) in &base {
        click_cell(&mut l, 3 + dx, 3 + dy);
    }
    for step in 1..=50u32 {
        l.update();
        if step % 4 == 0 {
            let k = step / 4;
            let mut want: Vec<(u32, u32)> = base
                .iter()
                .map(|&(dx, dy)| ((3 + dx + k) % 10, (3 + dy + k) % 10))
                .collect();
            want.sort();
            let mut got = live_cells(&l);
            got.sort();
            assert_eq!(got, want, "after {step} steps");
        }
    }
}

#[test]
fn render_emits_clear_then_dirty_cells_only() {
    let mut l = blank(2, 2);
    click_cell(&mut l, 0, 0);
    let ops = l.render(20, 20);
    // Repaint was pending: full background fill first.
    assert_eq!(
        ops[0],
        DrawOp::Fill { color: Color::Background, x: 0, y: 0, w: 20, h: 20 }
    );
    // Then one 10x10 fill per dirty cell, in insertion order; only (0,0) is
    // alive. On a 2x2 torus the neighborhood of (0,0) is all four cells.
    assert_eq!(ops.len(), 1 + l.near_alive_list.len());
    assert_eq!(l.near_alive_list.len(), 4);
    for (i, idx) in l.near_alive_list.iter().enumerate() {
        let (x, y) = (idx % 2, idx / 2);
        let color = if x == 0 && y == 0 { Color::Foreground } else { Color::Background };
        assert_eq!(
            ops[1 + i],
            DrawOp::Fill { color, x: x * 10, y: y * 10, w: 10, h: 10 }
        );
    }
}

#[test]
fn rerender_without_step_is_idempotent() {
    let mut l = blank(6, 6);
    click_cell(&mut l, 2, 2);
    click_cell(&mut l, 3, 2);
    let dirty1: Vec<u32> = l.near_alive_list.clone();
    let ops1 = l.render(60, 60);
    let dirty2: Vec<u32> = l.near_alive_list.clone();
    let ops2 = l.render(60, 60);
    let dirty3: Vec<u32> = l.near_alive_list.clone();
    // The dirty list is the same before and after each render.
    assert_eq!(dirty1, dirty2);
    assert_eq!(dirty2, dirty3);
    // The second pass emits exactly the per-cell fills of the first, which
    // opened with the one extra full background fill.
    assert_eq!(ops1[1..].to_vec(), ops2);
    // And a third pass repeats the second exactly.
    let ops3 = l.render(60, 60);
    assert_eq!(ops2, ops3);
}

#[test]
fn draw_debug_highlights_the_working_set() {
    let mut l = blank(4, 4);
    click_cell(&mut l, 1, 1);
    let ops = l.draw_debug(40, 40);
    assert_eq!(ops[0], DrawOp::Clear { w: 40, h: 40 });
    assert_eq!(ops.len(), 1 + l.near_alive_list.len());
    assert_eq!(l.near_alive_list.len(), 9);
    for (i, idx) in l.near_alive_list.iter().enumerate() {
        let (x, y) = (idx % 4, idx / 4);
        assert_eq!(
            ops[1 + i],
            DrawOp::Fill { color: Color::Highlight, x: x * 10, y: y * 10, w: 10, h: 10 }
        );
    }
}

#[test]
fn draw_with_advance_steps_then_renders() {
    let mut l = blank(8, 8);
    click_cell(&mut l, 3, 3);
    let _ = l.render(8, 8);
    // Without advancing, drawing repaints the same dirty cells and changes
    // no cell.
    let ops = l.draw(8, 8, false);
    assert_eq!(ops.len(), l.near_alive_list.len());
    assert_eq!(live_cells(&l), vec![(3, 3)]);
    // Advancing kills the isolated cell, and the render that follows
    // repaints its re-marked neighborhood.
    let ops = l.draw(8, 8, true);
    assert_eq!(live_cells(&l).len(), 0);
    assert_eq!(l.near_alive_list.len(), 9);
    assert_eq!(ops.len(), 9);
    for op in ops {
        match op {
            DrawOp::Fill { color, w, h, .. } => {
                assert_eq!(color, Color::Background);
                assert_eq!((w, h), (1, 1));
            }
            other => panic!("unexpected op {other:?}"),
        }
    }
}

#[test]
fn init_seeds_reproducibly_and_tracks_live_cells() {
    let mut a = Life::new();
    a.init(16, 16, 7);
    assert_eq!((a.w, a.h), (16, 16));
    assert!(a.clear);
    let mut b = Life::new();
    b.init(16, 16, 7);
    // Same seed, same pattern.
    assert_eq!(live_cells(&a), live_cells(&b));
    let mut c = Life::new();
    c.init(16, 16, 8);
    // Another seed gives another pattern (for these seeds).
    assert_ne!(live_cells(&a), live_cells(&c));
    // Something was seeded, and every live cell is on the worklist.
    let live = live_cells(&a);
    assert!(!live.is_empty());
    for &(x, y) in &live {
        assert!(a.near_alive[(y * 16 + x) as usize] == 1);
        assert!(a.near_alive_list.contains(&(y * 16 + x)));
    }
    // Reinitialization resets the grid in place.
    a.init_blank(9, 9);
    assert_eq!((a.w, a.h), (9, 9));
    assert_eq!(live_cells(&a).len(), 0);
    assert_eq!(a.near_alive_list.len(), 0);
}

#[test]
fn click_maps_pixels_by_scale_factor() {
    let mut l = blank(10, 10);
    // A 100x100 canvas: factor 10, so pixel (57, 43) is cell (5, 4).
    l.click(57, 43, 100, 100);
    assert_eq!(live_cells(&l), vec![(5, 4)]);
    // A pixel beyond the last cell is ignored.
    let before = l.near_alive_list.len();
    l.click(99, 99, 50, 50);
    // factor 5: (99/5, 99/5) = (19, 19), outside the 10x10 grid.
    assert_eq!(l.near_alive_list.len(), before);
}
