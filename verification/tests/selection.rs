use nomouse::render::get_pixel;
use nomouse::selector::{FinalSelector, InitialSelector, Rect, SelectorState};
use nomouse::CoreError;

fn qwerty_keys() -> Vec<u32> {
    vec![
        16, 17, 18, 19, 22, 23, 24, 25, 30, 31, 32, 33, 36, 37, 38, 39, 44, 45, 46, 47, 50, 51,
        52, 53,
    ]
}

#[test]
fn fine_key_at_index_nine_selects_row_one_col_one() {
    // 3 rows by 8 columns: alphabet index 9 maps to row 1, column 1.
    let mut sel = FinalSelector::new(0, 0, 800, 300, 3, 8, qwerty_keys());
    assert_eq!(sel.depth, 0);
    sel.handle_input(31); // index 9
    assert_eq!(sel.depth, 1);
    assert_eq!(sel.x, 800 / 8);
    assert_eq!(sel.y, 300 / 3);
    assert_eq!(sel.width, 800 / 8);
    assert_eq!(sel.height, 300 / 3);
}

#[test]
fn fine_unrecognized_key_is_a_no_op() {
    let mut sel = FinalSelector::new(5, 6, 800, 300, 3, 8, qwerty_keys());
    sel.handle_input(99);
    assert_eq!((sel.x, sel.y, sel.width, sel.height, sel.depth), (5, 6, 800, 300, 0));
}

#[test]
fn fine_select_narrows_by_cross_dimension_rule() {
    let sel = FinalSelector::new(10, 20, 80, 30, 3, 8, qwerty_keys());
    let narrowed = sel.select(2, 1);
    assert_eq!(narrowed.x, 10 + (80 / 8) * 2);
    assert_eq!(narrowed.y, 20 + (30 / 3) * 1);
    assert_eq!(narrowed.width, 80 / 8);
    assert_eq!(narrowed.height, 30 / 3);
    assert_eq!(narrowed.depth, 1);
    assert_eq!(narrowed.n_rows, 3);
    assert_eq!(narrowed.n_cols, 8);
}

#[test]
fn coarse_grid_has_all_cells() {
    let sel = InitialSelector::new(qwerty_keys(), 12, 16, 1920, 1080).unwrap();
    assert_eq!(sel.cells.len(), 12 * 16);
    // Row-major cell (row 0, col 1): keys (16, 17), region by the
    // cross-dimension rule: width 1920/12, height 1080/16, offset by column
    // along y.
    let cell = &sel.cells[1];
    assert_eq!((cell.row_key, cell.col_key), (16, 17));
    assert_eq!(
        cell.rect,
        Rect { x: 0, y: 1080 / 16, width: 1920 / 12, height: 1080 / 16 }
    );
}

#[test]
fn coarse_grid_cells_are_distinct_equal_area_and_disjoint() {
    // A 2x3 grid over a 100x90 surface: cell width 100/2, cell height 90/3.
    let sel = InitialSelector::new(vec![16, 17, 18], 2, 3, 100, 90).unwrap();
    assert_eq!(sel.cells.len(), 2 * 3);
    for a in 0..sel.cells.len() {
        let ca = &sel.cells[a];
        assert_eq!(ca.rect.width * ca.rect.height, (100 / 2) * (90 / 3));
        for b in (a + 1)..sel.cells.len() {
            let cb = &sel.cells[b];
            assert!(
                (ca.row_key, ca.col_key) != (cb.row_key, cb.col_key),
                "key pairs must be distinct"
            );
            let x_overlap =
                ca.rect.x < cb.rect.x + cb.rect.width && cb.rect.x < ca.rect.x + ca.rect.width;
            let y_overlap =
                ca.rect.y < cb.rect.y + cb.rect.height && cb.rect.y < ca.rect.y + ca.rect.height;
            assert!(!(x_overlap && y_overlap), "regions must be disjoint");
        }
    }
}

#[test]
fn coarse_alphabet_too_small_is_rejected() {
    let r = InitialSelector::new(vec![16, 17, 18, 19, 22], 12, 16, 1920, 1080);
    assert_eq!(r.unwrap_err(), CoreError::AlphabetTooSmall);
}

#[test]
fn coarse_pair_resolves_stored_region() {
    let mut sel = InitialSelector::new(qwerty_keys(), 12, 16, 1920, 1080).unwrap();
    assert_eq!(sel.handle_input(16), None);
    let rect = sel.handle_input(17).unwrap();
    assert_eq!(rect, Rect { x: 0, y: 67, width: 160, height: 67 });
    // Resolving cleared the pending key; re-querying the same pair is
    // idempotent.
    assert_eq!(sel.last_key, None);
    assert_eq!(sel.handle_input(16), None);
    assert_eq!(sel.handle_input(17), Some(Rect { x: 0, y: 67, width: 160, height: 67 }));
}

#[test]
fn coarse_unrecognized_first_key_keeps_awaiting() {
    let mut sel = InitialSelector::new(qwerty_keys(), 12, 16, 1920, 1080).unwrap();
    assert_eq!(sel.handle_input(99), None);
    assert_eq!(sel.last_key, None);
}

#[test]
fn coarse_invalid_second_key_retains_pending_first_key() {
    let mut sel = InitialSelector::new(qwerty_keys(), 12, 16, 1920, 1080).unwrap();
    assert_eq!(sel.handle_input(16), None);
    assert_eq!(sel.last_key, Some(16));
    // 2 is not in the alphabet, so (16, 2) completes no pair.
    assert_eq!(sel.handle_input(2), None);
    assert_eq!(sel.last_key, Some(16));
    // A valid second key for the same first key still resolves correctly.
    assert_eq!(sel.handle_input(17), Some(Rect { x: 0, y: 67, width: 160, height: 67 }));
}

#[test]
fn state_machine_goes_coarse_to_fine_to_resolved() {
    let initial = InitialSelector::new(qwerty_keys(), 12, 16, 1920, 1080).unwrap();
    let mut state = SelectorState::Initial(initial);
    state.handle_key(16);
    state.handle_key(17);
    match &state {
        SelectorState::Final(f) => {
            assert_eq!((f.x, f.y, f.width, f.height), (0, 67, 160, 67));
            assert_eq!((f.n_rows, f.n_cols, f.depth), (3, 8, 0));
        },
        SelectorState::Initial(_) => panic!("expected the fine phase"),
    }
    // Key 22 is alphabet index 4: row 0, col 4 of the 3x8 fine grid.
    state.handle_key(22);
    match &state {
        SelectorState::Final(f) => {
            assert_eq!((f.x, f.y), (4 * (160 / 8), 67));
            assert_eq!((f.width, f.height), (160 / 8, 67 / 3));
            assert_eq!(f.depth, 1);
        },
        SelectorState::Initial(_) => panic!("expected the fine phase"),
    }
}

#[test]
fn fine_draw_paints_region_borders() {
    let sel = FinalSelector::new(0, 0, 2, 2, 1, 1, Vec::new());
    let mut buf = vec![0u8; 4 * 4 * 4];
    sel.draw(&mut buf, 4);
    assert_eq!(get_pixel(&buf, 0, 0, 4), (0, 0, 0, 255));
    assert_eq!(get_pixel(&buf, 1, 0, 4), (255, 255, 255, 255));
    assert_eq!(get_pixel(&buf, 2, 1, 4), (0, 0, 0, 255));
    assert_eq!(get_pixel(&buf, 1, 1, 4), (0, 0, 0, 0));
}

#[test]
fn coarse_draw_filters_by_pending_key() {
    // Two rows, one column over a 4x8 surface: row stripes of width 2.
    let mut sel = InitialSelector::new(vec![16, 17], 2, 1, 4, 8).unwrap();
    sel.handle_input(17);
    let mut buf = vec![0u8; 4 * 8 * 4];
    sel.draw(&mut buf, 4);
    // Only the cell with row key 17 (row 1: x = 2) is drawn.
    assert_eq!(get_pixel(&buf, 2, 0, 4), (0, 0, 0, 255));
    assert_eq!(get_pixel(&buf, 3, 0, 4), (255, 255, 255, 255));
    // The row-0 cell's area stays untouched.
    assert_eq!(get_pixel(&buf, 0, 0, 4), (0, 0, 0, 0));
    assert_eq!(get_pixel(&buf, 1, 0, 4), (0, 0, 0, 0));
}
