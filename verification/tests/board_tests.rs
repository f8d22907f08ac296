use minesweeper::board::Board;
use minesweeper::cells::{GameState, Visibility};

fn open_count(b: &Board) -> usize {
    let mut n = 0;
    for r in 0..b.size() {
        for c in 0..b.size() {
            if b.cell(r, c).visibility == Visibility::Open {
                n += 1;
            }
        }
    }
    n
}

fn mine_count_scan(b: &Board) -> usize {
    let mut n = 0;
    for r in 0..b.size() {
        for c in 0..b.size() {
            if b.cell(r, c).is_mine {
                n += 1;
            }
        }
    }
    n
}

fn flagged_count_scan(b: &Board) -> usize {
    let mut n = 0;
    for r in 0..b.size() {
        for c in 0..b.size() {
            if b.cell(r, c).visibility == Visibility::Flagged {
                n += 1;
            }
        }
    }
    n
}

#[test]
fn new_board_starts_pristine() {
    let b = Board::new(3, 2);
    assert_eq!(b.state(), GameState::Init);
    assert_eq!(b.size(), 3);
    assert_eq!(b.mine_count(), 2);
    assert_eq!(b.flags_placed(), 0);
    for r in 0..3 {
        for c in 0..3 {
            let cell = b.cell(r, c);
            assert!(!cell.is_mine);
            assert_eq!(cell.visibility, Visibility::Closed);
            assert_eq!(cell.neighbor_mine_count, 0);
        }
    }
}

#[test]
fn excessive_mine_request_clamps_to_zero_and_first_open_wins() {
    // On a 3x3 board the whole grid is the safety zone of the center, so a
    // request for 9 mines is clamped to 0 and the first open wins at once.
    let mut b = Board::new(3, 9);
    b.generate(1, 1);
    assert_eq!(b.state(), GameState::Init);
    b.begin_play();
    assert_eq!(b.state(), GameState::Playing);
    assert_eq!(b.mine_count(), 0);
    assert_eq!(mine_count_scan(&b), 0);
    b.open(1, 1, true);
    assert_eq!(b.state(), GameState::Won);
    assert_eq!(open_count(&b), 9);
}

#[test]
fn excessive_mine_request_clamps_to_eligible_cells() {
    let mut b = Board::new(5, 30);
    b.generate(2, 2);
    b.begin_play();
    // 25 cells minus the 3x3 safety zone leaves 16 eligible cells.
    assert_eq!(b.mine_count(), 16);
    assert_eq!(mine_count_scan(&b), 16);
}

#[test]
fn generate_keeps_safety_zone_free_of_mines() {
    let mut b = Board::new(5, 8);
    b.generate(2, 2);
    b.begin_play();
    assert_eq!(b.mine_count(), 8);
    assert_eq!(mine_count_scan(&b), 8);
    for r in 1..4 {
        for c in 1..4 {
            assert!(!b.cell(r, c).is_mine);
        }
    }
}

#[test]
fn generate_at_corner_clips_safety_zone() {
    let mut b = Board::new(4, 12);
    b.generate(0, 0);
    b.begin_play();
    // The corner zone covers 2x2 cells, leaving 12 eligible cells.
    assert_eq!(b.mine_count(), 12);
    for r in 0..2 {
        for c in 0..2 {
            assert!(!b.cell(r, c).is_mine);
        }
    }
}

#[test]
fn neighbor_counts_exact_after_generate() {
    let mut b = Board::new(6, 7);
    b.generate(0, 0);
    b.begin_play();
    for r in 0..6i64 {
        for c in 0..6i64 {
            let mut expect = 0;
            for dr in -1..2i64 {
                for dc in -1..2i64 {
                    if dr == 0 && dc == 0 {
                        continue;
                    }
                    let (nr, nc) = (r + dr, c + dc);
                    if nr >= 0 && nr < 6 && nc >= 0 && nc < 6
                        && b.cell(nr as usize, nc as usize).is_mine
                    {
                        expect += 1;
                    }
                }
            }
            assert_eq!(b.cell(r as usize, c as usize).neighbor_mine_count, expect);
        }
    }
}

#[test]
fn forced_mine_cascade_opens_zero_region_to_numbered_boundary() {
    // One mine forced into the far corner: opening the opposite corner
    // flood-fills the whole zero region and its numbered boundary.
    let mut b = Board::new(5, 1);
    b.place_mines(&vec![24]);
    b.begin_play();
    assert_eq!(b.mine_count(), 1);
    assert!(b.cell(4, 4).is_mine);
    assert_eq!(b.cell(3, 3).neighbor_mine_count, 1);
    assert_eq!(b.cell(3, 4).neighbor_mine_count, 1);
    assert_eq!(b.cell(4, 3).neighbor_mine_count, 1);
    assert_eq!(b.cell(0, 0).neighbor_mine_count, 0);
    let delta = b.open(0, 0, true);
    assert_eq!(delta.len(), 24);
    for r in 0..5 {
        for c in 0..5 {
            if r == 4 && c == 4 {
                assert_eq!(b.cell(r, c).visibility, Visibility::Closed);
            } else {
                assert_eq!(b.cell(r, c).visibility, Visibility::Open);
            }
        }
    }
    assert_eq!(b.state(), GameState::Won);
}

#[test]
fn win_only_when_last_safe_cell_opens() {
    // Mine in the corner of a 2x2 board: the three safe cells carry count 1,
    // so each must be opened by hand, and the win lands on the last of them.
    let mut b = Board::new(2, 1);
    b.place_mines(&vec![3]);
    b.begin_play();
    b.open(0, 0, true);
    assert_eq!(b.state(), GameState::Playing);
    b.open(0, 1, true);
    assert_eq!(b.state(), GameState::Playing);
    b.open(1, 0, true);
    assert_eq!(b.state(), GameState::Won);
}

#[test]
fn opening_a_mine_loses_without_any_reveal() {
    let mut b = Board::new(3, 1);
    b.place_mines(&vec![4]);
    b.begin_play();
    let delta = b.open(1, 1, true);
    assert_eq!(b.state(), GameState::Lost);
    assert!(delta.is_empty());
    for r in 0..3 {
        for c in 0..3 {
            assert_eq!(b.cell(r, c).visibility, Visibility::Closed);
        }
    }
}

#[test]
fn opening_a_flagged_cell_is_ignored() {
    let mut b = Board::new(3, 1);
    b.place_mines(&vec![0]);
    b.begin_play();
    assert!(b.toggle_flag(0, 0));
    let delta = b.open(0, 0, true);
    assert!(delta.is_empty());
    assert_eq!(b.state(), GameState::Playing);
    assert_eq!(b.cell(0, 0).visibility, Visibility::Flagged);
}

#[test]
fn reopening_a_numbered_cell_changes_nothing() {
    // An already-open cell with a nonzero count and no chording condition is
    // left exactly as it is.
    let mut b = Board::new(5, 1);
    b.place_mines(&vec![24]);
    b.begin_play();
    b.open(3, 3, true);
    assert_eq!(b.cell(3, 3).visibility, Visibility::Open);
    let before_open = open_count(&b);
    let delta = b.open(3, 3, false);
    assert!(delta.is_empty());
    assert_eq!(open_count(&b), before_open);
    assert_eq!(b.cell(3, 3).visibility, Visibility::Open);
    assert_eq!(b.state(), GameState::Playing);
}

#[test]
fn flag_cap_rejects_one_flag_beyond_mine_count() {
    let mut b = Board::new(3, 1);
    b.place_mines(&vec![8]);
    b.begin_play();
    assert!(b.toggle_flag(0, 0));
    assert_eq!(b.flags_placed(), 1);
    assert!(!b.toggle_flag(0, 1));
    assert_eq!(b.flags_placed(), 1);
    assert_eq!(b.cell(0, 1).visibility, Visibility::Closed);
}

#[test]
fn flagging_an_open_cell_is_rejected() {
    let mut b = Board::new(3, 1);
    b.place_mines(&vec![8]);
    b.begin_play();
    b.open(0, 0, true);
    assert_eq!(b.cell(0, 0).visibility, Visibility::Open);
    assert!(!b.toggle_flag(0, 0));
    assert_eq!(b.cell(0, 0).visibility, Visibility::Open);
    assert_eq!(b.flags_placed(), 0);
}

#[test]
fn flagging_before_the_first_open_is_rejected() {
    let mut b = Board::new(3, 1);
    assert!(!b.toggle_flag(0, 0));
    assert_eq!(b.flags_placed(), 0);
    assert_eq!(b.cell(0, 0).visibility, Visibility::Closed);
}

#[test]
fn unflagging_restores_the_counter() {
    let mut b = Board::new(3, 2);
    b.place_mines(&vec![0, 8]);
    b.begin_play();
    assert!(b.toggle_flag(0, 0));
    assert!(b.toggle_flag(2, 2));
    assert_eq!(b.flags_placed(), 2);
    assert_eq!(flagged_count_scan(&b), 2);
    assert!(b.toggle_flag(0, 0));
    assert_eq!(b.flags_placed(), 1);
    assert_eq!(flagged_count_scan(&b), 1);
    assert_eq!(b.cell(0, 0).visibility, Visibility::Closed);
}

#[test]
fn chording_with_correct_flag_opens_the_rest() {
    // Mine in a corner, its diagonal neighbor opened and the mine flagged:
    // chording on the numbered cell opens every remaining safe cell.
    let mut b = Board::new(3, 1);
    b.place_mines(&vec![0]);
    b.begin_play();
    b.open(1, 1, true);
    assert_eq!(open_count(&b), 1);
    assert!(b.toggle_flag(0, 0));
    let delta = b.open(1, 1, true);
    assert_eq!(delta.len(), 7);
    assert_eq!(b.state(), GameState::Won);
    assert_eq!(b.cell(0, 0).visibility, Visibility::Flagged);
    assert_eq!(open_count(&b), 8);
}

#[test]
fn chording_with_wrong_flag_steps_on_the_mine() {
    let mut b = Board::new(3, 1);
    b.place_mines(&vec![0]);
    b.begin_play();
    b.open(1, 1, true);
    assert!(b.toggle_flag(0, 1));
    b.open(1, 1, true);
    assert_eq!(b.state(), GameState::Lost);
    // The mine itself is never opened, even on a loss.
    assert_eq!(b.cell(0, 0).visibility, Visibility::Closed);
}

#[test]
fn chording_needs_a_user_command() {
    let mut b = Board::new(3, 1);
    b.place_mines(&vec![0]);
    b.begin_play();
    b.open(1, 1, true);
    assert!(b.toggle_flag(0, 0));
    let delta = b.open(1, 1, false);
    assert!(delta.is_empty());
    assert_eq!(open_count(&b), 1);
}

#[test]
fn delta_lists_exactly_the_changed_cells() {
    let mut b = Board::new(5, 1);
    b.place_mines(&vec![24]);
    b.begin_play();
    let delta = b.open(3, 3, true);
    assert_eq!(delta, vec![(3, 3)]);
    let delta2 = b.open(3, 3, false);
    assert!(delta2.is_empty());
}

#[test]
fn random_generate_first_open_never_loses() {
    // The safety zone guarantees the triggering cell is mine-free, whatever
    // the random layout came out as.
    for _ in 0..20 {
        let mut b = Board::new(6, 20);
        b.generate(3, 3);
        b.begin_play();
        b.open(3, 3, true);
        assert_ne!(b.state(), GameState::Lost);
    }
}

#[test]
fn cascade_skips_flagged_cells_and_keeps_the_counter() {
    // A flagged safe cell inside the zero region is not opened by the
    // flood-fill, keeps its flag, and does not block the win.
    let mut b = Board::new(5, 1);
    b.place_mines(&vec![24]);
    b.begin_play();
    assert!(b.toggle_flag(2, 2));
    b.open(0, 0, true);
    assert_eq!(b.cell(2, 2).visibility, Visibility::Flagged);
    assert_eq!(b.flags_placed(), 1);
    assert_eq!(b.state(), GameState::Won);
}
