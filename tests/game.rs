use minesweeper_backend::backend::{Game, GameState, PubSquareContents};

fn view(g: &Game) -> Vec<PubSquareContents> {
    let mut out = Vec::new();
    for x in 0..g.num_rows() {
        for y in 0..g.num_cols() {
            out.push(g.get(x, y));
        }
    }
    out
}

fn text(g: &Game) -> String {
    let mut s = String::new();
    for x in 0..g.num_rows() {
        for y in 0..g.num_cols() {
            let c = match g.get(x, y) {
                PubSquareContents::Mine => '*'.to_string(),
                PubSquareContents::Unguessed => '#'.to_string(),
                PubSquareContents::Flagged => 'F'.to_string(),
                PubSquareContents::BadFlagged => 'X'.to_string(),
                PubSquareContents::Empty(n) => n.to_string(),
            };
            s.push_str(&c);
        }
        s.push('\n');
    }
    s
}

/// Guesses every cell in row-major order until the game ends.
fn play_out(g: &mut Game) {
    for x in 0..g.num_rows() {
        for y in 0..g.num_cols() {
            if g.state() == GameState::InProg {
                g.guess(x, y);
            }
        }
    }
}

fn neighbors_showing_mine(g: &Game, x: usize, y: usize) -> u8 {
    let mut n = 0;
    for i in x.saturating_sub(1)..(x + 2).min(g.num_rows()) {
        for j in y.saturating_sub(1)..(y + 2).min(g.num_cols()) {
            if (i, j) != (x, y) && g.get(i, j) == PubSquareContents::Mine {
                n += 1;
            }
        }
    }
    n
}

#[test]
fn it_works() {
    let mut g = Game::new(9, 9, 20);
    Game::guess(&mut g, 3, 2);
    println!("{:}", text(&g));
}

#[test]
fn new_board_is_covered() {
    let g = Game::new(4, 5, 3);
    assert_eq!(g.state(), GameState::InProg);
    assert_eq!(g.num_rows(), 4);
    assert_eq!(g.num_cols(), 5);
    assert!(view(&g).iter().all(|c| *c == PubSquareContents::Unguessed));
}

#[test]
fn first_guess_opens_the_safety_box() {
    for _ in 0..20 {
        let mut g = Game::new(9, 9, 20);
        let st = g.guess(3, 2);
        assert_ne!(st, GameState::Lost);
        for i in 2..5 {
            for j in 1..4 {
                assert!(matches!(g.get(i, j), PubSquareContents::Empty(_)));
            }
        }
        assert_eq!(g.get(3, 2), PubSquareContents::Empty(0));
    }
}

/// Plays games on a 9 by 9 board with 20 mines until one is lost; flags
/// (0, 0) before the first guess at (0, 1) when `flag_first` is set.
fn lost_game(flag_first: bool) -> Game {
    for _ in 0..200 {
        let mut g = Game::new(9, 9, 20);
        if flag_first {
            g.toggle_flag(0, 0);
        }
        g.guess(0, 1);
        play_out(&mut g);
        if g.state() == GameState::Lost {
            return g;
        }
    }
    panic!("no game was lost");
}

#[test]
fn loss_shows_every_mine_and_counts_match() {
    let g = lost_game(false);
    let mines = view(&g).iter().filter(|c| **c == PubSquareContents::Mine).count();
    assert_eq!(mines, 20);
    for x in 0..9 {
        for y in 0..9 {
            if let PubSquareContents::Empty(n) = g.get(x, y) {
                assert_eq!(n, neighbors_showing_mine(&g, x, y));
            }
            assert!(g.get(x, y) != PubSquareContents::Flagged);
        }
    }
}

#[test]
fn loss_marks_wrong_flags() {
    let g = lost_game(true);
    // (0, 0) lies in the safety box of the first guess, so it holds no mine.
    assert_eq!(g.get(0, 0), PubSquareContents::BadFlagged);
}

#[test]
fn finished_game_ignores_further_moves() {
    let mut g = lost_game(false);
    let st = g.state();
    assert!(st != GameState::InProg);
    let before = view(&g);
    for x in 0..9 {
        for y in 0..9 {
            assert_eq!(g.guess(x, y), st);
        }
    }
    g.toggle_flag(8, 8);
    assert_eq!(g.state(), st);
    let after = view(&g);
    let changed = before.iter().zip(after.iter()).filter(|(a, b)| a != b).count();
    assert!(changed <= 1);
    assert_eq!(after[..80], before[..80]);
}

#[test]
fn mine_free_board_is_won_by_one_guess() {
    let mut g = Game::new(2, 2, 0);
    assert_eq!(g.guess(0, 0), GameState::Won);
    assert!(view(&g).iter().all(|c| *c == PubSquareContents::Empty(0)));
}

#[test]
fn single_cell_board_is_won() {
    let mut g = Game::new(1, 1, 0);
    assert_eq!(g.guess(0, 0), GameState::Won);
    assert_eq!(g.state(), GameState::Won);
}

#[test]
fn flag_toggles_and_blocks_guess() {
    let mut g = Game::new(3, 3, 1);
    g.toggle_flag(1, 1);
    assert_eq!(g.get(1, 1), PubSquareContents::Flagged);
    assert_eq!(g.guess(1, 1), GameState::InProg);
    assert_eq!(g.get(1, 1), PubSquareContents::Flagged);
    g.toggle_flag(1, 1);
    assert_eq!(g.get(1, 1), PubSquareContents::Unguessed);
    assert_eq!(g.state(), GameState::InProg);
}

#[test]
fn guessed_cell_ignores_flag() {
    let mut g = Game::new(5, 5, 3);
    g.guess(2, 2);
    let before = g.get(2, 2);
    g.toggle_flag(2, 2);
    assert_eq!(g.get(2, 2), before);
}

#[test]
fn guesses_never_cover_cells_again() {
    let mut g = Game::new(9, 9, 10);
    g.guess(4, 4);
    let mut shown = view(&g).iter().filter(|c| matches!(c, PubSquareContents::Empty(_))).count();
    for x in 0..9 {
        for y in 0..9 {
            if g.state() != GameState::InProg {
                break;
            }
            g.guess(x, y);
            let now = view(&g).iter().filter(|c| matches!(c, PubSquareContents::Empty(_))).count();
            assert!(now >= shown);
            shown = now;
        }
    }
}

#[test]
fn chord_without_matching_flags_does_nothing() {
    let mut g = Game::new(9, 9, 20);
    g.guess(4, 4);
    let before = view(&g);
    for x in 0..9 {
        for y in 0..9 {
            if let PubSquareContents::Empty(n) = g.get(x, y) {
                if n > 0 {
                    g.guess(x, y);
                }
            }
        }
    }
    assert_eq!(view(&g), before);
}

#[test]
fn two_cell_board_is_won_by_the_safe_guess() {
    let mut g = Game::new(2, 1, 1);
    assert_eq!(g.guess(0, 0), GameState::Won);
    assert_eq!(g.state(), GameState::Won);
    // Both cells lie in the safety box, so no mine finds room: the second
    // cell is uncovered by the flood.
    assert_eq!(g.get(1, 0), PubSquareContents::Empty(0));
}

#[test]
fn chord_with_matching_flag_count_uncovers_neighbors() {
    // Flags one covered neighbor of a cell showing 1, right or wrong, then
    // guesses that cell again: while the game goes on, every neighbor that
    // was not flagged has been uncovered.
    for _ in 0..50 {
        let mut g = Game::new(9, 9, 20);
        g.guess(4, 4);
        let mut target = None;
        for x in 0..9 {
            for y in 0..9 {
                if target.is_none() && g.get(x, y) == PubSquareContents::Empty(1) {
                    target = Some((x, y));
                }
            }
        }
        let (x, y) = match target {
            Some(t) => t,
            None => continue,
        };
        let mut flagged = false;
        for i in x.saturating_sub(1)..(x + 2).min(9) {
            for j in y.saturating_sub(1)..(y + 2).min(9) {
                if !flagged && g.get(i, j) == PubSquareContents::Unguessed {
                    g.toggle_flag(i, j);
                    flagged = true;
                }
            }
        }
        if !g.chord_safe(x, y) {
            continue;
        }
        let st = g.guess(x, y);
        assert_ne!(st, GameState::Lost);
        if st == GameState::InProg {
            for i in x.saturating_sub(1)..(x + 2).min(9) {
                for j in y.saturating_sub(1)..(y + 2).min(9) {
                    assert!(g.get(i, j) != PubSquareContents::Unguessed);
                }
            }
        }
    }
}

#[test]
fn chord_onto_a_hidden_mine_is_refused() {
    // Flags every covered neighbor but one of a cell showing 1 where that
    // one is the mine: the chord would uncover it, and is reported unsafe.
    let mut found_case = false;
    for _ in 0..200 {
        let mut g = Game::new(9, 9, 20);
        g.guess(4, 4);
        for x in 0..9 {
            for y in 0..9 {
                if g.get(x, y) != PubSquareContents::Empty(1) {
                    continue;
                }
                let mut covered = Vec::new();
                for i in x.saturating_sub(1)..(x + 2).min(9) {
                    for j in y.saturating_sub(1)..(y + 2).min(9) {
                        if g.get(i, j) == PubSquareContents::Unguessed {
                            covered.push((i, j));
                        }
                    }
                }
                if covered.len() >= 2 {
                    // Flag one covered neighbor; the chord is safe only when
                    // that flag sits on the mine.
                    g.toggle_flag(covered[0].0, covered[0].1);
                    let safe = g.chord_safe(x, y);
                    if !safe {
                        found_case = true;
                    } else {
                        assert_ne!(g.guess(x, y), GameState::Lost);
                    }
                    g.toggle_flag(covered[0].0, covered[0].1);
                }
            }
        }
        if found_case {
            break;
        }
    }
    assert!(found_case);
}

#[test]
fn chord_safe_without_a_chord_is_true() {
    let g = Game::new(3, 3, 1);
    assert!(g.chord_safe(1, 1));
}
