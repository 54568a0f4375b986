//! Random batches of games.

use alpha_lines_game::game::{Game, Scratch, SQUARES};
use alpha_lines_game::score_batch::ScoreBatch;

#[test]
fn random_batches_match_rescoring_and_recycle() {
    let mut batch = ScoreBatch::new(16, 42);
    let mut replay = ScoreBatch::new(16, 42);
    let mut cells = vec![0u8; 16 * SQUARES];
    let mut targets = vec![0i64; 32];
    let mut other_cells = cells.clone();
    let mut other_targets = targets.clone();
    let mut scratch = Scratch::new();
    let mut completed = 0;
    for _ in 0..160 {
        let ended = batch.step(&mut cells, &mut targets);
        assert_eq!(ended, replay.step(&mut other_cells, &mut other_targets));
        assert_eq!(cells, other_cells);
        assert_eq!(targets, other_targets);
        completed += ended;
        for i in 0..16 {
            let squares: Vec<i8> =
                cells[i * SQUARES..(i + 1) * SQUARES].iter().map(|&v| v as i8).collect();
            let game = Game::from_squares(squares.try_into().unwrap(), &mut scratch);
            assert_eq!(game.scores.map(i64::from), targets[2 * i..2 * i + 2]);
            assert_eq!(game.finished, batch.games[i].finished);
        }
    }
    assert!(completed >= 16 * 2);
}
