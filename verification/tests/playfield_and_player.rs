use nanorand::{Rng, SeedableRng};
use life2::playfield::{dimension_fits, render_row, solid_row, FrameCount, Playfield, ReceivedRows, RowWriter};
use life2::playlife::counter::Counter;
use life2::playlife::{board_from_draws, make_rng, seed_value, Player, State};

#[derive(Clone, Default)]
struct Recorder {
    frames: usize,
    rows: Vec<Vec<u8>>,
}

impl RowWriter for Recorder {
    // The row model is for proofs only; at run time the rows are in `rows`.
    fn received(&self) -> ReceivedRows {
        panic!("the row model has no run-time value")
    }

    fn frames_begun(&self) -> FrameCount {
        panic!("the frame count model has no run-time value")
    }

    fn begin_frame(&mut self) {
        self.frames += 1;
        self.rows.clear();
    }

    fn write_row(&mut self, row_bytes: &[u8]) {
        self.rows.push(row_bytes.to_vec());
    }
}

const GREEN: [u8; 2] = [0x07, 0xE0];
const BLACK: [u8; 2] = [0x00, 0x00];

#[test]
fn new_playfield_clears_the_display() {
    let pf: Playfield<120, 120, Recorder> = Playfield::new(Recorder::default());
    assert_eq!(pf.frame(), [[0u8; 120]; 120]);
    assert_eq!(pf.display().frames, 1);
    assert_eq!(pf.display().rows.len(), 240);
    assert!(pf.display().rows.iter().all(|r| r.len() == 480 && r.iter().all(|b| *b == 0)));
}

#[test]
fn solid_row_repeats_its_colour() {
    let row = solid_row([0xAB, 0xCD]);
    for px in 0..240 {
        assert_eq!([row[2 * px], row[2 * px + 1]], [0xAB, 0xCD]);
    }
}

#[test]
fn rendered_row_scales_cells_to_pixels() {
    // 120 x 120 grid: each cell is 2 x 2 pixels.
    let mut g = [[0u8; 120]; 120];
    g[0][0] = 1;
    g[1][119] = 1;
    let row0 = render_row(&g, 0, GREEN, BLACK);
    assert_eq!([row0[0], row0[1]], GREEN);
    assert_eq!([row0[2], row0[3]], GREEN);
    assert_eq!([row0[4], row0[5]], BLACK);
    assert_eq!([row0[478], row0[479]], BLACK);
    let row1 = render_row(&g, 1, GREEN, BLACK);
    assert_eq!([row1[0], row1[1]], GREEN);
    let row2 = render_row(&g, 2, GREEN, BLACK);
    assert_eq!([row2[0], row2[1]], BLACK);
    assert_eq!([row2[476], row2[477]], GREEN);
    assert_eq!([row2[478], row2[479]], GREEN);
}

#[test]
fn rendered_row_with_uneven_cells() {
    // 8 columns of 30 pixels each: pixel 209 is on cell 6, pixel 210 on
    // cell 7; row 29 is on grid row 0, row 30 on grid row 1.
    let mut g = [[0u8; 8]; 8];
    g[0][7] = 1;
    let row = render_row(&g, 29, GREEN, BLACK);
    assert_eq!([row[2 * 209], row[2 * 209 + 1]], BLACK);
    assert_eq!([row[2 * 210], row[2 * 210 + 1]], GREEN);
    let row = render_row(&g, 30, GREEN, BLACK);
    assert_eq!([row[2 * 239], row[2 * 239 + 1]], BLACK);
}

#[test]
fn playfield_draws_its_frame() {
    let mut pf: Playfield<120, 120, Recorder> = Playfield::new(Recorder::default());
    let mut g = [[0u8; 120]; 120];
    g[60][30] = 1;
    pf.update(&g);
    assert_eq!(pf.frame(), g);
    pf.draw();
    let d = pf.display();
    assert_eq!(d.frames, 2);
    assert_eq!(d.rows.len(), 240);
    assert_eq!(d.rows[120][120..124].to_vec(), vec![0x07, 0xE0, 0x07, 0xE0]);
    assert_eq!(d.rows[121][120..122].to_vec(), vec![0x07, 0xE0]);
    assert_eq!(d.rows[122][120..122].to_vec(), vec![0x00, 0x00]);
    let lit: usize = d.rows.iter().map(|r| r.chunks(2).filter(|p| p == &GREEN).count()).sum();
    assert_eq!(lit, 4);
}

fn player<const N: usize>(seed: u8) -> Player<N, N, Recorder> {
    let pf: Playfield<N, N, Recorder> = Playfield::new(Recorder::default());
    Player::new(pf, make_rng([seed; 16]))
}

fn complement<const N: usize>(g: [[u8; N]; N]) -> [[u8; N]; N] {
    let mut out = g;
    for row in out.iter_mut() {
        for c in row.iter_mut() {
            *c = if *c == 0 { 1 } else { 0 };
        }
    }
    out
}

#[test]
fn new_player_starts_a_random_board() {
    let mut p = player::<8>(7);
    assert_eq!(p.state(), State::Initing);
    assert!(!p.is_running());
    p.advance(false, false);
    assert_eq!(p.state(), State::Running { last_flip: Counter(0) });
    assert!(p.is_running());
    let g = p.current();
    assert!(g.iter().all(|r| r.iter().all(|c| *c <= 1)));
    assert_eq!(p.playfield().frame(), g);
}

#[test]
fn running_steps_the_game_and_button_a_restarts() {
    let mut p = player::<8>(3);
    p.advance(false, false);
    let g = p.current();
    if g.iter().all(|r| r.iter().all(|c| *c == 0)) {
        return;
    }
    p.advance(false, false);
    let mut expected = g;
    life2::playlife::life::life(&mut expected);
    assert_eq!(p.current(), expected);
    assert_eq!(p.playfield().frame(), expected);
    assert_eq!(p.state(), State::Running { last_flip: Counter(0) });
    if expected.iter().all(|r| r.iter().all(|c| *c == 0)) {
        return;
    }
    p.advance(true, true);
    assert_eq!(p.state(), State::Initing);
    assert_eq!(p.current(), expected);
}

#[test]
fn button_b_flips_then_holds_off() {
    let mut p = player::<8>(11);
    p.advance(false, false);
    let g = p.current();
    if g.iter().all(|r| r.iter().all(|c| *c == 0)) {
        return;
    }
    p.advance(false, true);
    assert_eq!(p.state(), State::Flipping);
    assert_eq!(p.current(), g);
    p.advance(false, false);
    assert_eq!(p.current(), complement(g));
    assert_eq!(p.playfield().frame(), complement(g));
    assert_eq!(p.state(), State::Running { last_flip: Counter(5) });
    // B is ignored while the hold-off runs (unless the board dies out).
    for left in (0..5).rev() {
        if p.current().iter().all(|r| r.iter().all(|c| *c == 0)) {
            return;
        }
        p.advance(false, true);
        assert_eq!(p.state(), State::Running { last_flip: Counter(left) });
    }
    if p.current().iter().all(|r| r.iter().all(|c| *c == 0)) {
        return;
    }
    p.advance(false, true);
    assert_eq!(p.state(), State::Flipping);
}

#[test]
fn dead_board_pauses_five_frames_then_restarts() {
    // On a 1 x 1 board a live cell always dies, so the board is empty
    // after at most one step.
    let mut p = player::<1>(5);
    p.advance(false, false);
    if p.current() == [[1u8; 1]; 1] {
        p.advance(false, false);
        assert_eq!(p.current(), [[0u8; 1]; 1]);
    }
    p.advance(true, true);
    assert_eq!(p.state(), State::Paused { remaining: Counter(5) });
    for left in (0..5).rev() {
        p.advance(true, false);
        assert_eq!(p.state(), State::Paused { remaining: Counter(left) });
    }
    p.advance(false, true);
    assert_eq!(p.state(), State::Initing);
}

#[test]
fn player_draws_the_board() {
    let mut p = player::<120>(9);
    p.advance(false, false);
    p.draw();
    let g = p.current();
    let d = p.playfield().display();
    assert_eq!(d.rows.len(), 240);
    for py in [0usize, 77, 239] {
        for px in [0usize, 1, 120, 239] {
            let want = if g[py / 2][px / 2] != 0 { GREEN } else { BLACK };
            assert_eq!([d.rows[py][2 * px], d.rows[py][2 * px + 1]], want);
        }
    }
}

#[test]
fn dimensions_that_fit_the_display() {
    assert!(dimension_fits(120));
    assert!(dimension_fits(8));
    assert!(dimension_fits(240));
    assert!(!dimension_fits(0));
    assert!(!dimension_fits(7));
    assert!(!dimension_fits(241));
}

#[test]
fn board_from_draws_places_each_draw_in_its_cell() {
    let mut draws = [[false; 3]; 2];
    draws[0][2] = true;
    draws[1][0] = true;
    assert_eq!(board_from_draws(&draws), [[0, 0, 1], [1, 0, 0]]);
}

#[test]
fn seed_bytes_are_read_least_significant_first() {
    let mut seed = [0u8; 16];
    seed[0] = 0x01;
    seed[1] = 0x02;
    seed[15] = 0x80;
    assert_eq!(seed_value(seed), 0x8000_0000_0000_0000_0000_0000_0000_0201u128);
    assert_eq!(seed_value([0xFF; 16]), u128::MAX);
}

#[test]
fn made_generator_matches_seeding_then_reseeding() {
    let seed: [u8; 16] = [3, 1, 4, 1, 5, 9, 2, 6, 5, 3, 5, 8, 9, 7, 9, 3];
    let mut made = make_rng(seed);
    let mut reseeded = nanorand::Pcg64::new_seed(1);
    reseeded.reseed(seed);
    for _ in 0..64 {
        assert_eq!(made.generate::<bool>(), reseeded.generate::<bool>());
    }
    let mut other = make_rng([0u8; 16]);
    let a: Vec<bool> = (0..64).map(|_| made.generate::<bool>()).collect();
    let b: Vec<bool> = (0..64).map(|_| other.generate::<bool>()).collect();
    assert_ne!(a, b);
}
