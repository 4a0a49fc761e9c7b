use life2::playlife::life::life;

#[test]
fn blinker_turns_from_row_to_column() {
    let mut g = [[0u8; 5]; 5];
    g[2][1] = 1;
    g[2][2] = 1;
    g[2][3] = 1;
    life(&mut g);
    let mut expected = [[0u8; 5]; 5];
    expected[1][2] = 1;
    expected[2][2] = 1;
    expected[3][2] = 1;
    assert_eq!(g, expected);
    life(&mut g);
    let mut back = [[0u8; 5]; 5];
    back[2][1] = 1;
    back[2][2] = 1;
    back[2][3] = 1;
    assert_eq!(g, back);
}

#[test]
fn block_is_still() {
    let mut g = [[0u8; 4]; 4];
    g[1][1] = 1;
    g[1][2] = 1;
    g[2][1] = 1;
    g[2][2] = 1;
    let before = g;
    life(&mut g);
    assert_eq!(g, before);
}

#[test]
fn empty_grid_stays_empty() {
    let mut g = [[0u8; 6]; 3];
    life(&mut g);
    assert_eq!(g, [[0u8; 6]; 3]);
}

#[test]
fn neighbours_wrap_around_the_edges() {
    // Three live cells down the left edge; the cell on the right edge of
    // the middle row sees all three through the wrap and is born.
    let mut g = [[0u8; 5]; 5];
    g[1][0] = 1;
    g[2][0] = 1;
    g[3][0] = 1;
    life(&mut g);
    assert_eq!(g[2][4], 1);
    assert_eq!(g[2][1], 1);
    assert_eq!(g[2][0], 1);
    assert_eq!(g[1][0], 0);
    assert_eq!(g[3][0], 0);
}

#[test]
fn lone_cell_on_one_by_one_grid_dies() {
    // On a 1 x 1 ring every neighbour is the cell itself: eight neighbours.
    let mut g = [[1u8; 1]; 1];
    life(&mut g);
    assert_eq!(g, [[0u8; 1]; 1]);
}

#[test]
fn dead_cell_with_three_neighbours_is_born_and_crowded_cell_dies() {
    let mut g = [[0u8; 6]; 6];
    // An L of three cells makes a block.
    g[1][1] = 1;
    g[1][2] = 1;
    g[2][1] = 1;
    life(&mut g);
    assert_eq!(g[2][2], 1);
    // A plus sign: the centre has four neighbours and dies.
    let mut p = [[0u8; 6]; 6];
    p[2][2] = 1;
    p[1][2] = 1;
    p[3][2] = 1;
    p[2][1] = 1;
    p[2][3] = 1;
    life(&mut p);
    assert_eq!(p[2][2], 0);
    assert_eq!(p[1][2], 1);
}

#[test]
fn stepping_commutes_with_shift_and_transpose() {
    // A glider on a 6 x 6 torus.
    let mut g = [[0u8; 6]; 6];
    g[0][1] = 1;
    g[1][2] = 1;
    g[2][0] = 1;
    g[2][1] = 1;
    g[2][2] = 1;
    let mut shifted = [[0u8; 6]; 6];
    let mut transposed = [[0u8; 6]; 6];
    for r in 0..6 {
        for c in 0..6 {
            shifted[r][c] = g[(r + 4) % 6][(c + 5) % 6];
            transposed[r][c] = g[c][r];
        }
    }
    life(&mut g);
    life(&mut shifted);
    life(&mut transposed);
    for r in 0..6 {
        for c in 0..6 {
            assert_eq!(shifted[r][c], g[(r + 4) % 6][(c + 5) % 6]);
            assert_eq!(transposed[r][c], g[c][r]);
        }
    }
}
