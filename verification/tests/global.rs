use hlife::format::parse::State;
use hlife::format::write::{block_to_matrix, format_rle};
use hlife::global::{encase, Pattern};
use hlife::Hashlife;
use num::BigUint;
use rand::rngs::StdRng;
use rand::SeedableRng;

fn life_cell_by_cell(start: &Vec<Vec<bool>>, generations: usize) -> Vec<Vec<bool>> {
    let mut grid = start.clone();
    let side = grid.len() as i64;
    for _ in 0..generations {
        let mut next = vec![vec![false; side as usize]; side as usize];
        for y in 0..side {
            for x in 0..side {
                let mut n = 0;
                for dy in [-1i64, 0, 1] {
                    for dx in [-1i64, 0, 1] {
                        let (v, u) = (y + dy, x + dx);
                        if (dy != 0 || dx != 0) && v >= 0 && v < side && u >= 0 && u < side && grid[v as usize][u as usize] {
                            n += 1;
                        }
                    }
                }
                next[y as usize][x as usize] = n == 3 || (n == 2 && grid[y as usize][x as usize]);
            }
        }
        grid = next;
    }
    grid
}

fn centred(cells: &Vec<Vec<bool>>, side: usize) -> Vec<Vec<bool>> {
    let inner = cells.len();
    let margin = (side - inner) / 2;
    let mut out = vec![vec![false; side]; side];
    for y in 0..inner {
        for x in 0..inner {
            out[y + margin][x + margin] = cells[y][x];
        }
    }
    out
}

fn cells_of(pattern: &Pattern, hl: &Hashlife) -> Vec<Vec<bool>> {
    block_to_matrix(&pattern.block().to_raw(), hl)
        .iter()
        .map(|row| row.iter().map(|state| *state == State::Alive).collect())
        .collect()
}

fn crop_to(cells: &Vec<Vec<bool>>, side: usize) -> Vec<Vec<bool>> {
    let margin = (cells.len() - side) / 2;
    for (y, row) in cells.iter().enumerate() {
        for (x, alive) in row.iter().enumerate() {
            let inside = y >= margin && y < margin + side && x >= margin && x < margin + side;
            assert!(inside || !alive);
        }
    }
    (0..side).map(|y| (0..side).map(|x| cells[y + margin][x + margin]).collect()).collect()
}

#[test]
fn steps_agree_with_life_cell_by_cell() {
    let mut rng = StdRng::seed_from_u64(2024);
    for depth in [1usize, 2, 3] {
        for generations in [0usize, 1, 2, 3, 5, 8, 13] {
            let mut hl = Hashlife::new();
            let raw = hl.raw_random_block(&mut rng, depth).unwrap();
            let block = hl.block_from_raw(raw);
            let mut pattern = Pattern::new(block);
            let start = cells_of(&pattern, &hl);
            let wide = 256;
            let expected = life_cell_by_cell(&centred(&start, wide), generations);
            pattern.step(&mut hl, generations as u64).unwrap();
            let got = cells_of(&pattern, &hl);
            if got.len() <= wide {
                assert_eq!(centred(&got, wide), expected);
            } else {
                assert_eq!(crop_to(&got, wide), expected);
            }
        }
    }
}

fn parse(hl: &mut Hashlife, bytes: &'static str) -> Pattern {
    Pattern::new(hl.rle(bytes).unwrap())
}

#[test]
fn test_blinker_1gen() {
    Hashlife::with_new(|mut hl| {
        let mut blinker_in = parse(&mut hl, "2$2b3o!");
        blinker_in.step(&mut hl, 1).unwrap();
        let blinker_out = parse(&mut hl, "$3bo$3bo$3bob!");
        if !blinker_in.eq(&blinker_out, &mut hl).unwrap() {
            panic!(
                "{}\n{}",
                format_rle(&blinker_in.block(), &hl),
                format_rle(&blinker_out.block(), &hl)
            );
        }
    });
}

#[test]
fn blinker_two_steps_is_the_blinker() {
    let mut hl = Hashlife::new();
    let start = parse(&mut hl, "b3o!");
    let mut p = parse(&mut hl, "b3o!");
    p.step(&mut hl, 1).unwrap();
    let upright = parse(&mut hl, "2bo$2bo$2bo!");
    let moved = parse(&mut hl, "bo$bo$bo!");
    assert!(!p.eq(&start, &mut hl).unwrap());
    assert!(!p.eq(&moved, &mut hl).unwrap());
    let mut q = parse(&mut hl, "$b3o!");
    q.step(&mut hl, 1).unwrap();
    assert!(q.eq(&upright, &mut hl).unwrap());
    q.step(&mut hl, 1).unwrap();
    let flat = parse(&mut hl, "$b3o!");
    assert!(q.eq(&flat, &mut hl).unwrap());
}

#[test]
fn steps_add_up() {
    let glider = "bo$2bo$3o!";
    for (a, b) in [(0u64, 0u64), (1, 0), (0, 5), (3, 4), (7, 9), (16, 1), (5, 27)] {
        let mut hl = Hashlife::new();
        let mut one = parse(&mut hl, glider);
        one.step(&mut hl, a).unwrap();
        one.step(&mut hl, b).unwrap();
        let mut two = parse(&mut hl, glider);
        two.step(&mut hl, a + b).unwrap();
        assert!(one.eq(&two, &mut hl).unwrap());
        let mut three = parse(&mut hl, glider);
        three.step(&mut hl, a + b + 1).unwrap();
        assert!(!one.eq(&three, &mut hl).unwrap());
    }
}

#[test]
fn glider_moves_one_cell_in_four_generations() {
    let mut hl = Hashlife::new();
    let mut glider = parse(&mut hl, "4$4bbo$4b2bo$4b3o7$!");
    glider.step(&mut hl, 4).unwrap();
    let moved = parse(&mut hl, "5$5bbo$5b2bo$5b3o6$!");
    assert!(glider.eq(&moved, &mut hl).unwrap());
    glider.step(&mut hl, 8).unwrap();
    let further = parse(&mut hl, "7$7bbo$7b2bo$7b3o4$!");
    assert!(glider.eq(&further, &mut hl).unwrap());
}

#[test]
fn pulsar_has_period_three() {
    let pulsar = "x = 13, y = 13, rule = B3/S23\n2b3o3b3o2$o4bobo4bo$o4bobo4bo$o4bobo4bo$2b3o3b3o2$\
                  2b3o3b3o$o4bobo4bo$o4bobo4bo$o4bobo4bo2$2b3o3b3o!";
    let mut hl = Hashlife::new();
    let start = parse(&mut hl, pulsar);
    let mut p = parse(&mut hl, pulsar);
    p.step(&mut hl, 1).unwrap();
    assert!(!p.eq(&start, &mut hl).unwrap());
    let mut after_one = parse(&mut hl, pulsar);
    after_one.step(&mut hl, 1).unwrap();
    p.step(&mut hl, 2).unwrap();
    assert!(p.eq(&start, &mut hl).unwrap());
    let mut q = parse(&mut hl, pulsar);
    q.step(&mut hl, 175).unwrap();
    assert!(q.eq(&after_one, &mut hl).unwrap());
    let mut r = parse(&mut hl, pulsar);
    r.step(&mut hl, 174).unwrap();
    assert!(r.eq(&start, &mut hl).unwrap());
}

#[test]
fn step_bigu_is_step() {
    let mut hl = Hashlife::new();
    let mut a = parse(&mut hl, "bo$2bo$3o!");
    let mut b = parse(&mut hl, "bo$2bo$3o!");
    a.step(&mut hl, 1000).unwrap();
    b.step_bigu(&mut hl, &BigUint::from(1000u32)).unwrap();
    assert!(a.eq(&b, &mut hl).unwrap());
    assert_eq!(a.block(), b.block());
}

#[test]
fn step_zero_keeps_the_pattern() {
    let mut hl = Hashlife::new();
    let start = parse(&mut hl, "bo$2bo$3o!");
    let mut p = parse(&mut hl, "bo$2bo$3o!");
    p.step(&mut hl, 0).unwrap();
    assert!(p.eq(&start, &mut hl).unwrap());
}

#[test]
fn encase_puts_the_block_in_the_centre() {
    let mut hl = Hashlife::new();
    let inner = hl.rle("2o$2o$2b2o$2b2o!").unwrap();
    let outer = encase(&mut hl, inner).unwrap();
    assert_eq!(outer.lg_size(), 3);
    assert_eq!(outer, hl.rle("2$2b2o$2b2o$4b2o$4b2o2$!").unwrap());
    let a = Pattern::new(inner);
    let b = Pattern::new(outer);
    assert!(a.eq(&b, &mut hl).unwrap());
    assert!(b.eq(&a, &mut hl).unwrap());
    let other = Pattern::new(hl.rle("2o$2o$2b2o$2bo!").unwrap());
    assert!(!other.eq(&b, &mut hl).unwrap());
}

#[test]
fn dead_pattern_stays_dead() {
    let mut hl = Hashlife::new();
    let mut dead = Pattern::new(hl.blank(2).unwrap());
    dead.step(&mut hl, 12345).unwrap();
    assert!(dead.block().is_blank(&hl));
    let blank = Pattern::new(hl.blank(5).unwrap());
    assert!(dead.eq(&blank, &mut hl).unwrap());
}
