use hlife::evolve::{evolve_leaf, leaf_step, mk_small_evolve_cache, step, subblock};
use hlife::Hashlife;

#[test]
fn test_small_evolve_cache() {
    let cache = mk_small_evolve_cache();
    assert_eq!(cache[0x0070], 0x11);
    assert_eq!(cache[0x0e00], 0x22);
    assert_eq!(cache[0x1630], 0x23);
    assert_eq!(cache[0x0660], 0x33);
    assert_eq!(cache[0xffff], 0x00);
}

#[test]
fn test_evolve() {
    const INPUT_RLES: &'static [&'static str] = &[
        "bbo$boo$bbo!",
        "x = 8, y = 8, rule = B3/S23\n\
        3ob2o$bo2bobo$2obobo$bobob2o$obobob2o$2bo2b2o$ob2ob2o$bo2b3o!",
    ];
    const OUTPUT_RLES: &'static [&'static str] = &[
        "oo$oo!",
        "x = 4, y = 4, rule = B3/S23\n\
        o$b2o$o$o!",
    ];

    Hashlife::with_new(|mut hl| {
        for (input_rle, output_rle) in INPUT_RLES.iter().zip(OUTPUT_RLES.iter()) {
            let input = hl.rle(input_rle).unwrap();
            let output = hl.rle(output_rle).unwrap();

            let input_node = match input.destruct() {
                Ok(node) => node,
                Err(_) => continue,
            };

            assert_eq!(hl.big_step(input_node).unwrap(), output)
        }
    });
}

#[test]
fn test_step_pow2() {
    Hashlife::with_new(|mut hl| {
        let b = hl.raw_rle("2$6o!").unwrap();
        let n = b.unwrap_node();
        assert_eq!(hl.raw_step_pow2(n, 1).unwrap(), hl.raw_evolve(n).unwrap());
        assert_eq!(hl.raw_step_pow2(n, 0).unwrap(), hl.raw_rle("3o$3o!").unwrap());
        assert_eq!(hl.raw_step_pow2(n, 1).unwrap(), hl.raw_rle("3bo$2bo$2o!").unwrap());
    });
}

#[test]
fn test_subblock_0() {
    Hashlife::with_new(|mut hl| {
        let b = hl.raw_rle("bo$bo$3o$o!").unwrap();
        let n = b.unwrap_node();

        assert_eq!(hl.raw_subblock(n, 0, 0).unwrap(), hl.raw_rle("bo$bo!").unwrap());
        assert_eq!(hl.raw_subblock(n, 1, 0).unwrap(), hl.raw_rle("bo$oo!").unwrap());
        assert_eq!(hl.raw_subblock(n, 2, 0).unwrap(), hl.raw_rle("oo$o!").unwrap());
        assert_eq!(hl.raw_subblock(n, 0, 1).unwrap(), hl.raw_rle("o$o!").unwrap());
        assert_eq!(hl.raw_subblock(n, 1, 1).unwrap(), hl.raw_rle("o$oo!").unwrap());
        assert_eq!(hl.raw_subblock(n, 2, 1).unwrap(), hl.raw_rle("2o!").unwrap());
        assert_eq!(hl.raw_subblock(n, 0, 2).unwrap(), hl.raw_rle("!").unwrap());
        assert_eq!(hl.raw_subblock(n, 1, 2).unwrap(), hl.raw_rle("$o!").unwrap());
        assert_eq!(hl.raw_subblock(n, 2, 2).unwrap(), hl.raw_rle("o!").unwrap());
    });
}

#[test]
fn test_subblock_1() {
    Hashlife::with_new(|mut hl| {
        let b = hl.raw_rle("2$7o!").unwrap();
        let n = b.unwrap_node();

        assert_eq!(hl.raw_subblock(n, 0, 1).unwrap(), hl.raw_rle("2$4o!").unwrap());
        assert_eq!(hl.raw_subblock(n, 1, 0).unwrap(), hl.raw_rle("4o!").unwrap());
        assert_eq!(hl.raw_subblock(n, 0, 2).unwrap(), hl.raw_rle("2$3o!").unwrap());
    });
}

#[test]
fn test_step() {
    Hashlife::with_new(|mut hl| {
        let blinker = hl.rle("3$2b3o!").unwrap().unwrap_node();
        assert_eq!(hl.step(blinker, 1).unwrap(), hl.rle("bo$bo$bo!").unwrap());
        let full = hl.rle("8o$8o$8o$8o$8o$8o$8o$8o!").unwrap().unwrap_node();
        assert_eq!(hl.step(full, 1).unwrap(), hl.rle("x=4,y=5,rule=B3/S34\n4b!").unwrap());
    });
}

#[test]
fn subblock_of_horizontal_bar() {
    let mut hl = Hashlife::new();
    let bar = hl.raw_rle("2$6o!").unwrap().unwrap_node();
    assert_eq!(subblock(&mut hl, bar, 1, 1).unwrap(), hl.raw_rle("4o3$!").unwrap());
    assert_eq!(subblock(&mut hl, bar, 0, 1).unwrap(), hl.raw_rle("2$4o$!").unwrap());
    assert_eq!(subblock(&mut hl, bar, 2, 2).unwrap(), hl.raw_rle("3$b!").unwrap());
    assert_eq!(hl.raw_step_pow2(bar, 0).unwrap(), hl.raw_rle("3o$3o!").unwrap());
}

#[test]
fn big_step_twice_is_one_computation() {
    let mut hl = Hashlife::new();
    let n = hl.raw_rle("3ob2o$bo2bobo$2obobo$bobob2o$obobob2o$2bo2b2o$ob2ob2o$bo2b3o!").unwrap().unwrap_node();
    assert_eq!(hl.cached_future(n), None);
    let first = hl.raw_evolve(n).unwrap();
    assert_eq!(hl.cached_future(n), Some(first));
    let second = hl.raw_evolve(n).unwrap();
    assert_eq!(first, second);
    assert_eq!(first, hl.raw_rle("o$b2o$o$o!").unwrap());
}

#[test]
fn big_step_of_blank_is_blank() {
    let mut hl = Hashlife::new();
    for m in 2..8 {
        let blank = hl.blank(m).unwrap().unwrap_node();
        let smaller = hl.blank(m - 1).unwrap();
        assert_eq!(hl.big_step(blank).unwrap(), smaller);
    }
}

#[test]
fn step_pow2_at_the_top_is_big_step() {
    let mut hl = Hashlife::new();
    let n = hl.rle("3o$o$bo5$8b3o$8bo$9bo5$!").unwrap().unwrap_node();
    assert_eq!(n.lg_size(), 4);
    assert_eq!(hl.step_pow2(n, 2).unwrap(), hl.big_step(n).unwrap());
    let by_steps = hl.step(n, 3).unwrap();
    let by_pow2 = hl.step_pow2(n, 0).unwrap();
    assert_ne!(by_steps, by_pow2);
    assert_eq!(hl.step(n, 1).unwrap(), by_pow2);
    assert_eq!(hl.step(n, 2).unwrap(), hl.step_pow2(n, 1).unwrap());
    assert_eq!(hl.step(n, 0).unwrap().to_raw(), hl.raw_subblock(n.to_raw(), 1, 1).unwrap());
}

#[test]
fn raw_step_with_depth() {
    let mut hl = Hashlife::new();
    let n = hl.raw_rle("3$2b3o!").unwrap().unwrap_node();
    assert_eq!(step(&mut hl, n, 1, 1).unwrap(), hl.raw_rle("bo$bo$bo!").unwrap());
    assert_eq!(step(&mut hl, n, 1, 0).unwrap(), hl.raw_rle("$3o!").unwrap());
}

#[test]
fn leaf_level_steps() {
    let table = mk_small_evolve_cache();
    assert_eq!(evolve_leaf(&table, [[0x20, 0x10], [0x02, 0x00]]), 0x33);
    assert_eq!(evolve_leaf(&table, [[0x00, 0x00], [0x33, 0x00]]), 0x10);
    assert_eq!(evolve_leaf(&table, [[0x33, 0x33], [0x33, 0x33]]), 0x00);
    assert_eq!(evolve_leaf(&table, [[0x30, 0x10], [0x00, 0x00]]), 0x11);
    assert_eq!(leaf_step([[0x20, 0x10], [0x02, 0x01]], 0), 0x33);
    assert_eq!(leaf_step([[0x13, 0x23], [0x31, 0x32]], 0), 0x00);
    assert_eq!(leaf_step([[0x20, 0x00], [0x00, 0x01]], 0), 0x21);
}
