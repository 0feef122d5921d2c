use hlife::block::Block;
use hlife::format::build_mc::build_mc;
use hlife::format::build_rle::{block_from_matrix, block_from_rle, expand_rle, states_to_leaf, submatrix, tokens_to_matrix};
use hlife::format::parse::{
    comment, line_ending, mc_header, mc_leaf, mc_line, mc_node, not_line_ending, opt_num, parse_file,
    parse_line, process_lines, rle_cell_state, rle_line, rle_meta, rle_token, space, uint, Comment,
    LineParse, MCHeader, MCLeaf, MCLine, MCNode, ParseOut, RLEMeta, RLEToken, State,
};
use hlife::format::write::{
    block_to_matrix, format_rle, leaf_to_matrix, matrix_to_rle, merge_columns, merge_rows, raw_format_rle,
    rle_to_bytes, rle_to_string, row_tokens, RLEData,
};
use hlife::format::parse::ParseOut::{Fail, RLE};
use hlife::format::parse::RLEToken::{EndBlock, EndLine};
use hlife::format::parse::State::{Alive, Dead};
use hlife::Hashlife;

fn done<T>(parsed: Option<(T, usize)>) -> T {
    match parsed {
        Some((value, _)) => value,
        None => panic!("Failed parse"),
    }
}

#[test]
fn format_test_rle_line() {

    assert_eq!(
        done(rle_line(b"bo$bbo$3o!", 0)),
        vec![
            (1, RLEToken::State(Dead)),
            (1, RLEToken::State(Alive)),
            (1, EndLine),
            (1, RLEToken::State(Dead)),
            (1, RLEToken::State(Dead)),
            (1, RLEToken::State(Alive)),
            (1, EndLine),
            (3, RLEToken::State(Alive)),
            (1, EndBlock)
        ]
    );
}

#[test]
fn test_parse_rle_meta_0() {
    assert_eq!(done(rle_meta(b" x = 3 , y = 8 , rule = ?", 0)), RLEMeta { x: 3, y: 8 });
}

#[test]
fn test_parse_rle_meta_1() {
    let res = rle_meta(b"x=3,y=8,rule=B3/23", 0);
    match res {
        Some(_) => {}
        _ => {
            println!("{:?}", res);
            panic!();
        }
    }

    let res = rle_meta(b" x = 3 , y = 8 , rule = ?", 0);
    match res {
        Some(_) => {}
        _ => {
            println!("{:?}", res);
            panic!();
        }
    }
}

#[test]
fn test_parse_rle_meta_2() {
    assert_eq!(done(rle_meta(b"x=3,y=8,rule=B3/S23", 0)), RLEMeta { x: 3, y: 8 });
    assert_eq!(done(rle_meta(b"x=33,y=27421,rule=B3/S23", 0)), RLEMeta { x: 33, y: 27421 });
}

#[test]
fn parse_test_rle_line() {

    assert_eq!(
        done(rle_line(b"bo$bbo$3o!", 0)),
        vec![
            (1, RLEToken::State(Dead)),
            (1, RLEToken::State(Alive)),
            (1, EndLine),
            (1, RLEToken::State(Dead)),
            (1, RLEToken::State(Dead)),
            (1, RLEToken::State(Alive)),
            (1, EndLine),
            (3, RLEToken::State(Alive)),
            (1, EndBlock)
        ]
    );
    assert_eq!(
        done(rle_line(b"o2$o", 0)),
        vec![(1, RLEToken::State(Alive)), (2, EndLine), (1, RLEToken::State(Alive))]
    );
}

#[test]
fn test_parse_rle_meta() {
    assert_eq!(done(rle_meta(b" x = 3 , y = 8 , rule = ?", 0)), RLEMeta { x: 3, y: 8 });
    let res = rle_meta(b"x=3,y=8,rule=B3/23", 0);
    match res {
        Some(_) => {}
        _ => {
            println!("{:?}", res);
            panic!();
        }
    }

    let res = rle_meta(b" x = 3 , y = 8 , rule = ?", 0);
    match res {
        Some(_) => {}
        _ => {
            println!("{:?}", res);
            panic!();
        }
    }
    assert_eq!(done(rle_meta(b"x=3,y=8,rule=B3/S23", 0)), RLEMeta { x: 3, y: 8 });
    assert_eq!(done(rle_meta(b"x=33,y=27421,rule=B3/S23", 0)), RLEMeta { x: 33, y: 27421 });
}

#[test]
fn test_parse_line() {

    assert_eq!(
        done(parse_line(b"x=1,y=1,rule=B3/S23\n", 0)),
        LineParse::RLEMeta(RLEMeta { x: 1, y: 1 })
    );
    assert_eq!(
        done(parse_line(b"3bo\n", 0)),
        LineParse::RLELine(vec![(3, RLEToken::State(State::Dead)), (1, RLEToken::State(State::Alive))])
    );
    assert_eq!(done(parse_line(b" #  Comment!\n", 0)), LineParse::Comment(Comment));
    assert_eq!(done(parse_line(b"[M2]\n", 0)), LineParse::MCHeader(MCHeader));
    assert_eq!(
        done(parse_line(b".*$..*$***$$$$$$\n", 0)),
        LineParse::MCLine(MCLine::Leaf(MCLeaf(vec![
            vec![Dead, Alive],
            vec![Dead, Dead, Alive],
            vec![Alive, Alive, Alive],
            vec![],
            vec![],
            vec![],
            vec![],
            vec![]
        ])))
    );
}

#[test]
fn test_process_lines() {
    let alive = RLEToken::State(State::Alive);
    let dead = RLEToken::State(State::Dead);

    let meta = LineParse::RLEMeta(RLEMeta { x: 5, y: 5 });
    let line0 = LineParse::RLELine(vec![(1, alive), (1, EndLine), (1, alive)]);
    let line1 = LineParse::RLELine(vec![(3, dead), (1, alive), (1, EndBlock)]);

    assert_eq!(
        process_lines(vec![line0.clone()]),
        RLE(vec![(1, alive), (1, EndLine), (1, alive)])
    );
    assert_eq!(
        process_lines(vec![meta.clone(), line0.clone()]),
        RLE(vec![(1, alive), (1, EndLine), (1, alive)])
    );
    assert_eq!(
        process_lines(vec![line0.clone(), line1.clone()]),
        RLE(vec![(1, alive), (1, EndLine), (1, alive), (3, dead), (1, alive), (1, EndBlock)])
    );
    assert_eq!(process_lines(vec![line0, meta]), Fail);
}

#[test]
fn test_parse_file() {

    assert_eq!(
        parse_file(b"x = 5, y = 5, rule = B3/S23\nobo$3bo!\n").0,
        ParseOut::RLE(vec![
            (1, RLEToken::State(Alive)),
            (1, RLEToken::State(Dead)),
            (1, RLEToken::State(Alive)),
            (1, EndLine),
            (3, RLEToken::State(Dead)),
            (1, RLEToken::State(Alive)),
            (1, EndBlock)
        ])
    );
    assert_eq!(
        parse_file(b"x = 2, y = 2, rule = B3/S23\nbb$bb$!\n").0,
        ParseOut::RLE(vec![
            (1, RLEToken::State(Dead)),
            (1, RLEToken::State(Dead)),
            (1, EndLine),
            (1, RLEToken::State(Dead)),
            (1, RLEToken::State(Dead)),
            (1, EndLine),
            (1, EndBlock)
        ])
    );
}

#[test]
fn test_comment() {
    assert_eq!(comment(b"", 0), 0);
    assert_eq!(done(parse_line(b"\n", 0)), LineParse::Comment(Comment));
}

#[test]
fn debug() {
    assert!(mc_header(b"[M2]", 0).is_some());
    assert_eq!(done(parse_line(b"[M2]\n", 0)), LineParse::MCHeader(MCHeader));

    assert!(rle_line(b"3b", 0).is_some());
    assert!(rle_line(b".*$..*$***$$$$$$", 0).is_none());
    assert!(mc_leaf(b".*$..*$***$$$$$$", 0).is_some());

    let expected = vec![(1, RLEToken::EndBlock)];
    println!("{:?}", parse_line(b"\n", 0));
    assert_eq!(done(rle_line(b"!", 0)), expected);
    assert_eq!(done(parse_line(b"!\n", 0)), LineParse::RLELine(expected.clone()));
    assert_eq!(parse_file(b"!\n").0, ParseOut::RLE(expected.clone()));
    assert_eq!(parse_file(b"!\n\n").0, ParseOut::RLE(expected.clone()));
}

#[test]
fn build_test_expand_rle() {
    assert_eq!(expand_rle(&[(1, 1)]), vec![1]);
    assert_eq!(expand_rle(&[(2, 1)]), vec![1, 1]);
    assert_eq!(expand_rle(&[(1, 2), (1, 1)]), vec![2, 1]);
    assert_eq!(expand_rle(&[(1, 1), (1, 2), (2, 1)]), vec![1, 2, 1, 1]);
    assert_eq!(expand_rle(&[(3, 1), (2, 2), (1, 1)]), vec![1, 1, 1, 2, 2, 1]);
}

#[test]
fn build_rle_test_expand_rle() {
    assert_eq!(expand_rle(&[(1, 1)]), [1]);
    assert_eq!(expand_rle(&[(2, 1)]), [1, 1]);
    assert_eq!(expand_rle(&[(1, 2), (1, 1)]), [2, 1]);
    assert_eq!(expand_rle(&[(1, 1), (1, 2), (2, 1)]), [1, 2, 1, 1]);
    assert_eq!(expand_rle(&[(3, 1), (2, 2), (1, 1)]), [1, 1, 1, 2, 2, 1]);
}

#[test]
fn build_leaf() {

    let tokens0 = vec![
        (1, RLEToken::State(Dead)),
        (1, RLEToken::State(Alive)),
        (1, EndLine),
        (1, RLEToken::State(Alive)),
        (1, EndBlock),
    ];
    let tokens1 = vec![
        (3, RLEToken::State(Alive)),
        (1, EndLine),
        (1, EndLine),
        (1, RLEToken::State(Alive)),
        (1, EndBlock),
    ];
    let tokens2 = vec![(1, EndBlock)];

    Hashlife::with_new(|mut hl| {
        assert_eq!(block_from_rle(&mut hl, &tokens0), Ok(Block::Leaf(0x12)));
        let node = hl
            .raw_node([[Block::Leaf(0x03), Block::Leaf(0x01)], [Block::Leaf(0x01), Block::Leaf(0x00)]])
            .unwrap();
        assert_eq!(block_from_rle(&mut hl, &tokens1), Ok(Block::Node(node)));
        assert_eq!(block_from_rle(&mut hl, &tokens2), Ok(Block::Leaf(0x00)));
    });
}

#[test]
fn test_build_examples() {

    let tokens0 = [
        (1, RLEToken::State(Dead)),
        (1, RLEToken::State(Alive)),
        (1, EndLine),
        (1, RLEToken::State(Alive)),
        (1, EndBlock),
    ];
    let tokens1 = [
        (3, RLEToken::State(Alive)),
        (1, EndLine),
        (1, EndLine),
        (1, RLEToken::State(Alive)),
        (1, EndBlock),
    ];
    let tokens2 = [(1, EndBlock)];
    let tokens3 = [
        (1, RLEToken::State(Dead)),
        (1, RLEToken::State(Dead)),
        (1, EndLine),
        (1, RLEToken::State(Dead)),
        (1, RLEToken::State(Dead)),
        (1, EndBlock),
    ];

    Hashlife::with_new(|mut hl| {
        assert_eq!(block_from_rle(&mut hl, &tokens0), Ok(Block::Leaf(0x12)));
        let node = hl
            .raw_node([[Block::Leaf(0x03), Block::Leaf(0x01)], [Block::Leaf(0x01), Block::Leaf(0x00)]])
            .unwrap();
        assert_eq!(block_from_rle(&mut hl, &tokens1), Ok(Block::Node(node)));
        assert_eq!(block_from_rle(&mut hl, &tokens2), Ok(Block::Leaf(0x00)));
        assert_eq!(block_from_rle(&mut hl, &[(1, EndLine), (1, EndBlock)]), Ok(Block::Leaf(0x00)));
        assert_eq!(block_from_rle(&mut hl, &tokens3), Ok(Block::Leaf(0x00)));
    });
}

#[test]
fn test_block_from_bytes() {
    Hashlife::with_new(|mut hl| {
        assert!(hl.raw_block_from_bytes(b"bbo$boo$bbo!").is_ok());
        assert_eq!(hl.raw_block_from_bytes(b"$!"), Ok(Block::Leaf(0)));
        let longer_test = b"x = 2, y = 2, rule = B3/S23\nbb$bb!";
        assert_eq!(hl.raw_block_from_bytes(longer_test), Ok(Block::Leaf(0)));
        assert_eq!(hl.raw_block_from_bytes(b"3o"), Err(()));
        let double_header = b"x=2,y=2,rule=B3/S23\nx=2,y=2,rule=B3/S23\nbb$bb!";
        assert_eq!(hl.raw_block_from_bytes(double_header), Err(()));

        let rle8 = hl.raw_block_from_bytes(b"x=8,y=8,rule=B3/S23\nbo$2bo$3o2$3o$2bo$bo!");
        let mc8 = hl.raw_block_from_bytes(b"[M2]\n.*$..*$***$$***$..*$.*$$\n");
        assert!(rle8.is_ok());
        assert_eq!(rle8, mc8);
        let mc16 = hl.raw_block_from_bytes(b"[M2]\n.*$..*$***$$$$$$\n4 1 1 0 1");
        let rle16 =
            hl.raw_block_from_bytes(b"x=16,y=16,rule=B3/S23\nbo7bo$2bo7bo$3o5b3o6$9bo$10bo$8b3o!");
        assert!(mc16.is_ok());
        assert_eq!(mc16, rle16);
    });
}

#[test]
fn test_empty_rle() {
    Hashlife::with_new(|mut hl| {
        hl.raw_block_from_bytes(b"!\n").unwrap();
    });
}

#[test]
fn test_round_trip() {
    let tests: [&str; 3] = ["!\n", "5bo!\n", "2$o!\n"];

    Hashlife::with_new(|mut hl| {
        for &test in &tests {
            let block = hl.rle(test).unwrap();
            let reformatted = format_rle(&block, &hl);
            println!("{} -> {}", test, reformatted);
            assert_eq!(Ok(block), hl.block_from_bytes(reformatted.as_bytes()));
        }
    });
}

#[test]
fn write_test_instances() {
    Hashlife::with_new(|mut hl| {
        let b0 = hl.leaf(0x03);
        assert_eq!(format_rle(&b0, &hl), "x = 2, y = 1, rule = B3/S23\n2o!\n");
        let b1 = hl.node_block([[b0, b0], [b0, b0]]).unwrap();
        assert_eq!(format_rle(&b1, &hl), "x = 4, y = 3, rule = B3/S23\n4o2$4o!\n");
    });
}

#[test]
fn test_instances() {
    Hashlife::with_new(|mut hl| {
        let row = hl.leaf(0x03);
        let dead = hl.leaf(0x00);
        let b0 = hl.node_block([[row, row], [dead, dead]]).unwrap();
        assert_eq!(format_rle(&b0, &hl), "x = 4, y = 1, rule = B3/S23\n4o!\n");
        let b1 = hl.node_block([[b0, b0], [b0, b0]]).unwrap();
        assert_eq!(format_rle(&b1, &hl), "x = 8, y = 5, rule = B3/S23\n8o4$8o!\n");
    });
}

#[test]
fn blank_round_trip() {
    let mut hl = Hashlife::new();
    let dead = hl.rle("!\n").unwrap();
    assert_eq!(dead.to_raw(), Block::Leaf(0));
    let text = format_rle(&dead, &hl);
    assert_eq!(text, "x = 0, y = 1, rule = B3/S23\n!\n");
    assert_eq!(hl.rle(&text).unwrap(), dead);
}

#[test]
fn round_trip_of_larger_patterns() {
    let mut hl = Hashlife::new();
    for source in [
        "bo$2bo$3o!",
        "3$2b3o!",
        "2b3o3b3o2$o4bobo4bo$o4bobo4bo$o4bobo4bo$2b3o3b3o2$2b3o3b3o$o4bobo4bo$o4bobo4bo$o4bobo4bo2$2b3o3b3o!",
        "40bo$o!",
        "o39$o!",
    ] {
        let block = hl.rle(source).unwrap();
        let text = format_rle(&block, &hl);
        let back = hl.rle(&text).unwrap();
        let a = hlife::global::Pattern::new(block);
        let b = hlife::global::Pattern::new(back);
        assert!(a.eq(&b, &mut hl).unwrap());
        assert_eq!(raw_format_rle(&block.to_raw(), &hl), text);
    }
}

#[test]
fn long_output_is_broken_into_lines() {
    let mut hl = Hashlife::new();
    let mut source = String::new();
    for _ in 0..30 {
        source.push_str("obobobo$bobobob$");
    }
    source.push('!');
    let block = hl.rle(&source).unwrap();
    let text = format_rle(&block, &hl);
    let lines: Vec<&str> = text.lines().collect();
    assert!(lines.len() > 3);
    assert_eq!(lines[0], "x = 7, y = 60, rule = B3/S23");
    for line in &lines[1..] {
        assert!(line.len() <= 79);
        assert!(line.len() >= 1);
    }
    assert!(lines[1].len() >= 78);
    assert!(text.ends_with("!\n"));
    assert_eq!(hl.rle(&text).unwrap(), block);
}

#[test]
fn scanners_and_numbers() {
    assert_eq!(space(b"  \t x", 0), 4);
    assert_eq!(space(b"x", 0), 0);
    assert_eq!(space(b" \n", 0), 1);
    assert_eq!(not_line_ending(b"abc\r\ndef", 0), 3);
    assert_eq!(not_line_ending(b"abc", 1), 3);
    assert_eq!(uint(b"123x", 0), Some((123, 3)));
    assert_eq!(uint(b"x123", 0), None);
    assert_eq!(uint(b"x123", 1), Some((123, 4)));
    assert_eq!(uint(b"007", 0), Some((7, 3)));
    assert_eq!(uint(b"18446744073709551615", 0), Some((u64::MAX, 20)));
    assert_eq!(uint(b"18446744073709551616", 0), None);
    assert_eq!(uint(b"99999999999999999999999", 0), None);
    assert_eq!(opt_num(b"12o", 0), (12, 2));
    assert_eq!(opt_num(b"o", 0), (1, 0));
    assert_eq!(rle_cell_state(b"b", 0), Some((State::Dead, 1)));
    assert_eq!(rle_cell_state(b"o", 0), Some((State::Alive, 1)));
    assert_eq!(rle_cell_state(b"$", 0), None);
    assert_eq!(rle_token(b"$", 0), Some((RLEToken::EndLine, 1)));
    assert_eq!(rle_token(b"!", 0), Some((RLEToken::EndBlock, 1)));
    assert_eq!(rle_token(b"x", 0), None);
    assert_eq!(rle_token(b"", 0), None);
    assert_eq!(line_ending(b"\n", 0), Some(1));
    assert_eq!(line_ending(b"\r\n", 0), Some(2));
    assert_eq!(line_ending(b"\r", 0), None);
    assert_eq!(line_ending(b"x\n", 0), None);
}

#[test]
fn lines_that_do_not_parse() {
    assert_eq!(rle_line(b"", 0), None);
    assert_eq!(rle_line(b"3", 0), None);
    assert_eq!(rle_line(b" o", 0), None);
    assert_eq!(done(rle_line(b"o x", 0)), vec![(1, RLEToken::State(State::Alive))]);
    assert_eq!(parse_line(b"o x\n", 0), None);
    assert_eq!(parse_line(b"3o2\n", 0), None);
    assert_eq!(parse_line(b"o", 0), None);
    assert_eq!(rle_meta(b"x = 3, y = 8", 0), None);
    assert_eq!(rle_meta(b"x = , y = 8, rule = B3/S23", 0), None);
    assert_eq!(rle_meta(b"y = 3, x = 8, rule = B3/S23", 0), None);
    assert_eq!(mc_header(b"[M3]", 0), None);
    assert_eq!(mc_header(b"[M2", 0), None);
    assert_eq!(mc_header(b"[M2] (golly 2.0)\n", 0), Some(16));
    assert_eq!(mc_leaf(b".*$..*$***$$$$$", 0), None);
    assert_eq!(mc_leaf(b".*$..*$***$$$$$$$", 0).map(|(_, end)| end), Some(16));
    assert_eq!(mc_node(b"4 1 1 0 1", 0), Some((MCNode(4, 1, 1, 0, 1), 9)));
    assert_eq!(mc_node(b"4 1 1 0 1  \n", 0), Some((MCNode(4, 1, 1, 0, 1), 11)));
    assert_eq!(mc_node(b"4  1\t1 0 10x", 0), Some((MCNode(4, 1, 1, 0, 10), 11)));
    assert_eq!(mc_node(b"4 1 1 0", 0), None);
    assert_eq!(mc_node(b"4,1,1,0,1", 0), None);
    assert_eq!(done(mc_line(b"5 0 2 3 4", 0)), MCLine::Node(MCNode(5, 0, 2, 3, 4)));
    assert_eq!(parse_file(b"o!\nxyz\n"), (ParseOut::RLE(vec![(1, RLEToken::State(State::Alive)), (1, RLEToken::EndBlock)]), 3));
    assert_eq!(parse_file(b""), (ParseOut::Fail, 0));
    assert_eq!(parse_file(b"# only a comment\n"), (ParseOut::Fail, 17));
    assert_eq!(parse_file(b"[M2]\nbo!\n").0, ParseOut::Fail);
    assert_eq!(parse_file(b"bo!\n[M2]\n").0, ParseOut::Fail);
    assert_eq!(parse_file(b"bo!\n4 1 1 0 1\n").0, ParseOut::Fail);
    assert_eq!(parse_file(b"[M2]\n[M2]\n").0, ParseOut::Fail);
    assert_eq!(parse_file(b"# c\n[M2]\n# c\n4 0 0 0 0\n").0, ParseOut::MC(vec![MCLine::Node(MCNode(4, 0, 0, 0, 0))]));
    assert_eq!(parse_file(b"o$\r\no!\r\n").0, ParseOut::RLE(vec![
        (1, RLEToken::State(State::Alive)),
        (1, RLEToken::EndLine),
        (1, RLEToken::State(State::Alive)),
        (1, RLEToken::EndBlock)
    ]));
}

#[test]
fn files_that_give_no_block() {
    let mut hl = Hashlife::new();
    assert_eq!(hl.raw_block_from_bytes(b""), Err(()));
    assert_eq!(hl.raw_block_from_bytes(b"# nothing"), Err(()));
    assert_eq!(hl.raw_block_from_bytes(b"3o$x!"), Err(()));
    assert_eq!(hl.raw_block_from_bytes(b"[M2]"), Err(()));
    assert_eq!(hl.raw_block_from_bytes(b"[M2]\n4 1 0 0 0"), Err(()));
    assert_eq!(hl.raw_block_from_bytes(b"[M2]\n.*$..*$***$$$$$$\n4 2 0 0 0"), Err(()));
    assert_eq!(hl.raw_block_from_bytes(b"[M2]\n.*$..*$***$$$$$$\n5 1 0 0 0"), Err(()));
    assert_eq!(hl.raw_block_from_bytes(b"[M2]\n1 0 0 0 0"), Err(()));
    assert_eq!(hl.raw_rle("o!x"), Err(()));
    assert!(hl.block_from_bytes(b"3o").is_err());
    assert!(hl.rle("3o").is_err());
    let blank = hl.raw_blank(4).unwrap();
    assert_eq!(hl.raw_block_from_bytes(b"[M2]\n4 0 0 0 0"), Ok(blank));
    let two = hl.raw_blank(2).unwrap();
    assert_eq!(hl.raw_block_from_bytes(b"[M2]\n2 0 0 0 0"), Ok(two));
}

#[test]
fn macrocell_lines_build_blocks() {
    let mut hl = Hashlife::new();
    let leaf = MCLine::Leaf(MCLeaf(vec![
        vec![State::Alive; 9],
        vec![],
        vec![State::Dead, State::Alive],
        vec![],
        vec![],
        vec![],
        vec![],
        vec![State::Alive],
    ]));
    let built = build_mc(&mut hl, &[leaf.clone()]).unwrap();
    assert_eq!(built.lg_size(), 3);
    assert_eq!(built, hl.rle("8o2$bo5$o!").unwrap());
    let node = MCLine::Node(MCNode(4, 1, 0, 0, 1));
    let big = build_mc(&mut hl, &[leaf.clone(), node]).unwrap();
    assert_eq!(big.lg_size(), 4);
    assert_eq!(big, hl.rle("8o2$bo5$o$8b8o2$9bo5$8bo!").unwrap());
    assert_eq!(build_mc(&mut hl, &[]), Err(()));
    assert_eq!(build_mc(&mut hl, &[MCLine::Leaf(MCLeaf(vec![vec![]; 7]))]), Err(()));
    assert_eq!(build_mc(&mut hl, &[MCLine::Node(MCNode(4, 1, 1, 1, 1))]), Err(()));
    assert_eq!(build_mc(&mut hl, &[leaf, MCLine::Node(MCNode(3, 1, 1, 0, 1))]), Err(()));
}

#[test]
fn matrices_and_tokens() {
    assert_eq!(
        tokens_to_matrix(&[RLEToken::State(Alive), RLEToken::EndLine, RLEToken::EndLine, RLEToken::State(Dead), RLEToken::EndBlock, RLEToken::State(Alive)]),
        Ok(vec![vec![Alive], vec![], vec![Dead]])
    );
    assert_eq!(tokens_to_matrix(&[RLEToken::State(Alive), RLEToken::EndLine]), Err(()));
    assert_eq!(tokens_to_matrix(&[]), Err(()));
    let rows: [&[State]; 2] = [&[Dead, Alive], &[Alive, Alive]];
    assert_eq!(states_to_leaf(&rows), 0x32);
    let wide: [&[u8]; 3] = [&[1, 2, 3, 4], &[5, 6, 7, 8], &[9, 10, 11, 12]];
    assert_eq!(submatrix(&wide, 1..3, 1..3), vec![&[6u8, 7][..], &[10, 11][..]]);
    assert_eq!(submatrix(&wide, 0..0, 1..3), Vec::<&[u8]>::new());
    let mut hl = Hashlife::new();
    let square: Vec<&[State]> = vec![&[Alive, Dead, Dead, Dead], &[Dead; 4], &[Dead; 4], &[Dead, Dead, Dead, Alive]];
    let block = block_from_matrix(&mut hl, 1, square).unwrap();
    assert_eq!(block, hl.raw_rle("o3$3bo!").unwrap());
    assert_eq!(leaf_to_matrix(0x12), [[Dead, Alive], [Alive, Dead]]);
    assert_eq!(merge_rows(vec![vec![1], vec![2]], vec![vec![3]]), vec![vec![1], vec![2], vec![3]]);
    assert_eq!(merge_columns(vec![vec![1], vec![2, 3]], vec![vec![4, 5], vec![6]]), vec![vec![1, 4, 5], vec![2, 3, 6]]);
    assert_eq!(
        block_to_matrix(&block, &hl),
        vec![vec![Alive, Dead, Dead, Dead], vec![Dead; 4], vec![Dead; 4], vec![Dead, Dead, Dead, Alive]]
    );
    assert_eq!(row_tokens(&vec![Dead, Alive, Alive, Dead, Alive, Dead, Dead]), (
        vec![(1, RLEToken::State(Dead)), (2, RLEToken::State(Alive)), (1, RLEToken::State(Dead)), (1, RLEToken::State(Alive))],
        5
    ));
    assert_eq!(row_tokens(&vec![Dead, Dead]), (vec![], 0));
    let data = matrix_to_rle(vec![vec![Dead; 3], vec![Dead, Alive, Dead], vec![Dead; 3], vec![Dead; 3], vec![Alive; 3], vec![Dead; 3]]);
    assert_eq!(data.rle, vec![
        (1, RLEToken::EndLine),
        (1, RLEToken::State(Dead)),
        (1, RLEToken::State(Alive)),
        (3, RLEToken::EndLine),
        (3, RLEToken::State(Alive)),
        (1, RLEToken::EndBlock)
    ]);
    assert_eq!(data.xsize, 3);
    assert_eq!(data.ysize, 5);
    assert_eq!(rle_to_string(data), "x = 3, y = 5, rule = B3/S23\n$bo3$3o!\n");
    let numbers = RLEData { rle: vec![(0, RLEToken::State(Dead)), (10, RLEToken::State(Alive)), (1234567, RLEToken::EndLine)], xsize: 100, ysize: 0 };
    assert_eq!(rle_to_bytes(&numbers), b"x = 100, y = 0, rule = B3/S23\n0b10o1234567$\n".to_vec());
}
