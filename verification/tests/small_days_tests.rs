use aoc22::day10::{parse_instructions, render_screen, Instruction};
use aoc22::day11::{decrease_worry_with_ppcm, monkey_business, Monkey, Op, Operand, Operation, WorryRule};
use aoc22::day2::{score_v1, score_v2, Outcome, RPS};
use aoc22::day3::item_priority;
use aoc22::day4::get_pairs_of_sections;
use aoc22::day6::find_marker_position;
use aoc22::day7::join_dir;
use aoc22::day1::day1_1;
use aoc22::day13::PacketOrder;
use aoc22::day9::{parse_steps, rope_physics_step, towards, Coord, Step};
use aoc22::parsing::{find_byte, parse_i64, parse_u64};
use std::collections::VecDeque;

#[test]
fn rps_from_int_wraps_around() {
    assert_eq!(RPS::from_int(1), Some(RPS::Rock));
    assert_eq!(RPS::from_int(2), Some(RPS::Paper));
    assert_eq!(RPS::from_int(3), Some(RPS::Scissor));
    assert_eq!(RPS::from_int(4), Some(RPS::Rock));
    assert_eq!(RPS::from_int(0), Some(RPS::Scissor));
    assert_eq!(RPS::from_int(5), None);
}

#[test]
fn scores_read_as_shape() {
    assert_eq!(score_v1(RPS::Rock, "Y"), 8);
    assert_eq!(score_v1(RPS::Paper, "X"), 1);
    assert_eq!(score_v1(RPS::Scissor, "Z"), 6);
}

#[test]
fn scores_read_as_outcome() {
    assert_eq!(score_v2(RPS::Rock, "Y"), 4);
    assert_eq!(score_v2(RPS::Paper, "X"), 1);
    assert_eq!(score_v2(RPS::Scissor, "Z"), 7);
}

#[test]
fn outcome_values() {
    assert_eq!(Outcome::Lose.value(), 0);
    assert_eq!(Outcome::Draw.value(), 3);
    assert_eq!(Outcome::Win.value(), 6);
}

#[test]
fn item_priorities() {
    assert_eq!(item_priority('a'), 1);
    assert_eq!(item_priority('z'), 26);
    assert_eq!(item_priority('A'), 27);
    assert_eq!(item_priority('Z'), 52);
    assert_eq!(item_priority('?'), 0);
}

#[test]
fn section_pairs_parse_and_skip() {
    let lines: Vec<Vec<u8>> = vec![
        b"2-4,6-8".to_vec(),
        b"2-3,4-5".to_vec(),
        b"nonsense".to_vec(),
        b"6-6,4-6".to_vec(),
    ];
    assert_eq!(
        get_pairs_of_sections(&lines),
        vec![((2, 4), (6, 8)), ((2, 3), (4, 5)), ((6, 6), (4, 6))]
    );
}

#[test]
fn marker_positions_of_the_examples() {
    assert_eq!(find_marker_position(b"mjqjpqmgbljsphdztnvjfqwrcgsmlb", 4), Some(7));
    assert_eq!(find_marker_position(b"bvwbjplbgvbhsrlpgdmjqwftvncz", 4), Some(5));
    assert_eq!(find_marker_position(b"mjqjpqmgbljsphdztnvjfqwrcgsmlb", 14), Some(19));
    assert_eq!(find_marker_position(b"aaaaaa", 4), None);
    assert_eq!(find_marker_position(b"ab", 4), None);
}

#[test]
fn join_dir_handles_the_root() {
    assert_eq!(join_dir("/", "etc"), "/etc".to_string());
    assert_eq!(join_dir("/etc", "apt"), "/etc/apt".to_string());
}

#[test]
fn towards_is_the_sign() {
    assert_eq!(towards(5), 1);
    assert_eq!(towards(-3), -1);
    assert_eq!(towards(0), 0);
}

#[test]
fn rope_tail_follows_the_head() {
    assert_eq!(rope_physics_step(Coord(2, 0), Coord(0, 0)), Coord(1, 0));
    assert_eq!(rope_physics_step(Coord(2, 1), Coord(0, 0)), Coord(1, 1));
    assert_eq!(rope_physics_step(Coord(0, -2), Coord(0, 0)), Coord(0, -1));
    assert_eq!(rope_physics_step(Coord(1, 1), Coord(0, 0)), Coord(0, 0));
}

#[test]
fn steps_parse_and_skip() {
    let lines: Vec<Vec<u8>> = vec![b"R 4".to_vec(), b"U 2".to_vec(), b"".to_vec()];
    assert_eq!(
        parse_steps(&lines),
        vec![
            Step { offset: Coord(1, 0), count: 4 },
            Step { offset: Coord(0, 1), count: 2 },
        ]
    );
}

#[test]
fn instructions_apply_and_count_cycles() {
    assert_eq!(Instruction::NoOp.apply(3), 3);
    assert_eq!(Instruction::AddX(-5).apply(3), -2);
    assert_eq!(Instruction::NoOp.cycle_count(), 1);
    assert_eq!(Instruction::AddX(7).cycle_count(), 2);
}

#[test]
fn instructions_parse() {
    let lines: Vec<Vec<u8>> = vec![b"noop".to_vec(), b"addx 3".to_vec(), b"addx -5".to_vec()];
    assert_eq!(
        parse_instructions(&lines),
        vec![Instruction::NoOp, Instruction::AddX(3), Instruction::AddX(-5)]
    );
}

#[test]
fn small_program_runs_and_renders() {
    let lines: Vec<Vec<u8>> = vec![b"noop".to_vec(), b"addx 3".to_vec(), b"addx -5".to_vec()];
    let instrs = parse_instructions(&lines);
    let (part1, part2) = aoc22::day10::day10(&instrs);
    assert_eq!(part1, 0);
    assert_eq!(part2, "#####\n".to_string());
}

#[test]
fn screen_renders_sprite_overlap() {
    assert_eq!(render_screen(&[]), String::new());
    assert_eq!(render_screen(&[1]), String::new());
    assert_eq!(render_screen(&[1, 1]), "#\n".to_string());
    assert_eq!(render_screen(&[1, 1, 1, 5]), "##.\n".to_string());
}

#[test]
fn worry_decreases_with_the_product() {
    assert_eq!(decrease_worry_with_ppcm(10, 3), 4);
    assert_eq!(decrease_worry_with_ppcm(3, 3), 3);
    assert_eq!(decrease_worry_with_ppcm(2, 96577), 2);
}

#[test]
fn monkey_inspects_and_throws() {
    let mut items = VecDeque::new();
    items.push_back(79u64);
    items.push_back(98u64);
    let mut monkey = Monkey {
        items,
        operation: Operation { a: Operand::Old, op: Op::Times, b: Operand::Literal(19) },
        prime_factor: 23,
        target: (2, 3),
        inspections: 0,
    };
    assert_eq!(monkey.inspect(WorryRule::DivideByThree), Some((500, 3)));
    assert_eq!(monkey.inspections, 1);
    assert_eq!(monkey.inspect(WorryRule::DivideByThree), Some((620, 3)));
    assert_eq!(monkey.inspect(WorryRule::DivideByThree), None);
    monkey.catch(42);
    assert_eq!(monkey.items, VecDeque::from(vec![42u64]));
}

fn example_monkeys() -> Vec<Monkey> {
    let raw: [(&[u64], Operand, Op, Operand, u64, (usize, usize)); 4] = [
        (&[79, 98], Operand::Old, Op::Times, Operand::Literal(19), 23, (2, 3)),
        (&[54, 65, 75, 74], Operand::Old, Op::Plus, Operand::Literal(6), 19, (2, 0)),
        (&[79, 60, 97], Operand::Old, Op::Times, Operand::Old, 13, (1, 3)),
        (&[74], Operand::Old, Op::Plus, Operand::Literal(3), 17, (0, 1)),
    ];
    raw.iter()
        .map(|(items, a, op, b, pf, target)| Monkey {
            items: VecDeque::from(items.to_vec()),
            operation: Operation { a: *a, op: *op, b: *b },
            prime_factor: *pf,
            target: *target,
            inspections: 0,
        })
        .collect()
}

#[test]
fn twenty_rounds_of_relieved_monkeys() {
    let business = monkey_business(example_monkeys(), 20, WorryRule::DivideByThree);
    assert_eq!(business, Ok(10605));
}

#[test]
fn ten_thousand_rounds_without_relief() {
    let ppcm: u64 = 23 * 19 * 13 * 17;
    let business = monkey_business(example_monkeys(), 10000, WorryRule::Ppcm(ppcm));
    assert_eq!(business, Ok(2713310158));
}

#[test]
fn operand_reads_old_or_literal() {
    assert_eq!(Operand::Old.get(7), 7);
    assert_eq!(Operand::Literal(3).get(7), 3);
}

#[test]
fn bytes_parse_as_numbers() {
    assert_eq!(parse_u64(b"123"), Some(123));
    assert_eq!(parse_u64(b"0"), Some(0));
    assert_eq!(parse_u64(b""), None);
    assert_eq!(parse_u64(b"12a"), None);
    assert_eq!(parse_u64(b"18446744073709551615"), Some(u64::MAX));
    assert_eq!(parse_u64(b"18446744073709551616"), None);
    assert_eq!(parse_i64(b"-57"), Some(-57));
    assert_eq!(parse_i64(b"57"), Some(57));
    assert_eq!(parse_i64(b"-"), None);
}

#[test]
fn largest_calorie_group_wins() {
    let lines: Vec<Vec<u8>> = vec![
        b"1000".to_vec(),
        b"2000".to_vec(),
        b"3000".to_vec(),
        b"".to_vec(),
        b"4000".to_vec(),
        b"".to_vec(),
        b"5000".to_vec(),
        b"6000".to_vec(),
        b"".to_vec(),
        b"7000".to_vec(),
        b"8000".to_vec(),
        b"9000".to_vec(),
        b"".to_vec(),
        b"10000".to_vec(),
    ];
    assert_eq!(day1_1(&lines), Some(24000));
    let empty: Vec<Vec<u8>> = vec![b"".to_vec()];
    assert_eq!(day1_1(&empty), None);
}

#[test]
fn find_byte_returns_the_first_hit() {
    assert_eq!(find_byte(b"a b c", b' '), Some(1));
    assert_eq!(find_byte(b"abc", b' '), None);
}

fn terminal_session() -> Vec<Vec<u8>> {
    let text: [&str; 23] = [
        "$ cd /",
        "$ ls",
        "dir a",
        "14848514 b.txt",
        "8504156 c.dat",
        "dir d",
        "$ cd a",
        "$ ls",
        "dir e",
        "29116 f",
        "2557 g",
        "62596 h.lst",
        "$ cd e",
        "$ ls",
        "584 i",
        "$ cd ..",
        "$ cd ..",
        "$ cd d",
        "$ ls",
        "4060174 j",
        "8033020 d.log",
        "5626152 d.ext",
        "7214296 k",
    ];
    text.iter().map(|l| l.as_bytes().to_vec()).collect()
}

#[test]
fn directory_index_follows_the_walk() {
    let lines = terminal_session();
    let index = aoc22::day7::create_dir_index(&lines);
    let names: Vec<(String, usize)> = index
        .iter()
        .map(|d| (String::from_utf8(d.full_name.clone()).unwrap(), d.line))
        .collect();
    assert_eq!(
        names,
        vec![
            ("/".to_string(), 0),
            ("/a".to_string(), 6),
            ("/a/e".to_string(), 12),
            ("/d".to_string(), 17),
        ]
    );
}

#[test]
fn directory_sizes_sum_children_first() {
    let lines = terminal_session();
    let index = aoc22::day7::create_dir_index(&lines);
    let sizes = aoc22::day7::compute_sizes(&lines, index);
    let named: Vec<(String, usize)> = sizes
        .iter()
        .map(|(n, s)| (String::from_utf8(n.clone()).unwrap(), *s))
        .collect();
    assert_eq!(
        named,
        vec![
            ("/d".to_string(), 24933642),
            ("/a/e".to_string(), 584),
            ("/a".to_string(), 94853),
            ("/".to_string(), 48381165),
        ]
    );
}

fn plist(v: Vec<aoc22::day13::Packet>) -> aoc22::day13::Packet {
    aoc22::day13::Packet::List(v)
}

fn pint(n: u32) -> aoc22::day13::Packet {
    aoc22::day13::Packet::Int(n)
}

#[test]
fn packets_compare_by_the_distress_rules() {
    // [1,1,3,1,1] vs [1,1,5,1,1]
    let a = plist(vec![pint(1), pint(1), pint(3), pint(1), pint(1)]);
    let b = plist(vec![pint(1), pint(1), pint(5), pint(1), pint(1)]);
    assert_eq!(a.cmp(&b), PacketOrder::Less);
    // [[1],[2,3,4]] vs [[1],4]
    let a = plist(vec![plist(vec![pint(1)]), plist(vec![pint(2), pint(3), pint(4)])]);
    let b = plist(vec![plist(vec![pint(1)]), pint(4)]);
    assert_eq!(a.cmp(&b), PacketOrder::Less);
    // [9] vs [[8,7,6]]
    let a = plist(vec![pint(9)]);
    let b = plist(vec![plist(vec![pint(8), pint(7), pint(6)])]);
    assert_eq!(a.cmp(&b), PacketOrder::Greater);
    // [[4,4],4,4] vs [[4,4],4,4,4]
    let a = plist(vec![plist(vec![pint(4), pint(4)]), pint(4), pint(4)]);
    let b = plist(vec![plist(vec![pint(4), pint(4)]), pint(4), pint(4), pint(4)]);
    assert_eq!(a.cmp(&b), PacketOrder::Less);
    // [7,7,7,7] vs [7,7,7]
    let a = plist(vec![pint(7), pint(7), pint(7), pint(7)]);
    let b = plist(vec![pint(7), pint(7), pint(7)]);
    assert_eq!(a.cmp(&b), PacketOrder::Greater);
    // [] vs [3]
    assert_eq!(plist(vec![]).cmp(&plist(vec![pint(3)])), PacketOrder::Less);
    // [[[]]] vs [[]]
    let a = plist(vec![plist(vec![plist(vec![])])]);
    let b = plist(vec![plist(vec![])]);
    assert_eq!(a.cmp(&b), PacketOrder::Greater);
    // equal packets
    let a = plist(vec![pint(2), plist(vec![pint(5)])]);
    let b = plist(vec![pint(2), plist(vec![pint(5)])]);
    assert_eq!(a.cmp(&b), PacketOrder::Equal);
    assert_eq!(pint(6).cmp(&pint(6)), PacketOrder::Equal);
}
