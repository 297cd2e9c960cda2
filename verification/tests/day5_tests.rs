use aoc22::day5::{Instruction, StackError, Stacks};

fn example_stacks() -> Stacks {
    let lines: Vec<Vec<u8>> = vec![
        b"    [D]    ".to_vec(),
        b"[N] [C]    ".to_vec(),
        b"[Z] [M] [P]".to_vec(),
        b" 1   2   3 ".to_vec(),
    ];
    match Stacks::parse(lines) {
        Ok(st) => st,
        Err(_) => panic!("bad test drawing"),
    }
}

#[test]
fn drawing_parses_into_stacks() {
    let st = example_stacks();
    assert_eq!(st.stacks.len(), 3);
    assert_eq!(st.stacks[0], vec!['Z', 'N']);
    assert_eq!(st.stacks[1], vec!['M', 'C', 'D']);
    assert_eq!(st.stacks[2], vec!['P']);
}

#[test]
fn short_drawing_line_is_refused() {
    let lines: Vec<Vec<u8>> = vec![b"[N] [C]    ".to_vec(), b"[Z]".to_vec()];
    assert!(matches!(Stacks::parse(lines), Err(StackError::BadInput)));
}

#[test]
fn tops_of_the_example() {
    let st = example_stacks();
    assert_eq!(st.top(), "NDP".to_string());
}

#[test]
fn crane_9000_reverses_what_it_moves() {
    let mut st = example_stacks();
    assert!(st.apply_9000(Instruction { count: 1, source: 1, dest: 0 }).is_ok());
    assert_eq!(st.stacks[0], vec!['Z', 'N', 'D']);
    assert!(st.apply_9000(Instruction { count: 3, source: 0, dest: 2 }).is_ok());
    assert_eq!(st.stacks[0], Vec::<char>::new());
    assert_eq!(st.stacks[2], vec!['P', 'D', 'N', 'Z']);
    assert!(st.apply_9000(Instruction { count: 2, source: 1, dest: 0 }).is_ok());
    assert!(st.apply_9000(Instruction { count: 1, source: 0, dest: 1 }).is_ok());
    assert_eq!(st.top(), "CMZ".to_string());
}

#[test]
fn crane_9000_fails_on_an_exhausted_stack() {
    let mut st = example_stacks();
    assert!(matches!(
        st.apply_9000(Instruction { count: 4, source: 2, dest: 0 }),
        Err(StackError::BadInput)
    ));
    assert_eq!(st.stacks[2], Vec::<char>::new());
    assert_eq!(st.stacks[0], vec!['Z', 'N', 'P']);
}

#[test]
fn crane_9001_keeps_the_order() {
    let mut st = example_stacks();
    assert!(st.apply_9001(Instruction { count: 1, source: 1, dest: 0 }).is_ok());
    assert_eq!(st.stacks[0], vec!['Z', 'N', 'D']);
    assert!(st.apply_9001(Instruction { count: 3, source: 0, dest: 2 }).is_ok());
    assert_eq!(st.stacks[2], vec!['P', 'Z', 'N', 'D']);
    assert!(st.apply_9001(Instruction { count: 2, source: 1, dest: 0 }).is_ok());
    assert!(st.apply_9001(Instruction { count: 1, source: 0, dest: 1 }).is_ok());
    assert_eq!(st.top(), "MCD".to_string());
}

fn example_input() -> Vec<Vec<u8>> {
    vec![
        b"    [D]    ".to_vec(),
        b"[N] [C]    ".to_vec(),
        b"[Z] [M] [P]".to_vec(),
        b" 1   2   3 ".to_vec(),
        b"".to_vec(),
        b"move 1 from 2 to 1".to_vec(),
        b"move 3 from 1 to 3".to_vec(),
        b"move 2 from 2 to 1".to_vec(),
        b"move 1 from 1 to 2".to_vec(),
    ]
}

#[test]
fn whole_puzzle_with_the_older_crane() {
    assert_eq!(aoc22::day5::day5_1(example_input()), Ok("CMZ".to_string()));
}

#[test]
fn whole_puzzle_with_the_newer_crane() {
    assert_eq!(aoc22::day5::day5_2(example_input()), Ok("MCD".to_string()));
}

#[test]
fn overdrawn_instruction_fails_the_run() {
    let mut lines = example_input();
    lines.push(b"move 9 from 1 to 2".to_vec());
    assert_eq!(
        aoc22::day5::day5_1(lines.clone()),
        Err(aoc22::day5::StackError::BadInput)
    );
    assert_eq!(aoc22::day5::day5_2(lines), Err(aoc22::day5::StackError::BadInput));
}

#[test]
fn instruction_lines_parse() {
    assert_eq!(
        aoc22::day5::parse_instruction(b"move 12 from 3 to 1"),
        Some(Instruction { count: 12, source: 2, dest: 0 })
    );
    assert_eq!(aoc22::day5::parse_instruction(b"move x from 3 to 1"), None);
}
