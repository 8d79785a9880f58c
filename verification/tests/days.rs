use ebc_2024::day_01::Day01;
use ebc_2024::day_02::Day02;
use ebc_2024::day_04::Day04;
use ebc_2024::day_05::Day05;
use ebc_2024::day_06::{Day06, Node};
use ebc_2024::day_07::{Command, Device};
use ebc_2024::day_11::Day11;
use ebc_2024::day_16::{Day16, Wheel};
use ebc_2024::errors::SolveError;

#[test]
fn potions_for_full_triple() {
    // Three monsters, no empty slots: two extra potions per monster.
    let group = ['B', 'C', 'D'];
    assert_eq!(Day01::potions_needed(&group), (1 + 2) + (3 + 2) + (5 + 2));
}

#[test]
fn potions_for_single_battles() {
    let mut day = Day01::new();
    let line: Vec<char> = "ABBxCD".chars().collect();
    day.parse(&line);
    assert_eq!(day.part1(), 0 + 1 + 1 + 0 + 3 + 5);
}

#[test]
fn potions_for_pairs() {
    let mut day = Day01::new();
    let line: Vec<char> = "AxBC".chars().collect();
    day.parse(&line);
    // "Ax": one empty slot, no extra; "BC": full pair, one extra each.
    assert_eq!(day.part2(), 0 + (1 + 1) + (3 + 1));
}

#[test]
fn runes_found_at_position() {
    let mut day = Day02::new();
    day.add_word(b"THE".to_vec());
    day.add_line(b"THEREISATHE".to_vec());
    assert!(day.word_starts_at(0, 0));
    assert!(!day.word_starts_at(0, 1));
    assert!(day.word_starts_at(0, 8));
}

#[test]
fn nails_level_to_lowest() {
    let mut day = Day04::new();
    day.push_nail(3);
    day.push_nail(1);
    day.push_nail(5);
    assert_eq!(day.min_height(), 1);
    assert_eq!(day.level(), 2 + 0 + 4);
    assert_eq!(day.level_to(0), 3 + 1 + 5);
}

#[test]
fn clapper_moves_between_columns() {
    let mut day = Day05::new();
    day.push_column(vec![2, 4, 5]);
    day.push_column(vec![3, 4, 5]);
    day.round(1);
    // Clapper 2 leaves column 0; cycle is 6, position (2-1)%6 = 1, left
    // side: inserted before index 1 of column 1.
    assert_eq!(day.front(0), 4);
    assert_eq!(day.front(1), 3);
}

#[test]
fn node_parents() {
    let root = Node::Root { children: vec![1] };
    let fruit = Node::Fruit { parent: 0, depth: 1 };
    assert_eq!(root.parent(), None);
    assert_eq!(fruit.parent(), Some(0));
    let mut day = Day06::new();
    let r = day.push_node(root);
    assert_eq!(r, 0);
    day.push_node(fruit);
    assert!(day.reaches_root(1, 5));
}

#[test]
fn device_steps_accumulate() {
    let mut d = Device { total: 0, name: b"A".to_vec(), val: 10, commands: vec![Command::Inc, Command::Dec] };
    d.step(0, None);
    assert_eq!(d.val, 11);
    assert_eq!(d.total, 11);
    d.step(1, None);
    assert_eq!(d.val, 10);
    assert_eq!(d.total, 21);
    d.step(2, Some(Command::Dec));
    assert_eq!(d.val, 9);
    assert_eq!(d.total, 30);
    d.reset();
    assert_eq!(d.total, 0);
    assert_eq!(d.val, 10);
}

#[test]
fn unsolved_day_reports_unsolved() {
    let day = Day11::new();
    assert_eq!(day.run_part(1), Err(SolveError::Unsolved));
    assert_eq!(day.run_part(2), Err(SolveError::Unsolved));
    assert_eq!(day.run_part(3), Err(SolveError::Unsolved));
}

#[test]
fn wheel_slots_read_back() {
    let mut w = Wheel::new(3);
    let mut table: Vec<u8> = Vec::new();
    w.add_slot(b" ^_^ ", &mut table);
    w.add_slot(b">_< ", &mut table);
    w.add_slot(b"   ", &mut table);
    // Ids are dense first-encounter: '^' -> 0, '>' -> 1, '<' -> 2; the
    // blank face is skipped.
    let (face, pair) = w.get(0);
    assert_eq!(face, &b"^_^".to_vec());
    assert_eq!(pair, &[0u8, 0u8]);
    let (face, pair) = w.get(1);
    assert_eq!(face, &b">_<".to_vec());
    assert_eq!(pair, &[1u8, 2u8]);
    assert_eq!(table, b"^><".to_vec());
    let mut day = Day16::new();
    day.push_wheel(w);
}

#[test]
fn wheel_sequence_and_score() {
    let mut day = Day16::new();
    let mut table: Vec<u8> = Vec::new();
    for _ in 0..3 {
        let mut w = Wheel::new(1);
        w.add_slot(b"^_^", &mut table);
        w.add_slot(b">_<", &mut table);
        day.push_wheel(w);
    }
    let offset = [0u8; 12];
    assert_eq!(day.sequence(&offset), b"^_^ ^_^ ^_^".to_vec());
    // '^' occurs six times: score 6 - 2 = 4.
    assert_eq!(day.score(&offset), 4);
    let offset2 = [0u8, 0, 1, 0, 0, 0, 0, 0, 0, 0, 0, 0];
    // '^' four times (pays 2), '>' once, '<' once (pay nothing).
    assert_eq!(day.score(&offset2), 2);
}
