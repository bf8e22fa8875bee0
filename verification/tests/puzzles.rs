use std::collections::VecDeque;

use hillpath::monkeys::Monkey;
use hillpath::monkeys::MonkeyBusiness;
use hillpath::monkeys::Operation;
use hillpath::monkeys::Operator;
use hillpath::monkeys::RValue;
use hillpath::monkeys::Test;
use hillpath::partialsort::partial_sort;
use hillpath::piles::Piles;
use hillpath::ranges::Range;
use hillpath::shift::CircularBuffer;
use hillpath::rucksack::Group;
use hillpath::rucksack::ItemType;
use hillpath::rucksack::Rucksack;
use hillpath::stream::Stream;

#[test]
fn partial_sort_test() {
    let mut x = vec![5, 1, 2, 9, 7, 6, 3, 1];
    partial_sort(&mut x, 3);
    println!("{:?}", x);
    assert_eq!(&x[0..4], &[9, 7, 6, 5]);
}

#[test]
fn partial_sort_prefix_dominates() {
    let mut x = vec![3, 8, 1, 8, 0, 2];
    partial_sort(&mut x, 1);
    assert_eq!(&x[0..2], &[8, 8]);
    for i in 2..x.len() {
        assert!(x[i] <= x[1]);
    }
    let mut total: usize = x.iter().sum();
    assert_eq!(total, 22);
    total -= x[0];
    assert_eq!(total + 8, 22);
}

#[test]
fn range_intersections() {
    assert_eq!(Range::new(6, 8).intersects(&Range::new(5, 9)), true);
    assert_eq!(Range::new(6, 8).intersects(&Range::new(5, 6)), true);
    assert_eq!(Range::new(6, 8).intersects(&Range::new(5, 7)), true);
    assert_eq!(Range::new(2, 6).intersects(&Range::new(3, 7)), true);
    assert_eq!(Range::new(6, 10).intersects(&Range::new(2, 5)), false);
    assert_eq!(Range::new(2, 5).intersects(&Range::new(6, 9)), false);
}

#[test]
fn range_containment_and_sizes() {
    let small = Range::new(4, 6);
    let big = Range::new(2, 8);
    assert!(big.contains(&small));
    assert!(!small.contains(&big));
    assert_eq!(small.size(), 2);
    assert_eq!(big.size(), 6);
    let (first, second) = big.size_pair(&small);
    assert_eq!(first.size(), 2);
    assert_eq!(second.size(), 6);
}

#[test]
fn circular_buffer_ages_entries() {
    let mut buffer: CircularBuffer<3, u32> = CircularBuffer::from_array([10, 20, 30]);
    assert_eq!(*buffer.ith_newest(0), 10);
    assert_eq!(*buffer.ith_oldest(0), 30);
    assert_eq!(*buffer.oldest(), 30);
    buffer.push(40);
    assert_eq!(*buffer.ith_newest(0), 40);
    assert_eq!(*buffer.ith_newest(1), 10);
    assert_eq!(*buffer.ith_newest(2), 20);
    assert_eq!(*buffer.oldest(), 20);
}

#[test]
fn stream_detects_distinct_window() {
    // The classic start-of-packet example: "mjqjpqmgbljsphdztnvjfqwrcgsmlb"
    // halts after seven characters.
    let mut stream = Stream::new([b'm', b'j', b'q']);
    let rest = "jpqmgbljsphdztnvjfqwrcgsmlb";
    let mut halted_at = 0;
    for c in rest.chars() {
        let halt = stream.eat(c);
        if halt {
            halted_at = stream.count();
            break;
        }
    }
    assert_eq!(halted_at, 7);
}

#[test]
fn stream_ignores_repeated_window() {
    let mut stream = Stream::new([b'a', b'b', b'c']);
    assert!(!stream.eat('a'));
    assert!(stream.eat('d'));
}

fn example_monkeys() -> Vec<Monkey> {
    vec![
        Monkey {
            items: VecDeque::from(vec![79, 98]),
            operation: Operation { operator: Operator::Mul, rvalue: RValue::Literal(19) },
            test: Test { divider: 23, if_true: 2, if_false: 3 },
        },
        Monkey {
            items: VecDeque::from(vec![54, 65, 75, 74]),
            operation: Operation { operator: Operator::Add, rvalue: RValue::Literal(6) },
            test: Test { divider: 19, if_true: 2, if_false: 0 },
        },
        Monkey {
            items: VecDeque::from(vec![79, 60, 97]),
            operation: Operation { operator: Operator::Mul, rvalue: RValue::Old },
            test: Test { divider: 13, if_true: 1, if_false: 3 },
        },
        Monkey {
            items: VecDeque::from(vec![74]),
            operation: Operation { operator: Operator::Add, rvalue: RValue::Literal(3) },
            test: Test { divider: 17, if_true: 0, if_false: 1 },
        },
    ]
}

#[test]
fn monkey_business_over_ten_thousand_rounds() {
    let mut business = MonkeyBusiness::new(example_monkeys());
    for _round in 0..10_000 {
        business.unbounded_round();
    }
    assert_eq!(business.monkey_business(), 2713310158);
}

#[test]
fn operations_and_tests() {
    let times_19 = Operation { operator: Operator::Mul, rvalue: RValue::Literal(19) };
    assert_eq!(times_19.operate(79), 1501);
    let plus_6 = Operation { operator: Operator::Add, rvalue: RValue::Literal(6) };
    assert_eq!(plus_6.operate(54), 60);
    let square = Operation { operator: Operator::Mul, rvalue: RValue::Old };
    assert_eq!(square.operate(12), 144);
    assert_eq!(square.operate_under_ring(12, 7), (144 % 7) as usize);
    let minus_3 = Operation { operator: Operator::Sub, rvalue: RValue::Literal(3) };
    assert_eq!(minus_3.operate(10), 7);
    let test = Test { divider: 23, if_true: 2, if_false: 3 };
    assert_eq!(test.test(46), 2);
    assert_eq!(test.test(47), 3);
}

#[test]
fn formula_lines() {
    let squared = hillpath::monkeys::parse_formula(b"new = old * old");
    assert_eq!(squared.operator, Operator::Mul);
    assert_eq!(squared.rvalue, RValue::Old);
    let times_19 = hillpath::monkeys::parse_formula(b"new = old * 19");
    assert_eq!(times_19.operator, Operator::Mul);
    assert_eq!(times_19.rvalue, RValue::Literal(19));
    let plus_6 = hillpath::monkeys::parse_formula(b"new = old + 6");
    assert_eq!(plus_6.operator, Operator::Add);
    assert_eq!(plus_6.rvalue, RValue::Literal(6));
}

#[test]
fn monkey_note_numbers() {
    let divider = hillpath::monkeys::parse_prefixed_number(
        b"Test: divisible by 23",
        b"Test: divisible by ",
    );
    assert_eq!(divider, 23);
    let target = hillpath::monkeys::parse_prefixed_number(
        b"If true: throw to monkey 2",
        b"If true: throw to monkey ",
    );
    assert_eq!(target, 2);
}

#[test]
fn starting_items_lines() {
    let items = hillpath::monkeys::parse_starting_items(
        b"Starting items: 54, 65, 75, 74",
        b"Starting items: ",
    );
    assert_eq!(items, VecDeque::from(vec![54, 65, 75, 74]));
    let single = hillpath::monkeys::parse_starting_items(
        b"Starting items: 79",
        b"Starting items: ",
    );
    assert_eq!(single, VecDeque::from(vec![79]));
}

#[test]
fn top_three_tracking() {
    let mut top = hillpath::calories::TopThree::new();
    for v in [100, 50, 400, 20, 300, 350] {
        top.try_insert(v);
    }
    assert_eq!(*top.most(), 400);
    assert_eq!(top.total(), 400 + 350 + 300);
}

#[test]
fn rucksack_duplicates() {
    // "vJrwpWtwJgWrhcsFMMfFFhFp": the duplicate across halves is 'p'.
    let sack = Rucksack::new(b"vJrwpWtwJgWrhcsFMMfFFhFp".to_vec());
    let dup = sack.duplicate();
    assert_eq!(dup.inner, b'p');
    assert_eq!(dup.numeric(), 16);
    // The common badge of the first example group is 'r'.
    let group = Group::new([
        b"vJrwpWtwJgWrhcsFMMfFFhFp".to_vec(),
        b"jqHRNqRjqzjGDLGLrsFMfFZSrLrFZsSL".to_vec(),
        b"PmmdzqPrVvPwwTWBwg".to_vec(),
    ]);
    let badge = group.common();
    assert_eq!(badge.inner, b'r');
    assert_eq!(badge.numeric(), 18);
    assert_eq!(ItemType::from_byte(b'L').numeric(), 38);
}

#[test]
fn partial_sort_edges() {
    let mut empty: Vec<usize> = vec![];
    partial_sort(&mut empty, 3);
    assert!(empty.is_empty());
    let mut single = vec![7];
    partial_sort(&mut single, 0);
    assert_eq!(single, vec![7]);
    let mut pair = vec![1, 2];
    partial_sort(&mut pair, 5);
    assert_eq!(pair, vec![2, 1]);
}

#[test]
fn one_unbounded_round() {
    let mut business = MonkeyBusiness::new(example_monkeys());
    business.unbounded_round();
    let monkeys = business.monkeys();
    let queues: Vec<Vec<usize>> = monkeys.iter().map(|m| m.items.iter().copied().collect()).collect();
    assert_eq!(queues[0], vec![60, 71, 81, 80]);
    assert_eq!(queues[1], vec![77, 1504, 1865, 6244, 3603, 9412]);
    assert!(queues[2].is_empty());
    assert!(queues[3].is_empty());
}

#[test]
fn crate_movers() {
    let mut piles = Piles::new(3);
    // Read top-down, every crate slides under its pile.
    piles.put(1, 'D');
    piles.put(0, 'N');
    piles.put(1, 'C');
    piles.put(0, 'Z');
    piles.put(1, 'M');
    piles.put(2, 'P');
    assert_eq!(piles.tops(), vec!['N', 'D', 'P']);
    let mut one_at_a_time = piles.clone();
    let mut by_batches = piles;
    for (count, from, to) in [(1, 1, 0), (3, 0, 2), (2, 1, 0), (1, 0, 1)] {
        one_at_a_time.shuffle(count, from, to);
        by_batches.move_(count, from, to);
    }
    assert_eq!(one_at_a_time.tops(), vec!['C', 'M', 'Z']);
    assert_eq!(by_batches.tops(), vec!['M', 'C', 'D']);
}
