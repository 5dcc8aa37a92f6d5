use regex_engine::ast::AST;
use regex_engine::codegen::get_code;
use regex_engine::instruction::Instruction::{
    AnyNumber, CapcherBegin, CapcherEnd, Caret, Char, Descrement, Doller, Jump, Match, NotNumber,
    Split, UnmatchChars,
};

#[test]
fn test_star() {
    let instructions = get_code(&AST::Sequence(vec![
        AST::Char('a'),
        AST::Star(Box::new(AST::Or(
            Box::new(AST::Sequence(vec![AST::Char('b'), AST::Char('c')])),
            Box::new(AST::Sequence(vec![AST::Char('d'), AST::Char('e')])),
        ))),
        AST::Char('f'),
    ]))
    .unwrap(); //"a(bc|de)*f"
    assert_eq!(instructions, vec![
        Char('a'),
        Split(2, 9, (-1, None), -1),
        Split(3, 6, (-1, None), -1),
        Char('b'),
        Char('c'),
        Jump(8),
        Char('d'),
        Char('e'),
        Jump(1),
        Char('f'),
        Match,
    ]);
}

#[test]
fn test_question() {
    let instructions = get_code(&AST::Sequence(vec![
        AST::Char('a'),
        AST::Question(Box::new(AST::Or(
            Box::new(AST::Sequence(vec![AST::Char('b'), AST::Char('c')])),
            Box::new(AST::Sequence(vec![AST::Char('d'), AST::Char('e')])),
        ))),
        AST::Char('f'),
    ]))
    .unwrap(); //"a(bc|de)?f"
    assert_eq!(instructions, vec![
        Char('a'),
        Split(2, 8, (-1, None), -1),
        Split(3, 6, (-1, None), -1),
        Char('b'),
        Char('c'),
        Jump(8),
        Char('d'),
        Char('e'),
        Char('f'),
        Match,
    ]);
}

#[test]
fn test_plus() {
    let instructions = get_code(&AST::Sequence(vec![
        AST::Char('a'),
        AST::Plus(Box::new(AST::Or(
            Box::new(AST::Sequence(vec![AST::Char('b'), AST::Char('c')])),
            Box::new(AST::Sequence(vec![AST::Char('d'), AST::Char('e')])),
        ))),
        AST::Char('f'),
    ]))
    .unwrap(); //"a(bc|de)+f"
    assert_eq!(instructions, vec![
        Char('a'),
        Split(2, 5, (-1, None), -1),
        Char('b'),
        Char('c'),
        Jump(7),
        Char('d'),
        Char('e'),
        Split(1, 8, (-1, None), -1),
        Char('f'),
        Match,
    ]);
}

#[test]
fn test_unmatch() {
    let instructions = get_code(&AST::Sequence(vec![
        AST::Char('a'),
        AST::Char('b'),
        AST::Counter(
            Box::new(AST::UnmatchChars(vec!['c','d'])), (2, Some(2))
        )
    ])).unwrap(); //"ab[^cd]{2}"
    assert_eq!(instructions, vec![
        Char('a'),
        Char('b'),
        Split(3, 6, (2, Some(2)), 0),
        Descrement(0),
        UnmatchChars(vec!['c','d']),
        Jump(2),
        Match
    ]);
}

#[test]
fn test_counter1() {
    let instructions = get_code(&AST::Sequence(vec![
        AST::Char('a'),
        AST::Counter(Box::new(AST::Char('d')), (1, Some(3))),
        AST::Char('f'),
    ]))
    .unwrap(); //"ad{3}f"
    assert_eq!(instructions, vec![
        Char('a'),
        Split(2, 5, (1, Some(3)), 0),
        Descrement(0),
        Char('d'),
        Jump(1),
        Char('f'),
        Match,
    ]);
}

#[test]
fn test_capcher() {
    let instructions = get_code(&AST::Sequence(
        vec![
            AST::Char('a'),
            AST::Char('b'),
            AST::Chapcher(
                Box::new(AST::Sequence(vec![
                    AST::Chapcher(Box::new(AST::Sequence(vec![
                        AST::Counter(
                            Box::new(AST::AnyNumber),
                            (2, Some(2))
                        )
                    ]))),
                    AST::Char('-'),
                    AST::Chapcher(Box::new(AST::Sequence(vec![
                        AST::Counter(
                            Box::new(AST::AnyNumber),
                            (2, Some(2))
                        )
                    ]))),
                ]))
            )
        ]
    ))
    .unwrap(); //"ab((\\d{2})-(\\d{2}))"
    assert_eq!(instructions, vec![
        Char('a'),
        Char('b'),
        CapcherBegin(0),
        CapcherBegin(1),
        Split(5, 8, (2, Some(2)), 0),
        Descrement(0),
        AnyNumber,
        Jump(4),
        CapcherEnd(1),
        Char('-'),
        CapcherBegin(2),
        Split(12, 15, (2, Some(2)), 1),
        Descrement(1),
        AnyNumber,
        Jump(11),
        CapcherEnd(2),
        CapcherEnd(0),
        Match,
    ]);
}

#[test]
fn leaves_lower_to_one_instruction_each() {
    let instructions = get_code(&AST::Sequence(vec![
        AST::Caret,
        AST::AnyNumber,
        AST::NotNumber,
        AST::Doller,
    ]))
    .unwrap();
    assert_eq!(instructions, vec![Caret, AnyNumber, NotNumber, Doller, Match]);
}

#[test]
fn empty_sequence_lowers_to_match_alone() {
    let instructions = get_code(&AST::Sequence(vec![])).unwrap();
    assert_eq!(instructions, vec![Match]);
}

#[test]
fn alternation_numbers_registers_and_slots_in_pre_order() {
    // (a{1})|(b{2,})
    let instructions = get_code(&AST::Or(
        Box::new(AST::Chapcher(Box::new(AST::Counter(Box::new(AST::Char('a')), (1, Some(1)))))),
        Box::new(AST::Chapcher(Box::new(AST::Counter(Box::new(AST::Char('b')), (2, None))))),
    ))
    .unwrap();
    assert_eq!(instructions, vec![
        Split(1, 8, (-1, None), -1),
        CapcherBegin(0),
        Split(3, 6, (1, Some(1)), 0),
        Descrement(0),
        Char('a'),
        Jump(2),
        CapcherEnd(0),
        Jump(14),
        CapcherBegin(1),
        Split(10, 13, (2, None), 1),
        Descrement(1),
        Char('b'),
        Jump(9),
        CapcherEnd(1),
        Match,
    ]);
}

fn compiled(expr: &str) -> Vec<regex_engine::instruction::Instruction> {
    regex_engine::engine::compile(expr).unwrap().1
}

#[test]
fn program_ends_with_its_only_match() {
    for expr in ["a", "a(b|c)*d{2}", "[ab|cd]+e?", "((\\d{2})-(\\d{2}))", "^a$"] {
        let code = compiled(expr);
        let matches: Vec<usize> = code
            .iter()
            .enumerate()
            .filter(|(_, inst)| **inst == Match)
            .map(|(at, _)| at)
            .collect();
        assert_eq!(matches, vec![code.len() - 1]);
    }
}

#[test]
fn branches_and_jumps_stay_inside_the_program() {
    for expr in ["a(b|c)*d{2}", "[ab|cd]+e?", "a{2}|b{3}", "[a*]*"] {
        let code = compiled(expr);
        for inst in code.iter() {
            match inst {
                Jump(addr) => assert!(*addr < code.len()),
                Split(first, second, _, _) => {
                    assert!(*first < code.len());
                    assert!(*second < code.len());
                }
                _ => {}
            }
        }
    }
}

#[test]
fn count_down_stands_behind_its_branch() {
    let code = compiled("a{2}[b{3}|c{4,}]*");
    let mut found = 0;
    for (at, inst) in code.iter().enumerate() {
        if let Descrement(register) = inst {
            match &code[at - 1] {
                Split(first, _, _, tied) => {
                    assert_eq!(*first, at);
                    assert_eq!(*tied as usize, *register);
                    assert_eq!(*register, found);
                }
                other => panic!("{:?}", other),
            }
            found += 1;
        }
    }
    assert_eq!(found, 3);
}

#[test]
fn groups_are_numbered_outside_in_and_left_to_right() {
    let code = compiled("(a(b)(c(d)))(e)");
    let opened: Vec<i32> = code
        .iter()
        .filter_map(|inst| match inst {
            CapcherBegin(slot) => Some(*slot),
            _ => None,
        })
        .collect();
    assert_eq!(opened, vec![0, 1, 2, 3, 4]);
    let closed: Vec<i32> = code
        .iter()
        .filter_map(|inst| match inst {
            CapcherEnd(slot) => Some(*slot),
            _ => None,
        })
        .collect();
    assert_eq!(closed, vec![1, 3, 2, 0, 4]);
}
