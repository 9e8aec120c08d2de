use brainfuark::{
    Block, Instruction, IoInstruction, OProgram, OpArgs, ParseError, Program, ProgramState,
    RunError,
};

fn no_input() -> &'static [u8] {
    &[]
}

fn optimize(program: &Program) -> OProgram {
    let mut pos = 0usize;
    let blocks = OProgram::parse(&program.0, &mut pos);
    assert_eq!(pos, program.0.len());
    blocks.improve()
}

fn token_of(i: &Instruction) -> char {
    match i {
        Instruction::MoveLeft => '<',
        Instruction::MoveRight => '>',
        Instruction::Increment => '+',
        Instruction::Decrement => '-',
        Instruction::Write => '.',
        Instruction::Read => ',',
        Instruction::JumpLeft(_) => '[',
        Instruction::JumpRight(_) => ']',
    }
}

#[test]
fn single_increment_on_254_gives_255() {
    let program: Program = "+".parse().unwrap();
    let mut state = ProgramState {
        data: [254u8],
        ..ProgramState::default()
    };
    state.run(&program, &mut no_input(), &mut vec![]).unwrap();
    assert_eq!(state.data, [255]);
}

#[test]
fn increment_then_decrement_restores_cell() {
    let program: Program = "+-".parse().unwrap();
    let mut state = ProgramState {
        data: [0u8],
        ..ProgramState::default()
    };
    state.run(&program, &mut no_input(), &mut vec![]).unwrap();
    assert_eq!(state.data, [0]);
    assert_eq!(state.data_ptr, 0);
}

#[test]
fn read_then_write_echoes_byte() {
    let program: Program = ",.".parse().unwrap();
    let mut state: ProgramState<1> = ProgramState::default();
    let input = [0x61u8];
    let mut output = Vec::new();
    state.run(&program, &mut input.as_ref(), &mut output).unwrap();
    assert_eq!(output, vec![0x61]);
}

#[test]
fn empty_loop_on_zero_does_nothing() {
    let program: Program = "[]".parse().unwrap();
    let mut state: ProgramState<4> = ProgramState::default();
    let mut output = Vec::new();
    state.run(&program, &mut no_input(), &mut output).unwrap();
    assert!(output.is_empty());
    assert_eq!(state.data, [0; 4]);
    assert_eq!(state.data_ptr, 0);

    let mut opt_state: ProgramState<4> = ProgramState::default();
    optimize(&program)
        .run(&mut opt_state, &mut no_input(), &mut output)
        .unwrap();
    assert!(output.is_empty());
    assert_eq!(opt_state.data, [0; 4]);
    assert_eq!(opt_state.data_ptr, 0);
}

#[test]
fn boundary_errors() {
    let mut s = ProgramState {
        data: [255u8],
        ..ProgramState::default()
    };
    assert_eq!(
        s.run(&"+".parse().unwrap(), &mut no_input(), &mut vec![]),
        Err(RunError::CellOverflow)
    );
    let mut s: ProgramState<1> = ProgramState::default();
    assert_eq!(
        s.run(&"-".parse().unwrap(), &mut no_input(), &mut vec![]),
        Err(RunError::CellUnderflow)
    );
    let mut s: ProgramState<5> = ProgramState::default();
    assert_eq!(
        s.run(&"<".parse().unwrap(), &mut no_input(), &mut vec![]),
        Err(RunError::TapeBoundsExceeded)
    );
    let mut s: ProgramState<5> = ProgramState {
        data_ptr: 4,
        ..ProgramState::default()
    };
    assert_eq!(
        s.run(&">".parse().unwrap(), &mut no_input(), &mut vec![]),
        Err(RunError::TapeBoundsExceeded)
    );
    assert_eq!(s.data_ptr, 4);
}

#[test]
fn run_folds_into_one_data_block() {
    let program: Program = "+++>+++<".parse().unwrap();
    let mut pos = 0usize;
    let blocks = OProgram::parse(&program.0, &mut pos);
    assert_eq!(pos, 8);
    assert_eq!(blocks.0.len(), 1);
    match &blocks.0[0] {
        Block::DataOps(args) => {
            assert_eq!(args.ops, vec![(0, 3), (1, 3)]);
            assert_eq!(args.distance, 0);
        }
        other => panic!("expected a data block, got {other:?}"),
    }
}

#[test]
fn zero_changes_are_dropped() {
    let program: Program = ">+-<<-".parse().unwrap();
    let mut pos = 0usize;
    let args = OpArgs::parse(&program.0, &mut pos).unwrap();
    assert_eq!(pos, 6);
    assert_eq!(args.ops, vec![(-1, -1)]);
    assert_eq!(args.distance, -1);
}

#[test]
fn data_parse_leaves_other_instructions() {
    let program: Program = ".+".parse().unwrap();
    let mut pos = 0usize;
    assert!(OpArgs::parse(&program.0, &mut pos).is_none());
    assert_eq!(pos, 0);
    assert_eq!(
        IoInstruction::parse(&program.0, &mut pos),
        Some(IoInstruction::Write)
    );
    assert_eq!(pos, 1);
    assert!(IoInstruction::parse(&program.0, &mut pos).is_none());
    assert_eq!(pos, 1);
}

#[test]
fn long_run_is_cut_into_blocks() {
    let text = "+".repeat(40_000);
    let program: Program = text.parse().unwrap();
    let mut pos = 0usize;
    let first = OpArgs::parse(&program.0, &mut pos).unwrap();
    assert_eq!(pos, 32_767);
    assert_eq!(first.ops, vec![(0, 32_767)]);
    let second = OpArgs::parse(&program.0, &mut pos).unwrap();
    assert_eq!(pos, 40_000);
    assert_eq!(second.ops, vec![(0, 7_233)]);
}

#[test]
fn long_move_run_is_one_block() {
    let text = format!("{}{}+", ">".repeat(40_000), "<".repeat(39_999));
    let program: Program = text.parse().unwrap();
    let mut pos = 0usize;
    let args = OpArgs::parse(&program.0, &mut pos).unwrap();
    assert_eq!(pos, 80_000);
    assert_eq!(args.ops, vec![(1, 1)]);
    assert_eq!(args.distance, 1);
    let mut pos = 0usize;
    let blocks = OProgram::parse(&program.0, &mut pos);
    assert_eq!(blocks.0.len(), 1);
}

#[test]
fn run_is_cut_only_where_a_change_overflows() {
    let text = format!("{}>{}", "+".repeat(32_767), "+".repeat(5));
    let program: Program = text.parse().unwrap();
    let mut pos = 0usize;
    let args = OpArgs::parse(&program.0, &mut pos).unwrap();
    assert_eq!(pos, 32_773);
    assert_eq!(args.ops, vec![(0, 32_767), (1, 5)]);
    assert_eq!(args.distance, 1);
}

#[test]
fn loop_parse_reads_whole_loop() {
    let program: Program = "[-].".parse().unwrap();
    let mut pos = 0usize;
    let body = OProgram::parse_loop(&program.0, &mut pos).unwrap();
    assert_eq!(pos, 3);
    assert_eq!(body.0.len(), 1);
    match Block::parse(&program.0, &mut pos) {
        Some(Block::Io(IoInstruction::Write)) => {}
        other => panic!("expected a write block, got {other:?}"),
    }
    assert_eq!(pos, 4);
    assert!(Block::parse(&program.0, &mut pos).is_none());
}

#[test]
fn block_parse_stops_at_unmatched_close() {
    let program = Program(vec![
        Instruction::Increment,
        Instruction::JumpRight(0),
        Instruction::Increment,
    ]);
    let mut pos = 0usize;
    let blocks = OProgram::parse(&program.0, &mut pos);
    assert_eq!(blocks.0.len(), 1);
    assert_eq!(pos, 1);
}

#[test]
fn improve_drops_noops_and_second_loop() {
    let program: Program = "[-]><[+]+".parse().unwrap();
    let improved = optimize(&program);
    assert_eq!(improved.0.len(), 2);
    assert!(matches!(improved.0[0], Block::Loop(_)));
    assert!(matches!(improved.0[1], Block::DataOps(_)));
}

#[test]
fn improve_keeps_loop_at_start_of_body() {
    let program: Program = "+[[-]>]".parse().unwrap();
    let improved = optimize(&program);
    assert_eq!(improved.0.len(), 2);
    match &improved.0[1] {
        Block::Loop(body) => {
            assert_eq!(body.0.len(), 2);
            assert!(matches!(body.0[0], Block::Loop(_)));
        }
        other => panic!("expected a loop, got {other:?}"),
    }
    let mut state: ProgramState<3> = ProgramState::default();
    improved
        .run(&mut state, &mut no_input(), &mut vec![])
        .unwrap();
    assert_eq!(state.data, [0, 0, 0]);
    assert_eq!(state.data_ptr, 1);
}

#[test]
fn improve_twice_changes_nothing() {
    let program: Program = "+[[-]>[-][+]<>]--[.]".parse().unwrap();
    let once = optimize(&program);
    let text_once = format!("{once:?}");
    let twice = once.improve();
    assert_eq!(format!("{twice:?}"), text_once);
}

#[test]
fn optimized_run_matches_naive_run() {
    let program: Program = ",[->++<]>.".parse().unwrap();
    let input = [21u8];
    let mut naive: ProgramState<2> = ProgramState::default();
    let mut naive_out = Vec::new();
    naive
        .run(&program, &mut input.as_ref(), &mut naive_out)
        .unwrap();
    let mut opt: ProgramState<2> = ProgramState::default();
    let mut opt_out = Vec::new();
    optimize(&program)
        .run(&mut opt, &mut input.as_ref(), &mut opt_out)
        .unwrap();
    assert_eq!(naive_out, vec![42]);
    assert_eq!(opt_out, naive_out);
    assert_eq!(opt.data, naive.data);
    assert_eq!(opt.data_ptr, naive.data_ptr);
}

#[test]
fn optimized_errors() {
    let mut s: ProgramState<2> = ProgramState::default();
    let r = optimize(&"<+".parse().unwrap()).run(&mut s, &mut no_input(), &mut vec![]);
    assert_eq!(r, Err(RunError::TapeBoundsExceeded));
    let mut s: ProgramState<1> = ProgramState::default();
    let r = optimize(&"-".parse().unwrap()).run(&mut s, &mut no_input(), &mut vec![]);
    assert_eq!(r, Err(RunError::CellUnderflow));
    let mut s: ProgramState<1> = ProgramState {
        data: [255],
        ..ProgramState::default()
    };
    let r = optimize(&"+".parse().unwrap()).run(&mut s, &mut no_input(), &mut vec![]);
    assert_eq!(r, Err(RunError::CellOverflow));
    let mut s: ProgramState<1> = ProgramState::default();
    let r = optimize(&",".parse().unwrap()).run(&mut s, &mut no_input(), &mut vec![]);
    assert_eq!(r, Err(RunError::InputExhausted));
    let mut s: ProgramState<1> = ProgramState::default();
    let r = optimize(&"+[]".parse().unwrap()).run_with_limit(&mut s, &mut no_input(), &mut vec![], 10);
    assert_eq!(r, Err(RunError::StepLimitReached));
}

#[test]
fn parse_keeps_tokens_and_resolves_brackets() {
    let text = "a+b[c>[-]<]d.e";
    let program: Program = text.parse().unwrap();
    let tokens: String = program.0.iter().map(token_of).collect();
    let filtered: String = text.chars().filter(|c| Instruction::is_token(*c)).collect();
    assert_eq!(tokens, "+[>[-]<].");
    assert_eq!(tokens, filtered);
    assert_eq!(program.0[1], Instruction::JumpLeft(7));
    assert_eq!(program.0[7], Instruction::JumpRight(1));
    assert_eq!(program.0[3], Instruction::JumpLeft(5));
    assert_eq!(program.0[5], Instruction::JumpRight(3));
}

#[test]
fn unbalanced_brackets_are_rejected() {
    assert_eq!(Program::parse("[").err(), Some(ParseError::UnbalancedBrackets));
    assert_eq!(Program::parse("]").err(), Some(ParseError::UnbalancedBrackets));
    assert_eq!(Program::parse("][").err(), Some(ParseError::UnbalancedBrackets));
    assert_eq!(Program::parse("[[]").err(), Some(ParseError::UnbalancedBrackets));
    assert!(Program::parse("x[y]z").is_ok());
    assert!(Program::parse("").unwrap().0.is_empty());
}

#[test]
fn is_token_recognizes_the_eight_characters() {
    for c in "<>+-.,[]".chars() {
        assert!(Instruction::is_token(c));
    }
    for c in "ab 1\n{}".chars() {
        assert!(!Instruction::is_token(c));
    }
}

#[test]
fn error_messages_are_distinct() {
    assert_ne!(
        ParseError::UnbalancedBrackets.message(),
        ParseError::UnexpectedCharacter.message()
    );
    assert_ne!(
        RunError::CellOverflow.message(),
        RunError::CellUnderflow.message()
    );
}
