use brainfuark::{Instruction, Program, ProgramState, RunError};

fn no_input() -> &'static [u8] {
    &[]
}

#[test]
fn increment_works() {
    let mut state = ProgramState {
        data: [254u8],
        ..ProgramState::default()
    };
    state
        .step(Instruction::Increment, &mut no_input(), &mut vec![])
        .unwrap();
    assert_eq!(state.data, [255]);
}

#[test]
fn increment_over_u8_fails() {
    let mut state = ProgramState {
        data: [255u8],
        ..ProgramState::default()
    };
    let r = state.step(Instruction::Increment, &mut no_input(), &mut vec![]);
    assert_eq!(r, Err(RunError::CellOverflow));
    assert_eq!(state.data, [255]);
    assert_eq!(state.instr_ptr, 0);
}

#[test]
fn decrement_works() {
    let mut state = ProgramState {
        data: [1u8],
        ..ProgramState::default()
    };
    state
        .step(Instruction::Decrement, &mut no_input(), &mut vec![])
        .unwrap();
    assert_eq!(state.data, [0u8]);
}

#[test]
fn decrement_under_u8_fails() {
    let mut state = ProgramState {
        data: [0u8],
        ..ProgramState::default()
    };
    let r = state.step(Instruction::Decrement, &mut no_input(), &mut vec![]);
    assert_eq!(r, Err(RunError::CellUnderflow));
    assert_eq!(state.data, [0u8]);
}

#[test]
fn increment_decrement_works() {
    let program = Program(vec![Instruction::Increment, Instruction::Decrement]);
    let mut state = ProgramState {
        data: [0u8],
        ..ProgramState::default()
    };
    state.run(&program, &mut no_input(), &mut vec![]).unwrap();
    assert_eq!(state.data, [0u8]);
}

#[test]
fn move_right_works() {
    let mut state: ProgramState<2> = ProgramState::default();
    state
        .step(Instruction::MoveRight, &mut no_input(), &mut vec![])
        .unwrap();
    assert_eq!(state.data_ptr, 1);
}

#[test]
fn move_right_over_usize_fails() {
    let mut state: ProgramState<0> = ProgramState {
        data_ptr: usize::MAX,
        ..ProgramState::default()
    };
    let r = state.step(Instruction::MoveRight, &mut no_input(), &mut vec![]);
    assert_eq!(r, Err(RunError::TapeBoundsExceeded));
    assert_eq!(state.data_ptr, usize::MAX);
}

#[test]
fn move_right_at_last_cell_fails() {
    let mut state: ProgramState<3> = ProgramState {
        data_ptr: 2,
        ..ProgramState::default()
    };
    let r = state.step(Instruction::MoveRight, &mut no_input(), &mut vec![]);
    assert_eq!(r, Err(RunError::TapeBoundsExceeded));
    assert_eq!(state.data_ptr, 2);
}

#[test]
fn move_left_works() {
    let mut state: ProgramState<2> = ProgramState {
        data_ptr: 1,
        ..ProgramState::default()
    };
    state
        .step(Instruction::MoveLeft, &mut no_input(), &mut vec![])
        .unwrap();
    assert_eq!(state.data_ptr, 0);
}

#[test]
fn move_left_under_usize_fails() {
    let mut state: ProgramState<1> = ProgramState::default();
    let r = state.step(Instruction::MoveLeft, &mut no_input(), &mut vec![]);
    assert_eq!(r, Err(RunError::TapeBoundsExceeded));
    assert_eq!(state.data_ptr, 0);
}

#[test]
fn increment_out_of_bounds_fails() {
    let mut state: ProgramState<0> = ProgramState {
        data_ptr: 1,
        ..ProgramState::default()
    };
    let r = state.step(Instruction::Increment, &mut no_input(), &mut vec![]);
    assert_eq!(r, Err(RunError::TapeBoundsExceeded));
}

#[test]
fn write_works() {
    let mut state: ProgramState<1> = ProgramState::default();
    let mut output = Vec::new();
    state
        .step(Instruction::Write, &mut no_input(), &mut output)
        .unwrap();
    assert_eq!(output, vec![0]);
}

#[test]
fn read_works() {
    let mut state: ProgramState<1> = ProgramState::default();
    let input = [1u8];
    state
        .step(Instruction::Read, &mut input.as_ref(), &mut vec![])
        .unwrap();
    assert_eq!(state.data, [1u8]);
}

#[test]
fn read_past_end_fails() {
    let mut state: ProgramState<1> = ProgramState::default();
    let r = state.step(Instruction::Read, &mut no_input(), &mut vec![]);
    assert_eq!(r, Err(RunError::InputExhausted));
}

#[test]
fn read_write_works() {
    let program = Program(vec![Instruction::Read, Instruction::Write]);
    let mut state: ProgramState<1> = ProgramState::default();
    let input = [b'a'];
    let mut output = Vec::new();
    state
        .run(&program, &mut input.as_ref(), &mut output)
        .unwrap();
    assert_eq!(output, input);
}

#[test]
fn read_write_longer_works() {
    let program = Program(
        [Instruction::Read, Instruction::Write]
            .into_iter()
            .cycle()
            .take(2 * 6)
            .collect(),
    );
    let mut state: ProgramState<6> = ProgramState::default();
    let input = [b'a', b'b', b'c', b'1', b'2', b'3'];
    let mut output = Vec::new();
    state
        .run(&program, &mut input.as_ref(), &mut output)
        .unwrap();
    assert_eq!(output, input);
}

#[test]
fn step_moves_instruction_pointer() {
    let mut state: ProgramState<1> = ProgramState::default();
    state
        .step(Instruction::JumpLeft(7), &mut no_input(), &mut vec![])
        .unwrap();
    assert_eq!(state.instr_ptr, 7);
    state.data[0] = 1;
    state
        .step(Instruction::JumpLeft(3), &mut no_input(), &mut vec![])
        .unwrap();
    assert_eq!(state.instr_ptr, 8);
    state
        .step(Instruction::JumpRight(2), &mut no_input(), &mut vec![])
        .unwrap();
    assert_eq!(state.instr_ptr, 2);
}

#[test]
fn instruction_step_reports_jump() {
    let mut state: ProgramState<1> = ProgramState::default();
    let r = Instruction::JumpLeft(5).step(&mut state, &mut no_input(), &mut vec![]);
    assert_eq!(r, Ok(Some(5)));
    let r = Instruction::JumpRight(5).step(&mut state, &mut no_input(), &mut vec![]);
    assert_eq!(r, Ok(None));
    let r = Instruction::Increment.step(&mut state, &mut no_input(), &mut vec![]);
    assert_eq!(r, Ok(None));
    assert_eq!(state.data, [1]);
    assert_eq!(state.instr_ptr, 0);
}

#[test]
fn program_run_starts_at_given_instruction() {
    let program: Program = "+++.".parse().unwrap();
    let mut state: ProgramState<1> = ProgramState::default();
    let mut output = Vec::new();
    program
        .run(2, &mut state, &mut no_input(), &mut output)
        .unwrap();
    assert_eq!(output, vec![1]);
    assert_eq!(state.instr_ptr, 4);
}

#[test]
fn step_limit_stops_endless_loop() {
    let program: Program = "+[]".parse().unwrap();
    let mut state: ProgramState<1> = ProgramState::default();
    let r = state.run_with_limit(&program, &mut no_input(), &mut vec![], 100);
    assert_eq!(r, Err(RunError::StepLimitReached));
    assert_eq!(state.data, [1]);
}
