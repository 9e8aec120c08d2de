use brainfuark::{OProgram, Program, ProgramState};

const HELLO: &str = r"
++++++++[>++++[>++>+++>+++>+<<<<-]>+>+>->>+[<]<-]>>.>---.+++++++..+++.>>.<-.<.+++.------.--------.>>+.>++.";

#[test]
fn hello_world_works() {
    let program: Program = HELLO.parse().unwrap();
    let mut state = ProgramState {
        data: [0u8; 30_000],
        ..ProgramState::default()
    };
    let mut output = Vec::new();
    state.run(&program, &mut [].as_ref(), &mut output).unwrap();
    assert_eq!(output, "Hello World!\n".as_bytes());
}

#[test]
fn hello_world_optimized_matches_naive() {
    let program: Program = HELLO.parse().unwrap();
    let mut naive: ProgramState<30_000> = ProgramState::default();
    let mut naive_out = Vec::new();
    naive.run(&program, &mut [].as_ref(), &mut naive_out).unwrap();

    let mut pos = 0usize;
    let oprogram = OProgram::parse(&program.0, &mut pos).improve();
    assert_eq!(pos, program.0.len());
    let mut optimized: ProgramState<30_000> = ProgramState::default();
    let mut optimized_out = Vec::new();
    oprogram
        .run(&mut optimized, &mut [].as_ref(), &mut optimized_out)
        .unwrap();

    assert_eq!(optimized_out, "Hello World!\n".as_bytes());
    assert_eq!(optimized_out, naive_out);
    assert_eq!(optimized.data_ptr, naive.data_ptr);
    assert!(optimized.data == naive.data);
}
