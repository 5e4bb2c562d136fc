use bfjit::{compile, parse, AVec, Error, Instruction, ALIGNMENT};

const HELLO: &str = "++++++++[>++++[>++>+++>+++>+<<<<-]>+>+>->>+[<]<-]>>.>---.+++++++..+++.>>.<-.<.+++.------.--------.>>+.>++.";

fn code(program: &[Instruction]) -> Vec<u8> {
    compile(program).unwrap().leak()
}

fn size(instruction: &Instruction) -> usize {
    match instruction {
        Instruction::Right(_) | Instruction::Left(_) => 7,
        Instruction::Increment(_) | Instruction::Decrement(_) => 3,
        Instruction::Output | Instruction::Input => 29,
        Instruction::JumpIfZero(_) | Instruction::JumpIfNonZero(_) => 9,
    }
}

fn rel32(bytes: &[u8], end: usize) -> i32 {
    i32::from_le_bytes([bytes[end - 4], bytes[end - 3], bytes[end - 2], bytes[end - 1]])
}

#[test]
fn compiler_hello() {
    let program: Vec<Instruction> = parse(HELLO).unwrap();
    let bytes: Vec<u8> = code(&program);
    let mut expected: usize = 1;
    for instruction in &program {
        expected += size(instruction);
    }
    assert_eq!(bytes.len(), expected);
    assert_eq!(bytes[bytes.len() - 1], 0xC3);
    assert_eq!(&bytes[0..3], &[0x80, 0x07, 0x08]);
}

#[test]
fn empty_program_is_a_single_ret() {
    assert_eq!(code(&[]), vec![0xC3]);
}

#[test]
fn right_adds_to_rdi() {
    assert_eq!(
        code(&[Instruction::Right(5)]),
        vec![0x48, 0x81, 0xC7, 0x05, 0x00, 0x00, 0x00, 0xC3]
    );
    assert_eq!(
        code(&[Instruction::Right(0x12345678)]),
        vec![0x48, 0x81, 0xC7, 0x78, 0x56, 0x34, 0x12, 0xC3]
    );
}

#[test]
fn left_subtracts_from_rdi() {
    assert_eq!(
        code(&[Instruction::Left(258)]),
        vec![0x48, 0x81, 0xEF, 0x02, 0x01, 0x00, 0x00, 0xC3]
    );
}

#[test]
fn a_count_is_cut_to_32_bits() {
    assert_eq!(
        code(&[Instruction::Right(0xFFFF_FFFF)]),
        vec![0x48, 0x81, 0xC7, 0xFF, 0xFF, 0xFF, 0xFF, 0xC3]
    );
    if usize::BITS > 32 {
        let wide: usize = (1usize << 32) + 7;
        assert_eq!(
            code(&[Instruction::Left(wide)]),
            vec![0x48, 0x81, 0xEF, 0x07, 0x00, 0x00, 0x00, 0xC3]
        );
    }
}

#[test]
fn increment_and_decrement_work_on_the_byte_at_rdi() {
    assert_eq!(code(&[Instruction::Increment(3)]), vec![0x80, 0x07, 0x03, 0xC3]);
    assert_eq!(code(&[Instruction::Decrement(255)]), vec![0x80, 0x2F, 0xFF, 0xC3]);
    assert_eq!(code(&[Instruction::Increment(0)]), vec![0x80, 0x07, 0x00, 0xC3]);
}

#[test]
fn output_calls_write() {
    assert_eq!(
        code(&[Instruction::Output]),
        vec![
            0x48, 0x89, 0xFE, 0x48, 0xC7, 0xC0, 0x01, 0x00, 0x00, 0x00, 0x48, 0xC7, 0xC7, 0x01,
            0x00, 0x00, 0x00, 0x48, 0xC7, 0xC2, 0x01, 0x00, 0x00, 0x00, 0x0F, 0x05, 0x48, 0x89,
            0xF7, 0xC3,
        ]
    );
}

#[test]
fn input_calls_read() {
    assert_eq!(
        code(&[Instruction::Input]),
        vec![
            0x48, 0x89, 0xFE, 0x48, 0xC7, 0xC0, 0x00, 0x00, 0x00, 0x00, 0x48, 0xC7, 0xC7, 0x00,
            0x00, 0x00, 0x00, 0x48, 0xC7, 0xC2, 0x01, 0x00, 0x00, 0x00, 0x0F, 0x05, 0x48, 0x89,
            0xF7, 0xC3,
        ]
    );
}

#[test]
fn empty_loop_jumps_over_itself() {
    assert_eq!(
        code(&parse("[]").unwrap()),
        vec![
            0x80, 0x3F, 0x00, 0x0F, 0x84, 0x09, 0x00, 0x00, 0x00, 0x80, 0x3F, 0x00, 0x0F, 0x85,
            0xF7, 0xFF, 0xFF, 0xFF, 0xC3,
        ]
    );
}

#[test]
fn a_loop_jumps_over_its_body() {
    assert_eq!(
        code(&parse("+[-]").unwrap()),
        vec![
            0x80, 0x07, 0x01, 0x80, 0x3F, 0x00, 0x0F, 0x84, 0x0C, 0x00, 0x00, 0x00, 0x80, 0x2F,
            0x01, 0x80, 0x3F, 0x00, 0x0F, 0x85, 0xF4, 0xFF, 0xFF, 0xFF, 0xC3,
        ]
    );
}

#[test]
fn nested_loops_get_their_own_displacements() {
    let bytes: Vec<u8> = code(&parse("[[]>]").unwrap());
    assert_eq!(bytes.len(), 4 * 9 + 7 + 1);
    assert_eq!(rel32(&bytes, 9), 34);
    assert_eq!(rel32(&bytes, 18), 9);
    assert_eq!(rel32(&bytes, 27), -9);
    assert_eq!(rel32(&bytes, 43), -34);
}

#[test]
fn a_long_loop_has_a_displacement_of_several_bytes() {
    let mut program: Vec<Instruction> = vec![Instruction::JumpIfZero(0)];
    let mut i: usize = 0;
    while i < 100 {
        program.push(Instruction::Output);
        i += 1;
    }
    program.push(Instruction::JumpIfNonZero(0));
    let bytes: Vec<u8> = code(&program);
    assert_eq!(&bytes[5..9], &[0x5D, 0x0B, 0x00, 0x00]);
    assert_eq!(&bytes[2914..2918], &[0xA3, 0xF4, 0xFF, 0xFF]);
    assert_eq!(rel32(&bytes, 9), 2909);
    assert_eq!(rel32(&bytes, 2918), -2909);
}

#[test]
fn the_displacements_of_a_pair_are_opposite() {
    let program: Vec<Instruction> = parse(HELLO).unwrap();
    let bytes: Vec<u8> = code(&program);
    let mut ends: Vec<usize> = Vec::new();
    let mut end: usize = 0;
    let mut open: Vec<usize> = Vec::new();
    let mut pairs: usize = 0;
    let mut k: usize = 0;
    while k < program.len() {
        end += size(&program[k]);
        ends.push(end);
        match program[k] {
            Instruction::JumpIfZero(_) => open.push(k),
            Instruction::JumpIfNonZero(_) => {
                let j: usize = open.pop().unwrap();
                let forward: i32 = rel32(&bytes, ends[j]);
                let back: i32 = rel32(&bytes, ends[k]);
                assert_eq!(forward, (ends[k] - ends[j]) as i32);
                assert_eq!(back, -forward);
                pairs += 1;
            }
            _ => {}
        }
        k += 1;
    }
    assert_eq!(pairs, 3);
}

#[test]
fn the_code_ends_in_ret() {
    for source in ["", "+", "[]", ",[.,]", HELLO] {
        let bytes: Vec<u8> = code(&parse(source).unwrap());
        assert_eq!(bytes.last(), Some(&0xC3));
    }
}

#[test]
fn jumps_are_paired_by_nesting_not_by_target() {
    let linked: Vec<u8> = code(&parse("[+]").unwrap());
    let unlinked: Vec<u8> = code(&[
        Instruction::JumpIfZero(77),
        Instruction::Increment(1),
        Instruction::JumpIfNonZero(0),
    ]);
    assert_eq!(linked, unlinked);
}

#[test]
fn a_closing_jump_without_an_opening_one_is_rejected() {
    assert_eq!(compile(&[Instruction::JumpIfNonZero(0)]).err(), Some(Error::UnbalancedBrackets));
    assert_eq!(
        compile(&[
            Instruction::JumpIfZero(2),
            Instruction::JumpIfNonZero(1),
            Instruction::JumpIfNonZero(1),
            Instruction::JumpIfZero(2),
        ])
        .err(),
        Some(Error::UnbalancedBrackets)
    );
}

#[test]
fn an_opening_jump_without_a_closing_one_is_rejected() {
    assert_eq!(compile(&[Instruction::JumpIfZero(1)]).err(), Some(Error::UnbalancedBrackets));
    assert_eq!(
        compile(&[Instruction::Output, Instruction::JumpIfZero(1), Instruction::Output]).err(),
        Some(Error::UnbalancedBrackets)
    );
}

#[test]
fn everything_that_parses_compiles() {
    for source in ["", "+-", "[[[]]]", "[][][]", ",[.,]", HELLO] {
        assert!(compile(&parse(source).unwrap()).is_ok());
    }
}

#[test]
fn the_code_buffer_is_page_aligned() {
    assert_eq!(ALIGNMENT, 4096);
    let bin: AVec = compile(&parse("+").unwrap()).unwrap();
    assert_eq!(bin.len(), 4);
    assert_eq!(bin.layout(), (8, 4096));
    let bin: AVec = compile(&parse(HELLO).unwrap()).unwrap();
    let (capacity, align) = bin.layout();
    assert_eq!(align, 4096);
    assert!(capacity >= bin.len());
    assert_eq!(capacity, 1024);
}

#[test]
fn new_buffer_is_empty() {
    let bin: AVec = AVec::new(4096);
    assert_eq!(bin.len(), 0);
    assert_eq!(bin.layout(), (0, 4096));
    assert_eq!(bin.leak(), Vec::<u8>::new());
}

#[test]
fn push_appends_and_doubles_the_capacity() {
    let mut bin: AVec = AVec::new(16);
    bin.push(1);
    assert_eq!(bin.len(), 1);
    assert_eq!(bin.layout(), (8, 16));
    let mut i: u8 = 2;
    while i <= 8 {
        bin.push(i);
        i += 1;
    }
    assert_eq!(bin.layout(), (8, 16));
    bin.push(9);
    assert_eq!(bin.layout(), (16, 16));
    assert_eq!(bin.len(), 9);
    i = 10;
    while i <= 16 {
        bin.push(i);
        i += 1;
    }
    assert_eq!(bin.layout(), (16, 16));
    bin.push(17);
    assert_eq!(bin.layout(), (32, 16));
    assert_eq!(bin.leak(), vec![1, 2, 3, 4, 5, 6, 7, 8, 9, 10, 11, 12, 13, 14, 15, 16, 17]);
}

#[test]
fn extend_appends_in_order() {
    let mut bin: AVec = AVec::new(4096);
    bin.extend(&[1, 2, 3]);
    bin.extend(&[]);
    bin.extend(&[4, 5, 6, 7, 8, 9, 10]);
    assert_eq!(bin.len(), 10);
    assert_eq!(bin.layout(), (16, 4096));
    assert_eq!(bin.leak(), vec![1, 2, 3, 4, 5, 6, 7, 8, 9, 10]);
}

#[test]
fn splice_overwrites_in_place() {
    let mut bin: AVec = AVec::new(4096);
    bin.extend(&[1, 2, 3, 4, 5, 6]);
    bin.splice(2, &[9, 8]);
    assert_eq!(bin.len(), 6);
    bin.splice(0, &[7]);
    bin.splice(5, &[0]);
    bin.splice(6, &[]);
    assert_eq!(bin.leak(), vec![7, 2, 9, 8, 5, 0]);
}
