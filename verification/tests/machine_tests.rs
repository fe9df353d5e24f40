use tp_led_matrix::machine::{Machine, MachineError};

const MOVE_IF: u8 = 1;
const STORE: u8 = 2;
const LOAD: u8 = 3;
const LOADIMM: u8 = 4;
const SUB: u8 = 5;
const OUT: u8 = 6;
const EXIT: u8 = 7;
const OUT_NUMBER: u8 = 8;

fn run(program: &[u8]) -> (Machine, Vec<u8>, Result<bool, MachineError>) {
    let mut machine = Machine::new(program);
    let mut out = Vec::new();
    let result = machine.run_on(&mut out, 10_000);
    (machine, out, result)
}

#[test]
fn new_machine_is_reset() {
    let machine = Machine::new(&[1, 2, 3]);
    assert_eq!(machine.regs(), &[0u32; 16][..]);
    assert_eq!(machine.memory().len(), 4096);
    assert_eq!(&machine.memory()[..4], &[1, 2, 3, 0]);
    assert!(machine.memory()[3..].iter().all(|b| *b == 0));
}

#[test]
fn new_machine_takes_a_full_memory() {
    let program = vec![7u8; 4096];
    let machine = Machine::new(&program);
    assert_eq!(machine.memory(), &program[..]);
}

#[test]
fn registers_and_memory_are_checked() {
    let mut machine = Machine::new(&[9, 8]);
    assert_eq!(machine.read_mem(1), Ok(8));
    assert_eq!(machine.read_mem(4095), Ok(0));
    assert_eq!(machine.read_mem(4096), Err(MachineError::InvalidMemAddr));
    assert_eq!(machine.read_reg(15), Ok(0));
    assert_eq!(machine.read_reg(16), Err(MachineError::InvalidRegisterNumb));
    assert_eq!(machine.set_reg(15, 77), Ok(()));
    assert_eq!(machine.read_reg(15), Ok(77));
    assert_eq!(machine.set_reg(16, 1), Err(MachineError::InvalidRegisterNumb));
    assert_eq!(machine.regs()[15], 77);
}

#[test]
fn exit_ends_the_program() {
    let mut machine = Machine::new(&[EXIT]);
    let mut out = Vec::new();
    assert_eq!(machine.step_on(&mut out), Ok(true));
    assert_eq!(machine.regs()[0], 1);
    assert!(out.is_empty());
    let mut direct = Machine::new(&[]);
    assert_eq!(direct.exit(), Ok(true));
    assert_eq!(direct.regs()[0], 1);
}

#[test]
fn loadimm_extends_the_sign() {
    let (machine, out, result) =
        run(&[LOADIMM, 1, 0x34, 0x12, LOADIMM, 2, 0xff, 0xff, LOADIMM, 3, 0x00, 0x80, EXIT]);
    assert_eq!(result, Ok(true));
    assert!(out.is_empty());
    assert_eq!(machine.regs()[1], 0x1234);
    assert_eq!(machine.regs()[2], 0xffff_ffff);
    assert_eq!(machine.regs()[3], 0xffff_8000);
    assert_eq!(machine.regs()[0], 13);
    for (l, h) in [(0u8, 0u8), (0xff, 0x7f), (1, 0x80), (0xfe, 0xff)] {
        let mut m = Machine::new(&[LOADIMM, 5, l, h]);
        assert_eq!(m.loadimm(), Ok(false));
        assert_eq!(m.regs()[5], i16::from_le_bytes([l, h]) as i32 as u32);
    }
}

#[test]
fn sub_wraps_around() {
    let (machine, _, result) =
        run(&[LOADIMM, 1, 5, 0, LOADIMM, 2, 7, 0, SUB, 3, 1, 2, SUB, 4, 2, 1, EXIT]);
    assert_eq!(result, Ok(true));
    assert_eq!(machine.regs()[3], 0xffff_fffe);
    assert_eq!(machine.regs()[4], 2);
}

#[test]
fn store_and_load_are_little_endian() {
    let mut machine = Machine::new(&[STORE, 1, 2, LOAD, 3, 1, EXIT]);
    machine.set_reg(1, 100).unwrap();
    machine.set_reg(2, 0x1234_5678).unwrap();
    let mut out = Vec::new();
    assert_eq!(machine.run_on(&mut out, 10), Ok(true));
    assert_eq!(&machine.memory()[100..104], &[0x78, 0x56, 0x34, 0x12]);
    assert_eq!(machine.regs()[3], 0x1234_5678);
    for word in [0u32, 1, 0xff, 0x100, 0xdead_beef, u32::MAX] {
        let mut m = Machine::new(&[STORE, 1, 2, LOAD, 3, 1]);
        m.set_reg(1, 4092).unwrap();
        m.set_reg(2, word).unwrap();
        assert_eq!(m.store(), Ok(false));
        assert_eq!(&m.memory()[4092..], &word.to_le_bytes());
        assert_eq!(m.load(), Ok(false));
        assert_eq!(m.regs()[3], word);
    }
}

#[test]
fn store_outside_memory_fails() {
    let mut machine = Machine::new(&[STORE, 1, 2]);
    machine.set_reg(1, 4093).unwrap();
    assert_eq!(machine.store(), Err(MachineError::InvalidMemAddr));
    assert_eq!(machine.regs()[0], 3);
    assert!(machine.memory()[3..].iter().all(|b| *b == 0));
    let mut far = Machine::new(&[STORE, 1, 2]);
    far.set_reg(1, u32::MAX).unwrap();
    assert_eq!(far.store(), Err(MachineError::InvalidMemAddr));
}

#[test]
fn load_outside_memory_fails() {
    let mut machine = Machine::new(&[LOAD, 1, 2]);
    machine.set_reg(2, 4093).unwrap();
    assert_eq!(machine.load(), Err(MachineError::InvalidMemAddr));
    let mut bad_target = Machine::new(&[LOAD, 16, 2]);
    assert_eq!(bad_target.load(), Err(MachineError::InvalidRegisterNumb));
    let mut bad_source = Machine::new(&[LOAD, 1, 16]);
    assert_eq!(bad_source.load(), Err(MachineError::InvalidRegisterNumb));
}

#[test]
fn move_if_copies_only_when_the_condition_is_set() {
    let mut taken = Machine::new(&[MOVE_IF, 1, 2, 3]);
    taken.set_reg(2, 42).unwrap();
    taken.set_reg(3, 1).unwrap();
    assert_eq!(taken.move_if(), Ok(false));
    assert_eq!(taken.regs()[1], 42);
    assert_eq!(taken.regs()[0], 4);
    let mut skipped = Machine::new(&[MOVE_IF, 1, 2, 3]);
    skipped.set_reg(2, 42).unwrap();
    assert_eq!(skipped.move_if(), Ok(false));
    assert_eq!(skipped.regs()[1], 0);
    let mut unchecked = Machine::new(&[MOVE_IF, 16, 2, 3]);
    assert_eq!(unchecked.move_if(), Ok(false));
    let mut checked = Machine::new(&[MOVE_IF, 16, 2, 3]);
    checked.set_reg(3, 1).unwrap();
    assert_eq!(checked.move_if(), Err(MachineError::InvalidRegisterNumb));
}

#[test]
fn move_if_reads_the_moved_instruction_pointer() {
    let mut machine = Machine::new(&[MOVE_IF, 1, 0, 0]);
    assert_eq!(machine.move_if(), Ok(false));
    assert_eq!(machine.regs()[1], 4);
}

#[test]
fn out_prints_a_character_in_utf8() {
    let (_, out, result) = run(&[LOADIMM, 1, b'H', 0, OUT, 1, LOADIMM, 1, 0xe9, 0, OUT, 1, EXIT]);
    assert_eq!(result, Ok(true));
    assert_eq!(out, "H\u{e9}".as_bytes());
    let mut machine = Machine::new(&[OUT, 1]);
    machine.set_reg(1, 0x1234_5641).unwrap();
    let mut sink = vec![b'>'];
    assert_eq!(machine.out(&mut sink), Ok(false));
    assert_eq!(sink, b">A");
    for code in 0..=255u8 {
        let mut m = Machine::new(&[OUT, 2]);
        m.set_reg(2, code as u32).unwrap();
        let mut bytes = Vec::new();
        assert_eq!(m.out(&mut bytes), Ok(false));
        assert_eq!(bytes, (code as char).to_string().as_bytes());
    }
}

#[test]
fn out_number_prints_a_signed_decimal() {
    for (word, text) in [
        (0u32, "0"),
        (7, "7"),
        (10, "10"),
        (12_345, "12345"),
        (0x7fff_ffff, "2147483647"),
        (0x8000_0000, "-2147483648"),
        (0xffff_ffff, "-1"),
        (0xffff_8000, "-32768"),
    ] {
        let mut machine = Machine::new(&[OUT_NUMBER, 1]);
        machine.set_reg(1, word).unwrap();
        let mut out = Vec::new();
        assert_eq!(machine.out_number(&mut out), Ok(false));
        assert_eq!(out, text.as_bytes());
        assert_eq!(out, (word as i32).to_string().as_bytes());
        assert_eq!(machine.regs()[0], 2);
    }
}

#[test]
fn countdown_program_prints_321() {
    let program = [
        LOADIMM, 1, 3, 0,
        LOADIMM, 2, 1, 0,
        LOADIMM, 3, 12, 0,
        OUT_NUMBER, 1,
        SUB, 1, 1, 2,
        MOVE_IF, 0, 3, 1,
        EXIT,
    ];
    let (machine, out, result) = run(&program);
    assert_eq!(result, Ok(true));
    assert_eq!(out, b"321");
    assert_eq!(machine.regs()[0], 23);
    assert_eq!(machine.regs()[1], 0);
}

#[test]
fn run_on_stops_when_the_steps_run_out() {
    let program = [LOADIMM, 1, 1, 0, LOADIMM, 2, 8, 0, MOVE_IF, 0, 2, 1];
    let mut machine = Machine::new(&program);
    let mut out = Vec::new();
    assert_eq!(machine.run_on(&mut out, 100), Ok(false));
    assert_eq!(machine.regs()[0], 8);
    assert_eq!(machine.run_on(&mut out, 0), Ok(false));
    let mut other = Machine::new(&[LOADIMM, 1, 1, 0, EXIT]);
    assert_eq!(other.run_on(&mut out, 1), Ok(false));
    assert_eq!(other.regs()[0], 4);
    assert_eq!(other.run_on(&mut out, 1), Ok(true));
}

#[test]
fn unknown_opcode_fails() {
    for opcode in [0u8, 9, 255] {
        let mut machine = Machine::new(&[opcode]);
        let mut out = Vec::new();
        assert_eq!(machine.step_on(&mut out), Err(MachineError::InvalidOpcode));
        assert_eq!(machine.regs()[0], 0);
    }
    let (_, _, result) = run(&[LOADIMM, 1, 1, 0, 200]);
    assert_eq!(result, Err(MachineError::InvalidOpcode));
}

#[test]
fn unknown_register_fails() {
    let (machine, _, result) = run(&[LOADIMM, 16, 1, 0]);
    assert_eq!(result, Err(MachineError::InvalidRegisterNumb));
    assert_eq!(machine.regs()[0], 4);
    let (_, out, result) = run(&[OUT, 200]);
    assert_eq!(result, Err(MachineError::InvalidRegisterNumb));
    assert!(out.is_empty());
    let (_, _, result) = run(&[SUB, 1, 2, 16]);
    assert_eq!(result, Err(MachineError::InvalidRegisterNumb));
}

#[test]
fn instruction_pointer_outside_memory_fails() {
    let mut machine = Machine::new(&[EXIT]);
    machine.set_reg(0, 4096).unwrap();
    let mut out = Vec::new();
    assert_eq!(machine.step_on(&mut out), Err(MachineError::InvalidMemAddr));
    assert_eq!(machine.regs()[0], 4096);
}

#[test]
fn operand_outside_memory_fails() {
    let mut program = vec![0u8; 4096];
    program[4094] = LOADIMM;
    let mut machine = Machine::new(&program);
    machine.set_reg(0, 4094).unwrap();
    let mut out = Vec::new();
    assert_eq!(machine.step_on(&mut out), Err(MachineError::InvalidMemAddr));
    assert_eq!(machine.regs()[0], 4098);
}

#[test]
fn errors_can_be_told_apart() {
    let all = [
        MachineError::InvalidOpcode,
        MachineError::InvalidRegisterNumb,
        MachineError::InvalidMemAddr,
        MachineError::WriteError,
    ];
    for (i, a) in all.iter().enumerate() {
        for (j, b) in all.iter().enumerate() {
            assert_eq!(a == b, i == j);
        }
    }
}
