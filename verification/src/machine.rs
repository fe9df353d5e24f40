//! A small register machine: sixteen 32-bit registers, 4096 bytes of
//! memory, eight instructions. Register 0 is the instruction pointer.

use vstd::prelude::*;

verus! {

/// Bytes of memory.
pub const MEMORY_SIZE: usize = 4096;

/// Number of registers.
pub const NREGS: usize = 16;

/// The register that holds the instruction pointer.
pub const IP: usize = 0;

/// The machine.
pub struct Machine {
    reg: [u32; 16],
    mem: [u8; 4096],
}

/// What can go wrong while an instruction is decoded or carried out.
#[derive(Clone, Copy, Debug, PartialEq, Eq, Structural)]
pub enum MachineError {
    InvalidOpcode,
    InvalidRegisterNumb,
    InvalidMemAddr,
    WriteError,
}

/// The registers and the memory of a machine, as sequences.
pub struct State {
    pub regs: Seq<u32>,
    pub mem: Seq<u8>,
}

/// What an instruction leaves behind: the state, the bytes it printed, and
/// whether the program ended (`Ok(true)`), goes on (`Ok(false)`) or failed.
pub struct Outcome {
    pub state: State,
    pub output: Seq<u8>,
    pub result: Result<bool, MachineError>,
}

/// The state with the instruction pointer moved on by `n`.
pub open spec fn advanced(s: State, n: int) -> State {
    State { regs: s.regs.update(0, (s.regs[0] + n) as u32), ..s }
}

/// The state with one register set.
pub open spec fn with_reg(s: State, r: int, value: u32) -> State {
    State { regs: s.regs.update(r, value), ..s }
}

/// An instruction that failed with `error` in state `s`.
pub open spec fn failed(s: State, error: MachineError) -> Outcome {
    Outcome { state: s, output: Seq::empty(), result: Err(error) }
}

/// An instruction that went through without printing.
pub open spec fn silent(s: State) -> Outcome {
    Outcome { state: s, output: Seq::empty(), result: Ok(false) }
}

/// The 32-bit word that four bytes stand for, least significant first.
pub open spec fn word_of(b0: u8, b1: u8, b2: u8, b3: u8) -> u32 {
    (b0 + 256 * b1 + 65536 * b2 + 16777216 * b3) as u32
}

/// Byte `k` of a 32-bit word, byte 0 being the least significant.
pub open spec fn byte_of(word: u32, k: int) -> u8 {
    if k == 0 {
        (word % 256) as u8
    } else if k == 1 {
        (word / 256 % 256) as u8
    } else if k == 2 {
        (word / 65536 % 256) as u8
    } else {
        (word / 16777216) as u8
    }
}

/// The 32-bit word that a signed 16-bit immediate stands for, given as two
/// bytes, least significant first: the sign is extended.
pub open spec fn immediate_of(low: u8, high: u8) -> u32 {
    if high < 128 {
        (low + 256 * high) as u32
    } else {
        (0xffff_0000 + low + 256 * high) as u32
    }
}

/// The difference of two words, wrapping around at 32 bits.
pub open spec fn wrapping_difference(b: u32, c: u32) -> u32 {
    if b >= c {
        (b - c) as u32
    } else {
        (b - c + 0x1_0000_0000) as u32
    }
}

/// The UTF-8 bytes of the character whose code is the low byte of a word.
pub open spec fn char_bytes(word: u32) -> Seq<u8> {
    let code = word % 256;
    if code < 128 {
        seq![code as u8]
    } else {
        seq![(192 + code / 64) as u8, (128 + code % 64) as u8]
    }
}

/// The decimal digits of a natural number, as ASCII.
pub open spec fn digits(n: nat) -> Seq<u8>
    decreases n,
{
    if n < 10 {
        seq![(48 + n) as u8]
    } else {
        digits(n / 10).push((48 + n % 10) as u8)
    }
}

/// The decimal form of a word read as a signed 32-bit number, as ASCII.
pub open spec fn number_bytes(word: u32) -> Seq<u8> {
    if word < 0x8000_0000 {
        digits(word as nat)
    } else {
        seq![45u8] + digits((0x1_0000_0000 - word) as nat)
    }
}

/// Conditional move: `move_if a b c` copies register `b` to register `a`
/// when register `c` is not zero. Four bytes.
pub open spec fn move_if_of(s: State) -> Outcome {
    let ip = s.regs[0] as int;
    let s1 = advanced(s, 4);
    if ip + 3 >= 4096 {
        failed(s1, MachineError::InvalidMemAddr)
    } else {
        let a = s.mem[ip + 1] as int;
        let b = s.mem[ip + 2] as int;
        let c = s.mem[ip + 3] as int;
        if b >= 16 || c >= 16 {
            failed(s1, MachineError::InvalidRegisterNumb)
        } else if s1.regs[c] == 0 {
            silent(s1)
        } else if a >= 16 {
            failed(s1, MachineError::InvalidRegisterNumb)
        } else {
            silent(with_reg(s1, a, s1.regs[b]))
        }
    }
}

/// Store: `store a b` writes register `b` to the four bytes of memory at
/// the address in register `a`, least significant byte first. Three bytes.
pub open spec fn store_of(s: State) -> Outcome {
    let ip = s.regs[0] as int;
    let s1 = advanced(s, 3);
    if ip + 2 >= 4096 {
        failed(s1, MachineError::InvalidMemAddr)
    } else {
        let a = s.mem[ip + 1] as int;
        let b = s.mem[ip + 2] as int;
        if a >= 16 || b >= 16 {
            failed(s1, MachineError::InvalidRegisterNumb)
        } else {
            let addr = s1.regs[a] as int;
            let word = s1.regs[b];
            if addr + 3 >= 4096 {
                failed(s1, MachineError::InvalidMemAddr)
            } else {
                silent(
                    State {
                        mem: s1.mem.update(addr, byte_of(word, 0)).update(
                            addr + 1,
                            byte_of(word, 1),
                        ).update(addr + 2, byte_of(word, 2)).update(addr + 3, byte_of(word, 3)),
                        ..s1
                    },
                )
            }
        }
    }
}

/// Load: `load a b` reads the four bytes of memory at the address in
/// register `b` into register `a`, least significant byte first. Three
/// bytes.
pub open spec fn load_of(s: State) -> Outcome {
    let ip = s.regs[0] as int;
    let s1 = advanced(s, 3);
    if ip + 2 >= 4096 {
        failed(s1, MachineError::InvalidMemAddr)
    } else {
        let a = s.mem[ip + 1] as int;
        let b = s.mem[ip + 2] as int;
        if b >= 16 {
            failed(s1, MachineError::InvalidRegisterNumb)
        } else {
            let addr = s1.regs[b] as int;
            if addr + 3 >= 4096 {
                failed(s1, MachineError::InvalidMemAddr)
            } else if a >= 16 {
                failed(s1, MachineError::InvalidRegisterNumb)
            } else {
                silent(
                    with_reg(
                        s1,
                        a,
                        word_of(s.mem[addr], s.mem[addr + 1], s.mem[addr + 2], s.mem[addr + 3]),
                    ),
                )
            }
        }
    }
}

/// Load immediate: `loadimm a l h` sets register `a` to the signed 16-bit
/// number `h:l`, sign-extended. Four bytes.
pub open spec fn loadimm_of(s: State) -> Outcome {
    let ip = s.regs[0] as int;
    let s1 = advanced(s, 4);
    if ip + 3 >= 4096 {
        failed(s1, MachineError::InvalidMemAddr)
    } else {
        let a = s.mem[ip + 1] as int;
        if a >= 16 {
            failed(s1, MachineError::InvalidRegisterNumb)
        } else {
            silent(with_reg(s1, a, immediate_of(s.mem[ip + 2], s.mem[ip + 3])))
        }
    }
}

/// Subtract: `sub a b c` sets register `a` to register `b` minus register
/// `c`, wrapping around. Four bytes.
pub open spec fn sub_of(s: State) -> Outcome {
    let ip = s.regs[0] as int;
    let s1 = advanced(s, 4);
    if ip + 3 >= 4096 {
        failed(s1, MachineError::InvalidMemAddr)
    } else {
        let a = s.mem[ip + 1] as int;
        let b = s.mem[ip + 2] as int;
        let c = s.mem[ip + 3] as int;
        if a >= 16 || b >= 16 || c >= 16 {
            failed(s1, MachineError::InvalidRegisterNumb)
        } else {
            silent(with_reg(s1, a, wrapping_difference(s1.regs[b], s1.regs[c])))
        }
    }
}

/// Print a character: `out a` prints the character whose code is the low
/// byte of register `a`, in UTF-8. Two bytes.
pub open spec fn out_of(s: State) -> Outcome {
    let ip = s.regs[0] as int;
    let s1 = advanced(s, 2);
    if ip + 1 >= 4096 {
        failed(s1, MachineError::InvalidMemAddr)
    } else {
        let a = s.mem[ip + 1] as int;
        if a >= 16 {
            failed(s1, MachineError::InvalidRegisterNumb)
        } else {
            Outcome { state: s1, output: char_bytes(s1.regs[a]), result: Ok(false) }
        }
    }
}

/// End the program: `exit`. One byte.
pub open spec fn exit_of(s: State) -> Outcome {
    Outcome { state: advanced(s, 1), output: Seq::empty(), result: Ok(true) }
}

/// Print a number: `out_number a` prints register `a` as a signed decimal
/// number. Two bytes.
pub open spec fn out_number_of(s: State) -> Outcome {
    let ip = s.regs[0] as int;
    let s1 = advanced(s, 2);
    if ip + 1 >= 4096 {
        failed(s1, MachineError::InvalidMemAddr)
    } else {
        let a = s.mem[ip + 1] as int;
        if a >= 16 {
            failed(s1, MachineError::InvalidRegisterNumb)
        } else {
            Outcome { state: s1, output: number_bytes(s1.regs[a]), result: Ok(false) }
        }
    }
}

/// One step: the instruction at the instruction pointer is decoded by its
/// first byte and carried out.
pub open spec fn step_of(s: State) -> Outcome {
    let ip = s.regs[0] as int;
    if ip >= 4096 {
        failed(s, MachineError::InvalidMemAddr)
    } else {
        let opcode = s.mem[ip];
        if opcode == 1 {
            move_if_of(s)
        } else if opcode == 2 {
            store_of(s)
        } else if opcode == 3 {
            load_of(s)
        } else if opcode == 4 {
            loadimm_of(s)
        } else if opcode == 5 {
            sub_of(s)
        } else if opcode == 6 {
            out_of(s)
        } else if opcode == 7 {
            exit_of(s)
        } else if opcode == 8 {
            out_number_of(s)
        } else {
            failed(s, MachineError::InvalidOpcode)
        }
    }
}

/// At most `limit` steps: the machine runs until the program ends, fails
/// or has used up the steps. The result is `Ok(true)` when it ended and
/// `Ok(false)` when the steps ran out.
pub open spec fn run_of(s: State, limit: nat) -> Outcome
    decreases limit,
{
    if limit == 0 {
        silent(s)
    } else {
        let first = step_of(s);
        if first.result == Ok::<bool, MachineError>(false) {
            let rest = run_of(first.state, (limit - 1) as nat);
            Outcome { output: first.output + rest.output, ..rest }
        } else {
            first
        }
    }
}

/// The memory of a machine that was just loaded with a program: the
/// program, then zeros.
pub open spec fn loaded(program: Seq<u8>) -> Seq<u8> {
    Seq::new(
        4096,
        |i: int|
            if i < program.len() {
                program[i]
            } else {
                0u8
            },
    )
}

impl View for Machine {
    type V = State;

    closed spec fn view(&self) -> State {
        State { regs: self.reg@, mem: self.mem@ }
    }
}

impl Machine {
    /// A machine has 16 registers and 4096 bytes of memory.
    pub proof fn lemma_sizes(&self)
        ensures
            self@.regs.len() == 16,
            self@.mem.len() == 4096,
    {
    }

    /// A machine in its reset state: every register zero, the program at
    /// the start of the memory and zeros after it. The program must fit in
    /// the memory.
    pub fn new(memory: &[u8]) -> (machine: Self)
        requires
            memory@.len() <= 4096,
        ensures
            machine@.regs == Seq::new(16, |i: int| 0u32),
            machine@.mem == loaded(memory@),
    {
        let mut initial_mem = [0u8;4096];
        let n = memory.len();
        for i in 0..n
            invariant
                n == memory@.len(),
                n <= 4096,
                forall|j: int| 0 <= j < i ==> initial_mem@[j] == memory@[j],
                forall|j: int| i <= j < 4096 ==> initial_mem@[j] == 0,
        {
            initial_mem[i] = memory[i];
        }
        let machine = Machine { mem: initial_mem, reg: [0u32;16] };
        assert(machine@.regs =~= Seq::new(16, |i: int| 0u32));
        assert(machine@.mem =~= loaded(memory@));
        machine
    }

    /// The registers.
    pub fn regs(&self) -> (regs: &[u32])
        ensures
            regs@ == self@.regs,
    {
        self.reg.as_slice()
    }

    /// Sets a register, if it exists.
    pub fn set_reg(&mut self, reg: usize, value: u32) -> (result: Result<(), MachineError>)
        ensures
            reg < 16 ==> result.is_ok() && final(self)@ == with_reg(old(self)@, reg as int, value),
            reg >= 16 ==> result == Err::<(), MachineError>(MachineError::InvalidRegisterNumb)
                && final(self)@ == old(self)@,
    {
        if reg >= NREGS {
            return Err(MachineError::InvalidRegisterNumb);
        }
        self.reg[reg] = value;
        Ok(())
    }

    /// The memory.
    pub fn memory(&self) -> (memory: &[u8])
        ensures
            memory@ == self@.mem,
    {
        self.mem.as_slice()
    }

    /// Reads one byte of memory, if the address is inside the memory.
    pub fn read_mem(&self, addr: usize) -> (result: Result<u8, MachineError>)
        ensures
            addr < 4096 ==> result == Ok::<u8, MachineError>(self@.mem[addr as int]),
            addr >= 4096 ==> result == Err::<u8, MachineError>(MachineError::InvalidMemAddr),
    {
        if addr < MEMORY_SIZE {
            Ok(self.mem[addr])
        } else {
            Err(MachineError::InvalidMemAddr)
        }
    }

    /// Reads a register, if it exists.
    pub fn read_reg(&self, reg_num: usize) -> (result: Result<u32, MachineError>)
        ensures
            reg_num < 16 ==> result == Ok::<u32, MachineError>(self@.regs[reg_num as int]),
            reg_num >= 16 ==> result == Err::<u32, MachineError>(
                MachineError::InvalidRegisterNumb,
            ),
    {
        if reg_num < NREGS {
            Ok(self.reg[reg_num])
        } else {
            Err(MachineError::InvalidRegisterNumb)
        }
    }

    /// Moves the instruction pointer on by the size of an instruction and
    /// gives the address that the instruction stands at.
    fn advance(&mut self, size: u32) -> (inst_addr: usize)
        requires
            old(self)@.regs[0] + size <= u32::MAX,
        ensures
            final(self)@ == advanced(old(self)@, size as int),
            inst_addr == old(self)@.regs[0],
    {
        let inst_addr = self.reg[IP] as usize;
        self.reg[IP] += size;
        inst_addr
    }

    /// Carries out a conditional move at the instruction pointer. Like the
    /// other instructions it asks that the instruction pointer can move on
    /// by the size of the instruction without leaving 32 bits, which holds
    /// whenever the instruction was read from the memory.
    pub fn move_if(&mut self) -> (result: Result<bool, MachineError>)
        requires
            old(self)@.regs[0] + 4 <= u32::MAX,
        ensures
            final(self)@ == move_if_of(old(self)@).state,
            result == move_if_of(old(self)@).result,
    {
        let inst_addr = self.advance(4);
        let reg_a = self.read_mem(inst_addr + 1)? as usize;
        let reg_b = self.read_mem(inst_addr + 2)? as usize;
        let reg_c = self.read_mem(inst_addr + 3)? as usize;
        let reg_b_cont: u32 = self.read_reg(reg_b)?;
        let reg_c_cont: u32 = self.read_reg(reg_c)?;
        if reg_c_cont != 0 {
            self.set_reg(reg_a, reg_b_cont)?;
        }
        Ok(false)
    }

    /// Carries out a store at the instruction pointer.
    pub fn store(&mut self) -> (result: Result<bool, MachineError>)
        requires
            old(self)@.regs[0] + 3 <= u32::MAX,
        ensures
            final(self)@ == store_of(old(self)@).state,
            result == store_of(old(self)@).result,
    {
        let inst_addr = self.advance(3);
        let reg_a = self.read_mem(inst_addr + 1)? as usize;
        let reg_b = self.read_mem(inst_addr + 2)? as usize;
        let reg_a_cont = self.read_reg(reg_a)? as usize;
        let reg_b_cont = self.read_reg(reg_b)?;
        if reg_a_cont < MEMORY_SIZE - 3 {
            self.mem[reg_a_cont] = (reg_b_cont % 256) as u8;
            self.mem[reg_a_cont + 1] = (reg_b_cont / 256 % 256) as u8;
            self.mem[reg_a_cont + 2] = (reg_b_cont / 65536 % 256) as u8;
            self.mem[reg_a_cont + 3] = (reg_b_cont / 16777216) as u8;
        } else {
            return Err(MachineError::InvalidMemAddr);
        }
        Ok(false)
    }

    /// Carries out a load at the instruction pointer.
    pub fn load(&mut self) -> (result: Result<bool, MachineError>)
        requires
            old(self)@.regs[0] + 3 <= u32::MAX,
        ensures
            final(self)@ == load_of(old(self)@).state,
            result == load_of(old(self)@).result,
    {
        let instr_addr = self.advance(3);
        let reg_a = self.read_mem(instr_addr + 1)? as usize;
        let reg_b = self.read_mem(instr_addr + 2)? as usize;
        let addr = self.read_reg(reg_b)? as usize;
        if addr < MEMORY_SIZE - 3 {
            let b0 = self.read_mem(addr)? as u32;
            let b1 = self.read_mem(addr + 1)? as u32;
            let b2 = self.read_mem(addr + 2)? as u32;
            let b3 = self.read_mem(addr + 3)? as u32;
            self.set_reg(reg_a, b0 + 256 * b1 + 65536 * b2 + 16777216 * b3)?;
        } else {
            return Err(MachineError::InvalidMemAddr);
        }
        Ok(false)
    }

    /// Carries out a load immediate at the instruction pointer.
    pub fn loadimm(&mut self) -> (result: Result<bool, MachineError>)
        requires
            old(self)@.regs[0] + 4 <= u32::MAX,
        ensures
            final(self)@ == loadimm_of(old(self)@).state,
            result == loadimm_of(old(self)@).result,
    {
        let inst_addr = self.advance(4);
        let reg_a = self.read_mem(inst_addr + 1)? as usize;
        let low = self.read_mem(inst_addr + 2)? as u32;
        let high = self.read_mem(inst_addr + 3)? as u32;
        let word: u32 = if high < 128 {
            low + 256 * high
        } else {
            0xffff_0000 + low + 256 * high
        };
        self.set_reg(reg_a, word)?;
        Ok(false)
    }

    /// Carries out a subtraction at the instruction pointer.
    pub fn sub(&mut self) -> (result: Result<bool, MachineError>)
        requires
            old(self)@.regs[0] + 4 <= u32::MAX,
        ensures
            final(self)@ == sub_of(old(self)@).state,
            result == sub_of(old(self)@).result,
    {
        let inst_addr = self.advance(4);
        let reg_a = self.read_mem(inst_addr + 1)? as usize;
        let reg_b = self.read_mem(inst_addr + 2)? as usize;
        let reg_c = self.read_mem(inst_addr + 3)? as usize;
        let reg_b_cont = self.read_reg(reg_b)?;
        let reg_c_cont = self.read_reg(reg_c)?;
        let result = reg_b_cont.wrapping_sub(reg_c_cont);
        self.set_reg(reg_a, result)?;
        Ok(false)
    }

    /// Ends the program.
    pub fn exit(&mut self) -> (result: Result<bool, MachineError>)
        requires
            old(self)@.regs[0] + 1 <= u32::MAX,
        ensures
            final(self)@ == exit_of(old(self)@).state,
            result == exit_of(old(self)@).result,
    {
        self.advance(1);
        Ok(true)
    }

    /// Prints a character at the instruction pointer: its UTF-8 bytes are
    /// appended to `fd`.
    pub fn out(&mut self, fd: &mut Vec<u8>) -> (result: Result<bool, MachineError>)
        requires
            old(self)@.regs[0] + 2 <= u32::MAX,
        ensures
            final(self)@ == out_of(old(self)@).state,
            final(fd)@ == old(fd)@ + out_of(old(self)@).output,
            result == out_of(old(self)@).result,
    {
        proof {
            assert(old(fd)@ + Seq::<u8>::empty() =~= old(fd)@);
        }
        let inst_addr = self.advance(2);
        let reg_a = self.read_mem(inst_addr + 1)? as usize;
        let code = self.read_reg(reg_a)? % 256;
        if code < 128 {
            fd.push(code as u8);
            assert(fd@ =~= old(fd)@ + seq![code as u8]);
        } else {
            fd.push((192 + code / 64) as u8);
            fd.push((128 + code % 64) as u8);
            assert(fd@ =~= old(fd)@ + seq![(192 + code / 64) as u8, (128 + code % 64) as u8]);
        }
        Ok(false)
    }

    /// Prints a number at the instruction pointer: its decimal form, with
    /// a minus sign when it is negative as a signed 32-bit number, is
    /// appended to `fd`.
    pub fn out_number(&mut self, fd: &mut Vec<u8>) -> (result: Result<bool, MachineError>)
        requires
            old(self)@.regs[0] + 2 <= u32::MAX,
        ensures
            final(self)@ == out_number_of(old(self)@).state,
            final(fd)@ == old(fd)@ + out_number_of(old(self)@).output,
            result == out_number_of(old(self)@).result,
    {
        proof {
            assert(old(fd)@ + Seq::<u8>::empty() =~= old(fd)@);
        }
        let inst_addr = self.advance(2);
        let reg_a = self.read_mem(inst_addr + 1)? as usize;
        let number = self.read_reg(reg_a)?;
        if number < 0x8000_0000 {
            push_digits(number, fd);
        } else {
            fd.push(45u8);
            let ghost signed = fd@;
            push_digits((0xffff_ffff - number) + 1, fd);
            assert(fd@ =~= old(fd)@ + (seq![45u8] + digits((0x1_0000_0000 - number) as nat)));
        }
        Ok(false)
    }

    /// Carries out the instruction at the instruction pointer. What the
    /// instruction prints is appended to `fd`. The result is `Ok(true)`
    /// when the program ended and `Ok(false)` when it goes on.
    pub fn step_on(&mut self, fd: &mut Vec<u8>) -> (result: Result<bool, MachineError>)
        ensures
            final(self)@ == step_of(old(self)@).state,
            final(fd)@ == old(fd)@ + step_of(old(self)@).output,
            result == step_of(old(self)@).result,
    {
        proof {
            assert(old(fd)@ + Seq::<u8>::empty() =~= old(fd)@);
        }
        let inst_addr = self.reg[IP] as usize;
        let opcode = self.read_mem(inst_addr)?;
        match opcode {
            1 => self.move_if(),
            2 => self.store(),
            3 => self.load(),
            4 => self.loadimm(),
            5 => self.sub(),
            6 => self.out(fd),
            7 => self.exit(),
            8 => self.out_number(fd),
            _ => Err(MachineError::InvalidOpcode),
        }
    }

    /// Runs the program for at most `limit` steps. What it prints is
    /// appended to `fd`. The result is `Ok(true)` when the program ended,
    /// `Ok(false)` when the steps ran out first, and the error of the step
    /// that failed otherwise.
    pub fn run_on(&mut self, fd: &mut Vec<u8>, limit: u64) -> (result: Result<bool, MachineError>)
        ensures
            final(self)@ == run_of(old(self)@, limit as nat).state,
            final(fd)@ == old(fd)@ + run_of(old(self)@, limit as nat).output,
            result == run_of(old(self)@, limit as nat).result,
    {
        let mut left = limit;
        let ghost mut printed = Seq::<u8>::empty();
        proof {
            assert(old(fd)@ + printed =~= old(fd)@);
        }
        while left > 0
            invariant
                fd@ == old(fd)@ + printed,
                run_of(old(self)@, limit as nat) == (Outcome {
                    output: printed + run_of(self@, left as nat).output,
                    ..run_of(self@, left as nat)
                }),
            decreases left,
        {
            let ghost before = self@;
            let ghost first = step_of(before);
            match self.step_on(fd) {
                Ok(false) => {},
                other => {
                    proof {
                        assert(fd@ =~= old(fd)@ + (printed + first.output));
                    }
                    return other;
                },
            }
            proof {
                let rest = run_of(first.state, (left - 1) as nat);
                assert(printed + (first.output + rest.output) =~= (printed + first.output)
                    + rest.output);
                assert(fd@ =~= old(fd)@ + (printed + first.output));
                printed = printed + first.output;
            }
            left = left - 1;
        }
        proof {
            assert(printed + Seq::<u8>::empty() =~= printed);
        }
        Ok(false)
    }
}

/// Appends the decimal digits of a number.
fn push_digits(n: u32, out: &mut Vec<u8>)
    ensures
        final(out)@ == old(out)@ + digits(n as nat),
    decreases n,
{
    if n >= 10 {
        push_digits(n / 10, out);
    }
    let ghost head = out@;
    out.push((48 + n % 10) as u8);
    proof {
        if n >= 10 {
            assert(out@ =~= old(out)@ + digits(n as nat));
        } else {
            assert(out@ =~= old(out)@ + digits(n as nat));
        }
    }
}

} // verus!
