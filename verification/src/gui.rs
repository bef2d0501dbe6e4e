//! The emulator's debugger window, apart from drawing: the machine it drives, the
//! program text it shows, its breakpoints, the output it lists and the start address
//! of its memory view, and how each message from the window changes them.
//!
//! Float tasks go to a host function, as for `VM::step_with`; what the window prints
//! and logs is handed back to the front end.
use vstd::prelude::*;
use std::collections::HashSet;
use crate::text::{join, join_strings, owned, copy_strings, string_views};
use crate::scanner::{lines_of, split_lines};
use crate::display::{
    format_memory, format_registers, format_state_log, floats_given, memory_view, register_listing,
    sorted_by_key, state_log, value_shown,
};
use crate::vm::{
    parse_iloc, program_lines, text_option, ran_with, run_trace, printed_by, lemma_ran_moves_on, Fault,
    FaultV, FloatTask, Answer, Step, StepV, Stop, Value, VmV, VM, named_view,
};

verus! {

/// What the window asks of the debugger.
#[derive(Debug, Clone)]
pub enum Message {
    /// Run one instruction.
    Step,
    /// Run until the program ends or reaches a breakpoint.
    Run,
    /// Put the machine back to the start of the program.
    Reset,
    /// Set or clear the breakpoint on an instruction line.
    ToggleBreakpoint(usize),
    /// Go on running until the program ends or reaches a breakpoint.
    Continue,
    /// The memory view's start address, as typed (hexadecimal).
    UpdateMemoryStart(String),
    /// Forget the output.
    ClearOutput,
    /// Add a line to the output shown.
    AddOutput(String),
    /// Bring an instruction line into view.
    ScrollTo(usize),
}

pub enum MessageV {
    Step,
    Run,
    Reset,
    ToggleBreakpoint(usize),
    Continue,
    UpdateMemoryStart(Seq<char>),
    ClearOutput,
    AddOutput(Seq<char>),
    ScrollTo(usize),
}

impl View for Message {
    type V = MessageV;

    open spec fn view(&self) -> MessageV {
        match self {
            Message::Step => MessageV::Step,
            Message::Run => MessageV::Run,
            Message::Reset => MessageV::Reset,
            Message::ToggleBreakpoint(l) => MessageV::ToggleBreakpoint(*l),
            Message::Continue => MessageV::Continue,
            Message::UpdateMemoryStart(a) => MessageV::UpdateMemoryStart(a@),
            Message::ClearOutput => MessageV::ClearOutput,
            Message::AddOutput(t) => MessageV::AddOutput(t@),
            Message::ScrollTo(row) => MessageV::ScrollTo(*row),
        }
    }
}

/// What the front end does after a message.
#[derive(Debug)]
pub enum Command {
    /// Nothing more.
    Nothing,
    /// Deliver this message next.
    Send(Message),
    /// Scroll the instruction list so that this line shows.
    ScrollInstructions(usize),
    /// Write out the machine's state.
    LogState,
    /// An instruction could not run.
    Fault(Fault),
}

pub enum CommandV {
    Nothing,
    Send(MessageV),
    ScrollInstructions(usize),
    LogState,
    Fault(FaultV),
}

impl View for Command {
    type V = CommandV;

    open spec fn view(&self) -> CommandV {
        match self {
            Command::Nothing => CommandV::Nothing,
            Command::Send(m) => CommandV::Send(m@),
            Command::ScrollInstructions(row) => CommandV::ScrollInstructions(*row),
            Command::LogState => CommandV::LogState,
            Command::Fault(f) => CommandV::Fault(f@),
        }
    }
}

/// The debugger's state: the machine, the program as text, the output shown, the lines
/// with a breakpoint, the memory view's start address as typed, and whether a run is
/// under way.
pub struct GuiV {
    pub vm: VmV,
    pub program_text: Seq<char>,
    pub output: Seq<Seq<char>>,
    pub breakpoints: Set<usize>,
    pub memory_start_addr: Seq<char>,
    pub is_running: bool,
}

/// The debugger.
pub struct EmulatorGui {
    vm: VM,
    program_text: String,
    output: Vec<String>,
    breakpoints: HashSet<usize>,
    memory_start_addr: String,
    is_running: bool,
}

impl View for EmulatorGui {
    type V = GuiV;

    closed spec fn view(&self) -> GuiV {
        GuiV {
            vm: self.vm.state(),
            program_text: self.program_text@,
            output: string_views(self.output@),
            breakpoints: self.breakpoints@,
            memory_start_addr: self.memory_start_addr@,
            is_running: self.is_running,
        }
    }
}

/// The breakpoints with the one on `line` set when it was clear, cleared when it was set.
pub open spec fn toggled(bps: Set<usize>, line: usize) -> Set<usize> {
    if bps.contains(line) { bps.remove(line) } else { bps.insert(line) }
}

/// The debugger once its machine is `vm` after running: the output shown is the
/// machine's.
pub open spec fn after_run(g: GuiV, vm: VmV, is_running: bool) -> GuiV {
    GuiV { vm, output: vm.output, is_running, ..g }
}

/// A new machine with 1024 bytes of memory and the program read from `text`.
pub open spec fn fresh_machine(text: Seq<char>) -> VmV {
    VmV {
        registers: Seq::empty(),
        memory: Seq::new(1024, |i: int| 0u8),
        memory_map: Seq::empty(),
        pc: 0,
        program: program_lines(lines_of(text)),
        output: Seq::empty(),
        next_addr: 0,
    }
}

/// The texts a step printed.
pub open spec fn printed_seq(p: Option<Seq<char>>) -> Seq<Seq<char>> {
    match p {
        Some(t) => seq![t],
        None => Seq::empty(),
    }
}

/// `Step`: one instruction runs. When it ran, the output shown is the machine's, a run
/// under way stops at a breakpoint, and the window is to scroll to the next
/// instruction; when none was left the state is logged; a fault changes nothing.
pub open spec fn step_message<F: Fn(&FloatTask) -> Answer>(host: F, g: GuiV, g2: GuiV, printed: Seq<Seq<char>>, cmd: CommandV) -> bool {
    match cmd {
        CommandV::Send(MessageV::ScrollTo(row)) => exists|p: Option<Seq<char>>|
            #[trigger] ran_with(host, g.vm, StepV::Ran(p), g2.vm)
                && printed == printed_seq(p)
                && row == g2.vm.pc
                && g2 == after_run(g, g2.vm, if g.breakpoints.contains(g2.vm.pc) { false } else { g.is_running }),
        CommandV::LogState => ran_with(host, g.vm, StepV::Halted, g2.vm) && g2 == g && printed.len() == 0,
        CommandV::Fault(f) => ran_with(host, g.vm, StepV::Fault(f), g2.vm) && g2 == g && printed.len() == 0,
        _ => false,
    }
}

/// `Run` and `Continue`: the machine runs until the program ends, an instruction cannot
/// run, or the next instruction holds a breakpoint; the output shown is the machine's
/// and the run is under way no more only when it stopped at a breakpoint. The state is
/// logged afterwards, unless an instruction faulted.
pub open spec fn run_message<F: Fn(&FloatTask) -> Answer>(host: F, g: GuiV, g2: GuiV, printed: Seq<Seq<char>>, cmd: CommandV) -> bool {
    exists|sts: Seq<VmV>, rs: Seq<StepV>|
        #[trigger] run_trace(host, g.breakpoints, sts, rs)
            && sts[0] == g.vm
            && printed == printed_by(rs)
            && g2 == after_run(g, sts.last(), !(rs.last() is Ran))
            && cmd == match rs.last() {
                StepV::Fault(f) => CommandV::Fault(f),
                _ => CommandV::LogState,
            }
}

/// What a message does to the debugger `g`, giving `g2`, the texts printed on the way
/// and the command for the front end.
pub open spec fn updated<F: Fn(&FloatTask) -> Answer>(host: F, g: GuiV, m: MessageV, g2: GuiV, printed: Seq<Seq<char>>, cmd: CommandV) -> bool {
    match m {
        MessageV::Step => step_message(host, g, g2, printed, cmd),
        MessageV::Run => run_message(host, g, g2, printed, cmd),
        MessageV::Continue => run_message(host, g, g2, printed, cmd),
        MessageV::Reset => printed.len() == 0 && cmd == CommandV::LogState
            && g2 == GuiV { vm: fresh_machine(g.program_text), output: Seq::empty(), is_running: false, ..g },
        MessageV::ToggleBreakpoint(line) => printed.len() == 0 && cmd == CommandV::Nothing
            && g2 == GuiV { breakpoints: toggled(g.breakpoints, line), ..g },
        MessageV::UpdateMemoryStart(a) => printed.len() == 0 && cmd == CommandV::Nothing
            && g2 == GuiV { memory_start_addr: a, ..g },
        MessageV::ClearOutput => printed.len() == 0 && cmd == CommandV::Nothing
            && g2 == GuiV { vm: VmV { output: Seq::empty(), ..g.vm }, output: Seq::empty(), ..g },
        MessageV::AddOutput(t) => printed.len() == 0 && cmd == CommandV::Nothing
            && g2 == GuiV { output: g.output.push(t), ..g },
        MessageV::ScrollTo(row) => printed.len() == 0 && cmd == CommandV::ScrollInstructions(row) && g2 == g,
    }
}

impl EmulatorGui {
    /// A debugger for `vm`: it shows the machine's program, one instruction a line, with
    /// no breakpoint and no output, and its memory view starts at address 0.
    pub fn new(vm: VM) -> (r: EmulatorGui)
        ensures
            r@ == (GuiV {
                vm: vm.state(),
                program_text: join(vm.state().program, "\n"@),
                output: Seq::empty(),
                breakpoints: Set::empty(),
                memory_start_addr: "0"@,
                is_running: false,
            }),
    {
        let program = vm.get_program();
        let program_text = join_strings(&program, "\n");
        let r = EmulatorGui {
            vm,
            program_text,
            output: Vec::new(),
            breakpoints: HashSet::new(),
            memory_start_addr: owned("0"),
            is_running: false,
        };
        assert(string_views(r.output@) =~= Seq::<Seq<char>>::empty());
        r
    }

    /// The window's title.
    pub fn title(&self) -> (r: String)
        ensures
            r@ == "ILOC Emulator"@,
    {
        owned("ILOC Emulator")
    }

    /// Handles one message (see `updated`); float tasks go to `host`. Returns the texts
    /// the machine printed and what the front end does next.
    pub fn update<F: Fn(&FloatTask) -> Answer>(&mut self, message: Message, host: &F) -> (r: (Vec<String>, Command))
        requires
            forall|t: &FloatTask| host.requires((t,)),
        ensures
            updated(*host, old(self)@, message@, final(self)@, string_views(r.0@), r.1@),
    {
        broadcast use vstd::std_specs::hash::group_hash_axioms;
        let ghost g = self@;
        let nothing: Vec<String> = Vec::new();
        assert(string_views(nothing@) =~= Seq::<Seq<char>>::empty());
        match message {
            Message::Step => {
                let r = self.vm.step_with(host);
                match r {
                    Step::Ran(p) => {
                        let ghost pv: Option<Seq<char>> = text_option(p);
                        let mut printed: Vec<String> = Vec::new();
                        match p {
                            Some(t) => {
                                printed.push(t);
                            },
                            None => {},
                        }
                        assert(string_views(printed@) =~= printed_seq(pv));
                        let pc = self.vm.get_state().2;
                        self.output = copy_strings(self.vm.get_output());
                        if self.breakpoints.contains(&pc) {
                            self.is_running = false;
                        }
                        assert(ran_with(*host, g.vm, StepV::Ran(pv), self@.vm));
                        (printed, Command::Send(Message::ScrollTo(pc)))
                    },
                    Step::Halted => {
                        proof {
                            let ans = choose|answers: Seq<Answer>|
                                #[trigger] crate::vm::hosted(*host, g.vm, answers)
                                    && crate::vm::step_result(g.vm, crate::vm::answers_view(answers)) == (StepV::Halted, self@.vm);
                            lemma_ran_moves_on(g.vm, crate::vm::answers_view(ans));
                        }
                        (nothing, Command::LogState)
                    },
                    Step::Fault(f) => {
                        proof {
                            let ans = choose|answers: Seq<Answer>|
                                #[trigger] crate::vm::hosted(*host, g.vm, answers)
                                    && crate::vm::step_result(g.vm, crate::vm::answers_view(answers)) == (StepV::Fault(f@), self@.vm);
                            lemma_ran_moves_on(g.vm, crate::vm::answers_view(ans));
                        }
                        (nothing, Command::Fault(f))
                    },
                    Step::Need(_) => (nothing, Command::Nothing),
                }
            },
            Message::Run => self.run_to_stop(host),
            Message::Continue => self.run_to_stop(host),
            Message::Reset => {
                let mut vm = VM::new(1024);
                match parse_iloc(self.program_text.as_str()) {
                    Ok(program) => vm.load_program(program),
                    Err(_) => {},
                }
                vm.clear_output();
                self.vm = vm;
                self.output = Vec::new();
                self.is_running = false;
                assert(string_views(self.output@) =~= Seq::<Seq<char>>::empty());
                assert(self@ =~= (GuiV { vm: fresh_machine(g.program_text), output: Seq::empty(), is_running: false, ..g }));
                (nothing, Command::LogState)
            },
            Message::ToggleBreakpoint(line) => {
                if self.breakpoints.contains(&line) {
                    self.breakpoints.remove(&line);
                } else {
                    self.breakpoints.insert(line);
                }
                (nothing, Command::Nothing)
            },
            Message::UpdateMemoryStart(addr) => {
                self.memory_start_addr = addr;
                (nothing, Command::Nothing)
            },
            Message::ClearOutput => {
                self.vm.clear_output();
                self.output = Vec::new();
                assert(string_views(self.output@) =~= Seq::<Seq<char>>::empty());
                (nothing, Command::Nothing)
            },
            Message::AddOutput(text) => {
                let ghost before = self.output@;
                self.output.push(text);
                assert(string_views(self.output@) =~= string_views(before).push(text@));
                (nothing, Command::Nothing)
            },
            Message::ScrollTo(row) => (nothing, Command::ScrollInstructions(row)),
        }
    }

    /// `Run` and `Continue` (see `run_message`).
    fn run_to_stop<F: Fn(&FloatTask) -> Answer>(&mut self, host: &F) -> (r: (Vec<String>, Command))
        requires
            forall|t: &FloatTask| host.requires((t,)),
        ensures
            run_message(*host, old(self)@, final(self)@, string_views(r.0@), r.1@),
    {
        let ghost g = self@;
        self.is_running = true;
        let (printed, stop) = self.vm.run_until(host, &self.breakpoints);
        let ghost (sts, rs) = choose|sts: Seq<VmV>, rs: Seq<StepV>|
            #[trigger] run_trace(*host, g.breakpoints, sts, rs)
                && sts[0] == g.vm
                && sts.last() == self@.vm
                && crate::vm::stopped_as(stop, rs.last())
                && printed_by(rs) == string_views(printed@);
        self.output = copy_strings(self.vm.get_output());
        let cmd = match stop {
            Stop::Breakpoint => {
                self.is_running = false;
                Command::LogState
            },
            Stop::Halted => Command::LogState,
            Stop::Fault(f) => Command::Fault(f),
        };
        assert(run_trace(*host, g.breakpoints, sts, rs));
        (printed, cmd)
    }
}

/// One line of the instruction list: its index, its text, whether it is the next
/// instruction, and whether it holds a breakpoint.
pub struct InstructionLine {
    pub index: usize,
    pub text: String,
    pub is_current: bool,
    pub has_breakpoint: bool,
}

pub open spec fn is_hex_digit(c: char) -> bool {
    ('0' <= c <= '9') || ('a' <= c <= 'f') || ('A' <= c <= 'F')
}

pub open spec fn hex_digit_value(c: char) -> nat {
    if '0' <= c <= '9' {
        (c as int - '0' as int) as nat
    } else if 'a' <= c <= 'f' {
        (c as int - 'a' as int + 10) as nat
    } else {
        (c as int - 'A' as int + 10) as nat
    }
}

/// The value of a string of hexadecimal digits.
pub open spec fn hex_value(d: Seq<char>) -> nat
    decreases d.len(),
{
    if d.len() == 0 { 0 } else { hex_value(d.drop_last()) * 16 + hex_digit_value(d.last()) }
}

pub open spec fn all_hex(d: Seq<char>) -> bool {
    forall|i: int| 0 <= i < d.len() ==> is_hex_digit(#[trigger] d[i])
}

/// A hexadecimal numeral as `usize::from_str_radix(s, 16)` reads it: an optional `+`,
/// then one or more hexadecimal digits, with a value that fits.
pub open spec fn parse_hex(s: Seq<char>) -> Option<usize> {
    let d = if s.len() > 0 && s[0] == '+' { s.drop_first() } else { s };
    if d.len() > 0 && all_hex(d) && hex_value(d) <= usize::MAX {
        Some(hex_value(d) as usize)
    } else {
        None
    }
}

fn hex_digit_value_exec(c: char) -> (v: usize)
    requires
        is_hex_digit(c),
    ensures
        v == hex_digit_value(c),
        v < 16,
{
    if '0' <= c && c <= '9' {
        (c as u32 - '0' as u32) as usize
    } else if 'a' <= c && c <= 'f' {
        (c as u32 - 'a' as u32 + 10) as usize
    } else {
        (c as u32 - 'A' as u32 + 10) as usize
    }
}

fn parse_hex_exec(s: &String) -> (r: Option<usize>)
    ensures
        r == parse_hex(s@),
{
    let cs = crate::text::chars_of(s.as_str());
    let from: usize = if cs.len() > 0 && cs[0] == '+' { 1 } else { 0 };
    let ghost d = if s@.len() > 0 && s@[0] == '+' { s@.drop_first() } else { s@ };
    assert(cs@.skip(from as int) =~= d);
    if from >= cs.len() {
        return None;
    }
    let mut v: usize = 0;
    let mut i: usize = from;
    while i < cs.len()
        invariant
            from <= i <= cs.len(),
            cs@.skip(from as int) == d,
            d == (if s@.len() > 0 && s@[0] == '+' { s@.drop_first() } else { s@ }),
            d.len() > 0,
            forall|k: int| 0 <= k < i - from ==> is_hex_digit(#[trigger] d[k]),
            v as nat == hex_value(d.take(i - from)),
        decreases cs.len() - i,
    {
        let c = cs[i];
        if !(('0' <= c && c <= '9') || ('a' <= c && c <= 'f') || ('A' <= c && c <= 'F')) {
            assert(c == d[i - from]);
            assert(!is_hex_digit(d[i - from]));
            assert(!all_hex(d));
            return None;
        }
        let x = hex_digit_value_exec(c);
        assert(d.take(i + 1 - from).drop_last() =~= d.take(i - from));
        if v > (usize::MAX - x) / 16 {
            proof {
                assert(v * 16 + x > usize::MAX) by (nonlinear_arith)
                    requires v > (usize::MAX - x) / 16, x < 16;
                assert(hex_value(d.take(i + 1 - from)) == v * 16 + x);
                lemma_hex_value_grows(d, (i + 1 - from) as int, d.len() as int);
                assert(d.take(d.len() as int) =~= d);
            }
            return None;
        }
        v = v * 16 + x;
        i = i + 1;
    }
    assert(d.take(d.len() as int) =~= d);
    assert(all_hex(d));
    Some(v)
}

/// A longer string of digits has at least the value of its prefix.
proof fn lemma_hex_value_grows(d: Seq<char>, a: int, b: int)
    requires
        0 <= a <= b <= d.len(),
    ensures
        hex_value(d.take(a)) <= hex_value(d.take(b)),
    decreases b - a,
{
    if a < b {
        lemma_hex_value_grows(d, a, b - 1);
        assert(d.take(b).drop_last() =~= d.take(b - 1));
    }
}

impl EmulatorGui {
    /// The machine.
    pub fn vm(&self) -> (r: &VM)
        ensures
            r.state() == self@.vm,
    {
        &self.vm
    }

    /// The output shown.
    pub fn output(&self) -> (r: &Vec<String>)
        ensures
            string_views(r@) == self@.output,
    {
        &self.output
    }

    /// The memory view's start address as typed.
    pub fn memory_start_addr(&self) -> (r: &String)
        ensures
            r@ == self@.memory_start_addr,
    {
        &self.memory_start_addr
    }

    /// Whether a run is under way.
    pub fn is_running(&self) -> (r: bool)
        ensures
            r == self@.is_running,
    {
        self.is_running
    }

    /// Where the memory view starts: the address typed, read in hexadecimal, or 0 when it
    /// is no such number.
    pub fn memory_start(&self) -> (r: usize)
        ensures
            r == match parse_hex(self@.memory_start_addr) {
                Some(a) => a,
                None => 0,
            },
    {
        match parse_hex_exec(&self.memory_start_addr) {
            Some(a) => a,
            None => 0,
        }
    }

    /// The register list, in order of register numbers; floats written by `host`.
    pub fn format_registers<F: Fn(&FloatTask) -> Answer>(&self, host: &F) -> (r: String)
        requires
            forall|x: &FloatTask| host.requires((x,)),
        ensures
            exists|sorted: Seq<(Seq<char>, Value)>, texts: Seq<Seq<char>>|
                #[trigger] register_listing(sorted, texts) == r@
                    && sorted.to_multiset() == self@.vm.registers.to_multiset()
                    && sorted_by_key(sorted)
                    && texts.len() == sorted.len()
                    && forall|i: int| 0 <= i < texts.len() ==> value_shown(*host, sorted[i].1, #[trigger] texts[i]),
    {
        let (regs, _, _) = self.vm.get_state();
        format_registers(regs, host)
    }

    /// The memory view from `start_addr`; each float's text is asked of `float_text`.
    pub fn format_memory_view<G: Fn(u32) -> String>(&self, start_addr: usize, float_text: &G) -> (r: String)
        requires
            forall|b: u32| float_text.requires((b,)),
        ensures
            exists|floats: Seq<String>|
                #[trigger] floats_given(*float_text, self@.vm.memory, start_addr as int, floats)
                    && r@ == memory_view(self@.vm.memory, start_addr as int, string_views(floats)),
    {
        let (_, memory, _) = self.vm.get_state();
        let r = format_memory(memory, start_addr, float_text);
        proof {
            let floats = choose|floats: Seq<String>|
                #[trigger] floats_given(*float_text, memory@, start_addr as int, floats)
                    && r@ == memory_view(memory@, start_addr as int, string_views(floats));
            assert(floats_given(*float_text, self@.vm.memory, start_addr as int, floats));
        }
        r
    }

    /// The state log (see `state_log`); floats written by `host`.
    pub fn log_state<F: Fn(&FloatTask) -> Answer>(&self, host: &F) -> (r: String)
        requires
            forall|x: &FloatTask| host.requires((x,)),
        ensures
            exists|texts: Seq<Seq<char>>|
                #[trigger] state_log(self@.vm.registers, texts, self@.vm.memory, self@.vm.pc) == r@
                    && texts.len() == self@.vm.registers.len()
                    && forall|i: int| 0 <= i < texts.len() ==> value_shown(*host, self@.vm.registers[i].1, #[trigger] texts[i]),
    {
        let (regs, memory, pc) = self.vm.get_state();
        let r = format_state_log(regs, memory, pc, host);
        proof {
            let texts = choose|texts: Seq<Seq<char>>|
                #[trigger] state_log(named_view(regs@), texts, memory@, pc) == r@
                    && texts.len() == regs@.len()
                    && forall|i: int| 0 <= i < texts.len() ==> value_shown(*host, regs@[i].1, #[trigger] texts[i]);
            assert(state_log(self@.vm.registers, texts, self@.vm.memory, self@.vm.pc) == r@);
            assert forall|i: int| 0 <= i < texts.len() implies value_shown(*host, self@.vm.registers[i].1, #[trigger] texts[i]) by {
                assert(self@.vm.registers[i].1 == regs@[i].1);
            }
        }
        r
    }

    /// The lines of the program text, each with its index, whether it is the next
    /// instruction and whether it holds a breakpoint; and the index of the next
    /// instruction's line, when there is one.
    pub fn instruction_rows(&self) -> (r: (Vec<InstructionLine>, Option<usize>))
        ensures
            r.0@.len() == lines_of(self@.program_text).len(),
            forall|i: int| 0 <= i < r.0@.len() ==> {
                let l = #[trigger] r.0@[i];
                &&& l.index == i
                &&& l.text@ == lines_of(self@.program_text)[i]
                &&& l.is_current == (i == self@.vm.pc)
                &&& l.has_breakpoint == self@.breakpoints.contains(i as usize)
            },
            r.1 == (if self@.vm.pc < lines_of(self@.program_text).len() { Some(self@.vm.pc) } else { None::<usize> }),
    {
        broadcast use vstd::std_specs::hash::group_hash_axioms;
        let lines = split_lines(self.program_text.as_str());
        let ghost lv = string_views(lines@);
        let pc = self.vm.get_state().2;
        let mut rows: Vec<InstructionLine> = Vec::new();
        let mut current: Option<usize> = None;
        for i in 0..lines.len()
            invariant
                lv == string_views(lines@),
                lv == lines_of(self@.program_text),
                pc == self@.vm.pc,
                rows@.len() == i,
                forall|k: int| 0 <= k < i ==> {
                    let l = #[trigger] rows@[k];
                    &&& l.index == k
                    &&& l.text@ == lv[k]
                    &&& l.is_current == (k == pc)
                    &&& l.has_breakpoint == self@.breakpoints.contains(k as usize)
                },
                current == (if pc < i { Some(pc) } else { None::<usize> }),
        {
            let is_current = i == pc;
            if is_current {
                current = Some(i);
            }
            let has_breakpoint = self.breakpoints.contains(&i);
            let text = lines[i].clone();
            rows.push(InstructionLine { index: i, text, is_current, has_breakpoint });
        }
        (rows, current)
    }
}

/// Setting and then clearing (or clearing and then setting) the breakpoint on a line
/// leaves the debugger as it was.
pub proof fn law_toggle_twice<F: Fn(&FloatTask) -> Answer>(
    host: F,
    g: GuiV,
    line: usize,
    g2: GuiV,
    g3: GuiV,
    printed1: Seq<Seq<char>>,
    cmd1: CommandV,
    printed2: Seq<Seq<char>>,
    cmd2: CommandV,
)
    requires
        updated(host, g, MessageV::ToggleBreakpoint(line), g2, printed1, cmd1),
        updated(host, g2, MessageV::ToggleBreakpoint(line), g3, printed2, cmd2),
    ensures
        g3 == g,
{
    assert(toggled(toggled(g.breakpoints, line), line) =~= g.breakpoints);
}

/// A `Step` that ran moves the machine on to the next instruction and asks the window
/// to scroll to it; the breakpoints, the program text and the memory view stay.
pub proof fn law_step_scrolls_to_next<F: Fn(&FloatTask) -> Answer>(
    host: F,
    g: GuiV,
    g2: GuiV,
    printed: Seq<Seq<char>>,
    row: usize,
)
    requires
        g.vm.program.len() <= usize::MAX,
        updated(host, g, MessageV::Step, g2, printed, CommandV::Send(MessageV::ScrollTo(row))),
    ensures
        g.vm.pc < g.vm.program.len(),
        g2.vm.pc == g.vm.pc + 1,
        row == g2.vm.pc,
        g2.vm.program == g.vm.program,
        g2.breakpoints == g.breakpoints,
        g2.program_text == g.program_text,
        g2.memory_start_addr == g.memory_start_addr,
{
    let p = choose|p: Option<Seq<char>>|
        #[trigger] ran_with(host, g.vm, StepV::Ran(p), g2.vm)
            && printed == printed_seq(p)
            && row == g2.vm.pc
            && g2 == after_run(g, g2.vm, if g.breakpoints.contains(g2.vm.pc) { false } else { g.is_running });
    let ans = choose|answers: Seq<Answer>|
        #[trigger] crate::vm::hosted(host, g.vm, answers)
            && crate::vm::step_result(g.vm, crate::vm::answers_view(answers)) == (StepV::Ran(p), g2.vm);
    lemma_ran_moves_on(g.vm, crate::vm::answers_view(ans));
}

/// A debugger whose program text is a program read from `text`, written one
/// instruction a line (as `new` writes it), gets that program back on `Reset`, from its
/// first instruction, with no registers and no output.
pub proof fn law_reset_restores_program<F: Fn(&FloatTask) -> Answer>(
    host: F,
    text: Seq<char>,
    g: GuiV,
    g2: GuiV,
    printed: Seq<Seq<char>>,
    cmd: CommandV,
)
    requires
        g.program_text == join(program_lines(lines_of(text)), "\n"@),
        updated(host, g, MessageV::Reset, g2, printed, cmd),
    ensures
        g2.vm.program == program_lines(lines_of(text)),
        g2.vm.pc == 0,
        g2.vm.registers.len() == 0,
        g2.vm.output.len() == 0,
        g2.output.len() == 0,
        g2.breakpoints == g.breakpoints,
{
    crate::vm::law_program_round_trip(text);
}

} // verus!
