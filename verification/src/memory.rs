//! The machine's memory.
//!
//! Memory array:
//! 0-16383 16 bit main memory (0x0000-0x3fff)
//! 16384-24575 16 bit screen (0x4000-0x5fff): pixel (r, c) is mapped onto the
//! c%16 bit of the 16 bit word stored at Screen[r * 32 + c / 16]
//! 24576 is the 16 bit value of the key being pressed (0x6000)
use vstd::prelude::*;

use crate::parser::{Offset, Segment};

verus! {

/// A machine word.
pub type WordSize = i16;

/// Number of words of main memory.
pub const RAM_SIZE: WordSize = 16384;

/// Number of words of the screen (256 rows of 512 pixels).
pub const DISPLAY_SIZE: WordSize = 8192;

/// Address of the keyboard word.
pub const KEYBOARD: WordSize = 24576;

/// Register holding the stack pointer.
pub const SP: WordSize = 0;

/// Register holding the base of the `local` segment.
pub const LCL: WordSize = 1;

/// Register holding the base of the `argument` segment.
pub const ARG: WordSize = 2;

/// Register holding the base of the `this` segment.
pub const THIS: WordSize = 3;

/// Register holding the base of the `that` segment.
pub const THAT: WordSize = 4;

/// First word of the `static` segment.
pub const STATIC: WordSize = 15;

/// Last word of the `static` segment.
pub const STATIC_MAX: WordSize = 255;

/// First word of the `temp` segment.
pub const TEMP: WordSize = 5;

/// Last word of the `temp` segment.
pub const TEMP_MAX: WordSize = 12;

/// Value that every screen word holds in a fresh memory.
pub const DISPLAY_FILL: WordSize = 25000;

/// A block of words indexed by word-sized addresses.
struct MemoryVec(Vec<WordSize>);

impl MemoryVec {
    fn new(vector: Vec<WordSize>) -> (r: MemoryVec)
        ensures
            r.0@ == vector@,
    {
        MemoryVec(vector)
    }

    fn len(&self) -> (r: WordSize)
        requires
            self.0.len() <= i16::MAX,
        ensures
            r as int == self.0.len(),
    {
        self.0.len() as WordSize
    }

    fn get(&self, index: WordSize) -> (r: WordSize)
        requires
            0 <= index < self.0.len(),
        ensures
            r == self.0@[index as int],
    {
        self.0[index as usize]
    }

    fn set(&mut self, index: WordSize, value: WordSize)
        requires
            0 <= index < old(self).0.len(),
        ensures
            final(self).0@ == old(self).0@.update(index as int, value),
    {
        self.0.set(index as usize, value);
    }
}

/// The whole memory: main memory, screen and keyboard.
pub struct Memory {
    ram: MemoryVec,
    display: MemoryVec,
    keyboard: WordSize,
}

/// What a memory holds.
pub struct MemoryView {
    pub ram: Seq<WordSize>,
    pub display: Seq<WordSize>,
    pub keyboard: WordSize,
}

impl View for Memory {
    type V = MemoryView;

    closed spec fn view(&self) -> MemoryView {
        MemoryView { ram: self.ram.0@, display: self.display.0@, keyboard: self.keyboard }
    }
}

impl MemoryView {
    /// Main memory and screen have their fixed sizes.  `Memory::new` gives
    /// such a memory and every method keeps it so.  (A type invariant cannot
    /// carry this: writing a word borrows a field mutably through
    /// `Vec::set`, which Verus cannot show never unwinds.)
    pub open spec fn wf(self) -> bool {
        &&& self.ram.len() == RAM_SIZE
        &&& self.display.len() == DISPLAY_SIZE
    }
}

/// An address that `peek` and `poke` accept.
pub open spec fn valid_address(index: int) -> bool {
    0 <= index <= KEYBOARD
}

/// The word at `index` of the memory map.
pub open spec fn peek_spec(m: MemoryView, index: int) -> WordSize {
    if index < RAM_SIZE {
        m.ram[index]
    } else if index < RAM_SIZE + DISPLAY_SIZE {
        m.display[index - RAM_SIZE]
    } else {
        m.keyboard
    }
}

/// The memory after `value` is written at `index` of the memory map.
pub open spec fn poke_spec(m: MemoryView, index: int, value: WordSize) -> MemoryView {
    if index < RAM_SIZE {
        MemoryView { ram: m.ram.update(index, value), ..m }
    } else if index < RAM_SIZE + DISPLAY_SIZE {
        MemoryView { display: m.display.update(index - RAM_SIZE, value), ..m }
    } else {
        MemoryView { keyboard: value, ..m }
    }
}

/// The address of word `offset` of `segment`: `local`, `argument`, `this`
/// and `that` start where their register points, `static` and `temp` at
/// their fixed first word.
pub open spec fn segment_address(ram: Seq<WordSize>, segment: Segment, offset: Offset) -> int {
    match segment {
        Segment::Local => ram[LCL as int] + offset,
        Segment::Argument => ram[ARG as int] + offset,
        Segment::Static => STATIC + offset,
        Segment::This => ram[THIS as int] + offset,
        Segment::That => ram[THAT as int] + offset,
        Segment::Temp => TEMP + offset,
        _ => -1,
    }
}

/// Word `offset` of `segment` lies in main memory, and inside the segment
/// for `static` and `temp`.
pub open spec fn in_segment(ram: Seq<WordSize>, segment: Segment, offset: Offset) -> bool {
    &&& 0 <= segment_address(ram, segment, offset) < RAM_SIZE
    &&& segment == Segment::Static ==> STATIC + offset <= STATIC_MAX
    &&& segment == Segment::Temp ==> TEMP + offset <= TEMP_MAX
}

/// The value that `push(segment, offset)` puts on the stack.
pub open spec fn push_value(ram: Seq<WordSize>, segment: Segment, offset: Offset) -> WordSize {
    if segment == Segment::Constant {
        offset
    } else {
        ram[segment_address(ram, segment, offset)]
    }
}

/// Main memory after `value` is written at the top of the stack and the
/// stack pointer is incremented.
pub open spec fn stack_push(ram: Seq<WordSize>, value: WordSize) -> Seq<WordSize> {
    let written = ram.update(ram[SP as int] as int, value);
    written.update(SP as int, (written[SP as int] + 1) as WordSize)
}

/// `stack_push` reads and writes inside main memory and does not overflow.
pub open spec fn can_stack_push(ram: Seq<WordSize>, value: WordSize) -> bool {
    &&& 0 <= ram[SP as int] < RAM_SIZE
    &&& ram.update(ram[SP as int] as int, value)[SP as int] < i16::MAX
}

/// `push(segment, offset)` is defined: the segment is implemented, the word
/// read lies in its segment in main memory, and the stack has room.
pub open spec fn can_push(ram: Seq<WordSize>, segment: Segment, offset: Offset) -> bool {
    &&& segment != Segment::Pointer
    &&& segment != Segment::Constant ==> in_segment(ram, segment, offset)
    &&& can_stack_push(ram, push_value(ram, segment, offset))
}

/// Main memory after the stack pointer is decremented.
pub open spec fn lowered(ram: Seq<WordSize>) -> Seq<WordSize> {
    ram.update(SP as int, (ram[SP as int] - 1) as WordSize)
}

/// The value that `pop` takes from the top of the stack.
pub open spec fn pop_value(ram: Seq<WordSize>) -> WordSize {
    let low = lowered(ram);
    low[low[SP as int] as int]
}

/// Main memory after `pop(segment, offset)`.
pub open spec fn popped(ram: Seq<WordSize>, segment: Segment, offset: Offset) -> Seq<WordSize> {
    let low = lowered(ram);
    low.update(segment_address(low, segment, offset), pop_value(ram))
}

/// `pop(segment, offset)` is defined: the segment can be written, the stack
/// is not empty, and the target lies in main memory and inside its segment.
pub open spec fn can_pop(ram: Seq<WordSize>, segment: Segment, offset: Offset) -> bool {
    &&& segment != Segment::Pointer
    &&& segment != Segment::Constant
    &&& 1 <= ram[SP as int] <= RAM_SIZE
    &&& in_segment(lowered(ram), segment, offset)
}

/// The memory states that `push_stack_frame(num_args, line_num)` goes through:
/// the argument register set, then the return line, `LCL`, `ARG`, `THIS` and
/// `THAT` pushed in turn.
pub open spec fn frame_stages(ram: Seq<WordSize>, num_args: WordSize, line_num: WordSize) -> Seq<
    Seq<WordSize>,
> {
    let r0 = ram.update(ARG as int, (ram[SP as int] - num_args) as WordSize);
    let r1 = stack_push(r0, line_num);
    let r2 = stack_push(r1, r1[LCL as int]);
    let r3 = stack_push(r2, r2[ARG as int]);
    let r4 = stack_push(r3, r3[THIS as int]);
    let r5 = stack_push(r4, r4[THAT as int]);
    seq![r0, r1, r2, r3, r4, r5]
}

/// Main memory after `push_stack_frame(num_args, line_num)`.
pub open spec fn frame_pushed(ram: Seq<WordSize>, num_args: WordSize, line_num: WordSize) -> Seq<
    WordSize,
> {
    let r5 = frame_stages(ram, num_args, line_num)[5];
    r5.update(LCL as int, r5[SP as int])
}

/// `push_stack_frame(num_args, line_num)` is defined: no step overflows or
/// leaves main memory.
pub open spec fn can_push_frame(ram: Seq<WordSize>, num_args: WordSize, line_num: WordSize) -> bool {
    let st = frame_stages(ram, num_args, line_num);
    &&& i16::MIN <= ram[SP as int] - num_args <= i16::MAX
    &&& can_stack_push(st[0], line_num)
    &&& can_stack_push(st[1], st[1][LCL as int])
    &&& can_stack_push(st[2], st[2][ARG as int])
    &&& can_stack_push(st[3], st[3][THIS as int])
    &&& can_stack_push(st[4], st[4][THAT as int])
}

impl Memory {
    /// A fresh memory: main memory all zero but for the five registers,
    /// every screen word `DISPLAY_FILL`, and no key pressed.
    pub fn new(sp: WordSize, local: WordSize, arg: WordSize, this: WordSize, that: WordSize) -> (m:
        Memory)
        ensures
            m@.wf(),
            m@.ram[SP as int] == sp,
            m@.ram[LCL as int] == local,
            m@.ram[ARG as int] == arg,
            m@.ram[THIS as int] == this,
            m@.ram[THAT as int] == that,
            forall|i: int| THAT < i < RAM_SIZE ==> m@.ram[i] == 0,
            forall|i: int| 0 <= i < DISPLAY_SIZE ==> m@.display[i] == DISPLAY_FILL,
            m@.keyboard == 0,
    {
        let mut ram = MemoryVec::new(vec![0; RAM_SIZE as usize]);
        let display = MemoryVec::new(vec![DISPLAY_FILL; DISPLAY_SIZE as usize]);
        let keyboard: WordSize = 0;

        ram.set(SP, sp);
        ram.set(LCL, local);
        ram.set(ARG, arg);
        ram.set(THIS, this);
        ram.set(THAT, that);

        Memory { ram, display, keyboard }
    }

    /// Pushes to the global stack the value described by segment and index.
    pub fn push(&mut self, segment: Segment, offset: Offset)
        requires
            old(self)@.wf(),
            can_push(old(self)@.ram, segment, offset),
        ensures
            final(self)@.wf(),
            final(self)@.ram == stack_push(old(self)@.ram, push_value(old(self)@.ram, segment, offset)),
            final(self)@.display == old(self)@.display,
            final(self)@.keyboard == old(self)@.keyboard,
    {
        let value = match segment {
            Segment::Constant => offset,
            Segment::Local => self.get_value(LCL, offset),
            Segment::Argument => self.get_value(ARG, offset),
            Segment::Static => self.ram.get(STATIC + offset),
            Segment::This => self.get_value(THIS, offset),
            Segment::That => self.get_value(THAT, offset),
            Segment::Temp => self.ram.get(TEMP + offset),
            // `can_push` rules out the unimplemented `pointer` segment.
            Segment::Pointer => offset,
        };

        let stack_pointer = self.get_pointer(SP);
        // Set value to stack and increment SP
        self.ram.set(stack_pointer, value);
        let incremented = self.ram.get(SP) + 1;
        self.ram.set(SP, incremented);
    }

    /// Moves to the memory location described by segment and index the item
    /// at the top of the global stack, and returns the value that was popped.
    pub fn pop(&mut self, segment: Segment, offset: Offset) -> (value: WordSize)
        requires
            old(self)@.wf(),
            can_pop(old(self)@.ram, segment, offset),
        ensures
            value == pop_value(old(self)@.ram),
            final(self)@.wf(),
            final(self)@.ram == popped(old(self)@.ram, segment, offset),
            final(self)@.display == old(self)@.display,
            final(self)@.keyboard == old(self)@.keyboard,
    {
        // Decrement SP
        let decremented = self.ram.get(SP) - 1;
        self.ram.set(SP, decremented);
        let value = self.get_value(SP, 0);

        let address = match segment {
            Segment::Local => self.get_pointer(LCL) + offset,
            Segment::Argument => self.get_pointer(ARG) + offset,
            Segment::Static => STATIC + offset,
            Segment::This => self.get_pointer(THIS) + offset,
            Segment::That => self.get_pointer(THAT) + offset,
            Segment::Temp => TEMP + offset,
            // `can_pop` rules out `pointer` and `constant`.
            _ => 0,
        };

        self.ram.set(address, value);
        value
    }

    fn get_pointer(&self, pointer: WordSize) -> (r: WordSize)
        requires
            self@.wf(),
            0 <= pointer < RAM_SIZE,
        ensures
            r == self@.ram[pointer as int],
    {
        self.ram.get(pointer)
    }

    fn set_pointer(&mut self, pointer: WordSize, value: WordSize)
        requires
            old(self)@.wf(),
            0 <= pointer < RAM_SIZE,
        ensures
            final(self)@.ram == old(self)@.ram.update(pointer as int, value),
            final(self)@.display == old(self)@.display,
            final(self)@.keyboard == old(self)@.keyboard,
    {
        self.ram.set(pointer, value);
    }

    fn get_value(&self, pointer: WordSize, offset: WordSize) -> (r: WordSize)
        requires
            self@.wf(),
            0 <= pointer < RAM_SIZE,
            0 <= self@.ram[pointer as int] + offset < RAM_SIZE,
        ensures
            r == self@.ram[self@.ram[pointer as int] + offset],
    {
        self.ram.get(self.ram.get(pointer) + offset)
    }

    /// Sets up the frame of a call: `ARG` points `num_args` words below the
    /// stack pointer, the return line and the caller's `LCL`, `ARG`, `THIS`
    /// and `THAT` are pushed, and `LCL` points at the new top of the stack.
    pub fn push_stack_frame(&mut self, num_args: WordSize, line_num: WordSize)
        requires
            old(self)@.wf(),
            can_push_frame(old(self)@.ram, num_args, line_num),
        ensures
            final(self)@.wf(),
            final(self)@.ram == frame_pushed(old(self)@.ram, num_args, line_num),
            old(self)@.ram[SP as int] > THAT ==> frame_layout(
                old(self)@.ram,
                num_args,
                line_num,
                final(self)@.ram,
            ),
            final(self)@.display == old(self)@.display,
            final(self)@.keyboard == old(self)@.keyboard,
    {
        let new_arg = self.get_pointer(SP) - num_args;
        self.set_pointer(ARG, new_arg);

        // Save return address (not used)
        self.push(Segment::Constant, line_num);

        // Build caller stack
        let saved_local = self.get_pointer(LCL);
        self.push(Segment::Constant, saved_local);
        let saved_arg = self.get_pointer(ARG);
        self.push(Segment::Constant, saved_arg);
        let saved_this = self.get_pointer(THIS);
        self.push(Segment::Constant, saved_this);
        let saved_that = self.get_pointer(THAT);
        self.push(Segment::Constant, saved_that);

        // Set Local Pointer
        let top = self.get_pointer(SP);
        self.set_pointer(LCL, top);
        proof {
            if old(self)@.ram[SP as int] > THAT {
                lemma_frame_layout(old(self)@.ram, num_args, line_num);
            }
        }
    }

    /// Tears down the frame of a call; nothing is done to memory yet.
    pub fn pop_stack_frame(&mut self)
        ensures
            final(self)@ == old(self)@,
    {
    }

    /// The word at `index` of the memory map: addresses below `RAM_SIZE` are
    /// main memory, the next `DISPLAY_SIZE` addresses are the screen words
    /// from the first, and `KEYBOARD` is the keyboard word.
    pub fn peek(&self, index: WordSize) -> (r: WordSize)
        requires
            self@.wf(),
            valid_address(index as int),
        ensures
            r == peek_spec(self@, index as int),
    {
        if index < RAM_SIZE {
            self.ram.get(index)
        } else if index < RAM_SIZE + DISPLAY_SIZE {
            self.display.get(index - RAM_SIZE)
        } else {
            self.keyboard
        }
    }

    /// Writes `value` at `index` of the memory map, laid out as for `peek`.
    pub fn poke(&mut self, index: WordSize, value: WordSize)
        requires
            old(self)@.wf(),
            valid_address(index as int),
        ensures
            final(self)@ == poke_spec(old(self)@, index as int, value),
            final(self)@.wf(),
    {
        if index < RAM_SIZE {
            self.ram.set(index, value);
        } else if index < RAM_SIZE + DISPLAY_SIZE {
            self.display.set(index - RAM_SIZE, value);
        } else {
            self.keyboard = value;
        }
    }

    /// The words of main memory.
    pub fn ram(&self) -> (r: &[WordSize])
        ensures
            r@ == self@.ram,
    {
        self.ram.0.as_slice()
    }

    /// The words of the screen.
    pub fn display(&self) -> (r: &[WordSize])
        ensures
            r@ == self@.display,
    {
        self.display.0.as_slice()
    }

    /// The key being pressed.
    pub fn keyboard(&self) -> (r: WordSize)
        ensures
            r == self@.keyboard,
    {
        self.keyboard
    }

    /// Number of words of main memory.
    pub fn ram_size(&self) -> (r: WordSize)
        requires
            self@.wf(),
        ensures
            r == RAM_SIZE,
    {
        self.ram.len()
    }

    /// Number of words of the screen.
    pub fn display_size(&self) -> (r: WordSize)
        requires
            self@.wf(),
        ensures
            r == DISPLAY_SIZE,
    {
        self.display.len()
    }
}

/// A word written with `poke` is the word that `peek` then reads at that
/// address, and every other address reads as before.
pub proof fn lemma_peek_after_poke(m: MemoryView, index: int, other: int, value: WordSize)
    requires
        m.wf(),
        valid_address(index),
        valid_address(other),
    ensures
        poke_spec(m, index, value).wf(),
        peek_spec(poke_spec(m, index, value), index) == value,
        other != index ==> peek_spec(poke_spec(m, index, value), other) == peek_spec(m, other),
{
}

/// Pushing a value raises the stack pointer by one and leaves the value on
/// top of the stack, provided the stack pointer is not its own top.
pub proof fn lemma_push_grows_stack(ram: Seq<WordSize>, value: WordSize)
    requires
        ram.len() == RAM_SIZE,
        can_stack_push(ram, value),
        ram[SP as int] != SP,
    ensures
        stack_push(ram, value)[SP as int] == ram[SP as int] + 1,
        stack_push(ram, value)[ram[SP as int] as int] == value,
        forall|i: int|
            0 <= i < RAM_SIZE && i != SP && i != ram[SP as int] ==> #[trigger] stack_push(ram, value)[i]
                == ram[i],
{
}

/// A constant pushed and then popped comes back out of `pop`, which writes it
/// to its target with the stack pointer back where it was.
pub proof fn lemma_pop_returns_pushed(
    ram: Seq<WordSize>,
    value: WordSize,
    segment: Segment,
    offset: Offset,
)
    requires
        ram.len() == RAM_SIZE,
        can_stack_push(ram, value),
        ram[SP as int] != SP,
        can_pop(stack_push(ram, value), segment, offset),
    ensures
        pop_value(stack_push(ram, value)) == value,
        lowered(stack_push(ram, value)) == ram.update(ram[SP as int] as int, value),
        popped(stack_push(ram, value), segment, offset) == ram.update(
            ram[SP as int] as int,
            value,
        ).update(segment_address(ram.update(ram[SP as int] as int, value), segment, offset), value),
{
    let sp = ram[SP as int] as int;
    assert(lowered(stack_push(ram, value)) =~= ram.update(sp, value));
}

/// The register that holds the base of `segment`, or -1 for a segment at a
/// fixed place.
pub open spec fn segment_register(segment: Segment) -> int {
    match segment {
        Segment::Local => LCL as int,
        Segment::Argument => ARG as int,
        Segment::This => THIS as int,
        Segment::That => THAT as int,
        _ => -1,
    }
}

/// `pop` undoes `push` at the same segment and offset: memory is as before
/// but for the word just above the stack, which keeps the value pushed.
/// (The stack pointer must not be its own top, nor the segment's register.)
pub proof fn lemma_push_then_pop_restores(ram: Seq<WordSize>, segment: Segment, offset: Offset)
    requires
        ram.len() == RAM_SIZE,
        segment != Segment::Constant,
        can_push(ram, segment, offset),
        ram[SP as int] != SP,
        ram[SP as int] != segment_register(segment),
    ensures
        can_pop(stack_push(ram, push_value(ram, segment, offset)), segment, offset),
        pop_value(stack_push(ram, push_value(ram, segment, offset))) == push_value(
            ram,
            segment,
            offset,
        ),
        popped(stack_push(ram, push_value(ram, segment, offset)), segment, offset) == ram.update(
            ram[SP as int] as int,
            push_value(ram, segment, offset),
        ),
{
    let sp = ram[SP as int] as int;
    let v = push_value(ram, segment, offset);
    let pushed = stack_push(ram, v);
    assert(lowered(pushed) =~= ram.update(sp, v));
    assert(segment_address(lowered(pushed), segment, offset) == segment_address(ram, segment, offset));
    assert(popped(pushed, segment, offset) =~= ram.update(sp, v));
}

/// `push` undoes `pop` at the same segment and offset: the stack is as
/// before, and the word popped to stays at its target.  (The target must
/// be neither the stack pointer nor the segment's register.)
pub proof fn lemma_pop_then_push_restores(ram: Seq<WordSize>, segment: Segment, offset: Offset)
    requires
        ram.len() == RAM_SIZE,
        can_pop(ram, segment, offset),
        segment_address(lowered(ram), segment, offset) != SP,
        segment_address(lowered(ram), segment, offset) != segment_register(segment),
    ensures
        can_push(popped(ram, segment, offset), segment, offset),
        push_value(popped(ram, segment, offset), segment, offset) == pop_value(ram),
        stack_push(popped(ram, segment, offset), pop_value(ram)) == ram.update(
            segment_address(lowered(ram), segment, offset),
            pop_value(ram),
        ),
{
    let low = lowered(ram);
    let t = segment_address(low, segment, offset);
    let v = pop_value(ram);
    let after = popped(ram, segment, offset);
    assert(segment_address(after, segment, offset) == t);
    assert(stack_push(after, v) =~= ram.update(t, v));
}

/// The frame that `push_stack_frame` builds above the stack pointer `s` of
/// `ram`: `after` holds the return line, the caller's `LCL`, the new `ARG`
/// (`s - num_args`), the caller's `THIS` and `THAT`; `SP` and `LCL` both
/// point at `s + 5`, and every other word of main memory is as before.
pub open spec fn frame_layout(
    ram: Seq<WordSize>,
    num_args: WordSize,
    line_num: WordSize,
    after: Seq<WordSize>,
) -> bool {
    let s = ram[SP as int] as int;
    &&& after.len() == RAM_SIZE
    &&& after[SP as int] == s + 5
    &&& after[LCL as int] == s + 5
    &&& after[ARG as int] == s - num_args
    &&& after[THIS as int] == ram[THIS as int]
    &&& after[THAT as int] == ram[THAT as int]
    &&& after[s] == line_num
    &&& after[s + 1] == ram[LCL as int]
    &&& after[s + 2] == s - num_args
    &&& after[s + 3] == ram[THIS as int]
    &&& after[s + 4] == ram[THAT as int]
    &&& forall|i: int| THAT < i < RAM_SIZE && !(s <= i < s + 5) ==> #[trigger] after[i] == ram[i]
}

/// The frame that `push_stack_frame` builds above a stack pointer that lies
/// above the registers is the one `frame_layout` describes.
pub proof fn lemma_frame_layout(ram: Seq<WordSize>, num_args: WordSize, line_num: WordSize)
    requires
        ram.len() == RAM_SIZE,
        can_push_frame(ram, num_args, line_num),
        ram[SP as int] > THAT,
    ensures
        frame_layout(ram, num_args, line_num, frame_pushed(ram, num_args, line_num)),
{
}

/// `push` puts on top of the stack the word that its segment and offset
/// name: the constant itself, word `ram[R] + offset` of a segment based at
/// register `R` (`LCL`, `ARG`, `THIS`, `THAT`), or word `15 + offset` of
/// `static` and `5 + offset` of `temp`; the stack pointer goes up by one and
/// no other word changes.
pub proof fn lemma_push_reads_segment_word(ram: Seq<WordSize>, segment: Segment, offset: Offset)
    requires
        ram.len() == 16384,
        can_push(ram, segment, offset),
        ram[0] != 0,
    ensures
        ({
            let sp = ram[0] as int;
            let after = stack_push(ram, push_value(ram, segment, offset));
            &&& after.len() == 16384
            &&& after[0] == sp + 1
            &&& forall|j: int| 0 < j < 16384 && j != sp ==> #[trigger] after[j] == ram[j]
            &&& segment == Segment::Constant ==> after[sp] == offset
            &&& segment == Segment::Local ==> after[sp] == ram[ram[1] + offset]
            &&& segment == Segment::Argument ==> after[sp] == ram[ram[2] + offset]
            &&& segment == Segment::This ==> after[sp] == ram[ram[3] + offset]
            &&& segment == Segment::That ==> after[sp] == ram[ram[4] + offset]
            &&& segment == Segment::Static ==> after[sp] == ram[15 + offset]
            &&& segment == Segment::Temp ==> after[sp] == ram[5 + offset]
        }),
{
}

/// `push` is defined wherever the word it reads lies in main memory (inside
/// its segment, for `static` and `temp`) and the stack has room above a
/// stack pointer that is not its own top.
pub proof fn lemma_push_defined(ram: Seq<WordSize>, segment: Segment, offset: Offset)
    requires
        ram.len() == 16384,
        segment != Segment::Pointer,
        0 < ram[0] < 16383,
        segment == Segment::Local ==> 0 <= ram[1] + offset < 16384,
        segment == Segment::Argument ==> 0 <= ram[2] + offset < 16384,
        segment == Segment::This ==> 0 <= ram[3] + offset < 16384,
        segment == Segment::That ==> 0 <= ram[4] + offset < 16384,
        segment == Segment::Static ==> 0 <= offset <= 240,
        segment == Segment::Temp ==> 0 <= offset <= 7,
    ensures
        can_push(ram, segment, offset),
{
}

/// `pop` takes the word below the stack pointer, lowers the stack pointer by
/// one, and writes the word to what its segment and offset name: word
/// `ram[R] + offset` of a segment based at register `R` (`LCL`, `ARG`,
/// `THIS`, `THAT`), or word `15 + offset` of `static` and `5 + offset` of
/// `temp`; no other word changes.
pub proof fn lemma_pop_writes_segment_word(ram: Seq<WordSize>, segment: Segment, offset: Offset)
    requires
        ram.len() == 16384,
        can_pop(ram, segment, offset),
        ram[0] > 1,
    ensures
        ({
            let sp = ram[0] as int;
            let target = match segment {
                Segment::Local => ram[1] + offset,
                Segment::Argument => ram[2] + offset,
                Segment::This => ram[3] + offset,
                Segment::That => ram[4] + offset,
                Segment::Static => 15 + offset,
                _ => 5 + offset,
            };
            let after = popped(ram, segment, offset);
            &&& pop_value(ram) == ram[sp - 1]
            &&& 0 <= target < 16384
            &&& after.len() == 16384
            &&& after[target] == ram[sp - 1]
            &&& target != 0 ==> after[0] == sp - 1
            &&& forall|j: int| 0 < j < 16384 && j != target ==> #[trigger] after[j] == ram[j]
        }),
{
}

/// `pop` is defined wherever the stack holds a word above the registers and
/// the target lies in main memory (inside its segment, for `static` and
/// `temp`).
pub proof fn lemma_pop_defined(ram: Seq<WordSize>, segment: Segment, offset: Offset)
    requires
        ram.len() == 16384,
        segment != Segment::Pointer,
        segment != Segment::Constant,
        1 < ram[0] <= 16384,
        segment == Segment::Local ==> 0 <= ram[1] + offset < 16384,
        segment == Segment::Argument ==> 0 <= ram[2] + offset < 16384,
        segment == Segment::This ==> 0 <= ram[3] + offset < 16384,
        segment == Segment::That ==> 0 <= ram[4] + offset < 16384,
        segment == Segment::Static ==> 0 <= offset <= 240,
        segment == Segment::Temp ==> 0 <= offset <= 7,
    ensures
        can_pop(ram, segment, offset),
{
}

/// The memory map: address `i` below 16384 is word `i` of main memory,
/// address `16384 + k` below 24576 is word `k` of the screen, and 24576 is
/// the keyboard.  `peek` reads that word and `poke` writes it, leaving every
/// other word as it was.
pub proof fn lemma_memory_map(m: MemoryView, index: int, value: WordSize)
    requires
        m.wf(),
        valid_address(index),
    ensures
        0 <= index < 16384 ==> {
            &&& peek_spec(m, index) == m.ram[index]
            &&& poke_spec(m, index, value) == MemoryView { ram: m.ram.update(index, value), ..m }
        },
        16384 <= index < 24576 ==> {
            &&& peek_spec(m, index) == m.display[index - 16384]
            &&& poke_spec(m, index, value) == MemoryView {
                display: m.display.update(index - 16384, value),
                ..m
            }
        },
        index == 24576 ==> {
            &&& peek_spec(m, index) == m.keyboard
            &&& poke_spec(m, index, value) == MemoryView { keyboard: value, ..m }
        },
{
}

} // verus!
