use jack_vm::memory::{Memory, DISPLAY_FILL, DISPLAY_SIZE, KEYBOARD, RAM_SIZE};
use jack_vm::parser::Segment;

fn sample() -> Memory {
    Memory::new(256, 300, 400, 3000, 4000)
}

#[test]
fn new_sets_registers_and_fills() {
    let m = sample();
    assert_eq!(m.peek(0), 256);
    assert_eq!(m.peek(1), 300);
    assert_eq!(m.peek(2), 400);
    assert_eq!(m.peek(3), 3000);
    assert_eq!(m.peek(4), 4000);
    assert_eq!(m.peek(5), 0);
    assert_eq!(m.peek(RAM_SIZE - 1), 0);
    assert_eq!(m.peek(RAM_SIZE), DISPLAY_FILL);
    assert_eq!(m.peek(KEYBOARD - 1), 25000);
    assert_eq!(m.keyboard(), 0);
    assert_eq!(m.ram().len(), 16384);
    assert_eq!(m.display().len(), 8192);
    assert!(m.display().iter().all(|w| *w == 25000));
}

#[test]
fn sizes() {
    let m = sample();
    assert_eq!(m.ram_size(), 16384);
    assert_eq!(m.display_size(), 8192);
    assert_eq!(m.display_size(), DISPLAY_SIZE);
}

#[test]
fn push_constant_then_pop_local() {
    let mut m = sample();
    m.push(Segment::Constant, 7);
    assert_eq!(m.peek(0), 257);
    assert_eq!(m.peek(256), 7);
    let v = m.pop(Segment::Local, 2);
    assert_eq!(v, 7);
    assert_eq!(m.peek(302), 7);
    assert_eq!(m.peek(0), 256);
}

#[test]
fn push_reads_through_segment_registers() {
    let mut m = sample();
    m.poke(403, -12);
    m.push(Segment::Argument, 3);
    assert_eq!(m.peek(256), -12);
    m.poke(3001, 11);
    m.push(Segment::This, 1);
    assert_eq!(m.peek(257), 11);
    m.poke(4000, 21);
    m.push(Segment::That, 0);
    assert_eq!(m.peek(258), 21);
    assert_eq!(m.peek(0), 259);
}

#[test]
fn push_static_and_temp_read_their_fixed_words() {
    let mut m = sample();
    m.poke(15, 100);
    m.poke(18, 9);
    m.push(Segment::Static, 3);
    assert_eq!(m.peek(256), 9);
    m.poke(5, 200);
    m.poke(6, 4);
    m.push(Segment::Temp, 1);
    assert_eq!(m.peek(257), 4);
}

#[test]
fn pop_then_push_restores_the_stack_in_every_segment() {
    for (segment, offset, target) in [
        (Segment::Local, 2, 302),
        (Segment::Argument, 0, 400),
        (Segment::This, 5, 3005),
        (Segment::That, 1, 4001),
        (Segment::Static, 240, 255),
        (Segment::Temp, 7, 12),
    ] {
        let mut m = sample();
        m.push(Segment::Constant, 17);
        m.push(Segment::Constant, 23);
        let before: Vec<i16> = m.ram().to_vec();
        assert_eq!(m.pop(segment, offset), 23);
        assert_eq!(m.peek(target), 23);
        m.push(segment, offset);
        let after: Vec<i16> = m.ram().to_vec();
        for i in 0..before.len() {
            if i == target as usize {
                assert_eq!(after[i], 23);
            } else {
                assert_eq!(after[i], before[i]);
            }
        }
    }
}

#[test]
fn pop_static_and_temp_write_fixed_addresses() {
    let mut m = sample();
    m.push(Segment::Constant, 33);
    m.push(Segment::Constant, 44);
    assert_eq!(m.pop(Segment::Static, 4), 44);
    assert_eq!(m.peek(19), 44);
    assert_eq!(m.pop(Segment::Temp, 7), 33);
    assert_eq!(m.peek(12), 33);
    assert_eq!(m.peek(0), 256);
}

#[test]
fn push_then_pop_restores_memory() {
    for (segment, offset, address) in [
        (Segment::Local, 1, 301),
        (Segment::Argument, 3, 403),
        (Segment::This, 0, 3000),
        (Segment::That, 9, 4009),
        (Segment::Static, 0, 15),
        (Segment::Temp, 3, 8),
    ] {
        let mut m = sample();
        m.poke(address, 55);
        let before: Vec<i16> = m.ram().to_vec();
        m.push(segment, offset);
        assert_eq!(m.pop(segment, offset), 55);
        let after: Vec<i16> = m.ram().to_vec();
        for i in 0..before.len() {
            if i == 256 {
                assert_eq!(after[i], 55);
            } else {
                assert_eq!(after[i], before[i]);
            }
        }
    }
}

#[test]
fn push_stack_frame_layout() {
    let mut m = sample();
    m.push_stack_frame(2, 17);
    assert_eq!(m.peek(2), 254);
    assert_eq!(m.peek(256), 17);
    assert_eq!(m.peek(257), 300);
    assert_eq!(m.peek(258), 254);
    assert_eq!(m.peek(259), 3000);
    assert_eq!(m.peek(260), 4000);
    assert_eq!(m.peek(0), 261);
    assert_eq!(m.peek(1), 261);
    assert_eq!(m.peek(3), 3000);
    assert_eq!(m.peek(4), 4000);
}

#[test]
fn pop_stack_frame_changes_nothing() {
    let mut m = sample();
    m.push(Segment::Constant, 3);
    let ram: Vec<i16> = m.ram().to_vec();
    m.pop_stack_frame();
    assert_eq!(m.ram().to_vec(), ram);
    assert_eq!(m.keyboard(), 0);
}

#[test]
fn poke_then_peek_each_region() {
    let mut m = sample();
    m.poke(100, -1);
    assert_eq!(m.peek(100), -1);
    assert_eq!(m.peek(99), 0);
    m.poke(16384, 5);
    assert_eq!(m.peek(16384), 5);
    assert_eq!(m.display()[0], 5);
    assert_eq!(m.peek(16385), 25000);
    m.poke(24575, 6);
    assert_eq!(m.display()[8191], 6);
    m.poke(KEYBOARD, 65);
    assert_eq!(m.keyboard(), 65);
    assert_eq!(m.peek(KEYBOARD), 65);
    assert_eq!(m.ram()[100], -1);
}
