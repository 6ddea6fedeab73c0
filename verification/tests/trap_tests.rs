use rvkernel::trap::{advance_sepc, decode_trap, ecall_return, timer_deadline, TrapKind};

#[test]
fn decode_interrupts() {
    assert!(decode_trap((1u64 << 63) | 5) == TrapKind::Timer);
    assert!(decode_trap((1u64 << 63) | 9) == TrapKind::OtherInterrupt);
    assert!(decode_trap((1u64 << 63) | 0x1005) == TrapKind::Timer);
}

#[test]
fn decode_exceptions() {
    assert!(decode_trap(9) == TrapKind::SupervisorEcall);
    assert!(decode_trap(3) == TrapKind::Breakpoint);
    assert!(decode_trap(8) == TrapKind::Fatal);
    assert!(decode_trap(5) == TrapKind::Fatal);
    // Only the low 12 bits are the cause code.
    assert!(decode_trap(0x7000 | 9) == TrapKind::SupervisorEcall);
}

#[test]
fn timer_and_ecall_arithmetic() {
    assert_eq!(timer_deadline(5), 10_000_005);
    assert_eq!(ecall_return(0x8000_0000), 0x8000_0004);
}

#[test]
fn advance_over_compressed_and_full_instructions() {
    // c.ebreak (0x9002): low bits 0b10, two bytes.
    assert_eq!(advance_sepc(0x8000_0000, 0x9002), 0x8000_0002);
    // ebreak (0x00100073): low half 0x0073, low bits 0b11, four bytes.
    assert_eq!(advance_sepc(0x8000_0000, 0x0073), 0x8000_0004);
}
