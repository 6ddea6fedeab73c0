//! What the kernel sends to the UART: the device address to write to, and
//! the bytes of each message, appended to the output in the order they are
//! to be sent.
use vstd::prelude::*;
use vstd::string::StringSliceAdditionalSpecFns;

verus! {

/// Where the kernel is mapped in the upper half of the address space.
pub const KERNEL_OFFSET: u64 = 0xFFFF_FFFF_0000_0000;

/// The physical address of the UART's transmit register.
pub const UART_PADDR: u64 = 0x1000_0000;

/// The UART seen through the kernel's upper-half mapping.
pub const UART_VIRT_ADDR: u64 = 0x1000_0000 + 0xFFFF_FFFF_0000_0000;

/// The address a byte is written to: the physical one while paging is off
/// (`satp` is zero), else the upper-half one.
pub fn uart_address(satp: u64) -> (a: u64)
    ensures
        a == if satp == 0 {
            UART_PADDR
        } else {
            UART_VIRT_ADDR
        },
{
    if satp == 0 {
        0x1000_0000
    } else {
        UART_VIRT_ADDR
    }
}

/// Appends the bytes of `s`.
pub fn uart_print(out: &mut Vec<u8>, s: &str)
    ensures
        final(out)@ == old(out)@ + s.spec_bytes(),
{
    let bytes: &[u8] = s.as_bytes();
    let mut i: usize = 0;
    while i < bytes.len()
        invariant
            i <= bytes@.len(),
            bytes@ == s.spec_bytes(),
            out@ == old(out)@ + bytes@.subrange(0, i as int),
        decreases bytes@.len() - i,
    {
        out.push(bytes[i]);
        i = i + 1;
        proof {
            assert(bytes@.subrange(0, i as int) =~= bytes@.subrange(0, i - 1) + seq![bytes@[i - 1]]);
        }
    }
    proof {
        assert(bytes@.subrange(0, i as int) =~= bytes@);
    }
}

/// Appends `bytes`.
pub fn uart_print_phys_bytes(out: &mut Vec<u8>, bytes: &[u8])
    ensures
        final(out)@ == old(out)@ + bytes@,
{
    let mut i: usize = 0;
    while i < bytes.len()
        invariant
            i <= bytes@.len(),
            out@ == old(out)@ + bytes@.subrange(0, i as int),
        decreases bytes@.len() - i,
    {
        out.push(bytes[i]);
        i = i + 1;
        proof {
            assert(bytes@.subrange(0, i as int) =~= bytes@.subrange(0, i - 1) + seq![bytes@[i - 1]]);
        }
    }
    proof {
        assert(bytes@.subrange(0, i as int) =~= bytes@);
    }
}

/// `val` shifted right by `i` hex digits.
pub open spec fn shr4(val: int, i: nat) -> int
    decreases i,
{
    if i == 0 {
        val
    } else {
        shr4(val, (i - 1) as nat) / 16
    }
}

/// Hex digit `i` of `val` (digit 0 is the least significant).
pub open spec fn nibble(val: u64, i: nat) -> int {
    shr4(val as int, i) % 16
}

/// The ASCII upper-case hex digit for `d` (`d < 16`).
pub open spec fn hex_digit(d: int) -> u8 {
    if d < 10 {
        (48 + d) as u8
    } else {
        (55 + d) as u8
    }
}

/// The value of an ASCII upper-case hex digit.
pub open spec fn digit_value(c: u8) -> int {
    if c <= 57 {
        c - 48
    } else {
        c - 55
    }
}

/// `0x` followed by the sixteen hex digits of `val`, most significant first.
pub open spec fn hex_bytes(val: u64) -> Seq<u8> {
    seq![48u8, 120u8] + Seq::new(16, |k: int| hex_digit(nibble(val, (15 - k) as nat)))
}

/// The number that a string of hex digits denotes.
pub open spec fn hex_value(digits: Seq<u8>) -> int
    decreases digits.len(),
{
    if digits.len() == 0 {
        0
    } else {
        hex_value(digits.drop_last()) * 16 + digit_value(digits.last())
    }
}

proof fn lemma_shift_nibble(val: u64, i: u64)
    requires
        i < 16,
    ensures
        (val >> ((i * 4) as u64)) == shr4(val as int, i as nat),
        (val >> ((i * 4) as u64)) & 0xFu64 == nibble(val, i as nat),
    decreases i,
{
    if i == 0 {
        assert(val >> 0u64 == val) by (bit_vector);
    } else {
        lemma_shift_nibble(val, (i - 1) as u64);
        let a: u64 = ((i - 1) * 4) as u64;
        assert((val >> a) >> 4u64 == val >> ((a + 4u64) as u64)) by (bit_vector)
            requires
                a <= 56u64,
        ;
        let x: u64 = val >> a;
        assert(x >> 4u64 == x / 16) by (bit_vector);
        assert(((i * 4) as u64) == a + 4);
        assert(val >> ((i * 4) as u64) == x / 16);
    }
    let y: u64 = val >> ((i * 4) as u64);
    assert(y & 0xFu64 == y % 16) by (bit_vector);
}

/// Appends `0x` and the sixteen upper-case hex digits of `val`, most
/// significant first.
pub fn uart_print_hex(out: &mut Vec<u8>, val: u64)
    ensures
        final(out)@ == old(out)@ + hex_bytes(val),
{
    let chars: [u8; 16] = [48, 49, 50, 51, 52, 53, 54, 55, 56, 57, 65, 66, 67, 68, 69, 70];
    uart_print(out, "0x");
    proof {
        reveal_strlit("0x");
        assert("0x".spec_bytes() =~= seq![48u8, 120u8]) by {
            vstd::string::is_ascii_spec_bytes("0x");
        }
    }
    let ghost base = old(out)@ + seq![48u8, 120u8];
    let ghost digits = Seq::new(16, |k: int| hex_digit(nibble(val, (15 - k) as nat)));
    let mut i: u64 = 16;
    while i > 0
        invariant
            i <= 16,
            chars@ == seq![48u8, 49, 50, 51, 52, 53, 54, 55, 56, 57, 65, 66, 67, 68, 69, 70],
            out@ == base + digits.subrange(0, 16 - i),
            digits == Seq::new(16, |k: int| hex_digit(nibble(val, (15 - k) as nat))),
        decreases i,
    {
        i = i - 1;
        proof {
            lemma_shift_nibble(val, i);
        }
        let nibble: u64 = (val >> (i * 4)) & 0xF;
        let c: u8 = chars[nibble as usize];
        out.push(c);
        proof {
            assert(c == hex_digit(nibble as int));
            assert(digits[15 - i] == c);
            assert(digits.subrange(0, 16 - i) =~= digits.subrange(0, 15 - i) + seq![c]);
        }
    }
    proof {
        assert(digits.subrange(0, 16) =~= digits);
        assert(hex_bytes(val) =~= seq![48u8, 120u8] + digits);
    }
}

proof fn lemma_shr4_bound(val: u64, i: nat, p: int)
    requires
        i <= 16,
        p * pow16(i) == 0x1_0000_0000_0000_0000,
    ensures
        0 <= shr4(val as int, i) < p,
    decreases i,
{
    if i > 0 {
        let q = pow16((i - 1) as nat);
        lemma_pow16_step((i - 1) as nat);
        assert((p * 16) * q == p * (16 * q)) by (nonlinear_arith);
        lemma_shr4_bound(val, (i - 1) as nat, p * 16);
    }
}

/// `16` to the power `i`.
pub open spec fn pow16(i: nat) -> int
    decreases i,
{
    if i == 0 {
        1
    } else {
        16 * pow16((i - 1) as nat)
    }
}

proof fn lemma_pow16_step(i: nat)
    ensures
        pow16(i + 1) == 16 * pow16(i),
        pow16(i) > 0,
    decreases i,
{
    if i > 0 {
        lemma_pow16_step((i - 1) as nat);
    }
}

/// The sixteen digits that `uart_print_hex` writes after `0x` denote `val`.
pub proof fn law_hex_roundtrip(val: u64)
    ensures
        hex_bytes(val).len() == 18,
        hex_value(hex_bytes(val).subrange(2, 18)) == val,
{
    let digits = Seq::new(16, |k: int| hex_digit(nibble(val, (15 - k) as nat)));
    assert(hex_bytes(val).subrange(2, 18) =~= digits);
    reveal_with_fuel(pow16, 17);
    assert(pow16(16) == 0x1_0000_0000_0000_0000);
    lemma_shr4_bound(val, 16, 1);
    lemma_hex_prefix(val, 16);
    assert(digits.subrange(0, 16) =~= digits);
}

/// The first `m` digits denote `val` shifted right by `16 - m` digits.
proof fn lemma_hex_prefix(val: u64, m: nat)
    requires
        m <= 16,
        shr4(val as int, 16) == 0,
    ensures
        hex_value(
            Seq::new(16, |k: int| hex_digit(nibble(val, (15 - k) as nat))).subrange(0, m as int),
        ) == shr4(val as int, (16 - m) as nat),
    decreases m,
{
    let digits = Seq::new(16, |k: int| hex_digit(nibble(val, (15 - k) as nat)));
    if m == 0 {
        assert(digits.subrange(0, 0) =~= Seq::<u8>::empty());
    } else {
        let mm = (m - 1) as nat;
        lemma_hex_prefix(val, mm);
        let j: nat = (15 - mm) as nat;
        let x = shr4(val as int, j);
        lemma_shr4_nonneg(val, j);
        assert(digits.subrange(0, m as int).drop_last() =~= digits.subrange(0, mm as int));
        assert(digits[mm as int] == hex_digit(x % 16));
        assert(digit_value(hex_digit(x % 16)) == x % 16);
        assert(shr4(val as int, (16 - mm) as nat) == x / 16);
    }
}

proof fn lemma_shr4_nonneg(val: u64, i: nat)
    ensures
        shr4(val as int, i) >= 0,
    decreases i,
{
    if i > 0 {
        lemma_shr4_nonneg(val, (i - 1) as nat);
    }
}

} // verus!
