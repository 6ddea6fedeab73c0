use rvkernel::uart::{uart_address, uart_print, uart_print_hex, uart_print_phys_bytes, UART_VIRT_ADDR};

#[test]
fn address_depends_on_paging() {
    assert_eq!(uart_address(0), 0x1000_0000);
    assert_eq!(uart_address(0x8000_0000_0008_0000), 0xFFFF_FFFF_1000_0000);
    assert_eq!(UART_VIRT_ADDR, 0xFFFF_FFFF_1000_0000);
}

#[test]
fn print_appends_bytes() {
    let mut out = Vec::new();
    uart_print(&mut out, "Tick: ");
    uart_print(&mut out, "");
    uart_print(&mut out, "ok\n");
    assert_eq!(out, b"Tick: ok\n".to_vec());
}

#[test]
fn print_hex_is_sixteen_upper_case_digits() {
    let mut out = Vec::new();
    uart_print_hex(&mut out, 0xDEAD_BEEF);
    assert_eq!(out, b"0x00000000DEADBEEF".to_vec());
    out.clear();
    uart_print_hex(&mut out, 0);
    assert_eq!(out, b"0x0000000000000000".to_vec());
    out.clear();
    uart_print_hex(&mut out, u64::MAX);
    assert_eq!(out, b"0xFFFFFFFFFFFFFFFF".to_vec());
}

#[test]
fn hex_digits_read_back() {
    for v in [0u64, 1, 0x1234_5678_9ABC_DEF0, u64::MAX, 42] {
        let mut out = Vec::new();
        uart_print_hex(&mut out, v);
        let text = std::str::from_utf8(&out[2..]).unwrap();
        assert_eq!(u64::from_str_radix(text, 16).unwrap(), v);
    }
}

#[test]
fn print_phys_bytes_appends() {
    let mut out = b"> ".to_vec();
    uart_print_phys_bytes(&mut out, b"Booting Kernel...\n");
    assert_eq!(out, b"> Booting Kernel...\n".to_vec());
}
