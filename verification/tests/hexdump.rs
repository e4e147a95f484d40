use mineore::hexdump::debug_hex_print;

#[test]
fn dump_of_nothing() {
    assert_eq!(debug_hex_print("Empty", &[]), "Empty:\nLength: 0 bytes\nHex dump:\n\n");
}

#[test]
fn dump_of_a_short_line() {
    let expected = format!(
        "Header:\nLength: 5 bytes\nHex dump:\n0000: {:48} |Hi .~|\n\n",
        "48 69 20 00 7E "
    );
    let expected = expected.replace("|Hi .~|", "|Hi..~|");
    assert_eq!(debug_hex_print("Header", b"Hi \0~"), expected);
}

#[test]
fn dump_of_full_lines() {
    let bytes: Vec<u8> = (0x2a..0x2a + 32).collect();
    let expected = concat_lines(&[
        "Payload:",
        "Length: 32 bytes",
        "Hex dump:",
        "0000: 2A 2B 2C 2D 2E 2F 30 31 32 33 34 35 36 37 38 39  |*+,-./0123456789|",
        "0010: 3A 3B 3C 3D 3E 3F 40 41 42 43 44 45 46 47 48 49  |:;<=>?@ABCDEFGHI|",
        "",
    ]);
    assert_eq!(debug_hex_print("Payload", &bytes), expected);
}

#[test]
fn offsets_past_four_digits() {
    let bytes = vec![0xffu8; 0x10001];
    let dump = debug_hex_print("Long", &bytes);
    let lines: Vec<&str> = dump.lines().collect();
    assert_eq!(lines[1], "Length: 65537 bytes");
    assert_eq!(lines.len(), 3 + 0x1001 + 1);
    assert_eq!(lines[3 + 0xfff].split(':').next(), Some("FFF0"));
    assert_eq!(lines[3 + 0x1000], format!("10000: {:48} |.|", "FF "));
}

#[test]
fn every_byte_is_shown() {
    let mut seen = Vec::new();
    for byte in 0..=255u8 {
        let dump = debug_hex_print("Byte", &[byte]);
        let line = dump.lines().nth(3).unwrap().to_string();
        let shown = if byte.is_ascii_graphic() { byte as char } else { '.' };
        let cell = format!("{:02X} ", byte);
        assert_eq!(line, format!("0000: {:48} |{}|", cell, shown));
        assert!(!seen.contains(&line[..54].to_string()));
        seen.push(line[..54].to_string());
    }
}

fn concat_lines(lines: &[&str]) -> String {
    let mut out = String::new();
    for line in lines {
        out.push_str(line);
        out.push('\n');
    }
    out
}
