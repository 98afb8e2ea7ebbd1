use memoryfs::memory::{
    parse_free_memory, parse_meminfo, parse_memsize, parse_number, parse_quantity, white_space,
};

#[test]
fn meminfo_gives_total_and_available_in_bytes() {
    let text = "MemTotal:       16384256 kB\nMemFree:         1234567 kB\nMemAvailable:    8192128 kB\nBuffers:          100 kB\n";
    assert_eq!(parse_meminfo(text), Some((16384256 * 1024, 8192128 * 1024)));
}

#[test]
fn meminfo_without_the_lines_gives_zeros() {
    assert_eq!(parse_meminfo(""), Some((0, 0)));
    assert_eq!(parse_meminfo("\n\n"), Some((0, 0)));
    assert_eq!(parse_meminfo("MemFree: 5 kB\nSwapTotal: 7 kB"), Some((0, 0)));
    assert_eq!(parse_meminfo("MemTotal: 2 kB"), Some((2048, 0)));
    assert_eq!(parse_meminfo("MemAvailable: 3 kB\n"), Some((0, 3072)));
    assert_eq!(parse_meminfo(" MemTotal: 2 kB"), Some((0, 0)));
}

#[test]
fn meminfo_takes_the_last_line_of_a_kind() {
    assert_eq!(
        parse_meminfo("MemTotal: 1 kB\nMemAvailable: 9 kB\nMemTotal: 4 kB\nMemAvailable: 2 kB"),
        Some((4096, 2048))
    );
}

#[test]
fn meminfo_reads_the_second_word() {
    assert_eq!(parse_meminfo("MemTotal:\t7\r\n"), Some((7168, 0)));
    assert_eq!(parse_meminfo("MemTotal:123 456"), Some((456 * 1024, 0)));
    assert_eq!(parse_meminfo("MemTotal: +5 kB"), Some((5120, 0)));
    assert_eq!(parse_meminfo("MemTotal: 007"), Some((7168, 0)));
    assert_eq!(parse_meminfo("MemTotal: 0 kB\nMemAvailable: 0"), Some((0, 0)));
}

#[test]
fn meminfo_fails_on_a_line_without_a_number() {
    assert_eq!(parse_meminfo("MemTotal:\n"), None);
    assert_eq!(parse_meminfo("MemTotal:   \nMemAvailable: 1 kB"), None);
    assert_eq!(parse_meminfo("MemTotal: many kB"), None);
    assert_eq!(parse_meminfo("MemTotal: 12kB"), None);
    assert_eq!(parse_meminfo("MemTotal: -1 kB"), None);
    assert_eq!(parse_meminfo("MemTotal: 1 kB\nMemAvailable: + kB"), None);
    assert_eq!(parse_meminfo("MemTotal:5"), None);
}

#[test]
fn meminfo_fails_where_the_bytes_do_not_fit() {
    assert_eq!(parse_meminfo("MemTotal: 18014398509481983 kB"), Some((18014398509481983 * 1024, 0)));
    assert_eq!(parse_meminfo("MemTotal: 18014398509481984 kB"), None);
    assert_eq!(parse_meminfo("MemAvailable: 18446744073709551616 kB"), None);
    assert_eq!(parse_meminfo("MemAvailable: 99999999999999999999999999 kB"), None);
}

#[test]
fn numbers() {
    assert_eq!(parse_number("0"), Some(0));
    assert_eq!(parse_number("42"), Some(42));
    assert_eq!(parse_number("+42"), Some(42));
    assert_eq!(parse_number("000"), Some(0));
    assert_eq!(parse_number("18446744073709551615"), Some(u64::MAX));
    assert_eq!(parse_number("18446744073709551616"), None);
    assert_eq!(parse_number("184467440737095516150"), None);
    assert_eq!(parse_number(""), None);
    assert_eq!(parse_number("+"), None);
    assert_eq!(parse_number("++1"), None);
    assert_eq!(parse_number("1+"), None);
    assert_eq!(parse_number("-1"), None);
    assert_eq!(parse_number("1a"), None);
    assert_eq!(parse_number(" 1"), None);
    assert_eq!(parse_number("99999999999999999999x"), None);
}

#[test]
fn numbers_agree_with_the_standard_parser() {
    for text in ["0", "1", "+7", "0012", "18446744073709551615", "18446744073709551616", "", "+", "-", "-0", "1_000", "12 ", "٣"] {
        assert_eq!(parse_number(text), text.parse::<u64>().ok());
    }
}

#[test]
fn quantities() {
    assert_eq!(parse_quantity("3", 1024), Some(3072));
    assert_eq!(parse_quantity("3", 0), Some(0));
    assert_eq!(parse_quantity("18446744073709551615", 1), Some(u64::MAX));
    assert_eq!(parse_quantity("18446744073709551615", 2), None);
    assert_eq!(parse_quantity("18446744073709551616", 0), None);
    assert_eq!(parse_quantity("x", 1), None);
}

#[test]
fn memsize_is_the_second_field() {
    assert_eq!(parse_memsize("hw.memsize: 17179869184\n"), Some(17179869184));
    assert_eq!(parse_memsize("  hw.memsize:17179869184  "), Some(17179869184));
    assert_eq!(parse_memsize("a:\t5 : 7"), Some(5));
    assert_eq!(parse_memsize(":9"), Some(9));
    assert_eq!(parse_memsize("hw.memsize"), None);
    assert_eq!(parse_memsize(""), None);
    assert_eq!(parse_memsize("   "), None);
    assert_eq!(parse_memsize("a::"), None);
    assert_eq!(parse_memsize("a: 5 6"), None);
    assert_eq!(parse_memsize("a: 18446744073709551616"), None);
    assert_eq!(parse_memsize("hw.memsize: 1\nhw.other: 2"), None);
}

#[test]
fn free_memory_is_the_free_pages_in_bytes() {
    let text = "Mach Virtual Memory Statistics: (page size of 4096 bytes)\nPages free:                               3534.\nPages active:                           123456.\n";
    assert_eq!(parse_free_memory(text), Some(3534 * 4096));
    assert_eq!(parse_free_memory(""), Some(0));
    assert_eq!(parse_free_memory("Pages active: 5."), Some(0));
    assert_eq!(parse_free_memory("Pages free: 1.\nPages free: 2..."), Some(8192));
    assert_eq!(parse_free_memory("Pages free: 7"), Some(28672));
    assert_eq!(parse_free_memory("Pages free: 7.  \r\n"), Some(28672));
    assert_eq!(parse_free_memory("Pages free: 1 2 3."), Some(3 * 4096));
}

#[test]
fn free_memory_fails_on_a_line_without_a_count() {
    assert_eq!(parse_free_memory("Pages free:"), None);
    assert_eq!(parse_free_memory("Pages free: ."), None);
    assert_eq!(parse_free_memory("Pages free: 5.x"), None);
    assert_eq!(parse_free_memory("Pages free: .5"), None);
    assert_eq!(parse_free_memory("Pages free: 4503599627370496."), None);
    assert_eq!(parse_free_memory("Pages free: 4503599627370495."), Some(4503599627370495 * 4096));
    assert_eq!(parse_free_memory("Pages free: 1.\nPages free: none"), None);
}

#[test]
fn white_space_is_what_the_standard_library_takes_for_it() {
    for code in 0..=0x10ffffu32 {
        if let Some(c) = char::from_u32(code) {
            assert_eq!(white_space(c), c.is_whitespace(), "U+{:04X}", code);
        }
    }
}

#[test]
fn words_are_parted_by_any_white_space() {
    assert_eq!(parse_meminfo("MemTotal:\u{a0}5 kB"), Some((5120, 0)));
    assert_eq!(parse_meminfo("MemTotal:\u{3000}\u{2003}6\u{85}kB\nMemAvailable:\u{1680}2"), Some((6144, 2048)));
    assert_eq!(parse_meminfo("MemTotal:\u{200b}5 kB"), None);
    assert_eq!(parse_memsize("\u{2028}hw.memsize:\u{a0}12\u{205f}\u{2029}"), Some(12));
    assert_eq!(parse_free_memory("Pages free:\u{202f}9.\u{2000}"), Some(9 * 4096));
}

#[test]
fn the_parsers_agree_with_the_standard_library() {
    fn meminfo(text: &str) -> Option<(u64, u64)> {
        let mut total: u64 = 0;
        let mut available: u64 = 0;
        for line in text.lines() {
            if line.starts_with("MemTotal:") {
                total = line.split_whitespace().nth(1)?.parse::<u64>().ok()?.checked_mul(1024)?;
            } else if line.starts_with("MemAvailable:") {
                available = line.split_whitespace().nth(1)?.parse::<u64>().ok()?.checked_mul(1024)?;
            }
        }
        Some((total, available))
    }
    fn memsize(text: &str) -> Option<u64> {
        text.trim().split(':').nth(1)?.trim().parse::<u64>().ok()
    }
    fn free_memory(text: &str) -> Option<u64> {
        let mut pages: u64 = 0;
        for line in text.lines() {
            if line.starts_with("Pages free:") {
                pages = line.split_whitespace().last()?.trim_end_matches('.').parse::<u64>().ok()?;
            }
        }
        pages.checked_mul(4096)
    }
    let texts = [
        "",
        "\n",
        "MemTotal: 1 kB\nMemAvailable: 2 kB\n",
        "MemTotal:\t7\r\nMemAvailable:\u{a0}8\r\n",
        "MemTotal:123 456\nMemTotal: x",
        "MemTotal:\u{3000}",
        "MemAvailable: +9\u{2009}kB",
        "MemAvailable: 18014398509481984",
        " MemTotal: 1",
        "MemTotal: ١٢٣",
        "hw.memsize: 17179869184\n",
        "\u{85}a :\u{a0}5\u{2000}: 7",
        "a::",
        "a: 5 6",
        ":",
        "Pages free: 3534.\nPages active: 1.\n",
        "Pages free: 1.\nPages free:\u{a0}2...",
        "Pages free:",
        "Pages free: .",
        "Pages free: 4503599627370496.",
        "Pages free: 5.\u{3000}\r\nMemTotal: 4",
    ];
    for text in texts {
        assert_eq!(parse_meminfo(text), meminfo(text), "{:?}", text);
        assert_eq!(parse_memsize(text), memsize(text), "{:?}", text);
        assert_eq!(parse_free_memory(text), free_memory(text), "{:?}", text);
    }
}
