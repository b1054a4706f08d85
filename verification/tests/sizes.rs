use phos::{format_size, parse_size};

fn float_format_size(size: u64) -> String {
    const KB: u64 = 1024;
    const MB: u64 = KB * 1024;
    const GB: u64 = MB * 1024;
    const TB: u64 = GB * 1024;
    if size >= TB {
        format!("{:.1}T", size as f64 / TB as f64)
    } else if size >= GB {
        format!("{:.1}G", size as f64 / GB as f64)
    } else if size >= MB {
        format!("{:.1}M", size as f64 / MB as f64)
    } else if size >= KB {
        format!("{:.1}K", size as f64 / KB as f64)
    } else {
        format!("{}B", size)
    }
}

fn float_parse_size(s: &str) -> Option<u64> {
    let s = s.trim();
    if s.is_empty() {
        return None;
    }
    let value_chars: String = s.chars().take_while(|c| c.is_ascii_digit()).collect();
    let value: f64 = value_chars.parse().ok()?;
    let unit: String = s.chars().skip_while(|c| c.is_ascii_digit()).collect::<String>().trim().to_uppercase();
    let multiplier = match unit.as_str() {
        "B" => 1.0,
        "K" | "KB" | "KIB" => 1024.0,
        "M" | "MB" | "MIB" => 1024.0 * 1024.0,
        "G" | "GB" | "GIB" => 1024.0 * 1024.0 * 1024.0,
        "T" | "TB" | "TIB" => 1024.0 * 1024.0 * 1024.0 * 1024.0,
        _ => 1.0,
    };
    Some((value * multiplier) as u64)
}

#[test]
fn format_size_matches_float_formatting() {
    let mut sizes: Vec<u64> = vec![0, 1, 1023, 1024, 1280, 1331, 1332, 1536, 1075, 1076, 1126, 1127];
    let mut x: u64 = 0x9E37_79B9_7F4A_7C15;
    for _ in 0..20000 {
        x ^= x << 13;
        x ^= x >> 7;
        x ^= x << 17;
        sizes.push(x >> (x % 64));
    }
    for k in [10u32, 20, 30, 40, 53, 54, 60, 63] {
        let p = 1u64 << k;
        for d in 0..70u64 {
            sizes.push(p.wrapping_add(d * (p / 64 + 1)));
            sizes.push(p - 1 - d.min(p - 1));
        }
    }
    sizes.push(u64::MAX);
    sizes.push(u64::MAX - 1024);
    for s in sizes {
        assert_eq!(format_size(s, true), float_format_size(s), "size {}", s);
        assert_eq!(format_size(s, false), s.to_string());
    }
}

#[test]
fn parse_size_matches_float_arithmetic() {
    let inputs = [
        "", " ", "10", "10B", "1k", "1K", " 2 kb ", "3KiB", "100MB", "1.5G", "7 t", "5tb", "x",
        "MB", "12 parsecs", "9007199254740993", "9007199254740993K", "18446744073709551615",
        "18446744073709551616", "18446744073709551000", "99999999999999999999999999 tb",
        "17179869183G", "17179869184G", "16777215T", "16777216T", "0k", "00012m",
    ];
    for s in inputs {
        assert_eq!(parse_size(s), float_parse_size(s), "input {:?}", s);
    }
    let mut x: u64 = 12345;
    for _ in 0..20000 {
        x ^= x << 13;
        x ^= x >> 7;
        x ^= x << 17;
        let v = x >> (x % 64);
        for unit in ["", "K", "mib", "G", "TB", "q"] {
            let s = format!("{}{}", v, unit);
            assert_eq!(parse_size(&s), float_parse_size(&s), "input {:?}", s);
        }
    }
}
