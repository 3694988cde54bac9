use std::cmp::Ordering;
use hayashi::explorer::{
    entry_name_from_line, format_permissions, format_size, parent_dir, sort_entries, DirEntry,
};

// ── format_size ──

#[test]
fn format_size_bytes() {
    assert_eq!(format_size(0), "0B");
    assert_eq!(format_size(512), "512B");
    assert_eq!(format_size(1023), "1023B");
}

#[test]
fn format_size_kib() {
    assert_eq!(format_size(1024), "1.0K");
    assert_eq!(format_size(1536), "1.5K");
    assert_eq!(format_size(10240), "10.0K");
}

#[test]
fn format_size_mib() {
    assert_eq!(format_size(1_048_576), "1.0M");
    assert_eq!(format_size(5_242_880), "5.0M");
}

#[test]
fn format_size_gib() {
    assert_eq!(format_size(1_073_741_824), "1.0G");
}

#[test]
fn format_size_tib() {
    assert_eq!(format_size(1_099_511_627_776), "1.0T");
}

/// The size text as the float formatting of `{:.1}` writes it.
fn float_size_text(bytes: u64) -> String {
    const KIB: u64 = 1024;
    const MIB: u64 = 1024 * KIB;
    const GIB: u64 = 1024 * MIB;
    const TIB: u64 = 1024 * GIB;
    if bytes >= TIB {
        format!("{:.1}T", bytes as f64 / TIB as f64)
    } else if bytes >= GIB {
        format!("{:.1}G", bytes as f64 / GIB as f64)
    } else if bytes >= MIB {
        format!("{:.1}M", bytes as f64 / MIB as f64)
    } else if bytes >= KIB {
        format!("{:.1}K", bytes as f64 / KIB as f64)
    } else {
        format!("{bytes}B")
    }
}

#[test]
fn format_size_rounds_ties_to_even() {
    // 1.25 and 1.75 lie exactly halfway between two tenths.
    assert_eq!(format_size(1280), "1.2K");
    assert_eq!(format_size(1792), "1.8K");
    assert_eq!(format_size(1_310_720), "1.2M");
    assert_eq!(format_size(1_835_008), "1.8M");
}

#[test]
fn format_size_matches_float_formatting() {
    let mut samples: Vec<u64> = Vec::new();
    for b in 0..5000u64 {
        samples.push(b);
    }
    for k in 1..64u32 {
        let p = 1u64 << k;
        for d in 0..4u64 {
            samples.push(p.wrapping_add(d));
            samples.push(p.wrapping_sub(d));
            samples.push(p / 10 * 3 + d);
        }
    }
    for b in [
        (1u64 << 53) + 1,
        (1u64 << 53) + 3,
        (1u64 << 60) + 1000,
        u64::MAX,
        u64::MAX - 1024,
        123_456_789_012_345_678,
        1_099_511_627_776 * 1023 + 549_755_813_888,
        107_374_182,
        1_288_490_188,
    ] {
        samples.push(b);
    }
    let mut x: u64 = 0x9e37_79b9_7f4a_7c15;
    for _ in 0..20000 {
        x ^= x << 13;
        x ^= x >> 7;
        x ^= x << 17;
        samples.push(x >> (x % 50));
    }
    for b in samples {
        assert_eq!(format_size(b), float_size_text(b), "bytes = {b}");
    }
}

// ── format_permissions ──

#[test]
fn format_permissions_755() {
    assert_eq!(format_permissions(0o755), "rwxr-xr-x");
}

#[test]
fn format_permissions_644() {
    assert_eq!(format_permissions(0o644), "rw-r--r--");
}

#[test]
fn format_permissions_777() {
    assert_eq!(format_permissions(0o777), "rwxrwxrwx");
}

#[test]
fn format_permissions_000() {
    assert_eq!(format_permissions(0o000), "---------");
}

#[test]
fn format_permissions_600() {
    assert_eq!(format_permissions(0o600), "rw-------");
}

#[test]
fn format_permissions_only_lower_bits() {
    // Mode bits from fs often include file type bits (e.g., 0o100644).
    // Our function only looks at the lower 9 bits.
    assert_eq!(format_permissions(0o100_644), "rw-r--r--");
}

#[test]
fn format_permissions_ignores_high_bits_everywhere() {
    for mode in [0o4755u32, 0o40755, 0xffff_ffff, 0o1777, 0o2644] {
        assert_eq!(format_permissions(mode), format_permissions(mode & 0o777));
        assert_eq!(format_permissions(mode).chars().count(), 9);
    }
    assert_eq!(format_permissions(0o124), "--x-w-r--");
}

// ── DirEntry sorting ──

#[test]
fn sort_dirs_before_files() {
    let mut entries = vec![
        DirEntry::new("file.txt".into(), false, 100, 0o644),
        DirEntry::new("src".into(), true, 0, 0o755),
    ];
    sort_entries(&mut entries);
    assert!(entries[0].is_dir);
    assert_eq!(entries[0].name, "src");
    assert_eq!(entries[1].name, "file.txt");
}

#[test]
fn sort_alphabetical_within_dirs() {
    let mut entries = vec![
        DirEntry::new("zebra".into(), true, 0, 0o755),
        DirEntry::new("alpha".into(), true, 0, 0o755),
        DirEntry::new("middle".into(), true, 0, 0o755),
    ];
    sort_entries(&mut entries);
    assert_eq!(entries[0].name, "alpha");
    assert_eq!(entries[1].name, "middle");
    assert_eq!(entries[2].name, "zebra");
}

#[test]
fn sort_alphabetical_within_files() {
    let mut entries = vec![
        DirEntry::new("main.rs".into(), false, 100, 0o644),
        DirEntry::new("Cargo.toml".into(), false, 50, 0o644),
        DirEntry::new("lib.rs".into(), false, 80, 0o644),
    ];
    sort_entries(&mut entries);
    assert_eq!(entries[0].name, "Cargo.toml");
    assert_eq!(entries[1].name, "lib.rs");
    assert_eq!(entries[2].name, "main.rs");
}

#[test]
fn sort_case_insensitive() {
    let mut entries = vec![
        DirEntry::new("Zebra".into(), false, 0, 0o644),
        DirEntry::new("alpha".into(), false, 0, 0o644),
    ];
    sort_entries(&mut entries);
    assert_eq!(entries[0].name, "alpha");
    assert_eq!(entries[1].name, "Zebra");
}

#[test]
fn sort_mixed_dirs_and_files() {
    let mut entries = vec![
        DirEntry::new("README.md".into(), false, 200, 0o644),
        DirEntry::new("src".into(), true, 0, 0o755),
        DirEntry::new("Cargo.toml".into(), false, 50, 0o644),
        DirEntry::new("tests".into(), true, 0, 0o755),
        DirEntry::new(".gitignore".into(), false, 10, 0o644),
    ];
    sort_entries(&mut entries);
    // Dirs first (alphabetical), then files (alphabetical).
    assert_eq!(entries[0].name, "src");
    assert_eq!(entries[1].name, "tests");
    assert_eq!(entries[2].name, ".gitignore");
    assert_eq!(entries[3].name, "Cargo.toml");
    assert_eq!(entries[4].name, "README.md");
}

#[test]
fn sort_keeps_order_of_names_equal_up_to_case() {
    let mut entries = vec![
        DirEntry::new("b".into(), false, 1, 0o644),
        DirEntry::new("B".into(), false, 2, 0o644),
        DirEntry::new("a".into(), true, 0, 0o755),
        DirEntry::new("b".into(), false, 3, 0o644),
    ];
    sort_entries(&mut entries);
    assert_eq!(entries[0].name, "a");
    assert_eq!(entries[1].size, 1);
    assert_eq!(entries[2].size, 2);
    assert_eq!(entries[3].size, 3);
}

#[test]
fn sort_empty_and_single() {
    let mut none: Vec<DirEntry> = Vec::new();
    sort_entries(&mut none);
    assert!(none.is_empty());
    let mut one = vec![DirEntry::new("x".into(), false, 0, 0)];
    sort_entries(&mut one);
    assert_eq!(one[0].name, "x");
}

#[test]
fn sort_uses_unicode_lowercase() {
    let mut entries = vec![
        DirEntry::new("Ärger".into(), false, 0, 0o644),
        DirEntry::new("zeta".into(), false, 0, 0o644),
        DirEntry::new("äpfel".into(), false, 0, 0o644),
    ];
    sort_entries(&mut entries);
    assert_eq!(entries[0].name, "zeta");
    assert_eq!(entries[1].name, "äpfel");
    assert_eq!(entries[2].name, "Ärger");
}

#[test]
fn compare_entries() {
    let dir = DirEntry::new("zzz".into(), true, 0, 0o755);
    let file = DirEntry::new("aaa".into(), false, 0, 0o644);
    let upper = DirEntry::new("AAA".into(), false, 9, 0o600);
    assert_eq!(dir.cmp(&file), Ordering::Less);
    assert_eq!(file.cmp(&dir), Ordering::Greater);
    assert_eq!(file.cmp(&upper), Ordering::Equal);
    assert_eq!(file.partial_cmp(&dir), Some(Ordering::Greater));
}

// ── parent_dir ──

#[test]
fn parent_of_nested_path() {
    let p = "/home/user/projects";
    assert_eq!(parent_dir(p), Some("/home/user".to_string()));
}

#[test]
fn parent_of_root() {
    let p = "/";
    // On some platforms Path::parent of "/" is None, on others Some("").
    let parent = parent_dir(p);
    // Either None or Some("") is acceptable — both mean "no meaningful parent".
    match parent {
        None => {} // expected on macOS
        Some(ref p) if p.is_empty() => {} // expected on some Linux
        other => panic!("unexpected parent of root: {other:?}"),
    }
}

#[test]
fn parent_of_relative_and_empty_paths() {
    assert_eq!(parent_dir("foo"), Some(String::new()));
    assert_eq!(parent_dir("/foo"), Some("/".to_string()));
    assert_eq!(parent_dir(""), None);
}

// ── entry_name_from_line ──

#[test]
fn extract_name_file() {
    let line = "\u{f15b}  README.md  1.2K  rw-r--r--";
    assert_eq!(entry_name_from_line(line), Some("README.md"));
}

#[test]
fn extract_name_directory() {
    let line = "\u{f07b}  src/  0B  rwxr-xr-x";
    assert_eq!(entry_name_from_line(line), Some("src"));
}

#[test]
fn extract_name_empty_line() {
    assert_eq!(entry_name_from_line(""), None);
    assert_eq!(entry_name_from_line("   "), None);
}

#[test]
fn extract_name_header_line() {
    // The "../" parent-nav line uses double-space separators too.
    let line = "\u{f07b}  ../";
    assert_eq!(entry_name_from_line(line), Some(".."));
}

#[test]
fn extract_name_edge_cases() {
    // No separator at all: no second field.
    assert_eq!(entry_name_from_line("icon name"), None);
    // A blank second field.
    assert_eq!(entry_name_from_line("x     y"), None);
    // Surrounding whitespace of the line and of the field is trimmed.
    assert_eq!(entry_name_from_line("  \t x   my file  12B  rw-------\n"), Some("my file"));
    // Every trailing slash goes.
    assert_eq!(entry_name_from_line("x  dir///  "), Some("dir"));
    assert_eq!(entry_name_from_line("x  /"), Some(""));
    // Three spaces: the separator is the first two.
    assert_eq!(entry_name_from_line("a   b  c"), Some("b"));
}

#[test]
fn sorting_a_sorted_listing_changes_nothing() {
    let mut entries = vec![
        DirEntry::new("b".into(), false, 1, 0o644),
        DirEntry::new("Docs".into(), true, 0, 0o755),
        DirEntry::new("B".into(), false, 2, 0o644),
        DirEntry::new("a".into(), false, 3, 0o644),
        DirEntry::new("docs".into(), true, 4, 0o755),
    ];
    sort_entries(&mut entries);
    let once = entries.clone();
    sort_entries(&mut entries);
    assert_eq!(entries, once);
    let names: Vec<&str> = entries.iter().map(|e| e.name.as_str()).collect();
    assert_eq!(names, vec!["Docs", "docs", "a", "b", "B"]);
}
