use hayashi::explorer::{entry_name_from_line, DirEntry};
use hayashi::render::{format_entry, format_entry_line, format_parent_line, render_lines};

fn sample_entries() -> Vec<DirEntry> {
    vec![
        DirEntry::new("src".into(), true, 0, 0o755),
        DirEntry::new("main.rs".into(), false, 1024, 0o644),
        DirEntry::new("Cargo.toml".into(), false, 256, 0o644),
    ]
}

#[test]
fn format_entry_directory() {
    let entry = DirEntry::new("src".into(), true, 0, 0o755);
    let line = format_entry(&entry);
    assert!(line.contains("src/"));
    assert!(line.contains("rwxr-xr-x"));
}

#[test]
fn format_entry_file() {
    let entry = DirEntry::new("main.rs".into(), false, 2048, 0o644);
    let line = format_entry(&entry);
    assert!(line.contains("main.rs"));
    assert!(line.contains("2.0K"));
    assert!(line.contains("rw-r--r--"));
}

#[test]
fn format_entry_exact_text() {
    let dir = DirEntry::new("src".into(), true, 0, 0o755);
    assert_eq!(format_entry(&dir), "\u{f07b}  src/    rwxr-xr-x");
    let file = DirEntry::new("main.rs".into(), false, 2048, 0o644);
    assert_eq!(format_entry(&file), "\u{e7a8}  main.rs  2.0K  rw-r--r--");
    let unknown = DirEntry::new("mystery".into(), false, 7, 0o600);
    assert_eq!(format_entry(&unknown), "\u{f15b}  mystery  7B  rw-------");
    assert_eq!(format_entry_line(&file, "*"), "*  main.rs  2.0K  rw-r--r--");
    assert_eq!(format_entry_line(&dir, "*"), "\u{f07b}  src/    rwxr-xr-x");
}

#[test]
fn format_parent_line_content() {
    let line = format_parent_line();
    assert!(line.contains("../"));
}

#[test]
fn render_lines_with_parent() {
    let entries = sample_entries();
    let lines = render_lines(&entries, true);
    assert_eq!(lines.len(), 4);
    assert!(lines[0].contains("../"));
}

#[test]
fn render_lines_without_parent() {
    let entries = sample_entries();
    let lines = render_lines(&entries, false);
    assert_eq!(lines.len(), 3);
    assert!(!lines[0].contains("../"));
}

#[test]
fn render_lines_empty() {
    let lines = render_lines(&[], true);
    assert_eq!(lines.len(), 1);
    assert!(lines[0].contains("../"));
}

#[test]
fn render_lines_follow_entries() {
    let entries = sample_entries();
    let lines = render_lines(&entries, true);
    assert_eq!(lines[0], format_parent_line());
    for (k, e) in entries.iter().enumerate() {
        assert_eq!(lines[k + 1], format_entry(e));
    }
}

#[test]
fn displayed_lines_give_back_names() {
    let names = ["src", "main.rs", "my notes.txt", ".gitignore", "Dockerfile", "a b c"];
    for name in names {
        for is_dir in [false, true] {
            let e = DirEntry::new(name.to_string(), is_dir, 123_456, 0o640);
            let line = format_entry(&e);
            assert_eq!(entry_name_from_line(&line), Some(name));
        }
    }
    assert_eq!(entry_name_from_line(&format_parent_line()), Some(".."));
}
