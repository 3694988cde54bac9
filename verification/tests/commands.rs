use hayashi::commands::{buffer_name, creates_directory, open_step, shows_parent, OpenStep};

#[test]
fn open_dot_dot_goes_to_parent() {
    assert_eq!(open_step("/home/user", ".."), OpenStep::Parent("/home".to_string()));
    assert_eq!(open_step("/", ".."), OpenStep::Stay);
}

#[test]
fn open_other_names_enters_them() {
    assert_eq!(open_step("/home/user", "src"), OpenStep::Enter("src".to_string()));
    assert_eq!(open_step("/home/user", "..."), OpenStep::Enter("...".to_string()));
    assert_eq!(open_step("/home/user", "."), OpenStep::Enter(".".to_string()));
}

#[test]
fn parent_line_shown_below_root_only() {
    assert!(shows_parent("/home/user"));
    assert!(shows_parent("/tmp"));
    assert!(!shows_parent("/"));
    assert!(!shows_parent(""));
}

#[test]
fn trailing_slash_creates_directory() {
    assert!(creates_directory("newdir/"));
    assert!(!creates_directory("file.txt"));
    assert!(!creates_directory(""));
    assert!(creates_directory("a/b/"));
}

#[test]
fn buffer_names() {
    assert_eq!(buffer_name("/home/user"), "hayashi:///home/user");
}
