//! Display lines for directory entries: an icon, the name, the size and the
//! permission bits, separated by two spaces.

use vstd::prelude::*;
use crate::explorer::{
    DirEntry, format_permissions, format_size, line_entry_name, permission_text, second_field,
    separator_at, separator_from, size_text, lemma_separator_from,
};
use crate::text::{
    is_white_space, lemma_ascii_white_space, trim, trim_end, trim_end_char, trim_start,
};

verus! {

/// The Nerd Font folder glyph, shown for directories and for `../`.
pub open spec fn dir_icon() -> char {
    '\u{f07b}'
}

/// Whether `c` lies in one of the Unicode Private Use Areas, where Nerd Font
/// glyphs live.
pub open spec fn is_private_use(c: char) -> bool {
    ||| ('\u{e000}' <= c && c <= '\u{f8ff}')
    ||| ('\u{f0000}' <= c && c <= '\u{ffffd}')
    ||| ('\u{100000}' <= c && c <= '\u{10fffd}')
}

/// The glyph that `kamon::icon_and_color` gives for a file name.
pub uninterp spec fn kamon_glyph(name: Seq<char>) -> Seq<char>;

/// Calls `kamon::icon_and_color` for a file name and keeps the glyph.
///
/// The contract names the glyph, which kamon picks from its tables by the
/// file's name and extension. It also states what kamon's source shows of
/// every glyph in those tables, the default one included: a single
/// character from a Private Use Area. The color is not used here.
#[verifier::external_body]
fn file_glyph(name: &str) -> (r: String)
    ensures
        r@ == kamon_glyph(name@),
        r@.len() == 1,
        is_private_use(r@[0]),
{
    let (glyph, _color) = kamon::icon_and_color(name);
    glyph.to_string()
}

/// The two spaces that separate the fields of a display line.
pub open spec fn field_separator() -> Seq<char> {
    seq![' ', ' ']
}

/// The name as shown: directories get a trailing `/`.
pub open spec fn display_name(e: DirEntry) -> Seq<char> {
    if e.is_dir {
        e.name@.push('/')
    } else {
        e.name@
    }
}

/// The size as shown: empty for directories.
pub open spec fn size_field(e: DirEntry) -> Seq<char> {
    if e.is_dir {
        Seq::empty()
    } else {
        size_text(e.size)
    }
}

/// The icon shown for `e`: the folder glyph for directories, `glyph` for
/// files.
pub open spec fn entry_icon(e: DirEntry, glyph: Seq<char>) -> Seq<char> {
    if e.is_dir {
        seq![dir_icon()]
    } else {
        glyph
    }
}

/// The display line `icon  name[/]  size  perms`.
pub open spec fn entry_line(e: DirEntry, icon: Seq<char>) -> Seq<char> {
    icon + field_separator() + display_name(e) + field_separator() + size_field(e)
        + field_separator() + permission_text(e.mode)
}

/// The line for navigating to the parent directory, `icon  ../`.
pub open spec fn parent_line() -> Seq<char> {
    seq![dir_icon(), ' ', ' ', '.', '.', '/']
}

/// How many lines come before the entries: one for `../` when it is shown.
pub open spec fn parent_offset(show_parent: bool) -> int {
    if show_parent {
        1
    } else {
        0
    }
}

/// Appends the two-space field separator.
fn push_separator(s: &mut String)
    ensures
        final(s)@ == old(s)@ + field_separator(),
{
    s.push(' ');
    s.push(' ');
    assert(final(s)@ =~= old(s)@ + field_separator());
}

/// Formats an entry as a display line, with `glyph` as the icon of a file;
/// directories always show the folder glyph.
pub fn format_entry_line(entry: &DirEntry, glyph: &str) -> (r: String)
    ensures
        r@ == entry_line(*entry, entry_icon(*entry, glyph@)),
{
    let mut s = String::new();
    if entry.is_dir {
        s.push('\u{f07b}');
    } else {
        s.append(glyph);
    }
    push_separator(&mut s);
    s.append(entry.name.as_str());
    if entry.is_dir {
        s.push('/');
    }
    push_separator(&mut s);
    if !entry.is_dir {
        let size = format_size(entry.size);
        s.append(size.as_str());
    }
    push_separator(&mut s);
    let perms = format_permissions(entry.mode);
    s.append(perms.as_str());
    assert(s@ =~= entry_line(*entry, entry_icon(*entry, glyph@)));
    s
}

/// Formats a single directory entry as a display line
/// `icon  name[/]  size  perms`: directories get the folder glyph, a
/// trailing `/` and no size; files get kamon's glyph for their name.
pub fn format_entry(entry: &DirEntry) -> (r: String)
    ensures
        r@ == entry_line(*entry, entry_icon(*entry, kamon_glyph(entry.name@))),
{
    if entry.is_dir {
        format_entry_line(entry, "")
    } else {
        let glyph = file_glyph(entry.name.as_str());
        format_entry_line(entry, glyph.as_str())
    }
}

/// Formats the parent-directory navigation line (`../`).
pub fn format_parent_line() -> (r: String)
    ensures
        r@ == parent_line(),
{
    let mut s = String::new();
    s.push('\u{f07b}');
    s.push(' ');
    s.push(' ');
    s.push('.');
    s.push('.');
    s.push('/');
    assert(s@ =~= parent_line());
    s
}

/// Renders a directory listing to display lines: the `../` line first when
/// `show_parent` holds, then one line per entry, in the given order.
pub fn render_lines(entries: &[DirEntry], show_parent: bool) -> (r: Vec<String>)
    ensures
        r.len() == entries@.len() + parent_offset(show_parent),
        show_parent ==> r@[0]@ == parent_line(),
        forall|k: int|
            0 <= k < entries@.len() ==> r@[k + parent_offset(show_parent)]@ == entry_line(
                #[trigger] entries@[k],
                entry_icon(entries@[k], kamon_glyph(entries@[k].name@)),
            ),
{
    let mut lines: Vec<String> = Vec::new();
    if show_parent {
        lines.push(format_parent_line());
    }
    let ghost off: int = parent_offset(show_parent);
    let n = entries.len();
    for k in 0..n
        invariant
            n == entries@.len(),
            lines.len() == k + off,
            show_parent ==> lines@[0]@ == parent_line(),
            off == parent_offset(show_parent),
            forall|m: int|
                0 <= m < k ==> lines@[m + off]@ == entry_line(
                    #[trigger] entries@[m],
                    entry_icon(entries@[m], kamon_glyph(entries@[m].name@)),
                ),
    {
        let line = format_entry(&entries[k]);
        lines.push(line);
    }
    lines
}

// ── reading a display line back ──

/// `s` neither starts nor ends with whitespace, so trimming keeps it whole.
proof fn lemma_trim_keeps(s: Seq<char>)
    requires
        s.len() > 0,
        !is_white_space(s[0]),
        !is_white_space(s.last()),
    ensures
        trim(s) == s,
{
    assert(trim_start(s) == s);
    assert(trim_end(s) == s);
}

/// The first separator of `p  q` is the one right after `p`, when `p` holds
/// none and does not end with a space.
proof fn lemma_first_separator(p: Seq<char>, q: Seq<char>)
    requires
        forall|j: int| !#[trigger] separator_at(p, j),
        p.len() > 0 ==> p.last() != ' ',
    ensures
        separator_from(p + field_separator() + q, 0) == Some(p.len() as int),
{
    let s = p + field_separator() + q;
    assert(separator_at(s, p.len() as int));
    lemma_separator_from(s, 0);
    assert forall|j: int| 0 <= j < p.len() implies !#[trigger] separator_at(s, j) by {
        if j + 1 < p.len() {
            assert(!separator_at(p, j));
        } else {
            assert(s[j] == p.last());
        }
    }
}

/// A display line gives back the name it shows.
///
/// This holds whenever the icon is free of whitespace and the name is not
/// empty, neither starts nor ends with whitespace, holds no two consecutive
/// spaces, and does not end with `/`. (A name such as `notes ` with a
/// trailing space is read back as `notes`.)
pub proof fn lemma_line_gives_name(e: DirEntry, icon: Seq<char>)
    requires
        icon.len() > 0,
        forall|i: int| 0 <= i < icon.len() ==> !is_white_space(#[trigger] icon[i]),
        e.name@.len() > 0,
        !is_white_space(e.name@[0]),
        !is_white_space(e.name@.last()),
        e.name@.last() != '/',
        forall|j: int| !#[trigger] separator_at(e.name@, j),
    ensures
        line_entry_name(entry_line(e, icon)) == Some(e.name@),
{
    let name = e.name@;
    let shown = display_name(e);
    let perms = permission_text(e.mode);
    let rest = shown + field_separator() + (size_field(e) + field_separator() + perms);
    let line = entry_line(e, icon);
    assert(line =~= icon + field_separator() + rest);
    assert(perms[8] == 'x' || perms[8] == '-');
    assert(line.last() == perms[8]);
    assert(line[0] == icon[0]);
    lemma_trim_keeps(line);
    assert forall|j: int| !#[trigger] separator_at(icon, j) by {
        if 0 <= j < icon.len() {
            assert(!is_white_space(icon[j]));
        }
    }
    assert(!is_white_space(icon.last()));
    lemma_first_separator(icon, rest);
    assert(line.skip(icon.len() + 2int) =~= rest);
    assert forall|j: int| !#[trigger] separator_at(shown, j) by {
        if e.is_dir && j + 1 == name.len() {
            assert(shown[j + 1] == '/');
        } else if 0 <= j && j + 1 < name.len() {
            assert(!separator_at(name, j));
            assert(shown[j] == name[j] && shown[j + 1] == name[j + 1]);
        }
    }
    assert(shown.last() != ' ');
    lemma_first_separator(shown, size_field(e) + field_separator() + perms);
    assert(rest =~= shown + field_separator() + (size_field(e) + field_separator() + perms));
    assert(rest.take(shown.len() as int) =~= shown);
    assert(second_field(trim(line)) == Some(shown));
    assert(shown[0] == name[0]);
    assert(!is_white_space(shown.last()));
    lemma_trim_keeps(shown);
    if e.is_dir {
        assert(shown.drop_last() =~= name);
        assert(trim_end_char(shown, '/') == trim_end_char(name, '/'));
    }
    assert(trim_end_char(name, '/') == name);
}

/// The `../` line is read back as `..`.
pub proof fn lemma_parent_line_gives_dot_dot()
    ensures
        line_entry_name(parent_line()) == Some(seq!['.', '.']),
{
    let line = parent_line();
    lemma_trim_keeps(line);
    let rest = seq!['.', '.', '/'];
    assert(line =~= seq![dir_icon()] + field_separator() + rest);
    assert forall|j: int| !#[trigger] separator_at(seq![dir_icon()], j) by {}
    lemma_first_separator(seq![dir_icon()], rest);
    assert(line.skip(3) =~= rest);
    lemma_separator_from(rest, 0);
    assert(separator_from(rest, 0) is None);
    assert(second_field(line) == Some(rest));
    lemma_trim_keeps(rest);
    assert(rest.drop_last() =~= seq!['.', '.']);
    assert(trim_end_char(rest, '/') == trim_end_char(seq!['.', '.'], '/'));
}

/// Every display line that `format_entry` produces gives back the entry's
/// name, under the conditions on the name of [`lemma_line_gives_name`]:
/// kamon's glyphs and the folder glyph hold no whitespace.
pub proof fn lemma_formatted_entry_gives_name(e: DirEntry, glyph: Seq<char>)
    requires
        glyph.len() == 1,
        is_private_use(glyph[0]),
        e.name@.len() > 0,
        !is_white_space(e.name@[0]),
        !is_white_space(e.name@.last()),
        e.name@.last() != '/',
        forall|j: int| !#[trigger] separator_at(e.name@, j),
    ensures
        line_entry_name(entry_line(e, entry_icon(e, glyph))) == Some(e.name@),
{
    let icon = entry_icon(e, glyph);
    assert forall|i: int| 0 <= i < icon.len() implies !is_white_space(#[trigger] icon[i]) by {}
    lemma_line_gives_name(e, icon);
}

// ── the fields of a display line ──

/// A file's line holds, between two-space separators, its icon, its name,
/// the size text of its size (for every size, zero included: `0B`), and its
/// permission text.
pub proof fn lemma_file_line_fields(e: DirEntry, icon: Seq<char>)
    requires
        !e.is_dir,
    ensures
        entry_line(e, icon) == icon + seq![' ', ' '] + e.name@ + seq![' ', ' '] + size_text(e.size)
            + seq![' ', ' '] + permission_text(e.mode),
{
}

/// A directory's line holds its icon, its name with a trailing `/`, an
/// empty size field, and its permission text.
pub proof fn lemma_directory_line_fields(e: DirEntry, icon: Seq<char>)
    requires
        e.is_dir,
    ensures
        entry_line(e, icon) == icon + seq![' ', ' '] + e.name@.push('/') + seq![' ', ' ', ' ', ' ']
            + permission_text(e.mode),
{
    assert(entry_line(e, icon) =~= icon + seq![' ', ' '] + e.name@.push('/') + seq![
        ' ',
        ' ',
        ' ',
        ' ',
    ] + permission_text(e.mode));
}

/// A name whose first and last characters are ASCII and not whitespace
/// (such as `__init__.py`) is read back whole from the line `format_entry`
/// shows for it, provided it holds no two consecutive spaces and does not
/// end with `/`.
pub proof fn lemma_ascii_name_read_back(e: DirEntry, glyph: Seq<char>)
    requires
        glyph.len() == 1,
        is_private_use(glyph[0]),
        e.name@.len() > 0,
        e.name@[0] <= '\u{7f}',
        e.name@[0] != ' ',
        !('\t' <= e.name@[0] && e.name@[0] <= '\r'),
        e.name@.last() <= '\u{7f}',
        e.name@.last() != ' ',
        !('\t' <= e.name@.last() && e.name@.last() <= '\r'),
        e.name@.last() != '/',
        forall|j: int| !#[trigger] separator_at(e.name@, j),
    ensures
        line_entry_name(entry_line(e, entry_icon(e, glyph))) == Some(e.name@),
{
    lemma_ascii_white_space(e.name@[0]);
    lemma_ascii_white_space(e.name@.last());
    lemma_formatted_entry_gives_name(e, glyph);
}

/// Splitting at two-space separators: when `p` and `q` hold no two
/// consecutive spaces and do not end with a space, the second field of
/// `p  q  r` is `q`, whatever `r` holds.
pub proof fn lemma_second_field_of_fields(p: Seq<char>, q: Seq<char>, r: Seq<char>)
    requires
        forall|j: int| 0 <= j < p.len() - 1 ==> !(#[trigger] p[j] == ' ' && p[j + 1] == ' '),
        forall|j: int| 0 <= j < q.len() - 1 ==> !(#[trigger] q[j] == ' ' && q[j + 1] == ' '),
        p.len() > 0 ==> p.last() != ' ',
        q.len() > 0 ==> q.last() != ' ',
    ensures
        second_field(p + seq![' ', ' '] + q + seq![' ', ' '] + r) == Some(q),
{
    assert forall|j: int| !#[trigger] separator_at(p, j) by {
        if separator_at(p, j) {
            assert(p[j] == ' ' && p[j + 1] == ' ');
        }
    }
    assert forall|j: int| !#[trigger] separator_at(q, j) by {
        if separator_at(q, j) {
            assert(q[j] == ' ' && q[j + 1] == ' ');
        }
    }
    let rest = q + field_separator() + r;
    let s = p + field_separator() + rest;
    assert(p + seq![' ', ' '] + q + seq![' ', ' '] + r =~= s);
    lemma_first_separator(p, rest);
    assert(s.skip(p.len() + 2int) =~= rest);
    lemma_first_separator(q, r);
    assert(rest.take(q.len() as int) =~= q);
}

/// A line with no two consecutive spaces has no second field, so no entry
/// name can be read from it.
pub proof fn lemma_no_separator_no_name(s: Seq<char>)
    requires
        forall|j: int| 0 <= j < s.len() - 1 ==> !(#[trigger] s[j] == ' ' && s[j + 1] == ' '),
    ensures
        second_field(s) is None,
{
    lemma_separator_from(s, 0);
    if separator_from(s, 0) is Some {
        let k = separator_from(s, 0)->0;
        assert(s[k] == ' ' && s[k + 1] == ' ');
    }
}

} // verus!
