//! Directory entries, the order in which a listing shows them, and the text
//! that describes them: sizes, permission bits, parent directories, and the
//! entry name held by a display line.

use vstd::prelude::*;
use vstd::set_lib::{lemma_int_range, lemma_subset_equality, set_int_range};
use crate::text::{
    chars_of, decimal, digit_char, is_white_space, lemma_decimal_writes_number, push_decimal,
    trim, trim_end_char, trim_range,
};

verus! {

/// A single entry in a directory listing.
#[derive(Debug, Clone, PartialEq, Eq)]
pub struct DirEntry {
    /// The file or directory name (not the full path).
    pub name: String,
    /// Whether this entry is a directory.
    pub is_dir: bool,
    /// File size in bytes (0 for directories).
    pub size: u64,
    /// Unix permission bits (e.g., 0o755).
    pub mode: u32,
}

impl DirEntry {
    /// Creates a new directory entry from its parts.
    pub fn new(name: String, is_dir: bool, size: u64, mode: u32) -> (e: Self)
        ensures
            e.name@ == name@,
            e.is_dir == is_dir,
            e.size == size,
            e.mode == mode,
    {
        DirEntry { name, is_dir, size, mode }
    }
}

// ── sizes ──

/// One kibibyte.
pub const KIB: u64 = 1024;
/// One mebibyte.
pub const MIB: u64 = 1024 * KIB;
/// One gibibyte.
pub const GIB: u64 = 1024 * MIB;
/// One tebibyte.
pub const TIB: u64 = 1024 * GIB;

/// `2` to the power `n`.
pub open spec fn two_pow(n: nat) -> nat
    decreases n,
{
    if n == 0 {
        1
    } else {
        2 * two_pow((n - 1) as nat)
    }
}

/// How many low bits of `n` a 53-bit significand cannot hold.
pub open spec fn excess_bits(n: nat) -> nat
    decreases n,
{
    if n < 0x20_0000_0000_0000 {
        0
    } else {
        1 + excess_bits(n / 2)
    }
}

/// The value that `n as f64` holds: `n` rounded to the nearest number with
/// at most 53 significant bits, ties going to the even significand.
pub open spec fn float_round(n: nat) -> nat {
    let p = two_pow(excess_bits(n));
    let m = n / p;
    let r = n % p;
    if r * 2 > p || (r * 2 == p && m % 2 == 1) {
        (m + 1) * p
    } else {
        m * p
    }
}

/// `v / unit` in tenths, rounded to the nearest tenth with ties going to an
/// even last digit, as `{:.1}` prints an exactly known quotient.
pub open spec fn tenths(v: nat, unit: nat) -> nat
    recommends
        unit > 0,
{
    let q = v * 10 / unit;
    let r = v * 10 % unit;
    if r * 2 > unit || (r * 2 == unit && q % 2 == 1) {
        q + 1
    } else {
        q
    }
}

/// A number of tenths written with one decimal digit, such as `15` as `1.5`.
pub open spec fn one_decimal(t: nat) -> Seq<char> {
    decimal(t / 10).push('.').push(digit_char(t % 10))
}

/// `bytes` written in the unit `unit`, with one decimal and the unit's letter.
pub open spec fn scaled_text(bytes: u64, unit: nat, letter: char) -> Seq<char> {
    one_decimal(tenths(float_round(bytes as nat), unit)).push(letter)
}

/// The human-readable size: whole bytes below one KiB, otherwise the value
/// in the largest binary unit it reaches, with one decimal.
pub open spec fn size_text(bytes: u64) -> Seq<char> {
    if bytes >= TIB {
        scaled_text(bytes, TIB as nat, 'T')
    } else if bytes >= GIB {
        scaled_text(bytes, GIB as nat, 'G')
    } else if bytes >= MIB {
        scaled_text(bytes, MIB as nat, 'M')
    } else if bytes >= KIB {
        scaled_text(bytes, KIB as nat, 'K')
    } else {
        decimal(bytes as nat).push('B')
    }
}

/// The value of `n as f64`, as an integer.
fn float_value(n: u64) -> (r: u128)
    ensures
        r == float_round(n as nat),
        r <= n as nat + 0x1000,
{
    let mut b: u64 = n;
    let mut p: u128 = 1;
    let ghost mut k: nat = 0;
    while b >= 0x20_0000_0000_0000
        invariant
            excess_bits(n as nat) == k + excess_bits(b as nat),
            p == two_pow(k),
            1 <= p < 0x1000,
            b as int * p as int <= n as int,
        decreases b,
    {
        assert(p < 0x800 && (b / 2) as int * (2 * p as int) <= b as int * p as int)
            by (nonlinear_arith)
            requires
                p >= 1,
                b >= 0x20_0000_0000_0000,
                b as int * p as int <= n as int,
                n <= 0xffff_ffff_ffff_ffff,
        ;
        b = b / 2;
        p = p * 2;
        proof {
            k = k + 1;
        }
    }
    let m = (n as u128) / p;
    let r = (n as u128) % p;
    assert(m * p + r == n as int && m * p <= n && (m + 1) * p == m * p + p) by (nonlinear_arith)
        requires
            m == (n as int) / (p as int),
            r == (n as int) % (p as int),
            p >= 1,
    ;
    if r * 2 > p || (r * 2 == p && m % 2 == 1) {
        (m + 1) * p
    } else {
        m * p
    }
}

/// Appends `bytes` written in the unit `unit` with one decimal and `letter`.
fn push_scaled(s: &mut String, bytes: u64, unit: u64, letter: char)
    requires
        unit >= KIB,
    ensures
        final(s)@ == old(s)@ + scaled_text(bytes, unit as nat, letter),
{
    let v = float_value(bytes);
    let q = v * 10 / (unit as u128);
    let r = v * 10 % (unit as u128);
    let t = if r * 2 > unit as u128 || (r * 2 == unit as u128 && q % 2 == 1) {
        q + 1
    } else {
        q
    };
    assert(q * (unit as int) <= v * 10) by (nonlinear_arith)
        requires
            q == (v * 10) / (unit as int),
            unit >= 1024,
    ;
    assert(q <= 0x1000_0000_0000_0000) by (nonlinear_arith)
        requires
            q * (unit as int) <= v * 10,
            v <= 0xffff_ffff_ffff_ffff + 0x1000,
            unit >= 1024,
    ;
    let t64 = t as u64;
    push_decimal(s, t64 / 10);
    s.push('.');
    let d: u8 = (t64 % 10) as u8;
    s.push((48u8 + d) as char);
    s.push(letter);
    proof {
        assert(final(s)@ =~= old(s)@ + scaled_text(bytes, unit as nat, letter));
    }
}

/// Formats a file size as a human-readable string: `512B`, `1.5K`, `5.0M`.
pub fn format_size(bytes: u64) -> (r: String)
    ensures
        r@ == size_text(bytes),
{
    let mut s = String::new();
    if bytes >= TIB {
        push_scaled(&mut s, bytes, TIB, 'T');
    } else if bytes >= GIB {
        push_scaled(&mut s, bytes, GIB, 'G');
    } else if bytes >= MIB {
        push_scaled(&mut s, bytes, MIB, 'M');
    } else if bytes >= KIB {
        push_scaled(&mut s, bytes, KIB, 'K');
    } else {
        push_decimal(&mut s, bytes);
        s.push('B');
    }
    assert(s@ =~= size_text(bytes));
    s
}

// ── permissions ──

/// The letter that the permission bit at position `i` of `rwxrwxrwx` shows.
pub open spec fn permission_letter(i: int) -> char {
    if i % 3 == 0 {
        'r'
    } else if i % 3 == 1 {
        'w'
    } else {
        'x'
    }
}

/// Whether bit `b` of `mode` is set.
pub open spec fn bit_set(mode: u32, b: u32) -> bool {
    (mode >> b) & 1 == 1
}

/// The `rwxrwxrwx` text of the lower nine bits of `mode`: position `i` shows
/// its letter when bit `8 - i` is set and `-` otherwise.
pub open spec fn permission_text(mode: u32) -> Seq<char> {
    Seq::new(
        9,
        |i: int|
            if bit_set(mode, (8 - i) as u32) {
                permission_letter(i)
            } else {
                '-'
            },
    )
}

/// Formats Unix permission bits as an `rwxrwxrwx` string.
pub fn format_permissions(mode: u32) -> (r: String)
    ensures
        r@ == permission_text(mode),
{
    let mut s = String::new();
    let mut i: u32 = 0;
    while i < 9
        invariant
            i <= 9,
            s@ == permission_text(mode).take(i as int),
        decreases 9 - i,
    {
        let set = (mode >> (8 - i)) & 1 == 1;
        let letter = if i % 3 == 0 {
            'r'
        } else if i % 3 == 1 {
            'w'
        } else {
            'x'
        };
        s.push(if set { letter } else { '-' });
        assert(permission_text(mode).take(i + 1) =~= permission_text(mode).take(i as int).push(
            if set { letter } else { '-' },
        ));
        i = i + 1;
    }
    assert(permission_text(mode).take(9) =~= permission_text(mode));
    s
}

/// Only the lower nine bits of the mode show: file type bits and the like
/// above them leave the permission text unchanged.
pub proof fn lemma_permissions_use_lower_bits(mode: u32)
    ensures
        permission_text(mode) == permission_text(mode & 0o777),
        permission_text(mode).len() == 9,
{
    assert forall|b: u32| b < 9 implies bit_set(mode, b) == bit_set(mode & 0o777, b) by {
        assert(b < 9 ==> ((mode >> b) & 1 == (((mode & 0o777) >> b) & 1))) by (bit_vector);
    }
    assert(permission_text(mode) =~= permission_text(mode & 0o777));
}

// ── display lines ──

/// Whether the two characters of `s` at `i` are the two-space separator
/// that splits a display line into fields.
pub open spec fn separator_at(s: Seq<char>, i: int) -> bool {
    0 <= i && i + 1 < s.len() && s[i] == ' ' && s[i + 1] == ' '
}

/// The first position at or after `i` where the two-space separator starts.
pub open spec fn separator_from(s: Seq<char>, i: int) -> Option<int>
    decreases s.len() - i,
{
    if i < 0 || i + 1 >= s.len() {
        None
    } else if separator_at(s, i) {
        Some(i)
    } else {
        separator_from(s, i + 1)
    }
}

/// What a found separator position means: the leftmost separator at or
/// after `i`; and when none is found, there is none at or after `i`.
pub proof fn lemma_separator_from(s: Seq<char>, i: int)
    requires
        0 <= i,
    ensures
        match separator_from(s, i) {
            Some(k) => i <= k && separator_at(s, k) && forall|j: int|
                i <= j < k ==> !#[trigger] separator_at(s, j),
            None => forall|j: int| i <= j ==> !#[trigger] separator_at(s, j),
        },
    decreases s.len() - i,
{
    if i + 1 < s.len() && !separator_at(s, i) {
        lemma_separator_from(s, i + 1);
    }
}

/// The second field of `s` when it is split at two-space separators
/// (`str::splitn(3, "  ")`): `None` when `s` has no separator.
pub open spec fn second_field(s: Seq<char>) -> Option<Seq<char>> {
    match separator_from(s, 0) {
        None => None,
        Some(k) => {
            let rest = s.skip(k + 2);
            match separator_from(rest, 0) {
                Some(j) => Some(rest.take(j)),
                None => Some(rest),
            }
        },
    }
}

/// The entry name held by a display line `icon  name  size  perms`: the
/// trimmed second field of the trimmed line, without trailing `/`; `None`
/// when there is no second field or it is blank.
pub open spec fn line_entry_name(line: Seq<char>) -> Option<Seq<char>> {
    match second_field(trim(line)) {
        None => None,
        Some(field) => {
            let name = trim(field);
            if name.len() == 0 {
                None
            } else {
                Some(trim_end_char(name, '/'))
            }
        },
    }
}

/// The start of the first two-space separator inside `v[lo..hi]`.
fn find_separator(v: &Vec<char>, lo: usize, hi: usize) -> (r: Option<usize>)
    requires
        lo <= hi <= v.len(),
    ensures
        match separator_from(v@.subrange(lo as int, hi as int), 0) {
            Some(k) => r == Some((lo + k) as usize),
            None => r is None,
        },
{
    let ghost s = v@.subrange(lo as int, hi as int);
    let mut i = lo;
    while hi - i >= 2
        invariant
            lo <= i <= hi <= v.len(),
            s == v@.subrange(lo as int, hi as int),
            separator_from(s, 0) == separator_from(s, i - lo),
        decreases hi - i,
    {
        if v[i] == ' ' && v[i + 1] == ' ' {
            return Some(i);
        }
        i = i + 1;
    }
    None
}

/// Extracts the entry name from a formatted display line.
///
/// Display lines have the format `icon  name  size  perms`; the name is the
/// second field, and a directory's trailing `/` is dropped.
pub fn entry_name_from_line(line: &str) -> (r: Option<&str>)
    ensures
        r.deep_view() == line_entry_name(line@),
{
    let v = chars_of(line);
    let (a, b) = trim_range(&v, 0, v.len());
    let ghost t = v@.subrange(a as int, b as int);
    assert(v@.subrange(0, v@.len() as int) =~= v@);
    let k = match find_separator(&v, a, b) {
        None => {
            return None;
        },
        Some(k) => k,
    };
    proof {
        lemma_separator_from(t, 0);
    }
    let ghost rest = t.skip(k - a + 2);
    assert(rest =~= v@.subrange(k + 2, b as int));
    let j = match find_separator(&v, k + 2, b) {
        Some(j) => {
            proof {
                lemma_separator_from(rest, 0);
            }
            assert(rest.take(j - (k + 2)) =~= v@.subrange(k + 2, j as int));
            j
        },
        None => b,
    };
    assert(second_field(t) == Some(v@.subrange(k + 2, j as int)));
    let (c, d) = trim_range(&v, k + 2, j);
    if c == d {
        return None;
    }
    let mut e = d;
    while e > c && v[e - 1] == '/'
        invariant
            c <= e <= d <= v.len(),
            trim_end_char(v@.subrange(c as int, d as int), '/') == trim_end_char(
                v@.subrange(c as int, e as int),
                '/',
            ),
        decreases e,
    {
        assert(v@.subrange(c as int, e as int).drop_last() =~= v@.subrange(c as int, e - 1));
        e = e - 1;
    }
    let name = line.substring_char(c, e);
    Some(name)
}

// ── parent directories ──

/// What `std::path::Path::parent` gives for the path spelled by `path`.
pub uninterp spec fn path_parent(path: Seq<char>) -> Option<Seq<char>>;

/// Calls `std::path::Path::parent` on `path` and spells the result.
///
/// The contract names the result and states what the std documentation and
/// source give: the empty path and the root `/` have no parent, and a parent
/// is the path with its final component removed, so a shorter prefix of it.
/// Which prefix that is for a given path is left to the name.
#[verifier::external_body]
fn std_path_parent(path: &str) -> (r: Option<String>)
    ensures
        r.deep_view() == path_parent(path@),
        path@.len() == 0 ==> r is None,
        path@ == seq!['/'] ==> r is None,
        r matches Some(p) ==> p@.len() < path@.len() && p@ == path@.take(p@.len() as int),
{
    match std::path::Path::new(path).parent() {
        Some(p) => Some(p.to_string_lossy().into_owned()),
        None => None,
    }
}

/// Resolves the parent directory for "go up" navigation: `None` when the
/// path has no parent (the root, or the empty path).
pub fn parent_dir(path: &str) -> (r: Option<String>)
    ensures
        r.deep_view() == path_parent(path@),
        path@.len() == 0 ==> r is None,
        path@ == seq!['/'] ==> r is None,
        r matches Some(p) ==> p@.len() < path@.len() && p@ == path@.take(p@.len() as int),
{
    std_path_parent(path)
}

// ── listing order ──

/// What `str::to_lowercase` gives for `s`: its lowercase form under the
/// Unicode `Lowercase` mapping.
pub uninterp spec fn lowercase(s: Seq<char>) -> Seq<char>;

/// `str::to_lowercase` gives the lowercase form of the string.
///
/// The contract names the result; the Unicode case tables it follows are
/// not written out here.
pub assume_specification[ str::to_lowercase ](s: &str) -> (r: String)
    ensures
        r@ == lowercase(s@),
;

/// `x` comes strictly before `y` in the lexicographic order of code points,
/// which is the byte order that `String` comparison uses.
pub open spec fn lex_less(x: Seq<char>, y: Seq<char>) -> bool
    decreases x.len(),
{
    if x.len() == 0 {
        y.len() > 0
    } else if y.len() == 0 {
        false
    } else if x[0] != y[0] {
        x[0] < y[0]
    } else {
        lex_less(x.drop_first(), y.drop_first())
    }
}

/// The listing order: `a` comes strictly before `b` when `a` is a directory
/// and `b` is not, or when both are of the same kind and `a`'s lowercase name
/// comes first.
pub open spec fn entry_before(a: DirEntry, b: DirEntry) -> bool {
    ||| (a.is_dir && !b.is_dir)
    ||| (a.is_dir == b.is_dir && lex_less(lowercase(a.name@), lowercase(b.name@)))
}

/// `a` and `b` rank the same in the listing order: same kind, and names
/// that are equal once lowercased.
pub open spec fn entry_ties(a: DirEntry, b: DirEntry) -> bool {
    a.is_dir == b.is_dir && lowercase(a.name@) == lowercase(b.name@)
}

/// No entry of `s` comes strictly before one that precedes it.
pub open spec fn sorted_entries(s: Seq<DirEntry>) -> bool {
    forall|i: int, j: int| 0 <= i < j < s.len() ==> !entry_before(#[trigger] s[j], #[trigger] s[i])
}

/// `after` holds the entries of `before` rearranged by `perm` (position `i`
/// of `after` holds entry `perm[i]` of `before`, each exactly once), and
/// entries that rank the same keep the relative order they had in `before`.
pub open spec fn stable_arrangement(before: Seq<DirEntry>, after: Seq<DirEntry>, perm: Seq<int>) -> bool {
    &&& perm.len() == before.len()
    &&& after.len() == before.len()
    &&& forall|i: int| 0 <= i < perm.len() ==> 0 <= #[trigger] perm[i] < before.len()
    &&& forall|i: int| 0 <= i < perm.len() ==> #[trigger] after[i] == before[perm[i]]
    &&& forall|i: int, j: int|
        0 <= i < j < perm.len() ==> #[trigger] perm[i] != #[trigger] perm[j]
    &&& forall|i: int, j: int|
        0 <= i < j < after.len() && entry_ties(#[trigger] after[i], #[trigger] after[j])
            ==> perm[i] < perm[j]
}

/// `lex_less` is irreflexive.
pub proof fn lemma_lex_irreflexive(x: Seq<char>)
    ensures
        !lex_less(x, x),
    decreases x.len(),
{
    if x.len() > 0 {
        lemma_lex_irreflexive(x.drop_first());
    }
}

/// `lex_less` is transitive.
pub proof fn lemma_lex_transitive(x: Seq<char>, y: Seq<char>, z: Seq<char>)
    requires
        lex_less(x, y),
        lex_less(y, z),
    ensures
        lex_less(x, z),
    decreases x.len(),
{
    if x.len() > 0 && y.len() > 0 && z.len() > 0 && x[0] == y[0] && y[0] == z[0] {
        lemma_lex_transitive(x.drop_first(), y.drop_first(), z.drop_first());
    }
}

/// Of two different sequences, one comes before the other.
pub proof fn lemma_lex_total(x: Seq<char>, y: Seq<char>)
    ensures
        x == y || lex_less(x, y) || lex_less(y, x),
    decreases x.len(),
{
    if x.len() > 0 && y.len() > 0 && x[0] == y[0] {
        lemma_lex_total(x.drop_first(), y.drop_first());
        if x.drop_first() == y.drop_first() {
            assert(x =~= seq![x[0]] + x.drop_first());
            assert(y =~= seq![y[0]] + y.drop_first());
        }
    } else if x.len() == 0 && y.len() == 0 {
        assert(x =~= y);
    }
}

/// The listing order is a strict weak order whose ties are `entry_ties`:
/// it is irreflexive and transitive, exactly one of "before", "after" and
/// "ties" holds for two entries, and "not after" is transitive.
pub proof fn lemma_entry_order(a: DirEntry, b: DirEntry, c: DirEntry)
    ensures
        !entry_before(a, a),
        entry_before(a, b) ==> !entry_before(b, a) && !entry_ties(a, b),
        !entry_before(a, b) && !entry_before(b, a) ==> entry_ties(a, b),
        entry_before(a, b) && entry_before(b, c) ==> entry_before(a, c),
        !entry_before(b, a) && !entry_before(c, b) ==> !entry_before(c, a),
        entry_ties(a, b) ==> entry_ties(b, a),
{
    let (x, y, z) = (lowercase(a.name@), lowercase(b.name@), lowercase(c.name@));
    lemma_lex_irreflexive(x);
    lemma_lex_irreflexive(y);
    lemma_lex_total(x, y);
    lemma_lex_total(y, z);
    lemma_lex_total(x, z);
    if lex_less(x, y) && lex_less(y, x) {
        lemma_lex_transitive(x, y, x);
    }
    if lex_less(x, y) && lex_less(y, z) {
        lemma_lex_transitive(x, y, z);
    }
    if lex_less(z, y) && lex_less(y, x) {
        lemma_lex_transitive(z, y, x);
    }
    if lex_less(z, x) && lex_less(x, y) {
        lemma_lex_transitive(z, x, y);
    }
    if lex_less(y, z) && lex_less(z, x) {
        lemma_lex_transitive(y, z, x);
    }
}

/// Whether `x` comes strictly before `y` in code point order.
fn chars_less(x: &Vec<char>, y: &Vec<char>) -> (r: bool)
    ensures
        r == lex_less(x@, y@),
{
    let mut i: usize = 0;
    assert(x@.skip(0) =~= x@ && y@.skip(0) =~= y@);
    while i < x.len() && i < y.len() && x[i] == y[i]
        invariant
            i <= x.len(),
            i <= y.len(),
            lex_less(x@, y@) == lex_less(x@.skip(i as int), y@.skip(i as int)),
        decreases x.len() - i,
    {
        assert(x@.skip(i as int).drop_first() =~= x@.skip(i + 1));
        assert(y@.skip(i as int).drop_first() =~= y@.skip(i + 1));
        i = i + 1;
    }
    if i == x.len() {
        i < y.len()
    } else if i == y.len() {
        false
    } else {
        x[i] < y[i]
    }
}

/// Whether an entry of kind `a_dir` with lowercase name `a` comes strictly
/// before one of kind `b_dir` with lowercase name `b`.
fn key_before(a_dir: bool, a: &Vec<char>, b_dir: bool, b: &Vec<char>) -> (r: bool)
    ensures
        r == ((a_dir && !b_dir) || (a_dir == b_dir && lex_less(a@, b@))),
{
    if a_dir != b_dir {
        a_dir
    } else {
        chars_less(a, b)
    }
}

/// The lowercase name of `e`, one character at a time.
fn sort_key(e: &DirEntry) -> (k: Vec<char>)
    ensures
        k@ == lowercase(e.name@),
{
    let lower = e.name.as_str().to_lowercase();
    chars_of(lower.as_str())
}

/// Whether `a` comes strictly before `b` in the listing order.
pub fn entry_precedes(a: &DirEntry, b: &DirEntry) -> (r: bool)
    ensures
        r == entry_before(*a, *b),
{
    let ka = sort_key(a);
    let kb = sort_key(b);
    key_before(a.is_dir, &ka, b.is_dir, &kb)
}

/// Sorts a directory listing: directories first, then files, each group in
/// case-insensitive alphabetical order. The sort is stable: entries that
/// rank the same keep their relative order.
pub fn sort_entries(entries: &mut Vec<DirEntry>)
    ensures
        final(entries).len() == old(entries).len(),
        sorted_entries(final(entries)@),
        exists|perm: Seq<int>| stable_arrangement(old(entries)@, final(entries)@, perm),
        forall|i: int, j: int|
            0 <= i < j < final(entries).len() && #[trigger] final(entries)@[j].is_dir
                ==> #[trigger] final(entries)@[i].is_dir,
{
    let n = entries.len();
    let ghost orig = entries@;
    let mut keys: Vec<Vec<char>> = Vec::new();
    for k in 0..n
        invariant
            n == entries.len(),
            entries@ == orig,
            keys.len() == k,
            forall|m: int| 0 <= m < k ==> (#[trigger] keys@[m])@ == lowercase(entries@[m].name@),
    {
        keys.push(sort_key(&entries[k]));
    }
    let ghost mut perm: Seq<int> = Seq::new(n as nat, |m: int| m);
    let mut i: usize = 0;
    while i < n
        invariant
            i <= n,
            entries.len() == n,
            keys.len() == n,
            orig.len() == n,
            forall|m: int| 0 <= m < n ==> (#[trigger] keys@[m])@ == lowercase(entries@[m].name@),
            perm.len() == n,
            forall|m: int| 0 <= m < n ==> 0 <= #[trigger] perm[m] < n,
            forall|m: int| 0 <= m < n ==> #[trigger] entries@[m] == orig[perm[m]],
            forall|a: int, b: int| 0 <= a < b < n ==> #[trigger] perm[a] != #[trigger] perm[b],
            forall|m: int| i <= m < n ==> #[trigger] perm[m] == m,
            forall|m: int| 0 <= m < i ==> #[trigger] perm[m] < i,
            forall|a: int, b: int|
                0 <= a < b < i ==> !entry_before(#[trigger] entries@[b], #[trigger] entries@[a]),
            forall|a: int, b: int|
                0 <= a < b < i && entry_ties(#[trigger] entries@[a], #[trigger] entries@[b])
                    ==> perm[a] < perm[b],
        decreases n - i,
    {
        let ghost before = entries@;
        let ghost perm0 = perm;
        let x = entries.remove(i);
        let kx = keys.remove(i);
        assert(x == orig[i as int]);
        let mut j = i;
        while j > 0 && key_before(x.is_dir, &kx, entries[j - 1].is_dir, &keys[j - 1])
            invariant
                0 <= j <= i < n,
                entries@ == before.remove(i as int),
                keys.len() == n - 1,
                entries.len() == n - 1,
                kx@ == lowercase(x.name@),
                forall|m: int|
                    0 <= m < n - 1 ==> (#[trigger] keys@[m])@ == lowercase(entries@[m].name@),
                forall|m: int| j <= m < i ==> entry_before(x, #[trigger] entries@[m]),
            decreases j,
        {
            j = j - 1;
        }
        let ghost removed = entries@;
        assert forall|m: int| j <= m < i implies entry_before(x, #[trigger] before[m]) by {
            assert(removed[m] == before[m]);
        }
        entries.insert(j, x);
        keys.insert(j, kx);
        proof {
            perm = perm0.remove(i as int).insert(j as int, i as int);
            let e = entries@;
            assert(e =~= before.remove(i as int).insert(j as int, x));
            assert forall|m: int| 0 <= m < n implies #[trigger] e[m] == orig[perm[m]] by {
                if m < j {
                } else if m == j {
                } else if m <= i {
                    assert(e[m] == before[m - 1]);
                } else {
                }
            }
            assert forall|a: int, b: int| 0 <= a < b < i + 1 implies !entry_before(
                #[trigger] e[b],
                #[trigger] e[a],
            ) by {
                if b < j {
                    assert(e[a] == before[a] && e[b] == before[b]);
                } else if b == j {
                    assert(e[a] == before[a] && e[b] == x);
                    assert(!entry_before(x, removed[j - 1]));
                    lemma_entry_order(before[a], before[j - 1], x);
                } else if a < j {
                    assert(e[a] == before[a] && e[b] == before[b - 1]);
                } else if a == j {
                    assert(e[b] == before[b - 1]);
                    lemma_entry_order(x, before[b - 1], x);
                } else {
                    assert(e[a] == before[a - 1] && e[b] == before[b - 1]);
                }
            }
            assert forall|a: int, b: int|
                0 <= a < b < i + 1 && entry_ties(#[trigger] e[a], #[trigger] e[b]) implies perm[a]
                < perm[b] by {
                if b < j {
                } else if b == j {
                } else if a < j {
                    assert(perm[b] == perm0[b - 1]);
                } else if a == j {
                    assert(entry_before(x, before[b - 1]));
                    lemma_entry_order(x, before[b - 1], x);
                } else {
                    assert(perm[a] == perm0[a - 1] && perm[b] == perm0[b - 1]);
                    assert(e[a] == before[a - 1] && e[b] == before[b - 1]);
                }
            }
            assert forall|a: int, b: int| 0 <= a < b < n implies #[trigger] perm[a]
                != #[trigger] perm[b] by {
                if a < j && b > j && b <= i {
                    assert(perm[b] == perm0[b - 1]);
                } else if a > j && a <= i && b > i {
                    assert(perm[a] == perm0[a - 1]);
                } else if a > j && a <= i && b <= i {
                    assert(perm[a] == perm0[a - 1] && perm[b] == perm0[b - 1]);
                }
            }
            assert forall|m: int| 0 <= m < i + 1 implies #[trigger] perm[m] < i + 1 by {
                if m > j {
                    assert(perm[m] == perm0[m - 1]);
                }
            }
            assert forall|m: int| 0 <= m < n implies 0 <= #[trigger] perm[m] < n by {
                if m > j && m <= i {
                    assert(perm[m] == perm0[m - 1]);
                }
            }
        }
        i = i + 1;
    }
    proof {
        assert(stable_arrangement(orig, entries@, perm));
        assert forall|a: int, b: int|
            0 <= a < b < n && #[trigger] entries@[b].is_dir implies #[trigger] entries@[a].is_dir by {
            assert(!entry_before(entries@[b], entries@[a]));
        }
    }
}

/// An arrangement reaches every position of the entries it rearranges.
proof fn lemma_arrangement_onto(perm: Seq<int>, n: int, k: int)
    requires
        perm.len() == n,
        forall|i: int| 0 <= i < n ==> 0 <= #[trigger] perm[i] < n,
        forall|i: int, j: int| 0 <= i < j < n ==> #[trigger] perm[i] != #[trigger] perm[j],
        0 <= k < n,
    ensures
        exists|i: int| 0 <= i < n && perm[i] == k,
{
    assert(perm.no_duplicates()) by {
        assert forall|i: int, j: int| 0 <= i < perm.len() && 0 <= j < perm.len() && i != j implies perm[i]
            != perm[j] by {
            if i < j {
                assert(perm[i] != perm[j]);
            } else {
                assert(perm[j] != perm[i]);
            }
        }
    }
    perm.unique_seq_to_set();
    lemma_int_range(0, n);
    assert(perm.to_set().subset_of(set_int_range(0, n))) by {
        assert forall|v: int| perm.to_set().contains(v) implies set_int_range(0, n).contains(v) by {
            let i = choose|i: int| 0 <= i < perm.len() && perm[i] == v;
        }
    }
    lemma_subset_equality(perm.to_set(), set_int_range(0, n));
    assert(set_int_range(0, n).contains(k));
    assert(perm.to_set().contains(k));
}

/// The listing order fixes the result of a stable sort: two sorted, stable
/// arrangements of the same entries are the same listing.
pub proof fn lemma_stable_sort_unique(
    s: Seq<DirEntry>,
    t1: Seq<DirEntry>,
    p1: Seq<int>,
    t2: Seq<DirEntry>,
    p2: Seq<int>,
)
    requires
        stable_arrangement(s, t1, p1),
        sorted_entries(t1),
        stable_arrangement(s, t2, p2),
        sorted_entries(t2),
    ensures
        t1 == t2,
{
    let n = s.len() as int;
    assert forall|m: int| 0 <= m < n implies #[trigger] p1[m] == p2[m] by {
        lemma_same_prefix(s, t1, p1, t2, p2, m);
    }
    assert(t1 =~= t2) by {
        assert forall|m: int| 0 <= m < n implies t1[m] == t2[m] by {
            assert(p1[m] == p2[m]);
        }
    }
}

/// Two sorted, stable arrangements agree up to and including position `m`.
proof fn lemma_same_prefix(
    s: Seq<DirEntry>,
    t1: Seq<DirEntry>,
    p1: Seq<int>,
    t2: Seq<DirEntry>,
    p2: Seq<int>,
    m: int,
)
    requires
        stable_arrangement(s, t1, p1),
        sorted_entries(t1),
        stable_arrangement(s, t2, p2),
        sorted_entries(t2),
        0 <= m < s.len(),
    ensures
        forall|i: int| 0 <= i <= m ==> #[trigger] p1[i] == p2[i],
    decreases m,
{
    let n = s.len() as int;
    if m > 0 {
        lemma_same_prefix(s, t1, p1, t2, p2, m - 1);
    }
    let a = p1[m];
    let b = p2[m];
    if a != b {
        lemma_arrangement_onto(p2, n, a);
        let j = choose|j: int| 0 <= j < n && p2[j] == a;
        lemma_arrangement_onto(p1, n, b);
        let k = choose|k: int| 0 <= k < n && p1[k] == b;
        if j < m {
            assert(p1[j] == p2[j]);
            assert(p1[j] != p1[m]);
        }
        if k < m {
            assert(p1[k] == p2[k]);
            assert(p2[k] != p2[m]);
        }
        assert(m < j && m < k);
        assert(!entry_before(t2[j], t2[m]));
        assert(!entry_before(t1[k], t1[m]));
        assert(t2[j] == s[a] && t2[m] == s[b] && t1[k] == s[b] && t1[m] == s[a]);
        lemma_entry_order(s[a], s[b], s[a]);
        assert(entry_ties(t2[m], t2[j]));
        assert(entry_ties(t1[m], t1[k]));
        assert(p2[m] < p2[j]);
        assert(p1[m] < p1[k]);
    }
}

/// Sorting leaves an already sorted listing as it is.
pub proof fn lemma_sorted_listing_unchanged(s: Seq<DirEntry>, t: Seq<DirEntry>, perm: Seq<int>)
    requires
        sorted_entries(s),
        stable_arrangement(s, t, perm),
        sorted_entries(t),
    ensures
        t == s,
{
    let id = Seq::new(s.len(), |i: int| i);
    assert(stable_arrangement(s, s, id));
    lemma_stable_sort_unique(s, t, perm, s, id);
}

// ── laws of the listing order ──

/// A proper prefix comes first: `x` is listed before `x` followed by more
/// characters, never after it.
pub proof fn lemma_proper_prefix_first(x: Seq<char>, y: Seq<char>)
    requires
        y.len() > 0,
    ensures
        lex_less(x, x + y),
        !lex_less(x + y, x),
    decreases x.len(),
{
    if x.len() > 0 {
        lemma_proper_prefix_first(x.drop_first(), y);
        assert((x + y).drop_first() =~= x.drop_first() + y);
        assert((x + y)[0] == x[0]);
    } else {
        assert(x + y =~= y);
    }
}

/// Two sequences that agree before position `i` and differ there are
/// ordered by their characters at `i`.
pub proof fn lemma_first_difference_decides(x: Seq<char>, y: Seq<char>, i: int)
    requires
        0 <= i < x.len(),
        i < y.len(),
        x.take(i) == y.take(i),
        x[i] != y[i],
    ensures
        lex_less(x, y) == (x[i] < y[i]),
    decreases i,
{
    if i > 0 {
        assert(x[0] == x.take(i)[0] && y[0] == y.take(i)[0]);
        assert(x.drop_first().take(i - 1) =~= x.take(i).drop_first());
        assert(y.drop_first().take(i - 1) =~= y.take(i).drop_first());
        lemma_first_difference_decides(x.drop_first(), y.drop_first(), i - 1);
    }
}

/// A directory is listed before a file, whatever their names.
pub proof fn lemma_directories_first(a: DirEntry, b: DirEntry)
    requires
        a.is_dir,
        !b.is_dir,
    ensures
        entry_before(a, b),
        !entry_before(b, a),
{
}

/// Of two entries of the same kind, the one whose lowercase name is a
/// proper prefix of the other's is listed first (`README` before
/// `README.md`).
pub proof fn lemma_name_prefix_listed_first(a: DirEntry, b: DirEntry)
    requires
        a.is_dir == b.is_dir,
        lowercase(a.name@).len() < lowercase(b.name@).len(),
        lowercase(b.name@).take(lowercase(a.name@).len() as int) == lowercase(a.name@),
    ensures
        entry_before(a, b),
        !entry_before(b, a),
{
    let x = lowercase(a.name@);
    let y = lowercase(b.name@);
    let rest = y.skip(x.len() as int);
    assert(y =~= x + rest);
    lemma_proper_prefix_first(x, rest);
}

/// Of two entries of the same kind whose lowercase names first differ at
/// position `i`, the one with the smaller character there is listed first.
pub proof fn lemma_names_ordered_at_first_difference(a: DirEntry, b: DirEntry, i: int)
    requires
        a.is_dir == b.is_dir,
        0 <= i < lowercase(a.name@).len(),
        i < lowercase(b.name@).len(),
        lowercase(a.name@).take(i) == lowercase(b.name@).take(i),
        lowercase(a.name@)[i] != lowercase(b.name@)[i],
    ensures
        entry_before(a, b) == (lowercase(a.name@)[i] < lowercase(b.name@)[i]),
        entry_before(b, a) == (lowercase(b.name@)[i] < lowercase(a.name@)[i]),
{
    lemma_first_difference_decides(lowercase(a.name@), lowercase(b.name@), i);
    lemma_first_difference_decides(lowercase(b.name@), lowercase(a.name@), i);
}

// ── laws of the permission text ──

/// The permission text is three triplets, owner, group and other: letter
/// `k` of triplet `t` is `rwx`[k] exactly when bit `2 - k` of the octal
/// digit `(mode >> (6 - 3t)) & 7` is set, and `-` otherwise.
pub proof fn lemma_permission_triplets(mode: u32, t: int, k: int)
    requires
        0 <= t < 3,
        0 <= k < 3,
    ensures
        permission_text(mode).len() == 9,
        permission_text(mode)[3 * t + k] == if ((mode >> ((6 - 3 * t) as u32)) & 7) & (4u32 >> (
        k as u32)) != 0 {
            seq!['r', 'w', 'x'][k]
        } else {
            '-'
        },
{
    let sh = (6 - 3 * t) as u32;
    let kk = k as u32;
    assert(sh <= 6 && kk < 3 ==> ((((mode >> sh) & 7) & (4u32 >> kk) != 0) == ((mode >> ((sh + 2
        - kk) as u32)) & 1 == 1))) by (bit_vector);
    assert((8 - (3 * t + k)) as u32 == (sh + 2 - kk) as u32);
}

// ── laws of the size text ──

/// Every count of bytes below 2^53 is held exactly by an `f64`.
pub proof fn lemma_float_round_exact(n: nat)
    requires
        n < 0x20_0000_0000_0000,
    ensures
        float_round(n) == n,
{
    assert(excess_bits(n) == 0);
    assert(two_pow(0) == 1);
    assert(n / 1 == n && n % 1 == 0) by (nonlinear_arith);
}

/// A quotient in tenths is the nearest one: `tenths(v, unit)` tenths of
/// `unit` lie within half a `unit` of `10 * v`, and at an exact tie the
/// last digit is even.
pub proof fn lemma_tenths_nearest(v: nat, unit: nat)
    requires
        unit > 0,
    ensures
        2 * (tenths(v, unit) * unit - 10 * v) <= unit,
        2 * (10 * v - tenths(v, unit) * unit) <= unit,
        2 * (tenths(v, unit) * unit - 10 * v) == unit ==> tenths(v, unit) % 2 == 0,
        2 * (10 * v - tenths(v, unit) * unit) == unit ==> tenths(v, unit) % 2 == 0,
{
    let q = v * 10 / unit;
    let r = v * 10 % unit;
    assert(q * unit + r == v * 10 && 0 <= r < unit) by (nonlinear_arith)
        requires
            q == v * 10 / unit,
            r == v * 10 % unit,
            unit > 0,
    ;
    assert((q + 1) * unit == q * unit + unit) by (nonlinear_arith);
}

/// The size text is the byte count followed by `B` below one KiB; above,
/// it ends with the letter of the largest unit the count reaches. It is
/// never empty and holds only digits, `.` and that letter.
pub proof fn lemma_size_text_shape(bytes: u64)
    ensures
        size_text(bytes).len() >= 2,
        bytes < KIB ==> size_text(bytes) == decimal(bytes as nat).push('B'),
        size_text(bytes).last() == if bytes >= TIB {
            'T'
        } else if bytes >= GIB {
            'G'
        } else if bytes >= MIB {
            'M'
        } else if bytes >= KIB {
            'K'
        } else {
            'B'
        },
        forall|i: int|
            0 <= i < size_text(bytes).len() - 1 ==> ('0' <= #[trigger] size_text(bytes)[i] <= '9'
                || size_text(bytes)[i] == '.'),
{
    if bytes < KIB {
        lemma_decimal_writes_number(bytes as nat);
        let d = decimal(bytes as nat);
        assert forall|i: int| 0 <= i < size_text(bytes).len() - 1 implies ('0'
            <= #[trigger] size_text(bytes)[i] <= '9' || size_text(bytes)[i] == '.') by {
            assert(size_text(bytes)[i] == d[i]);
        }
    } else {
        let unit: nat = if bytes >= TIB {
            TIB as nat
        } else if bytes >= GIB {
            GIB as nat
        } else if bytes >= MIB {
            MIB as nat
        } else {
            KIB as nat
        };
        let t = tenths(float_round(bytes as nat), unit);
        lemma_decimal_writes_number(t / 10);
        let d = decimal(t / 10);
        assert(digit_char(t % 10) as int == t % 10 + 48);
        assert forall|i: int| 0 <= i < size_text(bytes).len() - 1 implies ('0'
            <= #[trigger] size_text(bytes)[i] <= '9' || size_text(bytes)[i] == '.') by {
            if i < d.len() {
                assert(size_text(bytes)[i] == d[i]);
            }
        }
    }
}

/// `float_round(n)` is the nearest multiple of `2^excess_bits(n)` to `n`,
/// the spacing of the `f64` values around `n`.
pub proof fn lemma_float_round_nearest(n: nat)
    ensures
        float_round(n) % two_pow(excess_bits(n)) == 0,
        2 * (float_round(n) - n) <= two_pow(excess_bits(n)),
        2 * (n - float_round(n)) <= two_pow(excess_bits(n)),
{
    let p = two_pow(excess_bits(n));
    lemma_two_pow_positive(excess_bits(n));
    let m = n / p;
    let r = n % p;
    assert(m * p + r == n && 0 <= r < p) by (nonlinear_arith)
        requires
            m == n / p,
            r == n % p,
            p > 0,
    ;
    assert((m + 1) * p == m * p + p) by (nonlinear_arith);
    assert((m * p) % p == 0 && ((m + 1) * p) % p == 0) by (nonlinear_arith)
        requires
            p > 0,
    ;
}

/// Every power of two is positive.
proof fn lemma_two_pow_positive(e: nat)
    ensures
        two_pow(e) > 0,
    decreases e,
{
    if e > 0 {
        lemma_two_pow_positive((e - 1) as nat);
    }
}

/// From one KiB up, the size text is the quotient in tenths written as
/// whole units, a `.`, the tenths digit, and the unit letter: the quotient
/// is the `f64` value of the count divided by the largest unit it reaches,
/// to the nearest tenth.
pub proof fn lemma_scaled_size_text(bytes: u64)
    requires
        bytes >= KIB,
    ensures
        ({
            let unit: nat = if bytes >= TIB {
                TIB as nat
            } else if bytes >= GIB {
                GIB as nat
            } else if bytes >= MIB {
                MIB as nat
            } else {
                KIB as nat
            };
            let t = tenths(float_round(bytes as nat), unit);
            &&& size_text(bytes) == decimal(t / 10) + seq!['.', digit_char(t % 10), size_text(
                bytes,
            ).last()]
            &&& digit_char(t % 10) as int == t % 10 + 48
        }),
{
    let unit: nat = if bytes >= TIB {
        TIB as nat
    } else if bytes >= GIB {
        GIB as nat
    } else if bytes >= MIB {
        MIB as nat
    } else {
        KIB as nat
    };
    let t = tenths(float_round(bytes as nat), unit);
    assert(size_text(bytes) =~= decimal(t / 10) + seq!['.', digit_char(t % 10), size_text(
        bytes,
    ).last()]);
}

} // verus!
