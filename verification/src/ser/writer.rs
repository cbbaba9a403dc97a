//! Writing TOML text: keys, strings, integers, headers and whole tables.

use vstd::prelude::*;

use super::tree::{entries_size, table_size, tables_size, value_size, Table, Value};
use crate::text::push_char;

verus! {

broadcast use vstd::string::axiom_spec_iter;

/// A byte of a bare key: an ASCII letter or digit, `_` or `-`.
pub open spec fn bare_key_char(c: char) -> bool {
    let n = c as u32;
    (0x41 <= n <= 0x5a) || (0x61 <= n <= 0x7a) || (0x30 <= n <= 0x39) || n == 0x5f || n == 0x2d
}

/// A key that can be written bare: not empty, and made of bare-key characters only.
pub open spec fn is_bare_key(s: Seq<char>) -> bool {
    s.len() > 0 && forall|i: int| 0 <= i < s.len() ==> bare_key_char(#[trigger] s[i])
}

/// The lowercase hexadecimal digit for `n` (below 16).
pub open spec fn hex_char(n: nat) -> char {
    if n < 10 {
        (0x30 + n) as char
    } else {
        (0x61 + n - 10) as char
    }
}

/// A `\uXXXX` escape of a control character.
pub open spec fn unicode_escape(c: char) -> Seq<char> {
    let n = c as u32;
    seq!['\\', 'u', '0', '0', hex_char((n / 16) as nat), hex_char((n % 16) as nat)]
}

/// How a character is written inside a basic string (`multiline`: inside a multi-line one,
/// where tabs and newlines are written as they are).
pub open spec fn escape_char(c: char, multiline: bool) -> Seq<char> {
    let n = c as u32;
    if n == 0x08 {
        seq!['\\', 'b']
    } else if multiline && (n == 0x09 || n == 0x0a) {
        seq![c]
    } else if n == 0x09 {
        seq!['\\', 't']
    } else if n == 0x0a {
        seq!['\\', 'n']
    } else if n == 0x0c {
        seq!['\\', 'f']
    } else if n == 0x0d {
        seq!['\\', 'r']
    } else if n == 0x22 {
        seq!['\\', '"']
    } else if n == 0x5c {
        seq!['\\', '\\']
    } else if n < 0x20 || n == 0x7f {
        unicode_escape(c)
    } else {
        seq![c]
    }
}

/// The characters of `s`, each as it is written inside a basic string.
pub open spec fn escape_chars(s: Seq<char>, multiline: bool) -> Seq<char>
    decreases s.len(),
{
    if s.len() == 0 {
        Seq::empty()
    } else {
        escape_chars(s.drop_last(), multiline) + escape_char(s.last(), multiline)
    }
}

/// `s` written as a basic string.
pub open spec fn basic_string_repr(s: Seq<char>) -> Seq<char> {
    seq!['"'] + escape_chars(s, false) + seq!['"']
}

/// `s` written as a multi-line basic string (the newline after the opening quotes is dropped by
/// a reader).
pub open spec fn ml_string_repr(s: Seq<char>) -> Seq<char> {
    seq!['"', '"', '"', '\n'] + escape_chars(s, true) + seq!['"', '"', '"']
}

/// `s` written as a string: multi-line if it holds a newline.
pub open spec fn string_repr(s: Seq<char>) -> Seq<char> {
    if s.contains('\n') {
        ml_string_repr(s)
    } else {
        basic_string_repr(s)
    }
}

/// A key as it is written: bare if it can be, else as a basic string.
pub open spec fn key_repr(s: Seq<char>) -> Seq<char> {
    if is_bare_key(s) {
        s
    } else {
        basic_string_repr(s)
    }
}

/// The decimal digit for `n` (below 10).
pub open spec fn digit_char(n: nat) -> char {
    (0x30 + n) as char
}

/// The decimal digits of `n`.
pub open spec fn digits_repr(n: nat) -> Seq<char>
    decreases n,
{
    if n < 10 {
        seq![digit_char(n)]
    } else {
        digits_repr(n / 10) + seq![digit_char(n % 10)]
    }
}

/// A boolean as it is written.
pub open spec fn bool_repr(b: bool) -> Seq<char> {
    if b {
        "true"@
    } else {
        "false"@
    }
}

/// `n` in decimal, with a `-` if it is negative.
pub open spec fn decimal_repr(n: int) -> Seq<char> {
    if n < 0 {
        seq!['-'] + digits_repr((-n) as nat)
    } else {
        digits_repr(n as nat)
    }
}

/// The model of a path of keys.
pub open spec fn path_view(p: Seq<&String>) -> Seq<Seq<char>> {
    p.map_values(|s: &String| s@)
}

/// The keys of a path, each as it is written, joined by `.`.
pub open spec fn keys_repr(p: Seq<Seq<char>>) -> Seq<char>
    decreases p.len(),
{
    if p.len() == 0 {
        Seq::empty()
    } else if p.len() == 1 {
        key_repr(p[0])
    } else {
        keys_repr(p.drop_last()) + seq!['.'] + key_repr(p.last())
    }
}

/// A header line for the path, between `prefix` and `suffix`; nothing for the empty path.
pub open spec fn header_repr(p: Seq<Seq<char>>, prefix: Seq<char>, suffix: Seq<char>) -> Seq<char> {
    if p.len() == 0 {
        Seq::empty()
    } else {
        prefix + keys_repr(p) + suffix + seq!['\n']
    }
}

/// A `key = value` line.
pub open spec fn inline_repr(key: Seq<char>, value: Seq<char>) -> Seq<char> {
    key_repr(key) + seq![' ', '=', ' '] + value + seq!['\n']
}

/// The lines of key/value pairs.
pub open spec fn inlines_repr(s: Seq<(Seq<char>, Seq<char>)>) -> Seq<char>
    decreases s.len(),
{
    if s.len() == 0 {
        Seq::empty()
    } else {
        inlines_repr(s.drop_last()) + inline_repr(s.last().0, s.last().1)
    }
}

/// The model of a sequence of key/value pairs.
pub open spec fn pairs_view(s: Seq<(&String, &String)>) -> Seq<(Seq<char>, Seq<char>)> {
    s.map_values(|p: (&String, &String)| (p.0@, p.1@))
}

/// The model of a sequence of named subtables.
pub open spec fn subtables_view(s: Seq<(&String, &Table)>) -> Seq<(Seq<char>, Table)> {
    s.map_values(|p: (&String, &Table)| (p.0@, *p.1))
}

/// The entries of a table that are written inline, in order.
pub open spec fn spec_inlines(t: Seq<(String, Value)>) -> Seq<(Seq<char>, Seq<char>)>
    decreases t.len(),
{
    if t.len() == 0 {
        Seq::empty()
    } else {
        match t.last().1 {
            Value::Inline(v) => spec_inlines(t.drop_last()).push((t.last().0@, v@)),
            Value::Table(_) => spec_inlines(t.drop_last()),
        }
    }
}

/// The entries of a table that are tables or arrays of tables, in order.
pub open spec fn spec_subtables(t: Seq<(String, Value)>) -> Seq<(Seq<char>, Table)>
    decreases t.len(),
{
    if t.len() == 0 {
        Seq::empty()
    } else {
        match t.last().1 {
            Value::Inline(_) => spec_subtables(t.drop_last()),
            Value::Table(tb) => spec_subtables(t.drop_last()).push((t.last().0@, tb)),
        }
    }
}

/// The number of entries and tables in a sequence of named subtables.
pub open spec fn subtables_size(s: Seq<(Seq<char>, Table)>) -> nat
    decreases s.len(),
{
    if s.len() == 0 {
        0
    } else {
        subtables_size(s.drop_last()) + 1 + table_size(s.last().1)
    }
}

/// The subtables of a table are no larger than the table.
pub proof fn lemma_subtables_size(t: Seq<(String, Value)>)
    ensures
        subtables_size(spec_subtables(t)) <= entries_size(t),
    decreases t.len(),
{
    if t.len() > 0 {
        lemma_subtables_size(t.drop_last());
        assert(entries_size(t) == entries_size(t.drop_last()) + 1 + value_size(t.last().1));
        if let Value::Table(tb) = t.last().1 {
            let s = spec_subtables(t);
            assert(s.drop_last() =~= spec_subtables(t.drop_last()));
            assert(s.last() == (t.last().0@, tb));
            assert(value_size(t.last().1) == table_size(tb));
            assert(subtables_size(s) == subtables_size(s.drop_last()) + 1 + table_size(tb));
        }
    }
}

/// A table written under the path: its header (if it has key/value pairs, or nothing at all),
/// its key/value pairs, then its subtables.
pub open spec fn table_repr(t: Seq<(String, Value)>, path: Seq<Seq<char>>) -> Seq<char>
    decreases entries_size(t), 2int,
{
    let inl = spec_inlines(t);
    let subs = spec_subtables(t);
    proof {
        lemma_subtables_size(t);
    }
    (if inl.len() > 0 || subs.len() == 0 { header_repr(path, seq!['['], seq![']']) } else { Seq::empty() })
        + inlines_repr(inl) + (if inl.len() > 0 && subs.len() > 0 { seq!['\n'] } else { Seq::empty() })
        + subtables_repr(subs, path)
}

/// One table of an array of tables written under the path: its header, its key/value pairs,
/// then its subtables.
pub open spec fn array_element_repr(t: Seq<(String, Value)>, path: Seq<Seq<char>>) -> Seq<char>
    decreases entries_size(t), 2int,
{
    let inl = spec_inlines(t);
    let subs = spec_subtables(t);
    proof {
        lemma_subtables_size(t);
    }
    header_repr(path, seq!['[', '['], seq![']', ']']) + inlines_repr(inl)
        + (if inl.len() > 0 && subs.len() > 0 { seq!['\n'] } else { Seq::empty() })
        + subtables_repr(subs, path)
}

/// An array of tables written under the path, its tables separated by blank lines.
pub open spec fn array_of_tables_repr(a: Seq<Vec<(String, Value)>>, path: Seq<Seq<char>>) -> Seq<char>
    decreases tables_size(a), 3int,
{
    if a.len() == 0 {
        Seq::empty()
    } else if a.len() == 1 {
        array_element_repr(a[0]@, path)
    } else {
        array_of_tables_repr(a.drop_last(), path) + seq!['\n'] + array_element_repr(a.last()@, path)
    }
}

/// Subtables written under the path, separated by blank lines.
pub open spec fn subtables_repr(s: Seq<(Seq<char>, Table)>, path: Seq<Seq<char>>) -> Seq<char>
    decreases subtables_size(s), 1int,
{
    if s.len() == 0 {
        Seq::empty()
    } else if s.len() == 1 {
        subtable_repr(s[0].0, s[0].1, path)
    } else {
        subtables_repr(s.drop_last(), path) + seq!['\n'] + subtable_repr(s.last().0, s.last().1, path)
    }
}

/// A subtable, or an array of tables, named `key` under the path.
pub open spec fn subtable_repr(key: Seq<char>, t: Table, path: Seq<Seq<char>>) -> Seq<char>
    decreases table_size(t), 0int,
{
    match t {
        Table::Array(a) => array_of_tables_repr(a@, path.push(key)),
        Table::Table(e) => table_repr(e@, path.push(key)),
    }
}

/// Each table of an array of tables is smaller than the array.
pub proof fn lemma_tables_size_elem(a: Seq<Vec<(String, Value)>>, i: int)
    requires
        0 <= i < a.len(),
    ensures
        entries_size(a[i]@) < tables_size(a),
    decreases a.len(),
{
    if i < a.len() - 1 {
        lemma_tables_size_elem(a.drop_last(), i);
    }
}

/// Each subtable of a sequence of subtables is smaller than the sequence.
pub proof fn lemma_subtables_size_elem(s: Seq<(Seq<char>, Table)>, i: int)
    requires
        0 <= i < s.len(),
    ensures
        table_size(s[i].1) < subtables_size(s),
    decreases s.len(),
{
    if i < s.len() - 1 {
        lemma_subtables_size_elem(s.drop_last(), i);
    }
}

/// Splits the entries of a table into those written inline and the subtables, each in order.
pub fn split_inlines_and_subtables(table: &[(String, Value)]) -> (r: (Vec<(&String, &String)>, Vec<(&String, &Table)>))
    ensures
        pairs_view(r.0@) == spec_inlines(table@),
        subtables_view(r.1@) == spec_subtables(table@),
{
    let mut inlines: Vec<(&String, &String)> = Vec::new();
    let mut subtables: Vec<(&String, &Table)> = Vec::new();
    let mut i: usize = 0;
    while i < table.len()
        invariant
            0 <= i <= table@.len(),
            pairs_view(inlines@) == spec_inlines(table@.take(i as int)),
            subtables_view(subtables@) == spec_subtables(table@.take(i as int)),
        decreases table@.len() - i,
    {
        let ghost t1 = table@.take(i + 1);
        assert(t1.drop_last() =~= table@.take(i as int));
        let entry = &table[i];
        match &entry.1 {
            Value::Inline(v) => {
                let ghost before = inlines@;
                inlines.push((&entry.0, v));
                assert(pairs_view(inlines@) =~= pairs_view(before).push((entry.0@, v@)));
            },
            Value::Table(t) => {
                let ghost before = subtables@;
                subtables.push((&entry.0, t));
                assert(subtables_view(subtables@) =~= subtables_view(before).push((entry.0@, *t)));
            },
        }
        i = i + 1;
    }
    assert(table@.take(i as int) =~= table@);
    (inlines, subtables)
}

/// Copies a path and adds a key at its end.
fn push_path<'a>(path: &[&'a String], key: &'a String) -> (r: Vec<&'a String>)
    ensures
        path_view(r@) == path_view(path@).push(key@),
{
    let mut r: Vec<&String> = Vec::new();
    let mut i: usize = 0;
    while i < path.len()
        invariant
            0 <= i <= path@.len(),
            r@ == path@.take(i as int),
        decreases path@.len() - i,
    {
        r.push(path[i]);
        i = i + 1;
        assert(r@ =~= path@.take(i as int));
    }
    r.push(key);
    assert(r@ =~= path@.push(key));
    assert(path_view(r@) =~= path_view(path@).push(key@));
    r
}

/// Appends the way `c` is written inside a basic string.
fn push_escaped(c: char, multiline: bool, f: &mut String)
    ensures
        final(f)@ == old(f)@ + escape_char(c, multiline),
{
    let n = c as u32;
    if n == 0x08 {
        push_char(f, '\\');
        push_char(f, 'b');
    } else if multiline && (n == 0x09 || n == 0x0a) {
        push_char(f, c);
    } else if n == 0x09 {
        push_char(f, '\\');
        push_char(f, 't');
    } else if n == 0x0a {
        push_char(f, '\\');
        push_char(f, 'n');
    } else if n == 0x0c {
        push_char(f, '\\');
        push_char(f, 'f');
    } else if n == 0x0d {
        push_char(f, '\\');
        push_char(f, 'r');
    } else if n == 0x22 {
        push_char(f, '\\');
        push_char(f, '"');
    } else if n == 0x5c {
        push_char(f, '\\');
        push_char(f, '\\');
    } else if n < 0x20 || n == 0x7f {
        push_char(f, '\\');
        push_char(f, 'u');
        push_char(f, '0');
        push_char(f, '0');
        push_char(f, hex_digit(n / 16));
        push_char(f, hex_digit(n % 16));
    } else {
        push_char(f, c);
    }
    assert(f@ =~= old(f)@ + escape_char(c, multiline));
}

/// The lowercase hexadecimal digit for `n`.
fn hex_digit(n: u32) -> (r: char)
    requires
        n < 16,
    ensures
        r == hex_char(n as nat),
{
    if n < 10 {
        ((0x30 + n) as u8) as char
    } else {
        ((0x61 + n - 10) as u8) as char
    }
}

/// Appends the characters of `value`, each as it is written inside a basic string.
fn push_escaped_str(value: &str, multiline: bool, f: &mut String)
    ensures
        final(f)@ == old(f)@ + escape_chars(value@, multiline),
{
    for c in it: value.chars()
        invariant
            it.seq() == value@,
            f@ == old(f)@ + escape_chars(value@.take(it.index() as int), multiline),
    {
        let ghost i = it.index();
        push_escaped(c, multiline, f);
        assert(value@.take(i + 1).drop_last() =~= value@.take(i as int));
    }
    assert(value@.take(value@.len() as int) =~= value@);
}

/// Appends the decimal digits of `n`.
fn push_digits(n: u128, f: &mut String)
    ensures
        final(f)@ == old(f)@ + digits_repr(n as nat),
    decreases n,
{
    if n >= 10 {
        push_digits(n / 10, f);
    }
    push_char(f, (((n % 10) as u8) + 0x30) as char);
    assert(f@ =~= old(f)@ + digits_repr(n as nat));
}

/// Appends `v` in decimal.
fn push_signed(v: i128, f: &mut String)
    ensures
        final(f)@ == old(f)@ + decimal_repr(v as int),
{
    if v < 0 {
        push_char(f, '-');
        let magnitude: u128 = ((-(v + 1)) as u128) + 1;
        push_digits(magnitude, f);
        assert(f@ =~= old(f)@ + decimal_repr(v as int));
    } else {
        push_digits(v as u128, f);
    }
}

/// An integer type that can be written in decimal.
pub trait Integer {
    /// The value of the integer.
    spec fn int_value(&self) -> int;

    /// Appends the integer in decimal.
    fn fmt(&self, f: &mut String)
        ensures
            final(f)@ == old(f)@ + decimal_repr(self.int_value()),
    ;
}

impl Integer for i8 {
    open spec fn int_value(&self) -> int {
        *self as int
    }


    fn fmt(&self, f: &mut String) {
        push_signed(*self as i128, f);
    }
}

impl Integer for i16 {
    open spec fn int_value(&self) -> int {
        *self as int
    }


    fn fmt(&self, f: &mut String) {
        push_signed(*self as i128, f);
    }
}

impl Integer for i32 {
    open spec fn int_value(&self) -> int {
        *self as int
    }


    fn fmt(&self, f: &mut String) {
        push_signed(*self as i128, f);
    }
}

impl Integer for i64 {
    open spec fn int_value(&self) -> int {
        *self as int
    }


    fn fmt(&self, f: &mut String) {
        push_signed(*self as i128, f);
    }
}

impl Integer for i128 {
    open spec fn int_value(&self) -> int {
        *self as int
    }


    fn fmt(&self, f: &mut String) {
        push_signed(*self, f);
    }
}

impl Integer for isize {
    open spec fn int_value(&self) -> int {
        *self as int
    }


    fn fmt(&self, f: &mut String) {
        push_signed(*self as i128, f);
    }
}

impl Integer for u8 {
    open spec fn int_value(&self) -> int {
        *self as int
    }


    fn fmt(&self, f: &mut String) {
        push_digits(*self as u128, f);
    }
}

impl Integer for u16 {
    open spec fn int_value(&self) -> int {
        *self as int
    }


    fn fmt(&self, f: &mut String) {
        push_digits(*self as u128, f);
    }
}

impl Integer for u32 {
    open spec fn int_value(&self) -> int {
        *self as int
    }


    fn fmt(&self, f: &mut String) {
        push_digits(*self as u128, f);
    }
}

impl Integer for u64 {
    open spec fn int_value(&self) -> int {
        *self as int
    }


    fn fmt(&self, f: &mut String) {
        push_digits(*self as u128, f);
    }
}

impl Integer for u128 {
    open spec fn int_value(&self) -> int {
        *self as int
    }


    fn fmt(&self, f: &mut String) {
        push_digits(*self, f);
    }
}

impl Integer for usize {
    open spec fn int_value(&self) -> int {
        *self as int
    }


    fn fmt(&self, f: &mut String) {
        push_digits(*self as u128, f);
    }
}

/// Writes the pieces of a TOML document.
pub struct Formatter;

impl Formatter {
    /// Writes a key: bare if it can be, else as a basic string.
    pub fn write_key(key: &str, f: &mut String)
        ensures
            final(f)@ == old(f)@ + key_repr(key@),
    {
        let mut bare = !key.is_empty();
        for c in it: key.chars()
            invariant
                it.seq() == key@,
                bare == (key@.len() > 0 && forall|i: int| 0 <= i < it.index() ==> bare_key_char(#[trigger] key@[i])),
        {
            let n = c as u32;
            if !((0x41 <= n && n <= 0x5a) || (0x61 <= n && n <= 0x7a) || (0x30 <= n && n <= 0x39) || n == 0x5f
                || n == 0x2d) {
                bare = false;
            }
        }
        if bare {
            f.append(key);
        } else {
            Self::write_basic_string(key, f);
        }
    }

    /// Writes a string: as a multi-line basic string if it holds a newline, else as a basic one.
    pub fn write_string(value: &str, f: &mut String)
        ensures
            final(f)@ == old(f)@ + string_repr(value@),
    {
        let mut newline = false;
        for c in it: value.chars()
            invariant
                it.seq() == value@,
                newline == value@.take(it.index() as int).contains('\n'),
        {
            let ghost i = it.index();
            if c == '\n' {
                newline = true;
            }
            proof {
                let s1 = value@.take(i + 1);
                let s0 = value@.take(i as int);
                assert(s1 =~= s0.push(c));
                if c == '\n' {
                    assert(s1[i as int] == '\n');
                } else if s1.contains('\n') {
                    let j = choose|j: int| 0 <= j < s1.len() && s1[j] == '\n';
                    assert(s0[j] == '\n');
                }
            }
        }
        assert(value@.take(value@.len() as int) =~= value@);
        if newline {
            Self::write_multiline_basic_string(value, f);
        } else {
            Self::write_basic_string(value, f);
        }
    }

    /// Writes a basic string, escaping quotes, backslashes and control characters.
    pub fn write_basic_string(value: &str, f: &mut String)
        ensures
            final(f)@ == old(f)@ + basic_string_repr(value@),
    {
        push_char(f, '"');
        push_escaped_str(value, false, f);
        push_char(f, '"');
        assert(f@ =~= old(f)@ + basic_string_repr(value@));
    }

    /// Writes a multi-line basic string, escaping quotes, backslashes and control characters
    /// other than tab and newline.
    pub fn write_multiline_basic_string(value: &str, f: &mut String)
        ensures
            final(f)@ == old(f)@ + ml_string_repr(value@),
    {
        // A newline right after the opening quotes is dropped by a reader
        push_char(f, '"');
        push_char(f, '"');
        push_char(f, '"');
        push_char(f, '\n');
        push_escaped_str(value, true, f);
        push_char(f, '"');
        push_char(f, '"');
        push_char(f, '"');
        assert(f@ =~= old(f)@ + ml_string_repr(value@));
    }

    /// Writes a table header line for the path; nothing for the empty path.
    pub fn write_table_header(path: &[&String], f: &mut String)
        ensures
            final(f)@ == old(f)@ + header_repr(path_view(path@), seq!['['], seq![']']),
    {
        proof {
            reveal_strlit("[");
            reveal_strlit("]");
        }
        Self::write_header(path, "[", "]", f);
    }

    /// Writes an array-of-tables header line for the path; nothing for the empty path.
    pub fn write_array_header(path: &[&String], f: &mut String)
        ensures
            final(f)@ == old(f)@ + header_repr(path_view(path@), seq!['[', '['], seq![']', ']']),
    {
        proof {
            reveal_strlit("[[");
            reveal_strlit("]]");
        }
        Self::write_header(path, "[[", "]]", f);
    }

    /// Writes a header line: the keys of the path joined by `.`, between `prefix` and `suffix`.
    /// Nothing is written for the empty path.
    pub fn write_header(path: &[&String], prefix: &str, suffix: &str, f: &mut String)
        ensures
            final(f)@ == old(f)@ + header_repr(path_view(path@), prefix@, suffix@),
    {
        let ghost p = path_view(path@);
        if path.len() > 0 {
            f.append(prefix);
            Self::write_key(path[0].as_str(), f);
            assert(p.take(1) =~= seq![p[0]]);
            let mut i: usize = 1;
            while i < path.len()
                invariant
                    1 <= i <= path@.len(),
                    p == path_view(path@),
                    f@ == old(f)@ + prefix@ + keys_repr(p.take(i as int)),
                decreases path@.len() - i,
            {
                push_char(f, '.');
                Self::write_key(path[i].as_str(), f);
                i = i + 1;
                assert(p.take(i as int).drop_last() =~= p.take(i - 1));
                assert(f@ =~= old(f)@ + prefix@ + keys_repr(p.take(i as int)));
            }
            assert(p.take(i as int) =~= p);
            f.append(suffix);
            push_char(f, '\n');
            assert(f@ =~= old(f)@ + header_repr(p, prefix@, suffix@));
        }
    }

    /// Writes a table under the path: its header (if it has key/value pairs, or nothing at
    /// all), its key/value pairs, then its subtables.
    pub fn write_table(table: &[(String, Value)], path: &[&String], f: &mut String)
        ensures
            final(f)@ == old(f)@ + table_repr(table@, path_view(path@)),
        decreases entries_size(table@), 2int,
    {
        let (inlines, subtables) = split_inlines_and_subtables(table);
        proof {
            lemma_subtables_size(table@);
        }
        // The header is needed if the table has key/value pairs; an empty table also gets one,
        // else a reader would not know that it exists
        let need_header = inlines.len() > 0 || subtables.len() == 0;
        // A blank line is needed between key/value pairs and subtables only if both exist
        let need_nl = inlines.len() > 0 && subtables.len() > 0;
        let ghost f0 = f@;
        if need_header {
            Self::write_table_header(path, f);
        }
        let ghost f1 = f@;
        Self::write_inlines(inlines.as_slice(), f);
        let ghost f2 = f@;
        if need_nl {
            push_char(f, '\n');
        }
        let ghost f3 = f@;
        Self::write_subtables(subtables.as_slice(), path, f);
        assert(f@ =~= old(f)@ + table_repr(table@, path_view(path@)));
    }

    /// Writes one table of an array of tables under the path.
    fn write_array_element(table: &[(String, Value)], path: &[&String], f: &mut String)
        ensures
            final(f)@ == old(f)@ + array_element_repr(table@, path_view(path@)),
        decreases entries_size(table@), 2int,
    {
        let (inlines, subtables) = split_inlines_and_subtables(table);
        proof {
            lemma_subtables_size(table@);
        }
        let need_nl = inlines.len() > 0 && subtables.len() > 0;
        // Unlike a table, an element always needs its header
        Self::write_array_header(path, f);
        Self::write_inlines(inlines.as_slice(), f);
        if need_nl {
            push_char(f, '\n');
        }
        Self::write_subtables(subtables.as_slice(), path, f);
        assert(f@ =~= old(f)@ + array_element_repr(table@, path_view(path@)));
    }

    /// Writes an array of tables under the path, its tables separated by blank lines.
    pub fn write_array_of_tables(array: &[Vec<(String, Value)>], path: &[&String], f: &mut String)
        ensures
            final(f)@ == old(f)@ + array_of_tables_repr(array@, path_view(path@)),
        decreases tables_size(array@), 3int,
    {
        let ghost p = path_view(path@);
        let mut i: usize = 0;
        while i < array.len()
            invariant
                0 <= i <= array@.len(),
                p == path_view(path@),
                f@ == old(f)@ + array_of_tables_repr(array@.take(i as int), p),
            decreases array@.len() - i,
        {
            let ghost a1 = array@.take(i + 1);
            assert(a1.drop_last() =~= array@.take(i as int));
            if i > 0 {
                push_char(f, '\n');
            }
            proof {
                lemma_tables_size_elem(array@, i as int);
            }
            Self::write_array_element(array[i].as_slice(), path, f);
            i = i + 1;
            assert(f@ =~= old(f)@ + array_of_tables_repr(array@.take(i as int), p));
        }
        assert(array@.take(i as int) =~= array@);
    }

    /// Writes `key = value` lines.
    pub fn write_inlines(inlines: &[(&String, &String)], f: &mut String)
        ensures
            final(f)@ == old(f)@ + inlines_repr(pairs_view(inlines@)),
    {
        let ghost s = pairs_view(inlines@);
        let mut i: usize = 0;
        while i < inlines.len()
            invariant
                0 <= i <= inlines@.len(),
                s == pairs_view(inlines@),
                f@ == old(f)@ + inlines_repr(s.take(i as int)),
            decreases inlines@.len() - i,
        {
            let (key, value) = inlines[i];
            Self::write_inline(key.as_str(), value.as_str(), f);
            i = i + 1;
            assert(s.take(i as int).drop_last() =~= s.take(i - 1));
            assert(f@ =~= old(f)@ + inlines_repr(s.take(i as int)));
        }
        assert(s.take(i as int) =~= s);
    }

    /// Writes a `key = value` line.
    pub fn write_inline(key: &str, value: &str, f: &mut String)
        ensures
            final(f)@ == old(f)@ + inline_repr(key@, value@),
    {
        Self::write_key(key, f);
        push_char(f, ' ');
        push_char(f, '=');
        push_char(f, ' ');
        f.append(value);
        push_char(f, '\n');
        assert(f@ =~= old(f)@ + inline_repr(key@, value@));
    }

    /// Writes subtables under the path, separated by blank lines.
    pub fn write_subtables(subtables: &[(&String, &Table)], path: &[&String], f: &mut String)
        ensures
            final(f)@ == old(f)@ + subtables_repr(subtables_view(subtables@), path_view(path@)),
        decreases subtables_size(subtables_view(subtables@)), 1int,
    {
        let ghost s = subtables_view(subtables@);
        let ghost p = path_view(path@);
        let mut i: usize = 0;
        while i < subtables.len()
            invariant
                0 <= i <= subtables@.len(),
                s == subtables_view(subtables@),
                p == path_view(path@),
                f@ == old(f)@ + subtables_repr(s.take(i as int), p),
            decreases subtables@.len() - i,
        {
            let ghost s1 = s.take(i + 1);
            assert(s1.drop_last() =~= s.take(i as int));
            if i > 0 {
                push_char(f, '\n');
            }
            let (key, table) = subtables[i];
            proof {
                lemma_subtables_size_elem(s, i as int);
            }
            Self::write_subtable(key, table, path, f);
            i = i + 1;
            assert(f@ =~= old(f)@ + subtables_repr(s.take(i as int), p));
        }
        assert(s.take(i as int) =~= s);
    }

    /// Writes a subtable, or an array of tables, named `key` under the path.
    pub fn write_subtable(key: &String, table: &Table, path: &[&String], f: &mut String)
        ensures
            final(f)@ == old(f)@ + subtable_repr(key@, *table, path_view(path@)),
        decreases table_size(*table), 0int,
    {
        let path = push_path(path, key);
        match table {
            Table::Array(array) => Self::write_array_of_tables(array.as_slice(), path.as_slice(), f),
            Table::Table(table) => Self::write_table(table.as_slice(), path.as_slice(), f),
        }
    }

    /// Writes an integer in decimal.
    pub fn write_integer<I: Integer>(value: &I, f: &mut String)
        ensures
            final(f)@ == old(f)@ + decimal_repr(value.int_value()),
    {
        value.fmt(f);
    }
}

} // verus!
