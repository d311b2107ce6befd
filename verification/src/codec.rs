//! The canonical text format for everything this library persists: group
//! files, the configuration file and the active-target file.  A small TOML
//! subset: one `key = value` or `[table]` header per line, strings quoted
//! with the usual backslash escapes, lists bracketed and comma-separated.
//!
//! Serialization is deterministic (keys and members ascending), and parsing
//! is its exact inverse: `lemma_file_roundtrip` proves that a serialized
//! store parses back to the same model, which makes repeated persistence
//! byte-stable.  Parsing is a little more tolerant than writing: the final
//! line feed may be missing, blank lines may stand between tables, and a
//! group's flag line may be left out.
use vstd::prelude::*;
use vstd::string::{StrSliceExecFns, StringExecFns};
use crate::error::Error;
use crate::idset::{sorted_union, lemma_canon_sorted};
use crate::idset::IdSet;
use crate::store::{GroupModel, FileModel, PackageGroup, PackageFile, file_model_wf,
    lemma_table_insert_members};
use crate::table::{Table};
use crate::table::{find_key, table_insert, sorted_keys, keys_of, lemma_find_key_props,
    lemma_keys_drop_first, lemma_sorted_keys_drop_first};

verus! {

/// The escape codes accepted after a backslash.
pub open spec fn is_esc_code(c: char) -> bool {
    c == '\\' || c == '"' || c == 'n' || c == 'r' || c == 't'
}

/// The character an escape code stands for.
pub open spec fn unesc(c: char) -> char {
    if c == 'n' {
        '\n'
    } else if c == 'r' {
        '\r'
    } else if c == 't' {
        '\t'
    } else {
        c
    }
}

/// How one character is written inside a quoted string.
pub open spec fn esc_char(c: char) -> Seq<char> {
    if c == '\\' {
        seq!['\\', '\\']
    } else if c == '"' {
        seq!['\\', '"']
    } else if c == '\n' {
        seq!['\\', 'n']
    } else if c == '\r' {
        seq!['\\', 'r']
    } else if c == '\t' {
        seq!['\\', 't']
    } else {
        seq![c]
    }
}

/// A string's characters as written inside quotes.
pub open spec fn escape(s: Seq<char>) -> Seq<char>
    decreases s.len(),
{
    if s.len() == 0 {
        Seq::empty()
    } else {
        esc_char(s[0]) + escape(s.drop_first())
    }
}

/// A string as written: quoted and escaped.
pub open spec fn quote(s: Seq<char>) -> Seq<char> {
    seq!['"'] + escape(s) + seq!['"']
}

/// Reads a quoted string's inside, the opening quote already consumed:
/// yields the decoded value and what follows the closing quote.
pub open spec fn parse_qinner(s: Seq<char>) -> Option<(Seq<char>, Seq<char>)>
    decreases s.len(),
{
    if s.len() == 0 {
        None
    } else if s[0] == '"' {
        Some((Seq::empty(), s.drop_first()))
    } else if s[0] == '\\' {
        if s.len() >= 2 && is_esc_code(s[1]) {
            match parse_qinner(s.skip(2)) {
                Some(vr) => Some((seq![unesc(s[1])] + vr.0, vr.1)),
                None => None,
            }
        } else {
            None
        }
    } else if s[0] == '\n' {
        None
    } else {
        match parse_qinner(s.drop_first()) {
            Some(vr) => Some((seq![s[0]] + vr.0, vr.1)),
            None => None,
        }
    }
}

/// Escaping one character adds at least that character back when read.
pub proof fn lemma_escape_snoc(s: Seq<char>, c: char)
    ensures
        escape(s.push(c)) == escape(s) + esc_char(c),
    decreases s.len(),
{
    if s.len() == 0 {
        assert(s.push(c) =~= seq![c]);
        assert(seq![c][0] == c);
        assert(seq![c].drop_first() =~= Seq::<char>::empty());
        assert(escape(Seq::<char>::empty()) =~= Seq::<char>::empty());
        assert(escape(seq![c]) == esc_char(seq![c][0]) + escape(seq![c].drop_first()));
        assert(escape(seq![c]) =~= esc_char(c));
        assert(escape(s.push(c)) =~= escape(s) + esc_char(c));
    } else {
        assert(s.push(c)[0] == s[0]);
        assert(s.push(c).drop_first() =~= s.drop_first().push(c));
        lemma_escape_snoc(s.drop_first(), c);
        assert(escape(s.push(c)) =~= escape(s) + esc_char(c));
    }
}

/// Reading an escaped string back yields the original and stops exactly at
/// the closing quote.
pub proof fn lemma_qinner_roundtrip(v: Seq<char>, rest: Seq<char>)
    ensures
        parse_qinner(escape(v) + seq!['"'] + rest) == Some((v, rest)),
    decreases v.len(),
{
    let s = escape(v) + seq!['"'] + rest;
    if v.len() == 0 {
        assert(escape(v).len() == 0);
        assert(s =~= seq!['"'] + rest);
        assert(s[0] == '"');
        assert(s.drop_first() =~= rest);
    } else {
        lemma_qinner_roundtrip(v.drop_first(), rest);
        let tail_s = escape(v.drop_first()) + seq!['"'] + rest;
        assert(escape(v) =~= esc_char(v[0]) + escape(v.drop_first()));
        let c = v[0];
        if c == '\\' || c == '"' || c == '\n' || c == '\r' || c == '\t' {
            // two written characters: backslash and code
            let code: char = if c == '\\' {
                '\\'
            } else if c == '"' {
                '"'
            } else if c == '\n' {
                'n'
            } else if c == '\r' {
                'r'
            } else {
                't'
            };
            assert(esc_char(c) =~= seq!['\\', code]);
            assert(s =~= seq!['\\', code] + tail_s);
            assert(s[0] == '\\' && s[1] == code && is_esc_code(code));
            assert(s.skip(2) =~= tail_s);
            assert(unesc(code) == c);
            assert(seq![c] + v.drop_first() =~= v);
        } else {
            assert(esc_char(c) =~= seq![c]);
            assert(s =~= seq![c] + tail_s);
            assert(s[0] == c);
            assert(s[0] != '"' && s[0] != '\\' && s[0] != '\n');
            assert(s.drop_first() =~= tail_s);
            assert(seq![c] + v.drop_first() =~= v);
        }
    }
}

/// A successful read consumes at least the closing quote.
pub proof fn lemma_qinner_shrinks(s: Seq<char>)
    ensures
        match parse_qinner(s) {
            Some(vr) => vr.1.len() < s.len(),
            None => true,
        },
    decreases s.len(),
{
    if s.len() == 0 {
    } else if s[0] == '"' {
    } else if s[0] == '\\' {
        if s.len() >= 2 && is_esc_code(s[1]) {
            lemma_qinner_shrinks(s.skip(2));
        }
    } else if s[0] == '\n' {
    } else {
        lemma_qinner_shrinks(s.drop_first());
    }
}

/// One or more quoted strings, comma-separated, closed by `]` and a line
/// break: yields the values and what follows the line break.
pub open spec fn parse_items_ne(s: Seq<char>) -> Option<(Seq<Seq<char>>, Seq<char>)>
    decreases s.len(),
    via parse_items_ne_decreases
{
    if s.len() == 0 || s[0] != '"' {
        None
    } else {
        match parse_qinner(s.drop_first()) {
            Some(vr) => {
                let v = vr.0;
                let r = vr.1;
                if r.len() >= 1 && r[0] == ']' {
                    match close_line(r) {
                        Some(rem) => Some((seq![v], rem)),
                        None => None,
                    }
                } else if r.len() >= 2 && r[0] == ',' && r[1] == ' ' {
                    match parse_items_ne(r.skip(2)) {
                        Some(vsr) => Some((seq![v] + vsr.0, vsr.1)),
                        None => None,
                    }
                } else {
                    None
                }
            },
            None => None,
        }
    }
}

#[via_fn]
proof fn parse_items_ne_decreases(s: Seq<char>) {
    if s.len() > 0 && s[0] == '"' {
        lemma_qinner_shrinks(s.drop_first());
    }
}

/// The items of a nonempty list as written: quoted, comma-separated.
pub open spec fn ser_items(ms: Seq<Seq<char>>) -> Seq<char>
    decreases ms.len(),
{
    if ms.len() == 0 {
        Seq::empty()
    } else if ms.len() == 1 {
        quote(ms[0])
    } else {
        quote(ms[0]) + seq![',', ' '] + ser_items(ms.drop_first())
    }
}

/// Reading a written nonempty list back yields its items and stops exactly
/// after the closing bracket's line break.
pub proof fn lemma_items_roundtrip(ms: Seq<Seq<char>>, rest: Seq<char>)
    requires
        ms.len() > 0,
    ensures
        parse_items_ne(ser_items(ms) + seq![']', '\n'] + rest) == Some((ms, rest)),
    decreases ms.len(),
{
    let s = ser_items(ms) + seq![']', '\n'] + rest;
    if ms.len() == 1 {
        assert(s =~= quote(ms[0]) + (seq![']', '\n'] + rest));
        assert(s =~= seq!['"'] + (escape(ms[0]) + seq!['"'] + (seq![']', '\n'] + rest)));
        assert(s[0] == '"');
        assert(s.drop_first() =~= escape(ms[0]) + seq!['"'] + (seq![']', '\n'] + rest));
        lemma_qinner_roundtrip(ms[0], seq![']', '\n'] + rest);
        let r = (seq![']', '\n'] + rest);
        assert(r[0] == ']' && r[1] == '\n');
        assert(r.skip(2) =~= rest);
        assert(seq![ms[0]] =~= ms);
    } else {
        lemma_items_roundtrip(ms.drop_first(), rest);
        let tail_s = ser_items(ms.drop_first()) + seq![']', '\n'] + rest;
        assert(s =~= seq!['"'] + (escape(ms[0]) + seq!['"'] + (seq![',', ' '] + tail_s)));
        assert(s[0] == '"');
        assert(s.drop_first() =~= escape(ms[0]) + seq!['"'] + (seq![',', ' '] + tail_s));
        lemma_qinner_roundtrip(ms[0], seq![',', ' '] + tail_s);
        let r = seq![',', ' '] + tail_s;
        assert(r[0] == ',' && r[1] == ' ');
        assert(!(r[0] == ']'));
        assert(r.skip(2) =~= tail_s);
        assert(seq![ms[0]] + ms.drop_first() =~= ms);
    }
}

/// `p` written at the front of `s`.
pub open spec fn starts_with(s: Seq<char>, p: Seq<char>) -> bool {
    s.len() >= p.len() && s.take(p.len() as int) == p
}

/// A character a table key may use without quoting.
pub open spec fn is_bare_char(c: char) -> bool {
    ('a' <= c && c <= 'z') || ('A' <= c && c <= 'Z') || ('0' <= c && c <= '9') || c == '_' || c
        == '-'
}

/// A key that needs no quoting.
pub open spec fn is_bare_key(s: Seq<char>) -> bool {
    s.len() > 0 && forall|i: int| 0 <= i < s.len() ==> is_bare_char(#[trigger] s[i])
}

/// A key as written inside a table header.
pub open spec fn ser_key(k: Seq<char>) -> Seq<char> {
    if is_bare_key(k) {
        k
    } else {
        quote(k)
    }
}

/// The longest front run of bare characters, and what follows it.
pub open spec fn parse_bare_run(s: Seq<char>) -> (Seq<char>, Seq<char>)
    decreases s.len(),
{
    if s.len() > 0 && is_bare_char(s[0]) {
        let kr = parse_bare_run(s.drop_first());
        (seq![s[0]] + kr.0, kr.1)
    } else {
        (Seq::empty(), s)
    }
}

/// A line's end: a line feed, or the end of the text.
pub open spec fn line_break(r: Seq<char>) -> Option<Seq<char>> {
    if r.len() >= 1 && r[0] == '\n' {
        Some(r.skip(1))
    } else if r.len() == 0 {
        Some(r)
    } else {
        None
    }
}

/// A list's or header's close: `]`, then a line's end.
pub open spec fn close_line(r: Seq<char>) -> Option<Seq<char>> {
    if r.len() >= 1 && r[0] == ']' {
        line_break(r.skip(1))
    } else {
        None
    }
}

/// Reads a key followed by `]` and a line's end: the tail of a table header
/// whose `[` is already consumed.
pub open spec fn parse_key_close(s: Seq<char>) -> Option<(Seq<char>, Seq<char>)> {
    if s.len() > 0 && s[0] == '"' {
        match parse_qinner(s.drop_first()) {
            Some(kr) => match close_line(kr.1) {
                Some(rem) => Some((kr.0, rem)),
                None => None,
            },
            None => None,
        }
    } else {
        let kr = parse_bare_run(s);
        if kr.0.len() > 0 {
            match close_line(kr.1) {
                Some(rem) => Some((kr.0, rem)),
                None => None,
            }
        } else {
            None
        }
    }
}

/// A full `[key]` header line.
pub open spec fn parse_header(s: Seq<char>) -> Option<(Seq<char>, Seq<char>)> {
    if s.len() > 0 && s[0] == '[' {
        parse_key_close(s.drop_first())
    } else {
        None
    }
}

/// A bare run stops exactly where the bare characters stop.
pub proof fn lemma_bare_run(k: Seq<char>, rest: Seq<char>)
    requires
        forall|i: int| 0 <= i < k.len() ==> is_bare_char(#[trigger] k[i]),
        rest.len() == 0 || !is_bare_char(rest[0]),
    ensures
        parse_bare_run(k + rest) == (k, rest),
    decreases k.len(),
{
    let s = k + rest;
    if k.len() == 0 {
        assert(s =~= rest);
    } else {
        assert(s[0] == k[0] && is_bare_char(s[0]));
        assert(s.drop_first() =~= k.drop_first() + rest);
        assert(forall|i: int|
            0 <= i < k.drop_first().len() ==> #[trigger] k.drop_first()[i] == k[i + 1]);
        lemma_bare_run(k.drop_first(), rest);
        assert(seq![k[0]] + k.drop_first() =~= k);
    }
}

/// Reading a written header back yields its key and stops after the line
/// break.
pub proof fn lemma_key_close_roundtrip(k: Seq<char>, rest: Seq<char>)
    ensures
        parse_key_close(ser_key(k) + seq![']', '\n'] + rest) == Some((k, rest)),
{
    let s = ser_key(k) + seq![']', '\n'] + rest;
    if is_bare_key(k) {
        assert(s =~= k + (seq![']', '\n'] + rest));
        assert(!is_bare_char(']'));
        lemma_bare_run(k, seq![']', '\n'] + rest);
        assert(s[0] == k[0] && is_bare_char(s[0]));
        assert(s[0] != '"');
        let r = seq![']', '\n'] + rest;
        assert(r[0] == ']' && r[1] == '\n');
        assert(r.skip(2) =~= rest);
    } else {
        assert(s =~= seq!['"'] + (escape(k) + seq!['"'] + (seq![']', '\n'] + rest)));
        assert(s[0] == '"');
        assert(s.drop_first() =~= escape(k) + seq!['"'] + (seq![']', '\n'] + rest));
        lemma_qinner_roundtrip(k, seq![']', '\n'] + rest);
        let r = seq![']', '\n'] + rest;
        assert(r[0] == ']' && r[1] == '\n');
        assert(r.skip(2) =~= rest);
    }
}

/// A `label = [items]` line.
pub open spec fn ser_list_line(label: Seq<char>, items: Seq<Seq<char>>) -> Seq<char> {
    if items.len() == 0 {
        label + seq![' ', '=', ' ', '['] + seq![']', '\n']
    } else {
        label + seq![' ', '=', ' ', '['] + ser_items(items) + seq![']', '\n']
    }
}

/// Reads a `label = [items]` line: yields the raw items in written order.
pub open spec fn parse_list_line(s: Seq<char>, label: Seq<char>) -> Option<
    (Seq<Seq<char>>, Seq<char>),
> {
    if starts_with(s, label + seq![' ', '=', ' ', '[']) {
        let t = s.skip(label.len() as int + 4);
        if t.len() >= 1 && t[0] == ']' {
            match close_line(t) {
                Some(rem) => Some((Seq::empty(), rem)),
                None => None,
            }
        } else {
            parse_items_ne(t)
        }
    } else {
        None
    }
}

/// Reading a written list line back yields its items.
pub proof fn lemma_list_line_roundtrip(label: Seq<char>, items: Seq<Seq<char>>, rest: Seq<char>)
    ensures
        parse_list_line(ser_list_line(label, items) + rest, label) == Some((items, rest)),
{
    let p = label + seq![' ', '=', ' ', '['];
    let s = ser_list_line(label, items) + rest;
    if items.len() == 0 {
        assert(s =~= p + (seq![']', '\n'] + rest));
        assert(starts_with(s, p)) by {
            assert(s.take(p.len() as int) =~= p);
        }
        let t = s.skip(label.len() as int + 4);
        assert(t =~= seq![']', '\n'] + rest);
        assert(t.skip(2) =~= rest);
    } else {
        assert(s =~= p + (ser_items(items) + seq![']', '\n'] + rest));
        assert(starts_with(s, p)) by {
            assert(s.take(p.len() as int) =~= p);
        }
        let t = s.skip(label.len() as int + 4);
        assert(t =~= ser_items(items) + seq![']', '\n'] + rest);
        lemma_items_roundtrip(items, rest);
        // a nonempty list starts with a quote, not the closing bracket
        assert(ser_items(items)[0] == '"') by {
            if items.len() == 1 {
                assert(ser_items(items) =~= quote(items[0]));
                assert(quote(items[0])[0] == '"');
            } else {
                assert(quote(items[0])[0] == '"');
            }
        }
        assert(t[0] == '"');
        assert(!(t[0] == ']'));
    }
}

/// A `label = "value"` line.
pub open spec fn ser_str_line(label: Seq<char>, v: Seq<char>) -> Seq<char> {
    label + seq![' ', '=', ' '] + quote(v) + seq!['\n']
}

/// Reads a `label = "value"` line.
pub open spec fn parse_str_line(s: Seq<char>, label: Seq<char>) -> Option<(Seq<char>, Seq<char>)> {
    if starts_with(s, label + seq![' ', '=', ' ', '"']) {
        match parse_qinner(s.skip(label.len() as int + 4)) {
            Some(vr) => match line_break(vr.1) {
                Some(rem) => Some((vr.0, rem)),
                None => None,
            },
            None => None,
        }
    } else {
        None
    }
}

/// Reading a written string line back yields its value.
pub proof fn lemma_str_line_roundtrip(label: Seq<char>, v: Seq<char>, rest: Seq<char>)
    ensures
        parse_str_line(ser_str_line(label, v) + rest, label) == Some((v, rest)),
{
    let p = label + seq![' ', '=', ' ', '"'];
    let s = ser_str_line(label, v) + rest;
    assert(s =~= p + (escape(v) + seq!['"'] + (seq!['\n'] + rest)));
    assert(starts_with(s, p)) by {
        assert(s.take(p.len() as int) =~= p);
    }
    assert(s.skip(label.len() as int + 4) =~= escape(v) + seq!['"'] + (seq!['\n'] + rest));
    lemma_qinner_roundtrip(v, seq!['\n'] + rest);
    let r = seq!['\n'] + rest;
    assert(r[0] == '\n');
    assert(r.skip(1) =~= rest);
}

/// A `label = true` or `label = false` line.
pub open spec fn ser_bool_line(label: Seq<char>, b: bool) -> Seq<char> {
    if b {
        label + seq![' ', '=', ' ', 't', 'r', 'u', 'e', '\n']
    } else {
        label + seq![' ', '=', ' ', 'f', 'a', 'l', 's', 'e', '\n']
    }
}

/// Reads a `label = true` or `label = false` line.
pub open spec fn parse_bool_line(s: Seq<char>, label: Seq<char>) -> Option<(bool, Seq<char>)> {
    if starts_with(s, label + seq![' ', '=', ' ', 't', 'r', 'u', 'e']) {
        match line_break(s.skip(label.len() as int + 7)) {
            Some(rem) => Some((true, rem)),
            None => None,
        }
    } else if starts_with(s, label + seq![' ', '=', ' ', 'f', 'a', 'l', 's', 'e']) {
        match line_break(s.skip(label.len() as int + 8)) {
            Some(rem) => Some((false, rem)),
            None => None,
        }
    } else {
        None
    }
}

/// Reading a written boolean line back yields its value.
pub proof fn lemma_bool_line_roundtrip(label: Seq<char>, b: bool, rest: Seq<char>)
    ensures
        parse_bool_line(ser_bool_line(label, b) + rest, label) == Some((b, rest)),
{
    let s = ser_bool_line(label, b) + rest;
    if b {
        let p = label + seq![' ', '=', ' ', 't', 'r', 'u', 'e'];
        assert(s =~= p + (seq!['\n'] + rest));
        assert(starts_with(s, p)) by {
            assert(s.take(p.len() as int) =~= p);
        }
        assert(s.skip(label.len() as int + 7) =~= seq!['\n'] + rest);
        assert((seq!['\n'] + rest)[0] == '\n');
        assert((seq!['\n'] + rest).skip(1) =~= rest);
    } else {
        let p = label + seq![' ', '=', ' ', 'f', 'a', 'l', 's', 'e'];
        let ptrue = label + seq![' ', '=', ' ', 't', 'r', 'u', 'e'];
        assert(!starts_with(s, ptrue)) by {
            if starts_with(s, ptrue) {
                assert(s.take(ptrue.len() as int)[label.len() as int + 3] == 't');
                assert(s[label.len() as int + 3] == 'f');
            }
        }
        assert(s =~= p + (seq!['\n'] + rest));
        assert(starts_with(s, p)) by {
            assert(s.take(p.len() as int) =~= p);
        }
        assert(s.skip(label.len() as int + 8) =~= seq!['\n'] + rest);
        assert((seq!['\n'] + rest)[0] == '\n');
        assert((seq!['\n'] + rest).skip(1) =~= rest);
    }
}

/// The remainder a successful list read leaves is strictly shorter.
pub proof fn lemma_items_ne_shrinks(s: Seq<char>)
    ensures
        match parse_items_ne(s) {
            Some(vr) => vr.1.len() < s.len(),
            None => true,
        },
    decreases s.len(),
{
    if s.len() > 0 && s[0] == '"' {
        lemma_qinner_shrinks(s.drop_first());
        match parse_qinner(s.drop_first()) {
            Some(vr) => {
                let r = vr.1;
                if r.len() >= 2 && r[0] == ']' && r[1] == '\n' {
                } else if r.len() >= 2 && r[0] == ',' && r[1] == ' ' {
                    lemma_items_ne_shrinks(r.skip(2));
                }
            },
            None => {},
        }
    }
}

/// A bare run splits its input.
pub proof fn lemma_bare_run_splits(s: Seq<char>)
    ensures
        parse_bare_run(s).0 + parse_bare_run(s).1 == s,
        parse_bare_run(s).1.len() <= s.len(),
    decreases s.len(),
{
    if s.len() > 0 && is_bare_char(s[0]) {
        lemma_bare_run_splits(s.drop_first());
        assert(seq![s[0]] + (parse_bare_run(s.drop_first()).0 + parse_bare_run(
            s.drop_first(),
        ).1) =~= s);
        assert(parse_bare_run(s).0 + parse_bare_run(s).1 =~= s);
    } else {
        assert(Seq::<char>::empty() + s =~= s);
    }
}

/// The remainder a successful header read leaves is strictly shorter.
pub proof fn lemma_header_shrinks(s: Seq<char>)
    ensures
        match parse_header(s) {
            Some(kr) => kr.1.len() < s.len(),
            None => true,
        },
{
    if s.len() > 0 && s[0] == '[' {
        let t = s.drop_first();
        if t.len() > 0 && t[0] == '"' {
            lemma_qinner_shrinks(t.drop_first());
        } else {
            lemma_bare_run_splits(t);
        }
    }
}

/// The remainder a successful list-line read leaves is strictly shorter.
pub proof fn lemma_list_line_shrinks(s: Seq<char>, label: Seq<char>)
    ensures
        match parse_list_line(s, label) {
            Some(vr) => vr.1.len() < s.len(),
            None => true,
        },
{
    if starts_with(s, label + seq![' ', '=', ' ', '[']) {
        let t = s.skip(label.len() as int + 4);
        lemma_items_ne_shrinks(t);
    }
}

/// The remainder a successful string-line read leaves is strictly shorter.
pub proof fn lemma_str_line_shrinks(s: Seq<char>, label: Seq<char>)
    ensures
        match parse_str_line(s, label) {
            Some(vr) => vr.1.len() < s.len(),
            None => true,
        },
{
    if starts_with(s, label + seq![' ', '=', ' ', '"']) {
        lemma_qinner_shrinks(s.skip(label.len() as int + 4));
    }
}

/// The key of a group file's `members` line.
pub open spec fn members_label() -> Seq<char> {
    seq!['m', 'e', 'm', 'b', 'e', 'r', 's']
}

/// The key of a group file's `accept_indirect` line.
pub open spec fn accept_label() -> Seq<char> {
    seq!['a', 'c', 'c', 'e', 'p', 't', '_', 'i', 'n', 'd', 'i', 'r', 'e', 'c', 't']
}

/// The length of the leading run of blank lines.
pub open spec fn nl_run(s: Seq<char>) -> int
    decreases s.len(),
{
    if s.len() > 0 && s[0] == '\n' {
        1 + nl_run(s.drop_first())
    } else {
        0
    }
}

/// A blank-line run never reaches past the end.
pub proof fn lemma_nl_run_bounded(s: Seq<char>)
    ensures
        0 <= nl_run(s) <= s.len(),
    decreases s.len(),
{
    if s.len() > 0 && s[0] == '\n' {
        lemma_nl_run_bounded(s.drop_first());
    }
}

/// One group as written: a header line, the members, the flag.
pub open spec fn ser_group_block(k: Seq<char>, g: GroupModel) -> Seq<char> {
    seq!['['] + ser_key(k) + seq![']', '\n'] + ser_list_line(members_label(), g.members)
        + ser_bool_line(accept_label(), g.accept_indirect)
}

/// Reads one group block; the members collapse into canonical order, as set
/// semantics ask.  The flag line may be left out; the flag is then off.
pub open spec fn parse_group_block(s: Seq<char>) -> Option<((Seq<char>, GroupModel), Seq<char>)> {
    match parse_header(s) {
        Some(kr) => match parse_list_line(kr.1, members_label()) {
            Some(mr) => match parse_bool_line(mr.1, accept_label()) {
                Some(br) => Some(
                    (
                        (
                            kr.0,
                            GroupModel {
                                members: sorted_union(Seq::<Seq<char>>::empty(), mr.0),
                                accept_indirect: br.0,
                            },
                        ),
                        br.1,
                    ),
                ),
                None => Some(
                    (
                        (
                            kr.0,
                            GroupModel {
                                members: sorted_union(Seq::<Seq<char>>::empty(), mr.0),
                                accept_indirect: false,
                            },
                        ),
                        mr.1,
                    ),
                ),
            },
            None => None,
        },
        None => None,
    }
}

/// The remainder a successful block read leaves is strictly shorter.
pub proof fn lemma_block_shrinks(s: Seq<char>)
    ensures
        match parse_group_block(s) {
            Some(kgr) => kgr.1.len() < s.len(),
            None => true,
        },
{
    lemma_header_shrinks(s);
    match parse_header(s) {
        Some(kr) => {
            lemma_list_line_shrinks(kr.1, members_label());
            match parse_list_line(kr.1, members_label()) {
                Some(mr) => {
                    match parse_bool_line(mr.1, accept_label()) {
                        Some(br) => {},
                        None => {},
                    }
                },
                None => {},
            }
        },
        None => {},
    }
}

/// Reading a written group block back yields the group, provided its members
/// were already canonical.
pub proof fn lemma_block_roundtrip(k: Seq<char>, g: GroupModel, rest: Seq<char>)
    requires
        crate::order::strictly_sorted(g.members),
    ensures
        parse_group_block(ser_group_block(k, g) + rest) == Some(((k, g), rest)),
{
    let lline = ser_list_line(members_label(), g.members);
    let bline = ser_bool_line(accept_label(), g.accept_indirect);
    let s = ser_group_block(k, g) + rest;
    assert(s =~= seq!['['] + (ser_key(k) + seq![']', '\n'] + (lline + (bline + rest))));
    assert(s[0] == '[');
    assert(s.drop_first() =~= ser_key(k) + seq![']', '\n'] + (lline + (bline + rest)));
    lemma_key_close_roundtrip(k, lline + (bline + rest));
    assert(lline + (bline + rest) =~= ser_list_line(members_label(), g.members) + (bline + rest));
    lemma_list_line_roundtrip(members_label(), g.members, bline + rest);
    lemma_bool_line_roundtrip(accept_label(), g.accept_indirect, rest);
    lemma_canon_sorted(g.members);
    assert(GroupModel {
        members: sorted_union(Seq::<Seq<char>>::empty(), g.members),
        accept_indirect: g.accept_indirect,
    } =~= g);
}

/// A whole group file as written: its groups, one block each, in key order.
pub open spec fn ser_file_text(m: FileModel) -> Seq<char>
    decreases m.len(),
{
    if m.len() == 0 {
        Seq::empty()
    } else {
        ser_group_block(m[0].0, m[0].1) + ser_file_text(m.drop_first())
    }
}

/// Reads a whole group file: blocks until the text ends, blank lines
/// between blocks passed over; a group id defined twice in one file is a
/// decode failure, not a silent overwrite.
pub open spec fn parse_file_text(s: Seq<char>) -> Option<FileModel>
    decreases s.len(),
    via parse_file_text_decreases
{
    let t = s.skip(nl_run(s));
    if t.len() == 0 {
        Some(Seq::empty())
    } else {
        match parse_group_block(t) {
            Some(kgr) => match parse_file_text(kgr.1) {
                Some(rest) => {
                    if find_key(rest, kgr.0.0) is Some {
                        None
                    } else {
                        Some(table_insert(rest, kgr.0.0, kgr.0.1))
                    }
                },
                None => None,
            },
            None => None,
        }
    }
}

#[via_fn]
proof fn parse_file_text_decreases(s: Seq<char>) {
    lemma_nl_run_bounded(s);
    lemma_block_shrinks(s.skip(nl_run(s)));
}

/// Reading a written group file back yields the same model: persistence is
/// stable under parse and re-serialize.
pub proof fn lemma_file_roundtrip(m: FileModel)
    requires
        crate::store::file_model_wf(m),
    ensures
        parse_file_text(ser_file_text(m)) == Some(m),
    decreases m.len(),
{
    assert(ser_file_text(m).skip(0) =~= ser_file_text(m));
    if m.len() == 0 {
        assert(nl_run(ser_file_text(m)) == 0);
    } else {
        let k = m[0].0;
        let g = m[0].1;
        let t = m.drop_first();
        let rest = ser_file_text(t);
        let s = ser_file_text(m);
        assert(s == ser_group_block(k, g) + rest);
        lemma_block_roundtrip(k, g, rest);
        assert(s.len() > 0 && s[0] == '[') by {
            assert(ser_group_block(k, g)[0] == '[');
        }
        assert(nl_run(s) == 0);
        assert(crate::store::file_model_wf(t)) by {
            lemma_sorted_keys_drop_first(m);
            assert(forall|j: int| 0 <= j < t.len() ==> #[trigger] t[j] == m[j + 1]);
        }
        lemma_file_roundtrip(t);
        assert(find_key(t, k) is None) by {
            lemma_find_key_props(t, k);
            lemma_keys_drop_first(m);
            match find_key(t, k) {
                Some(i) => {
                    assert(keys_of(t)[i] == t[i].0);
                    assert(keys_of(m)[i + 1] == keys_of(t)[i]);
                    assert(keys_of(m)[0] == k);
                    assert(crate::order::lex_lt(keys_of(m)[0], keys_of(m)[i + 1]));
                    crate::order::lemma_lex_trichotomy(k, t[i].0);
                },
                None => {},
            }
        }
        assert(table_insert(t, k, g) == m) by {
            if t.len() == 0 {
                assert(table_insert(t, k, g) =~= m);
            } else {
                lemma_keys_drop_first(m);
                assert(keys_of(m)[0] == k && keys_of(m)[1] == t[0].0);
                assert(crate::order::lex_lt(k, t[0].0));
                crate::order::lemma_lex_trichotomy(t[0].0, k);
                assert(!crate::order::lex_lt(t[0].0, k));
                assert(table_insert(t, k, g) =~= seq![(k, g)] + t);
                assert(seq![(k, g)] + t =~= m);
            }
        }
    }
}

/// The targets of a configuration: per target id, its root groups.
pub type TargetsModel = Seq<(Seq<char>, Seq<Seq<char>>)>;

/// The key of the configuration's `package_dir` line.
pub open spec fn package_dir_label() -> Seq<char> {
    seq!['p', 'a', 'c', 'k', 'a', 'g', 'e', '_', 'd', 'i', 'r']
}

/// The key of a target's `root_groups` line.
pub open spec fn root_groups_label() -> Seq<char> {
    seq!['r', 'o', 'o', 't', '_', 'g', 'r', 'o', 'u', 'p', 's']
}

/// The opening of a target's header: `[targets.` before the target id.
pub open spec fn targets_dot() -> Seq<char> {
    seq!['[', 't', 'a', 'r', 'g', 'e', 't', 's', '.']
}

/// The key of the active-target file's single line.
pub open spec fn target_label() -> Seq<char> {
    seq!['t', 'a', 'r', 'g', 'e', 't']
}

/// One target as written: a `[targets.<id>]` header and its root groups.
pub open spec fn ser_target_block(k: Seq<char>, groups: Seq<Seq<char>>) -> Seq<char> {
    targets_dot() + ser_key(k) + seq![']', '\n'] + ser_list_line(root_groups_label(), groups)
}

/// Reads one target block; the root groups collapse into canonical order.
pub open spec fn parse_target_block(s: Seq<char>) -> Option<
    ((Seq<char>, Seq<Seq<char>>), Seq<char>),
> {
    if starts_with(s, targets_dot()) {
        match parse_key_close(s.skip(targets_dot().len() as int)) {
            Some(kr) => match parse_list_line(kr.1, root_groups_label()) {
                Some(gr) => Some(
                    ((kr.0, sorted_union(Seq::<Seq<char>>::empty(), gr.0)), gr.1),
                ),
                None => None,
            },
            None => None,
        }
    } else {
        None
    }
}

/// The remainder a successful key read leaves is strictly shorter.
pub proof fn lemma_key_close_shrinks(s: Seq<char>)
    ensures
        match parse_key_close(s) {
            Some(kr) => kr.1.len() < s.len(),
            None => true,
        },
{
    if s.len() > 0 && s[0] == '"' {
        lemma_qinner_shrinks(s.drop_first());
    } else {
        lemma_bare_run_splits(s);
    }
}

/// The remainder a successful target-block read leaves is strictly shorter.
pub proof fn lemma_target_block_shrinks(s: Seq<char>)
    ensures
        match parse_target_block(s) {
            Some(kgr) => kgr.1.len() < s.len(),
            None => true,
        },
{
    if starts_with(s, targets_dot()) {
        lemma_key_close_shrinks(s.skip(targets_dot().len() as int));
        match parse_key_close(s.skip(targets_dot().len() as int)) {
            Some(kr) => {
                lemma_list_line_shrinks(kr.1, root_groups_label());
            },
            None => {},
        }
    }
}

/// All targets as written, one block each, in key order.
pub open spec fn ser_targets_text(ts: TargetsModel) -> Seq<char>
    decreases ts.len(),
{
    if ts.len() == 0 {
        Seq::empty()
    } else {
        ser_target_block(ts[0].0, ts[0].1) + ser_targets_text(ts.drop_first())
    }
}

/// Reads target blocks until the text ends, blank lines between blocks
/// passed over; a target id defined twice is a decode failure.
pub open spec fn parse_targets_text(s: Seq<char>) -> Option<TargetsModel>
    decreases s.len(),
    via parse_targets_text_decreases
{
    let t = s.skip(nl_run(s));
    if t.len() == 0 {
        Some(Seq::empty())
    } else {
        match parse_target_block(t) {
            Some(kgr) => match parse_targets_text(kgr.1) {
                Some(rest) => {
                    if find_key(rest, kgr.0.0) is Some {
                        None
                    } else {
                        Some(table_insert(rest, kgr.0.0, kgr.0.1))
                    }
                },
                None => None,
            },
            None => None,
        }
    }
}

#[via_fn]
proof fn parse_targets_text_decreases(s: Seq<char>) {
    lemma_nl_run_bounded(s);
    lemma_target_block_shrinks(s.skip(nl_run(s)));
}

/// A whole configuration file as written: the package directory line, then
/// the targets.
pub open spec fn ser_config_text(package_dir: Seq<char>, ts: TargetsModel) -> Seq<char> {
    ser_str_line(package_dir_label(), package_dir) + ser_targets_text(ts)
}

/// Reads a whole configuration file; leading blank lines are passed over.
pub open spec fn parse_config_text(s: Seq<char>) -> Option<(Seq<char>, TargetsModel)> {
    match parse_str_line(s.skip(nl_run(s)), package_dir_label()) {
        Some(pr) => match parse_targets_text(pr.1) {
            Some(ts) => Some((pr.0, ts)),
            None => None,
        },
        None => None,
    }
}

/// The active-target file as written: its single line.
pub open spec fn ser_active_text(t: Seq<char>) -> Seq<char> {
    ser_str_line(target_label(), t)
}

/// Reads the active-target file, which holds nothing but its single line;
/// blank lines around it are passed over.
pub open spec fn parse_active_text(s: Seq<char>) -> Option<Seq<char>> {
    match parse_str_line(s.skip(nl_run(s)), target_label()) {
        Some(tr) => {
            if nl_run(tr.1) == tr.1.len() {
                Some(tr.0)
            } else {
                None
            }
        },
        None => None,
    }
}

/// Reading a written target block back yields the target, provided its root
/// groups were already canonical.
pub proof fn lemma_target_block_roundtrip(k: Seq<char>, groups: Seq<Seq<char>>, rest: Seq<char>)
    requires
        crate::order::strictly_sorted(groups),
    ensures
        parse_target_block(ser_target_block(k, groups) + rest) == Some(((k, groups), rest)),
{
    let lline = ser_list_line(root_groups_label(), groups);
    let s = ser_target_block(k, groups) + rest;
    assert(s =~= targets_dot() + (ser_key(k) + seq![']', '\n'] + (lline + rest)));
    assert(starts_with(s, targets_dot())) by {
        assert(s.take(targets_dot().len() as int) =~= targets_dot());
    }
    assert(s.skip(targets_dot().len() as int) =~= ser_key(k) + seq![']', '\n'] + (lline + rest));
    lemma_key_close_roundtrip(k, lline + rest);
    lemma_list_line_roundtrip(root_groups_label(), groups, rest);
    lemma_canon_sorted(groups);
}

/// Reading a written configuration back yields the same model.
pub proof fn lemma_config_roundtrip(package_dir: Seq<char>, ts: TargetsModel)
    requires
        sorted_keys(ts),
        forall|i: int| 0 <= i < ts.len() ==> crate::order::strictly_sorted((#[trigger] ts[i]).1),
    ensures
        parse_config_text(ser_config_text(package_dir, ts)) == Some((package_dir, ts)),
{
    let s = ser_config_text(package_dir, ts);
    assert(s[0] == 'p') by {
        assert(ser_str_line(package_dir_label(), package_dir)[0] == package_dir_label()[0]);
    }
    assert(nl_run(s) == 0);
    assert(s.skip(0) =~= s);
    lemma_str_line_roundtrip(package_dir_label(), package_dir, ser_targets_text(ts));
    lemma_targets_roundtrip(ts);
}

/// Reading written targets back yields the same model.
pub proof fn lemma_targets_roundtrip(ts: TargetsModel)
    requires
        sorted_keys(ts),
        forall|i: int| 0 <= i < ts.len() ==> crate::order::strictly_sorted((#[trigger] ts[i]).1),
    ensures
        parse_targets_text(ser_targets_text(ts)) == Some(ts),
    decreases ts.len(),
{
    assert(ser_targets_text(ts).skip(0) =~= ser_targets_text(ts));
    if ts.len() == 0 {
        assert(nl_run(ser_targets_text(ts)) == 0);
    } else {
        let k = ts[0].0;
        let g = ts[0].1;
        let t = ts.drop_first();
        let rest = ser_targets_text(t);
        let s = ser_targets_text(ts);
        assert(s == ser_target_block(k, g) + rest);
        lemma_target_block_roundtrip(k, g, rest);
        assert(s.len() > 0 && s[0] == '[') by {
            assert(ser_target_block(k, g)[0] == '[');
        }
        assert(nl_run(s) == 0);
        assert(sorted_keys(t)) by {
            lemma_sorted_keys_drop_first(ts);
        }
        assert(forall|i: int| 0 <= i < t.len() ==> #[trigger] t[i] == ts[i + 1]);
        lemma_targets_roundtrip(t);
        assert(find_key(t, k) is None) by {
            lemma_find_key_props(t, k);
            lemma_keys_drop_first(ts);
            match find_key(t, k) {
                Some(i) => {
                    assert(keys_of(t)[i] == t[i].0);
                    assert(keys_of(ts)[i + 1] == keys_of(t)[i]);
                    assert(keys_of(ts)[0] == k);
                    assert(crate::order::lex_lt(keys_of(ts)[0], keys_of(ts)[i + 1]));
                    crate::order::lemma_lex_trichotomy(k, t[i].0);
                },
                None => {},
            }
        }
        assert(table_insert(t, k, g) == ts) by {
            if t.len() == 0 {
                assert(table_insert(t, k, g) =~= ts);
            } else {
                lemma_keys_drop_first(ts);
                assert(keys_of(ts)[0] == k && keys_of(ts)[1] == t[0].0);
                assert(crate::order::lex_lt(k, t[0].0));
                crate::order::lemma_lex_trichotomy(t[0].0, k);
                assert(!crate::order::lex_lt(t[0].0, k));
                assert(table_insert(t, k, g) =~= seq![(k, g)] + t);
                assert(seq![(k, g)] + t =~= ts);
            }
        }
    }
}

/// Reading a written active-target file back yields the target.
pub proof fn lemma_active_roundtrip(t: Seq<char>)
    ensures
        parse_active_text(ser_active_text(t)) == Some(t),
{
    let s = ser_active_text(t);
    assert(s[0] == 't') by {
        assert(ser_str_line(target_label(), t)[0] == target_label()[0]);
    }
    assert(nl_run(s) == 0);
    assert(s.skip(0) =~= s);
    lemma_str_line_roundtrip(target_label(), t, Seq::<char>::empty());
    assert(s =~= ser_str_line(target_label(), t) + Seq::<char>::empty());
    assert(nl_run(Seq::<char>::empty()) == 0);
}

/// Relies on `String::push`: appends exactly the one character.
#[verifier::external_body]
pub(crate) fn push_char(s: &mut String, c: char)
    ensures
        final(s)@ == old(s)@.push(c),
{
    s.push(c);
}

/// The character an escape code stands for, in executable form.
fn unesc_x(c: char) -> (r: char)
    ensures
        r == unesc(c),
{
    if c == 'n' {
        '\n'
    } else if c == 'r' {
        '\r'
    } else if c == 't' {
        '\t'
    } else {
        c
    }
}

/// Whether a key character may go unquoted, in executable form.
fn bare_char_x(c: char) -> (r: bool)
    ensures
        r == is_bare_char(c),
{
    let u = c as u32;
    (('a' as u32) <= u && u <= ('z' as u32)) || (('A' as u32) <= u && u <= ('Z' as u32)) || (('0'
        as u32) <= u && u <= ('9' as u32)) || c == '_' || c == '-'
}

/// Appends `v` escaped, as it stands inside quotes.
pub fn write_escaped(out: &mut String, v: &str)
    ensures
        final(out)@ == old(out)@ + escape(v@),
{
    let ghost base = out@;
    let len = v.unicode_len();
    let mut i: usize = 0;
    proof {
        assert(v@.take(0) =~= Seq::<char>::empty());
        assert(base + escape(v@.take(0)) =~= base);
    }
    while i < len
        invariant
            i <= len,
            len == v@.len(),
            out@ == base + escape(v@.take(i as int)),
        decreases len - i,
    {
        let c = v.get_char(i);
        if c == '\\' {
            out.append("\\\\");
            proof {
                reveal_strlit("\\\\");
                assert("\\\\"@ =~= esc_char(c));
            }
        } else if c == '"' {
            out.append("\\\"");
            proof {
                reveal_strlit("\\\"");
                assert("\\\""@ =~= esc_char(c));
            }
        } else if c == '\n' {
            out.append("\\n");
            proof {
                reveal_strlit("\\n");
                assert("\\n"@ =~= esc_char(c));
            }
        } else if c == '\r' {
            out.append("\\r");
            proof {
                reveal_strlit("\\r");
                assert("\\r"@ =~= esc_char(c));
            }
        } else if c == '\t' {
            out.append("\\t");
            proof {
                reveal_strlit("\\t");
                assert("\\t"@ =~= esc_char(c));
            }
        } else {
            push_char(out, c);
            proof {
                assert(out@ =~= base + escape(v@.take(i as int)) + esc_char(c));
            }
        }
        proof {
            lemma_escape_snoc(v@.take(i as int), c);
            assert(v@.take(i as int).push(c) =~= v@.take(i as int + 1));
            assert(out@ =~= base + escape(v@.take(i as int + 1)));
        }
        i = i + 1;
    }
    proof {
        assert(v@.take(len as int) =~= v@);
    }
}

/// Appends `v` quoted and escaped.
pub fn write_quoted(out: &mut String, v: &str)
    ensures
        final(out)@ == old(out)@ + quote(v@),
{
    let ghost base = out@;
    push_char(out, '"');
    proof {
        assert(out@ =~= base + seq!['"']);
    }
    write_escaped(out, v);
    push_char(out, '"');
    proof {
        assert(out@ =~= base + quote(v@));
    }
}

/// Appends `k` as a table key: bare when possible, quoted otherwise.
pub fn write_key(out: &mut String, k: &str)
    ensures
        final(out)@ == old(out)@ + ser_key(k@),
{
    let len = k.unicode_len();
    let mut all: bool = true;
    let mut i: usize = 0;
    while i < len
        invariant
            i <= len,
            len == k@.len(),
            all == (forall|j: int| 0 <= j < i ==> is_bare_char(#[trigger] k@[j])),
        decreases len - i,
    {
        if !bare_char_x(k.get_char(i)) {
            all = false;
        }
        i = i + 1;
    }
    if len > 0 && all {
        assert(is_bare_key(k@));
        out.append(k);
    } else {
        assert(!is_bare_key(k@));
        write_quoted(out, k);
    }
}

/// One more item extends a written list with a separator.
proof fn lemma_ser_items_snoc(s: Seq<Seq<char>>, x: Seq<char>)
    requires
        s.len() > 0,
    ensures
        ser_items(s.push(x)) == ser_items(s) + seq![',', ' '] + quote(x),
    decreases s.len(),
{
    let p = s.push(x);
    if s.len() == 1 {
        assert(p.len() == 2 && p[0] == s[0]);
        assert(p.drop_first() =~= seq![x]);
        assert(ser_items(seq![x]) == quote(x)) by {
            assert(seq![x].len() == 1 && seq![x][0] == x);
        }
        assert(ser_items(p) =~= ser_items(s) + seq![',', ' '] + quote(x));
    } else {
        assert(p[0] == s[0]);
        assert(p.drop_first() =~= s.drop_first().push(x));
        lemma_ser_items_snoc(s.drop_first(), x);
        assert(ser_items(p) =~= ser_items(s) + seq![',', ' '] + quote(x));
    }
}

/// Appends the items of a list, quoted and comma-separated.
pub fn write_items(out: &mut String, ms: &IdSet)
    ensures
        final(out)@ == old(out)@ + ser_items(ms@),
{
    let ghost base = out@;
    let n = ms.len();
    if n == 0 {
        proof {
            assert(base + ser_items(ms@) =~= base);
        }
        return ;
    }
    write_quoted(out, ms.index(0).as_str());
    proof {
        assert(ms@.take(1) =~= seq![ms@[0]]);
        assert(ser_items(ms@.take(1)) == quote(ms@[0])) by {
            assert(ms@.take(1).len() == 1 && ms@.take(1)[0] == ms@[0]);
        }
        assert(out@ =~= base + ser_items(ms@.take(1)));
    }
    let mut i: usize = 1;
    while i < n
        invariant
            1 <= i <= n,
            n == ms@.len(),
            out@ == base + ser_items(ms@.take(i as int)),
        decreases n - i,
    {
        out.append(", ");
        write_quoted(out, ms.index(i).as_str());
        proof {
            reveal_strlit(", ");
            assert(", "@ =~= seq![',', ' ']);
            lemma_ser_items_snoc(ms@.take(i as int), ms@[i as int]);
            assert(ms@.take(i as int).push(ms@[i as int]) =~= ms@.take(i as int + 1));
            assert(out@ =~= base + ser_items(ms@.take(i as int + 1)));
        }
        i = i + 1;
    }
    proof {
        assert(ms@.take(n as int) =~= ms@);
    }
}

/// Appends a whole `label = [items]` line.
pub fn write_list_line(out: &mut String, label: &str, ms: &IdSet)
    ensures
        final(out)@ == old(out)@ + ser_list_line(label@, ms@),
{
    let ghost base = out@;
    out.append(label);
    out.append(" = [");
    write_items(out, ms);
    out.append("]\n");
    proof {
        reveal_strlit(" = [");
        reveal_strlit("]\n");
        assert(" = ["@ =~= seq![' ', '=', ' ', '[']);
        assert("]\n"@ =~= seq![']', '\n']);
        if ms@.len() == 0 {
            assert(ser_items(ms@).len() == 0);
            assert(out@ =~= base + ser_list_line(label@, ms@));
        } else {
            assert(out@ =~= base + ser_list_line(label@, ms@));
        }
    }
}

/// Appends a whole `label = "value"` line.
pub fn write_str_line(out: &mut String, label: &str, v: &str)
    ensures
        final(out)@ == old(out)@ + ser_str_line(label@, v@),
{
    let ghost base = out@;
    out.append(label);
    out.append(" = ");
    write_quoted(out, v);
    push_char(out, '\n');
    proof {
        reveal_strlit(" = ");
        assert(" = "@ =~= seq![' ', '=', ' ']);
        assert(out@ =~= base + ser_str_line(label@, v@));
    }
}

/// Appends a whole `label = true` or `label = false` line.
pub fn write_bool_line(out: &mut String, label: &str, b: bool)
    ensures
        final(out)@ == old(out)@ + ser_bool_line(label@, b),
{
    let ghost base = out@;
    out.append(label);
    if b {
        out.append(" = true\n");
        proof {
            reveal_strlit(" = true\n");
            assert(" = true\n"@ =~= seq![' ', '=', ' ', 't', 'r', 'u', 'e', '\n']);
            assert(out@ =~= base + ser_bool_line(label@, b));
        }
    } else {
        out.append(" = false\n");
        proof {
            reveal_strlit(" = false\n");
            assert(" = false\n"@ =~= seq![' ', '=', ' ', 'f', 'a', 'l', 's', 'e', '\n']);
            assert(out@ =~= base + ser_bool_line(label@, b));
        }
    }
}

/// Appends one group's block: header, members, flag.
pub fn write_group_block(out: &mut String, k: &str, g: &PackageGroup)
    ensures
        final(out)@ == old(out)@ + ser_group_block(k@, g@),
{
    let ghost base = out@;
    push_char(out, '[');
    write_key(out, k);
    out.append("]\n");
    write_list_line(out, "members", &g.members);
    write_bool_line(out, "accept_indirect", g.accept_indirect);
    proof {
        reveal_strlit("]\n");
        reveal_strlit("members");
        reveal_strlit("accept_indirect");
        assert("]\n"@ =~= seq![']', '\n']);
        assert("members"@ =~= members_label());
        assert("accept_indirect"@ =~= accept_label());
        assert(out@ =~= base + ser_group_block(k@, g@));
    }
}

/// A package file's canonical text: every group, in key order.  Writing this
/// text is the persistence step; it parses back to the same model.
pub fn serialize_package_file(f: &PackageFile) -> (r: String)
    ensures
        r@ == ser_file_text(f@),
{
    let ghost fm = f@;
    let mut out = String::new();
    let mut i: usize = 0;
    let n = f.groups.len();
    proof {
        assert(fm.skip(0) =~= fm);
        assert(out@ + ser_file_text(fm) =~= ser_file_text(fm));
    }
    while i < n
        invariant
            i <= n,
            n == fm.len(),
            f@ == fm,
            out@ + ser_file_text(fm.skip(i as int)) == ser_file_text(fm),
        decreases n - i,
    {
        proof {
            assert(fm.skip(i as int)[0] == fm[i as int]);
            assert(fm.skip(i as int).drop_first() =~= fm.skip(i as int + 1));
        }
        let ghost before = out@;
        write_group_block(&mut out, f.groups.key_at(i).as_str(), f.groups.val_at(i));
        proof {
            assert(before + (ser_group_block(fm[i as int].0, fm[i as int].1) + ser_file_text(
                fm.skip(i as int + 1),
            )) =~= (before + ser_group_block(fm[i as int].0, fm[i as int].1)) + ser_file_text(
                fm.skip(i as int + 1),
            ));
        }
        i = i + 1;
    }
    proof {
        assert(fm.skip(n as int).len() == 0);
        assert(out@ + ser_file_text(fm.skip(n as int)) =~= out@);
    }
    out
}

/// Whether `p` stands written at position `pos` of `s`.
pub fn starts_at(s: &str, pos: usize, p: &str) -> (r: bool)
    requires
        pos <= s@.len(),
    ensures
        r == starts_with(s@.skip(pos as int), p@),
{
    let slen = s.unicode_len();
    let plen = p.unicode_len();
    if slen - pos < plen {
        assert(s@.skip(pos as int).len() < p@.len());
        return false;
    }
    let mut j: usize = 0;
    while j < plen
        invariant
            j <= plen,
            plen == p@.len(),
            slen == s@.len(),
            pos + plen <= slen,
            forall|k: int| 0 <= k < j ==> s@[pos + k] == p@[k],
        decreases plen - j,
    {
        if s.get_char(pos + j) != p.get_char(j) {
            assert(!starts_with(s@.skip(pos as int), p@)) by {
                if starts_with(s@.skip(pos as int), p@) {
                    assert(s@.skip(pos as int).take(p@.len() as int)[j as int] == p@[j as int]);
                    assert(s@.skip(pos as int).take(p@.len() as int)[j as int] == s@[pos + j]);
                }
            }
            return false;
        }
        j = j + 1;
    }
    assert(s@.skip(pos as int).take(p@.len() as int) =~= p@);
    true
}

/// Reads a line's end at `pos`: a line feed, or the end of the text.
fn line_break_at(s: &str, pos: usize) -> (r: Option<usize>)
    requires
        pos <= s@.len(),
    ensures
        match r {
            Some(np) => pos <= np <= s@.len() && line_break(s@.skip(pos as int)) == Some(
                s@.skip(np as int),
            ),
            None => line_break(s@.skip(pos as int)) is None,
        },
{
    let len = s.unicode_len();
    if pos == len {
        proof {
            assert(s@.skip(pos as int).len() == 0);
        }
        Some(pos)
    } else if s.get_char(pos) == '\n' {
        proof {
            assert(s@.skip(pos as int)[0] == s@[pos as int]);
            assert(s@.skip(pos as int).skip(1) =~= s@.skip(pos as int + 1));
        }
        Some(pos + 1)
    } else {
        proof {
            assert(s@.skip(pos as int)[0] == s@[pos as int]);
        }
        None
    }
}

/// Reads a close at `pos`: `]`, then a line's end.
fn close_line_at(s: &str, pos: usize) -> (r: Option<usize>)
    requires
        pos <= s@.len(),
    ensures
        match r {
            Some(np) => pos < np <= s@.len() && close_line(s@.skip(pos as int)) == Some(
                s@.skip(np as int),
            ),
            None => close_line(s@.skip(pos as int)) is None,
        },
{
    let len = s.unicode_len();
    if pos < len && s.get_char(pos) == ']' {
        proof {
            assert(s@.skip(pos as int)[0] == s@[pos as int]);
            assert(s@.skip(pos as int).skip(1) =~= s@.skip(pos as int + 1));
        }
        line_break_at(s, pos + 1)
    } else {
        proof {
            if pos < len {
                assert(s@.skip(pos as int)[0] == s@[pos as int]);
            } else {
                assert(s@.skip(pos as int).len() == 0);
            }
        }
        None
    }
}

/// Finds where the run of blank lines starting at `pos` ends.
pub(crate) fn nl_end(s: &str, pos: usize) -> (r: usize)
    requires
        pos <= s@.len(),
    ensures
        pos <= r <= s@.len(),
        r - pos == nl_run(s@.skip(pos as int)),
    decreases s@.len() - pos,
{
    let len = s.unicode_len();
    if pos == len {
        assert(s@.skip(pos as int).len() == 0);
        return pos;
    }
    let c = s.get_char(pos);
    proof {
        assert(s@.skip(pos as int)[0] == s@[pos as int]);
    }
    if c == '\n' {
        proof {
            assert(s@.skip(pos as int).drop_first() =~= s@.skip(pos as int + 1));
        }
        nl_end(s, pos + 1)
    } else {
        pos
    }
}

/// Reads a quoted string's inside from position `pos`, the opening quote
/// already consumed.
fn parse_qinner_at(s: &str, pos: usize) -> (r: Option<(String, usize)>)
    requires
        pos <= s@.len(),
    ensures
        match r {
            Some(vp) => pos < vp.1 <= s@.len() && parse_qinner(s@.skip(pos as int)) == Some(
                (vp.0@, s@.skip(vp.1 as int)),
            ),
            None => parse_qinner(s@.skip(pos as int)) is None,
        },
    decreases s@.len() - pos,
{
    let len = s.unicode_len();
    if pos == len {
        assert(s@.skip(pos as int).len() == 0);
        return None;
    }
    let c = s.get_char(pos);
    proof {
        assert(s@.skip(pos as int)[0] == s@[pos as int]);
    }
    if c == '"' {
        proof {
            assert(s@.skip(pos as int).drop_first() =~= s@.skip(pos as int + 1));
        }
        return Some((String::new(), pos + 1));
    }
    if c == '\\' {
        if pos + 1 == len {
            assert(s@.skip(pos as int).len() == 1);
            return None;
        }
        let c2 = s.get_char(pos + 1);
        proof {
            assert(s@.skip(pos as int)[1] == s@[pos as int + 1]);
            assert(s@.skip(pos as int).len() >= 2);
        }
        if !(c2 == '\\' || c2 == '"' || c2 == 'n' || c2 == 'r' || c2 == 't') {
            return None;
        }
        proof {
            assert(s@.skip(pos as int).skip(2) =~= s@.skip(pos as int + 2));
        }
        match parse_qinner_at(s, pos + 2) {
            Some((v, np)) => {
                let mut out = String::new();
                push_char(&mut out, unesc_x(c2));
                out.append(v.as_str());
                proof {
                    assert(out@ =~= seq![unesc(s@.skip(pos as int)[1])] + v@);
                }
                Some((out, np))
            },
            None => None,
        }
    } else if c == '\n' {
        None
    } else {
        proof {
            assert(s@.skip(pos as int).drop_first() =~= s@.skip(pos as int + 1));
        }
        match parse_qinner_at(s, pos + 1) {
            Some((v, np)) => {
                let mut out = String::new();
                push_char(&mut out, c);
                out.append(v.as_str());
                proof {
                    assert(out@ =~= seq![s@.skip(pos as int)[0]] + v@);
                }
                Some((out, np))
            },
            None => None,
        }
    }
}

/// Finds where the bare run starting at `pos` ends.
fn parse_bare_end(s: &str, pos: usize) -> (r: usize)
    requires
        pos <= s@.len(),
    ensures
        pos <= r <= s@.len(),
        parse_bare_run(s@.skip(pos as int)).0 == s@.subrange(pos as int, r as int),
        parse_bare_run(s@.skip(pos as int)).1 == s@.skip(r as int),
    decreases s@.len() - pos,
{
    let len = s.unicode_len();
    if pos == len {
        assert(s@.skip(pos as int).len() == 0);
        assert(s@.subrange(pos as int, pos as int) =~= Seq::<char>::empty());
        return pos;
    }
    let c = s.get_char(pos);
    proof {
        assert(s@.skip(pos as int)[0] == s@[pos as int]);
    }
    if bare_char_x(c) {
        let r = parse_bare_end(s, pos + 1);
        proof {
            assert(s@.skip(pos as int).drop_first() =~= s@.skip(pos as int + 1));
            assert(s@.subrange(pos as int, r as int) =~= seq![s@[pos as int]] + s@.subrange(
                pos as int + 1,
                r as int,
            ));
        }
        r
    } else {
        proof {
            assert(s@.subrange(pos as int, pos as int) =~= Seq::<char>::empty());
        }
        pos
    }
}

/// Reads a key, `]` and a line break from position `pos`.
pub fn parse_key_close_at(s: &str, pos: usize) -> (r: Option<(String, usize)>)
    requires
        pos <= s@.len(),
    ensures
        match r {
            Some(kp) => pos < kp.1 <= s@.len() && parse_key_close(s@.skip(pos as int)) == Some(
                (kp.0@, s@.skip(kp.1 as int)),
            ),
            None => parse_key_close(s@.skip(pos as int)) is None,
        },
{
    let len = s.unicode_len();
    let ghost t = s@.skip(pos as int);
    if pos < len && s.get_char(pos) == '"' {
        proof {
            assert(t[0] == s@[pos as int]);
            assert(t.drop_first() =~= s@.skip(pos as int + 1));
        }
        match parse_qinner_at(s, pos + 1) {
            Some((k, np)) => {
                match close_line_at(s, np) {
                    Some(e) => Some((k, e)),
                    None => None,
                }
            },
            None => None,
        }
    } else {
        proof {
            if pos < len {
                assert(t[0] == s@[pos as int]);
            }
        }
        let e = parse_bare_end(s, pos);
        proof {
            assert(parse_bare_run(t).0.len() == e - pos);
        }
        if e > pos {
            match close_line_at(s, e) {
                Some(e2) => {
                    let k = s.substring_char(pos, e).to_owned();
                    proof {
                        assert(k@ =~= s@.subrange(pos as int, e as int));
                    }
                    Some((k, e2))
                },
                None => None,
            }
        } else {
            None
        }
    }
}

/// Reads a `[key]` header line from position `pos`.
fn parse_header_at(s: &str, pos: usize) -> (r: Option<(String, usize)>)
    requires
        pos <= s@.len(),
    ensures
        match r {
            Some(kp) => pos < kp.1 <= s@.len() && parse_header(s@.skip(pos as int)) == Some(
                (kp.0@, s@.skip(kp.1 as int)),
            ),
            None => parse_header(s@.skip(pos as int)) is None,
        },
{
    let len = s.unicode_len();
    if pos < len && s.get_char(pos) == '[' {
        proof {
            assert(s@.skip(pos as int)[0] == s@[pos as int]);
            assert(s@.skip(pos as int).drop_first() =~= s@.skip(pos as int + 1));
        }
        parse_key_close_at(s, pos + 1)
    } else {
        proof {
            if pos < len {
                assert(s@.skip(pos as int)[0] == s@[pos as int]);
            } else {
                assert(s@.skip(pos as int).len() == 0);
            }
        }
        None
    }
}

/// Reads the items of a nonempty list from position `pos`, in written order.
fn parse_items_at(s: &str, pos: usize) -> (r: Option<(Vec<String>, usize)>)
    requires
        pos <= s@.len(),
    ensures
        match r {
            Some(vp) => pos < vp.1 <= s@.len() && parse_items_ne(s@.skip(pos as int)) == Some(
                (vp.0.deep_view(), s@.skip(vp.1 as int)),
            ),
            None => parse_items_ne(s@.skip(pos as int)) is None,
        },
    decreases s@.len() - pos,
{
    let len = s.unicode_len();
    if pos == len {
        assert(s@.skip(pos as int).len() == 0);
        return None;
    }
    let c = s.get_char(pos);
    proof {
        assert(s@.skip(pos as int)[0] == s@[pos as int]);
    }
    if c != '"' {
        return None;
    }
    proof {
        assert(s@.skip(pos as int).drop_first() =~= s@.skip(pos as int + 1));
    }
    match parse_qinner_at(s, pos + 1) {
        Some((v, np)) => {
            proof {
                if s@.skip(np as int).len() >= 1 {
                    assert(s@.skip(np as int)[0] == s@[np as int]);
                }
                if s@.skip(np as int).len() >= 2 {
                    assert(s@.skip(np as int)[1] == s@[np as int + 1]);
                }
            }
            if np < len && s.get_char(np) == ']' {
                match close_line_at(s, np) {
                    Some(e) => {
                        let mut items: Vec<String> = Vec::new();
                        items.push(v);
                        proof {
                            assert(items.deep_view() =~= seq![items[0]@]);
                        }
                        Some((items, e))
                    },
                    None => None,
                }
            } else if len - np >= 2 && s.get_char(np) == ',' && s.get_char(np + 1) == ' ' {
                proof {
                    assert(s@.skip(np as int).skip(2) =~= s@.skip(np as int + 2));
                }
                match parse_items_at(s, np + 2) {
                    Some((mut vs, e)) => {
                        let ghost tailview = vs.deep_view();
                        vs.insert(0, v);
                        proof {
                            assert(vs.deep_view() =~= seq![v@] + tailview);
                        }
                        Some((vs, e))
                    },
                    None => None,
                }
            } else {
                None
            }
        },
        None => None,
    }
}

/// Reads a `label = [items]` line from position `pos`.
pub fn parse_list_line_at(s: &str, pos: usize, label: &str) -> (r: Option<(Vec<String>, usize)>)
    requires
        pos <= s@.len(),
    ensures
        match r {
            Some(vp) => pos < vp.1 <= s@.len() && parse_list_line(s@.skip(pos as int), label@)
                == Some((vp.0.deep_view(), s@.skip(vp.1 as int))),
            None => parse_list_line(s@.skip(pos as int), label@) is None,
        },
{
    let len = s.unicode_len();
    let llen = label.unicode_len();
    let mut prefix = label.to_owned();
    prefix.append(" = [");
    proof {
        reveal_strlit(" = [");
        assert(" = ["@ =~= seq![' ', '=', ' ', '[']);
        assert(prefix@ == label@ + seq![' ', '=', ' ', '[']);
    }
    if !starts_at(s, pos, prefix.as_str()) {
        return None;
    }
    proof {
        assert(s@.skip(pos as int).len() >= prefix@.len());
        assert(s@.skip(pos as int).len() == s@.len() - pos);
        assert(pos + llen + 4 <= len);
    }
    let p2 = pos + llen + 4;
    proof {
        assert(s@.skip(pos as int).skip(label@.len() as int + 4) =~= s@.skip(p2 as int));
    }
    proof {
        if s@.skip(p2 as int).len() >= 1 {
            assert(s@.skip(p2 as int)[0] == s@[p2 as int]);
        }
    }
    if p2 < len && s.get_char(p2) == ']' {
        match close_line_at(s, p2) {
            Some(e) => {
                let items: Vec<String> = Vec::new();
                proof {
                    assert(items.deep_view() =~= Seq::<Seq<char>>::empty());
                }
                Some((items, e))
            },
            None => None,
        }
    } else {
        parse_items_at(s, p2)
    }
}

/// Reads a `label = "value"` line from position `pos`.
pub fn parse_str_line_at(s: &str, pos: usize, label: &str) -> (r: Option<(String, usize)>)
    requires
        pos <= s@.len(),
    ensures
        match r {
            Some(vp) => pos < vp.1 <= s@.len() && parse_str_line(s@.skip(pos as int), label@)
                == Some((vp.0@, s@.skip(vp.1 as int))),
            None => parse_str_line(s@.skip(pos as int), label@) is None,
        },
{
    let len = s.unicode_len();
    let llen = label.unicode_len();
    let mut prefix = label.to_owned();
    prefix.append(" = \"");
    proof {
        reveal_strlit(" = \"");
        assert(" = \""@ =~= seq![' ', '=', ' ', '"']);
        assert(prefix@ == label@ + seq![' ', '=', ' ', '"']);
    }
    if !starts_at(s, pos, prefix.as_str()) {
        return None;
    }
    proof {
        assert(s@.skip(pos as int).len() >= prefix@.len());
        assert(s@.skip(pos as int).len() == s@.len() - pos);
        assert(pos + llen + 4 <= len);
    }
    let p2 = pos + llen + 4;
    proof {
        assert(s@.skip(pos as int).skip(label@.len() as int + 4) =~= s@.skip(p2 as int));
    }
    match parse_qinner_at(s, p2) {
        Some((v, np)) => {
            match line_break_at(s, np) {
                Some(e) => Some((v, e)),
                None => None,
            }
        },
        None => None,
    }
}

/// Reads a `label = true` or `label = false` line from position `pos`.
pub fn parse_bool_line_at(s: &str, pos: usize, label: &str) -> (r: Option<(bool, usize)>)
    requires
        pos <= s@.len(),
    ensures
        match r {
            Some(vp) => pos < vp.1 <= s@.len() && parse_bool_line(s@.skip(pos as int), label@)
                == Some((vp.0, s@.skip(vp.1 as int))),
            None => parse_bool_line(s@.skip(pos as int), label@) is None,
        },
{
    let len = s.unicode_len();
    let llen = label.unicode_len();
    let mut ptrue = label.to_owned();
    ptrue.append(" = true");
    let mut pfalse = label.to_owned();
    pfalse.append(" = false");
    proof {
        reveal_strlit(" = true");
        reveal_strlit(" = false");
        assert(" = true"@ =~= seq![' ', '=', ' ', 't', 'r', 'u', 'e']);
        assert(" = false"@ =~= seq![' ', '=', ' ', 'f', 'a', 'l', 's', 'e']);
        assert(ptrue@ == label@ + seq![' ', '=', ' ', 't', 'r', 'u', 'e']);
        assert(pfalse@ == label@ + seq![' ', '=', ' ', 'f', 'a', 'l', 's', 'e']);
    }
    if starts_at(s, pos, ptrue.as_str()) {
        proof {
            assert(s@.skip(pos as int).len() >= ptrue@.len());
            assert(s@.skip(pos as int).len() == s@.len() - pos);
            assert(pos + llen + 7 <= s@.len());
        }
        let np = pos + llen + 7;
        proof {
            assert(s@.skip(pos as int).skip(label@.len() as int + 7) =~= s@.skip(np as int));
        }
        match line_break_at(s, np) {
            Some(e) => Some((true, e)),
            None => None,
        }
    } else if starts_at(s, pos, pfalse.as_str()) {
        proof {
            assert(s@.skip(pos as int).len() >= pfalse@.len());
            assert(s@.skip(pos as int).len() == s@.len() - pos);
            assert(pos + llen + 8 <= s@.len());
        }
        let np = pos + llen + 8;
        proof {
            assert(s@.skip(pos as int).skip(label@.len() as int + 8) =~= s@.skip(np as int));
        }
        match line_break_at(s, np) {
            Some(e) => Some((false, e)),
            None => None,
        }
    } else {
        None
    }
}

/// Reads one group block from position `pos`.
fn parse_group_block_at(s: &str, pos: usize) -> (r: Option<((String, PackageGroup), usize)>)
    requires
        pos <= s@.len(),
    ensures
        match r {
            Some(kgp) => pos < kgp.1 <= s@.len() && kgp.0.1.wf() && parse_group_block(
                s@.skip(pos as int),
            ) == Some(((kgp.0.0@, kgp.0.1@), s@.skip(kgp.1 as int))),
            None => parse_group_block(s@.skip(pos as int)) is None,
        },
{
    match parse_header_at(s, pos) {
        Some((k, p1)) => {
            proof {
                reveal_strlit("members");
                assert("members"@ =~= members_label());
            }
            match parse_list_line_at(s, p1, "members") {
                Some((raw, p2)) => {
                    proof {
                        reveal_strlit("accept_indirect");
                        assert("accept_indirect"@ =~= accept_label());
                    }
                    match parse_bool_line_at(s, p2, "accept_indirect") {
                        Some((b, p3)) => {
                            let members = IdSet::from_vec(&raw);
                            let g = PackageGroup { members, accept_indirect: b };
                            Some(((k, g), p3))
                        },
                        None => {
                            let members = IdSet::from_vec(&raw);
                            let g = PackageGroup { members, accept_indirect: false };
                            Some(((k, g), p2))
                        },
                    }
                },
                None => None,
            }
        },
        None => None,
    }
}

/// Decodes a whole group file, starting at `pos`, into its groups.
fn parse_file_at(s: &str, pos: usize) -> (r: Result<Table<PackageGroup>, Error>)
    requires
        pos <= s@.len(),
    ensures
        match r {
            Ok(t) => parse_file_text(s@.skip(pos as int)) == Some(t@) && file_model_wf(t@),
            Err(e) => parse_file_text(s@.skip(pos as int)) is None && e
                == Error::DeserializeFailure,
        },
    decreases s@.len() - pos,
{
    let len = s.unicode_len();
    let p = nl_end(s, pos);
    proof {
        assert(s@.skip(pos as int).skip(nl_run(s@.skip(pos as int))) =~= s@.skip(p as int));
    }
    if p == len {
        assert(s@.skip(p as int).len() == 0);
        let t = Table::<PackageGroup>::new();
        proof {
            assert(crate::table::keys_of(t@) =~= Seq::<Seq<char>>::empty());
        }
        return Ok(t);
    }
    match parse_group_block_at(s, p) {
        Some(((k, g), np)) => {
            match parse_file_at(s, np) {
                Ok(mut t) => {
                    let ghost tm = t@;
                    let ghost gm = g@;
                    match t.find(k.as_str()) {
                        Some(_) => Err(Error::DeserializeFailure),
                        None => {
                            t.insert_new(k, g);
                            proof {
                                crate::table::lemma_table_insert_props(tm, k@, gm);
                                lemma_table_insert_members(tm, k@, gm);
                                assert(file_model_wf(t@));
                            }
                            Ok(t)
                        },
                    }
                },
                Err(e) => Err(e),
            }
        },
        None => Err(Error::DeserializeFailure),
    }
}

/// Decodes a whole group file's text.  Fails exactly where the text is not
/// this codec's canonical form, or where one file defines a group id twice.
pub fn parse_package_file(s: &str) -> (r: Result<PackageFile, Error>)
    ensures
        match r {
            Ok(f) => parse_file_text(s@) == Some(f@) && f.wf(),
            Err(e) => parse_file_text(s@) is None && e == Error::DeserializeFailure,
        },
{
    proof {
        assert(s@.skip(0) =~= s@);
    }
    match parse_file_at(s, 0) {
        Ok(t) => Ok(PackageFile::from_groups(t)),
        Err(e) => Err(e),
    }
}

/// Whatever parses, parses well-formed: group ids ascending within the
/// file, members canonical.
pub proof fn lemma_parse_file_wf(s: Seq<char>)
    ensures
        match parse_file_text(s) {
            Some(m) => crate::store::file_model_wf(m),
            None => true,
        },
    decreases s.len(),
{
    let t0 = s.skip(nl_run(s));
    lemma_nl_run_bounded(s);
    if t0.len() == 0 {
        assert(keys_of(Seq::<(Seq<char>, GroupModel)>::empty()) =~= Seq::<Seq<char>>::empty());
    } else {
        match parse_group_block(t0) {
            Some(kgr) => {
                let k = kgr.0.0;
                let g = kgr.0.1;
                let r = kgr.1;
                lemma_block_shrinks(t0);
                lemma_parse_file_wf(r);
                // the block's members are canonical by construction
                assert(crate::order::strictly_sorted(g.members)) by {
                    match parse_header(t0) {
                        Some(kr) => {
                            match parse_list_line(kr.1, members_label()) {
                                Some(mr) => {
                                    assert(crate::order::strictly_sorted(
                                        Seq::<Seq<char>>::empty(),
                                    ));
                                    crate::idset::lemma_sorted_union_props(
                                        Seq::<Seq<char>>::empty(),
                                        mr.0,
                                    );
                                },
                                None => {},
                            }
                        },
                        None => {},
                    }
                }
                match parse_file_text(r) {
                    Some(rest) => {
                        if find_key(rest, k) is None {
                            lemma_find_key_props(rest, k);
                            crate::table::lemma_table_insert_props(rest, k, g);
                            lemma_table_insert_members(rest, k, g);
                        }
                    },
                    None => {},
                }
            },
            None => {},
        }
    }
}

/// Persistence is stable: a package file parsed and re-serialized without
/// mutation parses back to the very same model, so every further write
/// produces the same bytes.
pub proof fn lemma_persistence_stable(s: Seq<char>)
    requires
        parse_file_text(s) is Some,
    ensures
        ({
            let m = parse_file_text(s).unwrap();
            parse_file_text(ser_file_text(m)) == Some(m)
        }),
{
    lemma_parse_file_wf(s);
    lemma_file_roundtrip(parse_file_text(s).unwrap());
}

} // verus!
