//! Reading the package manager's reports: the installed-package listing and
//! the `Required By` attribute of its per-package information, the basis of
//! the plan's safe-to-remove filter.
//!
//! A package information report holds one chunk per package, chunks opening
//! with `Name`; inside a chunk, the dependants stand after `Required By`,
//! whitespace and a colon, as a space-separated run of package-name
//! characters, or the word `None` for no dependants at all.
use vstd::prelude::*;
use vstd::string::{StrSliceExecFns, StringExecFns};
use crate::codec::{starts_at, starts_with};
use crate::error::Error;
use crate::idset::{IdSet, sorted_union};
use crate::lines::{split_nl, split_lines};
use crate::order::str_eq;

verus! {

/// A character a package name may use in the report.
pub open spec fn is_pkg_char(c: char) -> bool {
    ('a' <= c && c <= 'z') || ('0' <= c && c <= '9') || c == '@' || c == '.' || c == '_' || c
        == '+' || c == '-'
}

/// The whitespace the report may put between the label and the colon.
pub open spec fn is_space(c: char) -> bool {
    c == ' ' || c == '\t' || c == '\n' || c == '\r'
}

/// The label that opens the dependants attribute.
pub open spec fn required_label() -> Seq<char> {
    seq!['R', 'e', 'q', 'u', 'i', 'r', 'e', 'd', ' ', 'B', 'y']
}

/// The sentinel standing for an empty dependants list.
pub open spec fn none_label() -> Seq<char> {
    seq!['N', 'o', 'n', 'e']
}

/// The label that opens each package's chunk of the report.
pub open spec fn name_label() -> Seq<char> {
    seq!['N', 'a', 'm', 'e']
}

/// The length of the leading whitespace run.
pub open spec fn ws_run(s: Seq<char>) -> int
    decreases s.len(),
{
    if s.len() > 0 && is_space(s[0]) {
        1 + ws_run(s.drop_first())
    } else {
        0
    }
}

/// The length of the leading run of package-name characters and blanks.
pub open spec fn pkgsp_run(s: Seq<char>) -> int
    decreases s.len(),
{
    if s.len() > 0 && (is_pkg_char(s[0]) || s[0] == ' ') {
        1 + pkgsp_run(s.drop_first())
    } else {
        0
    }
}

/// The length of the leading run of non-blank characters.
pub open spec fn nonsp_run(s: Seq<char>) -> int
    decreases s.len(),
{
    if s.len() > 0 && s[0] != ' ' {
        1 + nonsp_run(s.drop_first())
    } else {
        0
    }
}

/// A leading run never reaches past the end.
pub proof fn lemma_runs_bounded(s: Seq<char>)
    ensures
        0 <= ws_run(s) <= s.len(),
        0 <= pkgsp_run(s) <= s.len(),
        0 <= nonsp_run(s) <= s.len(),
    decreases s.len(),
{
    if s.len() > 0 {
        lemma_runs_bounded(s.drop_first());
    }
}

/// The dependants text captured when the attribute starts exactly here: the
/// label, whitespace, a colon and a blank, then either a run opening with a
/// package-name character, or the sentinel.
pub open spec fn cap_here(s: Seq<char>) -> Option<Seq<char>> {
    if !starts_with(s, required_label()) {
        None
    } else {
        let t = s.skip(11);
        let w = ws_run(t);
        if w == 0 {
            None
        } else {
            let u = t.skip(w);
            if u.len() >= 2 && u[0] == ':' && u[1] == ' ' {
                let body = u.skip(2);
                if body.len() > 0 && is_pkg_char(body[0]) {
                    Some(body.take(pkgsp_run(body)))
                } else if starts_with(body, none_label()) {
                    Some(none_label())
                } else {
                    None
                }
            } else {
                None
            }
        }
    }
}

/// The first place the attribute matches, scanning left to right.
pub open spec fn find_capture(s: Seq<char>) -> Option<Seq<char>>
    decreases s.len(),
{
    if s.len() == 0 {
        None
    } else {
        match cap_here(s) {
            Some(c) => Some(c),
            None => find_capture(s.drop_first()),
        }
    }
}

/// The blank-separated tokens of a captured run.
pub open spec fn split_sp(s: Seq<char>) -> Seq<Seq<char>>
    decreases s.len(),
    via split_sp_decreases
{
    if s.len() == 0 {
        Seq::empty()
    } else if s[0] == ' ' {
        split_sp(s.drop_first())
    } else {
        seq![s.take(nonsp_run(s))] + split_sp(s.skip(nonsp_run(s)))
    }
}

#[via_fn]
proof fn split_sp_decreases(s: Seq<char>) {
    lemma_runs_bounded(s);
    if s.len() > 0 && s[0] != ' ' {
        lemma_runs_bounded(s.drop_first());
        assert(nonsp_run(s) >= 1);
    }
}

/// The dependants of one package chunk: the captured tokens, the sentinel
/// collapsing to no dependants at all.
pub open spec fn required_by_of(s: Seq<char>) -> Option<Seq<Seq<char>>> {
    match find_capture(s) {
        None => None,
        Some(cap) => {
            let toks = split_sp(cap);
            if toks.len() > 0 && toks[0] == none_label() {
                Some(Seq::empty())
            } else {
                Some(toks)
            }
        },
    }
}

/// The first place a chunk label starts, scanning left to right.
pub open spec fn name_pos(s: Seq<char>) -> Option<int>
    decreases s.len(),
{
    if starts_with(s, name_label()) {
        Some(0)
    } else if s.len() == 0 {
        None
    } else {
        match name_pos(s.drop_first()) {
            Some(k) => Some(k + 1),
            None => None,
        }
    }
}

/// Where a chunk label lies, it lies whole.
pub proof fn lemma_name_pos(s: Seq<char>)
    ensures
        match name_pos(s) {
            Some(k) => 0 <= k && k + 4 <= s.len(),
            None => true,
        },
    decreases s.len(),
{
    if starts_with(s, name_label()) {
    } else if s.len() == 0 {
    } else {
        lemma_name_pos(s.drop_first());
    }
}

/// The dependants of every chunk of the text after a chunk label, chunk by
/// chunk; one chunk without the attribute spoils the whole report.
pub open spec fn many_req_after(s: Seq<char>) -> Option<Seq<Seq<Seq<char>>>>
    decreases s.len(),
    via many_req_after_decreases
{
    match name_pos(s) {
        None => match required_by_of(s) {
            Some(t) => Some(seq![t]),
            None => None,
        },
        Some(k) => match required_by_of(s.take(k)) {
            Some(t) => match many_req_after(s.skip(k + 4)) {
                Some(ts) => Some(seq![t] + ts),
                None => None,
            },
            None => None,
        },
    }
}

#[via_fn]
proof fn many_req_after_decreases(s: Seq<char>) {
    lemma_name_pos(s);
}

/// The dependants of every package chunk of a whole report.  The text before
/// the first chunk label is no chunk; a report without any label reports on
/// nothing.
pub open spec fn many_required_by(s: Seq<char>) -> Option<Seq<Seq<Seq<char>>>> {
    match name_pos(s) {
        None => Some(Seq::empty()),
        Some(k) => many_req_after(s.skip(k + 4)),
    }
}

/// Whether a character may stand in a package name, in executable form.
fn pkg_char_x(c: char) -> (r: bool)
    ensures
        r == is_pkg_char(c),
{
    let u = c as u32;
    (('a' as u32) <= u && u <= ('z' as u32)) || (('0' as u32) <= u && u <= ('9' as u32)) || c
        == '@' || c == '.' || c == '_' || c == '+' || c == '-'
}

/// Whether a character is report whitespace, in executable form.
fn space_x(c: char) -> (r: bool)
    ensures
        r == is_space(c),
{
    c == ' ' || c == '\t' || c == '\n' || c == '\r'
}

/// Finds where the whitespace run starting at `pos` ends.
fn ws_end(s: &str, pos: usize) -> (r: usize)
    requires
        pos <= s@.len(),
    ensures
        pos <= r <= s@.len(),
        r - pos == ws_run(s@.skip(pos as int)),
    decreases s@.len() - pos,
{
    let len = s.unicode_len();
    if pos == len {
        assert(s@.skip(pos as int).len() == 0);
        return pos;
    }
    let c = s.get_char(pos);
    proof {
        assert(s@.skip(pos as int)[0] == s@[pos as int]);
    }
    if space_x(c) {
        proof {
            assert(s@.skip(pos as int).drop_first() =~= s@.skip(pos as int + 1));
        }
        ws_end(s, pos + 1)
    } else {
        pos
    }
}

/// Finds where the package-and-blank run starting at `pos` ends.
fn pkgsp_end(s: &str, pos: usize) -> (r: usize)
    requires
        pos <= s@.len(),
    ensures
        pos <= r <= s@.len(),
        r - pos == pkgsp_run(s@.skip(pos as int)),
    decreases s@.len() - pos,
{
    let len = s.unicode_len();
    if pos == len {
        assert(s@.skip(pos as int).len() == 0);
        return pos;
    }
    let c = s.get_char(pos);
    proof {
        assert(s@.skip(pos as int)[0] == s@[pos as int]);
    }
    if pkg_char_x(c) || c == ' ' {
        proof {
            assert(s@.skip(pos as int).drop_first() =~= s@.skip(pos as int + 1));
        }
        pkgsp_end(s, pos + 1)
    } else {
        pos
    }
}

/// Finds where the non-blank run starting at `pos` ends.
fn nonsp_end(s: &str, pos: usize) -> (r: usize)
    requires
        pos <= s@.len(),
    ensures
        pos <= r <= s@.len(),
        r - pos == nonsp_run(s@.skip(pos as int)),
    decreases s@.len() - pos,
{
    let len = s.unicode_len();
    if pos == len {
        assert(s@.skip(pos as int).len() == 0);
        return pos;
    }
    let c = s.get_char(pos);
    proof {
        assert(s@.skip(pos as int)[0] == s@[pos as int]);
    }
    if c != ' ' {
        proof {
            assert(s@.skip(pos as int).drop_first() =~= s@.skip(pos as int + 1));
        }
        nonsp_end(s, pos + 1)
    } else {
        pos
    }
}

/// Tries to read the dependants attribute starting exactly at `pos`.
fn cap_here_at(s: &str, pos: usize) -> (r: Option<String>)
    requires
        pos <= s@.len(),
    ensures
        match r {
            Some(c) => cap_here(s@.skip(pos as int)) == Some(c@),
            None => cap_here(s@.skip(pos as int)) is None,
        },
{
    let len = s.unicode_len();
    proof {
        reveal_strlit("Required By");
        assert("Required By"@ =~= required_label());
    }
    if !starts_at(s, pos, "Required By") {
        return None;
    }
    proof {
        assert(s@.skip(pos as int).len() >= 11);
        assert(s@.skip(pos as int).skip(11) =~= s@.skip(pos as int + 11));
    }
    let wend = ws_end(s, pos + 11);
    if wend == pos + 11 {
        return None;
    }
    proof {
        assert(s@.skip(pos as int + 11).skip(ws_run(s@.skip(pos as int + 11))) =~= s@.skip(
            wend as int,
        ));
    }
    if !(len - wend >= 2 && s.get_char(wend) == ':' && s.get_char(wend + 1) == ' ') {
        proof {
            if s@.skip(wend as int).len() >= 2 {
                assert(s@.skip(wend as int)[0] == s@[wend as int]);
                assert(s@.skip(wend as int)[1] == s@[wend as int + 1]);
            }
        }
        return None;
    }
    proof {
        assert(s@.skip(wend as int)[0] == s@[wend as int]);
        assert(s@.skip(wend as int)[1] == s@[wend as int + 1]);
        assert(s@.skip(wend as int).skip(2) =~= s@.skip(wend as int + 2));
    }
    let body = wend + 2;
    if body < len && pkg_char_x(s.get_char(body)) {
        proof {
            assert(s@.skip(body as int)[0] == s@[body as int]);
        }
        let e = pkgsp_end(s, body);
        let cap = s.substring_char(body, e).to_owned();
        proof {
            assert(cap@ =~= s@.skip(body as int).take(pkgsp_run(s@.skip(body as int))));
        }
        Some(cap)
    } else {
        proof {
            if body < len {
                assert(s@.skip(body as int)[0] == s@[body as int]);
            } else {
                assert(s@.skip(body as int).len() == 0);
            }
            reveal_strlit("None");
            assert("None"@ =~= none_label());
        }
        if starts_at(s, body, "None") {
            Some("None".to_owned())
        } else {
            None
        }
    }
}

/// Scans the whole text for the first dependants attribute.
fn find_capture_at(s: &str) -> (r: Option<String>)
    ensures
        match r {
            Some(c) => find_capture(s@) == Some(c@),
            None => find_capture(s@) is None,
        },
{
    let len = s.unicode_len();
    let mut i: usize = 0;
    proof {
        assert(s@.skip(0) =~= s@);
    }
    while i < len
        invariant
            i <= len,
            len == s@.len(),
            find_capture(s@) == find_capture(s@.skip(i as int)),
        decreases len - i,
    {
        match cap_here_at(s, i) {
            Some(c) => {
                return Some(c);
            },
            None => {},
        }
        proof {
            assert(s@.skip(i as int).drop_first() =~= s@.skip(i as int + 1));
        }
        i = i + 1;
    }
    proof {
        assert(s@.skip(len as int).len() == 0);
    }
    None
}

/// Splits a captured run into its tokens, from position `pos` on.
fn split_tokens_at(s: &str, pos: usize) -> (r: Vec<String>)
    requires
        pos <= s@.len(),
    ensures
        r.deep_view() == split_sp(s@.skip(pos as int)),
    decreases s@.len() - pos,
{
    let len = s.unicode_len();
    if pos == len {
        let r: Vec<String> = Vec::new();
        proof {
            assert(s@.skip(pos as int).len() == 0);
            assert(r.deep_view() =~= Seq::<Seq<char>>::empty());
        }
        return r;
    }
    let c = s.get_char(pos);
    proof {
        assert(s@.skip(pos as int)[0] == s@[pos as int]);
    }
    if c == ' ' {
        proof {
            assert(s@.skip(pos as int).drop_first() =~= s@.skip(pos as int + 1));
        }
        split_tokens_at(s, pos + 1)
    } else {
        let e = nonsp_end(s, pos);
        let tok = s.substring_char(pos, e).to_owned();
        proof {
            assert(s@.skip(pos as int).take(nonsp_run(s@.skip(pos as int))) =~= s@.subrange(
                pos as int,
                e as int,
            ));
            assert(s@.skip(pos as int).skip(nonsp_run(s@.skip(pos as int))) =~= s@.skip(e as int));
            lemma_runs_bounded(s@.skip(pos as int).drop_first());
            assert(nonsp_run(s@.skip(pos as int)) >= 1);
            assert(e > pos);
        }
        let mut r = split_tokens_at(s, e);
        let ghost rest = r.deep_view();
        r.insert(0, tok);
        proof {
            assert(r.deep_view() =~= seq![tok@] + rest);
        }
        r
    }
}

/// The dependants named by one package chunk of the report.  Fails when the
/// chunk carries no recognizable dependants attribute; the sentinel means no
/// dependants, never a dependant by that name.
pub fn parse_required_by(pacman_output: &str) -> (r: Result<Vec<String>, Error>)
    ensures
        match r {
            Ok(v) => required_by_of(pacman_output@) == Some(v.deep_view()),
            Err(e) => required_by_of(pacman_output@) is None && e
                == Error::UnexpectedPacmanOutput,
        },
{
    match find_capture_at(pacman_output) {
        None => Err(Error::UnexpectedPacmanOutput),
        Some(cap) => {
            proof {
                assert(cap@.skip(0) =~= cap@);
            }
            let toks = split_tokens_at(cap.as_str(), 0);
            proof {
                reveal_strlit("None");
                assert("None"@ =~= none_label());
            }
            if toks.len() > 0 && str_eq(toks[0].as_str(), "None") {
                let empty: Vec<String> = Vec::new();
                proof {
                    assert(toks.deep_view()[0] == none_label());
                    assert(empty.deep_view() =~= Seq::<Seq<char>>::empty());
                }
                Ok(empty)
            } else {
                proof {
                    if toks.deep_view().len() > 0 {
                        assert(toks.deep_view()[0] == toks@[0]@);
                    }
                }
                Ok(toks)
            }
        },
    }
}

/// Finds the first chunk label at or after `pos`.
fn find_name_at(s: &str, pos: usize) -> (r: Option<usize>)
    requires
        pos <= s@.len(),
    ensures
        match r {
            Some(k) => pos <= k && k + 4 <= s@.len() && name_pos(s@.skip(pos as int)) == Some(
                k - pos,
            ),
            None => name_pos(s@.skip(pos as int)) is None,
        },
    decreases s@.len() - pos,
{
    let len = s.unicode_len();
    proof {
        reveal_strlit("Name");
        assert("Name"@ =~= name_label());
    }
    if starts_at(s, pos, "Name") {
        proof {
            assert(s@.skip(pos as int).len() >= 4);
        }
        return Some(pos);
    }
    if pos == len {
        assert(s@.skip(pos as int).len() == 0);
        return None;
    }
    proof {
        assert(s@.skip(pos as int).drop_first() =~= s@.skip(pos as int + 1));
    }
    match find_name_at(s, pos + 1) {
        Some(k) => Some(k),
        None => None,
    }
}

/// The dependants of every chunk from position `pos` on, `pos` standing just
/// after a chunk label.
fn many_req_after_at(s: &str, pos: usize) -> (r: Result<Vec<Vec<String>>, Error>)
    requires
        pos <= s@.len(),
    ensures
        match r {
            Ok(v) => many_req_after(s@.skip(pos as int)) == Some(v.deep_view()),
            Err(e) => many_req_after(s@.skip(pos as int)) is None && e
                == Error::UnexpectedPacmanOutput,
        },
    decreases s@.len() - pos,
{
    let len = s.unicode_len();
    match find_name_at(s, pos) {
        None => {
            let chunk = s.substring_char(pos, len);
            proof {
                assert(chunk@ =~= s@.skip(pos as int));
            }
            match parse_required_by(chunk) {
                Ok(t) => {
                    let mut r: Vec<Vec<String>> = Vec::new();
                    r.push(t);
                    proof {
                        assert(r.deep_view() =~= seq![r@[0].deep_view()]);
                    }
                    Ok(r)
                },
                Err(e) => Err(e),
            }
        },
        Some(k) => {
            let chunk = s.substring_char(pos, k);
            proof {
                assert(chunk@ =~= s@.skip(pos as int).take(k - pos as int));
                assert(s@.skip(pos as int).skip(k - pos as int + 4) =~= s@.skip(k as int + 4));
            }
            match parse_required_by(chunk) {
                Ok(t) => match many_req_after_at(s, k + 4) {
                    Ok(mut ts) => {
                        let ghost rest = ts.deep_view();
                        ts.insert(0, t);
                        proof {
                            assert(ts.deep_view() =~= seq![ts@[0].deep_view()] + rest);
                        }
                        Ok(ts)
                    },
                    Err(e) => Err(e),
                },
                Err(e) => Err(e),
            }
        },
    }
}

/// The dependants of every package chunk of a whole `pacman -Qi` report, in
/// chunk order.
pub fn parse_required_by_many(pacman_output: &str) -> (r: Result<Vec<Vec<String>>, Error>)
    ensures
        match r {
            Ok(v) => many_required_by(pacman_output@) == Some(v.deep_view()),
            Err(e) => many_required_by(pacman_output@) is None && e
                == Error::UnexpectedPacmanOutput,
        },
{
    let len = pacman_output.unicode_len();
    proof {
        assert(pacman_output@.skip(0) =~= pacman_output@);
        assert(len == pacman_output@.len());
    }
    match find_name_at(pacman_output, 0) {
        None => {
            let r: Vec<Vec<String>> = Vec::new();
            proof {
                assert(r.deep_view() =~= Seq::<Seq<Seq<char>>>::empty());
            }
            Ok(r)
        },
        Some(k) => many_req_after_at(pacman_output, k + 4),
    }
}

/// Pairs each queried package with the dependants its chunk of the report
/// names, in query order; packages beyond the report's chunks, or chunks
/// beyond the queried packages, are dropped, as zipping does.
pub fn required_by_pairs(packages: &Vec<String>, pacman_output: &str) -> (r: Result<
    Vec<(String, Vec<String>)>,
    Error,
>)
    ensures
        match r {
            Ok(v) => match many_required_by(pacman_output@) {
                Some(ts) => {
                    &&& v@.len() == vstd::math::min(packages@.len() as int, ts.len() as int)
                    &&& forall|i: int| 0 <= i < v@.len() ==> (#[trigger] v@[i]).0@
                        == packages@[i]@ && v@[i].1.deep_view() == ts[i]
                },
                None => false,
            },
            Err(e) => many_required_by(pacman_output@) is None && e
                == Error::UnexpectedPacmanOutput,
        },
{
    match parse_required_by_many(pacman_output) {
        Err(e) => Err(e),
        Ok(ts) => {
            let mut v: Vec<(String, Vec<String>)> = Vec::new();
            let n = if packages.len() < ts.len() {
                packages.len()
            } else {
                ts.len()
            };
            let mut i: usize = 0;
            while i < n
                invariant
                    i <= n,
                    n <= packages@.len(),
                    n <= ts@.len(),
                    v@.len() == i,
                    forall|k: int| 0 <= k < i ==> (#[trigger] v@[k]).0@ == packages@[k]@
                        && v@[k].1.deep_view() == ts.deep_view()[k],
                decreases n - i,
            {
                let name = packages[i].clone();
                let deps = ts[i].clone();
                proof {
                    assert(ts.deep_view()[i as int] == ts@[i as int].deep_view());
                }
                v.push((name, deps));
                i = i + 1;
            }
            Ok(v)
        },
    }
}

/// The installed-package set from the package manager's one-per-line
/// listing: the lines, as a canonical set.
pub fn installed_from_output(pacman_output: &str) -> (r: IdSet)
    ensures
        r.wf(),
        r@ == sorted_union(Seq::<Seq<char>>::empty(), split_nl(pacman_output@)),
        r@.to_set() == split_nl(pacman_output@).to_set(),
{
    let lines = split_lines(pacman_output);
    IdSet::from_vec(&lines)
}

} // verus!
