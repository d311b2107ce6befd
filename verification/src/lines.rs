//! Splitting report text into lines, the way the package manager's output
//! is consumed: lines end at a line feed, a trailing carriage return is
//! dropped, and text ending in a line break yields no empty last line.
use vstd::prelude::*;
use vstd::string::StrSliceExecFns;

verus! {

/// The distance to the first line feed, or the whole length without one.
pub open spec fn nl_pos(s: Seq<char>) -> int
    decreases s.len(),
{
    if s.len() == 0 {
        0
    } else if s[0] == '\n' {
        0
    } else {
        1 + nl_pos(s.drop_first())
    }
}

/// Where the first line feed lies.
pub proof fn lemma_nl_pos(s: Seq<char>)
    ensures
        0 <= nl_pos(s) <= s.len(),
        nl_pos(s) < s.len() ==> s[nl_pos(s)] == '\n',
        forall|k: int| 0 <= k < nl_pos(s) ==> s[k] != '\n',
    decreases s.len(),
{
    if s.len() == 0 {
    } else if s[0] == '\n' {
    } else {
        lemma_nl_pos(s.drop_first());
        let t = s.drop_first();
        assert(forall|k: int| 0 <= k < t.len() ==> #[trigger] t[k] == s[k + 1]);
        if nl_pos(t) < t.len() {
            assert(s[nl_pos(s)] == t[nl_pos(t)]);
        }
        assert forall|k: int| 0 <= k < nl_pos(s) implies s[k] != '\n' by {
            if k > 0 {
                assert(t[k - 1] == s[k]);
            }
        }
    }
}

/// A line without its trailing carriage return, if it carries one.
pub open spec fn trim_cr(line: Seq<char>) -> Seq<char> {
    if line.len() > 0 && line[line.len() - 1] == '\r' {
        line.drop_last()
    } else {
        line
    }
}

/// The lines of `s`.
pub open spec fn split_nl(s: Seq<char>) -> Seq<Seq<char>>
    decreases s.len(),
    via split_nl_decreases
{
    if s.len() == 0 {
        Seq::empty()
    } else {
        let k = nl_pos(s);
        if k == s.len() {
            seq![trim_cr(s.take(k))]
        } else {
            seq![trim_cr(s.take(k))] + split_nl(s.skip(k + 1))
        }
    }
}

#[via_fn]
proof fn split_nl_decreases(s: Seq<char>) {
    lemma_nl_pos(s);
}

/// Finds the first line feed at or after `pos`.
fn find_nl(s: &str, pos: usize) -> (r: usize)
    requires
        pos <= s@.len(),
    ensures
        pos <= r <= s@.len(),
        r - pos == nl_pos(s@.skip(pos as int)),
    decreases s@.len() - pos,
{
    let len = s.unicode_len();
    if pos == len {
        assert(s@.skip(pos as int).len() == 0);
        return pos;
    }
    let c = s.get_char(pos);
    proof {
        assert(s@.skip(pos as int)[0] == s@[pos as int]);
    }
    if c == '\n' {
        pos
    } else {
        proof {
            assert(s@.skip(pos as int).drop_first() =~= s@.skip(pos as int + 1));
        }
        find_nl(s, pos + 1)
    }
}

/// The lines of `s` from position `pos` on.
fn split_lines_at(s: &str, pos: usize) -> (r: Vec<String>)
    requires
        pos <= s@.len(),
    ensures
        r.deep_view() == split_nl(s@.skip(pos as int)),
    decreases s@.len() - pos,
{
    let len = s.unicode_len();
    if pos == len {
        let r: Vec<String> = Vec::new();
        proof {
            assert(s@.skip(pos as int).len() == 0);
            assert(r.deep_view() =~= Seq::<Seq<char>>::empty());
        }
        return r;
    }
    let k = find_nl(s, pos);
    let ghost t = s@.skip(pos as int);
    proof {
        lemma_nl_pos(t);
        assert(t.take(nl_pos(t)) =~= s@.subrange(pos as int, k as int));
    }
    let line = {
        if k > pos && s.get_char(k - 1) == '\r' {
            proof {
                assert(s@.subrange(pos as int, k as int)[k - 1 - pos] == s@[k as int - 1]);
                assert(trim_cr(s@.subrange(pos as int, k as int)) =~= s@.subrange(
                    pos as int,
                    k as int - 1,
                ));
            }
            s.substring_char(pos, k - 1).to_owned()
        } else {
            proof {
                if k > pos {
                    assert(s@.subrange(pos as int, k as int)[k - 1 - pos] == s@[k as int - 1]);
                }
                assert(trim_cr(s@.subrange(pos as int, k as int)) =~= s@.subrange(
                    pos as int,
                    k as int,
                ));
            }
            s.substring_char(pos, k).to_owned()
        }
    };
    if k == len {
        let mut r: Vec<String> = Vec::new();
        r.push(line);
        proof {
            assert(nl_pos(t) == t.len());
            assert(r.deep_view() =~= seq![trim_cr(t.take(nl_pos(t)))]);
        }
        r
    } else {
        proof {
            assert(t.skip(nl_pos(t) + 1) =~= s@.skip(k as int + 1));
        }
        let mut r = split_lines_at(s, k + 1);
        let ghost rest = r.deep_view();
        r.insert(0, line);
        proof {
            assert(nl_pos(t) < t.len());
            assert(r.deep_view() =~= seq![trim_cr(t.take(nl_pos(t)))] + rest);
        }
        r
    }
}

/// The lines of `s`, each without a trailing carriage return.
pub fn split_lines(s: &str) -> (r: Vec<String>)
    ensures
        r.deep_view() == split_nl(s@),
{
    proof {
        assert(s@.skip(0) =~= s@);
    }
    split_lines_at(s, 0)
}

} // verus!
