//! An ordered set of identifier strings, kept as a vector in strictly
//! ascending lexicographic order.  Package-group members, root groups and
//! installed-package sets are all values of this type, so every set keeps a
//! canonical, duplicate-free form and iteration order is deterministic.
use vstd::prelude::*;
use crate::order::{lex_lt, strictly_sorted, lemma_lex_trichotomy, lemma_lex_lt_trans, str_lt,
    str_eq};

verus! {

/// `seq![h] + t` holds exactly `h` and the elements of `t`.
pub proof fn lemma_cons_contains<T>(h: T, t: Seq<T>, y: T)
    ensures
        (seq![h] + t).contains(y) <==> (y == h || t.contains(y)),
{
    let s = seq![h] + t;
    if s.contains(y) {
        let i = choose|i: int| 0 <= i < s.len() && s[i] == y;
        if i == 0 {
            assert(y == h);
        } else {
            assert(t[i - 1] == y);
        }
    }
    if y == h {
        assert(s[0] == y);
    }
    if t.contains(y) {
        let i = choose|i: int| 0 <= i < t.len() && t[i] == y;
        assert(s[i + 1] == y);
    }
}

/// `t.push(a)` holds exactly the elements of `t` and `a`.
pub proof fn lemma_snoc_contains<T>(t: Seq<T>, a: T, y: T)
    ensures
        t.push(a).contains(y) <==> (t.contains(y) || y == a),
{
    let s = t.push(a);
    if s.contains(y) {
        let i = choose|i: int| 0 <= i < s.len() && s[i] == y;
        if i < t.len() {
            assert(t[i] == y);
        }
    }
    if t.contains(y) {
        let i = choose|i: int| 0 <= i < t.len() && t[i] == y;
        assert(s[i] == y);
    }
    if y == a {
        assert(s[t.len() as int] == y);
    }
}

/// Insertion into a strictly ascending sequence, keeping it ascending;
/// inserting an element already present changes nothing.
pub open spec fn sorted_insert(s: Seq<Seq<char>>, x: Seq<char>) -> Seq<Seq<char>>
    decreases s.len(),
{
    if s.len() == 0 {
        seq![x]
    } else if lex_lt(s[0], x) {
        seq![s[0]] + sorted_insert(s.drop_first(), x)
    } else if s[0] == x {
        s
    } else {
        seq![x] + s
    }
}

/// Removal from a strictly ascending sequence; removing an absent element
/// changes nothing.
pub open spec fn sorted_remove(s: Seq<Seq<char>>, x: Seq<char>) -> Seq<Seq<char>>
    decreases s.len(),
{
    if s.len() == 0 {
        s
    } else if s[0] == x {
        s.drop_first()
    } else {
        seq![s[0]] + sorted_remove(s.drop_first(), x)
    }
}

/// Union of an ascending sequence with the elements of `b`, one insertion at
/// a time, in `b`'s order.
pub open spec fn sorted_union(a: Seq<Seq<char>>, b: Seq<Seq<char>>) -> Seq<Seq<char>>
    decreases b.len(),
{
    if b.len() == 0 {
        a
    } else {
        sorted_union(sorted_insert(a, b[0]), b.drop_first())
    }
}

/// The elements of `a` outside the set `b`, in `a`'s order.
pub open spec fn sorted_diff(a: Seq<Seq<char>>, b: Set<Seq<char>>) -> Seq<Seq<char>>
    decreases a.len(),
{
    if a.len() == 0 {
        a
    } else if b.contains(a[0]) {
        sorted_diff(a.drop_first(), b)
    } else {
        seq![a[0]] + sorted_diff(a.drop_first(), b)
    }
}

/// What `sorted_insert` does: it keeps the order strict, adds exactly `x`,
/// and leaves a sequence that already holds `x` unchanged.
pub proof fn lemma_sorted_insert_props(s: Seq<Seq<char>>, x: Seq<char>)
    requires
        strictly_sorted(s),
    ensures
        strictly_sorted(sorted_insert(s, x)),
        forall|y: Seq<char>| #[trigger] sorted_insert(s, x).contains(y) <==> (s.contains(y) || y
            == x),
        s.contains(x) ==> sorted_insert(s, x) == s,
        sorted_insert(s, x).contains(x),
    decreases s.len(),
{
    let r = sorted_insert(s, x);
    if s.len() == 0 {
        assert forall|y: Seq<char>| #[trigger] r.contains(y) implies (s.contains(y) || y == x) by {
            let i = choose|i: int| 0 <= i < r.len() && r[i] == y;
            assert(r[0] == x);
        }
        assert(r[0] == x);
    } else if lex_lt(s[0], x) {
        let t = s.drop_first();
        assert(strictly_sorted(t)) by {
            assert(forall|i: int, j: int|
                0 <= i < j < t.len() ==> t[i] == s[i + 1] && t[j] == s[j + 1]);
        }
        lemma_sorted_insert_props(t, x);
        let rt = sorted_insert(t, x);
        assert(r =~= seq![s[0]] + rt);
        // every element of rt is above s[0]
        assert forall|k: int| 0 <= k < rt.len() implies lex_lt(s[0], rt[k]) by {
            assert(rt.contains(rt[k]));
            if rt[k] == x {
            } else {
                assert(t.contains(rt[k]));
                let i = choose|i: int| 0 <= i < t.len() && t[i] == rt[k];
                assert(s[i + 1] == rt[k]);
            }
        }
        assert(strictly_sorted(r)) by {
            assert(forall|i: int, j: int|
                1 <= i < j < r.len() ==> r[i] == rt[i - 1] && r[j] == rt[j - 1]);
            assert(forall|j: int| 1 <= j < r.len() ==> lex_lt(r[0], #[trigger] r[j]));
        }
        assert forall|y: Seq<char>| #[trigger] r.contains(y) <==> (s.contains(y) || y == x) by {
            lemma_cons_contains(s[0], rt, y);
            lemma_cons_contains(s[0], t, y);
            assert(s =~= seq![s[0]] + t);
        }
        if s.contains(x) {
            // x is in the tail, since lex_lt(s[0], x) rules out the head
            assert(t.contains(x)) by {
                let i = choose|i: int| 0 <= i < s.len() && s[i] == x;
                lemma_lex_trichotomy(s[0], x);
                assert(i != 0);
                assert(t[i - 1] == x);
            }
            assert(r =~= seq![s[0]] + t);
        }
        assert(r.contains(x)) by {
            lemma_cons_contains(s[0], rt, x);
        }
    } else if s[0] == x {
        assert(s[0] == x && s.contains(x));
    } else {
        lemma_lex_trichotomy(s[0], x);
        assert(lex_lt(x, s[0]));
        assert(r =~= seq![x] + s);
        assert forall|k: int| 0 <= k < s.len() implies lex_lt(x, s[k]) by {
            if k > 0 {
                lemma_lex_lt_trans(x, s[0], s[k]);
            }
        }
        assert(strictly_sorted(r)) by {
            assert(forall|i: int, j: int|
                1 <= i < j < r.len() ==> r[i] == s[i - 1] && r[j] == s[j - 1]);
            assert(forall|j: int| 1 <= j < r.len() ==> lex_lt(r[0], #[trigger] r[j]));
        }
        assert forall|y: Seq<char>| #[trigger] r.contains(y) <==> (s.contains(y) || y == x) by {
            lemma_cons_contains(x, s, y);
        }
        if s.contains(x) {
            let i = choose|i: int| 0 <= i < s.len() && s[i] == x;
            if i > 0 {
                assert(lex_lt(s[0], s[i]));
            }
            lemma_lex_trichotomy(s[0], x);
            assert(false);
        }
        assert(r[0] == x);
    }
}

/// What `sorted_remove` does: it keeps the order strict and takes away
/// exactly `x`; a sequence without `x` is left unchanged.
pub proof fn lemma_sorted_remove_props(s: Seq<Seq<char>>, x: Seq<char>)
    requires
        strictly_sorted(s),
    ensures
        strictly_sorted(sorted_remove(s, x)),
        forall|y: Seq<char>| #[trigger] sorted_remove(s, x).contains(y) <==> (s.contains(y) && y
            != x),
        !s.contains(x) ==> sorted_remove(s, x) == s,
    decreases s.len(),
{
    let r = sorted_remove(s, x);
    if s.len() == 0 {
    } else {
        let t = s.drop_first();
        assert(strictly_sorted(t)) by {
            assert(forall|i: int, j: int|
                0 <= i < j < t.len() ==> t[i] == s[i + 1] && t[j] == s[j + 1]);
        }
        if s[0] == x {
            // the strictly ascending tail cannot hold x again
            assert forall|y: Seq<char>| #[trigger] r.contains(y) <==> (s.contains(y) && y != x) by {
                lemma_cons_contains(s[0], t, y);
                assert(s =~= seq![s[0]] + t);
                if t.contains(y) {
                    let i = choose|i: int| 0 <= i < t.len() && t[i] == y;
                    assert(lex_lt(s[0], s[i + 1]) && s[i + 1] == y);
                    lemma_lex_trichotomy(s[0], y);
                }
            }
            assert(s.contains(x)) by {
                assert(s[0] == x);
            }
        } else {
            lemma_sorted_remove_props(t, x);
            let rt = sorted_remove(t, x);
            assert(r =~= seq![s[0]] + rt);
            assert forall|k: int| 0 <= k < rt.len() implies lex_lt(s[0], rt[k]) by {
                assert(rt.contains(rt[k]));
                assert(t.contains(rt[k]));
                let i = choose|i: int| 0 <= i < t.len() && t[i] == rt[k];
                assert(s[i + 1] == rt[k]);
            }
            assert(strictly_sorted(r)) by {
                assert(forall|i: int, j: int|
                    1 <= i < j < r.len() ==> r[i] == rt[i - 1] && r[j] == rt[j - 1]);
                assert(forall|j: int| 1 <= j < r.len() ==> lex_lt(r[0], #[trigger] r[j]));
            }
            assert forall|y: Seq<char>| #[trigger] r.contains(y) <==> (s.contains(y) && y != x) by {
                lemma_cons_contains(s[0], rt, y);
                lemma_cons_contains(s[0], t, y);
                assert(s =~= seq![s[0]] + t);
            }
            if !s.contains(x) {
                assert(!t.contains(x)) by {
                    if t.contains(x) {
                        let i = choose|i: int| 0 <= i < t.len() && t[i] == x;
                        assert(s[i + 1] == x);
                    }
                }
                assert(r =~= s);
            }
        }
    }
}

/// What `sorted_union` does: ascending order is kept and the elements are
/// exactly those of both sequences.
pub proof fn lemma_sorted_union_props(a: Seq<Seq<char>>, b: Seq<Seq<char>>)
    requires
        strictly_sorted(a),
    ensures
        strictly_sorted(sorted_union(a, b)),
        forall|y: Seq<char>| #[trigger] sorted_union(a, b).contains(y) <==> (a.contains(y)
            || b.contains(y)),
    decreases b.len(),
{
    let r = sorted_union(a, b);
    if b.len() == 0 {
        assert(forall|y: Seq<char>| !b.contains(y));
    } else {
        lemma_sorted_insert_props(a, b[0]);
        let a1 = sorted_insert(a, b[0]);
        lemma_sorted_union_props(a1, b.drop_first());
        assert forall|y: Seq<char>| #[trigger] r.contains(y) <==> (a.contains(y) || b.contains(
            y,
        )) by {
            lemma_cons_contains(b[0], b.drop_first(), y);
            assert(b =~= seq![b[0]] + b.drop_first());
        }
    }
}

/// What `sorted_diff` does: ascending order is kept and the elements are
/// exactly those of `a` outside `b`.
pub proof fn lemma_sorted_diff_props(a: Seq<Seq<char>>, b: Set<Seq<char>>)
    requires
        strictly_sorted(a),
    ensures
        strictly_sorted(sorted_diff(a, b)),
        forall|y: Seq<char>| #[trigger] sorted_diff(a, b).contains(y) <==> (a.contains(y)
            && !b.contains(y)),
    decreases a.len(),
{
    let r = sorted_diff(a, b);
    if a.len() == 0 {
    } else {
        let t = a.drop_first();
        assert(strictly_sorted(t)) by {
            assert(forall|i: int, j: int|
                0 <= i < j < t.len() ==> t[i] == a[i + 1] && t[j] == a[j + 1]);
        }
        lemma_sorted_diff_props(t, b);
        let rt = sorted_diff(t, b);
        assert forall|y: Seq<char>| #[trigger] rt.contains(y) || y == a[0] implies a.contains(y) by {
            if rt.contains(y) {
                let i = choose|i: int| 0 <= i < t.len() && t[i] == y;
                assert(a[i + 1] == y);
            } else {
                assert(a[0] == y);
            }
        }
        if b.contains(a[0]) {
            assert forall|y: Seq<char>| #[trigger] r.contains(y) <==> (a.contains(y) && !b.contains(
                y,
            )) by {
                lemma_cons_contains(a[0], t, y);
                assert(a =~= seq![a[0]] + t);
            }
        } else {
            assert(r =~= seq![a[0]] + rt);
            assert forall|k: int| 0 <= k < rt.len() implies lex_lt(a[0], rt[k]) by {
                assert(rt.contains(rt[k]));
                assert(t.contains(rt[k]));
                let i = choose|i: int| 0 <= i < t.len() && t[i] == rt[k];
                assert(a[i + 1] == rt[k]);
            }
            assert(strictly_sorted(r)) by {
                assert(forall|i: int, j: int|
                    1 <= i < j < r.len() ==> r[i] == rt[i - 1] && r[j] == rt[j - 1]);
                assert(forall|j: int| 1 <= j < r.len() ==> lex_lt(r[0], #[trigger] r[j]));
            }
            assert forall|y: Seq<char>| #[trigger] r.contains(y) <==> (a.contains(y) && !b.contains(
                y,
            )) by {
                lemma_cons_contains(a[0], rt, y);
                lemma_cons_contains(a[0], t, y);
                assert(a =~= seq![a[0]] + t);
            }
        }
    }
}

/// Where `x` lands: if everything before `pos` is below `x` and `pos` is the
/// first place that is not, insertion happens exactly there.
pub proof fn lemma_sorted_insert_at(s: Seq<Seq<char>>, x: Seq<char>, pos: int)
    requires
        strictly_sorted(s),
        0 <= pos <= s.len(),
        forall|k: int| 0 <= k < pos ==> lex_lt(#[trigger] s[k], x),
        pos < s.len() ==> !lex_lt(s[pos], x),
    ensures
        pos < s.len() && s[pos] == x ==> sorted_insert(s, x) == s,
        !(pos < s.len() && s[pos] == x) ==> sorted_insert(s, x) == s.subrange(0, pos) + seq![x]
            + s.skip(pos),
    decreases pos,
{
    if pos == 0 {
        if s.len() == 0 {
            assert(sorted_insert(s, x) =~= s.subrange(0, 0) + seq![x] + s.skip(0));
        } else {
            assert(!lex_lt(s[0], x));
            if s[0] == x {
            } else {
                assert(sorted_insert(s, x) =~= s.subrange(0, 0) + seq![x] + s.skip(0));
            }
        }
    } else {
        assert(lex_lt(s[0], x));
        let t = s.drop_first();
        assert(strictly_sorted(t)) by {
            assert(forall|i: int, j: int|
                0 <= i < j < t.len() ==> t[i] == s[i + 1] && t[j] == s[j + 1]);
        }
        assert(forall|k: int| 0 <= k < pos - 1 ==> lex_lt(#[trigger] t[k], x)) by {
            assert(forall|k: int| 0 <= k < pos - 1 ==> t[k] == s[k + 1]);
        }
        assert(pos - 1 < t.len() ==> !lex_lt(t[pos - 1], x)) by {
            assert(pos - 1 < t.len() ==> t[pos - 1] == s[pos]);
        }
        lemma_sorted_insert_at(t, x, pos - 1);
        if pos < s.len() && s[pos] == x {
            assert(t[pos - 1] == x);
            assert(sorted_insert(s, x) =~= seq![s[0]] + sorted_insert(t, x));
            assert(sorted_insert(s, x) =~= s);
        } else {
            assert(sorted_insert(t, x) == t.subrange(0, pos - 1) + seq![x] + t.skip(pos - 1));
            assert(sorted_insert(s, x) =~= seq![s[0]] + sorted_insert(t, x));
            assert(sorted_insert(s, x) =~= s.subrange(0, pos) + seq![x] + s.skip(pos)) by {
                assert(forall|k: int|
                    0 <= k < t.len() ==> #[trigger] t[k] == s[k + 1]);
            }
        }
    }
}

/// Mirror of `lemma_sorted_insert_at` for removal.
pub proof fn lemma_sorted_remove_at(s: Seq<Seq<char>>, x: Seq<char>, pos: int)
    requires
        strictly_sorted(s),
        0 <= pos <= s.len(),
        forall|k: int| 0 <= k < pos ==> lex_lt(#[trigger] s[k], x),
        pos < s.len() ==> !lex_lt(s[pos], x),
    ensures
        pos < s.len() && s[pos] == x ==> sorted_remove(s, x) == s.subrange(0, pos) + s.skip(pos
            + 1),
        !(pos < s.len() && s[pos] == x) ==> sorted_remove(s, x) == s && !s.contains(x),
    decreases pos,
{
    if pos == 0 {
        if s.len() == 0 {
            assert(!s.contains(x));
        } else if s[0] == x {
            assert(sorted_remove(s, x) =~= s.subrange(0, 0) + s.skip(1));
        } else {
            // x is below s[0], hence below everything in s
            lemma_lex_trichotomy(s[0], x);
            assert(lex_lt(x, s[0]));
            assert(!s.contains(x)) by {
                if s.contains(x) {
                    let i = choose|i: int| 0 <= i < s.len() && s[i] == x;
                    if i > 0 {
                        assert(lex_lt(s[0], s[i]));
                        lemma_lex_trichotomy(s[0], x);
                    }
                }
            }
            lemma_sorted_remove_props(s, x);
        }
    } else {
        assert(lex_lt(s[0], x));
        lemma_lex_trichotomy(s[0], x);
        let t = s.drop_first();
        assert(strictly_sorted(t)) by {
            assert(forall|i: int, j: int|
                0 <= i < j < t.len() ==> t[i] == s[i + 1] && t[j] == s[j + 1]);
        }
        assert(forall|k: int| 0 <= k < pos - 1 ==> lex_lt(#[trigger] t[k], x)) by {
            assert(forall|k: int| 0 <= k < pos - 1 ==> t[k] == s[k + 1]);
        }
        assert(pos - 1 < t.len() ==> !lex_lt(t[pos - 1], x)) by {
            assert(pos - 1 < t.len() ==> t[pos - 1] == s[pos]);
        }
        lemma_sorted_remove_at(t, x, pos - 1);
        assert(sorted_remove(s, x) =~= seq![s[0]] + sorted_remove(t, x));
        if pos < s.len() && s[pos] == x {
            assert(t[pos - 1] == x);
            assert(sorted_remove(s, x) =~= s.subrange(0, pos) + s.skip(pos + 1)) by {
                assert(forall|k: int|
                    0 <= k < t.len() ==> #[trigger] t[k] == s[k + 1]);
            }
        } else {
            assert(sorted_remove(s, x) =~= s);
            assert(!s.contains(x)) by {
                if s.contains(x) {
                    let i = choose|i: int| 0 <= i < s.len() && s[i] == x;
                    assert(i > 0);
                    assert(t[i - 1] == x);
                }
            }
        }
    }
}

/// An ordered, duplicate-free set of identifier strings.
#[derive(Debug)]
pub struct IdSet {
    items: Vec<String>,
}

impl View for IdSet {
    type V = Seq<Seq<char>>;

    closed spec fn view(&self) -> Seq<Seq<char>> {
        self.items.deep_view()
    }
}

impl Clone for IdSet {
    /// Cloning keeps the elements.
    fn clone(&self) -> (r: Self)
        ensures
            r@ == self@,
    {
        let ghost dv = self.items.deep_view();
        let mut items: Vec<String> = Vec::new();
        let mut i: usize = 0;
        proof {
            assert(items.deep_view() =~= dv.take(0));
        }
        while i < self.items.len()
            invariant
                i <= dv.len(),
                dv.len() == self.items@.len(),
                self.items.deep_view() == dv,
                items.deep_view() == dv.take(i as int),
            decreases dv.len() - i,
        {
            items.push(self.items[i].clone());
            proof {
                assert(items.deep_view() =~= dv.take(i as int).push(dv[i as int]));
                assert(dv.take(i as int).push(dv[i as int]) =~= dv.take(i as int + 1));
            }
            i = i + 1;
        }
        proof {
            assert(dv.take(dv.len() as int) =~= dv);
        }
        IdSet { items }
    }
}

impl IdSet {
    /// The elements in ascending order, duplicate-free.
    pub open spec fn wf(&self) -> bool {
        strictly_sorted(self@)
    }

    /// The elements, order forgotten.
    pub open spec fn to_set(&self) -> Set<Seq<char>> {
        self@.to_set()
    }

    /// The empty set.
    pub fn new() -> (r: Self)
        ensures
            r@ == Seq::<Seq<char>>::empty(),
            r.wf(),
    {
        IdSet { items: Vec::new() }
    }

    /// How many elements the set holds.
    pub fn len(&self) -> (r: usize)
        ensures
            r == self@.len(),
    {
        self.items.len()
    }

    /// Whether the set is empty.
    pub fn is_empty(&self) -> (r: bool)
        ensures
            r == (self@.len() == 0),
    {
        self.items.len() == 0
    }

    /// The element at a position of the ascending order.
    pub fn index(&self, i: usize) -> (r: &String)
        requires
            i < self@.len(),
        ensures
            r@ == self@[i as int],
    {
        &self.items[i]
    }

    /// The elements as a vector, in ascending order.
    pub fn as_vec(&self) -> (r: &Vec<String>)
        ensures
            r.deep_view() == self@,
    {
        &self.items
    }

    /// Whether `x` is an element.
    pub fn contains(&self, x: &str) -> (r: bool)
        ensures
            r == self@.contains(x@),
    {
        let mut i: usize = 0;
        while i < self.items.len()
            invariant
                i <= self@.len(),
                self@.len() == self.items@.len(),
                forall|k: int| 0 <= k < i ==> self@[k] != x@,
            decreases self@.len() - i,
        {
            if str_eq(self.items[i].as_str(), x) {
                assert(self@[i as int] == x@);
                return true;
            }
            i = i + 1;
        }
        assert(!self@.contains(x@));
        false
    }

    /// Adds `x`; reports whether the set grew.
    pub fn insert(&mut self, x: String) -> (added: bool)
        requires
            old(self).wf(),
        ensures
            final(self).wf(),
            final(self)@ == sorted_insert(old(self)@, x@),
            added == !old(self)@.contains(x@),
            final(self)@.to_set() == old(self)@.to_set().insert(x@),
            final(self)@.contains(x@),
    {
        let ghost orig = self@;
        let mut pos: usize = 0;
        let len = self.items.len();
        while pos < len && str_lt(self.items[pos].as_str(), x.as_str())
            invariant
                pos <= len,
                len == self@.len(),
                self@ == orig,
                forall|k: int| 0 <= k < pos ==> lex_lt(#[trigger] orig[k], x@),
            decreases len - pos,
        {
            pos = pos + 1;
        }
        proof {
            lemma_sorted_insert_at(orig, x@, pos as int);
            lemma_sorted_insert_props(orig, x@);
        }
        if pos < len && str_eq(self.items[pos].as_str(), x.as_str()) {
            proof {
                assert(orig[pos as int] == x@);
                assert(orig.contains(x@));
                assert(self@.to_set() =~= orig.to_set().insert(x@));
            }
            return false;
        }
        proof {
            if pos < len {
                lemma_lex_trichotomy(orig[pos as int], x@);
            }
            assert(!orig.contains(x@)) by {
                if orig.contains(x@) {
                    let i = choose|i: int| 0 <= i < orig.len() && orig[i] == x@;
                    assert(i < pos || i >= pos as int);
                    if i >= pos as int {
                        if i > pos as int {
                            assert(lex_lt(orig[pos as int], orig[i]));
                            lemma_lex_trichotomy(orig[pos as int], x@);
                        }
                    } else {
                        lemma_lex_trichotomy(orig[i], x@);
                    }
                }
            }
        }
        self.items.insert(pos, x);
        proof {
            assert(self@ =~= orig.subrange(0, pos as int) + seq![x@] + orig.skip(pos as int));
            assert(self@.to_set() =~= orig.to_set().insert(x@));
        }
        true
    }

    /// Takes `x` away; reports whether it was an element.
    pub fn remove(&mut self, x: &str) -> (removed: bool)
        requires
            old(self).wf(),
        ensures
            final(self).wf(),
            final(self)@ == sorted_remove(old(self)@, x@),
            removed == old(self)@.contains(x@),
            final(self)@.to_set() == old(self)@.to_set().remove(x@),
    {
        let ghost orig = self@;
        let mut pos: usize = 0;
        let len = self.items.len();
        while pos < len && str_lt(self.items[pos].as_str(), x)
            invariant
                pos <= len,
                len == self@.len(),
                self@ == orig,
                forall|k: int| 0 <= k < pos ==> lex_lt(#[trigger] orig[k], x@),
            decreases len - pos,
        {
            pos = pos + 1;
        }
        proof {
            lemma_sorted_remove_at(orig, x@, pos as int);
            lemma_sorted_remove_props(orig, x@);
        }
        if pos < len && str_eq(self.items[pos].as_str(), x) {
            assert(orig[pos as int] == x@ && orig.contains(x@));
            self.items.remove(pos);
            proof {
                assert(self@ =~= orig.subrange(0, pos as int) + orig.skip(pos as int + 1));
                assert(self@.to_set() =~= orig.to_set().remove(x@));
            }
            true
        } else {
            proof {
                if pos < len {
                    lemma_lex_trichotomy(orig[pos as int], x@);
                }
                assert(!(pos < len && orig[pos as int] == x@));
                assert(self@.to_set() =~= orig.to_set().remove(x@));
            }
            false
        }
    }

    /// Adds every element of `other`.
    pub fn union_with(&mut self, other: &IdSet)
        requires
            old(self).wf(),
        ensures
            final(self).wf(),
            final(self)@ == sorted_union(old(self)@, other@),
            final(self)@.to_set() == old(self)@.to_set().union(other@.to_set()),
    {
        let ghost orig = self@;
        let ghost b = other@;
        let mut j: usize = 0;
        let olen = other.len();
        proof {
            assert(b.skip(0) =~= b);
        }
        while j < olen
            invariant
                j <= olen,
                olen == b.len(),
                other@ == b,
                self.wf(),
                sorted_union(orig, b) == sorted_union(self@, b.skip(j as int)),
            decreases olen - j,
        {
            let ghost before = self@;
            let x = other.index(j).clone();
            self.insert(x);
            proof {
                assert(b.skip(j as int)[0] == b[j as int]);
                assert(b.skip(j as int).drop_first() =~= b.skip(j as int + 1));
            }
            j = j + 1;
        }
        proof {
            assert(b.skip(olen as int).len() == 0);
            assert(self@ == sorted_union(orig, b));
            lemma_sorted_union_props(orig, b);
            assert(self@.to_set() =~= orig.to_set().union(b.to_set()));
        }
    }

    /// The elements of this set that are not in `other`, as a new set.
    pub fn diff(&self, other: &IdSet) -> (r: IdSet)
        requires
            self.wf(),
        ensures
            r.wf(),
            r@ == sorted_diff(self@, other@.to_set()),
            r@.to_set() == self@.to_set().difference(other@.to_set()),
    {
        let ghost a = self@;
        let ghost b = other@.to_set();
        let mut items: Vec<String> = Vec::new();
        let mut i: usize = 0;
        let len = self.items.len();
        proof {
            assert(a.skip(0) =~= a);
            assert(items.deep_view() =~= Seq::<Seq<char>>::empty());
            assert(Seq::<Seq<char>>::empty() + sorted_diff(a, b) =~= sorted_diff(a, b));
        }
        while i < len
            invariant
                i <= len,
                len == a.len(),
                self@ == a,
                other@.to_set() == b,
                sorted_diff(a, b) == items.deep_view() + sorted_diff(a.skip(i as int), b),
            decreases len - i,
        {
            let keep = !other.contains(self.items[i].as_str());
            proof {
                assert(a.skip(i as int)[0] == a[i as int]);
                assert(a.skip(i as int).drop_first() =~= a.skip(i as int + 1));
            }
            if keep {
                items.push(self.items[i].clone());
                proof {
                    assert(items.deep_view() =~= items.deep_view().drop_last().push(a[i as int]));
                    assert(items.deep_view().drop_last().push(a[i as int]) + sorted_diff(
                        a.skip(i as int + 1),
                        b,
                    ) =~= items.deep_view().drop_last() + (seq![a[i as int]] + sorted_diff(
                        a.skip(i as int + 1),
                        b,
                    )));
                }
            }
            i = i + 1;
        }
        proof {
            assert(a.skip(len as int).len() == 0);
            assert(items.deep_view() + sorted_diff(a.skip(len as int), b) =~= items.deep_view());
            lemma_sorted_diff_props(a, b);
            assert(strictly_sorted(self@));
            assert(items.deep_view().to_set() =~= a.to_set().difference(b));
        }
        IdSet { items }
    }

    /// The set of the elements of `v`, in canonical order.
    pub fn from_vec(v: &Vec<String>) -> (r: IdSet)
        ensures
            r.wf(),
            r@ == sorted_union(Seq::<Seq<char>>::empty(), v.deep_view()),
            r@.to_set() == v.deep_view().to_set(),
    {
        let ghost b = v.deep_view();
        let mut r = IdSet::new();
        let mut i: usize = 0;
        proof {
            assert(b.skip(0) =~= b);
        }
        while i < v.len()
            invariant
                i <= b.len(),
                b.len() == v@.len(),
                v.deep_view() == b,
                r.wf(),
                sorted_union(Seq::<Seq<char>>::empty(), b) == sorted_union(r@, b.skip(i as int)),
                r@.to_set() == b.take(i as int).to_set(),
            decreases b.len() - i,
        {
            let ghost before = r@.to_set();
            r.insert(v[i].clone());
            proof {
                assert(b.skip(i as int)[0] == b[i as int]);
                assert(b.skip(i as int).drop_first() =~= b.skip(i as int + 1));
                assert(b.take(i as int + 1) =~= b.take(i as int).push(b[i as int]));
                assert forall|y: Seq<char>|
                    #[trigger] b.take(i as int + 1).to_set().contains(y) <==> before.insert(
                        b[i as int],
                    ).contains(y) by {
                    lemma_snoc_contains(b.take(i as int), b[i as int], y);
                }
                assert(b.take(i as int + 1).to_set() =~= before.insert(b[i as int]));
            }
            i = i + 1;
        }
        proof {
            assert(b.take(b.len() as int) =~= b);
            assert(b.skip(b.len() as int).len() == 0);
        }
        r
    }
}


/// Inserting elements a sequence already holds changes nothing.
pub proof fn lemma_sorted_union_absorbed(a: Seq<Seq<char>>, b: Seq<Seq<char>>)
    requires
        strictly_sorted(a),
        forall|x: Seq<char>| b.contains(x) ==> a.contains(x),
    ensures
        sorted_union(a, b) == a,
    decreases b.len(),
{
    if b.len() == 0 {
    } else {
        assert(b.contains(b[0]));
        lemma_sorted_insert_props(a, b[0]);
        assert(sorted_insert(a, b[0]) == a);
        assert(forall|x: Seq<char>| b.drop_first().contains(x) ==> b.contains(x)) by {
            assert forall|x: Seq<char>| b.drop_first().contains(x) implies b.contains(x) by {
                let i = choose|i: int| 0 <= i < b.drop_first().len() && b.drop_first()[i] == x;
                assert(b[i + 1] == x);
            }
        }
        lemma_sorted_union_absorbed(a, b.drop_first());
    }
}

/// Removing a freshly inserted element restores the sequence.
pub proof fn lemma_insert_then_remove(s: Seq<Seq<char>>, x: Seq<char>)
    requires
        strictly_sorted(s),
        !s.contains(x),
    ensures
        sorted_remove(sorted_insert(s, x), x) == s,
    decreases s.len(),
{
    let ins = sorted_insert(s, x);
    if s.len() == 0 {
        assert(ins =~= seq![x]);
        assert(sorted_remove(ins, x) =~= s);
    } else if lex_lt(s[0], x) {
        let t = s.drop_first();
        assert(strictly_sorted(t)) by {
            assert(forall|i: int, j: int|
                0 <= i < j < t.len() ==> t[i] == s[i + 1] && t[j] == s[j + 1]);
        }
        assert(!t.contains(x)) by {
            if t.contains(x) {
                let i = choose|i: int| 0 <= i < t.len() && t[i] == x;
                assert(s[i + 1] == x);
            }
        }
        lemma_insert_then_remove(t, x);
        assert(ins =~= seq![s[0]] + sorted_insert(t, x));
        lemma_lex_trichotomy(s[0], x);
        assert(ins[0] == s[0] && ins[0] != x);
        assert(sorted_remove(ins, x) =~= seq![s[0]] + sorted_remove(ins.drop_first(), x));
        assert(ins.drop_first() =~= sorted_insert(t, x));
        assert(sorted_remove(ins, x) =~= seq![s[0]] + t);
        assert(sorted_remove(ins, x) =~= s);
    } else if s[0] == x {
        assert(s.contains(x)) by {
            assert(s[0] == x);
        }
    } else {
        assert(ins =~= seq![x] + s);
        assert(ins[0] == x);
        assert(sorted_remove(ins, x) =~= ins.drop_first());
        assert(ins.drop_first() =~= s);
    }
}

/// Uniting a run of strictly larger elements appends them in order.
pub proof fn lemma_sorted_union_append(a: Seq<Seq<char>>, b: Seq<Seq<char>>)
    requires
        strictly_sorted(a),
        strictly_sorted(b),
        forall|i: int, j: int|
            0 <= i < a.len() && 0 <= j < b.len() ==> lex_lt(#[trigger] a[i], #[trigger] b[j]),
    ensures
        sorted_union(a, b) == a + b,
    decreases b.len(),
{
    if b.len() == 0 {
        assert(a + b =~= a);
    } else {
        lemma_sorted_insert_at(a, b[0], a.len() as int);
        let a2 = a.push(b[0]);
        assert(sorted_insert(a, b[0]) =~= a2) by {
            assert(a.subrange(0, a.len() as int) =~= a);
            assert(a.skip(a.len() as int) =~= Seq::<Seq<char>>::empty());
            assert(a.subrange(0, a.len() as int) + seq![b[0]] + a.skip(a.len() as int) =~= a2);
            if a.len() > 0 && a[a.len() - 1] == b[0] {
                assert(lex_lt(a[a.len() - 1], b[0]));
                lemma_lex_trichotomy(a[a.len() - 1], b[0]);
            }
        }
        let b2 = b.drop_first();
        assert(strictly_sorted(a2)) by {
            assert(forall|i: int| 0 <= i < a.len() ==> a2[i] == a[i]);
            assert(a2[a.len() as int] == b[0]);
        }
        assert(strictly_sorted(b2)) by {
            assert(forall|i: int, j: int|
                0 <= i < j < b2.len() ==> b2[i] == b[i + 1] && b2[j] == b[j + 1]);
        }
        assert(forall|i: int, j: int|
            0 <= i < a2.len() && 0 <= j < b2.len() ==> lex_lt(#[trigger] a2[i], #[trigger] b2[j]))
            by {
            assert forall|i: int, j: int|
                0 <= i < a2.len() && 0 <= j < b2.len() implies lex_lt(
                #[trigger] a2[i],
                #[trigger] b2[j],
            ) by {
                assert(b2[j] == b[j + 1]);
                if i < a.len() {
                    assert(a2[i] == a[i]);
                } else {
                    assert(a2[i] == b[0]);
                    assert(lex_lt(b[0], b[j + 1]));
                }
            }
        }
        lemma_sorted_union_append(a2, b2);
        assert(sorted_union(a, b) == sorted_union(a2, b2)) by {
            assert(sorted_insert(a, b[0]) == a2);
        }
        assert(a2 + b2 =~= a + b);
    }
}

/// A sequence already in canonical order is its own canonical form.
pub proof fn lemma_canon_sorted(ms: Seq<Seq<char>>)
    requires
        strictly_sorted(ms),
    ensures
        sorted_union(Seq::<Seq<char>>::empty(), ms) == ms,
{
    assert(strictly_sorted(Seq::<Seq<char>>::empty()));
    lemma_sorted_union_append(Seq::<Seq<char>>::empty(), ms);
    assert(Seq::<Seq<char>>::empty() + ms =~= ms);
}

} // verus!
