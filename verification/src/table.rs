//! A map from identifier strings to values, kept as a vector of entries in
//! strictly ascending key order.  Group files use it to map group ids to
//! groups, the store to map file paths to files, and the configuration to map
//! target ids to target configurations.
use vstd::prelude::*;
use crate::order::{lex_lt, strictly_sorted, lemma_lex_trichotomy, str_lt, str_eq};

verus! {

/// The keys of an entry sequence, in entry order.
pub open spec fn keys_of<T>(s: Seq<(Seq<char>, T)>) -> Seq<Seq<char>> {
    s.map_values(|p: (Seq<char>, T)| p.0)
}

/// Entries in strictly ascending key order: sorted, every key unique.
pub open spec fn sorted_keys<T>(s: Seq<(Seq<char>, T)>) -> bool {
    strictly_sorted(keys_of(s))
}

/// The position of the entry with key `k`, if one exists.
pub open spec fn find_key<T>(s: Seq<(Seq<char>, T)>, k: Seq<char>) -> Option<int>
    decreases s.len(),
{
    if s.len() == 0 {
        None
    } else if s[0].0 == k {
        Some(0)
    } else {
        match find_key(s.drop_first(), k) {
            Some(i) => Some(i + 1),
            None => None,
        }
    }
}

/// Insertion of a fresh entry at its place in the key order.
pub open spec fn table_insert<T>(s: Seq<(Seq<char>, T)>, k: Seq<char>, v: T) -> Seq<
    (Seq<char>, T),
>
    decreases s.len(),
{
    if s.len() == 0 {
        seq![(k, v)]
    } else if lex_lt(s[0].0, k) {
        seq![s[0]] + table_insert(s.drop_first(), k, v)
    } else {
        seq![(k, v)] + s
    }
}

/// `find_key` returns exactly the position whose key matches, and `None`
/// exactly when no key matches.
pub proof fn lemma_find_key_at<T>(s: Seq<(Seq<char>, T)>, k: Seq<char>, pos: int)
    requires
        0 <= pos <= s.len(),
        forall|j: int| 0 <= j < pos ==> (#[trigger] s[j]).0 != k,
        pos < s.len() ==> s[pos].0 == k,
    ensures
        pos < s.len() ==> find_key(s, k) == Some(pos),
        pos == s.len() ==> find_key(s, k) is None,
    decreases pos,
{
    if pos == 0 {
        if s.len() == 0 {
        } else if s[0].0 == k {
        }
    } else {
        assert(s[0].0 != k);
        let t = s.drop_first();
        assert(forall|j: int| 0 <= j < pos - 1 ==> (#[trigger] t[j]).0 != k) by {
            assert(forall|j: int| 0 <= j < pos - 1 ==> t[j] == s[j + 1]);
        }
        assert(pos - 1 < t.len() ==> t[pos - 1].0 == k) by {
            assert(pos - 1 < t.len() ==> t[pos - 1] == s[pos]);
        }
        lemma_find_key_at(t, k, pos - 1);
    }
}

/// What `find_key` finds: a position in range whose key is `k`.
pub proof fn lemma_find_key_props<T>(s: Seq<(Seq<char>, T)>, k: Seq<char>)
    ensures
        match find_key(s, k) {
            Some(i) => 0 <= i < s.len() && s[i].0 == k,
            None => forall|j: int| 0 <= j < s.len() ==> (#[trigger] s[j]).0 != k,
        },
    decreases s.len(),
{
    if s.len() == 0 {
    } else if s[0].0 == k {
    } else {
        let t = s.drop_first();
        lemma_find_key_props(t, k);
        match find_key(t, k) {
            Some(i) => {
                assert(s[i + 1] == t[i]);
            },
            None => {
                assert forall|j: int| 0 <= j < s.len() implies (#[trigger] s[j]).0 != k by {
                    if j > 0 {
                        assert(t[j - 1] == s[j]);
                    }
                }
            },
        }
    }
}

/// Where a fresh entry lands: if everything before `pos` is below `k` and
/// `pos` is the first place that is not, insertion happens exactly there.
pub proof fn lemma_table_insert_at<T>(s: Seq<(Seq<char>, T)>, k: Seq<char>, v: T, pos: int)
    requires
        0 <= pos <= s.len(),
        forall|j: int| 0 <= j < pos ==> lex_lt((#[trigger] s[j]).0, k),
        pos < s.len() ==> !lex_lt(s[pos].0, k),
    ensures
        table_insert(s, k, v) == s.subrange(0, pos) + seq![(k, v)] + s.skip(pos),
    decreases pos,
{
    if pos == 0 {
        assert(table_insert(s, k, v) =~= s.subrange(0, 0) + seq![(k, v)] + s.skip(0));
    } else {
        assert(lex_lt(s[0].0, k));
        let t = s.drop_first();
        assert(forall|j: int| 0 <= j < pos - 1 ==> lex_lt((#[trigger] t[j]).0, k)) by {
            assert(forall|j: int| 0 <= j < pos - 1 ==> t[j] == s[j + 1]);
        }
        assert(pos - 1 < t.len() ==> !lex_lt(t[pos - 1].0, k)) by {
            assert(pos - 1 < t.len() ==> t[pos - 1] == s[pos]);
        }
        lemma_table_insert_at(t, k, v, pos - 1);
        assert(table_insert(s, k, v) =~= seq![s[0]] + table_insert(t, k, v));
        assert(table_insert(s, k, v) =~= s.subrange(0, pos) + seq![(k, v)] + s.skip(pos)) by {
            assert(forall|j: int| 0 <= j < t.len() ==> #[trigger] t[j] == s[j + 1]);
        }
    }
}

/// Mapping to keys commutes with dropping the first entry.
pub proof fn lemma_keys_drop_first<T>(s: Seq<(Seq<char>, T)>)
    requires
        s.len() > 0,
    ensures
        keys_of(s.drop_first()) == keys_of(s).drop_first(),
        keys_of(s) == seq![s[0].0] + keys_of(s.drop_first()),
{
    assert(forall|i: int| 0 <= i < s.len() - 1 ==> #[trigger] s.drop_first()[i] == s[i + 1]);
    assert(keys_of(s.drop_first()) =~= keys_of(s).drop_first());
    assert(keys_of(s) =~= seq![s[0].0] + keys_of(s.drop_first()));
}

/// Sorted keys stay sorted when the first entry is dropped.
pub proof fn lemma_sorted_keys_drop_first<T>(s: Seq<(Seq<char>, T)>)
    requires
        sorted_keys(s),
        s.len() > 0,
    ensures
        sorted_keys(s.drop_first()),
{
    lemma_keys_drop_first(s);
    let ks = keys_of(s);
    let kt = keys_of(s.drop_first());
    assert(forall|i: int| 0 <= i < kt.len() ==> #[trigger] kt[i] == ks[i + 1]);
}

/// What `table_insert` does to the key order and the key set when the key is
/// fresh.
pub proof fn lemma_table_insert_props<T>(s: Seq<(Seq<char>, T)>, k: Seq<char>, v: T)
    requires
        sorted_keys(s),
        find_key(s, k) is None,
    ensures
        sorted_keys(table_insert(s, k, v)),
        keys_of(table_insert(s, k, v)).to_set() == keys_of(s).to_set().insert(k),
        find_key(table_insert(s, k, v), k) is Some,
        table_insert(s, k, v).len() == s.len() + 1,
    decreases s.len(),
{
    lemma_find_key_props(s, k);
    let r = table_insert(s, k, v);
    if s.len() == 0 {
        assert(keys_of(r) =~= seq![k]);
        assert(keys_of(r).to_set() =~= keys_of(s).to_set().insert(k)) by {
            assert forall|y: Seq<char>| #[trigger] keys_of(r).contains(y) <==> y == k by {
                if keys_of(r).contains(y) {
                    let i = choose|i: int| 0 <= i < keys_of(r).len() && keys_of(r)[i] == y;
                    assert(i == 0);
                }
                if y == k {
                    assert(keys_of(r)[0] == y);
                }
            }
            assert(keys_of(s).len() == 0);
        }
        assert(r[0].0 == k);
    } else if lex_lt(s[0].0, k) {
        let t = s.drop_first();
        lemma_keys_drop_first(s);
        lemma_sorted_keys_drop_first(s);
        assert(forall|i: int| 0 <= i < t.len() ==> #[trigger] t[i] == s[i + 1]);
        assert(find_key(t, k) is None) by {
            lemma_find_key_props(t, k);
            if find_key(t, k) is Some {
                let i = find_key(t, k).unwrap();
                assert(s[i + 1] == t[i]);
            }
        }
        lemma_table_insert_props(t, k, v);
        let rt = table_insert(t, k, v);
        assert(r =~= seq![s[0]] + rt);
        assert(keys_of(r) =~= seq![s[0].0] + keys_of(rt)) by {
            assert(forall|i: int| 0 <= i < rt.len() ==> #[trigger] r[i + 1] == rt[i]);
        }
        assert forall|j: int| 0 <= j < keys_of(rt).len() implies lex_lt(
            s[0].0,
            #[trigger] keys_of(rt)[j],
        ) by {
            assert(keys_of(rt).contains(keys_of(rt)[j]));
            assert(keys_of(rt).to_set().contains(keys_of(rt)[j]));
            if keys_of(rt)[j] == k {
            } else {
                assert(keys_of(t).to_set().contains(keys_of(rt)[j]));
                assert(keys_of(t).contains(keys_of(rt)[j]));
                let i = choose|i: int| 0 <= i < keys_of(t).len() && keys_of(t)[i] == keys_of(
                    rt,
                )[j];
                assert(keys_of(t)[i] == keys_of(s)[i + 1]);
                assert(lex_lt(keys_of(s)[0], keys_of(s)[i + 1]));
                assert(keys_of(s)[0] == s[0].0);
            }
        }
        assert(sorted_keys(r)) by {
            assert(forall|i: int, j: int|
                1 <= i < j < keys_of(r).len() ==> keys_of(r)[i] == keys_of(rt)[i - 1] && keys_of(
                    r,
                )[j] == keys_of(rt)[j - 1]);
            assert(forall|j: int|
                1 <= j < keys_of(r).len() ==> lex_lt(keys_of(r)[0], #[trigger] keys_of(r)[j]));
        }
        assert(keys_of(r).to_set() =~= keys_of(s).to_set().insert(k)) by {
            assert forall|y: Seq<char>| #[trigger] keys_of(r).contains(y) <==> (keys_of(
                s,
            ).contains(y) || y == k) by {
                crate::idset::lemma_cons_contains(s[0].0, keys_of(rt), y);
                crate::idset::lemma_cons_contains(s[0].0, keys_of(t), y);
                assert(keys_of(rt).contains(y) <==> keys_of(rt).to_set().contains(y));
                assert(keys_of(t).contains(y) <==> keys_of(t).to_set().contains(y));
            }
        }
        assert(find_key(r, k) is Some) by {
            assert(s[0].0 != k) by {
                lemma_lex_trichotomy(s[0].0, k);
            }
            assert(r.drop_first() =~= rt);
        }
    } else {
        assert(s[0].0 != k);
        lemma_lex_trichotomy(s[0].0, k);
        assert(lex_lt(k, s[0].0));
        assert(r =~= seq![(k, v)] + s);
        assert(keys_of(r) =~= seq![k] + keys_of(s)) by {
            assert(forall|i: int| 0 <= i < s.len() ==> #[trigger] r[i + 1] == s[i]);
        }
        assert forall|j: int| 0 <= j < keys_of(s).len() implies lex_lt(k, keys_of(s)[j]) by {
            if j > 0 {
                crate::order::lemma_lex_lt_trans(k, keys_of(s)[0], keys_of(s)[j]);
            }
        }
        assert(sorted_keys(r)) by {
            assert(forall|i: int, j: int|
                1 <= i < j < keys_of(r).len() ==> keys_of(r)[i] == keys_of(s)[i - 1] && keys_of(
                    r,
                )[j] == keys_of(s)[j - 1]);
            assert(forall|j: int|
                1 <= j < keys_of(r).len() ==> lex_lt(keys_of(r)[0], #[trigger] keys_of(r)[j]));
        }
        assert(keys_of(r).to_set() =~= keys_of(s).to_set().insert(k)) by {
            assert forall|y: Seq<char>| #[trigger] keys_of(r).contains(y) <==> (keys_of(
                s,
            ).contains(y) || y == k) by {
                crate::idset::lemma_cons_contains(k, keys_of(s), y);
            }
        }
        assert(r[0].0 == k);
    }
}

/// A map from identifier strings to values, in ascending key order.
#[derive(Debug)]
pub struct Table<V> {
    entries: Vec<(String, V)>,
}

impl<V: View> View for Table<V> {
    type V = Seq<(Seq<char>, <V as View>::V)>;

    closed spec fn view(&self) -> Seq<(Seq<char>, <V as View>::V)> {
        Seq::new(self.entries@.len(), |i: int| (self.entries@[i].0@, self.entries@[i].1@))
    }
}

impl<V: View> Table<V> {
    /// Keys strictly ascending.
    pub open spec fn wf(&self) -> bool {
        sorted_keys(self@)
    }

    /// The empty table.
    pub fn new() -> (r: Self)
        ensures
            r@ == Seq::<(Seq<char>, <V as View>::V)>::empty(),
            r.wf(),
    {
        let r = Table { entries: Vec::new() };
        proof {
            assert(r@ =~= Seq::<(Seq<char>, <V as View>::V)>::empty());
            assert(keys_of(r@) =~= Seq::<Seq<char>>::empty());
        }
        r
    }

    /// How many entries the table holds.
    pub fn len(&self) -> (r: usize)
        ensures
            r == self@.len(),
    {
        self.entries.len()
    }

    /// The key of the entry at a position of the key order.
    pub fn key_at(&self, i: usize) -> (r: &String)
        requires
            i < self@.len(),
        ensures
            r@ == self@[i as int].0,
    {
        &self.entries[i].0
    }

    /// The value of the entry at a position of the key order.
    pub fn val_at(&self, i: usize) -> (r: &V)
        requires
            i < self@.len(),
        ensures
            r@ == self@[i as int].1,
    {
        &self.entries[i].1
    }

    /// The position of the entry with key `k`, if one exists.
    pub fn find(&self, k: &str) -> (r: Option<usize>)
        ensures
            match r {
                Some(i) => find_key(self@, k@) == Some(i as int) && i < self@.len()
                    && self@[i as int].0 == k@,
                None => find_key(self@, k@) is None,
            },
    {
        let mut i: usize = 0;
        let len = self.entries.len();
        while i < len
            invariant
                i <= len,
                len == self@.len(),
                forall|j: int| 0 <= j < i ==> (#[trigger] self@[j]).0 != k@,
            decreases len - i,
        {
            if str_eq(self.entries[i].0.as_str(), k) {
                proof {
                    lemma_find_key_at(self@, k@, i as int);
                }
                return Some(i);
            }
            i = i + 1;
        }
        proof {
            lemma_find_key_at(self@, k@, len as int);
        }
        None
    }

    /// The value under key `k`, if one exists.
    pub fn get(&self, k: &str) -> (r: Option<&V>)
        ensures
            match r {
                Some(v) => find_key(self@, k@) is Some && v@ == self@[find_key(
                    self@,
                    k@,
                ).unwrap()].1,
                None => find_key(self@, k@) is None,
            },
    {
        match self.find(k) {
            Some(i) => Some(&self.entries[i].1),
            None => None,
        }
    }

    /// Adds an entry under a key the table does not hold yet.
    pub fn insert_new(&mut self, k: String, v: V)
        requires
            old(self).wf(),
            find_key(old(self)@, k@) is None,
        ensures
            final(self).wf(),
            final(self)@ == table_insert(old(self)@, k@, v@),
    {
        let ghost orig = self@;
        let mut pos: usize = 0;
        let len = self.entries.len();
        while pos < len && str_lt(self.entries[pos].0.as_str(), k.as_str())
            invariant
                pos <= len,
                len == self@.len(),
                self@ == orig,
                forall|j: int| 0 <= j < pos ==> lex_lt((#[trigger] orig[j]).0, k@),
            decreases len - pos,
        {
            pos = pos + 1;
        }
        proof {
            lemma_table_insert_at(orig, k@, v@, pos as int);
            lemma_table_insert_props(orig, k@, v@);
        }
        self.entries.insert(pos, (k, v));
        proof {
            assert(self@ =~= orig.subrange(0, pos as int) + seq![(k@, v@)] + orig.skip(pos as int));
        }
    }

    /// Replaces the value at a position, the key staying as it is; hands the
    /// previous value back.
    pub fn replace_at(&mut self, i: usize, v: V) -> (r: V)
        requires
            i < old(self)@.len(),
        ensures
            final(self)@ == old(self)@.update(i as int, (old(self)@[i as int].0, v@)),
            keys_of(final(self)@) == keys_of(old(self)@),
            r@ == old(self)@[i as int].1,
    {
        let ghost orig = self@;
        let (k, r) = self.entries.remove(i);
        self.entries.insert(i, (k, v));
        proof {
            assert(self@ =~= orig.update(i as int, (orig[i as int].0, v@)));
            assert(keys_of(self@) =~= keys_of(orig));
        }
        r
    }
}

} // verus!
