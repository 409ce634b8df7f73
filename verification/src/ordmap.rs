//! An ordered string-keyed map, kept as a vector of entries sorted in strictly
//! ascending lexicographic key order. The abstract contents are a
//! `Map<Seq<char>, _>`; the entry sequence fixes the iteration order.

use vstd::prelude::*;
use crate::lex::lex_lt;
use crate::lex::lemma_lex_lt_irrefl;
use crate::lex::lemma_lex_lt_trans;
use crate::lex::str_cmp;
use crate::lex::KeyCmp;

verus! {

/// The keys of the entry sequence stand in strictly ascending lexicographic
/// order; in particular, every key occurs at most once.
pub open spec fn entries_sorted<T>(s: Seq<(Seq<char>, T)>) -> bool {
    forall|i: int, j: int| 0 <= i < j < s.len() ==> lex_lt(s[i].0, s[j].0)
}

/// Some entry of `s` carries the key `k`.
pub open spec fn seq_has_key<T>(s: Seq<(Seq<char>, T)>, k: Seq<char>) -> bool {
    exists|i: int| 0 <= i < s.len() && (#[trigger] s[i]).0 == k
}

/// An index of `s` whose entry carries the key `k`, when one exists.
pub open spec fn seq_key_index<T>(s: Seq<(Seq<char>, T)>, k: Seq<char>) -> int {
    choose|i: int| 0 <= i < s.len() && (#[trigger] s[i]).0 == k
}

/// The mapping induced by an entry sequence: each key that occurs is bound to
/// the value it occurs with.
pub open spec fn map_of<T>(s: Seq<(Seq<char>, T)>) -> Map<Seq<char>, T> {
    Map::new(|k: Seq<char>| seq_has_key(s, k), |k: Seq<char>| s[seq_key_index(s, k)].1)
}

/// In a sorted entry sequence, a key determines its index.
pub proof fn lemma_sorted_key_unique<T>(s: Seq<(Seq<char>, T)>, i: int, j: int)
    requires
        entries_sorted(s),
        0 <= i < s.len(),
        0 <= j < s.len(),
        s[i].0 == s[j].0,
    ensures
        i == j,
{
    if i < j || j < i {
        lemma_lex_lt_irrefl(s[i].0);
    }
}

/// Each entry of a sorted sequence appears in the induced map with its value,
/// and the induced map holds no key beyond those of the entries.
pub proof fn lemma_map_of_entries<T>(s: Seq<(Seq<char>, T)>)
    requires
        entries_sorted(s),
    ensures
        forall|i: int| 0 <= i < s.len() ==> map_of(s).contains_key((#[trigger] s[i]).0)
            && map_of(s)[s[i].0] == s[i].1,
        forall|k: Seq<char>| #[trigger] map_of(s).contains_key(k) <==> seq_has_key(s, k),
{
    assert forall|i: int| 0 <= i < s.len() implies map_of(s).contains_key((#[trigger] s[i]).0)
        && map_of(s)[s[i].0] == s[i].1 by {
        assert(seq_has_key(s, s[i].0));
        let j = seq_key_index(s, s[i].0);
        assert(0 <= j < s.len() && s[j].0 == s[i].0);
        lemma_sorted_key_unique(s, i, j);
    }
}

/// No key can be found where the scan for it passed every smaller key and
/// stopped before a larger one.
pub proof fn lemma_key_not_present<T>(s: Seq<(Seq<char>, T)>, k: Seq<char>, pos: int)
    requires
        entries_sorted(s),
        0 <= pos <= s.len(),
        forall|t: int| 0 <= t < pos ==> lex_lt((#[trigger] s[t]).0, k),
        pos == s.len() || lex_lt(k, s[pos].0),
    ensures
        !seq_has_key(s, k),
{
    assert forall|i: int| 0 <= i < s.len() implies (#[trigger] s[i]).0 != k by {
        if i < pos {
            assert(lex_lt(s[i].0, k));
            if s[i].0 == k {
                lemma_lex_lt_irrefl(k);
            }
        } else {
            if i > pos {
                lemma_lex_lt_trans(k, s[pos].0, s[i].0);
            }
            if s[i].0 == k {
                lemma_lex_lt_irrefl(k);
            }
        }
    }
}

/// Inserting an entry at its sorted position keeps the sequence sorted, and
/// the induced map gains exactly that binding.
pub proof fn lemma_sorted_insert<T>(s: Seq<(Seq<char>, T)>, pos: int, k: Seq<char>, v: T)
    requires
        entries_sorted(s),
        0 <= pos <= s.len(),
        forall|t: int| 0 <= t < pos ==> lex_lt((#[trigger] s[t]).0, k),
        pos == s.len() || lex_lt(k, s[pos].0),
    ensures
        entries_sorted(s.insert(pos, (k, v))),
        map_of(s.insert(pos, (k, v))) == map_of(s).insert(k, v),
{
    let s1 = s.insert(pos, (k, v));
    s.insert_ensures(pos, (k, v));
    assert forall|i: int, j: int| 0 <= i < j < s1.len() implies lex_lt(s1[i].0, s1[j].0) by {
        if j < pos {
            assert(lex_lt(s[i].0, s[j].0));
        } else if j == pos {
            assert(s1[i] == s[i]);
            assert(lex_lt(s[i].0, k));
        } else {
            assert(s1[j] == s[j - 1]);
            if i < pos {
                assert(s1[i] == s[i]);
                if j - 1 == pos {
                    assert(lex_lt(s[i].0, k));
                } else {
                    assert(lex_lt(s[i].0, s[j - 1].0));
                }
            } else if i == pos {
                if j - 1 == pos {
                    assert(lex_lt(k, s[pos].0));
                } else {
                    assert(lex_lt(s[pos].0, s[j - 1].0));
                    lemma_lex_lt_trans(k, s[pos].0, s[j - 1].0);
                }
            } else {
                assert(s1[i] == s[i - 1]);
                assert(lex_lt(s[i - 1].0, s[j - 1].0));
            }
        }
    }
    let m1 = map_of(s1);
    let m2 = map_of(s).insert(k, v);
    assert forall|kk: Seq<char>| m1.contains_key(kk) implies m2.contains_key(kk) by {
        assert(seq_has_key(s1, kk));
        let i = seq_key_index(s1, kk);
        assert(0 <= i < s1.len() && s1[i].0 == kk);
        if i != pos {
            if i < pos {
                assert(s[i].0 == kk);
            } else {
                assert(s1[i] == s[i - 1]);
                assert(s[i - 1].0 == kk);
            }
            assert(seq_has_key(s, kk));
        }
    }
    assert forall|kk: Seq<char>| m2.contains_key(kk) implies m1.contains_key(kk) by {
        if kk == k {
            assert(s1[pos].0 == kk);
            assert(seq_has_key(s1, kk));
        } else {
            assert(map_of(s).contains_key(kk));
            assert(seq_has_key(s, kk));
            let i = seq_key_index(s, kk);
            assert(0 <= i < s.len() && s[i].0 == kk);
            if i < pos {
                assert(s1[i].0 == kk);
            } else {
                assert(s1[i + 1] == s[i]);
                assert(s1[i + 1].0 == kk);
            }
            assert(seq_has_key(s1, kk));
        }
    }
    assert forall|kk: Seq<char>| m1.contains_key(kk) && m2.contains_key(kk) implies m1[kk]
        == m2[kk] by {
        let i1 = seq_key_index(s1, kk);
        assert(0 <= i1 < s1.len() && s1[i1].0 == kk);
        if kk == k {
            assert(s1[pos].0 == k);
            lemma_sorted_key_unique(s1, i1, pos);
            assert(m1[kk] == v);
        } else {
            assert(i1 != pos);
            assert(seq_has_key(s, kk));
            let i2 = seq_key_index(s, kk);
            assert(0 <= i2 < s.len() && s[i2].0 == kk);
            let i1p: int = if i1 < pos { i1 } else { i1 - 1 };
            if i1 > pos {
                assert(s1[i1] == s[i1 - 1]);
            }
            assert(s[i1p] == s1[i1]);
            lemma_sorted_key_unique(s, i1p, i2);
            assert(m1[kk] == s1[i1].1);
            assert(m2[kk] == s[i2].1);
        }
    }
    assert(m1 =~= m2);
}

/// Replacing the value of the entry that already carries the key keeps the
/// sequence sorted, and acts on the induced map as `Map::insert`.
pub proof fn lemma_sorted_update<T>(s: Seq<(Seq<char>, T)>, pos: int, k: Seq<char>, v: T)
    requires
        entries_sorted(s),
        0 <= pos < s.len(),
        s[pos].0 == k,
    ensures
        entries_sorted(s.update(pos, (k, v))),
        map_of(s.update(pos, (k, v))) == map_of(s).insert(k, v),
{
    let s1 = s.update(pos, (k, v));
    assert forall|t: int| 0 <= t < s1.len() implies (#[trigger] s1[t]).0 == s[t].0 by {}
    assert forall|i: int, j: int| 0 <= i < j < s1.len() implies lex_lt(s1[i].0, s1[j].0) by {
        assert(lex_lt(s[i].0, s[j].0));
    }
    let m1 = map_of(s1);
    let m2 = map_of(s).insert(k, v);
    assert forall|kk: Seq<char>| m1.contains_key(kk) implies m2.contains_key(kk) by {
        assert(seq_has_key(s1, kk));
        let i = seq_key_index(s1, kk);
        assert(s[i].0 == kk);
        assert(seq_has_key(s, kk));
    }
    assert forall|kk: Seq<char>| m2.contains_key(kk) implies m1.contains_key(kk) by {
        if kk == k {
            assert(s1[pos].0 == kk);
            assert(seq_has_key(s1, kk));
        } else {
            assert(seq_has_key(s, kk));
            let i = seq_key_index(s, kk);
            assert(s1[i].0 == kk);
            assert(seq_has_key(s1, kk));
        }
    }
    assert forall|kk: Seq<char>| m1.contains_key(kk) && m2.contains_key(kk) implies m1[kk]
        == m2[kk] by {
        let i1 = seq_key_index(s1, kk);
        assert(0 <= i1 < s1.len() && s1[i1].0 == kk);
        if kk == k {
            assert(s1[pos].0 == k);
            lemma_sorted_key_unique(s1, i1, pos);
            assert(m1[kk] == v);
        } else {
            assert(i1 != pos);
            assert(seq_has_key(s, kk));
            let i2 = seq_key_index(s, kk);
            assert(0 <= i2 < s.len() && s[i2].0 == kk);
            assert(s[i1].0 == kk);
            lemma_sorted_key_unique(s, i1, i2);
            assert(m1[kk] == s1[i1].1);
            assert(m2[kk] == s[i2].1);
        }
    }
    assert(m1 =~= m2);
}

/// A mapping from string names to values, held as a vector of entries in
/// strictly ascending lexicographic key order. Inserting an already present
/// name overwrites its value; iteration by index walks the names in order.
#[derive(Debug, Clone)]
pub struct OrdMap<V> {
    pub entries: Vec<(String, V)>,
}

impl<V: View> OrdMap<V> {
    /// The entries as the sequence of (key, value) abstractions, in storage
    /// (that is, iteration) order.
    pub open spec fn kseq(self) -> Seq<(Seq<char>, V::V)> {
        self.entries@.map(|i: int, e: (String, V)| (e.0@, e.1@))
    }

    /// Well-formed: the keys stand in strictly ascending lexicographic order.
    pub open spec fn wf(self) -> bool {
        entries_sorted(self.kseq())
    }

    /// An empty map.
    pub fn new() -> (m: OrdMap<V>)
        ensures
            m.wf(),
            m@ == Map::<Seq<char>, V::V>::empty(),
            m.kseq() == Seq::<(Seq<char>, V::V)>::empty(),
    {
        let m = OrdMap::<V> { entries: Vec::new() };
        proof {
            assert(m.kseq() =~= Seq::<(Seq<char>, V::V)>::empty());
            assert(m@ =~= Map::<Seq<char>, V::V>::empty());
        }
        m
    }

    /// The number of entries.
    pub fn len(&self) -> (n: usize)
        ensures
            n == self.kseq().len(),
    {
        self.entries.len()
    }

    /// The index of the first entry whose key is not lexicographically below
    /// `key`, and whether that entry carries `key` itself.
    fn position_of(&self, key: &str) -> (r: (usize, bool))
        ensures
            r.0 <= self.kseq().len(),
            forall|t: int| 0 <= t < r.0 ==> lex_lt((#[trigger] self.kseq()[t]).0, key@),
            r.1 ==> r.0 < self.kseq().len() && self.kseq()[r.0 as int].0 == key@,
            !r.1 ==> r.0 == self.kseq().len() || lex_lt(key@, self.kseq()[r.0 as int].0),
    {
        let n = self.entries.len();
        let mut i: usize = 0;
        while i < n
            invariant
                n == self.entries@.len(),
                i <= n,
                forall|t: int| 0 <= t < i ==> lex_lt((#[trigger] self.kseq()[t]).0, key@),
            decreases n - i,
        {
            match str_cmp(self.entries[i].0.as_str(), key) {
                KeyCmp::Less => {
                    i = i + 1;
                },
                KeyCmp::Equal => {
                    return (i, true);
                },
                KeyCmp::Greater => {
                    return (i, false);
                },
            }
        }
        (i, false)
    }

    /// Binds `key` to `value`: a fresh name takes its sorted place among the
    /// entries, an already present name keeps its place and has its value
    /// overwritten.
    pub fn insert(&mut self, key: String, value: V)
        requires
            old(self).wf(),
        ensures
            final(self).wf(),
            final(self)@ == old(self)@.insert(key@, value@),
    {
        let ghost s0 = self.kseq();
        let ghost gk: Seq<char> = key@;
        let ghost gv = value@;
        let (pos, equal) = self.position_of(key.as_str());
        if equal {
            self.entries.remove(pos);
            self.entries.insert(pos, (key, value));
            proof {
                assert(self.kseq() =~= s0.update(pos as int, (gk, gv)));
                lemma_sorted_update(s0, pos as int, gk, gv);
            }
        } else {
            self.entries.insert(pos, (key, value));
            proof {
                assert(self.kseq() =~= s0.insert(pos as int, (gk, gv)));
                lemma_sorted_insert(s0, pos as int, gk, gv);
            }
        }
    }

    /// Looks the name up: its bound value when present, `None` when absent.
    pub fn get(&self, key: &str) -> (r: Option<&V>)
        requires
            self.wf(),
        ensures
            (match r {
                Option::Some(v) => self@.contains_key(key@) && v@ == self@[key@],
                Option::None => !self@.contains_key(key@),
            }),
    {
        let (pos, equal) = self.position_of(key);
        if equal {
            proof {
                lemma_map_of_entries(self.kseq());
            }
            Some(&self.entries[pos].1)
        } else {
            proof {
                lemma_key_not_present(self.kseq(), key@, pos as int);
            }
            None
        }
    }

    /// The key of the entry at iteration position `i`.
    pub fn key_at(&self, i: usize) -> (k: &String)
        requires
            i < self.kseq().len(),
        ensures
            k@ == self.kseq()[i as int].0,
    {
        &self.entries[i].0
    }

    /// The value of the entry at iteration position `i`.
    pub fn value_at(&self, i: usize) -> (v: &V)
        requires
            i < self.kseq().len(),
        ensures
            v@ == self.kseq()[i as int].1,
    {
        &self.entries[i].1
    }

    /// Iteration law: walking a well-formed map by index yields its entries in
    /// strictly ascending lexicographic key order, whatever order they were
    /// inserted in, and those entries are exactly the map's contents.
    pub proof fn lemma_iteration_order(self)
        requires
            self.wf(),
        ensures
            forall|i: int, j: int| 0 <= i < j < self.kseq().len()
                ==> lex_lt(self.kseq()[i].0, self.kseq()[j].0),
            forall|i: int| 0 <= i < self.kseq().len()
                ==> self@.contains_key((#[trigger] self.kseq()[i]).0)
                    && self@[self.kseq()[i].0] == self.kseq()[i].1,
            forall|k: Seq<char>| #[trigger] self@.contains_key(k) <==> seq_has_key(self.kseq(), k),
    {
        lemma_map_of_entries(self.kseq());
    }
}

impl<V: View> View for OrdMap<V> {
    type V = Map<Seq<char>, V::V>;

    /// The abstract contents: the mapping the sorted entries induce.
    open spec fn view(&self) -> Map<Seq<char>, V::V> {
        map_of(self.kseq())
    }
}

/// The mapping reached by a sequence of insertions, applied in order to the
/// starting mapping `m0`. Each call of `OrdMap::insert` (and so each
/// `add_field` or `add_tag` on a measurement) performs exactly one
/// `Map::insert` on the abstract contents, so a run of such calls is this
/// fold of its (name, value) pairs.
pub open spec fn apply_inserts<T>(m0: Map<Seq<char>, T>, ops: Seq<(Seq<char>, T)>) -> Map<
    Seq<char>,
    T,
>
    decreases ops.len(),
{
    if ops.len() == 0 {
        m0
    } else {
        apply_inserts(m0, ops.drop_last()).insert(ops.last().0, ops.last().1)
    }
}

/// Last-write-wins law: after a sequence of insertions the mapping holds
/// exactly the names inserted (beyond those it started with), each bound to
/// the value of its most recent insertion; a name never inserted keeps its
/// starting binding, if any.
pub proof fn lemma_last_write_wins<T>(m0: Map<Seq<char>, T>, ops: Seq<(Seq<char>, T)>, name: Seq<
    char,
>)
    ensures
        apply_inserts(m0, ops).contains_key(name) <==> ((exists|i: int|
            0 <= i < ops.len() && (#[trigger] ops[i]).0 == name) || m0.contains_key(name)),
        forall|i: int|
            0 <= i < ops.len() && (#[trigger] ops[i]).0 == name && (forall|j: int|
                i < j < ops.len() ==> (#[trigger] ops[j]).0 != name) ==> apply_inserts(m0, ops)[name]
                == ops[i].1,
        !(exists|i: int| 0 <= i < ops.len() && (#[trigger] ops[i]).0 == name)
            && m0.contains_key(name) ==> apply_inserts(m0, ops)[name] == m0[name],
    decreases ops.len(),
{
    if ops.len() > 0 {
        let prev = ops.drop_last();
        let last = ops.last();
        lemma_last_write_wins(m0, prev, name);
        assert forall|i: int|
            0 <= i < ops.len() && (#[trigger] ops[i]).0 == name && (forall|j: int|
                i < j < ops.len() ==> (#[trigger] ops[j]).0 != name) implies apply_inserts(m0, ops)[name]
            == ops[i].1 by {
            if last.0 == name {
                assert(ops[ops.len() - 1].0 == name);
                assert(i == ops.len() - 1);
            } else {
                assert(i < ops.len() - 1);
                assert(prev[i] == ops[i]);
                assert(forall|j: int| i < j < prev.len() ==> (#[trigger] prev[j]).0 != name);
                assert(apply_inserts(m0, prev)[name] == prev[i].1);
            }
        }
        if last.0 != name {
            assert forall|i: int|
                0 <= i < ops.len() && (#[trigger] ops[i]).0 == name implies 0 <= i < prev.len()
                && prev[i].0 == name by {
                assert(i != ops.len() - 1);
            }
        }
    }
}

} // verus!
