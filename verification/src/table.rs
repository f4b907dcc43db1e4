//! An ordered table keyed by strings: the form in which this crate holds
//! every keyed collection of the gateway, in place of the concurrent hash
//! maps that the surrounding runtime would use. Entries keep their insertion
//! order; keys are unique. The table's mathematical view is a `Map` from
//! character sequences to values.

use vstd::prelude::*;

verus! {

/// An ordered string-keyed table with unique keys.
pub struct Table<V> {
    pub entries: Vec<(String, V)>,
}

/// The keys of an entry sequence, in order.
pub open spec fn table_keys<V>(s: Seq<(String, V)>) -> Seq<Seq<char>> {
    s.map_values(|p: (String, V)| p.0@)
}

/// No key occurs twice.
pub open spec fn table_uniq<V>(s: Seq<(String, V)>) -> bool {
    forall|i: int, j: int|
        0 <= i < j < s.len() ==> #[trigger] s[i].0@ != #[trigger] s[j].0@
}

/// The map that an entry sequence denotes.
pub open spec fn table_map<V>(s: Seq<(String, V)>) -> Map<Seq<char>, V>
    decreases s.len(),
{
    if s.len() == 0 {
        Map::empty()
    } else {
        table_map(s.drop_last()).insert(s.last().0@, s.last().1)
    }
}

/// The first index holding key `k`, or -1.
pub open spec fn table_idx<V>(s: Seq<(String, V)>, k: Seq<char>) -> int
    decreases s.len(),
{
    if s.len() == 0 {
        -1
    } else if s[0].0@ == k {
        0
    } else {
        let t = table_idx(s.skip(1), k);
        if t < 0 {
            -1
        } else {
            t + 1
        }
    }
}

/// The index of a key is in range and holds it; a negative index means the
/// key occurs nowhere.
pub proof fn lemma_table_idx<V>(s: Seq<(String, V)>, k: Seq<char>)
    ensures
        table_idx(s, k) >= 0 ==> {
            &&& table_idx(s, k) < s.len()
            &&& s[table_idx(s, k)].0@ == k
            &&& forall|i: int| 0 <= i < table_idx(s, k) ==> #[trigger] s[i].0@ != k
        },
        table_idx(s, k) < 0 ==> forall|i: int| 0 <= i < s.len() ==> #[trigger] s[i].0@ != k,
    decreases s.len(),
{
    if s.len() > 0 && s[0].0@ != k {
        lemma_table_idx(s.skip(1), k);
        if table_idx(s.skip(1), k) < 0 {
            assert forall|i: int| 0 <= i < s.len() implies #[trigger] s[i].0@ != k by {
                if i > 0 {
                    assert(s.skip(1)[i - 1] == s[i]);
                }
            }
        } else {
            assert(s.skip(1)[table_idx(s.skip(1), k)] == s[table_idx(s, k)]);
            assert forall|i: int| 0 <= i < table_idx(s, k) implies #[trigger] s[i].0@ != k by {
                if i > 0 {
                    assert(s.skip(1)[i - 1] == s[i]);
                }
            }
        }
    }
}

/// Dropping the last entry keeps keys unique.
pub proof fn lemma_uniq_drop_last<V>(s: Seq<(String, V)>)
    requires
        table_uniq(s),
        s.len() > 0,
    ensures
        table_uniq(s.drop_last()),
{
    let pre = s.drop_last();
    assert forall|i: int, j: int| 0 <= i < j < pre.len() implies #[trigger] pre[i].0@
        != #[trigger] pre[j].0@ by {
        assert(pre[i] == s[i]);
        assert(pre[j] == s[j]);
    }
}

/// With unique keys, the denoted map holds exactly the entries: each key of
/// an entry maps to its value, no other key is present, and the map's domain
/// is as large as the sequence.
pub proof fn lemma_table_map<V>(s: Seq<(String, V)>)
    requires
        table_uniq(s),
    ensures
        forall|k: Seq<char>|
            #[trigger] table_map(s).contains_key(k) <==> exists|i: int|
                0 <= i < s.len() && #[trigger] s[i].0@ == k,
        forall|i: int|
            0 <= i < s.len() ==> table_map(s).contains_key(#[trigger] s[i].0@) && table_map(s)[s[i].0@]
                == s[i].1,
        table_map(s).dom().finite(),
        table_map(s).dom().len() == s.len(),
    decreases s.len(),
{
    if s.len() == 0 {
        assert(table_map(s) =~= Map::<Seq<char>, V>::empty());
    } else {
        let pre = s.drop_last();
        lemma_uniq_drop_last(s);
        lemma_table_map(pre);
        let lk = s.last().0@;
        assert forall|i: int| 0 <= i < pre.len() implies #[trigger] pre[i].0@ != lk by {
            assert(pre[i] == s[i]);
            assert(s[i].0@ != s[s.len() - 1].0@);
        }
        assert(!table_map(pre).contains_key(lk));
        assert forall|i: int| 0 <= i < s.len() implies table_map(s).contains_key(
            #[trigger] s[i].0@,
        ) && table_map(s)[s[i].0@] == s[i].1 by {
            if i < s.len() - 1 {
                assert(pre[i] == s[i]);
                assert(pre[i].0@ != lk);
            }
        }
        assert forall|k: Seq<char>| #[trigger] table_map(s).contains_key(k) implies exists|i: int|
            0 <= i < s.len() && #[trigger] s[i].0@ == k by {
            if k != lk {
                let i = choose|i: int| 0 <= i < pre.len() && #[trigger] pre[i].0@ == k;
                assert(s[i].0@ == k);
            } else {
                assert(s[s.len() - 1].0@ == k);
            }
        }
        assert(table_map(s).dom().len() == s.len()) by {
            assert(table_map(s).dom() =~= table_map(pre).dom().insert(lk));
            vstd::set::axiom_set_insert_len(table_map(pre).dom(), lk);
        };
    }
}

/// Appending an entry extends the map; with a fresh key the keys stay
/// unique.
pub proof fn lemma_table_push<V>(s: Seq<(String, V)>, p: (String, V))
    ensures
        table_map(s.push(p)) == table_map(s).insert(p.0@, p.1),
        table_uniq(s) && (forall|i: int| 0 <= i < s.len() ==> #[trigger] s[i].0@ != p.0@)
            ==> table_uniq(s.push(p)),
{
    let s2 = s.push(p);
    assert(s2.drop_last() =~= s);
    assert(s2.last() == p);
    if table_uniq(s) && (forall|i: int| 0 <= i < s.len() ==> #[trigger] s[i].0@ != p.0@) {
        assert forall|i: int, j: int| 0 <= i < j < s2.len() implies #[trigger] s2[i].0@
            != #[trigger] s2[j].0@ by {
            assert(s2[i] == s[i]);
            assert(s2[i].0@ == s[i].0@);
            if j < s.len() {
                assert(s2[j] == s[j]);
                assert(s[i].0@ != s[j].0@);
            } else {
                assert(s2[j] == p);
                assert(s[i].0@ != p.0@);
            }
        }
    }
}

/// Replacing the entry at one index by another with the same key, viewed as
/// characters, updates the map at that key.
pub proof fn lemma_table_update<V>(s: Seq<(String, V)>, i: int, p: (String, V))
    requires
        table_uniq(s),
        0 <= i < s.len(),
        p.0@ == s[i].0@,
    ensures
        table_map(s.update(i, p)) == table_map(s).insert(p.0@, p.1),
        table_uniq(s.update(i, p)),
    decreases s.len(),
{
    let s2 = s.update(i, p);
    assert forall|a: int, b: int| 0 <= a < b < s2.len() implies #[trigger] s2[a].0@
        != #[trigger] s2[b].0@ by {
        assert(s2[a].0@ == s[a].0@);
        assert(s2[b].0@ == s[b].0@);
    }
    let pre = s.drop_last();
    lemma_uniq_drop_last(s);
    if i == s.len() - 1 {
        assert(s2.drop_last() =~= pre);
        assert(s2.last() == p);
        assert(table_map(s2) =~= table_map(s).insert(p.0@, p.1));
    } else {
        lemma_table_update(pre, i, p);
        assert(s2.drop_last() =~= pre.update(i, p));
        assert(pre[i] == s[i]);
        let lk = s.last().0@;
        assert(s[i].0@ != s[s.len() - 1].0@);
        assert(s2.last() == s.last());
        assert(table_map(s2) =~= table_map(pre).insert(p.0@, p.1).insert(lk, s.last().1));
        assert(table_map(s2) =~= table_map(s).insert(p.0@, p.1));
    }
}

/// Removing the entry at one index removes that entry's key from the map.
pub proof fn lemma_table_remove<V>(s: Seq<(String, V)>, i: int)
    requires
        table_uniq(s),
        0 <= i < s.len(),
    ensures
        table_map(s.remove(i)) == table_map(s).remove(s[i].0@),
        table_uniq(s.remove(i)),
    decreases s.len(),
{
    let s2 = s.remove(i);
    s.remove_ensures(i);
    assert forall|a: int, b: int| 0 <= a < b < s2.len() implies #[trigger] s2[a].0@
        != #[trigger] s2[b].0@ by {
        let x: int = if a < i {
            a
        } else {
            a + 1
        };
        let y: int = if b < i {
            b
        } else {
            b + 1
        };
        assert(s2[a] == s[x]);
        assert(s2[b] == s[y]);
        assert(s[x].0@ != s[y].0@);
    }
    let pre = s.drop_last();
    lemma_uniq_drop_last(s);
    lemma_table_map(pre);
    if i == s.len() - 1 {
        assert(s2 =~= pre);
        let lk = s[i].0@;
        assert forall|a: int| 0 <= a < pre.len() implies #[trigger] pre[a].0@ != lk by {
            assert(pre[a] == s[a]);
            assert(s[a].0@ != s[s.len() - 1].0@);
        }
        assert(!table_map(pre).contains_key(lk));
        assert(table_map(s2) =~= table_map(s).remove(lk));
    } else {
        lemma_table_remove(pre, i);
        assert(s2.drop_last() =~= pre.remove(i));
        assert(s2.last() == s.last());
        let lk = s.last().0@;
        assert(pre[i] == s[i]);
        assert(s[i].0@ != s[s.len() - 1].0@);
        assert(table_map(s2) =~= table_map(pre).remove(s[i].0@).insert(lk, s.last().1));
        assert(table_map(s2) =~= table_map(s).remove(s[i].0@));
    }
}

impl<V> Table<V> {
    /// The denoted map.
    pub open spec fn view_map(&self) -> Map<Seq<char>, V> {
        table_map(self.entries@)
    }

    /// Keys are unique.
    pub open spec fn wf(&self) -> bool {
        table_uniq(self.entries@)
    }

    /// The number of entries, which with unique keys is the size of the map.
    pub open spec fn spec_len(&self) -> nat {
        self.entries@.len()
    }

    /// An empty table.
    pub fn new() -> (r: Self)
        ensures
            r.wf(),
            r.view_map() == Map::<Seq<char>, V>::empty(),
            r.spec_len() == 0,
    {
        let r = Table { entries: Vec::new() };
        assert(r.view_map() =~= Map::<Seq<char>, V>::empty());
        r
    }

    /// The number of entries.
    pub fn len(&self) -> (r: usize)
        ensures
            r == self.spec_len(),
    {
        self.entries.len()
    }

    /// Whether the table has no entry.
    pub fn is_empty(&self) -> (r: bool)
        ensures
            r == (self.spec_len() == 0),
    {
        self.entries.len() == 0
    }

    /// The first position holding key `k`, if any.
    pub fn find_index(&self, k: &str) -> (r: Option<usize>)
        ensures
            match r {
                Some(i) => {
                    &&& i < self.entries@.len()
                    &&& self.entries@[i as int].0@ == k@
                    &&& table_idx(self.entries@, k@) == i as int
                },
                None => {
                    &&& table_idx(self.entries@, k@) < 0
                    &&& forall|i: int|
                        0 <= i < self.entries@.len() ==> #[trigger] self.entries@[i].0@ != k@
                },
            },
    {
        let owned: String = k.to_owned();
        let n = self.entries.len();
        for i in 0..n
            invariant
                n == self.entries@.len(),
                owned@ == k@,
                forall|j: int| 0 <= j < i ==> #[trigger] self.entries@[j].0@ != k@,
        {
            if self.entries[i].0.eq(&owned) {
                proof {
                    lemma_table_idx(self.entries@, k@);
                    let t = table_idx(self.entries@, k@);
                    assert(t >= 0);
                    if t < i as int {
                        assert(self.entries@[t].0@ != k@);
                    }
                    if t > i as int {
                        assert(self.entries@[i as int].0@ != k@);
                    }
                }
                return Some(i);
            }
        }
        proof {
            lemma_table_idx(self.entries@, k@);
            let t = table_idx(self.entries@, k@);
            if t >= 0 {
                assert(self.entries@[t].0@ == k@);
            }
        }
        None
    }

    /// Whether key `k` is present.
    pub fn contains_key(&self, k: &str) -> (r: bool)
        requires
            self.wf(),
        ensures
            r == self.view_map().contains_key(k@),
    {
        proof {
            lemma_table_map(self.entries@);
        }
        match self.find_index(k) {
            Some(_) => true,
            None => false,
        }
    }

    /// A reference to the value under key `k`, if any.
    pub fn get(&self, k: &str) -> (r: Option<&V>)
        requires
            self.wf(),
        ensures
            match r {
                Some(v) => self.view_map().contains_key(k@) && *v == self.view_map()[k@],
                None => !self.view_map().contains_key(k@),
            },
    {
        proof {
            lemma_table_map(self.entries@);
        }
        match self.find_index(k) {
            Some(i) => Some(&self.entries[i].1),
            None => None,
        }
    }

    /// Puts `v` under key `k`: a present key keeps its position and hands
    /// back its old value; a fresh key goes to the end.
    pub fn insert(&mut self, k: String, v: V) -> (r: Option<V>)
        requires
            old(self).wf(),
        ensures
            final(self).wf(),
            final(self).view_map() == old(self).view_map().insert(k@, v),
            match r {
                Some(o) => {
                    &&& old(self).view_map().contains_key(k@)
                    &&& o == old(self).view_map()[k@]
                    &&& final(self).spec_len() == old(self).spec_len()
                },
                None => {
                    &&& !old(self).view_map().contains_key(k@)
                    &&& final(self).spec_len() == old(self).spec_len() + 1
                },
            },
    {
        proof {
            lemma_table_map(self.entries@);
        }
        let ghost kv = k@;
        match self.find_index(k.as_str()) {
            Some(i) => {
                let ghost s = self.entries@;
                let old_pair = self.entries.remove(i);
                self.entries.insert(i, (k, v));
                proof {
                    let p = self.entries@[i as int];
                    assert(p.0@ == kv);
                    assert(self.entries@ =~= s.update(i as int, p)) by {
                        assert forall|a: int| 0 <= a < s.len() implies self.entries@[a] == s.update(
                            i as int,
                            p,
                        )[a] by {
                            if a < i as int {
                                assert(self.entries@[a] == s[a]);
                            } else if a > i as int {
                                assert(self.entries@[a] == s.remove(i as int)[a - 1]);
                            }
                        }
                    };
                    lemma_table_update(s, i as int, p);
                }
                Some(old_pair.1)
            },
            None => {
                let ghost s = self.entries@;
                self.entries.push((k, v));
                proof {
                    let p = self.entries@.last();
                    assert(p.0@ == kv);
                    assert(self.entries@ =~= s.push(p));
                    lemma_table_push(s, p);
                }
                None
            },
        }
    }

    /// Takes the value under key `k` out, if any.
    pub fn remove(&mut self, k: &str) -> (r: Option<V>)
        requires
            old(self).wf(),
        ensures
            final(self).wf(),
            final(self).view_map() == old(self).view_map().remove(k@),
            match r {
                Some(v) => {
                    &&& old(self).view_map().contains_key(k@)
                    &&& v == old(self).view_map()[k@]
                    &&& final(self).spec_len() + 1 == old(self).spec_len()
                },
                None => {
                    &&& !old(self).view_map().contains_key(k@)
                    &&& *final(self) == *old(self)
                },
            },
    {
        proof {
            lemma_table_map(self.entries@);
        }
        match self.find_index(k) {
            Some(i) => {
                let ghost s = self.entries@;
                let pair = self.entries.remove(i);
                proof {
                    lemma_table_remove(s, i as int);
                }
                Some(pair.1)
            },
            None => {
                proof {
                    assert(self.view_map().remove(k@) =~= self.view_map());
                }
                None
            },
        }
    }
}

/// The entries of `s` whose values satisfy `p`, in order.
pub open spec fn table_filter<V>(s: Seq<(String, V)>, p: spec_fn(V) -> bool) -> Seq<(String, V)>
    decreases s.len(),
{
    if s.len() == 0 {
        Seq::empty()
    } else if p(s.last().1) {
        table_filter(s.drop_last(), p).push(s.last())
    } else {
        table_filter(s.drop_last(), p)
    }
}

/// Keeping only the entries whose values satisfy `p` restricts the map to
/// the keys whose values satisfy `p`.
pub proof fn lemma_table_filter<V>(s: Seq<(String, V)>, p: spec_fn(V) -> bool)
    requires
        table_uniq(s),
    ensures
        table_uniq(table_filter(s, p)),
        forall|k: Seq<char>|
            #[trigger] table_map(table_filter(s, p)).contains_key(k) <==> (table_map(
                s,
            ).contains_key(k) && p(table_map(s)[k])),
        forall|k: Seq<char>|
            table_map(table_filter(s, p)).contains_key(k) ==> #[trigger] table_map(
                table_filter(s, p),
            )[k] == table_map(s)[k],
    decreases s.len(),
{
    let f = table_filter(s, p);
    lemma_table_map(s);
    if s.len() == 0 {
    } else {
        let pre = s.drop_last();
        lemma_uniq_drop_last(s);
        lemma_table_filter(pre, p);
        lemma_table_map(pre);
        let fpre = table_filter(pre, p);
        lemma_table_map(fpre);
        let last = s.last();
        let lk = last.0@;
        assert forall|i: int| 0 <= i < pre.len() implies #[trigger] pre[i].0@ != lk by {
            assert(pre[i] == s[i]);
            assert(s[i].0@ != s[s.len() - 1].0@);
        }
        assert(!table_map(pre).contains_key(lk));
        assert(!table_map(fpre).contains_key(lk));
        if p(last.1) {
            assert(f == fpre.push(last));
            lemma_table_push(fpre, last);
            assert(table_uniq(f)) by {
                assert forall|i: int| 0 <= i < fpre.len() implies #[trigger] fpre[i].0@ != lk by {
                    assert(table_map(fpre).contains_key(fpre[i].0@));
                }
            };
            assert(table_map(s) =~= table_map(pre).insert(lk, last.1));
        } else {
            assert(f == fpre);
            assert(table_map(s) =~= table_map(pre).insert(lk, last.1));
        }
    }
}

impl<V> Table<V> {
    /// The entries whose values satisfy `p`, in order.
    pub open spec fn spec_filter(&self, p: spec_fn(V) -> bool) -> Seq<(String, V)> {
        table_filter(self.entries@, p)
    }
}

/// The entries of `s` whose key (viewed as characters) and value satisfy
/// `q`, in order.
pub open spec fn table_filter_keyed<V>(
    s: Seq<(String, V)>,
    q: spec_fn(Seq<char>, V) -> bool,
) -> Seq<(String, V)>
    decreases s.len(),
{
    if s.len() == 0 {
        Seq::empty()
    } else if q(s.last().0@, s.last().1) {
        table_filter_keyed(s.drop_last(), q).push(s.last())
    } else {
        table_filter_keyed(s.drop_last(), q)
    }
}

/// A filtered sequence is no longer than its source.
pub proof fn lemma_table_filter_len<V>(s: Seq<(String, V)>, p: spec_fn(V) -> bool)
    ensures
        table_filter(s, p).len() <= s.len(),
    decreases s.len(),
{
    if s.len() > 0 {
        lemma_table_filter_len(s.drop_last(), p);
    }
}

/// Keeping only the entries satisfying `q` restricts the map to the keys
/// whose entries satisfy `q`.
pub proof fn lemma_table_filter_keyed<V>(s: Seq<(String, V)>, q: spec_fn(Seq<char>, V) -> bool)
    requires
        table_uniq(s),
    ensures
        table_uniq(table_filter_keyed(s, q)),
        forall|k: Seq<char>|
            #[trigger] table_map(table_filter_keyed(s, q)).contains_key(k) <==> (table_map(
                s,
            ).contains_key(k) && q(k, table_map(s)[k])),
        forall|k: Seq<char>|
            table_map(table_filter_keyed(s, q)).contains_key(k) ==> #[trigger] table_map(
                table_filter_keyed(s, q),
            )[k] == table_map(s)[k],
    decreases s.len(),
{
    let f = table_filter_keyed(s, q);
    lemma_table_map(s);
    if s.len() == 0 {
    } else {
        let pre = s.drop_last();
        lemma_uniq_drop_last(s);
        lemma_table_filter_keyed(pre, q);
        lemma_table_map(pre);
        let fpre = table_filter_keyed(pre, q);
        lemma_table_map(fpre);
        let last = s.last();
        let lk = last.0@;
        assert forall|i: int| 0 <= i < pre.len() implies #[trigger] pre[i].0@ != lk by {
            assert(pre[i] == s[i]);
            assert(s[i].0@ != s[s.len() - 1].0@);
        }
        assert(!table_map(pre).contains_key(lk));
        assert(!table_map(fpre).contains_key(lk));
        if q(last.0@, last.1) {
            assert(f == fpre.push(last));
            lemma_table_push(fpre, last);
            assert(table_uniq(f)) by {
                assert forall|i: int| 0 <= i < fpre.len() implies #[trigger] fpre[i].0@ != lk by {
                    assert(table_map(fpre).contains_key(fpre[i].0@));
                }
            };
            assert(table_map(s) =~= table_map(pre).insert(lk, last.1));
        } else {
            assert(f == fpre);
            assert(table_map(s) =~= table_map(pre).insert(lk, last.1));
        }
    }
}

} // verus!
