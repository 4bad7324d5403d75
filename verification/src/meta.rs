//! The `META` block of a record: a map from keys to values, kept with its
//! keys in ascending order so that it is listed the same way every time.
use vstd::prelude::*;
use crate::text::chars_of;

verus! {

/// Lexicographic order on character sequences, comparing characters by
/// code point: the order of `Ord for str` (UTF-8 byte order and code point
/// order agree).
pub open spec fn seq_lt(a: Seq<char>, b: Seq<char>) -> bool
    decreases a.len(),
{
    if a.len() == 0 {
        b.len() > 0
    } else if b.len() == 0 {
        false
    } else if a[0] < b[0] {
        true
    } else if a[0] == b[0] {
        seq_lt(a.drop_first(), b.drop_first())
    } else {
        false
    }
}

pub proof fn lemma_seq_lt_irreflexive(a: Seq<char>)
    ensures
        !seq_lt(a, a),
    decreases a.len(),
{
    if a.len() > 0 {
        lemma_seq_lt_irreflexive(a.drop_first());
    }
}

pub proof fn lemma_seq_lt_transitive(a: Seq<char>, b: Seq<char>, c: Seq<char>)
    requires
        seq_lt(a, b),
        seq_lt(b, c),
    ensures
        seq_lt(a, c),
    decreases a.len(),
{
    if a.len() > 0 && b.len() > 0 && c.len() > 0 && a[0] == b[0] && b[0] == c[0] {
        lemma_seq_lt_transitive(a.drop_first(), b.drop_first(), c.drop_first());
    }
}

pub proof fn lemma_seq_lt_total(a: Seq<char>, b: Seq<char>)
    requires
        a != b,
    ensures
        seq_lt(a, b) || seq_lt(b, a),
    decreases a.len(),
{
    if a.len() > 0 && b.len() > 0 && a[0] == b[0] {
        if a.drop_first() == b.drop_first() {
            assert(a =~= seq![a[0]] + a.drop_first());
            assert(b =~= seq![b[0]] + b.drop_first());
        }
        lemma_seq_lt_total(a.drop_first(), b.drop_first());
    } else if a.len() == 0 && b.len() == 0 {
        assert(a =~= b);
    }
}

/// Keys in strictly ascending order (so each key occurs once).
pub open spec fn strictly_sorted(e: Seq<(Seq<char>, Seq<char>)>) -> bool {
    forall|i: int, j: int| 0 <= i < j < e.len() ==> seq_lt(#[trigger] e[i].0, #[trigger] e[j].0)
}

/// Whether some entry of `e` has the key `k`.
pub open spec fn has_key(e: Seq<(Seq<char>, Seq<char>)>, k: Seq<char>) -> bool {
    exists|i: int| 0 <= i < e.len() && (#[trigger] e[i]).0 == k
}

/// The map that a list of entries with distinct keys stands for.
pub open spec fn entries_map(e: Seq<(Seq<char>, Seq<char>)>) -> Map<Seq<char>, Seq<char>> {
    Map::new(
        |k: Seq<char>| has_key(e, k),
        |k: Seq<char>| value_of(e, k),
    )
}

/// The value of the entry with key `k`.
pub open spec fn value_of(e: Seq<(Seq<char>, Seq<char>)>, k: Seq<char>) -> Seq<char> {
    e[key_index(e, k)].1
}

/// The position of an entry with key `k`.
pub open spec fn key_index(e: Seq<(Seq<char>, Seq<char>)>, k: Seq<char>) -> int {
    choose|i: int| 0 <= i < e.len() && (#[trigger] e[i]).0 == k
}

/// In a strictly sorted list, the entry with a given key is the one at `i`.
pub proof fn lemma_entries_map_at(e: Seq<(Seq<char>, Seq<char>)>, i: int)
    requires
        strictly_sorted(e),
        0 <= i < e.len(),
    ensures
        entries_map(e).contains_key(e[i].0),
        entries_map(e)[e[i].0] == e[i].1,
{
    let k = e[i].0;
    assert(has_key(e, k));
    let c: int = key_index(e, k);
    if c < i {
        assert(seq_lt(e[c].0, e[i].0));
        lemma_seq_lt_irreflexive(k);
    } else if c > i {
        assert(seq_lt(e[i].0, e[c].0));
        lemma_seq_lt_irreflexive(k);
    }
    assert(c == i);
    assert(entries_map(e).contains_key(k));
    assert(entries_map(e)[k] == value_of(e, k));
}

proof fn lemma_update_value(e: Seq<(Seq<char>, Seq<char>)>, i: int, v: Seq<char>)
    requires
        strictly_sorted(e),
        0 <= i < e.len(),
    ensures
        strictly_sorted(e.update(i, (e[i].0, v))),
        entries_map(e.update(i, (e[i].0, v))) == entries_map(e).insert(e[i].0, v),
{
    let n = e.update(i, (e[i].0, v));
    assert(strictly_sorted(n)) by {
        assert forall|a: int, b: int| 0 <= a < b < n.len() implies seq_lt(
            #[trigger] n[a].0,
            #[trigger] n[b].0,
        ) by {
            assert(n[a].0 == e[a].0 && n[b].0 == e[b].0);
        }
    }
    let m1 = entries_map(n);
    let m2 = entries_map(e).insert(e[i].0, v);
    assert forall|k: Seq<char>| #[trigger] m1.contains_key(k) <==> m2.contains_key(k) by {
        if has_key(n, k) {
            let j: int = choose|j: int| 0 <= j < n.len() && (#[trigger] n[j]).0 == k;
            assert(e[j].0 == k);
        }
        if has_key(e, k) {
            let j: int = choose|j: int| 0 <= j < e.len() && (#[trigger] e[j]).0 == k;
            assert(n[j].0 == k);
        }
    }
    assert forall|k: Seq<char>| #[trigger] m1.contains_key(k) implies m1[k] == m2[k] by {
        let j: int = choose|j: int| 0 <= j < n.len() && (#[trigger] n[j]).0 == k;
        lemma_entries_map_at(n, j);
        if j != i {
            lemma_entries_map_at(e, j);
            assert(k != e[i].0) by {
                if j < i {
                    assert(seq_lt(e[j].0, e[i].0));
                } else {
                    assert(seq_lt(e[i].0, e[j].0));
                }
                lemma_seq_lt_irreflexive(k);
            }
        }
    }
    assert(m1 =~= m2);
}

proof fn lemma_insert_at(e: Seq<(Seq<char>, Seq<char>)>, i: int, k: Seq<char>, v: Seq<char>)
    requires
        strictly_sorted(e),
        0 <= i <= e.len(),
        i > 0 ==> seq_lt(e[i - 1].0, k),
        i < e.len() ==> seq_lt(k, e[i].0),
    ensures
        strictly_sorted(e.insert(i, (k, v))),
        entries_map(e.insert(i, (k, v))) == entries_map(e).insert(k, v),
{
    let n = e.insert(i, (k, v));
    assert(strictly_sorted(n)) by {
        assert forall|a: int, b: int| 0 <= a < b < n.len() implies seq_lt(
            #[trigger] n[a].0,
            #[trigger] n[b].0,
        ) by {
            if b < i {
            } else if a > i {
                assert(n[a] == e[a - 1] && n[b] == e[b - 1]);
            } else if a == i {
                if b - 1 > i {
                    lemma_seq_lt_transitive(k, e[i].0, e[b - 1].0);
                }
            } else if b == i {
                if a < i - 1 {
                    lemma_seq_lt_transitive(e[a].0, e[i - 1].0, k);
                }
            } else {
                assert(n[b] == e[b - 1]);
            }
        }
    }
    let m1 = entries_map(n);
    let m2 = entries_map(e).insert(k, v);
    assert forall|q: Seq<char>| #[trigger] m1.contains_key(q) <==> m2.contains_key(q) by {
        if has_key(n, q) {
            let j: int = choose|j: int| 0 <= j < n.len() && (#[trigger] n[j]).0 == q;
            if j < i {
                assert(e[j].0 == q);
            } else if j > i {
                assert(e[j - 1].0 == q);
            }
        }
        if has_key(e, q) {
            let j: int = choose|j: int| 0 <= j < e.len() && (#[trigger] e[j]).0 == q;
            if j < i {
                assert(n[j].0 == q);
            } else {
                assert(n[j + 1].0 == q);
            }
        }
        if q == k {
            assert(n[i].0 == k);
        }
    }
    assert forall|q: Seq<char>| #[trigger] m1.contains_key(q) implies m1[q] == m2[q] by {
        let j: int = choose|j: int| 0 <= j < n.len() && (#[trigger] n[j]).0 == q;
        lemma_entries_map_at(n, j);
        if j < i {
            lemma_entries_map_at(e, j);
            assert(q != k) by {
                assert(seq_lt(n[j].0, n[i].0));
                lemma_seq_lt_irreflexive(q);
            }
        } else if j > i {
            lemma_entries_map_at(e, j - 1);
            assert(q != k) by {
                assert(seq_lt(n[i].0, n[j].0));
                lemma_seq_lt_irreflexive(q);
            }
        }
    }
    assert(m1 =~= m2);
}

/// Executable form of [`seq_lt`].
pub fn str_less(a: &str, b: &str) -> (r: bool)
    ensures
        r == seq_lt(a@, b@),
{
    let x = chars_of(a);
    let y = chars_of(b);
    assert(x@.skip(0) =~= x@);
    assert(y@.skip(0) =~= y@);
    let mut i: usize = 0;
    while i < x.len() && i < y.len() && x[i] == y[i]
        invariant
            i <= x.len(),
            i <= y.len(),
            x@ == a@,
            y@ == b@,
            seq_lt(a@, b@) == seq_lt(x@.skip(i as int), y@.skip(i as int)),
        decreases x.len() - i,
    {
        proof {
            assert(x@.skip(i as int).drop_first() =~= x@.skip(i + 1));
            assert(y@.skip(i as int).drop_first() =~= y@.skip(i + 1));
        }
        i = i + 1;
    }
    if i == x.len() {
        i < y.len()
    } else if i == y.len() {
        false
    } else {
        x[i] < y[i]
    }
}

/// The `META` entries of a record.
///
/// Its view is the map from keys to values; a later line with the same key
/// replaces an earlier one.
#[derive(Debug)]
pub struct Meta {
    entries: Vec<(String, String)>,
}

impl Meta {
    /// The entries as character sequences, in ascending key order.
    pub closed spec fn pairs(&self) -> Seq<(Seq<char>, Seq<char>)> {
        self.entries@.map_values(|p: (String, String)| (p.0@, p.1@))
    }

    #[verifier::type_invariant]
    closed spec fn sorted(&self) -> bool {
        strictly_sorted(self.pairs())
    }

    /// An empty map.
    pub fn new() -> (m: Meta)
        ensures
            m@ == Map::<Seq<char>, Seq<char>>::empty(),
            m.pairs() == Seq::<(Seq<char>, Seq<char>)>::empty(),
    {
        let m = Meta { entries: Vec::new() };
        assert(m.pairs() =~= Seq::<(Seq<char>, Seq<char>)>::empty());
        assert(m@ =~= Map::<Seq<char>, Seq<char>>::empty());
        m
    }

    /// Sets `key` to `value`, replacing an earlier value of `key`.
    pub fn insert(&mut self, key: String, value: String)
        ensures
            final(self)@ == old(self)@.insert(key@, value@),
    {
        proof {
            use_type_invariant(&*self);
        }
        let mut v: Vec<(String, String)> = Vec::new();
        std::mem::swap(&mut v, &mut self.entries);
        let ghost e = v@.map_values(|p: (String, String)| (p.0@, p.1@));
        assert(strictly_sorted(e));
        let mut p: usize = 0;
        while p < v.len() && str_less(v[p].0.as_str(), key.as_str())
            invariant
                p <= v.len(),
                e == v@.map_values(|p: (String, String)| (p.0@, p.1@)),
                strictly_sorted(e),
                forall|j: int| 0 <= j < p ==> seq_lt(#[trigger] e[j].0, key@),
            decreases v.len() - p,
        {
            p = p + 1;
        }
        if p < v.len() && v[p].0 == key {
            proof {
                lemma_update_value(e, p as int, value@);
            }
            let ghost val = value@;
            v.set(p, (key, value));
            assert(v@.map_values(|p: (String, String)| (p.0@, p.1@)) =~= e.update(
                p as int,
                (e[p as int].0, val),
            ));
        } else {
            proof {
                if p < v.len() {
                    lemma_seq_lt_total(key@, e[p as int].0);
                }
                lemma_insert_at(e, p as int, key@, value@);
            }
            let ghost kv = (key@, value@);
            v.insert(p, (key, value));
            assert(v@.map_values(|p: (String, String)| (p.0@, p.1@)) =~= e.insert(p as int, kv));
        }
        self.entries = v;
    }

    /// The value of `key`, if the map has one.
    pub fn get(&self, key: &str) -> (r: Option<&String>)
        ensures
            r.is_some() == self@.contains_key(key@),
            r matches Some(v) ==> v@ == self@[key@],
    {
        proof {
            use_type_invariant(self);
        }
        let k = key.to_owned();
        let ghost e = self.pairs();
        let mut i: usize = 0;
        while i < self.entries.len()
            invariant
                i <= self.entries.len(),
                e == self.pairs(),
                strictly_sorted(e),
                k@ == key@,
                forall|j: int| 0 <= j < i ==> (#[trigger] e[j]).0 != key@,
            decreases self.entries.len() - i,
        {
            if self.entries[i].0 == k {
                proof {
                    lemma_entries_map_at(e, i as int);
                }
                return Some(&self.entries[i].1);
            }
            i = i + 1;
        }
        assert(!has_key(e, key@));
        None
    }

    /// The entries, in ascending key order.
    pub fn entries(&self) -> (r: &Vec<(String, String)>)
        ensures
            r@.map_values(|p: (String, String)| (p.0@, p.1@)) == self.pairs(),
            strictly_sorted(self.pairs()),
    {
        proof {
            use_type_invariant(self);
        }
        &self.entries
    }

    /// The number of entries.
    pub fn len(&self) -> (n: usize)
        ensures
            n == self.pairs().len(),
    {
        self.entries.len()
    }
}

impl View for Meta {
    type V = Map<Seq<char>, Seq<char>>;

    open spec fn view(&self) -> Map<Seq<char>, Seq<char>> {
        entries_map(self.pairs())
    }
}

} // verus!
