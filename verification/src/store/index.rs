//! Secondary indexes: an ordered relation between indexed field values and
//! entity keys, and the rendering of a field value as an index key.

use vstd::prelude::*;

use crate::config::schema::IndexKind;
use crate::json::{opt_json, JsonKind, JsonValue};
use crate::text::{
    lemma_seq_lt_asymmetric, lemma_seq_lt_irreflexive, lemma_seq_lt_total,
    lemma_seq_lt_transitive, opt_str, seq_lt, str_order, StrOrder,
};

verus! {

/// What the store knows of one index of one entity type.
#[derive(Debug, Clone)]
pub struct IndexMeta {
    pub entity_type: String,
    pub index_name: String,
    pub field_name: String,
    pub kind: IndexKind,
}

/// The index key of a field value: a string as it is, anything else as its
/// compact JSON text; no key for a missing field.
pub open spec fn index_key(value: Option<JsonValue>) -> Option<Seq<char>> {
    match value {
        None => None,
        Some(v) => match v.kind {
            JsonKind::Str(s) => Some(s@),
            _ => Some(v.text@),
        },
    }
}

/// Renders a field value as the key under which an index files it.
pub fn index_value_to_key(value: Option<&JsonValue>) -> (r: Option<String>)
    ensures
        r matches Some(s) ==> index_key(opt_json(value)) == Some(s@),
        r is None ==> index_key(opt_json(value)) is None,
{
    match value {
        None => None,
        Some(v) => match &v.kind {
            JsonKind::Str(s) => Some(s.clone()),
            _ => Some(v.text.clone()),
        },
    }
}

/// An entry of an index: an indexed value and an entity key.
pub type IndexPair = (Seq<char>, Seq<char>);

/// The order of index entries: by value, then by key.
pub open spec fn pair_lt(a: IndexPair, b: IndexPair) -> bool {
    seq_lt(a.0, b.0) || (a.0 == b.0 && seq_lt(a.1, b.1))
}

/// Strictly increasing, hence free of repetitions.
pub open spec fn sorted_pairs(s: Seq<IndexPair>) -> bool {
    forall|i: int, j: int| 0 <= i < j < s.len() ==> pair_lt(s[i], s[j])
}

pub proof fn lemma_pair_lt_irreflexive(a: IndexPair)
    ensures
        !pair_lt(a, a),
{
    lemma_seq_lt_irreflexive(a.0);
    lemma_seq_lt_irreflexive(a.1);
}

pub proof fn lemma_pair_lt_transitive(a: IndexPair, b: IndexPair, c: IndexPair)
    requires
        pair_lt(a, b),
        pair_lt(b, c),
    ensures
        pair_lt(a, c),
{
    if seq_lt(a.0, b.0) && seq_lt(b.0, c.0) {
        lemma_seq_lt_transitive(a.0, b.0, c.0);
    } else if seq_lt(a.0, b.0) {
    } else if seq_lt(b.0, c.0) {
    } else {
        lemma_seq_lt_transitive(a.1, b.1, c.1);
    }
}

pub proof fn lemma_pair_lt_total(a: IndexPair, b: IndexPair)
    ensures
        a == b || pair_lt(a, b) || pair_lt(b, a),
{
    lemma_seq_lt_total(a.0, b.0);
    lemma_seq_lt_total(a.1, b.1);
}

/// The keys filed under `value`, in order.
pub open spec fn keys_with(s: Seq<IndexPair>, value: Seq<char>) -> Seq<Seq<char>>
    decreases s.len(),
{
    if s.len() == 0 {
        Seq::empty()
    } else {
        let r = keys_with(s.drop_last(), value);
        if s.last().0 == value {
            r.push(s.last().1)
        } else {
            r
        }
    }
}

/// Whether an indexed value lies between the optional bounds, both inclusive.
pub open spec fn in_range(v: Seq<char>, start: Option<Seq<char>>, end: Option<Seq<char>>) -> bool {
    &&& (start matches Some(s) ==> !seq_lt(v, s))
    &&& (end matches Some(e) ==> !seq_lt(e, v))
}

/// The keys of the entries whose value lies in the range, in index order.
pub open spec fn range_all(s: Seq<IndexPair>, start: Option<Seq<char>>, end: Option<Seq<char>>) -> Seq<
    Seq<char>,
>
    decreases s.len(),
{
    if s.len() == 0 {
        Seq::empty()
    } else {
        let r = range_all(s.drop_last(), start, end);
        if in_range(s.last().0, start, end) {
            r.push(s.last().1)
        } else {
            r
        }
    }
}

/// The keys of a range lookup: the first `limit` of them, or all when
/// `limit` is zero.
pub open spec fn range_keys(
    s: Seq<IndexPair>,
    start: Option<Seq<char>>,
    end: Option<Seq<char>>,
    limit: usize,
) -> Seq<Seq<char>> {
    let all = range_all(s, start, end);
    if limit > 0 && all.len() > limit {
        all.take(limit as int)
    } else {
        all
    }
}

proof fn lemma_range_all_prefix(
    s: Seq<IndexPair>,
    start: Option<Seq<char>>,
    end: Option<Seq<char>>,
    i: int,
)
    requires
        0 <= i <= s.len(),
    ensures
        range_all(s.take(i), start, end).len() <= range_all(s, start, end).len(),
        range_all(s, start, end).take(range_all(s.take(i), start, end).len() as int)
            == range_all(s.take(i), start, end),
    decreases s.len() - i,
{
    if i < s.len() {
        lemma_range_all_prefix(s, start, end, i + 1);
        assert(s.take(i + 1).drop_last() =~= s.take(i));
        let a = range_all(s.take(i), start, end);
        let b = range_all(s.take(i + 1), start, end);
        let c = range_all(s, start, end);
        assert(c.take(a.len() as int) =~= b.take(a.len() as int));
        assert(b.take(a.len() as int) =~= a);
    } else {
        assert(s.take(i) =~= s);
        assert(range_all(s, start, end).take(range_all(s, start, end).len() as int) =~= range_all(
            s,
            start,
            end,
        ));
    }
}

/// Views a list of string pairs as character sequences.
pub open spec fn pairs_view(v: Seq<(String, String)>) -> Seq<IndexPair> {
    v.map_values(|p: (String, String)| (p.0@, p.1@))
}

/// Views a list of strings as character sequences.
pub open spec fn strings_view(v: Seq<String>) -> Seq<Seq<char>> {
    v.map_values(|s: String| s@)
}

/// An ordered relation between indexed values and entity keys, with no
/// repeated entry.
pub struct KeyIndex {
    pairs: Vec<(String, String)>,
}

impl View for KeyIndex {
    type V = Seq<IndexPair>;

    closed spec fn view(&self) -> Seq<IndexPair> {
        pairs_view(self.pairs@)
    }
}

fn pair_order(a0: &str, a1: &str, b0: &str, b1: &str) -> (o: StrOrder)
    ensures
        (o is Less) == pair_lt((a0@, a1@), (b0@, b1@)),
        (o is Equal) == ((a0@, a1@) == (b0@, b1@)),
        (o is Greater) == pair_lt((b0@, b1@), (a0@, a1@)),
{
    proof {
        lemma_seq_lt_asymmetric(a0@, b0@);
        lemma_seq_lt_asymmetric(a1@, b1@);
        lemma_seq_lt_irreflexive(a0@);
        lemma_seq_lt_irreflexive(a1@);
    }
    match str_order(a0, b0) {
        StrOrder::Less => StrOrder::Less,
        StrOrder::Greater => StrOrder::Greater,
        StrOrder::Equal => str_order(a1, b1),
    }
}

impl KeyIndex {
    fn entry_before(&self, i: usize, value: &str, key: &str) -> (r: bool)
        requires
            i < self@.len(),
        ensures
            r == pair_lt(self@[i as int], (value@, key@)),
    {
        assert(self@[i as int] == (self.pairs@[i as int].0@, self.pairs@[i as int].1@));
        match pair_order(self.pairs[i].0.as_str(), self.pairs[i].1.as_str(), value, key) {
            StrOrder::Less => true,
            _ => false,
        }
    }

    /// Entries strictly increasing.
    pub open spec fn wf(&self) -> bool {
        sorted_pairs(self@)
    }

    /// An empty index.
    pub fn new() -> (r: Self)
        ensures
            r@ == Seq::<IndexPair>::empty(),
            r.wf(),
    {
        let r = KeyIndex { pairs: Vec::new() };
        assert(r@ =~= Seq::<IndexPair>::empty());
        r
    }

    /// The number of entries.
    pub fn len(&self) -> (r: usize)
        ensures
            r == self@.len(),
    {
        self.pairs.len()
    }

    /// Files `key` under `value`.
    pub fn insert(&mut self, value: &str, key: &str)
        requires
            old(self).wf(),
        ensures
            final(self).wf(),
            final(self)@.to_set() == old(self)@.to_set().insert((value@, key@)),
    {
        let ghost x: IndexPair = (value@, key@);
        let ghost s = self@;
        let n = self.pairs.len();
        let mut i: usize = 0;
        while i < n && self.entry_before(i, value, key)
            invariant
                n == self.pairs@.len(),
                s == self@,
                x == (value@, key@),
                s.len() == n,
                i <= n,
                forall|j: int| 0 <= j < i ==> pair_lt(#[trigger] s[j], x),
            decreases n - i,
        {
            i = i + 1;
        }
        if i < n {
            assert(s[i as int] == (self.pairs@[i as int].0@, self.pairs@[i as int].1@));
            let o = pair_order(self.pairs[i].0.as_str(), self.pairs[i].1.as_str(), value, key);
            match o {
                StrOrder::Equal => {
                    assert(s[i as int] == x);
                    assert(s.to_set().insert(x) =~= s.to_set());
                    return ;
                },
                _ => {},
            }
        }
        proof {
            if i < n {
                lemma_pair_lt_total(s[i as int], x);
                assert(pair_lt(x, s[i as int]));
            }
        }
        let entry = (String::from_str(value), String::from_str(key));
        self.pairs.insert(i, entry);
        proof {
            assert(self@ =~= s.insert(i as int, x));
            assert forall|a: int, b: int| 0 <= a < b < self@.len() implies pair_lt(
                self@[a],
                self@[b],
            ) by {
                if b < i {
                    assert(self@[a] == s[a]);
                    assert(self@[b] == s[b]);
                } else if b == i {
                    assert(self@[a] == s[a]);
                } else if a < i {
                    assert(self@[a] == s[a]);
                    assert(self@[b] == s[b - 1]);
                    if b - 1 > i {
                        lemma_pair_lt_transitive(x, s[i as int], s[b - 1]);
                    }
                    lemma_pair_lt_transitive(s[a], x, s[b - 1]);
                } else if a == i {
                    assert(self@[b] == s[b - 1]);
                    if b - 1 > i {
                        lemma_pair_lt_transitive(x, s[i as int], s[b - 1]);
                    }
                } else {
                    assert(self@[a] == s[a - 1]);
                    assert(self@[b] == s[b - 1]);
                }
            }
            assert forall|p: IndexPair| self@.to_set().contains(p) <==> s.to_set().insert(
                x,
            ).contains(p) by {
                if self@.contains(p) {
                    let k = choose|k: int| 0 <= k < self@.len() && self@[k] == p;
                    if k < i {
                        assert(s[k] == p);
                    } else if k > i {
                        assert(s[k - 1] == p);
                    }
                }
                if s.contains(p) {
                    let k = choose|k: int| 0 <= k < s.len() && s[k] == p;
                    if k < i {
                        assert(self@[k] == p);
                    } else {
                        assert(self@[k + 1] == p);
                    }
                }
                if p == x {
                    assert(self@[i as int] == p);
                }
            }
            assert(self@.to_set() =~= s.to_set().insert(x));
        }
    }

    /// Unfiles `key` from `value`.
    pub fn remove(&mut self, value: &str, key: &str)
        requires
            old(self).wf(),
        ensures
            final(self).wf(),
            final(self)@.to_set() == old(self)@.to_set().remove((value@, key@)),
    {
        let ghost x: IndexPair = (value@, key@);
        let ghost s = self@;
        let n = self.pairs.len();
        let mut i: usize = 0;
        while i < n
            invariant
                n == self.pairs@.len(),
                s == self@,
                x == (value@, key@),
                s == old(self)@,
                sorted_pairs(s),
                s.len() == n,
                i <= n,
                forall|j: int| 0 <= j < i ==> s[j] != x,
            decreases n - i,
        {
            assert(s[i as int] == (self.pairs@[i as int].0@, self.pairs@[i as int].1@));
            let o = pair_order(self.pairs[i].0.as_str(), self.pairs[i].1.as_str(), value, key);
            match o {
                StrOrder::Equal => {
                    self.pairs.remove(i);
                    proof {
                        assert(self@ =~= s.remove(i as int));
                        assert forall|a: int, b: int| 0 <= a < b < self@.len() implies pair_lt(
                            self@[a],
                            self@[b],
                        ) by {
                            if b < i {
                                assert(self@[a] == s[a]);
                                assert(self@[b] == s[b]);
                            } else if a < i && b >= i {
                                assert(self@[a] == s[a]);
                                assert(self@[b] == s[b + 1]);
                            } else if a >= i {
                                assert(self@[a] == s[a + 1]);
                                assert(self@[b] == s[b + 1]);
                            }
                        }
                        assert forall|p: IndexPair| self@.to_set().contains(p) <==> s.to_set().remove(
                            x,
                        ).contains(p) by {
                            if self@.contains(p) {
                                let k = choose|k: int| 0 <= k < self@.len() && self@[k] == p;
                                if k < i {
                                    assert(s[k] == p);
                                    lemma_pair_lt_irreflexive(p);
                                    if p == x {
                                        assert(pair_lt(s[k], s[i as int]));
                                    }
                                } else {
                                    assert(s[k + 1] == p);
                                    lemma_pair_lt_irreflexive(p);
                                    if p == x {
                                        assert(pair_lt(s[i as int], s[k + 1]));
                                    }
                                }
                            }
                            if s.contains(p) && p != x {
                                let k = choose|k: int| 0 <= k < s.len() && s[k] == p;
                                if k < i {
                                    assert(self@[k] == p);
                                } else {
                                    assert(k != i);
                                    assert(self@[k - 1] == p);
                                }
                            }
                        }
                        assert(self@.to_set() =~= s.to_set().remove(x));
                    }
                    return ;
                },
                _ => {},
            }
            i = i + 1;
        }
        assert(s.to_set().remove(x) =~= s.to_set());
    }

    /// The keys filed under `value`, in order.
    pub fn keys_for(&self, value: &str) -> (r: Vec<String>)
        ensures
            strings_view(r@) == keys_with(self@, value@),
    {
        let ghost s = self@;
        let n = self.pairs.len();
        let mut out: Vec<String> = Vec::new();
        let mut i: usize = 0;
        while i < n
            invariant
                n == self.pairs@.len(),
                s == self@,
                s.len() == n,
                i <= n,
                strings_view(out@) == keys_with(s.take(i as int), value@),
            decreases n - i,
        {
            proof {
                assert(s.take(i + 1).drop_last() =~= s.take(i as int));
            }
            let o = str_order(self.pairs[i].0.as_str(), value);
            match o {
                StrOrder::Equal => {
                    out.push(self.pairs[i].1.clone());
                    proof {
                        assert(strings_view(out@) =~= keys_with(s.take(i as int), value@).push(
                            s[i as int].1,
                        ));
                    }
                },
                _ => {},
            }
            i = i + 1;
        }
        assert(s.take(n as int) =~= s);
        out
    }

    /// The keys of the entries whose value lies between `start` and `end`
    /// (each bound inclusive, an absent bound open), in index order, at most
    /// `limit` of them unless `limit` is zero.
    pub fn range(&self, start: Option<&str>, end: Option<&str>, limit: usize) -> (r: Vec<String>)
        ensures
            strings_view(r@) == range_keys(
                self@,
                opt_str(start),
                opt_str(end),
                limit,
            ),
    {
        let ghost s = self@;
        let ghost st = opt_str(start);
        let ghost en = opt_str(end);
        let n = self.pairs.len();
        let mut out: Vec<String> = Vec::new();
        let mut i: usize = 0;
        while i < n
            invariant
                n == self.pairs@.len(),
                s == self@,
                s.len() == n,
                i <= n,
                st == opt_str(start),
                en == opt_str(end),
                strings_view(out@) == range_all(s.take(i as int), st, en),
                limit > 0 ==> out@.len() < limit,
            decreases n - i,
        {
            proof {
                assert(s.take(i + 1).drop_last() =~= s.take(i as int));
            }
            let candidate = self.pairs[i].0.as_str();
            let below = match start {
                Some(lo) => match str_order(candidate, lo) {
                    StrOrder::Less => true,
                    _ => false,
                },
                None => false,
            };
            let above = match end {
                Some(hi) => match str_order(candidate, hi) {
                    StrOrder::Greater => true,
                    _ => false,
                },
                None => false,
            };
            if !below && !above {
                out.push(self.pairs[i].1.clone());
                proof {
                    assert(strings_view(out@) =~= range_all(s.take(i as int), st, en).push(
                        s[i as int].1,
                    ));
                }
                if limit > 0 && out.len() >= limit {
                    proof {
                        lemma_range_all_prefix(s, st, en, i + 1);
                    }
                    return out;
                }
            }
            i = i + 1;
        }
        assert(s.take(n as int) =~= s);
        out
    }
}

} // verus!

verus! {

/// An index kept under a name.
pub struct NamedIndex {
    name: String,
    index: KeyIndex,
}

/// Named indexes of one kind (hash or sorted), each name once.
pub struct IndexSet {
    entries: Vec<NamedIndex>,
}

/// The entries of each named index, in order, and which names exist.
pub struct IndexSetView {
    pub names: Set<Seq<char>>,
    pub lists: Map<Seq<char>, Seq<IndexPair>>,
}

impl IndexSet {
    /// Which names exist, and the entries of each.
    pub closed spec fn view(&self) -> IndexSetView {
        IndexSetView {
            names: Set::new(
                |n: Seq<char>|
                    exists|i: int| 0 <= i < self.entries@.len() && self.entries@[i].name@ == n,
            ),
            lists: Map::new(
                |n: Seq<char>|
                    exists|i: int| 0 <= i < self.entries@.len() && self.entries@[i].name@ == n,
                |n: Seq<char>|
                    self.entries@[choose|i: int|
                        0 <= i < self.entries@.len() && self.entries@[i].name@ == n].index@,
            ),
        }
    }

    /// The entries of the index of that name, in order (none when absent).
    pub open spec fn list(&self, name: Seq<char>) -> Seq<IndexPair> {
        if self.view().lists.contains_key(name) {
            self.view().lists[name]
        } else {
            Seq::empty()
        }
    }

    /// The entries of the index of that name, as a set.
    pub open spec fn rel(&self, name: Seq<char>) -> Set<IndexPair> {
        self.list(name).to_set()
    }

    /// Names unique, indexes well formed.
    pub closed spec fn wf(&self) -> bool {
        &&& forall|i: int, j: int|
            0 <= i < j < self.entries@.len() ==> self.entries@[i].name@ != self.entries@[j].name@
        &&& forall|i: int| 0 <= i < self.entries@.len() ==> (#[trigger] self.entries@[i]).index.wf()
    }

    /// Every named index is ordered without repetition.
    pub proof fn lemma_sorted(&self, name: Seq<char>)
        requires
            self.wf(),
        ensures
            sorted_pairs(self.list(name)),
            self.view().names == self.view().lists.dom(),
    {
        if self.view().lists.contains_key(name) {
            let i = choose|i: int| 0 <= i < self.entries@.len() && self.entries@[i].name@ == name;
            assert(self.entries@[i].index.wf());
        }
        assert(self.view().names =~= self.view().lists.dom());
    }

    proof fn lemma_at(&self, i: int)
        requires
            self.wf(),
            0 <= i < self.entries@.len(),
        ensures
            self.view().lists.contains_key(self.entries@[i].name@),
            self.view().lists[self.entries@[i].name@] == self.entries@[i].index@,
    {
        let n = self.entries@[i].name@;
        assert(0 <= i < self.entries@.len() && self.entries@[i].name@ == n);
        let j = choose|j: int| 0 <= j < self.entries@.len() && self.entries@[j].name@ == n;
        if j != i {
            if j < i {
                assert(self.entries@[j].name@ != self.entries@[i].name@);
            } else {
                assert(self.entries@[i].name@ != self.entries@[j].name@);
            }
        }
    }

    /// No index.
    pub fn new() -> (r: Self)
        ensures
            r.wf(),
            r.view().names == Set::<Seq<char>>::empty(),
            forall|n: Seq<char>| #[trigger] r.list(n) == Seq::<IndexPair>::empty(),
    {
        let r = IndexSet { entries: Vec::new() };
        assert(r.view().names =~= Set::<Seq<char>>::empty());
        r
    }

    fn find(&self, name: &str) -> (r: Option<usize>)
        requires
            self.wf(),
        ensures
            r is Some == self.view().names.contains(name@),
            r matches Some(i) ==> i < self.entries@.len() && self.entries@[i as int].name@ == name@,
    {
        let n = self.entries.len();
        let mut i: usize = 0;
        while i < n
            invariant
                n == self.entries@.len(),
                i <= n,
                forall|j: int| 0 <= j < i ==> self.entries@[j].name@ != name@,
            decreases n - i,
        {
            if crate::text::str_equal(self.entries[i].name.as_str(), name) {
                return Some(i);
            }
            i = i + 1;
        }
        None
    }

    /// Makes sure an index of that name exists.
    pub fn ensure(&mut self, name: &str)
        requires
            old(self).wf(),
        ensures
            final(self).wf(),
            final(self).view().names == old(self).view().names.insert(name@),
            forall|n: Seq<char>| #[trigger] final(self).list(n) == old(self).list(n),
    {
        match self.find(name) {
            Some(_) => {
                assert(self.view().names.insert(name@) =~= self.view().names);
            },
            None => {
                let ghost before = *self;
                self.entries.push(NamedIndex { name: String::from_str(name), index: KeyIndex::new() });
                proof {
                    let last = self.entries@.len() - 1;
                    assert forall|j: int| 0 <= j < last implies self.entries@[j] == before.entries@[j] by {}
                    assert forall|m: Seq<char>| self.view().names.contains(m) <==> before.view().names.insert(
                        name@,
                    ).contains(m) by {
                        if self.view().names.contains(m) {
                            let j = choose|j: int| 0 <= j < self.entries@.len() && self.entries@[j].name@ == m;
                            if j < last {
                                assert(before.entries@[j].name@ == m);
                            }
                        }
                        if before.view().names.contains(m) {
                            let j = choose|j: int| 0 <= j < before.entries@.len() && before.entries@[j].name@ == m;
                            assert(self.entries@[j].name@ == m);
                        }
                        if m == name@ {
                            assert(self.entries@[last].name@ == m);
                        }
                    }
                    assert(self.view().names =~= before.view().names.insert(name@));
                    assert forall|n: Seq<char>| #[trigger] self.list(n) == before.list(n) by {
                        if before.view().lists.contains_key(n) {
                            let j = choose|j: int| 0 <= j < before.entries@.len() && before.entries@[j].name@ == n;
                            before.lemma_at(j);
                            self.lemma_at(j);
                        } else if n == name@ {
                            self.lemma_at(last);
                            assert(self.list(n) =~= Seq::<IndexPair>::empty());
                        } else {
                        }
                    }
                }
            },
        }
    }

    /// Files `key` under `value` in the index of that name, made if absent.
    pub fn add(&mut self, name: &str, value: &str, key: &str)
        requires
            old(self).wf(),
        ensures
            final(self).wf(),
            final(self).view().names == old(self).view().names.insert(name@),
            final(self).rel(name@) == old(self).rel(name@).insert((value@, key@)),
            forall|n: Seq<char>| n != name@ ==> #[trigger] final(self).list(n) == old(self).list(n),
    {
        self.ensure(name);
        let ghost mid = *self;
        let i = self.find(name).unwrap();
        proof {
            self.lemma_at(i as int);
        }
        let mut entry = self.entries.remove(i);
        entry.index.insert(value, key);
        self.entries.insert(i, entry);
        proof {
            assert forall|j: int| 0 <= j < self.entries@.len() && j != i implies self.entries@[j] == mid.entries@[j] by {}
            self.lemma_at(i as int);
            mid.lemma_at(i as int);
            assert(mid.list(name@) == old(self).list(name@));
            assert(self.list(name@) == self.entries@[i as int].index@);
            assert(self.rel(name@) == mid.rel(name@).insert((value@, key@)));
            assert forall|n: Seq<char>| n != name@ implies #[trigger] self.list(n) == mid.list(n) by {
                if mid.view().lists.contains_key(n) {
                    let j = choose|j: int| 0 <= j < mid.entries@.len() && mid.entries@[j].name@ == n;
                    mid.lemma_at(j);
                    self.lemma_at(j);
                } else {
                    if self.view().lists.contains_key(n) {
                        let j = choose|j: int| 0 <= j < self.entries@.len() && self.entries@[j].name@ == n;
                        assert(mid.entries@[j].name@ == n);
                    }
                }
            }
            assert(self.view().names =~= mid.view().names);
        }
    }

    /// Unfiles `key` from `value` in the index of that name, if it exists.
    pub fn remove(&mut self, name: &str, value: &str, key: &str)
        requires
            old(self).wf(),
        ensures
            final(self).wf(),
            final(self).view().names == old(self).view().names,
            final(self).rel(name@) == old(self).rel(name@).remove((value@, key@)),
            forall|n: Seq<char>| n != name@ ==> #[trigger] final(self).list(n) == old(self).list(n),
    {
        match self.find(name) {
            None => {
                assert(self.rel(name@) =~= Set::<IndexPair>::empty());
                assert(self.rel(name@).remove((value@, key@)) =~= self.rel(name@));
            },
            Some(i) => {
                let ghost before = *self;
                proof {
                    self.lemma_at(i as int);
                }
                let mut entry = self.entries.remove(i);
                entry.index.remove(value, key);
                self.entries.insert(i, entry);
                proof {
                    assert forall|j: int| 0 <= j < self.entries@.len() && j != i implies self.entries@[j] == before.entries@[j] by {}
                    self.lemma_at(i as int);
                    before.lemma_at(i as int);
                    assert forall|n: Seq<char>| n != name@ implies #[trigger] self.list(n) == before.list(n) by {
                        if before.view().lists.contains_key(n) {
                            let j = choose|j: int| 0 <= j < before.entries@.len() && before.entries@[j].name@ == n;
                            before.lemma_at(j);
                            self.lemma_at(j);
                        } else {
                            if self.view().lists.contains_key(n) {
                                let j = choose|j: int| 0 <= j < self.entries@.len() && self.entries@[j].name@ == n;
                                assert(before.entries@[j].name@ == n);
                            }
                        }
                    }
                    assert(self.view().names =~= before.view().names);
                }
            },
        }
    }

    /// The keys filed under `value` in the index of that name, in order.
    pub fn keys_for(&self, name: &str, value: &str) -> (r: Vec<String>)
        requires
            self.wf(),
        ensures
            strings_view(r@) == keys_with(self.list(name@), value@),
    {
        match self.find(name) {
            None => {
                let r: Vec<String> = Vec::new();
                assert(strings_view(r@) =~= Seq::<Seq<char>>::empty());
                r
            },
            Some(i) => {
                proof {
                    self.lemma_at(i as int);
                }
                self.entries[i].index.keys_for(value)
            },
        }
    }

    /// A range lookup in the index of that name.
    pub fn range(&self, name: &str, start: Option<&str>, end: Option<&str>, limit: usize) -> (r: Vec<
        String,
    >)
        requires
            self.wf(),
        ensures
            strings_view(r@) == range_keys(self.list(name@), opt_str(start), opt_str(end), limit),
    {
        match self.find(name) {
            None => {
                let r: Vec<String> = Vec::new();
                assert(strings_view(r@) =~= Seq::<Seq<char>>::empty());
                r
            },
            Some(i) => {
                proof {
                    self.lemma_at(i as int);
                }
                self.entries[i].index.range(start, end, limit)
            },
        }
    }

    /// Each index's name and number of entries, in the set's own order.
    pub fn sizes(&self) -> (r: Vec<(String, usize)>)
        requires
            self.wf(),
        ensures
            r@.map_values(|e: (String, usize)| e.0@).no_duplicates(),
            r@.map_values(|e: (String, usize)| e.0@).to_set() == self.view().names,
            forall|i: int| 0 <= i < r@.len() ==> (#[trigger] r@[i]).1 == self.list(r@[i].0@).len(),
    {
        let n = self.entries.len();
        let mut out: Vec<(String, usize)> = Vec::new();
        let mut i: usize = 0;
        while i < n
            invariant
                self.wf(),
                n == self.entries@.len(),
                i <= n,
                out@.len() == i,
                forall|j: int| 0 <= j < i ==> (#[trigger] out@[j]).0@ == self.entries@[j].name@,
                forall|j: int| 0 <= j < i ==> (#[trigger] out@[j]).1 == self.list(out@[j].0@).len(),
            decreases n - i,
        {
            proof {
                self.lemma_at(i as int);
            }
            out.push((self.entries[i].name.clone(), self.entries[i].index.len()));
            i = i + 1;
        }
        proof {
            let names = out@.map_values(|e: (String, usize)| e.0@);
            assert forall|a: int, b: int| 0 <= a < b < names.len() implies names[a] != names[b] by {
                assert(names[a] == self.entries@[a].name@);
                assert(names[b] == self.entries@[b].name@);
            }
            assert forall|m: Seq<char>| names.to_set().contains(m) <==> self.view().names.contains(m) by {
                if names.to_set().contains(m) {
                    let a = choose|a: int| 0 <= a < names.len() && names[a] == m;
                    assert(self.entries@[a].name@ == m);
                }
                if self.view().names.contains(m) {
                    let a = choose|a: int| 0 <= a < self.entries@.len() && self.entries@[a].name@ == m;
                    assert(names[a] == m);
                }
            }
            assert(names.to_set() =~= self.view().names);
        }
        out
    }
}

} // verus!
