//! The document model (`KeyValue`, `Section`, `Ini`) and the line parser.
use crate::error::Error;
use crate::text::{chars_less, chars_lt, chars_of, find, find_in, lemma_find, str_eq, trim, trim_range};
use vstd::prelude::*;
use vstd::string::StrSliceExecFns;
use vstd::string::StringExecFns;
use vstd::std_specs::iter::IteratorSpec;

verus! {

// ---------------------------------------------------------------------------
// Abstract model
// ---------------------------------------------------------------------------

/// What a section is: its name (none for the root section) and its
/// `key=value` entries in the order in which they were written.
pub struct SectionModel {
    pub name: Option<Seq<char>>,
    pub entries: Seq<(Seq<char>, Seq<char>)>,
}

/// What a document is: the root section (entries before the first header)
/// and the named sections in the order in which their headers appear.
pub struct IniModel {
    pub root: SectionModel,
    pub sections: Seq<(Seq<char>, SectionModel)>,
}

/// The characters of an optional string.
pub open spec fn opt_view(o: Option<&str>) -> Option<Seq<char>> {
    match o {
        Some(s) => Some(s@),
        None => None,
    }
}

/// The characters of each string of a sequence.
pub open spec fn strs_view(v: Seq<&str>) -> Seq<Seq<char>> {
    v.map_values(|s: &str| s@)
}

/// All values recorded under `key`, in order.
pub open spec fn values_of(entries: Seq<(Seq<char>, Seq<char>)>, key: Seq<char>) -> Seq<Seq<char>>
    decreases entries.len(),
{
    if entries.len() == 0 {
        Seq::empty()
    } else {
        let rest = values_of(entries.drop_last(), key);
        if entries.last().0 == key {
            rest.push(entries.last().1)
        } else {
            rest
        }
    }
}

/// Whether some entry has the key `key`.
pub open spec fn has_key(entries: Seq<(Seq<char>, Seq<char>)>, key: Seq<char>) -> bool {
    values_of(entries, key).len() > 0
}

/// The value of the first entry with the key `key`.
pub open spec fn lookup(entries: Seq<(Seq<char>, Seq<char>)>, key: Seq<char>) -> Option<Seq<char>> {
    if has_key(entries, key) {
        Some(values_of(entries, key)[0])
    } else {
        None
    }
}

/// The value of the last entry with the key `key`.
pub open spec fn lookup_last(entries: Seq<(Seq<char>, Seq<char>)>, key: Seq<char>) -> Option<
    Seq<char>,
> {
    if has_key(entries, key) {
        Some(values_of(entries, key).last())
    } else {
        None
    }
}

/// The values of entries split into two runs are those of the first run, then
/// those of the second.
pub proof fn lemma_values_of_concat(
    a: Seq<(Seq<char>, Seq<char>)>,
    b: Seq<(Seq<char>, Seq<char>)>,
    key: Seq<char>,
)
    ensures
        values_of(a + b, key) == values_of(a, key) + values_of(b, key),
    decreases b.len(),
{
    if b.len() == 0 {
        assert(a + b =~= a);
        assert(values_of(a, key) + values_of(b, key) =~= values_of(a, key));
    } else {
        lemma_values_of_concat(a, b.drop_last(), key);
        assert((a + b).drop_last() =~= a + b.drop_last());
        assert((a + b).last() == b.last());
        if b.last().0 == key {
            assert(values_of(a, key) + values_of(b.drop_last(), key).push(b.last().1) =~= (
            values_of(a, key) + values_of(b.drop_last(), key)).push(b.last().1));
        }
    }
}

/// Each key of `g` once, in increasing order, paired with all its values in
/// `entries`; every key of `entries` is there.
pub open spec fn is_grouping(
    entries: Seq<(Seq<char>, Seq<char>)>,
    g: Seq<(Seq<char>, Seq<Seq<char>>)>,
) -> bool {
    &&& forall|a: int, b: int| 0 <= a < b < g.len() ==> chars_lt(#[trigger] g[a].0, #[trigger] g[b].0)
    &&& forall|j: int|
        0 <= j < g.len() ==> #[trigger] g[j].1 == values_of(entries, g[j].0) && g[j].1.len() > 0
    &&& forall|k: Seq<char>|
        #[trigger] has_key(entries, k) ==> exists|j: int| 0 <= j < g.len() && #[trigger] g[j].0 == k
}

/// Each key of `m` once, in increasing order, paired with its last value in
/// `entries`; every key of `entries` is there.
pub open spec fn is_last_value_map(
    entries: Seq<(Seq<char>, Seq<char>)>,
    m: Seq<(Seq<char>, Seq<char>)>,
) -> bool {
    &&& forall|a: int, b: int| 0 <= a < b < m.len() ==> chars_lt(#[trigger] m[a].0, #[trigger] m[b].0)
    &&& forall|j: int| 0 <= j < m.len() ==> lookup_last(entries, #[trigger] m[j].0) == Some(m[j].1)
    &&& forall|k: Seq<char>|
        #[trigger] has_key(entries, k) ==> exists|j: int| 0 <= j < m.len() && #[trigger] m[j].0 == k
}

/// The number of values in all groups together.
pub open spec fn group_total(g: Seq<(Seq<char>, Seq<Seq<char>>)>) -> nat
    decreases g.len(),
{
    if g.len() == 0 {
        0
    } else {
        group_total(g.drop_last()) + g.last().1.len()
    }
}

proof fn lemma_group_total_concat(
    a: Seq<(Seq<char>, Seq<Seq<char>>)>,
    b: Seq<(Seq<char>, Seq<Seq<char>>)>,
)
    ensures
        group_total(a + b) == group_total(a) + group_total(b),
    decreases b.len(),
{
    if b.len() == 0 {
        assert(a + b =~= a);
    } else {
        lemma_group_total_concat(a, b.drop_last());
        assert((a + b).drop_last() =~= a + b.drop_last());
    }
}

proof fn lemma_group_total_single(x: (Seq<char>, Seq<Seq<char>>))
    ensures
        group_total(seq![x]) == x.1.len(),
{
    assert(seq![x].drop_last() =~= Seq::<(Seq<char>, Seq<Seq<char>>)>::empty());
    assert(group_total(Seq::<(Seq<char>, Seq<Seq<char>>)>::empty()) == 0);
    assert(seq![x].last() == x);
}

proof fn lemma_group_total_update(
    g: Seq<(Seq<char>, Seq<Seq<char>>)>,
    j: int,
    x: (Seq<char>, Seq<Seq<char>>),
)
    requires
        0 <= j < g.len(),
    ensures
        group_total(g.update(j, x)) + g[j].1.len() == group_total(g) + x.1.len(),
{
    assert(g =~= g.take(j) + seq![g[j]] + g.skip(j + 1));
    assert(g.update(j, x) =~= g.take(j) + seq![x] + g.skip(j + 1));
    lemma_group_total_concat(g.take(j) + seq![g[j]], g.skip(j + 1));
    lemma_group_total_concat(g.take(j), seq![g[j]]);
    lemma_group_total_concat(g.take(j) + seq![x], g.skip(j + 1));
    lemma_group_total_concat(g.take(j), seq![x]);
    lemma_group_total_single(g[j]);
    lemma_group_total_single(x);
}

proof fn lemma_group_total_insert(
    g: Seq<(Seq<char>, Seq<Seq<char>>)>,
    j: int,
    x: (Seq<char>, Seq<Seq<char>>),
)
    requires
        0 <= j <= g.len(),
    ensures
        group_total(g.insert(j, x)) == group_total(g) + x.1.len(),
{
    assert(g =~= g.take(j) + g.skip(j));
    assert(g.insert(j, x) =~= g.take(j) + seq![x] + g.skip(j));
    lemma_group_total_concat(g.take(j), g.skip(j));
    lemma_group_total_concat(g.take(j) + seq![x], g.skip(j));
    lemma_group_total_concat(g.take(j), seq![x]);
    lemma_group_total_single(x);
}

proof fn lemma_values_of_push(
    es: Seq<(Seq<char>, Seq<char>)>,
    k: Seq<char>,
    v: Seq<char>,
    key: Seq<char>,
)
    ensures
        values_of(es.push((k, v)), key) == if k == key {
            values_of(es, key).push(v)
        } else {
            values_of(es, key)
        },
{
    assert(es.push((k, v)).drop_last() =~= es);
}

/// Adding a value to a key that is already grouped.
proof fn lemma_grouping_extend(
    es: Seq<(Seq<char>, Seq<char>)>,
    g: Seq<(Seq<char>, Seq<Seq<char>>)>,
    j: int,
    v: Seq<char>,
)
    requires
        is_grouping(es, g),
        0 <= j < g.len(),
    ensures
        is_grouping(es.push((g[j].0, v)), g.update(j, (g[j].0, g[j].1.push(v)))),
{
    let k = g[j].0;
    let es2 = es.push((k, v));
    let g2 = g.update(j, (k, g[j].1.push(v)));
    assert forall|t: int| 0 <= t < g2.len() implies #[trigger] g2[t].1 == values_of(es2, g2[t].0)
        && g2[t].1.len() > 0 by {
        lemma_values_of_push(es, k, v, g2[t].0);
        if t != j && g[t].0 == k {
            if t < j {
                assert(chars_lt(g[t].0, g[j].0));
            } else {
                assert(chars_lt(g[j].0, g[t].0));
            }
            crate::text::lemma_chars_lt_irreflexive(k);
        }
    }
    assert forall|key: Seq<char>| #[trigger] has_key(es2, key) implies exists|t: int|
        0 <= t < g2.len() && #[trigger] g2[t].0 == key by {
        lemma_values_of_push(es, k, v, key);
        if key == k {
            assert(g2[j].0 == key);
        } else {
            assert(has_key(es, key));
            let t = choose|t: int| 0 <= t < g.len() && #[trigger] g[t].0 == key;
            assert(g2[t].0 == key);
        }
    }
}

/// Adding a key that is not yet grouped, at its place in the order.
proof fn lemma_grouping_insert(
    es: Seq<(Seq<char>, Seq<char>)>,
    g: Seq<(Seq<char>, Seq<Seq<char>>)>,
    j: int,
    k: Seq<char>,
    v: Seq<char>,
)
    requires
        is_grouping(es, g),
        0 <= j <= g.len(),
        forall|t: int| 0 <= t < j ==> chars_lt(#[trigger] g[t].0, k),
        j < g.len() ==> chars_lt(k, g[j].0),
    ensures
        is_grouping(es.push((k, v)), g.insert(j, (k, seq![v]))),
{
    let es2 = es.push((k, v));
    let g2 = g.insert(j, (k, seq![v]));
    assert forall|t: int| j < t < g.len() implies chars_lt(k, #[trigger] g[t].0) by {
        crate::text::lemma_chars_lt_transitive(k, g[j].0, g[t].0);
    }
    assert forall|t: int| 0 <= t < g.len() implies #[trigger] g[t].0 != k by {
        crate::text::lemma_chars_lt_irreflexive(k);
        if t < j {
            assert(chars_lt(g[t].0, k));
        } else if t == j {
            assert(chars_lt(k, g[j].0));
        } else {
            assert(chars_lt(k, g[t].0));
        }
    }
    assert(!has_key(es, k)) by {
        if has_key(es, k) {
            let t = choose|t: int| 0 <= t < g.len() && #[trigger] g[t].0 == k;
            assert(g[t].0 != k);
        }
    }
    lemma_values_of_push(es, k, v, k);
    assert(values_of(es2, k) =~= seq![v]);
    assert forall|a: int, b: int| 0 <= a < b < g2.len() implies chars_lt(
        #[trigger] g2[a].0,
        #[trigger] g2[b].0,
    ) by {
        if b < j {
        } else if b == j {
            assert(chars_lt(g[a].0, k));
        } else if a < j {
            assert(g2[b].0 == g[b - 1].0);
            if b - 1 == j {
                crate::text::lemma_chars_lt_transitive(g[a].0, k, g[b - 1].0);
            } else {
                assert(chars_lt(g[a].0, g[b - 1].0));
            }
        } else if a == j {
            assert(chars_lt(k, g[b - 1].0));
        } else {
            assert(chars_lt(g[a - 1].0, g[b - 1].0));
        }
    }
    assert forall|t: int| 0 <= t < g2.len() implies #[trigger] g2[t].1 == values_of(es2, g2[t].0)
        && g2[t].1.len() > 0 by {
        lemma_values_of_push(es, k, v, g2[t].0);
        if t < j {
            assert(g2[t] == g[t]);
        } else if t > j {
            assert(g2[t] == g[t - 1]);
        }
    }
    assert forall|key: Seq<char>| #[trigger] has_key(es2, key) implies exists|t: int|
        0 <= t < g2.len() && #[trigger] g2[t].0 == key by {
        lemma_values_of_push(es, k, v, key);
        if key == k {
            assert(g2[j].0 == key);
        } else {
            assert(has_key(es, key));
            let t = choose|t: int| 0 <= t < g.len() && #[trigger] g[t].0 == key;
            if t < j {
                assert(g2[t].0 == key);
            } else {
                assert(g2[t + 1].0 == key);
            }
        }
    }
}

// ---------------------------------------------------------------------------
// KeyValue and Section
// ---------------------------------------------------------------------------

/// One `key=value` entry; both parts borrow from the parsed text.
#[derive(Debug, Copy, Clone)]
pub struct KeyValue<'a> {
    pub key: &'a str,
    pub value: &'a str,
}

impl<'a> View for KeyValue<'a> {
    type V = (Seq<char>, Seq<char>);

    open spec fn view(&self) -> (Seq<char>, Seq<char>) {
        (self.key@, self.value@)
    }
}

/// The characters of each group of `entries_seq`.
pub open spec fn group_view<'a>(v: Seq<(&'a str, Vec<&'a str>)>) -> Seq<(Seq<char>, Seq<Seq<char>>)> {
    v.map_values(|p: (&'a str, Vec<&'a str>)| (p.0@, strs_view(p.1@)))
}

/// The characters of each pair of strings.
pub open spec fn pairs_view<'a>(v: Seq<(&'a str, &'a str)>) -> Seq<(Seq<char>, Seq<char>)> {
    v.map_values(|p: (&'a str, &'a str)| (p.0@, p.1@))
}

/// The characters of each entry.
pub open spec fn entries_view<'a>(v: Seq<KeyValue<'a>>) -> Seq<(Seq<char>, Seq<char>)> {
    v.map_values(|kv: KeyValue<'a>| kv@)
}

/// A section: an optional name and its entries in order.
#[derive(Debug)]
pub struct Section<'a> {
    name: Option<&'a str>,
    entries: Vec<KeyValue<'a>>,
}

impl<'a> View for Section<'a> {
    type V = SectionModel;

    closed spec fn view(&self) -> SectionModel {
        SectionModel { name: opt_view(self.name), entries: entries_view(self.entries@) }
    }
}

impl<'a> Default for Section<'a> {
    fn default() -> (s: Self)
        ensures
            s@ == (SectionModel { name: None, entries: Seq::empty() }),
    {
        let s = Section { name: None, entries: Vec::new() };
        assert(s@.entries =~= Seq::empty());
        s
    }
}

impl<'a> Clone for Section<'a> {
    fn clone(&self) -> (s: Self)
        ensures
            s@ == self@,
    {
        let mut entries: Vec<KeyValue<'a>> = Vec::new();
        let mut i: usize = 0;
        while i < self.entries.len()
            invariant
                i <= self.entries.len(),
                entries@ == self.entries@.take(i as int),
            decreases self.entries.len() - i,
        {
            entries.push(self.entries[i]);
            assert(entries@ =~= self.entries@.take(i + 1));
            i = i + 1;
        }
        assert(entries@ =~= self.entries@);
        Section { name: self.name, entries }
    }
}

impl<'a> Section<'a> {
    /// A new, empty section named `name`.
    pub fn new(name: &'a str) -> (s: Self)
        ensures
            s@ == (SectionModel { name: Some(name@), entries: Seq::empty() }),
    {
        let s = Section { name: Some(name), entries: Vec::new() };
        assert(s@.entries =~= Seq::empty());
        s
    }

    /// The section's name; the root section has none.
    pub fn name(&self) -> (r: Option<&'a str>)
        ensures
            opt_view(r) == self@.name,
    {
        self.name
    }

    /// Whether the section holds no entries.
    pub fn is_empty(&self) -> (r: bool)
        ensures
            r == (self@.entries.len() == 0),
    {
        self.entries.len() == 0
    }

    /// An iterator over the entries, in order.
    pub fn entries(&self) -> (r: std::slice::Iter<'_, KeyValue<'a>>)
        ensures
            entries_view(r.remaining().unref()) == self@.entries,
    {
        self.entries.as_slice().iter()
    }

    /// Whether some entry has the key `name`.
    pub fn contains(&self, name: &str) -> (r: bool)
        ensures
            r == has_key(self@.entries, name@),
    {
        let ghost es = self@.entries;
        let mut i: usize = 0;
        while i < self.entries.len()
            invariant
                i <= self.entries.len(),
                es == entries_view(self.entries@),
                values_of(es.take(i as int), name@).len() == 0,
            decreases self.entries.len() - i,
        {
            assert(es.take(i + 1).drop_last() =~= es.take(i as int));
            if str_eq(self.entries[i].key, name) {
                proof {
                    lemma_values_of_concat(es.take(i + 1), es.skip(i + 1), name@);
                    assert(es.take(i + 1) + es.skip(i + 1) =~= es);
                }
                return true;
            }
            i = i + 1;
        }
        assert(es.take(i as int) =~= es);
        false
    }

    /// Appends the entries of `other`, in order.
    pub fn extend(&mut self, other: &Self)
        ensures
            final(self)@ == (SectionModel {
                name: old(self)@.name,
                entries: old(self)@.entries + other@.entries,
            }),
    {
        let mut i: usize = 0;
        while i < other.entries.len()
            invariant
                i <= other.entries.len(),
                self.name == old(self).name,
                self.entries@ == old(self).entries@ + other.entries@.take(i as int),
            decreases other.entries.len() - i,
        {
            self.entries.push(other.entries[i]);
            assert(self.entries@ =~= old(self).entries@ + other.entries@.take(i + 1));
            i = i + 1;
        }
        assert(other.entries@.take(i as int) =~= other.entries@);
        assert(entries_view(self.entries@) =~= entries_view(old(self).entries@) + entries_view(
            other.entries@,
        ));
    }

    /// The value of the first entry whose key is `key`.
    pub fn get<'b: 'a>(&self, key: &'a str) -> (r: Option<&'a str>)
        ensures
            opt_view(r) == lookup(self@.entries, key@),
    {
        let ghost es = self@.entries;
        let mut i: usize = 0;
        while i < self.entries.len()
            invariant
                i <= self.entries.len(),
                es == entries_view(self.entries@),
                values_of(es.take(i as int), key@).len() == 0,
            decreases self.entries.len() - i,
        {
            assert(es.take(i + 1).drop_last() =~= es.take(i as int));
            if str_eq(self.entries[i].key, key) {
                proof {
                    lemma_values_of_concat(es.take(i + 1), es.skip(i + 1), key@);
                    assert(es.take(i + 1) + es.skip(i + 1) =~= es);
                }
                return Some(self.entries[i].value);
            }
            i = i + 1;
        }
        assert(es.take(i as int) =~= es);
        None
    }

    /// The values of all entries whose key is `key`, in order.
    pub fn get_all<'b: 'a>(&self, key: &'a str) -> (r: Vec<&'a str>)
        ensures
            strs_view(r@) == values_of(self@.entries, key@),
    {
        let ghost es = self@.entries;
        let mut r: Vec<&'a str> = Vec::new();
        let mut i: usize = 0;
        while i < self.entries.len()
            invariant
                i <= self.entries.len(),
                es == entries_view(self.entries@),
                strs_view(r@) == values_of(es.take(i as int), key@),
            decreases self.entries.len() - i,
        {
            assert(es.take(i + 1).drop_last() =~= es.take(i as int));
            if str_eq(self.entries[i].key, key) {
                r.push(self.entries[i].value);
                assert(strs_view(r@) =~= values_of(es.take(i as int), key@).push(es[i as int].1));
            }
            i = i + 1;
        }
        assert(es.take(i as int) =~= es);
        r
    }

    /// The entries grouped by key: each key once, in increasing order (the
    /// order of `str`), with all its values in the order they were written;
    /// the groups hold as many values as there are entries.
    pub fn entries_seq(&self) -> (r: Vec<(&'a str, Vec<&'a str>)>)
        ensures
            is_grouping(self@.entries, group_view(r@)),
            group_total(group_view(r@)) == self@.entries.len(),
    {
        let ghost es = self@.entries;
        let mut r: Vec<(&'a str, Vec<&'a str>)> = Vec::new();
        let mut keys: Vec<Vec<char>> = Vec::new();
        let mut i: usize = 0;
        assert(group_view(r@) =~= Seq::empty());
        while i < self.entries.len()
            invariant
                i <= self.entries.len(),
                es == entries_view(self.entries@),
                keys@.len() == r@.len(),
                forall|t: int| 0 <= t < keys@.len() ==> (#[trigger] keys@[t])@ == r@[t].0@,
                is_grouping(es.take(i as int), group_view(r@)),
                group_total(group_view(r@)) == i,
            decreases self.entries.len() - i,
        {
            let ghost g = group_view(r@);
            let e = self.entries[i];
            assert(es.take(i as int).push((e.key@, e.value@)) =~= es.take(i + 1));
            let kc = chars_of(e.key);
            let mut j: usize = 0;
            while j < keys.len() && chars_less(&keys[j], &kc)
                invariant
                    j <= keys@.len() == r@.len() == g.len(),
                    g == group_view(r@),
                    forall|t: int| 0 <= t < keys@.len() ==> (#[trigger] keys@[t])@ == r@[t].0@,
                    forall|t: int| 0 <= t < j ==> chars_lt(#[trigger] g[t].0, kc@),
                decreases keys.len() - j,
            {
                j = j + 1;
            }
            if j < keys.len() && !chars_less(&kc, &keys[j]) {
                proof {
                    if kc@ != keys@[j as int]@ {
                        crate::text::lemma_chars_lt_total(kc@, keys@[j as int]@);
                    }
                    lemma_grouping_extend(es.take(i as int), g, j as int, e.value@);
                    lemma_group_total_update(g, j as int, (g[j as int].0, g[j as int].1.push(e.value@)));
                }
                let (k, mut vs) = r.remove(j);
                vs.push(e.value);
                r.insert(j, (k, vs));
                assert(strs_view(vs@) =~= g[j as int].1.push(e.value@));
                assert(group_view(r@) =~= g.update(j as int, (g[j as int].0, g[j as int].1.push(e.value@))));
            } else {
                proof {
                    if j < keys.len() {
                        if kc@ != keys@[j as int]@ {
                            crate::text::lemma_chars_lt_total(kc@, keys@[j as int]@);
                        }
                    }
                    lemma_grouping_insert(es.take(i as int), g, j as int, e.key@, e.value@);
                    lemma_group_total_insert(g, j as int, (e.key@, seq![e.value@]));
                }
                let mut vs: Vec<&'a str> = Vec::new();
                vs.push(e.value);
                r.insert(j, (e.key, vs));
                keys.insert(j, kc);
                assert(strs_view(vs@) =~= seq![e.value@]);
                assert(group_view(r@) =~= g.insert(j as int, (e.key@, seq![e.value@])));
            }
            i = i + 1;
        }
        assert(es.take(i as int) =~= es);
        r
    }

    /// The entries grouped by key, taking the section by value: the same
    /// grouping as [`Section::entries_seq`].
    pub fn into_multimap(self) -> (r: Vec<(&'a str, Vec<&'a str>)>)
        ensures
            is_grouping(self@.entries, group_view(r@)),
            group_total(group_view(r@)) == self@.entries.len(),
    {
        self.entries_seq()
    }

    /// Each key once, in increasing order, with the value of its last entry.
    pub fn into_map(self) -> (r: Vec<(&'a str, &'a str)>)
        ensures
            is_last_value_map(self@.entries, pairs_view(r@)),
    {
        let groups = self.entries_seq();
        let ghost g = group_view(groups@);
        let mut r: Vec<(&'a str, &'a str)> = Vec::new();
        let mut i: usize = 0;
        while i < groups.len()
            invariant
                i <= groups@.len(),
                g == group_view(groups@),
                is_grouping(self@.entries, g),
                r@.len() == i,
                forall|t: int| 0 <= t < i ==> (#[trigger] pairs_view(r@)[t]) == (g[t].0, g[t].1.last()),
            decreases groups.len() - i,
        {
            let p = &groups[i];
            assert(strs_view(p.1@) == g[i as int].1);
            let v = p.1[p.1.len() - 1];
            let ghost before = r@;
            r.push((p.0, v));
            assert(pairs_view(r@) =~= pairs_view(before).push((p.0@, v@)));
            i = i + 1;
        }
        let ghost m = pairs_view(r@);
        assert forall|j: int| 0 <= j < m.len() implies lookup_last(self@.entries, #[trigger] m[j].0) == Some(m[j].1) by {
            assert(m[j] == (g[j].0, g[j].1.last()));
            assert(g[j].1 == values_of(self@.entries, g[j].0));
        }
        assert forall|a: int, b: int| 0 <= a < b < m.len() implies chars_lt(#[trigger] m[a].0, #[trigger] m[b].0) by {
            assert(m[a].0 == g[a].0 && m[b].0 == g[b].0);
        }
        assert forall|k: Seq<char>| #[trigger] has_key(self@.entries, k) implies exists|j: int| 0 <= j < m.len() && #[trigger] m[j].0 == k by {
            let j = choose|j: int| 0 <= j < g.len() && #[trigger] g[j].0 == k;
            assert(m[j].0 == k);
        }
        r
    }

    /// Appends the entry `key=value`.
    pub fn push(&mut self, key: &'a str, value: &'a str)
        ensures
            final(self)@ == (SectionModel {
                name: old(self)@.name,
                entries: old(self)@.entries.push((key@, value@)),
            }),
    {
        self.entries.push(KeyValue { key, value });
        assert(entries_view(self.entries@) =~= entries_view(old(self).entries@).push(
            (key@, value@),
        ));
    }
}

// ---------------------------------------------------------------------------
// Ini
// ---------------------------------------------------------------------------

/// The sections named `name`, in order.
pub open spec fn sections_named(secs: Seq<(Seq<char>, SectionModel)>, name: Seq<char>) -> Seq<
    SectionModel,
>
    decreases secs.len(),
{
    if secs.len() == 0 {
        Seq::empty()
    } else {
        let rest = sections_named(secs.drop_first(), name);
        if secs[0].0 == name {
            seq![secs[0].1] + rest
        } else {
            rest
        }
    }
}

/// The section names, each once, in the order of their first appearance.
pub open spec fn distinct_names(secs: Seq<(Seq<char>, SectionModel)>) -> Seq<Seq<char>>
    decreases secs.len(),
{
    if secs.len() == 0 {
        Seq::empty()
    } else {
        let d = distinct_names(secs.drop_last());
        if d.contains(secs.last().0) {
            d
        } else {
            d.push(secs.last().0)
        }
    }
}

/// The name a section is listed under always finds that section.
pub proof fn lemma_listed_name_found(secs: Seq<(Seq<char>, SectionModel)>, i: int)
    requires
        0 <= i < secs.len(),
    ensures
        sections_named(secs, secs[i].0).len() > 0,
    decreases i,
{
    let rest = sections_named(secs.drop_first(), secs[i].0);
    if i > 0 {
        lemma_listed_name_found(secs.drop_first(), i - 1);
        assert(secs.drop_first()[i - 1] == secs[i]);
    }
    assert(i == 0 ==> (seq![secs[0].1] + rest).len() > 0);
}

/// All sections, without the names they are listed under.
pub open spec fn all_sections(secs: Seq<(Seq<char>, SectionModel)>) -> Seq<SectionModel> {
    secs.map_values(|p: (Seq<char>, SectionModel)| p.1)
}

/// The first value of `key` found when the sections are searched in order.
pub open spec fn first_value(ss: Seq<SectionModel>, key: Seq<char>) -> Option<Seq<char>>
    decreases ss.len(),
{
    if ss.len() == 0 {
        None
    } else {
        match lookup(ss[0].entries, key) {
            Some(v) => Some(v),
            None => first_value(ss.drop_first(), key),
        }
    }
}

/// Whether one of the sections has an entry with the key `key`.
pub open spec fn any_has_key(ss: Seq<SectionModel>, key: Seq<char>) -> bool
    decreases ss.len(),
{
    ss.len() > 0 && (has_key(ss[0].entries, key) || any_has_key(ss.drop_first(), key))
}

/// The entries of all the sections, one section after the other.
pub open spec fn merged_entries(ss: Seq<SectionModel>) -> Seq<(Seq<char>, Seq<char>)>
    decreases ss.len(),
{
    if ss.len() == 0 {
        Seq::empty()
    } else {
        ss[0].entries + merged_entries(ss.drop_first())
    }
}

/// What `Ini::get` gives: the first value of `key` in the sections named
/// `section`, else the value of `key` in the root section.
pub open spec fn ini_get(m: IniModel, section: Seq<char>, key: Seq<char>) -> Option<Seq<char>> {
    match first_value(sections_named(m.sections, section), key) {
        Some(v) => Some(v),
        None => lookup(m.root.entries, key),
    }
}

/// The model of the named sections of a document.
pub open spec fn section_pairs_view<'a>(v: Seq<(&'a str, Section<'a>)>) -> Seq<
    (Seq<char>, SectionModel),
> {
    v.map_values(|p: (&'a str, Section<'a>)| (p.0@, p.1@))
}

/// The models of borrowed sections.
pub open spec fn section_refs_view<'a, 'b>(v: Seq<&'b Section<'a>>) -> Seq<SectionModel> {
    v.map_values(|s: &'b Section<'a>| s@)
}

/// A parsed document: the root section and the named sections in order.
#[derive(Debug)]
pub struct Ini<'a> {
    root: Section<'a>,
    sections: Vec<(&'a str, Section<'a>)>,
}

impl<'a> View for Ini<'a> {
    type V = IniModel;

    closed spec fn view(&self) -> IniModel {
        IniModel { root: self.root@, sections: section_pairs_view(self.sections@) }
    }
}

/// A document is well formed when its root has no name and every section
/// carries the name it is listed under.
pub open spec fn ini_wf(m: IniModel) -> bool {
    &&& m.root.name is None
    &&& forall|i: int|
        0 <= i < m.sections.len() ==> #[trigger] m.sections[i].1.name == Some(m.sections[i].0)
}

/// Every section named `name` in a well-formed list carries the name `name`.
pub proof fn lemma_named_sections_carry_name(
    secs: Seq<(Seq<char>, SectionModel)>,
    name: Seq<char>,
)
    requires
        forall|i: int| 0 <= i < secs.len() ==> #[trigger] secs[i].1.name == Some(secs[i].0),
    ensures
        forall|j: int|
            0 <= j < sections_named(secs, name).len() ==> #[trigger] sections_named(
                secs,
                name,
            )[j].name == Some(name),
    decreases secs.len(),
{
    if secs.len() > 0 {
        let rest = secs.drop_first();
        assert forall|i: int| 0 <= i < rest.len() implies #[trigger] rest[i].1.name == Some(
            rest[i].0,
        ) by {
            assert(rest[i] == secs[i + 1]);
        }
        lemma_named_sections_carry_name(rest, name);
        assert(secs[0].1.name == Some(secs[0].0));
    }
}

/// The document with no entries and no sections.
pub open spec fn empty_ini() -> IniModel {
    IniModel {
        root: SectionModel { name: None, entries: Seq::empty() },
        sections: Seq::empty(),
    }
}

impl<'a> Ini<'a> {
    /// Every document is well formed.
    #[verifier::type_invariant]
    spec fn well_formed(self) -> bool {
        ini_wf(self@)
    }
}

impl<'a> Default for Ini<'a> {
    fn default() -> (r: Self)
        ensures
            r@ == empty_ini(),
    {
        let r = Ini { root: Section::default(), sections: Vec::new() };
        assert(r@.sections =~= Seq::empty());
        r
    }
}

impl<'a> Clone for Ini<'a> {
    fn clone(&self) -> (r: Self)
        ensures
            r@ == self@,
    {
        proof {
            use_type_invariant(self);
        }
        let mut sections: Vec<(&'a str, Section<'a>)> = Vec::new();
        let mut i: usize = 0;
        while i < self.sections.len()
            invariant
                i <= self.sections.len(),
                section_pairs_view(sections@) == section_pairs_view(self.sections@).take(i as int),
            decreases self.sections.len() - i,
        {
            let p = &self.sections[i];
            let c = p.1.clone();
            let ghost before = sections@;
            sections.push((p.0, c));
            assert(section_pairs_view(sections@) =~= section_pairs_view(before).push(
                (p.0@, c@),
            ));
            assert(section_pairs_view(sections@) =~= section_pairs_view(self.sections@).take(
                i + 1,
            ));
            i = i + 1;
        }
        assert(section_pairs_view(self.sections@).take(i as int) =~= section_pairs_view(
            self.sections@,
        ));
        Ini { root: self.root.clone(), sections }
    }
}

impl<'a> Ini<'a> {
    /// All named sections (the root excluded), each with the name it is listed
    /// under, which is also its own name.
    pub fn sections(&self) -> (r: Vec<(&'a str, &Section<'a>)>)
        ensures
            ini_wf(self@),
            r@.len() == self@.sections.len(),
            forall|j: int|
                0 <= j < r@.len() ==> (#[trigger] r@[j].0@, r@[j].1@) == self@.sections[j],
    {
        proof {
            use_type_invariant(self);
        }
        let ghost secs = self@.sections;
        let mut r: Vec<(&'a str, &Section<'a>)> = Vec::new();
        let mut i: usize = 0;
        while i < self.sections.len()
            invariant
                i <= self.sections.len(),
                secs == section_pairs_view(self.sections@),
                r@.len() == i,
                forall|j: int| 0 <= j < i ==> (#[trigger] r@[j].0@, r@[j].1@) == secs[j],
            decreases self.sections.len() - i,
        {
            let p = &self.sections[i];
            r.push((p.0, &p.1));
            i = i + 1;
        }
        r
    }

    /// The root section: the entries that come before the first header.
    pub fn root(&self) -> (r: &Section<'a>)
        ensures
            r@ == self@.root,
    {
        &self.root
    }

    /// All sections named `name`, in order.
    pub fn iter_section<'b: 'a>(&self, name: &'b str) -> (r: Vec<&Section<'a>>)
        ensures
            section_refs_view(r@) == sections_named(self@.sections, name@),
    {
        let ghost secs = self@.sections;
        let mut r: Vec<&Section<'a>> = Vec::new();
        let mut i: usize = 0;
        assert(secs.skip(0) =~= secs);
        assert(section_refs_view(r@) =~= Seq::empty());
        while i < self.sections.len()
            invariant
                i <= self.sections.len(),
                secs == section_pairs_view(self.sections@),
                sections_named(secs, name@) == section_refs_view(r@) + sections_named(
                    secs.skip(i as int),
                    name@,
                ),
            decreases self.sections.len() - i,
        {
            let ghost rv = section_refs_view(r@);
            assert(secs.skip(i as int).drop_first() =~= secs.skip(i + 1));
            assert(secs.skip(i as int)[0] == secs[i as int]);
            let p = &self.sections[i];
            if str_eq(p.0, name) {
                r.push(&p.1);
                assert(section_refs_view(r@) =~= rv.push(secs[i as int].1));
                assert(rv + (seq![secs[i as int].1] + sections_named(secs.skip(i + 1), name@))
                    =~= rv.push(secs[i as int].1) + sections_named(secs.skip(i + 1), name@));
            }
            i = i + 1;
        }
        assert(secs.skip(i as int) =~= Seq::empty());
        assert(section_refs_view(r@) + Seq::<SectionModel>::empty() =~= section_refs_view(r@));
        r
    }

    /// The first section named `name`.
    pub fn section<'b: 'a>(&self, name: &'b str) -> (r: Option<&Section<'a>>)
        ensures
            ({
                let named = sections_named(self@.sections, name@);
                match r {
                    Some(s) => named.len() > 0 && s@ == named[0],
                    None => named.len() == 0,
                }
            }),
    {
        let all = self.iter_section(name);
        if all.len() > 0 {
            Some(all[0])
        } else {
            None
        }
    }

    /// One section named `name` holding, in order, the entries of all sections
    /// named `name`.
    pub fn extended_section<'b: 'a>(&self, name: &'b str) -> (r: Option<Section<'a>>)
        ensures
            ({
                let named = sections_named(self@.sections, name@);
                match r {
                    Some(s) => named.len() > 0 && s@ == (SectionModel {
                        name: Some(name@),
                        entries: merged_entries(named),
                    }),
                    None => named.len() == 0,
                }
            }),
    {
        proof {
            use_type_invariant(self);
            lemma_named_sections_carry_name(self@.sections, name@);
        }
        let ghost secs = self@.sections;
        let ghost named = sections_named(secs, name@);
        let mut found = false;
        let mut acc: Section<'a> = Section::default();
        let mut i: usize = 0;
        assert(secs.skip(0) =~= secs);
        while i < self.sections.len()
            invariant
                i <= self.sections.len(),
                secs == section_pairs_view(self.sections@),
                named == sections_named(secs, name@),
                !found ==> named == sections_named(secs.skip(i as int), name@),
                found ==> named.len() > 0 && acc@.name == named[0].name && merged_entries(named)
                    == acc@.entries + merged_entries(sections_named(secs.skip(i as int), name@)),
            decreases self.sections.len() - i,
        {
            let ghost rest = sections_named(secs.skip(i + 1), name@);
            assert(secs.skip(i as int).drop_first() =~= secs.skip(i + 1));
            assert(secs.skip(i as int)[0] == secs[i as int]);
            let p = &self.sections[i];
            if str_eq(p.0, name) {
                let ghost here = seq![secs[i as int].1] + rest;
                assert(here.drop_first() =~= rest);
                assert(merged_entries(here) == secs[i as int].1.entries + merged_entries(rest));
                if !found {
                    acc = p.1.clone();
                    found = true;
                } else {
                    let ghost before = acc@.entries;
                    acc.extend(&p.1);
                    assert(before + (secs[i as int].1.entries + merged_entries(rest)) =~= (before
                        + secs[i as int].1.entries) + merged_entries(rest));
                }
            }
            i = i + 1;
        }
        assert(secs.skip(i as int) =~= Seq::empty());
        if found {
            assert(acc@.entries + Seq::empty() =~= acc@.entries);
            Some(acc)
        } else {
            None
        }
    }

    /// Each section name once, in the order of first appearance, with one
    /// section of that name holding the entries of all sections so named
    /// (what [`Ini::extended_section`] gives for the name).
    pub fn merged_sections(&self) -> (r: Vec<(&'a str, Section<'a>)>)
        ensures
            r@.len() == distinct_names(self@.sections).len(),
            forall|j: int|
                0 <= j < r@.len() ==> (#[trigger] r@[j]).0@ == distinct_names(self@.sections)[j]
                    && r@[j].1@ == (SectionModel {
                    name: Some(r@[j].0@),
                    entries: merged_entries(sections_named(self@.sections, r@[j].0@)),
                }),
    {
        let ghost secs = self@.sections;
        let mut r: Vec<(&'a str, Section<'a>)> = Vec::new();
        let mut i: usize = 0;
        while i < self.sections.len()
            invariant
                i <= self.sections.len(),
                secs == self@.sections,
                secs == section_pairs_view(self.sections@),
                r@.len() == distinct_names(secs.take(i as int)).len(),
                forall|j: int|
                    0 <= j < r@.len() ==> (#[trigger] r@[j]).0@ == distinct_names(
                        secs.take(i as int),
                    )[j] && r@[j].1@ == (SectionModel {
                        name: Some(r@[j].0@),
                        entries: merged_entries(sections_named(secs, r@[j].0@)),
                    }),
            decreases self.sections.len() - i,
        {
            let ghost d = distinct_names(secs.take(i as int));
            assert(secs.take(i + 1).drop_last() =~= secs.take(i as int));
            assert(secs.take(i + 1).last() == secs[i as int]);
            let name = self.sections[i].0;
            let mut seen = false;
            let mut k: usize = 0;
            while k < r.len()
                invariant
                    k <= r@.len() == d.len(),
                    name@ == secs[i as int].0,
                    forall|j: int| 0 <= j < r@.len() ==> (#[trigger] r@[j]).0@ == d[j],
                    !seen ==> forall|t: int| 0 <= t < k ==> d[t] != name@,
                    seen ==> d.contains(name@),
                decreases r.len() - k,
            {
                if str_eq(r[k].0, name) {
                    assert(d[k as int] == name@);
                    seen = true;
                }
                k = k + 1;
            }
            if !seen {
                proof {
                    lemma_listed_name_found(secs, i as int);
                }
                if let Some(section) = self.extended_section(name) {
                    let ghost before = r@;
                    r.push((name, section));
                    assert(d.push(name@).len() == r@.len());
                    assert forall|j: int| 0 <= j < r@.len() implies (#[trigger] r@[j]).0@
                        == d.push(name@)[j] && r@[j].1@ == (SectionModel {
                        name: Some(r@[j].0@),
                        entries: merged_entries(sections_named(secs, r@[j].0@)),
                    }) by {
                        if j < before.len() {
                            assert(r@[j] == before[j]);
                        }
                    }
                }
            }
            i = i + 1;
        }
        assert(secs.take(i as int) =~= secs);
        r
    }

    /// Whether the document has neither named sections nor root entries.
    pub fn is_empty(&self) -> (r: bool)
        ensures
            r == (self@.sections.len() == 0 && self@.root.entries.len() == 0),
    {
        self.sections.len() == 0 && self.root.is_empty()
    }

    /// The value of `key` in the first section named `section` that has it,
    /// else the value of `key` in the root section.
    pub fn get<'b: 'a>(&self, section: &'b str, key: &'b str) -> (r: Option<&'a str>)
        ensures
            opt_view(r) == ini_get(self@, section@, key@),
    {
        let ghost secs = self@.sections;
        let mut i: usize = 0;
        assert(secs.skip(0) =~= secs);
        while i < self.sections.len()
            invariant
                i <= self.sections.len(),
                secs == section_pairs_view(self.sections@),
                first_value(sections_named(secs, section@), key@) == first_value(
                    sections_named(secs.skip(i as int), section@),
                    key@,
                ),
            decreases self.sections.len() - i,
        {
            let ghost rest = sections_named(secs.skip(i + 1), section@);
            assert(secs.skip(i as int).drop_first() =~= secs.skip(i + 1));
            assert(secs.skip(i as int)[0] == secs[i as int]);
            let p = &self.sections[i];
            if str_eq(p.0, section) {
                let ghost here = seq![secs[i as int].1] + rest;
                assert(here.drop_first() =~= rest);
                if let Some(v) = p.1.get(key) {
                    return Some(v);
                }
            }
            i = i + 1;
        }
        assert(secs.skip(i as int) =~= Seq::empty());
        self.root.get(key)
    }

    /// Whether some section named `section` has an entry with the key `key`
    /// (the root section is not searched).
    pub fn contains<'b: 'a>(&self, section: &'b str, key: &'b str) -> (r: bool)
        ensures
            r == any_has_key(sections_named(self@.sections, section@), key@),
    {
        let ghost secs = self@.sections;
        let mut i: usize = 0;
        assert(secs.skip(0) =~= secs);
        while i < self.sections.len()
            invariant
                i <= self.sections.len(),
                secs == section_pairs_view(self.sections@),
                any_has_key(sections_named(secs, section@), key@) == any_has_key(
                    sections_named(secs.skip(i as int), section@),
                    key@,
                ),
            decreases self.sections.len() - i,
        {
            let ghost rest = sections_named(secs.skip(i + 1), section@);
            assert(secs.skip(i as int).drop_first() =~= secs.skip(i + 1));
            assert(secs.skip(i as int)[0] == secs[i as int]);
            let p = &self.sections[i];
            if str_eq(p.0, section) {
                let ghost here = seq![secs[i as int].1] + rest;
                assert(here.drop_first() =~= rest);
                if p.1.contains(key) {
                    return true;
                }
            }
            i = i + 1;
        }
        assert(secs.skip(i as int) =~= Seq::empty());
        false
    }

    /// Whether any section, named or root, has an entry with the key `key`.
    pub fn contains_key(&self, key: &str) -> (r: bool)
        ensures
            r == (any_has_key(all_sections(self@.sections), key@) || has_key(
                self@.root.entries,
                key@,
            )),
    {
        let ghost secs = self@.sections;
        let mut i: usize = 0;
        assert(all_sections(secs).skip(0) =~= all_sections(secs));
        while i < self.sections.len()
            invariant
                i <= self.sections.len(),
                secs == section_pairs_view(self.sections@),
                any_has_key(all_sections(secs), key@) == any_has_key(
                    all_sections(secs).skip(i as int),
                    key@,
                ),
            decreases self.sections.len() - i,
        {
            assert(all_sections(secs).skip(i as int).drop_first() =~= all_sections(secs).skip(
                i + 1,
            ));
            assert(all_sections(secs).skip(i as int)[0] == secs[i as int].1);
            if self.sections[i].1.contains(key) {
                return true;
            }
            i = i + 1;
        }
        assert(all_sections(secs).skip(i as int) =~= Seq::empty());
        self.root.contains(key)
    }
}

// ---------------------------------------------------------------------------
// The line grammar
// ---------------------------------------------------------------------------

/// What one line of input is.
pub enum LineKind {
    /// Nothing but whitespace and comment.
    Blank,
    /// `key=value`, both parts trimmed.
    Pair(Seq<char>, Seq<char>),
    /// `[name]`, the name trimmed.
    Header(Seq<char>),
    /// Anything else; the line with its comment and surrounding whitespace removed.
    Invalid(Seq<char>),
}

/// The input split at each `'\n'`. A carriage return before a line feed stays
/// at the end of its line, where trimming removes it.
pub open spec fn split_lines(s: Seq<char>) -> Seq<Seq<char>>
    decreases s.len(),
{
    match find(s, '\n') {
        Some(i) => if 0 <= i < s.len() {
            seq![s.take(i)] + split_lines(s.skip(i + 1))
        } else {
            seq![s]
        },
        None => seq![s],
    }
}

/// The line up to its first `;`, which starts a comment.
pub open spec fn strip_comment(line: Seq<char>) -> Seq<char> {
    match find(line, ';') {
        Some(i) => line.take(i),
        None => line,
    }
}

/// The kind of a line. A `=` makes a pair (split at the first `=`); otherwise a
/// line of the form `[...]` is a header.
pub open spec fn classify(line: Seq<char>) -> LineKind {
    let l = trim(strip_comment(line));
    match find(l, '=') {
        Some(i) => LineKind::Pair(trim(l.take(i)), trim(l.skip(i + 1))),
        None => if l.len() == 0 {
            LineKind::Blank
        } else if l.len() >= 2 && l[0] == '[' && l.last() == ']' {
            LineKind::Header(trim(l.subrange(1, l.len() - 1)))
        } else {
            LineKind::Invalid(l)
        },
    }
}

/// The document with the entry `key=value` added to the last section, or to
/// the root while there is no named section yet.
pub open spec fn add_pair(m: IniModel, key: Seq<char>, value: Seq<char>) -> IniModel {
    if m.sections.len() == 0 {
        IniModel {
            root: SectionModel { name: m.root.name, entries: m.root.entries.push((key, value)) },
            sections: m.sections,
        }
    } else {
        let last = m.sections.last();
        IniModel {
            root: m.root,
            sections: m.sections.drop_last().push(
                (last.0, SectionModel { name: last.1.name, entries: last.1.entries.push((key, value)) }),
            ),
        }
    }
}

/// The document with a new, empty section `name` at the end.
pub open spec fn add_section(m: IniModel, name: Seq<char>) -> IniModel {
    IniModel {
        root: m.root,
        sections: m.sections.push((name, SectionModel { name: Some(name), entries: Seq::empty() })),
    }
}

/// The effect of one line; an invalid line yields the text that is reported.
pub open spec fn apply_line(m: IniModel, line: Seq<char>) -> Result<IniModel, Seq<char>> {
    match classify(line) {
        LineKind::Blank => Ok(m),
        LineKind::Pair(k, v) => Ok(add_pair(m, k, v)),
        LineKind::Header(n) => Ok(add_section(m, n)),
        LineKind::Invalid(l) => Err(l),
    }
}

/// The effect of the lines in order; the first invalid line stops the parse.
pub open spec fn apply_lines(m: IniModel, lines: Seq<Seq<char>>) -> Result<IniModel, Seq<char>>
    decreases lines.len(),
{
    if lines.len() == 0 {
        Ok(m)
    } else {
        match apply_line(m, lines[0]) {
            Ok(next) => apply_lines(next, lines.drop_first()),
            Err(l) => Err(l),
        }
    }
}

/// The document that `text` describes, or the first invalid line.
pub open spec fn spec_parse(text: Seq<char>) -> Result<IniModel, Seq<char>> {
    apply_lines(empty_ini(), split_lines(text))
}

/// The message reported for an invalid line.
pub open spec fn invalid_line_message(l: Seq<char>) -> Seq<char> {
    "Invalid line: "@ + l
}

/// A classified line whose parts borrow from the input.
enum Line<'a> {
    Blank,
    Pair(&'a str, &'a str),
    Header(&'a str),
    Invalid(&'a str),
}

spec fn line_view(l: Line) -> LineKind {
    match l {
        Line::Blank => LineKind::Blank,
        Line::Pair(k, v) => LineKind::Pair(k@, v@),
        Line::Header(n) => LineKind::Header(n@),
        Line::Invalid(s) => LineKind::Invalid(s@),
    }
}

/// Classifies the line `chars[lo..hi]` of `input`.
fn classify_line<'a>(input: &'a str, chars: &Vec<char>, lo: usize, hi: usize) -> (r: Line<'a>)
    requires
        chars@ == input@,
        lo <= hi <= chars.len(),
    ensures
        line_view(r) == classify(chars@.subrange(lo as int, hi as int)),
{
    let ghost line = chars@.subrange(lo as int, hi as int);
    proof {
        lemma_find(line, ';');
    }
    let end = match find_in(chars, lo, hi, ';') {
        Some(j) => j,
        None => hi,
    };
    assert(strip_comment(line) =~= chars@.subrange(lo as int, end as int));
    let (a, b) = trim_range(chars, lo, end);
    let ghost l = chars@.subrange(a as int, b as int);
    assert(l == trim(strip_comment(line)));
    proof {
        lemma_find(l, '=');
    }
    match find_in(chars, a, b, '=') {
        Some(e) => {
            assert(l.take(e - a) =~= chars@.subrange(a as int, e as int));
            assert(l.skip(e - a + 1) =~= chars@.subrange(e + 1, b as int));
            let (ka, kb) = trim_range(chars, a, e);
            let (va, vb) = trim_range(chars, e + 1, b);
            Line::Pair(input.substring_char(ka, kb), input.substring_char(va, vb))
        },
        None => {
            if a == b {
                Line::Blank
            } else if b - a >= 2 && chars[a] == '[' && chars[b - 1] == ']' {
                assert(l.subrange(1, l.len() - 1) =~= chars@.subrange(a + 1, b - 1));
                let (na, nb) = trim_range(chars, a + 1, b - 1);
                Line::Header(input.substring_char(na, nb))
            } else {
                Line::Invalid(input.substring_char(a, b))
            }
        },
    }
}

/// A document under construction; it becomes an [`Ini`] once parsing is done.
struct Builder<'a> {
    root: Section<'a>,
    sections: Vec<(&'a str, Section<'a>)>,
}

impl<'a> View for Builder<'a> {
    type V = IniModel;

    closed spec fn view(&self) -> IniModel {
        IniModel { root: self.root@, sections: section_pairs_view(self.sections@) }
    }
}

proof fn lemma_add_pair_wf(m: IniModel, key: Seq<char>, value: Seq<char>)
    requires
        ini_wf(m),
    ensures
        ini_wf(add_pair(m, key, value)),
{
    let n = add_pair(m, key, value);
    assert forall|i: int| 0 <= i < n.sections.len() implies #[trigger] n.sections[i].1.name == Some(
        n.sections[i].0,
    ) by {
        if i < m.sections.len() - 1 {
            assert(n.sections[i] == m.sections[i]);
        } else {
            assert(m.sections[m.sections.len() - 1].1.name == Some(
                m.sections[m.sections.len() - 1].0,
            ));
        }
    }
}

proof fn lemma_add_section_wf(m: IniModel, name: Seq<char>)
    requires
        ini_wf(m),
    ensures
        ini_wf(add_section(m, name)),
{
    let n = add_section(m, name);
    assert forall|i: int| 0 <= i < n.sections.len() implies #[trigger] n.sections[i].1.name == Some(
        n.sections[i].0,
    ) by {
        if i < m.sections.len() {
            assert(n.sections[i] == m.sections[i]);
        }
    }
}

impl<'a> Builder<'a> {
    fn new() -> (b: Self)
        ensures
            b@ == empty_ini(),
    {
        let b = Builder { root: Section::default(), sections: Vec::new() };
        assert(b@.sections =~= Seq::empty());
        b
    }

    /// Adds `key=value` to the last section, or to the root while there is none.
    fn add_pair(&mut self, key: &'a str, value: &'a str)
        ensures
            final(self)@ == add_pair(old(self)@, key@, value@),
    {
        if self.sections.len() == 0 {
            self.root.push(key, value);
        } else {
            let ghost before = self.sections@;
            let (name, mut section) = self.sections.pop().unwrap();
            assert(self.sections@ =~= before.drop_last());
            section.push(key, value);
            self.sections.push((name, section));
            assert(section_pairs_view(self.sections@) =~= section_pairs_view(before).drop_last().push(
                (name@, section@),
            ));
        }
    }

    /// Opens a new, empty section `name` at the end.
    fn add_section(&mut self, name: &'a str)
        ensures
            final(self)@ == add_section(old(self)@, name@),
    {
        let ghost before = self.sections@;
        let section = Section::new(name);
        self.sections.push((name, section));
        assert(section_pairs_view(self.sections@) =~= section_pairs_view(before).push(
            (name@, section@),
        ));
    }

    fn finish(self) -> (ini: Ini<'a>)
        requires
            ini_wf(self@),
        ensures
            ini@ == self@,
    {
        Ini { root: self.root, sections: self.sections }
    }
}

/// Whether `r` is the outcome that [`spec_parse`] prescribes for `text`: the
/// document it describes, or the error that names the first invalid line.
pub open spec fn parse_outcome(r: Result<Ini, Error>, text: Seq<char>) -> bool {
    match (r, spec_parse(text)) {
        (Ok(ini), Ok(m)) => ini@ == m,
        (Err(Error::ParseError(msg)), Err(l)) => msg@ == invalid_line_message(l),
        _ => false,
    }
}

/// Parses `input`. Each line (split at `'\n'`) loses everything from its first
/// `;` on and its surrounding whitespace; then it is blank, a `key=value` pair
/// (split at the first `=`, both parts trimmed) that goes to the current
/// section (the root before any header), or a `[name]` header that opens a new
/// section. Any other line makes the parse fail with `Invalid line: ` and that
/// line.
pub fn parse(input: &str) -> (r: Result<Ini<'_>, Error>)
    ensures
        parse_outcome(r, input@),
{
    let chars = chars_of(input);
    let n = chars.len();
    let mut ini = Builder::new();
    let mut pos: usize = 0;
    assert(chars@.subrange(0, n as int) =~= chars@);
    loop
        invariant
            pos <= n == chars.len(),
            chars@ == input@,
            ini_wf(ini@),
            spec_parse(input@) == apply_lines(
                ini@,
                split_lines(chars@.subrange(pos as int, n as int)),
            ),
        decreases n - pos,
    {
        let ghost rest = chars@.subrange(pos as int, n as int);
        proof {
            lemma_find(rest, '\n');
        }
        let nl = find_in(&chars, pos, n, '\n');
        let end = match nl {
            Some(e) => e,
            None => n,
        };
        let ghost line = chars@.subrange(pos as int, end as int);
        let ghost tail: Seq<Seq<char>> = match nl {
            Some(e) => split_lines(chars@.subrange(e + 1, n as int)),
            None => Seq::empty(),
        };
        proof {
            match nl {
                Some(e) => {
                    assert(rest.take(e - pos) =~= line);
                    assert(rest.skip(e - pos + 1) =~= chars@.subrange(e + 1, n as int));
                },
                None => {
                    assert(rest =~= line);
                },
            }
            assert(split_lines(rest) == seq![line] + tail);
            assert((seq![line] + tail)[0] == line);
            assert((seq![line] + tail).drop_first() =~= tail);
        }
        let ghost m = ini@;
        match classify_line(input, &chars, pos, end) {
            Line::Blank => {},
            Line::Pair(k, v) => {
                proof {
                    lemma_add_pair_wf(ini@, k@, v@);
                }
                ini.add_pair(k, v);
            },
            Line::Header(name) => {
                proof {
                    lemma_add_section_wf(ini@, name@);
                }
                ini.add_section(name);
            },
            Line::Invalid(l) => {
                let mut msg = String::from_str("Invalid line: ");
                msg.append(l);
                return Err(Error::ParseError(msg));
            },
        }
        assert(apply_line(m, line) == Ok::<IniModel, Seq<char>>(ini@));
        match nl {
            Some(e) => {
                pos = e + 1;
            },
            None => {
                assert(apply_lines(ini@, tail) == Ok::<IniModel, Seq<char>>(ini@));
                return Ok(ini.finish());
            },
        }
    }
}

} // verus!
