//! The document value model: a `ConfigValue` is either a leaf string or a
//! table of named sub-values. A table is represented as a vector of entries
//! with pairwise-distinct keys; its mathematical model is a `Map` from key
//! characters to model values, so entry order is irrelevant to the contracts.
use vstd::prelude::*;

verus! {

broadcast use {vstd::std_specs::vec::group_vec_axioms, vstd::seq::group_seq_axioms, vstd::set::group_set_axioms, vstd::map::group_map_axioms};

/// Mathematical model of a document value: a leaf string or a nested map.
pub enum SpecValue {
    Leaf(Seq<char>),
    Table(Map<Seq<char>, SpecValue>),
}

/// One key/value entry of a table.
#[derive(Debug, PartialEq)]
pub struct Entry {
    pub key: String,
    pub value: ConfigValue,
}

/// A nested mapping node; keys are unique (see [`table_wf`]).
#[derive(Debug, PartialEq)]
pub struct ConfigTable {
    pub entries: Vec<Entry>,
}

/// A document value: a terminal string or a nested table.
#[derive(Debug, PartialEq)]
pub enum ConfigValue {
    Str(String),
    Table(ConfigTable),
}

/// Model of a value.
pub open spec fn value_model(v: ConfigValue) -> SpecValue
    decreases v, 0int,
{
    match v {
        ConfigValue::Str(s) => SpecValue::Leaf(s@),
        ConfigValue::Table(t) => SpecValue::Table(table_model(t)),
    }
}

/// Model of a table: its entries folded into a map, later entries winning.
pub open spec fn table_model(t: ConfigTable) -> Map<Seq<char>, SpecValue>
    decreases t, 0int,
{
    entries_model(t.entries@, t.entries@.len() as int)
}

/// Model of the first `n` entries of an entry sequence.
pub open spec fn entries_model(es: Seq<Entry>, n: int) -> Map<Seq<char>, SpecValue>
    decreases es, n,
    when n <= es.len()
{
    if n <= 0 {
        Map::empty()
    } else {
        entries_model(es, n - 1).insert(es[n - 1].key@, value_model(es[n - 1].value))
    }
}

/// Well-formedness of a value: every table in it has distinct keys.
pub open spec fn value_wf(v: ConfigValue) -> bool
    decreases v, 0int,
{
    match v {
        ConfigValue::Str(_) => true,
        ConfigValue::Table(t) => table_wf(t),
    }
}

/// Well-formedness of a table.
pub open spec fn table_wf(t: ConfigTable) -> bool
    decreases t, 0int,
{
    entries_wf(t.entries@, t.entries@.len() as int)
}

/// Well-formedness of the first `n` entries: values well-formed, keys distinct.
pub open spec fn entries_wf(es: Seq<Entry>, n: int) -> bool
    decreases es, n,
    when n <= es.len()
{
    if n <= 0 {
        true
    } else {
        entries_wf(es, n - 1) && value_wf(es[n - 1].value) && (forall|j: int|
            0 <= j < n - 1 ==> #[trigger] es[j].key@ != es[n - 1].key@)
    }
}

impl View for ConfigTable {
    type V = Map<Seq<char>, SpecValue>;

    open spec fn view(&self) -> Map<Seq<char>, SpecValue> {
        table_model(*self)
    }
}

impl View for ConfigValue {
    type V = SpecValue;

    open spec fn view(&self) -> SpecValue {
        value_model(*self)
    }
}

} // verus!

verus! {

/// Two entry sequences that agree on their first `n` entries have the same
/// model and the same well-formedness over those entries.
pub proof fn lemma_entries_agree(es1: Seq<Entry>, es2: Seq<Entry>, n: int)
    requires
        n <= es1.len(),
        n <= es2.len(),
        forall|j: int| 0 <= j < n ==> es1[j] == es2[j],
    ensures
        entries_model(es1, n) == entries_model(es2, n),
        entries_wf(es1, n) == entries_wf(es2, n),
    decreases n,
{
    if n > 0 {
        lemma_entries_agree(es1, es2, n - 1);
    }
}

/// A key is in the model of the first `n` entries exactly when some entry
/// among them carries it.
pub proof fn lemma_entries_contains(es: Seq<Entry>, n: int, k: Seq<char>)
    requires
        n <= es.len(),
    ensures
        entries_model(es, n).contains_key(k) <==> exists|i: int|
            0 <= i < n && #[trigger] es[i].key@ == k,
    decreases n,
{
    if n > 0 {
        lemma_entries_contains(es, n - 1, k);
    }
}

/// If no later entry repeats the key of entry `i`, the model maps that key
/// to the model of entry `i`'s value.
pub proof fn lemma_entries_index(es: Seq<Entry>, n: int, i: int)
    requires
        n <= es.len(),
        0 <= i < n,
        forall|j: int| i < j < n ==> #[trigger] es[j].key@ != es[i].key@,
    ensures
        entries_model(es, n).contains_key(es[i].key@),
        entries_model(es, n)[es[i].key@] == value_model(es[i].value),
    decreases n,
{
    if i < n - 1 {
        lemma_entries_index(es, n - 1, i);
    }
}

/// Well-formed entries have pairwise-distinct keys.
pub proof fn lemma_entries_wf_distinct(es: Seq<Entry>, n: int)
    requires
        n <= es.len(),
        entries_wf(es, n),
    ensures
        forall|i: int, j: int| 0 <= i < j < n ==> #[trigger] es[i].key@ != #[trigger] es[j].key@,
        forall|i: int| 0 <= i < n ==> value_wf(#[trigger] es[i].value),
    decreases n,
{
    if n > 0 {
        lemma_entries_wf_distinct(es, n - 1);
    }
}

/// Removing entry `i` removes exactly its key from the model, provided keys
/// are distinct; well-formedness is preserved.
pub proof fn lemma_entries_remove(es: Seq<Entry>, n: int, i: int)
    requires
        n <= es.len(),
        0 <= i < n,
        entries_wf(es, n),
    ensures
        entries_wf(es.remove(i), n - 1),
        entries_model(es.remove(i), n - 1) =~= entries_model(es, n).remove(es[i].key@),
    decreases n,
{
    lemma_entries_wf_distinct(es, n);
    if i == n - 1 {
        lemma_entries_agree(es.remove(i), es, n - 1);
        lemma_entries_contains(es, n - 1, es[i].key@);
        assert(entries_model(es, n - 1).remove(es[i].key@) =~= entries_model(es, n - 1));
    } else {
        lemma_entries_remove(es, n - 1, i);
        assert(es.remove(i)[n - 2] == es[n - 1]);
        assert(entries_model(es.remove(i), n - 1) =~= entries_model(es, n).remove(es[i].key@));
    }
}

/// A well-formed model has a finite domain of exactly `n` keys.
pub proof fn lemma_entries_dom(es: Seq<Entry>, n: int)
    requires
        0 <= n <= es.len(),
        entries_wf(es, n),
    ensures
        entries_model(es, n).dom().finite(),
        entries_model(es, n).dom().len() == n,
    decreases n,
{
    if n <= 0 {
        assert(entries_model(es, n).dom() =~= Set::<Seq<char>>::empty());
    } else {
        lemma_entries_dom(es, n - 1);
        lemma_entries_contains(es, n - 1, es[n - 1].key@);
        assert(!entries_model(es, n - 1).contains_key(es[n - 1].key@));
        assert(entries_model(es, n).dom() =~= entries_model(es, n - 1).dom().insert(
            es[n - 1].key@,
        ));
        assert(entries_model(es, n - 1).dom().insert(es[n - 1].key@).len() == n);
    }
}

/// Entries with pairwise-distinct keys and well-formed values are
/// well-formed.
pub proof fn lemma_entries_wf_build(es: Seq<Entry>, n: int)
    requires
        0 <= n <= es.len(),
        forall|i: int, j: int| 0 <= i < j < n ==> (#[trigger] es[i]).key@ != (#[trigger] es[j]).key@,
        forall|i: int| 0 <= i < n ==> value_wf((#[trigger] es[i]).value),
    ensures
        entries_wf(es, n),
    decreases n,
{
    if n > 0 {
        lemma_entries_wf_build(es, n - 1);
    }
}

/// Appending an entry with a fresh, well-formed value inserts its key.
pub proof fn lemma_entries_push(es: Seq<Entry>, n: int, e: Entry)
    requires
        n == es.len(),
        entries_wf(es, n),
        value_wf(e.value),
        forall|j: int| 0 <= j < n ==> #[trigger] es[j].key@ != e.key@,
    ensures
        entries_wf(es.push(e), n + 1),
        entries_model(es.push(e), n + 1) == entries_model(es, n).insert(
            e.key@,
            value_model(e.value),
        ),
{
    lemma_entries_agree(es.push(e), es, n);
    assert(es.push(e)[n] == e);
}

/// The dot-separated segments of a key. Every segment is kept, including
/// empty ones produced by leading, trailing or doubled dots.
pub open spec fn path_of(k: Seq<char>) -> Seq<Seq<char>>
    decreases k.len(),
    via path_of_decreases
{
    let d = crate::text::find_first(k, |c: char| c == '.');
    if d < 0 {
        seq![k]
    } else {
        seq![k.subrange(0, d)] + path_of(k.subrange(d + 1, k.len() as int))
    }
}

#[via_fn]
proof fn path_of_decreases(k: Seq<char>) {
    crate::text::lemma_find_first_bounds(k, |c: char| c == '.');
}

/// A dotted key always has at least one segment.
pub proof fn lemma_path_of_nonempty(k: Seq<char>)
    ensures
        path_of(k).len() >= 1,
    decreases k.len(),
{
    crate::text::lemma_find_first_bounds(k, |c: char| c == '.');
}

/// Insertion of a dotted path into a document map, with override semantics:
/// the last segment is set to a leaf unconditionally; a missing or leaf-valued
/// intermediate segment is replaced by a fresh table.
pub open spec fn insert_path(
    m: Map<Seq<char>, SpecValue>,
    path: Seq<Seq<char>>,
    val: Seq<char>,
) -> Map<Seq<char>, SpecValue>
    recommends
        path.len() >= 1,
    decreases path.len(),
{
    if path.len() <= 1 {
        m.insert(path[0], SpecValue::Leaf(val))
    } else {
        let sub = if m.contains_key(path[0]) && m[path[0]] is Table {
            m[path[0]]->Table_0
        } else {
            Map::<Seq<char>, SpecValue>::empty()
        };
        m.insert(path[0], SpecValue::Table(insert_path(sub, path.drop_first(), val)))
    }
}

/// Navigation by path: descends through tables and returns the value at the
/// end of the path, if the whole path exists.
pub open spec fn lookup(m: Map<Seq<char>, SpecValue>, path: Seq<Seq<char>>) -> Option<SpecValue>
    decreases path.len(),
{
    if path.len() == 0 {
        None
    } else if !m.contains_key(path[0]) {
        None
    } else if path.len() == 1 {
        Some(m[path[0]])
    } else {
        match m[path[0]] {
            SpecValue::Table(sub) => lookup(sub, path.drop_first()),
            SpecValue::Leaf(_) => None,
        }
    }
}

impl ConfigTable {
    /// The empty table.
    pub fn new() -> (t: ConfigTable)
        ensures
            t@ == Map::<Seq<char>, SpecValue>::empty(),
            table_wf(t),
    {
        ConfigTable { entries: Vec::new() }
    }

    /// Number of keys.
    pub fn len(&self) -> (n: usize)
        requires
            table_wf(*self),
        ensures
            n == self@.dom().len(),
    {
        proof {
            lemma_entries_dom(self.entries@, self.entries@.len() as int);
        }
        self.entries.len()
    }

    /// Whether the table has no keys.
    pub fn is_empty(&self) -> (r: bool)
        requires
            table_wf(*self),
        ensures
            r == (self@ == Map::<Seq<char>, SpecValue>::empty()),
    {
        proof {
            if self.entries@.len() == 0 {
                assert(self@ =~= Map::<Seq<char>, SpecValue>::empty());
            } else {
                lemma_entries_contains(self.entries@, self.entries@.len() as int,
                    self.entries@[0].key@);
                assert(self@.contains_key(self.entries@[0].key@));
                assert(!Map::<Seq<char>, SpecValue>::empty().contains_key(
                    self.entries@[0].key@));
            }
        }
        self.entries.len() == 0
    }

    /// Looks a key up.
    pub fn get(&self, key: &str) -> (r: Option<&ConfigValue>)
        requires
            table_wf(*self),
        ensures
            (match r {
                Some(v) => self@.contains_key(key@) && value_model(*v) == self@[key@]
                    && value_wf(*v),
                None => !self@.contains_key(key@),
            }),
    {
        let ghost es = self.entries@;
        let ghost n = es.len() as int;
        let mut i: usize = 0;
        while i < self.entries.len()
            invariant
                table_wf(*self),
                es == self.entries@,
                n == es.len(),
                0 <= i <= n,
                forall|j: int| 0 <= j < i ==> #[trigger] es[j].key@ != key@,
            decreases n - i,
        {
            if crate::text::str_eq(self.entries[i].key.as_str(), key) {
                proof {
                    lemma_entries_wf_distinct(es, n);
                    lemma_entries_index(es, n, i as int);
                }
                return Some(&self.entries[i].value);
            }
            i = i + 1;
        }
        proof {
            lemma_entries_contains(es, n, key@);
        }
        None
    }

    /// Removes a key and hands its value back.
    pub fn remove(&mut self, key: &str) -> (r: Option<ConfigValue>)
        requires
            table_wf(*old(self)),
        ensures
            table_wf(*final(self)),
            final(self)@ == old(self)@.remove(key@),
            (match r {
                Some(v) => old(self)@.contains_key(key@) && value_model(v) == old(self)@[key@]
                    && value_wf(v),
                None => !old(self)@.contains_key(key@) && final(self)@ == old(self)@,
            }),
    {
        let ghost es = self.entries@;
        let ghost n = es.len() as int;
        let mut i: usize = 0;
        while i < self.entries.len()
            invariant
                table_wf(*self),
                es == self.entries@,
                es == old(self).entries@,
                n == es.len(),
                0 <= i <= n,
                forall|j: int| 0 <= j < i ==> #[trigger] es[j].key@ != key@,
            decreases n - i,
        {
            if crate::text::str_eq(self.entries[i].key.as_str(), key) {
                proof {
                    lemma_entries_wf_distinct(es, n);
                    lemma_entries_index(es, n, i as int);
                    lemma_entries_remove(es, n, i as int);
                }
                let e = self.entries.remove(i);
                return Some(e.value);
            }
            i = i + 1;
        }
        proof {
            lemma_entries_contains(es, n, key@);
            assert(old(self)@.remove(key@) =~= old(self)@);
        }
        None
    }

    /// Binds a key to a value, replacing any previous binding.
    pub fn insert(&mut self, key: String, value: ConfigValue)
        requires
            table_wf(*old(self)),
            value_wf(value),
        ensures
            table_wf(*final(self)),
            final(self)@ == old(self)@.insert(key@, value_model(value)),
    {
        let _removed = self.remove(key.as_str());
        let ghost es1 = self.entries@;
        let e = Entry { key, value };
        let ghost ge = e;
        proof {
            lemma_entries_contains(es1, es1.len() as int, ge.key@);
        }
        self.entries.push(e);
        proof {
            lemma_entries_push(es1, es1.len() as int, ge);
            assert(final(self)@ =~= old(self)@.insert(ge.key@, value_model(ge.value)));
        }
    }
}

/// Splits a key on dots into owned segments.
pub fn split_dots(key: &str) -> (parts: Vec<String>)
    ensures
        parts@.map_values(|s: String| s@) == path_of(key@),
        parts@.len() >= 1,
{
    let n = key.unicode_len();
    let mut parts: Vec<String> = Vec::new();
    let mut start: usize = 0;
    proof {
        assert(key@.subrange(0, n as int) =~= key@);
        assert(parts@.map_values(|s: String| s@) =~= Seq::<Seq<char>>::empty());
        assert(parts@.map_values(|s: String| s@) + path_of(key@) =~= path_of(key@));
    }
    loop
        invariant
            n == key@.len(),
            0 <= start <= n,
            path_of(key@) =~= parts@.map_values(|s: String| s@) + path_of(
                key@.subrange(start as int, n as int),
            ),
        decreases n - start,
    {
        let ghost suffix = key@.subrange(start as int, n as int);
        let mut j: usize = start;
        let mut found = false;
        while j < n && !found
            invariant
                n == key@.len(),
                start <= j <= n,
                forall|m: int| start <= m < j ==> key@[m] != '.',
                found ==> j < n && key@[j as int] == '.',
            decreases n - j + (if found { 0int } else { 1int }),
        {
            if key.get_char(j) == '.' {
                found = true;
            } else {
                j = j + 1;
            }
        }
        proof {
            assert(forall|m: int| 0 <= m < j - start ==> suffix[m] != '.');
            crate::text::lemma_find_first(suffix, |c: char| c == '.', j - start);
        }
        if found {
            let piece = key.substring_char(start, j);
            parts.push(String::from_str(piece));
            proof {
                let f = |s: String| s@;
                assert(suffix.subrange(0, j - start) =~= key@.subrange(start as int, j as int));
                assert(suffix.subrange(j - start + 1, suffix.len() as int) =~= key@.subrange(
                    j as int + 1,
                    n as int,
                ));
                assert(path_of(suffix) == seq![piece@] + path_of(
                    key@.subrange(j as int + 1, n as int),
                ));
                assert(parts@.map_values(f) =~= parts@.subrange(0, parts@.len() - 1).map_values(f)
                    + seq![piece@]);
            }
            start = j + 1;
        } else {
            let piece = key.substring_char(start, n);
            parts.push(String::from_str(piece));
            proof {
                let f = |s: String| s@;
                assert(path_of(suffix) == seq![piece@]);
                assert(parts@.map_values(f) =~= parts@.subrange(0, parts@.len() - 1).map_values(f)
                    + seq![piece@]);
                assert(parts@.map_values(f) =~= path_of(key@));
            }
            return parts;
        }
    }
}

/// Inserts the suffix of `parts` starting at `i` into `current_map`, with
/// the override semantics of [`insert_path`].
pub fn insert_recursive(current_map: &mut ConfigTable, parts: &Vec<String>, i: usize, val: &str)
    requires
        table_wf(*old(current_map)),
        i < parts@.len(),
    ensures
        table_wf(*final(current_map)),
        final(current_map)@ == insert_path(
            old(current_map)@,
            parts@.map_values(|s: String| s@).subrange(i as int, parts@.len() as int),
            val@,
        ),
    decreases parts@.len() - i,
{
    let ghost path = parts@.map_values(|s: String| s@).subrange(i as int, parts@.len() as int);
    let ghost p0 = parts@[i as int]@;
    if i == parts.len() - 1 {
        let k = parts[i].clone();
        current_map.insert(k, ConfigValue::Str(String::from_str(val)));
        proof {
            assert(path.len() == 1);
            assert(path[0] == p0);
        }
    } else {
        let ghost m0 = old(current_map)@;
        let ghost sub0 = if m0.contains_key(p0) && m0[p0] is Table {
            m0[p0]->Table_0
        } else {
            Map::<Seq<char>, SpecValue>::empty()
        };
        let existing = current_map.remove(parts[i].as_str());
        let mut sub: ConfigTable;
        match existing {
            Some(v) => {
                match v {
                    ConfigValue::Table(st) => {
                        sub = st;
                    }
                    ConfigValue::Str(s) => {
                        sub = ConfigTable::new();
                        proof {
                            assert(m0[p0] == SpecValue::Leaf(s@));
                        }
                    }
                }
            }
            None => {
                sub = ConfigTable::new();
            }
        }
        proof {
            assert(sub@ == sub0);
            assert(table_wf(sub));
        }
        insert_recursive(&mut sub, parts, i + 1, val);
        let k = parts[i].clone();
        current_map.insert(k, ConfigValue::Table(sub));
        proof {
            assert(path.drop_first() =~= parts@.map_values(|s: String| s@).subrange(
                i as int + 1,
                parts@.len() as int,
            ));
            assert(path[0] == p0);
            assert(path.len() > 1);
            assert(final(current_map)@ =~= insert_path(m0, path, val@));
        }
    }
}

/// Inserts a dotted key into a table: the key is split on dots and the
/// resulting path folded in with override semantics.
pub fn insert_nested_key(root: &mut ConfigTable, key: &str, val: &str)
    requires
        table_wf(*old(root)),
    ensures
        table_wf(*final(root)),
        final(root)@ == insert_path(old(root)@, path_of(key@), val@),
{
    let parts = split_dots(key);
    insert_recursive(root, &parts, 0, val);
    proof {
        assert(parts@.map_values(|s: String| s@).subrange(0, parts@.len() as int) =~= path_of(
            key@,
        ));
    }
}

} // verus!
