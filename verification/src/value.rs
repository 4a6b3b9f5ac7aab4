//! The tagged value model shared by the codec: null, booleans, numbers,
//! strings, ordered sequences, and order-preserving string-keyed maps.

use vstd::prelude::*;

verus! {

/// A JSON-style number.  Non-negative integers that fit a `u64` and
/// negative integers that fit an `i64` are kept exactly; any other
/// number (non-integral or out of range) is kept as its literal text.
pub enum Num {
    Unsigned(u64),
    Negative(i64),
    Decimal(String),
}

/// An order-preserving string-keyed map of values.
pub struct Obj {
    pub entries: Vec<(String, Value)>,
}

/// A tagged JSON-style value.
pub enum Value {
    Null,
    Bool(bool),
    Num(Num),
    Text(String),
    List(Vec<Value>),
    Object(Obj),
}

/// Mathematical model of a `Num`.
pub enum NumV {
    Unsigned(u64),
    Negative(i64),
    Decimal(Seq<char>),
}

/// Mathematical model of a `Value`: strings become character sequences,
/// vectors become sequences.
#[verifier::ext_equal]
pub enum ValueV {
    Null,
    Bool(bool),
    Num(NumV),
    Text(Seq<char>),
    List(Seq<ValueV>),
    Object(Seq<(Seq<char>, ValueV)>),
}

/// Model of an ordered map: its key-value pairs in order, keys as
/// character sequences.
pub type EntriesV = Seq<(Seq<char>, ValueV)>;

impl View for Num {
    type V = NumV;

    open spec fn view(&self) -> NumV {
        match self {
            Num::Unsigned(u) => NumV::Unsigned(*u),
            Num::Negative(i) => NumV::Negative(*i),
            Num::Decimal(s) => NumV::Decimal(s@),
        }
    }
}

/// The model of a value, computed structurally.
pub open spec fn value_view(v: Value) -> ValueV
    decreases v,
{
    match v {
        Value::Null => ValueV::Null,
        Value::Bool(b) => ValueV::Bool(b),
        Value::Num(n) => ValueV::Num(n@),
        Value::Text(s) => ValueV::Text(s@),
        Value::List(xs) => ValueV::List(
            Seq::new(
                xs@.len(),
                |i: int|
                    if 0 <= i < xs@.len() {
                        proof {
                            assert(decreases_to!(v => xs));
                            assert(decreases_to!(xs => xs@));
                            assert(decreases_to!(xs@ => xs@[i]));
                        }
                        value_view(xs@[i])
                    } else {
                        ValueV::Null
                    },
            ),
        ),
        Value::Object(o) => ValueV::Object(
            Seq::new(
                o.entries@.len(),
                |i: int|
                    if 0 <= i < o.entries@.len() {
                        proof {
                            assert(decreases_to!(v => o.entries));
                            assert(decreases_to!(o.entries => o.entries@));
                            assert(decreases_to!(o.entries@ => o.entries@[i]));
                        }
                        (o.entries@[i].0@, value_view(o.entries@[i].1))
                    } else {
                        (Seq::empty(), ValueV::Null)
                    },
            ),
        ),
    }
}

/// The model of a sequence of values.
pub open spec fn items_view(xs: Seq<Value>) -> Seq<ValueV> {
    Seq::new(xs.len(), |i: int| value_view(xs[i]))
}

/// The model of a map's entry list.
pub open spec fn entries_view(es: Seq<(String, Value)>) -> EntriesV {
    Seq::new(es.len(), |i: int| (es[i].0@, value_view(es[i].1)))
}

impl View for Value {
    type V = ValueV;

    open spec fn view(&self) -> ValueV {
        value_view(*self)
    }
}

impl View for Obj {
    type V = EntriesV;

    open spec fn view(&self) -> EntriesV {
        entries_view(self.entries@)
    }
}

/// Whether some entry of `m` has key `k`.
pub open spec fn has_key_v(m: EntriesV, k: Seq<char>) -> bool {
    exists|i: int| 0 <= i < m.len() && m[i].0 == k
}

/// The value at the first entry of `m` whose key is `k`, if any.
pub open spec fn lookup_v(m: EntriesV, k: Seq<char>) -> Option<ValueV>
    decreases m.len(),
{
    if m.len() == 0 {
        None
    } else if m[0].0 == k {
        Some(m[0].1)
    } else {
        lookup_v(m.skip(1), k)
    }
}

/// Insertion with last-write-wins semantics: an existing entry with the
/// same key keeps its position and takes the new value; a new key is
/// appended at the end.
pub open spec fn insert_v(m: EntriesV, k: Seq<char>, v: ValueV) -> EntriesV
    decreases m.len(),
{
    if m.len() == 0 {
        seq![(k, v)]
    } else if m[0].0 == k {
        seq![(k, v)] + m.skip(1)
    } else {
        seq![m[0]] + insert_v(m.skip(1), k, v)
    }
}

/// No two entries of `m` share a key.
pub open spec fn keys_unique(m: EntriesV) -> bool {
    forall|i: int, j: int| 0 <= i < j < m.len() ==> m[i].0 != m[j].0
}

/// A lookup finds a value exactly when the key is present.
pub proof fn lemma_lookup_has_key(m: EntriesV, k: Seq<char>)
    ensures
        lookup_v(m, k) is Some <==> has_key_v(m, k),
    decreases m.len(),
{
    if m.len() != 0 && m[0].0 != k {
        lemma_lookup_has_key(m.skip(1), k);
        assert forall|i: int| 0 <= i < m.len() && m[i].0 == k implies has_key_v(m.skip(1), k) by {
            assert(m.skip(1)[i - 1].0 == k);
        }
        if has_key_v(m.skip(1), k) {
            let i = choose|i: int| 0 <= i < m.skip(1).len() && m.skip(1)[i].0 == k;
            assert(m[i + 1].0 == k);
        }
    }
}

/// If no key in the first `n` entries matches `k`, a lookup continues in
/// the rest.
pub proof fn lemma_lookup_skip(m: EntriesV, k: Seq<char>, n: int)
    requires
        0 <= n <= m.len(),
        forall|j: int| 0 <= j < n ==> m[j].0 != k,
    ensures
        lookup_v(m, k) == lookup_v(m.skip(n), k),
    decreases n,
{
    if n > 0 {
        lemma_lookup_skip(m.skip(1), k, n - 1);
        assert(m.skip(1).skip(n - 1) =~= m.skip(n));
    } else {
        assert(m.skip(0) =~= m);
    }
}

/// If the first matching key stands at position `p`, insertion updates
/// that entry in place.
pub proof fn lemma_insert_found(m: EntriesV, k: Seq<char>, v: ValueV, p: int)
    requires
        0 <= p < m.len(),
        m[p].0 == k,
        forall|j: int| 0 <= j < p ==> m[j].0 != k,
    ensures
        insert_v(m, k, v) =~= m.update(p, (k, v)),
    decreases p,
{
    if p == 0 {
        assert(insert_v(m, k, v) =~= m.update(0, (k, v)));
    } else {
        lemma_insert_found(m.skip(1), k, v, p - 1);
        assert(insert_v(m, k, v) =~= seq![m[0]] + m.skip(1).update(p - 1, (k, v)));
        assert(seq![m[0]] + m.skip(1).update(p - 1, (k, v)) =~= m.update(p, (k, v)));
    }
}

/// If no key matches `k`, insertion appends a new entry at the end.
pub proof fn lemma_insert_fresh(m: EntriesV, k: Seq<char>, v: ValueV)
    requires
        forall|j: int| 0 <= j < m.len() ==> m[j].0 != k,
    ensures
        insert_v(m, k, v) =~= m.push((k, v)),
    decreases m.len(),
{
    if m.len() != 0 {
        lemma_insert_fresh(m.skip(1), k, v);
        assert(insert_v(m, k, v) =~= seq![m[0]] + m.skip(1).push((k, v)));
        assert(seq![m[0]] + m.skip(1).push((k, v)) =~= m.push((k, v)));
    }
}

/// Insertion preserves key uniqueness.
pub proof fn lemma_insert_keys_unique(m: EntriesV, k: Seq<char>, v: ValueV)
    requires
        keys_unique(m),
    ensures
        keys_unique(insert_v(m, k, v)),
{
    if has_key_v(m, k) {
        let p = choose|i: int| 0 <= i < m.len() && m[i].0 == k;
        assert(forall|j: int| 0 <= j < p ==> m[j].0 != k) by {
            assert forall|j: int| 0 <= j < p implies m[j].0 != k by {
                assert(m[j].0 != m[p].0);
            }
        }
        lemma_insert_found(m, k, v, p);
    } else {
        assert(forall|j: int| 0 <= j < m.len() ==> m[j].0 != k);
        lemma_insert_fresh(m, k, v);
    }
}

/// Character-wise string equality: `r` holds exactly when the two
/// views are the same character sequence.
pub fn str_equal(a: &str, b: &str) -> (r: bool)
    ensures
        r == (a@ == b@),
{
    let n = a.unicode_len();
    if n != b.unicode_len() {
        proof {
            assert(a@ != b@) by {
                assert(a@.len() != b@.len());
            }
        }
        return false;
    }
    let mut i: usize = 0;
    while i < n
        invariant
            n == a@.len(),
            n == b@.len(),
            0 <= i <= n,
            forall|j: int| 0 <= j < i ==> a@[j] == b@[j],
        decreases n - i,
    {
        if a.get_char(i) != b.get_char(i) {
            return false;
        }
        i += 1;
    }
    proof {
        assert(a@ =~= b@);
    }
    true
}

impl Obj {
    /// An empty map.
    pub fn new() -> (r: Obj)
        ensures
            r@ == Seq::<(Seq<char>, ValueV)>::empty(),
    {
        let r = Obj { entries: Vec::new() };
        proof {
            assert(r@ =~= Seq::<(Seq<char>, ValueV)>::empty());
        }
        r
    }

    /// The number of entries.
    pub fn len(&self) -> (n: usize)
        ensures
            n == self@.len(),
    {
        self.entries.len()
    }

    /// Whether the map has an entry with key `k`.
    pub fn contains_key(&self, k: &String) -> (r: bool)
        ensures
            r == has_key_v(self@, k@),
    {
        let n = self.entries.len();
        let mut i: usize = 0;
        while i < n
            invariant
                n == self.entries.len(),
                0 <= i <= n,
                forall|j: int| 0 <= j < i ==> self@[j].0 != k@,
            decreases n - i,
        {
            if str_equal(self.entries[i].0.as_str(), k.as_str()) {
                assert(self@[i as int].0 == k@);
                return true;
            }
            i += 1;
        }
        false
    }

    /// The value at the first entry with key `k`, if any.
    pub fn get(&self, k: &String) -> (r: Option<&Value>)
        ensures
            match r {
                Some(v) => lookup_v(self@, k@) == Some(v@),
                None => lookup_v(self@, k@) is None,
            },
    {
        let n = self.entries.len();
        let mut i: usize = 0;
        while i < n
            invariant
                n == self.entries.len(),
                0 <= i <= n,
                forall|j: int| 0 <= j < i ==> self@[j].0 != k@,
            decreases n - i,
        {
            if str_equal(self.entries[i].0.as_str(), k.as_str()) {
                proof {
                    lemma_lookup_skip(self@, k@, i as int);
                    assert(self@.skip(i as int)[0] == self@[i as int]);
                }
                return Some(&self.entries[i].1);
            }
            i += 1;
        }
        proof {
            lemma_lookup_skip(self@, k@, n as int);
        }
        None
    }

    /// Insert with last-write-wins semantics: an existing key keeps its
    /// position and takes the new value; a new key is appended.
    pub fn insert(&mut self, k: String, v: Value)
        ensures
            final(self)@ == insert_v(old(self)@, k@, v@),
    {
        let ghost m = self@;
        let n = self.entries.len();
        let mut i: usize = 0;
        while i < n
            invariant
                self == old(self),
                self@ == m,
                n == self.entries.len(),
                0 <= i <= n,
                forall|j: int| 0 <= j < i ==> self@[j].0 != k@,
            decreases n - i,
        {
            if str_equal(self.entries[i].0.as_str(), k.as_str()) {
                proof {
                    assert(m[i as int].0 == k@);
                    lemma_insert_found(m, k@, v@, i as int);
                }
                self.entries[i] = (k, v);
                proof {
                    assert(self@ =~= m.update(i as int, (k@, v@)));
                }
                return ;
            }
            i += 1;
        }
        proof {
            lemma_insert_fresh(m, k@, v@);
        }
        self.entries.push((k, v));
        proof {
            assert(self@ =~= m.push((k@, v@)));
        }
    }
}

/// Fold a raw entry list into a map: each pair inserted in order, so a
/// repeated key keeps its first position and takes its last value.
pub open spec fn dedup_entries(ps: EntriesV) -> EntriesV
    decreases ps.len(),
{
    if ps.len() == 0 {
        Seq::empty()
    } else {
        insert_v(dedup_entries(ps.drop_last()), ps.last().0, ps.last().1)
    }
}

/// A folded entry list has unique keys.
pub proof fn lemma_dedup_keys_unique(ps: EntriesV)
    ensures
        keys_unique(dedup_entries(ps)),
    decreases ps.len(),
{
    if ps.len() != 0 {
        lemma_dedup_keys_unique(ps.drop_last());
        lemma_insert_keys_unique(dedup_entries(ps.drop_last()), ps.last().0, ps.last().1);
    }
}

/// The merge of an override map `extra` with a `base` map: all of
/// `extra`'s entries first, in `extra`'s order, then those entries of
/// `base` whose key does not occur in `extra`, in `base`'s order.
pub open spec fn merged(extra: EntriesV, base: EntriesV) -> EntriesV
    decreases base.len(),
{
    if base.len() == 0 {
        extra
    } else {
        merged(extra, base.drop_last()) + if has_key_v(extra, base.last().0) {
            Seq::<(Seq<char>, ValueV)>::empty()
        } else {
            seq![base.last()]
        }
    }
}

/// A key of the merge comes from `extra` or from `base`, and a key of
/// `extra` always survives the merge.
pub proof fn lemma_merged_keys(extra: EntriesV, base: EntriesV, k: Seq<char>)
    ensures
        has_key_v(merged(extra, base), k) <==> has_key_v(extra, k) || has_key_v(base, k),
    decreases base.len(),
{
    if base.len() == 0 {
        if has_key_v(base, k) {
            let i = choose|i: int| 0 <= i < base.len() && base[i].0 == k;
        }
    } else {
        lemma_merged_keys(extra, base.drop_last(), k);
        let m0 = merged(extra, base.drop_last());
        let m = merged(extra, base);
        if has_key_v(m, k) {
            let i = choose|i: int| 0 <= i < m.len() && m[i].0 == k;
            if i < m0.len() {
                assert(m0[i].0 == k);
            } else {
                assert(m[i] == base.last());
                assert(base[base.len() - 1].0 == k);
            }
            assert(has_key_v(extra, k) || has_key_v(base, k));
        }
        if has_key_v(extra, k) || has_key_v(base, k) {
            if has_key_v(base, k) && !has_key_v(extra, k) && !has_key_v(base.drop_last(), k) {
                let i = choose|i: int| 0 <= i < base.len() && base[i].0 == k;
                if i < base.len() - 1 {
                    assert(base.drop_last()[i] == base[i]);
                    assert(has_key_v(base.drop_last(), k));
                }
                assert(base[base.len() - 1].0 == k);
                assert(m[m0.len() as int].0 == k);
            } else {
                if has_key_v(m0, k) {
                    let i = choose|i: int| 0 <= i < m0.len() && m0[i].0 == k;
                    assert(merged(extra, base)[i].0 == k);
                }
            }
        }
    }
}

/// The position of the first entry with key `k`.
pub proof fn lemma_first_key_index(m: EntriesV, k: Seq<char>) -> (p: int)
    requires
        has_key_v(m, k),
    ensures
        0 <= p < m.len(),
        m[p].0 == k,
        forall|j: int| 0 <= j < p ==> m[j].0 != k,
    decreases m.len(),
{
    let i = choose|i: int| 0 <= i < m.len() && m[i].0 == k;
    if m[0].0 == k {
        0
    } else {
        assert(m.skip(1)[i - 1].0 == k);
        assert(has_key_v(m.skip(1), k));
        let q = lemma_first_key_index(m.skip(1), k);
        assert forall|j: int| 0 <= j < q + 1 implies m[j].0 != k by {
            if j > 0 {
                assert(m.skip(1)[j - 1].0 != k);
                assert(m[j] == m.skip(1)[j - 1]);
            }
        }
        q + 1
    }
}

/// Updating an entry whose key the override map carries leaves the
/// merge unchanged.
proof fn lemma_merged_update_overridden(
    extra: EntriesV,
    base: EntriesV,
    p: int,
    k: Seq<char>,
    v: ValueV,
)
    requires
        0 <= p < base.len(),
        base[p].0 == k,
        has_key_v(extra, k),
    ensures
        merged(extra, base.update(p, (k, v))) == merged(extra, base),
    decreases base.len(),
{
    let b2 = base.update(p, (k, v));
    if p == base.len() - 1 {
        assert(b2.drop_last() =~= base.drop_last());
        assert(merged(extra, b2) =~= merged(extra, base));
    } else {
        assert(b2.drop_last() =~= base.drop_last().update(p, (k, v)));
        lemma_merged_update_overridden(extra, base.drop_last(), p, k, v);
        assert(b2.last() == base.last());
        assert(merged(extra, b2) =~= merged(extra, base));
    }
}

/// A caller cannot smuggle a value past the override map: inserting
/// any value under a key that `extra` carries leaves the merge of
/// `extra` over the map unchanged.
pub proof fn lemma_merge_ignores_overridden_key(
    extra: EntriesV,
    base: EntriesV,
    k: Seq<char>,
    v: ValueV,
)
    requires
        has_key_v(extra, k),
    ensures
        merged(extra, insert_v(base, k, v)) == merged(extra, base),
{
    if has_key_v(base, k) {
        let p = lemma_first_key_index(base, k);
        lemma_insert_found(base, k, v, p);
        lemma_merged_update_overridden(extra, base, p, k, v);
        assert(merged(extra, insert_v(base, k, v)) == merged(extra, base.update(p, (k, v))));
    } else {
        assert(forall|j: int| 0 <= j < base.len() ==> base[j].0 != k);
        lemma_insert_fresh(base, k, v);
        assert(base.push((k, v)).drop_last() =~= base);
        assert(merged(extra, base.push((k, v))) =~= merged(extra, base));
    }
}

/// Merging two maps with unique keys yields a map with unique keys:
/// each key appears at most once in the merge.
pub proof fn lemma_merged_keys_unique(extra: EntriesV, base: EntriesV)
    requires
        keys_unique(extra),
        keys_unique(base),
    ensures
        keys_unique(merged(extra, base)),
    decreases base.len(),
{
    if base.len() != 0 {
        assert(keys_unique(base.drop_last())) by {
            assert(forall|j: int|
                0 <= j < base.len() - 1 ==> base.drop_last()[j] == base[j]);
        }
        lemma_merged_keys_unique(extra, base.drop_last());
        let m0 = merged(extra, base.drop_last());
        let k = base.last().0;
        if !has_key_v(extra, k) {
            assert(!has_key_v(m0, k)) by {
                lemma_merged_keys(extra, base.drop_last(), k);
                if has_key_v(base.drop_last(), k) {
                    let j = choose|j: int|
                        0 <= j < base.drop_last().len() && base.drop_last()[j].0 == k;
                    assert(base[j].0 == base[base.len() - 1].0);
                }
            }
            let m = merged(extra, base);
            assert(m =~= m0.push(base.last()));
            assert forall|a: int, b: int| 0 <= a < b < m.len() implies m[a].0 != m[b].0 by {
                if b < m0.len() {
                    assert(m0[a].0 != m0[b].0);
                } else {
                    assert(m[b] == base.last());
                    if m[a].0 == k {
                        assert(m0[a].0 == k);
                        assert(has_key_v(m0, k));
                    }
                }
            }
        }
    }
}

} // verus!
