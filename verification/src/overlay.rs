//! An insertion-ordered mapping from variable names to values.

use vstd::prelude::*;

verus! {

/// A mapping after the given bindings were written over it one after
/// another: for a key that is written more than once, the last value stands.
pub open spec fn overlaid(
    base: Map<Seq<char>, Seq<char>>,
    bindings: Seq<(Seq<char>, Seq<char>)>,
) -> Map<Seq<char>, Seq<char>>
    decreases bindings.len(),
{
    if bindings.len() == 0 {
        base
    } else {
        overlaid(base, bindings.drop_last()).insert(bindings.last().0, bindings.last().1)
    }
}

/// A list of keys after the given keys were written, one after another:
/// each key that was not listed yet is added at the end, when it is first
/// written.
pub open spec fn listed(keys: Seq<Seq<char>>, written: Seq<Seq<char>>) -> Seq<Seq<char>>
    decreases written.len(),
{
    if written.len() == 0 {
        keys
    } else {
        let front = listed(keys, written.drop_last());
        if front.contains(written.last()) {
            front
        } else {
            front.push(written.last())
        }
    }
}

/// What a sequence of bindings amounts to, written from nothing.
pub open spec fn bindings_map(bindings: Seq<(Seq<char>, Seq<char>)>) -> Map<Seq<char>, Seq<char>> {
    overlaid(Map::empty(), bindings)
}

/// The key of each binding, in sequence and with repetitions.
pub open spec fn binding_keys(bindings: Seq<(Seq<char>, Seq<char>)>) -> Seq<Seq<char>> {
    Seq::new(bindings.len(), |i: int| bindings[i].0)
}

/// The keys of a sequence of bindings, each at the place of its first
/// occurrence.
pub open spec fn key_order(bindings: Seq<(Seq<char>, Seq<char>)>) -> Seq<Seq<char>> {
    listed(Seq::empty(), binding_keys(bindings))
}

/// Writing two runs of bindings in turn is writing their concatenation.
pub proof fn lemma_overlaid_append(
    base: Map<Seq<char>, Seq<char>>,
    first: Seq<(Seq<char>, Seq<char>)>,
    second: Seq<(Seq<char>, Seq<char>)>,
)
    ensures
        overlaid(overlaid(base, first), second) == overlaid(base, first + second),
    decreases second.len(),
{
    if second.len() == 0 {
        assert(first + second =~= first);
    } else {
        lemma_overlaid_append(base, first, second.drop_last());
        assert((first + second).drop_last() =~= first + second.drop_last());
    }
}

/// Listing two runs of keys in turn is listing their concatenation.
pub proof fn lemma_listed_append(
    keys: Seq<Seq<char>>,
    first: Seq<Seq<char>>,
    second: Seq<Seq<char>>,
)
    ensures
        listed(listed(keys, first), second) == listed(keys, first + second),
    decreases second.len(),
{
    if second.len() == 0 {
        assert(first + second =~= first);
    } else {
        lemma_listed_append(keys, first, second.drop_last());
        assert((first + second).drop_last() =~= first + second.drop_last());
    }
}

/// The keys of two runs of bindings are the keys of the one, then those of
/// the other.
pub proof fn lemma_binding_keys_append(
    first: Seq<(Seq<char>, Seq<char>)>,
    second: Seq<(Seq<char>, Seq<char>)>,
)
    ensures
        binding_keys(first + second) == binding_keys(first) + binding_keys(second),
{
    assert(binding_keys(first + second) =~= binding_keys(first) + binding_keys(second));
}

/// Keys of which none occurs twice are listed as they stand.
pub proof fn lemma_listed_unique_keys(keys: Seq<Seq<char>>)
    requires
        keys.no_duplicates(),
    ensures
        listed(Seq::empty(), keys) == keys,
    decreases keys.len(),
{
    if keys.len() > 0 {
        let front = keys.drop_last();
        lemma_listed_unique_keys(front);
        if front.contains(keys.last()) {
            let i = choose|i: int| 0 <= i < front.len() && front[i] == keys.last();
            assert(keys[i] == keys[keys.len() - 1]);
        }
        assert(front.push(keys.last()) =~= keys);
    }
}

/// Writing bindings over a mapping keeps what the mapping held, except under
/// the keys that the bindings name: there, what the bindings amount to wins.
pub proof fn lemma_overlaid_is_union(
    base: Map<Seq<char>, Seq<char>>,
    bindings: Seq<(Seq<char>, Seq<char>)>,
)
    ensures
        overlaid(base, bindings) == base.union_prefer_right(bindings_map(bindings)),
    decreases bindings.len(),
{
    if bindings.len() == 0 {
        assert(base.union_prefer_right(Map::empty()) =~= base);
    } else {
        lemma_overlaid_is_union(base, bindings.drop_last());
        assert(overlaid(base, bindings) =~= base.union_prefer_right(bindings_map(bindings)));
    }
}

/// A key is bound by a sequence of bindings exactly when one of them names it.
pub proof fn lemma_bindings_map_domain(bindings: Seq<(Seq<char>, Seq<char>)>, key: Seq<char>)
    ensures
        bindings_map(bindings).contains_key(key) <==> binding_keys(bindings).contains(key),
    decreases bindings.len(),
{
    let keys = binding_keys(bindings);
    if bindings.len() > 0 {
        let front = bindings.drop_last();
        lemma_bindings_map_domain(front, key);
        if binding_keys(front).contains(key) {
            let i = choose|i: int| 0 <= i < front.len() && binding_keys(front)[i] == key;
            assert(keys[i] == key);
        }
        if keys.contains(key) {
            let i = choose|i: int| 0 <= i < keys.len() && keys[i] == key;
            if i < front.len() {
                assert(binding_keys(front)[i] == key);
            }
        }
        assert(keys[bindings.len() - 1] == bindings.last().0);
    }
}

/// Where no key occurs twice, so does none among the bindings but the last.
proof fn lemma_front_keys_unique(bindings: Seq<(Seq<char>, Seq<char>)>)
    requires
        binding_keys(bindings).no_duplicates(),
        bindings.len() > 0,
    ensures
        binding_keys(bindings.drop_last()).no_duplicates(),
{
    let front = bindings.drop_last();
    assert forall|a: int, b: int|
        0 <= a < front.len() && 0 <= b < front.len() && a != b implies binding_keys(front)[a]
        != binding_keys(front)[b] by {
        assert(binding_keys(bindings)[a] != binding_keys(bindings)[b]);
    }
}

/// Where no key occurs twice, each binding is what the mapping holds for its key.
pub proof fn lemma_bindings_map_value(bindings: Seq<(Seq<char>, Seq<char>)>, i: int)
    requires
        binding_keys(bindings).no_duplicates(),
        0 <= i < bindings.len(),
    ensures
        bindings_map(bindings).contains_key(bindings[i].0),
        bindings_map(bindings)[bindings[i].0] == bindings[i].1,
    decreases bindings.len(),
{
    let last = bindings.len() - 1;
    if i < last {
        assert(binding_keys(bindings)[i] != binding_keys(bindings)[last]);
        lemma_front_keys_unique(bindings);
        lemma_bindings_map_value(bindings.drop_last(), i);
    }
}

/// Where no key occurs twice, replacing the value of one binding in place is
/// the same as writing that key anew.
pub proof fn lemma_bindings_map_replace(
    bindings: Seq<(Seq<char>, Seq<char>)>,
    i: int,
    value: Seq<char>,
)
    requires
        binding_keys(bindings).no_duplicates(),
        0 <= i < bindings.len(),
    ensures
        bindings_map(bindings.update(i, (bindings[i].0, value))) == bindings_map(bindings).insert(
            bindings[i].0,
            value,
        ),
    decreases bindings.len(),
{
    let key = bindings[i].0;
    let replaced = bindings.update(i, (key, value));
    let front = bindings.drop_last();
    let last = bindings.len() - 1;
    if i == last {
        assert(replaced.drop_last() =~= front);
        assert(bindings_map(replaced) =~= bindings_map(bindings).insert(key, value));
    } else {
        assert(binding_keys(bindings)[i] != binding_keys(bindings)[last]);
        lemma_front_keys_unique(bindings);
        lemma_bindings_map_replace(front, i, value);
        assert(replaced.drop_last() =~= front.update(i, (key, value)));
        assert(bindings_map(replaced) =~= bindings_map(bindings).insert(key, value));
    }
}

/// A set of environment bindings with unique keys.
///
/// The view is the mapping itself. [`Overlay::keys`] gives the keys in the
/// sequence in which they were first inserted; writing to a key that is
/// already bound replaces its value and leaves it in place.
#[derive(Debug)]
pub struct Overlay {
    entries: Vec<(String, String)>,
}

impl View for Overlay {
    type V = Map<Seq<char>, Seq<char>>;

    closed spec fn view(&self) -> Map<Seq<char>, Seq<char>> {
        bindings_map(self.entries.deep_view())
    }
}

impl Overlay {
    /// The keys in the sequence of their first insertion.
    pub closed spec fn keys(&self) -> Seq<Seq<char>> {
        binding_keys(self.entries.deep_view())
    }

    #[verifier::type_invariant]
    spec fn keys_are_unique(&self) -> bool {
        self.keys().no_duplicates()
    }

    /// The listed keys are the keys that are bound.
    pub proof fn lemma_keys_are_domain(&self, key: Seq<char>)
        ensures
            self@.contains_key(key) <==> self.keys().contains(key),
    {
        lemma_bindings_map_domain(self.entries.deep_view(), key);
    }

    /// The bound keys are the listed keys, as a set.
    pub proof fn lemma_domain_is_key_set(&self)
        ensures
            self@.dom() == self.keys().to_set(),
            self@.dom().finite(),
    {
        assert forall|key: Seq<char>| self@.dom().contains(key) <==> self.keys().to_set().contains(
            key,
        ) by {
            self.lemma_keys_are_domain(key);
        }
        assert(self@.dom() =~= self.keys().to_set());
        vstd::seq_lib::seq_to_set_is_finite(self.keys());
    }

    /// An overlay without bindings.
    pub fn new() -> (overlay: Overlay)
        ensures
            overlay@ == Map::<Seq<char>, Seq<char>>::empty(),
            overlay.keys() == Seq::<Seq<char>>::empty(),
    {
        let overlay = Overlay { entries: Vec::new() };
        assert(overlay.keys() =~= Seq::empty());
        overlay
    }

    /// Binds `key` to `value`, replacing what `key` was bound to before.
    pub fn insert(&mut self, key: String, value: String)
        ensures
            final(self)@ == old(self)@.insert(key@, value@),
            final(self).keys() == if old(self)@.contains_key(key@) {
                old(self).keys()
            } else {
                old(self).keys().push(key@)
            },
    {
        proof {
            use_type_invariant(&*self);
        }
        let mut entries: Vec<(String, String)> = Vec::new();
        std::mem::swap(&mut entries, &mut self.entries);
        let ghost before = entries.deep_view();
        assert(old(self)@ == bindings_map(before) && old(self).keys() == binding_keys(before));
        let i = position(&entries, &key);
        proof {
            lemma_bindings_map_domain(before, key@);
        }
        if i < entries.len() {
            proof {
                lemma_bindings_map_replace(before, i as int, value@);
                assert(binding_keys(before)[i as int] == key@);
            }
            entries.set(i, (key, value));
            assert(entries.deep_view() =~= before.update(i as int, (key@, value@)));
            assert(binding_keys(entries.deep_view()) =~= binding_keys(before));
        } else {
            assert(!binding_keys(before).contains(key@)) by {
                if binding_keys(before).contains(key@) {
                    let j = choose|j: int|
                        0 <= j < before.len() && binding_keys(before)[j] == key@;
                    assert(before[j].0 == key@);
                }
            }
            entries.push((key, value));
            assert(entries.deep_view() =~= before.push((key@, value@)));
            assert(entries.deep_view().drop_last() =~= before);
            assert(binding_keys(entries.deep_view()) =~= binding_keys(before).push(key@));
        }
        self.entries = entries;
    }

    /// The number of bindings. No key is counted twice, since none is held
    /// twice.
    pub fn len(&self) -> (count: usize)
        ensures
            count == self.keys().len(),
            count == self@.dom().len(),
            self@.dom().finite(),
            self.keys().no_duplicates(),
    {
        proof {
            use_type_invariant(self);
            self.lemma_domain_is_key_set();
            self.keys().unique_seq_to_set();
        }
        self.entries.len()
    }

    /// Whether the overlay binds nothing.
    pub fn is_empty(&self) -> (empty: bool)
        ensures
            empty == (self@ == Map::<Seq<char>, Seq<char>>::empty()),
    {
        proof {
            if self.keys().len() > 0 {
                let key = self.keys()[0];
                assert(self.keys().contains(key));
                self.lemma_keys_are_domain(key);
                assert(!Map::<Seq<char>, Seq<char>>::empty().contains_key(key));
            } else {
                assert(self.entries.deep_view() =~= Seq::empty());
            }
        }
        self.entries.len() == 0
    }

    /// The value that `key` is bound to, if it is bound.
    pub fn get(&self, key: &str) -> (value: Option<&String>)
        ensures
            match value {
                Some(text) => self@.contains_key(key@) && text@ == self@[key@],
                None => !self@.contains_key(key@),
            },
    {
        proof {
            use_type_invariant(self);
            lemma_bindings_map_domain(self.entries.deep_view(), key@);
        }
        let wanted = key.to_owned();
        let i = position(&self.entries, &wanted);
        if i < self.entries.len() {
            proof {
                lemma_bindings_map_value(self.entries.deep_view(), i as int);
            }
            Some(&self.entries[i].1)
        } else {
            assert(!self.keys().contains(key@)) by {
                if self.keys().contains(key@) {
                    let j = choose|j: int| 0 <= j < self.keys().len() && self.keys()[j] == key@;
                    assert(self.entries.deep_view()[j].0 == key@);
                }
            }
            None
        }
    }

    /// Whether `key` is bound.
    pub fn contains_key(&self, key: &str) -> (bound: bool)
        ensures
            bound == self@.contains_key(key@),
    {
        self.get(key).is_some()
    }

    /// The bindings as pairs, in the sequence of [`Overlay::keys`]. Written
    /// from nothing, they give this overlay again.
    pub fn entries(&self) -> (pairs: Vec<(String, String)>)
        ensures
            binding_keys(pairs.deep_view()) == self.keys(),
            key_order(pairs.deep_view()) == self.keys(),
            bindings_map(pairs.deep_view()) == self@,
            self.keys().no_duplicates(),
            forall|i: int|
                0 <= i < pairs.len() ==> self@.contains_key(#[trigger] pairs.deep_view()[i].0)
                    && self@[pairs.deep_view()[i].0] == pairs.deep_view()[i].1,
    {
        proof {
            use_type_invariant(self);
            lemma_listed_unique_keys(self.keys());
        }
        let mut pairs: Vec<(String, String)> = Vec::new();
        let mut i: usize = 0;
        assert(pairs.deep_view() =~= self.entries.deep_view().take(0));
        while i < self.entries.len()
            invariant
                i <= self.entries.len(),
                pairs.deep_view() == self.entries.deep_view().take(i as int),
            decreases self.entries.len() - i,
        {
            let ghost before = pairs.deep_view();
            pairs.push((self.entries[i].0.clone(), self.entries[i].1.clone()));
            assert(pairs.deep_view() =~= before.push(self.entries.deep_view()[i as int]));
            assert(pairs.deep_view() =~= self.entries.deep_view().take(i + 1));
            i += 1;
        }
        assert(pairs.deep_view() =~= self.entries.deep_view());
        proof {
            assert forall|i: int| 0 <= i < pairs.len() implies self@.contains_key(
                #[trigger] pairs.deep_view()[i].0,
            ) && self@[pairs.deep_view()[i].0] == pairs.deep_view()[i].1 by {
                lemma_bindings_map_value(self.entries.deep_view(), i);
            }
        }
        pairs
    }

    /// Writes `bindings` over the overlay, one after another.
    pub fn extend(&mut self, bindings: &Vec<(String, String)>)
        ensures
            final(self)@ == overlaid(old(self)@, bindings.deep_view()),
            final(self).keys() == listed(old(self).keys(), binding_keys(bindings.deep_view())),
    {
        let ghost all = bindings.deep_view();
        let mut i: usize = 0;
        assert(all.take(0) =~= Seq::empty());
        assert(binding_keys(all.take(0)) =~= Seq::empty());
        while i < bindings.len()
            invariant
                i <= bindings.len(),
                all == bindings.deep_view(),
                self@ == overlaid(old(self)@, all.take(i as int)),
                self.keys() == listed(old(self).keys(), binding_keys(all.take(i as int))),
            decreases bindings.len() - i,
        {
            proof {
                assert(all.take(i + 1).drop_last() =~= all.take(i as int));
                assert(all.take(i + 1).last() == all[i as int]);
                assert(binding_keys(all.take(i + 1)).drop_last() =~= binding_keys(
                    all.take(i as int),
                ));
                assert(binding_keys(all.take(i + 1)).last() == all[i as int].0);
                self.lemma_keys_are_domain(all[i as int].0);
            }
            self.insert(bindings[i].0.clone(), bindings[i].1.clone());
            i += 1;
        }
        assert(all.take(i as int) =~= all);
    }
}

/// The index of the entry that holds `key`, or the number of entries where
/// none does.
fn position(entries: &Vec<(String, String)>, key: &String) -> (i: usize)
    ensures
        i <= entries.len(),
        i < entries.len() ==> entries.deep_view()[i as int].0 == key@,
        forall|j: int| 0 <= j < i ==> entries.deep_view()[j].0 != key@,
{
    let mut i: usize = 0;
    while i < entries.len()
        invariant
            i <= entries.len(),
            forall|j: int| 0 <= j < i ==> entries.deep_view()[j].0 != key@,
        decreases entries.len() - i,
    {
        if entries[i].0 == *key {
            return i;
        }
        i += 1;
    }
    i
}

} // verus!
