use vstd::prelude::*;

verus! {

/// What an [`OpState`] holds: the values filed under each key.
pub type StateView = Map<Seq<char>, Seq<Seq<char>>>;

/// One named value held by an [`OpState`].
pub struct StateSlot {
    pub key: String,
    pub values: Vec<String>,
}

/// The shared mutable store that initialization hooks and ops are handed.
///
/// Values are lists of strings filed under a string key; putting a key again
/// replaces what it held before.
pub struct OpState {
    slots: Vec<StateSlot>,
}

/// The store described by a sequence of slots, later slots overriding earlier ones.
pub open spec fn slots_map(s: Seq<StateSlot>) -> Map<Seq<char>, Seq<Seq<char>>>
    decreases s.len(),
{
    if s.len() == 0 {
        Map::empty()
    } else {
        slots_map(s.drop_last()).insert(s.last().key@, s.last().values.deep_view())
    }
}

proof fn lemma_slots_map_absent(s: Seq<StateSlot>, k: Seq<char>)
    requires
        forall|j: int| 0 <= j < s.len() ==> (#[trigger] s[j]).key@ != k,
    ensures
        !slots_map(s).contains_key(k),
    decreases s.len(),
{
    if s.len() > 0 {
        assert(s.drop_last().len() == s.len() - 1);
        assert forall|j: int| 0 <= j < s.drop_last().len() implies (#[trigger] s.drop_last()[j]).key@
            != k by {
            assert(s.drop_last()[j] == s[j]);
        }
        lemma_slots_map_absent(s.drop_last(), k);
    }
}

proof fn lemma_slots_map_last_match(s: Seq<StateSlot>, k: Seq<char>, i: int)
    requires
        0 <= i < s.len(),
        s[i].key@ == k,
        forall|j: int| i < j < s.len() ==> (#[trigger] s[j]).key@ != k,
    ensures
        slots_map(s).contains_key(k),
        slots_map(s)[k] == s[i].values.deep_view(),
    decreases s.len(),
{
    if i < s.len() - 1 {
        assert forall|j: int| i < j < s.drop_last().len() implies (#[trigger] s.drop_last()[j]).key@
            != k by {
            assert(s.drop_last()[j] == s[j]);
        }
        lemma_slots_map_last_match(s.drop_last(), k, i);
        assert(s.last() == s[s.len() - 1]);
    }
}

impl View for OpState {
    type V = Map<Seq<char>, Seq<Seq<char>>>;

    closed spec fn view(&self) -> Self::V {
        slots_map(self.slots@)
    }
}

impl OpState {
    /// An empty store.
    pub fn new() -> (r: OpState)
        ensures
            r@ == Map::<Seq<char>, Seq<Seq<char>>>::empty(),
    {
        OpState { slots: Vec::new() }
    }

    /// Files `values` under `key`, replacing any earlier value of that key.
    pub fn put(&mut self, key: &str, values: Vec<String>)
        ensures
            final(self)@ == old(self)@.insert(key@, values.deep_view()),
    {
        let slot = StateSlot { key: key.to_owned(), values };
        self.slots.push(slot);
        proof {
            assert(final(self).slots@.drop_last() =~= old(self).slots@);
        }
    }

    /// The value filed under `key`, if any.
    pub fn borrow(&self, key: &str) -> (r: Option<&Vec<String>>)
        ensures
            r matches Some(v) ==> self@.contains_key(key@) && self@[key@] == v.deep_view(),
            r is None ==> !self@.contains_key(key@),
    {
        let wanted = key.to_owned();
        let mut i: usize = self.slots.len();
        while i > 0
            invariant
                0 <= i <= self.slots@.len(),
                wanted@ == key@,
                forall|j: int| i <= j < self.slots@.len() ==> (#[trigger] self.slots@[j]).key@ != key@,
            decreases i,
        {
            i = i - 1;
            if self.slots[i].key == wanted {
                proof {
                    lemma_slots_map_last_match(self.slots@, key@, i as int);
                }
                return Some(&self.slots[i].values);
            }
        }
        proof {
            lemma_slots_map_absent(self.slots@, key@);
        }
        None
    }
}

} // verus!
