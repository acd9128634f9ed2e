//! The per-connection key/value store: a mapping from labels to values,
//! keys unique, modelled as a `Map<Seq<char>, ValueView>`.
use vstd::prelude::*;

use crate::message::{Label, Value, ValueView};

verus! {

/// The map denoted by a sequence of (label, value) entries: later entries
/// win on a repeated label.
pub open spec fn entries_map(s: Seq<(Label, Value)>) -> Map<Seq<char>, ValueView>
    decreases s.len(),
{
    if s.len() == 0 {
        Map::empty()
    } else {
        entries_map(s.drop_last()).insert(s.last().0@, s.last().1@)
    }
}

/// No two entries share a label.
pub open spec fn entries_unique(s: Seq<(Label, Value)>) -> bool {
    forall|i: int, j: int| 0 <= i < j < s.len() ==> s[i].0@ != s[j].0@
}

proof fn lemma_entries_map_absent(s: Seq<(Label, Value)>, k: Seq<char>)
    requires
        forall|i: int| 0 <= i < s.len() ==> s[i].0@ != k,
    ensures
        !entries_map(s).contains_key(k),
    decreases s.len(),
{
    if s.len() > 0 {
        lemma_entries_map_absent(s.drop_last(), k);
    }
}

proof fn lemma_entries_map_present(s: Seq<(Label, Value)>, i: int)
    requires
        entries_unique(s),
        0 <= i < s.len(),
    ensures
        entries_map(s).contains_key(s[i].0@),
        entries_map(s)[s[i].0@] == s[i].1@,
    decreases s.len(),
{
    if i < s.len() - 1 {
        lemma_entries_map_present(s.drop_last(), i);
    }
}

proof fn lemma_entries_map_update(s: Seq<(Label, Value)>, j: int, l: Label, v: Value)
    requires
        entries_unique(s),
        0 <= j < s.len(),
        s[j].0@ == l@,
    ensures
        entries_map(s.update(j, (l, v))) == entries_map(s).insert(l@, v@),
    decreases s.len(),
{
    let t = s.update(j, (l, v));
    if j == s.len() - 1 {
        assert(t.drop_last() =~= s.drop_last());
        assert(entries_map(t) =~= entries_map(s).insert(l@, v@));
    } else {
        lemma_entries_map_update(s.drop_last(), j, l, v);
        assert(t.drop_last() =~= s.drop_last().update(j, (l, v)));
        assert(entries_map(t) =~= entries_map(s).insert(l@, v@));
    }
}

/// The connection-scoped store.  Created empty when a connection begins,
/// mutated only by set-request handling, discarded when it closes.
pub struct Store {
    entries: Vec<(Label, Value)>,
}

impl View for Store {
    type V = Map<Seq<char>, ValueView>;

    closed spec fn view(&self) -> Map<Seq<char>, ValueView> {
        entries_map(self.entries@)
    }
}

impl Store {
    /// Well-formedness: no two entries share a label.  Established by
    /// [`Store::new`] and preserved by every method.
    pub closed spec fn wf(self) -> bool {
        entries_unique(self.entries@)
    }

    /// An empty store.
    pub fn new() -> (r: Store)
        ensures
            r.wf(),
            r@ == Map::<Seq<char>, ValueView>::empty(),
    {
        Store { entries: Vec::new() }
    }

    /// Looks a label up; `None` exactly when the label is not present.
    pub fn get(&self, label: &Label) -> (r: Option<&Value>)
        requires
            self.wf(),
        ensures
            match r {
                Some(v) => self@.contains_key(label@) && v@ == self@[label@],
                None => !self@.contains_key(label@),
            },
    {
        let n = self.entries.len();
        for i in 0..n
            invariant
                n == self.entries@.len(),
                entries_unique(self.entries@),
                self@ == entries_map(self.entries@),
                forall|k: int| 0 <= k < i ==> self.entries@[k].0@ != label@,
        {
            if self.entries[i].0 == *label {
                proof {
                    lemma_entries_map_present(self.entries@, i as int);
                }
                return Some(&self.entries[i].1);
            }
        }
        proof {
            lemma_entries_map_absent(self.entries@, label@);
        }
        None
    }

    /// Whether the label is present (even with a `Null` value).
    pub fn contains(&self, label: &Label) -> (r: bool)
        requires
            self.wf(),
        ensures
            r == self@.contains_key(label@),
    {
        match self.get(label) {
            Some(_) => true,
            None => false,
        }
    }

    /// Upserts one entry: a present label's value is overwritten.
    pub fn insert(&mut self, label: Label, value: Value)
        requires
            old(self).wf(),
        ensures
            final(self).wf(),
            final(self)@ == old(self)@.insert(label@, value@),
    {
        let n = self.entries.len();
        for i in 0..n
            invariant
                n == self.entries@.len(),
                entries_unique(self.entries@),
                self.entries@ == old(self).entries@,
                forall|k: int| 0 <= k < i ==> self.entries@[k].0@ != label@,
        {
            if self.entries[i].0 == label {
                proof {
                    lemma_entries_map_update(self.entries@, i as int, label, value);
                }
                let ghost s = self.entries@;
                let ghost iv = i as int;
                self.entries.set(i, (label, value));
                proof {
                    assert(entries_unique(self.entries@));
                }
                return ;
            }
        }
        self.entries.push((label, value));
        proof {
            assert(self.entries@.drop_last() =~= old(self).entries@);
        }
    }
}

} // verus!
