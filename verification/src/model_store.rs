//! The models a server knows: each under its name, with the time it was
//! created; creating a model again replaces it.

use vstd::prelude::*;
use crate::text::{chars_of, chars_eq, string_from};

verus! {

broadcast use vstd::string::group_string_axioms;

/// A model the server knows: its name and when it was created.
pub struct ModelEntry {
    pub name: String,
    pub modified_at: String,
}

/// Entries as (name, creation time) pairs.
pub open spec fn entries_view(v: Seq<ModelEntry>) -> Seq<(Seq<char>, Seq<char>)> {
    v.map_values(|e: ModelEntry| (e.name@, e.modified_at@))
}

/// No two entries share a name.
pub open spec fn distinct_names(e: Seq<(Seq<char>, Seq<char>)>) -> bool {
    forall|i: int, j: int| 0 <= i < j < e.len() ==> #[trigger] e[i].0 != #[trigger] e[j].0
}

/// Entries as a map from name to creation time.
pub open spec fn entries_map(e: Seq<(Seq<char>, Seq<char>)>) -> Map<Seq<char>, Seq<char>> {
    Map::new(
        |k: Seq<char>| exists|i: int| 0 <= i < e.len() && #[trigger] e[i].0 == k,
        |k: Seq<char>| e[choose|i: int| 0 <= i < e.len() && #[trigger] e[i].0 == k].1,
    )
}

/// The name a request gives: its `model`, else its `name`.
pub open spec fn spec_request_name(model: Seq<char>, name: Seq<char>) -> Seq<char> {
    if model.len() > 0 {
        model
    } else {
        name
    }
}

/// The name a create or delete request gives: its `model` field where it
/// is set, else its `name` field.
pub fn request_name(model: &str, name: &str) -> (r: String)
    ensures
        r@ == spec_request_name(model@, name@),
{
    let m = chars_of(model);
    if m.len() > 0 {
        string_from(&m)
    } else {
        string_from(&chars_of(name))
    }
}

/// The models a server knows.
pub struct ModelStore {
    entries: Vec<ModelEntry>,
}

impl View for ModelStore {
    type V = Map<Seq<char>, Seq<char>>;

    closed spec fn view(&self) -> Map<Seq<char>, Seq<char>> {
        entries_map(entries_view(self.entries@))
    }
}

proof fn lemma_value_at(e: Seq<(Seq<char>, Seq<char>)>, i: int)
    requires
        distinct_names(e),
        0 <= i < e.len(),
    ensures
        entries_map(e).dom().contains(e[i].0),
        entries_map(e)[e[i].0] == e[i].1,
{
    let k = e[i].0;
    assert(exists|j: int| 0 <= j < e.len() && #[trigger] e[j].0 == k);
    let c = choose|j: int| 0 <= j < e.len() && #[trigger] e[j].0 == k;
    if c != i {
        if c < i {
            assert(e[c].0 != e[i].0);
        } else {
            assert(e[i].0 != e[c].0);
        }
    }
}

impl ModelStore {
    /// No two entries share a name.
    pub closed spec fn wf(&self) -> bool {
        distinct_names(entries_view(self.entries@))
    }

    /// A store that knows no model.
    pub fn new() -> (s: Self)
        ensures
            s.wf(),
            s@ == Map::<Seq<char>, Seq<char>>::empty(),
    {
        let s = ModelStore { entries: Vec::new() };
        assert(s@ =~= Map::<Seq<char>, Seq<char>>::empty());
        s
    }

    fn find(&self, name: &[char]) -> (r: Option<usize>)
        requires
            self.wf(),
        ensures
            match r {
                Some(i) => i < self.entries@.len() && self.entries@[i as int].name@ == name@,
                None => !self@.dom().contains(name@),
            },
    {
        let mut i: usize = 0;
        while i < self.entries.len()
            invariant
                i <= self.entries@.len(),
                forall|j: int| 0 <= j < i ==> #[trigger] self.entries@[j].name@ != name@,
            decreases self.entries@.len() - i,
        {
            if chars_eq(&chars_of(self.entries[i].name.as_str()), name) {
                return Some(i);
            }
            i += 1;
        }
        proof {
            let e = entries_view(self.entries@);
            if self@.dom().contains(name@) {
                let j = choose|j: int| 0 <= j < e.len() && #[trigger] e[j].0 == name@;
                assert(self.entries@[j].name@ == name@);
            }
        }
        None
    }

    /// Records the model `name`, created at `modified_at`, in place of any
    /// model of that name.
    pub fn create(&mut self, name: String, modified_at: String)
        requires
            old(self).wf(),
        ensures
            final(self).wf(),
            final(self)@ == old(self)@.insert(name@, modified_at@),
    {
        let ghost e0 = entries_view(self.entries@);
        let ghost k = name@;
        let ghost v = modified_at@;
        let n = chars_of(name.as_str());
        match self.find(&n) {
            Some(i) => {
                self.entries.set(i, ModelEntry { name, modified_at });
                let ghost e1 = entries_view(self.entries@);
                assert(e1 =~= e0.update(i as int, (k, v)));
                assert(distinct_names(e1)) by {
                    assert forall|a: int, b: int| 0 <= a < b < e1.len() implies #[trigger] e1[a].0
                        != #[trigger] e1[b].0 by {
                        assert(e1[a].0 == e0[a].0 && e1[b].0 == e0[b].0);
                    }
                }
                assert(self@ =~= entries_map(e0).insert(k, v)) by {
                    assert forall|x: Seq<char>| #[trigger] entries_map(e1).dom().contains(x) <==> entries_map(
                        e0,
                    ).insert(k, v).dom().contains(x) by {
                        if entries_map(e1).dom().contains(x) {
                            let j = choose|j: int| 0 <= j < e1.len() && #[trigger] e1[j].0 == x;
                            assert(e0[j].0 == x);
                        }
                        if entries_map(e0).dom().contains(x) {
                            let j = choose|j: int| 0 <= j < e0.len() && #[trigger] e0[j].0 == x;
                            assert(e1[j].0 == x);
                        }
                        if x == k {
                            assert(e1[i as int].0 == x);
                        }
                    }
                    assert forall|x: Seq<char>| #[trigger] entries_map(e1).dom().contains(x) implies entries_map(
                        e1,
                    )[x] == entries_map(e0).insert(k, v)[x] by {
                        let j = choose|j: int| 0 <= j < e1.len() && #[trigger] e1[j].0 == x;
                        lemma_value_at(e1, j);
                        if j != i {
                            lemma_value_at(e0, j);
                            if j < i {
                                assert(e0[j].0 != e0[i as int].0);
                            } else {
                                assert(e0[i as int].0 != e0[j].0);
                            }
                            assert(e1[j] == e0[j]);
                        }
                    }
                }
            },
            None => {
                self.entries.push(ModelEntry { name, modified_at });
                let ghost e1 = entries_view(self.entries@);
                assert(e1 =~= e0.push((k, v)));
                assert(distinct_names(e1)) by {
                    assert forall|a: int, b: int| 0 <= a < b < e1.len() implies #[trigger] e1[a].0
                        != #[trigger] e1[b].0 by {
                        if b == e0.len() {
                            assert(e1[a] == e0[a]);
                            assert(entries_map(e0).dom().contains(e0[a].0));
                        } else {
                            assert(e1[a] == e0[a] && e1[b] == e0[b]);
                        }
                    }
                }
                assert(self@ =~= entries_map(e0).insert(k, v)) by {
                    assert forall|x: Seq<char>| #[trigger] entries_map(e1).dom().contains(x) <==> entries_map(
                        e0,
                    ).insert(k, v).dom().contains(x) by {
                        if entries_map(e1).dom().contains(x) {
                            let j = choose|j: int| 0 <= j < e1.len() && #[trigger] e1[j].0 == x;
                            if j < e0.len() {
                                assert(e0[j].0 == x);
                            }
                        }
                        if entries_map(e0).dom().contains(x) {
                            let j = choose|j: int| 0 <= j < e0.len() && #[trigger] e0[j].0 == x;
                            assert(e1[j].0 == x);
                        }
                        if x == k {
                            assert(e1[e0.len() as int].0 == x);
                        }
                    }
                    assert forall|x: Seq<char>| #[trigger] entries_map(e1).dom().contains(x) implies entries_map(
                        e1,
                    )[x] == entries_map(e0).insert(k, v)[x] by {
                        let j = choose|j: int| 0 <= j < e1.len() && #[trigger] e1[j].0 == x;
                        lemma_value_at(e1, j);
                        if j < e0.len() {
                            lemma_value_at(e0, j);
                        }
                    }
                }
            },
        }
    }

    /// Forgets the model `name`, if it is known.
    pub fn delete(&mut self, name: &str)
        requires
            old(self).wf(),
        ensures
            final(self).wf(),
            final(self)@ == old(self)@.remove(name@),
    {
        let ghost e0 = entries_view(self.entries@);
        let ghost k = name@;
        let n = chars_of(name);
        match self.find(&n) {
            None => {
                assert(self@ =~= entries_map(e0).remove(k));
            },
            Some(i) => {
                self.entries.remove(i);
                let ghost e1 = entries_view(self.entries@);
                assert(e1 =~= e0.remove(i as int));
                assert(distinct_names(e1)) by {
                    assert forall|a: int, b: int| 0 <= a < b < e1.len() implies #[trigger] e1[a].0
                        != #[trigger] e1[b].0 by {
                        if a < i && b < i {
                            assert(e1[a] == e0[a] && e1[b] == e0[b]);
                        } else if a < i {
                            assert(e1[a] == e0[a] && e1[b] == e0[b + 1]);
                        } else {
                            assert(e1[a] == e0[a + 1] && e1[b] == e0[b + 1]);
                        }
                    }
                }
                assert(self@ =~= entries_map(e0).remove(k)) by {
                    assert forall|x: Seq<char>| #[trigger] entries_map(e1).dom().contains(x) <==> entries_map(
                        e0,
                    ).remove(k).dom().contains(x) by {
                        if entries_map(e1).dom().contains(x) {
                            let j = choose|j: int| 0 <= j < e1.len() && #[trigger] e1[j].0 == x;
                            let j0 = if j < i { j } else { j + 1 };
                            assert(e0[j0].0 == x);
                            if x == k {
                                if j0 < i {
                                    assert(e0[j0].0 != e0[i as int].0);
                                } else {
                                    assert(e0[i as int].0 != e0[j0].0);
                                }
                            }
                        }
                        if entries_map(e0).dom().contains(x) && x != k {
                            let j = choose|j: int| 0 <= j < e0.len() && #[trigger] e0[j].0 == x;
                            if j < i {
                                assert(e1[j].0 == x);
                            } else {
                                assert(j != i);
                                assert(e1[j - 1].0 == x);
                            }
                        }
                    }
                    assert forall|x: Seq<char>| #[trigger] entries_map(e1).dom().contains(x) implies entries_map(
                        e1,
                    )[x] == entries_map(e0).remove(k)[x] by {
                        let j = choose|j: int| 0 <= j < e1.len() && #[trigger] e1[j].0 == x;
                        lemma_value_at(e1, j);
                        let j0 = if j < i { j } else { j + 1 };
                        assert(e0[j0] == e1[j]);
                        lemma_value_at(e0, j0);
                    }
                }
            },
        }
    }

    /// When the model `name` was created, if it is known.
    pub fn get(&self, name: &str) -> (r: Option<String>)
        requires
            self.wf(),
        ensures
            match r {
                Some(t) => self@.dom().contains(name@) && self@[name@] == t@,
                None => !self@.dom().contains(name@),
            },
    {
        let n = chars_of(name);
        match self.find(&n) {
            None => None,
            Some(i) => {
                proof {
                    lemma_value_at(entries_view(self.entries@), i as int);
                }
                Some(self.entries[i].modified_at.clone())
            },
        }
    }

    /// The models known, each once, in no particular order.
    pub fn list(&self) -> (r: Vec<ModelEntry>)
        requires
            self.wf(),
        ensures
            distinct_names(entries_view(r@)),
            entries_map(entries_view(r@)) == self@,
    {
        let mut r: Vec<ModelEntry> = Vec::new();
        let mut i: usize = 0;
        while i < self.entries.len()
            invariant
                i <= self.entries@.len(),
                entries_view(r@) == entries_view(self.entries@).take(i as int),
            decreases self.entries@.len() - i,
        {
            let e = ModelEntry {
                name: self.entries[i].name.clone(),
                modified_at: self.entries[i].modified_at.clone(),
            };
            let ghost before = r@;
            r.push(e);
            assert(entries_view(r@) =~= entries_view(before).push((e.name@, e.modified_at@)));
            assert(entries_view(self.entries@).take(i + 1) =~= entries_view(self.entries@).take(
                i as int,
            ).push(entries_view(self.entries@)[i as int]));
            i += 1;
        }
        assert(entries_view(self.entries@).take(i as int) =~= entries_view(self.entries@));
        r
    }
}

/// A model created is then found under its name with its creation time,
/// other models keep theirs, and a model deleted is no longer found.
pub proof fn law_create_get_delete(m: Map<Seq<char>, Seq<char>>, name: Seq<char>, at: Seq<char>, other: Seq<char>)
    requires
        other != name,
    ensures
        m.insert(name, at).dom().contains(name),
        m.insert(name, at)[name] == at,
        m.insert(name, at).dom().contains(other) == m.dom().contains(other),
        m.dom().contains(other) ==> m.insert(name, at)[other] == m[other],
        !m.remove(name).dom().contains(name),
        m.remove(name).dom().contains(other) == m.dom().contains(other),
{
}

} // verus!
