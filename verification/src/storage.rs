//! A store of callables, each filed under a name and run on request.

use vstd::prelude::*;

verus! {

/// The map that results from filing `entries` in order: a later entry under
/// a name replaces an earlier one.
pub open spec fn entries_map<F>(entries: Seq<(String, F)>) -> Map<Seq<char>, F>
    decreases entries.len(),
{
    if entries.len() == 0 {
        Map::empty()
    } else {
        entries_map(entries.drop_last()).insert(entries.last().0@, entries.last().1)
    }
}

/// No two entries share a name.
pub open spec fn names_distinct<F>(entries: Seq<(String, F)>) -> bool {
    forall|i: int, j: int|
        0 <= i < entries.len() && 0 <= j < entries.len() && i != j ==> #[trigger] entries[i].0@
            != #[trigger] entries[j].0@
}

/// Callables filed by name.
pub struct FunctionalStorage<F> {
    storage: Vec<(String, F)>,
}

impl<F> View for FunctionalStorage<F> {
    type V = Map<Seq<char>, F>;

    closed spec fn view(&self) -> Map<Seq<char>, F> {
        entries_map(self.storage@)
    }
}

/// The names under which a store files callables are exactly the names of
/// its entries.
pub proof fn lemma_entries_map_dom<F>(entries: Seq<(String, F)>, k: Seq<char>)
    ensures
        entries_map(entries).dom().contains(k) <==> exists|i: int|
            0 <= i < entries.len() && #[trigger] entries[i].0@ == k,
    decreases entries.len(),
{
    if entries.len() > 0 {
        let t = entries.drop_last();
        lemma_entries_map_dom(t, k);
        if entries_map(entries).dom().contains(k) && k != entries.last().0@ {
            let i = choose|i: int| 0 <= i < t.len() && #[trigger] t[i].0@ == k;
            assert(entries[i] == t[i]);
        }
        if exists|i: int| 0 <= i < entries.len() && #[trigger] entries[i].0@ == k {
            let i = choose|i: int| 0 <= i < entries.len() && #[trigger] entries[i].0@ == k;
            if i < entries.len() - 1 {
                assert(t[i] == entries[i]);
            }
        }
    }
}

/// The callable filed under a name is the one of the last entry bearing it.
pub proof fn lemma_last_entry_wins<F>(entries: Seq<(String, F)>, last: (String, F), other: (String, F))
    ensures
        entries_map(entries.push(last))[last.0@] == last.1,
        other.0@ != last.0@ ==> entries_map(entries.push(other).push(last)) == entries_map(
            entries.push(last).push(other),
        ),
{
    assert(entries.push(last).drop_last() =~= entries);
    assert(entries.push(other).push(last).drop_last() =~= entries.push(other));
    assert(entries.push(other).drop_last() =~= entries);
    assert(entries.push(last).push(other).drop_last() =~= entries.push(last));
    let m = entries_map(entries);
    assert(entries_map(entries.push(other)) == m.insert(other.0@, other.1));
    assert(entries_map(entries.push(last)) == m.insert(last.0@, last.1));
    assert(entries_map(entries.push(other).push(last)) == m.insert(other.0@, other.1).insert(
        last.0@,
        last.1,
    ));
    assert(entries_map(entries.push(last).push(other)) == m.insert(last.0@, last.1).insert(
        other.0@,
        other.1,
    ));
    if other.0@ != last.0@ {
        assert(entries_map(entries.push(other).push(last)) =~= entries_map(
            entries.push(last).push(other),
        ));
    }
}

proof fn lemma_entries_map_at<F>(entries: Seq<(String, F)>, i: int)
    requires
        names_distinct(entries),
        0 <= i < entries.len(),
    ensures
        entries_map(entries).dom().contains(entries[i].0@),
        entries_map(entries)[entries[i].0@] == entries[i].1,
    decreases entries.len(),
{
    let t = entries.drop_last();
    if i < entries.len() - 1 {
        assert(t[i] == entries[i]);
        assert(names_distinct(t)) by {
            assert forall|a: int, b: int|
                0 <= a < t.len() && 0 <= b < t.len() && a != b implies #[trigger] t[a].0@
                != #[trigger] t[b].0@ by {
                assert(t[a] == entries[a] && t[b] == entries[b]);
            }
        }
        lemma_entries_map_at(t, i);
        assert(entries[i].0@ != entries[entries.len() - 1].0@);
    }
}

impl<F> FunctionalStorage<F> {
    #[verifier::type_invariant]
    spec fn names_unique(self) -> bool {
        names_distinct(self.storage@)
    }

    fn has_name(entries: &Vec<(String, F)>, name: &String) -> (found: bool)
        ensures
            found <==> exists|i: int| 0 <= i < entries@.len() && #[trigger] entries@[i].0@ == name@,
    {
        let mut i: usize = 0;
        while i < entries.len()
            invariant
                i <= entries@.len(),
                forall|k: int| 0 <= k < i ==> #[trigger] entries@[k].0@ != name@,
            decreases entries@.len() - i,
        {
            if entries[i].0 == *name {
                return true;
            }
            i = i + 1;
        }
        false
    }

    /// Files each entry under its name; where a name occurs more than once the
    /// last entry under it is kept.
    pub fn new(st: Vec<(String, F)>) -> (fs: Self)
        ensures
            fs@ == entries_map(st@),
    {
        let ghost all = st@;
        let mut rest = st;
        let mut kept: Vec<(String, F)> = Vec::new();
        assert(entries_map(all) =~= entries_map(rest@).union_prefer_right(entries_map(kept@)));
        while rest.len() > 0
            invariant
                names_distinct(kept@),
                entries_map(all) == entries_map(rest@).union_prefer_right(entries_map(kept@)),
            decreases rest@.len(),
        {
            let ghost before = rest@;
            let ghost kept_before = kept@;
            let entry = rest.pop().unwrap();
            assert(before.drop_last() =~= rest@);
            let ghost m = entries_map(rest@);
            let ghost r = entries_map(kept_before);
            proof {
                lemma_entries_map_dom(kept_before, entry.0@);
            }
            if !Self::has_name(&kept, &entry.0) {
                kept.push(entry);
                assert(kept@.drop_last() =~= kept_before);
                assert forall|i: int, j: int|
                    0 <= i < kept@.len() && 0 <= j < kept@.len() && i != j implies #[trigger] kept@[i].0@
                    != #[trigger] kept@[j].0@ by {
                    if i < kept_before.len() && j < kept_before.len() {
                        assert(kept@[i] == kept_before[i] && kept@[j] == kept_before[j]);
                    } else if i < kept_before.len() {
                        assert(kept@[i] == kept_before[i]);
                    } else {
                        assert(kept@[j] == kept_before[j]);
                    }
                }
                assert(m.insert(entry.0@, entry.1).union_prefer_right(r) =~= m.union_prefer_right(
                    r.insert(entry.0@, entry.1),
                ));
            } else {
                assert(m.insert(entry.0@, entry.1).union_prefer_right(r) =~= m.union_prefer_right(
                    r,
                ));
            }
        }
        assert(entries_map(rest@) =~= Map::empty());
        assert(entries_map(all) =~= entries_map(kept@));
        FunctionalStorage { storage: kept }
    }

    /// Runs the callable filed under `name` and hands back what it returns.
    pub fn call<R>(&self, name: &str) -> (res: R) where F: Fn() -> R
        requires
            self@.dom().contains(name@),
            call_requires(self@[name@], ()),
        ensures
            call_ensures(self@[name@], (), res),
    {
        proof {
            use_type_invariant(self);
            lemma_entries_map_dom(self.storage@, name@);
        }
        let key = name.to_owned();
        let mut i: usize = 0;
        while i < self.storage.len()
            invariant
                i <= self.storage@.len(),
                key@ == name@,
                names_distinct(self.storage@),
                self@.dom().contains(name@),
                call_requires(self@[name@], ()),
                exists|k: int| 0 <= k < self.storage@.len() && #[trigger] self.storage@[k].0@ == name@,
                forall|k: int| 0 <= k < i ==> #[trigger] self.storage@[k].0@ != name@,
            decreases self.storage@.len() - i,
        {
            if self.storage[i].0 == key {
                proof {
                    lemma_entries_map_at(self.storage@, i as int);
                }
                let func = &self.storage[i].1;
                return func();
            }
            i = i + 1;
        }
        proof {
            let k = choose|k: int| 0 <= k < self.storage@.len() && #[trigger] self.storage@[k].0@ == name@;
            assert(self.storage@[k].0@ != name@);
        }
        unreached()
    }
}

} // verus!
