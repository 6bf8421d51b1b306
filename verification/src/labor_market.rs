//! The subagents an agent can hand work to: those fixed by its
//! specification, each with a description, and those created while it runs.
use vstd::prelude::*;
use crate::text::str_equal;

verus! {

/// No name occurs twice among the entries.
pub open spec fn names_distinct<A>(s: Seq<(String, A)>) -> bool {
    forall|i: int, j: int| 0 <= i < j < s.len() ==> #[trigger] s[i].0@ != #[trigger] s[j].0@
}

/// The map from name to value that a list of named entries stands for; a
/// later entry wins over an earlier one with the same name.
pub open spec fn named_map<A>(s: Seq<(String, A)>) -> Map<Seq<char>, A>
    decreases s.len(),
{
    if s.len() == 0 {
        Map::empty()
    } else {
        named_map(s.drop_last()).insert(s.last().0@, s.last().1)
    }
}

/// A name is in the map exactly when an entry carries it.
proof fn lemma_named_map_dom<A>(s: Seq<(String, A)>, k: Seq<char>)
    ensures
        named_map(s).contains_key(k) <==> exists|i: int| 0 <= i < s.len() && s[i].0@ == k,
    decreases s.len(),
{
    if s.len() > 0 {
        lemma_named_map_dom(s.drop_last(), k);
        if exists|i: int| 0 <= i < s.len() && s[i].0@ == k {
            let i = choose|i: int| 0 <= i < s.len() && s[i].0@ == k;
            if i < s.len() - 1 {
                assert(s.drop_last()[i].0@ == k);
            }
        }
        if exists|i: int| 0 <= i < s.len() - 1 && s.drop_last()[i].0@ == k {
            let i = choose|i: int| 0 <= i < s.len() - 1 && s.drop_last()[i].0@ == k;
            assert(s[i].0@ == k);
        }
    }
}

/// With distinct names, the entry at `j` gives the value of its name.
proof fn lemma_named_map_at<A>(s: Seq<(String, A)>, j: int)
    requires
        names_distinct(s),
        0 <= j < s.len(),
    ensures
        named_map(s).contains_key(s[j].0@),
        named_map(s)[s[j].0@] == s[j].1,
    decreases s.len(),
{
    if j < s.len() - 1 {
        assert(s.drop_last()[j] == s[j]);
        lemma_named_map_at(s.drop_last(), j);
        assert(s[j].0@ != s[s.len() - 1].0@);
    }
}

/// Replacing the value of the entry at `j`, whose name no other entry
/// carries, replaces the value of that name in the map.
proof fn lemma_named_map_update<A>(s: Seq<(String, A)>, j: int, v: A)
    requires
        0 <= j < s.len(),
        forall|i: int| 0 <= i < s.len() && i != j ==> s[i].0@ != s[j].0@,
    ensures
        named_map(s.update(j, (s[j].0, v))) == named_map(s).insert(s[j].0@, v),
    decreases s.len(),
{
    let t = s.update(j, (s[j].0, v));
    if j == s.len() - 1 {
        assert(t.drop_last() =~= s.drop_last());
        assert(named_map(t) =~= named_map(s).insert(s[j].0@, v));
    } else {
        assert(t.drop_last() =~= s.drop_last().update(j, (s[j].0, v)));
        assert(s.drop_last()[j] == s[j]);
        lemma_named_map_update(s.drop_last(), j, v);
        assert(s.last().0@ != s[j].0@);
        assert(named_map(t) =~= named_map(s).insert(s[j].0@, v));
    }
}

/// The position of the entry named `name`, if one is.
fn find_entry<A>(entries: &Vec<(String, A)>, name: &str) -> (r: Option<usize>)
    ensures
        match r {
            Some(j) => j < entries.len() && entries@[j as int].0@ == name@,
            None => forall|i: int| 0 <= i < entries.len() ==> entries@[i].0@ != name@,
        },
{
    let mut i: usize = 0;
    while i < entries.len()
        invariant
            i <= entries.len(),
            forall|k: int| 0 <= k < i ==> entries@[k].0@ != name@,
        decreases entries.len() - i,
    {
        if str_equal(entries[i].0.as_str(), name) {
            return Some(i);
        }
        i = i + 1;
    }
    None
}

/// Sets the value of `name` among `entries`: in place where an entry
/// carries it, else as a new entry at the end.
fn put_entry<A>(entries: &mut Vec<(String, A)>, name: String, value: A)
    requires
        names_distinct(old(entries)@),
    ensures
        names_distinct(final(entries)@),
        named_map(final(entries)@) == named_map(old(entries)@).insert(name@, value),
{
    match find_entry(entries, name.as_str()) {
        Some(j) => {
            let ghost s = entries@;
            let ghost key = s[j as int].0;
            proof {
                assert forall|i: int| 0 <= i < s.len() && i != j implies s[i].0@ != s[j as int].0@ by {
                    if i < j {
                        assert(s[i].0@ != s[j as int].0@);
                    } else {
                        assert(s[j as int].0@ != s[i].0@);
                    }
                }
                lemma_named_map_update(s, j as int, value);
            }
            let old_name = entries[j].0.clone();
            entries.set(j, (old_name, value));
            assert(entries@ =~= s.update(j as int, (key, value)));
        },
        None => {
            let ghost s = entries@;
            entries.push((name, value));
            assert(entries@.drop_last() =~= s);
        },
    }
}

/// The subagents of an agent, by name.
pub struct LaborMarket<A> {
    fixed_subagents: Vec<(String, A)>,
    fixed_subagent_descs: Vec<(String, String)>,
    dynamic_subagents: Vec<(String, A)>,
}

impl<A> LaborMarket<A> {
    /// Each list names each subagent once, and every fixed subagent has a
    /// description and nothing else has.
    #[verifier::type_invariant]
    spec fn well_formed(self) -> bool {
        &&& names_distinct(self.fixed_subagents@)
        &&& names_distinct(self.fixed_subagent_descs@)
        &&& names_distinct(self.dynamic_subagents@)
        &&& named_map(self.fixed_subagents@).dom() == named_map(self.fixed_subagent_descs@).dom()
    }

    /// The fixed subagents, by name.
    pub closed spec fn fixed(self) -> Map<Seq<char>, A> {
        named_map(self.fixed_subagents@)
    }

    /// The descriptions of the fixed subagents, by name.
    pub closed spec fn descs(self) -> Map<Seq<char>, String> {
        named_map(self.fixed_subagent_descs@)
    }

    /// The subagents created while the agent runs, by name.
    pub closed spec fn dynamic(self) -> Map<Seq<char>, A> {
        named_map(self.dynamic_subagents@)
    }

    /// A market with no subagent.
    pub fn new() -> (r: Self)
        ensures
            r.fixed() == Map::<Seq<char>, A>::empty(),
            r.descs() == Map::<Seq<char>, String>::empty(),
            r.dynamic() == Map::<Seq<char>, A>::empty(),
            r.fixed().dom() == r.descs().dom(),
    {
        LaborMarket { fixed_subagents: Vec::new(), fixed_subagent_descs: Vec::new(), dynamic_subagents: Vec::new() }
    }

    /// Adds (or replaces) the fixed subagent `name`, with its description.
    pub fn add_fixed_subagent(&mut self, name: String, agent: A, description: String)
        ensures
            final(self).fixed() == old(self).fixed().insert(name@, agent),
            final(self).descs() == old(self).descs().insert(name@, description),
            final(self).dynamic() == old(self).dynamic(),
            final(self).fixed().dom() == final(self).descs().dom(),
    {
        let mut m = LaborMarket::new();
        core::mem::swap(self, &mut m);
        proof {
            use_type_invariant(&m);
        }
        let LaborMarket { mut fixed_subagents, mut fixed_subagent_descs, dynamic_subagents } = m;
        let key = name.clone();
        put_entry(&mut fixed_subagents, key, agent);
        put_entry(&mut fixed_subagent_descs, name, description);
        assert(named_map(fixed_subagents@).dom() =~= named_map(fixed_subagent_descs@).dom());
        *self = LaborMarket { fixed_subagents, fixed_subagent_descs, dynamic_subagents };
    }

    /// Adds (or replaces) the subagent `name` created while the agent runs.
    pub fn add_dynamic_subagent(&mut self, name: String, agent: A)
        ensures
            final(self).fixed() == old(self).fixed(),
            final(self).descs() == old(self).descs(),
            final(self).dynamic() == old(self).dynamic().insert(name@, agent),
            final(self).fixed().dom() == final(self).descs().dom(),
    {
        let mut m = LaborMarket::new();
        core::mem::swap(self, &mut m);
        proof {
            use_type_invariant(&m);
        }
        let LaborMarket { fixed_subagents, fixed_subagent_descs, mut dynamic_subagents } = m;
        put_entry(&mut dynamic_subagents, name, agent);
        *self = LaborMarket { fixed_subagents, fixed_subagent_descs, dynamic_subagents };
    }

    /// The fixed subagents, each name once.
    pub fn fixed_subagents(&self) -> (r: &Vec<(String, A)>)
        ensures
            names_distinct(r@),
            named_map(r@) == self.fixed(),
    {
        proof {
            use_type_invariant(self);
        }
        &self.fixed_subagents
    }

    /// The subagents created while the agent runs, each name once.
    pub fn dynamic_subagents(&self) -> (r: &Vec<(String, A)>)
        ensures
            names_distinct(r@),
            named_map(r@) == self.dynamic(),
    {
        proof {
            use_type_invariant(self);
        }
        &self.dynamic_subagents
    }

    /// The descriptions of the fixed subagents, each name once.
    pub fn fixed_subagent_descs(&self) -> (r: &Vec<(String, String)>)
        ensures
            names_distinct(r@),
            named_map(r@) == self.descs(),
            self.fixed().dom() == self.descs().dom(),
    {
        proof {
            use_type_invariant(self);
        }
        &self.fixed_subagent_descs
    }
}

impl<A: Clone> LaborMarket<A> {
    /// All subagents, each name once: the fixed ones and those created
    /// while the agent runs, which win where a name is both.
    pub fn all_subagents(&self) -> (r: Vec<(String, A)>)
        ensures
            names_distinct(r@),
            named_map(r@).dom() == self.fixed().dom().union(self.dynamic().dom()),
            forall|k: Seq<char>| #[trigger] self.dynamic().contains_key(k) ==> cloned(self.dynamic()[k], named_map(r@)[k]),
            forall|k: Seq<char>|
                #[trigger] self.fixed().contains_key(k) && !self.dynamic().contains_key(k)
                    ==> cloned(self.fixed()[k], named_map(r@)[k]),
    {
        proof {
            use_type_invariant(self);
        }
        let fixed = &self.fixed_subagents;
        let dynamic = &self.dynamic_subagents;
        let ghost fm = named_map(fixed@);
        let ghost dm = named_map(dynamic@);
        let mut out: Vec<(String, A)> = Vec::new();
        let mut i: usize = 0;
        while i < fixed.len()
            invariant
                i <= fixed.len(),
                names_distinct(fixed@),
                fm == named_map(fixed@),
                names_distinct(out@),
                named_map(out@).dom() == named_map(fixed@.take(i as int)).dom(),
                forall|k: Seq<char>| #[trigger] named_map(out@).contains_key(k)
                    ==> cloned(fm[k], named_map(out@)[k]),
            decreases fixed.len() - i,
        {
            let ghost before = out@;
            let name = fixed[i].0.clone();
            let agent = fixed[i].1.clone();
            proof {
                lemma_named_map_at(fixed@, i as int);
                assert(fixed@.take(i + 1).drop_last() =~= fixed@.take(i as int));
            }
            put_entry(&mut out, name, agent);
            assert(named_map(out@).dom() =~= named_map(fixed@.take(i + 1)).dom());
            i = i + 1;
        }
        assert(fixed@.take(fixed.len() as int) =~= fixed@);
        let mut j: usize = 0;
        while j < dynamic.len()
            invariant
                j <= dynamic.len(),
                names_distinct(dynamic@),
                fm == named_map(fixed@),
                dm == named_map(dynamic@),
                names_distinct(out@),
                named_map(out@).dom() == fm.dom().union(named_map(dynamic@.take(j as int)).dom()),
                forall|k: Seq<char>| #[trigger] named_map(dynamic@.take(j as int)).contains_key(k)
                    ==> cloned(dm[k], named_map(out@)[k]),
                forall|k: Seq<char>|
                    #[trigger] named_map(out@).contains_key(k) && !named_map(dynamic@.take(j as int)).contains_key(k)
                        ==> cloned(fm[k], named_map(out@)[k]),
            decreases dynamic.len() - j,
        {
            let name = dynamic[j].0.clone();
            let agent = dynamic[j].1.clone();
            proof {
                lemma_named_map_at(dynamic@, j as int);
                assert(dynamic@.take(j + 1).drop_last() =~= dynamic@.take(j as int));
            }
            put_entry(&mut out, name, agent);
            assert(named_map(out@).dom() =~= fm.dom().union(named_map(dynamic@.take(j + 1)).dom()));
            j = j + 1;
        }
        assert(dynamic@.take(dynamic.len() as int) =~= dynamic@);
        assert forall|k: Seq<char>| #[trigger] fm.contains_key(k) && !dm.contains_key(k) implies cloned(
            fm[k],
            named_map(out@)[k],
        ) by {
            assert(named_map(out@).contains_key(k));
        }
        out
    }
}

} // verus!
