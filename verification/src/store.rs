//! The store: for each task, the moment it was last done.
//!
//! A store is a list of entries, a name and a moment each, in which no name
//! stands twice. The order of the list is the order in which the names came
//! in; it decides nothing but the order of equal lines in a report.

use crate::text::listed;
use crate::text::same_text;
use crate::time::now;
use crate::time::Instant;
use crate::time::Timestamp;
use vstd::prelude::*;

verus! {

/// Whether an entry of `entries` has the name `name`.
pub open spec fn has_name(entries: Seq<(Seq<char>, Instant)>, name: Seq<char>) -> bool {
    exists|at: int| 0 <= at < entries.len() && (#[trigger] entries[at]).0 == name
}

/// Where in `entries` the name `name` stands, if it stands there.
pub open spec fn position(entries: Seq<(Seq<char>, Instant)>, name: Seq<char>) -> int {
    choose|at: int| 0 <= at < entries.len() && (#[trigger] entries[at]).0 == name
}

/// Whether no name stands twice in `entries`.
pub open spec fn distinct_names(entries: Seq<(Seq<char>, Instant)>) -> bool {
    forall|i: int, j: int|
        0 <= i < j < entries.len() ==> (#[trigger] entries[i]).0 != (#[trigger] entries[j]).0
}

/// Whether every moment in `entries` is one of the calendar.
pub open spec fn valid_moments(entries: Seq<(Seq<char>, Instant)>) -> bool {
    forall|at: int| 0 <= at < entries.len() ==> (#[trigger] entries[at]).1.valid()
}

/// What a store's entries must be.
pub open spec fn well_formed(entries: Seq<(Seq<char>, Instant)>) -> bool {
    distinct_names(entries) && valid_moments(entries)
}

/// The entries as a mapping from name to moment.
pub open spec fn as_map(entries: Seq<(Seq<char>, Instant)>) -> Map<Seq<char>, Instant> {
    Map::new(
        |name: Seq<char>| has_name(entries, name),
        |name: Seq<char>| entries[position(entries, name)].1,
    )
}

/// The entries after `name` was done at `moment`: its entry holds the new
/// moment in its old place, or stands at the end where there was none.
pub open spec fn touched(
    entries: Seq<(Seq<char>, Instant)>,
    name: Seq<char>,
    moment: Instant,
) -> Seq<(Seq<char>, Instant)> {
    if has_name(entries, name) {
        entries.update(position(entries, name), (name, moment))
    } else {
        entries.push((name, moment))
    }
}

/// The entries after each of `names`, in turn, was done at `moment`.
pub open spec fn touched_all(
    entries: Seq<(Seq<char>, Instant)>,
    names: Seq<Seq<char>>,
    moment: Instant,
) -> Seq<(Seq<char>, Instant)>
    decreases names.len(),
{
    if names.len() == 0 {
        entries
    } else {
        touched(touched_all(entries, names.drop_last(), moment), names.last(), moment)
    }
}

/// The entries whose name is one of `names`, in their old order.
pub open spec fn kept(entries: Seq<(Seq<char>, Instant)>, names: Set<Seq<char>>) -> Seq<
    (Seq<char>, Instant),
> {
    entries.filter(|entry: (Seq<char>, Instant)| names.contains(entry.0))
}

/// The entries whose name is none of `names`, in their old order.
pub open spec fn dropped(entries: Seq<(Seq<char>, Instant)>, names: Set<Seq<char>>) -> Seq<
    (Seq<char>, Instant),
> {
    kept(entries, names.complement())
}

/// The store that a list of entries makes when they are put in one by one: a
/// later entry of a name replaces the moment of an earlier one.
pub open spec fn collected(pairs: Seq<(Seq<char>, Instant)>) -> Seq<(Seq<char>, Instant)>
    decreases pairs.len(),
{
    if pairs.len() == 0 {
        Seq::empty()
    } else {
        touched(collected(pairs.drop_last()), pairs.last().0, pairs.last().1)
    }
}

/// Among distinct names a name has one place.
pub proof fn lemma_position(entries: Seq<(Seq<char>, Instant)>, at: int)
    requires
        distinct_names(entries),
        0 <= at < entries.len(),
    ensures
        has_name(entries, entries[at].0),
        position(entries, entries[at].0) == at,
{
    let found = position(entries, entries[at].0);
    assert(entries[found].0 == entries[at].0);
    if found < at {
        assert(entries[found].0 != entries[at].0);
    }
    if at < found {
        assert(entries[at].0 != entries[found].0);
    }
}

/// Doing a task keeps a store a store.
pub proof fn lemma_touched_well_formed(
    entries: Seq<(Seq<char>, Instant)>,
    name: Seq<char>,
    moment: Instant,
)
    requires
        well_formed(entries),
        moment.valid(),
    ensures
        well_formed(touched(entries, name, moment)),
{
    let after = touched(entries, name, moment);
    if has_name(entries, name) {
        let place = position(entries, name);
        assert forall|i: int, j: int| 0 <= i < j < after.len() implies (#[trigger] after[i]).0 != (
        #[trigger] after[j]).0 by {
            assert(entries[i].0 != entries[j].0);
        }
    } else {
        assert forall|i: int, j: int| 0 <= i < j < after.len() implies (#[trigger] after[i]).0 != (
        #[trigger] after[j]).0 by {
            if j < entries.len() {
                assert(entries[i].0 != entries[j].0);
            } else {
                assert(entries[i].0 != name);
            }
        }
    }
}

/// Keeping some names puts the next entry behind the kept ones, or leaves it
/// out.
pub proof fn lemma_kept_push(
    entries: Seq<(Seq<char>, Instant)>,
    entry: (Seq<char>, Instant),
    names: Set<Seq<char>>,
)
    ensures
        kept(entries.push(entry), names) == if names.contains(entry.0) {
            kept(entries, names).push(entry)
        } else {
            kept(entries, names)
        },
{
    reveal(Seq::filter);
    assert(entries.push(entry).drop_last() =~= entries);
}

/// Nothing is kept of no entries.
pub proof fn lemma_kept_empty(names: Set<Seq<char>>)
    ensures
        kept(Seq::empty(), names) == Seq::<(Seq<char>, Instant)>::empty(),
{
    reveal(Seq::filter);
}

/// A kept entry was there before, and its name is one of those asked for;
/// every such entry is kept.
pub proof fn lemma_kept_names(
    entries: Seq<(Seq<char>, Instant)>,
    names: Set<Seq<char>>,
    name: Seq<char>,
)
    ensures
        has_name(kept(entries, names), name) <==> has_name(entries, name) && names.contains(name),
    decreases entries.len(),
{
    if entries.len() == 0 {
        lemma_kept_empty(names);
        assert(entries =~= Seq::empty());
    } else {
        let before = entries.drop_last();
        let last = entries.last();
        assert(entries =~= before.push(last));
        lemma_kept_push(before, last, names);
        lemma_kept_names(before, names, name);
        let after = kept(entries, names);
        if has_name(after, name) {
            let at = position(after, name);
            if names.contains(last.0) && at == after.len() - 1 {
                assert(entries[entries.len() - 1].0 == name);
            } else {
                assert(kept(before, names)[at].0 == name);
                let old = position(before, name);
                assert(entries[old].0 == name);
            }
        }
        if has_name(entries, name) && names.contains(name) {
            let at = position(entries, name);
            if at == entries.len() - 1 {
                assert(after[after.len() - 1].0 == name);
            } else {
                assert(before[at].0 == name);
                let new = position(kept(before, names), name);
                assert(after[new].0 == name);
            }
        }
    }
}

/// Keeping some names keeps a store a store.
pub proof fn lemma_kept_well_formed(entries: Seq<(Seq<char>, Instant)>, names: Set<Seq<char>>)
    requires
        well_formed(entries),
    ensures
        well_formed(kept(entries, names)),
    decreases entries.len(),
{
    if entries.len() == 0 {
        lemma_kept_empty(names);
        assert(entries =~= Seq::empty());
    } else {
        let before = entries.drop_last();
        let last = entries.last();
        assert(entries =~= before.push(last));
        lemma_kept_push(before, last, names);
        lemma_kept_well_formed(before, names);
        let after = kept(entries, names);
        if names.contains(last.0) {
            let inner = kept(before, names);
            assert forall|i: int, j: int| 0 <= i < j < after.len() implies (
            #[trigger] after[i]).0 != (#[trigger] after[j]).0 by {
                if j < inner.len() {
                    assert(inner[i].0 != inner[j].0);
                } else {
                    if inner[i].0 == last.0 {
                        lemma_kept_names(before, names, last.0);
                        let old = position(before, last.0);
                        assert(entries[old].0 != entries[entries.len() - 1].0);
                    }
                }
            }
            assert forall|at: int| 0 <= at < after.len() implies (#[trigger] after[at]).1.valid() by {
                if at < inner.len() {
                    assert(inner[at].1.valid());
                } else {
                    assert(entries[entries.len() - 1].1.valid());
                }
            }
        }
    }
}

/// Where every name is asked for, everything is kept.
pub proof fn lemma_kept_all(entries: Seq<(Seq<char>, Instant)>, names: Set<Seq<char>>)
    requires
        forall|at: int| 0 <= at < entries.len() ==> names.contains((#[trigger] entries[at]).0),
    ensures
        kept(entries, names) == entries,
    decreases entries.len(),
{
    if entries.len() == 0 {
        lemma_kept_empty(names);
        assert(entries =~= Seq::empty());
    } else {
        let before = entries.drop_last();
        let last = entries.last();
        assert(entries =~= before.push(last));
        lemma_kept_push(before, last, names);
        assert forall|at: int| 0 <= at < before.len() implies names.contains(
            (#[trigger] before[at]).0,
        ) by {
            assert(names.contains(entries[at].0));
        }
        lemma_kept_all(before, names);
        assert(names.contains(entries[entries.len() - 1].0));
    }
}

/// Taking one entry out of a store is dropping its name.
pub proof fn lemma_remove_drops(entries: Seq<(Seq<char>, Instant)>, at: int)
    requires
        distinct_names(entries),
        0 <= at < entries.len(),
    ensures
        entries.remove(at) == dropped(entries, set![entries[at].0]),
    decreases entries.len(),
{
    let name = entries[at].0;
    let others = set![name].complement();
    let before = entries.drop_last();
    let last = entries.last();
    assert(entries =~= before.push(last));
    lemma_kept_push(before, last, others);
    if at == entries.len() - 1 {
        assert forall|i: int| 0 <= i < before.len() implies others.contains(
            (#[trigger] before[i]).0,
        ) by {
            assert(entries[i].0 != entries[at].0);
        }
        lemma_kept_all(before, others);
        assert(entries.remove(at) =~= before);
    } else {
        assert(entries[at].0 != entries[entries.len() - 1].0);
        assert(before[at].0 == name);
        lemma_remove_drops(before, at);
        assert(entries.remove(at) =~= before.remove(at).push(last));
    }
}

/// Dropping no name leaves everything.
pub proof fn lemma_dropped_none(entries: Seq<(Seq<char>, Instant)>)
    ensures
        dropped(entries, Set::empty()) == entries,
{
    lemma_kept_all(entries, Set::<Seq<char>>::empty().complement());
}

/// Keeping some names and then others is keeping the names that are in
/// both.
pub proof fn lemma_kept_twice(
    entries: Seq<(Seq<char>, Instant)>,
    first: Set<Seq<char>>,
    second: Set<Seq<char>>,
)
    ensures
        kept(kept(entries, first), second) == kept(entries, first.intersect(second)),
    decreases entries.len(),
{
    if entries.len() == 0 {
        lemma_kept_empty(first);
        lemma_kept_empty(second);
        lemma_kept_empty(first.intersect(second));
        assert(entries =~= Seq::empty());
    } else {
        let before = entries.drop_last();
        let last = entries.last();
        assert(entries =~= before.push(last));
        lemma_kept_push(before, last, first);
        lemma_kept_push(before, last, first.intersect(second));
        lemma_kept_push(kept(before, first), last, second);
        lemma_kept_twice(before, first, second);
    }
}

/// Dropping some names and then others is dropping all of them at once.
pub proof fn lemma_dropped_twice(
    entries: Seq<(Seq<char>, Instant)>,
    first: Set<Seq<char>>,
    second: Set<Seq<char>>,
)
    ensures
        dropped(dropped(entries, first), second) == dropped(entries, first.union(second)),
{
    lemma_kept_twice(entries, first.complement(), second.complement());
    assert(first.complement().intersect(second.complement()) =~= first.union(second).complement());
}

/// A name that the store does not hold can be dropped without a change.
pub proof fn lemma_dropped_absent(entries: Seq<(Seq<char>, Instant)>, name: Seq<char>)
    requires
        !has_name(entries, name),
    ensures
        dropped(entries, set![name]) == entries,
{
    assert forall|at: int| 0 <= at < entries.len() implies set![name].complement().contains(
        (#[trigger] entries[at]).0,
    ) by {
        assert(!has_name(entries, name));
    }
    lemma_kept_all(entries, set![name].complement());
}

/// Doing a task sets its moment and leaves every other task as it was.
pub proof fn lemma_touched_map(
    entries: Seq<(Seq<char>, Instant)>,
    name: Seq<char>,
    moment: Instant,
)
    requires
        distinct_names(entries),
    ensures
        distinct_names(touched(entries, name, moment)),
        as_map(touched(entries, name, moment)) == as_map(entries).insert(name, moment),
{
    let after = touched(entries, name, moment);
    let place = position(entries, name);
    assert forall|i: int, j: int| 0 <= i < j < after.len() implies (#[trigger] after[i]).0 != (
    #[trigger] after[j]).0 by {
        if j < entries.len() {
            assert(entries[i].0 != entries[j].0);
        } else {
            assert(entries[i].0 != name);
        }
    }
    assert forall|other: Seq<char>| has_name(after, other) <==> has_name(entries, other) || other
        == name by {
        if has_name(after, other) {
            let at = position(after, other);
            if at < entries.len() && other != name {
                assert(entries[at].0 == other);
            }
        }
        if has_name(entries, other) {
            let at = position(entries, other);
            assert(after[at].0 == other);
        }
        if other == name {
            if has_name(entries, name) {
                assert(after[place].0 == name);
            } else {
                assert(after[after.len() - 1].0 == name);
            }
        }
    }
    assert forall|other: Seq<char>| has_name(after, other) implies #[trigger] as_map(after)[other]
        == as_map(entries).insert(name, moment)[other] by {
        let at = position(after, other);
        assert(after[at].0 == other);
        if other == name {
            if has_name(entries, name) {
                lemma_position(after, place);
            } else {
                lemma_position(after, after.len() - 1);
            }
        } else {
            assert(at < entries.len());
            assert(entries[at].0 == other);
            lemma_position(entries, at);
        }
    }
    assert(as_map(after) =~= as_map(entries).insert(name, moment));
}

/// Doing several tasks at one moment gives each of them that moment and
/// leaves every other task as it was.
pub proof fn lemma_touched_all_map(
    entries: Seq<(Seq<char>, Instant)>,
    names: Seq<Seq<char>>,
    moment: Instant,
)
    requires
        distinct_names(entries),
    ensures
        distinct_names(touched_all(entries, names, moment)),
        as_map(touched_all(entries, names, moment)) == as_map(entries).union_prefer_right(
            Map::new(|name: Seq<char>| names.contains(name), |name: Seq<char>| moment),
        ),
    decreases names.len(),
{
    let done = Map::new(|name: Seq<char>| names.contains(name), |name: Seq<char>| moment);
    if names.len() == 0 {
        assert(as_map(entries) =~= as_map(entries).union_prefer_right(done));
    } else {
        let fewer = names.drop_last();
        let before = touched_all(entries, fewer, moment);
        let sooner = Map::new(|name: Seq<char>| fewer.contains(name), |name: Seq<char>| moment);
        lemma_touched_all_map(entries, fewer, moment);
        lemma_touched_map(before, names.last(), moment);
        assert forall|name: Seq<char>| names.contains(name) <==> fewer.contains(name) || name
            == names.last() by {
            if names.contains(name) {
                let at = choose|at: int| 0 <= at < names.len() && names[at] == name;
                if at < names.len() - 1 {
                    assert(fewer[at] == name);
                }
            }
            if fewer.contains(name) {
                let at = choose|at: int| 0 <= at < fewer.len() && fewer[at] == name;
                assert(names[at] == name);
            }
            assert(names[names.len() - 1] == names.last());
        }
        assert(as_map(entries).union_prefer_right(sooner).insert(names.last(), moment)
            =~= as_map(entries).union_prefer_right(done));
    }
}

/// Every kept entry is an entry that was there before.
pub proof fn lemma_kept_from(entries: Seq<(Seq<char>, Instant)>, names: Set<Seq<char>>, at: int)
    requires
        0 <= at < kept(entries, names).len(),
    ensures
        entries.contains(kept(entries, names)[at]),
        names.contains(kept(entries, names)[at].0),
{
    let chosen = |entry: (Seq<char>, Instant)| names.contains(entry.0);
    entries.lemma_filter_pred(chosen, at);
    assert(entries.filter(chosen).contains(kept(entries, names)[at]));
    entries.lemma_filter_contains_rev(chosen, kept(entries, names)[at]);
}

/// Keeping some names restricts the mapping to them: no task is made up,
/// and no moment changes.
pub proof fn lemma_kept_map(entries: Seq<(Seq<char>, Instant)>, names: Set<Seq<char>>)
    requires
        distinct_names(entries),
    ensures
        as_map(kept(entries, names)) == as_map(entries).restrict(names),
{
    let after = kept(entries, names);
    assert forall|name: Seq<char>| has_name(after, name) <==> has_name(entries, name)
        && names.contains(name) by {
        lemma_kept_names(entries, names, name);
    }
    assert forall|name: Seq<char>| has_name(after, name) implies #[trigger] as_map(after)[name]
        == as_map(entries)[name] by {
        let at = position(after, name);
        lemma_kept_from(entries, names, at);
        let old = choose|old: int| 0 <= old < entries.len() && entries[old] == after[at];
        lemma_position(entries, old);
    }
    assert(as_map(after) =~= as_map(entries).restrict(names));
}

/// Dropping some names takes them out of the mapping and changes nothing
/// else.
pub proof fn lemma_dropped_map(entries: Seq<(Seq<char>, Instant)>, names: Set<Seq<char>>)
    requires
        distinct_names(entries),
    ensures
        as_map(dropped(entries, names)) == as_map(entries).remove_keys(names),
{
    lemma_kept_map(entries, names.complement());
    assert(as_map(entries).restrict(names.complement()) =~= as_map(entries).remove_keys(names));
}

/// For each task the moment it was last done.
#[derive(Debug)]
pub struct Tasks {
    entries: Vec<(String, Timestamp)>,
}

impl View for Tasks {
    type V = Seq<(Seq<char>, Instant)>;

    closed spec fn view(&self) -> Seq<(Seq<char>, Instant)> {
        self.entries.deep_view()
    }
}

impl Clone for Tasks {
    /// A second store with the same entries.
    fn clone(&self) -> (copy: Tasks)
        ensures
            copy@ == self@,
    {
        proof {
            use_type_invariant(self);
        }
        let mut entries: Vec<(String, Timestamp)> = Vec::new();
        let mut at: usize = 0;
        while at < self.entries.len()
            invariant
                at <= self.entries.len(),
                entries.deep_view() =~= self.entries.deep_view().take(at as int),
            decreases self.entries.len() - at,
        {
            let ghost so_far = entries.deep_view();
            let entry = (self.entries[at].0.clone(), self.entries[at].1);
            entries.push(entry);
            assert(entries.deep_view() =~= so_far.push(self.entries.deep_view()[at as int]));
            at += 1;
        }
        assert(entries.deep_view() =~= self.entries.deep_view());
        Tasks { entries }
    }
}

impl Tasks {
    /// No name stands twice, and every moment is one of the calendar.
    #[verifier::type_invariant]
    pub closed spec fn wf(self) -> bool {
        well_formed(self@)
    }

    /// The entries of a store are well formed.
    pub proof fn lemma_well_formed(self)
        requires
            self.wf(),
        ensures
            well_formed(self@),
    {
    }

    /// A store without tasks.
    pub fn new() -> (tasks: Tasks)
        ensures
            tasks@ == Seq::<(Seq<char>, Instant)>::empty(),
    {
        let entries: Vec<(String, Timestamp)> = Vec::new();
        assert(entries.deep_view() =~= Seq::empty());
        Tasks { entries }
    }

    /// How many tasks the store holds.
    pub fn len(&self) -> (count: usize)
        ensures
            count == self@.len(),
    {
        self.entries.len()
    }

    /// The name of the entry in place `at`.
    pub(crate) fn name_at(&self, at: usize) -> (name: &String)
        requires
            at < self@.len(),
        ensures
            name@ == self@[at as int].0,
    {
        &self.entries[at].0
    }

    /// The moment of the entry in place `at`.
    pub(crate) fn moment_at(&self, at: usize) -> (moment: Timestamp)
        requires
            at < self@.len(),
        ensures
            moment@ == self@[at as int].1,
    {
        self.entries[at].1
    }

    /// Where the entry of `task` stands.
    fn find(&self, task: &str) -> (found: Option<usize>)
        ensures
            found is Some <==> has_name(self@, task@),
            found matches Some(at) ==> at < self@.len() && at == position(self@, task@)
                && self@[at as int].0 == task@,
    {
        proof {
            use_type_invariant(self);
        }
        let mut at: usize = 0;
        while at < self.entries.len()
            invariant
                at <= self.entries.len(),
                self@ == self.entries.deep_view(),
                distinct_names(self@),
                forall|i: int| 0 <= i < at ==> (#[trigger] self@[i]).0 != task@,
            decreases self.entries.len() - at,
        {
            if same_text(self.entries[at].0.as_str(), task) {
                proof {
                    lemma_position(self@, at as int);
                }
                return Some(at);
            }
            at += 1;
        }
        None
    }

    /// Whether the store holds `task`.
    pub fn contains(&self, task: &str) -> (held: bool)
        ensures
            held == has_name(self@, task@),
    {
        self.find(task).is_some()
    }

    /// The moment `task` was last done, where the store holds it.
    pub fn get(&self, task: &str) -> (moment: Option<Timestamp>)
        ensures
            moment is Some <==> has_name(self@, task@),
            moment matches Some(found) ==> found@ == as_map(self@)[task@],
    {
        match self.find(task) {
            Some(at) => Some(self.entries[at].1),
            None => None,
        }
    }

    /// Sets the moment of `task` to `moment`; the task is new to the store
    /// where it was not held.
    pub fn update_at(&mut self, task: &str, moment: Timestamp)
        ensures
            final(self)@ == touched(old(self)@, task@, moment@),
            as_map(final(self)@) == as_map(old(self)@).insert(task@, moment@),
    {
        proof {
            use_type_invariant(&*self);
            use_type_invariant(&moment);
            moment.lemma_valid();
            lemma_touched_well_formed(self@, task@, moment@);
            lemma_touched_map(self@, task@, moment@);
        }
        let ghost before = self@;
        let found = self.find(task);
        let mut entries: Vec<(String, Timestamp)> = Vec::new();
        proof {
            assert(entries.deep_view() =~= Seq::empty());
        }
        std::mem::swap(&mut self.entries, &mut entries);
        let entry = (task.to_owned(), moment);
        match found {
            Some(at) => {
                entries.set(at, entry);
                assert(entries.deep_view() =~= before.update(at as int, (task@, moment@)));
            },
            None => {
                entries.push(entry);
                assert(entries.deep_view() =~= before.push((task@, moment@)));
            },
        }
        self.entries = entries;
    }

    /// Sets the moment of `task` to now; the task is new to the store where
    /// it was not held.
    pub fn update(&mut self, task: &str)
        ensures
            exists|moment: Instant|
                moment.valid() && final(self)@ == #[trigger] touched(old(self)@, task@, moment),
    {
        let moment = now();
        proof {
            moment.lemma_valid();
        }
        self.update_at(task, moment);
    }

    /// Sets the moment of each of `tasks` to `moment`.
    pub fn update_multiple_at(&mut self, tasks: &[&str], moment: Timestamp)
        ensures
            final(self)@ == touched_all(old(self)@, tasks.deep_view(), moment@),
            forall|name: Seq<char>|
                tasks.deep_view().contains(name) ==> has_name(final(self)@, name) && as_map(
                    final(self)@,
                )[name] == moment@,
    {
        proof {
            use_type_invariant(&*self);
        }
        let ghost before = self@;
        let mut at: usize = 0;
        while at < tasks.len()
            invariant
                at <= tasks.len(),
                self@ == touched_all(old(self)@, tasks.deep_view().take(at as int), moment@),
            decreases tasks.len() - at,
        {
            proof {
                let names = tasks.deep_view();
                assert(names.take(at + 1).drop_last() =~= names.take(at as int));
                assert(names.take(at + 1).last() == tasks[at as int]@);
            }
            self.update_at(tasks[at], moment);
            at += 1;
        }
        proof {
            let names = tasks.deep_view();
            assert(names.take(tasks.len() as int) =~= names);
            lemma_touched_all_map(before, names, moment@);
            assert forall|name: Seq<char>| names.contains(name) implies has_name(self@, name)
                && as_map(self@)[name] == moment@ by {
                let done = Map::new(
                    |name: Seq<char>| names.contains(name),
                    |name: Seq<char>| moment@,
                );
                assert(done.dom().contains(name));
                assert(as_map(self@).dom().contains(name));
            }
        }
    }

    /// Sets the moment of each of `tasks` to now: to one moment, read once.
    pub fn update_multiple(&mut self, tasks: &[&str])
        ensures
            exists|moment: Instant|
                {
                    &&& moment.valid()
                    &&& final(self)@ == #[trigger] touched_all(
                        old(self)@,
                        tasks.deep_view(),
                        moment,
                    )
                    &&& forall|name: Seq<char>|
                        tasks.deep_view().contains(name) ==> has_name(final(self)@, name)
                            && as_map(final(self)@)[name] == moment
                },
    {
        let moment = now();
        proof {
            moment.lemma_valid();
        }
        self.update_multiple_at(tasks, moment);
    }

    /// Takes `task` out of the store; nothing happens where it was not held.
    pub fn remove(&mut self, task: &str)
        ensures
            final(self)@ == dropped(old(self)@, set![task@]),
            as_map(final(self)@) == as_map(old(self)@).remove(task@),
            !has_name(old(self)@, task@) ==> final(self)@ == old(self)@,
    {
        proof {
            use_type_invariant(&*self);
            lemma_dropped_map(self@, set![task@]);
            assert(as_map(self@).remove_keys(set![task@]) =~= as_map(self@).remove(task@));
            if !has_name(self@, task@) {
                lemma_dropped_absent(self@, task@);
            }
        }
        let ghost before = self@;
        match self.find(task) {
            Some(at) => {
                proof {
                    lemma_remove_drops(before, at as int);
                    lemma_kept_well_formed(before, set![task@].complement());
                }
                let mut entries: Vec<(String, Timestamp)> = Vec::new();
                proof {
                    assert(entries.deep_view() =~= Seq::empty());
                }
                std::mem::swap(&mut self.entries, &mut entries);
                entries.remove(at);
                assert(entries.deep_view() =~= before.remove(at as int));
                self.entries = entries;
            },
            None => {},
        }
    }

    /// Takes each of `tasks` out of the store.
    pub fn remove_multiple(&mut self, tasks: &[&str])
        ensures
            final(self)@ == dropped(old(self)@, tasks.deep_view().to_set()),
    {
        let mut at: usize = 0;
        proof {
            lemma_dropped_none(self@);
            assert(tasks.deep_view().take(0).to_set() =~= Set::empty());
        }
        while at < tasks.len()
            invariant
                at <= tasks.len(),
                self@ == dropped(old(self)@, tasks.deep_view().take(at as int).to_set()),
            decreases tasks.len() - at,
        {
            proof {
                let names = tasks.deep_view();
                let done = names.take(at as int);
                lemma_dropped_twice(old(self)@, done.to_set(), set![tasks[at as int]@]);
                done.lemma_push_to_set_commute(tasks[at as int]@);
                assert(names.take(at + 1) =~= done.push(tasks[at as int]@));
                assert(done.to_set().insert(tasks[at as int]@) =~= done.to_set().union(
                    set![tasks[at as int]@],
                ));
            }
            self.remove(tasks[at]);
            at += 1;
        }
        proof {
            assert(tasks.deep_view().take(tasks.len() as int) =~= tasks.deep_view());
        }
    }

    /// Keeps the tasks that are among `tasks` and takes all others out. A
    /// name that the store does not hold is passed over.
    pub fn keep_multiple(&mut self, tasks: &[&str])
        ensures
            final(self)@ == kept(old(self)@, tasks.deep_view().to_set()),
            as_map(final(self)@) == as_map(old(self)@).restrict(tasks.deep_view().to_set()),
            forall|name: Seq<char>| has_name(final(self)@, name) ==> has_name(old(self)@, name),
    {
        proof {
            use_type_invariant(&*self);
            lemma_kept_map(self@, tasks.deep_view().to_set());
            assert forall|name: Seq<char>|
                has_name(kept(self@, tasks.deep_view().to_set()), name) implies has_name(
                self@,
                name,
            ) by {
                lemma_kept_names(self@, tasks.deep_view().to_set(), name);
            }
        }
        let ghost before = self@;
        let ghost names = tasks.deep_view().to_set();
        let mut chosen: Vec<(String, Timestamp)> = Vec::new();
        let mut at: usize = 0;
        proof {
            lemma_kept_empty(names);
            assert(before.take(0) =~= Seq::empty());
            assert(chosen.deep_view() =~= Seq::empty());
        }
        while at < self.entries.len()
            invariant
                at <= self.entries.len(),
                before == self.entries.deep_view(),
                names == tasks.deep_view().to_set(),
                chosen.deep_view() == kept(before.take(at as int), names),
            decreases self.entries.len() - at,
        {
            let ghost so_far = chosen.deep_view();
            proof {
                lemma_kept_push(before.take(at as int), before[at as int], names);
                assert(before.take(at + 1) =~= before.take(at as int).push(before[at as int]));
            }
            if listed(tasks, self.entries[at].0.as_str()) {
                let entry = (self.entries[at].0.clone(), self.entries[at].1);
                chosen.push(entry);
                assert(chosen.deep_view() =~= so_far.push(before[at as int]));
            }
            at += 1;
        }
        proof {
            assert(before.take(self.entries.len() as int) =~= before);
            lemma_kept_well_formed(before, names);
        }
        self.entries = chosen;
    }

    /// Keeps `task` and takes all others out.
    pub fn keep(&mut self, task: &str)
        ensures
            final(self)@ == kept(old(self)@, set![task@]),
    {
        let one = vec![task];
        let names = one.as_slice();
        proof {
            assert(names.deep_view() =~= seq![task@]);
            assert(seq![task@].to_set() =~= set![task@]) by {
                assert(seq![task@][0] == task@);
            }
        }
        self.keep_multiple(names);
    }
}

} // verus!
