//! The store as it is kept between runs: for each task its moment as text.

use crate::errors::LoadError;
use crate::store::collected;
use crate::store::distinct_names;
use crate::store::has_name;
use crate::store::touched;
use crate::store::Tasks;
use crate::time::format_timestamp;
use crate::time::instant_text;
use crate::time::parse_timestamp;
use crate::time::parsed_instant;
use crate::time::Instant;
use crate::time::Timestamp;
use vstd::prelude::*;

verus! {

/// Whether every text stored for a task is a timestamp.
pub open spec fn all_parse(texts: Seq<(Seq<char>, Seq<char>)>) -> bool {
    forall|at: int| 0 <= at < texts.len() ==> parsed_instant((#[trigger] texts[at]).1) is Some
}

/// Whether the entry in place `at` is the first whose text is no timestamp.
pub open spec fn first_unparsed(texts: Seq<(Seq<char>, Seq<char>)>, at: int) -> bool {
    &&& 0 <= at < texts.len()
    &&& parsed_instant(texts[at].1) is None
    &&& forall|i: int| 0 <= i < at ==> parsed_instant((#[trigger] texts[i]).1) is Some
}

/// Each name with the moment that its text names.
pub open spec fn parsed_entries(texts: Seq<(Seq<char>, Seq<char>)>) -> Seq<(Seq<char>, Instant)> {
    Seq::new(texts.len(), |at: int| (texts[at].0, parsed_instant(texts[at].1).unwrap()))
}

/// The store that the stored texts stand for: none where one of the texts is
/// no timestamp.
pub open spec fn decoded(texts: Seq<(Seq<char>, Seq<char>)>) -> Option<Seq<(Seq<char>, Instant)>> {
    if all_parse(texts) {
        Some(collected(parsed_entries(texts)))
    } else {
        None
    }
}

/// Each name with its moment written out, in the order of the store.
pub open spec fn encoded(entries: Seq<(Seq<char>, Instant)>) -> Seq<(Seq<char>, Seq<char>)> {
    Seq::new(entries.len(), |at: int| (entries[at].0, instant_text(entries[at].1)))
}

/// Entries without a repeated name make the store that lists them as they
/// are.
pub proof fn lemma_collected_distinct(entries: Seq<(Seq<char>, Instant)>)
    requires
        distinct_names(entries),
    ensures
        collected(entries) == entries,
    decreases entries.len(),
{
    if entries.len() == 0 {
        assert(entries =~= Seq::empty());
    } else {
        let before = entries.drop_last();
        let last = entries.last();
        assert forall|i: int, j: int| 0 <= i < j < before.len() implies (#[trigger] before[i]).0 != (
        #[trigger] before[j]).0 by {
            assert(entries[i].0 != entries[j].0);
        }
        lemma_collected_distinct(before);
        if has_name(before, last.0) {
            let at = choose|at: int| 0 <= at < before.len() && (#[trigger] before[at]).0 == last.0;
            assert(entries[at].0 != entries[entries.len() - 1].0);
        }
        assert(touched(before, last.0, last.1) =~= entries);
    }
}

/// Reading back what was written gives the store that was written: where
/// `texts` holds the names of a store in its order, each with a text that
/// names the moment of that entry, it stands for that very store.
pub proof fn lemma_decoded_written(
    entries: Seq<(Seq<char>, Instant)>,
    texts: Seq<(Seq<char>, Seq<char>)>,
)
    requires
        distinct_names(entries),
        texts.len() == entries.len(),
        forall|at: int|
            0 <= at < texts.len() ==> (#[trigger] texts[at]).0 == entries[at].0 && parsed_instant(
                texts[at].1,
            ) == Some(entries[at].1),
    ensures
        decoded(texts) == Some(entries),
{
    assert(parsed_entries(texts) =~= entries);
    lemma_collected_distinct(entries);
}

impl Tasks {
    /// The store that the entries make when they are put in one by one: a
    /// later entry of a name replaces the moment of an earlier one.
    pub fn from_entries(entries: Vec<(String, Timestamp)>) -> (tasks: Tasks)
        ensures
            tasks@ == collected(entries.deep_view()),
    {
        let mut tasks = Tasks::new();
        let mut at: usize = 0;
        let ghost pairs = entries.deep_view();
        proof {
            assert(pairs.take(0) =~= Seq::empty());
        }
        while at < entries.len()
            invariant
                at <= entries.len(),
                pairs == entries.deep_view(),
                tasks@ == collected(pairs.take(at as int)),
            decreases entries.len() - at,
        {
            proof {
                assert(pairs.take(at + 1).drop_last() =~= pairs.take(at as int));
            }
            tasks.update_at(entries[at].0.as_str(), entries[at].1);
            at += 1;
        }
        proof {
            assert(pairs.take(entries.len() as int) =~= pairs);
        }
        tasks
    }

    /// Reads a store from the texts kept for its tasks. One text that is no
    /// timestamp refuses them all, and the error names the first such task.
    pub fn from_persistable(texts: Vec<(String, String)>) -> (loaded: Result<Tasks, LoadError>)
        ensures
            loaded is Ok <==> all_parse(texts.deep_view()),
            loaded matches Ok(tasks) ==> decoded(texts.deep_view()) == Some(tasks@),
            loaded matches Err(error) ==> error matches LoadError::Timestamp { name, .. }
                && exists|at: int| #[trigger]
                first_unparsed(texts.deep_view(), at) && name@ == texts.deep_view()[at].0,
    {
        let mut tasks = Tasks::new();
        let mut at: usize = 0;
        let ghost given = texts.deep_view();
        proof {
            assert(parsed_entries(given).take(0) =~= Seq::empty());
        }
        while at < texts.len()
            invariant
                at <= texts.len(),
                given == texts.deep_view(),
                forall|i: int| 0 <= i < at ==> parsed_instant((#[trigger] given[i]).1) is Some,
                tasks@ == collected(parsed_entries(given).take(at as int)),
            decreases texts.len() - at,
        {
            match parse_timestamp(texts[at].1.as_str()) {
                Ok(moment) => {
                    proof {
                        let pairs = parsed_entries(given);
                        assert(pairs.take(at + 1).drop_last() =~= pairs.take(at as int));
                    }
                    tasks.update_at(texts[at].0.as_str(), moment);
                },
                Err(cause) => {
                    let name = texts[at].0.clone();
                    proof {
                        assert(first_unparsed(given, at as int));
                        assert(parsed_instant(given[at as int].1) is None);
                    }
                    return Err(LoadError::Timestamp { name, cause });
                },
            }
            at += 1;
        }
        proof {
            assert(parsed_entries(given).take(texts.len() as int) =~= parsed_entries(given));
        }
        Ok(tasks)
    }

    /// Writes the store out: each name with its moment as text, in the order
    /// of the store. Reading the texts back gives this store again.
    pub fn into_persistable(self) -> (texts: Vec<(String, String)>)
        ensures
            texts.deep_view() == encoded(self@),
            decoded(texts.deep_view()) == Some(self@),
    {
        proof {
            use_type_invariant(&self);
            self.lemma_well_formed();
        }
        let ghost entries = self@;
        let mut texts: Vec<(String, String)> = Vec::new();
        let mut at: usize = 0;
        while at < self.len()
            invariant
                at <= self@.len(),
                entries == self@,
                texts.len() == at,
                forall|i: int|
                    0 <= i < at ==> (#[trigger] texts.deep_view()[i]) == (
                        entries[i].0,
                        instant_text(entries[i].1),
                    ) && parsed_instant(texts.deep_view()[i].1) == Some(entries[i].1),
            decreases self@.len() - at,
        {
            let moment = self.moment_at(at);
            proof {
                use_type_invariant(&moment);
            }
            let written = format_timestamp(moment);
            let name = self.name_at(at).clone();
            let ghost before = texts.deep_view();
            texts.push((name, written));
            proof {
                assert(texts.deep_view() =~= before.push((entries[at as int].0, written@)));
            }
            at += 1;
        }
        proof {
            assert(texts.deep_view() =~= encoded(entries));
            lemma_decoded_written(entries, texts.deep_view());
        }
        texts
    }
}

} // verus!
