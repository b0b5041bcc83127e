//! What the program is asked to do, and what comes of it.

use crate::json::json_text;
use crate::persist::encoded;
use crate::report::report_lines;
use crate::report::report_text;
use crate::report::lemma_reports_lines;
use crate::store::dropped;
use crate::store::kept;
use crate::store::touched_all;
use crate::store::Tasks;
use crate::time::now;
use crate::time::Instant;
use crate::time::Timestamp;
use crate::wording::format_days_hours_minutes;
use crate::wording::in_days;
use crate::wording::in_days_hours_minutes;
use vstd::prelude::*;

verus! {

/// The arguments of one run.
pub struct Args {
    /// What to do.
    pub action: Action,
}

/// What one run is asked to do.
#[allow(inconsistent_fields)]
pub enum Action {
    /// Set the moment of the tasks to now; a task that is new is added.
    Do {
        /// The tasks that were done.
        tasks: Vec<String>,
    },
    /// Show how long ago the tasks were done: all of them, or those named.
    View {
        /// Show hours and minutes beside the days.
        minutes: bool,
        /// The tasks to show, where not all.
        tasks: Option<Vec<String>>,
    },
    /// Take the tasks out of the store.
    Remove {
        /// The tasks to take out.
        tasks: Vec<String>,
    },
}

/// What is left to do after a run's decision.
pub enum Outcome {
    /// Write this content to the data file.
    Save(String),
    /// Print this report.
    Print(String),
}

/// An outcome in mathematical form.
pub enum Effect {
    /// Write this content to the data file.
    Save(Seq<char>),
    /// Print this report.
    Print(Seq<char>),
}

impl View for Outcome {
    type V = Effect;

    open spec fn view(&self) -> Effect {
        match self {
            Outcome::Save(content) => Effect::Save(content@),
            Outcome::Print(report) => Effect::Print(report@),
        }
    }
}

/// What the action comes to on the store `entries` at the moment `now`.
///
/// Doing and removing change the store and have it saved. Viewing changes
/// nothing that is kept: it prints the report on the tasks asked for, in
/// days, or in days, hours and minutes.
pub open spec fn effect_of(action: Action, entries: Seq<(Seq<char>, Instant)>, now: Instant)
    -> Effect {
    match action {
        Action::Do { tasks } => Effect::Save(
            json_text(encoded(touched_all(entries, tasks.deep_view(), now))),
        ),
        Action::Remove { tasks } => Effect::Save(
            json_text(encoded(dropped(entries, tasks.deep_view().to_set()))),
        ),
        Action::View { minutes, tasks } => {
            let shown = match tasks {
                Some(names) => kept(entries, names.deep_view().to_set()),
                None => entries,
            };
            let wording = if minutes {
                in_days_hours_minutes()
            } else {
                in_days()
            };
            Effect::Print(report_text(report_lines(shown, now, wording)))
        },
    }
}

/// The names of a list, borrowed.
fn borrowed(names: &Vec<String>) -> (list: Vec<&str>)
    ensures
        list.deep_view() == names.deep_view(),
{
    let mut list: Vec<&str> = Vec::new();
    let mut at: usize = 0;
    while at < names.len()
        invariant
            at <= names.len(),
            list.deep_view() =~= names.deep_view().take(at as int),
        decreases names.len() - at,
    {
        let ghost before = list.deep_view();
        list.push(names[at].as_str());
        assert(list.deep_view() =~= before.push(names.deep_view()[at as int]));
        at += 1;
    }
    assert(list.deep_view() =~= names.deep_view());
    list
}

impl Action {
    /// Decides what the action comes to on the store at the moment `now`.
    /// Every action comes to an outcome.
    pub fn execute_at(self, tasks: Tasks, now: Timestamp) -> (done: Result<
        Outcome,
        serde_json::Error,
    >)
        ensures
            done matches Ok(outcome) && outcome@ == effect_of(self, tasks@, now@),
    {
        let mut tasks = tasks;
        match self {
            Action::Do { tasks: provided } => {
                let names = borrowed(&provided);
                tasks.update_multiple_at(names.as_slice(), now);
                match tasks.into_json() {
                    Ok(content) => Ok(Outcome::Save(content)),
                    Err(error) => Err(error),
                }
            },
            Action::Remove { tasks: provided } => {
                let names = borrowed(&provided);
                tasks.remove_multiple(names.as_slice());
                match tasks.into_json() {
                    Ok(content) => Ok(Outcome::Save(content)),
                    Err(error) => Err(error),
                }
            },
            Action::View { minutes, tasks: provided } => {
                if let Some(provided) = provided {
                    let names = borrowed(&provided);
                    tasks.keep_multiple(names.as_slice());
                }
                let ghost shown = tasks@;
                let report = if minutes {
                    let report = tasks.output_when(now, format_days_hours_minutes);
                    proof {
                        lemma_reports_lines(
                            report,
                            shown,
                            now@,
                            format_days_hours_minutes,
                            in_days_hours_minutes(),
                        );
                    }
                    report
                } else {
                    tasks.output_days_when(now)
                };
                Ok(Outcome::Print(report.to_string()))
            },
        }
    }

    /// Decides what the action comes to on the store now.
    pub fn execute(self, tasks: Tasks) -> (done: Result<Outcome, serde_json::Error>)
        ensures
            done matches Ok(outcome) && exists|now: Instant|
                now.valid() && outcome@ == #[trigger] effect_of(self, tasks@, now),
    {
        let moment = now();
        proof {
            moment.lemma_valid();
        }
        self.execute_at(tasks, moment)
    }
}

} // verus!
