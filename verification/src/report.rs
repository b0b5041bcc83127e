//! The report: one line for each task, the names padded to one width.

use crate::order::arrange;
use crate::order::lemma_order_ascends;
use crate::order::lemma_order_covers;
use crate::order::lemma_report_order;
use crate::order::lengths;
use crate::order::places;
use crate::order::report_order;
use crate::store::Tasks;
use crate::text::push_spaces;
use crate::text::spaces;
use crate::time::nanos_between;
use crate::time::now;
use crate::time::Elapsed;
use crate::time::Instant;
use crate::time::Timestamp;
use crate::wording::format_days;
use crate::wording::in_days;
use vstd::prelude::*;

verus! {

/// What stands between a padded name and its elapsed time.
pub open spec fn separator() -> Seq<char> {
    seq![' ', '—', ' ']
}

/// The width of the longest name among `lines`, in characters; zero where
/// there is no line.
pub open spec fn widest_name(lines: Seq<(Seq<char>, Seq<char>)>) -> nat
    decreases lines.len(),
{
    if lines.len() == 0 {
        0
    } else {
        let before = widest_name(lines.drop_last());
        let last = lines.last().0.len();
        if last > before {
            last
        } else {
            before
        }
    }
}

/// One line of a report: the name, spaces up to `width`, the separator, the
/// elapsed time and a line feed.
pub open spec fn line_text(line: (Seq<char>, Seq<char>), width: nat) -> Seq<char> {
    line.0 + spaces((width - line.0.len()) as nat) + separator() + line.1 + seq!['\n']
}

/// The lines of a report one after the other, each padded to `width`.
pub open spec fn lines_text(lines: Seq<(Seq<char>, Seq<char>)>, width: nat) -> Seq<char>
    decreases lines.len(),
{
    if lines.len() == 0 {
        Seq::empty()
    } else {
        lines_text(lines.drop_last(), width) + line_text(lines.last(), width)
    }
}

/// A report as it is printed: every name padded to the width of the longest.
pub open spec fn report_text(lines: Seq<(Seq<char>, Seq<char>)>) -> Seq<char> {
    lines_text(lines, widest_name(lines))
}

/// No name is wider than the widest.
pub proof fn lemma_widest_name_bounds(lines: Seq<(Seq<char>, Seq<char>)>, at: int)
    requires
        0 <= at < lines.len(),
    ensures
        lines[at].0.len() <= widest_name(lines),
    decreases lines.len(),
{
    if at < lines.len() - 1 {
        lemma_widest_name_bounds(lines.drop_last(), at);
    }
}

/// The separator stands in one column on every line of a report: each line
/// begins with its name, and behind as many characters as the widest name
/// has comes the separator.
pub proof fn lemma_separator_column(lines: Seq<(Seq<char>, Seq<char>)>, at: int)
    requires
        0 <= at < lines.len(),
    ensures
        ({
            let width = widest_name(lines) as int;
            let line = line_text(lines[at], widest_name(lines));
            &&& line.len() == width + 3 + lines[at].1.len() + 1
            &&& line.subrange(0, lines[at].0.len() as int) == lines[at].0
            &&& line.subrange(width, width + 3) == separator()
            &&& line.subrange(width + 3, line.len() - 1) == lines[at].1
            &&& line.last() == '\n'
        }),
{
    lemma_widest_name_bounds(lines, at);
    let width = widest_name(lines) as int;
    let line = line_text(lines[at], widest_name(lines));
    assert(line.subrange(0, lines[at].0.len() as int) =~= lines[at].0);
    assert(line.subrange(width, width + 3) =~= separator());
    assert(line.subrange(width + 3, line.len() - 1) =~= lines[at].1);
}

/// The tasks of a store in the order of a report, each with its elapsed time
/// as text.
#[derive(Debug)]
pub struct OutputTasks {
    lines: Vec<(String, String)>,
}

impl View for OutputTasks {
    type V = Seq<(Seq<char>, Seq<char>)>;

    closed spec fn view(&self) -> Seq<(Seq<char>, Seq<char>)> {
        self.lines.deep_view()
    }
}

impl OutputTasks {
    /// The lines as the strings that they are held in.
    pub closed spec fn lines(&self) -> Seq<(String, String)> {
        self.lines@
    }

    /// The view of a report is the view of its lines.
    pub proof fn lemma_view(&self)
        ensures
            self@.len() == self.lines().len(),
            forall|i: int|
                0 <= i < self@.len() ==> #[trigger] self@[i] == (
                    self.lines()[i].0@,
                    self.lines()[i].1@,
                ),
    {
    }

    /// A report of the given lines.
    pub(crate) fn from_lines(lines: Vec<(String, String)>) -> (report: OutputTasks)
        ensures
            report.lines() == lines@,
            report@ == lines.deep_view(),
    {
        OutputTasks { lines }
    }

    /// The lines of the report: a name and its elapsed time each.
    pub fn entries(&self) -> (lines: &Vec<(String, String)>)
        ensures
            lines@ == self.lines(),
            lines.deep_view() == self@,
    {
        &self.lines
    }

    /// The report as text, one line for each task.
    pub fn to_string(&self) -> (text: String)
        ensures
            text@ == report_text(self@),
    {
        let ghost lines = self@;
        let count = self.lines.len();
        let mut width: usize = 0;
        let mut at: usize = 0;
        while at < count
            invariant
                at <= count,
                count == self.lines.len(),
                lines == self.lines.deep_view(),
                width == widest_name(lines.take(at as int)),
            decreases count - at,
        {
            let size = self.lines[at].0.as_str().unicode_len();
            proof {
                assert(lines.take(at + 1).drop_last() =~= lines.take(at as int));
                assert(lines.take(at + 1).last() == lines[at as int]);
            }
            if size > width {
                width = size;
            }
            at += 1;
        }
        proof {
            assert(lines.take(count as int) =~= lines);
            reveal_strlit(" — ");
            reveal_strlit("\n");
            assert(" — "@ =~= separator());
            assert("\n"@ =~= seq!['\n']);
        }
        let mut text = String::new();
        let mut at: usize = 0;
        while at < count
            invariant
                at <= count,
                count == self.lines.len(),
                lines == self.lines.deep_view(),
                width == widest_name(lines),
                " — "@ == separator(),
                "\n"@ == seq!['\n'],
                text@ == lines_text(lines.take(at as int), width as nat),
            decreases count - at,
        {
            let name = self.lines[at].0.as_str();
            let elapsed = self.lines[at].1.as_str();
            let size = name.unicode_len();
            proof {
                lemma_widest_name_bounds(lines, at as int);
                assert(lines.take(at + 1).drop_last() =~= lines.take(at as int));
                assert(lines.take(at + 1).last() == lines[at as int]);
            }
            let ghost before = text@;
            text.append(name);
            push_spaces(&mut text, width - size);
            text.append(" — ");
            text.append(elapsed);
            text.append("\n");
            assert(text@ =~= before + line_text(lines[at as int], width as nat));
            at += 1;
        }
        proof {
            assert(lines.take(count as int) =~= lines);
        }
        text
    }
}

/// How long before `now` each entry was done, in nanoseconds.
pub open spec fn spans_to(entries: Seq<(Seq<char>, Instant)>, now: Instant) -> Seq<int> {
    Seq::new(entries.len(), |at: int| nanos_between(now, entries[at].1))
}

/// The lines of the report on `entries` at the moment `now`: the entries by
/// ascending elapsed time, equal times in the order of the store, each time
/// worded by `wording`.
pub open spec fn report_lines(
    entries: Seq<(Seq<char>, Instant)>,
    now: Instant,
    wording: spec_fn(int) -> Seq<char>,
) -> Seq<(Seq<char>, Seq<char>)> {
    let spans = spans_to(entries, now);
    let order = report_order(spans);
    Seq::new(entries.len(), |at: int| (entries[order[at]].0, wording(spans[order[at]])))
}

/// A report goes by ascending elapsed time and names every task of the store
/// once: the line in place `at` is that of the entry in place
/// `report_order(..)[at]`, and no place of the store is left out.
pub proof fn lemma_report_ascending(
    entries: Seq<(Seq<char>, Instant)>,
    now: Instant,
    wording: spec_fn(int) -> Seq<char>,
    earlier: int,
    later: int,
)
    requires
        0 <= earlier <= later < entries.len(),
    ensures
        ({
            let spans = spans_to(entries, now);
            let order = report_order(spans);
            let lines = report_lines(entries, now, wording);
            &&& lines.len() == entries.len()
            &&& 0 <= order[earlier] < entries.len()
            &&& 0 <= order[later] < entries.len()
            &&& lines[earlier].0 == entries[order[earlier]].0
            &&& lines[later].0 == entries[order[later]].0
            &&& spans[order[earlier]] <= spans[order[later]]
            &&& forall|place: int| 0 <= place < entries.len() ==> order.contains(place)
        }),
{
    let spans = spans_to(entries, now);
    let order = report_order(spans);
    lemma_report_order(spans);
    lemma_order_ascends(order, spans, earlier, later);
    assert forall|place: int| 0 <= place < entries.len() implies order.contains(place) by {
        lemma_order_covers(order, spans, place);
    }
}

/// Whether `text` is what `to_string` made of a span of `span` nanoseconds.
pub open spec fn formats<F: Fn(Elapsed) -> String>(to_string: F, span: int, text: String) -> bool {
    exists|elapsed: Elapsed|
        elapsed.wf() && elapsed@ == span && #[trigger] call_ensures(to_string, (elapsed,), text)
}

/// Whether `lines` is the report on `entries` at the moment `now`: the
/// entries by ascending elapsed time, equal times in the order of the store,
/// each time as `to_string` worded it.
pub open spec fn reports<F: Fn(Elapsed) -> String>(
    lines: Seq<(String, String)>,
    entries: Seq<(Seq<char>, Instant)>,
    now: Instant,
    to_string: F,
) -> bool {
    let spans = spans_to(entries, now);
    let order = report_order(spans);
    &&& lines.len() == entries.len()
    &&& forall|at: int|
        0 <= at < lines.len() ==> {
            &&& (#[trigger] lines[at]).0@ == entries[order[at]].0
            &&& formats(to_string, spans[order[at]], lines[at].1)
        }
}

/// Where the formatter words every span as `wording` says, the report holds
/// the lines that `report_lines` states.
pub proof fn lemma_reports_lines<F: Fn(Elapsed) -> String>(
    report: OutputTasks,
    entries: Seq<(Seq<char>, Instant)>,
    now: Instant,
    to_string: F,
    wording: spec_fn(int) -> Seq<char>,
)
    requires
        reports(report.lines(), entries, now, to_string),
        forall|elapsed: Elapsed, text: String| #[trigger]
            call_ensures(to_string, (elapsed,), text) ==> text@ == wording(elapsed@),
    ensures
        report@ == report_lines(entries, now, wording),
{
    report.lemma_view();
    let lines = report.lines();
    let spans = spans_to(entries, now);
    let order = report_order(spans);
    assert forall|at: int| 0 <= at < lines.len() implies #[trigger] report@[at] == report_lines(
        entries,
        now,
        wording,
    )[at] by {
        assert(lines[at].0@ == entries[order[at]].0);
        assert(formats(to_string, spans[order[at]], lines[at].1));
    }
    assert(report@ =~= report_lines(entries, now, wording));
}

impl Tasks {
    /// The report on the store at the moment `now`: the tasks by ascending
    /// elapsed time, each time worded by `to_string`.
    pub fn output_when<F: Fn(Elapsed) -> String>(self, now: Timestamp, to_string: F) -> (report:
        OutputTasks)
        requires
            forall|span: Elapsed| span.wf() ==> call_requires(to_string, (span,)),
        ensures
            reports(report.lines(), self@, now@, to_string),
    {
        let ghost entries = self@;
        let count = self.len();
        let mut spans: Vec<Elapsed> = Vec::new();
        let mut at: usize = 0;
        while at < count
            invariant
                at <= count,
                count == self@.len(),
                entries == self@,
                spans.len() == at,
                forall|i: int|
                    0 <= i < at ==> (#[trigger] spans[i]).wf() && spans[i]@ == nanos_between(
                        now@,
                        entries[i].1,
                    ),
            decreases count - at,
        {
            let moment = self.moment_at(at);
            spans.push(now.elapsed_since(&moment));
            at += 1;
        }
        proof {
            assert(lengths(spans@) =~= spans_to(entries, now@));
        }
        let order = arrange(&spans);
        let ghost keys = spans_to(entries, now@);
        let mut lines: Vec<(String, String)> = Vec::new();
        let mut at: usize = 0;
        while at < count
            invariant
                at <= count,
                count == self@.len(),
                count == order.len(),
                count == spans.len(),
                entries == self@,
                keys == spans_to(entries, now@),
                places(order@) == report_order(keys),
                forall|i: int| 0 <= i < order.len() ==> (#[trigger] order[i]) < count,
                forall|i: int|
                    0 <= i < count ==> (#[trigger] spans[i]).wf() && spans[i]@ == nanos_between(
                        now@,
                        entries[i].1,
                    ),
                forall|span: Elapsed| span.wf() ==> call_requires(to_string, (span,)),
                lines.len() == at,
                forall|i: int|
                    0 <= i < at ==> {
                        &&& (#[trigger] lines[i]).0@ == entries[report_order(keys)[i]].0
                        &&& formats(to_string, keys[report_order(keys)[i]], lines[i].1)
                    },
            decreases count - at,
        {
            let place = order[at];
            assert(places(order@)[at as int] == place);
            let span = spans[place];
            let name = self.name_at(place).clone();
            let text = to_string(span);
            assert(formats(to_string, keys[place as int], text));
            lines.push((name, text));
            at += 1;
        }
        OutputTasks::from_lines(lines)
    }

    /// The report on the store now, each elapsed time worded by `to_string`.
    pub fn output<F: Fn(Elapsed) -> String>(self, to_string: F) -> (report: OutputTasks)
        requires
            forall|span: Elapsed| span.wf() ==> call_requires(to_string, (span,)),
        ensures
            exists|now: Instant|
                now.valid() && #[trigger] reports(report.lines(), self@, now, to_string),
    {
        let moment = now();
        proof {
            moment.lemma_valid();
        }
        self.output_when(moment, to_string)
    }

    /// The report on the store at the moment `now`, each elapsed time in
    /// whole days.
    pub fn output_days_when(self, now: Timestamp) -> (report: OutputTasks)
        ensures
            report@ == report_lines(self@, now@, in_days()),
    {
        let ghost entries = self@;
        let report = self.output_when(now, format_days);
        proof {
            lemma_reports_lines(report, entries, now@, format_days, in_days());
        }
        report
    }

    /// The report on the store now, each elapsed time in whole days.
    pub fn output_days(self) -> (report: OutputTasks)
        ensures
            exists|now: Instant|
                now.valid() && report@ == #[trigger] report_lines(self@, now, in_days()),
    {
        let moment = now();
        proof {
            moment.lemma_valid();
        }
        self.output_days_when(moment)
    }
}

} // verus!
