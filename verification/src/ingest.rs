//! Ingestion: from the lines of a file of comma-separated values to batches of documents.
use vstd::prelude::*;

use crate::config::{ConfigView, CountryConfig};
use crate::csv;
use crate::decimal;
use crate::document::{DocumentView, GeoDocument};
use crate::flags;
use crate::ordered::TextMap;
use crate::query::{Bounds, Point};
use crate::record::{DocumentNumbers, NumbersView};
use crate::text;

verus! {

/// What the documents of a file are prepared from, and into.
#[derive(Clone, Debug)]
pub struct PrepareJob {
    pub config: String,
    pub input: String,
    pub output: String,
    pub batch_size: usize,
}

/// What the command line asks for.
#[derive(Debug)]
pub enum Command {
    /// To index the documents of a file.
    Prepare(PrepareJob),
    /// To count the documents of the index at a path.
    Stats(String),
    /// To tell how the program is used.
    Usage,
}

/// What a `Command` holds.
pub ghost enum CommandView {
    Prepare { config: Seq<char>, input: Seq<char>, output: Seq<char>, batch_size: int },
    Stats { index: Seq<char> },
    Usage,
}

impl View for Command {
    type V = CommandView;

    open spec fn view(&self) -> CommandView {
        match self {
            Command::Prepare(job) => CommandView::Prepare {
                config: job.config@,
                input: job.input@,
                output: job.output@,
                batch_size: job.batch_size as int,
            },
            Command::Stats(index) => CommandView::Stats { index: index@ },
            Command::Usage => CommandView::Usage,
        }
    }
}

/// The size of batches: that of the flag, but at least 1, or 5000 where the flag gives none.
pub open spec fn size_of_batches(flags: Map<Seq<char>, Seq<char>>) -> int {
    if flags.contains_key("batch-size"@) {
        match decimal::number(flags["batch-size"@], usize::MAX as nat) {
            Ok(n) => if n < 1 {
                1
            } else {
                n as int
            },
            Err(_) => 5000,
        }
    } else {
        5000
    }
}

/// The size of batches that the flags ask for.
pub fn batch_size(flags: &TextMap<String>) -> (result: usize)
    requires
        flags.wf(),
    ensures
        result == size_of_batches(flags@),
        result >= 1,
{
    match flags.get("batch-size") {
        Some(value) => match decimal::parse_number(value.as_str(), usize::MAX as u64) {
            Ok(n) => if n < 1 {
                1
            } else {
                n as usize
            },
            Err(_) => 5000,
        },
        None => 5000,
    }
}

/// What is said of a flag that has no value.
pub open spec fn missing_flag(key: Seq<char>) -> Seq<char> {
    "missing --"@ + key
}

/// What the flags of the command to prepare an index ask for, or the first of them that is missing.
pub open spec fn prepare_command(flags: Map<Seq<char>, Seq<char>>) -> Result<
    CommandView,
    Seq<char>,
> {
    if !flags.contains_key("config"@) {
        Err(missing_flag("config"@))
    } else if !flags.contains_key("input"@) {
        Err(missing_flag("input"@))
    } else if !flags.contains_key("output"@) {
        Err(missing_flag("output"@))
    } else {
        Ok(
            CommandView::Prepare {
                config: flags["config"@],
                input: flags["input"@],
                output: flags["output"@],
                batch_size: size_of_batches(flags),
            },
        )
    }
}

/// What the flags of the command to count documents ask for.
pub open spec fn stats_command(flags: Map<Seq<char>, Seq<char>>) -> Result<
    CommandView,
    Seq<char>,
> {
    if !flags.contains_key("index"@) {
        Err(missing_flag("index"@))
    } else {
        Ok(CommandView::Stats { index: flags["index"@] })
    }
}

/// What the arguments of the program ask for, the first of which is its name.
pub open spec fn command_of(args: Seq<Seq<char>>) -> Result<CommandView, Seq<char>> {
    if args.len() >= 2 && (args[1] == "prepare"@ || args[1] == "stats"@) {
        match flags::flags_of(args.skip(2), Map::<Seq<char>, Seq<char>>::empty()) {
            Ok(given) => if args[1] == "prepare"@ {
                prepare_command(given)
            } else {
                stats_command(given)
            },
            Err(message) => Err(message),
        }
    } else {
        Ok(CommandView::Usage)
    }
}

/// The arguments from the third on.
fn arguments_after_command(args: &Vec<String>) -> (result: Vec<String>)
    requires
        args@.len() >= 2,
    ensures
        result.deep_view() == args.deep_view().skip(2),
{
    let mut result: Vec<String> = Vec::new();
    let mut i: usize = 2;
    while i < args.len()
        invariant
            2 <= i <= args@.len(),
            result.deep_view() == args.deep_view().subrange(2, i as int),
        decreases args@.len() - i,
    {
        let ghost before = result.deep_view();
        result.push(args[i].clone());
        assert(result.deep_view() =~= before.push(args.deep_view()[i as int]));
        i = i + 1;
    }
    assert(args.deep_view().subrange(2, i as int) =~= args.deep_view().skip(2));
    result
}

fn prepare_job(given: &TextMap<String>) -> (result: Result<Command, String>)
    requires
        given.wf(),
    ensures
        match result {
            Ok(command) => prepare_command(given@) == Ok::<CommandView, Seq<char>>(command@),
            Err(message) => prepare_command(given@) == Err::<CommandView, Seq<char>>(message@),
        },
{
    let config = match flags::required(given, "config") {
        Ok(value) => value,
        Err(message) => return Err(message),
    };
    let input = match flags::required(given, "input") {
        Ok(value) => value,
        Err(message) => return Err(message),
    };
    let output = match flags::required(given, "output") {
        Ok(value) => value,
        Err(message) => return Err(message),
    };
    Ok(Command::Prepare(PrepareJob { config, input, output, batch_size: batch_size(given) }))
}

/// What the arguments of the program ask for, the first of which is its name.
pub fn command(args: &Vec<String>) -> (result: Result<Command, String>)
    ensures
        match result {
            Ok(command) => command_of(args.deep_view()) == Ok::<CommandView, Seq<char>>(command@),
            Err(message) => command_of(args.deep_view()) == Err::<CommandView, Seq<char>>(message@),
        },
{
    let ghost all = args.deep_view();
    if args.len() < 2 {
        return Ok(Command::Usage);
    }
    assert(all[1] == args@[1]@);
    let preparing = text::same_text(args[1].as_str(), "prepare");
    let counting = text::same_text(args[1].as_str(), "stats");
    if !preparing && !counting {
        return Ok(Command::Usage);
    }
    let rest = arguments_after_command(args);
    let given = match flags::parse_flags(&rest) {
        Ok(given) => given,
        Err(message) => return Err(message),
    };
    if preparing {
        prepare_job(&given)
    } else {
        match flags::required(&given, "index") {
            Ok(index) => Ok(Command::Stats(index)),
            Err(message) => Err(message),
        }
    }
}

/// A document or what was wrong with it, with texts as sequences of characters.
pub open spec fn outcome(result: Result<GeoDocument, String>) -> Result<DocumentView, Seq<char>> {
    match result {
        Ok(document) => Ok(document@),
        Err(message) => Err(message@),
    }
}

pub open spec fn outcomes(results: Seq<Result<GeoDocument, String>>) -> Seq<
    Result<DocumentView, Seq<char>>,
> {
    results.map_values(|result: Result<GeoDocument, String>| outcome(result))
}

/// What is said of a line that is at fault.
pub open spec fn line_message(path: Seq<char>, line_number: nat, message: Seq<char>) -> Seq<char> {
    path + " line "@ + decimal::digits(line_number) + ": "@ + message
}

/// What the first `n` lines after the header give: nothing for a blank line, and else a document or
/// what is wrong with the line. Lines are counted from 1, the header and blank lines included.
pub open spec fn line_documents(
    path: Seq<char>,
    lines: Seq<Seq<char>>,
    numbers: Seq<NumbersView>,
    config: ConfigView,
    n: nat,
) -> Seq<Result<DocumentView, Seq<char>>>
    decreases n,
{
    if n == 0 {
        Seq::<Result<DocumentView, Seq<char>>>::empty()
    } else {
        let before = line_documents(path, lines, numbers, config, (n - 1) as nat);
        let line = lines[n as int];
        if text::trim(line).len() == 0 {
            before
        } else {
            let row = csv::row_of_line(csv::values_of(lines[0]), line);
            before.push(
                match csv::row_document(row, config, numbers[n - 1]) {
                    Ok(document) => Ok(document),
                    Err(message) => Err(line_message(path, n + 1, message)),
                },
            )
        }
    }
}

/// The documents of the lines of a file, given the numbers that the numerals of each line after the
/// header stand for.
pub fn read_csv_documents(
    path: &str,
    lines: &Vec<String>,
    numbers: &Vec<DocumentNumbers>,
    config: &CountryConfig,
) -> (result: Result<Vec<Result<GeoDocument, String>>, String>)
    requires
        lines@.len() > 0 ==> numbers@.len() == lines@.len() - 1,
    ensures
        match result {
            Ok(docs) => lines@.len() > 0 && outcomes(docs@) == line_documents(
                path@,
                lines.deep_view(),
                numbers.deep_view(),
                config@,
                (lines@.len() - 1) as nat,
            ),
            Err(message) => lines@.len() == 0 && message@ == path@ + " is empty"@,
        },
{
    if lines.len() == 0 {
        let mut message = path.to_owned();
        message.append(" is empty");
        return Err(message);
    }
    let ghost all = lines.deep_view();
    let ghost figures = numbers.deep_view();
    let headers = csv::parse_csv_line(lines[0].as_str());
    let mut docs: Vec<Result<GeoDocument, String>> = Vec::new();
    let mut i: usize = 1;
    assert(outcomes(docs@) =~= Seq::<Result<DocumentView, Seq<char>>>::empty());
    while i < lines.len()
        invariant
            1 <= i <= lines@.len(),
            numbers@.len() == lines@.len() - 1,
            all == lines.deep_view(),
            figures == numbers.deep_view(),
            headers.deep_view() == csv::values_of(all[0]),
            outcomes(docs@) == line_documents(path@, all, figures, config@, (i - 1) as nat),
        decreases lines@.len() - i,
    {
        let ghost before = docs@;
        assert(all[i as int] == lines@[i as int]@);
        assert(figures[i - 1] == numbers@[i - 1]@);
        let trimmed = text::trimmed(lines[i].as_str());
        if !trimmed.as_str().is_empty() {
            let row = csv::csv_row(&headers, lines[i].as_str());
            let read = match csv::csv_row_to_document(&row, config, &numbers[i - 1]) {
                Ok(document) => Ok(document),
                Err(error) => {
                    let line_number = decimal::unsigned_text(i as u64 + 1);
                    let mut message = path.to_owned();
                    message.append(" line ");
                    message.append(line_number.as_str());
                    message.append(": ");
                    message.append(error.as_str());
                    Err(message)
                },
            };
            docs.push(read);
            assert(outcomes(docs@) =~= outcomes(before).push(outcome(read)));
        }
        i = i + 1;
    }
    Ok(docs)
}

/// How far the documents of a file have come: the full batches, what is in the batch that is being
/// filled, how many documents lay outside the bounds, and what went wrong.
pub ghost struct PlanView {
    pub full: Seq<Seq<DocumentView>>,
    pub rest: Seq<DocumentView>,
    pub skipped: nat,
    pub failure: Option<Seq<char>>,
}

/// The place of a document.
pub open spec fn place_of(document: DocumentView) -> Point {
    Point { latitude: document.latitude, longitude: document.longitude }
}

/// How far the documents have come: the first failure ends the work, documents outside the bounds
/// are passed over, and the others fill batches of the given size.
pub open spec fn planned(
    docs: Seq<Result<DocumentView, Seq<char>>>,
    bounds: Bounds,
    size: int,
) -> PlanView
    decreases docs.len(),
{
    if docs.len() == 0 {
        PlanView { full: Seq::empty(), rest: Seq::empty(), skipped: 0, failure: None }
    } else {
        let before = planned(docs.drop_last(), bounds, size);
        if before.failure is Some {
            before
        } else {
            match docs.last() {
                Err(message) => PlanView { failure: Some(message), ..before },
                Ok(document) => if !bounds.holds(place_of(document)) {
                    PlanView { skipped: before.skipped + 1, ..before }
                } else if before.rest.len() + 1 >= size {
                    PlanView {
                        full: before.full.push(before.rest.push(document)),
                        rest: Seq::empty(),
                        ..before
                    }
                } else {
                    PlanView { rest: before.rest.push(document), ..before }
                },
            }
        }
    }
}

impl PlanView {
    /// The batches to index: the last one need not be full, and is left out after a failure.
    pub open spec fn batches(self) -> Seq<Seq<DocumentView>> {
        if self.failure is Some || self.rest.len() == 0 {
            self.full
        } else {
            self.full.push(self.rest)
        }
    }
}

/// The batches of documents to index one after another, how many documents they hold, how many
/// documents lie outside the bounds, and what is then to be reported as a failure.
#[derive(Debug)]
pub struct BatchPlan {
    pub batches: Vec<Vec<GeoDocument>>,
    pub imported: u64,
    pub skipped: u64,
    pub failure: Option<String>,
}

/// The documents of all batches, one batch after another.
pub open spec fn together(batches: Seq<Seq<DocumentView>>) -> Seq<DocumentView>
    decreases batches.len(),
{
    if batches.len() == 0 {
        Seq::<DocumentView>::empty()
    } else {
        together(batches.drop_last()) + batches.last()
    }
}

/// What the documents of batches hold.
pub open spec fn batch_views(batches: Seq<Vec<GeoDocument>>) -> Seq<Seq<DocumentView>> {
    batches.map_values(|batch: Vec<GeoDocument>| batch.deep_view())
}

/// A failure stays.
pub proof fn lemma_failure_stays(
    docs: Seq<Result<DocumentView, Seq<char>>>,
    bounds: Bounds,
    size: int,
    i: int,
)
    requires
        0 <= i <= docs.len(),
        planned(docs.take(i), bounds, size).failure is Some,
    ensures
        planned(docs, bounds, size) == planned(docs.take(i), bounds, size),
    decreases docs.len() - i,
{
    if i == docs.len() {
        assert(docs.take(i) =~= docs);
    } else {
        assert(docs.take(i + 1).drop_last() =~= docs.take(i));
        lemma_failure_stays(docs, bounds, size, i + 1);
    }
}

/// The batches to index of the documents that lie in the bounds.
pub fn plan_batches(docs: Vec<Result<GeoDocument, String>>, bounds: &Bounds, size: usize) -> (result:
    BatchPlan)
    requires
        size >= 1,
    ensures
        ({
            let plan = planned(outcomes(docs@), *bounds, size as int);
            &&& batch_views(result.batches@) == plan.batches()
            &&& result.imported == together(plan.batches()).len()
            &&& result.skipped == plan.skipped
            &&& result.failure.deep_view() == plan.failure
        }),
{
    let ghost all = outcomes(docs@);
    let ghost whole = planned(all, *bounds, size as int);
    let mut batches: Vec<Vec<GeoDocument>> = Vec::new();
    let mut batch: Vec<GeoDocument> = Vec::new();
    let mut imported: u64 = 0;
    let mut skipped: u64 = 0;
    assert(all.take(0) =~= Seq::<Result<DocumentView, Seq<char>>>::empty());
    assert(batch_views(batches@) =~= Seq::<Seq<DocumentView>>::empty());
    assert(batch.deep_view() =~= Seq::<DocumentView>::empty());
    let ghost count = docs@.len();
    proof {
        assert(docs.len() <= usize::MAX);
    }
    for document in it: docs
        invariant
            size >= 1,
            it.seq() == docs@,
            count == docs@.len(),
            count <= u64::MAX,
            all == outcomes(docs@),
            whole == planned(all, *bounds, size as int),
            imported + batch@.len() + skipped == it.index(),
            batch@.len() < size,
            ({
                let plan = planned(all.take(it.index() as int), *bounds, size as int);
                &&& plan.failure is None
                &&& batch_views(batches@) == plan.full
                &&& imported == together(plan.full).len()
                &&& batch.deep_view() == plan.rest
                &&& skipped == plan.skipped
            }),
    {
        let ghost i = it.index() as int;
        let ghost before = planned(all.take(i), *bounds, size as int);
        assert(all.take(i + 1).drop_last() =~= all.take(i));
        assert(all.take(i + 1).last() == outcome(document));
        match document {
            Err(message) => {
                proof {
                    lemma_failure_stays(all, *bounds, size as int, i + 1);
                }
                return BatchPlan { batches, imported, skipped, failure: Some(message) };
            },
            Ok(document) => {
                let point = Point { latitude: document.latitude, longitude: document.longitude };
                if !bounds.contains(point) {
                    skipped = skipped + 1;
                } else {
                    batch.push(document);
                    assert(batch.deep_view() =~= before.rest.push(document@));
                    if batch.len() >= size {
                        let ghost earlier = batches@;
                        imported = imported + batch.len() as u64;
                        proof {
                            assert(batch_views(earlier).push(batch.deep_view()).drop_last()
                                =~= batch_views(earlier));
                        }
                        batches.push(batch);
                        assert(batch_views(batches@) =~= batch_views(earlier).push(
                            batch.deep_view(),
                        ));
                        batch = Vec::new();
                        assert(batch.deep_view() =~= Seq::<DocumentView>::empty());
                    }
                }
            },
        }
    }
    assert(all.take(all.len() as int) =~= all);
    if batch.len() > 0 {
        let ghost earlier = batches@;
        imported = imported + batch.len() as u64;
        proof {
            assert(batch_views(earlier).push(batch.deep_view()).drop_last() =~= batch_views(
                earlier,
            ));
        }
        batches.push(batch);
        assert(batch_views(batches@) =~= batch_views(earlier).push(batch.deep_view()));
    }
    BatchPlan { batches, imported, skipped, failure: None }
}

/// What is reported of documents that were indexed.
pub fn prepared_text(imported: u64, output: &str, skipped: u64) -> (result: String)
    ensures
        result@ == "prepared "@ + decimal::digits(imported as nat) + " documents into "@ + output@
            + " (skipped "@ + decimal::digits(skipped as nat) + " outside bounds)"@,
{
    let imported = decimal::unsigned_text(imported);
    let skipped = decimal::unsigned_text(skipped);
    let mut result = "prepared ".to_owned();
    result.append(imported.as_str());
    result.append(" documents into ");
    result.append(output);
    result.append(" (skipped ");
    result.append(skipped.as_str());
    result.append(" outside bounds)");
    result
}

/// What is reported of the number of documents of an index.
pub fn stats_text(count: u64) -> (result: String)
    ensures
        result@ == "documents="@ + decimal::digits(count as nat),
{
    let count = decimal::unsigned_text(count);
    let mut result = "documents=".to_owned();
    result.append(count.as_str());
    result
}

} // verus!
