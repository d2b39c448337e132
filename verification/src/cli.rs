//! What the command line asks for.

use vstd::prelude::*;
use vstd::string::*;

use crate::text;

verus! {

/// What a line of the prompt asks for.
#[derive(Debug)]
pub enum ReplCommand {
    /// Leave.
    Exit,
    /// Nothing.
    Nothing,
    /// Make a table known under a name.
    Register { name: String, uri: String },
    /// Run a query.
    Query(String),
}

/// A line that registers a table: the word, a name and an address.
pub open spec fn registers(line: Seq<char>) -> bool {
    &&& text::occurs_at(text::lowered(line), "register "@, 0)
    &&& text::words(line).len() == 3
}

/// What a line asks for, its ends cut off.
pub open spec fn asks(r: ReplCommand, line: Seq<char>) -> bool {
    let word = text::lowered(line);
    if word == "exit"@ || word == "quit"@ {
        r is Exit
    } else if line.len() == 0 {
        r is Nothing
    } else if registers(line) {
        r matches ReplCommand::Register { name, uri } && name@ == text::words(line)[1] && uri@
            == text::words(line)[2]
    } else {
        r matches ReplCommand::Query(q) && q@ == line
    }
}

/// What a line of the prompt asks for.
pub fn read_line(line: &str) -> (r: ReplCommand)
    ensures
        asks(r, text::trimmed(line@)),
{
    let line: String = text::trim(line);
    let lower: String = text::ascii_lowercase(line.as_str());
    if text::same(lower.as_str(), "exit") || text::same(lower.as_str(), "quit") {
        return ReplCommand::Exit;
    }
    if line.as_str().unicode_len() == 0 {
        return ReplCommand::Nothing;
    }
    if text::starts_with(lower.as_str(), "register ") {
        let mut words: Vec<String> = text::split_words(line.as_str());
        if words.len() == 3 {
            proof {
                assert(text::texts(words@)[1] == words@[1]@);
                assert(text::texts(words@)[2] == words@[2]@);
            }
            let uri: String = words.remove(2);
            let name: String = words.remove(1);
            return ReplCommand::Register { name, uri };
        }
    }
    ReplCommand::Query(line)
}

/// How files are taken in.
#[derive(Debug)]
pub enum IngestMode {
    /// Units are shared with other machines, under a lease of so many seconds.
    Coordinated { lease_secs: u64 },
    /// One range of rows of a file.
    Range { path: String, start: usize, end: usize },
    /// All files.
    All,
}

/// Decides how files are taken in. A range of rows is of the first file, and a
/// lease is at least a second.
pub fn ingest_mode(
    coordinate: bool,
    lease_secs: u64,
    row_start: Option<usize>,
    row_end: Option<usize>,
    input: &Vec<String>,
) -> (r: Result<IngestMode, String>)
    ensures
        match r {
            Ok(IngestMode::Coordinated { lease_secs: secs }) => coordinate && secs == if lease_secs
                < 1 {
                1
            } else {
                lease_secs
            },
            Ok(IngestMode::Range { path, start, end }) => !coordinate && row_start == Some(start)
                && row_end == Some(end) && input@.len() > 0 && path@ == input@[0]@,
            Ok(IngestMode::All) => !coordinate && (row_start is None || row_end is None),
            Err(e) => !coordinate && row_start is Some && row_end is Some && input@.len() == 0
                && e@ == "--row-start/--row-end require --input"@,
        },
{
    if coordinate {
        let lease_secs: u64 = if lease_secs < 1 {
            1
        } else {
            lease_secs
        };
        return Ok(IngestMode::Coordinated { lease_secs });
    }
    match (row_start, row_end) {
        (Some(start), Some(end)) => {
            if input.len() == 0 {
                Err("--row-start/--row-end require --input".to_owned())
            } else {
                Ok(IngestMode::Range { path: input[0].clone(), start, end })
            }
        },
        _ => Ok(IngestMode::All),
    }
}

/// The sum of numbers.
pub open spec fn sum_of(list: Seq<usize>) -> nat
    decreases list.len(),
{
    if list.len() == 0 {
        0
    } else {
        sum_of(list.drop_last()) + list.last() as nat
    }
}

proof fn lemma_sum_grows(list: Seq<usize>, n: int)
    requires
        0 <= n <= list.len(),
    ensures
        sum_of(list.take(n)) <= sum_of(list),
    decreases list.len(),
{
    if n < list.len() {
        assert(list.drop_last().take(n) =~= list.take(n));
        lemma_sum_grows(list.drop_last(), n);
    } else {
        assert(list.take(n) =~= list);
    }
}

/// How many rows the parts of a result have in all.
pub fn total_rows(counts: &Vec<usize>) -> (r: usize)
    requires
        sum_of(counts@) <= usize::MAX,
    ensures
        r == sum_of(counts@),
{
    let mut sum: usize = 0;
    let mut i: usize = 0;
    assert(counts@.take(0) =~= Seq::<usize>::empty());
    while i < counts.len()
        invariant
            i <= counts.len(),
            sum_of(counts@) <= usize::MAX,
            sum == sum_of(counts@.take(i as int)),
        decreases counts.len() - i,
    {
        proof {
            assert(counts@.take(i + 1).drop_last() =~= counts@.take(i as int));
            lemma_sum_grows(counts@, i + 1);
        }
        sum = sum + counts[i];
        i = i + 1;
    }
    assert(counts@.take(i as int) =~= counts@);
    sum
}

/// The total is the same whichever way the counts are split.
pub proof fn law_totals_add_up(a: Seq<usize>, b: Seq<usize>)
    ensures
        sum_of(a + b) == sum_of(a) + sum_of(b),
        sum_of(Seq::empty()) == 0,
        forall|n: usize| #[trigger] sum_of(seq![n]) == n,
    decreases b.len(),
{
    assert forall|n: usize| #[trigger] sum_of(seq![n]) == n by {
        assert(seq![n].drop_last() =~= Seq::<usize>::empty());
        assert(sum_of(Seq::<usize>::empty()) == 0);
    }
    if b.len() == 0 {
        assert(a + b =~= a);
    } else {
        law_totals_add_up(a, b.drop_last());
        assert((a + b).drop_last() =~= a + b.drop_last());
    }
}

/// A line that leaves is spelt in whatever case; an empty line does nothing; a line of three
/// words of which the first is `register` registers the third under the second; and any other
/// line is a query. A line asks for one thing.
pub proof fn law_lines_ask_for_one_thing(line: Seq<char>, a: ReplCommand, b: ReplCommand)
    requires
        asks(a, line),
        asks(b, line),
    ensures
        text::lowered(line) == "exit"@ || text::lowered(line) == "quit"@ ==> a is Exit,
        a is Exit <==> b is Exit,
        a is Nothing <==> line.len() == 0,
        a matches ReplCommand::Query(q) ==> b matches ReplCommand::Query(p) && q@ == p@ && q@
            == line,
        a matches ReplCommand::Register { name, uri } ==> text::words(line).len() == 3 && name@
            == text::words(line)[1] && uri@ == text::words(line)[2] && !(b is Query),
{
    reveal_strlit("exit");
    reveal_strlit("quit");
    assert(text::lowered(line).len() == line.len());
}

} // verus!
