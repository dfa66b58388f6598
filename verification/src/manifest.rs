//! The manifest: which runs are live, and in what order.
//!
//! It is a text of lines: `LSMDB-MANIFEST v1`, then `next_seq=` with the next sequence
//! number to hand out, then the live run files, newest first. Run files are named
//! `run-<seq>.sst`, with the sequence number padded to ten digits.
use vstd::prelude::*;
use vstd::string::*;
use crate::error::{Error, Result};
use crate::text;

verus! {

/// The live run list and the sequence counter.
#[derive(Debug)]
pub struct Manifest {
    /// The next run sequence number to allocate.
    pub next_seq: u64,
    /// Live run file names, newest first.
    pub runs: Vec<String>,
}

/// The value of a [`Manifest`].
pub struct RunList {
    /// The next run sequence number to allocate.
    pub next_seq: u64,
    /// Live run file names, newest first.
    pub runs: Seq<Seq<char>>,
}

/// The views of some names.
pub open spec fn names(runs: Seq<String>) -> Seq<Seq<char>> {
    runs.map_values(|r: String| r@)
}

impl View for Manifest {
    type V = RunList;

    open spec fn view(&self) -> RunList {
        RunList { next_seq: self.next_seq, runs: names(self.runs@) }
    }
}

/// The lines that are not empty, in order.
pub open spec fn nonempty(ls: Seq<Seq<char>>) -> Seq<Seq<char>>
    decreases ls.len(),
{
    if ls.len() == 0 {
        seq![]
    } else if ls.last().len() == 0 {
        nonempty(ls.drop_last())
    } else {
        nonempty(ls.drop_last()).push(ls.last())
    }
}

/// The sequence number that the second line of a manifest gives.
pub open spec fn next_seq_of(line: Seq<char>) -> Option<u64> {
    match text::without_prefix(line, "next_seq="@) {
        Some(number) => text::parsed_u64(number),
        None => None,
    }
}

/// What a manifest text says, or the first fault in it.
pub open spec fn manifest_of(content: Seq<char>) -> Result<RunList> {
    let ls = text::lines(content);
    if ls.len() == 0 || ls[0] != "LSMDB-MANIFEST v1"@ {
        Err(Error::Corruption { reason: "manifest header missing or unrecognised" })
    } else if ls.len() == 1 {
        Err(Error::Corruption { reason: "manifest truncated" })
    } else {
        match next_seq_of(ls[1]) {
            None => Err(Error::Corruption { reason: "manifest next_seq line malformed" }),
            Some(next_seq) => Ok(RunList { next_seq, runs: nonempty(ls.skip(2)) }),
        }
    }
}

/// Lines, each closed by a newline.
pub open spec fn closed_lines(ls: Seq<Seq<char>>) -> Seq<char>
    decreases ls.len(),
{
    if ls.len() == 0 {
        seq![]
    } else {
        closed_lines(ls.drop_last()) + ls.last().push('\n')
    }
}

/// The text of a manifest.
pub open spec fn manifest_text(list: RunList) -> Seq<char> {
    "LSMDB-MANIFEST v1"@.push('\n') + ("next_seq="@ + text::decimal(list.next_seq as nat)).push('\n')
        + closed_lines(list.runs)
}

/// The text is a single line, and not an empty one.
pub open spec fn line_safe(name: Seq<char>) -> bool {
    name.len() > 0 && !name.contains('\n') && !name.contains('\r')
}

impl Manifest {
    /// Reads the manifest from its text; `None` stands for a store that has none yet.
    pub fn load(content: Option<&str>) -> (manifest: Result<Option<Manifest>>)
        ensures
            match content {
                None => manifest matches Ok(None),
                Some(t) => match manifest {
                    Ok(Some(m)) => manifest_of(t@) == Ok::<RunList, Error>(m@),
                    Ok(None) => false,
                    Err(e) => manifest_of(t@) == Err::<RunList, Error>(e),
                },
            },
    {
        let content = match content {
            None => {
                return Ok(None);
            },
            Some(t) => t,
        };
        let ls = text::split_lines(&text::chars_of(content));
        let ghost views = text::line_views(ls@);
        assert(views.len() == ls@.len());
        if ls.len() == 0 || !text::is_text(&ls[0], "LSMDB-MANIFEST v1") {
            return Err(Error::corruption("manifest header missing or unrecognised"));
        }
        if ls.len() == 1 {
            return Err(Error::corruption("manifest truncated"));
        }
        let next_seq: u64 = match text::strip_prefix(&ls[1], "next_seq=") {
            None => {
                return Err(Error::corruption("manifest next_seq line malformed"));
            },
            Some(number) => match text::parse_u64(&number) {
                None => {
                    return Err(Error::corruption("manifest next_seq line malformed"));
                },
                Some(n) => n,
            },
        };
        let mut runs: Vec<String> = Vec::new();
        let mut i: usize = 2;
        let ghost tail = views.skip(2);
        assert(tail.take(0) =~= seq![]);
        assert(names(runs@) =~= seq![]);
        while i < ls.len()
            invariant
                2 <= i <= ls@.len(),
                views == text::line_views(ls@),
                tail == views.skip(2),
                names(runs@) == nonempty(tail.take(i - 2)),
            decreases ls@.len() - i,
        {
            proof {
                assert(tail.take(i - 1).drop_last() =~= tail.take(i - 2));
                assert(tail.take(i - 1).last() == ls@[i as int]@);
            }
            let ghost before = runs@;
            if ls[i].len() > 0 {
                runs.push(text::string_of(&ls[i]));
                assert(names(runs@) =~= names(before).push(ls@[i as int]@));
            }
            i += 1;
        }
        assert(tail.take(i - 2) =~= tail);
        Ok(Some(Manifest { next_seq, runs }))
    }

    /// The text to store for a run list.
    pub fn store(next_seq: u64, runs: &Vec<String>) -> (content: String)
        ensures
            content@ == manifest_text(RunList { next_seq, runs: names(runs@) }),
    {
        let mut body: Vec<char> = text::chars_of("LSMDB-MANIFEST v1");
        body.push('\n');
        let mut second: Vec<char> = text::chars_of("next_seq=");
        text::push_decimal(&mut second, next_seq);
        second.push('\n');
        body.extend_from_slice(second.as_slice());
        let ghost head = body@;
        let ghost all = names(runs@);
        let mut i: usize = 0;
        assert(all.take(0) =~= seq![]);
        assert(body@ =~= head + closed_lines(all.take(0)));
        while i < runs.len()
            invariant
                i <= runs@.len(),
                all == names(runs@),
                body@ == head + closed_lines(all.take(i as int)),
            decreases runs@.len() - i,
        {
            let mut line = text::chars_of(runs[i].as_str());
            line.push('\n');
            body.extend_from_slice(line.as_slice());
            proof {
                assert(all.take(i + 1).drop_last() =~= all.take(i as int));
                assert(all.take(i + 1).last() == runs@[i as int]@);
                assert(body@ =~= head + closed_lines(all.take(i + 1)));
            }
            i += 1;
        }
        assert(all.take(i as int) =~= all);
        assert(body@ =~= manifest_text(RunList { next_seq, runs: all }));
        text::string_of(&body)
    }
}

/// The file name of the run with sequence number `seq`.
pub open spec fn run_name(seq: u64) -> Seq<char> {
    "run-"@ + text::padded(seq as nat) + ".sst"@
}

/// The sequence number in a run file name, if it is one.
pub open spec fn seq_in(name: Seq<char>) -> Option<u64> {
    match text::without_prefix(name, "run-"@) {
        None => None,
        Some(rest) => match text::without_suffix(rest, ".sst"@) {
            None => None,
            Some(number) => text::parsed_u64(number),
        },
    }
}

/// The file name of the run with sequence number `seq`.
pub fn run_filename(seq: u64) -> (name: String)
    ensures
        name@ == run_name(seq),
{
    let mut name: Vec<char> = text::chars_of("run-");
    text::push_padded(&mut name, seq);
    let suffix = text::chars_of(".sst");
    name.extend_from_slice(suffix.as_slice());
    assert(name@ =~= run_name(seq));
    text::string_of(&name)
}

/// Extracts the sequence number from a run file name, if it is one.
pub fn seq_of(name: &str) -> (seq: Option<u64>)
    ensures
        seq == seq_in(name@),
{
    match text::strip_prefix(&text::chars_of(name), "run-") {
        None => None,
        Some(rest) => match text::strip_suffix(&rest, ".sst") {
            None => None,
            Some(number) => text::parse_u64(&number),
        },
    }
}

/// The sequence number is read back from the name of its run.
pub proof fn lemma_run_name_roundtrip(seq: u64)
    ensures
        seq_in(run_name(seq)) == Some(seq),
{
    let digits = text::padded(seq as nat);
    let name = run_name(seq);
    text::lemma_parse_decimal(seq);
    assert(name.take("run-"@.len() as int) =~= "run-"@);
    let rest = name.skip("run-"@.len() as int);
    assert(rest =~= digits + ".sst"@);
    assert(rest.skip(rest.len() - ".sst"@.len()) =~= ".sst"@);
    assert(rest.take(rest.len() - ".sst"@.len()) =~= digits);
}

/// Different sequence numbers give different run names.
pub proof fn lemma_run_name_injective(a: u64, b: u64)
    requires
        run_name(a) == run_name(b),
    ensures
        a == b,
{
    lemma_run_name_roundtrip(a);
    lemma_run_name_roundtrip(b);
}

/// A run name is a single line.
pub proof fn lemma_run_name_safe(seq: u64)
    ensures
        line_safe(run_name(seq)),
{
    reveal_strlit("run-");
    reveal_strlit(".sst");
    text::lemma_parse_decimal(seq);
    let digits = text::padded(seq as nat);
    let name = run_name(seq);
    assert forall|i: int| 0 <= i < name.len() implies #[trigger] name[i] != '\n' && name[i]
        != '\r' by {
        if 4 <= i < 4 + digits.len() {
            assert(name[i] == digits[i - 4]);
        } else if i < 4 {
            assert(name[i] == "run-"@[i]);
        } else {
            assert(name[i] == ".sst"@[i - 4 - digits.len()]);
        }
    }
}

/// The lines of closed lines are those lines.
proof fn lemma_closed_lines(ls: Seq<Seq<char>>, k: int)
    requires
        0 <= k <= ls.len(),
        forall|i: int| 0 <= i < ls.len() ==> line_safe(#[trigger] ls[i]),
    ensures
        text::lines(closed_lines_from(ls, k)) == ls.skip(k),
    decreases ls.len() - k,
{
    if k == ls.len() {
        assert(ls.skip(k) =~= seq![]);
        assert(text::lines(seq![]) =~= seq![]);
    } else {
        lemma_closed_lines(ls, k + 1);
        assert(line_safe(ls[k]));
        text::lemma_lines_cons(ls[k], closed_lines_from(ls, k + 1));
        assert(seq![ls[k]] + ls.skip(k + 1) =~= ls.skip(k));
    }
}

/// The lines from the `k`-th one on, each closed by a newline.
spec fn closed_lines_from(ls: Seq<Seq<char>>, k: int) -> Seq<char>
    decreases ls.len() - k,
{
    if k >= ls.len() {
        seq![]
    } else {
        ls[k].push('\n') + closed_lines_from(ls, k + 1)
    }
}

/// Closing lines one after the other gives the same text from either end.
proof fn lemma_closed_lines_split(ls: Seq<Seq<char>>, k: int)
    requires
        0 <= k <= ls.len(),
    ensures
        closed_lines(ls) == closed_lines(ls.take(k)) + closed_lines_from(ls, k),
    decreases ls.len() - k,
{
    if k == ls.len() {
        assert(ls.take(k) =~= ls);
        assert(closed_lines(ls) + seq![] =~= closed_lines(ls));
    } else {
        lemma_closed_lines_split(ls, k + 1);
        assert(ls.take(k + 1).drop_last() =~= ls.take(k));
        assert(ls.take(k + 1).last() == ls[k]);
        assert(closed_lines(ls.take(k + 1)) + closed_lines_from(ls, k + 1) =~= closed_lines(
            ls.take(k),
        ) + closed_lines_from(ls, k));
    }
}

/// Lines that are not empty are all kept.
proof fn lemma_nonempty_all(ls: Seq<Seq<char>>)
    requires
        forall|i: int| 0 <= i < ls.len() ==> (#[trigger] ls[i]).len() > 0,
    ensures
        nonempty(ls) == ls,
    decreases ls.len(),
{
    if ls.len() > 0 {
        let d = ls.drop_last();
        assert forall|i: int| 0 <= i < d.len() implies (#[trigger] d[i]).len() > 0 by {
            assert(d[i] == ls[i]);
        }
        lemma_nonempty_all(d);
        assert(ls.last() == ls[ls.len() - 1]);
        assert(d.push(ls.last()) =~= ls);
    } else {
        assert(nonempty(ls) =~= ls);
    }
}

/// A stored manifest is loaded back: the sequence number and the runs, in order.
pub proof fn lemma_manifest_roundtrip(list: RunList)
    requires
        forall|i: int| 0 <= i < list.runs.len() ==> line_safe(#[trigger] list.runs[i]),
    ensures
        manifest_of(manifest_text(list)) == Ok::<RunList, Error>(list),
{
    reveal_strlit("LSMDB-MANIFEST v1");
    reveal_strlit("next_seq=");
    let first = "LSMDB-MANIFEST v1"@;
    let number = text::decimal(list.next_seq as nat);
    let second = "next_seq="@ + number;
    let rest = closed_lines(list.runs);
    text::lemma_parse_decimal(list.next_seq);
    assert(!second.contains('\n') && !second.contains('\r')) by {
        assert forall|i: int| 0 <= i < second.len() implies #[trigger] second[i] != '\n'
            && second[i] != '\r' by {
            if i >= 9 {
                assert(second[i] == number[i - 9]);
            } else {
                assert(second[i] == "next_seq="@[i]);
            }
        }
    }
    assert(!first.contains('\n') && !first.contains('\r')) by {
        assert forall|i: int| 0 <= i < first.len() implies #[trigger] first[i] != '\n' && first[i]
            != '\r' by {}
    }
    let tail = second.push('\n') + rest;
    assert(manifest_text(list) =~= first.push('\n') + tail);
    text::lemma_lines_cons(first, tail);
    text::lemma_lines_cons(second, rest);
    lemma_closed_lines_split(list.runs, 0);
    assert(list.runs.take(0) =~= seq![]);
    assert(rest =~= closed_lines_from(list.runs, 0));
    lemma_closed_lines(list.runs, 0);
    assert(list.runs.skip(0) =~= list.runs);
    let ls = text::lines(manifest_text(list));
    assert(ls =~= seq![first, second] + list.runs);
    assert(second.take("next_seq="@.len() as int) =~= "next_seq="@);
    assert(second.skip("next_seq="@.len() as int) =~= number);
    assert(ls.skip(2) =~= list.runs);
    lemma_nonempty_all(list.runs);
}

} // verus!
