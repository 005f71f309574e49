//! The report: one line per retained file, grouped by size.
//!
//! Each group opens with a line that holds the size, written for people and
//! set flush right in a column of ten, and the group's first path. Every
//! further path of the group follows on a line of its own, indented past
//! that column.

use crate::grouping::paths_view;
use crate::model::is_listing;
use crate::tracker::{report_view, FileSizes, SizeGroup};
use humansize::{format_size, BINARY, DECIMAL};
use vstd::prelude::*;
use vstd::string::{StrSliceExecFns, StringExecFns};

verus! {

/// A size in bytes as people write it, such as `1.50 KiB` in units of 1024
/// or, where `decimal` is set, `1.54 kB` in units of 1000.
pub uninterp spec fn formatted_size(size: usize, decimal: bool) -> Seq<char>;

/// `humansize::format_size` with that crate's `BINARY` options. Its text
/// depends on the size and the options alone; what the text is, is left to
/// that crate.
#[verifier::external_body]
pub(crate) fn format_binary(size: usize) -> (text: String)
    ensures
        text@ == formatted_size(size, false),
{
    format_size(size, BINARY)
}

/// `humansize::format_size` with that crate's `DECIMAL` options. Its text
/// depends on the size and the options alone; what the text is, is left to
/// that crate.
#[verifier::external_body]
pub(crate) fn format_decimal(size: usize) -> (text: String)
    ensures
        text@ == formatted_size(size, true),
{
    format_size(size, DECIMAL)
}

/// A run of `n` blanks.
pub open spec fn blanks(n: nat) -> Seq<char> {
    Seq::new(n, |i: int| ' ')
}

/// `text` set flush right in a column of `width`: blanks are put before it
/// until it is `width` characters long; a longer text stays as it is.
pub open spec fn flush_right(text: Seq<char>, width: nat) -> Seq<char> {
    if text.len() >= width {
        text
    } else {
        blanks((width - text.len()) as nat) + text
    }
}

/// The width of the size column.
pub const SIZE_COLUMN: usize = 10;

/// What is put before a path that follows the first of its group.
pub open spec fn indent() -> Seq<char> {
    flush_right(seq![' '], (SIZE_COLUMN + 1) as nat)
}

/// The lines for one group: `label` is the size as it is to be shown.
pub open spec fn group_text(label: Seq<char>, paths: Seq<Seq<char>>) -> Seq<Seq<char>> {
    if paths.len() == 0 {
        Seq::empty()
    } else {
        seq![flush_right(label, SIZE_COLUMN as nat) + seq![' '] + paths[0]] + paths.skip(
            1,
        ).map_values(|p: Seq<char>| indent() + p)
    }
}

/// The lines for a listing of groups, group after group.
pub open spec fn report_text(listing: Seq<(usize, Seq<Seq<char>>)>, decimal: bool) -> Seq<
    Seq<char>,
>
    decreases listing.len(),
{
    if listing.len() == 0 {
        Seq::empty()
    } else {
        report_text(listing.drop_last(), decimal) + group_text(
            formatted_size(listing.last().0, decimal),
            listing.last().1,
        )
    }
}

/// Sets `text` flush right in a column of `width`.
pub fn pad_left(text: &str, width: usize) -> (padded: String)
    ensures
        padded@ == flush_right(text@, width as nat),
{
    let len = text.unicode_len();
    let mut padded = String::new();
    let mut at: usize = len;
    while at < width
        invariant
            len == text@.len(),
            len <= at,
            at <= width || at == len,
            padded@ == blanks((at - len) as nat),
        decreases width - at,
    {
        proof {
            reveal_strlit(" ");
        }
        padded.append(" ");
        at += 1;
        assert(padded@ =~= blanks((at - len) as nat));
    }
    padded.append(text);
    assert(padded@ =~= flush_right(text@, width as nat));
    padded
}

/// The lines that show one group under the size label `label`.
pub fn group_lines(label: &str, paths: &Vec<String>) -> (lines: Vec<String>)
    requires
        paths@.len() > 0,
    ensures
        paths_view(lines@) == group_text(label@, paths_view(paths@)),
{
    let mut lines: Vec<String> = Vec::new();
    let mut head = pad_left(label, SIZE_COLUMN);
    proof {
        reveal_strlit(" ");
    }
    head.append(" ");
    head.append(paths[0].as_str());
    lines.push(head);
    let ghost expected = group_text(label@, paths_view(paths@));
    proof {
        assert(" "@ =~= seq![' ']);
        assert(paths_view(paths@)[0] == paths@[0]@);
        assert(expected.len() == paths@.len());
        assert(head@ =~= expected[0]);
        assert(paths_view(lines@) =~= expected.take(1));
    }
    let mut i: usize = 1;
    while i < paths.len()
        invariant
            1 <= i <= paths@.len(),
            expected == group_text(label@, paths_view(paths@)),
            paths_view(lines@) == expected.take(i as int),
        decreases paths@.len() - i,
    {
        let mut line = pad_left(" ", SIZE_COLUMN + 1);
        line.append(paths[i].as_str());
        proof {
            reveal_strlit(" ");
            assert(" "@ =~= seq![' ']);
            assert(expected.len() == paths@.len());
            assert(paths_view(paths@).skip(1)[i - 1] == paths@[i as int]@);
            assert(line@ =~= expected[i as int]);
        }
        let ghost shown = lines@;
        lines.push(line);
        i += 1;
        proof {
            assert(paths_view(shown.push(line)) =~= paths_view(shown).push(line@));
            assert(expected.take(i as int) =~= expected.take(i - 1).push(expected[i - 1]));
        }
    }
    assert(expected.take(i as int) =~= expected);
    lines
}

/// The lines that show `groups`, each size written in units of 1000 where
/// `gigabyte` is set and of 1024 otherwise.
pub fn render(groups: &Vec<SizeGroup>, gigabyte: bool) -> (lines: Vec<String>)
    requires
        forall|i: int| 0 <= i < groups@.len() ==> (#[trigger] groups@[i]).paths@.len() > 0,
    ensures
        paths_view(lines@) == report_text(report_view(groups@), gigabyte),
{
    let mut lines: Vec<String> = Vec::new();
    let ghost listing = report_view(groups@);
    let mut i: usize = 0;
    assert(paths_view(lines@) =~= report_text(listing.take(0), gigabyte));
    while i < groups.len()
        invariant
            0 <= i <= groups@.len(),
            listing == report_view(groups@),
            forall|j: int| 0 <= j < groups@.len() ==> (#[trigger] groups@[j]).paths@.len() > 0,
            paths_view(lines@) == report_text(listing.take(i as int), gigabyte),
        decreases groups@.len() - i,
    {
        let label = if gigabyte {
            format_decimal(groups[i].size)
        } else {
            format_binary(groups[i].size)
        };
        let mut part = group_lines(label.as_str(), &groups[i].paths);
        let ghost before = lines@;
        let ghost added = part@;
        lines.append(&mut part);
        i += 1;
        proof {
            let upto = listing.take(i as int);
            assert(upto.drop_last() =~= listing.take(i - 1));
            assert(upto.last() == groups@[i - 1]@);
            assert(paths_view(before + added) =~= paths_view(before) + paths_view(added));
        }
    }
    assert(listing.take(i as int) =~= listing);
    lines
}

impl FileSizes {
    /// The report on the retained files, ready to be printed line by line.
    pub fn show_results(&self, gigabyte: bool) -> (lines: Vec<String>)
        requires
            self.wf(),
        ensures
            exists|listing: Seq<(usize, Seq<Seq<char>>)>|
                is_listing(listing, self@.groups) && paths_view(lines@) == report_text(
                    listing,
                    gigabyte,
                ),
    {
        let groups = self.results();
        proof {
            self.lemma_wf_view();
            assert forall|i: int| 0 <= i < groups@.len() implies (
            #[trigger] groups@[i]).paths@.len() > 0 by {
                let l = report_view(groups@);
                assert(self@.groups.contains_key(l[i].0));
                assert(self@.groups[l[i].0].len() > 0);
            }
        }
        render(&groups, gigabyte)
    }
}

} // verus!
