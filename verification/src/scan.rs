//! The decisions of a scan.
//!
//! Walking a directory tree and reading metadata is the caller's work. What
//! to do with each thing the walk turns up is decided here: the caller
//! reports an event, the scan updates its state and answers with what the
//! caller is to do next.

use crate::model::TrackerState;
use crate::tracker::FileSizes;
use vstd::prelude::*;
use vstd::string::StrSliceExecFns;

verus! {

/// What the walk reports.
#[derive(Debug)]
pub enum WalkEvent {
    /// The walk came upon an entry with this file name. `is_dir` says
    /// whether it is a directory, `is_root` whether it is one of the
    /// directories that the scan was asked to walk.
    Found { file_name: String, is_dir: bool, is_root: bool },
    /// The metadata of the entry last found was read: whether it is a
    /// regular file, its size in bytes, and its path.
    Sized { is_file: bool, size: usize, path: String },
    /// The metadata of the entry last found could not be read.
    Unreadable,
    /// The walk could not produce an entry.
    Failed,
}

/// What the caller is to do next.
#[derive(Clone, Copy, Debug, PartialEq, Eq, Structural)]
pub enum Action {
    /// Read the metadata of the entry just found and report it.
    ReadMetadata,
    /// Go on to the next entry.
    NextEntry,
    /// Go on to the next entry that does not lie below the one just found.
    SkipSubtree,
}

/// Whether a file name marks a hidden entry: it begins with a period.
pub open spec fn is_hidden_name(file_name: Seq<char>) -> bool {
    file_name.len() > 0 && file_name[0] == '.'
}

/// What a scan has come to know: the tracker, whether hidden entries are
/// passed over, and how many entries could not be produced or read.
pub struct ScanState {
    pub tracker: TrackerState,
    pub skip_hidden: bool,
    pub errors: int,
}

impl ScanState {
    /// The state after `event`.
    ///
    /// The metadata of a regular file feeds the tracker. An entry that the
    /// walk could not produce, and one whose metadata could not be read, are
    /// each counted as an error. Nothing else changes the state.
    pub open spec fn after(self, event: WalkEvent) -> ScanState {
        match event {
            WalkEvent::Sized { is_file: true, size, path } => ScanState {
                tracker: self.tracker.add(size, path@),
                ..self
            },
            WalkEvent::Failed | WalkEvent::Unreadable => ScanState {
                errors: self.errors + 1,
                ..self
            },
            _ => self,
        }
    }

    /// Whether an entry found is passed over as hidden: hidden entries are
    /// to be skipped, its name marks it as hidden, and it is not a root. A
    /// root is walked whatever its name, since it was asked for.
    pub open spec fn passes_over(self, file_name: Seq<char>, is_root: bool) -> bool {
        self.skip_hidden && !is_root && is_hidden_name(file_name)
    }

    /// The answer to `event`: metadata is asked for when an entry is found,
    /// unless the entry is passed over as hidden. A hidden directory is
    /// passed over together with everything below it.
    pub open spec fn answer(self, event: WalkEvent) -> Action {
        match event {
            WalkEvent::Found { file_name, is_dir, is_root } => if self.passes_over(
                file_name@,
                is_root,
            ) {
                if is_dir {
                    Action::SkipSubtree
                } else {
                    Action::NextEntry
                }
            } else {
                Action::ReadMetadata
            },
            _ => Action::NextEntry,
        }
    }
}

/// Which of the roots to refuse: `present` says of each root, in the order
/// given, whether it is a directory. A scan starts only if every root is
/// one, so the first that is not is named before anything is walked.
pub open spec fn first_missing(present: Seq<bool>, at: int) -> bool {
    &&& 0 <= at < present.len()
    &&& !present[at]
    &&& forall|i: int| 0 <= i < at ==> present[i]
}

/// The index of the first root that is not a directory, if there is one.
pub fn missing_root(present: &Vec<bool>) -> (missing: Option<usize>)
    ensures
        match missing {
            Some(at) => first_missing(present@, at as int),
            None => forall|i: int| 0 <= i < present@.len() ==> present@[i],
        },
{
    let mut at: usize = 0;
    while at < present.len()
        invariant
            0 <= at <= present@.len(),
            forall|i: int| 0 <= i < at ==> present@[i],
        decreases present@.len() - at,
    {
        if !present[at] {
            return Some(at);
        }
        at += 1;
    }
    None
}

/// Whether `file_name` marks a hidden entry.
pub fn is_hidden(file_name: &str) -> (hidden: bool)
    ensures
        hidden == is_hidden_name(file_name@),
{
    file_name.unicode_len() > 0 && file_name.get_char(0) == '.'
}

/// A scan in progress.
pub struct Scan {
    files: FileSizes,
    skip_hidden: bool,
    errors: i32,
}

impl View for Scan {
    type V = ScanState;

    closed spec fn view(&self) -> ScanState {
        ScanState { tracker: self.files@, skip_hidden: self.skip_hidden, errors: self.errors as int }
    }
}

impl Scan {
    /// The tracker is in order and the tally is a count.
    pub closed spec fn wf(&self) -> bool {
        self.files.wf() && self.errors >= 0
    }

    /// A scan that is to report the files of the `numfiles` largest sizes
    /// and has seen nothing yet.
    pub fn new(numfiles: usize, skip_hidden: bool) -> (scan: Scan)
        ensures
            scan.wf(),
            scan@ == (ScanState {
                tracker: TrackerState::empty(numfiles as nat),
                skip_hidden,
                errors: 0,
            }),
    {
        Scan { files: FileSizes::new(numfiles), skip_hidden, errors: 0 }
    }

    /// Takes note of `event` and says what to do next.
    ///
    /// The tally of errors is kept in an `i32`, so an error can be noted
    /// only while the tally is below `i32::MAX`.
    pub fn step(&mut self, event: WalkEvent) -> (action: Action)
        requires
            old(self).wf(),
            (event is Failed || event is Unreadable) ==> old(self)@.errors < i32::MAX,
        ensures
            final(self).wf(),
            final(self)@ == old(self)@.after(event),
            action == old(self)@.answer(event),
    {
        match event {
            WalkEvent::Found { file_name, is_dir, is_root } => {
                if self.skip_hidden && !is_root && is_hidden(file_name.as_str()) {
                    if is_dir {
                        Action::SkipSubtree
                    } else {
                        Action::NextEntry
                    }
                } else {
                    Action::ReadMetadata
                }
            },
            WalkEvent::Sized { is_file, size, path } => {
                if is_file {
                    self.files.add_file(size, path.as_str());
                }
                Action::NextEntry
            },
            WalkEvent::Unreadable | WalkEvent::Failed => {
                self.errors = self.errors + 1;
                Action::NextEntry
            },
        }
    }

    /// The tracker with the files retained so far.
    pub fn files(&self) -> (files: &FileSizes)
        requires
            self.wf(),
        ensures
            files.wf(),
            files@ == self@.tracker,
    {
        &self.files
    }

    /// How many errors were noted: the status to exit with.
    pub fn exit_code(&self) -> (code: i32)
        ensures
            code == self@.errors,
    {
        self.errors
    }
}

} // verus!
