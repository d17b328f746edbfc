use vstd::prelude::*;
use vstd::string::StringExecFns;
use crate::config::ScanConfig;
use crate::error::ImportError;
use crate::filter::{
    any_fault, filter_fault_text, participates, takes_part, EntryKind, FilterRuleView,
};
use crate::resolve::texts;

verus! {

/// One entry of a directory, as it was read: its path and whether it is a
/// directory.
#[derive(Debug)]
pub struct Entry {
    pub path: String,
    pub is_dir: bool,
}

/// The mathematical value of an `Entry`.
pub ghost struct EntryView {
    pub path: Seq<char>,
    pub is_dir: bool,
}

impl View for Entry {
    type V = EntryView;

    open spec fn view(&self) -> EntryView {
        EntryView { path: self.path@, is_dir: self.is_dir }
    }
}

impl EntryView {
    /// The kind of entry that the filter takes this for.
    pub open spec fn kind(self) -> EntryKind {
        if self.is_dir {
            EntryKind::Directory
        } else {
            EntryKind::File
        }
    }
}

/// The values of a list of entries, in order.
pub open spec fn entry_views(entries: Seq<Entry>) -> Seq<EntryView> {
    entries.map_values(|entry: Entry| entry@)
}

/// A directory whose entries are being gone through: the path that is added
/// to the candidates once they are done (none for the root), its entries,
/// and how many of them are done.
#[derive(Debug)]
pub struct Frame {
    pub owner: Option<String>,
    pub entries: Vec<Entry>,
    pub next: usize,
}

/// The mathematical value of a `Frame`.
pub ghost struct FrameView {
    pub owner: Option<Seq<char>>,
    pub entries: Seq<EntryView>,
    pub next: nat,
}

impl View for Frame {
    type V = FrameView;

    open spec fn view(&self) -> FrameView {
        FrameView {
            owner: match self.owner {
                Some(path) => Some(path@),
                None => None,
            },
            entries: entry_views(self.entries@),
            next: self.next as nat,
        }
    }
}

/// The values of a list of frames, in order.
pub open spec fn frame_views(frames: Seq<Frame>) -> Seq<FrameView> {
    frames.map_values(|frame: Frame| frame@)
}

/// The number of steps that a stack of frames still asks for at most.
pub open spec fn weight(frames: Seq<FrameView>) -> nat
    decreases frames.len(),
{
    if frames.len() == 0 {
        0
    } else {
        let top = frames.last();
        weight(frames.drop_last()) + 1 + (if top.next < top.entries.len() {
            (top.entries.len() - top.next) as nat
        } else {
            0
        })
    }
}

/// Where going through the entries comes to a halt.
pub ghost enum Halt {
    /// A directory has to be read before the scan can go on.
    Read { frames: Seq<FrameView>, found: Seq<Seq<char>>, directory: Seq<char> },
    /// Every entry is done.
    Finish { found: Seq<Seq<char>> },
    /// The search of a pattern for an entry was given up.
    Fault { message: Seq<char> },
}

/// Goes through the entries of the directory on top, from entry `next` on,
/// and then through what is left of the directories below it.
///
/// An entry that does not take part is passed over. A file that takes part
/// is added to the candidates. A directory that takes part is added to them
/// too: at once where the scan does not descend; where it does, the scan
/// halts for the directory to be read, and the directory is added once its
/// own entries are done. The scan ends when the root's entries are done.
pub open spec fn run(
    rules: Seq<FilterRuleView>,
    recursive: bool,
    below: Seq<FrameView>,
    top: FrameView,
    found: Seq<Seq<char>>,
) -> Halt
    decreases weight(below), top.entries.len() - top.next,
{
    if top.next >= top.entries.len() {
        let found = match top.owner {
            Some(path) => found.push(path),
            None => found,
        };
        if below.len() == 0 {
            Halt::Finish { found }
        } else {
            run(rules, recursive, below.drop_last(), below.last(), found)
        }
    } else {
        let entry = top.entries[top.next as int];
        let rest = FrameView { next: top.next + 1, ..top };
        if any_fault(rules, entry.path, entry.kind()) {
            Halt::Fault { message: filter_fault_text(rules, entry.path, entry.kind()) }
        } else if !takes_part(rules, entry.path, entry.kind()) {
            run(rules, recursive, below, rest, found)
        } else if entry.is_dir && recursive {
            Halt::Read { frames: below.push(rest), found, directory: entry.path }
        } else {
            run(rules, recursive, below, rest, found.push(entry.path))
        }
    }
}

/// Where the scan comes to a halt from a stack of directories.
pub open spec fn resume(
    rules: Seq<FilterRuleView>,
    recursive: bool,
    frames: Seq<FrameView>,
    found: Seq<Seq<char>>,
) -> Halt {
    if frames.len() == 0 {
        Halt::Finish { found }
    } else {
        run(rules, recursive, frames.drop_last(), frames.last(), found)
    }
}

/// What the scan asks of its caller.
#[derive(Debug)]
pub enum Action {
    /// Read this directory and hand its entries to `enter`.
    Read { directory: String },
    /// Nothing more: the candidates are complete.
    Finish,
}

/// A scan in progress: the directories whose entries are being gone
/// through, innermost last; the candidates found so far; and the directory
/// that is to be read next, with whether it becomes a candidate itself.
#[derive(Debug)]
pub struct Scanner {
    pub frames: Vec<Frame>,
    pub found: Vec<String>,
    pub awaiting: Option<String>,
    pub emit: bool,
}

/// The mathematical value of a `Scanner`.
pub ghost struct ScannerView {
    pub frames: Seq<FrameView>,
    pub found: Seq<Seq<char>>,
    pub awaiting: Option<Seq<char>>,
    pub emit: bool,
}

impl View for Scanner {
    type V = ScannerView;

    open spec fn view(&self) -> ScannerView {
        ScannerView {
            frames: frame_views(self.frames@),
            found: texts(self.found@),
            awaiting: match self.awaiting {
                Some(path) => Some(path@),
                None => None,
            },
            emit: self.emit,
        }
    }
}

/// The error text for a root that is no directory.
pub open spec fn root_fault_text(root: Seq<char>) -> Seq<char> {
    root + " is not a directory"@
}

impl Scanner {
    /// Starts a scan at `root`. Fails with a path error where the root is
    /// missing or is no directory; else the scan waits for the root's
    /// entries, and has no candidate yet.
    pub fn begin(root: &str, root_is_directory: bool) -> (started: Result<Scanner, ImportError>)
        ensures
            match started {
                Ok(scanner) => root_is_directory && scanner@ == (ScannerView {
                    frames: Seq::<FrameView>::empty(),
                    found: Seq::<Seq<char>>::empty(),
                    awaiting: Some(root@),
                    emit: false,
                }),
                Err(fault) => !root_is_directory && fault == (ImportError::PathError {
                    message: fault->PathError_message,
                }) && fault.text() == root_fault_text(root@),
            },
    {
        if !root_is_directory {
            let mut message = String::from_str(root);
            message.append(" is not a directory");
            return Err(ImportError::PathError { message });
        }
        let scanner = Scanner {
            frames: Vec::new(),
            found: Vec::new(),
            awaiting: Some(String::from_str(root)),
            emit: false,
        };
        assert(scanner@.frames =~= Seq::<FrameView>::empty());
        assert(scanner@.found =~= Seq::<Seq<char>>::empty());
        Ok(scanner)
    }

    /// Takes the entries of the directory that the scan waits for. Where it
    /// waits for none, they are dropped.
    pub fn enter(&mut self, entries: Vec<Entry>)
        ensures
            match old(self)@.awaiting {
                Some(directory) => final(self)@ == (ScannerView {
                    frames: old(self)@.frames.push(
                        FrameView {
                            owner: if old(self).emit {
                                Some(directory)
                            } else {
                                None
                            },
                            entries: entry_views(entries@),
                            next: 0,
                        },
                    ),
                    awaiting: None,
                    ..old(self)@
                }),
                None => final(self)@ == old(self)@,
            },
    {
        let ghost before = frame_views(self.frames@);
        match self.awaiting.take() {
            Some(directory) => {
                let owner = if self.emit {
                    Some(directory)
                } else {
                    None
                };
                let frame = Frame { owner, entries, next: 0 };
                self.frames.push(frame);
                assert(frame_views(self.frames@) =~= before.push(frame@));
            },
            None => {},
        }
    }

    /// Goes on with the scan until a directory has to be read or every
    /// entry is done. Where the scan still waits for a directory, asks for
    /// it again and changes nothing. Fails with a pattern error where the
    /// search of a pattern for an entry is given up.
    pub fn advance(&mut self, config: &ScanConfig) -> (asked: Result<Action, ImportError>)
        ensures
            match old(self)@.awaiting {
                Some(directory) => {
                    &&& final(self)@ == old(self)@
                    &&& asked matches Ok(Action::Read { directory: again })
                    &&& again@ == directory
                },
                None => match resume(
                    config@.filters,
                    config.recursive,
                    old(self)@.frames,
                    old(self)@.found,
                ) {
                    Halt::Read { frames, found, directory } => {
                        &&& final(self)@ == (ScannerView {
                            frames,
                            found,
                            awaiting: Some(directory),
                            emit: true,
                        })
                        &&& asked matches Ok(Action::Read { directory: wanted })
                        &&& wanted@ == directory
                    },
                    Halt::Finish { found } => {
                        &&& final(self)@ == (ScannerView {
                            frames: Seq::<FrameView>::empty(),
                            found,
                            awaiting: None,
                            emit: old(self).emit,
                        })
                        &&& asked matches Ok(Action::Finish)
                    },
                    Halt::Fault { message } => {
                        &&& asked matches Err(ImportError::PatternError { message: text })
                        &&& text@ == message
                    },
                },
            },
    {
        match &self.awaiting {
            Some(directory) => {
                return Ok(Action::Read { directory: directory.clone() });
            },
            None => {},
        }
        let ghost goal = resume(
            config@.filters,
            config.recursive,
            frame_views(self.frames@),
            texts(self.found@),
        );
        let ghost stack = frame_views(self.frames@);
        let mut top = match self.frames.pop() {
            Some(frame) => frame,
            None => {
                assert(frame_views(self.frames@) =~= Seq::<FrameView>::empty());
                return Ok(Action::Finish);
            },
        };
        assert(frame_views(self.frames@) =~= stack.drop_last());
        loop
            invariant
                self.awaiting is None,
                self.emit == old(self).emit,
                old(self)@.awaiting is None,
                goal == resume(
                    config@.filters,
                    config.recursive,
                    old(self)@.frames,
                    old(self)@.found,
                ),
                run(
                    config@.filters,
                    config.recursive,
                    frame_views(self.frames@),
                    top@,
                    texts(self.found@),
                ) == goal,
            decreases weight(frame_views(self.frames@)), top.entries.len() - top.next,
        {
            let ghost below = frame_views(self.frames@);
            let ghost found = texts(self.found@);
            if top.next >= top.entries.len() {
                match top.owner {
                    Some(path) => {
                        self.found.push(path);
                        assert(texts(self.found@) =~= found.push(path@));
                    },
                    None => {},
                }
                match self.frames.pop() {
                    Some(frame) => {
                        assert(frame_views(self.frames@) =~= below.drop_last());
                        assert(frame@ == below.last());
                        top = frame;
                    },
                    None => {
                        assert(frame_views(self.frames@) =~= Seq::<FrameView>::empty());
                        return Ok(Action::Finish);
                    },
                }
            } else {
                let ghost here = top@;
                let entry = &top.entries[top.next];
                assert(here.entries[here.next as int] == entry@);
                let kind = if entry.is_dir {
                    EntryKind::Directory
                } else {
                    EntryKind::File
                };
                let keep = match participates(&config.filters, entry.path.as_str(), kind) {
                    Ok(keep) => keep,
                    Err(fault) => {
                        return Err(fault);
                    },
                };
                let path = entry.path.clone();
                let is_dir = entry.is_dir;
                top.next = top.next + 1;
                assert(top@ == (FrameView { next: here.next + 1, ..here }));
                if keep {
                    if is_dir && config.recursive {
                        self.awaiting = Some(path.clone());
                        self.emit = true;
                        self.frames.push(top);
                        assert(frame_views(self.frames@) =~= below.push(
                            FrameView { next: here.next + 1, ..here },
                        ));
                        return Ok(Action::Read { directory: path });
                    } else {
                        self.found.push(path);
                        assert(texts(self.found@) =~= found.push(path@));
                    }
                }
            }
        }
    }

    /// The candidates found so far, in the order in which they were found.
    pub fn candidates(&self) -> (found: Vec<String>)
        ensures
            texts(found@) == self@.found,
    {
        let mut found: Vec<String> = Vec::new();
        let mut at: usize = 0;
        while at < self.found.len()
            invariant
                at <= self.found.len(),
                found@.len() == at,
                forall|k: int| 0 <= k < at ==> found@[k]@ == self.found@[k]@,
            decreases self.found.len() - at,
        {
            found.push(self.found[at].clone());
            at += 1;
        }
        assert(texts(found@) =~= texts(self.found@));
        found
    }
}

/// The paths of the entries that take part in the scan, in their order.
pub open spec fn chosen(rules: Seq<FilterRuleView>, entries: Seq<EntryView>) -> Seq<Seq<char>>
    decreases entries.len(),
{
    if entries.len() == 0 {
        Seq::<Seq<char>>::empty()
    } else {
        let before = chosen(rules, entries.drop_last());
        let entry = entries.last();
        if takes_part(rules, entry.path, entry.kind()) {
            before.push(entry.path)
        } else {
            before
        }
    }
}

/// Whether no search is given up on any of the entries.
pub open spec fn faultless(rules: Seq<FilterRuleView>, entries: Seq<EntryView>) -> bool {
    forall|k: int|
        0 <= k < entries.len() ==> !any_fault(
            rules,
            (#[trigger] entries[k]).path,
            entries[k].kind(),
        )
}

proof fn lemma_flat_run(
    rules: Seq<FilterRuleView>,
    entries: Seq<EntryView>,
    next: nat,
    found: Seq<Seq<char>>,
)
    requires
        faultless(rules, entries),
        next <= entries.len(),
    ensures
        run(
            rules,
            false,
            Seq::<FrameView>::empty(),
            FrameView { owner: None, entries, next },
            found + chosen(rules, entries.take(next as int)),
        ) == (Halt::Finish { found: found + chosen(rules, entries) }),
    decreases entries.len() - next,
{
    if next >= entries.len() {
        assert(entries.take(next as int) =~= entries);
    } else {
        let entry = entries[next as int];
        let upto = entries.take(next + 1 as int);
        assert(upto.drop_last() =~= entries.take(next as int));
        assert(upto.last() == entry);
        lemma_flat_run(rules, entries, next + 1, found);
        if takes_part(rules, entry.path, entry.kind()) {
            assert((found + chosen(rules, entries.take(next as int))).push(entry.path) =~= found
                + chosen(rules, upto));
        }
    }
}

/// A scan that does not descend ends without asking for a directory, and
/// its candidates are the paths of the root's entries that take part, in
/// their order.
pub proof fn lemma_flat_scan(rules: Seq<FilterRuleView>, entries: Seq<EntryView>)
    requires
        faultless(rules, entries),
    ensures
        resume(
            rules,
            false,
            seq![FrameView { owner: None, entries, next: 0 }],
            Seq::<Seq<char>>::empty(),
        ) == (Halt::Finish { found: chosen(rules, entries) }),
{
    let found = Seq::<Seq<char>>::empty();
    let frames = seq![FrameView { owner: None, entries, next: 0 }];
    assert(frames.drop_last() =~= Seq::<FrameView>::empty());
    assert(entries.take(0) =~= Seq::<EntryView>::empty());
    assert(found + chosen(rules, entries.take(0)) =~= found);
    assert(found + chosen(rules, entries) =~= chosen(rules, entries));
    lemma_flat_run(rules, entries, 0, found);
}

/// A path is among the chosen exactly if it is the path of an entry that
/// takes part.
pub proof fn lemma_chosen_contains(
    rules: Seq<FilterRuleView>,
    entries: Seq<EntryView>,
    path: Seq<char>,
)
    ensures
        chosen(rules, entries).contains(path) <==> exists|k: int|
            0 <= k < entries.len() && (#[trigger] entries[k]).path == path && takes_part(
                rules,
                entries[k].path,
                entries[k].kind(),
            ),
    decreases entries.len(),
{
    if entries.len() > 0 {
        let front = entries.drop_last();
        let entry = entries.last();
        let before = chosen(rules, front);
        let all = chosen(rules, entries);
        let part = takes_part(rules, entry.path, entry.kind());
        lemma_chosen_contains(rules, front, path);
        if all.contains(path) {
            let at = choose|at: int| 0 <= at < all.len() && all[at] == path;
            if part && at == all.len() - 1 {
                assert(entries[entries.len() - 1].path == path);
            } else {
                assert(before[at] == path);
                assert(before.contains(path));
                let k = choose|k: int|
                    0 <= k < front.len() && (#[trigger] front[k]).path == path && takes_part(
                        rules,
                        front[k].path,
                        front[k].kind(),
                    );
                assert(entries[k] == front[k]);
            }
        }
        if exists|k: int|
            0 <= k < entries.len() && (#[trigger] entries[k]).path == path && takes_part(
                rules,
                entries[k].path,
                entries[k].kind(),
            ) {
            let k = choose|k: int|
                0 <= k < entries.len() && (#[trigger] entries[k]).path == path && takes_part(
                    rules,
                    entries[k].path,
                    entries[k].kind(),
                );
            if k == entries.len() - 1 {
                assert(all[all.len() - 1] == path);
            } else {
                assert(front[k] == entries[k]);
                assert(before.contains(path));
                let at = choose|at: int| 0 <= at < before.len() && before[at] == path;
                assert(all[at] == path);
            }
        }
    }
}

/// Which paths are chosen does not depend on the order of the entries: two
/// listings that hold the same entries give the same set of candidates.
pub proof fn lemma_chosen_order_free(
    rules: Seq<FilterRuleView>,
    first: Seq<EntryView>,
    second: Seq<EntryView>,
)
    requires
        first.to_set() == second.to_set(),
    ensures
        chosen(rules, first).to_set() == chosen(rules, second).to_set(),
{
    assert forall|path: Seq<char>|
        chosen(rules, first).contains(path) <==> chosen(rules, second).contains(path) by {
        lemma_chosen_contains(rules, first, path);
        lemma_chosen_contains(rules, second, path);
        if chosen(rules, first).contains(path) {
            let k = choose|k: int|
                0 <= k < first.len() && (#[trigger] first[k]).path == path && takes_part(
                    rules,
                    first[k].path,
                    first[k].kind(),
                );
            assert(first.contains(first[k]));
            assert(first.to_set().contains(first[k]));
            assert(second.contains(first[k]));
            let j = choose|j: int| 0 <= j < second.len() && second[j] == first[k];
            assert(second[j].path == path);
        }
        if chosen(rules, second).contains(path) {
            let k = choose|k: int|
                0 <= k < second.len() && (#[trigger] second[k]).path == path && takes_part(
                    rules,
                    second[k].path,
                    second[k].kind(),
                );
            assert(second.contains(second[k]));
            assert(second.to_set().contains(second[k]));
            assert(first.contains(second[k]));
            let j = choose|j: int| 0 <= j < first.len() && first[j] == second[k];
            assert(first[j].path == path);
        }
    }
    assert(chosen(rules, first).to_set() =~= chosen(rules, second).to_set());
}

} // verus!
