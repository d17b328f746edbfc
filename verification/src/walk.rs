use vstd::prelude::*;
use crate::filter::{takes_part, FilterRuleView};
use crate::scan::{resume, run, weight, EntryView, FrameView, Halt};

verus! {

/// A directory tree as a scan sees it: the entries of each directory.
pub type Tree = spec_fn(Seq<char>) -> Seq<EntryView>;

/// Whether the scan reads an entry's own entries.
pub open spec fn descends(rules: Seq<FilterRuleView>, recursive: bool, entry: EntryView) -> bool {
    recursive && entry.is_dir && takes_part(rules, entry.path, entry.kind())
}

/// Whether `path` is a candidate that lies at most `depth` directories
/// below `directory`: the path of an entry that takes part, in the
/// directory itself or in one that the scan descends into.
pub open spec fn within(
    rules: Seq<FilterRuleView>,
    recursive: bool,
    tree: Tree,
    directory: Seq<char>,
    depth: nat,
    path: Seq<char>,
) -> bool
    decreases depth,
{
    exists|k: int|
        0 <= k < tree(directory).len() && takes_part(
            rules,
            (#[trigger] tree(directory)[k]).path,
            tree(directory)[k].kind(),
        ) && (tree(directory)[k].path == path || (depth > 0 && descends(
            rules,
            recursive,
            tree(directory)[k],
        ) && within(rules, recursive, tree, tree(directory)[k].path, (depth - 1) as nat, path)))
}

/// Whether `path` is a candidate below `directory`, at whatever depth.
pub open spec fn reached(
    rules: Seq<FilterRuleView>,
    recursive: bool,
    tree: Tree,
    directory: Seq<char>,
    path: Seq<char>,
) -> bool {
    exists|depth: nat| within(rules, recursive, tree, directory, depth, path)
}

/// Whether an entry that is still to be gone through accounts for `path`:
/// it takes part, and the path is its own or a candidate below it.
pub open spec fn owed_entry(
    rules: Seq<FilterRuleView>,
    recursive: bool,
    tree: Tree,
    entry: EntryView,
    path: Seq<char>,
) -> bool {
    takes_part(rules, entry.path, entry.kind()) && (entry.path == path || (descends(
        rules,
        recursive,
        entry,
    ) && reached(rules, recursive, tree, entry.path, path)))
}

/// Whether entry `k` of a frame is still to be gone through and accounts
/// for `path`.
pub open spec fn owed_at(
    rules: Seq<FilterRuleView>,
    recursive: bool,
    tree: Tree,
    frame: FrameView,
    k: int,
    path: Seq<char>,
) -> bool {
    frame.next <= k < frame.entries.len() && owed_entry(
        rules,
        recursive,
        tree,
        frame.entries[k],
        path,
    )
}

/// Whether a frame accounts for `path`: as its owner, or by an entry that
/// is still to be gone through.
pub open spec fn owed_frame(
    rules: Seq<FilterRuleView>,
    recursive: bool,
    tree: Tree,
    frame: FrameView,
    path: Seq<char>,
) -> bool {
    frame.owner == Some(path) || exists|k: int| owed_at(rules, recursive, tree, frame, k, path)
}

/// Whether frame `i` of a stack accounts for `path`.
pub open spec fn owed_by(
    rules: Seq<FilterRuleView>,
    recursive: bool,
    tree: Tree,
    frames: Seq<FrameView>,
    i: int,
    path: Seq<char>,
) -> bool {
    0 <= i < frames.len() && owed_frame(rules, recursive, tree, frames[i], path)
}

/// Whether a stack of frames accounts for `path`.
pub open spec fn owed(
    rules: Seq<FilterRuleView>,
    recursive: bool,
    tree: Tree,
    frames: Seq<FrameView>,
    path: Seq<char>,
) -> bool {
    exists|i: int| owed_by(rules, recursive, tree, frames, i, path)
}

/// The frame of a directory that has just been read.
pub open spec fn opened(tree: Tree, directory: Seq<char>, owner: Option<Seq<char>>) -> FrameView {
    FrameView { owner, entries: tree(directory), next: 0 }
}

/// The candidates of a scan whose every request for a directory is
/// answered from the tree, from a state of the scan on; nothing where the
/// search of a pattern is given up, or the scan needs more than `fuel`
/// directories.
pub open spec fn drive(
    rules: Seq<FilterRuleView>,
    recursive: bool,
    tree: Tree,
    frames: Seq<FrameView>,
    found: Seq<Seq<char>>,
    fuel: nat,
) -> Option<Seq<Seq<char>>>
    decreases fuel,
{
    match resume(rules, recursive, frames, found) {
        Halt::Finish { found } => Some(found),
        Halt::Fault { .. } => None,
        Halt::Read { frames, found, directory } => if fuel == 0 {
            None
        } else {
            drive(
                rules,
                recursive,
                tree,
                frames.push(opened(tree, directory, Some(directory))),
                found,
                (fuel - 1) as nat,
            )
        },
    }
}

/// The candidates of a scan of the tree from `root`.
pub open spec fn scan_of(
    rules: Seq<FilterRuleView>,
    recursive: bool,
    tree: Tree,
    root: Seq<char>,
    fuel: nat,
) -> Option<Seq<Seq<char>>> {
    drive(rules, recursive, tree, seq![opened(tree, root, None)], Seq::<Seq<char>>::empty(), fuel)
}

/// A path is a candidate below a directory exactly if an entry of the
/// directory accounts for it.
pub proof fn lemma_reached_unfolds(
    rules: Seq<FilterRuleView>,
    recursive: bool,
    tree: Tree,
    directory: Seq<char>,
    owner: Option<Seq<char>>,
    path: Seq<char>,
)
    ensures
        reached(rules, recursive, tree, directory, path) <==> exists|k: int|
            owed_at(rules, recursive, tree, opened(tree, directory, owner), k, path),
{
    let frame = opened(tree, directory, owner);
    if reached(rules, recursive, tree, directory, path) {
        let depth = choose|depth: nat| within(rules, recursive, tree, directory, depth, path);
        let k = choose|k: int|
            0 <= k < tree(directory).len() && takes_part(
                rules,
                (#[trigger] tree(directory)[k]).path,
                tree(directory)[k].kind(),
            ) && (tree(directory)[k].path == path || (depth > 0 && descends(
                rules,
                recursive,
                tree(directory)[k],
            ) && within(
                rules,
                recursive,
                tree,
                tree(directory)[k].path,
                (depth - 1) as nat,
                path,
            )));
        let entry = tree(directory)[k];
        if entry.path != path {
            assert(within(rules, recursive, tree, entry.path, (depth - 1) as nat, path));
            assert(reached(rules, recursive, tree, entry.path, path));
        }
        assert(owed_at(rules, recursive, tree, frame, k, path));
    }
    if exists|k: int| owed_at(rules, recursive, tree, frame, k, path) {
        let k = choose|k: int| owed_at(rules, recursive, tree, frame, k, path);
        let entry = tree(directory)[k];
        if entry.path == path {
            assert(within(rules, recursive, tree, directory, 0, path));
        } else {
            let depth = choose|depth: nat|
                within(rules, recursive, tree, entry.path, depth, path);
            assert(within(rules, recursive, tree, directory, depth + 1, path));
        }
    }
}

proof fn lemma_owed_push(
    rules: Seq<FilterRuleView>,
    recursive: bool,
    tree: Tree,
    frames: Seq<FrameView>,
    frame: FrameView,
    path: Seq<char>,
)
    ensures
        owed(rules, recursive, tree, frames.push(frame), path) <==> owed(
            rules,
            recursive,
            tree,
            frames,
            path,
        ) || owed_frame(rules, recursive, tree, frame, path),
{
    let more = frames.push(frame);
    if owed(rules, recursive, tree, more, path) {
        let i = choose|i: int| owed_by(rules, recursive, tree, more, i, path);
        if i < frames.len() {
            assert(more[i] == frames[i]);
            assert(owed_by(rules, recursive, tree, frames, i, path));
        }
    }
    if owed(rules, recursive, tree, frames, path) {
        let i = choose|i: int| owed_by(rules, recursive, tree, frames, i, path);
        assert(more[i] == frames[i]);
        assert(owed_by(rules, recursive, tree, more, i, path));
    }
    if owed_frame(rules, recursive, tree, frame, path) {
        assert(owed_by(rules, recursive, tree, more, frames.len() as int, path));
    }
}

proof fn lemma_owed_step(
    rules: Seq<FilterRuleView>,
    recursive: bool,
    tree: Tree,
    top: FrameView,
    path: Seq<char>,
)
    requires
        top.next < top.entries.len(),
    ensures
        owed_frame(rules, recursive, tree, top, path) <==> owed_frame(
            rules,
            recursive,
            tree,
            FrameView { next: top.next + 1, ..top },
            path,
        ) || owed_entry(rules, recursive, tree, top.entries[top.next as int], path),
{
    let rest = FrameView { next: top.next + 1, ..top };
    if exists|k: int| owed_at(rules, recursive, tree, top, k, path) {
        let k = choose|k: int| owed_at(rules, recursive, tree, top, k, path);
        if k > top.next {
            assert(owed_at(rules, recursive, tree, rest, k, path));
        }
    }
    if exists|k: int| owed_at(rules, recursive, tree, rest, k, path) {
        let k = choose|k: int| owed_at(rules, recursive, tree, rest, k, path);
        assert(owed_at(rules, recursive, tree, top, k, path));
    }
    if owed_entry(rules, recursive, tree, top.entries[top.next as int], path) {
        assert(owed_at(rules, recursive, tree, top, top.next as int, path));
    }
}

proof fn lemma_push_contains(found: Seq<Seq<char>>, added: Seq<char>, path: Seq<char>)
    ensures
        found.push(added).contains(path) <==> found.contains(path) || added == path,
{
    let more = found.push(added);
    if more.contains(path) {
        let i = choose|i: int| 0 <= i < more.len() && more[i] == path;
        if i < found.len() {
            assert(found[i] == path);
        }
    }
    if found.contains(path) {
        let i = choose|i: int| 0 <= i < found.len() && found[i] == path;
        assert(more[i] == path);
    }
    if added == path {
        assert(more[found.len() as int] == path);
    }
}

/// Whether a halt of the scan accounts for `path`: as a candidate found, or
/// by what is still to be gone through, the directory asked for and what
/// lies below it included.
pub open spec fn halt_accounts(
    rules: Seq<FilterRuleView>,
    recursive: bool,
    tree: Tree,
    halt: Halt,
    path: Seq<char>,
) -> bool {
    match halt {
        Halt::Finish { found } => found.contains(path),
        Halt::Read { frames, found, directory } => found.contains(path) || owed(
            rules,
            recursive,
            tree,
            frames,
            path,
        ) || directory == path || reached(rules, recursive, tree, directory, path),
        Halt::Fault { .. } => false,
    }
}

/// Going on with a scan neither loses nor invents a candidate: where it
/// halts without a fault, it accounts for exactly the paths that it
/// accounted for before.
pub proof fn lemma_run_accounts(
    rules: Seq<FilterRuleView>,
    recursive: bool,
    tree: Tree,
    below: Seq<FrameView>,
    top: FrameView,
    found: Seq<Seq<char>>,
    path: Seq<char>,
)
    requires
        !(run(rules, recursive, below, top, found) is Fault),
    ensures
        halt_accounts(rules, recursive, tree, run(rules, recursive, below, top, found), path)
            <==> found.contains(path) || owed(rules, recursive, tree, below.push(top), path),
    decreases weight(below), top.entries.len() - top.next,
{
    lemma_owed_push(rules, recursive, tree, below, top, path);
    if top.next >= top.entries.len() {
        let after = match top.owner {
            Some(owner) => found.push(owner),
            None => found,
        };
        assert(owed_frame(rules, recursive, tree, top, path) <==> top.owner == Some(path));
        match top.owner {
            Some(owner) => {
                lemma_push_contains(found, owner, path);
            },
            None => {},
        }
        if below.len() > 0 {
            assert(below.drop_last().push(below.last()) =~= below);
            lemma_run_accounts(rules, recursive, tree, below.drop_last(), below.last(), after, path);
        } else {
            assert(!owed(rules, recursive, tree, below, path));
        }
    } else {
        let entry = top.entries[top.next as int];
        let rest = FrameView { next: top.next + 1, ..top };
        lemma_owed_step(rules, recursive, tree, top, path);
        lemma_owed_push(rules, recursive, tree, below, rest, path);
        if !takes_part(rules, entry.path, entry.kind()) {
            lemma_run_accounts(rules, recursive, tree, below, rest, found, path);
        } else if entry.is_dir && recursive {
        } else {
            lemma_push_contains(found, entry.path, path);
            lemma_run_accounts(rules, recursive, tree, below, rest, found.push(entry.path), path);
        }
    }
}

/// A scan that comes to its end has found exactly the paths that its state
/// accounted for.
pub proof fn lemma_drive_accounts(
    rules: Seq<FilterRuleView>,
    recursive: bool,
    tree: Tree,
    frames: Seq<FrameView>,
    found: Seq<Seq<char>>,
    fuel: nat,
    path: Seq<char>,
)
    requires
        drive(rules, recursive, tree, frames, found, fuel) is Some,
    ensures
        drive(rules, recursive, tree, frames, found, fuel)->0.contains(path) <==> found.contains(
            path,
        ) || owed(rules, recursive, tree, frames, path),
    decreases fuel,
{
    if frames.len() == 0 {
        assert(!owed(rules, recursive, tree, frames, path));
    } else {
        assert(frames.drop_last().push(frames.last()) =~= frames);
        lemma_run_accounts(rules, recursive, tree, frames.drop_last(), frames.last(), found, path);
        match resume(rules, recursive, frames, found) {
            Halt::Read { frames: left, found: so_far, directory } => {
                let frame = opened(tree, directory, Some(directory));
                lemma_drive_accounts(
                    rules,
                    recursive,
                    tree,
                    left.push(frame),
                    so_far,
                    (fuel - 1) as nat,
                    path,
                );
                lemma_owed_push(rules, recursive, tree, left, frame, path);
                lemma_reached_unfolds(rules, recursive, tree, directory, Some(directory), path);
            },
            _ => {},
        }
    }
}

/// The candidates of a scan that comes to its end are exactly the paths of
/// the entries that take part, in the root and in every directory that the
/// scan descends into.
pub proof fn lemma_scan_finds_what_is_reached(
    rules: Seq<FilterRuleView>,
    recursive: bool,
    tree: Tree,
    root: Seq<char>,
    fuel: nat,
    path: Seq<char>,
)
    requires
        scan_of(rules, recursive, tree, root, fuel) is Some,
    ensures
        scan_of(rules, recursive, tree, root, fuel)->0.contains(path) <==> reached(
            rules,
            recursive,
            tree,
            root,
            path,
        ),
{
    let frames = seq![opened(tree, root, None)];
    let found = Seq::<Seq<char>>::empty();
    lemma_drive_accounts(rules, recursive, tree, frames, found, fuel, path);
    lemma_reached_unfolds(rules, recursive, tree, root, None, path);
    if owed(rules, recursive, tree, frames, path) {
        let i = choose|i: int| owed_by(rules, recursive, tree, frames, i, path);
        assert(frames[i] == opened(tree, root, None));
    }
    if exists|k: int| owed_at(rules, recursive, tree, opened(tree, root, None), k, path) {
        assert(owed_by(rules, recursive, tree, frames, 0, path));
    }
}

/// Whether two trees hold the same entries in each directory, in whatever
/// order.
pub open spec fn same_entries(first: Tree, second: Tree) -> bool {
    forall|directory: Seq<char>| (#[trigger] first(directory)).to_set() == second(directory).to_set()
}

proof fn lemma_within_order_free(
    rules: Seq<FilterRuleView>,
    recursive: bool,
    first: Tree,
    second: Tree,
    directory: Seq<char>,
    depth: nat,
    path: Seq<char>,
)
    requires
        same_entries(first, second),
        within(rules, recursive, first, directory, depth, path),
    ensures
        within(rules, recursive, second, directory, depth, path),
    decreases depth,
{
    let k = choose|k: int|
        0 <= k < first(directory).len() && takes_part(
            rules,
            (#[trigger] first(directory)[k]).path,
            first(directory)[k].kind(),
        ) && (first(directory)[k].path == path || (depth > 0 && descends(
            rules,
            recursive,
            first(directory)[k],
        ) && within(rules, recursive, first, first(directory)[k].path, (depth - 1) as nat, path)));
    let entry = first(directory)[k];
    assert(first(directory).contains(entry));
    assert(first(directory).to_set().contains(entry));
    assert(second(directory).to_set().contains(entry));
    assert(second(directory).contains(entry));
    let list = second(directory);
    let j = choose|j: int| 0 <= j < list.len() && list[j] == entry;
    if entry.path != path {
        lemma_within_order_free(
            rules,
            recursive,
            first,
            second,
            entry.path,
            (depth - 1) as nat,
            path,
        );
    }
    assert(second(directory)[j] == entry);
}

/// Which paths are candidates below a directory does not depend on the
/// order of the entries in any directory.
pub proof fn lemma_reached_order_free(
    rules: Seq<FilterRuleView>,
    recursive: bool,
    first: Tree,
    second: Tree,
    directory: Seq<char>,
    path: Seq<char>,
)
    requires
        same_entries(first, second),
    ensures
        reached(rules, recursive, first, directory, path) <==> reached(
            rules,
            recursive,
            second,
            directory,
            path,
        ),
{
    assert(same_entries(second, first)) by {
        assert forall|d: Seq<char>| (#[trigger] second(d)).to_set() == first(d).to_set() by {
            assert(first(d).to_set() == second(d).to_set());
        }
    }
    if reached(rules, recursive, first, directory, path) {
        let depth = choose|depth: nat| within(rules, recursive, first, directory, depth, path);
        lemma_within_order_free(rules, recursive, first, second, directory, depth, path);
    }
    if reached(rules, recursive, second, directory, path) {
        let depth = choose|depth: nat| within(rules, recursive, second, directory, depth, path);
        lemma_within_order_free(rules, recursive, second, first, directory, depth, path);
    }
}

/// Two scans of a tree that find the same entries in each directory, in
/// whatever order, and both come to their end, give the same set of
/// candidates.
pub proof fn lemma_tree_scan_order_free(
    rules: Seq<FilterRuleView>,
    recursive: bool,
    first: Tree,
    second: Tree,
    root: Seq<char>,
    first_fuel: nat,
    second_fuel: nat,
)
    requires
        same_entries(first, second),
        scan_of(rules, recursive, first, root, first_fuel) is Some,
        scan_of(rules, recursive, second, root, second_fuel) is Some,
    ensures
        scan_of(rules, recursive, first, root, first_fuel)->0.to_set() == scan_of(
            rules,
            recursive,
            second,
            root,
            second_fuel,
        )->0.to_set(),
{
    let one = scan_of(rules, recursive, first, root, first_fuel)->0;
    let two = scan_of(rules, recursive, second, root, second_fuel)->0;
    assert forall|path: Seq<char>| one.contains(path) <==> two.contains(path) by {
        lemma_scan_finds_what_is_reached(rules, recursive, first, root, first_fuel, path);
        lemma_scan_finds_what_is_reached(rules, recursive, second, root, second_fuel, path);
        lemma_reached_order_free(rules, recursive, first, second, root, path);
    }
    assert(one.to_set() =~= two.to_set());
}

} // verus!
