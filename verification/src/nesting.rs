use vstd::prelude::*;
use crate::filter::{takes_part, FilterRuleView};
use crate::resolve::has_prefix;
use crate::scan::{resume, run, weight, FrameView, Halt};
use crate::walk::{
    descends, drive, lemma_reached_unfolds, opened, owed, owed_at, owed_by, owed_entry,
    owed_frame, reached, scan_of, within, Tree,
};

verus! {

/// Whether a frame accounts for no path twice: no two of its entries that
/// are still to be gone through account for the same path, and none of them
/// accounts for its owner.
pub open spec fn neat_frame(
    rules: Seq<FilterRuleView>,
    recursive: bool,
    tree: Tree,
    frame: FrameView,
) -> bool {
    &&& forall|k: int, l: int, path: Seq<char>|
        #[trigger] owed_at(rules, recursive, tree, frame, k, path) && #[trigger] owed_at(
            rules,
            recursive,
            tree,
            frame,
            l,
            path,
        ) ==> k == l
    &&& forall|k: int, path: Seq<char>|
        frame.owner == Some(path) ==> !#[trigger] owed_at(rules, recursive, tree, frame, k, path)
}

/// Whether no two frames of a stack account for the same path.
pub open spec fn frames_apart(
    rules: Seq<FilterRuleView>,
    recursive: bool,
    tree: Tree,
    frames: Seq<FrameView>,
) -> bool {
    forall|i: int, j: int, path: Seq<char>|
        #[trigger] owed_by(rules, recursive, tree, frames, i, path) && #[trigger] owed_by(
            rules,
            recursive,
            tree,
            frames,
            j,
            path,
        ) ==> i == j
}

/// Whether no candidate found is still accounted for by the stack.
pub open spec fn found_apart(
    rules: Seq<FilterRuleView>,
    recursive: bool,
    tree: Tree,
    frames: Seq<FrameView>,
    found: Seq<Seq<char>>,
) -> bool {
    forall|path: Seq<char>| #[trigger]
        found.contains(path) ==> !owed(rules, recursive, tree, frames, path)
}

/// Whether every frame of a stack is neat.
pub open spec fn all_neat(
    rules: Seq<FilterRuleView>,
    recursive: bool,
    tree: Tree,
    frames: Seq<FrameView>,
) -> bool {
    forall|i: int| 0 <= i < frames.len() ==> neat_frame(rules, recursive, tree, #[trigger] frames[i])
}

/// Whether a state of the scan accounts for every path at most once: as a
/// candidate found, or by one frame, and there by its owner or by one entry.
pub open spec fn neat(
    rules: Seq<FilterRuleView>,
    recursive: bool,
    tree: Tree,
    frames: Seq<FrameView>,
    found: Seq<Seq<char>>,
) -> bool {
    &&& found.no_duplicates()
    &&& found_apart(rules, recursive, tree, frames, found)
    &&& frames_apart(rules, recursive, tree, frames)
    &&& all_neat(rules, recursive, tree, frames)
}

/// Whether one frame has gone at least as far through the same entries as
/// another.
pub open spec fn further(later: FrameView, earlier: FrameView) -> bool {
    later.owner == earlier.owner && later.entries == earlier.entries && later.next >= earlier.next
}

proof fn lemma_neat_weaken(
    rules: Seq<FilterRuleView>,
    recursive: bool,
    tree: Tree,
    earlier: Seq<FrameView>,
    later: Seq<FrameView>,
    found: Seq<Seq<char>>,
)
    requires
        neat(rules, recursive, tree, earlier, found),
        later.len() <= earlier.len(),
        forall|i: int| 0 <= i < later.len() ==> further(#[trigger] later[i], earlier[i]),
    ensures
        neat(rules, recursive, tree, later, found),
        forall|i: int, path: Seq<char>| #[trigger]
            owed_by(rules, recursive, tree, later, i, path) ==> owed_by(
                rules,
                recursive,
                tree,
                earlier,
                i,
                path,
            ),
{
    assert forall|i: int, k: int, path: Seq<char>|
        0 <= i < later.len() && #[trigger] owed_at(
            rules,
            recursive,
            tree,
            later[i],
            k,
            path,
        ) implies owed_at(rules, recursive, tree, earlier[i], k, path) by {
        assert(further(later[i], earlier[i]));
    }
    assert forall|i: int, path: Seq<char>| #[trigger]
        owed_by(rules, recursive, tree, later, i, path) implies owed_by(
        rules,
        recursive,
        tree,
        earlier,
        i,
        path,
    ) by {
        assert(further(later[i], earlier[i]));
        if later[i].owner != Some(path) {
            let k = choose|k: int| owed_at(rules, recursive, tree, later[i], k, path);
            assert(owed_at(rules, recursive, tree, earlier[i], k, path));
        }
    }
    assert forall|path: Seq<char>| #[trigger] found.contains(path) implies !owed(
        rules,
        recursive,
        tree,
        later,
        path,
    ) by {
        if owed(rules, recursive, tree, later, path) {
            let i = choose|i: int| owed_by(rules, recursive, tree, later, i, path);
            assert(owed_by(rules, recursive, tree, earlier, i, path));
        }
    }
    assert forall|i: int| 0 <= i < later.len() implies neat_frame(
        rules,
        recursive,
        tree,
        #[trigger] later[i],
    ) by {
        assert(further(later[i], earlier[i]));
        assert(neat_frame(rules, recursive, tree, earlier[i]));
        assert forall|k: int, l: int, path: Seq<char>|
            #[trigger] owed_at(rules, recursive, tree, later[i], k, path) && #[trigger] owed_at(
                rules,
                recursive,
                tree,
                later[i],
                l,
                path,
            ) implies k == l by {
            assert(owed_at(rules, recursive, tree, earlier[i], k, path));
            assert(owed_at(rules, recursive, tree, earlier[i], l, path));
        }
        assert forall|k: int, path: Seq<char>| later[i].owner == Some(path) implies !#[trigger] owed_at(
            rules,
            recursive,
            tree,
            later[i],
            k,
            path,
        ) by {
            if owed_at(rules, recursive, tree, later[i], k, path) {
                assert(owed_at(rules, recursive, tree, earlier[i], k, path));
            }
        }
    }
}

proof fn lemma_neat_found(
    rules: Seq<FilterRuleView>,
    recursive: bool,
    tree: Tree,
    frames: Seq<FrameView>,
    found: Seq<Seq<char>>,
    added: Seq<char>,
)
    requires
        neat(rules, recursive, tree, frames, found),
        !found.contains(added),
        !owed(rules, recursive, tree, frames, added),
    ensures
        neat(rules, recursive, tree, frames, found.push(added)),
{
    let more = found.push(added);
    assert forall|i: int, j: int| 0 <= i < more.len() && 0 <= j < more.len() && i != j implies more[i]
        != more[j] by {
        if i < found.len() && j < found.len() {
        } else if i < found.len() {
            assert(found.contains(found[i]));
        } else {
            assert(found.contains(found[j]));
        }
    }
    assert forall|path: Seq<char>| #[trigger] more.contains(path) implies !owed(
        rules,
        recursive,
        tree,
        frames,
        path,
    ) by {
        let i = choose|i: int| 0 <= i < more.len() && more[i] == path;
        if i < found.len() {
            assert(found.contains(path));
        }
    }
}

/// Whether the entries of every directory, taken as a frame that the
/// directory owns, are neat.
pub open spec fn tidy(rules: Seq<FilterRuleView>, recursive: bool, tree: Tree) -> bool {
    forall|directory: Seq<char>|
        neat_frame(rules, recursive, tree, #[trigger] opened(tree, directory, Some(directory)))
}

/// What holds where a neat scan halts: its candidates hold no path twice;
/// and where it asks for a directory, the state is neat, and neither the
/// directory nor a candidate below it is found or accounted for already.
pub open spec fn neat_halt(
    rules: Seq<FilterRuleView>,
    recursive: bool,
    tree: Tree,
    halt: Halt,
) -> bool {
    match halt {
        Halt::Finish { found } => found.no_duplicates(),
        Halt::Read { frames, found, directory } => {
            &&& neat(rules, recursive, tree, frames, found)
            &&& !found.contains(directory)
            &&& !owed(rules, recursive, tree, frames, directory)
            &&& forall|path: Seq<char>| #[trigger]
                reached(rules, recursive, tree, directory, path) ==> !found.contains(path)
                    && !owed(rules, recursive, tree, frames, path)
        },
        Halt::Fault { .. } => true,
    }
}

proof fn lemma_slot_is_apart(
    rules: Seq<FilterRuleView>,
    recursive: bool,
    tree: Tree,
    below: Seq<FrameView>,
    top: FrameView,
    found: Seq<Seq<char>>,
    path: Seq<char>,
)
    requires
        neat(rules, recursive, tree, below.push(top), found),
        top.next < top.entries.len(),
        owed_entry(rules, recursive, tree, top.entries[top.next as int], path),
    ensures
        !found.contains(path),
        !owed(
            rules,
            recursive,
            tree,
            below.push(FrameView { next: top.next + 1, ..top }),
            path,
        ),
{
    let old_frames = below.push(top);
    let rest = FrameView { next: top.next + 1, ..top };
    let new_frames = below.push(rest);
    let at = below.len() as int;
    assert(owed_at(rules, recursive, tree, top, top.next as int, path));
    assert(old_frames[at] == top);
    assert(owed_by(rules, recursive, tree, old_frames, at, path));
    assert(owed(rules, recursive, tree, old_frames, path));
    assert(neat_frame(rules, recursive, tree, old_frames[at]));
    if owed(rules, recursive, tree, new_frames, path) {
        let i = choose|i: int| owed_by(rules, recursive, tree, new_frames, i, path);
        if i < at {
            assert(new_frames[i] == old_frames[i]);
            assert(owed_by(rules, recursive, tree, old_frames, i, path));
        } else {
            assert(new_frames[i] == rest);
            if rest.owner != Some(path) {
                let l = choose|l: int| owed_at(rules, recursive, tree, rest, l, path);
                assert(owed_at(rules, recursive, tree, top, l, path));
            }
        }
    }
}

/// Going on with a neat scan keeps it neat.
pub proof fn lemma_run_neat(
    rules: Seq<FilterRuleView>,
    recursive: bool,
    tree: Tree,
    below: Seq<FrameView>,
    top: FrameView,
    found: Seq<Seq<char>>,
)
    requires
        neat(rules, recursive, tree, below.push(top), found),
    ensures
        neat_halt(rules, recursive, tree, run(rules, recursive, below, top, found)),
    decreases weight(below), top.entries.len() - top.next,
{
    let old_frames = below.push(top);
    let at = below.len() as int;
    assert(old_frames[at] == top);
    if top.next >= top.entries.len() {
        assert forall|i: int| 0 <= i < below.len() implies further(
            #[trigger] below[i],
            old_frames[i],
        ) by {}
        lemma_neat_weaken(rules, recursive, tree, old_frames, below, found);
        let after = match top.owner {
            Some(owner) => found.push(owner),
            None => found,
        };
        match top.owner {
            Some(owner) => {
                assert(owed_by(rules, recursive, tree, old_frames, at, owner));
                assert(owed(rules, recursive, tree, old_frames, owner));
                if owed(rules, recursive, tree, below, owner) {
                    let i = choose|i: int| owed_by(rules, recursive, tree, below, i, owner);
                    assert(owed_by(rules, recursive, tree, old_frames, i, owner));
                }
                lemma_neat_found(rules, recursive, tree, below, found, owner);
            },
            None => {},
        }
        if below.len() > 0 {
            assert(below.drop_last().push(below.last()) =~= below);
            lemma_run_neat(rules, recursive, tree, below.drop_last(), below.last(), after);
        }
    } else {
        let entry = top.entries[top.next as int];
        let rest = FrameView { next: top.next + 1, ..top };
        let new_frames = below.push(rest);
        assert forall|i: int| 0 <= i < new_frames.len() implies further(
            #[trigger] new_frames[i],
            old_frames[i],
        ) by {}
        lemma_neat_weaken(rules, recursive, tree, old_frames, new_frames, found);
        if crate::filter::any_fault(rules, entry.path, entry.kind()) {
        } else if !takes_part(rules, entry.path, entry.kind()) {
            lemma_run_neat(rules, recursive, tree, below, rest, found);
        } else if entry.is_dir && recursive {
            lemma_slot_is_apart(rules, recursive, tree, below, top, found, entry.path);
            assert forall|path: Seq<char>| #[trigger]
                reached(rules, recursive, tree, entry.path, path) implies !found.contains(path)
                && !owed(rules, recursive, tree, new_frames, path) by {
                assert(owed_entry(rules, recursive, tree, entry, path));
                lemma_slot_is_apart(rules, recursive, tree, below, top, found, path);
            }
        } else {
            lemma_slot_is_apart(rules, recursive, tree, below, top, found, entry.path);
            lemma_neat_found(rules, recursive, tree, new_frames, found, entry.path);
            lemma_run_neat(rules, recursive, tree, below, rest, found.push(entry.path));
        }
    }
}

proof fn lemma_open_neat(
    rules: Seq<FilterRuleView>,
    recursive: bool,
    tree: Tree,
    frames: Seq<FrameView>,
    found: Seq<Seq<char>>,
    directory: Seq<char>,
)
    requires
        tidy(rules, recursive, tree),
        neat_halt(rules, recursive, tree, Halt::Read { frames, found, directory }),
    ensures
        neat(
            rules,
            recursive,
            tree,
            frames.push(opened(tree, directory, Some(directory))),
            found,
        ),
{
    let frame = opened(tree, directory, Some(directory));
    let more = frames.push(frame);
    let at = frames.len() as int;
    assert(neat_frame(rules, recursive, tree, frame));
    assert forall|path: Seq<char>| #[trigger]
        owed_frame(rules, recursive, tree, frame, path) implies !found.contains(path) && !owed(
        rules,
        recursive,
        tree,
        frames,
        path,
    ) by {
        if path != directory {
            lemma_reached_unfolds(rules, recursive, tree, directory, Some(directory), path);
            assert(reached(rules, recursive, tree, directory, path));
        }
    }
    assert forall|i: int, path: Seq<char>| #[trigger]
        owed_by(rules, recursive, tree, more, i, path) && i < at implies owed_by(
        rules,
        recursive,
        tree,
        frames,
        i,
        path,
    ) by {
        assert(more[i] == frames[i]);
    }
    assert forall|i: int, j: int, path: Seq<char>|
        #[trigger] owed_by(rules, recursive, tree, more, i, path) && #[trigger] owed_by(
            rules,
            recursive,
            tree,
            more,
            j,
            path,
        ) implies i == j by {
        if i < at && j < at {
            assert(owed_by(rules, recursive, tree, frames, i, path));
            assert(owed_by(rules, recursive, tree, frames, j, path));
        } else if i < at {
            assert(more[j] == frame);
            assert(owed_frame(rules, recursive, tree, frame, path));
            assert(owed_by(rules, recursive, tree, frames, i, path));
            assert(owed(rules, recursive, tree, frames, path));
            assert(false);
        } else if j < at {
            assert(more[i] == frame);
            assert(owed_frame(rules, recursive, tree, frame, path));
            assert(owed_by(rules, recursive, tree, frames, j, path));
            assert(owed(rules, recursive, tree, frames, path));
            assert(false);
        } else {
            assert(i == at && j == at);
        }
    }
    assert forall|path: Seq<char>| #[trigger] found.contains(path) implies !owed(
        rules,
        recursive,
        tree,
        more,
        path,
    ) by {
        if owed(rules, recursive, tree, more, path) {
            let i = choose|i: int| owed_by(rules, recursive, tree, more, i, path);
            if i < at {
                assert(owed_by(rules, recursive, tree, frames, i, path));
                assert(owed(rules, recursive, tree, frames, path));
            } else {
                assert(more[i] == frame);
                assert(owed_frame(rules, recursive, tree, frame, path));
            }
        }
    }
    assert forall|i: int| 0 <= i < more.len() implies neat_frame(
        rules,
        recursive,
        tree,
        #[trigger] more[i],
    ) by {
        if i < at {
            assert(more[i] == frames[i]);
        }
    }
}

/// A neat scan of a tidy tree that comes to its end holds no candidate
/// twice.
pub proof fn lemma_drive_neat(
    rules: Seq<FilterRuleView>,
    recursive: bool,
    tree: Tree,
    frames: Seq<FrameView>,
    found: Seq<Seq<char>>,
    fuel: nat,
)
    requires
        tidy(rules, recursive, tree),
        neat(rules, recursive, tree, frames, found),
        drive(rules, recursive, tree, frames, found, fuel) is Some,
    ensures
        drive(rules, recursive, tree, frames, found, fuel)->0.no_duplicates(),
    decreases fuel,
{
    if frames.len() > 0 {
        assert(frames.drop_last().push(frames.last()) =~= frames);
        lemma_run_neat(rules, recursive, tree, frames.drop_last(), frames.last(), found);
        match resume(rules, recursive, frames, found) {
            Halt::Read { frames: left, found: so_far, directory } => {
                lemma_open_neat(rules, recursive, tree, left, so_far, directory);
                lemma_drive_neat(
                    rules,
                    recursive,
                    tree,
                    left.push(opened(tree, directory, Some(directory))),
                    so_far,
                    (fuel - 1) as nat,
                );
            },
            _ => {},
        }
    }
}

/// A scan of a tidy tree that comes to its end holds no candidate twice.
pub proof fn lemma_scan_without_duplicates(
    rules: Seq<FilterRuleView>,
    recursive: bool,
    tree: Tree,
    root: Seq<char>,
    fuel: nat,
)
    requires
        tidy(rules, recursive, tree),
        scan_of(rules, recursive, tree, root, fuel) is Some,
    ensures
        scan_of(rules, recursive, tree, root, fuel)->0.no_duplicates(),
{
    let frame = opened(tree, root, None);
    let owned = opened(tree, root, Some(root));
    let frames = seq![frame];
    let found = Seq::<Seq<char>>::empty();
    assert(neat_frame(rules, recursive, tree, owned));
    assert forall|k: int, path: Seq<char>| #[trigger]
        owed_at(rules, recursive, tree, frame, k, path) implies owed_at(
        rules,
        recursive,
        tree,
        owned,
        k,
        path,
    ) by {}
    assert(neat_frame(rules, recursive, tree, frame)) by {
        assert forall|k: int, l: int, path: Seq<char>|
            #[trigger] owed_at(rules, recursive, tree, frame, k, path) && #[trigger] owed_at(
                rules,
                recursive,
                tree,
                frame,
                l,
                path,
            ) implies k == l by {
            assert(owed_at(rules, recursive, tree, owned, k, path));
            assert(owed_at(rules, recursive, tree, owned, l, path));
        }
    }
    assert(all_neat(rules, recursive, tree, frames)) by {
        assert forall|i: int| 0 <= i < frames.len() implies neat_frame(
            rules,
            recursive,
            tree,
            #[trigger] frames[i],
        ) by {
            assert(frames[i] == frame);
        }
    }
    lemma_drive_neat(rules, recursive, tree, frames, found, fuel);
}

/// A directory's path with a separator at its end.
pub open spec fn under(directory: Seq<char>, separator: char) -> Seq<char> {
    if directory.len() > 0 && directory.last() == separator {
        directory
    } else {
        directory.push(separator)
    }
}

/// Whether `path` begins with `prefix`, character by character.
pub open spec fn starts(path: Seq<char>, prefix: Seq<char>) -> bool {
    prefix.len() <= path.len() && forall|j: int| 0 <= j < prefix.len() ==> path[j] == prefix[j]
}

/// Whether `path` names something directly in `directory`: it is the
/// directory's path, a separator where the directory's path has none at its
/// end, and a name that is not empty and holds no separator.
pub open spec fn directly_under(directory: Seq<char>, path: Seq<char>, separator: char) -> bool {
    &&& starts(path, under(directory, separator))
    &&& path.len() > under(directory, separator).len()
    &&& forall|j: int| under(directory, separator).len() <= j < path.len() ==> path[j] != separator
}

/// Whether the tree is one of a file system: each entry lies directly in
/// its directory, and no directory holds two entries of the same path.
pub open spec fn well_nested(tree: Tree, separator: char) -> bool {
    &&& forall|directory: Seq<char>, k: int|
        0 <= k < tree(directory).len() ==> directly_under(
            directory,
            (#[trigger] tree(directory)[k]).path,
            separator,
        )
    &&& forall|directory: Seq<char>, k: int, l: int|
        0 <= k < l < tree(directory).len() ==> (#[trigger] tree(directory)[k]).path
            != (#[trigger] tree(directory)[l]).path
}

/// Whether `path` is `entry` itself or lies below it.
pub open spec fn at_or_below(entry: Seq<char>, path: Seq<char>, separator: char) -> bool {
    starts(path, entry) && (path.len() == entry.len() || (path.len() > entry.len()
        && path[entry.len() as int] == separator))
}

proof fn lemma_within_lies_under(
    rules: Seq<FilterRuleView>,
    recursive: bool,
    tree: Tree,
    separator: char,
    directory: Seq<char>,
    depth: nat,
    path: Seq<char>,
)
    requires
        well_nested(tree, separator),
        within(rules, recursive, tree, directory, depth, path),
    ensures
        starts(path, under(directory, separator)),
        path.len() > under(directory, separator).len(),
    decreases depth,
{
    let list = tree(directory);
    let k = choose|k: int|
        0 <= k < tree(directory).len() && takes_part(
            rules,
            (#[trigger] tree(directory)[k]).path,
            tree(directory)[k].kind(),
        ) && (tree(directory)[k].path == path || (depth > 0 && descends(
            rules,
            recursive,
            tree(directory)[k],
        ) && within(rules, recursive, tree, tree(directory)[k].path, (depth - 1) as nat, path)));
    let entry = tree(directory)[k].path;
    assert(directly_under(directory, entry, separator));
    if entry != path {
        lemma_within_lies_under(
            rules,
            recursive,
            tree,
            separator,
            entry,
            (depth - 1) as nat,
            path,
        );
        assert(entry[entry.len() - 1] != separator);
        assert(under(entry, separator) == entry.push(separator));
        let base = under(directory, separator);
        assert forall|j: int| 0 <= j < base.len() implies path[j] == base[j] by {
            assert(path[j] == entry.push(separator)[j]);
            assert(entry[j] == base[j]);
        }
    }
}

/// Every candidate below a directory of a well nested tree begins with the
/// directory's path and a separator, and is longer than these.
pub proof fn lemma_reached_lies_under(
    rules: Seq<FilterRuleView>,
    recursive: bool,
    tree: Tree,
    separator: char,
    directory: Seq<char>,
    path: Seq<char>,
)
    requires
        well_nested(tree, separator),
        reached(rules, recursive, tree, directory, path),
    ensures
        starts(path, under(directory, separator)),
        path.len() > under(directory, separator).len(),
{
    let depth = choose|depth: nat| within(rules, recursive, tree, directory, depth, path);
    lemma_within_lies_under(rules, recursive, tree, separator, directory, depth, path);
}

proof fn lemma_owed_lies_below(
    rules: Seq<FilterRuleView>,
    recursive: bool,
    tree: Tree,
    separator: char,
    directory: Seq<char>,
    k: int,
    path: Seq<char>,
)
    requires
        well_nested(tree, separator),
        0 <= k < tree(directory).len(),
        owed_entry(rules, recursive, tree, tree(directory)[k], path),
    ensures
        at_or_below(tree(directory)[k].path, path, separator),
        directly_under(directory, tree(directory)[k].path, separator),
{
    let entry = tree(directory)[k].path;
    assert(directly_under(directory, entry, separator));
    if entry != path {
        lemma_reached_lies_under(rules, recursive, tree, separator, entry, path);
        assert(entry[entry.len() - 1] != separator);
        assert(under(entry, separator) == entry.push(separator));
        assert forall|j: int| 0 <= j < entry.len() implies path[j] == entry[j] by {
            assert(path[j] == entry.push(separator)[j]);
        }
        assert(path[entry.len() as int] == entry.push(separator)[entry.len() as int]);
    }
}

proof fn lemma_siblings_apart(
    directory: Seq<char>,
    separator: char,
    one: Seq<char>,
    two: Seq<char>,
    path: Seq<char>,
)
    requires
        directly_under(directory, one, separator),
        directly_under(directory, two, separator),
        at_or_below(one, path, separator),
        at_or_below(two, path, separator),
    ensures
        one == two,
{
    if one.len() == two.len() {
        assert forall|j: int| 0 <= j < one.len() implies one[j] == two[j] by {
            assert(path[j] == one[j] && path[j] == two[j]);
        }
        assert(one =~= two);
    } else if one.len() < two.len() {
        let at = one.len() as int;
        assert(path[at] == separator);
        assert(path[at] == two[at]);
    } else {
        let at = two.len() as int;
        assert(path[at] == separator);
        assert(path[at] == one[at]);
    }
}

/// A well nested tree is tidy.
pub proof fn lemma_well_nested_is_tidy(
    rules: Seq<FilterRuleView>,
    recursive: bool,
    tree: Tree,
    separator: char,
)
    requires
        well_nested(tree, separator),
    ensures
        tidy(rules, recursive, tree),
{
    assert forall|directory: Seq<char>|
        neat_frame(rules, recursive, tree, #[trigger] opened(tree, directory, Some(directory))) by {
        let frame = opened(tree, directory, Some(directory));
        let list = tree(directory);
        assert forall|k: int, l: int, path: Seq<char>|
            #[trigger] owed_at(rules, recursive, tree, frame, k, path) && #[trigger] owed_at(
                rules,
                recursive,
                tree,
                frame,
                l,
                path,
            ) implies k == l by {
            lemma_owed_lies_below(rules, recursive, tree, separator, directory, k, path);
            lemma_owed_lies_below(rules, recursive, tree, separator, directory, l, path);
            lemma_siblings_apart(directory, separator, list[k].path, list[l].path, path);
            if k < l {
                assert(tree(directory)[k].path != tree(directory)[l].path);
            }
            if l < k {
                assert(tree(directory)[l].path != tree(directory)[k].path);
            }
        }
        assert forall|k: int, path: Seq<char>| frame.owner == Some(path) implies !#[trigger] owed_at(
            rules,
            recursive,
            tree,
            frame,
            k,
            path,
        ) by {
            if owed_at(rules, recursive, tree, frame, k, path) {
                lemma_owed_lies_below(rules, recursive, tree, separator, directory, k, path);
            }
        }
    }
}

/// A scan of a well nested tree that comes to its end holds no candidate
/// twice; each of its candidates begins with the root; and its candidates
/// are exactly the paths of the entries that take part, in the root and in
/// every directory that the scan descends into.
pub proof fn lemma_scan_is_clean(
    rules: Seq<FilterRuleView>,
    recursive: bool,
    tree: Tree,
    root: Seq<char>,
    separator: char,
    fuel: nat,
)
    requires
        well_nested(tree, separator),
        scan_of(rules, recursive, tree, root, fuel) is Some,
    ensures
        scan_of(rules, recursive, tree, root, fuel)->0.no_duplicates(),
        forall|k: int|
            0 <= k < scan_of(rules, recursive, tree, root, fuel)->0.len() ==> has_prefix(
                #[trigger] scan_of(rules, recursive, tree, root, fuel)->0[k],
                root,
            ) && starts(
                scan_of(rules, recursive, tree, root, fuel)->0[k],
                under(root, separator),
            ) && scan_of(rules, recursive, tree, root, fuel)->0[k].len() > under(
                root,
                separator,
            ).len(),
        forall|path: Seq<char>|
            scan_of(rules, recursive, tree, root, fuel)->0.contains(path) <==> #[trigger] reached(
                rules,
                recursive,
                tree,
                root,
                path,
            ),
{
    let found = scan_of(rules, recursive, tree, root, fuel)->0;
    assert forall|path: Seq<char>| found.contains(path) <==> #[trigger] reached(
        rules,
        recursive,
        tree,
        root,
        path,
    ) by {
        crate::walk::lemma_scan_finds_what_is_reached(rules, recursive, tree, root, fuel, path);
    }
    lemma_well_nested_is_tidy(rules, recursive, tree, separator);
    lemma_scan_without_duplicates(rules, recursive, tree, root, fuel);
    assert forall|k: int| 0 <= k < found.len() implies has_prefix(#[trigger] found[k], root)
        && starts(found[k], under(root, separator)) && found[k].len() > under(
        root,
        separator,
    ).len() by {
        let path = found[k];
        assert(found.contains(path));
        crate::walk::lemma_scan_finds_what_is_reached(rules, recursive, tree, root, fuel, path);
        lemma_reached_lies_under(rules, recursive, tree, separator, root, path);
        let base = under(root, separator);
        assert forall|j: int| 0 <= j < root.len() implies path[j] == root[j] by {
            assert(path[j] == base[j]);
        }
        assert(path.subrange(0, root.len() as int) =~= root);
    }
}

} // verus!
