use vstd::prelude::*;
use crate::text::{chars_of, text_of};

verus! {

/// The suffix of a source file's name.
pub open spec fn source_suffix() -> Seq<char> {
    seq!['.', 'r', 's']
}

/// Whether `text` begins with `prefix`.
pub open spec fn has_prefix(text: Seq<char>, prefix: Seq<char>) -> bool {
    prefix.len() <= text.len() && text.subrange(0, prefix.len() as int) == prefix
}

/// Whether `text` ends with `suffix`.
pub open spec fn has_suffix(text: Seq<char>, suffix: Seq<char>) -> bool {
    suffix.len() <= text.len() && text.subrange(text.len() - suffix.len(), text.len() as int)
        == suffix
}

/// A path without the root it lies under; a path that does not begin with
/// the root is left as it is.
pub open spec fn relative(root: Seq<char>, path: Seq<char>) -> Seq<char> {
    if has_prefix(path, root) {
        path.skip(root.len() as int)
    } else {
        path
    }
}

/// Whether a relative path names a source file.
pub open spec fn is_source(rel: Seq<char>) -> bool {
    has_suffix(rel, source_suffix())
}

/// A relative path without the source suffix, where it has one.
pub open spec fn stem(rel: Seq<char>) -> Seq<char> {
    if is_source(rel) {
        rel.take(rel.len() - 3)
    } else {
        rel
    }
}

/// The name segments of `s` read up to its end: the completed non-empty
/// segments, and the characters after the last separator.
pub open spec fn pieces(s: Seq<char>, separator: char) -> (Seq<Seq<char>>, Seq<char>)
    decreases s.len(),
{
    if s.len() == 0 {
        (Seq::<Seq<char>>::empty(), Seq::<char>::empty())
    } else {
        let before = pieces(s.drop_last(), separator);
        if s.last() == separator {
            if before.1.len() > 0 {
                (before.0.push(before.1), Seq::<char>::empty())
            } else {
                (before.0, Seq::<char>::empty())
            }
        } else {
            (before.0, before.1.push(s.last()))
        }
    }
}

/// The non-empty runs of characters of `s` between separators, in order.
pub open spec fn segments(s: Seq<char>, separator: char) -> Seq<Seq<char>> {
    let read = pieces(s, separator);
    if read.1.len() > 0 {
        read.0.push(read.1)
    } else {
        read.0
    }
}

/// The parts in order, with `glue` between each two.
pub open spec fn join(parts: Seq<Seq<char>>, glue: Seq<char>) -> Seq<char>
    decreases parts.len(),
{
    if parts.len() == 0 {
        Seq::<char>::empty()
    } else if parts.len() == 1 {
        parts[0]
    } else {
        join(parts.drop_last(), glue) + glue + parts.last()
    }
}

/// A text in which no segment between separators is empty: it neither
/// begins nor ends with a separator and holds no two in a row.
pub open spec fn well_separated(s: Seq<char>, separator: char) -> bool {
    &&& s.len() > 0 ==> s[0] != separator && s.last() != separator
    &&& forall|k: int| 0 <= k && k + 1 < s.len() ==> !(s[k] == separator && #[trigger] s[k + 1]
        == separator)
}

/// The hierarchical name of a candidate path: its non-empty name segments,
/// and whether the path named a source file.
#[derive(Debug)]
pub struct ModulePath {
    pub segments: Vec<String>,
    pub source_file: bool,
}

/// The mathematical value of a `ModulePath`.
pub ghost struct ModulePathView {
    pub segments: Seq<Seq<char>>,
    pub source_file: bool,
}

/// The texts of a list of strings, in order.
pub open spec fn texts(list: Seq<String>) -> Seq<Seq<char>> {
    list.map_values(|text: String| text@)
}

impl View for ModulePath {
    type V = ModulePathView;

    open spec fn view(&self) -> ModulePathView {
        ModulePathView { segments: texts(self.segments@), source_file: self.source_file }
    }
}

impl ModulePathView {
    /// No segment is empty.
    pub open spec fn well_formed(self) -> bool {
        forall|k: int| 0 <= k < self.segments.len() ==> (#[trigger] self.segments[k]).len() > 0
    }

    /// The suffix that the path had.
    pub open spec fn suffix(self) -> Seq<char> {
        if self.source_file {
            source_suffix()
        } else {
            Seq::<char>::empty()
        }
    }

    /// The path that this name was derived from, under `root`.
    pub open spec fn path_under(self, root: Seq<char>, separator: char) -> Seq<char> {
        root + join(self.segments, seq![separator]) + self.suffix()
    }
}

/// The hierarchical name of a candidate path under a root: nothing where no
/// name segment is left once root and suffix are taken away.
pub open spec fn resolved(root: Seq<char>, path: Seq<char>, separator: char) -> Option<
    ModulePathView,
> {
    let rel = relative(root, path);
    let names = segments(stem(rel), separator);
    if names.len() == 0 {
        None
    } else {
        Some(ModulePathView { segments: names, source_file: is_source(rel) })
    }
}

fn starts_with(text: &Vec<char>, prefix: &Vec<char>) -> (yes: bool)
    ensures
        yes == has_prefix(text@, prefix@),
{
    if prefix.len() > text.len() {
        return false;
    }
    let mut at: usize = 0;
    while at < prefix.len()
        invariant
            at <= prefix.len(),
            prefix.len() <= text.len(),
            forall|k: int| 0 <= k < at ==> text@[k] == prefix@[k],
        decreases prefix.len() - at,
    {
        if text[at] != prefix[at] {
            assert(text@.subrange(0, prefix.len() as int)[at as int] != prefix@[at as int]);
            return false;
        }
        at += 1;
    }
    assert(text@.subrange(0, prefix.len() as int) =~= prefix@);
    true
}

fn names_source(rel: &Vec<char>, from: usize) -> (yes: bool)
    requires
        from <= rel.len(),
    ensures
        yes == is_source(rel@.skip(from as int)),
{
    let ghost tail = rel@.skip(from as int);
    let n = rel.len();
    if n - from < 3 {
        return false;
    }
    let yes = rel[n - 3] == '.' && rel[n - 2] == 'r' && rel[n - 1] == 's';
    proof {
        let end = tail.subrange(tail.len() - 3, tail.len() as int);
        assert(end[0] == rel@[n - 3] && end[1] == rel@[n - 2] && end[2] == rel@[n - 1]);
        if yes {
            assert(end =~= source_suffix());
        }
    }
    yes
}

/// The non-empty name segments of the characters of `name` from `from` up
/// to `to`.
fn split_segments(name: &Vec<char>, from: usize, to: usize, separator: char) -> (names: Vec<
    String,
>)
    requires
        from <= to <= name.len(),
    ensures
        texts(names@) == segments(name@.subrange(from as int, to as int), separator),
{
    let ghost s = name@.subrange(from as int, to as int);
    let mut names: Vec<String> = Vec::new();
    let mut current: Vec<char> = Vec::new();
    let mut at: usize = from;
    assert(texts(names@) =~= Seq::<Seq<char>>::empty());
    while at < to
        invariant
            from <= at <= to,
            to <= name.len(),
            s == name@.subrange(from as int, to as int),
            texts(names@) == pieces(s.take(at - from), separator).0,
            current@ == pieces(s.take(at - from), separator).1,
        decreases to - at,
    {
        let c = name[at];
        proof {
            assert(s.take(at - from + 1).drop_last() =~= s.take(at - from));
            assert(s.take(at - from + 1).last() == c);
        }
        if c == separator {
            if current.len() > 0 {
                let ghost before = texts(names@);
                let done = text_of(&current);
                names.push(done);
                assert(texts(names@) =~= before.push(current@));
                current = Vec::new();
            }
        } else {
            current.push(c);
        }
        at += 1;
    }
    assert(s.take(to - from) =~= s);
    if current.len() > 0 {
        let ghost before = texts(names@);
        let done = text_of(&current);
        names.push(done);
        assert(texts(names@) =~= before.push(current@));
    }
    names
}

/// Derives the hierarchical name of a candidate path: takes the root away
/// from its front and the source suffix from its end, and cuts what is left
/// at the separators. Gives nothing where no name segment is left.
pub fn resolve(root: &str, path: &str, separator: char) -> (name: Option<ModulePath>)
    ensures
        match name {
            Some(found) => resolved(root@, path@, separator) == Some(found@),
            None => resolved(root@, path@, separator) is None,
        },
{
    let root_chars = chars_of(root);
    let path_chars = chars_of(path);
    let from: usize = if starts_with(&path_chars, &root_chars) {
        root_chars.len()
    } else {
        0
    };
    let ghost rel = relative(root@, path@);
    assert(rel =~= path@.skip(from as int));
    let source_file = names_source(&path_chars, from);
    let to: usize = if source_file {
        path_chars.len() - 3
    } else {
        path_chars.len()
    };
    assert(stem(rel) =~= path@.subrange(from as int, to as int));
    let segments = split_segments(&path_chars, from, to, separator);
    if segments.len() == 0 {
        None
    } else {
        Some(ModulePath { segments, source_file })
    }
}

proof fn lemma_pieces_clean(s: Seq<char>, separator: char)
    ensures
        forall|k: int|
            0 <= k < pieces(s, separator).0.len() ==> (#[trigger] pieces(s, separator).0[k]).len()
                > 0 && !pieces(s, separator).0[k].contains(separator),
        !pieces(s, separator).1.contains(separator),
    decreases s.len(),
{
    if s.len() > 0 {
        lemma_pieces_clean(s.drop_last(), separator);
        let before = pieces(s.drop_last(), separator);
        if s.last() != separator {
            assert forall|k: int| 0 <= k < before.1.push(s.last()).len() implies before.1.push(
                s.last(),
            )[k] != separator by {
                if k < before.1.len() {
                    assert(before.1.contains(before.1[k]));
                }
            }
        }
    }
}

/// Every name segment is non-empty and holds no separator.
pub proof fn lemma_segments_clean(s: Seq<char>, separator: char)
    ensures
        forall|k: int|
            0 <= k < segments(s, separator).len() ==> (#[trigger] segments(s, separator)[k]).len()
                > 0 && !segments(s, separator)[k].contains(separator),
{
    lemma_pieces_clean(s, separator);
}

proof fn lemma_pieces_join(s: Seq<char>, separator: char)
    requires
        s.len() > 0 ==> s[0] != separator,
        forall|k: int| 0 <= k && k + 1 < s.len() ==> !(s[k] == separator && #[trigger] s[k + 1]
            == separator),
    ensures
        pieces(s, separator).1.len() == 0 <==> (s.len() == 0 || s.last() == separator),
        pieces(s, separator).0.len() == 0 ==> pieces(s, separator).1 == s,
        pieces(s, separator).0.len() > 0 ==> join(pieces(s, separator).0, seq![separator])
            + seq![separator] + pieces(s, separator).1 == s,
    decreases s.len(),
{
    if s.len() > 0 {
        let front = s.drop_last();
        assert forall|k: int| 0 <= k && k + 1 < front.len() implies !(front[k] == separator
            && #[trigger] front[k + 1] == separator) by {
            assert(front[k] == s[k] && front[k + 1] == s[k + 1]);
        }
        lemma_pieces_join(front, separator);
        let before = pieces(front, separator);
        let after = pieces(s, separator);
        let glue = seq![separator];
        assert(front.push(s.last()) =~= s);
        if s.last() == separator {
            assert(s.len() >= 2);
            assert(s[s.len() - 2] == front.last());
            assert(!(s[s.len() - 2] == separator && s[s.len() - 2 + 1] == separator));
            assert(before.1.len() > 0);
            assert(after.0 == before.0.push(before.1));
            assert(after.0.drop_last() =~= before.0);
            assert(join(after.0, glue) == front);
            assert(front + glue + Seq::<char>::empty() =~= s);
        } else {
            if before.0.len() > 0 {
                assert(join(before.0, glue) + glue + before.1.push(s.last()) =~= (join(
                    before.0,
                    glue,
                ) + glue + before.1).push(s.last()));
            }
        }
    }
}

/// Joining the name segments of a text with the separator gives the text
/// back, where none of its segments is empty.
pub proof fn lemma_join_segments(s: Seq<char>, separator: char)
    requires
        well_separated(s, separator),
    ensures
        join(segments(s, separator), seq![separator]) == s,
{
    lemma_pieces_join(s, separator);
    let read = pieces(s, separator);
    if s.len() > 0 {
        assert(read.0.push(read.1).drop_last() =~= read.0);
    }
}

/// Round trip: for a path under the root whose name has no empty segment,
/// the root, the segments joined by the separator, and the suffix give the
/// path back.
pub proof fn lemma_round_trip(root: Seq<char>, path: Seq<char>, separator: char)
    requires
        has_prefix(path, root),
        well_separated(stem(relative(root, path)), separator),
        stem(relative(root, path)).len() > 0,
    ensures
        resolved(root, path, separator) matches Some(name) && name.well_formed()
            && name.path_under(root, separator) == path,
{
    let rel = relative(root, path);
    let name = stem(rel);
    lemma_join_segments(name, separator);
    lemma_segments_clean(name, separator);
    let found = resolved(root, path, separator);
    if segments(name, separator).len() == 0 {
        assert(join(segments(name, separator), seq![separator]).len() == 0);
    }
    assert(found is Some);
    if is_source(rel) {
        assert(name + source_suffix() =~= rel);
    } else {
        assert(name + Seq::<char>::empty() =~= rel);
    }
    assert(root + rel =~= path);
    assert(root + name + found->0.suffix() =~= root + (name + found->0.suffix()));
}

/// What `resolve` gives is a list of non-empty segments, none holding a
/// separator.
pub proof fn lemma_resolved_well_formed(root: Seq<char>, path: Seq<char>, separator: char)
    ensures
        resolved(root, path, separator) matches Some(name) ==> name.well_formed()
            && name.segments.len() > 0 && forall|k: int|
            0 <= k < name.segments.len() ==> !(#[trigger] name.segments[k]).contains(separator),
{
    lemma_segments_clean(stem(relative(root, path)), separator);
}

} // verus!
