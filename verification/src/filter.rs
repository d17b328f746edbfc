use vstd::prelude::*;
use vstd::string::StringExecFns;
use crate::error::ImportError;
use crate::pattern::{search, match_outcome, Pattern};

verus! {

/// What a filesystem entry is.
#[derive(Clone, Copy, Debug, PartialEq, Eq, Structural)]
pub enum EntryKind {
    File,
    Directory,
}

/// What a rule asks for.
#[derive(Clone, Copy, Debug, PartialEq, Eq, Structural)]
pub enum Effect {
    Include,
    Exclude,
}

/// A compiled pattern, the kind of entry it is held against, and what a
/// match means.
#[derive(Debug)]
pub struct FilterRule {
    pub pattern: Pattern,
    pub applies_to: EntryKind,
    pub effect: Effect,
}

/// The mathematical value of a `FilterRule`.
pub ghost struct FilterRuleView {
    pub pattern: Seq<char>,
    pub applies_to: EntryKind,
    pub effect: Effect,
}

impl View for FilterRule {
    type V = FilterRuleView;

    open spec fn view(&self) -> FilterRuleView {
        FilterRuleView {
            pattern: self.pattern.source(),
            applies_to: self.applies_to,
            effect: self.effect,
        }
    }
}

impl FilterRule {
    /// A rule that holds `pattern` against entries of one kind.
    pub fn new(pattern: Pattern, applies_to: EntryKind, effect: Effect) -> (rule: FilterRule)
        ensures
            rule@.pattern == pattern.source(),
            rule@.applies_to == applies_to,
            rule@.effect == effect,
    {
        FilterRule { pattern, applies_to, effect }
    }
}

/// The values of a list of rules, in order.
pub open spec fn rule_views(rules: Seq<FilterRule>) -> Seq<FilterRuleView> {
    rules.map_values(|rule: FilterRule| rule@)
}

/// What the search of each rule gives for an entry of this kind, rule by
/// rule. A rule that is held against entries of the other kind is not
/// searched for and counts as no match.
pub open spec fn outcomes(rules: Seq<FilterRuleView>, path: Seq<char>, kind: EntryKind) -> Seq<
    Option<bool>,
> {
    Seq::new(
        rules.len(),
        |at: int|
            if rules[at].applies_to == kind {
                match_outcome(rules[at].pattern, path)
            } else {
                Some(false)
            },
    )
}

/// Whether rule `at` is held against entries of this kind and its search
/// was given up.
pub open spec fn gives_up(
    rules: Seq<FilterRuleView>,
    found: Seq<Option<bool>>,
    at: int,
    kind: EntryKind,
) -> bool {
    rules[at].applies_to == kind && found[at] is None
}

/// Whether rule `at` has this kind and effect and was found to match.
pub open spec fn hits(
    rules: Seq<FilterRuleView>,
    found: Seq<Option<bool>>,
    at: int,
    kind: EntryKind,
    effect: Effect,
) -> bool {
    rules[at].applies_to == kind && rules[at].effect == effect && found[at] == Some(true)
}

/// Whether a rule among the first `upto` with this kind and effect was
/// found to match.
pub open spec fn any_hit(
    rules: Seq<FilterRuleView>,
    found: Seq<Option<bool>>,
    upto: int,
    kind: EntryKind,
    effect: Effect,
) -> bool {
    exists|at: int| 0 <= at < upto && hits(rules, found, at, kind, effect)
}

/// Whether a rule among the first `upto` has this kind and effect.
pub open spec fn has_rule(rules: Seq<FilterRuleView>, upto: int, kind: EntryKind, effect: Effect)
    -> bool {
    exists|at: int|
        0 <= at < upto && (#[trigger] rules[at]).applies_to == kind && rules[at].effect == effect
}

/// Whether the search of a rule for this kind of entry was given up.
pub open spec fn search_failed(
    rules: Seq<FilterRuleView>,
    found: Seq<Option<bool>>,
    kind: EntryKind,
) -> bool {
    exists|at: int| 0 <= at < rules.len() && gives_up(rules, found, at, kind)
}

/// Whether an entry takes part in the scan, given what the searches found
/// and that none was given up.
///
/// A directory takes part unless a directory rule matches it, whatever the
/// rule's effect. A file takes part if an including file rule matches it, or
/// there is none, and no excluding file rule matches it.
pub open spec fn passes(rules: Seq<FilterRuleView>, found: Seq<Option<bool>>, kind: EntryKind)
    -> bool {
    let n = rules.len() as int;
    match kind {
        EntryKind::Directory => !any_hit(rules, found, n, kind, Effect::Include) && !any_hit(
            rules,
            found,
            n,
            kind,
            Effect::Exclude,
        ),
        EntryKind::File => (has_rule(rules, n, kind, Effect::Include) ==> any_hit(
            rules,
            found,
            n,
            kind,
            Effect::Include,
        )) && !any_hit(rules, found, n, kind, Effect::Exclude),
    }
}

/// The name of the option that a rule comes from.
pub open spec fn list_name(applies_to: EntryKind, effect: Effect) -> Seq<char> {
    match (applies_to, effect) {
        (EntryKind::File, Effect::Exclude) => "exclude_files"@,
        (EntryKind::Directory, Effect::Exclude) => "exclude_dirs"@,
        (EntryKind::File, Effect::Include) => "include_files"@,
        (EntryKind::Directory, Effect::Include) => "include_dirs"@,
    }
}

/// The text of the error for a rule whose search was given up: it names
/// the option that the rule comes from, and its pattern.
pub open spec fn match_fault_text(rule: FilterRuleView) -> Seq<char> {
    "Failed to match "@ + list_name(rule.applies_to, rule.effect) + " pattern: "@ + rule.pattern
        + "."@
}

/// Whether rule `at` is the first whose search for this kind of entry was
/// given up.
pub open spec fn is_first_fault(
    rules: Seq<FilterRuleView>,
    found: Seq<Option<bool>>,
    at: int,
    kind: EntryKind,
) -> bool {
    &&& 0 <= at < rules.len()
    &&& gives_up(rules, found, at, kind)
    &&& forall|k: int| 0 <= k < at ==> !gives_up(rules, found, k, kind)
}

/// The error text where a search was given up: it names the pattern of the
/// first such rule.
pub open spec fn search_fault_text(
    rules: Seq<FilterRuleView>,
    found: Seq<Option<bool>>,
    kind: EntryKind,
) -> Seq<char> {
    match_fault_text(rules[choose|at: int| is_first_fault(rules, found, at, kind)])
}

/// Whether the search of a rule for this entry is given up.
pub open spec fn any_fault(rules: Seq<FilterRuleView>, path: Seq<char>, kind: EntryKind) -> bool {
    search_failed(rules, outcomes(rules, path, kind), kind)
}

/// Whether an entry takes part in the scan, where no search is given up.
pub open spec fn takes_part(rules: Seq<FilterRuleView>, path: Seq<char>, kind: EntryKind) -> bool {
    passes(rules, outcomes(rules, path, kind), kind)
}

/// The error text for an entry on which a search is given up.
pub open spec fn filter_fault_text(rules: Seq<FilterRuleView>, path: Seq<char>, kind: EntryKind)
    -> Seq<char> {
    search_fault_text(rules, outcomes(rules, path, kind), kind)
}

proof fn lemma_first_fault_unique(
    rules: Seq<FilterRuleView>,
    found: Seq<Option<bool>>,
    at: int,
    kind: EntryKind,
)
    requires
        is_first_fault(rules, found, at, kind),
    ensures
        (choose|w: int| is_first_fault(rules, found, w, kind)) == at,
        search_failed(rules, found, kind),
{
    let w = choose|w: int| is_first_fault(rules, found, w, kind);
    assert(is_first_fault(rules, found, w, kind));
    if w < at {
        assert(!gives_up(rules, found, w, kind));
    }
    if at < w {
        assert(!gives_up(rules, found, at, kind));
    }
}

/// Appends the name of the option that a rule comes from.
pub fn append_list_name(text: &mut String, applies_to: EntryKind, effect: Effect)
    ensures
        final(text)@ == old(text)@ + list_name(applies_to, effect),
{
    match (applies_to, effect) {
        (EntryKind::File, Effect::Exclude) => text.append("exclude_files"),
        (EntryKind::Directory, Effect::Exclude) => text.append("exclude_dirs"),
        (EntryKind::File, Effect::Include) => text.append("include_files"),
        (EntryKind::Directory, Effect::Include) => text.append("include_dirs"),
    }
}

/// Searches an entry's path for each rule that is held against its kind.
pub fn search_all(rules: &Vec<FilterRule>, path: &str, kind: EntryKind) -> (found: Vec<
    Option<bool>,
>)
    ensures
        found@ == outcomes(rule_views(rules@), path@, kind),
{
    let ghost views = rule_views(rules@);
    let mut found: Vec<Option<bool>> = Vec::new();
    let mut at: usize = 0;
    while at < rules.len()
        invariant
            at <= rules.len(),
            views == rule_views(rules@),
            found@.len() == at,
            forall|k: int| 0 <= k < at ==> found@[k] == outcomes(views, path@, kind)[k],
        decreases rules.len() - at,
    {
        let rule = &rules[at];
        assert(views[at as int] == rule@);
        if rule.applies_to == kind {
            found.push(search(&rule.pattern, path));
        } else {
            found.push(Some(false));
        }
        at += 1;
    }
    assert(found@ =~= outcomes(views, path@, kind));
    found
}

/// Decides whether an entry of this kind takes part in the scan, given
/// what the search of each rule found. Fails where a search for this kind
/// of entry was given up, naming the pattern of the first such rule.
pub fn decide(rules: &Vec<FilterRule>, found: &Vec<Option<bool>>, kind: EntryKind) -> (verdict:
    Result<bool, ImportError>)
    requires
        found.len() == rules.len(),
    ensures
        match verdict {
            Ok(keep) => !search_failed(rule_views(rules@), found@, kind) && keep == passes(
                rule_views(rules@),
                found@,
                kind,
            ),
            Err(fault) => search_failed(rule_views(rules@), found@, kind) && fault
                == (ImportError::PatternError { message: fault->PatternError_message })
                && fault.text() == search_fault_text(rule_views(rules@), found@, kind),
        },
{
    let ghost views = rule_views(rules@);
    let mut has_include = false;
    let mut include_hit = false;
    let mut exclude_hit = false;
    let mut at: usize = 0;
    while at < rules.len()
        invariant
            at <= rules.len(),
            found.len() == rules.len(),
            views == rule_views(rules@),
            forall|k: int| 0 <= k < at ==> !gives_up(views, found@, k, kind),
            has_include == has_rule(views, at as int, kind, Effect::Include),
            include_hit == any_hit(views, found@, at as int, kind, Effect::Include),
            exclude_hit == any_hit(views, found@, at as int, kind, Effect::Exclude),
        decreases rules.len() - at,
    {
        let rule = &rules[at];
        assert(views[at as int] == rule@);
        let ghost next = at + 1;
        if rule.applies_to == kind {
            match found[at] {
                None => {
                    let mut message = String::from_str("Failed to match ");
                    append_list_name(&mut message, rule.applies_to, rule.effect);
                    message.append(" pattern: ");
                    let source = rule.pattern.as_text();
                    message.append(source.as_str());
                    message.append(".");
                    assert(gives_up(views, found@, at as int, kind));
                    proof {
                        lemma_first_fault_unique(views, found@, at as int, kind);
                    }
                    return Err(ImportError::PatternError { message });
                },
                Some(matched) => {
                    if rule.effect == Effect::Include {
                        has_include = true;
                        if matched {
                            include_hit = true;
                            assert(hits(views, found@, at as int, kind, Effect::Include));
                        }
                    } else {
                        if matched {
                            exclude_hit = true;
                            assert(hits(views, found@, at as int, kind, Effect::Exclude));
                        }
                    }
                },
            }
        }
        proof {
            assert(has_include == has_rule(views, next as int, kind, Effect::Include)) by {
                if has_rule(views, next as int, kind, Effect::Include) {
                    let w = choose|w: int|
                        0 <= w < next && (#[trigger] views[w]).applies_to == kind
                            && views[w].effect == Effect::Include;
                    if w < at {
                        assert(has_rule(views, at as int, kind, Effect::Include));
                    }
                }
                if has_include {
                    if has_rule(views, at as int, kind, Effect::Include) {
                        let w = choose|w: int|
                            0 <= w < at && (#[trigger] views[w]).applies_to == kind
                                && views[w].effect == Effect::Include;
                        assert(views[w].applies_to == kind);
                    } else {
                        assert(views[at as int].applies_to == kind);
                    }
                }
            }
            assert(include_hit == any_hit(views, found@, next as int, kind, Effect::Include)) by {
                if any_hit(views, found@, next as int, kind, Effect::Include) {
                    let w = choose|w: int|
                        0 <= w < next && hits(views, found@, w, kind, Effect::Include);
                    if w < at {
                        assert(any_hit(views, found@, at as int, kind, Effect::Include));
                    }
                }
                if include_hit {
                    if any_hit(views, found@, at as int, kind, Effect::Include) {
                        let w = choose|w: int|
                            0 <= w < at && hits(views, found@, w, kind, Effect::Include);
                        assert(hits(views, found@, w, kind, Effect::Include));
                    }
                }
            }
            assert(exclude_hit == any_hit(views, found@, next as int, kind, Effect::Exclude)) by {
                if any_hit(views, found@, next as int, kind, Effect::Exclude) {
                    let w = choose|w: int|
                        0 <= w < next && hits(views, found@, w, kind, Effect::Exclude);
                    if w < at {
                        assert(any_hit(views, found@, at as int, kind, Effect::Exclude));
                    }
                }
                if exclude_hit {
                    if any_hit(views, found@, at as int, kind, Effect::Exclude) {
                        let w = choose|w: int|
                            0 <= w < at && hits(views, found@, w, kind, Effect::Exclude);
                        assert(hits(views, found@, w, kind, Effect::Exclude));
                    }
                }
            }
        }
        at += 1;
    }
    match kind {
        EntryKind::Directory => Ok(!include_hit && !exclude_hit),
        EntryKind::File => Ok((!has_include || include_hit) && !exclude_hit),
    }
}

/// Decides whether an entry takes part in the scan. Fails where the search
/// of a rule for this kind of entry is given up, naming the first such
/// pattern.
pub fn participates(rules: &Vec<FilterRule>, path: &str, kind: EntryKind) -> (verdict: Result<
    bool,
    ImportError,
>)
    ensures
        match verdict {
            Ok(keep) => !any_fault(rule_views(rules@), path@, kind) && keep == takes_part(
                rule_views(rules@),
                path@,
                kind,
            ),
            Err(fault) => any_fault(rule_views(rules@), path@, kind) && fault
                == (ImportError::PatternError { message: fault->PatternError_message })
                && fault.text() == filter_fault_text(rule_views(rules@), path@, kind),
        },
{
    let found = search_all(rules, path, kind);
    decide(rules, &found, kind)
}

} // verus!
