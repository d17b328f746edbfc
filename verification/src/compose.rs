use vstd::prelude::*;
use vstd::string::StringExecFns;
use crate::config::{ScanConfig, ScanConfigView};
use crate::error::ImportError;
use crate::output::{
    declaration, declare, fill, fill_template, join_texts, public_without_module_text,
    OutputPolicy, OutputPolicyView,
};
use crate::resolve::{join, resolve, resolved, texts};
use crate::scan::{chosen, lemma_chosen_order_free, EntryView};
use crate::walk::{lemma_tree_scan_order_free, same_entries, scan_of, Tree};

verus! {

/// The declarations of the candidate paths that have a name, in the order
/// of the paths.
pub open spec fn declarations(
    base: Seq<char>,
    policy: OutputPolicyView,
    separator: char,
    paths: Seq<Seq<char>>,
) -> Seq<Seq<char>>
    decreases paths.len(),
{
    if paths.len() == 0 {
        Seq::<Seq<char>>::empty()
    } else {
        let before = declarations(base, policy, separator, paths.drop_last());
        match resolved(base, paths.last(), separator) {
            Some(name) => before.push(declaration(policy, name)),
            None => before,
        }
    }
}

/// The declarations joined, and put into the post-process template where
/// there is one.
pub open spec fn composed(
    declarations: Seq<Seq<char>>,
    glue: Seq<char>,
    post_process: Option<Seq<char>>,
) -> Seq<char> {
    match post_process {
        Some(template) => fill(template, join(declarations, glue)),
        None => join(declarations, glue),
    }
}

/// The output text for the candidate paths found under `base`.
pub open spec fn rendered(base: Seq<char>, config: ScanConfigView, paths: Seq<Seq<char>>) -> Seq<
    char,
> {
    composed(
        declarations(base, config.output, config.separator, paths),
        config.glue,
        config.post_process,
    )
}

/// Writes the declaration of each candidate path that has a name under
/// `base`, in the order of the paths; a path without a name is passed over.
/// The policy is checked before any path is looked at: an inconsistent one
/// is a configuration error, whatever the paths.
pub fn parse_modules(base: &str, config: &ScanConfig, data: &Vec<String>) -> (written: Result<
    Vec<String>,
    ImportError,
>)
    ensures
        match written {
            Ok(modules) => config@.output.consistent() && texts(modules@) == declarations(
                base@,
                config@.output,
                config.separator,
                texts(data@),
            ),
            Err(fault) => !config@.output.consistent() && fault == (ImportError::ConfigError {
                message: fault->ConfigError_message,
            }) && fault.text() == public_without_module_text(),
        },
{
    let ghost paths = texts(data@);
    let mut modules: Vec<String> = Vec::new();
    if !consistent(config) {
        return Err(
            ImportError::ConfigError {
                message: String::from_str(
                    "You must set the module to true to use public_module.",
                ),
            },
        );
    }
    let mut at: usize = 0;
    assert(texts(modules@) =~= Seq::<Seq<char>>::empty());
    assert(paths.take(0) =~= Seq::<Seq<char>>::empty());
    while at < data.len()
        invariant
            at <= data.len(),
            paths == texts(data@),
            config@.output.consistent(),
            texts(modules@) == declarations(
                base@,
                config@.output,
                config.separator,
                paths.take(at as int),
            ),
        decreases data.len() - at,
    {
        let ghost before = texts(modules@);
        assert(paths.take(at + 1 as int).drop_last() =~= paths.take(at as int));
        assert(paths.take(at + 1 as int).last() == data@[at as int]@);
        match resolve(base, data[at].as_str(), config.separator) {
            Some(name) => {
                match declare(&config.output, &name) {
                    Ok(text) => {
                        modules.push(text);
                        assert(texts(modules@) =~= before.push(text@));
                    },
                    Err(fault) => {
                        return Err(fault);
                    },
                }
            },
            None => {},
        }
        at += 1;
    }
    assert(paths.take(at as int) =~= paths);
    Ok(modules)
}

fn consistent(config: &ScanConfig) -> (yes: bool)
    ensures
        yes == config@.output.consistent(),
{
    match &config.output {
        OutputPolicy::InterProcessTemplate { .. } => true,
        OutputPolicy::RawDeclaration { is_public, is_module, .. } => !*is_public
            || *is_module,
    }
}

/// Joins the declarations and puts them into the post-process template,
/// where the configuration has one.
pub fn compose(config: &ScanConfig, modules: &Vec<String>) -> (output: String)
    ensures
        output@ == composed(texts(modules@), config@.glue, config@.post_process),
{
    let joined = join_texts(modules, config.glue.as_str());
    match &config.post_process {
        Some(template) => fill_template(template.as_str(), joined.as_str()),
        None => joined,
    }
}

/// The output text of an invocation for the candidate paths found under
/// `base`: nothing but a configuration error where the policy is
/// inconsistent, else the composed declarations.
pub fn render(base: &str, config: &ScanConfig, data: &Vec<String>) -> (output: Result<
    String,
    ImportError,
>)
    ensures
        match output {
            Ok(text) => config@.output.consistent() && text@ == rendered(
                base@,
                config@,
                texts(data@),
            ),
            Err(fault) => !config@.output.consistent() && fault == (ImportError::ConfigError {
                message: fault->ConfigError_message,
            }) && fault.text() == public_without_module_text(),
        },
{
    match parse_modules(base, config, data) {
        Ok(modules) => Ok(compose(config, &modules)),
        Err(fault) => Err(fault),
    }
}

/// Whether `text` is the declaration of the path at place `k`.
pub open spec fn declares(
    base: Seq<char>,
    policy: OutputPolicyView,
    separator: char,
    paths: Seq<Seq<char>>,
    k: int,
    text: Seq<char>,
) -> bool {
    &&& 0 <= k < paths.len()
    &&& resolved(base, paths[k], separator) matches Some(name)
    &&& declaration(policy, name) == text
}

/// A text is among the declarations exactly if it is the declaration of one
/// of the paths.
pub proof fn lemma_declarations_contain(
    base: Seq<char>,
    policy: OutputPolicyView,
    separator: char,
    paths: Seq<Seq<char>>,
    text: Seq<char>,
)
    ensures
        declarations(base, policy, separator, paths).contains(text) <==> exists|k: int|
            declares(base, policy, separator, paths, k, text),
    decreases paths.len(),
{
    if paths.len() > 0 {
        let front = paths.drop_last();
        let before = declarations(base, policy, separator, front);
        let all = declarations(base, policy, separator, paths);
        let last = paths.len() - 1;
        lemma_declarations_contain(base, policy, separator, front, text);
        if all.contains(text) {
            let at = choose|at: int| 0 <= at < all.len() && all[at] == text;
            if resolved(base, paths.last(), separator) is Some && at == all.len() - 1 {
                assert(declares(base, policy, separator, paths, last, text));
            } else {
                assert(before[at] == text);
                assert(before.contains(text));
                let k = choose|k: int| declares(base, policy, separator, front, k, text);
                assert(front[k] == paths[k]);
                assert(declares(base, policy, separator, paths, k, text));
            }
        }
        if exists|k: int| declares(base, policy, separator, paths, k, text) {
            let k = choose|k: int| declares(base, policy, separator, paths, k, text);
            if k == last {
                assert(all[all.len() - 1] == text);
            } else {
                assert(front[k] == paths[k]);
                assert(declares(base, policy, separator, front, k, text));
                assert(before.contains(text));
                let at = choose|at: int| 0 <= at < before.len() && before[at] == text;
                assert(all[at] == text);
            }
        }
    }
}

/// Which declarations are written does not depend on the order of the
/// paths: two lists that hold the same paths give the same set of
/// declarations.
pub proof fn lemma_declarations_order_free(
    base: Seq<char>,
    policy: OutputPolicyView,
    separator: char,
    first: Seq<Seq<char>>,
    second: Seq<Seq<char>>,
)
    requires
        first.to_set() == second.to_set(),
    ensures
        declarations(base, policy, separator, first).to_set() == declarations(
            base,
            policy,
            separator,
            second,
        ).to_set(),
{
    let one = declarations(base, policy, separator, first);
    let two = declarations(base, policy, separator, second);
    assert forall|text: Seq<char>| one.contains(text) <==> two.contains(text) by {
        lemma_declarations_contain(base, policy, separator, first, text);
        lemma_declarations_contain(base, policy, separator, second, text);
        if one.contains(text) {
            let k = choose|k: int| declares(base, policy, separator, first, k, text);
            assert(first.contains(first[k]));
            assert(first.to_set().contains(first[k]));
            assert(second.contains(first[k]));
            let j = choose|j: int| 0 <= j < second.len() && second[j] == first[k];
            assert(declares(base, policy, separator, second, j, text));
        }
        if two.contains(text) {
            let k = choose|k: int| declares(base, policy, separator, second, k, text);
            assert(second.contains(second[k]));
            assert(second.to_set().contains(second[k]));
            assert(first.contains(second[k]));
            let j = choose|j: int| 0 <= j < first.len() && first[j] == second[k];
            assert(declares(base, policy, separator, first, j, text));
        }
    }
    assert(one.to_set() =~= two.to_set());
}

/// Two listings of a directory that hold the same entries, in whatever
/// order, give the same set of declarations.
pub proof fn lemma_listing_declares_the_same(
    base: Seq<char>,
    config: ScanConfigView,
    first: Seq<EntryView>,
    second: Seq<EntryView>,
)
    requires
        first.to_set() == second.to_set(),
    ensures
        declarations(
            base,
            config.output,
            config.separator,
            chosen(config.filters, first),
        ).to_set() == declarations(
            base,
            config.output,
            config.separator,
            chosen(config.filters, second),
        ).to_set(),
{
    lemma_chosen_order_free(config.filters, first, second);
    lemma_declarations_order_free(
        base,
        config.output,
        config.separator,
        chosen(config.filters, first),
        chosen(config.filters, second),
    );
}

/// Scanning an unchanged tree twice gives the same set of declarations:
/// where two scans find the same entries in each directory, in whatever
/// order, and both come to their end, the declarations of their candidates
/// are the same set.
pub proof fn lemma_tree_scan_declares_the_same(
    base: Seq<char>,
    config: ScanConfigView,
    first: Tree,
    second: Tree,
    root: Seq<char>,
    first_fuel: nat,
    second_fuel: nat,
)
    requires
        same_entries(first, second),
        scan_of(config.filters, config.recursive, first, root, first_fuel) is Some,
        scan_of(config.filters, config.recursive, second, root, second_fuel) is Some,
    ensures
        declarations(
            base,
            config.output,
            config.separator,
            scan_of(config.filters, config.recursive, first, root, first_fuel)->0,
        ).to_set() == declarations(
            base,
            config.output,
            config.separator,
            scan_of(config.filters, config.recursive, second, root, second_fuel)->0,
        ).to_set(),
{
    lemma_tree_scan_order_free(
        config.filters,
        config.recursive,
        first,
        second,
        root,
        first_fuel,
        second_fuel,
    );
    lemma_declarations_order_free(
        base,
        config.output,
        config.separator,
        scan_of(config.filters, config.recursive, first, root, first_fuel)->0,
        scan_of(config.filters, config.recursive, second, root, second_fuel)->0,
    );
}

} // verus!
