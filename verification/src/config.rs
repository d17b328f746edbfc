use vstd::prelude::*;
use vstd::string::StringExecFns;
use crate::error::ImportError;
use crate::filter::{
    append_list_name, list_name, rule_views, Effect, EntryKind, FilterRule, FilterRuleView,
};
use crate::output::{public_without_module_text, OutputPolicy, OutputPolicyView};
use crate::pattern::{compile, compiles};
use crate::resolve::texts;
use crate::text::{chars_of, push_char, text_of};

verus! {

/// The options of one invocation, as they are given.
#[derive(Debug)]
pub struct RawConfig {
    pub directory: String,
    pub recursive: Option<bool>,
    pub inter_process: Option<String>,
    pub post_process: Option<String>,
    pub public_module: Option<bool>,
    pub module: Option<bool>,
    pub exclude_files: Vec<String>,
    pub exclude_dirs: Vec<String>,
    pub include_files: Vec<String>,
    pub include_dirs: Vec<String>,
}

/// The resolved options of one invocation.
#[derive(Debug)]
pub struct ScanConfig {
    pub root: String,
    pub separator: char,
    pub recursive: bool,
    pub filters: Vec<FilterRule>,
    pub output: OutputPolicy,
    pub glue: String,
    pub post_process: Option<String>,
}

/// The text of an optional string.
pub open spec fn optional_text(text: Option<String>) -> Option<Seq<char>> {
    match text {
        Some(held) => Some(held@),
        None => None,
    }
}

/// The error text for a template given together with `public_module`.
pub open spec fn public_with_template_text() -> Seq<char> {
    "Cannot use public_module and inter_process at the same time."@
}

/// The error text for a template given together with `module`.
pub open spec fn module_with_template_text() -> Seq<char> {
    "Cannot use module and inter_process at the same time."@
}

/// Why the output options exclude each other, where they do.
pub open spec fn policy_conflict(
    inter_process: Option<Seq<char>>,
    public_module: Option<bool>,
    module: Option<bool>,
) -> Option<Seq<char>> {
    if inter_process is Some {
        if public_module == Some(true) {
            Some(public_with_template_text())
        } else if module == Some(true) {
            Some(module_with_template_text())
        } else {
            None
        }
    } else if public_module == Some(true) && module == Some(false) {
        Some(public_without_module_text())
    } else {
        None
    }
}

/// The output policy that the options ask for, where they do not exclude
/// each other: the template where one is given; else a raw declaration,
/// public only on request and of module form unless that is switched off.
pub open spec fn policy_of(
    inter_process: Option<Seq<char>>,
    public_module: Option<bool>,
    module: Option<bool>,
) -> OutputPolicyView {
    match inter_process {
        Some(template) => OutputPolicyView::InterProcessTemplate { template },
        None => OutputPolicyView::RawDeclaration {
            is_public: public_module == Some(true),
            is_module: module != Some(false),
            entry_suffix: None,
        },
    }
}

/// Settles the output policy of the options. Fails with a configuration
/// error where a template is given together with `public_module` or
/// `module`, or `public_module` is asked for without `module`.
pub fn output_policy(
    inter_process: Option<String>,
    public_module: Option<bool>,
    module: Option<bool>,
) -> (settled: Result<OutputPolicy, ImportError>)
    ensures
        match settled {
            Ok(policy) => policy_conflict(optional_text(inter_process), public_module, module)
                is None && policy@ == policy_of(
                optional_text(inter_process),
                public_module,
                module,
            ) && policy@.consistent(),
            Err(fault) => fault == (ImportError::ConfigError {
                message: fault->ConfigError_message,
            }) && Some(fault.text()) == policy_conflict(
                optional_text(inter_process),
                public_module,
                module,
            ),
        },
{
    let is_public = match public_module {
        Some(state) => state,
        None => false,
    };
    let is_module = match module {
        Some(state) => state,
        None => true,
    };
    match inter_process {
        Some(template) => {
            if is_public {
                Err(
                    ImportError::ConfigError {
                        message: String::from_str(
                            "Cannot use public_module and inter_process at the same time.",
                        ),
                    },
                )
            } else if module.is_some() && is_module {
                Err(
                    ImportError::ConfigError {
                        message: String::from_str(
                            "Cannot use module and inter_process at the same time.",
                        ),
                    },
                )
            } else {
                Ok(OutputPolicy::InterProcessTemplate { template })
            }
        },
        None => {
            if is_public && !is_module {
                Err(
                    ImportError::ConfigError {
                        message: String::from_str(
                            "You must set the module to true to use public_module.",
                        ),
                    },
                )
            } else {
                Ok(OutputPolicy::RawDeclaration { is_public, is_module, entry_suffix: None })
            }
        },
    }
}

/// A directory as the scan takes it: each `/` replaced by the platform's
/// separator, and a separator at its end.
pub open spec fn normalized(directory: Seq<char>, separator: char) -> Seq<char> {
    let mapped = directory.map_values(
        |c: char|
            if c == '/' {
                separator
            } else {
                c
            },
    );
    if mapped.len() > 0 && mapped.last() == separator {
        mapped
    } else {
        mapped.push(separator)
    }
}

/// Brings a directory into the form the scan takes it in.
pub fn normalize(directory: &str, separator: char) -> (root: String)
    ensures
        root@ == normalized(directory@, separator),
{
    let given = chars_of(directory);
    let mut mapped: Vec<char> = Vec::new();
    let mut at: usize = 0;
    while at < given.len()
        invariant
            at <= given.len(),
            mapped@.len() == at,
            forall|k: int|
                0 <= k < at ==> mapped@[k] == (if given@[k] == '/' {
                    separator
                } else {
                    given@[k]
                }),
        decreases given.len() - at,
    {
        let c = given[at];
        mapped.push(
            if c == '/' {
                separator
            } else {
                c
            },
        );
        at += 1;
    }
    assert(mapped@ =~= directory@.map_values(
        |c: char|
            if c == '/' {
                separator
            } else {
                c
            },
    ));
    if !(mapped.len() > 0 && mapped[mapped.len() - 1] == separator) {
        mapped.push(separator);
    }
    text_of(&mapped)
}

/// The pattern that keeps entry-point source files out of the candidates:
/// it matches a path that ends like the name of a library, binary or module
/// root file.
pub open spec fn default_excluded_files() -> Seq<char> {
    "(lib|main|mod).rs$"@
}

/// The separator as it is written inside a pattern.
pub open spec fn separator_pattern(separator: char) -> Seq<char> {
    if separator == '\\' {
        seq!['\\', '\\']
    } else {
        seq![separator]
    }
}

/// The pattern that keeps housekeeping directories out of the scan: it
/// matches a path whose last segment, with or without a separator after it,
/// is one of the conventional directory names.
pub open spec fn default_excluded_dirs(separator: char) -> Seq<char> {
    "(^|"@ + separator_pattern(separator) + ")(\\.git|\\.github|lib|src|target|tests)("@
        + separator_pattern(separator) + ")?$"@
}

/// A pattern that is asked for, with the kind of entry and the effect it is
/// meant to have.
#[derive(Debug)]
pub struct RuleRequest {
    pub pattern: String,
    pub applies_to: EntryKind,
    pub effect: Effect,
}

impl View for RuleRequest {
    type V = FilterRuleView;

    open spec fn view(&self) -> FilterRuleView {
        FilterRuleView {
            pattern: self.pattern@,
            applies_to: self.applies_to,
            effect: self.effect,
        }
    }
}

/// The values of a list of requests, in order.
pub open spec fn request_views(requests: Seq<RuleRequest>) -> Seq<FilterRuleView> {
    requests.map_values(|request: RuleRequest| request@)
}

/// The rules that a list of pattern texts asks for.
pub open spec fn listed(patterns: Seq<Seq<char>>, applies_to: EntryKind, effect: Effect) -> Seq<
    FilterRuleView,
> {
    patterns.map_values(|pattern: Seq<char>| FilterRuleView { pattern, applies_to, effect })
}

/// The rules of a configuration, in the order in which they are compiled:
/// the excluded files and their default, the excluded directories and their
/// default, the included files, the included directories.
pub open spec fn requested_rules(
    exclude_files: Seq<Seq<char>>,
    exclude_dirs: Seq<Seq<char>>,
    include_files: Seq<Seq<char>>,
    include_dirs: Seq<Seq<char>>,
    separator: char,
) -> Seq<FilterRuleView> {
    listed(exclude_files.push(default_excluded_files()), EntryKind::File, Effect::Exclude)
        + listed(
        exclude_dirs.push(default_excluded_dirs(separator)),
        EntryKind::Directory,
        Effect::Exclude,
    ) + listed(include_files, EntryKind::File, Effect::Include) + listed(
        include_dirs,
        EntryKind::Directory,
        Effect::Include,
    )
}

/// The error text for a pattern that does not compile.
pub open spec fn compile_fault_text(rule: FilterRuleView) -> Seq<char> {
    "Failed to parse "@ + list_name(rule.applies_to, rule.effect) + " pattern: "@ + rule.pattern
        + "."@
}

/// Whether `at` is the place of the first requested pattern that does not
/// compile.
pub open spec fn first_fault(requests: Seq<FilterRuleView>, at: int) -> bool {
    &&& 0 <= at < requests.len()
    &&& !compiles(requests[at].pattern)
    &&& forall|k: int| 0 <= k < at ==> compiles(#[trigger] requests[k].pattern)
}

/// Whether every requested pattern compiles.
pub open spec fn all_compile(requests: Seq<FilterRuleView>) -> bool {
    forall|k: int| 0 <= k < requests.len() ==> compiles(#[trigger] requests[k].pattern)
}

/// The pattern error for a requested pattern that does not compile.
pub fn compile_fault(request: &RuleRequest) -> (fault: ImportError)
    ensures
        fault == (ImportError::PatternError { message: fault->PatternError_message }),
        fault.text() == compile_fault_text(request@),
{
    let mut message = String::from_str("Failed to parse ");
    append_list_name(&mut message, request.applies_to, request.effect);
    message.append(" pattern: ");
    message.append(request.pattern.as_str());
    message.append(".");
    ImportError::PatternError { message }
}

/// Compiles the requested patterns, in order. Fails at the first that does
/// not compile, with a pattern error that names it.
pub fn compile_rules(requests: &Vec<RuleRequest>) -> (made: Result<Vec<FilterRule>, ImportError>)
    ensures
        match made {
            Ok(rules) => all_compile(request_views(requests@)) && rule_views(rules@)
                == request_views(requests@),
            Err(fault) => fault == (ImportError::PatternError {
                message: fault->PatternError_message,
            }) && exists|at: int| #[trigger]
                first_fault(request_views(requests@), at) && fault.text() == compile_fault_text(
                    request_views(requests@)[at],
                ),
        },
{
    let ghost wanted = request_views(requests@);
    let mut rules: Vec<FilterRule> = Vec::new();
    let mut at: usize = 0;
    while at < requests.len()
        invariant
            at <= requests.len(),
            wanted == request_views(requests@),
            rules@.len() == at,
            forall|k: int| 0 <= k < at ==> compiles(#[trigger] wanted[k].pattern),
            forall|k: int| 0 <= k < at ==> (#[trigger] rules@[k])@ == wanted[k],
        decreases requests.len() - at,
    {
        let request = &requests[at];
        assert(wanted[at as int] == request@);
        match compile(request.pattern.as_str()) {
            Some(pattern) => {
                rules.push(FilterRule::new(pattern, request.applies_to, request.effect));
            },
            None => {
                assert(first_fault(wanted, at as int));
                return Err(compile_fault(request));
            },
        }
        at += 1;
    }
    assert(rule_views(rules@) =~= wanted);
    Ok(rules)
}

fn append_separator_pattern(text: &mut String, separator: char)
    ensures
        final(text)@ == old(text)@ + separator_pattern(separator),
{
    if separator == '\\' {
        push_char(text, '\\');
        push_char(text, '\\');
        assert(old(text)@.push('\\').push('\\') =~= old(text)@ + separator_pattern(separator));
    } else {
        push_char(text, separator);
        assert(old(text)@.push(separator) =~= old(text)@ + separator_pattern(separator));
    }
}

/// The default pattern for excluded directories on a platform with this
/// separator.
pub fn excluded_dirs_pattern(separator: char) -> (pattern: String)
    ensures
        pattern@ == default_excluded_dirs(separator),
{
    let mut pattern = String::from_str("(^|");
    append_separator_pattern(&mut pattern, separator);
    pattern.append(")(\\.git|\\.github|lib|src|target|tests)(");
    append_separator_pattern(&mut pattern, separator);
    pattern.append(")?$");
    pattern
}

fn append_requests(
    patterns: &Vec<String>,
    applies_to: EntryKind,
    effect: Effect,
    requests: &mut Vec<RuleRequest>,
)
    ensures
        request_views(final(requests)@) == request_views(old(requests)@) + listed(
            texts(patterns@),
            applies_to,
            effect,
        ),
{
    let ghost before = request_views(requests@);
    let ghost wanted = listed(texts(patterns@), applies_to, effect);
    let mut at: usize = 0;
    assert(before + wanted.take(0) =~= before);
    while at < patterns.len()
        invariant
            at <= patterns.len(),
            wanted == listed(texts(patterns@), applies_to, effect),
            request_views(requests@) == before + wanted.take(at as int),
        decreases patterns.len() - at,
    {
        let ghost so_far = request_views(requests@);
        let request = RuleRequest { pattern: patterns[at].clone(), applies_to, effect };
        requests.push(request);
        assert(request_views(requests@) =~= so_far.push(wanted[at as int]));
        assert(so_far.push(wanted[at as int]) =~= before + wanted.take(at + 1 as int));
        at += 1;
    }
    assert(wanted.take(at as int) =~= wanted);
}

fn append_request(pattern: String, applies_to: EntryKind, effect: Effect, requests: &mut Vec<
    RuleRequest,
>)
    ensures
        request_views(final(requests)@) == request_views(old(requests)@).push(
            FilterRuleView { pattern: pattern@, applies_to, effect },
        ),
{
    requests.push(RuleRequest { pattern, applies_to, effect });
    assert(request_views(requests@) =~= request_views(old(requests)@).push(
        FilterRuleView { pattern: pattern@, applies_to, effect },
    ));
}

/// The rule requests of a configuration, with the default exclusions, in
/// the order in which they are compiled.
pub fn rule_requests(
    exclude_files: &Vec<String>,
    exclude_dirs: &Vec<String>,
    include_files: &Vec<String>,
    include_dirs: &Vec<String>,
    separator: char,
) -> (requests: Vec<RuleRequest>)
    ensures
        request_views(requests@) == requested_rules(
            texts(exclude_files@),
            texts(exclude_dirs@),
            texts(include_files@),
            texts(include_dirs@),
            separator,
        ),
{
    let mut requests: Vec<RuleRequest> = Vec::new();
    assert(request_views(requests@) =~= Seq::<FilterRuleView>::empty());
    append_requests(exclude_files, EntryKind::File, Effect::Exclude, &mut requests);
    append_request(
        String::from_str("(lib|main|mod).rs$"),
        EntryKind::File,
        Effect::Exclude,
        &mut requests,
    );
    assert(request_views(requests@) =~= listed(
        texts(exclude_files@).push(default_excluded_files()),
        EntryKind::File,
        Effect::Exclude,
    ));
    let ghost first = request_views(requests@);
    append_requests(exclude_dirs, EntryKind::Directory, Effect::Exclude, &mut requests);
    append_request(
        excluded_dirs_pattern(separator),
        EntryKind::Directory,
        Effect::Exclude,
        &mut requests,
    );
    assert(request_views(requests@) =~= first + listed(
        texts(exclude_dirs@).push(default_excluded_dirs(separator)),
        EntryKind::Directory,
        Effect::Exclude,
    ));
    append_requests(include_files, EntryKind::File, Effect::Include, &mut requests);
    append_requests(include_dirs, EntryKind::Directory, Effect::Include, &mut requests);
    requests
}

/// The mathematical value of a `ScanConfig`.
pub ghost struct ScanConfigView {
    pub root: Seq<char>,
    pub separator: char,
    pub recursive: bool,
    pub filters: Seq<FilterRuleView>,
    pub output: OutputPolicyView,
    pub glue: Seq<char>,
    pub post_process: Option<Seq<char>>,
}

impl View for ScanConfig {
    type V = ScanConfigView;

    open spec fn view(&self) -> ScanConfigView {
        ScanConfigView {
            root: self.root@,
            separator: self.separator,
            recursive: self.recursive,
            filters: rule_views(self.filters@),
            output: self.output@,
            glue: self.glue@,
            post_process: optional_text(self.post_process),
        }
    }
}

impl RawConfig {
    /// The rules that these options ask for on a platform with this
    /// separator.
    pub open spec fn rules(&self, separator: char) -> Seq<FilterRuleView> {
        requested_rules(
            texts(self.exclude_files@),
            texts(self.exclude_dirs@),
            texts(self.include_files@),
            texts(self.include_dirs@),
            separator,
        )
    }

    /// Why the output options exclude each other, where they do.
    pub open spec fn conflict(&self) -> Option<Seq<char>> {
        policy_conflict(optional_text(self.inter_process), self.public_module, self.module)
    }

    /// What these options resolve to, where neither a conflict nor a
    /// pattern stands in the way.
    pub open spec fn resolution(&self, separator: char) -> ScanConfigView {
        ScanConfigView {
            root: normalized(self.directory@, separator),
            separator,
            recursive: self.recursive == Some(true),
            filters: self.rules(separator),
            output: policy_of(
                optional_text(self.inter_process),
                self.public_module,
                self.module,
            ),
            glue: Seq::<char>::empty(),
            post_process: optional_text(self.post_process),
        }
    }
}

/// Resolves the options of an invocation. The output options are checked
/// first, and a conflict among them is a configuration error. Then the
/// patterns are compiled, the given ones and the default exclusions, and
/// the first that does not compile is a pattern error. No other input
/// fails.
pub fn resolve_config(raw: RawConfig, separator: char) -> (resolved: Result<
    ScanConfig,
    ImportError,
>)
    ensures
        match resolved {
            Ok(config) => raw.conflict() is None && all_compile(raw.rules(separator)) && config@
                == raw.resolution(separator) && config@.output.consistent(),
            Err(fault) => match raw.conflict() {
                Some(reason) => fault == (ImportError::ConfigError {
                    message: fault->ConfigError_message,
                }) && fault.text() == reason,
                None => fault == (ImportError::PatternError {
                    message: fault->PatternError_message,
                }) && exists|at: int| #[trigger]
                    first_fault(raw.rules(separator), at) && fault.text() == compile_fault_text(
                        raw.rules(separator)[at],
                    ),
            },
        },
{
    let requests = rule_requests(
        &raw.exclude_files,
        &raw.exclude_dirs,
        &raw.include_files,
        &raw.include_dirs,
        separator,
    );
    let root = normalize(raw.directory.as_str(), separator);
    let recursive = match raw.recursive {
        Some(state) => state,
        None => false,
    };
    let output = match output_policy(raw.inter_process, raw.public_module, raw.module) {
        Ok(policy) => policy,
        Err(fault) => {
            return Err(fault);
        },
    };
    let filters = match compile_rules(&requests) {
        Ok(rules) => rules,
        Err(fault) => {
            return Err(fault);
        },
    };
    Ok(
        ScanConfig {
            root,
            separator,
            recursive,
            filters,
            output,
            glue: String::new(),
            post_process: raw.post_process,
        },
    )
}

} // verus!
