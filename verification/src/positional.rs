use vstd::prelude::*;
use vstd::string::StringExecFns;
use crate::config::{
    all_compile, compile_fault_text, compile_rules, first_fault, normalize, normalized,
    requested_rules, rule_requests, ScanConfig, ScanConfigView,
};
use crate::error::ImportError;
use crate::filter::FilterRuleView;
use crate::output::{public_without_module_text, OutputPolicy, OutputPolicyView};
use crate::resolve::texts;
use crate::text::{chars_of, decimal, decimal_text, push_char, text_of};

verus! {

/// How far a list of parameters has been read: the parameters that are
/// complete, the one being read, whether the reader is inside a string and
/// behind an escaping backslash, and the place of the character that is not
/// allowed, where there is one.
pub ghost struct Reading {
    pub done: Seq<Seq<char>>,
    pub current: Seq<char>,
    pub in_string: bool,
    pub escaped: bool,
    pub fault: Option<nat>,
}

/// Reads a list of parameters: strings in double quotes, with commas
/// between them.
///
/// Outside a string a comma ends a parameter and a space is passed over;
/// any other character but a quote is not allowed. A quote that is not
/// escaped opens or closes a string. Inside a string a backslash escapes the
/// character after it, and every other character belongs to the parameter.
/// Reading stops at the first character that is not allowed; its place is
/// counted from one.
pub open spec fn read_parameters(input: Seq<char>) -> Reading
    decreases input.len(),
{
    if input.len() == 0 {
        Reading {
            done: Seq::<Seq<char>>::empty(),
            current: Seq::<char>::empty(),
            in_string: false,
            escaped: false,
            fault: None,
        }
    } else {
        let before = read_parameters(input.drop_last());
        let c = input.last();
        if before.fault is Some {
            before
        } else if c == ',' && !before.in_string {
            Reading {
                done: before.done.push(before.current),
                current: Seq::<char>::empty(),
                ..before
            }
        } else if c == ' ' && !before.in_string {
            before
        } else if c == '"' && !before.escaped {
            Reading { in_string: !before.in_string, ..before }
        } else if c == '\\' && !before.escaped && before.in_string {
            Reading { escaped: true, ..before }
        } else if before.in_string {
            Reading { current: before.current.push(c), escaped: false, ..before }
        } else {
            Reading { fault: Some(input.len()), ..before }
        }
    }
}

/// The error text for a character that is not allowed.
pub open spec fn character_fault_text(c: char) -> Seq<char> {
    "Invalid character: "@.push(c)
}

/// Reads the parameters of a positional invocation. Fails with a syntax
/// error at the first character outside a string that is neither a comma,
/// a space nor a quote.
pub fn parse_parameters(input: &str) -> (parsed: Result<Vec<String>, ImportError>)
    ensures
        match parsed {
            Ok(parameters) => read_parameters(input@).fault is None && texts(parameters@)
                == read_parameters(input@).done.push(read_parameters(input@).current),
            Err(fault) => {
                &&& read_parameters(input@).fault matches Some(place)
                &&& fault matches ImportError::SyntaxError { cursor, message }
                &&& cursor == place
                &&& message@ == character_fault_text(input@[place - 1])
            },
        },
{
    let chars = chars_of(input);
    let mut parameters: Vec<String> = Vec::new();
    let mut parameter: Vec<char> = Vec::new();
    let mut is_escape = false;
    let mut is_string = false;
    let mut at: usize = 0;
    assert(chars@.take(0) =~= Seq::<char>::empty());
    assert(texts(parameters@) =~= Seq::<Seq<char>>::empty());
    while at < chars.len()
        invariant
            at <= chars.len(),
            chars@ == input@,
            read_parameters(chars@.take(at as int)) == (Reading {
                done: texts(parameters@),
                current: parameter@,
                in_string: is_string,
                escaped: is_escape,
                fault: None,
            }),
        decreases chars.len() - at,
    {
        let c = chars[at];
        let ghost upto = chars@.take(at + 1 as int);
        assert(upto.drop_last() =~= chars@.take(at as int));
        assert(upto.last() == c);
        if c == ',' && !is_string {
            let ghost before = texts(parameters@);
            parameters.push(text_of(&parameter));
            assert(texts(parameters@) =~= before.push(parameter@));
            parameter = Vec::new();
        } else if c == ' ' && !is_string {
        } else if c == '"' && !is_escape {
            is_string = !is_string;
        } else if c == '\\' && !is_escape && is_string {
            is_escape = true;
        } else if is_string {
            parameter.push(c);
            is_escape = false;
        } else {
            let mut message = String::from_str("Invalid character: ");
            push_char(&mut message, c);
            proof {
                lemma_fault_stays(chars@, at + 1 as int);
            }
            return Err(ImportError::SyntaxError { cursor: at + 1, message });
        }
        at += 1;
    }
    assert(chars@.take(at as int) =~= chars@);
    let ghost before = texts(parameters@);
    parameters.push(text_of(&parameter));
    assert(texts(parameters@) =~= before.push(parameter@));
    Ok(parameters)
}

proof fn lemma_fault_stays(input: Seq<char>, upto: int)
    requires
        0 <= upto <= input.len(),
        read_parameters(input.take(upto)).fault is Some,
    ensures
        read_parameters(input) == read_parameters(input.take(upto)),
    decreases input.len() - upto,
{
    if upto == input.len() {
        assert(input.take(upto) =~= input);
    } else {
        assert(input.drop_last().take(upto) =~= input.take(upto));
        lemma_fault_stays(input.drop_last(), upto);
    }
}

/// The rules of a positional invocation: its pattern, which a file must
/// match to take part, and the default exclusions.
pub open spec fn positional_rules(pattern: Seq<char>, separator: char) -> Seq<FilterRuleView> {
    requested_rules(
        Seq::<Seq<char>>::empty(),
        Seq::<Seq<char>>::empty(),
        seq![pattern],
        Seq::<Seq<char>>::empty(),
        separator,
    )
}

/// What a positional invocation resolves to: a scan of the one directory,
/// raw declarations with the keywords and the entry asked for, one on each
/// line.
pub open spec fn positional_config(
    pub_keyword: bool,
    mod_keyword: bool,
    directory: Seq<char>,
    pattern: Seq<char>,
    entry: Seq<char>,
    separator: char,
) -> ScanConfigView {
    ScanConfigView {
        root: normalized(directory, separator),
        separator,
        recursive: false,
        filters: positional_rules(pattern, separator),
        output: OutputPolicyView::RawDeclaration {
            is_public: pub_keyword,
            is_module: mod_keyword,
            entry_suffix: Some(entry),
        },
        glue: seq!['\n'],
        post_process: None,
    }
}

/// Resolves a positional invocation. Fails with a configuration error
/// where `pub` is asked for without `mod`, else with a pattern error where
/// the pattern, or a default exclusion, does not compile.
pub fn module_handler(
    pub_keyword: bool,
    mod_keyword: bool,
    directory: String,
    pattern: String,
    entry: String,
    separator: char,
) -> (resolved: Result<ScanConfig, ImportError>)
    ensures
        match resolved {
            Ok(config) => (pub_keyword ==> mod_keyword) && all_compile(
                positional_rules(pattern@, separator),
            ) && config@ == positional_config(
                pub_keyword,
                mod_keyword,
                directory@,
                pattern@,
                entry@,
                separator,
            ),
            Err(fault) => if pub_keyword && !mod_keyword {
                fault == (ImportError::ConfigError { message: fault->ConfigError_message })
                    && fault.text() == public_without_module_text()
            } else {
                fault == (ImportError::PatternError { message: fault->PatternError_message })
                    && exists|at: int| #[trigger]
                    first_fault(positional_rules(pattern@, separator), at) && fault.text()
                        == compile_fault_text(positional_rules(pattern@, separator)[at])
            },
        },
{
    if pub_keyword && !mod_keyword {
        return Err(
            ImportError::ConfigError {
                message: String::from_str(
                    "You must set the module to true to use public_module.",
                ),
            },
        );
    }
    let nothing: Vec<String> = Vec::new();
    let mut include_files: Vec<String> = Vec::new();
    include_files.push(pattern);
    assert(texts(nothing@) =~= Seq::<Seq<char>>::empty());
    assert(texts(include_files@) =~= seq![pattern@]);
    let requests = rule_requests(&nothing, &nothing, &include_files, &nothing, separator);
    let filters = match compile_rules(&requests) {
        Ok(rules) => rules,
        Err(fault) => {
            return Err(fault);
        },
    };
    let root = normalize(directory.as_str(), separator);
    let mut glue = String::new();
    push_char(&mut glue, '\n');
    assert(glue@ =~= seq!['\n']);
    Ok(
        ScanConfig {
            root,
            separator,
            recursive: false,
            filters,
            output: OutputPolicy::RawDeclaration {
                is_public: pub_keyword,
                is_module: mod_keyword,
                entry_suffix: Some(entry),
            },
            glue,
            post_process: None,
        },
    )
}

/// The error text for a wrong number of parameters: it gives the number
/// that was found.
pub open spec fn count_fault_text(count: nat) -> Seq<char> {
    "Invalid number of parameters: "@ + decimal_text(count)
}

/// What a positional invocation of `wanted` parameters resolves to, or why
/// it does not. The parameters are the directory, the pattern and, where
/// there is a third, the entry.
pub open spec fn positional_outcome(
    input: Seq<char>,
    wanted: nat,
    pub_keyword: bool,
    mod_keyword: bool,
    separator: char,
    resolved: Result<ScanConfig, ImportError>,
) -> bool {
    let reading = read_parameters(input);
    let parameters = reading.done.push(reading.current);
    match reading.fault {
        Some(place) => {
            &&& resolved matches Err(ImportError::SyntaxError { cursor, message })
            &&& cursor == place
            &&& message@ == character_fault_text(input[place - 1])
        },
        None => if parameters.len() != wanted {
            &&& resolved matches Err(ImportError::SyntaxError { cursor, message })
            &&& cursor == 0
            &&& message@ == count_fault_text(parameters.len())
        } else {
            let entry = if wanted == 3 {
                parameters[2]
            } else {
                Seq::<char>::empty()
            };
            match resolved {
                Ok(config) => all_compile(positional_rules(parameters[1], separator)) && config@
                    == positional_config(
                    pub_keyword,
                    mod_keyword,
                    parameters[0],
                    parameters[1],
                    entry,
                    separator,
                ),
                Err(fault) => fault == (ImportError::PatternError {
                    message: fault->PatternError_message,
                }) && exists|at: int| #[trigger]
                    first_fault(positional_rules(parameters[1], separator), at) && fault.text()
                        == compile_fault_text(positional_rules(parameters[1], separator)[at]),
            }
        },
    }
}

fn positional(input: &str, with_entry: bool, pub_keyword: bool, mod_keyword: bool, separator: char)
    -> (resolved: Result<ScanConfig, ImportError>)
    requires
        pub_keyword ==> mod_keyword,
    ensures
        positional_outcome(
            input@,
            if with_entry {
                3
            } else {
                2
            },
            pub_keyword,
            mod_keyword,
            separator,
            resolved,
        ),
{
    let parameters = match parse_parameters(input) {
        Ok(parameters) => parameters,
        Err(fault) => {
            return Err(fault);
        },
    };
    let wanted: usize = if with_entry {
        3
    } else {
        2
    };
    if parameters.len() != wanted {
        let mut message = String::from_str("Invalid number of parameters: ");
        let count = decimal(parameters.len());
        message.append(count.as_str());
        return Err(ImportError::SyntaxError { cursor: 0, message });
    }
    let directory = parameters[0].clone();
    let pattern = parameters[1].clone();
    let entry = if with_entry {
        parameters[2].clone()
    } else {
        String::new()
    };
    module_handler(pub_keyword, mod_keyword, directory, pattern, entry, separator)
}

/// Resolves `"directory", "pattern"` into a scan that declares each module
/// found as `pub mod`.
pub fn import_pub_modules(input: &str, separator: char) -> (resolved: Result<
    ScanConfig,
    ImportError,
>)
    ensures
        positional_outcome(input@, 2, true, true, separator, resolved),
{
    positional(input, false, true, true, separator)
}

/// Resolves `"directory", "pattern"` into a scan that declares each module
/// found as `mod`.
pub fn import_modules(input: &str, separator: char) -> (resolved: Result<ScanConfig, ImportError>)
    ensures
        positional_outcome(input@, 2, false, true, separator, resolved),
{
    positional(input, false, false, true, separator)
}

/// Resolves `"directory", "pattern", "entry"` into a scan that writes, for
/// each module found, its name followed by the entry.
pub fn import_scope_modules(input: &str, separator: char) -> (resolved: Result<
    ScanConfig,
    ImportError,
>)
    ensures
        positional_outcome(input@, 3, false, false, separator, resolved),
{
    positional(input, true, false, false, separator)
}

} // verus!
