use vstd::prelude::*;
use vstd::string::StringExecFns;
use crate::error::ImportError;
use crate::resolve::{join, texts, ModulePath, ModulePathView};
use crate::text::{chars_of, text_of};

verus! {

/// How the declaration of one module is written.
#[derive(Debug)]
pub enum OutputPolicy {
    /// Each module's name is put into a template, in place of its marker.
    InterProcessTemplate { template: String },
    /// Each module is declared, with or without `pub` and `mod`, and with an
    /// entry appended to its name where one is given.
    RawDeclaration { is_public: bool, is_module: bool, entry_suffix: Option<String> },
}

/// The mathematical value of an `OutputPolicy`.
pub ghost enum OutputPolicyView {
    InterProcessTemplate { template: Seq<char> },
    RawDeclaration { is_public: bool, is_module: bool, entry_suffix: Option<Seq<char>> },
}

impl View for OutputPolicy {
    type V = OutputPolicyView;

    open spec fn view(&self) -> OutputPolicyView {
        match self {
            OutputPolicy::InterProcessTemplate { template } => {
                OutputPolicyView::InterProcessTemplate { template: template@ }
            },
            OutputPolicy::RawDeclaration { is_public, is_module, entry_suffix } => {
                OutputPolicyView::RawDeclaration {
                    is_public: *is_public,
                    is_module: *is_module,
                    entry_suffix: match entry_suffix {
                        Some(entry) => Some(entry@),
                        None => None,
                    },
                }
            },
        }
    }
}

impl OutputPolicyView {
    /// A public declaration has the module form.
    pub open spec fn consistent(self) -> bool {
        match self {
            OutputPolicyView::InterProcessTemplate { .. } => true,
            OutputPolicyView::RawDeclaration { is_public, is_module, .. } => is_public
                ==> is_module,
        }
    }
}

/// The token between the segments of a module's name.
pub open spec fn module_separator() -> Seq<char> {
    seq![':', ':']
}

/// The name of a module as it is written in a declaration.
pub open spec fn module_name(name: ModulePathView) -> Seq<char> {
    join(name.segments, module_separator())
}

/// `template` with `value` in place of each marker `{}`, the markers taken
/// from left to right.
pub open spec fn fill(template: Seq<char>, value: Seq<char>) -> Seq<char>
    decreases template.len(),
{
    if template.len() == 0 {
        Seq::<char>::empty()
    } else if template.len() >= 2 && template[0] == '{' && template[1] == '}' {
        value + fill(template.skip(2), value)
    } else {
        seq![template[0]] + fill(template.drop_first(), value)
    }
}

/// The words before the module's name in a raw declaration.
pub open spec fn keywords(is_public: bool, is_module: bool) -> Seq<char> {
    if is_public && is_module {
        "pub mod "@
    } else if is_module {
        "mod "@
    } else {
        Seq::<char>::empty()
    }
}

/// What follows the module's name in a raw declaration, before the
/// terminator.
pub open spec fn entry_part(entry_suffix: Option<Seq<char>>) -> Seq<char> {
    match entry_suffix {
        Some(entry) => if entry.len() > 0 {
            module_separator() + entry
        } else {
            Seq::<char>::empty()
        },
        None => Seq::<char>::empty(),
    }
}

/// The declaration of a module under a consistent policy.
pub open spec fn declaration(policy: OutputPolicyView, name: ModulePathView) -> Seq<char> {
    match policy {
        OutputPolicyView::InterProcessTemplate { template } => fill(template, module_name(name)),
        OutputPolicyView::RawDeclaration { is_public, is_module, entry_suffix } => keywords(
            is_public,
            is_module,
        ) + module_name(name) + entry_part(entry_suffix) + seq![';'],
    }
}

/// The text of the error for a public declaration without the module form.
pub open spec fn public_without_module_text() -> Seq<char> {
    "You must set the module to true to use public_module."@
}

/// Puts `value` in place of each marker `{}` of `template`.
pub fn fill_template(template: &str, value: &str) -> (filled: String)
    ensures
        filled@ == fill(template@, value@),
{
    let pattern = chars_of(template);
    let inset = chars_of(value);
    let mut out: Vec<char> = Vec::new();
    let mut at: usize = 0;
    assert(pattern@.skip(0) =~= pattern@);
    assert(out@ + fill(pattern@, inset@) =~= fill(pattern@, inset@));
    while at < pattern.len()
        invariant
            at <= pattern.len(),
            out@ + fill(pattern@.skip(at as int), inset@) == fill(pattern@, inset@),
        decreases pattern.len() - at,
    {
        let ghost rest = pattern@.skip(at as int);
        let ghost before = out@;
        if pattern[at] == '{' && at + 1 < pattern.len() && pattern[at + 1] == '}' {
            let mut k: usize = 0;
            while k < inset.len()
                invariant
                    k <= inset.len(),
                    out@ == before + inset@.subrange(0, k as int),
                decreases inset.len() - k,
            {
                out.push(inset[k]);
                assert(inset@.subrange(0, k as int).push(inset@[k as int]) =~= inset@.subrange(
                    0,
                    k + 1 as int,
                ));
                k += 1;
            }
            assert(inset@.subrange(0, k as int) =~= inset@);
            assert(rest.skip(2) =~= pattern@.skip(at + 2 as int));
            assert((before + inset@) + fill(rest.skip(2), inset@) =~= before + (inset@ + fill(
                rest.skip(2),
                inset@,
            )));
            at += 2;
        } else {
            out.push(pattern[at]);
            assert(rest.drop_first() =~= pattern@.skip(at + 1 as int));
            assert(before.push(rest[0]) + fill(rest.drop_first(), inset@) =~= before + (seq![
                rest[0],
            ] + fill(rest.drop_first(), inset@)));
            at += 1;
        }
    }
    assert(out@ + Seq::<char>::empty() =~= out@);
    text_of(&out)
}

/// Joins texts, with `glue` between each two.
pub fn join_texts(parts: &Vec<String>, glue: &str) -> (joined: String)
    ensures
        joined@ == join(texts(parts@), glue@),
{
    let mut joined = String::new();
    let mut at: usize = 0;
    while at < parts.len()
        invariant
            at <= parts.len(),
            joined@ == join(texts(parts@).take(at as int), glue@),
        decreases parts.len() - at,
    {
        let ghost upto = texts(parts@).take(at + 1 as int);
        assert(upto.drop_last() =~= texts(parts@).take(at as int));
        assert(upto.last() == parts@[at as int]@);
        if at > 0 {
            joined.append(glue);
        } else {
            assert(joined@ + parts@[at as int]@ =~= parts@[at as int]@);
        }
        joined.append(parts[at].as_str());
        at += 1;
    }
    assert(texts(parts@).take(at as int) =~= texts(parts@));
    joined
}

/// Writes the declaration of one module. Fails with a configuration error
/// where the policy asks for a public declaration without the module form.
pub fn declare(policy: &OutputPolicy, name: &ModulePath) -> (written: Result<String, ImportError>)
    ensures
        match written {
            Ok(text) => policy@.consistent() && text@ == declaration(policy@, name@),
            Err(fault) => !policy@.consistent() && fault == (ImportError::ConfigError {
                message: fault->ConfigError_message,
            }) && fault.text() == public_without_module_text(),
        },
{
    let module = join_texts(&name.segments, "::");
    proof {
        reveal_strlit("::");
        assert("::"@ =~= module_separator());
    }
    match policy {
        OutputPolicy::InterProcessTemplate { template } => Ok(
            fill_template(template.as_str(), module.as_str()),
        ),
        OutputPolicy::RawDeclaration { is_public, is_module, entry_suffix } => {
            let mut text = if *is_public && *is_module {
                String::from_str("pub mod ")
            } else if *is_module {
                String::from_str("mod ")
            } else if *is_public {
                return Err(
                    ImportError::ConfigError {
                        message: String::from_str(
                            "You must set the module to true to use public_module.",
                        ),
                    },
                );
            } else {
                String::new()
            };
            text.append(module.as_str());
            match entry_suffix {
                Some(entry) => {
                    if entry.as_str().unicode_len() > 0 {
                        text.append("::");
                        text.append(entry.as_str());
                        assert(text@ =~= keywords(*is_public, *is_module) + module_name(name@) + (
                        module_separator() + entry@));
                    } else {
                        assert(text@ =~= keywords(*is_public, *is_module) + module_name(name@)
                            + Seq::<char>::empty());
                    }
                },
                None => {
                    assert(text@ =~= keywords(*is_public, *is_module) + module_name(name@)
                        + Seq::<char>::empty());
                },
            }
            text.append(";");
            proof {
                reveal_strlit(";");
                assert(";"@ =~= seq![';']);
            }
            Ok(text)
        },
    }
}

} // verus!
