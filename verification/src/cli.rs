//! The rules of the command line: where inputs come from, and which flags go together.
use vstd::prelude::*;
use crate::text::{push_str, string_from_chars};

verus! {

/// Where an input comes from: standard input, or the file named by the argument at an index.
#[derive(Clone, Copy, PartialEq, Eq, Structural, Debug)]
pub enum InputSource {
    Stdin,
    File(usize),
}

pub open spec fn spec_resolve_inputs(is_dash: Seq<bool>) -> Seq<InputSource> {
    if is_dash.len() == 0 {
        seq![InputSource::Stdin]
    } else {
        Seq::new(is_dash.len(), |i: int| if is_dash[i] { InputSource::Stdin } else { InputSource::File(i as usize) })
    }
}

/// The inputs named by the arguments, each given as whether it is `-`: standard input where
/// no argument names one, and where an argument is `-`.
pub fn resolve_inputs(is_dash: &Vec<bool>) -> (res: Vec<InputSource>)
    ensures
        res@ == spec_resolve_inputs(is_dash@),
{
    let mut out: Vec<InputSource> = Vec::new();
    if is_dash.len() == 0 {
        out.push(InputSource::Stdin);
        proof {
            assert(out@ =~= spec_resolve_inputs(is_dash@));
        }
        return out;
    }
    let mut i: usize = 0;
    while i < is_dash.len()
        invariant
            i <= is_dash@.len(),
            out@.len() == i,
            forall|j: int| 0 <= j < i ==> out@[j] == (if is_dash@[j] { InputSource::Stdin } else { InputSource::File(j as usize) }),
        decreases is_dash@.len() - i,
    {
        if is_dash[i] {
            out.push(InputSource::Stdin);
        } else {
            out.push(InputSource::File(i));
        }
        i = i + 1;
    }
    proof {
        assert(out@ =~= spec_resolve_inputs(is_dash@));
    }
    out
}

/// A combination of flags and inputs that the command line refuses.
#[derive(Clone, Copy, PartialEq, Eq, Structural, Debug)]
pub enum CliError {
    WriteWithCheck,
    WriteWithOutput,
    CheckWithOutput,
    StdinMoreThanOnce,
    StdinMixedWithFiles,
    WriteWithoutInputs,
    WriteWithStdin,
    OutputWithSeveralInputs,
    SeveralInputsWithoutMode,
    ZeroMaxWidth,
}

pub open spec fn spec_cli_error_message(e: CliError) -> Seq<char> {
    match e {
        CliError::WriteWithCheck => "--write and --check cannot be used together"@,
        CliError::WriteWithOutput => "--write and --output cannot be used together"@,
        CliError::CheckWithOutput => "--check and --output cannot be used together"@,
        CliError::StdinMoreThanOnce => "stdin may only be specified once"@,
        CliError::StdinMixedWithFiles => "'-' cannot be mixed with file paths"@,
        CliError::WriteWithoutInputs => "--write requires at least one input file"@,
        CliError::WriteWithStdin => "--write only supports file inputs"@,
        CliError::OutputWithSeveralInputs => "--output only supports a single input"@,
        CliError::SeveralInputsWithoutMode => "multiple input files require --check or --write"@,
        CliError::ZeroMaxWidth => "--max-width must be greater than zero"@,
    }
}

impl CliError {
    /// The text that explains the refusal.
    pub fn message(&self) -> (res: String)
        ensures
            res@ == spec_cli_error_message(*self),
    {
        let mut out: Vec<char> = Vec::new();
        match self {
            CliError::WriteWithCheck => push_str(&mut out, "--write and --check cannot be used together"),
            CliError::WriteWithOutput => push_str(&mut out, "--write and --output cannot be used together"),
            CliError::CheckWithOutput => push_str(&mut out, "--check and --output cannot be used together"),
            CliError::StdinMoreThanOnce => push_str(&mut out, "stdin may only be specified once"),
            CliError::StdinMixedWithFiles => push_str(&mut out, "'-' cannot be mixed with file paths"),
            CliError::WriteWithoutInputs => push_str(&mut out, "--write requires at least one input file"),
            CliError::WriteWithStdin => push_str(&mut out, "--write only supports file inputs"),
            CliError::OutputWithSeveralInputs => push_str(&mut out, "--output only supports a single input"),
            CliError::SeveralInputsWithoutMode => push_str(&mut out, "multiple input files require --check or --write"),
            CliError::ZeroMaxWidth => push_str(&mut out, "--max-width must be greater than zero"),
        }
        proof {
            assert(out@ =~= spec_cli_error_message(*self));
        }
        string_from_chars(&out)
    }
}

/// How many of the inputs are standard input.
pub open spec fn stdin_count(inputs: Seq<InputSource>) -> nat
    decreases inputs.len(),
{
    if inputs.len() == 0 {
        0
    } else {
        stdin_count(inputs.drop_last()) + if inputs.last() == InputSource::Stdin { 1nat } else { 0nat }
    }
}

/// The first rule, in this order, that the flags and inputs break.
pub open spec fn spec_validate_cli(inputs: Seq<InputSource>, write: bool, check: bool, has_output: bool, max_width: usize) -> Result<(), CliError> {
    let stdin = stdin_count(inputs);
    if write && check {
        Err(CliError::WriteWithCheck)
    } else if write && has_output {
        Err(CliError::WriteWithOutput)
    } else if check && has_output {
        Err(CliError::CheckWithOutput)
    } else if stdin > 1 {
        Err(CliError::StdinMoreThanOnce)
    } else if stdin == 1 && inputs.len() > 1 {
        Err(CliError::StdinMixedWithFiles)
    } else if write && inputs.len() == 0 {
        Err(CliError::WriteWithoutInputs)
    } else if write && stdin > 0 {
        Err(CliError::WriteWithStdin)
    } else if has_output && inputs.len() > 1 {
        Err(CliError::OutputWithSeveralInputs)
    } else if !write && !check && !has_output && inputs.len() > 1 {
        Err(CliError::SeveralInputsWithoutMode)
    } else if max_width == 0 {
        Err(CliError::ZeroMaxWidth)
    } else {
        Ok(())
    }
}

proof fn lemma_stdin_count_bound(inputs: Seq<InputSource>)
    ensures
        stdin_count(inputs) <= inputs.len(),
    decreases inputs.len(),
{
    if inputs.len() > 0 {
        lemma_stdin_count_bound(inputs.drop_last());
    }
}

/// Where every input is a file, none is standard input.
proof fn lemma_files_only(inputs: Seq<InputSource>)
    requires
        forall|i: int| 0 <= i < inputs.len() ==> #[trigger] inputs[i] is File,
    ensures
        stdin_count(inputs) == 0,
    decreases inputs.len(),
{
    if inputs.len() > 0 {
        let rest = inputs.drop_last();
        assert forall|i: int| 0 <= i < rest.len() implies #[trigger] rest[i] is File by {
            assert(rest[i] == inputs[i]);
        }
        lemma_files_only(rest);
        assert(inputs.last() == inputs[inputs.len() - 1]);
    }
}

/// Files, one or several, are accepted with exactly one of `--write` and `--check` (and no
/// `--output`), where the width is above zero: formatting several files in place, or checking
/// them, needs nothing more.
pub proof fn law_files_with_a_mode_are_accepted(inputs: Seq<InputSource>, write: bool, check: bool, max_width: usize)
    requires
        inputs.len() > 0,
        forall|i: int| 0 <= i < inputs.len() ==> #[trigger] inputs[i] is File,
        write != check,
        max_width > 0,
    ensures
        spec_validate_cli(inputs, write, check, false, max_width) == Ok::<(), CliError>(()),
{
    lemma_files_only(inputs);
}

/// One input, a file or standard input, is accepted with no mode or with `--output`, where
/// the width is above zero.
pub proof fn law_one_input_is_accepted(input: InputSource, has_output: bool, max_width: usize)
    requires
        max_width > 0,
    ensures
        spec_validate_cli(seq![input], false, false, has_output, max_width) == Ok::<(), CliError>(()),
{
    let inputs = seq![input];
    assert(inputs.drop_last() =~= Seq::<InputSource>::empty());
    assert(stdin_count(inputs.drop_last()) == 0);
    assert(inputs.last() == input);
    assert(stdin_count(inputs) <= 1);
}

/// Several inputs are refused for want of a mode only where none of `--write`, `--check` and
/// `--output` is given.
pub proof fn law_several_inputs_refused_only_without_a_mode(
    inputs: Seq<InputSource>,
    write: bool,
    check: bool,
    has_output: bool,
    max_width: usize,
)
    ensures
        spec_validate_cli(inputs, write, check, has_output, max_width) == Err::<(), CliError>(
            CliError::SeveralInputsWithoutMode,
        ) ==> !write && !check && !has_output && inputs.len() > 1,
{
}

/// Checks that the flags and the inputs go together.
pub fn validate_cli(inputs: &Vec<InputSource>, write: bool, check: bool, has_output: bool, max_width: usize) -> (res: Result<(), CliError>)
    ensures
        res == spec_validate_cli(inputs@, write, check, has_output, max_width),
{
    let mut stdin: usize = 0;
    let mut i: usize = 0;
    while i < inputs.len()
        invariant
            i <= inputs@.len(),
            stdin == stdin_count(inputs@.take(i as int)),
            stdin <= i,
        decreases inputs@.len() - i,
    {
        proof {
            assert(inputs@.take(i + 1).drop_last() =~= inputs@.take(i as int));
            lemma_stdin_count_bound(inputs@.take(i as int));
        }
        if inputs[i] == InputSource::Stdin {
            stdin = stdin + 1;
        }
        i = i + 1;
    }
    proof {
        assert(inputs@.take(i as int) =~= inputs@);
    }
    if write && check {
        return Err(CliError::WriteWithCheck);
    }
    if write && has_output {
        return Err(CliError::WriteWithOutput);
    }
    if check && has_output {
        return Err(CliError::CheckWithOutput);
    }
    if stdin > 1 {
        return Err(CliError::StdinMoreThanOnce);
    }
    if stdin == 1 && inputs.len() > 1 {
        return Err(CliError::StdinMixedWithFiles);
    }
    if write && inputs.len() == 0 {
        return Err(CliError::WriteWithoutInputs);
    }
    if write && stdin > 0 {
        return Err(CliError::WriteWithStdin);
    }
    if has_output && inputs.len() > 1 {
        return Err(CliError::OutputWithSeveralInputs);
    }
    if !write && !check && !has_output && inputs.len() > 1 {
        return Err(CliError::SeveralInputsWithoutMode);
    }
    if max_width == 0 {
        return Err(CliError::ZeroMaxWidth);
    }
    Ok(())
}

} // verus!
