//! The rules of the command line: exit codes and the files of a model.

use crate::error::{HeretikError, HeretikErrorView};
use vstd::prelude::*;

verus! {

/// One link in the chain of causes of a failure.
pub enum Cause<'a> {
    /// An error of this library.
    Heretik(&'a HeretikError),
    /// Any other error, with its text.
    Other(String),
}

/// The exit code for an error of this library: 2 for a bad bitstream, 3 for a
/// bad model.
pub open spec fn exit_code(e: HeretikErrorView) -> i32 {
    match e {
        HeretikErrorView::Format(_) | HeretikErrorView::Integrity(_) => 2,
        HeretikErrorView::Predictor(_) => 3,
        HeretikErrorView::Coder(_) => 2,
    }
}

/// The exit code for a chain of causes, the outermost first: that of the first
/// error of this library, or 1 if there is none.
pub open spec fn chain_exit_code(chain: Seq<Cause<'_>>) -> i32
    decreases chain.len(),
{
    if chain.len() == 0 {
        1
    } else {
        match chain[0] {
            Cause::Heretik(e) => exit_code(e@),
            Cause::Other(_) => chain_exit_code(chain.skip(1)),
        }
    }
}

/// The exit code for a chain of causes, the outermost first.
pub fn map_error_to_exit_code(chain: &[Cause<'_>]) -> (code: i32)
    ensures
        code == chain_exit_code(chain@),
{
    let mut i: usize = 0;
    assert(chain@.skip(0) =~= chain@);
    while i < chain.len()
        invariant
            i <= chain@.len(),
            chain_exit_code(chain@) == chain_exit_code(chain@.skip(i as int)),
        decreases chain@.len() - i,
    {
        assert(chain@.skip(i as int)[0] == chain@[i as int]);
        assert(chain@.skip(i as int).skip(1) =~= chain@.skip(i + 1));
        match &chain[i] {
            Cause::Heretik(e) => {
                return match e {
                    HeretikError::Format(_) | HeretikError::Integrity(_) => 2,
                    HeretikError::Predictor(_) => 3,
                    HeretikError::Coder(_) => 2,
                };
            },
            Cause::Other(_) => {},
        }
        i = i + 1;
    }
    1
}

/// Context that is put around a failure does not change its exit code.
pub proof fn law_context_keeps_exit_code(context: Seq<Cause<'_>>, chain: Seq<Cause<'_>>)
    requires
        forall|i: int| 0 <= i < context.len() ==> (#[trigger] context[i]) is Other,
    ensures
        chain_exit_code(context + chain) == chain_exit_code(chain),
    decreases context.len(),
{
    let all = context + chain;
    if context.len() == 0 {
        assert(all =~= chain);
    } else {
        assert(context[0] is Other);
        assert(all.skip(1) =~= context.skip(1) + chain);
        assert forall|i: int| 0 <= i < context.skip(1).len() implies (#[trigger] context.skip(
            1,
        )[i]) is Other by {
            assert(context[i + 1] is Other);
        }
        law_context_keeps_exit_code(context.skip(1), chain);
    }
}

/// A failure always has one of the exit codes 1, 2 and 3.
pub proof fn law_exit_code_range(chain: Seq<Cause<'_>>)
    ensures
        1 <= chain_exit_code(chain) <= 3,
        chain_exit_code(chain) == 1 <==> forall|i: int|
            0 <= i < chain.len() ==> (#[trigger] chain[i]) is Other,
    decreases chain.len(),
{
    if chain.len() > 0 {
        let rest = chain.skip(1);
        law_exit_code_range(rest);
        if chain[0] is Other {
            if chain_exit_code(chain) == 1 {
                assert forall|i: int| 0 <= i < chain.len() implies (#[trigger] chain[i]) is Other by {
                    if i > 0 {
                        assert(rest[i - 1] is Other);
                    }
                }
            }
            if forall|i: int| 0 <= i < chain.len() ==> (#[trigger] chain[i]) is Other {
                assert forall|i: int| 0 <= i < rest.len() implies (#[trigger] rest[i]) is Other by {
                    assert(chain[i + 1] is Other);
                }
            }
        }
    }
}

/// The first error of this library in a chain decides its exit code: 3 for an
/// error of the predictor, 2 for any other.
pub proof fn law_first_library_error_decides(chain: Seq<Cause<'_>>, k: int)
    requires
        0 <= k < chain.len(),
        chain[k] is Heretik,
        forall|i: int| 0 <= i < k ==> (#[trigger] chain[i]) is Other,
    ensures
        chain_exit_code(chain) == (match *chain[k]->Heretik_0 {
            HeretikError::Coder(_) => 2i32,
            HeretikError::Predictor(_) => 3i32,
            HeretikError::Integrity(_) => 2i32,
            HeretikError::Format(_) => 2i32,
        }),
{
    let context = chain.take(k);
    let rest = chain.skip(k);
    assert forall|i: int| 0 <= i < context.len() implies (#[trigger] context[i]) is Other by {
        assert(chain[i] is Other);
    }
    law_context_keeps_exit_code(context, rest);
    assert(context + rest =~= chain);
    assert(rest[0] == chain[k]);
}

/// Whether a model can be loaded from its two files, or which one is missing.
/// The weights are looked for first.
pub fn check_model_files(
    model_path: &str,
    model_exists: bool,
    config_path: &str,
    config_exists: bool,
) -> (r: Result<(), String>)
    ensures
        !model_exists ==> (r matches Err(text) && text@ == model_path@ + " not found"@),
        model_exists && !config_exists ==> (r matches Err(text) && text@ == config_path@
            + " not found"@),
        model_exists && config_exists ==> r is Ok,
{
    if !model_exists {
        let mut text = String::from_str(model_path);
        text.append(" not found");
        return Err(text);
    }
    if !config_exists {
        let mut text = String::from_str(config_path);
        text.append(" not found");
        return Err(text);
    }
    Ok(())
}

/// Whether a model that the user named can be loaded: its configuration must
/// be there.
pub fn check_model_config(config_path: &str, config_exists: bool) -> (r: Result<(), String>)
    ensures
        config_exists ==> r is Ok,
        !config_exists ==> (r matches Err(text) && text@ == "model config not found at "@
            + config_path@),
{
    if config_exists {
        Ok(())
    } else {
        let mut text = String::from_str("model config not found at ");
        text.append(config_path);
        Err(text)
    }
}

/// A step of loading a model from its files that can fail.
pub enum LoadStep {
    /// Reading the configuration.
    ReadConfig,
    /// Parsing the configuration.
    ParseConfig,
    /// Reading the weights of the default model.
    ReadDefaultModel,
    /// Reading the weights of a model that the user named.
    ReadModel,
    /// Building the model.
    Load,
}

/// What precedes the cause in the complaint about a failed step.
pub open spec fn load_prefix(step: LoadStep) -> Seq<char> {
    match step {
        LoadStep::ReadConfig => "failed to read config: "@,
        LoadStep::ParseConfig => "failed to parse config: "@,
        LoadStep::ReadDefaultModel => "failed to read model file: "@,
        LoadStep::ReadModel => "failed to read model: "@,
        LoadStep::Load => "model load failed: "@,
    }
}

/// A complaint says in words which step failed.
pub proof fn law_load_steps_are_told_apart()
    ensures
        load_prefix(LoadStep::ReadConfig) == "failed to read config: "@,
        load_prefix(LoadStep::ParseConfig) == "failed to parse config: "@,
        load_prefix(LoadStep::ReadDefaultModel) == "failed to read model file: "@,
        load_prefix(LoadStep::ReadModel) == "failed to read model: "@,
        load_prefix(LoadStep::Load) == "model load failed: "@,
{
}

/// The complaint about a failed step with the text of its cause.
pub fn load_failed(step: LoadStep, cause: &str) -> (text: String)
    ensures
        text@ == load_prefix(step) + cause@,
{
    let prefix: &str = match step {
        LoadStep::ReadConfig => "failed to read config: ",
        LoadStep::ParseConfig => "failed to parse config: ",
        LoadStep::ReadDefaultModel => "failed to read model file: ",
        LoadStep::ReadModel => "failed to read model: ",
        LoadStep::Load => "model load failed: ",
    };
    let mut text = String::from_str(prefix);
    text.append(cause);
    text
}

} // verus!
