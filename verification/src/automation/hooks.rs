//! Post-transcription hooks: which hooks run, how a script is started, the
//! environment it gets, and the results reported for hooks that could not
//! run. Starting the process is left to the caller.

use vstd::prelude::*;
use crate::text::{decimal, decimal_string, same_text, texts};

verus! {

/// A user script run after each transcription.
#[derive(Debug, Clone)]
pub struct HookConfig {
    pub id: String,
    pub name: String,
    pub script_path: String,
    pub enabled: bool,
}

/// What a hook run reported.
#[derive(Debug, Clone)]
pub struct HookResult {
    pub hook_name: String,
    pub success: bool,
    pub stdout: String,
    pub stderr: String,
    pub exit_code: Option<i32>,
}

/// The program that runs a hook script and its arguments.
#[derive(Debug)]
pub struct HookCommand {
    pub program: String,
    pub args: Vec<String>,
}

/// The interpreter for a script, by its extension: PowerShell for `ps1`,
/// `cmd` for `bat` and `cmd`, `sh` for `sh`; any other script runs itself.
pub open spec fn command_for(script: Seq<char>, extension: Seq<char>) -> (Seq<char>, Seq<Seq<char>>) {
    if extension == "ps1"@ {
        ("powershell"@, seq!["-ExecutionPolicy"@, "Bypass"@, "-File"@, script])
    } else if extension == "bat"@ || extension == "cmd"@ {
        ("cmd"@, seq!["/c"@, script])
    } else if extension == "sh"@ {
        ("sh"@, seq![script])
    } else {
        (script, Seq::empty())
    }
}

/// The command that runs the script at `script_path`, whose extension is
/// `extension` (empty when it has none).
pub fn hook_command(script_path: &str, extension: &str) -> (command: HookCommand)
    ensures
        command.program@ == command_for(script_path@, extension@).0,
        texts(command.args@) == command_for(script_path@, extension@).1,
{
    let mut args: Vec<String> = Vec::new();
    if same_text(extension, "ps1") {
        args.push("-ExecutionPolicy".to_owned());
        args.push("Bypass".to_owned());
        args.push("-File".to_owned());
        args.push(script_path.to_owned());
        assert(texts(args@) =~= seq!["-ExecutionPolicy"@, "Bypass"@, "-File"@, script_path@]);
        HookCommand { program: "powershell".to_owned(), args }
    } else if same_text(extension, "bat") || same_text(extension, "cmd") {
        args.push("/c".to_owned());
        args.push(script_path.to_owned());
        assert(texts(args@) =~= seq!["/c"@, script_path@]);
        HookCommand { program: "cmd".to_owned(), args }
    } else if same_text(extension, "sh") {
        args.push(script_path.to_owned());
        assert(texts(args@) =~= seq![script_path@]);
        HookCommand { program: "sh".to_owned(), args }
    } else {
        assert(texts(args@) =~= Seq::<Seq<char>>::empty());
        HookCommand { program: script_path.to_owned(), args }
    }
}

/// The environment a hook runs with: where the transcript, the recording
/// and the output folder are, the duration and the number of speakers.
pub open spec fn hook_environment_of(
    transcript_path: Seq<char>,
    audio_path: Seq<char>,
    duration_text: Seq<char>,
    speaker_count: nat,
    output_folder: Seq<char>,
) -> Seq<(Seq<char>, Seq<char>)> {
    seq![
        ("TACT_TRANSCRIPT_PATH"@, transcript_path),
        ("TACT_AUDIO_PATH"@, audio_path),
        ("TACT_DURATION"@, duration_text),
        ("TACT_SPEAKER_COUNT"@, decimal(speaker_count)),
        ("TACT_OUTPUT_FOLDER"@, output_folder),
    ]
}

/// The texts of a list of name-value pairs.
pub open spec fn pair_texts(v: Seq<(String, String)>) -> Seq<(Seq<char>, Seq<char>)> {
    v.map_values(|p: (String, String)| (p.0@, p.1@))
}

/// The `TACT_*` variables a hook gets; `duration_text` is the duration in
/// whole seconds as the caller wrote it.
pub fn hook_environment(
    transcript_path: &str,
    audio_path: &str,
    duration_text: &str,
    speaker_count: usize,
    output_folder: &str,
) -> (env: Vec<(String, String)>)
    ensures
        pair_texts(env@) == hook_environment_of(
            transcript_path@,
            audio_path@,
            duration_text@,
            speaker_count as nat,
            output_folder@,
        ),
{
    let mut env: Vec<(String, String)> = Vec::new();
    env.push(("TACT_TRANSCRIPT_PATH".to_owned(), transcript_path.to_owned()));
    env.push(("TACT_AUDIO_PATH".to_owned(), audio_path.to_owned()));
    env.push(("TACT_DURATION".to_owned(), duration_text.to_owned()));
    env.push(("TACT_SPEAKER_COUNT".to_owned(), decimal_string(speaker_count as u64)));
    env.push(("TACT_OUTPUT_FOLDER".to_owned(), output_folder.to_owned()));
    assert(pair_texts(env@) =~= hook_environment_of(
        transcript_path@,
        audio_path@,
        duration_text@,
        speaker_count as nat,
        output_folder@,
    ));
    env
}

/// The hooks that run, in order: the enabled ones.
pub fn enabled_hooks(hooks: &[HookConfig]) -> (enabled: Vec<&HookConfig>)
    ensures
        enabled@.len() == hooks@.filter(|h: HookConfig| h.enabled).len(),
        forall|j: int|
            0 <= j < enabled@.len() ==> *(#[trigger] enabled@[j]) == hooks@.filter(
                |h: HookConfig| h.enabled,
            )[j],
{
    let ghost pred = |h: HookConfig| h.enabled;
    let mut enabled: Vec<&HookConfig> = Vec::new();
    let mut i: usize = 0;
    assert(hooks@.subrange(0, 0) =~= Seq::<HookConfig>::empty());
    proof {
        reveal(Seq::filter);
    }
    while i < hooks.len()
        invariant
            i <= hooks.len(),
            pred == (|h: HookConfig| h.enabled),
            enabled@.len() == hooks@.subrange(0, i as int).filter(pred).len(),
            forall|j: int|
                0 <= j < enabled@.len() ==> *(#[trigger] enabled@[j]) == hooks@.subrange(
                    0,
                    i as int,
                ).filter(pred)[j],
        decreases hooks.len() - i,
    {
        proof {
            reveal(Seq::filter);
            let p = hooks@.subrange(0, i + 1);
            assert(p.drop_last() =~= hooks@.subrange(0, i as int));
        }
        if hooks[i].enabled {
            enabled.push(&hooks[i]);
        }
        i = i + 1;
    }
    assert(hooks@.subrange(0, hooks.len() as int) =~= hooks@);
    enabled
}

/// A failed run of `hook` that produced no output, with `error` as its
/// error text.
pub fn failed_hook_result(hook: &HookConfig, error: String) -> (result: HookResult)
    ensures
        result.hook_name == hook.name,
        !result.success,
        result.stdout@.len() == 0,
        result.stderr == error,
        result.exit_code is None,
{
    HookResult {
        hook_name: hook.name.clone(),
        success: false,
        stdout: String::new(),
        stderr: error,
        exit_code: None,
    }
}

/// The result for a hook whose script was not found.
pub fn missing_script_result(hook: &HookConfig) -> (result: HookResult)
    ensures
        result.hook_name == hook.name,
        !result.success,
        result.stdout@.len() == 0,
        result.stderr@ == "Script not found: "@ + hook.script_path@,
        result.exit_code is None,
{
    let mut error = String::new();
    error.append("Script not found: ");
    error.append(hook.script_path.as_str());
    failed_hook_result(hook, error)
}

} // verus!
