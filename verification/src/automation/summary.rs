//! AI summaries of transcripts: which backend writes the summary, the request
//! sent to a chat-completions API, where the summary file goes, and the
//! summary document. Running the CLI, calling the API and writing files are
//! left to the caller.

use vstd::prelude::*;
use crate::text::{same_text, texts, trim_text, trimmed};

verus! {

/// Who writes the summary.
#[derive(Debug, Clone, Copy, PartialEq, Eq, Structural)]
pub enum SummaryBackend {
    /// A chat-completions API (OpenAI or Groq).
    Api,
    /// The assistant command-line tool found on the machine.
    Cli,
}

/// Where the summary file is written.
#[derive(Debug)]
pub enum SummaryPlace {
    /// In the configured output folder.
    Fixed(String),
    /// In a `summaries` folder beside the transcript.
    Subfolder,
    /// Beside the transcript.
    Same,
}

/// A chat-completions request for a summary.
#[derive(Debug)]
pub struct SummaryRequest {
    pub endpoint: &'static str,
    pub model: &'static str,
    pub user_message: String,
}

/// The prompt followed by a blank line and the transcript.
pub open spec fn prompt_with(prompt: Seq<char>, transcript: Seq<char>) -> Seq<char> {
    prompt + "\n\n"@ + transcript
}

/// The prompt followed by a blank line and the transcript, as both backends
/// receive it.
pub fn join_prompt(prompt: &str, transcript: &str) -> (message: String)
    ensures
        message@ == prompt_with(prompt@, transcript@),
{
    let mut message = prompt.to_owned();
    message.append("\n\n");
    message.append(transcript);
    message
}

/// The API providers write summaries; any other provider setting means the
/// command-line tool.
pub fn summary_backend(provider: &str) -> (backend: SummaryBackend)
    ensures
        backend == (if provider@ == "openai"@ || provider@ == "groq"@ {
            SummaryBackend::Api
        } else {
            SummaryBackend::Cli
        }),
{
    if same_text(provider, "openai") || same_text(provider, "groq") {
        SummaryBackend::Api
    } else {
        SummaryBackend::Cli
    }
}

/// The request to a summary API: refused without an API key, and for a
/// provider other than `openai` and `groq`.
pub fn summary_request(provider: &str, api_key: &str, prompt: &str, transcript: &str) -> (request:
    Result<SummaryRequest, String>)
    ensures
        api_key@.len() == 0 ==> (request matches Err(e) && e@ == "No API key configured for "@
            + provider@ + ". Go to Settings > API to add your key."@),
        api_key@.len() > 0 && provider@ == "openai"@ ==> (request matches Ok(r) && r.endpoint@
            == "https://api.openai.com/v1/chat/completions"@ && r.model@ == "gpt-4o-mini"@
            && r.user_message@ == prompt_with(prompt@, transcript@)),
        api_key@.len() > 0 && provider@ == "groq"@ ==> (request matches Ok(r) && r.endpoint@
            == "https://api.groq.com/openai/v1/chat/completions"@ && r.model@
            == "llama-3.3-70b-versatile"@ && r.user_message@ == prompt_with(prompt@, transcript@)),
        api_key@.len() > 0 && provider@ != "openai"@ && provider@ != "groq"@ ==> (request matches Err(
            e,
        ) && e@ == "Unknown API provider: "@ + provider@),
{
    proof {
        reveal_strlit("openai");
        reveal_strlit("groq");
        assert("groq"@.len() == 4);
        assert("openai"@.len() == 6);
    }
    if api_key.is_empty() {
        let mut e = "No API key configured for ".to_owned();
        e.append(provider);
        e.append(". Go to Settings > API to add your key.");
        return Err(e);
    }
    if same_text(provider, "openai") {
        Ok(
            SummaryRequest {
                endpoint: "https://api.openai.com/v1/chat/completions",
                model: "gpt-4o-mini",
                user_message: join_prompt(prompt, transcript),
            },
        )
    } else if same_text(provider, "groq") {
        Ok(
            SummaryRequest {
                endpoint: "https://api.groq.com/openai/v1/chat/completions",
                model: "llama-3.3-70b-versatile",
                user_message: join_prompt(prompt, transcript),
            },
        )
    } else {
        let mut e = "Unknown API provider: ".to_owned();
        e.append(provider);
        Err(e)
    }
}

/// Where the summary goes: the output folder for `fixed` (refused when none
/// is configured), a `summaries` subfolder for `subfolder`, else beside the
/// transcript.
pub fn summary_place(destination: &str, output_folder: Option<&str>) -> (place: Result<
    SummaryPlace,
    String,
>)
    ensures
        destination@ == "fixed"@ ==> match output_folder {
            Some(f) => place matches Ok(SummaryPlace::Fixed(p)) && p@ == f@,
            None => place matches Err(e) && e@
                == "No output folder configured for fixed destination"@,
        },
        destination@ == "subfolder"@ ==> place matches Ok(SummaryPlace::Subfolder),
        destination@ != "fixed"@ && destination@ != "subfolder"@ ==> place matches Ok(
            SummaryPlace::Same,
        ),
{
    proof {
        reveal_strlit("fixed");
        reveal_strlit("subfolder");
        assert("fixed"@.len() == 5);
        assert("subfolder"@.len() == 9);
    }
    if same_text(destination, "fixed") {
        match output_folder {
            Some(f) => Ok(SummaryPlace::Fixed(f.to_owned())),
            None => Err("No output folder configured for fixed destination".to_owned()),
        }
    } else if same_text(destination, "subfolder") {
        Ok(SummaryPlace::Subfolder)
    } else {
        Ok(SummaryPlace::Same)
    }
}

/// The summary file's name for a transcript named `stem`.
pub fn summary_file_name(stem: &str) -> (name: String)
    ensures
        name@ == stem@ + "_summary.md"@,
{
    let mut name = stem.to_owned();
    name.append("_summary.md");
    name
}

/// The summary document: a heading, then the summary without surrounding
/// white space.
pub fn summary_document(summary: &str) -> (content: String)
    ensures
        content@ == "# Summary\n\n"@ + trimmed(summary@) + "\n"@,
{
    let mut content = "# Summary\n\n".to_owned();
    content.append(trim_text(summary));
    content.append("\n");
    content
}

// ---------------------------------------------------------------------------
// Finding the command-line tool
// ---------------------------------------------------------------------------

/// The command that tells where a program is on the search path: `where` on
/// Windows, `which` elsewhere.
pub fn path_lookup_command(windows: bool) -> (command: &'static str)
    ensures
        command@ == (if windows {
            "where"@
        } else {
            "which"@
        }),
{
    if windows {
        "where"
    } else {
        "which"
    }
}

/// The names under which the search path is asked for `program`: on Windows
/// with each of the extensions `.exe`, `.cmd` and `.bat`, elsewhere as it is.
pub fn cli_search_names(program: &str, windows: bool) -> (names: Vec<String>)
    ensures
        texts(names@) == (if windows {
            seq![program@ + ".exe"@, program@ + ".cmd"@, program@ + ".bat"@]
        } else {
            seq![program@]
        }),
{
    let mut names: Vec<String> = Vec::new();
    if windows {
        let mut exe = program.to_owned();
        exe.append(".exe");
        let mut cmd = program.to_owned();
        cmd.append(".cmd");
        let mut bat = program.to_owned();
        bat.append(".bat");
        names.push(exe);
        names.push(cmd);
        names.push(bat);
        assert(texts(names@) =~= seq![program@ + ".exe"@, program@ + ".cmd"@, program@ + ".bat"@]);
    } else {
        names.push(program.to_owned());
        assert(texts(names@) =~= seq![program@]);
    }
    names
}

/// The text up to its first line break, or all of it when it has none.
pub open spec fn first_line(s: Seq<char>) -> Seq<char>
    decreases s.len(),
{
    if s.len() == 0 || s[0] == '\n' {
        Seq::empty()
    } else {
        seq![s[0]] + first_line(s.drop_first())
    }
}

proof fn lemma_first_line(s: Seq<char>, k: int)
    requires
        0 <= k <= s.len(),
        forall|j: int| 0 <= j < k ==> s[j] != '\n',
        k == s.len() || s[k] == '\n',
    ensures
        first_line(s) == s.subrange(0, k),
    decreases k,
{
    if k > 0 {
        let t = s.drop_first();
        assert forall|j: int| 0 <= j < k - 1 implies t[j] != '\n' by {
            assert(t[j] == s[j + 1]);
        }
        lemma_first_line(t, k - 1);
        assert(seq![s[0]] + t.subrange(0, k - 1) =~= s.subrange(0, k));
    } else {
        assert(s.subrange(0, 0) =~= Seq::<char>::empty());
    }
}

/// What a search-path lookup printed, reduced to its first line without
/// surrounding white space: the path it found, or empty text.
pub fn first_output_line(output: &str) -> (line: &str)
    ensures
        line@ == trimmed(first_line(output@)),
{
    let n = output.unicode_len();
    let mut k: usize = 0;
    while k < n && output.get_char(k) != '\n'
        invariant
            n == output@.len(),
            k <= n,
            forall|j: int| 0 <= j < k ==> output@[j] != '\n',
        decreases n - k,
    {
        k = k + 1;
    }
    proof {
        lemma_first_line(output@, k as int);
    }
    trim_text(output.substring_char(0, k))
}

/// The user folder on Windows: the user's name when it is known, else the
/// `%USERNAME%` placeholder left as it stands.
pub open spec fn windows_user(username: Option<&str>) -> Seq<char> {
    match username {
        Some(u) => u@,
        None => "%USERNAME%"@,
    }
}

/// The places where `program` is usually installed, tried in order after the
/// search path. On Windows: the per-user programs folder of `username` and
/// the `folder_name` folder of `Program Files`. Elsewhere: `.local/bin` and
/// `.npm/bin` in the `home` folder, then `/usr/local/bin`.
pub fn cli_install_paths(
    program: &str,
    folder_name: &str,
    windows: bool,
    home: &str,
    username: Option<&str>,
) -> (paths: Vec<String>)
    ensures
        texts(paths@) == (if windows {
            seq![
                "C:\\Users\\"@ + windows_user(username) + "\\AppData\\Local\\Programs\\"@ + program@
                    + "\\"@ + program@ + ".exe"@,
                "C:\\Program Files\\"@ + folder_name@ + "\\"@ + program@ + ".exe"@,
            ]
        } else {
            seq![
                home@ + "/.local/bin/"@ + program@,
                home@ + "/.npm/bin/"@ + program@,
                "/usr/local/bin/"@ + program@,
            ]
        }),
{
    let mut paths: Vec<String> = Vec::new();
    if windows {
        let mut user_path = "C:\\Users\\".to_owned();
        match username {
            Some(u) => user_path.append(u),
            None => user_path.append("%USERNAME%"),
        }
        user_path.append("\\AppData\\Local\\Programs\\");
        user_path.append(program);
        user_path.append("\\");
        user_path.append(program);
        user_path.append(".exe");
        let mut shared_path = "C:\\Program Files\\".to_owned();
        shared_path.append(folder_name);
        shared_path.append("\\");
        shared_path.append(program);
        shared_path.append(".exe");
        paths.push(user_path);
        paths.push(shared_path);
    } else {
        let mut local_path = home.to_owned();
        local_path.append("/.local/bin/");
        local_path.append(program);
        let mut npm_path = home.to_owned();
        npm_path.append("/.npm/bin/");
        npm_path.append(program);
        let mut shared_path = "/usr/local/bin/".to_owned();
        shared_path.append(program);
        paths.push(local_path);
        paths.push(npm_path);
        paths.push(shared_path);
    }
    assert(texts(paths@) =~= (if windows {
        seq![
            "C:\\Users\\"@ + windows_user(username) + "\\AppData\\Local\\Programs\\"@ + program@
                + "\\"@ + program@ + ".exe"@,
            "C:\\Program Files\\"@ + folder_name@ + "\\"@ + program@ + ".exe"@,
        ]
    } else {
        seq![
            home@ + "/.local/bin/"@ + program@,
            home@ + "/.npm/bin/"@ + program@,
            "/usr/local/bin/"@ + program@,
        ]
    }));
    paths
}

} // verus!
