use tact::automation::hooks::{
    enabled_hooks, failed_hook_result, hook_command, hook_environment, missing_script_result,
    HookConfig,
};
use tact::automation::summary::{
    cli_install_paths, cli_search_names, first_output_line, path_lookup_command,
    join_prompt, summary_backend, summary_document, summary_file_name, summary_place,
    summary_request, SummaryBackend, SummaryPlace,
};
use tact::recording::recorder::{pick_config, ConfigRange, RecordingConfig};
use tact::storage::{is_audio_extension, retention_secs};
use tact::transcription::api_client::{api_error_message, ApiProvider};

fn hook(name: &str, path: &str, enabled: bool) -> HookConfig {
    HookConfig { id: name.to_string(), name: name.to_string(), script_path: path.to_string(), enabled }
}

#[test]
fn provider_is_read_case_insensitively() {
    assert_eq!(ApiProvider::from_str("OpenAI"), ApiProvider::OpenAi);
    assert_eq!(ApiProvider::from_str("OPENAI"), ApiProvider::OpenAi);
    assert_eq!(ApiProvider::from_str("groq"), ApiProvider::Groq);
    assert_eq!(ApiProvider::from_str("other"), ApiProvider::Groq);
    assert_eq!(ApiProvider::OpenAi.model(), "whisper-1");
    assert_eq!(ApiProvider::Groq.model(), "whisper-large-v3-turbo");
    assert_eq!(
        ApiProvider::Groq.endpoint(),
        "https://api.groq.com/openai/v1/audio/transcriptions"
    );
    assert_eq!(ApiProvider::OpenAi.endpoint(), "https://api.openai.com/v1/audio/transcriptions");
}

#[test]
fn api_errors_by_status() {
    assert_eq!(api_error_message(401, "401 Unauthorized", "x"), "Invalid API key. Please check your key in Settings.");
    assert_eq!(api_error_message(413, "413 Payload Too Large", ""), "Audio file too large. Maximum size is 25MB.");
    assert_eq!(api_error_message(429, "429 Too Many Requests", ""), "Rate limit exceeded. Please wait and try again.");
    assert_eq!(
        api_error_message(500, "500 Internal Server Error", "oops"),
        "API error (500 Internal Server Error): oops"
    );
}

#[test]
fn hook_commands_by_extension() {
    let ps = hook_command("C:/h/run.ps1", "ps1");
    assert_eq!(ps.program, "powershell");
    assert_eq!(ps.args, vec!["-ExecutionPolicy", "Bypass", "-File", "C:/h/run.ps1"]);
    let bat = hook_command("run.bat", "bat");
    assert_eq!((bat.program.as_str(), bat.args.clone()), ("cmd", vec!["/c".to_string(), "run.bat".to_string()]));
    let cmd = hook_command("run.cmd", "cmd");
    assert_eq!(cmd.program, "cmd");
    let sh = hook_command("/h/run.sh", "sh");
    assert_eq!((sh.program.as_str(), sh.args.clone()), ("sh", vec!["/h/run.sh".to_string()]));
    let bin = hook_command("/h/run", "");
    assert_eq!(bin.program, "/h/run");
    assert!(bin.args.is_empty());
}

#[test]
fn hook_environment_lists_the_variables() {
    let env = hook_environment("/t.md", "/a.wav", "42", 3, "/out");
    let pairs: Vec<(&str, &str)> = env.iter().map(|(k, v)| (k.as_str(), v.as_str())).collect();
    assert_eq!(
        pairs,
        vec![
            ("TACT_TRANSCRIPT_PATH", "/t.md"),
            ("TACT_AUDIO_PATH", "/a.wav"),
            ("TACT_DURATION", "42"),
            ("TACT_SPEAKER_COUNT", "3"),
            ("TACT_OUTPUT_FOLDER", "/out"),
        ]
    );
}

#[test]
fn only_enabled_hooks_run_and_failures_are_reported() {
    let hooks = vec![hook("a", "/a.sh", true), hook("b", "/b.sh", false), hook("c", "/c.sh", true)];
    let names: Vec<&str> = enabled_hooks(&hooks).iter().map(|h| h.name.as_str()).collect();
    assert_eq!(names, vec!["a", "c"]);
    let missing = missing_script_result(&hooks[0]);
    assert_eq!(missing.hook_name, "a");
    assert!(!missing.success);
    assert_eq!(missing.stderr, "Script not found: /a.sh");
    assert_eq!(missing.exit_code, None);
    let failed = failed_hook_result(&hooks[2], "no such program".to_string());
    assert_eq!(failed.stderr, "no such program");
    assert!(failed.stdout.is_empty());
}

#[test]
fn summary_backend_and_request() {
    assert_eq!(summary_backend("openai"), SummaryBackend::Api);
    assert_eq!(summary_backend("groq"), SummaryBackend::Api);
    assert_eq!(summary_backend("local"), SummaryBackend::Cli);
    match summary_request("groq", "", "p", "t") {
        Err(e) => assert_eq!(e, "No API key configured for groq. Go to Settings > API to add your key."),
        Ok(_) => panic!("request without a key"),
    }
    match summary_request("mystery", "k", "p", "t") {
        Err(e) => assert_eq!(e, "Unknown API provider: mystery"),
        Ok(_) => panic!("unknown provider accepted"),
    }
    let r = summary_request("openai", "k", "Summarize", "text").ok().unwrap();
    assert_eq!(r.endpoint, "https://api.openai.com/v1/chat/completions");
    assert_eq!(r.model, "gpt-4o-mini");
    assert_eq!(r.user_message, "Summarize\n\ntext");
    let g = summary_request("groq", "k", "P", "T").ok().unwrap();
    assert_eq!(g.model, "llama-3.3-70b-versatile");
    assert_eq!(join_prompt("a", "b"), "a\n\nb");
}

#[test]
fn summary_destination_and_document() {
    assert!(matches!(summary_place("fixed", Some("/out")), Ok(SummaryPlace::Fixed(f)) if f == "/out"));
    match summary_place("fixed", None) {
        Err(e) => assert_eq!(e, "No output folder configured for fixed destination"),
        Ok(_) => panic!("fixed place without folder"),
    }
    assert!(matches!(summary_place("subfolder", None), Ok(SummaryPlace::Subfolder)));
    assert!(matches!(summary_place("same", None), Ok(SummaryPlace::Same)));
    assert!(matches!(summary_place("anything", None), Ok(SummaryPlace::Same)));
    assert_eq!(summary_file_name("meeting"), "meeting_summary.md");
    assert_eq!(summary_document("  \n Points\n\n "), "# Summary\n\nPoints\n");
}

#[test]
fn recording_config_prefers_float_mono() {
    let ranges = vec![
        ConfigRange { channels: 2, is_f32: false, min_sample_rate: 8000, max_sample_rate: 96000 },
        ConfigRange { channels: 2, is_f32: true, min_sample_rate: 8000, max_sample_rate: 96000 },
        ConfigRange { channels: 1, is_f32: true, min_sample_rate: 8000, max_sample_rate: 44100 },
        ConfigRange { channels: 1, is_f32: true, min_sample_rate: 8000, max_sample_rate: 96000 },
    ];
    assert_eq!(pick_config(&ranges), Ok(RecordingConfig { channels: 1, sample_rate: 44100 }));
    let high = vec![ConfigRange { channels: 2, is_f32: true, min_sample_rate: 88200, max_sample_rate: 96000 }];
    assert_eq!(pick_config(&high), Ok(RecordingConfig { channels: 2, sample_rate: 88200 }));
    let none = vec![ConfigRange { channels: 1, is_f32: false, min_sample_rate: 8000, max_sample_rate: 48000 }];
    assert_eq!(pick_config(&none), Err("No suitable audio config found".to_string()));
}

#[test]
fn cleanup_rules() {
    for ext in ["wav", "ogg", "opus", "mp3", "m4a", "flac"] {
        assert!(is_audio_extension(ext));
    }
    assert!(!is_audio_extension("md"));
    assert!(!is_audio_extension("WAV"));
    assert_eq!(retention_secs(30), 30 * 86400);
    assert_eq!(retention_secs(u32::MAX), u32::MAX as u64 * 86400);
}

#[test]
fn summary_tool_is_looked_up_by_its_names() {
    assert_eq!(path_lookup_command(true), "where");
    assert_eq!(path_lookup_command(false), "which");
    assert_eq!(cli_search_names("tool", false), vec!["tool"]);
    assert_eq!(cli_search_names("tool", true), vec!["tool.exe", "tool.cmd", "tool.bat"]);
}

#[test]
fn summary_tool_path_is_the_first_output_line() {
    assert_eq!(first_output_line("  /usr/bin/tool \r\n/opt/tool\n"), "/usr/bin/tool");
    assert_eq!(first_output_line("/usr/bin/tool"), "/usr/bin/tool");
    assert_eq!(first_output_line(""), "");
    assert_eq!(first_output_line("\n/usr/bin/tool"), "");
}

#[test]
fn summary_tool_install_places() {
    assert_eq!(
        cli_install_paths("tool", "Tool", false, "/home/ann", None),
        vec!["/home/ann/.local/bin/tool", "/home/ann/.npm/bin/tool", "/usr/local/bin/tool"]
    );
    assert_eq!(
        cli_install_paths("tool", "Tool", true, "", Some("ann")),
        vec![
            "C:\\Users\\ann\\AppData\\Local\\Programs\\tool\\tool.exe",
            "C:\\Program Files\\Tool\\tool.exe"
        ]
    );
    assert_eq!(
        cli_install_paths("tool", "Tool", true, "", None)[0],
        "C:\\Users\\%USERNAME%\\AppData\\Local\\Programs\\tool\\tool.exe"
    );
}
