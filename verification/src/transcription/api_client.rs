//! Transcription API values: the provider choice and the segments a Whisper
//! endpoint returns.

use vstd::prelude::*;
use crate::text::{lowercase, to_lowercase};

verus! {

/// A transcribed stretch of speech. Its bounds are in milliseconds: the
/// seconds that the API reports, times a thousand and truncated.
#[derive(Debug, Clone)]
pub struct TranscriptionSegment {
    pub start_ms: u64,
    pub end_ms: u64,
    pub text: String,
}


/// The transcription service.
#[derive(Debug, Clone, Copy, PartialEq, Eq, Structural)]
pub enum ApiProvider {
    Groq,
    OpenAi,
}

/// The provider a setting names: OpenAI when it reads `openai` in any case,
/// Groq otherwise.
pub open spec fn provider_named(s: Seq<char>) -> ApiProvider {
    if lowercase(s) == "openai"@ {
        ApiProvider::OpenAi
    } else {
        ApiProvider::Groq
    }
}

impl ApiProvider {
    /// The provider a setting names; anything but `openai` (in any case)
    /// means Groq.
    pub fn from_str(s: &str) -> (provider: Self)
        ensures
            provider == provider_named(s@),
    {
        let lower = to_lowercase(s);
        if lower == "openai".to_owned() {
            ApiProvider::OpenAi
        } else {
            ApiProvider::Groq
        }
    }

    /// The transcription endpoint of the provider.
    pub fn endpoint(&self) -> (url: &'static str)
        ensures
            url@ == match self {
                ApiProvider::Groq => "https://api.groq.com/openai/v1/audio/transcriptions"@,
                ApiProvider::OpenAi => "https://api.openai.com/v1/audio/transcriptions"@,
            },
    {
        match self {
            ApiProvider::Groq => "https://api.groq.com/openai/v1/audio/transcriptions",
            ApiProvider::OpenAi => "https://api.openai.com/v1/audio/transcriptions",
        }
    }

    /// The Whisper model asked of the provider.
    pub fn model(&self) -> (name: &'static str)
        ensures
            name@ == match self {
                ApiProvider::Groq => "whisper-large-v3-turbo"@,
                ApiProvider::OpenAi => "whisper-1"@,
            },
    {
        match self {
            ApiProvider::Groq => "whisper-large-v3-turbo",
            ApiProvider::OpenAi => "whisper-1",
        }
    }
}

/// The message for a failed transcription request with HTTP status `code`:
/// fixed advice for 401, 413 and 429, otherwise the status line and the
/// response body.
pub open spec fn api_error_text(code: u16, status_line: Seq<char>, body: Seq<char>) -> Seq<char> {
    if code == 401 {
        "Invalid API key. Please check your key in Settings."@
    } else if code == 413 {
        "Audio file too large. Maximum size is 25MB."@
    } else if code == 429 {
        "Rate limit exceeded. Please wait and try again."@
    } else {
        "API error ("@ + status_line + "): "@ + body
    }
}

/// The error for a transcription request that failed with HTTP status `code`
/// (written `status_line`, such as `500 Internal Server Error`) and the
/// response `body`.
pub fn api_error_message(code: u16, status_line: &str, body: &str) -> (message: String)
    ensures
        message@ == api_error_text(code, status_line@, body@),
{
    if code == 401 {
        "Invalid API key. Please check your key in Settings.".to_owned()
    } else if code == 413 {
        "Audio file too large. Maximum size is 25MB.".to_owned()
    } else if code == 429 {
        "Rate limit exceeded. Please wait and try again.".to_owned()
    } else {
        let mut message = String::new();
        message.append("API error (");
        message.append(status_line);
        message.append("): ");
        message.append(body);
        message
    }
}

} // verus!
