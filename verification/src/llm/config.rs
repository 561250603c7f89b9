//! Client configuration and how it is resolved.
use vstd::prelude::*;
use crate::llm::error::InvocationError;
use crate::text::owned;
use crate::trusted::{join_url, parse_url, url_join_of, url_parse_of};

verus! {

/// Explicit client settings; missing ones come from the environment.
#[derive(Debug, Clone, Default)]
pub struct ClientConfig {
    pub api_key: Option<String>,
    pub base_url: Option<String>,
}

/// The endpoint used when neither the configuration nor the environment
/// names one.
pub open spec fn default_base_url() -> Seq<char> {
    "https://api.openai.com/v1/"@
}

fn first_of(a: &Option<String>, b: &Option<String>) -> (r: Option<String>)
    ensures
        crate::trusted::opt_string_view(r) == if a.is_some() {
            crate::trusted::opt_string_view(*a)
        } else {
            crate::trusted::opt_string_view(*b)
        },
{
    match a {
        Some(x) => Some(x.clone()),
        None => match b {
            Some(y) => Some(y.clone()),
            None => None,
        },
    }
}

/// The settings of `OpenAiCompatibleClient::from_config`: the API key of
/// the configuration, else of the environment (`OPENAI_API_KEY`), else a
/// missing-key error; and the base URL of the configuration, else of the
/// environment (`OPENAI_BASE_URL`), else the default endpoint.
pub fn resolve_client_settings(
    config: &ClientConfig,
    env_api_key: &Option<String>,
    env_base_url: &Option<String>,
) -> (r: Result<(String, String), InvocationError>)
    ensures
        ({
            let key = if config.api_key.is_some() {
                config.api_key
            } else {
                *env_api_key
            };
            let url = if config.base_url.is_some() {
                config.base_url
            } else {
                *env_base_url
            };
            match key {
                None => r == Err::<(String, String), InvocationError>(
                    InvocationError::MissingApiKey,
                ),
                Some(k) => r matches Ok((rk, ru)) && rk@ == k@ && ru@ == match url {
                    Some(u) => u@,
                    None => default_base_url(),
                },
            }
        }),
{
    let key = match first_of(&config.api_key, env_api_key) {
        Some(k) => k,
        None => return Err(InvocationError::MissingApiKey),
    };
    let url = match first_of(&config.base_url, env_base_url) {
        Some(u) => u,
        None => owned("https://api.openai.com/v1/"),
    };
    Ok((key, url))
}

/// `Url::parse` of a base URL: the URL's serialisation, or an invalid base
/// URL reported with the text and the parser's message.
pub fn parse_base_url(raw: &str) -> (r: Result<String, InvocationError>)
    ensures
        match url_parse_of(raw@) {
            Ok(s) => r matches Ok(x) && x@ == s,
            Err(m) => r matches Err(InvocationError::InvalidBaseUrl { value, message }) && value@
                == raw@ && message@ == m,
        },
{
    match parse_url(raw) {
        Ok(u) => Ok(u),
        Err(message) => Err(InvocationError::InvalidBaseUrl { value: owned(raw), message }),
    }
}

/// `OpenAiCompatibleClient::from_config` up to building the HTTP client:
/// the API key and base URL of [`resolve_client_settings`], the base URL
/// parsed and held by its serialisation.
pub fn client_settings(
    config: &ClientConfig,
    env_api_key: &Option<String>,
    env_base_url: &Option<String>,
) -> (r: Result<(String, String), InvocationError>)
    ensures
        ({
            let key = if config.api_key.is_some() {
                config.api_key
            } else {
                *env_api_key
            };
            let url = if config.base_url.is_some() {
                config.base_url
            } else {
                *env_base_url
            };
            let raw = match url {
                Some(u) => u@,
                None => default_base_url(),
            };
            match key {
                None => r == Err::<(String, String), InvocationError>(
                    InvocationError::MissingApiKey,
                ),
                Some(k) => match url_parse_of(raw) {
                    Err(m) => r matches Err(InvocationError::InvalidBaseUrl { value, message })
                        && value@ == raw && message@ == m,
                    Ok(s) => r matches Ok((rk, ru)) && rk@ == k@ && ru@ == s,
                },
            }
        }),
{
    let (key, raw) = match resolve_client_settings(config, env_api_key, env_base_url) {
        Ok(settings) => settings,
        Err(e) => return Err(e),
    };
    match parse_base_url(raw.as_str()) {
        Ok(u) => Ok((key, u)),
        Err(e) => Err(e),
    }
}

/// The path of the chat-completion endpoint, relative to the base URL.
pub open spec fn chat_path() -> Seq<char> {
    "chat/completions"@
}

/// The base URL with a `/` at the end, added when it has none.
pub open spec fn with_trailing_slash(base: Seq<char>) -> Seq<char> {
    if base.len() > 0 && base.last() == '/' {
        base
    } else {
        base.push('/')
    }
}

/// The URL a chat request is posted to, `{base_url}/chat/completions`:
/// `chat/completions` resolved against the base URL with a trailing `/`
/// (so the base's last path segment is kept), or an invalid base URL
/// reported with the base URL and the parser's message.
pub fn chat_endpoint(base_url: &str) -> (r: Result<String, InvocationError>)
    ensures
        match url_join_of(with_trailing_slash(base_url@), chat_path()) {
            Ok(s) => r matches Ok(x) && x@ == s,
            Err(m) => r matches Err(InvocationError::InvalidBaseUrl { value, message }) && value@
                == base_url@ && message@ == m,
        },
{
    let cs = crate::text::str_chars(base_url);
    let mut base = owned(base_url);
    if !(cs.len() > 0 && cs[cs.len() - 1] == '/') {
        crate::text::push_char(&mut base, '/');
    }
    match join_url(base.as_str(), "chat/completions") {
        Ok(u) => Ok(u),
        Err(message) => Err(InvocationError::InvalidBaseUrl { value: owned(base_url), message }),
    }
}

} // verus!
