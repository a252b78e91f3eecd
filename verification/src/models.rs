//! Conversation data: messages with their roles and token counts,
//! per-conversation metadata, and the application configuration records.

use vstd::prelude::*;
use vstd::string::StringExecFns;

use crate::tokens::spec_message_tokens;

verus! {

/// Role of one conversation message.
#[derive(Debug, Clone, PartialEq, Eq, Structural)]
pub enum MessageRole {
    User,
    Assistant,
}

/// One conversation message: its role, its text, and its token count.
#[derive(Debug, Clone, PartialEq, Eq)]
pub struct Message {
    pub role: MessageRole,
    pub content: String,
    pub tokens: usize,
}

impl Message {
    /// A message with an explicitly given token count.
    pub fn new(role: MessageRole, content: String, tokens: usize) -> (m: Message)
        ensures
            m.role == role,
            m.content == content,
            m.tokens == tokens,
    {
        Message { role, content, tokens }
    }

    /// A message whose token count is estimated from its content.
    pub fn new_with_token_count(role: MessageRole, content: String) -> (m: Message)
        ensures
            m.role == role,
            m.content == content,
            spec_message_tokens(content@) <= usize::MAX ==> m.tokens == spec_message_tokens(
                content@,
            ),
            spec_message_tokens(content@) > usize::MAX ==> m.tokens == usize::MAX,
    {
        let role_str = match role {
            MessageRole::User => "user",
            MessageRole::Assistant => "assistant",
        };
        let tokens = crate::tokens::count_message_tokens(role_str, content.as_str());
        Message { role, content, tokens }
    }
}

/// Relies on uuid::Uuid::new_v4, a random identifier: nothing is promised of
/// the value, and callers must hold for every outcome.
#[verifier::external_body]
fn fresh_id() -> u128 {
    uuid::Uuid::new_v4().as_u128()
}

/// Relies on chrono::Utc::now().timestamp_millis(), the wall clock: nothing
/// is promised of the value, and callers must hold for every outcome.
#[verifier::external_body]
fn now_millis() -> i64 {
    chrono::Utc::now().timestamp_millis()
}

/// Metadata of one stored conversation. The identifier is the 128-bit value
/// of a version-4 UUID; the timestamps are milliseconds since the Unix epoch.
#[derive(Debug, Clone, PartialEq, Eq)]
pub struct ConversationMetadata {
    pub id: u128,
    pub summary: Option<String>,
    pub created_at: i64,
    pub updated_at: i64,
    pub total_tokens: usize,
}

impl ConversationMetadata {
    /// Fresh metadata: a new random identifier, no summary, no tokens, and
    /// both timestamps taken from the clock at the same instant.
    pub fn new() -> (m: ConversationMetadata)
        ensures
            m.summary is None,
            m.total_tokens == 0,
            m.created_at == m.updated_at,
    {
        let now = now_millis();
        ConversationMetadata {
            id: fresh_id(),
            summary: None,
            created_at: now,
            updated_at: now,
            total_tokens: 0,
        }
    }

    /// Adds to the running token total (saturating) and touches the
    /// last-updated timestamp.
    pub fn update_tokens(&mut self, tokens: usize)
        ensures
            old(self).total_tokens + tokens <= usize::MAX ==> final(self).total_tokens == old(
                self,
            ).total_tokens + tokens,
            old(self).total_tokens + tokens > usize::MAX ==> final(self).total_tokens
                == usize::MAX,
            final(self).id == old(self).id,
            final(self).summary == old(self).summary,
            final(self).created_at == old(self).created_at,
    {
        if self.total_tokens <= usize::MAX - tokens {
            self.total_tokens = self.total_tokens + tokens;
        } else {
            self.total_tokens = usize::MAX;
        }
        self.updated_at = now_millis();
    }

    /// Replaces the summary and touches the last-updated timestamp.
    pub fn set_summary(&mut self, summary: String)
        ensures
            final(self).summary == Some(summary),
            final(self).id == old(self).id,
            final(self).created_at == old(self).created_at,
            final(self).total_tokens == old(self).total_tokens,
    {
        self.summary = Some(summary);
        self.updated_at = now_millis();
    }
}

impl Default for ConversationMetadata {
    fn default() -> (m: ConversationMetadata)
        ensures
            m.summary is None,
            m.total_tokens == 0,
            m.created_at == m.updated_at,
    {
        ConversationMetadata::new()
    }
}

/// Request timeout used when the configuration file names none, in seconds.
fn default_timeout() -> (t: u64)
    ensures
        t == 600,
{
    600
}

/// Application configuration.
#[derive(Debug, Clone)]
pub struct AppConfig {
    pub ollama_url: String,
    pub default_model: String,
    pub request_timeout: u64,
    pub theme: ThemeConfig,
}

impl Default for AppConfig {
    fn default() -> (c: AppConfig)
        ensures
            c.ollama_url@ == "http://localhost:11434"@,
            c.default_model@ == "qwen3:4b"@,
            c.request_timeout == 600,
    {
        AppConfig {
            ollama_url: String::from_str("http://localhost:11434"),
            default_model: String::from_str("qwen3:4b"),
            request_timeout: default_timeout(),
            theme: ThemeConfig::default(),
        }
    }
}

/// Colour names used when rendering the conversation.
#[derive(Debug, Clone)]
pub struct ThemeConfig {
    pub user_message_color: String,
    pub assistant_message_color: String,
    pub border_color: String,
}

impl Default for ThemeConfig {
    fn default() -> (t: ThemeConfig)
        ensures
            t.user_message_color@ == "blue"@,
            t.assistant_message_color@ == "green"@,
            t.border_color@ == "cyan"@,
    {
        ThemeConfig {
            user_message_color: String::from_str("blue"),
            assistant_message_color: String::from_str("green"),
            border_color: String::from_str("cyan"),
        }
    }
}

/// A known model and the context window it offers.
#[derive(Debug, Clone)]
pub struct ModelInfo {
    pub name: String,
    pub context_window_size: usize,
}

} // verus!
