//! Application configuration records.
//!
//! These are the plain-value settings the surrounding application persists:
//! which model endpoints are known, which question templates exist, and which
//! hotkeys open the assistant.

use vstd::prelude::*;

verus! {

/// Connection settings for one chat-completion endpoint.
#[derive(Clone, Debug)]
pub struct ModelConfig {
    pub name: String,
    pub base_url: String,
    pub api_key: String,
    pub model_name: String,
    pub supports_vision: bool,
}

impl core::default::Default for ModelConfig {
    /// A freshly added model entry, pointed at the stock endpoint with no key.
    fn default() -> (r: Self)
        ensures
            r.name@ == "New Model"@,
            r.base_url@ == "https://api.openai.com/v1"@,
            r.api_key@ == Seq::<char>::empty(),
            r.model_name@ == "gpt-4.1"@,
            !r.supports_vision,
    {
        ModelConfig {
            name: "New Model".to_owned(),
            base_url: "https://api.openai.com/v1".to_owned(),
            api_key: String::new(),
            model_name: "gpt-4.1".to_owned(),
            supports_vision: false,
        }
    }
}

/// A canned question the user can fire at the selected text.
#[derive(Clone, Debug)]
pub struct QuestionTemplate {
    pub id: String,
    pub name: String,
    pub prompt: String,
    pub action: String,
    pub hotkey: Option<String>,
    pub background_mode: bool,
}

/// Global hotkey bindings.
#[derive(Clone, Debug)]
pub struct HotkeyConfig {
    pub popup_hotkey: String,
    pub screenshot_hotkey: String,
}

/// The action a template falls back to when none is configured.
pub fn default_template_action() -> (r: String)
    ensures
        r@ == "none"@,
{
    "none".to_owned()
}

/// The hotkey the screenshot capture falls back to when none is configured.
pub fn default_screenshot_hotkey() -> (r: String)
    ensures
        r@ == "Alt+Shift+S"@,
{
    "Alt+Shift+S".to_owned()
}

} // verus!
