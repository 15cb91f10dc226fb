use ask_anywhere::config::{default_screenshot_hotkey, default_template_action, ModelConfig};

#[test]
fn model_config_default_points_at_stock_endpoint() {
    let m = ModelConfig::default();
    assert_eq!(m.name, "New Model");
    assert_eq!(m.base_url, "https://api.openai.com/v1");
    assert_eq!(m.api_key, "");
    assert_eq!(m.model_name, "gpt-4.1");
    assert!(!m.supports_vision);
}

#[test]
fn default_template_action_is_none() {
    assert_eq!(default_template_action(), "none");
}

#[test]
fn default_screenshot_hotkey_is_alt_shift_s() {
    assert_eq!(default_screenshot_hotkey(), "Alt+Shift+S");
}
