use relay_server::config;
use relay_server::config::loader::{self, WhitelistFailurePolicy};

#[test]
fn defaults() {
    assert_eq!(config::udp_bind_address(), "0.0.0.0:8080");
    assert!(config::app_whitelist().is_empty());
    assert_eq!(loader::udp_bind_address(), "0.0.0.0:8080");
    assert!(loader::whitelist().is_empty());
    assert!(loader::allowed_versions().is_empty());
    assert_eq!(loader::empty_string(), "");
    assert_eq!(WhitelistFailurePolicy::default(), WhitelistFailurePolicy::FailClosed);
}
