use heavy_metal_notifier::config::{Config, EnvValues};
use heavy_metal_notifier::Error;

fn env_localhost() -> EnvValues {
    EnvValues {
        host_url: Some("http://localhost".to_string()),
        service_port: Some("7125".to_string()),
        is_prod: Some("true".to_string()),
        smtp_host: Some("smtp.gmail.com".to_string()),
        smtp_username: Some("my@gmail.com".to_string()),
        smtp_password: Some("my app pass word".to_string()),
        smtp_email_admin: Some("admin@email.com".to_string()),
    }
}

fn env_hosted() -> EnvValues {
    EnvValues {
        host_url: Some("https://www.metal-releases.com".to_string()),
        service_port: Some("7125".to_string()),
        is_prod: Some("false".to_string()),
        smtp_host: Some("smtp.gmail.com".to_string()),
        smtp_username: Some("my@gmail.com".to_string()),
        smtp_password: Some("my app pass word".to_string()),
        smtp_email_admin: Some("admin@email.com".to_string()),
    }
}

#[test]
fn test_load_from_env_base_url_localhost_ok() {
    let config = Config::load_from_env(&env_localhost()).unwrap();

    assert_eq!(config.HOST_URL, "http://localhost:7125".to_string());
    assert!(config.IS_PROD);
    assert_eq!(config.PORT, "7125".to_string());
    let smtp = config.smtp.expect("smtp should be configured");
    assert_eq!(smtp.relay, "smtp.gmail.com".to_string());
    assert_eq!(smtp.username, "my@gmail.com".to_string());
    assert_eq!(smtp.password, "my app pass word".to_string());
    assert_eq!(smtp.email_admin, "admin@email.com".to_string());
}

#[test]
fn test_load_from_env_base_url_not_localhost_ok() {
    let config = Config::load_from_env(&env_hosted()).unwrap();

    assert_eq!(config.HOST_URL, "https://www.metal-releases.com".to_string());
    assert!(!config.IS_PROD);
    assert_eq!(config.PORT, "7125".to_string());
    let smtp = config.smtp.expect("smtp should be configured");
    assert_eq!(smtp.relay, "smtp.gmail.com".to_string());
    assert_eq!(smtp.username, "my@gmail.com".to_string());
    assert_eq!(smtp.password, "my app pass word".to_string());
    assert_eq!(smtp.email_admin, "admin@email.com".to_string());
}

#[test]
fn test_local_server_addr_localhost_ok() {
    let config = Config::load_from_env(&env_localhost()).unwrap();

    let addr = config.local_server_addr();

    assert_eq!(addr, "localhost:7125");
}

#[test]
fn test_local_server_addr_hosted_ok() {
    let config = Config::load_from_env(&env_hosted()).unwrap();

    let addr = config.local_server_addr();

    assert_eq!(addr, "localhost:7125");
}

#[test]
fn get_env_trims_quotes_and_reports_missing() {
    assert_eq!(
        heavy_metal_notifier::config::get_env("HOST_URL", Some("\"http://localhost\"")),
        Ok("http://localhost".to_string())
    );
    assert_eq!(
        heavy_metal_notifier::config::get_env("HOST_URL", Some("plain")),
        Ok("plain".to_string())
    );
    assert_eq!(
        heavy_metal_notifier::config::get_env("HOST_URL", Some("\"\"")),
        Err(Error::MissingEnv("HOST_URL"))
    );
    assert_eq!(
        heavy_metal_notifier::config::get_env("SMTP_HOST", None),
        Err(Error::MissingEnv("SMTP_HOST"))
    );
}

#[test]
fn smtp_absent_without_credentials() {
    let mut env = env_localhost();
    env.smtp_password = None;
    let config = Config::load_from_env(&env).unwrap();
    assert!(config.smtp.is_none());

    let mut env = env_localhost();
    env.smtp_username = Some(String::new());
    let config = Config::load_from_env(&env).unwrap();
    assert!(config.smtp.is_none());
}

#[test]
fn defaults_apply_when_unset() {
    let env = EnvValues {
        host_url: None,
        service_port: None,
        is_prod: None,
        smtp_host: None,
        smtp_username: Some("user@example.com".to_string()),
        smtp_password: Some("secret".to_string()),
        smtp_email_admin: None,
    };

    let config = Config::load_from_env(&env).unwrap();

    assert_eq!(config.HOST_URL, "http://localhost:7125".to_string());
    assert_eq!(config.PORT, "7125".to_string());
    assert!(!config.IS_PROD);
    let smtp = config.smtp.expect("smtp should be configured");
    assert_eq!(smtp.relay, "smtp.gmail.com".to_string());
    assert_eq!(smtp.email_admin, "user@example.com".to_string());
}
