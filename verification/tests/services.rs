use injector::services::{config_get, config_or_default, console_log_line, email_banner,
    email_log_line, execute_user, hello_line, is_in_stock, loaded_config_line, log_with_time,
    notify_line, notify_message, order, register_user_line, save_user_line, saved_user_line,
    sent_message, run_app_line};
use injector::{build, Descriptor, Lifecycle, Registry};

#[test]
fn test_send_email_logs_correct_message() {
    // the mail service resolves its logger and configuration through the
    // container, reads the sender address, and logs exactly one line
    let mut reg = Registry::new();
    reg.register("Config".to_string(), Descriptor::singleton("StaticConfig".to_string())).unwrap();
    reg.register("Logger".to_string(), Descriptor::singleton("ConsoleLogger".to_string())).unwrap();
    reg.register(
        "Mailer".to_string(),
        Descriptor {
            impl_name: "EmailService".to_string(),
            lifecycle: Lifecycle::Singleton,
            deps: vec!["Logger".to_string(), "Config".to_string()],
            params: Vec::new(),
            failure: None,
        },
    ).unwrap();
    let mut c = build(reg, Vec::new()).unwrap();
    let mailer = c.resolve(&"Mailer".to_string()).unwrap();
    assert_eq!(mailer.impl_name, "EmailService");
    let mut log: Vec<String> = Vec::new();
    let from = config_get("from").unwrap();
    log.push(email_log_line(&from, "user@example.com", "Hello!"));
    assert_eq!(log.len(), 1);
    assert_eq!(log[0], "from: support@example.com, to: user@example.com, message: Hello!");
}

#[test]
fn test_order_service() {
    let mut reg = Registry::new();
    reg.register("Inventory".to_string(), Descriptor::singleton("StaticInventory".to_string()))
        .unwrap();
    reg.register("Notifier".to_string(), Descriptor::singleton("ConsoleNotifier".to_string()))
        .unwrap();
    reg.register(
        "OrderService".to_string(),
        Descriptor {
            impl_name: "OrderServiceImpl".to_string(),
            lifecycle: Lifecycle::Singleton,
            deps: vec!["Inventory".to_string(), "Notifier".to_string()],
            params: Vec::new(),
            failure: None,
        },
    ).unwrap();
    let mut c = build(reg, Vec::new()).unwrap();
    let service = c.resolve(&"OrderService".to_string()).unwrap();
    assert_eq!(service.impl_name, "OrderServiceImpl");
    let mut notifications: Vec<(String, String)> = Vec::new();
    if let Some(n) = order("Hanako Sato", "item123") {
        notifications.push(n);
    }
    assert_eq!(notifications.len(), 1);
    assert_eq!(notifications[0].0, "Hanako Sato");
    assert_eq!(notifications[0].1, "is_in_stock: OK");
}

#[test]
fn test_mailer_logs_once_with_recipient_and_body() {
    // Logger bound with no dependencies, Mailer bound depending on Logger:
    // the build succeeds and one send produces one log line holding both
    // the recipient and the message
    let mut reg = Registry::new();
    reg.register("Logger".to_string(), Descriptor::singleton("ConsoleLoggerDescriptor".to_string()))
        .unwrap();
    reg.register(
        "Mailer".to_string(),
        Descriptor {
            impl_name: "EmailServiceDescriptor".to_string(),
            lifecycle: Lifecycle::Singleton,
            deps: vec!["Logger".to_string()],
            params: Vec::new(),
            failure: None,
        },
    ).unwrap();
    let mut c = build(reg, Vec::new()).unwrap();
    let mailer = c.resolve(&"Mailer".to_string()).unwrap();
    assert_eq!(mailer.impl_name, "EmailServiceDescriptor");
    let mut log: Vec<String> = Vec::new();
    let from = config_get("from").unwrap();
    log.push(email_log_line(&from, "a@b.com", "hi"));
    assert_eq!(log.len(), 1, "the log call is observed exactly once");
    assert!(log[0].contains("a@b.com"));
    assert!(log[0].contains("hi"));
}

#[test]
fn test_sent_message() {
    assert_eq!(sent_message("Hello"), "Sent: Hello");
}

#[test]
fn test_notify_message() {
    assert_eq!(notify_message(), "Rust is awesome!");
}

#[test]
fn test_email_banner() {
    assert_eq!(
        email_banner("noreply@example.com", "user@example.com", "Hello!"),
        "[FROM: noreply@example.com] To: user@example.com - Message: Hello!",
    );
}

#[test]
fn test_console_log_line() {
    assert_eq!(console_log_line("ready"), "[LOG] ready");
}

#[test]
fn test_config_get() {
    assert_eq!(config_get("from"), Some("support@example.com".to_string()));
    assert_eq!(config_get("to"), None);
}

#[test]
fn test_is_in_stock() {
    assert!(is_in_stock("item123"));
    assert!(!is_in_stock("item999"));
}

#[test]
fn test_order_out_of_stock() {
    assert_eq!(order("Taro Tanaka", "item999"), None);
}

#[test]
fn test_notify_line() {
    assert_eq!(notify_line("Taro Tanaka", "is_in_stock: OK"), "user: Taro Tanaka, msg: is_in_stock: OK");
}

#[test]
fn test_register_user_line() {
    assert_eq!(
        register_user_line("Alice", "00000000-0000-0000-0000-000000000000"),
        "[LOG] Registered user:Alice with ID: 00000000-0000-0000-0000-000000000000",
    );
}

#[test]
fn test_log_with_time_shape() {
    let line = log_with_time("This is a test message.");
    assert!(line.starts_with('['));
    assert!(line.ends_with("] This is a test message."));
}

#[test]
fn test_loaded_config_line() {
    assert_eq!(loaded_config_line("production"), "[LOG] Laded config: ENV=production");
}

#[test]
fn test_config_or_default() {
    assert_eq!(config_or_default(Some("staging".to_string())), "staging");
    assert_eq!(config_or_default(None), "development");
}

#[test]
fn test_run_app_line() {
    assert_eq!(run_app_line(None), "[LOG] Laded config: ENV=development");
    assert_eq!(run_app_line(Some("test".to_string())), "[LOG] Laded config: ENV=test");
}

#[test]
fn test_hello_line() {
    assert_eq!(hello_line("world"), "Hello world!");
}

#[test]
fn test_save_and_saved_user_lines() {
    assert_eq!(save_user_line("Alice"), "Save user: Alice");
    assert_eq!(saved_user_line("Alice"), "Saved user: Alice");
}

#[test]
fn test_execute_user_order() {
    let (first, second) = execute_user("Bob");
    assert_eq!(first, "Save user: Bob");
    assert_eq!(second, "Saved user: Bob");
}
