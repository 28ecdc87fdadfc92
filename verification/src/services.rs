//! Sample service logic wired through the container by tests and host
//! code: message formatting, static configuration and inventory answers,
//! and ordering decisions. Everything here computes on plain values; the
//! container decides which implementation a consumer gets.

use vstd::prelude::*;
use vstd::string::StrSliceExecFns;
use vstd::string::StringExecFns;

verus! {

/// The console message service's reply: "Sent: {msg}".
pub fn sent_message(msg: &str) -> (r: String)
    ensures
        r@ == "Sent: "@ + msg@,
{
    let mut s = String::from_str("Sent: ");
    s.append(msg);
    s
}

/// The notification manager's fixed message.
pub fn notify_message() -> (r: String)
    ensures
        r@ == "Rust is awesome!"@,
{
    String::from_str("Rust is awesome!")
}

/// The banner form of a sent mail: "[FROM: {from}] To: {to} - Message: {message}".
pub fn email_banner(from: &str, to: &str, message: &str) -> (r: String)
    ensures
        r@ == "[FROM: "@ + from@ + "] To: "@ + to@ + " - Message: "@ + message@,
{
    let mut s = String::from_str("[FROM: ");
    s.append(from);
    s.append("] To: ");
    s.append(to);
    s.append(" - Message: ");
    s.append(message);
    s
}

/// The line the mail service hands its logger:
/// "from: {from}, to: {to}, message: {message}".
pub fn email_log_line(from: &str, to: &str, message: &str) -> (r: String)
    ensures
        r@ == "from: "@ + from@ + ", to: "@ + to@ + ", message: "@ + message@,
{
    let mut s = String::from_str("from: ");
    s.append(from);
    s.append(", to: ");
    s.append(to);
    s.append(", message: ");
    s.append(message);
    s
}

/// A console logger's line: "[LOG] {msg}".
pub fn console_log_line(msg: &str) -> (r: String)
    ensures
        r@ == "[LOG] "@ + msg@,
{
    let mut s = String::from_str("[LOG] ");
    s.append(msg);
    s
}

/// The static configuration: the sender address under the key "from",
/// nothing under any other key.
pub fn config_get(key: &str) -> (r: Option<String>)
    ensures
        key@ == "from"@ ==> (r matches Some(v) && v@ == "support@example.com"@),
        key@ != "from"@ ==> r is None,
{
    if key.to_owned() == String::from_str("from") {
        Some(String::from_str("support@example.com"))
    } else {
        None
    }
}

/// The static inventory: exactly the item "item123" is in stock.
pub fn is_in_stock(item_id: &str) -> (r: bool)
    ensures
        r == (item_id@ == "item123"@),
{
    item_id.to_owned() == String::from_str("item123")
}

/// The order service's decision: an in-stock item notifies the user with
/// "is_in_stock: OK"; anything else notifies nobody.
pub fn order(user: &str, item_id: &str) -> (r: Option<(String, String)>)
    ensures
        item_id@ == "item123"@ ==> (r matches Some(n) && n.0@ == user@ && n.1@
            == "is_in_stock: OK"@),
        item_id@ != "item123"@ ==> r is None,
{
    if is_in_stock(item_id) {
        Some((user.to_owned(), String::from_str("is_in_stock: OK")))
    } else {
        None
    }
}

/// A console notifier's line: "user: {user}, msg: {msg}".
pub fn notify_line(user: &str, msg: &str) -> (r: String)
    ensures
        r@ == "user: "@ + user@ + ", msg: "@ + msg@,
{
    let mut s = String::from_str("user: ");
    s.append(user);
    s.append(", msg: ");
    s.append(msg);
    s
}

/// The user registration log line:
/// "[LOG] Registered user:{name} with ID: {id}".
pub fn register_user_line(name: &str, id: &str) -> (r: String)
    ensures
        r@ == "[LOG] Registered user:"@ + name@ + " with ID: "@ + id@,
{
    let mut s = String::from_str("[LOG] Registered user:");
    s.append(name);
    s.append(" with ID: ");
    s.append(id);
    s
}

/// Relies on chrono::Local::now and chrono::DateTime::to_rfc3339: the
/// current local time rendered as an RFC 3339 string. The value depends on
/// the clock, so nothing is promised of it.
#[verifier::external_body]
fn now_rfc3339() -> (r: String) {
    chrono::Local::now().to_rfc3339()
}

/// A timestamped log line: "[{now}] {msg}", with the current time from the
/// system clock.
pub fn log_with_time(msg: &str) -> (r: String)
    ensures
        exists|t: Seq<char>| r@ == "["@ + t + "] "@ + msg@,
{
    let now = now_rfc3339();
    let mut s = String::from_str("[");
    s.append(now.as_str());
    s.append("] ");
    s.append(msg);
    proof {
        assert(r_matches_time(s@, now@, msg@));
    }
    s
}

/// Helper shape of a timestamped line, used to witness the time part.
pub open spec fn r_matches_time(r: Seq<char>, t: Seq<char>, msg: Seq<char>) -> bool {
    r == "["@ + t + "] "@ + msg
}

/// The loaded-configuration log line the sample application prints.
pub fn loaded_config_line(config: &str) -> (r: String)
    ensures
        r@ == "[LOG] Laded config: ENV="@ + config@,
{
    let mut s = String::from_str("[LOG] Laded config: ENV=");
    s.append(config);
    s
}

/// The configuration loader's decision: the environment's value where one
/// was read, the fixed fallback "development" otherwise.
pub fn config_or_default(value: Option<String>) -> (r: String)
    ensures
        value matches Some(v) ==> r@ == v@,
        value is None ==> r@ == "development"@,
{
    match value {
        Some(v) => v,
        None => String::from_str("development"),
    }
}

/// The sample application's run step: load the configuration (or its
/// fallback) and hand the loaded-configuration line to the logger.
pub fn run_app_line(value: Option<String>) -> (r: String)
    ensures
        value matches Some(v) ==> r@ == "[LOG] Laded config: ENV="@ + v@,
        value is None ==> r@ == "[LOG] Laded config: ENV="@ + "development"@,
{
    let config = config_or_default(value);
    loaded_config_line(config.as_str())
}

/// The greeting service's line: "Hello {name}!".
pub fn hello_line(name: &str) -> (r: String)
    ensures
        r@ == "Hello "@ + name@ + "!"@,
{
    let mut s = String::from_str("Hello ");
    s.append(name);
    s.append("!");
    s
}

/// The repository's line on saving a user: "Save user: {name}".
pub fn save_user_line(name: &str) -> (r: String)
    ensures
        r@ == "Save user: "@ + name@,
{
    let mut s = String::from_str("Save user: ");
    s.append(name);
    s
}

/// The logger's line after a user was saved: "Saved user: {name}".
pub fn saved_user_line(name: &str) -> (r: String)
    ensures
        r@ == "Saved user: "@ + name@,
{
    let mut s = String::from_str("Saved user: ");
    s.append(name);
    s
}

/// The user-saving service's step: save first, log second; the two lines
/// in that order.
pub fn execute_user(name: &str) -> (r: (String, String))
    ensures
        r.0@ == "Save user: "@ + name@,
        r.1@ == "Saved user: "@ + name@,
{
    (save_user_line(name), saved_user_line(name))
}

} // verus!
