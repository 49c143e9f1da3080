use notify_cli::cli::{MessageBoxArgs, SystemArgs};
use notify_cli::commands::{message_box, system};
use notify_cli::error::{Error, ErrorCode};
use notify_cli::json::Json;

fn render(j: &Json) -> String {
    match j {
        Json::Null => "null".to_string(),
        Json::Bool(b) => b.to_string(),
        Json::Number(n) => n.clone(),
        Json::Str(s) => format!("{s:?}"),
        Json::Array(v) => format!("[{}]", v.iter().map(render).collect::<Vec<_>>().join(",")),
        Json::Object(e) => {
            format!("{{{}}}", e.iter().map(|(k, v)| format!("{k:?}:{}", render(v))).collect::<Vec<_>>().join(","))
        }
    }
}

#[test]
fn system_notification_report() {
    let a = SystemArgs { title: "Build Passed".to_string(), description: "All tests green".to_string() };
    let r = system::run(&a, Ok(())).ok().unwrap();
    assert_eq!(
        render(&r),
        "{\"status\":\"ok\",\"type\":\"system_notification\",\"title\":\"Build Passed\",\"description\":\"All tests green\",\"delivered\":true}"
    );
    let e = system::run(&a, Err(Error::other("no display"))).err().unwrap();
    assert_eq!(e.code, ErrorCode::Error);
    assert_eq!(e.message, "no display");
}

#[test]
fn message_box_report() {
    let a = MessageBoxArgs { title: "Confirm Deploy".to_string(), message: "Proceed?".to_string() };
    let r = message_box::run(&a, Ok(())).ok().unwrap();
    let text = render(&r);
    assert!(text.contains("\"type\":\"message_box\""));
    assert!(text.contains("\"title\":\"Confirm Deploy\""));
    assert!(text.contains("\"message\":\"Proceed?\""));
    assert!(text.contains("\"dismissed\":true"));
    assert!(message_box::run(&a, Err(Error::other("x"))).is_err());
}
