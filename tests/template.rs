use load_titles::template::{process_template, render_line, NO_TITLE};

#[test]
fn default_template() {
    assert_eq!(process_template("%title <%url>", "Example", "http://e.com"), "Example <http://e.com>");
}

#[test]
fn longer_tokens_are_not_placeholders() {
    assert_eq!(
        process_template("%titlesomething <%url>", "Example", "http://e.com"),
        "%titlesomething <http://e.com>"
    );
    assert_eq!(process_template("%urls %url_x %tit", "T", "U"), "%urls %url_x %tit");
}

#[test]
fn placeholders_repeat_and_mix() {
    assert_eq!(process_template("%url|%title|%url%", "T", "U"), "U|T|U%");
    assert_eq!(process_template("[%title](%url)", "Page", "http://p"), "[Page](http://p)");
    assert_eq!(process_template("", "T", "U"), "");
    assert_eq!(process_template("100% %title", "ok", "U"), "100% ok");
}

#[test]
fn substituted_text_is_not_rescanned() {
    assert_eq!(process_template("%title", "%url", "U"), "%url");
}

#[test]
fn missing_title_uses_fallback() {
    assert_eq!(
        render_line("%title <%url>", &None, "http://e.com", false),
        Some("@@@ NO TITLE @@@ <http://e.com>".to_string())
    );
    assert_eq!(NO_TITLE, "@@@ NO TITLE @@@");
}

#[test]
fn missing_title_skipped_when_asked() {
    assert_eq!(render_line("%title <%url>", &None, "http://e.com", true), None);
}

#[test]
fn present_title_is_used_either_way() {
    let t = Some("Example".to_string());
    assert_eq!(render_line("%title <%url>", &t, "http://e.com", true), Some("Example <http://e.com>".to_string()));
    assert_eq!(render_line("%title <%url>", &t, "http://e.com", false), Some("Example <http://e.com>".to_string()));
}
