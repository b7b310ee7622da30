use emacs_i3::emacs::{EmacsClient, EmacsError};
use std::path::Path;
use std::time::Duration;

#[test]
fn test_quote_argument() {
    assert_eq!(
        EmacsClient::quote_argument("(message \"test\")"),
        "(message&_\"test\")"
    );
}

#[test]
fn test_unquote_argument() {
    assert_eq!(
        EmacsClient::unquote_argument("(a&_+&_1)&n").unwrap(),
        "(a + 1)\n"
    );
    assert!(matches!(
        EmacsClient::unquote_argument("broken&"),
        Err(EmacsError::Protocol(_))
    ));
}

#[test]
fn quoting_escapes_every_special_character() {
    assert_eq!(EmacsClient::quote_argument("-a -b"), "&-a&_-b");
    assert_eq!(EmacsClient::quote_argument(" x&\n"), "&_x&&&n");
    assert_eq!(EmacsClient::quote_argument(""), "");
    assert_eq!(EmacsClient::quote_argument("&"), "&&");
}

#[test]
fn quoting_round_trips() {
    for s in ["", "-", "-x", "&", "a b\nc&d", "  ", "&&-", "é ü"] {
        let q = EmacsClient::quote_argument(s);
        assert!(!q.contains(' ') && !q.contains('\n'));
        assert_eq!(EmacsClient::unquote_argument(&q).unwrap(), s);
    }
}

#[test]
fn truncation_message_names_the_argument() {
    match EmacsClient::unquote_argument("broken&") {
        Err(EmacsError::Protocol(m)) => {
            assert_eq!(m, "truncated escape sequence in server argument \"broken&\"")
        }
        other => panic!("unexpected {:?}", other),
    }
}

#[test]
fn request_quotes_the_expression() {
    assert_eq!(
        EmacsClient::request("(message \"hello world\")"),
        "-current-frame -eval (message&_\"hello&_world\") \n"
    );
}

#[test]
fn print_reply_gives_the_value() {
    assert_eq!(EmacsClient::decode_response("t", "-print t\n").unwrap(), "t");
    assert_eq!(
        EmacsClient::decode_response("t", "-emacs-pid 42\n-print nil&n\r\n").unwrap(),
        "nil\n"
    );
}

#[test]
fn error_reply_is_an_eval_error() {
    let error = EmacsClient::decode_response("(+ 1 2)", "-error bad&_command\n").unwrap_err();
    assert!(matches!(error, EmacsError::Eval(ref msg) if msg == "bad command"));
}

#[test]
fn malformed_reply_is_a_protocol_error() {
    let error = EmacsClient::decode_response("t", "unexpected response\n").unwrap_err();
    match error {
        EmacsError::Protocol(m) => assert_eq!(
            m,
            "expected '-print' or '-error' while evaluating \"t\", got \"unexpected response\\n\""
        ),
        other => panic!("unexpected {:?}", other),
    }
    assert!(matches!(
        EmacsClient::decode_response("t", "-print bad&"),
        Err(EmacsError::Protocol(_))
    ));
    assert!(matches!(
        EmacsClient::decode_response("t", ""),
        Err(EmacsError::Protocol(_))
    ));
}

#[test]
fn client_keeps_socket_and_timeout() {
    let client = EmacsClient::new(Path::new("/tmp/emacs/server"), Duration::from_millis(30));
    assert_eq!(client.socket_path(), Path::new("/tmp/emacs/server"));
    assert_eq!(client.operation_timeout(), Duration::from_millis(30));
}

#[test]
fn io_errors_convert() {
    let error: EmacsError = std::io::Error::new(std::io::ErrorKind::TimedOut, "late").into();
    assert!(matches!(error, EmacsError::Io(_)));
}

#[test]
fn emacs_error_messages() {
    assert_eq!(EmacsError::Eval("boom".to_owned()).message(), "eval error: boom");
    assert_eq!(EmacsError::Protocol("bad".to_owned()).message(), "protocol error: bad");
    let io = EmacsError::Io(std::io::Error::new(std::io::ErrorKind::TimedOut, "late"));
    assert_eq!(io.message(), "late");
}
