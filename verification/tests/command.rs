use redis_core::command::{Command, CommandError};
use redis_core::resp::{StrType, Type as RespType};
use std::borrow::Cow;

fn bulk(s: &str) -> RespType<'_> {
    RespType::String(Cow::from(s), StrType::Bulk)
}

#[test]
fn test_set_invalid() {
    let resp = vec![
        RespType::String(Cow::from("set"), StrType::Bulk),
        RespType::String(Cow::from("test_string"), StrType::Bulk),
    ];
    let command = Command::try_from(resp);
    assert!(command.is_err());
}

#[test]
fn test_set() {
    let resp = vec![
        RespType::String(Cow::from("set"), StrType::Bulk),
        RespType::String(Cow::from("test_string"), StrType::Bulk),
        RespType::String(Cow::from("test_value"), StrType::Bulk),
    ];
    let command = Command::try_from(resp);
    assert!(command.is_ok());
    assert_eq!(
        command.unwrap(),
        Command::SetKey("test_string".to_string(), "test_value".to_string(), None)
    );
}

#[test]
fn test_set_with_px() {
    let resp = vec![
        RespType::String(Cow::from("set"), StrType::Bulk),
        RespType::String(Cow::from("test_string"), StrType::Bulk),
        RespType::String(Cow::from("test_value"), StrType::Bulk),
        RespType::String(Cow::from("px"), StrType::Bulk),
        RespType::String(Cow::from("142"), StrType::Bulk),
    ];
    let command = Command::try_from(resp);
    assert!(command.is_ok());
    assert_eq!(
        command.unwrap(),
        Command::SetKey(
            "test_string".to_string(),
            "test_value".to_string(),
            Some(142u64)
        )
    );
}

#[test]
fn verbs_match_in_any_case() {
    assert_eq!(Command::try_from(vec![bulk("PING")]), Ok(Command::Ping));
    assert_eq!(Command::try_from(vec![bulk("pInG")]), Ok(Command::Ping));
    assert_eq!(
        Command::try_from(vec![bulk("Echo"), bulk("Hey")]),
        Ok(Command::Echo("Hey".to_string()))
    );
    assert_eq!(
        Command::try_from(vec![bulk("GET"), bulk("Foo")]),
        Ok(Command::Get("Foo".to_string()))
    );
    assert_eq!(Command::try_from(vec![bulk("KEYS")]), Ok(Command::Keys));
    assert_eq!(
        Command::try_from(vec![bulk("SET"), bulk("k"), bulk("v"), bulk("PX"), bulk("50")]),
        Ok(Command::SetKey("k".to_string(), "v".to_string(), Some(50)))
    );
    assert_eq!(
        Command::try_from(vec![bulk("SET"), bulk("k"), bulk("v"), bulk("Px"), bulk("0")]),
        Ok(Command::SetKey("k".to_string(), "v".to_string(), Some(0)))
    );
    assert_eq!(
        Command::try_from(vec![bulk("CONFIG"), bulk("GET"), bulk("dir")]),
        Ok(Command::ConfigGet("dir".to_string()))
    );
    assert_eq!(
        Command::try_from(vec![bulk("config"), bulk("get"), bulk("Dir")]),
        Ok(Command::ConfigGet("Dir".to_string()))
    );
}

#[test]
fn simple_strings_are_strings_too() {
    let frame = vec![
        RespType::String(Cow::from("echo"), StrType::Basic),
        RespType::String(Cow::from(String::from("hey")), StrType::Basic),
    ];
    assert_eq!(Command::try_from(frame), Ok(Command::Echo("hey".to_string())));
}

#[test]
fn empty_frame_and_integer_verb_are_invalid() {
    assert_eq!(Command::try_from(vec![]), Err(CommandError::Invalid));
    assert_eq!(Command::try_from(vec![RespType::Integer(1)]), Err(CommandError::Invalid));
    assert_eq!(
        Command::try_from(vec![RespType::Integer(1), bulk("ping")]),
        Err(CommandError::Invalid)
    );
}

#[test]
fn unknown_verbs_are_unrecognized() {
    assert_eq!(Command::try_from(vec![bulk("del"), bulk("k")]), Err(CommandError::Unrecognized));
    assert_eq!(Command::try_from(vec![bulk("")]), Err(CommandError::Unrecognized));
    assert_eq!(Command::try_from(vec![bulk("pings")]), Err(CommandError::Unrecognized));
    assert_eq!(Command::try_from(vec![bulk("pin")]), Err(CommandError::Unrecognized));
    assert_eq!(Command::try_from(vec![bulk("config get")]), Err(CommandError::Unrecognized));
}

#[test]
fn arity_is_strict() {
    assert_eq!(Command::try_from(vec![bulk("ping"), bulk("x")]), Err(CommandError::PingFormat));
    assert_eq!(Command::try_from(vec![bulk("echo")]), Err(CommandError::EchoFormat));
    assert_eq!(
        Command::try_from(vec![bulk("echo"), bulk("a"), bulk("b")]),
        Err(CommandError::EchoFormat)
    );
    assert_eq!(
        Command::try_from(vec![bulk("echo"), RespType::Integer(5)]),
        Err(CommandError::EchoFormat)
    );
    assert_eq!(Command::try_from(vec![bulk("get")]), Err(CommandError::GetFormat));
    assert_eq!(
        Command::try_from(vec![bulk("get"), bulk("a"), bulk("b")]),
        Err(CommandError::GetFormat)
    );
    assert_eq!(
        Command::try_from(vec![bulk("get"), RespType::Integer(5)]),
        Err(CommandError::GetFormat)
    );
    assert_eq!(Command::try_from(vec![bulk("keys"), bulk("*")]), Err(CommandError::KeysFormat));
    assert_eq!(Command::try_from(vec![bulk("config")]), Err(CommandError::ConfigFormat));
    assert_eq!(
        Command::try_from(vec![bulk("config"), bulk("dir")]),
        Err(CommandError::ConfigFormat)
    );
    assert_eq!(
        Command::try_from(vec![bulk("config"), bulk("set"), bulk("dir")]),
        Err(CommandError::ConfigFormat)
    );
    assert_eq!(
        Command::try_from(vec![bulk("config"), bulk("get"), bulk("dir"), bulk("x")]),
        Err(CommandError::ConfigFormat)
    );
}

#[test]
fn set_takes_three_or_five_elements() {
    assert_eq!(Command::try_from(vec![bulk("set")]), Err(CommandError::SetFormat));
    assert_eq!(
        Command::try_from(vec![bulk("set"), bulk("k"), bulk("v"), bulk("px")]),
        Err(CommandError::SetFormat)
    );
    assert_eq!(
        Command::try_from(vec![bulk("set"), bulk("k"), bulk("v"), bulk("ex"), bulk("5")]),
        Err(CommandError::SetFormat)
    );
    assert_eq!(
        Command::try_from(vec![
            bulk("set"),
            bulk("k"),
            bulk("v"),
            bulk("px"),
            bulk("5"),
            bulk("x")
        ]),
        Err(CommandError::SetFormat)
    );
    assert_eq!(
        Command::try_from(vec![bulk("set"), bulk("k"), RespType::Integer(1)]),
        Err(CommandError::SetFormat)
    );
    assert_eq!(
        Command::try_from(vec![
            bulk("set"),
            bulk("k"),
            bulk("v"),
            bulk("px"),
            RespType::Integer(5)
        ]),
        Err(CommandError::SetFormat)
    );
}

#[test]
fn px_that_is_no_number_is_an_error() {
    for bad in ["abc", "", "-5", "5 ", " 5", "5.0", "0x10", "18446744073709551616", "+", "1_000"] {
        assert_eq!(
            Command::try_from(vec![bulk("set"), bulk("k"), bulk("v"), bulk("px"), bulk(bad)]),
            Err(CommandError::SetFormat),
            "{bad}"
        );
    }
    assert_eq!(
        Command::try_from(vec![
            bulk("set"),
            bulk("k"),
            bulk("v"),
            bulk("px"),
            bulk("18446744073709551615")
        ]),
        Ok(Command::SetKey("k".to_string(), "v".to_string(), Some(u64::MAX)))
    );
    assert_eq!(
        Command::try_from(vec![bulk("set"), bulk("k"), bulk("v"), bulk("px"), bulk("+007")]),
        Ok(Command::SetKey("k".to_string(), "v".to_string(), Some(7)))
    );
}

#[test]
fn every_error_has_its_reason() {
    assert_eq!(CommandError::Invalid.message(), "invalid command");
    assert_eq!(CommandError::Unrecognized.message(), "unrecognized command");
    assert_eq!(CommandError::PingFormat.message(), "Invalid ping command format");
    assert_eq!(CommandError::EchoFormat.message(), "Invalid echo command format");
    assert_eq!(CommandError::GetFormat.message(), "Invalid get command format");
    assert_eq!(CommandError::SetFormat.message(), "Invalid set command format");
    assert_eq!(CommandError::ConfigFormat.message(), "Invalid config command format");
    assert_eq!(CommandError::KeysFormat.message(), "Invalid keys command format");
}
