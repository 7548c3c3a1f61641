use stellaris_parser::parser::int_key;
use stellaris_parser::{parse_save, SaveFile, Value};

fn save(meta: &str, gamestate: &str) -> SaveFile {
    SaveFile {
        filename: "saves/game_1/autosave.sav".to_string(),
        game_id: "game_1".to_string(),
        meta: meta.to_string(),
        gamestate: gamestate.to_string(),
    }
}

#[test]
fn save_with_both_documents_parses() {
    let parsed = parse_save(&save("version=\"3.4\"", "tick=7 tick=8")).expect("parses");
    assert_eq!(parsed.game_id, "game_1");
    assert_eq!(
        parsed.meta,
        Value::Dict(vec![("version".to_string(), Value::Str("3.4".to_string()))])
    );
    assert_eq!(
        parsed.gamestate,
        Value::Dict(vec![(
            "tick".to_string(),
            Value::List(vec![Value::Int(7), Value::Int(8)])
        )])
    );
}

#[test]
fn empty_documents_fail() {
    assert_eq!(parse_save(&save("", "a=1")).err(), Some("Failed to parse save metadata"));
    assert_eq!(parse_save(&save("a=1", "")).err(), Some("Failed to parse save gamestate"));
    assert_eq!(parse_save(&save("", "")).err(), Some("Failed to parse save metadata"));
}

#[test]
fn gamestate_with_trailing_input_fails() {
    assert_eq!(parse_save(&save("a=1", "b=2 }")).err(), Some("Failed to parse save gamestate"));
}

#[test]
fn numeric_keys_read_as_integers() {
    assert_eq!(int_key("77"), Some(77));
    assert_eq!(int_key("-3"), Some(-3));
    assert_eq!(int_key("+5"), Some(5));
    assert_eq!(int_key("intel"), None);
    assert_eq!(int_key("1.5"), None);
    assert_eq!(int_key(""), None);
    assert_eq!(int_key("-"), None);
    assert_eq!(int_key("99999999999999999999"), None);
}
