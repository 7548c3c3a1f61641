//! Parsing both documents of a save.
use vstd::prelude::*;
use crate::grammar::document;
use crate::parser::parse_file;
use crate::value::Value;

verus! {

/// The contents of a save: where it came from and its two documents.
#[derive(Debug)]
pub struct SaveFile {
    pub filename: String,
    pub game_id: String,
    pub meta: String,
    pub gamestate: String,
}

#[verifier::external_type_specification]
#[verifier::external_body]
pub struct ExInstant(std::time::Instant);

/// Both trees of a save, its game identifier and when parsing finished.
pub struct ParsedSaveFile {
    pub gamestate: Value,
    pub meta: Value,
    pub game_id: String,
    pub parsed_time: std::time::Instant,
}

/// Relies on `std::time::Instant::now`: the current instant, of which nothing is assumed.
#[verifier::external_body]
fn now() -> std::time::Instant {
    std::time::Instant::now()
}

/// The message when the metadata document does not parse.
pub open spec fn meta_failure() -> Seq<char> {
    "Failed to parse save metadata"@
}

/// The message when the game state document does not parse.
pub open spec fn gamestate_failure() -> Seq<char> {
    "Failed to parse save gamestate"@
}

/// Parses the metadata and then the game state of a save. Fails, naming the
/// document, where either does not parse.
pub fn parse_save(save_file: &SaveFile) -> (r: Result<ParsedSaveFile, &'static str>)
    ensures
        match (document(save_file.meta@), document(save_file.gamestate@)) {
            (Ok(m), Ok(g)) => r matches Ok(p) && p.meta@ == m && p.gamestate@ == g
                && p.game_id@ == save_file.game_id@,
            (Err(_), _) => r matches Err(msg) && msg@ == meta_failure(),
            (Ok(_), Err(_)) => r matches Err(msg) && msg@ == gamestate_failure(),
        },
{
    let meta = match parse_file(save_file.meta.as_str()) {
        Ok(v) => v,
        Err(_) => return Err("Failed to parse save metadata"),
    };
    let gamestate = match parse_file(save_file.gamestate.as_str()) {
        Ok(v) => v,
        Err(_) => return Err("Failed to parse save gamestate"),
    };
    Ok(ParsedSaveFile { gamestate, meta, game_id: save_file.game_id.clone(), parsed_time: now() })
}

} // verus!
