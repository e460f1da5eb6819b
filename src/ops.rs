use vstd::prelude::*;

verus! {

/// One entry of an instance's operator roster.
#[derive(Clone, Debug, PartialEq, Eq)]
pub struct OpEntry {
    pub uuid: String,
    pub name: String,
    /// Permission tier, 0 to 4.
    pub level: u8,
    pub bypasses_player_limit: bool,
}

/// Why reading or writing an instance's files failed, with the underlying
/// message.
#[derive(Clone, Debug, PartialEq, Eq)]
pub enum StoreError {
    /// The file exists but could not be read or is not text.
    Read(String),
    /// The file could not be written.
    Write(String),
    /// `ops.json` is not a JSON array of operator records.
    Decode(String),
}

/// The operator roster, given the outcome of decoding `ops.json`: `None` when
/// the file does not exist, which is an empty roster and no error; otherwise
/// the decoded records, or the decoder's message when the content is not a
/// JSON array of operator records.
pub fn load_ops(decoded: Option<Result<Vec<OpEntry>, String>>) -> (r: Result<Vec<OpEntry>, StoreError>)
    ensures
        decoded is None ==> (r matches Ok(v) && v@.len() == 0),
        decoded matches Some(Ok(v)) ==> r == Ok::<Vec<OpEntry>, StoreError>(v),
        decoded matches Some(Err(m)) ==> r == Err::<Vec<OpEntry>, StoreError>(StoreError::Decode(m)),
{
    match decoded {
        None => Ok(Vec::new()),
        Some(Ok(v)) => Ok(v),
        Some(Err(m)) => Err(StoreError::Decode(m)),
    }
}

} // verus!
