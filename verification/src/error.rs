//! What can go wrong below the registry.
use vstd::prelude::*;

verus! {

/// A failure of the stores or of what they hold.
#[derive(Debug)]
pub enum SummError {
    Storage(String),
    NotFound,
    InvalidData(String),
    InvalidDigest(String),
}

pub type Result<T> = std::result::Result<T, SummError>;

impl SummError {
    /// How the failure reads.
    pub open spec fn text(self) -> Seq<char> {
        match self {
            SummError::Storage(m) => "storage error: "@ + m@,
            SummError::NotFound => "not found"@,
            SummError::InvalidData(m) => "invalid data: "@ + m@,
            SummError::InvalidDigest(m) => "invalid digest: "@ + m@,
        }
    }

    /// The failure in words.
    pub fn message(&self) -> (r: String)
        ensures
            r@ == self.text(),
    {
        match self {
            SummError::Storage(m) => "storage error: ".to_owned().concat(m.as_str()),
            SummError::NotFound => "not found".to_owned(),
            SummError::InvalidData(m) => "invalid data: ".to_owned().concat(m.as_str()),
            SummError::InvalidDigest(m) => "invalid digest: ".to_owned().concat(m.as_str()),
        }
    }
}

} // verus!
