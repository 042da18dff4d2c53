use vstd::prelude::*;
use vstd::string::StringExecFns;

verus! {

/// The closed error taxonomy shared by every layer of the library.
///
/// Each variant carries a human-readable message. `Database` covers storage,
/// I/O and serialization failures; the remaining variants are reserved for
/// callers that need them (no current operation produces them).
#[derive(Clone, Debug)]
pub enum AppError {
    Database(String),
    Validation(String),
    NotFound(String),
    Internal(String),
    Etabs(String),
}

impl AppError {
    /// The display form of the error: a fixed prefix naming the kind,
    /// followed by the carried message.
    pub open spec fn spec_display(&self) -> Seq<char> {
        match self {
            AppError::Database(m) => "Database error: "@ + m@,
            AppError::Validation(m) => "Validation error: "@ + m@,
            AppError::NotFound(m) => "Not found: "@ + m@,
            AppError::Internal(m) => "Internal error: "@ + m@,
            AppError::Etabs(m) => "ETABS error: "@ + m@,
        }
    }

    /// The TypeScript declaration of this error type for the front end's
    /// shared types: the tagged union that the serialized form uses.
    pub fn ts_declaration() -> (r: String)
        ensures
            r@
                == "export type AppError = { \"type\": \"Database\", \"message\": string } | { \"type\": \"Validation\", \"message\": string } | { \"type\": \"NotFound\", \"message\": string } | { \"type\": \"Internal\", \"message\": string } | { \"type\": \"Etabs\", \"message\": string };"@,
    {
        String::from_str(
            "export type AppError = { \"type\": \"Database\", \"message\": string } | { \"type\": \"Validation\", \"message\": string } | { \"type\": \"NotFound\", \"message\": string } | { \"type\": \"Internal\", \"message\": string } | { \"type\": \"Etabs\", \"message\": string };",
        )
    }

    /// Render the error as the string callers show to a user: the structured
    /// variant collapses to `spec_display` exactly.
    pub fn display_string(&self) -> (r: String)
        ensures
            r@ == self.spec_display(),
    {
        match self {
            AppError::Database(m) => {
                let mut s = String::from_str("Database error: ");
                s.append(m.as_str());
                s
            },
            AppError::Validation(m) => {
                let mut s = String::from_str("Validation error: ");
                s.append(m.as_str());
                s
            },
            AppError::NotFound(m) => {
                let mut s = String::from_str("Not found: ");
                s.append(m.as_str());
                s
            },
            AppError::Internal(m) => {
                let mut s = String::from_str("Internal error: ");
                s.append(m.as_str());
                s
            },
            AppError::Etabs(m) => {
                let mut s = String::from_str("ETABS error: ");
                s.append(m.as_str());
                s
            },
        }
    }
}

} // verus!
