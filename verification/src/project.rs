use vstd::prelude::*;
use vstd::string::StringExecFns;
use crate::timestamp::Timestamp;

verus! {

/// The mathematical view of a `Project`: the same fields with the strings
/// as character sequences.
pub struct ProjectV {
    pub id: Seq<char>,
    pub name: Seq<char>,
    pub description: Seq<char>,
    pub created_at: Timestamp,
    pub updated_at: Timestamp,
}

impl ProjectV {
    /// Validity of a project value: both timestamps are well-formed. The
    /// identifier, name and description are free text.
    pub open spec fn wf(self) -> bool {
        self.created_at.wf() && self.updated_at.wf()
    }
}

/// The sole domain entity: an identified, named, described record with
/// creation and update timestamps. Immutable after creation; no operation
/// revises `updated_at`.
#[derive(Clone, Debug, PartialEq)]
pub struct Project {
    pub id: String,
    pub name: String,
    pub description: String,
    pub created_at: Timestamp,
    pub updated_at: Timestamp,
}

impl View for Project {
    type V = ProjectV;

    open spec fn view(&self) -> ProjectV {
        ProjectV {
            id: self.id@,
            name: self.name@,
            description: self.description@,
            created_at: self.created_at,
            updated_at: self.updated_at,
        }
    }
}

/// Relies on uuid's `Uuid::new_v4` and its `Display` rendering: a freshly
/// generated random 128-bit identifier in its 36-character hyphenated text
/// form. Nothing beyond the length is promised of a random value.
#[verifier::external_body]
fn fresh_project_id() -> (r: String)
    ensures
        r@.len() == 36,
{
    uuid::Uuid::new_v4().to_string()
}

impl Project {
    /// Create a fresh project: a newly generated identifier, the given name
    /// and description kept verbatim, and both timestamps set to one
    /// well-formed reading of the current UTC time. Accepts any name and
    /// description, the empty ones included; there is no failure mode.
    pub fn new(name: String, description: String) -> (p: Project)
        ensures
            p@.wf(),
            p@.name == name@,
            p@.description == description@,
            p@.created_at == p@.updated_at,
            p@.id.len() == 36,
    {
        let now = Timestamp::now();
        Project { id: fresh_project_id(), name, description, created_at: now, updated_at: now }
    }

    /// Whether this project value is well-formed, decided at run time: what
    /// `wf` states of the view.
    pub fn is_wf(&self) -> (b: bool)
        ensures
            b == self@.wf(),
    {
        self.created_at.is_wf() && self.updated_at.is_wf()
    }

    /// The TypeScript declaration of the project record for the front end's
    /// shared types.
    pub fn ts_declaration() -> (r: String)
        ensures
            r@
                == "export type Project = { id: string, name: string, description: string, created_at: string, updated_at: string, };"@,
    {
        String::from_str(
            "export type Project = { id: string, name: string, description: string, created_at: string, updated_at: string, };",
        )
    }
}

} // verus!
