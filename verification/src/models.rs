//! The rows of the two tables the index is stored in, and the making of new
//! rows with fresh identifiers.

use vstd::prelude::*;

verus! {

/// A registered location: a parent folder whose sub-folders are projects,
/// named by a prefix that tells it apart from other locations.
#[derive(Debug, PartialEq, Eq)]
pub struct Path {
    pub id: String,
    pub path: String,
    pub prefix: String,
}

/// A row to insert into the table of locations.
#[derive(Debug)]
pub struct NewPath<'a> {
    pub id: &'a str,
    pub path: &'a str,
    pub prefix: &'a str,
}

/// A project inside a location, tied to it by `path_id`.
#[derive(Debug, PartialEq, Eq)]
pub struct Project {
    pub id: String,
    pub name: String,
    pub path_id: String,
}

/// A row to insert into the table of projects.
#[derive(Debug)]
pub struct NewProject<'a> {
    pub id: &'a str,
    pub name: &'a str,
    pub path_id: &'a str,
}

pub open spec fn is_lower_hex_digit(c: char) -> bool {
    (48 <= (c as u32) && (c as u32) <= 57) || (97 <= (c as u32) && (c as u32) <= 102)
}

pub open spec fn is_hyphen_position(i: int) -> bool {
    i == 8 || i == 13 || i == 18 || i == 23
}

/// The text of a random (version 4, RFC 4122 variant) UUID in lower-case
/// hyphenated form, such as `67e55044-10b1-426f-9247-bb680e5fe0c8`.
pub open spec fn is_v4_uuid_text(s: Seq<char>) -> bool {
    &&& s.len() == 36
    &&& forall|i: int|
        0 <= i < 36 ==> if is_hyphen_position(i) {
            #[trigger] s[i] == '-'
        } else {
            is_lower_hex_digit(s[i])
        }
    &&& s[14] == '4'
    &&& (s[19] == '8' || s[19] == '9' || s[19] == 'a' || s[19] == 'b')
}

/// Calls `uuid::Uuid::new_v4` and renders the result with
/// `hyphenated().to_string()`. The uuid crate's source sets the version nibble
/// to 4 and the top bits of the variant nibble to `10`, and its hyphenated
/// formatter writes 32 lower-case hex digits with hyphens after the 8th, 12th,
/// 16th and 20th digit; that is what the contract claims. Which random digits
/// come out is left unsaid. The crate panics when the operating system cannot
/// supply random bytes, which no argument can rule out.
#[verifier::external_body]
fn random_uuid_text() -> (id: String)
    ensures
        is_v4_uuid_text(id@),
{
    uuid::Uuid::new_v4().hyphenated().to_string()
}

/// A new location row with a fresh random identifier.
pub fn new_path_row(path: &str, prefix: &str) -> (row: Path)
    ensures
        row.path@ == path@,
        row.prefix@ == prefix@,
        is_v4_uuid_text(row.id@),
{
    let id = random_uuid_text();
    Path { id, path: path.to_owned(), prefix: prefix.to_owned() }
}

/// A new project row with a fresh random identifier, inside the location
/// `path_id`.
pub fn new_project_row(name: &str, path_id: &str) -> (row: Project)
    ensures
        row.name@ == name@,
        row.path_id@ == path_id@,
        is_v4_uuid_text(row.id@),
{
    let id = random_uuid_text();
    Project { id, name: name.to_owned(), path_id: path_id.to_owned() }
}

impl Path {
    /// The insertable form of this row.
    pub fn as_new(&self) -> (row: NewPath<'_>)
        ensures
            row.id@ == self.id@,
            row.path@ == self.path@,
            row.prefix@ == self.prefix@,
    {
        NewPath { id: self.id.as_str(), path: self.path.as_str(), prefix: self.prefix.as_str() }
    }
}

impl Project {
    /// The insertable form of this row.
    pub fn as_new(&self) -> (row: NewProject<'_>)
        ensures
            row.id@ == self.id@,
            row.name@ == self.name@,
            row.path_id@ == self.path_id@,
    {
        NewProject {
            id: self.id.as_str(),
            name: self.name.as_str(),
            path_id: self.path_id.as_str(),
        }
    }
}

} // verus!
