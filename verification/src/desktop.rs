//! Requests that depend on the user's machine: dragging a file out of the
//! application and locating the documents directory.
use vstd::prelude::*;

verus! {

/// Whether something exists at `path` on the file system.
///
/// Calls `std::path::Path::exists`; the answer depends on the file system, so
/// nothing is promised of it.
#[verifier::external_body]
fn path_exists(path: &str) -> bool {
    std::path::Path::new(path).exists()
}

/// The user's documents directory, as text.
///
/// Calls `dirs::document_dir` and converts the path lossily to text; the answer
/// depends on the machine and its environment, so nothing is promised of it.
#[verifier::external_body]
fn documents_dir() -> Option<String> {
    dirs::document_dir().map(|p| p.to_string_lossy().to_string())
}

/// The answer to a drag request for `file_path`, given whether the file exists.
pub fn drag_request(file_path: &str, exists: bool) -> (r: Result<(), String>)
    ensures
        r is Ok <==> exists,
        r matches Err(m) ==> m@ == "File does not exist: "@ + file_path@,
{
    if !exists {
        let mut m = String::from_str("File does not exist: ");
        m.append(file_path);
        return Err(m);
    }
    Ok(())
}

/// Initiate a file drag-and-drop operation as drag source.
///
/// The drag itself is started by the user interface; this checks that the file exists.
pub fn start_file_drag(file_path: &str) -> (r: Result<(), String>)
    ensures
        r matches Err(m) ==> m@ == "File does not exist: "@ + file_path@,
{
    let exists = path_exists(file_path);
    drag_request(file_path, exists)
}

/// The documents directory, or the error reported when it is unknown.
pub fn documents_dir_result(dir: Option<String>) -> (r: Result<String, String>)
    ensures
        match dir {
            Some(d) => r matches Ok(s) && s@ == d@,
            None => r matches Err(m) && m@ == "Could not determine Documents directory"@,
        },
{
    match dir {
        Some(d) => Ok(d),
        None => Err(String::from_str("Could not determine Documents directory")),
    }
}

/// The user's documents directory.
pub fn get_documents_dir() -> (r: Result<String, String>)
    ensures
        r matches Err(m) ==> m@ == "Could not determine Documents directory"@,
{
    documents_dir_result(documents_dir())
}

} // verus!
