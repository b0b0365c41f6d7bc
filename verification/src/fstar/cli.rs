use vstd::prelude::*;

verus! {

/// Declares `std::io::Error` of std, which an error of a run of F* carries.
#[verifier::external_type_specification]
#[verifier::external_body]
pub struct ExIoError(std::io::Error);

/// What went wrong while running F*.
#[derive(Debug)]
pub enum Error {
    /// F* could not be run.
    IO(std::io::Error),
    /// F* ran and failed.
    Unknown(OutputStr),
}

/// The outcome of a run of F*: its exit code (none where a signal ended it) and its output.
#[derive(Clone, Debug)]
pub struct OutputStr {
    pub status: Option<i32>,
    pub stdout: String,
    pub stderr: String,
}

/// The name of F*'s executable.
pub fn fstar_program() -> (r: &'static str)
    ensures
        r@ == "fstar.exe"@,
{
    "fstar.exe"
}

/// The output of a run of F*, where it succeeded: a run succeeds when it exits with code 0; a
/// failed run is answered with the whole of its outcome.
pub fn output_str(out: OutputStr) -> (r: Result<(String, String), Error>)
    ensures
        out.status == Some(0i32) ==> (r matches Ok((o, e)) && o@ == out.stdout@ && e@ == out.stderr@),
        out.status != Some(0i32) ==> (r matches Err(Error::Unknown(o)) && o == out),
{
    let ok = match out.status {
        Some(c) => c == 0,
        None => false,
    };
    if ok {
        Ok((out.stdout, out.stderr))
    } else {
        Err(Error::Unknown(out))
    }
}

} // verus!
