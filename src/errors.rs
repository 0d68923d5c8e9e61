use vstd::prelude::*;

verus! {

#[verifier::external_type_specification]
#[verifier::external_body]
pub struct ExCsvError(csv::Error);

/// A requested field name matches no column of the header row.
#[derive(Debug, Clone, Copy, PartialEq, Eq, Structural)]
pub struct HeaderError;

impl HeaderError {
    /// The text shown for this error.
    pub fn message(&self) -> (r: String)
        ensures
            r@ == "Invalid header!"@,
    {
        String::from_str("Invalid header!")
    }
}

/// The output directory of a job already exists.
#[derive(Debug, Clone, Copy, PartialEq, Eq, Structural)]
pub struct DirectoryError;

impl DirectoryError {
    /// The text shown for this error.
    pub fn message(&self) -> (r: String)
        ensures
            r@ == "directory already exist!\nChoose different output folder or remove\nfolder with same name as selected options."@,
    {
        String::from_str(
            "directory already exist!\nChoose different output folder or remove\nfolder with same name as selected options.",
        )
    }
}

/// Why a job stopped before producing its output.
#[derive(Debug)]
pub enum TransformError {
    /// The header row of the input cannot be read.
    InvalidHeader(csv::Error),
    /// The category or filter field matches no header column.
    HeaderResolution(HeaderError),
    /// A record of the input cannot be read.
    RowParse(csv::Error),
    /// A record cannot be encoded as a delimited line.
    Encode(csv::Error),
}

/// The kinds of failure of a job.
pub enum Failure {
    InvalidHeader,
    HeaderResolution,
    RowParse,
    Encode,
}

impl TransformError {
    /// The kind of this failure.
    pub open spec fn kind(&self) -> Failure {
        match self {
            TransformError::InvalidHeader(_) => Failure::InvalidHeader,
            TransformError::HeaderResolution(_) => Failure::HeaderResolution,
            TransformError::RowParse(_) => Failure::RowParse,
            TransformError::Encode(_) => Failure::Encode,
        }
    }
}

} // verus!
