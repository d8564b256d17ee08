//! What can go wrong, and how it is reported.

use vstd::prelude::*;
use vstd::string::{StrSliceExecFns, StringExecFns};

verus! {

/// The error of the `csv` crate, carried as it came.
#[verifier::external_type_specification]
#[verifier::external_body]
pub struct ExCsvError(csv::Error);

/// The decoding error of the `base64` crate, carried as it came.
#[verifier::external_type_specification]
#[verifier::external_body]
pub struct ExDecodeError(base64::DecodeError);

/// The broad kinds of failure.
#[derive(Clone, Copy, Debug, PartialEq, Eq, Structural)]
pub enum FailureKind {
    /// The table could not be read as a table.
    TableRead,
    /// The request, or the data that a curve of it selects, cannot be
    /// aggregated.
    InvalidConfiguration,
    /// An image payload was malformed.
    Encoding,
}

/// A failure of a request. Nothing of a request's result is handed out beside
/// one.
#[derive(Debug)]
pub enum Failure {
    /// No curve was asked for.
    NoCurves,
    /// A row has no cell in the column of a curve.
    MissingColumn { column_id: usize },
    /// Fewer than two samples of a curve could be used.
    NotEnoughData { column_id: usize },
    /// The curve looks at no step at all.
    EmptyData { column_id: usize },
    /// The curve has a unit of no step, which cannot bin anything.
    ZeroUnit { column_id: usize },
    /// A sum over the curve's data is beyond what the statistics can hold.
    TooLarge { column_id: usize },
    /// An image has no payload after a comma.
    InvalidImage,
    /// The table was malformed.
    Csv(csv::Error),
    /// An image's payload was not base64.
    Base64(base64::DecodeError),
}

impl Failure {
    /// The kind of a failure.
    pub open spec fn spec_kind(&self) -> FailureKind {
        match self {
            Failure::Csv(_) => FailureKind::TableRead,
            Failure::InvalidImage | Failure::Base64(_) => FailureKind::Encoding,
            _ => FailureKind::InvalidConfiguration,
        }
    }

    /// The kind of this failure.
    #[verifier::when_used_as_spec(spec_kind)]
    pub fn kind(&self) -> (kind: FailureKind)
        ensures
            kind == self.spec_kind(),
    {
        match self {
            Failure::Csv(_) => FailureKind::TableRead,
            Failure::InvalidImage | Failure::Base64(_) => FailureKind::Encoding,
            _ => FailureKind::InvalidConfiguration,
        }
    }
}

/// The character of a digit.
pub open spec fn digit(d: nat) -> char
    recommends
        d < 10,
{
    seq!['0', '1', '2', '3', '4', '5', '6', '7', '8', '9'][d as int]
}

/// A number in decimal digits, without leading zeros.
pub open spec fn decimal(n: nat) -> Seq<char>
    decreases n,
{
    if n < 10 {
        seq![digit(n)]
    } else {
        decimal(n / 10).push(digit(n % 10))
    }
}

/// Writes a number in decimal digits at the end of a text.
pub fn push_decimal(text: &mut String, n: usize)
    ensures
        final(text)@ == old(text)@ + decimal(n as nat),
    decreases n,
{
    if n >= 10 {
        push_decimal(text, n / 10);
    }
    let d: usize = n % 10;
    let digits: &str = "0123456789";
    proof {
        reveal_strlit("0123456789");
        assert(digits@ =~= seq!['0', '1', '2', '3', '4', '5', '6', '7', '8', '9']);
    }
    let one: &str = digits.substring_ascii(d, d + 1);
    assert(one@ =~= seq![digit(d as nat)]);
    let ghost before = text@;
    text.append(one);
    assert(before + seq![digit(d as nat)] =~= before.push(digit(d as nat)));
    assert(text@ =~= old(text)@ + decimal(n as nat));
}

/// What `csv::Error` displays.
#[verifier::external_body]
fn csv_error_text(e: &csv::Error) -> String {
    format!("{}", e)
}

/// What `base64::DecodeError` displays.
#[verifier::external_body]
fn base64_error_text(e: &base64::DecodeError) -> String {
    format!("{}", e)
}

impl Failure {
    /// Whether the failure lies in what was asked for, or in the data that
    /// it selects; one that does not was met by an outside crate, which
    /// words it.
    pub open spec fn is_parameter(&self) -> bool {
        !(self is Csv || self is Base64)
    }

    /// The words that come before the column in the reason of a failure
    /// that names one.
    pub open spec fn lead(&self) -> Seq<char> {
        match self {
            Failure::MissingColumn { .. } => "column id "@,
            Failure::NotEnoughData { .. } => "Valid data is not enough for column "@,
            Failure::EmptyData { .. } => "Data length is 0 for column "@,
            Failure::ZeroUnit { .. } => "Unit is 0 for column "@,
            Failure::TooLarge { .. } => "Data is too large for column "@,
            _ => Seq::empty(),
        }
    }

    /// The reason of a failure in words.
    pub open spec fn spec_reason(&self) -> Seq<char>
        recommends
            self.is_parameter(),
    {
        match self {
            Failure::NoCurves => "No curve is required"@,
            Failure::InvalidImage => "Invalid image"@,
            Failure::MissingColumn { column_id } => self.lead() + decimal(*column_id as nat),
            Failure::NotEnoughData { column_id } => self.lead() + decimal(*column_id as nat),
            Failure::EmptyData { column_id } => self.lead() + decimal(*column_id as nat),
            Failure::ZeroUnit { column_id } => self.lead() + decimal(*column_id as nat),
            Failure::TooLarge { column_id } => self.lead() + decimal(*column_id as nat),
            _ => Seq::empty(),
        }
    }

    /// The reason of this failure in words. A failure that an outside crate
    /// met is worded by that crate.
    pub fn reason(&self) -> (text: String)
        ensures
            self.is_parameter() ==> text@ == self.spec_reason(),
    {
        match self {
            Failure::NoCurves => String::from_str("No curve is required"),
            Failure::InvalidImage => String::from_str("Invalid image"),
            Failure::MissingColumn { column_id } => {
                let mut text = String::from_str("column id ");
                push_decimal(&mut text, *column_id);
                text
            },
            Failure::NotEnoughData { column_id } => {
                let mut text = String::from_str("Valid data is not enough for column ");
                push_decimal(&mut text, *column_id);
                text
            },
            Failure::EmptyData { column_id } => {
                let mut text = String::from_str("Data length is 0 for column ");
                push_decimal(&mut text, *column_id);
                text
            },
            Failure::ZeroUnit { column_id } => {
                let mut text = String::from_str("Unit is 0 for column ");
                push_decimal(&mut text, *column_id);
                text
            },
            Failure::TooLarge { column_id } => {
                let mut text = String::from_str("Data is too large for column ");
                push_decimal(&mut text, *column_id);
                text
            },
            Failure::Csv(e) => csv_error_text(e),
            Failure::Base64(e) => base64_error_text(e),
        }
    }

    /// The whole message of this failure: its reason, after a heading where
    /// the failure lies in what was asked for.
    pub fn message(&self) -> (text: String)
        ensures
            self.is_parameter() ==> text@ == "Invalid parameter: "@ + self.spec_reason(),
    {
        match self {
            Failure::Csv(e) => csv_error_text(e),
            Failure::Base64(e) => base64_error_text(e),
            _ => {
                let reason = self.reason();
                let mut text = String::from_str("Invalid parameter: ");
                text.append(reason.as_str());
                text
            },
        }
    }
}

} // verus!
