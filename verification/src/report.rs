//! Messages on what a sweep keeps and deletes.

use indicatif::HumanBytes;
use vstd::prelude::*;

verus! {

/// The text that `indicatif::HumanBytes` shows for a number of bytes: the
/// number scaled to the largest binary unit that it reaches, and the unit.
pub uninterp spec fn human_bytes(bytes: u64) -> Seq<char>;

/// Formats `bytes` as `indicatif::HumanBytes` displays it. The text
/// depends on the number alone; what it is for a given number is not
/// stated here.
#[verifier::external_body]
fn format_bytes(bytes: u64) -> (text: String)
    ensures
        text@ == human_bytes(bytes),
{
    format!("{}", HumanBytes(bytes))
}

/// The message on what is kept, from the two sizes as they are shown.
pub fn summary(nar_size: &str, file_size: &str) -> (message: String)
    ensures
        message@ == nar_size@ + " in "@ + file_size@ + " archive files"@,
{
    let mut message = nar_size.to_owned();
    message.append(" in ");
    message.append(file_size);
    message.append(" archive files");
    message
}

/// The message on what is kept: the size of the unpacked archives and the
/// size of the archive files.
pub fn retained_message(nar_size: u64, file_size: u64) -> (message: String)
    ensures
        message@ == human_bytes(nar_size) + " in "@ + human_bytes(file_size) + " archive files"@,
{
    let nar = format_bytes(nar_size);
    let file = format_bytes(file_size);
    summary(nar.as_str(), file.as_str())
}

/// The message on what is deleted: the size of the deleted files.
pub fn deleted_message(size: u64) -> (message: String)
    ensures
        message@ == human_bytes(size),
{
    format_bytes(size)
}

} // verus!
