//! What the web front end shows of the status: the texts of its panels and
//! how often it asks for the status.

use vstd::prelude::*;
use crate::status::{DWComparingStatus, DWScanningStatus, DWStatus};

verus! {

/// The decimal digit `d`.
pub open spec fn digit_char(d: nat) -> char {
    if d == 0 { '0' }
    else if d == 1 { '1' }
    else if d == 2 { '2' }
    else if d == 3 { '3' }
    else if d == 4 { '4' }
    else if d == 5 { '5' }
    else if d == 6 { '6' }
    else if d == 7 { '7' }
    else if d == 8 { '8' }
    else { '9' }
}

/// The decimal writing of `n`, without leading zeros.
pub open spec fn decimal(n: nat) -> Seq<char>
    decreases n,
{
    if n < 10 {
        seq![digit_char(n)]
    } else {
        decimal(n / 10).push(digit_char(n % 10))
    }
}

fn digit_str(d: usize) -> (s: &'static str)
    requires
        d < 10,
    ensures
        s@ == seq![digit_char(d as nat)],
{
    proof {
        reveal_strlit("0");
        reveal_strlit("1");
        reveal_strlit("2");
        reveal_strlit("3");
        reveal_strlit("4");
        reveal_strlit("5");
        reveal_strlit("6");
        reveal_strlit("7");
        reveal_strlit("8");
        reveal_strlit("9");
    }
    if d == 0 { "0" }
    else if d == 1 { "1" }
    else if d == 2 { "2" }
    else if d == 3 { "3" }
    else if d == 4 { "4" }
    else if d == 5 { "5" }
    else if d == 6 { "6" }
    else if d == 7 { "7" }
    else if d == 8 { "8" }
    else { "9" }
}

/// Appends the decimal writing of `n` to `out`.
fn push_decimal(out: &mut String, n: usize)
    ensures
        final(out)@ == old(out)@ + decimal(n as nat),
    decreases n,
{
    if n >= 10 {
        push_decimal(out, n / 10);
    }
    out.append(digit_str(n % 10));
    proof {
        if n >= 10 {
            assert(decimal(n as nat) == decimal((n / 10) as nat).push(digit_char((n % 10) as nat)));
        }
    }
}

/// The decimal writing of `n`, as `to_string` gives it.
pub fn decimal_text(n: usize) -> (text: String)
    ensures
        text@ == decimal(n as nat),
{
    let mut text = String::new();
    push_decimal(&mut text, n);
    assert(text@ =~= decimal(n as nat));
    text
}

/// The progress of the comparison, as `"{scanned} / {total}"`.
pub fn progress_text(comparing: &DWComparingStatus) -> (text: String)
    ensures
        text@ == decimal(comparing.image_scanning as nat) + " / "@ + decimal(
            comparing.total_images as nat,
        ),
{
    let mut text = decimal_text(comparing.image_scanning);
    text.append(" / ");
    text.append(decimal_text(comparing.total_images).as_str());
    text
}

/// The index of the last `/` of `path`, or -1 where there is none.
pub open spec fn last_slash(path: Seq<char>) -> int
    decreases path.len(),
{
    if path.len() == 0 {
        -1
    } else if path.last() == '/' {
        path.len() - 1
    } else {
        last_slash(path.drop_last())
    }
}

/// The final component of a path with `/` as its separator (the paths of
/// Unix-like systems, where the status is served): trailing separators and `.`
/// components other than a leading one are ignored; an empty path, a root,
/// a lone leading `.` and a path ending in `..` have none.
pub open spec fn path_file_name(path: Seq<char>) -> Option<Seq<char>>
    decreases path.len(),
{
    if path.len() == 0 {
        None
    } else if path.last() == '/' {
        path_file_name(path.drop_last())
    } else {
        let start = last_slash(path) + 1;
        let last = path.subrange(start, path.len() as int);
        if last == seq!['.'] {
            if start == 0 {
                None
            } else {
                path_file_name(path.drop_last())
            }
        } else if last == seq!['.', '.'] {
            None
        } else {
            Some(last)
        }
    }
}

/// Calls `std::path::Path::file_name` on `path` and returns the name as a
/// string. The contract states what the standard library documents for
/// paths separated by `/` (Unix-like targets): the
/// final component of the path's components, which ignore repeated and
/// trailing separators and `.` other than at the start, and none for a
/// root, a lone `.` or a path ending in `..`.
#[verifier::external_body]
fn file_name_of(path: &str) -> (name: Option<String>)
    ensures
        match name {
            Some(n) => path_file_name(path@) == Some(n@),
            None => path_file_name(path@) is None,
        },
{
    std::path::Path::new(path).file_name().map(|n| n.to_string_lossy().into_owned())
}

/// The name of the last scanned image: the final component of its path,
/// or nothing when there is no last image or its path has no final
/// component.
pub fn last_image_name(scanning: &DWScanningStatus) -> (name: String)
    ensures
        name@ == match scanning.last_scanned {
            Some(p) => match path_file_name(p@) {
                Some(n) => n,
                None => Seq::empty(),
            },
            None => Seq::empty(),
        },
{
    match &scanning.last_scanned {
        Some(p) => match file_name_of(p.as_str()) {
            Some(n) => n,
            None => String::new(),
        },
        None => String::new(),
    }
}

/// How often, in milliseconds, the front end asks for the status: every
/// 500 while the engine initializes or scans, never after.
pub fn poll_interval(status: &DWStatus) -> (millis: u32)
    ensures
        millis == (if status is Initializing || status is Scanning { 500u32 } else { 0u32 }),
{
    match status {
        DWStatus::Initializing | DWStatus::Scanning(_) => 500,
        _ => 0,
    }
}

} // verus!
