use vstd::prelude::*;
use crate::errors::ErrorType;
use crate::text::push_text;

verus! {

/// Whether the characters at `i` and `i + 1` are decimal digits.
pub open spec fn two_digits(s: Seq<char>, i: int) -> bool {
    '0' <= s[i] <= '9' && '0' <= s[i + 1] <= '9'
}

/// A year as `chrono` writes `%Y`: at least four decimal digits, with a
/// sign in front for years outside 0 to 9999.
pub open spec fn year_text(y: Seq<char>) -> bool {
    let d = if y.len() > 0 && (y[0] == '+' || y[0] == '-') { y.drop_first() } else { y };
    d.len() >= 4 && forall|i: int| 0 <= i < d.len() ==> '0' <= #[trigger] d[i] <= '9'
}

/// Whether a text reads `dd/mm/<year> hh:mm:ss`, as `%d/%m/%Y %T` writes a
/// moment: two digits for the day, the month, the hour, the minute and the
/// second, and the year as `year_text` says.
pub open spec fn date_time_shape(s: Seq<char>) -> bool {
    let n = s.len() as int;
    &&& n >= 19
    &&& two_digits(s, 0) && s[2] == '/' && two_digits(s, 3) && s[5] == '/'
    &&& year_text(s.subrange(6, n - 9))
    &&& s[n - 9] == ' ' && two_digits(s, n - 8) && s[n - 6] == ':'
    &&& two_digits(s, n - 5) && s[n - 3] == ':' && two_digits(s, n - 2)
}

/// The present time in UTC as `chrono` formats it with `%d/%m/%Y %T`
/// (`DateTime<Utc>` from `SystemTime::now`). Trusted: the text has the shape
/// that format gives (chrono writes day, month, hour, minute and second as
/// two zero-padded digits and the year as at least four). What time it is
/// is not stated.
#[verifier::external_body]
fn utc_now_text() -> (r: String)
    ensures
        date_time_shape(r@),
{
    let now: chrono::DateTime<chrono::Utc> = std::time::SystemTime::now().into();
    now.format("%d/%m/%Y %T").to_string()
}

/// The present date and time, `dd/mm/yyyy hh:mm:ss` in UTC.
pub fn get_current_date_time() -> (r: Result<String, ErrorType>)
    ensures
        r matches Ok(s) && date_time_shape(s@),
{
    Ok(utc_now_text())
}

/// Checks that a path the user passed exists (`exists` tells whether it
/// does); the error names it.
pub fn verify_path_exists(path: &str, exists: bool) -> (r: Result<(), ErrorType>)
    ensures
        exists ==> r is Ok,
        !exists ==> (r matches Err(ErrorType::FileNotFound(p)) && p@ == path@),
{
    if !exists {
        let mut p = String::new();
        push_text(&mut p, path);
        return Err(ErrorType::FileNotFound(p));
    }
    Ok(())
}

} // verus!
