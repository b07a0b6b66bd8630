//! Due dates, kept as text in the normal `YYYY-MM-DD` form.

use crate::error::DomainError;
use crate::text::{trim, trimmed};
use vstd::prelude::*;
use vstd::string::*;

verus! {

/// What `chrono` makes of a date text: `NaiveDate::parse_from_str(text, "%Y-%m-%d")`
/// written back with `format("%Y-%m-%d")`, or `None` when the text is no valid
/// date in that form.
pub uninterp spec fn chrono_ymd_normal_form(text: Seq<char>) -> Option<Seq<char>>;

/// Parses `text` as a `%Y-%m-%d` date with `chrono::NaiveDate::parse_from_str` and
/// writes it back with `format("%Y-%m-%d")`. The contract only ties the result to
/// the name `chrono_ymd_normal_form`; which texts chrono accepts is left unsaid.
#[verifier::external_body]
fn normalize_ymd(text: &str) -> (r: Option<String>)
    ensures
        match r {
            Some(s) => chrono_ymd_normal_form(text@) == Some(s@),
            None => chrono_ymd_normal_form(text@) is None,
        },
{
    match chrono::NaiveDate::parse_from_str(text, "%Y-%m-%d") {
        Ok(date) => Some(date.format("%Y-%m-%d").to_string()),
        Err(_) => None,
    }
}

/// Whether `c` is an ASCII decimal digit.
pub open spec fn is_ascii_digit(c: char) -> bool {
    '0' <= c && c <= '9'
}

/// A text in the shape chrono writes for `%Y-%m-%d`: the year, at least four
/// characters, then `-`, the month's two digits, `-` and the day's two digits.
pub open spec fn ymd_shaped(t: Seq<char>) -> bool {
    let n = t.len();
    &&& n >= 10
    &&& t[n - 6] == '-'
    &&& t[n - 3] == '-'
    &&& is_ascii_digit(t[n - 5])
    &&& is_ascii_digit(t[n - 4])
    &&& is_ascii_digit(t[n - 2])
    &&& is_ascii_digit(t[n - 1])
}

/// Returns the current local date as a `YYYY-MM-DD` text, from
/// `chrono::Local::now()` and `format("%Y-%m-%d")`. Which date it is depends on
/// the clock and the time zone; the contract states only the shape, which
/// chrono's formatter gives every date: a year of at least four characters, a
/// two-digit month and a two-digit day.
#[verifier::external_body]
pub fn current_local_date() -> (r: String)
    ensures
        ymd_shaped(r@),
{
    chrono::Local::now().date_naive().format("%Y-%m-%d").to_string()
}

/// What chrono writes, with `format("%Y-%m-%d")`, for the UTC calendar day of
/// the point `secs` seconds after the Unix epoch; `None` when
/// `DateTime::from_timestamp` cannot represent that point.
pub uninterp spec fn chrono_utc_day_text(secs: i64) -> Option<Seq<char>>;

/// The calendar day of a UTC point in time, from `chrono::DateTime::from_timestamp`
/// and `format("%Y-%m-%d")`. The contract only ties the result to the name
/// `chrono_utc_day_text`; the calendar arithmetic is left unsaid.
#[verifier::external_body]
fn utc_day_text(secs: i64) -> (r: Option<String>)
    ensures
        match r {
            Some(s) => chrono_utc_day_text(secs) == Some(s@),
            None => chrono_utc_day_text(secs) is None,
        },
{
    match chrono::DateTime::from_timestamp(secs, 0) {
        Some(dt) => Some(dt.date_naive().format("%Y-%m-%d").to_string()),
        None => None,
    }
}

/// Lexicographic order of texts by code point, which is the order of `str`.
pub open spec fn text_less(a: Seq<char>, b: Seq<char>) -> bool
    decreases a.len(),
{
    if b.len() == 0 {
        false
    } else if a.len() == 0 {
        true
    } else if a[0] != b[0] {
        (a[0] as u32) < (b[0] as u32)
    } else {
        text_less(a.drop_first(), b.drop_first())
    }
}

proof fn lemma_text_less_skip(a: Seq<char>, b: Seq<char>, i: int)
    requires
        0 <= i <= a.len(),
        i <= b.len(),
        a.subrange(0, i) == b.subrange(0, i),
    ensures
        text_less(a, b) == text_less(a.skip(i), b.skip(i)),
    decreases i,
{
    if i > 0 {
        assert(a[0] == a.subrange(0, i)[0]);
        assert(b[0] == b.subrange(0, i)[0]);
        let a1 = a.drop_first();
        let b1 = b.drop_first();
        assert(a1.subrange(0, i - 1) =~= a.subrange(0, i).drop_first());
        assert(b1.subrange(0, i - 1) =~= b.subrange(0, i).drop_first());
        lemma_text_less_skip(a1, b1, i - 1);
        assert(a1.skip(i - 1) =~= a.skip(i));
        assert(b1.skip(i - 1) =~= b.skip(i));
    } else {
        assert(a.skip(0) =~= a);
        assert(b.skip(0) =~= b);
    }
}

/// Text order is the order of the first difference: `a` sorts before `b`
/// exactly when, after a common beginning, `a` has a smaller character than `b`
/// at the same place, or `a` is a proper beginning of `b`. For two `YYYY-MM-DD`
/// dates this puts the earlier calendar day first.
pub proof fn lemma_text_less_is_first_difference(a: Seq<char>, b: Seq<char>)
    ensures
        text_less(a, b) <==> ((exists|i: int|
            0 <= i < a.len() && i < b.len() && a.take(i) == b.take(i) && (a[i] as u32) < (
            b[i] as u32)) || (a.len() < b.len() && a == b.take(a.len() as int))),
    decreases a.len(),
{
    if b.len() == 0 {
    } else if a.len() == 0 {
        assert(a =~= b.take(0));
    } else if a[0] != b[0] {
        if (a[0] as u32) < (b[0] as u32) {
            assert(a.take(0) =~= b.take(0));
        }
        assert forall|i: int|
            0 <= i < a.len() && i < b.len() && a.take(i) == b.take(i) implies i == 0 by {
            if i > 0 {
                assert(a.take(i)[0] == b.take(i)[0]);
            }
        }
        if a.len() < b.len() && a == b.take(a.len() as int) {
            assert(a[0] == b.take(a.len() as int)[0]);
        }
    } else {
        let a1 = a.drop_first();
        let b1 = b.drop_first();
        lemma_text_less_is_first_difference(a1, b1);
        let left = exists|i: int|
            0 <= i < a.len() && i < b.len() && a.take(i) == b.take(i) && (a[i] as u32) < (
            b[i] as u32);
        let left1 = exists|i: int|
            0 <= i < a1.len() && i < b1.len() && a1.take(i) == b1.take(i) && (a1[i] as u32) < (
            b1[i] as u32);
        if left1 {
            let i = choose|i: int|
                0 <= i < a1.len() && i < b1.len() && a1.take(i) == b1.take(i) && (a1[i] as u32) < (
                b1[i] as u32);
            assert(a.take(i + 1) =~= seq![a[0]] + a1.take(i));
            assert(b.take(i + 1) =~= seq![b[0]] + b1.take(i));
            assert(a[i + 1] == a1[i] && b[i + 1] == b1[i]);
            assert(left);
        }
        if left {
            let i = choose|i: int|
                0 <= i < a.len() && i < b.len() && a.take(i) == b.take(i) && (a[i] as u32) < (
                b[i] as u32);
            assert(i != 0);
            assert(a1.take(i - 1) =~= a.take(i).drop_first());
            assert(b1.take(i - 1) =~= b.take(i).drop_first());
            assert(a1[i - 1] == a[i] && b1[i - 1] == b[i]);
            assert(left1);
        }
        if a1.len() < b1.len() && a1 == b1.take(a1.len() as int) {
            assert(a =~= b.take(a.len() as int)) by {
                assert forall|k: int| 0 <= k < a.len() implies a[k] == b.take(a.len() as int)[k] by {
                    if k > 0 {
                        assert(a[k] == a1[k - 1]);
                        assert(b1.take(a1.len() as int)[k - 1] == b[k]);
                    }
                }
            }
        }
        if a.len() < b.len() && a == b.take(a.len() as int) {
            assert(a1 =~= b1.take(a1.len() as int)) by {
                assert forall|k: int| 0 <= k < a1.len() implies a1[k] == b1.take(a1.len() as int)[k] by {
                    assert(a[k + 1] == b.take(a.len() as int)[k + 1]);
                }
            }
        }
    }
}

/// Text order is a strict order: never reflexive, and transitive, so a due
/// date that is overdue on one day stays overdue on every later day.
pub proof fn lemma_text_less_strict_order(a: Seq<char>, b: Seq<char>, c: Seq<char>)
    ensures
        !text_less(a, a),
        text_less(a, b) && text_less(b, c) ==> text_less(a, c),
    decreases a.len(),
{
    if a.len() > 0 {
        lemma_text_less_strict_order(a.drop_first(), a.drop_first(), a.drop_first());
    }
    if a.len() > 0 && b.len() > 0 && c.len() > 0 {
        lemma_text_less_strict_order(a.drop_first(), b.drop_first(), c.drop_first());
    }
}

/// A due date whose text is a proper beginning of a day's text, the empty
/// text among them, sorts before that day: on every `YYYY-MM-DD` day such a
/// date is overdue, so the overdue flag cannot be left unset for it.
pub proof fn lemma_beginning_is_before(d: Seq<char>, today: Seq<char>)
    requires
        ymd_shaped(today),
        d.len() < today.len(),
        d == today.take(d.len() as int),
    ensures
        text_less(d, today),
{
    lemma_text_less_is_first_difference(d, today);
}

/// Whether text `a` sorts strictly before text `b`.
pub fn str_less(a: &str, b: &str) -> (r: bool)
    ensures
        r == text_less(a@, b@),
{
    let la = a.unicode_len();
    let lb = b.unicode_len();
    let mut i: usize = 0;
    while i < la && i < lb
        invariant
            la == a@.len(),
            lb == b@.len(),
            i <= la,
            i <= lb,
            a@.subrange(0, i as int) == b@.subrange(0, i as int),
        decreases la - i,
    {
        let ca = a.get_char(i);
        let cb = b.get_char(i);
        if ca != cb {
            proof {
                lemma_text_less_skip(a@, b@, i as int);
                assert(a@.skip(i as int)[0] == ca);
                assert(b@.skip(i as int)[0] == cb);
            }
            return (ca as u32) < (cb as u32);
        }
        assert(a@.subrange(0, i + 1) =~= a@.subrange(0, i as int).push(ca));
        assert(b@.subrange(0, i + 1) =~= b@.subrange(0, i as int).push(cb));
        i = i + 1;
    }
    proof {
        lemma_text_less_skip(a@, b@, i as int);
    }
    i == la && i < lb
}

/// A validated date in `YYYY-MM-DD` form.
#[derive(Debug, Clone, PartialEq, Eq, PartialOrd, Ord)]
pub struct DueDate(String);

impl View for DueDate {
    type V = Seq<char>;

    closed spec fn view(&self) -> Seq<char> {
        self.0@
    }
}

/// The text of the error for a date that cannot be read.
pub open spec fn invalid_due_date_text() -> Seq<char> {
    "Due date must be a valid date in YYYY-MM-DD format"@
}

impl DueDate {
    /// Turns what chrono made of a date text into a due date, or into the error
    /// for a text that is no date.
    pub fn from_normal_form(parsed: Option<String>) -> (r: Result<DueDate, DomainError>)
        ensures
            match parsed {
                Some(s) => r matches Ok(d) && d@ == s@,
                None => r matches Err(DomainError::InvalidOperation(m)) && m@
                    == invalid_due_date_text(),
            },
    {
        match parsed {
            Some(s) => Ok(DueDate(s)),
            None => Err(
                DomainError::InvalidOperation(
                    String::from_str("Due date must be a valid date in YYYY-MM-DD format"),
                ),
            ),
        }
    }

    /// Parses a `YYYY-MM-DD` date, ignoring surrounding whitespace, and keeps it in
    /// the normal form that chrono writes.
    pub fn parse(raw: &str) -> (r: Result<DueDate, DomainError>)
        ensures
            match chrono_ymd_normal_form(trimmed(raw@)) {
                Some(s) => r matches Ok(d) && d@ == s,
                None => r matches Err(DomainError::InvalidOperation(m)) && m@
                    == invalid_due_date_text(),
            },
    {
        let t = trim(raw);
        let parsed = normalize_ymd(t);
        DueDate::from_normal_form(parsed)
    }

    /// Rebuilds a due date from its stored text, as it is; nothing is checked.
    pub fn from_text(text: String) -> (r: DueDate)
        ensures
            r@ == text@,
    {
        DueDate(text)
    }

    /// The due date of the UTC calendar day of a point in time, given in seconds
    /// since the Unix epoch; nothing for a point chrono cannot represent.
    pub fn from_utc_seconds(secs: i64) -> (r: Option<DueDate>)
        ensures
            match chrono_utc_day_text(secs) {
                Some(t) => r matches Some(d) && d@ == t,
                None => r is None,
            },
    {
        match utc_day_text(secs) {
            Some(t) => Some(DueDate::from_text(t)),
            None => None,
        }
    }

    /// The date as text.
    pub fn as_str(&self) -> (r: &str)
        ensures
            r@ == self@,
    {
        self.0.as_str()
    }

    /// Whether the date comes before the reference date `today`, comparing texts.
    pub fn is_overdue_on(&self, today: &str) -> (r: bool)
        ensures
            r == text_less(self@, today@),
    {
        str_less(self.0.as_str(), today)
    }

    /// Whether the date comes before the current local date. The answer depends on
    /// the clock: it is `is_overdue_on` of what `current_local_date` returned.
    pub fn is_overdue(&self) -> (r: bool)
        ensures
            exists|today: Seq<char>| ymd_shaped(today) && r == text_less(self@, today),
    {
        let today = current_local_date();
        let r = self.is_overdue_on(today.as_str());
        assert(r == text_less(self@, today@));
        r
    }
}

} // verus!
