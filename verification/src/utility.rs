//! Day files: the name of the file of a day, taken from the local clock,
//! and how a file stem is recognised as a day.

use crate::pager::byte_len;
use crate::text::{decimal, digit_char, has_char, lemma_split_on_append, lemma_split_on_push_sep, split_chars, split_on, to_chars, views};
use vstd::prelude::*;

verus! {

broadcast use vstd::string::group_string_axioms;

// ---------------------------------------------------------------------------
// Digits
// ---------------------------------------------------------------------------

/// An ASCII decimal digit.
pub open spec fn is_digit(c: char) -> bool {
    '0' <= c && c <= '9'
}

/// Every character is an ASCII decimal digit.
pub open spec fn all_digits(s: Seq<char>) -> bool {
    forall|i: int| 0 <= i < s.len() ==> is_digit(#[trigger] s[i])
}

/// The number of a digit character.
pub open spec fn digit_value(c: char) -> int {
    (c as u32) - ('0' as u32)
}

/// Two digits whose number lies between `lo` and `hi`.
pub open spec fn two_digits_in(s: Seq<char>, lo: int, hi: int) -> bool {
    &&& s.len() == 2
    &&& all_digits(s)
    &&& lo <= digit_value(s[0]) * 10 + digit_value(s[1]) <= hi
}

// ---------------------------------------------------------------------------
// Calendar dates
// ---------------------------------------------------------------------------

/// A leap year of the proleptic Gregorian calendar.
pub open spec fn is_leap_year(y: int) -> bool {
    y % 4 == 0 && (y % 100 != 0 || y % 400 == 0)
}

/// The number of days of month `m` of year `y`.
pub open spec fn days_in_month(y: int, m: int) -> int {
    if m == 2 {
        if is_leap_year(y) {
            29
        } else {
            28
        }
    } else if m == 4 || m == 6 || m == 9 || m == 11 {
        30
    } else {
        31
    }
}

/// A date that chrono's `NaiveDate` holds: a year from -262143 to 262142,
/// a month from 1 to 12 and a day of that month.
pub open spec fn valid_date(y: int, m: int, d: int) -> bool {
    &&& -262143 <= y <= 262142
    &&& 1 <= m <= 12
    &&& 1 <= d <= days_in_month(y, m)
}

/// A number of days larger than the whole range of dates that chrono
/// holds (200 million days either way; its years -262143 to 262142 span
/// fewer than 192 million days).
pub open spec fn days_beyond_dates(days: int) -> bool {
    days <= -200_000_000 || days >= 200_000_000
}

/// What chrono gives for the date `days` days before the date `y-m-d`
/// (`NaiveDate::from_ymd_opt`, `TimeDelta::try_days`,
/// `NaiveDate::checked_sub_signed`, then `year`, `month`, `day`): `None`
/// when there is no such date in its range.
pub uninterp spec fn date_days_before_of(y: int, m: int, d: int, days: int) -> Option<(int, int, int)>;

/// A date as integers.
pub open spec fn date_view(o: Option<(i32, u32, u32)>) -> Option<(int, int, int)> {
    match o {
        Some(t) => Some((t.0 as int, t.1 as int, t.2 as int)),
        None => None,
    }
}

/// Today's date on the local clock (chrono's `Local::now`, `date_naive`,
/// then `Datelike::year`, `month` and `day`). Stated: a date that
/// `NaiveDate` holds, as every `NaiveDate` is. Which date depends on the
/// clock and the time zone and is left unstated. `Local::now` panics when
/// the system clock reads a time before 1970, which no argument decides.
#[verifier::external_body]
fn local_today() -> (r: (i32, u32, u32))
    ensures
        valid_date(r.0 as int, r.1 as int, r.2 as int),
{
    let today = chrono::offset::Local::now().date_naive();
    (chrono::Datelike::year(&today), chrono::Datelike::month(&today), chrono::Datelike::day(&today))
}

/// The date `days` days before the date `y-m-d`, as chrono computes it
/// (`NaiveDate::from_ymd_opt`, `TimeDelta::try_days`,
/// `NaiveDate::checked_sub_signed`, then `year`, `month`, `day`). Stated:
/// the result is `date_days_before_of` of the arguments; zero days give
/// the date back (`try_days(0)` is a zero delta, and adding zero days stays
/// in the year); a result is a date that `NaiveDate` holds; a number of
/// days beyond `days_beyond_dates` gives `None` (the delta overflows, or
/// the year leaves chrono's range, which the source checks). Which date
/// lies that many days before is left to the name.
#[verifier::external_body]
fn date_days_before(y: i32, m: u32, d: u32, days: i64) -> (r: Option<(i32, u32, u32)>)
    requires
        valid_date(y as int, m as int, d as int),
    ensures
        date_view(r) == date_days_before_of(y as int, m as int, d as int, days as int),
        days == 0 ==> r == Some((y, m, d)),
        days_beyond_dates(days as int) ==> r is None,
        r matches Some(t) ==> valid_date(t.0 as int, t.1 as int, t.2 as int),
{
    let date = chrono::NaiveDate::from_ymd_opt(y, m, d)?;
    let delta = chrono::TimeDelta::try_days(days)?;
    let day = date.checked_sub_signed(delta)?;
    Some((chrono::Datelike::year(&day), chrono::Datelike::month(&day), chrono::Datelike::day(&day)))
}

// ---------------------------------------------------------------------------
// Dates as chrono writes them
// ---------------------------------------------------------------------------

/// `v` in two decimal digits (`v` from 0 to 99).
pub open spec fn two_digits(v: int) -> Seq<char> {
    seq![digit_char((v / 10) as nat), digit_char((v % 10) as nat)]
}

/// `v` in four decimal digits (`v` from 0 to 9999).
pub open spec fn four_digits(v: int) -> Seq<char> {
    seq![
        digit_char((v / 1000) as nat),
        digit_char((v / 100 % 10) as nat),
        digit_char((v / 10 % 10) as nat),
        digit_char((v % 10) as nat),
    ]
}

/// A year as `%Y` writes it: four digits for a year from 0 to 9999;
/// otherwise a sign and the digits, at least four.
pub open spec fn year_text(y: int) -> Seq<char> {
    if 0 <= y <= 9999 {
        four_digits(y)
    } else if y > 9999 {
        seq!['+'] + decimal(y as nat)
    } else if y >= -9999 {
        seq!['-'] + four_digits(-y)
    } else {
        seq!['-'] + decimal((-y) as nat)
    }
}

/// The `.txt` extension.
pub open spec fn txt_extension() -> Seq<char> {
    seq!['.', 't', 'x', 't']
}

/// The name of the day file of `y-m-d`, as `%Y-%m-%d.txt` writes it.
pub open spec fn day_file_name_text(y: int, m: int, d: int) -> Seq<char> {
    year_text(y) + seq!['-'] + two_digits(m) + seq!['-'] + two_digits(d) + txt_extension()
}

/// The English abbreviation of month `m`, as `%b` writes it.
pub open spec fn month_abbreviation(m: int) -> Seq<char> {
    if m == 1 {
        seq!['J', 'a', 'n']
    } else if m == 2 {
        seq!['F', 'e', 'b']
    } else if m == 3 {
        seq!['M', 'a', 'r']
    } else if m == 4 {
        seq!['A', 'p', 'r']
    } else if m == 5 {
        seq!['M', 'a', 'y']
    } else if m == 6 {
        seq!['J', 'u', 'n']
    } else if m == 7 {
        seq!['J', 'u', 'l']
    } else if m == 8 {
        seq!['A', 'u', 'g']
    } else if m == 9 {
        seq!['S', 'e', 'p']
    } else if m == 10 {
        seq!['O', 'c', 't']
    } else if m == 11 {
        seq!['N', 'o', 'v']
    } else {
        seq!['D', 'e', 'c']
    }
}

/// The date `y-m-d` as `%d %b %Y` writes it.
pub open spec fn date_label_text(y: int, m: int, d: int) -> Seq<char> {
    two_digits(d) + seq![' '] + month_abbreviation(m) + seq![' '] + year_text(y)
}

/// The name of the day file of `y-m-d`: chrono's
/// `NaiveDate::from_ymd_opt(y, m, d)` written with `format("%Y-%m-%d.txt")`.
/// Stated: the text that `%Y`, `%m` and `%d` give, as chrono's formatting
/// source writes them (a year from 1000 to 9999 in four digits, from 0 to
/// 999 zero-padded to four, any other with a sign and zero-padded to four
/// digits; month and day zero-padded to two).
#[verifier::external_body]
fn format_day_file_name(y: i32, m: u32, d: u32) -> (r: String)
    requires
        valid_date(y as int, m as int, d as int),
    ensures
        r@ == day_file_name_text(y as int, m as int, d as int),
{
    match chrono::NaiveDate::from_ymd_opt(y, m, d) {
        Some(day) => day.format("%Y-%m-%d.txt").to_string(),
        None => String::new(),
    }
}

/// The date `y-m-d` as chrono writes it with `format("%d %b %Y")` on
/// `NaiveDate::from_ymd_opt(y, m, d)`. Stated: the day in two digits, a
/// space, the English month abbreviation (the locale chrono uses without
/// its locale feature), a space, and the year as `%Y` writes it.
#[verifier::external_body]
fn format_date_label(y: i32, m: u32, d: u32) -> (r: String)
    requires
        valid_date(y as int, m as int, d as int),
    ensures
        r@ == date_label_text(y as int, m as int, d as int),
{
    match chrono::NaiveDate::from_ymd_opt(y, m, d) {
        Some(day) => day.format("%d %b %Y").to_string(),
        None => String::new(),
    }
}

// ---------------------------------------------------------------------------
// The day files of the journal
// ---------------------------------------------------------------------------

/// The name of the day file of a date, if there is one.
pub open spec fn day_file_name_for(o: Option<(int, int, int)>) -> Option<Seq<char>> {
    match o {
        Some(t) => Some(day_file_name_text(t.0, t.1, t.2)),
        None => None,
    }
}

/// The file name of the day `days_before` days before today
/// (`YYYY-MM-DD.txt`): the name of the date that chrono finds that many
/// days before today's local date, always one for today, and `None` when
/// there is no such date (as for a number of days beyond every date).
pub fn get_day_file_name(days_before: i64) -> (r: Option<String>)
    ensures
        exists|y: int, m: int, d: int|
            #![trigger date_days_before_of(y, m, d, days_before as int)]
            valid_date(y, m, d) && crate::cli::opt_view(r) == day_file_name_for(
                date_days_before_of(y, m, d, days_before as int),
            ),
        days_before == 0 ==> exists|y: int, m: int, d: int|
            #![trigger day_file_name_text(y, m, d)]
            valid_date(y, m, d) && crate::cli::opt_view(r) == Some(day_file_name_text(y, m, d)),
        days_beyond_dates(days_before as int) ==> r is None,
{
    let (y, m, d) = local_today();
    match date_days_before(y, m, d, days_before) {
        Some(t) => {
            let name = format_day_file_name(t.0, t.1, t.2);
            proof {
                assert(date_days_before_of(y as int, m as int, d as int, days_before as int)
                    == Some((t.0 as int, t.1 as int, t.2 as int)));
            }
            Some(name)
        },
        None => {
            proof {
                assert(date_days_before_of(y as int, m as int, d as int, days_before as int)
                    is None);
            }
            None
        },
    }
}

/// The announcement of an update of the entry of a date, if there is one.
pub open spec fn announcement_for(o: Option<(int, int, int)>) -> Option<Seq<char>> {
    match o {
        Some(t) => Some("Update entry for "@ + date_label_text(t.0, t.1, t.2) + seq![':']),
        None => None,
    }
}

/// What to announce when the entry of an earlier day is updated:
/// `Update entry for `, the date that chrono finds `days_before` days
/// before today's local date as `%d %b %Y` writes it, and `:`; always one
/// for today; `None` when there is no such date (as for a number of days
/// beyond every date).
pub fn update_announcement(days_before: i64) -> (r: Option<String>)
    ensures
        exists|y: int, m: int, d: int|
            #![trigger date_days_before_of(y, m, d, days_before as int)]
            valid_date(y, m, d) && crate::cli::opt_view(r) == announcement_for(
                date_days_before_of(y, m, d, days_before as int),
            ),
        days_before == 0 ==> r is Some,
        days_beyond_dates(days_before as int) ==> r is None,
{
    let (y, m, d) = local_today();
    match date_days_before(y, m, d, days_before) {
        Some(t) => {
            let label = format_date_label(t.0, t.1, t.2);
            let mut out: Vec<char> = Vec::new();
            crate::text::extend_str(&mut out, "Update entry for ");
            crate::text::extend_str(&mut out, label.as_str());
            out.push(':');
            proof {
                assert(date_days_before_of(y as int, m as int, d as int, days_before as int)
                    == Some((t.0 as int, t.1 as int, t.2 as int)));
                assert(out@ =~= "Update entry for "@ + label@ + seq![':']);
            }
            Some(crate::text::from_chars(out.as_slice()))
        },
        None => {
            proof {
                assert(date_days_before_of(y as int, m as int, d as int, days_before as int)
                    is None);
            }
            None
        },
    }
}

// ---------------------------------------------------------------------------
// Recognising day files
// ---------------------------------------------------------------------------

/// A file stem names a day file when it has three parts separated by `-`
/// of 4, 2 and 2 bytes (`YYYY-MM-DD`).
pub open spec fn is_journal_stem_spec(stem: Seq<char>) -> bool {
    let parts = split_on(stem, '-');
    parts.len() == 3 && byte_len(parts[0]) == 4 && byte_len(parts[1]) == 2 && byte_len(parts[2])
        == 2
}

/// Whether a file stem names a day file.
pub fn is_journal_stem(stem: &str) -> (b: bool)
    ensures
        b == is_journal_stem_spec(stem@),
{
    let cs = to_chars(stem);
    let parts = split_chars(cs.as_slice(), '-');
    if parts.len() != 3 {
        return false;
    }
    proof {
        assert(views(parts@)[0] == parts@[0]@);
        assert(views(parts@)[1] == parts@[1]@);
        assert(views(parts@)[2] == parts@[2]@);
    }
    crate::pager::byte_len_is(parts[0].as_slice(), 4) && crate::pager::byte_len_is(
        parts[1].as_slice(),
        2,
    ) && crate::pager::byte_len_is(parts[2].as_slice(), 2)
}

/// Where the last `count` of `file_count` day files begin: at the start
/// when there are no more than `count`.
pub fn recent_entries_start(file_count: usize, count: usize) -> (r: usize)
    ensures
        r == if count >= file_count {
            0
        } else {
            file_count - count
        },
{
    if count >= file_count {
        0
    } else {
        file_count - count
    }
}

/// The texts of names.
pub open spec fn name_views(names: Seq<String>) -> Seq<Seq<char>> {
    names.map_values(|s: String| s@)
}

/// The indices from 0 to `n - 1`.
pub open spec fn all_indices(n: nat) -> Seq<usize> {
    Seq::new(n, |k: int| k as usize)
}

/// Indices that list names in `String` order: no later name comes before
/// an earlier one.
pub open spec fn in_name_order(names: Seq<Seq<char>>, order: Seq<usize>) -> bool {
    forall|a: int, b: int|
        0 <= a < b < order.len() ==> !crate::pager::key_less(
            #[trigger] names[order[b] as int],
            #[trigger] names[order[a] as int],
        )
}

/// The order of the day files: the indices of their names, each once, so
/// that the names come in `String` order (the order of their paths in one
/// directory).
pub fn day_file_order(names: &Vec<String>) -> (order: Vec<usize>)
    ensures
        order@.len() == names@.len(),
        order@.to_multiset() == all_indices(names@.len()).to_multiset(),
        forall|k: int| 0 <= k < order@.len() ==> (#[trigger] order@[k]) < names@.len(),
        in_name_order(name_views(names@), order@),
{
    let n = names.len();
    let ghost ns = name_views(names@);
    let mut keys: Vec<Vec<char>> = Vec::new();
    for i in 0..n
        invariant
            n == names@.len(),
            ns == name_views(names@),
            views(keys@) == ns.take(i as int),
    {
        let k = to_chars(names[i].as_str());
        let ghost before = views(keys@);
        keys.push(k);
        proof {
            assert(views(keys@) =~= before.push(ns[i as int]));
            assert(ns.take(i + 1) =~= ns.take(i as int).push(ns[i as int]));
        }
    }
    proof {
        assert(ns.take(n as int) =~= ns);
    }
    let mut order: Vec<usize> = Vec::new();
    proof {
        assert(all_indices(0) =~= Seq::<usize>::empty());
        assert(order@ =~= Seq::<usize>::empty());
    }
    for i in 0..n
        invariant
            n == names@.len(),
            ns.len() == n,
            views(keys@) == ns,
            keys@.len() == n,
            order@.len() == i,
            forall|k: int| 0 <= k < order@.len() ==> (#[trigger] order@[k]) < i,
            order@.to_multiset() == all_indices(i as nat).to_multiset(),
            in_name_order(ns, order@),
    {
        let mut pos: usize = 0;
        while pos < order.len() && !crate::pager::key_less_chars(
            keys[i].as_slice(),
            keys[order[pos]].as_slice(),
        )
            invariant
                0 <= pos <= order@.len(),
                i < n,
                views(keys@) == ns,
                keys@.len() == n,
                ns.len() == n,
                forall|k: int| 0 <= k < order@.len() ==> (#[trigger] order@[k]) < i,
                forall|k: int| 0 <= k < pos ==> !crate::pager::key_less(ns[i as int], ns[#[trigger] order@[k] as int]),
            decreases order@.len() - pos,
        {
            proof {
                assert(views(keys@)[order@[pos as int] as int] == keys@[order@[pos as int] as int]@);
            }
            pos += 1;
        }
        proof {
            assert(views(keys@)[i as int] == keys@[i as int]@);
            if pos < order@.len() {
                assert(views(keys@)[order@[pos as int] as int] == keys@[order@[pos as int] as int]@);
            }
        }
        let ghost old_order = order@;
        order.insert(pos, i);
        proof {
            let o = order@;
            assert(o == old_order.insert(pos as int, i));
            assert(all_indices((i + 1) as nat) =~= all_indices(i as nat).push(i));
            vstd::seq_lib::to_multiset_insert(old_order, pos as int, i);
            vstd::seq_lib::to_multiset_build(all_indices(i as nat), i);
            assert forall|k: int| 0 <= k < o.len() implies (#[trigger] o[k]) < i + 1 by {
                if k < pos {
                    assert(o[k] == old_order[k]);
                } else if k > pos {
                    assert(o[k] == old_order[k - 1]);
                }
            }
            assert forall|a: int, b: int| 0 <= a < b < o.len() implies !crate::pager::key_less(
                #[trigger] ns[o[b] as int],
                #[trigger] ns[o[a] as int],
            ) by {
                let p = pos as int;
                if b < p {
                    assert(o[a] == old_order[a] && o[b] == old_order[b]);
                } else if b == p {
                    assert(o[a] == old_order[a]);
                    assert(!crate::pager::key_less(ns[i as int], ns[old_order[a] as int]));
                } else if a < p {
                    assert(o[a] == old_order[a] && o[b] == old_order[b - 1]);
                } else if a == p {
                    assert(o[b] == old_order[b - 1]);
                    assert(crate::pager::key_less(ns[i as int], ns[old_order[p] as int]));
                    if crate::pager::key_less(ns[old_order[b - 1] as int], ns[i as int]) {
                        crate::pager::lemma_key_less_transitive(
                            ns[old_order[b - 1] as int],
                            ns[i as int],
                            ns[old_order[p] as int],
                        );
                        if b - 1 == p {
                            crate::pager::lemma_key_less_irreflexive(ns[old_order[p] as int]);
                        } else {
                            assert(!crate::pager::key_less(
                                ns[old_order[b - 1] as int],
                                ns[old_order[p] as int],
                            ));
                        }
                    }
                } else {
                    assert(o[a] == old_order[a - 1] && o[b] == old_order[b - 1]);
                }
            }
        }
    }
    order
}

/// Digits take one byte each and hold no `-`.
proof fn lemma_digits(s: Seq<char>)
    requires
        all_digits(s),
    ensures
        byte_len(s) == s.len(),
        !has_char(s, '-'),
    decreases s.len(),
{
    if s.len() > 0 {
        assert(all_digits(s.drop_last())) by {
            assert forall|i: int| 0 <= i < s.drop_last().len() implies is_digit(
                #[trigger] s.drop_last()[i],
            ) by {
                assert(s.drop_last()[i] == s[i]);
            }
        }
        lemma_digits(s.drop_last());
        assert(is_digit(s[s.len() - 1]));
        if has_char(s, '-') {
            let k = choose|k: int| 0 <= k < s.len() && s[k] == '-';
            assert(is_digit(s[k]));
        }
    }
}

/// The file of a day of a year from 0 to 9999 is found again among the
/// day files: its name has 14 characters and the stem of the name is a day
/// file stem.
pub proof fn lemma_day_file_name_is_journal_stem(y: int, m: int, d: int)
    requires
        valid_date(y, m, d),
        0 <= y <= 9999,
    ensures
        day_file_name_text(y, m, d).len() == 14,
        is_journal_stem_spec(day_file_name_text(y, m, d).take(10)),
{
    let name = day_file_name_text(y, m, d);
    let yy = four_digits(y);
    let mm = two_digits(m);
    let dd = two_digits(d);
    let dash = seq!['-'];
    assert(all_digits(yy));
    assert(all_digits(mm));
    assert(all_digits(dd));
    lemma_digits(yy);
    lemma_digits(mm);
    lemma_digits(dd);
    let stem = yy + dash + mm + dash + dd;
    assert(name =~= stem + txt_extension());
    assert(name.take(10) =~= stem);
    let e = Seq::<char>::empty();
    assert(split_on(e, '-') == seq![e]);
    lemma_split_on_append(e, yy, '-');
    assert(e + yy =~= yy);
    assert(split_on(yy, '-') =~= seq![yy]);
    lemma_split_on_push_sep(yy, '-');
    lemma_split_on_append(yy + dash, mm, '-');
    assert(split_on(yy + dash + mm, '-') =~= seq![yy, mm]);
    lemma_split_on_push_sep(yy + dash + mm, '-');
    lemma_split_on_append(yy + dash + mm + dash, dd, '-');
    assert(split_on(stem, '-') =~= seq![yy, mm, dd]);
}

} // verus!
