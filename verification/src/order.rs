use vstd::prelude::*;
use crate::marks::Algorithm;
use crate::prefs::{has_tag, views, OrderOperator, Preferences, PreservationLogic};
use crate::records::{data_get, filename_of, filestem_of, FileRecord};
use crate::text::{contains_sub, str_chars, str_contains, str_eq, string_from_chars};

verus! {

/// Whether every character of `s` is an ASCII digit.
pub open spec fn all_digits(s: Seq<char>) -> bool {
    forall|i: int| 0 <= i < s.len() ==> '0' <= #[trigger] s[i] && s[i] <= '9'
}

/// The number that a run of ASCII digits writes in base ten.
pub open spec fn digits_value(s: Seq<char>) -> int
    decreases s.len(),
{
    if s.len() == 0 {
        0
    } else {
        digits_value(s.drop_last()) * 10 + (s.last() as int - '0' as int)
    }
}

/// The integer that `s` writes: an optional `+` or `-`, then one or more
/// ASCII digits.
pub open spec fn int_text_value(s: Seq<char>) -> Option<int> {
    let signed = s.len() > 0 && (s[0] == '-' || s[0] == '+');
    let body = if signed {
        s.drop_first()
    } else {
        s
    };
    if body.len() > 0 && all_digits(body) {
        Some(
            if s[0] == '-' {
                -digits_value(body)
            } else {
                digits_value(body)
            },
        )
    } else {
        None
    }
}

/// What `str::parse::<i64>` gives for `s`: the integer it writes, when that
/// fits in an `i64`.
pub open spec fn parse_i64_text(s: Seq<char>) -> Option<i64> {
    match int_text_value(s) {
        Some(v) => if i64::MIN <= v <= i64::MAX {
            Some(v as i64)
        } else {
            None
        },
        None => None,
    }
}

/// `str::parse::<i64>`: an optional sign and one or more ASCII digits whose
/// value fits in an `i64`; anything else is an error.
#[verifier::external_body]
fn parse_i64(s: &str) -> (r: Option<i64>)
    ensures
        r == parse_i64_text(s@),
{
    s.parse::<i64>().ok()
}

/// Whether `c` separates the fields of a duration.
pub open spec fn is_duration_sep(c: char) -> bool {
    c == ':' || c == '.'
}

/// The pieces of `s` between separators, as `str::split` with `:` and `.`
/// cuts it; an empty piece stands between two adjacent separators.
pub open spec fn split_fields(s: Seq<char>) -> Seq<Seq<char>>
    decreases s.len(),
{
    if s.len() == 0 {
        seq![Seq::<char>::empty()]
    } else {
        let p = split_fields(s.drop_last());
        if is_duration_sep(s.last()) {
            p.push(Seq::<char>::empty())
        } else {
            p.update(p.len() - 1, p.last().push(s.last()))
        }
    }
}

proof fn lemma_split_fields_nonempty(s: Seq<char>)
    ensures
        split_fields(s).len() >= 1,
    decreases s.len(),
{
    if s.len() > 0 {
        lemma_split_fields_nonempty(s.drop_last());
    }
}

/// The largest number of seconds that a `chrono` duration holds.
pub open spec fn max_secs() -> int {
    9223372036854775
}

/// Whether `v` is a number of seconds that a `chrono` duration holds.
pub open spec fn secs_fit(v: int) -> bool {
    -max_secs() <= v <= max_secs()
}

/// Whether `v` is a number of milliseconds that a `chrono` duration holds.
pub open spec fn millis_fit(v: int) -> bool {
    -i64::MAX <= v <= i64::MAX
}

/// How the text of a field value reads as a duration.
pub enum DurationText {
    /// It is not a duration: not three or four fields of integers.
    NoDuration,
    /// It writes a duration that `chrono` cannot hold, on which building it
    /// panics.
    TooLarge,
    /// It writes a duration of this many milliseconds.
    Millis(int),
}

/// `MM:SS.mmm` or `HH:MM:SS.mmm` read as `chrono` durations are built: each
/// field by `Duration::hours`, `minutes`, `seconds` and `milliseconds`, then
/// added from the left, each step within `chrono`'s range or a panic.
pub open spec fn duration_text(s: Seq<char>) -> DurationText {
    let f = split_fields(s);
    if f.len() == 3 {
        match (parse_i64_text(f[0]), parse_i64_text(f[1]), parse_i64_text(f[2])) {
            (Some(m), Some(sec), Some(ms)) => {
                let a = m * 60000;
                let b = a + sec * 1000;
                let c = b + ms;
                if secs_fit(m * 60) && secs_fit(sec as int) && millis_fit(ms as int) && millis_fit(b)
                    && millis_fit(c) {
                    DurationText::Millis(c)
                } else {
                    DurationText::TooLarge
                }
            },
            _ => DurationText::NoDuration,
        }
    } else if f.len() == 4 {
        match (
            parse_i64_text(f[0]),
            parse_i64_text(f[1]),
            parse_i64_text(f[2]),
            parse_i64_text(f[3]),
        ) {
            (Some(h), Some(m), Some(sec), Some(ms)) => {
                let a = h * 3600000 + m * 60000;
                let b = a + sec * 1000;
                let c = b + ms;
                if secs_fit(h * 3600) && secs_fit(m * 60) && secs_fit(sec as int) && millis_fit(
                    ms as int,
                ) && millis_fit(a) && millis_fit(b) && millis_fit(c) {
                    DurationText::Millis(c)
                } else {
                    DurationText::TooLarge
                }
            },
            _ => DurationText::NoDuration,
        }
    } else {
        DurationText::NoDuration
    }
}

/// A column value read as something that orders: an integer, a duration in
/// milliseconds, or a date and time as seconds since 1970 and nanoseconds.
#[derive(Debug, Clone, Copy, PartialEq, Eq, Structural)]
pub enum ParsedValue {
    Integer(i64),
    Duration(i64),
    DateTime(i64, u32),
}

/// The result of `chrono::NaiveDateTime::parse_from_str(value, fmt)`, as
/// seconds since 1970 (read as UTC) and the nanoseconds of the second.
pub uninterp spec fn datetime_parse(value: Seq<char>, fmt: Seq<char>) -> Option<(i64, u32)>;

/// `chrono::NaiveDateTime::parse_from_str(value, fmt)`, the date and time
/// given as `and_utc().timestamp()` and `nanosecond()`, which together keep
/// its order; the contract names the result as `datetime_parse`.
#[verifier::external_body]
fn parse_datetime(value: &str, fmt: &str) -> (r: Option<(i64, u32)>)
    ensures
        r == datetime_parse(value@, fmt@),
{
    let d = chrono::NaiveDateTime::parse_from_str(value, fmt).ok()?;
    Some((d.and_utc().timestamp(), chrono::Timelike::nanosecond(&d)))
}

/// The format of a date and time column.
pub const DATETIME_FORMAT: &'static str = "%Y-%m-%d %H:%M:%S";

/// How a column value reads: as an integer, else as a duration, else as a
/// date and time; `None` when it is none of them.
pub open spec fn parsed_value(s: Seq<char>) -> Option<ParsedValue> {
    match parse_i64_text(s) {
        Some(v) => Some(ParsedValue::Integer(v)),
        None => match duration_text(s) {
            DurationText::Millis(ms) => Some(ParsedValue::Duration(ms as i64)),
            _ => match datetime_parse(s, DATETIME_FORMAT@) {
                Some((t, n)) => Some(ParsedValue::DateTime(t, n)),
                None => None,
            },
        },
    }
}

/// Whether reading `s` panics: it is no integer and writes a duration too
/// large for `chrono`.
pub open spec fn parse_panics(s: Seq<char>) -> bool {
    parse_i64_text(s) is None && duration_text(s) is TooLarge
}

fn chars_to_string_vec_push(parts: &mut Vec<String>, cur: &Vec<char>)
    ensures
        crate::prefs::views(final(parts)@) == crate::prefs::views(old(parts)@).push(cur@),
{
    let s = string_from_chars(cur);
    parts.push(s);
    assert(crate::prefs::views(final(parts)@) =~= crate::prefs::views(old(parts)@).push(cur@));
}

/// Cuts `s` at every `:` and `.`.
fn split_duration_fields(s: &str) -> (r: Vec<String>)
    ensures
        crate::prefs::views(r@) == split_fields(s@),
{
    let v = str_chars(s);
    let mut parts: Vec<String> = Vec::new();
    let mut cur: Vec<char> = Vec::new();
    let mut i: usize = 0;
    while i < v.len()
        invariant
            0 <= i <= v.len(),
            v@ == s@,
            crate::prefs::views(parts@).push(cur@) == split_fields(v@.take(i as int)),
        decreases v.len() - i,
    {
        let c = v[i];
        let ghost before = crate::prefs::views(parts@).push(cur@);
        assert(v@.take(i + 1).drop_last() =~= v@.take(i as int));
        assert(v@.take(i + 1).last() == c);
        if c == ':' || c == '.' {
            chars_to_string_vec_push(&mut parts, &cur);
            cur = Vec::new();
            assert(crate::prefs::views(parts@).push(cur@) =~= before.push(Seq::<char>::empty()));
        } else {
            let ghost old_cur = cur@;
            cur.push(c);
            assert(crate::prefs::views(parts@).push(cur@) =~= before.update(
                before.len() - 1,
                before.last().push(c),
            ));
        }
        i = i + 1;
    }
    assert(v@.take(i as int) =~= v@);
    chars_to_string_vec_push(&mut parts, &cur);
    parts
}

fn secs_fit_exec(v: i128) -> (b: bool)
    ensures
        b == secs_fit(v as int),
{
    -9223372036854775 <= v && v <= 9223372036854775
}

fn millis_fit_exec(v: i128) -> (b: bool)
    ensures
        b == millis_fit(v as int),
{
    -9223372036854775807 <= v && v <= 9223372036854775807
}

/// How a text read as a duration.
#[derive(Debug, Clone, Copy, PartialEq, Eq, Structural)]
pub enum DurationRead {
    NoDuration,
    TooLarge,
    Millis(i64),
}

/// Reads `s` as a duration of `MM:SS.mmm` or `HH:MM:SS.mmm`.
pub fn read_duration(s: &str) -> (r: DurationRead)
    ensures
        r matches DurationRead::Millis(ms) ==> duration_text(s@) == DurationText::Millis(ms as int),
        r is NoDuration <==> duration_text(s@) is NoDuration,
        r is TooLarge <==> duration_text(s@) is TooLarge,
{
    let f = split_duration_fields(s);
    proof {
        assert(crate::prefs::views(f@).len() == f@.len());
    }
    if f.len() == 3 {
        assert(crate::prefs::views(f@)[0] == f@[0]@);
        assert(crate::prefs::views(f@)[1] == f@[1]@);
        assert(crate::prefs::views(f@)[2] == f@[2]@);
        let m = match parse_i64(f[0].as_str()) {
            Some(x) => x,
            None => return DurationRead::NoDuration,
        };
        let sec = match parse_i64(f[1].as_str()) {
            Some(x) => x,
            None => return DurationRead::NoDuration,
        };
        let ms = match parse_i64(f[2].as_str()) {
            Some(x) => x,
            None => return DurationRead::NoDuration,
        };
        let a: i128 = m as i128 * 60000;
        let b: i128 = a + sec as i128 * 1000;
        let c: i128 = b + ms as i128;
        if secs_fit_exec(m as i128 * 60) && secs_fit_exec(sec as i128) && millis_fit_exec(ms as i128)
            && millis_fit_exec(b) && millis_fit_exec(c) {
            return DurationRead::Millis(c as i64);
        }
        DurationRead::TooLarge
    } else if f.len() == 4 {
        assert(crate::prefs::views(f@)[0] == f@[0]@);
        assert(crate::prefs::views(f@)[1] == f@[1]@);
        assert(crate::prefs::views(f@)[2] == f@[2]@);
        assert(crate::prefs::views(f@)[3] == f@[3]@);
        let h = match parse_i64(f[0].as_str()) {
            Some(x) => x,
            None => return DurationRead::NoDuration,
        };
        let m = match parse_i64(f[1].as_str()) {
            Some(x) => x,
            None => return DurationRead::NoDuration,
        };
        let sec = match parse_i64(f[2].as_str()) {
            Some(x) => x,
            None => return DurationRead::NoDuration,
        };
        let ms = match parse_i64(f[3].as_str()) {
            Some(x) => x,
            None => return DurationRead::NoDuration,
        };
        let a: i128 = h as i128 * 3600000 + m as i128 * 60000;
        let b: i128 = a + sec as i128 * 1000;
        let c: i128 = b + ms as i128;
        if secs_fit_exec(h as i128 * 3600) && secs_fit_exec(m as i128 * 60) && secs_fit_exec(
            sec as i128,
        ) && millis_fit_exec(ms as i128) && millis_fit_exec(a) && millis_fit_exec(b)
            && millis_fit_exec(c) {
            return DurationRead::Millis(c as i64);
        }
        DurationRead::TooLarge
    } else {
        DurationRead::NoDuration
    }
}

/// Reads a column value as an integer, else as a duration, else as a date
/// and time.
pub fn parse_string(value: &str) -> (r: Result<ParsedValue, &'static str>)
    requires
        !parse_panics(value@),
    ensures
        r matches Ok(v) ==> parsed_value(value@) == Some(v),
        r is Err ==> parsed_value(value@) is None,
{
    if let Some(v) = parse_i64(value) {
        return Ok(ParsedValue::Integer(v));
    }
    match read_duration(value) {
        DurationRead::Millis(ms) => {
            return Ok(ParsedValue::Duration(ms));
        },
        DurationRead::TooLarge => {
            return Err("Invalid format");
        },
        DurationRead::NoDuration => {},
    }
    match parse_datetime(value, DATETIME_FORMAT) {
        Some((t, n)) => Ok(ParsedValue::DateTime(t, n)),
        None => Err("Invalid format"),
    }
}

/// The rank of a value's kind: integers before durations before dates.
pub open spec fn value_rank(v: ParsedValue) -> int {
    match v {
        ParsedValue::Integer(_) => 0,
        ParsedValue::Duration(_) => 1,
        ParsedValue::DateTime(_, _) => 2,
    }
}

/// The order of column values: by kind, then by value.
pub open spec fn value_lt(a: ParsedValue, b: ParsedValue) -> bool {
    if value_rank(a) != value_rank(b) {
        value_rank(a) < value_rank(b)
    } else {
        match (a, b) {
            (ParsedValue::Integer(x), ParsedValue::Integer(y)) => x < y,
            (ParsedValue::Duration(x), ParsedValue::Duration(y)) => x < y,
            (ParsedValue::DateTime(t1, n1), ParsedValue::DateTime(t2, n2)) => t1 < t2 || (t1 == t2
                && n1 < n2),
            _ => false,
        }
    }
}

fn value_lt_exec(a: ParsedValue, b: ParsedValue) -> (r: bool)
    ensures
        r == value_lt(a, b),
{
    match (a, b) {
        (ParsedValue::Integer(x), ParsedValue::Integer(y)) => x < y,
        (ParsedValue::Duration(x), ParsedValue::Duration(y)) => x < y,
        (ParsedValue::DateTime(t1, n1), ParsedValue::DateTime(t2, n2)) => t1 < t2 || (t1 == t2 && n1
            < n2),
        (ParsedValue::Integer(_), _) => true,
        (ParsedValue::Duration(_), ParsedValue::DateTime(_, _)) => true,
        _ => false,
    }
}

/// The text of a record's column, empty where the record has none.
pub open spec fn column_text(r: FileRecord, col: Seq<char>) -> Seq<char> {
    crate::records::or_else(data_get(r.data@, col), Seq::empty())
}

/// The value by which the `Largest` rule orders a record: its column read as
/// a number, a duration or a date, and the integer 0 where it is none.
pub open spec fn sort_key(r: FileRecord, col: Seq<char>) -> ParsedValue {
    match parsed_value(column_text(r, col)) {
        Some(v) => v,
        None => ParsedValue::Integer(0),
    }
}

/// Finds the entry of `key` in a record's column data.
pub fn find_data(d: &Vec<(String, String)>, key: &str) -> (r: Option<usize>)
    ensures
        r matches Some(i) ==> i < d@.len() && data_get(d@, key@) == Some(d@[i as int].1@),
        r is None ==> data_get(d@, key@) is None,
{
    let mut i: usize = 0;
    assert(d@.skip(0) =~= d@);
    while i < d.len()
        invariant
            0 <= i <= d.len(),
            data_get(d@, key@) == data_get(d@.skip(i as int), key@),
        decreases d.len() - i,
    {
        assert(d@.skip(i as int).drop_first() =~= d@.skip(i + 1));
        if str_eq(d[i].0.as_str(), key) {
            return Some(i);
        }
        i = i + 1;
    }
    None
}

/// The text of a record's column, empty where the record has none.
pub fn column_value(r: &FileRecord, col: &str) -> (s: String)
    ensures
        s@ == column_text(*r, col@),
{
    match find_data(&r.data, col) {
        Some(i) => r.data[i].1.clone(),
        None => String::new(),
    }
}

fn record_key(r: &FileRecord, col: &str) -> (k: ParsedValue)
    requires
        !parse_panics(column_text(*r, col@)),
    ensures
        k == sort_key(*r, col@),
{
    let v = column_value(r, col);
    match parse_string(v.as_str()) {
        Ok(p) => p,
        Err(_) => ParsedValue::Integer(0),
    }
}

/// `s` (ordered by decreasing key) with `x` put after every record whose
/// key is not below its own.
pub open spec fn insert_desc(x: FileRecord, s: Seq<FileRecord>, col: Seq<char>) -> Seq<FileRecord>
    decreases s.len(),
{
    if s.len() == 0 {
        seq![x]
    } else if value_lt(sort_key(s[0], col), sort_key(x, col)) {
        seq![x] + s
    } else {
        seq![s[0]] + insert_desc(x, s.drop_first(), col)
    }
}

/// The records ordered by decreasing key, records of equal keys in their
/// order: the stable sort that the `Largest` rule makes.
pub open spec fn sort_desc(s: Seq<FileRecord>, col: Seq<char>) -> Seq<FileRecord>
    decreases s.len(),
{
    if s.len() == 0 {
        s
    } else {
        insert_desc(s.last(), sort_desc(s.drop_last(), col), col)
    }
}

proof fn lemma_insert_desc_at(x: FileRecord, s: Seq<FileRecord>, col: Seq<char>, p: int)
    requires
        0 <= p <= s.len(),
        forall|j: int| 0 <= j < p ==> !value_lt(#[trigger] sort_key(s[j], col), sort_key(x, col)),
        p < s.len() ==> value_lt(sort_key(s[p], col), sort_key(x, col)),
    ensures
        insert_desc(x, s, col) == s.insert(p, x),
    decreases s.len(),
{
    if s.len() == 0 {
        assert(s.insert(p, x) =~= seq![x]);
    } else if p == 0 {
        assert(s.insert(0, x) =~= seq![x] + s);
    } else {
        assert(!value_lt(sort_key(s[0], col), sort_key(x, col)));
        let t = s.drop_first();
        assert forall|j: int| 0 <= j < p - 1 implies !value_lt(#[trigger] sort_key(t[j], col), sort_key(x, col)) by {
            assert(t[j] == s[j + 1]);
        }
        lemma_insert_desc_at(x, t, col, p - 1);
        assert(seq![s[0]] + t.insert(p - 1, x) =~= s.insert(p, x));
    }
}

proof fn lemma_insert_desc_contains(x: FileRecord, s: Seq<FileRecord>, col: Seq<char>, y: FileRecord)
    ensures
        insert_desc(x, s, col).contains(y) ==> y == x || s.contains(y),
    decreases s.len(),
{
    if s.len() > 0 && !value_lt(sort_key(s[0], col), sort_key(x, col)) {
        lemma_insert_desc_contains(x, s.drop_first(), col, y);
        if insert_desc(x, s, col).contains(y) {
            let k = choose|k: int| 0 <= k < insert_desc(x, s, col).len() && insert_desc(x, s, col)[k] == y;
            if k > 0 {
                assert(insert_desc(x, s.drop_first(), col)[k - 1] == y);
                if s.drop_first().contains(y) {
                    let m = choose|m: int| 0 <= m < s.drop_first().len() && s.drop_first()[m] == y;
                    assert(s[m + 1] == y);
                }
            } else {
                assert(s[0] == y);
            }
        }
    } else if s.len() > 0 {
        if insert_desc(x, s, col).contains(y) {
            let k = choose|k: int| 0 <= k < insert_desc(x, s, col).len() && insert_desc(x, s, col)[k] == y;
            if k > 0 {
                assert(s[k - 1] == y);
            }
        }
    }
}

/// Law: the `Largest` rule only reorders: every record it gives back was one
/// of those it was given.
pub proof fn lemma_sort_desc_contains(s: Seq<FileRecord>, col: Seq<char>, y: FileRecord)
    ensures
        sort_desc(s, col).contains(y) ==> s.contains(y),
        sort_desc(s, col).len() == s.len(),
    decreases s.len(),
{
    if s.len() > 0 {
        lemma_sort_desc_contains(s.drop_last(), col, y);
        lemma_insert_desc_contains(s.last(), sort_desc(s.drop_last(), col), col, y);
        lemma_insert_desc_len(s.last(), sort_desc(s.drop_last(), col), col);
        if sort_desc(s, col).contains(y) {
            if y != s.last() {
                let m = choose|m: int| 0 <= m < s.drop_last().len() && s.drop_last()[m] == y;
                assert(s[m] == y);
            } else {
                assert(s[s.len() - 1] == y);
            }
        }
    }
}

proof fn lemma_insert_desc_len(x: FileRecord, s: Seq<FileRecord>, col: Seq<char>)
    ensures
        insert_desc(x, s, col).len() == s.len() + 1,
    decreases s.len(),
{
    if s.len() > 0 {
        lemma_insert_desc_len(x, s.drop_first(), col);
    }
}

/// Orders the records by decreasing value of `col`, keeping the order of
/// records of equal value.
fn sort_largest(vec: &mut Vec<FileRecord>, col: &str)
    requires
        forall|i: int| 0 <= i < old(vec)@.len() ==> !parse_panics(column_text(#[trigger] old(vec)@[i], col@)),
    ensures
        final(vec)@ == sort_desc(old(vec)@, col@),
{
    let ghost orig = vec@;
    let mut out: Vec<FileRecord> = Vec::new();
    let mut keys: Vec<ParsedValue> = Vec::new();
    assert(orig.skip(0) =~= orig);
    assert(orig.take(0) =~= Seq::<FileRecord>::empty());
    while vec.len() > 0
        invariant
            out@.len() + vec@.len() == orig.len(),
            vec@ == orig.skip(out@.len() as int),
            out@ == sort_desc(orig.take(out@.len() as int), col@),
            keys@.len() == out@.len(),
            forall|j: int| 0 <= j < keys@.len() ==> keys@[j] == sort_key(#[trigger] out@[j], col@),
            forall|i: int| 0 <= i < orig.len() ==> !parse_panics(column_text(#[trigger] orig[i], col@)),
        decreases vec@.len(),
    {
        let ghost n = out@.len() as int;
        let x = vec.remove(0);
        assert(x == orig[n]);
        let k = record_key(&x, col);
        let mut p: usize = 0;
        while p < keys.len() && !value_lt_exec(keys[p], k)
            invariant
                0 <= p <= keys@.len(),
                keys@.len() == out@.len(),
                forall|j: int| 0 <= j < keys@.len() ==> keys@[j] == sort_key(#[trigger] out@[j], col@),
                k == sort_key(x, col@),
                forall|j: int| 0 <= j < p ==> !value_lt(#[trigger] sort_key(out@[j], col@), k),
            decreases keys@.len() - p,
        {
            p = p + 1;
        }
        let ghost keys_before = keys@;
        proof {
            lemma_insert_desc_at(x, out@, col@, p as int);
            assert(orig.take(n + 1).drop_last() =~= orig.take(n));
            assert(orig.take(n + 1).last() == x);
            assert(vec@ =~= orig.skip(n + 1));
        }
        out.insert(p, x);
        keys.insert(p, k);
        proof {
            assert forall|j: int| 0 <= j < keys@.len() implies keys@[j] == sort_key(#[trigger] out@[j], col@) by {
                if j < p {
                } else if j == p {
                } else {
                    assert(keys@[j] == keys_before[j - 1]);
                }
            }
        }
    }
    assert(orig.take(out@.len() as int) =~= orig);
    *vec = out;
}

/// The records for which `f` holds, then the others, each kept in order: a
/// stable sort by a yes-or-no key, the preferred first.
pub open spec fn partition_by(s: Seq<FileRecord>, f: spec_fn(FileRecord) -> bool) -> Seq<FileRecord> {
    s.filter(f) + s.filter(|r: FileRecord| !f(r))
}

/// Moves the records for which `flags` holds to the front, keeping the order
/// on both sides.
fn partition_records(vec: &mut Vec<FileRecord>, flags: &Vec<bool>, Ghost(f): Ghost<spec_fn(FileRecord) -> bool>)
    requires
        flags@.len() == old(vec)@.len(),
        forall|i: int| 0 <= i < flags@.len() ==> flags@[i] == f(#[trigger] old(vec)@[i]),
    ensures
        final(vec)@ == partition_by(old(vec)@, f),
{
    let ghost orig = vec@;
    let ghost nf = |r: FileRecord| !f(r);
    let mut yes: Vec<FileRecord> = Vec::new();
    let mut no: Vec<FileRecord> = Vec::new();
    let mut i: usize = 0;
    assert(orig.skip(0) =~= orig);
    assert(orig.take(0) =~= Seq::<FileRecord>::empty());
    while vec.len() > 0
        invariant
            i + vec@.len() == orig.len(),
            i <= flags@.len(),
            flags@.len() == orig.len(),
            forall|j: int| 0 <= j < flags@.len() ==> flags@[j] == f(#[trigger] orig[j]),
            nf == (|r: FileRecord| !f(r)),
            vec@ == orig.skip(i as int),
            yes@ == orig.take(i as int).filter(f),
            no@ == orig.take(i as int).filter(nf),
        decreases vec@.len(),
    {
        let r = vec.remove(0);
        proof {
            reveal_with_fuel(Seq::filter, 1);
            assert(orig.take(i + 1).drop_last() =~= orig.take(i as int));
            assert(orig.take(i + 1).last() == r);
            assert(vec@ =~= orig.skip(i + 1));
        }
        let fl = flags[i];
        assert(i < flags.len());
        if fl {
            yes.push(r);
        } else {
            no.push(r);
        }
        i = i + 1;
    }
    assert(orig.take(i as int) =~= orig);
    yes.append(&mut no);
    *vec = yes;
}

/// Whether a yes-or-no rule prefers a record: its column equals, does not
/// equal, is empty, is not empty, contains or does not contain the rule's
/// text.
pub open spec fn prefers(l: PreservationLogic, r: FileRecord) -> bool {
    let v = data_get(r.data@, l.column@);
    let same = v == Some(l.variable@);
    let empty = v matches Some(t) && t.len() == 0;
    let contains = v matches Some(t) && contains_sub(t, l.variable@);
    match l.operator {
        OrderOperator::Is => same,
        OrderOperator::IsNot => !same,
        OrderOperator::IsEmpty => empty,
        OrderOperator::IsNotEmpty => !empty,
        OrderOperator::Contains => contains,
        OrderOperator::DoesNotContain => !contains,
        _ => true,
    }
}

/// The records as one preservation rule orders them: `Largest` by decreasing
/// value, `Smallest` not at all, the others preferred records first; each a
/// stable sort.
pub open spec fn logic_sorted(l: PreservationLogic, s: Seq<FileRecord>) -> Seq<FileRecord> {
    match l.operator {
        OrderOperator::Smallest => s,
        OrderOperator::Largest => sort_desc(s, l.column@),
        _ => partition_by(s, |r: FileRecord| prefers(l, r)),
    }
}

/// Whether a rule can order the records without a panic: the `Largest` rule
/// panics on a duration too large for `chrono`.
pub open spec fn sortable(l: PreservationLogic, s: Seq<FileRecord>) -> bool {
    l.operator == OrderOperator::Largest ==> forall|i: int| 0 <= i < s.len() ==> !parse_panics(
        column_text(#[trigger] s[i], l.column@),
    )
}

fn prefers_exec(l: &PreservationLogic, r: &FileRecord) -> (b: bool)
    ensures
        b == prefers(*l, *r),
{
    let found = find_data(&r.data, l.column.as_str());
    match l.operator {
        OrderOperator::Is | OrderOperator::IsNot => {
            let same = match found {
                Some(i) => str_eq(r.data[i].1.as_str(), l.variable.as_str()),
                None => false,
            };
            if l.operator == OrderOperator::Is {
                same
            } else {
                !same
            }
        },
        OrderOperator::IsEmpty | OrderOperator::IsNotEmpty => {
            let empty = match found {
                Some(i) => str_chars(r.data[i].1.as_str()).len() == 0,
                None => false,
            };
            if l.operator == OrderOperator::IsEmpty {
                empty
            } else {
                !empty
            }
        },
        OrderOperator::Contains | OrderOperator::DoesNotContain => {
            let contains = match found {
                Some(i) => str_contains(r.data[i].1.as_str(), l.variable.as_str()),
                None => false,
            };
            if l.operator == OrderOperator::Contains {
                contains
            } else {
                !contains
            }
        },
        _ => true,
    }
}

impl PreservationLogic {
    /// Orders a group of records by this rule; records the rule does not
    /// tell apart keep their order.
    pub fn sort(&self, vec: &mut Vec<FileRecord>)
        requires
            sortable(*self, old(vec)@),
        ensures
            final(vec)@ == logic_sorted(*self, old(vec)@),
    {
        match self.operator {
            OrderOperator::Smallest => {},
            OrderOperator::Largest => {
                sort_largest(vec, self.column.as_str());
            },
            _ => {
                let mut flags: Vec<bool> = Vec::new();
                let mut i: usize = 0;
                while i < vec.len()
                    invariant
                        0 <= i <= vec@.len(),
                        flags@.len() == i,
                        forall|j: int| 0 <= j < i ==> flags@[j] == prefers(*self, #[trigger] vec@[j]),
                    decreases vec@.len() - i,
                {
                    flags.push(prefers_exec(self, &vec[i]));
                    i = i + 1;
                }
                partition_records(vec, &flags, Ghost(|r: FileRecord| prefers(*self, r)));
            },
        }
    }
}

proof fn lemma_partition_contains(s: Seq<FileRecord>, f: spec_fn(FileRecord) -> bool, y: FileRecord)
    ensures
        partition_by(s, f).contains(y) ==> s.contains(y),
{
    let nf = |r: FileRecord| !f(r);
    let t = partition_by(s, f);
    if t.contains(y) {
        let k = choose|k: int| 0 <= k < t.len() && t[k] == y;
        if k < s.filter(f).len() {
            assert(s.filter(f)[k] == y);
            assert(s.filter(f).contains(y));
            s.lemma_filter_contains_rev(f, y);
        } else {
            assert(s.filter(nf)[k - s.filter(f).len()] == y);
            assert(s.filter(nf).contains(y));
            s.lemma_filter_contains_rev(nf, y);
        }
    }
}

proof fn lemma_logic_sorted_contains(l: PreservationLogic, s: Seq<FileRecord>, y: FileRecord)
    ensures
        logic_sorted(l, s).contains(y) ==> s.contains(y),
{
    match l.operator {
        OrderOperator::Smallest => {},
        OrderOperator::Largest => {
            lemma_sort_desc_contains(s, l.column@, y);
        },
        _ => {
            lemma_partition_contains(s, |r: FileRecord| prefers(l, r), y);
        },
    }
}

pub(crate) proof fn lemma_sortable_transfer(l: PreservationLogic, s: Seq<FileRecord>, t: Seq<FileRecord>)
    requires
        sortable(l, s),
        forall|y: FileRecord| t.contains(y) ==> s.contains(y),
    ensures
        sortable(l, t),
{
    if l.operator == OrderOperator::Largest {
        assert forall|i: int| 0 <= i < t.len() implies !parse_panics(column_text(#[trigger] t[i], l.column@)) by {
            assert(t.contains(t[i]));
            let j = choose|j: int| 0 <= j < s.len() && s[j] == t[i];
            assert(!parse_panics(column_text(s[j], l.column@)));
        }
    }
}

/// The records as the preservation rules order them, the last rule applied
/// first so that the first rule decides last.
pub open spec fn apply_rules(rules: Seq<PreservationLogic>, s: Seq<FileRecord>) -> Seq<FileRecord>
    decreases rules.len(),
{
    if rules.len() == 0 {
        s
    } else {
        apply_rules(rules.drop_last(), logic_sorted(rules.last(), s))
    }
}

/// Whether every rule can order the records without a panic.
pub open spec fn rules_sortable(rules: Seq<PreservationLogic>, s: Seq<FileRecord>) -> bool {
    forall|k: int| 0 <= k < rules.len() ==> sortable(#[trigger] rules[k], s)
}

/// Whether a record's file is named as its root: by stem where the file type
/// is ignored, by file name otherwise.
pub open spec fn named_as_root(r: FileRecord, p: Preferences) -> bool {
    if p.ignore_filetype {
        filestem_of(r) == r.root@
    } else {
        filename_of(r) == r.root@
    }
}

/// How the records of a group of duplicates are ordered, the one to keep
/// first: by the preservation rules, then records without an AudioSuite tag
/// before those with one, then records named as their root first, then
/// records already marked to keep first; every step a stable sort.
pub open spec fn sorted_for_keeping(p: Preferences, s: Seq<FileRecord>) -> Seq<FileRecord> {
    let s1 = apply_rules(p.preservation_order@, s);
    let s2 = partition_by(s1, |r: FileRecord| !has_tag(filestem_of(r), views(p.tags@)));
    let s3 = partition_by(s2, |r: FileRecord| named_as_root(r, p));
    partition_by(s3, |r: FileRecord| r.algorithm@.contains(Algorithm::Keep))
}

impl Preferences {
    /// Orders a group of duplicates so that the record to keep comes first.
    pub fn sort_vec(&self, vec: &mut Vec<FileRecord>)
        requires
            old(vec)@.len() >= 2 ==> rules_sortable(self.preservation_order@, old(vec)@),
        ensures
            final(vec)@ == sorted_for_keeping(*self, old(vec)@),
    {
        if vec.len() < 2 {
            proof {
                lemma_short_sorted(*self, vec@);
            }
            return;
        }
        let ghost orig = vec@;
        let ghost rules = self.preservation_order@;
        let mut k: usize = self.preservation_order.len();
        assert(rules.take(k as int) =~= rules);
        while k > 0
            invariant
                0 <= k <= rules.len(),
                rules == self.preservation_order@,
                apply_rules(rules, orig) == apply_rules(rules.take(k as int), vec@),
                forall|y: FileRecord| vec@.contains(y) ==> orig.contains(y),
                rules_sortable(rules, orig),
            decreases k,
        {
            let ghost before = vec@;
            proof {
                lemma_sortable_transfer(rules[k - 1], orig, before);
            }
            self.preservation_order[k - 1].sort(vec);
            proof {
                assert(rules.take(k as int).drop_last() =~= rules.take(k - 1));
                assert(rules.take(k as int).last() == rules[k - 1]);
                assert forall|y: FileRecord| vec@.contains(y) implies orig.contains(y) by {
                    lemma_logic_sorted_contains(rules[k - 1], before, y);
                }
            }
            k = k - 1;
        }
        let ghost s1 = vec@;
        let mut f1: Vec<bool> = Vec::new();
        let mut i: usize = 0;
        while i < vec.len()
            invariant
                0 <= i <= vec@.len(),
                f1@.len() == i,
                forall|j: int| 0 <= j < i ==> f1@[j] == !has_tag(filestem_of(#[trigger] vec@[j]), views(self.tags@)),
            decreases vec@.len() - i,
        {
            let stem = vec[i].get_filestem();
            f1.push(!self.check_tags(stem.as_str()));
            i = i + 1;
        }
        partition_records(vec, &f1, Ghost(|r: FileRecord| !has_tag(filestem_of(r), views(self.tags@))));
        let mut f2: Vec<bool> = Vec::new();
        let mut i: usize = 0;
        while i < vec.len()
            invariant
                0 <= i <= vec@.len(),
                f2@.len() == i,
                forall|j: int| 0 <= j < i ==> f2@[j] == named_as_root(#[trigger] vec@[j], *self),
            decreases vec@.len() - i,
        {
            let name = if self.ignore_filetype {
                vec[i].get_filestem()
            } else {
                vec[i].get_filename()
            };
            f2.push(str_eq(name.as_str(), vec[i].root.as_str()));
            i = i + 1;
        }
        partition_records(vec, &f2, Ghost(|r: FileRecord| named_as_root(r, *self)));
        let mut f3: Vec<bool> = Vec::new();
        let mut i: usize = 0;
        while i < vec.len()
            invariant
                0 <= i <= vec@.len(),
                f3@.len() == i,
                forall|j: int| 0 <= j < i ==> f3@[j] == (#[trigger] vec@[j]).algorithm@.contains(Algorithm::Keep),
            decreases vec@.len() - i,
        {
            f3.push(vec[i].algorithm.contains(Algorithm::Keep));
            i = i + 1;
        }
        partition_records(vec, &f3, Ghost(|r: FileRecord| r.algorithm@.contains(Algorithm::Keep)));
    }
}

proof fn lemma_partition_short(s: Seq<FileRecord>, f: spec_fn(FileRecord) -> bool)
    requires
        s.len() <= 1,
    ensures
        partition_by(s, f) == s,
{
    reveal_with_fuel(Seq::filter, 2);
    if s.len() == 1 {
        assert(s.drop_last() =~= Seq::<FileRecord>::empty());
        if f(s[0]) {
            assert(s.filter(f) =~= s);
            assert(s.filter(|r: FileRecord| !f(r)) =~= Seq::<FileRecord>::empty());
        } else {
            assert(s.filter(f) =~= Seq::<FileRecord>::empty());
            assert(s.filter(|r: FileRecord| !f(r)) =~= s);
        }
    } else {
        assert(s.filter(f) =~= Seq::<FileRecord>::empty());
        assert(s.filter(|r: FileRecord| !f(r)) =~= Seq::<FileRecord>::empty());
    }
    assert(partition_by(s, f) =~= s);
}

proof fn lemma_apply_rules_short(rules: Seq<PreservationLogic>, s: Seq<FileRecord>)
    requires
        s.len() <= 1,
    ensures
        apply_rules(rules, s) == s,
    decreases rules.len(),
{
    if rules.len() > 0 {
        let l = rules.last();
        match l.operator {
            OrderOperator::Smallest => {},
            OrderOperator::Largest => {
                if s.len() == 1 {
                    assert(s.drop_last() =~= Seq::<FileRecord>::empty());
                    assert(sort_desc(s.drop_last(), l.column@) == s.drop_last());
                    assert(insert_desc(s.last(), Seq::<FileRecord>::empty(), l.column@) =~= s);
                }
            },
            _ => {
                lemma_partition_short(s, |r: FileRecord| prefers(l, r));
            },
        }
        assert(logic_sorted(l, s) == s);
        lemma_apply_rules_short(rules.drop_last(), s);
    }
}

/// A group of fewer than two records is as the keeping order leaves it.
proof fn lemma_short_sorted(p: Preferences, s: Seq<FileRecord>)
    requires
        s.len() <= 1,
    ensures
        sorted_for_keeping(p, s) == s,
{
    lemma_apply_rules_short(p.preservation_order@, s);
    lemma_partition_short(s, |r: FileRecord| !has_tag(filestem_of(r), views(p.tags@)));
    lemma_partition_short(s, |r: FileRecord| named_as_root(r, p));
    lemma_partition_short(s, |r: FileRecord| r.algorithm@.contains(Algorithm::Keep));
}

/// Whether every group of two or more among `gs`, the groups that get
/// sorted, can be ordered by the rules without a panic.
pub open spec fn groups_sortable(rules: Seq<PreservationLogic>, gs: Seq<Seq<FileRecord>>) -> bool {
    forall|j: int| 0 <= j < gs.len() && (#[trigger] gs[j]).len() >= 2 ==> rules_sortable(rules, gs[j])
}

proof fn lemma_partition_perm(s: Seq<FileRecord>, f: spec_fn(FileRecord) -> bool)
    ensures
        partition_by(s, f).to_multiset() =~= s.to_multiset(),
    decreases s.len(),
{
    broadcast use vstd::seq_lib::group_to_multiset_ensures, vstd::multiset::group_multiset_axioms;

    let nf = |r: FileRecord| !f(r);
    if s.len() == 0 {
        assert(s.filter(f) =~= Seq::<FileRecord>::empty());
        assert(s.filter(nf) =~= Seq::<FileRecord>::empty());
        assert(partition_by(s, f) =~= Seq::<FileRecord>::empty());
    } else {
        let t = s.drop_last();
        let x = s.last();
        lemma_partition_perm(t, f);
        reveal_with_fuel(Seq::filter, 1);
        assert(s =~= t.push(x));
        vstd::seq_lib::lemma_multiset_commutative(s.filter(f), s.filter(nf));
        vstd::seq_lib::lemma_multiset_commutative(t.filter(f), t.filter(nf));
        if f(x) {
            assert(s.filter(f) == t.filter(f).push(x));
            assert(s.filter(nf) == t.filter(nf));
        } else {
            assert(s.filter(f) == t.filter(f));
            assert(s.filter(nf) == t.filter(nf).push(x));
        }
    }
}

proof fn lemma_insert_desc_perm(x: FileRecord, s: Seq<FileRecord>, col: Seq<char>)
    ensures
        insert_desc(x, s, col).to_multiset() =~= s.to_multiset().insert(x),
    decreases s.len(),
{
    broadcast use vstd::seq_lib::group_to_multiset_ensures, vstd::multiset::group_multiset_axioms;

    if s.len() == 0 {
        assert(seq![x] =~= Seq::<FileRecord>::empty().push(x));
    } else if value_lt(sort_key(s[0], col), sort_key(x, col)) {
        vstd::seq_lib::lemma_multiset_commutative(seq![x], s);
        assert(seq![x] =~= Seq::<FileRecord>::empty().push(x));
    } else {
        lemma_insert_desc_perm(x, s.drop_first(), col);
        vstd::seq_lib::lemma_multiset_commutative(seq![s[0]], insert_desc(x, s.drop_first(), col));
        vstd::seq_lib::lemma_multiset_commutative(seq![s[0]], s.drop_first());
        assert(seq![s[0]] + s.drop_first() =~= s);
        assert(seq![s[0]] =~= Seq::<FileRecord>::empty().push(s[0]));
    }
}

/// Whether value `a` is not below value `b`, read directly: integers,
/// durations (in milliseconds) and dates (seconds, then nanoseconds) by
/// their numbers. Values of different kinds are not weighed against each
/// other here.
pub open spec fn not_below(a: ParsedValue, b: ParsedValue) -> bool {
    match (a, b) {
        (ParsedValue::Integer(x), ParsedValue::Integer(y)) => x >= y,
        (ParsedValue::Duration(x), ParsedValue::Duration(y)) => x >= y,
        (ParsedValue::DateTime(t1, n1), ParsedValue::DateTime(t2, n2)) => t1 > t2 || (t1 == t2 && n1
            >= n2),
        _ => true,
    }
}

/// Whether records are ordered by non-increasing key in a column.
pub open spec fn desc_ordered(s: Seq<FileRecord>, col: Seq<char>) -> bool {
    forall|i: int, j: int|
        0 <= i < j < s.len() ==> !value_lt(#[trigger] sort_key(s[i], col), #[trigger] sort_key(s[j], col))
}

proof fn lemma_value_order(a: ParsedValue, b: ParsedValue, c: ParsedValue)
    ensures
        value_lt(a, b) ==> !value_lt(b, a),
        value_lt(a, b) && !value_lt(a, c) ==> !value_lt(b, c),
        !value_lt(a, b) ==> not_below(a, b),
{
}

proof fn lemma_insert_desc_ordered(x: FileRecord, s: Seq<FileRecord>, col: Seq<char>)
    requires
        desc_ordered(s, col),
    ensures
        desc_ordered(insert_desc(x, s, col), col),
    decreases s.len(),
{
    let r = insert_desc(x, s, col);
    lemma_insert_desc_len(x, s, col);
    if s.len() == 0 {
    } else if value_lt(sort_key(s[0], col), sort_key(x, col)) {
        assert(r == seq![x] + s);
        assert forall|i: int, j: int| 0 <= i < j < r.len() implies !value_lt(
            #[trigger] sort_key(r[i], col),
            #[trigger] sort_key(r[j], col),
        ) by {
            if i == 0 {
                lemma_value_order(sort_key(s[0], col), sort_key(x, col), sort_key(s[j - 1], col));
                if j > 1 {
                    assert(!value_lt(sort_key(s[0], col), sort_key(s[j - 1], col)));
                }
                assert(r[j] == s[j - 1]);
            } else {
                assert(r[i] == s[i - 1] && r[j] == s[j - 1]);
            }
        }
    } else {
        let t = s.drop_first();
        assert(desc_ordered(t, col)) by {
            assert forall|i: int, j: int| 0 <= i < j < t.len() implies !value_lt(
                #[trigger] sort_key(t[i], col),
                #[trigger] sort_key(t[j], col),
            ) by {
                assert(t[i] == s[i + 1] && t[j] == s[j + 1]);
            }
        }
        lemma_insert_desc_ordered(x, t, col);
        let u = insert_desc(x, t, col);
        assert(r == seq![s[0]] + u);
        assert forall|i: int, j: int| 0 <= i < j < r.len() implies !value_lt(
            #[trigger] sort_key(r[i], col),
            #[trigger] sort_key(r[j], col),
        ) by {
            if i == 0 {
                let y = u[j - 1];
                assert(r[j] == y);
                assert(u.contains(y));
                lemma_insert_desc_contains(x, t, col, y);
                if y != x {
                    let m = choose|m: int| 0 <= m < t.len() && t[m] == y;
                    assert(s[m + 1] == y);
                }
            } else {
                assert(r[i] == u[i - 1] && r[j] == u[j - 1]);
            }
        }
    }
}

proof fn lemma_sort_desc_ordered(s: Seq<FileRecord>, col: Seq<char>)
    ensures
        desc_ordered(sort_desc(s, col), col),
    decreases s.len(),
{
    if s.len() > 0 {
        lemma_sort_desc_ordered(s.drop_last(), col);
        lemma_insert_desc_ordered(s.last(), sort_desc(s.drop_last(), col), col);
    }
}

/// Law: the `Largest` rule puts the largest values first. It gives back the
/// same records, ordered so that no record's value in the rule's column is
/// below that of a record after it: the longer duration, the larger number,
/// the later date first, so the copy to keep is the one with the largest
/// value.
pub proof fn lemma_largest_first(l: PreservationLogic, s: Seq<FileRecord>)
    requires
        l.operator == OrderOperator::Largest,
    ensures
        logic_sorted(l, s).to_multiset() =~= s.to_multiset(),
        forall|i: int, j: int|
            0 <= i < j < logic_sorted(l, s).len() ==> not_below(
                #[trigger] sort_key(logic_sorted(l, s)[i], l.column@),
                #[trigger] sort_key(logic_sorted(l, s)[j], l.column@),
            ),
{
    lemma_logic_sorted_perm(l, s);
    let r = logic_sorted(l, s);
    lemma_sort_desc_ordered(s, l.column@);
    assert forall|i: int, j: int| 0 <= i < j < r.len() implies not_below(
        #[trigger] sort_key(r[i], l.column@),
        #[trigger] sort_key(r[j], l.column@),
    ) by {
        lemma_value_order(sort_key(r[i], l.column@), sort_key(r[j], l.column@), sort_key(r[j], l.column@));
    }
}

proof fn lemma_partition_front(s: Seq<FileRecord>, f: spec_fn(FileRecord) -> bool)
    ensures
        forall|i: int, j: int|
            0 <= i < j < partition_by(s, f).len() && f(#[trigger] partition_by(s, f)[j]) ==> f(
                #[trigger] partition_by(s, f)[i],
            ),
{
    let a = s.filter(f);
    let nf = |r: FileRecord| !f(r);
    let b = s.filter(nf);
    let r = partition_by(s, f);
    assert forall|i: int, j: int| 0 <= i < j < r.len() && f(#[trigger] r[j]) implies f(#[trigger] r[i]) by {
        if i < a.len() {
            s.lemma_filter_pred(f, i);
            assert(r[i] == a[i]);
        } else {
            s.lemma_filter_pred(nf, j - a.len());
            s.lemma_filter_pred(nf, i - a.len());
            assert(r[j] == b[j - a.len()]);
        }
    }
}

/// Law: a yes-or-no rule (`Is`, `IsNot`, `IsEmpty`, `IsNotEmpty`,
/// `Contains`, `DoesNotContain`) puts the records it prefers first: it gives
/// back the same records, and no record it prefers comes after one it does
/// not.
pub proof fn lemma_preferred_first(l: PreservationLogic, s: Seq<FileRecord>)
    requires
        l.operator != OrderOperator::Largest,
        l.operator != OrderOperator::Smallest,
    ensures
        logic_sorted(l, s).to_multiset() =~= s.to_multiset(),
        forall|i: int, j: int|
            0 <= i < j < logic_sorted(l, s).len() && prefers(l, #[trigger] logic_sorted(l, s)[j]) ==> prefers(
                l,
                #[trigger] logic_sorted(l, s)[i],
            ),
{
    lemma_logic_sorted_perm(l, s);
    lemma_partition_front(s, |r: FileRecord| prefers(l, r));
}

proof fn lemma_sort_desc_perm(s: Seq<FileRecord>, col: Seq<char>)
    ensures
        sort_desc(s, col).to_multiset() =~= s.to_multiset(),
    decreases s.len(),
{
    broadcast use vstd::seq_lib::group_to_multiset_ensures, vstd::multiset::group_multiset_axioms;

    if s.len() > 0 {
        lemma_sort_desc_perm(s.drop_last(), col);
        lemma_insert_desc_perm(s.last(), sort_desc(s.drop_last(), col), col);
        assert(s =~= s.drop_last().push(s.last()));
    }
}

/// Law: a preservation rule only reorders a group: it holds the same
/// records, each as often as before.
pub proof fn lemma_logic_sorted_perm(l: PreservationLogic, s: Seq<FileRecord>)
    ensures
        logic_sorted(l, s).to_multiset() =~= s.to_multiset(),
{
    match l.operator {
        OrderOperator::Smallest => {},
        OrderOperator::Largest => {
            lemma_sort_desc_perm(s, l.column@);
        },
        _ => {
            lemma_partition_perm(s, |r: FileRecord| prefers(l, r));
        },
    }
}

proof fn lemma_apply_rules_perm(rules: Seq<PreservationLogic>, s: Seq<FileRecord>)
    ensures
        apply_rules(rules, s).to_multiset() =~= s.to_multiset(),
    decreases rules.len(),
{
    if rules.len() > 0 {
        lemma_logic_sorted_perm(rules.last(), s);
        lemma_apply_rules_perm(rules.drop_last(), logic_sorted(rules.last(), s));
    }
}

/// Law: ordering a group of duplicates for keeping only reorders it: it
/// holds the same records, each as often as before.
pub proof fn lemma_sorted_for_keeping_perm(p: Preferences, s: Seq<FileRecord>)
    ensures
        sorted_for_keeping(p, s).to_multiset() =~= s.to_multiset(),
{
    let s1 = apply_rules(p.preservation_order@, s);
    let s2 = partition_by(s1, |r: FileRecord| !has_tag(filestem_of(r), views(p.tags@)));
    let s3 = partition_by(s2, |r: FileRecord| named_as_root(r, p));
    lemma_apply_rules_perm(p.preservation_order@, s);
    lemma_partition_perm(s1, |r: FileRecord| !has_tag(filestem_of(r), views(p.tags@)));
    lemma_partition_perm(s2, |r: FileRecord| named_as_root(r, p));
    lemma_partition_perm(s3, |r: FileRecord| r.algorithm@.contains(Algorithm::Keep));
}

/// Whether reading `value` as an integer, duration or date panics.
pub fn value_panics(value: &str) -> (b: bool)
    ensures
        b == parse_panics(value@),
{
    parse_i64(value).is_none() && read_duration(value) == DurationRead::TooLarge
}

/// Whether every preservation rule can order the records without a panic.
pub fn rules_can_sort(rules: &Vec<PreservationLogic>, records: &Vec<FileRecord>) -> (b: bool)
    ensures
        b == rules_sortable(rules@, records@),
{
    let mut k: usize = 0;
    while k < rules.len()
        invariant
            0 <= k <= rules.len(),
            forall|j: int| 0 <= j < k ==> sortable(#[trigger] rules@[j], records@),
        decreases rules.len() - k,
    {
        if rules[k].operator == OrderOperator::Largest {
            let mut i: usize = 0;
            while i < records.len()
                invariant
                    0 <= i <= records.len(),
                    k < rules.len(),
                    rules@[k as int].operator == OrderOperator::Largest,
                    forall|j: int| 0 <= j < i ==> !parse_panics(column_text(#[trigger] records@[j], rules@[k as int].column@)),
                decreases records.len() - i,
            {
                let v = column_value(&records[i], rules[k].column.as_str());
                if value_panics(v.as_str()) {
                    assert(parse_panics(column_text(records@[i as int], rules@[k as int].column@)));
                    assert(!sortable(rules@[k as int], records@));
                    return false;
                }
                i = i + 1;
            }
        }
        k = k + 1;
    }
    true
}

} // verus!
