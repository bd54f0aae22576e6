//! Reading a star catalogue from delimited text.
//!
//! A catalogue file is comma-separated text with a header line. Which column
//! holds the identifier, the longitude, the latitude and the magnitude is
//! for the caller to say: catalogues differ, and a guess would swap the
//! axes without a sound. A row that cannot be used is skipped and noted, and
//! loading goes on with the next.
//!
//! The coordinates and the magnitude stay text here. The module checks that
//! they are written as decimal numbers and leaves their conversion to the
//! caller.

use vstd::prelude::*;
use vstd::string::*;

verus! {

/// Which column of a catalogue file holds what, counted from 0.
#[derive(Clone, Copy, Debug)]
pub struct ColumnLayout {
    pub id_col: usize,
    pub lon_col: usize,
    pub lat_col: usize,
    pub mag_col: usize,
}

/// Why a row of a catalogue file was skipped.
#[derive(Clone, Copy, Debug, PartialEq, Eq)]
pub enum RowFault {
    /// The row is no valid delimited text, or not as long as the header.
    Unreadable,
    /// The row is too short for one of the four columns.
    MissingField,
    /// The identifier is no unsigned whole number of 32 bits.
    BadId,
    /// The latitude, the longitude or the magnitude is no decimal number.
    BadNumber,
}

/// A note that a row was skipped. Rows count from 0, the header left out.
#[derive(Clone, Copy, Debug, PartialEq, Eq)]
pub struct Diagnostic {
    pub row: usize,
    pub fault: RowFault,
}

/// One star as the file has it: the identifier as a number, the rest as the
/// text of a decimal number.
#[derive(Debug)]
pub struct CatalogRow {
    pub hr: u32,
    pub lat: String,
    pub lon: String,
    pub mag: String,
}

/// What a [`CatalogRow`] holds.
pub struct RowText {
    pub hr: u32,
    pub lat: Seq<char>,
    pub lon: Seq<char>,
    pub mag: Seq<char>,
}

impl View for CatalogRow {
    type V = RowText;

    open spec fn view(&self) -> RowText {
        RowText { hr: self.hr, lat: self.lat@, lon: self.lon@, mag: self.mag@ }
    }
}

/// A catalogue as loaded: the rows that could be used, in file order, and a
/// note for each row that could not.
#[derive(Debug)]
pub struct Loaded {
    pub rows: Vec<CatalogRow>,
    pub skipped: Vec<Diagnostic>,
}

/// `c` is one of the digits 0 to 9.
pub open spec fn is_digit(c: char) -> bool {
    '0' <= c <= '9'
}

/// The value of the digit `c`.
pub open spec fn digit_value(c: char) -> nat {
    if is_digit(c) {
        (c as u32 - '0' as u32) as nat
    } else {
        0
    }
}

/// `s` holds digits and nothing else.
pub open spec fn all_digits(s: Seq<char>) -> bool {
    forall|i: int| 0 <= i < s.len() ==> is_digit(#[trigger] s[i])
}

/// The number that a string of digits writes.
pub open spec fn digits_value(s: Seq<char>) -> nat
    decreases s.len(),
{
    if s.len() == 0 {
        0
    } else {
        digits_value(s.drop_last()) * 10 + digit_value(s.last())
    }
}

/// `s` without the plus sign in front of it, if it has one.
pub open spec fn unsigned_part(s: Seq<char>) -> Seq<char> {
    if s.len() > 0 && s[0] == '+' {
        s.skip(1)
    } else {
        s
    }
}

/// The identifier that `s` writes: one or more digits, with or without a
/// plus sign in front, and a value that fits 32 bits.
pub open spec fn id_of(s: Seq<char>) -> Option<u32> {
    let body = unsigned_part(s);
    if body.len() > 0 && all_digits(body) && digits_value(body) <= u32::MAX {
        Some(digits_value(body) as u32)
    } else {
        None
    }
}

/// The characters of `s` from place `from` up to place `to` are digits.
pub open spec fn digits_between(s: Seq<char>, from: int, to: int) -> bool {
    0 <= from <= to <= s.len() && forall|i: int| from <= i < to ==> is_digit(#[trigger] s[i])
}

/// From place `from` up to place `to` stands a sign or nothing.
pub open spec fn sign_between(s: Seq<char>, from: int, to: int) -> bool {
    to == from || (to == from + 1 && 0 <= from < s.len() && (s[from] == '+' || s[from] == '-'))
}

/// The places `whole`, `point`, `end` and `exponent` cut `s` into the
/// parts of a decimal number: a sign or none up to `whole`; digits up to
/// `point`; a point and digits up to `end`, or nothing; and then either
/// nothing, or the letter e in either case, a sign or none up to `exponent`
/// and one or more digits to the end. There is at least one digit before the
/// letter.
pub open spec fn is_decimal_cut(
    s: Seq<char>,
    whole: int,
    point: int,
    end: int,
    exponent: int,
) -> bool {
    &&& sign_between(s, 0, whole)
    &&& digits_between(s, whole, point)
    &&& end == point || (point < s.len() && s[point] == '.' && digits_between(s, point + 1, end))
    &&& point - whole > 0 || end - point > 1
    &&& if end == s.len() {
        exponent == end
    } else {
        &&& 0 <= end < s.len()
        &&& s[end] == 'e' || s[end] == 'E'
        &&& sign_between(s, end + 1, exponent)
        &&& exponent < s.len()
        &&& digits_between(s, exponent, s.len() as int)
    }
}

/// `s` writes a decimal number, such as `12`, `-7.25`, `.5`, `3.` or
/// `+6.02e23`: it can be cut into the parts of one.
pub open spec fn is_decimal(s: Seq<char>) -> bool {
    exists|whole: int, point: int, end: int, exponent: int|
        is_decimal_cut(s, whole, point, end, exponent)
}

/// Where the run of digits that starts at `from` ends.
spec fn digits_end(s: Seq<char>, from: int) -> int
    decreases s.len() - from,
{
    if 0 <= from < s.len() && is_digit(s[from]) {
        digits_end(s, from + 1)
    } else {
        from
    }
}

/// The place behind a sign at `from`, or `from` where there is none.
spec fn sign_end(s: Seq<char>, from: int) -> int {
    if 0 <= from < s.len() && (s[from] == '+' || s[from] == '-') {
        from + 1
    } else {
        from
    }
}

/// What reading `s` from left to right finds: whether it is a decimal
/// number.
spec fn reads_as_decimal(s: Seq<char>) -> bool {
    let whole = sign_end(s, 0);
    let point = digits_end(s, whole);
    let end = if point < s.len() && s[point] == '.' {
        digits_end(s, point + 1)
    } else {
        point
    };
    let exponent = sign_end(s, end + 1);
    &&& point - whole > 0 || end - point > 1
    &&& if end < s.len() && (s[end] == 'e' || s[end] == 'E') {
        digits_end(s, exponent) > exponent && digits_end(s, exponent) == s.len()
    } else {
        end == s.len()
    }
}

/// A run of digits is digits, and ends at the end or before what is no
/// digit.
proof fn lemma_digits_end(s: Seq<char>, from: int)
    requires
        0 <= from <= s.len(),
    ensures
        digits_between(s, from, digits_end(s, from)),
        digits_end(s, from) == s.len() || !is_digit(s[digits_end(s, from)]),
    decreases s.len() - from,
{
    if from < s.len() && is_digit(s[from]) {
        lemma_digits_end(s, from + 1);
    }
}

/// Digits that end at the end or before what is no digit are a whole run.
proof fn lemma_digits_run(s: Seq<char>, from: int, to: int)
    requires
        digits_between(s, from, to),
        to == s.len() || !is_digit(s[to]),
    ensures
        digits_end(s, from) == to,
    decreases to - from,
{
    if from < to {
        lemma_digits_run(s, from + 1, to);
    }
}

/// Reading from left to right finds every decimal number and nothing else.
proof fn lemma_reading_decides(s: Seq<char>)
    ensures
        reads_as_decimal(s) == is_decimal(s),
{
    let whole = sign_end(s, 0);
    let point = digits_end(s, whole);
    lemma_digits_end(s, whole);
    let end = if point < s.len() && s[point] == '.' {
        digits_end(s, point + 1)
    } else {
        point
    };
    if point < s.len() && s[point] == '.' {
        lemma_digits_end(s, point + 1);
    }
    let exponent = sign_end(s, end + 1);
    if exponent <= s.len() {
        lemma_digits_end(s, exponent);
    }
    if reads_as_decimal(s) {
        if end == s.len() {
            assert(is_decimal_cut(s, whole, point, end, end));
        } else {
            assert(is_decimal_cut(s, whole, point, end, exponent));
        }
    }
    if is_decimal(s) {
        let (w, p, e, x) = choose|w: int, p: int, e: int, x: int| is_decimal_cut(s, w, p, e, x);
        assert(w == whole) by {
            if w == 0 && 0 < s.len() {
                if p > w {
                    assert(is_digit(s[w]));
                }
            }
        }
        lemma_digits_run(s, w, p);
        if e != p {
            lemma_digits_run(s, p + 1, e);
        }
        assert(e == end);
        if e != s.len() {
            assert(x == exponent) by {
                if x == e + 1 {
                    assert(is_digit(s[x]));
                }
            }
            lemma_digits_run(s, x, s.len() as int);
        }
    }
}

/// What is made of one record of the file: the row, or the reason to skip
/// it. `None` stands for a record that could not be read.
pub open spec fn judge(record: Option<Seq<Seq<char>>>, layout: ColumnLayout) -> Result<
    RowText,
    RowFault,
> {
    match record {
        None => Err(RowFault::Unreadable),
        Some(fields) => {
            if layout.id_col >= fields.len() || layout.lat_col >= fields.len() || layout.lon_col
                >= fields.len() || layout.mag_col >= fields.len() {
                Err(RowFault::MissingField)
            } else if id_of(fields[layout.id_col as int]) is None {
                Err(RowFault::BadId)
            } else if !is_decimal(fields[layout.lat_col as int]) || !is_decimal(
                fields[layout.lon_col as int],
            ) || !is_decimal(fields[layout.mag_col as int]) {
                Err(RowFault::BadNumber)
            } else {
                Ok(
                    RowText {
                        hr: id_of(fields[layout.id_col as int])->0,
                        lat: fields[layout.lat_col as int],
                        lon: fields[layout.lon_col as int],
                        mag: fields[layout.mag_col as int],
                    },
                )
            }
        },
    }
}

/// The rows of `records` that can be used, in their order.
pub open spec fn accepted(records: Seq<Option<Seq<Seq<char>>>>, layout: ColumnLayout) -> Seq<
    RowText,
>
    decreases records.len(),
{
    if records.len() == 0 {
        Seq::empty()
    } else {
        match judge(records.last(), layout) {
            Ok(row) => accepted(records.drop_last(), layout).push(row),
            Err(_) => accepted(records.drop_last(), layout),
        }
    }
}

/// A note for each of `records` that cannot be used, in their order.
pub open spec fn rejected(records: Seq<Option<Seq<Seq<char>>>>, layout: ColumnLayout) -> Seq<
    Diagnostic,
>
    decreases records.len(),
{
    if records.len() == 0 {
        Seq::empty()
    } else {
        match judge(records.last(), layout) {
            Ok(_) => rejected(records.drop_last(), layout),
            Err(fault) => rejected(records.drop_last(), layout).push(
                Diagnostic { row: (records.len() - 1) as usize, fault },
            ),
        }
    }
}

/// The text of the fields of a record.
pub open spec fn fields_text(fields: Vec<String>) -> Seq<Seq<char>> {
    fields@.map_values(|field: String| field@)
}

/// The text of a record, or `None` for one that could not be read.
pub open spec fn record_text(record: Option<Vec<String>>) -> Option<Seq<Seq<char>>> {
    match record {
        Some(fields) => Some(fields_text(fields)),
        None => None,
    }
}

/// The text of the records of a file.
pub open spec fn records_text(records: Seq<Option<Vec<String>>>) -> Seq<Option<Seq<Seq<char>>>> {
    records.map_values(|record: Option<Vec<String>>| record_text(record))
}

/// Reads an identifier: digits, with or without a plus sign in front.
pub fn parse_id(text: &str) -> (id: Option<u32>)
    ensures
        id == id_of(text@),
{
    let n = text.unicode_len();
    let mut i: usize = 0;
    if n > 0 && text.get_char(0) == '+' {
        i = 1;
    }
    let ghost start = i as int;
    let ghost body = unsigned_part(text@);
    assert(body =~= text@.skip(start));
    if i == n {
        return None;
    }
    let mut value: u64 = 0;
    while i < n
        invariant
            n == text@.len(),
            0 <= start <= i <= n,
            body == text@.skip(start),
            body == unsigned_part(text@),
            all_digits(body.take(i - start)),
            value == digits_value(body.take(i - start)),
            value <= u32::MAX,
        decreases n - i,
    {
        let c = text.get_char(i);
        assert(body[i - start] == c);
        if c < '0' || c > '9' {
            assert(!is_digit(body[i - start]));
            return None;
        }
        let digit: u64 = (c as u32 - '0' as u32) as u64;
        proof {
            let longer = body.take(i + 1 - start);
            assert(longer.drop_last() =~= body.take(i - start));
            assert(longer.last() == c);
            assert forall|k: int| 0 <= k < longer.len() implies is_digit(#[trigger] longer[k]) by {
                if k < i - start {
                    assert(body.take(i - start)[k] == longer[k]);
                }
            }
        }
        value = value * 10 + digit;
        if value > u32::MAX as u64 {
            proof {
                lemma_digits_grow(body, i + 1 - start);
            }
            return None;
        }
        i += 1;
    }
    assert(body.take(i - start) =~= body);
    Some(value as u32)
}

/// A longer string of digits writes no smaller number.
proof fn lemma_digits_grow(s: Seq<char>, upto: int)
    requires
        0 <= upto <= s.len(),
    ensures
        digits_value(s.take(upto)) <= digits_value(s),
    decreases s.len() - upto,
{
    if upto < s.len() {
        lemma_digits_grow(s, upto + 1);
        assert(s.take(upto + 1).drop_last() =~= s.take(upto));
    } else {
        assert(s.take(upto) =~= s);
    }
}

/// Whether the character at place `at` is a digit.
fn digit_at(text: &str, at: usize) -> (answer: bool)
    requires
        at < text@.len(),
    ensures
        answer == is_digit(text@[at as int]),
{
    let c = text.get_char(at);
    '0' <= c && c <= '9'
}

/// Finds the end of the run of digits that starts at `from`.
fn scan_digits(text: &str, n: usize, from: usize) -> (end: usize)
    requires
        n == text@.len(),
        from <= n,
    ensures
        end == digits_end(text@, from as int),
        from <= end <= n,
{
    let mut end: usize = from;
    while end < n && digit_at(text, end)
        invariant
            n == text@.len(),
            from <= end <= n,
            digits_end(text@, from as int) == digits_end(text@, end as int),
        decreases n - end,
    {
        end += 1;
    }
    end
}

/// Steps over a sign at `from` where there is one.
fn scan_sign(text: &str, n: usize, from: usize) -> (end: usize)
    requires
        n == text@.len(),
        from <= n,
    ensures
        end == sign_end(text@, from as int),
        from <= end <= n,
{
    if from < n {
        let c = text.get_char(from);
        if c == '+' || c == '-' {
            return from + 1;
        }
    }
    from
}

/// Whether `text` writes a decimal number, such as `12`, `-7.25`, `.5`,
/// `3.` or `+6.02e23`.
pub fn is_decimal_number(text: &str) -> (answer: bool)
    ensures
        answer == is_decimal(text@),
{
    proof {
        lemma_reading_decides(text@);
    }
    let n = text.unicode_len();
    let whole = scan_sign(text, n, 0);
    let point = scan_digits(text, n, whole);
    let end = if point < n && text.get_char(point) == '.' {
        scan_digits(text, n, point + 1)
    } else {
        point
    };
    let digits = if end > point {
        end - whole - 1
    } else {
        end - whole
    };
    if digits == 0 {
        return false;
    }
    if end < n {
        let c = text.get_char(end);
        if c == 'e' || c == 'E' {
            let first = scan_sign(text, n, end + 1);
            let last = scan_digits(text, n, first);
            return last > first && last == n;
        }
    }
    end == n
}

/// What a row or a fault holds.
pub open spec fn outcome_text(outcome: Result<CatalogRow, RowFault>) -> Result<RowText, RowFault> {
    match outcome {
        Ok(row) => Ok(row@),
        Err(fault) => Err(fault),
    }
}

/// Makes a row of the fields of one record, or says why the record cannot
/// be used.
pub fn read_row(fields: &Vec<String>, layout: &ColumnLayout) -> (row: Result<CatalogRow, RowFault>)
    ensures
        outcome_text(row) == judge(Some(fields_text(*fields)), *layout),
{
    let n = fields.len();
    if layout.id_col >= n || layout.lat_col >= n || layout.lon_col >= n || layout.mag_col >= n {
        return Err(RowFault::MissingField);
    }
    let hr = match parse_id(fields[layout.id_col].as_str()) {
        Some(hr) => hr,
        None => {
            return Err(RowFault::BadId);
        },
    };
    let lat = &fields[layout.lat_col];
    let lon = &fields[layout.lon_col];
    let mag = &fields[layout.mag_col];
    if !is_decimal_number(lat.as_str()) || !is_decimal_number(lon.as_str()) || !is_decimal_number(
        mag.as_str(),
    ) {
        return Err(RowFault::BadNumber);
    }
    Ok(CatalogRow { hr, lat: lat.clone(), lon: lon.clone(), mag: mag.clone() })
}

/// Goes through the records of a file and sorts them into rows and notes.
/// `None` stands for a record that could not be read.
pub fn rows_from_records(records: &Vec<Option<Vec<String>>>, layout: &ColumnLayout) -> (loaded:
    Loaded)
    ensures
        loaded.rows@.map_values(|row: CatalogRow| row@) == accepted(
            records_text(records@),
            *layout,
        ),
        loaded.skipped@ == rejected(records_text(records@), *layout),
{
    let mut rows: Vec<CatalogRow> = Vec::new();
    let mut skipped: Vec<Diagnostic> = Vec::new();
    let ghost texts = records_text(records@);
    let mut i: usize = 0;
    assert(rows@.map_values(|row: CatalogRow| row@) =~= Seq::<RowText>::empty());
    while i < records.len()
        invariant
            i <= records.len(),
            texts == records_text(records@),
            rows@.map_values(|row: CatalogRow| row@) == accepted(texts.take(i as int), *layout),
            skipped@ == rejected(texts.take(i as int), *layout),
        decreases records.len() - i,
    {
        proof {
            assert(texts.take(i + 1).drop_last() =~= texts.take(i as int));
            assert(texts.take(i + 1).last() == record_text(records[i as int]));
        }
        let outcome = match &records[i] {
            Some(fields) => read_row(fields, layout),
            None => Err(RowFault::Unreadable),
        };
        match outcome {
            Ok(row) => {
                proof {
                    assert(rows@.push(row).map_values(|row: CatalogRow| row@) =~= rows@.map_values(
                        |row: CatalogRow| row@,
                    ).push(row@));
                }
                rows.push(row);
            },
            Err(fault) => {
                skipped.push(Diagnostic { row: i, fault });
            },
        }
        i += 1;
    }
    assert(texts.take(i as int) =~= texts);
    Loaded { rows, skipped }
}

/// The records of comma-separated text with a header line, as
/// `csv::Reader::records` yields them: the fields of each record after the
/// header, or `None` for a record that the reader reports as an error.
pub uninterp spec fn csv_records(data: Seq<u8>) -> Seq<Option<Seq<Seq<char>>>>;

/// `csv::Reader::from_reader` on the bytes, then `csv::Reader::records` to
/// the end of the data. What comes out depends on the bytes alone.
#[verifier::external_body]
fn read_records(data: &[u8]) -> (records: Vec<Option<Vec<String>>>)
    ensures
        records_text(records@) == csv_records(data@),
{
    let mut reader = csv::Reader::from_reader(data);
    let mut records = Vec::new();
    for result in reader.records() {
        records.push(
            match result {
                Ok(record) => Some(record.iter().map(|field| field.to_string()).collect()),
                Err(_) => None,
            },
        );
    }
    records
}

/// Loads a catalogue from the bytes of a comma-separated file with a header
/// line. `layout` says which column holds what. A row that cannot be used is
/// skipped and noted; the rows that can be used come in file order.
pub fn parse_star_file(data: &[u8], layout: &ColumnLayout) -> (loaded: Loaded)
    ensures
        loaded.rows@.map_values(|row: CatalogRow| row@) == accepted(csv_records(data@), *layout),
        loaded.skipped@ == rejected(csv_records(data@), *layout),
{
    let records = read_records(data);
    rows_from_records(&records, layout)
}

} // verus!
