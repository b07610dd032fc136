//! Reading file records out of tabular input.
//!
//! The input is either CSV with a header row that names the columns, or the
//! output of `du -a -b`: tab-separated lines without a header, the size
//! first and the path second. The `csv` crate cuts the bytes into rows;
//! what is made of the rows is decided here.

use crate::filetree::{Record, SizedFile};
use crate::names::same_name;
use vstd::prelude::*;
use vstd::std_specs::iter::IteratorSpec;

verus! {

/// The delimiter of CSV input.
pub const COMMA: u8 = 44;

/// The delimiter of `du` output.
pub const TAB: u8 = 9;

/// Why an import failed. Any failure ends the whole import.
#[derive(Debug, PartialEq, Eq)]
pub enum ImportError {
    /// The header has no column of this name.
    MissingColumn { name: String },
    /// This row, counted from 0 after the header, is too short to hold
    /// the path and the size.
    MalformedRow { line: usize },
    /// The size field of this row, counted from 0 after the header, is not
    /// a number that fits.
    InvalidSize { line: usize },
    /// Reading the header or a row out of the input failed; the message is
    /// the reader's, and says where.
    IoFailure { message: String },
}

/// What an `ImportError` stands for.
pub enum ImportFailure {
    MissingColumn { name: Seq<char> },
    MalformedRow { line: nat },
    InvalidSize { line: nat },
    IoFailure { message: Seq<char> },
}

impl View for ImportError {
    type V = ImportFailure;

    open spec fn view(&self) -> ImportFailure {
        match self {
            ImportError::MissingColumn { name } => ImportFailure::MissingColumn { name: name@ },
            ImportError::MalformedRow { line } => ImportFailure::MalformedRow { line: *line as nat },
            ImportError::InvalidSize { line } => ImportFailure::InvalidSize { line: *line as nat },
            ImportError::IoFailure { message } => ImportFailure::IoFailure {
                message: message@,
            },
        }
    }
}

/// What the CSV reader made of one row: its fields, or its complaint.
pub type Row = Result<Vec<String>, String>;

/// The fields of a row.
pub type Fields = Seq<Seq<char>>;

/// What a `Row` stands for.
pub type RowModel = Result<Fields, Seq<char>>;

/// What a vector of strings stands for.
pub open spec fn fields_view(fields: Seq<String>) -> Fields {
    fields.map_values(|field: String| field@)
}

/// What a row stands for.
pub open spec fn row_view(row: Row) -> RowModel {
    match row {
        Ok(fields) => Ok(fields_view(fields@)),
        Err(message) => Err(message@),
    }
}

/// What a vector of rows stands for.
pub open spec fn rows_view(rows: Seq<Row>) -> Seq<RowModel> {
    rows.map_values(|row: Row| row_view(row))
}

/// What the result of an import stands for.
pub open spec fn outcome_view(outcome: Result<Vec<SizedFile>, ImportError>) -> Result<
    Seq<Record>,
    ImportFailure,
> {
    match outcome {
        Ok(files) => Ok(files@.map_values(|file: SizedFile| file@)),
        Err(error) => Err(error@),
    }
}

/// The header row that the `csv` crate reads from `input`, its fields cut
/// at `delimiter`, or the message of the error it reports instead.
pub uninterp spec fn csv_header(input: Seq<u8>, delimiter: u8) -> Result<
    Seq<Seq<char>>,
    Seq<char>,
>;

/// The records that the `csv` crate reads from `input` one after the
/// other, their fields cut at `delimiter`, the first row left out where it
/// is a header. A record that the crate reports an error for stands here
/// as the message of that error.
pub uninterp spec fn csv_records(input: Seq<u8>, delimiter: u8, has_headers: bool) -> Seq<
    Result<Seq<Seq<char>>, Seq<char>>,
>;

/// Reads the header row of `input` with `csv::Reader::headers`, on a reader
/// built by `csv::ReaderBuilder` with the given delimiter.
///
/// Trusted: the result is what the `csv` crate makes of these bytes, which
/// the contract only gives a name to.
#[verifier::external_body]
fn parse_header(input: &[u8], delimiter: u8) -> (header: Row)
    ensures
        row_view(header) == csv_header(input@, delimiter),
{
    let mut reader = csv::ReaderBuilder::new().delimiter(delimiter).from_reader(input);
    match reader.headers() {
        Ok(record) => Ok(record.iter().map(|field| field.to_owned()).collect()),
        Err(error) => Err(error.to_string()),
    }
}

/// Reads all records of `input` with `csv::Reader::records`, on a reader
/// built by `csv::ReaderBuilder` with the given delimiter and header
/// setting.
///
/// Trusted: the result is what the `csv` crate makes of these bytes, which
/// the contract only gives a name to.
#[verifier::external_body]
fn parse_records(input: &[u8], delimiter: u8, has_headers: bool) -> (rows: Vec<Row>)
    ensures
        rows_view(rows@) == csv_records(input@, delimiter, has_headers),
{
    let mut reader = csv::ReaderBuilder::new().delimiter(delimiter).has_headers(
        has_headers,
    ).from_reader(input);
    reader.records().map(
        |row|
            match row {
                Ok(record) => Ok(record.iter().map(|field| field.to_owned()).collect()),
                Err(error) => Err(error.to_string()),
            },
    ).collect()
}

/// Whether `c` is one of the digits `0` to `9`.
pub open spec fn is_digit(c: char) -> bool {
    '0' <= c <= '9'
}

/// The number that a string of digits writes in base ten.
pub open spec fn number(digits: Seq<char>) -> nat
    decreases digits.len(),
{
    if digits.len() == 0 {
        0
    } else {
        (number(digits.drop_last()) * 10 + (digits.last() as nat - '0' as nat)) as nat
    }
}

/// Whether `digits` holds digits only.
pub open spec fn all_digits(digits: Seq<char>) -> bool {
    forall|i: int| 0 <= i < digits.len() ==> is_digit(#[trigger] digits[i])
}

/// The number that `digits` write, where they are one digit or more, hold
/// nothing else, and the number fits a `usize`.
pub open spec fn unsigned(digits: Seq<char>) -> Option<nat> {
    if digits.len() > 0 && all_digits(digits) && number(digits) <= usize::MAX {
        Some(number(digits))
    } else {
        None
    }
}

/// The size that `text` writes, if it writes one: a number in digits,
/// with at most one `+` before it.
pub open spec fn size_of_text(text: Seq<char>) -> Option<nat> {
    if text.len() > 0 && text[0] == '+' {
        unsigned(text.drop_first())
    } else {
        unsigned(text)
    }
}

/// The index of the first field of `header` that is `name`.
pub open spec fn column_index(header: Fields, name: Seq<char>) -> Option<nat>
    decreases header.len(),
{
    if header.len() == 0 {
        None
    } else if header[0] == name {
        Some(0)
    } else {
        match column_index(header.drop_first(), name) {
            Some(i) => Some(i + 1),
            None => None,
        }
    }
}

/// Where the path and the size stand in rows under `header`: the first
/// column of each name. The path column is looked for first.
pub open spec fn columns(header: Fields, path_column: Seq<char>, size_column: Seq<char>) -> Result<
    (nat, nat),
    ImportFailure,
> {
    match column_index(header, path_column) {
        None => Err(ImportFailure::MissingColumn { name: path_column }),
        Some(path_at) => match column_index(header, size_column) {
            None => Err(ImportFailure::MissingColumn { name: size_column }),
            Some(size_at) => Ok((path_at, size_at)),
        },
    }
}

/// The file that row number `line` holds, with its path in field
/// `path_at` and its size in field `size_at`.
pub open spec fn row_file(row: RowModel, line: nat, path_at: nat, size_at: nat) -> Result<
    Record,
    ImportFailure,
> {
    match row {
        Err(message) => Err(ImportFailure::IoFailure { message }),
        Ok(fields) => if path_at >= fields.len() || size_at >= fields.len() {
            Err(ImportFailure::MalformedRow { line })
        } else {
            match size_of_text(fields[size_at as int]) {
                None => Err(ImportFailure::InvalidSize { line }),
                Some(size) => Ok(Record { path: fields[path_at as int], size }),
            }
        },
    }
}

/// The files that `rows` hold, in order, or the failure of the first row
/// that has one.
pub open spec fn rows_files(rows: Seq<RowModel>, path_at: nat, size_at: nat) -> Result<
    Seq<Record>,
    ImportFailure,
>
    decreases rows.len(),
{
    if rows.len() == 0 {
        Ok(Seq::empty())
    } else {
        match rows_files(rows.drop_last(), path_at, size_at) {
            Err(failure) => Err(failure),
            Ok(files) => match row_file(
                rows.last(),
                (rows.len() - 1) as nat,
                path_at,
                size_at,
            ) {
                Err(failure) => Err(failure),
                Ok(file) => Ok(files.push(file)),
            },
        }
    }
}

/// What an import makes of a header and rows. Rows of `du` output hold
/// the size first and the path second, whatever the columns are called;
/// there the header is not looked at.
pub open spec fn import(
    header: RowModel,
    rows: Seq<RowModel>,
    path_column: Seq<char>,
    size_column: Seq<char>,
    is_du_output: bool,
) -> Result<Seq<Record>, ImportFailure> {
    if is_du_output {
        rows_files(rows, 1, 0)
    } else {
        match header {
            Err(message) => Err(ImportFailure::IoFailure { message }),
            Ok(fields) => match columns(fields, path_column, size_column) {
                Err(failure) => Err(failure),
                Ok((path_at, size_at)) => rows_files(rows, path_at, size_at),
            },
        }
    }
}

/// `column_index` is the least index whose field is `name`, and there is
/// none exactly where no field is `name`.
pub proof fn lemma_column_index(header: Fields, name: Seq<char>)
    ensures
        match column_index(header, name) {
            Some(i) => i < header.len() && header[i as int] == name && forall|j: int|
                0 <= j < i ==> header[j] != name,
            None => forall|j: int| 0 <= j < header.len() ==> header[j] != name,
        },
    decreases header.len(),
{
    if header.len() > 0 && header[0] != name {
        let rest = header.drop_first();
        lemma_column_index(rest, name);
        match column_index(rest, name) {
            Some(i) => {
                assert(header[i as int + 1] == rest[i as int]);
                assert forall|j: int| 0 <= j < i + 1 implies header[j] != name by {
                    if j > 0 {
                        assert(header[j] == rest[j - 1]);
                    }
                }
            },
            None => {
                assert forall|j: int| 0 <= j < header.len() implies header[j] != name by {
                    if j > 0 {
                        assert(header[j] == rest[j - 1]);
                    }
                }
            },
        }
    }
}

/// An index whose field is `name`, with no such field before it, is the
/// `column_index`; with no such field at all there is none.
pub proof fn lemma_column_index_is(header: Fields, name: Seq<char>, i: int)
    requires
        0 <= i <= header.len(),
        forall|j: int| 0 <= j < i ==> header[j] != name,
        i < header.len() ==> header[i] == name,
    ensures
        column_index(header, name) == if i < header.len() {
            Some(i as nat)
        } else {
            None
        },
{
    lemma_column_index(header, name);
    match column_index(header, name) {
        Some(k) => {
            if k < i {
                assert(header[k as int] != name);
            } else if i < k {
                assert(header[i] == name);
            }
        },
        None => {
            if i < header.len() {
                assert(header[i] == name);
            }
        },
    }
}

/// An import of CSV input whose header lacks the path column or the size
/// column fails, whatever the rows hold, and names the column: the path
/// column where both are missing.
pub proof fn lemma_missing_column(
    header: Fields,
    rows: Seq<RowModel>,
    path_column: Seq<char>,
    size_column: Seq<char>,
)
    requires
        !header.contains(path_column) || !header.contains(size_column),
    ensures
        import(Ok(header), rows, path_column, size_column, false) == Err::<
            Seq<Record>,
            ImportFailure,
        >(
            ImportFailure::MissingColumn {
                name: if !header.contains(path_column) {
                    path_column
                } else {
                    size_column
                },
            },
        ),
{
    lemma_column_index(header, path_column);
    lemma_column_index(header, size_column);
    // a column that is found is a field of the header
    if column_index(header, path_column) is Some {
        let i = column_index(header, path_column)->Some_0 as int;
        assert(header[i] == path_column);
    }
    if column_index(header, size_column) is Some {
        let i = column_index(header, size_column)->Some_0 as int;
        assert(header[i] == size_column);
    }
}

/// An import of `du` output reads the size from the first field of each
/// row and the path from the second, whatever the header holds and
/// whatever columns were asked for.
pub proof fn lemma_du_output_ignores_columns(
    header: RowModel,
    rows: Seq<RowModel>,
    path_column: Seq<char>,
    size_column: Seq<char>,
)
    ensures
        import(header, rows, path_column, size_column, true) == rows_files(rows, 1, 0),
{
}

/// A row of `du` output, a size and then a path, holds the file of that
/// path and that size.
pub proof fn lemma_du_row(size_text: Seq<char>, path: Seq<char>, line: nat)
    requires
        size_of_text(size_text) is Some,
    ensures
        row_file(Ok(seq![size_text, path]), line, 1, 0) == Ok::<Record, ImportFailure>(
            Record { path, size: size_of_text(size_text)->Some_0 },
        ),
{
}

/// A longer string of digits writes no smaller number.
pub proof fn lemma_number_grows(digits: Seq<char>, k: int)
    requires
        0 <= k <= digits.len(),
        all_digits(digits),
    ensures
        number(digits.take(k)) <= number(digits),
    decreases digits.len() - k,
{
    if k == digits.len() {
        assert(digits.take(k) =~= digits);
    } else {
        let front = digits.drop_last();
        assert(front.take(k) =~= digits.take(k));
        assert(all_digits(front)) by {
            assert forall|i: int| 0 <= i < front.len() implies is_digit(#[trigger] front[i]) by {
                assert(front[i] == digits[i]);
            }
        }
        lemma_number_grows(front, k);
        assert(is_digit(digits[digits.len() - 1]));
    }
}

/// Reads the number that `digits` write, if they write one that fits.
fn parse_unsigned(digits: &str) -> (size: Option<usize>)
    ensures
        size matches Some(n) ==> unsigned(digits@) == Some(n as nat),
        size is None ==> unsigned(digits@) is None,
{
    let mut chars = digits.chars();
    let mut value: usize = 0;
    let mut any = false;
    let ghost mut seen: Seq<char> = Seq::empty();
    assert(seen + digits@ =~= digits@);
    loop
        invariant
            digits@ == seen + chars.remaining(),
            all_digits(seen),
            value == number(seen),
            any <==> seen.len() > 0,
            chars.decrease() is Some,
        decreases chars.decrease()->0,
    {
        let ghost left = chars.remaining();
        match chars.next() {
            None => {
                assert(digits@ =~= seen);
                return if any {
                    Some(value)
                } else {
                    None
                };
            },
            Some(c) => {
                assert(digits@[seen.len() as int] == c);
                if c < '0' || c > '9' {
                    assert(!is_digit(digits@[seen.len() as int]));
                    return None;
                }
                let digit: usize = (c as u32 - '0' as u32) as usize;
                proof {
                    let upto = seen.push(c);
                    assert(upto.drop_last() =~= seen);
                    assert(upto + left.drop_first() =~= seen + left);
                    assert(upto =~= digits@.take(upto.len() as int));
                    if all_digits(digits@) {
                        lemma_number_grows(digits@, upto.len() as int);
                    }
                    seen = upto;
                }
                if value > (usize::MAX - digit) / 10 {
                    assert(value * 10 + digit > usize::MAX);
                    return None;
                }
                value = value * 10 + digit;
                any = true;
            },
        }
    }
}

/// Reads a size as `str::parse::<usize>` does: digits in base ten, with
/// at most one `+` before them.
pub fn parse_size(text: &str) -> (size: Option<usize>)
    ensures
        size matches Some(n) ==> size_of_text(text@) == Some(n as nat),
        size is None ==> size_of_text(text@) is None,
{
    let n = text.unicode_len();
    if n > 0 && text.get_char(0) == '+' {
        let digits = text.substring_char(1, n);
        assert(digits@ =~= text@.drop_first());
        parse_unsigned(digits)
    } else {
        parse_unsigned(text)
    }
}

/// Once a row has failed, the rows after it change nothing.
pub proof fn lemma_first_failure(rows: Seq<RowModel>, path_at: nat, size_at: nat, k: int)
    requires
        0 <= k <= rows.len(),
        rows_files(rows.take(k), path_at, size_at) is Err,
    ensures
        rows_files(rows, path_at, size_at) == rows_files(rows.take(k), path_at, size_at),
    decreases rows.len(),
{
    if k == rows.len() {
        assert(rows.take(k) =~= rows);
    } else {
        assert(rows.drop_last().take(k) =~= rows.take(k));
        lemma_first_failure(rows.drop_last(), path_at, size_at, k);
    }
}

/// Finds the first field of `header` that is `name`.
fn find_column(header: &Vec<String>, name: &str) -> (at: Option<usize>)
    ensures
        at matches Some(i) ==> column_index(fields_view(header@), name@) == Some(i as nat),
        at is None ==> column_index(fields_view(header@), name@) is None,
{
    let mut i: usize = 0;
    while i < header.len()
        invariant
            i <= header.len(),
            forall|j: int| 0 <= j < i ==> fields_view(header@)[j] != name@,
        decreases header.len() - i,
    {
        if same_name(header[i].as_str(), name) {
            proof {
                lemma_column_index_is(fields_view(header@), name@, i as int);
            }
            return Some(i);
        }
        i += 1;
    }
    proof {
        lemma_column_index_is(fields_view(header@), name@, i as int);
    }
    None
}

/// Finds the columns of the path and of the size in `header`, by name.
/// Fails with `MissingColumn` and the name that `header` lacks, the path
/// column's where it lacks both.
pub fn resolve_columns(header: &Vec<String>, path_column: &str, size_column: &str) -> (found:
    Result<(usize, usize), ImportError>)
    ensures
        match found {
            Ok((path_at, size_at)) => columns(fields_view(header@), path_column@, size_column@)
                == Ok::<(nat, nat), ImportFailure>((path_at as nat, size_at as nat)),
            Err(error) => columns(fields_view(header@), path_column@, size_column@) == Err::<
                (nat, nat),
                ImportFailure,
            >(error@),
        },
{
    match find_column(header, path_column) {
        None => Err(ImportError::MissingColumn { name: path_column.to_owned() }),
        Some(path_at) => match find_column(header, size_column) {
            None => Err(ImportError::MissingColumn { name: size_column.to_owned() }),
            Some(size_at) => Ok((path_at, size_at)),
        },
    }
}

/// Turns each row into a file, its path from field `path_at` and its size
/// from field `size_at`. The first row that the reader failed on, that is
/// too short or that holds no size ends the import with its failure.
pub fn collect_files(rows: &Vec<Row>, path_at: usize, size_at: usize) -> (outcome: Result<
    Vec<SizedFile>,
    ImportError,
>)
    ensures
        outcome_view(outcome) == rows_files(rows_view(rows@), path_at as nat, size_at as nat),
{
    let ghost all = rows_view(rows@);
    let mut files: Vec<SizedFile> = Vec::new();
    let mut i: usize = 0;
    assert(all.take(0) =~= Seq::<RowModel>::empty());
    assert(outcome_view(Ok(files))->Ok_0 =~= Seq::<Record>::empty());
    while i < rows.len()
        invariant
            i <= rows.len(),
            all == rows_view(rows@),
            rows_files(all.take(i as int), path_at as nat, size_at as nat) == outcome_view(
                Ok(files),
            ),
        decreases rows.len() - i,
    {
        let ghost upto = all.take(i + 1);
        let ghost before = files@.map_values(|file: SizedFile| file@);
        proof {
            assert(upto.drop_last() =~= all.take(i as int));
            assert(upto.last() == row_view(rows@[i as int]));
        }
        match &rows[i] {
            Err(message) => {
                proof {
                    lemma_first_failure(all, path_at as nat, size_at as nat, i + 1);
                }
                return Err(ImportError::IoFailure { message: message.clone() });
            },
            Ok(fields) => {
                if path_at >= fields.len() || size_at >= fields.len() {
                    proof {
                        lemma_first_failure(all, path_at as nat, size_at as nat, i + 1);
                    }
                    return Err(ImportError::MalformedRow { line: i });
                }
                match parse_size(fields[size_at].as_str()) {
                    None => {
                        proof {
                            lemma_first_failure(all, path_at as nat, size_at as nat, i + 1);
                        }
                        return Err(ImportError::InvalidSize { line: i });
                    },
                    Some(size) => {
                        let file = SizedFile { path: fields[path_at].clone(), size };
                        files.push(file);
                        assert(files@.map_values(|file: SizedFile| file@) =~= before.push(
                            file@,
                        ));
                    },
                }
            },
        }
        i += 1;
    }
    assert(all.take(i as int) =~= all);
    Ok(files)
}

/// Reads the file records of `input`.
///
/// CSV input names its columns in a header row; the path is read from the
/// column called `path_column` and the size from the one called
/// `size_column`. Where `is_du_output` is set, `input` is the output of
/// `du -a -b` instead, and the two names are not looked at.
pub fn read_csv(input: &[u8], path_column: &str, size_column: &str, is_du_output: bool) -> (outcome:
    Result<Vec<SizedFile>, ImportError>)
    ensures
        outcome_view(outcome) == import(
            csv_header(input@, COMMA),
            csv_records(
                input@,
                if is_du_output {
                    TAB
                } else {
                    COMMA
                },
                !is_du_output,
            ),
            path_column@,
            size_column@,
            is_du_output,
        ),
{
    if is_du_output {
        let rows = parse_records(input, TAB, false);
        collect_files(&rows, 1, 0)
    } else {
        match parse_header(input, COMMA) {
            Err(message) => Err(ImportError::IoFailure { message }),
            Ok(header) => match resolve_columns(&header, path_column, size_column) {
                Err(error) => Err(error),
                Ok((path_at, size_at)) => {
                    let rows = parse_records(input, COMMA, true);
                    collect_files(&rows, path_at, size_at)
                },
            },
        }
    }
}

} // verus!
