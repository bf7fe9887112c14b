use vstd::prelude::*;

use crate::hotspot::{HotspotIndex, HotspotStats};
use crate::types::{comments_percentage_of, Metrics, PathType};

verus! {

/// How a report is written out.
#[derive(Clone, Copy, Debug, PartialEq, Eq, Structural)]
pub enum OutputFormat {
    Markdown,
    Csv,
}

/// Why a report could not be written.
#[derive(Clone, Copy, Debug, PartialEq, Eq, Structural)]
pub enum FormatError {
    /// The CSV writer failed.
    Csv,
}

#[verifier::external_type_specification]
#[verifier::external_body]
pub struct ExCsvError(csv::Error);

/// The CSV document that the csv crate writes for these records.
pub uninterp spec fn csv_of(records: Seq<Seq<Seq<char>>>) -> Seq<char>;

/// The markdown table that tabled draws for these rows, the first one the
/// header, numbers aligned right.
pub uninterp spec fn markdown_of(rows: Seq<Seq<Seq<char>>>) -> Seq<char>;

/// Relies on csv::Writer (from_writer, write_record, into_inner) writing
/// into memory: the document depends on the records alone, and with the
/// default settings the only failure left is records of unequal lengths.
#[verifier::external_body]
fn csv_document(records: &Vec<Vec<String>>) -> (r: Result<String, csv::Error>)
    ensures
        r matches Ok(s) ==> s@ == csv_of(records.deep_view()),
        (forall|i: int, j: int| 0 <= i < records.len() && 0 <= j < records.len()
            ==> (#[trigger] records@[i])@.len() == (#[trigger] records@[j])@.len()) ==> r is Ok,
{
    let mut writer = csv::Writer::from_writer(Vec::new());
    for record in records.iter() {
        writer.write_record(record)?;
    }
    let bytes = writer.into_inner().map_err(|e| csv::Error::from(e.into_error()))?;
    Ok(String::from_utf8_lossy(&bytes).into_owned())
}

/// Relies on tabled's Builder and Table with the markdown style: the table
/// depends on the rows alone.
#[verifier::external_body]
fn markdown_table(rows: Vec<Vec<String>>) -> (r: String)
    ensures
        r@ == markdown_of(rows.deep_view()),
{
    let mut table = tabled::builder::Builder::from(rows).build();
    table.with(tabled::settings::Style::markdown()).with(
        tabled::settings::Modify::new(tabled::settings::object::Segment::new(1.., 2..))
            .with(tabled::settings::Alignment::right()),
    );
    table.to_string()
}

pub open spec fn digit_char(d: int) -> char {
    if d == 0 {
        '0'
    } else if d == 1 {
        '1'
    } else if d == 2 {
        '2'
    } else if d == 3 {
        '3'
    } else if d == 4 {
        '4'
    } else if d == 5 {
        '5'
    } else if d == 6 {
        '6'
    } else if d == 7 {
        '7'
    } else if d == 8 {
        '8'
    } else {
        '9'
    }
}

/// The decimal digits of `n`.
pub open spec fn decimal_digits(n: nat) -> Seq<char>
    decreases n,
{
    if n < 10 {
        seq![digit_char(n as int)]
    } else {
        decimal_digits(n / 10) + seq![digit_char((n % 10) as int)]
    }
}

/// A fixed-point value in thousandths, as `units.ddd`.
pub open spec fn fixed_text(v: nat) -> Seq<char> {
    decimal_digits(v / 1000) + seq![
        '.',
        digit_char(((v % 1000) / 100) as int),
        digit_char(((v % 100) / 10) as int),
        digit_char((v % 10) as int),
    ]
}

/// The components of a path joined by `/`.
pub open spec fn path_text(p: Seq<Seq<char>>) -> Seq<char>
    decreases p.len(),
{
    if p.len() == 0 {
        Seq::empty()
    } else if p.len() == 1 {
        p[0]
    } else {
        path_text(p.drop_last()) + seq!['/'] + p.last()
    }
}

pub open spec fn type_text(t: PathType) -> Seq<char> {
    match t {
        PathType::File => "file"@,
        PathType::Directory => "directory"@,
    }
}

pub open spec fn metric_text(m: Option<Metrics>, column: int) -> Seq<char> {
    match m {
        None => "unset"@,
        Some(m) => if column == 2 {
            fixed_text(m.halstead_volume as nat)
        } else if column == 3 {
            fixed_text(m.cyclomatic_complexity as nat)
        } else if column == 4 {
            decimal_digits(m.loc as nat)
        } else if column == 5 {
            fixed_text(comments_percentage_of(m.comment_lines as int, m.loc as int) as nat)
        } else {
            fixed_text(m.maintainability_index as nat)
        },
    }
}

pub open spec fn hotspot_text(h: HotspotIndex) -> Seq<char> {
    match h {
        HotspotIndex::Unset => "unset"@,
        HotspotIndex::Finite(v) => fixed_text(v as nat),
        HotspotIndex::Infinite => "inf"@,
    }
}

/// The cells of one line of a report.
pub open spec fn row_of(s: HotspotStats) -> Seq<Seq<char>> {
    seq![
        path_text(s.path.deep_view()),
        type_text(s.path_type),
        metric_text(s.metrics, 2),
        metric_text(s.metrics, 3),
        metric_text(s.metrics, 4),
        metric_text(s.metrics, 5),
        metric_text(s.metrics, 6),
        decimal_digits(s.changes_count as nat),
        hotspot_text(s.hotspot_index),
    ]
}

pub open spec fn header() -> Seq<Seq<char>> {
    seq![
        "path"@,
        "path_type"@,
        "halstead_volume"@,
        "cyclomatic_complexity"@,
        "loc"@,
        "comments_percentage"@,
        "maintainability_index"@,
        "changes_count"@,
        "hotspot_index"@,
    ]
}

/// The header, then one row per entry.
pub open spec fn rows_of(stats: Seq<HotspotStats>) -> Seq<Seq<Seq<char>>> {
    seq![header()] + stats.map_values(|s: HotspotStats| row_of(s))
}

fn digit(d: u128) -> (r: &'static str)
    requires
        d < 10,
    ensures
        r@ == seq![digit_char(d as int)],
{
    proof {
        reveal_strlit("0");
        reveal_strlit("1");
        reveal_strlit("2");
        reveal_strlit("3");
        reveal_strlit("4");
        reveal_strlit("5");
        reveal_strlit("6");
        reveal_strlit("7");
        reveal_strlit("8");
        reveal_strlit("9");
    }
    if d == 0 {
        "0"
    } else if d == 1 {
        "1"
    } else if d == 2 {
        "2"
    } else if d == 3 {
        "3"
    } else if d == 4 {
        "4"
    } else if d == 5 {
        "5"
    } else if d == 6 {
        "6"
    } else if d == 7 {
        "7"
    } else if d == 8 {
        "8"
    } else {
        "9"
    }
}

/// The decimal digits of `n`, without sign or leading zeros.
pub fn decimal(n: u128) -> (r: String)
    ensures
        r@ == decimal_digits(n as nat),
    decreases n,
{
    if n < 10 {
        text(digit(n))
    } else {
        let mut s = decimal(n / 10);
        s.append(digit(n % 10));
        s
    }
}

/// A value in thousandths as text, three decimals.
pub fn fixed(v: u128) -> (r: String)
    ensures
        r@ == fixed_text(v as nat),
{
    let mut s = decimal(v / 1000);
    proof {
        reveal_strlit(".");
    }
    s.append(".");
    s.append(digit((v % 1000) / 100));
    s.append(digit((v % 100) / 10));
    s.append(digit(v % 10));
    assert(s@ =~= fixed_text(v as nat));
    s
}

/// The components of a path joined by `/`.
pub fn path_string(path: &Vec<String>) -> (r: String)
    ensures
        r@ == path_text(path.deep_view()),
{
    let ghost p = path.deep_view();
    let mut s = String::new();
    let mut i: usize = 0;
    assert(p.take(0) =~= Seq::<Seq<char>>::empty());
    while i < path.len()
        invariant
            i <= path.len(),
            p == path.deep_view(),
            s@ == path_text(p.take(i as int)),
        decreases path.len() - i,
    {
        assert(p.take(i + 1).drop_last() =~= p.take(i as int));
        assert(p.take(i + 1).last() == path@[i as int]@);
        if i > 0 {
            s.append("/");
            proof {
                reveal_strlit("/");
            }
            assert("/"@ =~= seq!['/']);
            assert(path_text(p.take(i + 1)) == path_text(p.take(i + 1).drop_last()) + seq!['/'] + p.take(i + 1).last());
        } else {
            assert(s@ =~= Seq::<char>::empty());
        }
        s.append(path[i].as_str());
        proof {
            if i == 0 {
                assert(s@ =~= p.take(1)[0]);
            }
        }
        i = i + 1;
    }
    assert(p.take(i as int) =~= p);
    s
}

fn text(s: &str) -> (r: String)
    ensures
        r@ == s@,
{
    s.to_owned()
}

fn metric_string(m: &Option<Metrics>, column: u8) -> (r: String)
    requires
        2 <= column <= 6,
    ensures
        r@ == metric_text(*m, column as int),
{
    match m {
        None => text("unset"),
        Some(m) => if column == 2 {
            fixed(m.halstead_volume as u128)
        } else if column == 3 {
            fixed(m.cyclomatic_complexity as u128)
        } else if column == 4 {
            decimal(m.loc as u128)
        } else if column == 5 {
            let cp: u128 = if m.loc == 0 {
                0
            } else {
                (m.comment_lines as u128 * 100000u128) / (m.loc as u128)
            };
            fixed(cp)
        } else {
            fixed(m.maintainability_index as u128)
        },
    }
}

/// The cells of one line of a report.
pub fn row(s: &HotspotStats) -> (r: Vec<String>)
    ensures
        r.deep_view() == row_of(*s),
        r@.len() == 9,
{
    let mut r: Vec<String> = Vec::new();
    r.push(path_string(&s.path));
    r.push(text(s.path_type.name()));
    r.push(metric_string(&s.metrics, 2));
    r.push(metric_string(&s.metrics, 3));
    r.push(metric_string(&s.metrics, 4));
    r.push(metric_string(&s.metrics, 5));
    r.push(metric_string(&s.metrics, 6));
    r.push(decimal(s.changes_count as u128));
    r.push(
        match s.hotspot_index {
            HotspotIndex::Unset => text("unset"),
            HotspotIndex::Finite(v) => fixed(v),
            HotspotIndex::Infinite => text("inf"),
        },
    );
    assert(r.deep_view() =~= row_of(*s));
    r
}

/// The header and one row per entry, in order.
pub fn rows(stats: &[HotspotStats]) -> (r: Vec<Vec<String>>)
    ensures
        r.deep_view() == rows_of(stats@),
        forall|i: int| 0 <= i < r.len() ==> (#[trigger] r@[i])@.len() == 9,
{
    let mut r: Vec<Vec<String>> = Vec::new();
    let mut head: Vec<String> = Vec::new();
    head.push(text("path"));
    head.push(text("path_type"));
    head.push(text("halstead_volume"));
    head.push(text("cyclomatic_complexity"));
    head.push(text("loc"));
    head.push(text("comments_percentage"));
    head.push(text("maintainability_index"));
    head.push(text("changes_count"));
    head.push(text("hotspot_index"));
    assert(head.deep_view() =~= header());
    r.push(head);
    let mut i: usize = 0;
    while i < stats.len()
        invariant
            i <= stats.len(),
            r.len() == i + 1,
            r.deep_view()[0] == header(),
            forall|k: int| 0 <= k < i ==> r.deep_view()[k + 1] == row_of(#[trigger] stats@[k]),
            forall|k: int| 0 <= k < r.len() ==> (#[trigger] r@[k])@.len() == 9,
        decreases stats.len() - i,
    {
        let line = row(&stats[i]);
        r.push(line);
        i = i + 1;
    }
    assert(r.deep_view() =~= rows_of(stats@));
    r
}

/// The chosen way of writing a report.
pub struct Output {
    format: OutputFormat,
}

impl Output {
    pub closed spec fn kind(&self) -> OutputFormat {
        self.format
    }

    pub fn new(format: &OutputFormat) -> (r: Output)
        ensures
            r.kind() == *format,
    {
        Output { format: *format }
    }

    /// The format this output writes.
    pub fn output_format(&self) -> (r: OutputFormat)
        ensures
            r == self.kind(),
    {
        self.format
    }

    /// Writes the report: a header, then one row per entry in the given
    /// order, as a markdown table or as CSV.
    pub fn format(&self, stats: &[HotspotStats]) -> (r: Result<String, FormatError>)
        ensures
            self.kind() == OutputFormat::Markdown ==> (r matches Ok(s) && s@ == markdown_of(rows_of(stats@))),
            self.kind() == OutputFormat::Csv ==> (r matches Ok(s) && s@ == csv_of(rows_of(stats@))),
    {
        let table = rows(stats);
        match self.format {
            OutputFormat::Markdown => Ok(markdown_table(table)),
            OutputFormat::Csv => match csv_document(&table) {
                Ok(s) => Ok(s),
                Err(_) => Err(FormatError::Csv),
            },
        }
    }
}

} // verus!
