//! The report: each repository's status as one row of a comma-delimited
//! file, under a fixed header row. Fields holding a delimiter, quote or line
//! ending are quoted, with embedded quotes doubled.

use vstd::prelude::*;
use vstd::string::StringExecFns;
use crate::status::Status;
use crate::text::string_from_chars;

verus! {

/// Whether a CSV field must be quoted to survive a round trip: it contains
/// the delimiter, the quote, or a line-ending character.
pub open spec fn field_needs_quoting(f: Seq<char>) -> bool {
    exists|i: int|
        0 <= i < f.len() && (f[i] == ',' || f[i] == '"' || f[i] == '\n' || f[i] == '\r')
}

/// `f` with every quote doubled.
pub open spec fn double_quotes(f: Seq<char>) -> Seq<char>
    decreases f.len(),
{
    if f.len() == 0 {
        Seq::empty()
    } else if f[0] == '"' {
        seq!['"', '"'] + double_quotes(f.drop_first())
    } else {
        seq![f[0]] + double_quotes(f.drop_first())
    }
}

/// A field as it stands in the file: quoted and quote-doubled where needed,
/// verbatim otherwise.
pub open spec fn escape_field(f: Seq<char>) -> Seq<char> {
    if field_needs_quoting(f) {
        seq!['"'] + double_quotes(f) + seq!['"']
    } else {
        f
    }
}

/// The fields of one record, escaped and joined with the delimiter.
pub open spec fn join_fields(fields: Seq<Seq<char>>) -> Seq<char>
    decreases fields.len(),
{
    if fields.len() == 0 {
        Seq::empty()
    } else if fields.len() == 1 {
        escape_field(fields[0])
    } else {
        escape_field(fields[0]) + seq![','] + join_fields(fields.drop_first())
    }
}

/// One record line: the joined fields and a terminating newline. A record
/// whose joined fields are empty is written as one quoted empty field, so
/// that the line is never blank.
pub open spec fn csv_line(fields: Seq<Seq<char>>) -> Seq<char> {
    if join_fields(fields).len() == 0 {
        seq!['"', '"', '\n']
    } else {
        join_fields(fields).push('\n')
    }
}

/// Whether a character forces quoting of its field: the delimiter, the
/// quote, or a line-ending character.
pub open spec fn csv_special(c: char) -> bool {
    c == ',' || c == '"' || c == '\n' || c == '\r'
}

/// The body of a quoted field read from `s`, which follows an opening quote:
/// a doubled quote yields one quote, a lone quote closes the field, and
/// everything else is taken verbatim. Returns the field value and what
/// follows the closing quote, or nothing where no closing quote is found.
pub open spec fn parse_quoted(s: Seq<char>) -> Option<(Seq<char>, Seq<char>)>
    decreases s.len(),
{
    if s.len() == 0 {
        Option::None
    } else if s[0] == '"' {
        if s.len() >= 2 && s[1] == '"' {
            match parse_quoted(s.skip(2)) {
                Option::Some(vr) => Option::Some((seq!['"'] + vr.0, vr.1)),
                Option::None => Option::None,
            }
        } else {
            Option::Some((Seq::empty(), s.drop_first()))
        }
    } else {
        match parse_quoted(s.drop_first()) {
            Option::Some(vr) => Option::Some((seq![s[0]] + vr.0, vr.1)),
            Option::None => Option::None,
        }
    }
}

/// An unquoted field read from `s`: the longest prefix up to a delimiter or
/// line ending, together with what follows it.
pub open spec fn parse_unquoted(s: Seq<char>) -> (Seq<char>, Seq<char>)
    decreases s.len(),
{
    if s.len() == 0 || s[0] == ',' || s[0] == '\n' || s[0] == '\r' {
        (Seq::empty(), s)
    } else {
        let vr = parse_unquoted(s.drop_first());
        (seq![s[0]] + vr.0, vr.1)
    }
}

/// One field read from `s`: quoted where it begins with a quote, unquoted
/// otherwise.
pub open spec fn parse_field(s: Seq<char>) -> Option<(Seq<char>, Seq<char>)> {
    if s.len() > 0 && s[0] == '"' {
        parse_quoted(s.drop_first())
    } else {
        Option::Some(parse_unquoted(s))
    }
}

/// The fields of one record line `s`, ended by a newline that ends the
/// input: what a standard CSV reader reconstructs from the line. The bound
/// on the remainder's length in the guard documents that a parsed remainder
/// never grows; it keeps the recursion visibly bounded.
pub open spec fn parse_record(s: Seq<char>) -> Option<Seq<Seq<char>>>
    decreases s.len(),
{
    match parse_field(s) {
        Option::None => Option::None,
        Option::Some(vr) => {
            if vr.1.len() == 1 && vr.1[0] == '\n' {
                Option::Some(seq![vr.0])
            } else if 1 <= vr.1.len() <= s.len() && vr.1[0] == ',' {
                match parse_record(vr.1.drop_first()) {
                    Option::Some(vs) => Option::Some(seq![vr.0] + vs),
                    Option::None => Option::None,
                }
            } else {
                Option::None
            }
        },
    }
}

proof fn lemma_parse_quoted_encoded(f: Seq<char>, rest: Seq<char>)
    requires
        rest.len() > 0,
        rest[0] != '"',
    ensures
        parse_quoted(double_quotes(f) + seq!['"'] + rest) == Option::Some((f, rest)),
    decreases f.len(),
{
    let s = double_quotes(f) + seq!['"'] + rest;
    if f.len() == 0 {
        assert(double_quotes(f) =~= Seq::<char>::empty());
        assert(s =~= seq!['"'] + rest);
        assert(s[0] == '"' && s[1] == rest[0]);
        assert(s.drop_first() =~= rest);
    } else if f[0] == '"' {
        let f1 = f.drop_first();
        lemma_parse_quoted_encoded(f1, rest);
        assert(s[0] == '"' && s[1] == '"');
        assert(s.skip(2) =~= double_quotes(f1) + seq!['"'] + rest);
        assert(seq!['"'] + f1 =~= f);
    } else {
        let f1 = f.drop_first();
        lemma_parse_quoted_encoded(f1, rest);
        assert(s[0] == f[0] && s[0] != '"');
        assert(s.drop_first() =~= double_quotes(f1) + seq!['"'] + rest);
        assert(seq![s[0]] + f1 =~= f);
    }
}

proof fn lemma_parse_unquoted_encoded(f: Seq<char>, rest: Seq<char>)
    requires
        !field_needs_quoting(f),
        rest.len() == 0 || rest[0] == ',' || rest[0] == '\n' || rest[0] == '\r',
    ensures
        parse_unquoted(f + rest) == (f, rest),
    decreases f.len(),
{
    if f.len() == 0 {
        assert(f + rest =~= rest);
        assert(Seq::<char>::empty() =~= f);
    } else {
        assert(!csv_special(f[0]));
        let f1 = f.drop_first();
        assert(!field_needs_quoting(f1)) by {
            if field_needs_quoting(f1) {
                let i = choose|i: int| 0 <= i < f1.len() && csv_special(#[trigger] f1[i]);
                assert(f[i + 1] == f1[i]);
            }
        }
        lemma_parse_unquoted_encoded(f1, rest);
        assert((f + rest).drop_first() =~= f1 + rest);
        assert((f + rest)[0] == f[0]);
        assert(seq![f[0]] + f1 =~= f);
    }
}

proof fn lemma_parse_field_encoded(f: Seq<char>, rest: Seq<char>)
    requires
        rest.len() > 0,
        rest[0] == ',' || rest[0] == '\n',
    ensures
        parse_field(escape_field(f) + rest) == Option::Some((f, rest)),
{
    let s = escape_field(f) + rest;
    if field_needs_quoting(f) {
        assert(s[0] == '"');
        assert(s.drop_first() =~= double_quotes(f) + seq!['"'] + rest);
        lemma_parse_quoted_encoded(f, rest);
    } else {
        lemma_parse_unquoted_encoded(f, rest);
        assert(f + rest =~= s);
        if f.len() > 0 {
            assert(!csv_special(f[0]));
            assert(s[0] == f[0]);
        } else {
            assert(s[0] == rest[0]);
        }
    }
}

proof fn lemma_parse_record_encoded(fields: Seq<Seq<char>>)
    requires
        fields.len() >= 1,
    ensures
        parse_record(join_fields(fields).push('\n')) == Option::Some(fields),
    decreases fields.len(),
{
    if fields.len() == 1 {
        let s = join_fields(fields).push('\n');
        assert(s =~= escape_field(fields[0]) + seq!['\n']);
        lemma_parse_field_encoded(fields[0], seq!['\n']);
        assert(seq![fields[0]] =~= fields);
    } else {
        let f0 = fields[0];
        let tail = fields.drop_first();
        let s = join_fields(fields).push('\n');
        let rest = seq![','] + join_fields(tail).push('\n');
        assert(join_fields(fields) == escape_field(f0) + seq![','] + join_fields(tail));
        assert(s =~= escape_field(f0) + rest);
        lemma_parse_field_encoded(f0, rest);
        assert(rest.len() <= s.len());
        lemma_parse_record_encoded(tail);
        assert(rest.drop_first() =~= join_fields(tail).push('\n'));
        assert(seq![f0] + tail =~= fields);
    }
}

/// Round trip: a record line written for any non-empty sequence of fields,
/// re-parsed, yields exactly those fields — the quoting of embedded
/// delimiters, quotes and line endings is correct. (A record of zero fields
/// is written as one quoted empty field, so it reads back as one field.)
pub proof fn lemma_csv_round_trip(fields: Seq<Seq<char>>)
    requires
        fields.len() >= 1,
    ensures
        parse_record(csv_line(fields)) == Option::Some(fields),
{
    if join_fields(fields).len() == 0 {
        assert(fields.len() == 1) by {
            if fields.len() >= 2 {
                assert(join_fields(fields) == escape_field(fields[0]) + seq![','] + join_fields(
                    fields.drop_first(),
                ));
            }
        }
        let f0 = fields[0];
        assert(!field_needs_quoting(f0) && f0.len() == 0) by {
            if field_needs_quoting(f0) {
                assert(escape_field(f0).len() >= 2);
            }
        }
        let line = csv_line(fields);
        assert(line =~= seq!['"', '"', '\n']);
        assert(line[0] == '"');
        let body = line.drop_first();
        assert(body =~= seq!['"', '\n']);
        assert(body[0] == '"' && body[1] == '\n');
        assert(body.drop_first() =~= seq!['\n']);
        assert(parse_quoted(body) == Option::Some((Seq::<char>::empty(), seq!['\n'])));
        assert(f0 =~= Seq::<char>::empty());
        assert(seq![f0] =~= fields);
    } else {
        lemma_parse_record_encoded(fields);
    }
}

/// Relies on `csv::Writer` with its default configuration over an in-memory
/// buffer: `write_record` joins the fields with commas and terminates the
/// record with a newline, quoting a field and doubling its embedded quotes
/// exactly where the field holds a comma, quote, carriage return or newline,
/// and writing a record that would otherwise be empty as one quoted empty
/// field. Writing into a fresh in-memory buffer cannot fail.
#[verifier::external_body]
fn csv_encode_record(fields: &Vec<String>) -> (r: String)
    ensures
        r@ == csv_line(fields.deep_view()),
{
    let mut w = csv::Writer::from_writer(Vec::new());
    w.write_record(fields).expect("in-memory CSV write cannot fail");
    let bytes = w.into_inner().expect("in-memory CSV flush cannot fail");
    String::from_utf8(bytes).expect("CSV of string fields is valid text")
}

/// The character of one decimal digit.
pub open spec fn digit_char(d: nat) -> char {
    if d == 0 {
        '0'
    } else if d == 1 {
        '1'
    } else if d == 2 {
        '2'
    } else if d == 3 {
        '3'
    } else if d == 4 {
        '4'
    } else if d == 5 {
        '5'
    } else if d == 6 {
        '6'
    } else if d == 7 {
        '7'
    } else if d == 8 {
        '8'
    } else {
        '9'
    }
}

/// The decimal digits of `n`, most significant first, without a sign.
pub open spec fn dec_digits(n: nat) -> Seq<char>
    decreases n,
{
    if n < 10 {
        seq![digit_char(n)]
    } else {
        dec_digits(n / 10).push(digit_char(n % 10))
    }
}

/// The decimal rendering of `v`: its digits, with a leading minus sign where
/// `v` is negative.
pub open spec fn dec_str(v: int) -> Seq<char> {
    if v < 0 {
        seq!['-'] + dec_digits((-v) as nat)
    } else {
        dec_digits(v as nat)
    }
}

fn push_dec_digits(n: u64, out: &mut Vec<char>)
    ensures
        final(out)@ == old(out)@ + dec_digits(n as nat),
    decreases n,
{
    let d = n % 10;
    let c: char = if d == 0 {
        '0'
    } else if d == 1 {
        '1'
    } else if d == 2 {
        '2'
    } else if d == 3 {
        '3'
    } else if d == 4 {
        '4'
    } else if d == 5 {
        '5'
    } else if d == 6 {
        '6'
    } else if d == 7 {
        '7'
    } else if d == 8 {
        '8'
    } else {
        '9'
    };
    assert(c == digit_char((n % 10) as nat));
    if n < 10 {
        out.push(c);
        assert(final(out)@ =~= old(out)@ + dec_digits(n as nat));
    } else {
        push_dec_digits(n / 10, out);
        out.push(c);
        assert(final(out)@ =~= old(out)@ + dec_digits(n as nat));
    }
}

/// The decimal rendering of an exit code.
fn i32_dec_chars(v: i32) -> (r: Vec<char>)
    ensures
        r@ == dec_str(v as int),
{
    let mut out: Vec<char> = Vec::new();
    if v < 0 {
        out.push('-');
        let m: i64 = -(v as i64);
        assert(m as u64 as nat == -(v as int)) by (bit_vector)
            requires m == -(v as i64) && v < 0;
        push_dec_digits(m as u64, &mut out);
        assert(out@ =~= dec_str(v as int));
    } else {
        push_dec_digits(v as u64, &mut out);
        assert(out@ =~= dec_str(v as int));
    }
    out
}

/// The rendering of a boolean field: the literal `true` or `false`.
pub open spec fn bool_str(b: bool) -> Seq<char> {
    if b {
        "true"@
    } else {
        "false"@
    }
}

/// The rendering of the exit-code field: the decimal code, or the empty
/// field where no code could be obtained.
pub open spec fn code_str(c: Option<i32>) -> Seq<char> {
    match c {
        Option::None => Seq::empty(),
        Option::Some(v) => dec_str(v as int),
    }
}

/// The six fields of one data row, in column order.
pub open spec fn status_fields(path: Seq<char>, s: Status) -> Seq<Seq<char>> {
    seq![path, s.name@, code_str(s.command_status), s.branch@, bool_str(s.clean), s.changes@]
}

/// One data row of the report.
pub open spec fn row_line(path: Seq<char>, s: Status) -> Seq<char> {
    csv_line(status_fields(path, s))
}

/// The fixed column names of the header row.
pub open spec fn header_fields() -> Seq<Seq<char>> {
    seq!["path"@, "name"@, "command_status"@, "branch"@, "clean"@, "changes"@]
}

/// The header row of the report.
pub open spec fn header_line() -> Seq<char> {
    csv_line(header_fields())
}

/// The data rows of the report, in discovery order.
pub open spec fn rows_lines(rows: Seq<(Seq<char>, Status)>) -> Seq<char>
    decreases rows.len(),
{
    if rows.len() == 0 {
        Seq::empty()
    } else {
        rows_lines(rows.drop_last()) + row_line(rows.last().0, rows.last().1)
    }
}

/// The whole report: the header row, then one row per repository.
pub open spec fn report_text(rows: Seq<(Seq<char>, Status)>) -> Seq<char> {
    header_line() + rows_lines(rows)
}

/// The view of the rendered rows: each path as its characters.
pub open spec fn row_views(rows: Seq<(String, Status)>) -> Seq<(Seq<char>, Status)> {
    rows.map_values(|t: (String, Status)| (t.0@, t.1))
}

/// The header row, rendered.
pub fn render_header() -> (r: String)
    ensures
        r@ == header_line(),
{
    let mut fields: Vec<String> = Vec::new();
    fields.push(String::from_str("path"));
    fields.push(String::from_str("name"));
    fields.push(String::from_str("command_status"));
    fields.push(String::from_str("branch"));
    fields.push(String::from_str("clean"));
    fields.push(String::from_str("changes"));
    assert(fields.deep_view() =~= header_fields());
    csv_encode_record(&fields)
}

/// One data row, rendered from a repository path and its status.
pub fn render_row(path: &String, status: &Status) -> (r: String)
    ensures
        r@ == row_line(path@, *status),
{
    let mut fields: Vec<String> = Vec::new();
    fields.push(path.clone());
    fields.push(status.name.clone());
    match status.command_status {
        Option::Some(v) => {
            let digits = i32_dec_chars(v);
            fields.push(string_from_chars(&digits));
        },
        Option::None => {
            fields.push(String::new());
        },
    }
    fields.push(status.branch.clone());
    if status.clean {
        fields.push(String::from_str("true"));
    } else {
        fields.push(String::from_str("false"));
    }
    fields.push(status.changes.clone());
    assert(fields.deep_view() =~= status_fields(path@, *status));
    csv_encode_record(&fields)
}

/// The whole report, rendered: the header row, then one row per repository,
/// in order.
pub fn render_report(rows: &Vec<(String, Status)>) -> (r: String)
    ensures
        r@ == report_text(row_views(rows@)),
{
    let mut out = render_header();
    let n = rows.len();
    let mut i: usize = 0;
    assert(out@ =~= header_line() + rows_lines(row_views(rows@).take(0)));
    while i < n
        invariant
            0 <= i <= n,
            n == rows@.len(),
            out@ == header_line() + rows_lines(row_views(rows@).take(i as int)),
        decreases n - i,
    {
        let pair = &rows[i];
        let line = render_row(&pair.0, &pair.1);
        out.append(line.as_str());
        proof {
            let rv = row_views(rows@);
            assert(rv.take(i + 1).drop_last() =~= rv.take(i as int));
            assert(rv.take(i + 1).last() == rv[i as int]);
            assert(rv[i as int] == (rows@[i as int].0@, rows@[i as int].1));
            assert(out@ =~= header_line() + rows_lines(rv.take(i + 1)));
        }
        i = i + 1;
    }
    assert(row_views(rows@).take(n as int) =~= row_views(rows@));
    out
}

/// A report over no repositories is exactly the header row and nothing else.
pub proof fn lemma_empty_report_is_header()
    ensures
        report_text(Seq::empty()) == header_line(),
{
    assert(header_line() + rows_lines(Seq::empty()) =~= header_line());
}

} // verus!
