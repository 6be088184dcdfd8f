use vstd::prelude::*;
use vstd::slice::{slice_subrange, slice_to_vec};
use crate::decimal::{Decimal, decimal_of, is_digit, parse_decimal};
use crate::text::{
    chars_of, lines_of, split_lines, split_tokens, string_of, tokens_of,
    views_of,
};

verus! {

/// Lines at the top of the bulletin block that hold metadata and column headers.
pub const HEADER_LINES: usize = 7;

/// Where each field stands among the tokens of a row.
pub const DATE_COLUMN: usize = 0;
pub const TIME_COLUMN: usize = 1;
pub const DEPTH_COLUMN: usize = 4;
pub const MAGNITUDE_COLUMN: usize = 6;
pub const DISTRICT_COLUMN: usize = 8;
pub const PROVINCE_COLUMN: usize = 9;

/// A field of a row that is converted to a typed value.
#[derive(Clone, Copy, Debug, PartialEq, Eq, Structural)]
pub enum Column {
    Date,
    Time,
    Depth,
    Magnitude,
}

/// The bulletin is not laid out as expected, or holds too little.
#[derive(Clone, Copy, Debug, PartialEq, Eq, Structural)]
pub enum StructureError {
    /// The page has no preformatted block.
    MissingBlock,
    /// The block has fewer lines than its header takes.
    TooFewLines { lines: usize },
    /// More rows were asked for than the block holds.
    TooFewRows { requested: usize, available: usize },
    /// A row has fewer tokens than the column layout needs.
    TooFewColumns { row: usize, found: usize },
}

/// Why a bulletin could not be read.
#[derive(Debug)]
pub enum BulletinError {
    /// The page could not be fetched.
    Fetch(String),
    Structure(StructureError),
    /// The token in `column` of data row `row` could not be converted.
    FieldParse { row: usize, column: Column, text: String },
}

pub enum BulletinErrorView {
    Fetch(Seq<char>),
    Structure(StructureError),
    FieldParse { row: nat, column: Column, text: Seq<char> },
}

impl View for BulletinError {
    type V = BulletinErrorView;

    open spec fn view(&self) -> BulletinErrorView {
        match self {
            BulletinError::Fetch(m) => BulletinErrorView::Fetch(m@),
            BulletinError::Structure(s) => BulletinErrorView::Structure(*s),
            BulletinError::FieldParse { row, column, text } => BulletinErrorView::FieldParse {
                row: *row as nat,
                column: *column,
                text: text@,
            },
        }
    }
}

/// One seismic event of the bulletin.
#[derive(Debug)]
pub struct Deprem {
    /// Province, without its parentheses.
    pub il: String,
    /// District.
    pub ilce: String,
    /// Date, as published (day.month.year).
    pub tarih: String,
    /// Time of the event, in whole seconds since the Unix epoch.
    pub saat: i64,
    /// Depth in kilometres.
    pub derinlik: Decimal,
    /// Magnitude.
    pub buyukluk: Decimal,
}

pub struct DepremView {
    pub il: Seq<char>,
    pub ilce: Seq<char>,
    pub tarih: Seq<char>,
    pub saat: i64,
    pub derinlik: Decimal,
    pub buyukluk: Decimal,
}

impl View for Deprem {
    type V = DepremView;

    open spec fn view(&self) -> DepremView {
        DepremView {
            il: self.il@,
            ilce: self.ilce@,
            tarih: self.tarih@,
            saat: self.saat,
            derinlik: self.derinlik,
            buyukluk: self.buyukluk,
        }
    }
}

pub open spec fn result_view(r: Result<Deprem, BulletinError>) -> Result<
    DepremView,
    BulletinErrorView,
> {
    match r {
        Ok(d) => Ok(d@),
        Err(e) => Err(e@),
    }
}

pub open spec fn results_view(r: Result<Vec<Deprem>, BulletinError>) -> Result<
    Seq<DepremView>,
    BulletinErrorView,
> {
    match r {
        Ok(v) => Ok(v@.map_values(|d: Deprem| d@)),
        Err(e) => Err(e@),
    }
}

/// Whether some element of `html` matches `selector`; false where the document cannot be
/// parsed.
pub uninterp spec fn has_match(html: Seq<char>, selector: Seq<char>) -> bool;

/// A timestamp as `timestamp_text` writes it for some date and time of day.
pub open spec fn is_bulletin_timestamp(s: Seq<char>) -> bool {
    exists|d: Seq<char>, t: Seq<char>|
        date_shape(d) && time_shape(t) && s == #[trigger] timestamp_text(d, t)
}

/// The whole seconds since the Unix epoch of the RFC 3339 timestamp `text`; `None` where
/// `text` is not one.
pub uninterp spec fn rfc3339_seconds(text: Seq<char>) -> Option<i64>;

/// Relies on `tl::parse`, `VDom::query_selector` and `Node::inner_html`: the inner HTML of
/// the first node that the selector matches, in document order. Whether a node matches
/// depends on the text alone; the inner HTML is rebuilt from the parsed tags, whose
/// attributes may come out in another order on another call, so nothing is said of it.
#[verifier::external_body]
fn first_inner_html(html: &str, selector: &str) -> (r: Option<String>)
    ensures
        r is Some <==> has_match(html@, selector@),
{
    let dom = tl::parse(html, tl::ParserOptions::default()).ok()?;
    let parser = dom.parser();
    let node = dom.query_selector(selector)?.next()?.get(parser)?;
    Some(node.inner_html(parser).into_owned())
}

/// Relies on `dateparser::parse`, which reads an RFC 3339 timestamp with its UTC offset
/// into a UTC date-time, and on `DateTime::timestamp` for its whole seconds. On text of
/// this shape the parse goes through `Parse::rfc3339` or fails on every branch: the text
/// carries its offset, so neither the local time zone nor the clock plays a part.
#[verifier::external_body]
fn parse_timestamp(text: &str) -> (r: Option<i64>)
    requires
        is_bulletin_timestamp(text@),
    ensures
        r == rfc3339_seconds(text@),
{
    dateparser::parse(text).ok().map(|t| t.timestamp())
}

pub open spec fn all_digits_in(s: Seq<char>, from: int, to: int) -> bool {
    forall|i: int| from <= i < to ==> is_digit(#[trigger] s[i])
}

/// A date written `dd.mm.yyyy`.
pub open spec fn date_shape(d: Seq<char>) -> bool {
    &&& d.len() == 10
    &&& d[2] == '.' && d[5] == '.'
    &&& all_digits_in(d, 0, 2) && all_digits_in(d, 3, 5) && all_digits_in(d, 6, 10)
}

/// A time of day written `hh:mm:ss`, optionally followed by a point and fraction digits.
pub open spec fn time_shape(t: Seq<char>) -> bool {
    &&& t.len() >= 8
    &&& t[2] == ':' && t[5] == ':'
    &&& all_digits_in(t, 0, 2) && all_digits_in(t, 3, 5) && all_digits_in(t, 6, 8)
    &&& t.len() > 8 ==> (t.len() > 9 && t[8] == '.' && all_digits_in(t, 9, t.len() as int))
}

/// The UTC offset of the bulletin's clock, which is Turkish time.
pub open spec fn bulletin_offset() -> Seq<char> {
    seq!['+', '0', '3', ':', '0', '0']
}

/// The RFC 3339 timestamp of a row's date and time of day; the fraction of the second
/// is dropped. Its shape is `dddd-dd-ddTdd:dd:dd+03:00`, with a digit at each `d`.
pub open spec fn timestamp_text(d: Seq<char>, t: Seq<char>) -> Seq<char> {
    d.subrange(6, 10) + seq!['-'] + d.subrange(3, 5) + seq!['-'] + d.subrange(0, 2) + seq!['T']
        + t.subrange(0, 8) + bulletin_offset()
}

/// The province token with one literal `(` in front and `)` at the end removed; a token
/// without both stays as it is.
pub open spec fn strip_parens(t: Seq<char>) -> Seq<char> {
    if t.len() >= 2 && t[0] == '(' && t[t.len() - 1] == ')' {
        t.subrange(1, t.len() - 1)
    } else {
        t
    }
}

pub open spec fn field_error(row: nat, column: Column, text: Seq<char>) -> BulletinErrorView {
    BulletinErrorView::FieldParse { row, column, text }
}

/// What the tokens of data row `row` give, where `seconds` is what reading the row's
/// timestamp gave.
pub open spec fn tokens_outcome(toks: Seq<Seq<char>>, row: nat, seconds: Option<i64>) -> Result<
    DepremView,
    BulletinErrorView,
> {
    if toks.len() <= PROVINCE_COLUMN {
        Err(
            BulletinErrorView::Structure(
                StructureError::TooFewColumns { row: row as usize, found: toks.len() as usize },
            ),
        )
    } else if !date_shape(toks[DATE_COLUMN as int]) {
        Err(field_error(row, Column::Date, toks[DATE_COLUMN as int]))
    } else if !time_shape(toks[TIME_COLUMN as int]) || seconds is None {
        Err(field_error(row, Column::Time, toks[TIME_COLUMN as int]))
    } else if decimal_of(toks[DEPTH_COLUMN as int]) is None {
        Err(field_error(row, Column::Depth, toks[DEPTH_COLUMN as int]))
    } else if decimal_of(toks[MAGNITUDE_COLUMN as int]) is None {
        Err(field_error(row, Column::Magnitude, toks[MAGNITUDE_COLUMN as int]))
    } else {
        Ok(
            DepremView {
                il: strip_parens(toks[PROVINCE_COLUMN as int]),
                ilce: toks[DISTRICT_COLUMN as int],
                tarih: toks[DATE_COLUMN as int],
                saat: seconds.unwrap(),
                derinlik: decimal_of(toks[DEPTH_COLUMN as int]).unwrap(),
                buyukluk: decimal_of(toks[MAGNITUDE_COLUMN as int]).unwrap(),
            },
        )
    }
}

/// What reading the timestamp of a row with tokens `toks` gives.
pub open spec fn row_seconds(toks: Seq<Seq<char>>) -> Option<i64> {
    if toks.len() > PROVINCE_COLUMN && date_shape(toks[DATE_COLUMN as int]) && time_shape(
        toks[TIME_COLUMN as int],
    ) {
        rfc3339_seconds(timestamp_text(toks[DATE_COLUMN as int], toks[TIME_COLUMN as int]))
    } else {
        None
    }
}

/// What data row `row`, with text `line`, gives.
pub open spec fn row_outcome(line: Seq<char>, row: nat) -> Result<DepremView, BulletinErrorView> {
    tokens_outcome(tokens_of(line), row, row_seconds(tokens_of(line)))
}

/// Whether `s` holds digits at every position from `from` up to `to`.
fn digits_in(s: &Vec<char>, from: usize, to: usize) -> (r: bool)
    requires
        from <= to <= s@.len(),
    ensures
        r == all_digits_in(s@, from as int, to as int),
{
    let mut i = from;
    while i < to
        invariant
            from <= i <= to <= s@.len(),
            all_digits_in(s@, from as int, i as int),
        decreases to - i,
    {
        let c = s[i];
        if !('0' <= c && c <= '9') {
            return false;
        }
        i = i + 1;
    }
    true
}

fn is_date(d: &Vec<char>) -> (r: bool)
    ensures
        r == date_shape(d@),
{
    d.len() == 10 && d[2] == '.' && d[5] == '.' && digits_in(d, 0, 2) && digits_in(d, 3, 5)
        && digits_in(d, 6, 10)
}

fn is_time(t: &Vec<char>) -> (r: bool)
    ensures
        r == time_shape(t@),
{
    if t.len() < 8 || t[2] != ':' || t[5] != ':' || !digits_in(t, 0, 2) || !digits_in(t, 3, 5)
        || !digits_in(t, 6, 8) {
        return false;
    }
    t.len() == 8 || (t.len() > 9 && t[8] == '.' && digits_in(t, 9, t.len()))
}

/// Appends the characters of `src` from `from` up to `to` to `out`.
fn push_range(out: &mut Vec<char>, src: &Vec<char>, from: usize, to: usize)
    requires
        from <= to <= src@.len(),
    ensures
        final(out)@ == old(out)@ + src@.subrange(from as int, to as int),
{
    let mut i = from;
    while i < to
        invariant
            from <= i <= to <= src@.len(),
            out@ == old(out)@ + src@.subrange(from as int, i as int),
        decreases to - i,
    {
        out.push(src[i]);
        assert(src@.subrange(from as int, i + 1) =~= src@.subrange(from as int, i as int).push(
            src@[i as int],
        ));
        i = i + 1;
    }
}

fn make_timestamp(d: &Vec<char>, t: &Vec<char>) -> (r: Vec<char>)
    requires
        date_shape(d@),
        time_shape(t@),
    ensures
        r@ == timestamp_text(d@, t@),
{
    let mut out: Vec<char> = Vec::new();
    push_range(&mut out, d, 6, 10);
    out.push('-');
    push_range(&mut out, d, 3, 5);
    out.push('-');
    push_range(&mut out, d, 0, 2);
    out.push('T');
    push_range(&mut out, t, 0, 8);
    out.push('+');
    out.push('0');
    out.push('3');
    out.push(':');
    out.push('0');
    out.push('0');
    assert(out@ =~= timestamp_text(d@, t@));
    out
}

fn strip_province(t: &Vec<char>) -> (r: Vec<char>)
    ensures
        r@ == strip_parens(t@),
{
    let n = t.len();
    if n >= 2 && t[0] == '(' && t[n - 1] == ')' {
        slice_to_vec(slice_subrange(t.as_slice(), 1, n - 1))
    } else {
        slice_to_vec(t.as_slice())
    }
}

fn field_err(row: usize, column: Column, text: &Vec<char>) -> (r: BulletinError)
    ensures
        r@ == field_error(row as nat, column, text@),
{
    BulletinError::FieldParse { row, column, text: string_of(text) }
}

/// What rows `rows` give, each parsed as data row of its index: the events in order, or
/// the error of the first row that fails.
pub open spec fn rows_outcome(rows: Seq<Seq<char>>) -> Result<Seq<DepremView>, BulletinErrorView>
    decreases rows.len(),
{
    if rows.len() == 0 {
        Ok(seq![])
    } else {
        match rows_outcome(rows.drop_last()) {
            Err(e) => Err(e),
            Ok(evs) => match row_outcome(rows.last(), (rows.len() - 1) as nat) {
                Err(e) => Err(e),
                Ok(ev) => Ok(evs.push(ev)),
            },
        }
    }
}

pub open spec fn structure_error(e: StructureError) -> BulletinErrorView {
    BulletinErrorView::Structure(e)
}

/// What the first `count` data rows of the bulletin block `block` give.
pub open spec fn block_outcome(block: Seq<char>, count: nat) -> Result<
    Seq<DepremView>,
    BulletinErrorView,
> {
    let lines = lines_of(block);
    if lines.len() < HEADER_LINES {
        Err(structure_error(StructureError::TooFewLines { lines: lines.len() as usize }))
    } else if count > lines.len() - HEADER_LINES {
        Err(
            structure_error(
                StructureError::TooFewRows {
                    requested: count as usize,
                    available: (lines.len() - HEADER_LINES) as usize,
                },
            ),
        )
    } else {
        rows_outcome(lines.subrange(HEADER_LINES as int, HEADER_LINES + count))
    }
}

/// What the first data row of the bulletin block `block` gives.
pub open spec fn latest_in_block(block: Seq<char>) -> Result<DepremView, BulletinErrorView> {
    let lines = lines_of(block);
    if lines.len() < HEADER_LINES {
        Err(structure_error(StructureError::TooFewLines { lines: lines.len() as usize }))
    } else if lines.len() == HEADER_LINES {
        Err(structure_error(StructureError::TooFewRows { requested: 1, available: 0 }))
    } else {
        row_outcome(lines[HEADER_LINES as int], 0)
    }
}

/// The selector of the element that holds the bulletin.
pub open spec fn block_selector() -> Seq<char> {
    seq!['p', 'r', 'e']
}

pub open spec fn first_event(r: Result<Seq<DepremView>, BulletinErrorView>) -> Result<
    DepremView,
    BulletinErrorView,
> {
    match r {
        Ok(evs) => Ok(evs[0]),
        Err(e) => Err(e),
    }
}

/// Where `rows` all parse, they give one event each.
proof fn lemma_rows_len(rows: Seq<Seq<char>>)
    ensures
        rows_outcome(rows) is Ok ==> rows_outcome(rows)->Ok_0.len() == rows.len(),
    decreases rows.len(),
{
    if rows.len() > 0 {
        lemma_rows_len(rows.drop_last());
    }
}

/// No row gives the error of a page without a bulletin block.
proof fn lemma_rows_not_missing(rows: Seq<Seq<char>>)
    ensures
        rows_outcome(rows) != Err::<Seq<DepremView>, BulletinErrorView>(
            structure_error(StructureError::MissingBlock),
        ),
    decreases rows.len(),
{
    if rows.len() > 0 {
        lemma_rows_not_missing(rows.drop_last());
    }
}

/// A block that gives events gives as many as were asked for, and never the error of a
/// page without a block.
pub proof fn lemma_block_outcome_len(block: Seq<char>, count: nat)
    ensures
        block_outcome(block, count) is Ok ==> block_outcome(block, count)->Ok_0.len() == count,
        block_outcome(block, count) != Err::<Seq<DepremView>, BulletinErrorView>(
            structure_error(StructureError::MissingBlock),
        ),
{
    let lines = lines_of(block);
    if lines.len() >= HEADER_LINES + count {
        let rows = lines.subrange(HEADER_LINES as int, HEADER_LINES + count);
        lemma_rows_len(rows);
        lemma_rows_not_missing(rows);
    }
}

/// Once a prefix of `rows` fails, all of `rows` fails with the same error.
proof fn lemma_rows_err_extends(rows: Seq<Seq<char>>, p: nat)
    requires
        p <= rows.len(),
        rows_outcome(rows.subrange(0, p as int)) is Err,
    ensures
        rows_outcome(rows) == rows_outcome(rows.subrange(0, p as int)),
    decreases rows.len() - p,
{
    if p < rows.len() {
        assert(rows.subrange(0, p + 1 as int).drop_last() =~= rows.subrange(0, p as int));
        lemma_rows_err_extends(rows, p + 1);
    } else {
        assert(rows.subrange(0, p as int) =~= rows);
    }
}

/// Where every row parses, `rows` gives one event per row, in order.
proof fn lemma_rows_all_ok(rows: Seq<Seq<char>>)
    requires
        forall|i: int| 0 <= i < rows.len() ==> (#[trigger] row_outcome(rows[i], i as nat)) is Ok,
    ensures
        rows_outcome(rows) is Ok,
        rows_outcome(rows)->Ok_0.len() == rows.len(),
        forall|i: int|
            0 <= i < rows.len() ==> rows_outcome(rows)->Ok_0[i] == (#[trigger] row_outcome(
                rows[i],
                i as nat,
            ))->Ok_0,
    decreases rows.len(),
{
    if rows.len() > 0 {
        let init = rows.drop_last();
        assert forall|i: int| 0 <= i < init.len() implies (#[trigger] row_outcome(
            init[i],
            i as nat,
        )) is Ok by {
            assert(init[i] == rows[i]);
        }
        lemma_rows_all_ok(init);
        assert(row_outcome(rows[rows.len() - 1], (rows.len() - 1) as nat) is Ok);
        assert forall|i: int| 0 <= i < rows.len() implies rows_outcome(rows)->Ok_0[i] == (
        #[trigger] row_outcome(rows[i], i as nat))->Ok_0 by {
            if i < init.len() {
                assert(init[i] == rows[i]);
            }
        }
    }
}

/// For a bulletin block with its header and at least `n` data rows, each of which parses,
/// asking for `n` events gives exactly `n`, the one of each row in the order of the rows.
pub proof fn lemma_latest_n_in_order(block: Seq<char>, n: nat)
    requires
        lines_of(block).len() >= HEADER_LINES + n,
        forall|i: int|
            0 <= i < n ==> (#[trigger] row_outcome(lines_of(block)[HEADER_LINES + i], i as nat))
                is Ok,
    ensures
        block_outcome(block, n) is Ok,
        block_outcome(block, n)->Ok_0.len() == n,
        forall|i: int|
            0 <= i < n ==> block_outcome(block, n)->Ok_0[i] == (#[trigger] row_outcome(
                lines_of(block)[HEADER_LINES + i],
                i as nat,
            ))->Ok_0,
{
    let lines = lines_of(block);
    let rows = lines.subrange(HEADER_LINES as int, HEADER_LINES + n);
    assert forall|i: int| 0 <= i < rows.len() implies (#[trigger] row_outcome(
        rows[i],
        i as nat,
    )) is Ok by {
        assert(rows[i] == lines[HEADER_LINES + i]);
        assert(row_outcome(lines[HEADER_LINES + i], i as nat) is Ok);
    }
    lemma_rows_all_ok(rows);
    assert forall|i: int| 0 <= i < n implies block_outcome(block, n)->Ok_0[i] == (
    #[trigger] row_outcome(lines_of(block)[HEADER_LINES + i], i as nat))->Ok_0 by {
        assert(rows[i] == lines[HEADER_LINES + i]);
        assert(row_outcome(rows[i], i as nat) == row_outcome(lines[HEADER_LINES + i], i as nat));
    }
}

/// Asking a bulletin block for its latest event gives the same as asking it for one
/// event: the same event, or the same error.
pub proof fn lemma_latest_is_first_of_one(block: Seq<char>)
    ensures
        latest_in_block(block) == first_event(block_outcome(block, 1)),
{
    let lines = lines_of(block);
    if lines.len() > HEADER_LINES {
        let rows = lines.subrange(HEADER_LINES as int, HEADER_LINES + 1);
        assert(rows.drop_last() =~= Seq::<Seq<char>>::empty());
        assert(rows_outcome(Seq::<Seq<char>>::empty()) == Ok::<
            Seq<DepremView>,
            BulletinErrorView,
        >(seq![]));
        assert(rows.last() == lines[HEADER_LINES as int]);
        match row_outcome(lines[HEADER_LINES as int], 0) {
            Ok(ev) => {
                assert(seq![].push(ev)[0] == ev);
            },
            Err(_) => {},
        }
    }
}

impl Deprem {
    /// Builds the event of data row `row` from its tokens, where `seconds` is what reading
    /// the row's timestamp gave.
    pub fn from_tokens(tokens: &Vec<Vec<char>>, row: usize, seconds: Option<i64>) -> (r: Result<
        Deprem,
        BulletinError,
    >)
        ensures
            result_view(r) == tokens_outcome(views_of(tokens@), row as nat, seconds),
    {
        let ghost toks = views_of(tokens@);
        assert(toks.len() == tokens@.len());
        if tokens.len() <= PROVINCE_COLUMN {
            return Err(
                BulletinError::Structure(
                    StructureError::TooFewColumns { row, found: tokens.len() },
                ),
            );
        }
        assert(forall|i: int| 0 <= i < tokens@.len() ==> toks[i] == tokens@[i]@);
        let date = &tokens[DATE_COLUMN];
        let time = &tokens[TIME_COLUMN];
        if !is_date(date) {
            return Err(field_err(row, Column::Date, date));
        }
        if !is_time(time) {
            return Err(field_err(row, Column::Time, time));
        }
        let saat = match seconds {
            Some(v) => v,
            None => {
                return Err(field_err(row, Column::Time, time));
            },
        };
        let derinlik = match parse_decimal(&tokens[DEPTH_COLUMN]) {
            Some(v) => v,
            None => {
                return Err(field_err(row, Column::Depth, &tokens[DEPTH_COLUMN]));
            },
        };
        let buyukluk = match parse_decimal(&tokens[MAGNITUDE_COLUMN]) {
            Some(v) => v,
            None => {
                return Err(field_err(row, Column::Magnitude, &tokens[MAGNITUDE_COLUMN]));
            },
        };
        let il = string_of(&strip_province(&tokens[PROVINCE_COLUMN]));
        let ilce = string_of(&tokens[DISTRICT_COLUMN]);
        let tarih = string_of(date);
        Ok(Deprem { il, ilce, tarih, saat, derinlik, buyukluk })
    }

    /// Parses data row `row`, whose text is `line`.
    pub fn parse_row(line: &str, row: usize) -> (r: Result<Deprem, BulletinError>)
        ensures
            result_view(r) == row_outcome(line@, row as nat),
    {
        Deprem::parse_line(&chars_of(line), row)
    }

    fn parse_line(line: &Vec<char>, row: usize) -> (r: Result<Deprem, BulletinError>)
        ensures
            result_view(r) == row_outcome(line@, row as nat),
    {
        let tokens = split_tokens(line);
        let ghost toks = views_of(tokens@);
        let mut seconds: Option<i64> = None;
        if tokens.len() > PROVINCE_COLUMN {
            assert(toks[0] == tokens@[0]@ && toks[1] == tokens@[1]@);
            if is_date(&tokens[DATE_COLUMN]) && is_time(&tokens[TIME_COLUMN]) {
                let stamp = string_of(&make_timestamp(&tokens[DATE_COLUMN], &tokens[TIME_COLUMN]));
                assert(date_shape(tokens@[0]@) && time_shape(tokens@[1]@) && stamp@
                    == timestamp_text(tokens@[0]@, tokens@[1]@));
                seconds = parse_timestamp(stamp.as_str());
            }
        }
        Deprem::from_tokens(&tokens, row, seconds)
    }

    /// The first `count` events of the bulletin block `block`, most recent first.
    pub fn from_block(block: &str, count: usize) -> (r: Result<Vec<Deprem>, BulletinError>)
        ensures
            results_view(r) == block_outcome(block@, count as nat),
    {
        let lines = split_lines(&chars_of(block));
        let ghost lv = views_of(lines@);
        if lines.len() < HEADER_LINES {
            return Err(
                BulletinError::Structure(StructureError::TooFewLines { lines: lines.len() }),
            );
        }
        if count > lines.len() - HEADER_LINES {
            return Err(
                BulletinError::Structure(
                    StructureError::TooFewRows {
                        requested: count,
                        available: lines.len() - HEADER_LINES,
                    },
                ),
            );
        }
        let ghost rows = lv.subrange(HEADER_LINES as int, HEADER_LINES + count);
        let mut out: Vec<Deprem> = Vec::new();
        let mut i: usize = 0;
        assert(rows.subrange(0, 0) =~= Seq::<Seq<char>>::empty());
        assert(out@.map_values(|d: Deprem| d@) =~= Seq::<DepremView>::empty());
        while i < count
            invariant
                i <= count,
                HEADER_LINES + count <= lines@.len(),
                lv == views_of(lines@),
                lv == lines_of(block@),
                lines@.len() <= usize::MAX,
                rows == lv.subrange(HEADER_LINES as int, HEADER_LINES + count),
                rows_outcome(rows.subrange(0, i as int)) == Ok::<
                    Seq<DepremView>,
                    BulletinErrorView,
                >(out@.map_values(|d: Deprem| d@)),
            decreases count - i,
        {
            let ghost pre = rows.subrange(0, i as int);
            let ghost next = rows.subrange(0, i + 1);
            assert(next.drop_last() =~= pre);
            assert(next.last() == rows[i as int]);
            assert(rows[i as int] == lv[HEADER_LINES + i]);
            assert(lv[HEADER_LINES + i] == lines@[HEADER_LINES + i]@);
            match Deprem::parse_line(&lines[HEADER_LINES + i], i) {
                Err(e) => {
                    proof {
                        assert(rows_outcome(next) == Err::<Seq<DepremView>, BulletinErrorView>(
                            e@,
                        ));
                        lemma_rows_err_extends(rows, (i + 1) as nat);
                        assert(rows.subrange(0, rows.len() as int) =~= rows);
                    }
                    return Err(e);
                },
                Ok(ev) => {
                    let ghost old_out = out@;
                    out.push(ev);
                    assert(out@.map_values(|d: Deprem| d@) =~= old_out.map_values(
                        |d: Deprem| d@,
                    ).push(ev@));
                },
            }
            i = i + 1;
        }
        assert(rows.subrange(0, count as int) =~= rows);
        Ok(out)
    }

    /// The latest event of the bulletin block `block`.
    pub fn latest_from_block(block: &str) -> (r: Result<Deprem, BulletinError>)
        ensures
            result_view(r) == latest_in_block(block@),
    {
        proof {
            lemma_latest_is_first_of_one(block@);
            lemma_block_outcome_len(block@, 1);
        }
        match Deprem::from_block(block, 1) {
            Err(e) => Err(e),
            Ok(mut events) => Ok(events.swap_remove(0)),
        }
    }

    /// The latest `sayi` events of the bulletin page `html`, most recent first: those of the
    /// first preformatted block of the page.
    pub fn en_son_olanlar(html: &str, sayi: usize) -> (r: Result<Vec<Deprem>, BulletinError>)
        ensures
            !has_match(html@, block_selector()) <==> results_view(r) == Err::<
                Seq<DepremView>,
                BulletinErrorView,
            >(structure_error(StructureError::MissingBlock)),
            has_match(html@, block_selector()) ==> exists|b: Seq<char>|
                #[trigger] block_outcome(b, sayi as nat) == results_view(r),
            r is Ok ==> r->Ok_0@.len() == sayi,
    {
        let selector = "pre";
        proof {
            reveal_strlit("pre");
            assert(selector@ =~= block_selector());
        }
        match first_inner_html(html, selector) {
            None => Err(BulletinError::Structure(StructureError::MissingBlock)),
            Some(block) => {
                let r = Deprem::from_block(block.as_str(), sayi);
                proof {
                    lemma_block_outcome_len(block@, sayi as nat);
                    assert(block_outcome(block@, sayi as nat) == results_view(r));
                }
                r
            },
        }
    }

    /// The latest event of the bulletin page `html`: that of the first preformatted block of
    /// the page.
    pub fn en_son_olan(html: &str) -> (r: Result<Deprem, BulletinError>)
        ensures
            !has_match(html@, block_selector()) <==> result_view(r) == Err::<
                DepremView,
                BulletinErrorView,
            >(structure_error(StructureError::MissingBlock)),
            has_match(html@, block_selector()) ==> exists|b: Seq<char>|
                #[trigger] latest_in_block(b) == result_view(r),
    {
        let selector = "pre";
        proof {
            reveal_strlit("pre");
            assert(selector@ =~= block_selector());
        }
        match first_inner_html(html, selector) {
            None => Err(BulletinError::Structure(StructureError::MissingBlock)),
            Some(block) => {
                let r = Deprem::latest_from_block(block.as_str());
                proof {
                    lemma_latest_is_first_of_one(block@);
                    lemma_block_outcome_len(block@, 1);
                    assert(latest_in_block(block@) == result_view(r));
                }
                r
            },
        }
    }
}

} // verus!
