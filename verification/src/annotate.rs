//! How findings reach a human: GitHub Actions workflow-command annotations
//! (which render inline on a pull request's diff) and a markdown job summary.
//!
//! # The escaping is the substance of this module
//!
//! Workflow commands are a line-oriented text protocol
//! (`::warning file=...,line=3::message`), so any `%`, newline, `:` or `,`
//! *inside* a value would otherwise be parsed as protocol syntax rather than
//! content. The escaping is asymmetric: the free-text message needs three
//! characters escaped, but a `key=value` property needs `:` and `,` escaped as
//! well, because those are the property-list delimiters.
//! [`lemma_command_is_one_line`] and [`lemma_escaping_loses_nothing`] state what
//! it is for.

use vstd::prelude::*;
use vstd::string::*;

use crate::sort::views;
use crate::text::{chars_of, decimal, push_decimal, text_between};

verus! {

/// How loudly a finding is rendered.
#[derive(Debug, Clone, Copy, PartialEq, Eq, Structural)]
pub enum Severity {
    /// Informational — surfaced, but does not draw the eye.
    Notice,
    /// Worth a look; does not fail the check by itself.
    Warning,
    /// The change introduced new duplication that must be addressed.
    Error,
}

impl Severity {
    /// The workflow-command name for this severity.
    pub open spec fn name(self) -> Seq<char> {
        match self {
            Severity::Notice => "notice"@,
            Severity::Warning => "warning"@,
            Severity::Error => "error"@,
        }
    }

    /// The workflow-command name for this severity (`::notice`, `::warning`,
    /// `::error`).
    fn command(self) -> (s: &'static str)
        ensures
            s@ == self.name(),
    {
        match self {
            Severity::Notice => "notice",
            Severity::Warning => "warning",
            Severity::Error => "error",
        }
    }
}

// ----------------------------------------------------------------------- escaping

/// A character as it stands in a message, or in a property value.
pub open spec fn escaped_char(c: char, property: bool) -> Seq<char> {
    if c == '%' {
        seq!['%', '2', '5']
    } else if c == '\r' {
        seq!['%', '0', 'D']
    } else if c == '\n' {
        seq!['%', '0', 'A']
    } else if property && c == ':' {
        seq!['%', '3', 'A']
    } else if property && c == ',' {
        seq!['%', '2', 'C']
    } else {
        seq![c]
    }
}

/// A text as it stands in a message, or in a property value.
pub open spec fn escaped(s: Seq<char>, property: bool) -> Seq<char>
    decreases s.len(),
{
    if s.len() == 0 {
        Seq::empty()
    } else {
        escaped(s.drop_last(), property) + escaped_char(s.last(), property)
    }
}

fn push_escaped(out: &mut String, s: &str, property: bool)
    ensures
        final(out)@ == old(out)@ + escaped(s@, property),
{
    let chars = chars_of(s);
    let mut i: usize = 0;
    assert(s@.take(0) =~= Seq::empty());
    assert(out@ + Seq::empty() =~= out@);
    while i < chars.len()
        invariant
            i <= chars@.len(),
            chars@ == s@,
            out@ == old(out)@ + escaped(s@.take(i as int), property),
        decreases chars.len() - i,
    {
        let c: char = chars[i];
        let ghost before = out@;
        if c == '%' {
            out.push('%');
            out.push('2');
            out.push('5');
        } else if c == '\r' {
            out.push('%');
            out.push('0');
            out.push('D');
        } else if c == '\n' {
            out.push('%');
            out.push('0');
            out.push('A');
        } else if property && c == ':' {
            out.push('%');
            out.push('3');
            out.push('A');
        } else if property && c == ',' {
            out.push('%');
            out.push('2');
            out.push('C');
        } else {
            out.push(c);
        }
        proof {
            assert(out@ =~= before + escaped_char(c, property));
            assert(s@.take(i + 1).drop_last() =~= s@.take(i as int));
            assert(out@ =~= old(out)@ + escaped(s@.take(i + 1), property));
        }
        i += 1;
    }
    assert(s@.take(i as int) =~= s@);
}

/// Escape a workflow-command **message** (the free-text part after `::`).
pub fn escape_message(s: &str) -> (out: String)
    ensures
        out@ == escaped(s@, false),
{
    let mut out = String::new();
    push_escaped(&mut out, s, false);
    assert(out@ =~= escaped(s@, false));
    out
}

/// Escape a workflow-command **property value** (`file=`, `title=`, …).
///
/// Same three substitutions as [`escape_message`], plus `:` and `,`, because
/// those two characters delimit the property list itself and are not otherwise
/// special in the message.
pub fn escape_property(s: &str) -> (out: String)
    ensures
        out@ == escaped(s@, true),
{
    let mut out = String::new();
    push_escaped(&mut out, s, true);
    assert(out@ =~= escaped(s@, true));
    out
}

// --------------------------------------------------------------------- annotations

/// What an annotation holds.
#[verifier::ext_equal]
pub struct AnnotationView {
    /// How loudly this finding is rendered.
    pub severity: Severity,
    /// Path to the file the finding is about.
    pub file: Seq<char>,
    /// First affected line, if known.
    pub start_line: Option<usize>,
    /// Last affected line, if known and different.
    pub end_line: Option<usize>,
    /// Short title shown above the message.
    pub title: Option<Seq<char>>,
    /// The finding itself.
    pub message: Seq<char>,
}

/// One finding, located in a file.
#[derive(Debug, PartialEq, Eq)]
pub struct Annotation {
    /// How loudly this finding is rendered.
    pub severity: Severity,
    /// Path to the file the finding is about, relative to the repo root.
    pub file: String,
    /// First affected line, if known.
    pub start_line: Option<usize>,
    /// Last affected line, if known and different from `start_line`.
    pub end_line: Option<usize>,
    /// Short title shown above the message.
    pub title: Option<String>,
    /// The finding itself. May be multi-line.
    pub message: String,
}

impl View for Annotation {
    type V = AnnotationView;

    open spec fn view(&self) -> AnnotationView {
        AnnotationView {
            severity: self.severity,
            file: self.file@,
            start_line: self.start_line,
            end_line: self.end_line,
            title: match self.title {
                Some(t) => Some(t@),
                None => None,
            },
            message: self.message@,
        }
    }
}

impl Clone for Annotation {
    fn clone(&self) -> (a: Self)
        ensures
            a@ == self@,
    {
        Annotation {
            severity: self.severity,
            file: self.file.clone(),
            start_line: self.start_line,
            end_line: self.end_line,
            title: match &self.title {
                Some(t) => Some(t.clone()),
                None => None,
            },
            message: self.message.clone(),
        }
    }
}

/// A warning at a place.
pub open spec fn warning_at(
    file: Seq<char>,
    line: Option<usize>,
    message: Seq<char>,
) -> AnnotationView {
    AnnotationView {
        severity: Severity::Warning,
        file,
        start_line: line,
        end_line: None,
        title: None,
        message,
    }
}

impl AnnotationView {
    /// The line of a property list that a number gives, if there is one.
    pub open spec fn number_property(key: Seq<char>, n: Option<usize>) -> Seq<char> {
        match n {
            Some(n) => key + decimal(n as nat),
            None => Seq::empty(),
        }
    }

    /// The title's part of a property list, if there is one.
    pub open spec fn title_property(self) -> Seq<char> {
        match self.title {
            Some(t) => ",title="@ + escaped(t, true),
            None => Seq::empty(),
        }
    }

    /// The workflow command of an annotation.
    pub open spec fn command(self) -> Seq<char> {
        "::"@ + self.severity.name() + " file="@ + escaped(self.file, true)
            + AnnotationView::number_property(",line="@, self.start_line)
            + AnnotationView::number_property(",endLine="@, self.end_line) + self.title_property()
            + "::"@ + escaped(self.message, false)
    }
}

impl Annotation {
    /// Build a [`Severity::Warning`] annotation — the common case for a
    /// duplication finding, which blocks nothing but should be seen.
    pub fn warning(file: String, line: Option<usize>, message: String) -> (a: Self)
        ensures
            a@ == warning_at(file@, line, message@),
    {
        Annotation {
            severity: Severity::Warning,
            file,
            start_line: line,
            end_line: None,
            title: None,
            message,
        }
    }

    /// Render as a GitHub Actions workflow command: a single line, regardless
    /// of how many newlines `message` contains, because the runner's log
    /// parser treats each *line* of stdout as one (possible) command.
    pub fn to_workflow_command(&self) -> (s: String)
        ensures
            s@ == self@.command(),
    {
        let mut s = "::".to_owned();
        s.append(self.severity.command());
        s.append(" file=");
        s.append(escape_property(self.file.as_str()).as_str());
        if let Some(line) = self.start_line {
            s.append(",line=");
            push_decimal(&mut s, line as u128);
        }
        let ghost one = "::"@ + self.severity.name() + " file="@ + escaped(self.file@, true)
            + AnnotationView::number_property(",line="@, self.start_line);
        assert(s@ =~= one);
        if let Some(end_line) = self.end_line {
            s.append(",endLine=");
            push_decimal(&mut s, end_line as u128);
        }
        let ghost two = one + AnnotationView::number_property(",endLine="@, self.end_line);
        assert(s@ =~= two);
        if let Some(title) = &self.title {
            s.append(",title=");
            s.append(escape_property(title.as_str()).as_str());
        }
        assert(s@ =~= two + self@.title_property());
        s.append("::");
        s.append(escape_message(self.message.as_str()).as_str());
        s
    }
}

// ------------------------------------------------------------------------- summary

/// What a block of a summary holds.
pub enum PieceView {
    /// A heading.
    Heading(nat, Seq<char>),
    /// A paragraph.
    Paragraph(Seq<char>),
    /// A bullet-list item.
    Bullet(Seq<char>),
    /// A table.
    Table(Seq<Seq<char>>, Seq<Seq<Seq<char>>>),
}

/// One block of a [`Summary`] under construction.
///
/// Kept as structured pieces rather than pre-rendered strings so `is_empty`
/// doesn't need to re-parse rendered markdown to answer "was anything added".
#[derive(Debug, Clone, PartialEq, Eq)]
pub enum Piece {
    /// A heading of a level.
    Heading(usize, String),
    /// A paragraph.
    Paragraph(String),
    /// A bullet-list item.
    Bullet(String),
    /// A table: its headers, and its rows.
    Table(Vec<String>, Vec<Vec<String>>),
}

/// The cells of a list of rows.
pub open spec fn cells(rows: Seq<Vec<String>>) -> Seq<Seq<Seq<char>>> {
    Seq::new(rows.len(), |i: int| views(rows[i]@))
}

impl View for Piece {
    type V = PieceView;

    open spec fn view(&self) -> PieceView {
        match *self {
            Piece::Heading(level, text) => PieceView::Heading(level as nat, text@),
            Piece::Paragraph(text) => PieceView::Paragraph(text@),
            Piece::Bullet(text) => PieceView::Bullet(text@),
            Piece::Table(headers, rows) => PieceView::Table(views(headers@), cells(rows@)),
        }
    }
}

/// A text with every pipe escaped.
pub open spec fn piped(s: Seq<char>) -> Seq<char>
    decreases s.len(),
{
    if s.len() == 0 {
        Seq::empty()
    } else {
        piped(s.drop_last()) + if s.last() == '|' {
            seq!['\\', '|']
        } else {
            seq![s.last()]
        }
    }
}

/// The cells of a row, each with its closing pipe.
pub open spec fn row_cells(row: Seq<Seq<char>>) -> Seq<char>
    decreases row.len(),
{
    if row.len() == 0 {
        Seq::empty()
    } else {
        row_cells(row.drop_last()) + " "@ + piped(row.last()) + " |"@
    }
}

/// The row between the headers and the rest.
pub open spec fn rule_cells(n: nat) -> Seq<char>
    decreases n,
{
    if n == 0 {
        Seq::empty()
    } else {
        rule_cells((n - 1) as nat) + " --- |"@
    }
}

/// The rows of a table, one per line.
pub open spec fn row_lines(rows: Seq<Seq<Seq<char>>>) -> Seq<char>
    decreases rows.len(),
{
    if rows.len() == 0 {
        Seq::empty()
    } else {
        row_lines(rows.drop_last()) + "|"@ + row_cells(rows.last()) + "\n"@
    }
}

/// A markdown table.
pub open spec fn table_text(headers: Seq<Seq<char>>, rows: Seq<Seq<Seq<char>>>) -> Seq<char> {
    "|"@ + row_cells(headers) + "\n"@ + "|"@ + rule_cells(headers.len()) + "\n"@ + row_lines(rows)
}

/// The marks of a heading.
pub open spec fn hashes(n: nat) -> Seq<char> {
    Seq::new(n, |i: int| '#')
}

impl PieceView {
    /// A block in markdown.
    pub open spec fn text(self) -> Seq<char> {
        match self {
            PieceView::Heading(level, text) => hashes(level) + " "@ + text + "\n\n"@,
            PieceView::Paragraph(text) => text + "\n\n"@,
            PieceView::Bullet(text) => "- "@ + text + "\n"@,
            PieceView::Table(headers, rows) => table_text(headers, rows) + "\n"@,
        }
    }
}

/// The blocks in markdown, one after the other.
pub open spec fn pieces_text(pieces: Seq<PieceView>) -> Seq<char>
    decreases pieces.len(),
{
    if pieces.len() == 0 {
        Seq::empty()
    } else {
        pieces_text(pieces.drop_last()) + pieces.last().text()
    }
}

/// A text without the line feeds at its end.
pub open spec fn unended(s: Seq<char>) -> Seq<char>
    decreases s.len(),
{
    if s.len() > 0 && s.last() == '\n' {
        unended(s.drop_last())
    } else {
        s
    }
}

/// A document: one line feed at its end, unless there is nothing in it.
pub open spec fn document(s: Seq<char>) -> Seq<char> {
    if unended(s).len() == 0 {
        Seq::empty()
    } else {
        unended(s).push('\n')
    }
}

fn push_piped(out: &mut String, s: &str)
    ensures
        final(out)@ == old(out)@ + piped(s@),
{
    let chars = chars_of(s);
    let mut i: usize = 0;
    assert(s@.take(0) =~= Seq::empty());
    assert(out@ + Seq::empty() =~= out@);
    while i < chars.len()
        invariant
            i <= chars@.len(),
            chars@ == s@,
            out@ == old(out)@ + piped(s@.take(i as int)),
        decreases chars.len() - i,
    {
        let c: char = chars[i];
        if c == '|' {
            out.push('\\');
        }
        out.push(c);
        proof {
            assert(s@.take(i + 1).drop_last() =~= s@.take(i as int));
            assert(out@ =~= old(out)@ + piped(s@.take(i + 1)));
        }
        i += 1;
    }
    assert(s@.take(i as int) =~= s@);
}

fn push_row(out: &mut String, row: &Vec<String>)
    ensures
        final(out)@ == old(out)@ + "|"@ + row_cells(views(row@)) + "\n"@,
{
    out.append("|");
    let ghost opened = out@;
    let ghost all = views(row@);
    let mut i: usize = 0;
    assert(all.take(0) =~= Seq::empty());
    assert(opened + Seq::empty() =~= opened);
    while i < row.len()
        invariant
            i <= row@.len(),
            all == views(row@),
            out@ == opened + row_cells(all.take(i as int)),
        decreases row.len() - i,
    {
        out.append(" ");
        push_piped(out, row[i].as_str());
        out.append(" |");
        proof {
            assert(all.take(i + 1).drop_last() =~= all.take(i as int));
            assert(out@ =~= opened + row_cells(all.take(i + 1)));
        }
        i += 1;
    }
    assert(all.take(i as int) =~= all);
    out.append("\n");
}

/// Render a markdown table, escaping `|` in every cell so an embedded pipe
/// can't be mistaken for a column delimiter and break the table layout.
fn render_table(out: &mut String, headers: &Vec<String>, rows: &Vec<Vec<String>>)
    ensures
        final(out)@ == old(out)@ + table_text(views(headers@), cells(rows@)),
{
    let ghost start = out@;
    push_row(out, headers);
    let ghost top = out@;
    out.append("|");
    let ghost opened = out@;
    let mut i: usize = 0;
    assert(opened + Seq::empty() =~= opened);
    while i < headers.len()
        invariant
            i <= headers@.len(),
            out@ == opened + rule_cells(i as nat),
        decreases headers.len() - i,
    {
        out.append(" --- |");
        i += 1;
        assert(out@ =~= opened + rule_cells(i as nat));
    }
    out.append("\n");
    let ghost ruled = out@;
    let ghost all = cells(rows@);
    let mut k: usize = 0;
    assert(all.take(0) =~= Seq::empty());
    assert(ruled + Seq::empty() =~= ruled);
    while k < rows.len()
        invariant
            k <= rows@.len(),
            all == cells(rows@),
            out@ == ruled + row_lines(all.take(k as int)),
        decreases rows.len() - k,
    {
        push_row(out, &rows[k]);
        proof {
            assert(all.take(k + 1).drop_last() =~= all.take(k as int));
            assert(all.take(k + 1).last() == views(rows@[k as int]@));
            assert(out@ =~= ruled + row_lines(all.take(k + 1)));
        }
        k += 1;
    }
    assert(all.take(k as int) =~= all);
    assert(out@ =~= start + table_text(views(headers@), cells(rows@)));
}

fn push_piece(out: &mut String, piece: &Piece)
    ensures
        final(out)@ == old(out)@ + piece@.text(),
{
    let ghost start = out@;
    match piece {
        Piece::Heading(level, text) => {
            let mut k: usize = 0;
            assert(start + hashes(0) =~= start);
            while k < *level
                invariant
                    k <= *level,
                    out@ == start + hashes(k as nat),
                decreases *level - k,
            {
                out.push('#');
                k += 1;
                assert(out@ =~= start + hashes(k as nat));
            }
            out.append(" ");
            out.append(text.as_str());
            out.append("\n\n");
        },
        Piece::Paragraph(text) => {
            out.append(text.as_str());
            out.append("\n\n");
        },
        Piece::Bullet(text) => {
            out.append("- ");
            out.append(text.as_str());
            out.append("\n");
        },
        Piece::Table(headers, rows) => {
            render_table(out, headers, rows);
            out.append("\n");
        },
    }
    assert(out@ =~= start + piece@.text());
}

/// An incrementally built markdown digest (the GitHub Actions job summary).
///
/// Methods return `&mut Self` so a summary can be built as one chained
/// expression — heading, some paragraphs, a table — without a local mutable
/// binding at every step.
#[derive(Debug, Clone)]
pub struct Summary {
    pieces: Vec<Piece>,
}

impl View for Summary {
    type V = Seq<PieceView>;

    closed spec fn view(&self) -> Seq<PieceView> {
        views(self.pieces@)
    }
}

impl Default for Summary {
    fn default() -> (s: Self)
        ensures
            s@ == Seq::<PieceView>::empty(),
    {
        Summary::new()
    }
}

impl Summary {
    /// An empty summary. [`Summary::render`] on it is `""`.
    pub fn new() -> (s: Self)
        ensures
            s@ == Seq::<PieceView>::empty(),
    {
        let s = Summary { pieces: Vec::new() };
        assert(s@ =~= Seq::<PieceView>::empty());
        s
    }

    /// Append a heading. `level` must be `1..=6`, matching markdown's `#`
    /// nesting.
    pub fn heading(&mut self, level: usize, text: &str) -> (s: &mut Self)
        requires
            1 <= level <= 6,
        ensures
            s@ == old(self)@.push(PieceView::Heading(level as nat, text@)),
            *final(self) == *final(s),
    {
        let ghost before = self@;
        self.pieces.push(Piece::Heading(level, text.to_owned()));
        assert(self@ =~= before.push(PieceView::Heading(level as nat, text@)));
        self
    }

    /// Append a paragraph.
    pub fn paragraph(&mut self, text: &str) -> (s: &mut Self)
        ensures
            s@ == old(self)@.push(PieceView::Paragraph(text@)),
            *final(self) == *final(s),
    {
        let ghost before = self@;
        self.pieces.push(Piece::Paragraph(text.to_owned()));
        assert(self@ =~= before.push(PieceView::Paragraph(text@)));
        self
    }

    /// Append a single bullet-list item.
    ///
    /// Consecutive bullets render as one markdown list because each renders
    /// as its own `- ` line with no blank line separating it from the next.
    pub fn bullet(&mut self, text: &str) -> (s: &mut Self)
        ensures
            s@ == old(self)@.push(PieceView::Bullet(text@)),
            *final(self) == *final(s),
    {
        let ghost before = self@;
        self.pieces.push(Piece::Bullet(text.to_owned()));
        assert(self@ =~= before.push(PieceView::Bullet(text@)));
        self
    }

    /// Append a markdown table.
    ///
    /// Every row's cell count must equal `headers.len()`: padding or truncating a
    /// mismatched row would silently misattribute a value to the wrong column in a
    /// rendered report nobody re-checks by hand.
    pub fn table(&mut self, headers: &[&str], rows: &[Vec<String>]) -> (s: &mut Self)
        requires
            forall|i: int| 0 <= i < rows@.len() ==> (#[trigger] rows@[i])@.len() == headers@.len(),
        ensures
            s@ == old(self)@.push(PieceView::Table(views(headers@), cells(rows@))),
            *final(self) == *final(s),
    {
        let ghost before = self@;
        let mut titles: Vec<String> = Vec::new();
        let mut i: usize = 0;
        while i < headers.len()
            invariant
                i <= headers@.len(),
                views(titles@) == views(headers@).take(i as int),
            decreases headers.len() - i,
        {
            let ghost held = views(titles@);
            titles.push(headers[i].to_owned());
            assert(views(titles@) =~= held.push(headers@[i as int]@));
            i += 1;
            assert(views(titles@) =~= views(headers@).take(i as int));
        }
        assert(views(titles@) =~= views(headers@));
        let mut lines: Vec<Vec<String>> = Vec::new();
        let mut k: usize = 0;
        while k < rows.len()
            invariant
                k <= rows@.len(),
                cells(lines@) == cells(rows@).take(k as int),
            decreases rows.len() - k,
        {
            let ghost held = cells(lines@);
            lines.push(crate::report::cloned_all(&rows[k]));
            assert(cells(lines@) =~= held.push(views(rows@[k as int]@)));
            k += 1;
            assert(cells(lines@) =~= cells(rows@).take(k as int));
        }
        assert(cells(lines@) =~= cells(rows@));
        self.pieces.push(Piece::Table(titles, lines));
        assert(self@ =~= before.push(PieceView::Table(views(headers@), cells(rows@))));
        self
    }

    /// Whether nothing has been added.
    pub fn is_empty(&self) -> (r: bool)
        ensures
            r == (self@.len() == 0),
    {
        self.pieces.len() == 0
    }

    /// Render the accumulated blocks as markdown.
    ///
    /// Blocks leave a blank line behind them to separate them from whatever
    /// follows; the very last one does not leave one dangling at the end of the
    /// document.
    pub fn render(&self) -> (out: String)
        ensures
            out@ == document(pieces_text(self@)),
    {
        let mut all = String::new();
        let ghost pieces = self@;
        let mut i: usize = 0;
        assert(pieces.take(0) =~= Seq::empty());
        while i < self.pieces.len()
            invariant
                i <= self.pieces@.len(),
                pieces == self@,
                pieces == views(self.pieces@),
                all@ == pieces_text(pieces.take(i as int)),
            decreases self.pieces.len() - i,
        {
            push_piece(&mut all, &self.pieces[i]);
            assert(pieces.take(i + 1).drop_last() =~= pieces.take(i as int));
            i += 1;
        }
        assert(pieces.take(i as int) =~= pieces);
        let chars = chars_of(all.as_str());
        let mut n: usize = chars.len();
        assert(chars@.take(n as int) =~= chars@);
        while n > 0 && chars[n - 1] == '\n'
            invariant
                n <= chars@.len(),
                unended(chars@) == unended(chars@.take(n as int)),
            decreases n,
        {
            assert(chars@.take(n as int).drop_last() =~= chars@.take(n - 1));
            n -= 1;
        }
        let mut out = text_between(chars.as_slice(), 0, n);
        assert(out@ =~= unended(all@));
        if n > 0 {
            out.push('\n');
        }
        out
    }
}

// ---------------------------------------------------------------------------- laws

/// A text without line breaks.
pub open spec fn one_line(s: Seq<char>) -> bool {
    forall|i: int| 0 <= i < s.len() ==> #[trigger] s[i] != '\n' && s[i] != '\r'
}

proof fn lemma_escaped_char_is_plain(c: char, property: bool)
    ensures
        one_line(escaped_char(c, property)),
        forall|i: int|
            0 <= i < escaped_char(c, true).len() ==> #[trigger] escaped_char(c, true)[i] != ':'
                && escaped_char(c, true)[i] != ',',
{
}

/// Escaping leaves no line break, and in a property value no delimiter either.
pub proof fn lemma_escaped_is_plain(s: Seq<char>, property: bool)
    ensures
        one_line(escaped(s, property)),
        property ==> forall|i: int|
            0 <= i < escaped(s, property).len() ==> #[trigger] escaped(s, property)[i] != ':'
                && escaped(s, property)[i] != ',',
    decreases s.len(),
{
    if s.len() > 0 {
        lemma_escaped_is_plain(s.drop_last(), property);
        lemma_escaped_char_is_plain(s.last(), property);
        let (front, back) = (escaped(s.drop_last(), property), escaped_char(s.last(), property));
        assert forall|i: int| 0 <= i < (front + back).len() implies #[trigger] (front + back)[i]
            != '\n' && (front + back)[i] != '\r' by {
            if i >= front.len() {
                assert((front + back)[i] == back[i - front.len()]);
            } else {
                assert((front + back)[i] == front[i]);
            }
        }
        if property {
            assert forall|i: int| 0 <= i < (front + back).len() implies #[trigger] (front + back)[i]
                != ':' && (front + back)[i] != ',' by {
                if i >= front.len() {
                    assert((front + back)[i] == back[i - front.len()]);
                } else {
                    assert((front + back)[i] == front[i]);
                }
            }
        }
    }
}

/// Different texts stay different when escaped: what was escaped can be read back.
pub proof fn lemma_escaping_loses_nothing(a: Seq<char>, b: Seq<char>, property: bool)
    requires
        escaped(a, property) == escaped(b, property),
    ensures
        a == b,
    decreases a.len() + b.len(),
{
    lemma_starts(a, property);
    lemma_starts(b, property);
    if a.len() == 0 || b.len() == 0 {
        assert(a =~= b);
    } else {
        let all = escaped(a, property);
        let (ca, cb) = (escaped_char(a[0], property), escaped_char(b[0], property));
        let (ra, rb) = (
            escaped(a.drop_first(), property),
            escaped(b.drop_first(), property),
        );
        assert(all == ca + ra && all == cb + rb);
        assert(all[0] == ca[0] && all[0] == cb[0]);
        if all[0] == '%' {
            assert(ca.len() == 3 && cb.len() == 3);
            assert(all[1] == ca[1] && all[1] == cb[1]);
            assert(all[2] == ca[2] && all[2] == cb[2]);
        }
        assert(a[0] == b[0]);
        assert(ra =~= all.skip(ca.len() as int));
        assert(rb =~= all.skip(cb.len() as int));
        lemma_escaping_loses_nothing(a.drop_first(), b.drop_first(), property);
        assert(a =~= seq![a[0]] + a.drop_first());
        assert(b =~= seq![b[0]] + b.drop_first());
    }
}

/// An escaped text starts with its first character, escaped.
proof fn lemma_starts(s: Seq<char>, property: bool)
    ensures
        s.len() == 0 ==> escaped(s, property).len() == 0,
        s.len() > 0 ==> escaped(s, property) == escaped_char(s[0], property) + escaped(
            s.drop_first(),
            property,
        ) && escaped(s, property).len() > 0,
    decreases s.len(),
{
    if s.len() == 1 {
        assert(s.drop_last() =~= Seq::empty());
        assert(s.drop_first() =~= Seq::empty());
        assert(escaped(s, property) =~= escaped_char(s[0], property) + escaped(
            s.drop_first(),
            property,
        ));
    } else if s.len() > 1 {
        let front = s.drop_last();
        lemma_starts(front, property);
        assert(front.drop_first() =~= s.drop_first().drop_last());
        assert(s.drop_first().last() == s.last());
        assert(escaped(s, property) =~= escaped_char(s[0], property) + escaped(
            s.drop_first(),
            property,
        ));
    }
}

proof fn lemma_decimal_is_one_line(n: nat)
    ensures
        one_line(decimal(n)),
    decreases n,
{
    if n >= 10 {
        lemma_decimal_is_one_line(n / 10);
    }
}

proof fn lemma_one_line_concat(x: Seq<char>, y: Seq<char>)
    requires
        one_line(x),
        one_line(y),
    ensures
        one_line(x + y),
{
    assert forall|i: int| 0 <= i < (x + y).len() implies #[trigger] (x + y)[i] != '\n' && (x
        + y)[i] != '\r' by {
        if i < x.len() {
            assert((x + y)[i] == x[i]);
        } else {
            assert((x + y)[i] == y[i - x.len()]);
        }
    }
}

proof fn lemma_number_property(key: Seq<char>, n: Option<usize>)
    requires
        one_line(key),
    ensures
        one_line(AnnotationView::number_property(key, n)),
{
    if let Some(n) = n {
        lemma_decimal_is_one_line(n as nat);
        lemma_one_line_concat(key, decimal(n as nat));
    }
}

/// A workflow command is a single line, whatever its file, title and message hold.
pub proof fn lemma_command_is_one_line(a: AnnotationView)
    ensures
        one_line(a.command()),
{
    reveal_strlit("::");
    reveal_strlit("notice");
    reveal_strlit("warning");
    reveal_strlit("error");
    reveal_strlit(" file=");
    reveal_strlit(",line=");
    reveal_strlit(",endLine=");
    reveal_strlit(",title=");
    let head = "::"@ + a.severity.name() + " file="@;
    lemma_one_line_concat("::"@, a.severity.name());
    lemma_one_line_concat("::"@ + a.severity.name(), " file="@);
    lemma_escaped_is_plain(a.file, true);
    lemma_one_line_concat(head, escaped(a.file, true));
    let one = head + escaped(a.file, true);
    let line = AnnotationView::number_property(",line="@, a.start_line);
    lemma_number_property(",line="@, a.start_line);
    lemma_one_line_concat(one, line);
    let end = AnnotationView::number_property(",endLine="@, a.end_line);
    lemma_number_property(",endLine="@, a.end_line);
    lemma_one_line_concat(one + line, end);
    if let Some(t) = a.title {
        lemma_escaped_is_plain(t, true);
        lemma_one_line_concat(",title="@, escaped(t, true));
    }
    lemma_one_line_concat(one + line + end, a.title_property());
    lemma_one_line_concat(one + line + end + a.title_property(), "::"@);
    lemma_escaped_is_plain(a.message, false);
    lemma_one_line_concat(
        one + line + end + a.title_property() + "::"@,
        escaped(a.message, false),
    );
}

/// A rendered document ends in exactly one line feed, or is empty.
pub proof fn lemma_document_ends_once(s: Seq<char>)
    ensures
        document(s).len() > 0 ==> document(s).last() == '\n',
        document(s).len() > 1 ==> document(s)[document(s).len() - 2] != '\n',
        document(s).len() != 1,
{
    lemma_unended(s);
}

proof fn lemma_unended(s: Seq<char>)
    ensures
        unended(s).len() > 0 ==> unended(s).last() != '\n',
    decreases s.len(),
{
    if s.len() > 0 && s.last() == '\n' {
        lemma_unended(s.drop_last());
    }
}

/// Escaping goes character by character. Percent signs and line breaks are written as
/// their codes, in a property value colons and commas too, and every other character as
/// itself.
pub proof fn lemma_escaping_goes_character_by_character(
    a: Seq<char>,
    b: Seq<char>,
    c: char,
    property: bool,
)
    ensures
        escaped(a + b, property) == escaped(a, property) + escaped(b, property),
        escaped(Seq::empty(), property).len() == 0,
        c == '%' ==> escaped(seq![c], property) == seq!['%', '2', '5'],
        c == '\r' ==> escaped(seq![c], property) == seq!['%', '0', 'D'],
        c == '\n' ==> escaped(seq![c], property) == seq!['%', '0', 'A'],
        c == ':' && property ==> escaped(seq![c], property) == seq!['%', '3', 'A'],
        c == ',' && property ==> escaped(seq![c], property) == seq!['%', '2', 'C'],
        c != '%' && c != '\r' && c != '\n' && !(property && (c == ':' || c == ',')) ==> escaped(
            seq![c],
            property,
        ) == seq![c],
    decreases b.len(),
{
    let one = seq![c];
    assert(one.drop_last() =~= Seq::empty());
    assert(escaped(one.drop_last(), property) =~= Seq::empty());
    assert(escaped(one, property) =~= escaped_char(c, property));
    if b.len() == 0 {
        assert(a + b =~= a);
        assert(escaped(a, property) + escaped(b, property) =~= escaped(a, property));
    } else {
        lemma_escaping_goes_character_by_character(a, b.drop_last(), c, property);
        assert((a + b).drop_last() =~= a + b.drop_last());
        assert(escaped(a + b, property) =~= escaped(a, property) + escaped(b, property));
    }
}

/// In a table a pipe is written with a backslash, and every other character as itself.
pub proof fn lemma_only_pipes_are_escaped_in_tables(a: Seq<char>, b: Seq<char>, c: char)
    ensures
        piped(a + b) == piped(a) + piped(b),
        piped(Seq::empty()).len() == 0,
        c == '|' ==> piped(seq![c]) == seq!['\\', '|'],
        c != '|' ==> piped(seq![c]) == seq![c],
    decreases b.len(),
{
    let one = seq![c];
    assert(one.drop_last() =~= Seq::empty());
    assert(piped(one.drop_last()) =~= Seq::empty());
    assert(piped(one) =~= if c == '|' {
        seq!['\\', '|']
    } else {
        seq![c]
    });
    if b.len() == 0 {
        assert(a + b =~= a);
        assert(piped(a) + piped(b) =~= piped(a));
    } else {
        lemma_only_pipes_are_escaped_in_tables(a, b.drop_last(), c);
        assert((a + b).drop_last() =~= a + b.drop_last());
        assert(piped(a + b) =~= piped(a) + piped(b));
    }
}

/// A workflow command says how severe, in which file, at which lines and under which title
/// where there are such, and then the message, whatever any of them holds.
pub proof fn lemma_a_command_says_everything(a: AnnotationView)
    ensures
        a.command() == "::"@ + (match a.severity {
            Severity::Notice => "notice"@,
            Severity::Warning => "warning"@,
            Severity::Error => "error"@,
        }) + " file="@ + escaped(a.file, true) + (match a.start_line {
            Some(n) => ",line="@ + decimal(n as nat),
            None => Seq::empty(),
        }) + (match a.end_line {
            Some(n) => ",endLine="@ + decimal(n as nat),
            None => Seq::empty(),
        }) + (match a.title {
            Some(t) => ",title="@ + escaped(t, true),
            None => Seq::empty(),
        }) + "::"@ + escaped(a.message, false),
{
}

/// A row of a table: every cell between pipes, on a line of its own.
pub open spec fn row_of(cells: Seq<Seq<char>>) -> Seq<char> {
    seq!['|'] + cells.map_values(|c: Seq<char>| seq![' '] + piped(c) + seq![' ', '|']).flatten_alt()
        + seq!['\n']
}

proof fn lemma_row_of(cells: Seq<Seq<char>>)
    ensures
        row_cells(cells) == cells.map_values(
            |c: Seq<char>| seq![' '] + piped(c) + seq![' ', '|'],
        ).flatten_alt(),
        "|"@ + row_cells(cells) + "\n"@ == row_of(cells),
    decreases cells.len(),
{
    let cell = |c: Seq<char>| seq![' '] + piped(c) + seq![' ', '|'];
    reveal_strlit("|");
    reveal_strlit("\n");
    reveal_strlit(" ");
    reveal_strlit(" |");
    assert("|"@ =~= seq!['|']);
    assert("\n"@ =~= seq!['\n']);
    assert(" "@ =~= seq![' ']);
    assert(" |"@ =~= seq![' ', '|']);
    if cells.len() > 0 {
        lemma_row_of(cells.drop_last());
        let (all, front) = (cells.map_values(cell), cells.drop_last().map_values(cell));
        assert(all.drop_last() =~= front);
        assert(all.last() == cell(cells.last()));
        assert(row_cells(cells) =~= front.flatten_alt() + all.last());
    } else {
        assert(cells.map_values(cell).flatten_alt() =~= Seq::empty());
    }
}

proof fn lemma_rows(rows: Seq<Seq<Seq<char>>>)
    ensures
        row_lines(rows) == rows.map_values(|r: Seq<Seq<char>>| row_of(r)).flatten_alt(),
    decreases rows.len(),
{
    let line = |r: Seq<Seq<char>>| row_of(r);
    if rows.len() > 0 {
        lemma_rows(rows.drop_last());
        lemma_row_of(rows.last());
        let (all, front) = (rows.map_values(line), rows.drop_last().map_values(line));
        assert(all.drop_last() =~= front);
        assert(all.last() == row_of(rows.last()));
        assert(row_lines(rows) =~= front.flatten_alt() + all.last());
    } else {
        assert(rows.map_values(line).flatten_alt() =~= Seq::empty());
    }
}

proof fn lemma_rule(n: nat)
    ensures
        rule_cells(n) == Seq::new(n, |i: int| " --- |"@).flatten_alt(),
    decreases n,
{
    let all = Seq::new(n, |i: int| " --- |"@);
    if n > 0 {
        lemma_rule((n - 1) as nat);
        assert(all.drop_last() =~= Seq::new((n - 1) as nat, |i: int| " --- |"@));
    } else {
        assert(all.flatten_alt() =~= Seq::empty());
    }
}

/// A summary shows every block of it, in the order they were added: headings with as many
/// marks as their level, paragraphs and tables with an empty line behind them, and a table
/// with its headers, a rule and every row, every cell of it between pipes.
pub proof fn lemma_every_block_is_shown(pieces: Seq<PieceView>)
    ensures
        pieces_text(pieces) == pieces.map_values(|p: PieceView| p.text()).flatten_alt(),
        forall|i: int|
            0 <= i < pieces.len() ==> match #[trigger] pieces[i] {
                PieceView::Heading(level, text) => pieces[i].text() == Seq::new(
                    level,
                    |k: int| '#',
                ) + seq![' '] + text + seq!['\n', '\n'],
                PieceView::Paragraph(text) => pieces[i].text() == text + seq!['\n', '\n'],
                PieceView::Bullet(text) => pieces[i].text() == seq!['-', ' '] + text + seq!['\n'],
                PieceView::Table(headers, rows) => pieces[i].text() == row_of(headers) + (seq!['|']
                    + Seq::new(headers.len(), |k: int| " --- |"@).flatten_alt() + seq!['\n'])
                    + rows.map_values(|r: Seq<Seq<char>>| row_of(r)).flatten_alt() + seq!['\n'],
            },
    decreases pieces.len(),
{
    let shown = |p: PieceView| p.text();
    reveal_strlit("\n\n");
    reveal_strlit("\n");
    reveal_strlit(" ");
    reveal_strlit("- ");
    reveal_strlit("|");
    assert("\n\n"@ =~= seq!['\n', '\n']);
    assert("\n"@ =~= seq!['\n']);
    assert(" "@ =~= seq![' ']);
    assert("- "@ =~= seq!['-', ' ']);
    assert("|"@ =~= seq!['|']);
    if pieces.len() > 0 {
        lemma_every_block_is_shown(pieces.drop_last());
        let (all, front) = (pieces.map_values(shown), pieces.drop_last().map_values(shown));
        assert(all.drop_last() =~= front);
        assert(pieces_text(pieces) =~= front.flatten_alt() + all.last());
    } else {
        assert(pieces.map_values(shown).flatten_alt() =~= Seq::empty());
    }
    assert forall|i: int| 0 <= i < pieces.len() implies match #[trigger] pieces[i] {
        PieceView::Heading(level, text) => pieces[i].text() == Seq::new(level, |k: int| '#')
            + seq![' '] + text + seq!['\n', '\n'],
        PieceView::Paragraph(text) => pieces[i].text() == text + seq!['\n', '\n'],
        PieceView::Bullet(text) => pieces[i].text() == seq!['-', ' '] + text + seq!['\n'],
        PieceView::Table(headers, rows) => pieces[i].text() == row_of(headers) + (seq!['|']
            + Seq::new(headers.len(), |k: int| " --- |"@).flatten_alt() + seq!['\n'])
            + rows.map_values(|r: Seq<Seq<char>>| row_of(r)).flatten_alt() + seq!['\n'],
    } by {
        match pieces[i] {
            PieceView::Table(headers, rows) => {
                lemma_row_of(headers);
                lemma_rule(headers.len());
                lemma_rows(rows);
                let rule = seq!['|'] + rule_cells(headers.len()) + seq!['\n'];
                assert(pieces[i].text() =~= row_of(headers) + rule + row_lines(rows) + seq!['\n']);
            },
            PieceView::Heading(level, text) => {
                assert(hashes(level) =~= Seq::new(level, |k: int| '#'));
            },
            _ => {},
        }
    }
}

/// A rendered document is its text, but for the line feeds at the end.
pub proof fn lemma_a_document_is_its_text(s: Seq<char>)
    ensures
        document(s).len() > 0 ==> exists|k: nat|
            s == document(s).drop_last() + #[trigger] line_feeds(k),
        document(s).len() == 0 ==> s == line_feeds(s.len()),
{
    let k = (s.len() - unended(s).len()) as nat;
    lemma_unended_is_front(s);
    if unended(s).len() > 0 {
        assert(document(s).drop_last() =~= unended(s));
        assert(s == document(s).drop_last() + line_feeds(k));
    } else {
        assert(unended(s) + line_feeds(k) =~= line_feeds(k));
    }
}

/// So many line feeds.
pub open spec fn line_feeds(k: nat) -> Seq<char> {
    Seq::new(k, |i: int| '\n')
}

proof fn lemma_unended_is_front(s: Seq<char>)
    ensures
        unended(s).len() <= s.len(),
        s == unended(s) + line_feeds((s.len() - unended(s).len()) as nat),
    decreases s.len(),
{
    if s.len() > 0 && s.last() == '\n' {
        lemma_unended_is_front(s.drop_last());
        assert(s =~= s.drop_last().push('\n'));
    }
    assert(s =~= unended(s) + line_feeds((s.len() - unended(s).len()) as nat));
}

} // verus!
